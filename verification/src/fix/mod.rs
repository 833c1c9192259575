pub mod scanner;
pub mod ringbuffer;
