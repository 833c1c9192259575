pub mod engine;
pub mod fix;
pub mod lob;
pub mod net;
