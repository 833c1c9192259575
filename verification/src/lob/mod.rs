pub mod arena;
pub mod orderbook;
pub mod rbtree;
