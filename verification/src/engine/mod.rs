pub mod matcher;
pub mod settlement;
pub mod twap;
