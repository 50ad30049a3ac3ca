pub mod segment;
pub mod wheel;
pub mod task;
pub mod merge;
pub mod manager;
