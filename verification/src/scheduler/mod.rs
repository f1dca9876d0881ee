pub mod batching;
pub mod ownership;
pub mod conservation;
