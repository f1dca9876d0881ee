pub mod bytes;
pub mod parser;
pub mod weight_loader;
pub mod loader;
pub mod census;
