pub mod client;
pub mod engine;
pub mod wire;
