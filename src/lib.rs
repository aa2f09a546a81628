pub mod codec;
pub mod arith;
pub mod store;
pub mod engine;
pub mod laws;
