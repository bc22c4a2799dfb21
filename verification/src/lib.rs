pub mod codec;
pub mod data;
