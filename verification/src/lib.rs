pub mod encode_decode;
pub mod error;
pub mod hex_text;
pub mod laws;
pub mod transaction;
pub mod types;
pub mod wire;
