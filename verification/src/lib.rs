pub mod codec;
pub mod engine;
pub mod framing;
pub mod protocol;
pub mod relay;
pub mod writer;
