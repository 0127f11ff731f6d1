//! Buffered, resumable streaming of self-delimiting frames of stored blocks:
//! an encoding adapter over a byte sink that may accept writes only in part,
//! a decoding adapter with single- and multi-frame termination, and one-shot
//! helpers built on the two.

pub mod decode;
pub mod decoder;
pub mod encoder;
pub mod frame;
pub mod laws;
pub mod oneshot;

pub use decoder::Decoder;
pub use encoder::{
    refusal_of, should_retry, EncState, Encoder, Sink, SinkMode, ThrottledSink, FINISH_ATTEMPTS,
};
pub use frame::{Error, ErrorKind};
pub use oneshot::{copy_encode, decode_all, encode_all, test_full_cycle};
