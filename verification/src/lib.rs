//! Online codes: a rateless erasure code whose check blocks are the XOR of
//! pseudo-randomly chosen blocks of the message and of a few auxiliary
//! blocks, decoded by peeling.
//!
//! Sender and receiver derive every random choice from the stream
//! identifier and the check block identifier, so a check block travels as
//! its identifier and its bytes alone.
pub mod coder;
pub mod decode;
pub mod degree;
pub mod encode;
pub mod laws;
pub mod model;
pub mod recover;
pub mod rng;
pub mod types;
pub mod undecoded;
pub mod util;
pub mod xor;

pub use crate::coder::{Epsilon, OnlineCoder};
pub use crate::decode::{DecodeResult, Decoder};
pub use crate::encode::Encoder;
pub use crate::rng::DegreeDistribution;
pub use crate::types::{BlockIndex, CheckBlockId, CodeError, StreamId};
