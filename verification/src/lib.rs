//! SHA-224 and SHA-256 with a portable scalar compressor, a two-lane
//! scheduling compressor, backend selection and streaming hashers.
pub mod consts;
pub mod dispatch;
pub mod hasher;
pub mod lanes;
pub mod oracle;
pub mod rng;
pub mod soft;
pub mod spec;
pub mod two_lane;
pub mod words;

pub use hasher::{Sha224, Sha256};
