//! Erasure coding of byte buffers into data and parity fragments.
//!
//! A buffer is split into `k` data fragments and extended with `m` parity
//! fragments; any `k` of the `k + m` fragments give the buffer back, and any
//! single fragment can be rebuilt from `k` others.
pub mod bytes;
pub mod coder;
pub mod codec;
pub mod config;
pub mod fragment;
pub mod result;

pub use coder::{Builder, ErasureCoder};
pub use config::{Backend, Checksum};
pub use result::{Error, Result};
