//! A channel codec for hiding a payload in a fixed number of bits: the payload
//! is compressed, Reed-Solomon coded, expanded to bits and repeated to fill the
//! capacity; a received stream is split at delimiters into candidate copies,
//! each decoded on its own, and the most frequent text wins.
pub mod bits;
pub mod codec;
pub mod compress;
pub mod fec;
pub mod segment;
pub mod text;
pub mod vote;
