//! Reed-Solomon error correction over GF(256).
pub mod galois;
pub mod encoder;
pub mod block;
pub mod decoder;
pub mod ec_bench;
pub mod codeword;
pub mod correction;
