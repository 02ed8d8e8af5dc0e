//! Arithmetic primitives for elliptic-curve cryptography over secp256k1:
//! a finite-field layer (256-bit integers reduced modulo the field prime)
//! and a curve-point group layer built on top of it.

pub mod limbs;
pub mod field;
pub mod curve;
