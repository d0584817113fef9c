//! A verified bridge between a circuit-compiler intermediate representation
//! and a non-interactive zero-knowledge proof system over a prime field.
//!
//! The crate covers two coupled subsystems: a staged witness computation
//! (a flat, topologically sorted DAG program evaluated stage by stage) and
//! the translation of a symbolic rank-1 constraint system into the dense,
//! index-keyed sparse matrices that the NIZK scheme consumes, together with
//! the prover and verifier drivers and a binary artifact codec.

use vstd::prelude::*;

pub mod bytes;
pub mod codec;
pub mod driver;
pub mod env;
pub mod errors;
pub mod eval;
pub mod field;
pub mod op;
pub mod r1cs;
pub mod swc;
pub mod trusted;
pub mod value;
