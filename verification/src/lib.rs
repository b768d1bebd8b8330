//! A verified core of a HyperPlonk backend with a Zeromorph polynomial
//! commitment scheme over the BN254 curve.

pub mod arithmetic;
pub mod backend;
pub mod bigint;
pub mod codec;
pub mod completeness;
pub mod curve;
pub mod error;
pub mod expression;
pub mod field;
pub mod frontend;
pub mod hyperplonk;
pub mod kzg;
pub mod message;
pub mod pcs;
pub mod poly;
pub mod transcript;
pub mod univariate;
pub mod vanishing;
pub mod zeromorph;

use vstd::prelude::*;

verus! {

} // verus!
