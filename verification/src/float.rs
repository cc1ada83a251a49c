//! The floating-point unit. The library holds a float as the 64 bits of its
//! encoding and never computes with one: where a pass needs the result of a
//! float operation it asks a unit that the caller supplies.
use crate::ir::{Literal, ValueOps};
use vstd::prelude::*;

verus! {

/// A question to the floating-point unit.
#[derive(Clone, Copy, Debug, PartialEq, Eq, Structural)]
pub enum FloatQuery {
    /// The result of a float opcode on two operands, each given by its bits.
    Binary(ValueOps, u64, u64),
    /// The float literal that an integer literal stands for.
    FromInt(i64),
}

/// A usable unit accepts every question and gives one answer to each.
pub open spec fn unit_ok<F: Fn(FloatQuery) -> Literal>(fl: &F) -> bool {
    &&& forall|q: FloatQuery| #[trigger] fl.requires((q,))
    &&& forall|q: FloatQuery, a: Literal, b: Literal|
        #[trigger] fl.ensures((q,), a) && #[trigger] fl.ensures((q,), b) ==> a == b
}

/// The answer of a usable unit to a question.
pub open spec fn answer<F: Fn(FloatQuery) -> Literal>(fl: &F, q: FloatQuery) -> Literal {
    choose|r: Literal| fl.ensures((q,), r)
}

/// Puts a question to the unit. The answer is what the unit itself
/// promises of it.
pub fn ask<F: Fn(FloatQuery) -> Literal>(fl: &F, q: FloatQuery) -> (r: Literal)
    requires
        unit_ok(fl),
    ensures
        fl.ensures((q,), r),
        r == answer(fl, q),
{
    fl(q)
}

} // verus!
