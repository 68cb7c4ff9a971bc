use vstd::prelude::*;

verus! {

/// A generic timestamp to order events.
///
/// A timestamp is an opaque, totally ordered, copyable scalar; events in a
/// journal are ordered by it, and retention watermarks are addressed with it.
/// Nothing beyond equality and ordering is required of it.
pub trait Timestamp: Sized + Copy {
    /// The ordering relation: `self` is at or before `other`.
    spec fn le_spec(self, other: Self) -> bool;

    /// `le_spec` is a total order: reflexive, antisymmetric, transitive,
    /// and total.
    proof fn lemma_total_order(a: Self, b: Self, c: Self)
        ensures
            a.le_spec(a),
            a.le_spec(b) && b.le_spec(a) ==> a == b,
            a.le_spec(b) && b.le_spec(c) ==> a.le_spec(c),
            a.le_spec(b) || b.le_spec(a),
    ;

    /// Executable comparison, agreeing with `le_spec`.
    fn le(&self, other: &Self) -> (r: bool)
        ensures
            r == self.le_spec(*other),
    ;
}

impl Timestamp for u64 {
    open spec fn le_spec(self, other: u64) -> bool {
        self <= other
    }

    proof fn lemma_total_order(a: u64, b: u64, c: u64) {
    }

    fn le(&self, other: &u64) -> (r: bool) {
        *self <= *other
    }
}

impl Timestamp for u32 {
    open spec fn le_spec(self, other: u32) -> bool {
        self <= other
    }

    proof fn lemma_total_order(a: u32, b: u32, c: u32) {
    }

    fn le(&self, other: &u32) -> (r: bool) {
        *self <= *other
    }
}

} // verus!
