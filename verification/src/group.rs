//! Commitment-group abstraction: the capability contract for the prime-order
//! group that MSM results live in, together with a concrete cyclic group that
//! instantiates it.
use vstd::prelude::*;

verus! {

use crate::field::{FieldOps, Fp, FIELD_MODULUS};

/// Capability contract for a prime-order commitment group, written additively.
///
/// A prime-order group is cyclic, so an element is modelled by its discrete
/// position `value()` with respect to a fixed generator, an integer in
/// `[0, order())`. The group's order equals the modulus of its scalar field,
/// so scalar multiplication is multiplication of the two representatives.
pub trait GroupOps: Sized + Copy {
    /// The scalar field acting on this group.
    type Scalar: FieldOps;

    /// The group order.
    spec fn order() -> int;

    /// The discrete position of this element with respect to the generator.
    spec fn value(self) -> int;

    /// The order is nontrivial and equals the scalar field's modulus.
    proof fn order_facts()
        ensures
            Self::order() == <Self::Scalar as FieldOps>::modulus(),
            1 < Self::order(),
    ;

    /// Every element denotes a canonical position.
    proof fn value_canonical(self)
        ensures
            0 <= self.value() < Self::order(),
    ;

    /// The group identity.
    fn identity() -> (r: Self)
        ensures
            r.value() == 0,
    ;

    /// The group law.
    fn gadd(self, other: Self) -> (r: Self)
        ensures
            r.value() == (self.value() + other.value()) % Self::order(),
    ;

    /// Doubling: the sum of an element with itself.
    fn gdouble(self) -> (r: Self)
        ensures
            r.value() == (2 * self.value()) % Self::order(),
    ;
}

/// A concrete commitment group: the cyclic group of order `FIELD_MODULUS`
/// under addition, with `Fp` as its scalar field.
///
/// The engines are generic over `GroupOps`; this instance lets them be
/// exercised end to end with exact, fully checked arithmetic.
#[derive(Clone, Copy, Debug, PartialEq, Eq, Structural)]
pub struct CyclicGroup {
    v: u64,
}

impl GroupOps for CyclicGroup {
    type Scalar = Fp;

    open spec fn order() -> int {
        FIELD_MODULUS as int
    }

    closed spec fn value(self) -> int {
        self.v as int % (FIELD_MODULUS as int)
    }

    proof fn order_facts() {
    }

    proof fn value_canonical(self) {
    }

    fn identity() -> (r: Self) {
        CyclicGroup { v: 0 }
    }

    fn gadd(self, other: Self) -> (r: Self) {
        let s = self.v % FIELD_MODULUS + other.v % FIELD_MODULUS;
        let r = CyclicGroup { v: s % FIELD_MODULUS };
        proof {
            vstd::arithmetic::div_mod::lemma_mod_twice(s as int, FIELD_MODULUS as int);
        }
        r
    }

    fn gdouble(self) -> (r: Self) {
        let s = 2 * (self.v % FIELD_MODULUS);
        let r = CyclicGroup { v: s % FIELD_MODULUS };
        proof {
            vstd::arithmetic::div_mod::lemma_mod_twice(s as int, FIELD_MODULUS as int);
            assert(s as int == 2 * (self.v as int % (FIELD_MODULUS as int)));
        }
        r
    }
}

/// Builds the group element at a given discrete position; the entry point a
/// test or caller uses to fix concrete bases.
pub fn group_element_at(position: u64) -> (r: CyclicGroup)
    ensures
        r.value() == position as int % <CyclicGroup as GroupOps>::order(),
{
    let r = CyclicGroup { v: position % FIELD_MODULUS };
    proof {
        vstd::arithmetic::div_mod::lemma_mod_twice(position as int, FIELD_MODULUS as int);
    }
    r
}

} // verus!
