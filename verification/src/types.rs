//! Shared types and sizes of the iris code.

use crate::bits::{bits_get, bits_len, bits_repeat, bits_set, CodeBits};
use vstd::prelude::*;

verus! {

/// Rings of the normalised iris.
pub const RADIAL_RES: usize = 20;

/// Angular samples of the normalised iris.
pub const ANGULAR_RES: usize = 240;

/// Bits of a template or a mask: two phase bits per polar cell.
pub const TEMPLATE_BITS: usize = 9600;

/// Identity of an eye image: subject, capture session, image within session.
#[derive(Debug, Clone, Copy, PartialEq, Eq, Hash, Structural)]
pub struct ImageId {
    pub subject: u16,
    pub session: u8,
    pub index: u8,
}

/// An iris code: two phase bits per polar cell.
pub struct Template {
    pub bits: CodeBits,
}

/// A noise mask over an iris code: a set bit marks an unusable code bit.
pub struct Mask {
    pub bits: CodeBits,
}

impl View for Template {
    type V = Seq<bool>;

    open spec fn view(&self) -> Seq<bool> {
        self.bits@
    }
}

impl View for Mask {
    type V = Seq<bool>;

    open spec fn view(&self) -> Seq<bool> {
        self.bits@
    }
}

impl Template {
    /// A template of `TEMPLATE_BITS` cleared bits.
    pub fn zeros() -> (res: Self)
        ensures
            res@ == Seq::new(TEMPLATE_BITS as nat, |i: int| false),
    {
        Template { bits: bits_repeat(false, TEMPLATE_BITS) }
    }
}

impl Mask {
    /// A mask of `TEMPLATE_BITS` cleared bits (nothing masked).
    pub fn zeros() -> (res: Self)
        ensures
            res@ == Seq::new(TEMPLATE_BITS as nat, |i: int| false),
    {
        Mask { bits: bits_repeat(false, TEMPLATE_BITS) }
    }
}

impl Template {
    /// Number of bits of the template.
    pub fn len(&self) -> (res: usize)
        ensures
            res == self@.len(),
    {
        bits_len(&self.bits)
    }

    /// Bit `i` of the template.
    pub fn bit(&self, i: usize) -> (res: bool)
        requires
            i < self@.len(),
        ensures
            res == self@[i as int],
    {
        bits_get(&self.bits, i)
    }

    /// A template holding the given bits.
    pub fn from_bools(values: &Vec<bool>) -> (res: Self)
        requires
            values@.len() <= usize::MAX / 8,
        ensures
            res@ == values@,
    {
        let n = values.len();
        let mut bits = bits_repeat(false, n);
        for i in 0..n
            invariant
                n == values@.len(),
                bits@.len() == n,
                forall|j: int| 0 <= j < i ==> bits@[j] == values@[j],
                forall|j: int| i <= j < n ==> !bits@[j],
        {
            bits_set(&mut bits, i, values[i]);
        }
        proof {
            assert(bits@ =~= values@);
        }
        Template { bits }
    }
}

impl Mask {
    /// Number of bits of the mask.
    pub fn len(&self) -> (res: usize)
        ensures
            res == self@.len(),
    {
        bits_len(&self.bits)
    }

    /// Bit `i` of the mask.
    pub fn bit(&self, i: usize) -> (res: bool)
        requires
            i < self@.len(),
        ensures
            res == self@[i as int],
    {
        bits_get(&self.bits, i)
    }

    /// A mask holding the given bits.
    pub fn from_bools(values: &Vec<bool>) -> (res: Self)
        requires
            values@.len() <= usize::MAX / 8,
        ensures
            res@ == values@,
    {
        let n = values.len();
        let mut bits = bits_repeat(false, n);
        for i in 0..n
            invariant
                n == values@.len(),
                bits@.len() == n,
                forall|j: int| 0 <= j < i ==> bits@[j] == values@[j],
                forall|j: int| i <= j < n ==> !bits@[j],
        {
            bits_set(&mut bits, i, values[i]);
        }
        proof {
            assert(bits@ =~= values@);
        }
        Mask { bits }
    }
}

} // verus!
