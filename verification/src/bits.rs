//! The bit-vector that holds iris codes and noise masks: a
//! `bitvec::vec::BitVec` with `u64` storage and least-significant-first
//! order, kept in a private field of [`CodeBits`].
//!
//! Verus does not see inside the outside collection: its contents are named
//! by [`bit_contents`], and every method of it that the library calls has a
//! wrapper here whose contract says, over that name, what the method does.

use bitvec::order::Lsb0;
use bitvec::vec::BitVec;
use vstd::prelude::*;

verus! {

/// A growable string of bits (`BitVec<u64, Lsb0>`).
#[verifier::external_body]
pub struct CodeBits {
    inner: BitVec<u64, Lsb0>,
}

/// The bits that a [`CodeBits`] holds, in index order.
pub uninterp spec fn bit_contents(b: CodeBits) -> Seq<bool>;

impl View for CodeBits {
    type V = Seq<bool>;

    open spec fn view(&self) -> Seq<bool> {
        bit_contents(*self)
    }
}

/// `BitVec::repeat(bit, len)`: a new bit-vector of `len` copies of `bit`.
/// The crate panics on a length above `usize::MAX >> 3`.
#[verifier::external_body]
pub(crate) fn bits_repeat(bit: bool, len: usize) -> (res: CodeBits)
    requires
        len <= usize::MAX / 8,
    ensures
        bit_contents(res) == Seq::new(len as nat, |i: int| bit),
{
    CodeBits { inner: BitVec::<u64, Lsb0>::repeat(bit, len) }
}

} // verus!

verus! {

/// Number of `true` entries of a bit sequence.
pub open spec fn count_true(s: Seq<bool>) -> nat
    decreases s.len(),
{
    if s.len() == 0 {
        0
    } else {
        count_true(s.drop_last()) + if s.last() { 1nat } else { 0nat }
    }
}

/// Bit `i` of `b`, reading past its end as `false` (how the crate's boolean
/// operators extend a shorter right-hand side).
pub open spec fn bit_or_false(b: Seq<bool>, i: int) -> bool {
    i < b.len() && b[i]
}

/// `a | b` on bit sequences, with the length of `a`.
pub open spec fn seq_or(a: Seq<bool>, b: Seq<bool>) -> Seq<bool> {
    Seq::new(a.len(), |i: int| a[i] || bit_or_false(b, i))
}

/// `a ^ b` on bit sequences, with the length of `a`.
pub open spec fn seq_xor(a: Seq<bool>, b: Seq<bool>) -> Seq<bool> {
    Seq::new(a.len(), |i: int| a[i] != bit_or_false(b, i))
}

/// `a & b` on bit sequences, with the length of `a`.
pub open spec fn seq_and(a: Seq<bool>, b: Seq<bool>) -> Seq<bool> {
    Seq::new(a.len(), |i: int| a[i] && bit_or_false(b, i))
}

/// `!a` on a bit sequence.
pub open spec fn seq_not(a: Seq<bool>) -> Seq<bool> {
    Seq::new(a.len(), |i: int| !a[i])
}

/// `BitSlice::len` (through `Deref`): the number of bits. The crate keeps
/// every bit-vector at most `usize::MAX >> 3` bits long.
#[verifier::external_body]
pub(crate) fn bits_len(b: &CodeBits) -> (res: usize)
    ensures
        res == bit_contents(*b).len(),
        res <= usize::MAX / 8,
{
    b.inner.len()
}

/// `Index<usize>` of `BitSlice`: the bit at `i`; panics past the end.
#[verifier::external_body]
pub(crate) fn bits_get(b: &CodeBits, i: usize) -> (res: bool)
    requires
        i < bit_contents(*b).len(),
    ensures
        res == bit_contents(*b)[i as int],
{
    b.inner[i]
}

/// `BitSlice::set(i, v)`: writes one bit; panics past the end.
#[verifier::external_body]
pub(crate) fn bits_set(b: &mut CodeBits, i: usize, v: bool)
    requires
        i < bit_contents(*old(b)).len(),
    ensures
        bit_contents(*final(b)) == bit_contents(*old(b)).update(i as int, v),
{
    b.inner.set(i, v)
}

/// `BitSlice::count_ones`: the number of set bits.
#[verifier::external_body]
pub(crate) fn bits_count_ones(b: &CodeBits) -> (res: usize)
    ensures
        res == count_true(bit_contents(*b)),
{
    b.inner.count_ones()
}

/// `Clone` of `BitVec`: a copy with the same bits.
#[verifier::external_body]
pub(crate) fn bits_clone(b: &CodeBits) -> (res: CodeBits)
    ensures
        bit_contents(res) == bit_contents(*b),
{
    CodeBits { inner: b.inner.clone() }
}

/// `BitOr` of `BitVec` with a `BitVec` right-hand side: bitwise or over the
/// left operand's length, the right one read as zero past its end.
#[verifier::external_body]
pub(crate) fn bits_or(a: CodeBits, b: CodeBits) -> (res: CodeBits)
    ensures
        bit_contents(res) == seq_or(bit_contents(a), bit_contents(b)),
{
    CodeBits { inner: a.inner | b.inner }
}

/// `BitXor` of `BitVec` with a `BitVec` right-hand side: bitwise exclusive or
/// over the left operand's length, the right one read as zero past its end.
#[verifier::external_body]
pub(crate) fn bits_xor(a: CodeBits, b: CodeBits) -> (res: CodeBits)
    ensures
        bit_contents(res) == seq_xor(bit_contents(a), bit_contents(b)),
{
    CodeBits { inner: a.inner ^ b.inner }
}

/// `BitAnd` of `BitVec` with a `BitVec` right-hand side: bitwise and over the
/// left operand's length, the right one read as zero past its end.
#[verifier::external_body]
pub(crate) fn bits_and(a: CodeBits, b: CodeBits) -> (res: CodeBits)
    ensures
        bit_contents(res) == seq_and(bit_contents(a), bit_contents(b)),
{
    CodeBits { inner: a.inner & b.inner }
}

/// `Not` of `BitVec`: every bit inverted, the length unchanged.
#[verifier::external_body]
pub(crate) fn bits_not(a: CodeBits) -> (res: CodeBits)
    ensures
        bit_contents(res) == seq_not(bit_contents(a)),
{
    CodeBits { inner: !a.inner }
}

/// A set bit count never exceeds the length.
pub proof fn lemma_count_true_le_len(s: Seq<bool>)
    ensures
        count_true(s) <= s.len(),
    decreases s.len(),
{
    if s.len() > 0 {
        lemma_count_true_le_len(s.drop_last());
    }
}

/// A bit sequence pointwise implied by another of the same length has no
/// more set bits.
pub proof fn lemma_count_true_mono(a: Seq<bool>, b: Seq<bool>)
    requires
        a.len() == b.len(),
        forall|i: int| 0 <= i < a.len() && #[trigger] a[i] ==> b[i],
    ensures
        count_true(a) <= count_true(b),
    decreases a.len(),
{
    if a.len() > 0 {
        let (a0, b0) = (a.drop_last(), b.drop_last());
        assert forall|i: int| 0 <= i < a0.len() && #[trigger] a0[i] implies b0[i] by {
            assert(a[i]);
        }
        lemma_count_true_mono(a0, b0);
    }
}

/// Set bits of a sequence and of its complement add up to its length.
pub proof fn lemma_count_true_not(a: Seq<bool>)
    ensures
        count_true(seq_not(a)) + count_true(a) == a.len(),
    decreases a.len(),
{
    if a.len() > 0 {
        assert(seq_not(a).drop_last() =~= seq_not(a.drop_last()));
        lemma_count_true_not(a.drop_last());
    }
}

/// Set bits of a concatenation add up.
pub proof fn lemma_count_true_concat(a: Seq<bool>, b: Seq<bool>)
    ensures
        count_true(a + b) == count_true(a) + count_true(b),
    decreases b.len(),
{
    if b.len() == 0 {
        assert(a + b =~= a);
    } else {
        assert((a + b).drop_last() =~= a + b.drop_last());
        lemma_count_true_concat(a, b.drop_last());
    }
}

} // verus!
