//! The membership oracle: one bit for every number of the `i32` domain.
use bitvec::order::Lsb0;
use bitvec::vec::BitVec;
use vstd::prelude::*;

verus! {

/// A fixed-size bit-vector; what it holds is seen through `bits_of`.
#[verifier::external_body]
pub struct SeenBits {
    bits: BitVec<u32, Lsb0>,
}

/// The bits that a bit-vector holds, in index order.
pub uninterp spec fn bits_of(v: SeenBits) -> Seq<bool>;

/// The number of slots: one per value of the domain.
pub open spec fn domain_size() -> int {
    0x1_0000_0000
}

/// The slot of a number: its bit pattern read as an unsigned index.
pub open spec fn slot(n: i32) -> int {
    if n >= 0 {
        n as int
    } else {
        n + domain_size()
    }
}

/// Relies on `BitVec::repeat`: a bit-vector of `2^32` bits, all clear.
#[verifier::external_body]
fn all_clear() -> (r: SeenBits)
    ensures
        bits_of(r).len() == domain_size(),
        forall|i: int| 0 <= i < domain_size() ==> !#[trigger] bits_of(r)[i],
{
    SeenBits { bits: BitVec::<u32, Lsb0>::repeat(false, 1usize << 32) }
}

/// Relies on indexing a `BitSlice`: the bit at index `i`.
#[verifier::external_body]
fn bit_at(v: &SeenBits, i: u32) -> (r: bool)
    requires
        (i as int) < bits_of(*v).len(),
    ensures
        r == bits_of(*v)[i as int],
{
    v.bits[i as usize]
}

/// Relies on `BitSlice::set`: sets the bit at index `i`, leaving the others.
#[verifier::external_body]
fn set_bit(v: &mut SeenBits, i: u32)
    requires
        (i as int) < bits_of(*old(v)).len(),
    ensures
        bits_of(*final(v)) == bits_of(*old(v)).update(i as int, true),
{
    v.bits.set(i as usize, true)
}

/// Records which numbers have been produced. It only ever grows.
pub struct Oracle {
    bits: SeenBits,
}

impl Oracle {
    /// The oracle holds one bit per number of the domain.
    pub closed spec fn wf(&self) -> bool {
        bits_of(self.bits).len() == domain_size()
    }

    /// Whether `n` has been marked as seen.
    pub closed spec fn seen(&self, n: i32) -> bool {
        bits_of(self.bits)[slot(n)]
    }

    /// The slot of `n`, computed.
    fn slot_of(n: i32) -> (r: u32)
        ensures
            r as int == slot(n),
    {
        if n >= 0 {
            n as u32
        } else {
            (n as i64 + 0x1_0000_0000i64) as u32
        }
    }

    /// An oracle in which no number has been seen.
    pub fn new() -> (r: Oracle)
        ensures
            r.wf(),
            forall|n: i32| !#[trigger] r.seen(n),
    {
        Oracle { bits: all_clear() }
    }

    /// Whether `n` has been produced.
    pub fn contains(&self, n: i32) -> (r: bool)
        requires
            self.wf(),
        ensures
            r == self.seen(n),
    {
        bit_at(&self.bits, Self::slot_of(n))
    }

    /// Marks `n` as produced; every other number keeps its state.
    pub fn mark_seen(&mut self, n: i32)
        requires
            old(self).wf(),
        ensures
            final(self).wf(),
            forall|m: i32| #[trigger] final(self).seen(m) == (old(self).seen(m) || m == n),
    {
        set_bit(&mut self.bits, Self::slot_of(n));
        assert forall|m: i32| #[trigger] self.seen(m) == (old(self).seen(m) || m == n) by {
            assert(slot(m) == slot(n) ==> m == n);
        }
    }
}

} // verus!
