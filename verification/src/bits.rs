//! Spin configurations, held in `bitvec`'s `BitVec`.

use vstd::prelude::*;
use bitvec::vec::BitVec;

verus! {

/// A spin configuration: one bit per lattice point, held in a `BitVec`
/// (`usize` words, least significant bit first).
#[verifier::external_body]
pub struct Spins {
    bits: BitVec,
}

/// The bits that a configuration holds, in index order.
pub uninterp spec fn bits_of(v: Spins) -> Seq<bool>;

impl View for Spins {
    type V = Seq<bool>;

    open spec fn view(&self) -> Seq<bool> {
        bits_of(*self)
    }
}

/// Bit `b` of the word `w`, counting from the least significant bit.
pub open spec fn word_bit(w: usize, b: int) -> bool {
    (w >> (b as usize)) & 1 == 1
}

/// The bits of a sequence of words laid end to end, each word least
/// significant bit first.
pub open spec fn bits_of_words(words: Seq<usize>) -> Seq<bool> {
    Seq::new(
        (words.len() * usize::BITS) as nat,
        |i: int| word_bit(words[i / usize::BITS as int], i % usize::BITS as int),
    )
}

/// The largest number of bits a `BitVec` can hold (`BitSlice::MAX_BITS`).
pub open spec fn max_bits() -> int {
    (usize::MAX >> 3) as int
}

impl Spins {
    /// `BitVec::new`: an empty configuration.
    #[verifier::external_body]
    pub(crate) fn new() -> (r: Spins)
        ensures
            bits_of(r) == Seq::<bool>::empty(),
    {
        Spins { bits: BitVec::new() }
    }

    /// `BitVec::from_vec`: every bit of the words, in order, each word least
    /// significant bit first. `from_vec` panics where the bits would be more
    /// than a `BitVec` can hold.
    #[verifier::external_body]
    pub(crate) fn from_words(words: Vec<usize>) -> (r: Spins)
        requires
            words.len() * usize::BITS <= max_bits(),
        ensures
            bits_of(r) == bits_of_words(words@),
    {
        Spins { bits: BitVec::from_vec(words) }
    }

    /// `BitVec::len`: the number of bits held.
    #[verifier::external_body]
    pub(crate) fn len(&self) -> (n: usize)
        ensures
            n == bits_of(*self).len(),
    {
        self.bits.len()
    }

    /// Indexing a `BitVec` (which panics out of bounds): bit `i`.
    #[verifier::external_body]
    pub(crate) fn get(&self, i: usize) -> (b: bool)
        requires
            i < bits_of(*self).len(),
        ensures
            b == bits_of(*self)[i as int],
    {
        self.bits[i]
    }

    /// `BitSlice::set` (which panics out of bounds): bit `i` becomes `b`.
    #[verifier::external_body]
    pub(crate) fn set(&mut self, i: usize, b: bool)
        requires
            i < bits_of(*old(self)).len(),
        ensures
            bits_of(*final(self)) == bits_of(*old(self)).update(i as int, b),
    {
        self.bits.set(i, b);
    }

    /// `BitVec::push`: `b` is appended.
    #[verifier::external_body]
    pub(crate) fn push(&mut self, b: bool)
        requires
            bits_of(*old(self)).len() < max_bits(),
        ensures
            bits_of(*final(self)) == bits_of(*old(self)).push(b),
    {
        self.bits.push(b);
    }

    /// `BitVec::truncate`: the first `n` bits stay; nothing changes where the
    /// configuration is no longer than `n`.
    #[verifier::external_body]
    pub(crate) fn truncate(&mut self, n: usize)
        ensures
            bits_of(*final(self)) == if n < bits_of(*old(self)).len() {
                bits_of(*old(self)).take(n as int)
            } else {
                bits_of(*old(self))
            },
    {
        self.bits.truncate(n);
    }

    /// `BitVec::clone`: a configuration with the same bits.
    #[verifier::external_body]
    pub(crate) fn duplicate(&self) -> (r: Spins)
        ensures
            bits_of(r) == bits_of(*self),
    {
        Spins { bits: self.bits.clone() }
    }
}

impl Spins {
    /// A configuration with the given bits.
    pub fn from_bools(v: &Vec<bool>) -> (r: Spins)
        requires
            v@.len() <= max_bits(),
        ensures
            r@ == v@,
    {
        let mut r = Spins::new();
        let mut i: usize = 0;
        while i < v.len()
            invariant
                i <= v@.len(),
                v@.len() <= max_bits(),
                r@ == v@.take(i as int),
            decreases v@.len() - i,
        {
            r.push(v[i]);
            i = i + 1;
            assert(r@ =~= v@.take(i as int));
        }
        assert(v@.take(i as int) =~= v@);
        r
    }

    /// The bits of the configuration.
    pub fn to_bools(&self) -> (r: Vec<bool>)
        ensures
            r@ == self@,
    {
        let n = self.len();
        let mut r: Vec<bool> = Vec::new();
        let mut i: usize = 0;
        while i < n
            invariant
                n == self@.len(),
                i <= n,
                r@ == self@.take(i as int),
            decreases n - i,
        {
            r.push(self.get(i));
            i = i + 1;
            assert(r@ =~= self@.take(i as int));
        }
        assert(self@.take(i as int) =~= self@);
        r
    }

    /// The number of points the configuration covers.
    pub fn n_bits(&self) -> (n: usize)
        ensures
            n == self@.len(),
    {
        self.len()
    }

    /// The spin of point `i`.
    pub fn spin(&self, i: usize) -> (b: bool)
        requires
            i < self@.len(),
        ensures
            b == self@[i as int],
    {
        self.get(i)
    }
}

} // verus!
