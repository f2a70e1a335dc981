//! A set of small integers held in one machine word.
use vstd::prelude::*;

verus! {

/// How many members a set can hold: the bits of one word.
pub const BITSET_CAPACITY: usize = 64;

/// Whether bit `i` of `bits` is set.
pub open spec fn has_bit(bits: u64, i: usize) -> bool {
    i < 64 && bits & (1u64 << (i as u64)) != 0
}

/// The positions of the set bits of `bits` from position `from` on, in
/// increasing order.
pub open spec fn members_from(bits: u64, from: int) -> Seq<usize>
    decreases 64 - from,
{
    if from < 0 || from >= 64 {
        Seq::empty()
    } else if has_bit(bits, from as usize) {
        seq![from as usize] + members_from(bits, from + 1)
    } else {
        members_from(bits, from + 1)
    }
}

proof fn lemma_members_from(bits: u64, from: int)
    requires
        0 <= from,
    ensures
        forall|x: usize| #[trigger]
            members_from(bits, from).contains(x) <==> (from <= x && has_bit(bits, x)),
        members_from(bits, from).no_duplicates(),
        forall|i: int, j: int|
            0 <= i < j < members_from(bits, from).len() ==> members_from(bits, from)[i]
                < members_from(bits, from)[j],
    decreases 64 - from,
{
    if from < 64 {
        lemma_members_from(bits, from + 1);
        let rest = members_from(bits, from + 1);
        if has_bit(bits, from as usize) {
            let s = seq![from as usize] + rest;
            assert forall|x: usize| #[trigger] s.contains(x) <==> (from <= x && has_bit(bits, x)) by {
                if s.contains(x) {
                    let j = choose|j: int| 0 <= j < s.len() && s[j] == x;
                    if j > 0 {
                        assert(rest[j - 1] == x);
                        assert(rest.contains(x));
                    } else {
                        assert(x == from);
                    }
                }
                if from <= x && has_bit(bits, x) && x != from {
                    assert(rest.contains(x));
                    let j = choose|j: int| 0 <= j < rest.len() && rest[j] == x;
                    assert(s[j + 1] == x);
                }
                if x == from {
                    assert(s[0] == x);
                }
            }
            assert forall|i: int, j: int| 0 <= i < s.len() && 0 <= j < s.len() && i != j implies s[i]
                != s[j] by {
                if i > 0 && j > 0 {
                    assert(s[i] == rest[i - 1] && s[j] == rest[j - 1]);
                } else if i == 0 {
                    assert(rest.contains(s[j]));
                } else {
                    assert(rest.contains(s[i]));
                }
            }
            assert forall|i: int, j: int| 0 <= i < j < s.len() implies s[i] < s[j] by {
                if i > 0 {
                    assert(s[i] == rest[i - 1] && s[j] == rest[j - 1]);
                } else {
                    assert(rest.contains(s[j]));
                }
            }
        }
    } else {
        assert forall|x: usize| #[trigger]
            members_from(bits, from).contains(x) <==> (from <= x && has_bit(bits, x)) by {}
    }
}

proof fn lemma_no_bit_of_zero(i: u64)
    requires
        i < 64,
    ensures
        0u64 & (1u64 << i) == 0,
{
    assert(0u64 & (1u64 << i) == 0) by (bit_vector);
}

proof fn lemma_nonzero_has_bit(b: u64) -> (i: usize)
    requires
        b != 0,
    ensures
        has_bit(b, i),
    decreases b,
{
    if b & 1 != 0 {
        assert(b & (1u64 << 0u64) != 0) by (bit_vector)
            requires
                b & 1 != 0,
        ;
        0
    } else {
        let c = b >> 1;
        assert(c != 0 && c < b) by (bit_vector)
            requires
                b != 0,
                b & 1 == 0,
                c == b >> 1,
        ;
        let j = lemma_nonzero_has_bit(c);
        let jj = j as u64;
        assert(jj < 63 && b & (1u64 << (jj + 1)) != 0) by (bit_vector)
            requires
                c == b >> 1,
                jj < 64,
                c & (1u64 << jj) != 0,
        ;
        (j + 1) as usize
    }
}

/// A set of integers in `[0, BITSET_CAPACITY)`, held as the bits of one word.
/// The set does no synchronization of its own: an owner that shares it
/// between threads guards it with a lock.
#[derive(Debug)]
pub struct AtomicBitSet {
    bits: u64,
}

impl View for AtomicBitSet {
    type V = Set<usize>;

    closed spec fn view(&self) -> Set<usize> {
        Set::new(|i: usize| has_bit(self.bits, i))
    }
}

impl AtomicBitSet {
    /// The members in increasing order.
    pub closed spec fn members(&self) -> Seq<usize> {
        members_from(self.bits, 0)
    }

    /// The members in increasing order are exactly the set's members, each once,
    /// all below the capacity, in strictly increasing order.
    pub proof fn lemma_members(&self)
        ensures
            forall|x: usize| #[trigger] self.members().contains(x) <==> self@.contains(x),
            self.members().no_duplicates(),
            forall|i: int, j: int|
                0 <= i < j < self.members().len() ==> self.members()[i] < self.members()[j],
            forall|x: usize| self@.contains(x) ==> x < BITSET_CAPACITY,
    {
        lemma_members_from(self.bits, 0);
    }

    pub fn new() -> (r: Self)
        ensures
            r@ == Set::<usize>::empty(),
    {
        let r = AtomicBitSet { bits: 0 };
        assert forall|i: usize| !has_bit(0u64, i) by {
            if i < 64 {
                lemma_no_bit_of_zero(i as u64);
            }
        }
        assert(r@ =~= Set::<usize>::empty());
        r
    }

    pub fn is_empty(&self) -> (r: bool)
        ensures
            r == (self@ == Set::<usize>::empty()),
    {
        proof {
            if self.bits == 0 {
                assert forall|i: usize| !has_bit(0u64, i) by {
                    if i < 64 {
                        lemma_no_bit_of_zero(i as u64);
                    }
                }
                assert(self@ =~= Set::<usize>::empty());
            } else {
                let i = lemma_nonzero_has_bit(self.bits);
                assert(self@.contains(i));
            }
        }
        self.bits == 0
    }

    pub fn insert(&mut self, i: usize)
        requires
            i < BITSET_CAPACITY,
        ensures
            final(self)@ == old(self)@.insert(i),
    {
        let b = self.bits;
        let ii = i as u64;
        self.bits = b | (1u64 << ii);
        proof {
            assert forall|j: usize| #[trigger] has_bit(b | (1u64 << ii), j) == (has_bit(b, j) || j
                == i) by {
                if j < 64 {
                    let jj = j as u64;
                    assert(((b | (1u64 << ii)) & (1u64 << jj) != 0) == ((b & (1u64 << jj) != 0)
                        || jj == ii)) by (bit_vector)
                        requires
                            ii < 64,
                            jj < 64,
                    ;
                }
            }
            assert(self@ =~= old(self)@.insert(i));
        }
    }

    pub fn remove(&mut self, i: usize)
        requires
            i < BITSET_CAPACITY,
        ensures
            final(self)@ == old(self)@.remove(i),
    {
        let b = self.bits;
        let ii = i as u64;
        self.bits = b & !(1u64 << ii);
        proof {
            assert forall|j: usize| #[trigger] has_bit(b & !(1u64 << ii), j) == (has_bit(b, j) && j
                != i) by {
                if j < 64 {
                    let jj = j as u64;
                    assert(((b & !(1u64 << ii)) & (1u64 << jj) != 0) == ((b & (1u64 << jj) != 0)
                        && jj != ii)) by (bit_vector)
                        requires
                            ii < 64,
                            jj < 64,
                    ;
                }
            }
            assert(self@ =~= old(self)@.remove(i));
        }
    }

    /// Flips the membership of `i`; returns whether `i` was a member before.
    pub fn toggle(&mut self, i: usize) -> (was: bool)
        requires
            i < BITSET_CAPACITY,
        ensures
            was == old(self)@.contains(i),
            final(self)@ == (if was {
                old(self)@.remove(i)
            } else {
                old(self)@.insert(i)
            }),
    {
        let b = self.bits;
        let ii = i as u64;
        let mask = 1u64 << ii;
        self.bits = b ^ mask;
        proof {
            assert forall|j: usize| #[trigger] has_bit(b ^ mask, j) == (has_bit(b, j) != (j == i)) by {
                if j < 64 {
                    let jj = j as u64;
                    assert(((b ^ mask) & (1u64 << jj) != 0) == ((b & (1u64 << jj) != 0) != (jj
                        == ii))) by (bit_vector)
                        requires
                            ii < 64,
                            jj < 64,
                            mask == 1u64 << ii,
                    ;
                }
            }
            if b & mask != 0 {
                assert(self@ =~= old(self)@.remove(i));
            } else {
                assert(self@ =~= old(self)@.insert(i));
            }
        }
        b & mask != 0
    }

    /// Takes one snapshot of the set; the iterator yields the snapshot's
    /// members in increasing order.
    pub fn iter(&self) -> (r: BitSetIter)
        ensures
            r.remaining() == self.members(),
    {
        BitSetIter { bits: self.bits, offset: 0 }
    }
}

/// The members of one snapshot of an `AtomicBitSet`, yielded in increasing
/// order.
#[derive(Debug)]
pub struct BitSetIter {
    bits: u64,
    offset: usize,
}

impl BitSetIter {
    /// What is still to be yielded.
    pub closed spec fn remaining(&self) -> Seq<usize> {
        members_from(self.bits, self.offset as int)
    }

    pub fn next(&mut self) -> (r: Option<usize>)
        ensures
            old(self).remaining().len() == 0 ==> r is None && final(self).remaining().len() == 0,
            old(self).remaining().len() > 0 ==> r == Some(old(self).remaining()[0])
                && final(self).remaining() == old(self).remaining().drop_first(),
    {
        while self.offset < 64
            invariant
                self.bits == old(self).bits,
                members_from(self.bits, self.offset as int) == old(self).remaining(),
            decreases 64 - self.offset,
        {
            let here = self.offset;
            let set = self.bits & (1u64 << (here as u64)) != 0;
            self.offset = here + 1;
            if set {
                proof {
                    let rest = members_from(self.bits, here + 1);
                    assert(old(self).remaining() == seq![here] + rest);
                    assert((seq![here] + rest).drop_first() =~= rest);
                }
                return Some(here);
            }
        }
        None
    }
}

} // verus!
