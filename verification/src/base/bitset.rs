//! Fixed-size bitset for tracking covered cells and placement footprints.
//!
//! The capacity (224 bits) accommodates the 201-cell Union board with margin.

use crate::text::{decimal_chars, push_decimal, push_str, string_from_chars};
use vstd::prelude::*;
use vstd::set_lib::{lemma_int_range, lemma_len_subset, set_int_range};

verus! {

/// Number of `u32` words in a `BitSet`.
pub const WORDS: usize = 7;

/// Total number of bits the set can represent.
pub const CAPACITY: usize = WORDS * 32;

/// `true` when bit `k` of the word `w` is one.
pub open spec fn word_bit(w: u32, k: int) -> bool {
    (w >> (k as u32)) & 1u32 == 1u32
}

/// Fixed-size bitset over `CAPACITY` bits.
#[derive(Copy, Clone, Default, PartialEq, Eq, Debug)]
pub struct BitSet {
    pub words: [u32; WORDS],
}

impl View for BitSet {
    type V = Set<int>;

    /// The set of indices whose bit is one.
    open spec fn view(&self) -> Set<int> {
        Set::new(|i: int| self.has(i))
    }
}

/// Facts about one bit of a word after a bitwise operation.
proof fn lemma_bit_or_single(w: u32, b: u32, k: u32)
    requires
        b < 32,
        k < 32,
    ensures
        word_bit(w | (1u32 << b), k as int) == (word_bit(w, k as int) || k == b),
{
    assert(((w | (1u32 << b)) >> k) & 1u32 == 1u32 <==> (((w >> k) & 1u32 == 1u32) || k == b))
        by (bit_vector)
        requires
            b < 32,
            k < 32,
    ;
}

proof fn lemma_bit_or(a: u32, b: u32, k: u32)
    requires
        k < 32,
    ensures
        word_bit(a | b, k as int) == (word_bit(a, k as int) || word_bit(b, k as int)),
{
    assert(((a | b) >> k) & 1u32 == 1u32 <==> (((a >> k) & 1u32 == 1u32) || ((b >> k) & 1u32
        == 1u32))) by (bit_vector);
}

proof fn lemma_bit_and_not(a: u32, b: u32, k: u32)
    requires
        k < 32,
    ensures
        word_bit(a & !b, k as int) == (word_bit(a, k as int) && !word_bit(b, k as int)),
{
    assert(((a & !b) >> k) & 1u32 == 1u32 <==> (((a >> k) & 1u32 == 1u32) && !((b >> k) & 1u32
        == 1u32))) by (bit_vector);
}

proof fn lemma_bit_and(a: u32, b: u32, k: u32)
    requires
        k < 32,
    ensures
        word_bit(a & b, k as int) == (word_bit(a, k as int) && word_bit(b, k as int)),
{
    assert(((a & b) >> k) & 1u32 == 1u32 <==> (((a >> k) & 1u32 == 1u32) && ((b >> k) & 1u32
        == 1u32))) by (bit_vector);
}

proof fn lemma_zero_word_bits(k: u32)
    requires
        k < 32,
    ensures
        !word_bit(0u32, k as int),
{
    assert(!((0u32 >> k) & 1u32 == 1u32)) by (bit_vector);
}

/// A word is zero exactly when none of its 32 bits is one.
proof fn lemma_word_zero_iff(w: u32)
    ensures
        (w == 0) <==> (forall|k: int| 0 <= k < 32 ==> !word_bit(w, k)),
{
    if w == 0 {
        assert forall|k: int| 0 <= k < 32 implies !word_bit(w, k) by {
            lemma_zero_word_bits(k as u32);
        }
    } else {
        lemma_nonzero_word_has_bit(w);
    }
}

proof fn lemma_nonzero_word_has_bit(w: u32)
    requires
        w != 0,
    ensures
        exists|k: int| 0 <= k < 32 && word_bit(w, k),
{
    if forall|k: int| 0 <= k < 32 ==> !word_bit(w, k) {
        assert(!word_bit(w, 0));
        assert(!word_bit(w, 1));
        assert(!word_bit(w, 2));
        assert(!word_bit(w, 3));
        assert(!word_bit(w, 4));
        assert(!word_bit(w, 5));
        assert(!word_bit(w, 6));
        assert(!word_bit(w, 7));
        assert(!word_bit(w, 8));
        assert(!word_bit(w, 9));
        assert(!word_bit(w, 10));
        assert(!word_bit(w, 11));
        assert(!word_bit(w, 12));
        assert(!word_bit(w, 13));
        assert(!word_bit(w, 14));
        assert(!word_bit(w, 15));
        assert(!word_bit(w, 16));
        assert(!word_bit(w, 17));
        assert(!word_bit(w, 18));
        assert(!word_bit(w, 19));
        assert(!word_bit(w, 20));
        assert(!word_bit(w, 21));
        assert(!word_bit(w, 22));
        assert(!word_bit(w, 23));
        assert(!word_bit(w, 24));
        assert(!word_bit(w, 25));
        assert(!word_bit(w, 26));
        assert(!word_bit(w, 27));
        assert(!word_bit(w, 28));
        assert(!word_bit(w, 29));
        assert(!word_bit(w, 30));
        assert(!word_bit(w, 31));
        lemma_all_bits_clear_is_zero(w);
    }
}

proof fn lemma_all_bits_clear_is_zero(w: u32)
    requires
        (w >> 0u32) & 1 != 1,
        (w >> 1u32) & 1 != 1,
        (w >> 2u32) & 1 != 1,
        (w >> 3u32) & 1 != 1,
        (w >> 4u32) & 1 != 1,
        (w >> 5u32) & 1 != 1,
        (w >> 6u32) & 1 != 1,
        (w >> 7u32) & 1 != 1,
        (w >> 8u32) & 1 != 1,
        (w >> 9u32) & 1 != 1,
        (w >> 10u32) & 1 != 1,
        (w >> 11u32) & 1 != 1,
        (w >> 12u32) & 1 != 1,
        (w >> 13u32) & 1 != 1,
        (w >> 14u32) & 1 != 1,
        (w >> 15u32) & 1 != 1,
        (w >> 16u32) & 1 != 1,
        (w >> 17u32) & 1 != 1,
        (w >> 18u32) & 1 != 1,
        (w >> 19u32) & 1 != 1,
        (w >> 20u32) & 1 != 1,
        (w >> 21u32) & 1 != 1,
        (w >> 22u32) & 1 != 1,
        (w >> 23u32) & 1 != 1,
        (w >> 24u32) & 1 != 1,
        (w >> 25u32) & 1 != 1,
        (w >> 26u32) & 1 != 1,
        (w >> 27u32) & 1 != 1,
        (w >> 28u32) & 1 != 1,
        (w >> 29u32) & 1 != 1,
        (w >> 30u32) & 1 != 1,
        (w >> 31u32) & 1 != 1,
    ensures
        w == 0,
{
    assert(w == 0) by (bit_vector)
        requires
            (w >> 0u32) & 1 != 1,
            (w >> 1u32) & 1 != 1,
            (w >> 2u32) & 1 != 1,
            (w >> 3u32) & 1 != 1,
            (w >> 4u32) & 1 != 1,
            (w >> 5u32) & 1 != 1,
            (w >> 6u32) & 1 != 1,
            (w >> 7u32) & 1 != 1,
            (w >> 8u32) & 1 != 1,
            (w >> 9u32) & 1 != 1,
            (w >> 10u32) & 1 != 1,
            (w >> 11u32) & 1 != 1,
            (w >> 12u32) & 1 != 1,
            (w >> 13u32) & 1 != 1,
            (w >> 14u32) & 1 != 1,
            (w >> 15u32) & 1 != 1,
            (w >> 16u32) & 1 != 1,
            (w >> 17u32) & 1 != 1,
            (w >> 18u32) & 1 != 1,
            (w >> 19u32) & 1 != 1,
            (w >> 20u32) & 1 != 1,
            (w >> 21u32) & 1 != 1,
            (w >> 22u32) & 1 != 1,
            (w >> 23u32) & 1 != 1,
            (w >> 24u32) & 1 != 1,
            (w >> 25u32) & 1 != 1,
            (w >> 26u32) & 1 != 1,
            (w >> 27u32) & 1 != 1,
            (w >> 28u32) & 1 != 1,
            (w >> 29u32) & 1 != 1,
            (w >> 30u32) & 1 != 1,
            (w >> 31u32) & 1 != 1,
    ;
}

impl BitSet {
    /// `true` when index `i` is in range and its bit is one.
    pub open spec fn has(self, i: int) -> bool {
        0 <= i < CAPACITY && word_bit(self.words[i / 32], i % 32)
    }

    /// Returns an empty bitset.
    pub fn new() -> (s: Self)
        ensures
            s@ == Set::<int>::empty(),
    {
        let s = Self { words: [0u32; WORDS] };
        assert forall|i: int| !s.has(i) by {
            if 0 <= i < CAPACITY {
                lemma_zero_word_bits((i % 32) as u32);
            }
        }
        assert(s@ =~= Set::<int>::empty());
        s
    }

    /// Returns `true` if bit `index` is set.
    pub fn test(&self, index: usize) -> (r: bool)
        requires
            index < CAPACITY,
        ensures
            r == self@.contains(index as int),
    {
        let w = self.words[index / 32];
        let k: u32 = (index % 32) as u32;
        (w >> k) & 1u32 == 1u32
    }

    /// Sets bit `index` to 1.
    pub fn set(&mut self, index: usize)
        requires
            index < CAPACITY,
        ensures
            final(self)@ == old(self)@.insert(index as int),
    {
        let wi = index / 32;
        let k: u32 = (index % 32) as u32;
        let w = self.words[wi];
        self.words[wi] = w | (1u32 << k);
        proof {
            let old_s = *old(self);
            let new_s = *self;
            assert forall|j: int| new_s.has(j) == (old_s.has(j) || j == index) by {
                if 0 <= j < CAPACITY {
                    if j / 32 == wi as int {
                        lemma_bit_or_single(w, k, (j % 32) as u32);
                    }
                }
            }
            assert(new_s@ =~= old_s@.insert(index as int));
        }
    }

    /// Returns `true` if `self` and `other` share any bit.
    pub fn has_overlap(&self, other: &BitSet) -> (r: bool)
        ensures
            r == exists|i: int| self@.contains(i) && other@.contains(i),
    {
        let mut k: usize = 0;
        while k < WORDS
            invariant
                k <= WORDS,
                forall|i: int| 0 <= i < k * 32 ==> !(self.has(i) && other.has(i)),
            decreases WORDS - k,
        {
            let a = self.words[k];
            let b = other.words[k];
            if (a & b) != 0 {
                proof {
                    lemma_nonzero_word_has_bit(a & b);
                    let bit = choose|bit: int| 0 <= bit < 32 && word_bit(a & b, bit);
                    lemma_bit_and(a, b, bit as u32);
                    let i = k * 32 + bit;
                    assert(i / 32 == k as int && i % 32 == bit);
                    assert(self@.contains(i) && other@.contains(i));
                }
                return true;
            }
            proof {
                assert forall|i: int| 0 <= i < (k + 1) * 32 implies !(self.has(i) && other.has(i))
                    by {
                    if i >= k * 32 {
                        assert(i / 32 == k as int);
                        lemma_word_zero_iff(a & b);
                        lemma_bit_and(a, b, (i % 32) as u32);
                    }
                }
            }
            k = k + 1;
        }
        assert(forall|i: int| !(self@.contains(i) && other@.contains(i)));
        false
    }

    /// In-place bitwise OR: `self |= other`.
    pub fn apply(&mut self, other: &BitSet)
        ensures
            final(self)@ == old(self)@.union(other@),
    {
        let mut k: usize = 0;
        while k < WORDS
            invariant
                k <= WORDS,
                forall|j: int|
                    0 <= j < WORDS ==> #[trigger] self.words[j] == if j < k {
                        old(self).words[j] | other.words[j]
                    } else {
                        old(self).words[j]
                    },
            decreases WORDS - k,
        {
            let a = self.words[k];
            self.words[k] = a | other.words[k];
            k = k + 1;
        }
        proof {
            let old_s = *old(self);
            let new_s = *self;
            assert forall|i: int| new_s.has(i) == (old_s.has(i) || other.has(i)) by {
                if 0 <= i < CAPACITY {
                    lemma_bit_or(old_s.words[i / 32], other.words[i / 32], (i % 32) as u32);
                }
            }
            assert(new_s@ =~= old_s@.union(other@));
        }
    }

    /// In-place bitwise AND-NOT: `self &= !other`.
    /// Used to undo a placement.
    pub fn clear_bits(&mut self, other: &BitSet)
        ensures
            final(self)@ == old(self)@.difference(other@),
    {
        let mut k: usize = 0;
        while k < WORDS
            invariant
                k <= WORDS,
                forall|j: int|
                    0 <= j < WORDS ==> #[trigger] self.words[j] == if j < k {
                        old(self).words[j] & !other.words[j]
                    } else {
                        old(self).words[j]
                    },
            decreases WORDS - k,
        {
            let a = self.words[k];
            self.words[k] = a & !other.words[k];
            k = k + 1;
        }
        proof {
            let old_s = *old(self);
            let new_s = *self;
            assert forall|i: int| new_s.has(i) == (old_s.has(i) && !other.has(i)) by {
                if 0 <= i < CAPACITY {
                    lemma_bit_and_not(old_s.words[i / 32], other.words[i / 32], (i % 32) as u32);
                }
            }
            assert(new_s@ =~= old_s@.difference(other@));
        }
    }

    /// The set bits below `hi`.
    pub open spec fn bits_below(self, hi: int) -> Set<int> {
        Set::new(|i: int| self.has(i) && i < hi)
    }

    /// The view is a finite set of indices in `0..CAPACITY`.
    pub proof fn lemma_view_finite(self)
        ensures
            self@.finite(),
            self@.subset_of(set_int_range(0, CAPACITY as int)),
            self@.len() <= CAPACITY,
    {
        lemma_int_range(0, CAPACITY as int);
        assert(self@.subset_of(set_int_range(0, CAPACITY as int)));
        lemma_len_subset(self@, set_int_range(0, CAPACITY as int));
    }

    /// Total number of set bits.
    pub fn count_ones(&self) -> (r: u32)
        ensures
            r as int == self@.len(),
    {
        let mut count: u32 = 0;
        let mut i: usize = 0;
        proof {
            assert(self.bits_below(0) =~= Set::<int>::empty());
        }
        while i < CAPACITY
            invariant
                i <= CAPACITY,
                count <= i,
                self.bits_below(i as int).finite(),
                count as int == self.bits_below(i as int).len(),
            decreases CAPACITY - i,
        {
            let b = self.test(i);
            proof {
                if b {
                    assert(self.bits_below(i + 1) =~= self.bits_below(i as int).insert(i as int));
                } else {
                    assert(self.bits_below(i + 1) =~= self.bits_below(i as int));
                }
            }
            if b {
                count = count + 1;
            }
            i = i + 1;
        }
        proof {
            assert(self.bits_below(CAPACITY as int) =~= self@);
        }
        count
    }

    /// Returns `true` if no bits are set.
    pub fn is_empty(&self) -> (r: bool)
        ensures
            r == (self@ == Set::<int>::empty()),
    {
        let mut k: usize = 0;
        while k < WORDS
            invariant
                k <= WORDS,
                forall|i: int| 0 <= i < k * 32 ==> !self.has(i),
            decreases WORDS - k,
        {
            let w = self.words[k];
            if w != 0 {
                proof {
                    lemma_nonzero_word_has_bit(w);
                    let bit = choose|bit: int| 0 <= bit < 32 && word_bit(w, bit);
                    let i = k * 32 + bit;
                    assert(i / 32 == k as int && i % 32 == bit);
                    assert(self@.contains(i));
                }
                return false;
            }
            proof {
                assert forall|i: int| 0 <= i < (k + 1) * 32 implies !self.has(i) by {
                    if i >= k * 32 {
                        assert(i / 32 == k as int);
                        lemma_zero_word_bits((i % 32) as u32);
                    }
                }
            }
            k = k + 1;
        }
        assert(self@ =~= Set::<int>::empty());
        true
    }

    /// Resets all bits to 0.
    pub fn reset(&mut self)
        ensures
            final(self)@ == Set::<int>::empty(),
    {
        *self = BitSet::new();
    }
}

/// The set bits of `b` below `k`, in decimal, in increasing order,
/// separated by `", "`.
pub open spec fn bits_text(b: BitSet, k: int) -> Seq<char>
    decreases k,
{
    if k <= 0 {
        Seq::empty()
    } else {
        let p = bits_text(b, k - 1);
        if b.has(k - 1) {
            if p.len() == 0 {
                decimal_chars((k - 1) as nat)
            } else {
                p + ", "@ + decimal_chars((k - 1) as nat)
            }
        } else {
            p
        }
    }
}

impl BitSet {
    /// The set as text: `BitSet[` followed by the set bits in increasing
    /// order, separated by `", "`, and `]`.
    pub fn debug_string(&self) -> (s: String)
        ensures
            s@ == "BitSet["@ + bits_text(*self, CAPACITY as int) + "]"@,
    {
        let mut out: Vec<char> = Vec::new();
        push_str(&mut out, "BitSet[");
        let ghost head = out@;
        let mut first = true;
        let mut i: usize = 0;
        while i < CAPACITY
            invariant
                i <= CAPACITY,
                out@ == head + bits_text(*self, i as int),
                first <==> bits_text(*self, i as int).len() == 0,
            decreases CAPACITY - i,
        {
            if self.test(i) {
                if !first {
                    push_str(&mut out, ", ");
                }
                push_decimal(&mut out, i as u64);
                proof {
                    assert(decimal_chars(i as nat).len() > 0);
                    assert(out@ =~= head + bits_text(*self, i + 1));
                }
                first = false;
            }
            i = i + 1;
        }
        push_str(&mut out, "]");
        proof {
            assert(out@ =~= "BitSet["@ + bits_text(*self, CAPACITY as int) + "]"@);
        }
        string_from_chars(&out)
    }
}

} // verus!
