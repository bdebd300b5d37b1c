//! A fixed-width set of bit positions packed into one machine word.

use vstd::prelude::*;
use vstd::relations::injective_on;
use vstd::set_lib::*;

verus! {

/// Whether bit `i` of `v` is set. Positions outside `0..64` hold no bit.
pub open spec fn bit_at(v: u64, i: int) -> bool {
    0 <= i < 64 && (v >> (i as u64)) & 1 == 1
}

/// The positions of the bits that are set in `v`.
pub open spec fn bits_of(v: u64) -> Set<int> {
    Set::new(|i: int| bit_at(v, i))
}

proof fn lemma_bit_zero(j: u64)
    by (bit_vector)
    requires
        j < 64,
    ensures
        (0u64 >> j) & 1 != 1,
{
}

proof fn lemma_bit_or(v: u64, i: u64, j: u64)
    by (bit_vector)
    requires
        i < 64,
        j < 64,
    ensures
        ((v | (1u64 << i)) >> j) & 1 == 1 <==> (j == i || (v >> j) & 1 == 1),
{
}

proof fn lemma_bit_and_not(v: u64, i: u64, j: u64)
    by (bit_vector)
    requires
        i < 64,
        j < 64,
    ensures
        ((v & !(1u64 << i)) >> j) & 1 == 1 <==> (j != i && (v >> j) & 1 == 1),
{
}

proof fn lemma_bit_xor(v: u64, i: u64, j: u64)
    by (bit_vector)
    requires
        i < 64,
        j < 64,
    ensures
        ((v ^ (1u64 << i)) >> j) & 1 == 1 <==> ((j == i) != ((v >> j) & 1 == 1)),
{
}

proof fn lemma_bit_test(v: u64, i: u64)
    by (bit_vector)
    requires
        i < 64,
    ensures
        (v & (1u64 << i)) != 0 <==> (v >> i) & 1 == 1,
{
}

proof fn lemma_bit_shifted(v: u64, t: u64, j: u64)
    by (bit_vector)
    requires
        t < 64,
        j < 64,
    ensures
        (((v >> t) >> 1) >> j) & 1 == 1 <==> (j + t + 1 < 64 && (v >> ((j + t + 1) as u64)) & 1
            == 1),
{
}

proof fn lemma_bit_differs(a: u64, b: u64, t: u64)
    by (bit_vector)
    requires
        t < 64,
        ((a ^ b) >> t) & 1 == 1,
    ensures
        ((a >> t) & 1 == 1) != ((b >> t) & 1 == 1),
{
}

proof fn lemma_xor_nonzero(a: u64, b: u64)
    by (bit_vector)
    requires
        a != b,
    ensures
        a ^ b != 0,
{
}

/// No bit of zero is set.
pub proof fn lemma_bits_of_zero()
    ensures
        bits_of(0) == Set::<int>::empty(),
{
    assert forall|i: int| !#[trigger] bit_at(0u64, i) by {
        if 0 <= i < 64 {
            lemma_bit_zero(i as u64);
        }
    }
    assert(bits_of(0) =~= Set::<int>::empty());
}

/// Two words with the same bits set are the same word.
pub proof fn lemma_bits_injective(a: u64, b: u64)
    requires
        bits_of(a) == bits_of(b),
    ensures
        a == b,
{
    if a != b {
        lemma_xor_nonzero(a, b);
        let t = vstd::std_specs::bits::u64_trailing_zeros(a ^ b);
        vstd::std_specs::bits::axiom_u64_trailing_zeros(a ^ b);
        lemma_bit_differs(a, b, t as u64);
        assert(bits_of(a).contains(t as int) == bit_at(a, t as int));
        assert(bits_of(b).contains(t as int) == bit_at(b, t as int));
    }
}

/// The bits of a word are finitely many, all below 64.
pub proof fn lemma_bits_finite(v: u64)
    ensures
        bits_of(v).finite(),
        bits_of(v).len() <= 64,
        forall|i: int| #[trigger] bits_of(v).contains(i) ==> 0 <= i < 64,
{
    lemma_int_range(0, 64);
    assert(bits_of(v).subset_of(set_int_range(0, 64)));
    lemma_len_subset(bits_of(v), set_int_range(0, 64));
}

/// A set of positions in `0..64`, held as the bits of a `u64`.
#[derive(Debug, Clone, Copy, PartialEq, Eq, Structural)]
pub struct Bitfield {
    data: u64,
}

impl View for Bitfield {
    type V = Set<int>;

    /// The positions that the set holds.
    open spec fn view(&self) -> Set<int> {
        bits_of(self.value())
    }
}

impl Bitfield {
    /// The raw word behind the set: bit `i` is set exactly when the set holds `i`.
    pub closed spec fn value(self) -> u64 {
        self.data
    }

    /// A set is fixed by the word behind it.
    pub proof fn lemma_equal(a: Bitfield, b: Bitfield)
        requires
            a.value() == b.value(),
        ensures
            a == b,
    {
    }

    /// The number of positions a set can hold.
    pub fn max_size() -> (r: i64)
        ensures
            r == 64,
    {
        64
    }

    /// The empty set.
    pub fn new() -> (r: Self)
        ensures
            r@ == Set::<int>::empty(),
            r.value() == 0,
    {
        proof {
            lemma_bits_of_zero();
        }
        Self { data: 0 }
    }

    /// Adds position `i`.
    pub fn set(&mut self, i: i64)
        requires
            0 <= i < 64,
        ensures
            final(self)@ == old(self)@.insert(i as int),
    {
        let ghost before = self.data;
        self.data = self.data | (1u64 << (i as u64));
        proof {
            assert forall|j: int| #[trigger] bit_at(self.data, j) == (j == i || bit_at(before, j)) by {
                if 0 <= j < 64 {
                    lemma_bit_or(before, i as u64, j as u64);
                }
            }
            assert(self@ =~= old(self)@.insert(i as int));
        }
    }

    /// Removes position `i`.
    pub fn clear(&mut self, i: i64)
        requires
            0 <= i < 64,
        ensures
            final(self)@ == old(self)@.remove(i as int),
    {
        let ghost before = self.data;
        self.data = self.data & !(1u64 << (i as u64));
        proof {
            assert forall|j: int| #[trigger] bit_at(self.data, j) == (j != i && bit_at(before, j)) by {
                if 0 <= j < 64 {
                    lemma_bit_and_not(before, i as u64, j as u64);
                }
            }
            assert(self@ =~= old(self)@.remove(i as int));
        }
    }

    /// Adds position `i` if the set lacks it, removes it otherwise.
    pub fn toggle(&mut self, i: i64)
        requires
            0 <= i < 64,
        ensures
            final(self)@ == if old(self)@.contains(i as int) {
                old(self)@.remove(i as int)
            } else {
                old(self)@.insert(i as int)
            },
    {
        let ghost before = self.data;
        self.data = self.data ^ (1u64 << (i as u64));
        proof {
            assert forall|j: int| #[trigger] bit_at(self.data, j) == ((j == i) != bit_at(before, j)) by {
                if 0 <= j < 64 {
                    lemma_bit_xor(before, i as u64, j as u64);
                }
            }
            if old(self)@.contains(i as int) {
                assert(self@ =~= old(self)@.remove(i as int));
            } else {
                assert(self@ =~= old(self)@.insert(i as int));
            }
        }
    }

    /// Whether the set holds position `i`.
    pub fn get(&self, i: i64) -> (r: bool)
        requires
            0 <= i < 64,
        ensures
            r == self@.contains(i as int),
    {
        proof {
            lemma_bit_test(self.data, i as u64);
        }
        (self.data & (1u64 << (i as u64))) != 0
    }

    /// The raw word behind the set.
    pub fn data(&self) -> (r: u64)
        ensures
            r == self.value(),
    {
        self.data
    }

    /// A cursor over the positions of the set, in ascending order.
    pub fn ones(&self) -> (r: Ones)
        ensures
            r.wf(),
            r.remaining() == self@,
    {
        let r = Ones { data: self.data, ix: 0 };
        proof {
            assert(r.remaining() =~= self@);
        }
        r
    }
}

/// What `u64::count_ones` returns: the number of bits that are set in the word.
pub assume_specification[ u64::count_ones ](v: u64) -> (r: u32)
    ensures
        r == bits_of(v).len(),
;

/// A cursor that hands out the positions of a set one by one, smallest first.
#[derive(Debug)]
pub struct Ones {
    data: u64,
    ix: i64,
}

impl Clone for Ones {
    fn clone(&self) -> (r: Self)
        ensures
            r == *self,
    {
        Ones { data: self.data, ix: self.ix }
    }
}

impl Ones {
    /// The positions that are still to come.
    pub closed spec fn remaining(self) -> Set<int> {
        Set::new(|p: int| bit_at(self.data, p - self.ix))
    }

    /// The cursor has not run past the last position of the word.
    pub closed spec fn wf(self) -> bool {
        &&& 0 <= self.ix <= 64
        &&& forall|j: int| #[trigger] bit_at(self.data, j) ==> self.ix + j < 64
    }

    /// What is still to come is finite and lies in `0..64`.
    pub proof fn lemma_remaining_bounded(self)
        requires
            self.wf(),
        ensures
            self.remaining().finite(),
            self.remaining().len() <= 64,
            forall|p: int| #[trigger] self.remaining().contains(p) ==> 0 <= p < 64,
    {
        self.lemma_remaining_len();
        lemma_bits_finite(self.data);
    }

    proof fn lemma_remaining_len(self)
        requires
            self.wf(),
        ensures
            self.remaining().finite(),
            self.remaining().len() == bits_of(self.data).len(),
    {
        let shift = |j: int| j + self.ix;
        lemma_bits_finite(self.data);
        assert forall|p: int| #[trigger] self.remaining().contains(p) implies bits_of(self.data).map(
            shift,
        ).contains(p) by {
            assert(bits_of(self.data).contains(p - self.ix));
            assert(shift(p - self.ix) == p);
        }
        assert(bits_of(self.data).map(shift) =~= self.remaining());
        assert(injective_on(shift, bits_of(self.data)));
        lemma_map_size(bits_of(self.data), self.remaining(), shift);
    }

    /// Hands out the smallest position that is still to come, if there is one.
    pub fn next(&mut self) -> (r: Option<i64>)
        requires
            old(self).wf(),
        ensures
            final(self).wf(),
            match r {
                Some(p) => {
                    &&& old(self).remaining().contains(p as int)
                    &&& forall|q: int| #[trigger] old(self).remaining().contains(q) ==> p <= q
                    &&& final(self).remaining() == old(self).remaining().remove(p as int)
                },
                None => old(self).remaining() == Set::<int>::empty() && *final(self) == *old(self),
            },
    {
        let tz = self.data.trailing_zeros();
        let ghost before = self.data;
        let ghost start = self.ix;
        if tz == 64 {
            proof {
                lemma_bits_of_zero();
                assert(self.remaining() =~= Set::<int>::empty()) by {
                    assert forall|p: int| !#[trigger] self.remaining().contains(p) by {
                        assert(bits_of(0).contains(p - self.ix) == bit_at(0, p - self.ix));
                    }
                }
            }
            return None;
        }
        assert(bit_at(before, tz as int));
        self.data = (self.data >> tz) >> 1u32;
        self.ix = self.ix + (tz as i64) + 1;
        proof {
            assert forall|j: int| #[trigger] bit_at(self.data, j) == (j >= 0 && bit_at(before, j + tz + 1)) by {
                if 0 <= j < 64 {
                    lemma_bit_shifted(before, tz as u64, j as u64);
                }
            }
            assert forall|q: int| #[trigger] old(self).remaining().contains(q) implies start + tz <= q by {
                if q - start < tz {
                    assert((before >> ((q - start) as u64)) & 1 == 0);
                }
            }
            assert(self.remaining() =~= old(self).remaining().remove(start + tz));
        }
        Some(self.ix - 1)
    }

    /// How many positions are still to come, as a lower and an upper bound.
    pub fn size_hint(&self) -> (r: (usize, Option<usize>))
        requires
            self.wf(),
        ensures
            r.0 == self.remaining().len(),
            r.1 == Some(r.0),
    {
        proof {
            self.lemma_remaining_len();
            lemma_bits_finite(self.data);
        }
        if let Ok(o) = usize::try_from(self.data.count_ones()) {
            (o, Some(o))
        } else {
            (0, Some(64))
        }
    }
}

} // verus!
