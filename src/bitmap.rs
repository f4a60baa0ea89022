//! A set of up to 128 permissions, held as two 64-bit words.
use vstd::prelude::*;

use crate::errors::HeraclesError;
use crate::text::{decimal, push_decimal};

verus! {

/// Whether bit `i` of the word `w` is set (`i < 64`).
pub open spec fn word_bit(w: u64, i: u64) -> bool {
    (w >> i) & 1u64 == 1u64
}

/// Whether position `i` is set in the 128-bit value whose halves are `low` and `high`.
pub open spec fn pair_bit(low: u64, high: u64, i: nat) -> bool {
    if i < 64 {
        word_bit(low, i as u64)
    } else {
        word_bit(high, (i - 64) as u64)
    }
}

/// Number of set positions among the first `k` positions.
pub open spec fn count_below(low: u64, high: u64, k: nat) -> nat
    decreases k,
{
    if k == 0 {
        0
    } else {
        count_below(low, high, (k - 1) as nat) + if pair_bit(low, high, (k - 1) as nat) {
            1nat
        } else {
            0nat
        }
    }
}

/// The set positions among the first `k`, ascending.
pub open spec fn positions_below(low: u64, high: u64, k: nat) -> Seq<u8>
    decreases k,
{
    if k == 0 {
        Seq::<u8>::empty()
    } else if pair_bit(low, high, (k - 1) as nat) {
        positions_below(low, high, (k - 1) as nat).push((k - 1) as u8)
    } else {
        positions_below(low, high, (k - 1) as nat)
    }
}

/// The decimal writings of `s` joined by commas.
pub open spec fn join_decimals(s: Seq<u8>) -> Seq<char>
    decreases s.len(),
{
    if s.len() == 0 {
        Seq::<char>::empty()
    } else if s.len() == 1 {
        decimal(s[0] as nat)
    } else {
        join_decimals(s.drop_last()) + seq![','] + decimal(s.last() as nat)
    }
}

proof fn lemma_word_or(a: u64, b: u64, i: u64)
    requires
        i < 64,
    ensures
        word_bit(a | b, i) == (word_bit(a, i) || word_bit(b, i)),
{
    assert(((a | b) >> i) & 1u64 == 1u64 <==> ((a >> i) & 1u64 == 1u64 || (b >> i) & 1u64
        == 1u64)) by (bit_vector)
        requires
            i < 64,
    ;
}

proof fn lemma_word_and(a: u64, b: u64, i: u64)
    requires
        i < 64,
    ensures
        word_bit(a & b, i) == (word_bit(a, i) && word_bit(b, i)),
{
    assert(((a & b) >> i) & 1u64 == 1u64 <==> ((a >> i) & 1u64 == 1u64 && (b >> i) & 1u64
        == 1u64)) by (bit_vector)
        requires
            i < 64,
    ;
}

proof fn lemma_word_and_not(a: u64, b: u64, i: u64)
    requires
        i < 64,
    ensures
        word_bit(a & !b, i) == (word_bit(a, i) && !word_bit(b, i)),
{
    assert(((a & !b) >> i) & 1u64 == 1u64 <==> ((a >> i) & 1u64 == 1u64 && !((b >> i) & 1u64
        == 1u64))) by (bit_vector)
        requires
            i < 64,
    ;
}

proof fn lemma_word_shl(j: u64, i: u64)
    requires
        i < 64,
        j < 64,
    ensures
        word_bit(1u64 << j, i) == (i == j),
{
    assert(((1u64 << j) >> i) & 1u64 == 1u64 <==> i == j) by (bit_vector)
        requires
            i < 64,
            j < 64,
    ;
}

proof fn lemma_word_zero(i: u64)
    requires
        i < 64,
    ensures
        !word_bit(0u64, i),
        word_bit(0xffff_ffff_ffff_ffffu64, i),
{
    assert((0u64 >> i) & 1u64 != 1u64) by (bit_vector);
    assert((0xffff_ffff_ffff_ffffu64 >> i) & 1u64 == 1u64) by (bit_vector)
        requires
            i < 64,
    ;
}

/// Two words with the same bits are the same word.
proof fn lemma_word_ext(a: u64, b: u64)
    requires
        forall|i: u64| i < 64 ==> word_bit(a, i) == word_bit(b, i),
    ensures
        a == b,
{
    assert(a ^ b == 0u64) by {
        let x = a ^ b;
        assert forall|i: u64| i < 64 implies (x >> i) & 1u64 == 0u64 by {
            assert(word_bit(a, i) == word_bit(b, i));
            assert(((a >> i) & 1u64 == 1u64) == ((b >> i) & 1u64 == 1u64) ==> ((a ^ b) >> i)
                & 1u64 == 0u64) by (bit_vector);
        }
        lemma_word_all_zero(x);
    }
    assert(a ^ b == 0u64 ==> a == b) by (bit_vector);
}

proof fn lemma_word_all_zero(x: u64)
    requires
        forall|i: u64| i < 64 ==> (x >> i) & 1u64 == 0u64,
    ensures
        x == 0u64,
{
    lemma_word_top_zero(x, 0);
    assert(x >> 0u64 == x) by (bit_vector);
}

/// Bits `k` to 63 all clear means the word shifted right by `k` is zero.
proof fn lemma_word_top_zero(x: u64, k: u64)
    requires
        k < 64,
        forall|i: u64| i < 64 ==> (x >> i) & 1u64 == 0u64,
    ensures
        x >> k == 0u64,
    decreases 64 - k,
{
    assert((x >> k) & 1u64 == 0u64);
    if k == 63 {
        assert((x >> 63u64) & 1u64 == 0u64 ==> x >> 63u64 == 0u64) by (bit_vector);
    } else {
        let j: u64 = (k + 1) as u64;
        lemma_word_top_zero(x, j);
        assert((x >> j) == 0u64 && (x >> k) & 1u64 == 0u64 && j == k + 1 && k < 63 ==> x >> k
            == 0u64) by (bit_vector);
    }
}

/// A fixed-width set of permissions, positions 0 to 127.
#[derive(Clone, Copy, Debug, PartialEq, Eq, Hash, Structural)]
pub struct PermissionBitmap {
    low: u64,
    high: u64,
}

impl View for PermissionBitmap {
    type V = Set<nat>;

    /// The set positions.
    open spec fn view(&self) -> Set<nat> {
        Set::new(|i: nat| i < 128 && pair_bit(self.low_word(), self.high_word(), i))
    }
}

impl PermissionBitmap {
    /// Positions 0 to 63.
    pub closed spec fn low_word(self) -> u64 {
        self.low
    }

    /// Positions 64 to 127.
    pub closed spec fn high_word(self) -> u64 {
        self.high
    }

    /// Whether position `i` is set.
    pub open spec fn bit(self, i: nat) -> bool {
        i < 128 && pair_bit(self.low_word(), self.high_word(), i)
    }

    /// The set positions, ascending.
    pub open spec fn positions(self) -> Seq<u8> {
        positions_below(self.low_word(), self.high_word(), 128)
    }

    /// The display form: "(none)" when empty, else "bits[" then the positions in
    /// ascending decimal joined by commas, then "]".
    pub open spec fn display(self) -> Seq<char> {
        if self@ == Set::<nat>::empty() {
            seq!['(', 'n', 'o', 'n', 'e', ')']
        } else {
            seq!['b', 'i', 't', 's', '['] + join_decimals(self.positions()) + seq![']']
        }
    }

    /// Number of set positions.
    pub open spec fn spec_count(self) -> nat {
        count_below(self.low_word(), self.high_word(), 128)
    }

    /// Two bitmaps with the same positions are equal.
    pub proof fn lemma_view_ext(a: Self, b: Self)
        requires
            a@ == b@,
        ensures
            a == b,
    {
        assert forall|i: u64| i < 64 implies word_bit(a.low, i) == word_bit(b.low, i) by {
            assert(a@.contains(i as nat) == b@.contains(i as nat));
            assert(a@.contains(i as nat) == word_bit(a.low, i));
            assert(b@.contains(i as nat) == word_bit(b.low, i));
        }
        assert forall|i: u64| i < 64 implies word_bit(a.high, i) == word_bit(b.high, i) by {
            assert(a@.contains((i + 64) as nat) == b@.contains((i + 64) as nat));
            assert(((i + 64) as nat - 64) as u64 == i);
            assert(a@.contains((i + 64) as nat) == word_bit(a.high, i));
            assert(b@.contains((i + 64) as nat) == word_bit(b.high, i));
        }
        lemma_word_ext(a.low, b.low);
        lemma_word_ext(a.high, b.high);
    }

    /// Two bitmaps with the same words are equal.
    pub proof fn lemma_words_ext(a: Self, b: Self)
        requires
            a.low_word() == b.low_word(),
            a.high_word() == b.high_word(),
        ensures
            a == b,
    {
    }

    /// The bitmap whose words are `low` (positions 0 to 63) and `high` (64 to 127).
    pub fn from_words(low: u64, high: u64) -> (r: Self)
        ensures
            r.low_word() == low,
            r.high_word() == high,
    {
        PermissionBitmap { low, high }
    }

    /// The two words, positions 0 to 63 first.
    pub fn to_words(self) -> (r: (u64, u64))
        ensures
            r == (self.low_word(), self.high_word()),
    {
        (self.low, self.high)
    }

    /// The empty bitmap.
    pub fn new() -> (r: Self)
        ensures
            r@ == Set::<nat>::empty(),
    {
        let r = PermissionBitmap { low: 0, high: 0 };
        proof {
            assert forall|i: nat| !r@.contains(i) by {
                if i < 64 {
                    lemma_word_zero(i as u64);
                } else if i < 128 {
                    lemma_word_zero((i - 64) as u64);
                }
            }
            assert(r@ =~= Set::<nat>::empty());
        }
        r
    }

    /// The bitmap with every position below 128.
    pub fn all() -> (r: Self)
        ensures
            r@ == Set::new(|i: nat| i < 128),
    {
        let r = PermissionBitmap { low: 0xffff_ffff_ffff_ffff, high: 0xffff_ffff_ffff_ffff };
        proof {
            assert forall|i: nat| i < 128 implies r@.contains(i) by {
                if i < 64 {
                    lemma_word_zero(i as u64);
                } else {
                    lemma_word_zero((i - 64) as u64);
                }
            }
            assert(r@ =~= Set::new(|i: nat| i < 128));
        }
        r
    }

    /// The bitmap holding position `pos` alone.
    pub fn from_bit(pos: u8) -> (r: Self)
        requires
            pos < 128,
        ensures
            r@ == set![pos as nat],
    {
        let r = if pos < 64 {
            PermissionBitmap { low: 1u64 << pos, high: 0 }
        } else {
            PermissionBitmap { low: 0, high: 1u64 << (pos - 64) }
        };
        proof {
            assert forall|i: nat| r@.contains(i) <==> i == pos as nat by {
                if i < 64 {
                    lemma_word_zero(i as u64);
                    if pos < 64 {
                        lemma_word_shl(pos as u64, i as u64);
                    }
                } else if i < 128 {
                    lemma_word_zero((i - 64) as u64);
                    if pos >= 64 {
                        lemma_word_shl((pos - 64) as u64, (i - 64) as u64);
                    }
                }
            }
            assert(r@ =~= set![pos as nat]);
        }
        r
    }

    /// The bitmap holding position `pos` alone, or `OutOfRangeBit` when `pos` is 128 or more.
    pub fn try_from_bit(pos: u8) -> (r: Result<Self, HeraclesError>)
        ensures
            pos < 128 ==> (r matches Ok(b) && b@ == set![pos as nat]),
            pos >= 128 ==> r == Err::<Self, HeraclesError>(HeraclesError::OutOfRangeBit(pos)),
    {
        if pos < 128 {
            Ok(Self::from_bit(pos))
        } else {
            Err(HeraclesError::OutOfRangeBit(pos))
        }
    }

    /// The bitmap whose positions are the set bits of `bits` (bit `i` is position `i`).
    pub fn from_raw(bits: u128) -> (r: Self)
        ensures
            r.low_word() == bits as u64,
            r.high_word() == (bits >> 64u128) as u64,
    {
        PermissionBitmap { low: bits as u64, high: (bits >> 64u32) as u64 }
    }

    /// The bitmap stored as two signed halves: `low` holds positions 0 to 63 and `high`
    /// positions 64 to 127, each the two's-complement reading of the unsigned word.
    pub fn from_halves(low: i64, high: i64) -> (r: Self)
        ensures
            r.low_word() == low as u64,
            r.high_word() == high as u64,
    {
        PermissionBitmap { low: low as u64, high: high as u64 }
    }

    /// The two signed halves of the bitmap, as `from_halves` reads them.
    pub fn to_halves(self) -> (r: (i64, i64))
        ensures
            r.0 == self.low_word() as i64,
            r.1 == self.high_word() as i64,
    {
        (self.low as i64, self.high as i64)
    }

    /// The bitmap as one 128-bit integer.
    pub fn as_raw(self) -> (r: u128)
        ensures
            r as u64 == self.low_word(),
            (r >> 64u128) as u64 == self.high_word(),
    {
        let r = (self.low as u128) | ((self.high as u128) << 64u32);
        proof {
            let lo = self.low;
            let hi = self.high;
            assert(((lo as u128) | ((hi as u128) << 64u128)) as u64 == lo) by (bit_vector);
            assert((((lo as u128) | ((hi as u128) << 64u128)) >> 64u128) as u64 == hi)
                by (bit_vector);
        }
        r
    }

    /// Whether every position of `required` is set here.
    pub fn has(self, required: Self) -> (r: bool)
        ensures
            r == required@.subset_of(self@),
    {
        let r = (self.low & required.low) == required.low && (self.high & required.high)
            == required.high;
        proof {
            Self::lemma_word_has(self.low, required.low);
            Self::lemma_word_has(self.high, required.high);
            if r {
                assert forall|i: nat| required@.contains(i) implies self@.contains(i) by {
                    if i < 64 {
                        assert(word_bit(required.low, i as u64));
                    } else {
                        assert(word_bit(required.high, (i - 64) as u64));
                    }
                }
            } else {
                if (self.low & required.low) != required.low {
                    let j = choose|j: u64| j < 64 && word_bit(required.low, j) && !word_bit(self.low, j);
                    assert(required@.contains(j as nat));
                } else {
                    let j = choose|j: u64| j < 64 && word_bit(required.high, j) && !word_bit(self.high, j);
                    assert(((j + 64) as nat - 64) as u64 == j);
                    assert(required@.contains((j + 64) as nat));
                }
            }
        }
        r
    }

    proof fn lemma_word_has(a: u64, b: u64)
        ensures
            (a & b == b) <==> (forall|i: u64| i < 64 && word_bit(b, i) ==> word_bit(a, i)),
    {
        if a & b == b {
            assert forall|i: u64| i < 64 && word_bit(b, i) implies word_bit(a, i) by {
                lemma_word_and(a, b, i);
            }
        } else {
            if forall|i: u64| i < 64 && word_bit(b, i) ==> word_bit(a, i) {
                assert forall|i: u64| i < 64 implies word_bit(a & b, i) == word_bit(b, i) by {
                    lemma_word_and(a, b, i);
                }
                lemma_word_ext(a & b, b);
            }
        }
    }

    /// Whether some position of `required` is set here.
    pub fn has_any(self, required: Self) -> (r: bool)
        ensures
            r == !self@.intersect(required@).is_empty(),
    {
        let r = (self.low & required.low) != 0 || (self.high & required.high) != 0;
        let i = self.intersection(required);
        proof {
            if r {
                if (self.low & required.low) != 0 {
                    assert(i.low != 0);
                    assert(!(forall|j: u64| j < 64 ==> !word_bit(i.low, j))) by {
                        if forall|j: u64| j < 64 ==> !word_bit(i.low, j) {
                            lemma_word_zero_bits(i.low);
                        }
                    }
                    let j = choose|j: u64| j < 64 && word_bit(i.low, j);
                    assert(i@.contains(j as nat));
                } else {
                    assert(!(forall|j: u64| j < 64 ==> !word_bit(i.high, j))) by {
                        if forall|j: u64| j < 64 ==> !word_bit(i.high, j) {
                            lemma_word_zero_bits(i.high);
                        }
                    }
                    let j = choose|j: u64| j < 64 && word_bit(i.high, j);
                    assert(((j + 64) as nat - 64) as u64 == j);
                    assert(i@.contains((j + 64) as nat));
                }
            } else {
                assert forall|j: nat| !i@.contains(j) by {
                    if j < 64 {
                        lemma_word_zero(j as u64);
                    } else if j < 128 {
                        lemma_word_zero((j - 64) as u64);
                    }
                }
                assert(i@ =~= Set::<nat>::empty());
            }
        }
        r
    }

    /// Whether position `pos` is set; false for positions of 128 or more.
    pub fn has_bit(self, pos: u8) -> (r: bool)
        ensures
            r == self@.contains(pos as nat),
    {
        if pos >= 128 {
            false
        } else if pos < 64 {
            (self.low >> (pos as u64)) & 1 == 1
        } else {
            (self.high >> ((pos - 64) as u64)) & 1 == 1
        }
    }

    /// The positions set in either bitmap.
    pub fn union(self, other: Self) -> (r: Self)
        ensures
            r@ == self@.union(other@),
            r.low_word() == self.low_word() | other.low_word(),
            r.high_word() == self.high_word() | other.high_word(),
    {
        let r = PermissionBitmap { low: self.low | other.low, high: self.high | other.high };
        proof {
            assert forall|i: nat| r@.contains(i) == self@.union(other@).contains(i) by {
                if i < 64 {
                    lemma_word_or(self.low, other.low, i as u64);
                } else if i < 128 {
                    lemma_word_or(self.high, other.high, (i - 64) as u64);
                }
            }
            assert(r@ =~= self@.union(other@));
        }
        r
    }

    /// The positions set in both bitmaps.
    pub fn intersection(self, other: Self) -> (r: Self)
        ensures
            r@ == self@.intersect(other@),
            r.low_word() == self.low_word() & other.low_word(),
            r.high_word() == self.high_word() & other.high_word(),
    {
        let r = PermissionBitmap { low: self.low & other.low, high: self.high & other.high };
        proof {
            assert forall|i: nat| r@.contains(i) == self@.intersect(other@).contains(i) by {
                if i < 64 {
                    lemma_word_and(self.low, other.low, i as u64);
                } else if i < 128 {
                    lemma_word_and(self.high, other.high, (i - 64) as u64);
                }
            }
            assert(r@ =~= self@.intersect(other@));
        }
        r
    }

    /// The positions set here and not in `other`.
    pub fn subtract(self, other: Self) -> (r: Self)
        ensures
            r@ == self@.difference(other@),
            r.low_word() == self.low_word() & !other.low_word(),
            r.high_word() == self.high_word() & !other.high_word(),
    {
        let r = PermissionBitmap { low: self.low & !other.low, high: self.high & !other.high };
        proof {
            assert forall|i: nat| r@.contains(i) == self@.difference(other@).contains(i) by {
                if i < 64 {
                    lemma_word_and_not(self.low, other.low, i as u64);
                } else if i < 128 {
                    lemma_word_and_not(self.high, other.high, (i - 64) as u64);
                }
            }
            assert(r@ =~= self@.difference(other@));
        }
        r
    }

    /// Whether no position is set.
    pub fn is_empty(self) -> (r: bool)
        ensures
            r == (self@ == Set::<nat>::empty()),
    {
        let r = self.low == 0 && self.high == 0;
        proof {
            if r {
                assert forall|j: nat| !self@.contains(j) by {
                    if j < 64 {
                        lemma_word_zero(j as u64);
                    } else if j < 128 {
                        lemma_word_zero((j - 64) as u64);
                    }
                }
                assert(self@ =~= Set::<nat>::empty());
            } else if self@ == Set::<nat>::empty() {
                assert forall|j: u64| j < 64 implies !word_bit(self.low, j) && !word_bit(
                    self.high,
                    j,
                ) by {
                    assert(!self@.contains(j as nat));
                    assert(((j + 64) as nat - 64) as u64 == j);
                    assert(!self@.contains((j + 64) as nat));
                }
                lemma_word_zero_bits(self.low);
                lemma_word_zero_bits(self.high);
            }
        }
        r
    }

    /// Number of set positions.
    pub fn count(self) -> (r: u32)
        ensures
            r == self.spec_count(),
    {
        let mut n: u32 = 0;
        let mut k: u8 = 0;
        while k < 128
            invariant
                k <= 128,
                n == count_below(self.low_word(), self.high_word(), k as nat),
                n <= k,
            decreases 128 - k,
        {
            if self.has_bit(k) {
                n = n + 1;
            }
            k = k + 1;
        }
        n
    }

    /// This bitmap with position `pos` added; unchanged for positions of 128 or more.
    pub fn set_bit(self, pos: u8) -> (r: Self)
        ensures
            pos < 128 ==> r@ == self@.insert(pos as nat),
            pos >= 128 ==> r == self,
    {
        if pos >= 128 {
            self
        } else {
            self.union(Self::from_bit(pos))
        }
    }

    /// This bitmap with position `pos` removed; unchanged for positions of 128 or more.
    pub fn clear_bit(self, pos: u8) -> (r: Self)
        ensures
            pos < 128 ==> r@ == self@.remove(pos as nat),
            pos >= 128 ==> r == self,
    {
        if pos >= 128 {
            self
        } else {
            let r = self.subtract(Self::from_bit(pos));
            proof {
                assert(r@ =~= self@.remove(pos as nat));
            }
            r
        }
    }

    /// The bitmap of the listed positions; positions of 128 or more are skipped.
    pub fn from_bits(positions: &[u8]) -> (r: Self)
        ensures
            r@ == Set::new(|i: nat| i < 128 && exists|k: int| 0 <= k < positions@.len() && positions@[k] as nat == i),
    {
        let mut bitmap = Self::new();
        let mut j: usize = 0;
        while j < positions.len()
            invariant
                j <= positions@.len(),
                bitmap@ == Set::new(|i: nat| i < 128 && exists|k: int| 0 <= k < j && positions@[k] as nat == i),
            decreases positions@.len() - j,
        {
            let pos = positions[j];
            let old_map = bitmap;
            bitmap = bitmap.set_bit(pos);
            proof {
                assert(bitmap@ =~= Set::new(|i: nat| i < 128 && exists|k: int| 0 <= k < j + 1 && positions@[k] as nat == i)) by {
                    assert forall|i: nat| i < 128 && (exists|k: int| 0 <= k < j + 1 && positions@[k] as nat == i) implies bitmap@.contains(i) by {
                        let k = choose|k: int| 0 <= k < j + 1 && positions@[k] as nat == i;
                        if k < j {
                            assert(old_map@.contains(i));
                        }
                    }
                    assert forall|i: nat| bitmap@.contains(i) implies i < 128 && (exists|k: int| 0 <= k < j + 1 && positions@[k] as nat == i) by {
                        if old_map@.contains(i) {
                            let k = choose|k: int| 0 <= k < j && positions@[k] as nat == i;
                            assert(0 <= k < j + 1);
                        } else {
                            assert(positions@[j as int] as nat == i);
                        }
                    }
                }
            }
            j = j + 1;
        }
        bitmap
    }

    /// The display form: "(none)" when empty, else the positions as in "bits[0,5,10]".
    pub fn to_string(&self) -> (r: String)
        ensures
            r@ == self.display(),
    {
        if self.is_empty() {
            let r = String::from_str("(none)");
            proof {
                reveal_strlit("(none)");
                assert(r@ =~= seq!['(', 'n', 'o', 'n', 'e', ')']);
            }
            return r;
        }
        let bits = self.to_bits();
        let mut r = String::from_str("bits[");
        proof {
            reveal_strlit("bits[");
            reveal_strlit(",");
            reveal_strlit("]");
            assert(r@ =~= seq!['b', 'i', 't', 's', '[']);
            assert(bits@.subrange(0, 0) =~= Seq::<u8>::empty());
        }
        let mut i: usize = 0;
        while i < bits.len()
            invariant
                i <= bits@.len(),
                r@ == seq!['b', 'i', 't', 's', '['] + join_decimals(bits@.subrange(0, i as int)),
            decreases bits@.len() - i,
        {
            proof {
                reveal_strlit(",");
                let sub = bits@.subrange(0, i + 1);
                assert(sub.drop_last() =~= bits@.subrange(0, i as int));
            }
            if i > 0 {
                r.append(",");
            }
            push_decimal(&mut r, bits[i] as u64);
            proof {
                let sub = bits@.subrange(0, i + 1);
                if i == 0 {
                    assert(r@ =~= seq!['b', 'i', 't', 's', '['] + join_decimals(sub));
                } else {
                    assert(r@ =~= seq!['b', 'i', 't', 's', '['] + join_decimals(sub));
                }
            }
            i = i + 1;
        }
        r.append("]");
        proof {
            reveal_strlit("]");
            assert(bits@.subrange(0, bits@.len() as int) =~= bits@);
            assert(r@ =~= seq!['b', 'i', 't', 's', '['] + join_decimals(self.positions()) + seq![']']);
        }
        r
    }

    /// The set positions in ascending order.
    pub fn to_bits(self) -> (r: Vec<u8>)
        ensures
            r@ == self.positions(),
            forall|k: int| 0 <= k < r@.len() ==> self@.contains(#[trigger] r@[k] as nat),
            forall|k: int, l: int| 0 <= k < l < r@.len() ==> r@[k] < r@[l],
            forall|i: nat| #[trigger] self@.contains(i) ==> exists|k: int| 0 <= k < r@.len() && r@[k] as nat == i,
    {
        let mut positions: Vec<u8> = Vec::new();
        let mut pos: u8 = 0;
        while pos < 128
            invariant
                pos <= 128,
                positions@ == positions_below(self.low_word(), self.high_word(), pos as nat),
                forall|k: int| 0 <= k < positions@.len() ==> self@.contains(#[trigger] positions@[k] as nat) && positions@[k] < pos,
                forall|k: int, l: int| 0 <= k < l < positions@.len() ==> positions@[k] < positions@[l],
                forall|i: nat| #[trigger] self@.contains(i) && i < pos ==> exists|k: int| 0 <= k < positions@.len() && positions@[k] as nat == i,
            decreases 128 - pos,
        {
            if self.has_bit(pos) {
                let ghost before = positions@;
                positions.push(pos);
                proof {
                    assert forall|i: nat| #[trigger] self@.contains(i) && i < pos + 1 implies exists|k: int| 0 <= k < positions@.len() && positions@[k] as nat == i by {
                        if i < pos {
                            let k = choose|k: int| 0 <= k < before.len() && before[k] as nat == i;
                            assert(positions@[k] == before[k]);
                        } else {
                            assert(positions@[before.len() as int] as nat == i);
                        }
                    }
                }
            }
            pos = pos + 1;
        }
        positions
    }
}

impl core::ops::BitOr for PermissionBitmap {
    type Output = PermissionBitmap;

    /// The union.
    fn bitor(self, rhs: PermissionBitmap) -> (r: PermissionBitmap)
        ensures
            r@ == self@.union(rhs@),
    {
        self.union(rhs)
    }
}

impl core::ops::BitAnd for PermissionBitmap {
    type Output = PermissionBitmap;

    /// The intersection.
    fn bitand(self, rhs: PermissionBitmap) -> (r: PermissionBitmap)
        ensures
            r@ == self@.intersect(rhs@),
    {
        self.intersection(rhs)
    }
}

impl vstd::std_specs::ops::BitOrSpecImpl for PermissionBitmap {
    open spec fn obeys_bitor_spec() -> bool {
        true
    }

    open spec fn bitor_req(self, rhs: PermissionBitmap) -> bool {
        true
    }

    closed spec fn bitor_spec(self, rhs: PermissionBitmap) -> PermissionBitmap {
        PermissionBitmap { low: self.low | rhs.low, high: self.high | rhs.high }
    }
}

impl vstd::std_specs::ops::BitAndSpecImpl for PermissionBitmap {
    open spec fn obeys_bitand_spec() -> bool {
        true
    }

    open spec fn bitand_req(self, rhs: PermissionBitmap) -> bool {
        true
    }

    closed spec fn bitand_spec(self, rhs: PermissionBitmap) -> PermissionBitmap {
        PermissionBitmap { low: self.low & rhs.low, high: self.high & rhs.high }
    }
}

/// Union is commutative and has the empty bitmap as unit, a bitmap minus itself is
/// empty, and `a` has `b` exactly when adding `b` to `a` leaves `a` as it was.
pub proof fn lemma_bitmap_algebra(a: PermissionBitmap, b: PermissionBitmap)
    ensures
        a@.union(b@) == b@.union(a@),
        a@.union(Set::<nat>::empty()) == a@,
        a@.difference(a@) == Set::<nat>::empty(),
        b@.subset_of(a@) <==> a@.union(b@) == a@,
{
    assert(a@.union(b@) =~= b@.union(a@));
    assert(a@.union(Set::<nat>::empty()) =~= a@);
    assert(a@.difference(a@) =~= Set::<nat>::empty());
    if a@.union(b@) == a@ {
        assert forall|i: nat| b@.contains(i) implies a@.contains(i) by {
            assert(a@.union(b@).contains(i));
        }
    }
    if b@.subset_of(a@) {
        assert(a@.union(b@) =~= a@);
    }
}

/// Reading the two signed halves of `a` back gives `a` again, whatever the sign of
/// each half.
pub proof fn lemma_halves_round_trip(a: PermissionBitmap, r: PermissionBitmap)
    requires
        r.low_word() == (a.low_word() as i64) as u64,
        r.high_word() == (a.high_word() as i64) as u64,
    ensures
        r == a,
{
    let lo = a.low;
    let hi = a.high;
    assert((lo as i64) as u64 == lo) by (bit_vector);
    assert((hi as i64) as u64 == hi) by (bit_vector);
}

proof fn lemma_word_zero_bits(x: u64)
    requires
        forall|i: u64| i < 64 ==> !word_bit(x, i),
    ensures
        x == 0u64,
{
    assert forall|i: u64| i < 64 implies (x >> i) & 1u64 == 0u64 by {
        assert(!word_bit(x, i));
        assert((x >> i) & 1u64 != 1u64 ==> (x >> i) & 1u64 == 0u64) by (bit_vector);
    }
    lemma_word_all_zero(x);
}

} // verus!
