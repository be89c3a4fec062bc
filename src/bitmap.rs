//! The growable bitmap itself.
use vstd::prelude::*;

use crate::words::{
    all_unset, all_words_zero, bit_of, lemma_clear_bit, lemma_count_step, lemma_mask_selects,
    lemma_ones_count, lemma_set_bit, lemma_trim_trailing_zeros, lemma_zero_word,
    lemma_zero_words_iff_all_unset, ones_below, ones_in_word, ones_of, trim_trailing_zeros,
    words_with_bit_cleared, words_with_bit_set, MAX_WORDS, WORD_BITS,
};

verus! {

/// The number of elements that the vector `v` can hold without reallocating,
/// as `Vec::capacity` reports it.
pub uninterp spec fn reserve_of(v: Vec<u8>) -> nat;

/// A growable compact boolean array.
///
/// Bit `i` is stored at offset `i % 8` of byte `i / 8` of the backing
/// storage, offset 0 being the least significant bit.
#[derive(Clone, PartialEq, Eq, PartialOrd, Ord, Hash, Debug)]
pub struct GrowableBitMap {
    bits: Vec<u8>,
}

impl View for GrowableBitMap {
    type V = Seq<u8>;

    /// The stored words, in order.
    closed spec fn view(&self) -> Seq<u8> {
        self.bits@
    }
}

impl GrowableBitMap {
    /// Well-formedness: the number of stored bits fits in a `usize`, and the
    /// storage reserve covers the stored words.
    pub closed spec fn wf(&self) -> bool {
        &&& self.bits@.len() <= MAX_WORDS
        &&& reserve_of(self.bits) >= self.bits@.len()
    }

    /// The number of words the storage can hold without reallocating.
    pub closed spec fn reserved(&self) -> nat {
        reserve_of(self.bits)
    }

    /// Whether logical bit `i` is set.
    pub open spec fn bit(&self, i: int) -> bool {
        bit_of(self@, i)
    }

    /// The indices of all set bits.
    pub open spec fn ones(&self) -> Set<int> {
        ones_of(self@)
    }

    /// The number of bits that `words` words hold, saturated at `usize::MAX`.
    pub open spec fn bits_in(words: int) -> int {
        if words <= MAX_WORDS {
            8 * words
        } else {
            usize::MAX as int
        }
    }

    /// Creates a new, empty bitmap. This does not allocate.
    pub fn new() -> (r: Self)
        ensures
            r.wf(),
            r@ == Seq::<u8>::empty(),
            r.reserved() == 0,
    {
        GrowableBitMap { bits: vec_new() }
    }

    /// Returns whether the bit at `index` is set. Bits past the end of the
    /// storage are unset.
    pub fn get_bit(&self, index: usize) -> (r: bool)
        ensures
            r == self.bit(index as int),
    {
        let word = index / WORD_BITS;
        if self.bits.len() <= word {
            return false;
        }
        let offset = (index % WORD_BITS) as u8;
        let mask: u8 = 1u8 << offset;
        let elem = self.bits[word];
        proof {
            lemma_mask_selects(elem, offset);
        }
        (elem & mask) != 0
    }

    /// Sets the bit at `index` and returns whether this call changed it from
    /// 0 to 1. Zero words are appended as needed so that the word holding
    /// `index` exists.
    pub fn set_bit(&mut self, index: usize) -> (r: bool)
        requires
            old(self).wf(),
            index / 8 < MAX_WORDS,
        ensures
            final(self).wf(),
            final(self)@ == words_with_bit_set(old(self)@, index as nat),
            r == !old(self).bit(index as int),
            final(self).bit(index as int),
            forall|j: int| j != index ==> #[trigger] final(self).bit(j) == old(self).bit(j),
            final(self).reserved() >= old(self).reserved(),
            final(self).reserved() > index / 8,
            index / 8 < old(self).reserved() ==> final(self).reserved() == old(self).reserved(),
    {
        let word = index / WORD_BITS;
        if self.bits.len() <= word {
            self.grow_to(word + 1);
        }
        let offset = (index % WORD_BITS) as u8;
        let mask: u8 = 1u8 << offset;
        let elem = self.bits[word];
        proof {
            lemma_mask_selects(elem, offset);
            lemma_set_bit(old(self)@, index as nat);
            if old(self)@.len() <= word {
                assert(elem == 0u8);
                lemma_zero_word(offset);
            } else {
                assert(elem == old(self)@[word as int]);
            }
        }
        vec_write(&mut self.bits, word, elem | mask);
        proof {
            assert(self@ =~= words_with_bit_set(old(self)@, index as nat));
        }
        (elem & mask) == 0
    }

    /// Appends zero words until `n` words are stored. The room for them is
    /// reserved first, so that no append reallocates, and nothing is
    /// reallocated at all when the reserve already covers `n` words.
    fn grow_to(&mut self, n: usize)
        requires
            old(self).wf(),
            old(self)@.len() < n <= MAX_WORDS,
        ensures
            final(self).wf(),
            final(self)@ == old(self)@ + Seq::new((n - old(self)@.len()) as nat, |_k: int| 0u8),
            final(self).reserved() >= n,
            final(self).reserved() >= old(self).reserved(),
            old(self).reserved() >= n ==> final(self).reserved() == old(self).reserved(),
    {
        let len = self.bits.len();
        vec_reserve(&mut self.bits, n - len);
        let ghost reserve = self.reserved();
        let ghost start = old(self)@;
        while self.bits.len() < n
            invariant
                start.len() <= self@.len() <= n <= MAX_WORDS,
                reserve >= n,
                self.reserved() == reserve,
                self@ == start + Seq::new((self@.len() - start.len()) as nat, |_k: int| 0u8),
            decreases n - self@.len(),
        {
            vec_push(&mut self.bits, 0u8);
            proof {
                assert(self@ =~= start + Seq::new((self@.len() - start.len()) as nat, |_k: int| 0u8));
            }
        }
    }

    /// Clears the bit at `index` and returns whether this call changed it from
    /// 1 to 0. This never allocates nor frees storage: a bit past the end is
    /// already unset and nothing changes.
    pub fn clear_bit(&mut self, index: usize) -> (r: bool)
        requires
            old(self).wf(),
        ensures
            final(self).wf(),
            final(self)@ == words_with_bit_cleared(old(self)@, index as nat),
            r == old(self).bit(index as int),
            !final(self).bit(index as int),
            forall|j: int| j != index ==> #[trigger] final(self).bit(j) == old(self).bit(j),
            final(self).reserved() == old(self).reserved(),
    {
        proof {
            lemma_clear_bit(old(self)@, index as nat);
        }
        let word = index / WORD_BITS;
        if self.bits.len() <= word {
            return false;
        }
        let offset = (index % WORD_BITS) as u8;
        let mask: u8 = 1u8 << offset;
        let elem = self.bits[word];
        proof {
            lemma_mask_selects(elem, offset);
        }
        vec_write(&mut self.bits, word, elem & !mask);
        proof {
            assert(self@ =~= words_with_bit_cleared(old(self)@, index as nat));
        }
        (elem & mask) != 0
    }

    /// Unsets every bit by dropping all stored words. The reserved storage is
    /// kept, so the capacity is the same after the call as before.
    pub fn clear(&mut self)
        requires
            old(self).wf(),
        ensures
            final(self).wf(),
            final(self)@ == Seq::<u8>::empty(),
            final(self).reserved() == old(self).reserved(),
    {
        vec_clear(&mut self.bits);
    }

    /// Number of words needed to hold `bits` bits: `bits / 8`, rounded up.
    pub fn words_for_bits(bits: usize) -> (r: usize)
        ensures
            r == (bits + 7) / 8,
            8 * r >= bits,
            8 * r < bits + 8,
    {
        let div = bits / WORD_BITS;
        let rem: usize = if bits % WORD_BITS != 0 {
            1
        } else {
            0
        };
        div + rem
    }

    /// The number of bits that `words` words hold: `8 * words`, saturated at
    /// `usize::MAX` where that product does not fit.
    pub fn bits_for_words(words: usize) -> (r: usize)
        ensures
            r == Self::bits_in(words as int),
    {
        if words <= MAX_WORDS {
            words * WORD_BITS
        } else {
            usize::MAX
        }
    }

    /// Creates an empty bitmap whose storage is reserved for at least
    /// `capacity` bits, that is `capacity / 8` words rounded up. Nothing is
    /// allocated when `capacity` is zero.
    pub fn with_capacity(capacity: usize) -> (r: Self)
        ensures
            r.wf(),
            r@ == Seq::<u8>::empty(),
            8 * r.reserved() >= capacity,
            capacity == 0 ==> r.reserved() == 0,
    {
        if capacity == 0 {
            return Self::new();
        }
        let words = Self::words_for_bits(capacity);
        GrowableBitMap { bits: vec_with_capacity(words) }
    }

    /// Returns whether no bit is set: either no word is stored or every
    /// stored word is zero.
    pub fn is_empty(&self) -> (r: bool)
        ensures
            r == all_words_zero(self@),
            r == all_unset(self@),
    {
        let mut k: usize = 0;
        while k < self.bits.len()
            invariant
                k <= self@.len(),
                forall|m: int| 0 <= m < k ==> #[trigger] self@[m] == 0u8,
            decreases self@.len() - k,
        {
            if self.bits[k] != 0 {
                assert(self@[k as int] != 0u8);
                proof {
                    lemma_zero_words_iff_all_unset(self@);
                }
                return false;
            }
            k = k + 1;
        }
        proof {
            lemma_zero_words_iff_all_unset(self@);
        }
        true
    }

    /// Counts the bits that are set.
    pub fn count_ones(&self) -> (r: usize)
        requires
            self.wf(),
        ensures
            r == self.ones().len(),
            self.ones().finite(),
    {
        let mut total: usize = 0;
        let mut k: usize = 0;
        while k < self.bits.len()
            invariant
                self.wf(),
                k <= self@.len(),
                total == ones_below(self@, (8 * k) as nat),
            decreases self@.len() - k,
        {
            let w = self.bits[k];
            let c = byte_count_ones(w);
            proof {
                lemma_count_step(self@, k as int);
            }
            total = total + c as usize;
            k = k + 1;
        }
        proof {
            lemma_ones_count(self@);
        }
        total
    }

    /// The number of bits the bitmap can hold without reallocating: eight
    /// per word of reserved storage, saturated at `usize::MAX`. The reserve
    /// is what the allocator granted, never less than the stored words.
    pub fn capacity(&self) -> (r: usize)
        requires
            self.wf(),
        ensures
            r == Self::bits_in(self.reserved() as int),
            r >= 8 * self@.len(),
    {
        let words = vec_capacity(&self.bits);
        Self::bits_for_words(words)
    }

    /// Drops the trailing run of zero words and releases the storage reserved
    /// beyond what remains. Zero words before the last nonzero word are kept,
    /// so every bit reads as before.
    pub fn shrink_to_fit(&mut self)
        requires
            old(self).wf(),
        ensures
            final(self).wf(),
            final(self)@ == trim_trailing_zeros(old(self)@),
            forall|i: int| #[trigger] final(self).bit(i) == old(self).bit(i),
            final(self).reserved() <= old(self).reserved(),
    {
        let mut n: usize = self.bits.len();
        proof {
            assert(self@.subrange(0, n as int) =~= self@);
        }
        while n > 0 && self.bits[n - 1] == 0
            invariant
                n <= self@.len(),
                trim_trailing_zeros(self@) == trim_trailing_zeros(self@.subrange(0, n as int)),
            decreases n,
        {
            proof {
                assert(self@.subrange(0, n as int).drop_last() =~= self@.subrange(0, n - 1));
            }
            n = n - 1;
        }
        vec_truncate(&mut self.bits, n);
        vec_shrink_to_fit(&mut self.bits);
        proof {
            lemma_trim_trailing_zeros(old(self)@);
        }
    }
}

/// Relies on `u8::count_ones`: the number of ones in the binary
/// representation of `w`.
#[verifier::external_body]
fn byte_count_ones(w: u8) -> (r: u32)
    ensures
        r == ones_in_word(w, 8),
{
    w.count_ones()
}

/// Relies on `Vec::new`: the vector is empty and does not allocate, so it
/// reserves nothing.
#[verifier::external_body]
fn vec_new() -> (r: Vec<u8>)
    ensures
        r@ == Seq::<u8>::empty(),
        reserve_of(r) == 0,
{
    Vec::new()
}

/// Relies on `Vec::with_capacity`: the vector is empty and can hold at least
/// `n` elements without reallocating. It panics past `isize::MAX` bytes.
#[verifier::external_body]
fn vec_with_capacity(n: usize) -> (r: Vec<u8>)
    requires
        n <= isize::MAX,
    ensures
        r@ == Seq::<u8>::empty(),
        reserve_of(r) >= n,
{
    Vec::with_capacity(n)
}

/// Relies on `Vec::capacity`: the number of elements the vector can hold
/// without reallocating.
#[verifier::external_body]
fn vec_capacity(v: &Vec<u8>) -> (r: usize)
    ensures
        r == reserve_of(*v),
{
    v.capacity()
}

/// Relies on `Vec::reserve`: afterwards the capacity is at least
/// `len + additional`; it does nothing when the capacity already suffices,
/// and it never shrinks the vector. It panics past `isize::MAX` bytes.
#[verifier::external_body]
fn vec_reserve(v: &mut Vec<u8>, additional: usize)
    requires
        old(v)@.len() + additional <= isize::MAX,
    ensures
        final(v)@ == old(v)@,
        reserve_of(*final(v)) >= old(v)@.len() + additional,
        reserve_of(*final(v)) >= reserve_of(*old(v)),
        reserve_of(*old(v)) >= old(v)@.len() + additional ==> reserve_of(*final(v)) == reserve_of(
            *old(v),
        ),
{
    v.reserve(additional)
}

/// Relies on `Vec::push`: it appends `x`, and it does not reallocate when the
/// capacity suffices.
#[verifier::external_body]
fn vec_push(v: &mut Vec<u8>, x: u8)
    requires
        old(v)@.len() < reserve_of(*old(v)),
    ensures
        final(v)@ == old(v)@.push(x),
        reserve_of(*final(v)) == reserve_of(*old(v)),
{
    v.push(x)
}

/// Relies on indexing a `Vec` mutably: element `i` is overwritten in place,
/// and the allocation is untouched.
#[verifier::external_body]
fn vec_write(v: &mut Vec<u8>, i: usize, x: u8)
    requires
        i < old(v)@.len(),
    ensures
        final(v)@ == old(v)@.update(i as int, x),
        reserve_of(*final(v)) == reserve_of(*old(v)),
{
    v[i] = x;
}

/// Relies on `Vec::clear`: it removes every element and has no effect on the
/// allocated capacity.
#[verifier::external_body]
fn vec_clear(v: &mut Vec<u8>)
    ensures
        final(v)@ == Seq::<u8>::empty(),
        reserve_of(*final(v)) == reserve_of(*old(v)),
{
    v.clear()
}

/// Relies on `Vec::truncate`: it keeps the first `len` elements and has no
/// effect on the allocated capacity.
#[verifier::external_body]
fn vec_truncate(v: &mut Vec<u8>, len: usize)
    requires
        len <= old(v)@.len(),
    ensures
        final(v)@ == old(v)@.subrange(0, len as int),
        reserve_of(*final(v)) == reserve_of(*old(v)),
{
    v.truncate(len)
}

/// Relies on `Vec::shrink_to_fit`: it leaves the contents unchanged and
/// lowers the capacity as far as the allocator allows, never below the
/// length and never above what it was.
#[verifier::external_body]
fn vec_shrink_to_fit(v: &mut Vec<u8>)
    ensures
        final(v)@ == old(v)@,
        reserve_of(*final(v)) <= reserve_of(*old(v)),
        reserve_of(*final(v)) >= old(v)@.len(),
{
    v.shrink_to_fit()
}

} // verus!
