//! The mathematical model of a bitmap's storage: a sequence of bytes read as
//! an unbounded sequence of bits, the effect of each update on it, and the
//! laws that relate them.
use vstd::prelude::*;

verus! {

/// Number of bits held by one storage word.
pub const WORD_BITS: usize = 8;

/// The largest number of words whose bit count still fits in a `usize`.
pub const MAX_WORDS: usize = usize::MAX / 8;

/// Whether bit `j` of the word `w` is set, bit 0 being the least significant.
pub open spec fn word_bit(w: u8, j: u8) -> bool {
    (w >> j) & 1u8 == 1u8
}

/// The word with only bit `j` set.
pub open spec fn mask(j: u8) -> u8 {
    1u8 << j
}

/// Whether logical bit `i` is set in the storage `words`: bit `i` lives at
/// offset `i % 8` of word `i / 8`, and a bit whose word is not stored is unset.
pub open spec fn bit_of(words: Seq<u8>, i: int) -> bool {
    0 <= i && i / 8 < words.len() && word_bit(words[i / 8], (i % 8) as u8)
}

/// The indices of all set bits.
pub open spec fn ones_of(words: Seq<u8>) -> Set<int> {
    Set::new(|i: int| bit_of(words, i))
}

/// Whether every logical bit is unset.
pub open spec fn all_unset(words: Seq<u8>) -> bool {
    forall|i: int| !#[trigger] bit_of(words, i)
}

/// Whether every stored word is zero.
pub open spec fn all_words_zero(words: Seq<u8>) -> bool {
    forall|k: int| 0 <= k < words.len() ==> #[trigger] words[k] == 0u8
}

/// The storage after setting bit `i`: zero words are appended until word
/// `i / 8` exists, then bit `i % 8` of that word is set.
pub open spec fn words_with_bit_set(words: Seq<u8>, i: nat) -> Seq<u8> {
    let k = (i / 8) as int;
    let grown = if k < words.len() {
        words
    } else {
        words + Seq::new((k + 1 - words.len()) as nat, |_n: int| 0u8)
    };
    grown.update(k, grown[k] | mask((i % 8) as u8))
}

/// The storage after clearing bit `i`: unchanged when word `i / 8` is not
/// stored, otherwise bit `i % 8` of that word is cleared.
pub open spec fn words_with_bit_cleared(words: Seq<u8>, i: nat) -> Seq<u8> {
    let k = (i / 8) as int;
    if k < words.len() {
        words.update(k, words[k] & !mask((i % 8) as u8))
    } else {
        words
    }
}

/// The storage with its trailing run of zero words removed.
pub open spec fn trim_trailing_zeros(words: Seq<u8>) -> Seq<u8>
    decreases words.len(),
{
    if words.len() > 0 && words.last() == 0u8 {
        trim_trailing_zeros(words.drop_last())
    } else {
        words
    }
}

/// Number of set bits among the low `n` bits of the word `w`.
pub open spec fn ones_in_word(w: u8, n: nat) -> nat
    decreases n,
{
    if n == 0 {
        0
    } else {
        ones_in_word(w, (n - 1) as nat) + if word_bit(w, (n - 1) as u8) {
            1nat
        } else {
            0nat
        }
    }
}

/// Number of set bits among the indices below `n`.
pub open spec fn ones_below(words: Seq<u8>, n: nat) -> nat
    decreases n,
{
    if n == 0 {
        0
    } else {
        ones_below(words, (n - 1) as nat) + if bit_of(words, n - 1) {
            1nat
        } else {
            0nat
        }
    }
}

// ---------------------------------------------------------------------------
// Facts about single words.

/// Testing against the mask of bit `j` reads bit `j`.
pub proof fn lemma_mask_selects(w: u8, j: u8)
    requires
        j < 8,
    ensures
        (w & mask(j) != 0) == word_bit(w, j),
{
    assert((w & (1u8 << j) != 0) == ((w >> j) & 1u8 == 1u8)) by (bit_vector)
        requires
            j < 8,
    ;
}

proof fn lemma_or_mask(w: u8, j: u8, m: u8)
    requires
        j < 8,
        m < 8,
    ensures
        word_bit(w | mask(j), m) == (m == j || word_bit(w, m)),
{
    assert(((w | (1u8 << j)) >> m) & 1u8 == 1u8 <==> (m == j || (w >> m) & 1u8 == 1u8))
        by (bit_vector)
        requires
            j < 8,
            m < 8,
    ;
}

proof fn lemma_and_not_mask(w: u8, j: u8, m: u8)
    requires
        j < 8,
        m < 8,
    ensures
        word_bit(w & !mask(j), m) == (m != j && word_bit(w, m)),
{
    assert(((w & !(1u8 << j)) >> m) & 1u8 == 1u8 <==> (m != j && (w >> m) & 1u8 == 1u8))
        by (bit_vector)
        requires
            j < 8,
            m < 8,
    ;
}

proof fn lemma_or_mask_when_set(w: u8, j: u8)
    requires
        j < 8,
        word_bit(w, j),
    ensures
        w | mask(j) == w,
{
    assert(w | (1u8 << j) == w) by (bit_vector)
        requires
            j < 8,
            (w >> j) & 1u8 == 1u8,
    ;
}

proof fn lemma_and_not_mask_when_unset(w: u8, j: u8)
    requires
        j < 8,
        !word_bit(w, j),
    ensures
        w & !mask(j) == w,
{
    assert(w & !(1u8 << j) == w) by (bit_vector)
        requires
            j < 8,
            (w >> j) & 1u8 != 1u8,
    ;
}

/// No bit of the zero word is set.
pub proof fn lemma_zero_word(j: u8)
    ensures
        !word_bit(0u8, j),
{
    assert((0u8 >> j) & 1u8 != 1u8) by (bit_vector);
}

proof fn lemma_nonzero_word(w: u8)
    requires
        w != 0,
    ensures
        exists|j: u8| j < 8 && #[trigger] word_bit(w, j),
{
    assert(w != 0 ==> (w >> 0u8) & 1u8 == 1u8 || (w >> 1u8) & 1u8 == 1u8 || (w >> 2u8) & 1u8
        == 1u8 || (w >> 3u8) & 1u8 == 1u8 || (w >> 4u8) & 1u8 == 1u8 || (w >> 5u8) & 1u8 == 1u8
        || (w >> 6u8) & 1u8 == 1u8 || (w >> 7u8) & 1u8 == 1u8) by (bit_vector);
    if word_bit(w, 0) {
    } else if word_bit(w, 1) {
    } else if word_bit(w, 2) {
    } else if word_bit(w, 3) {
    } else if word_bit(w, 4) {
    } else if word_bit(w, 5) {
    } else if word_bit(w, 6) {
    } else {
        assert(word_bit(w, 7));
    }
}

/// Bit `j` of word `k` is logical bit `8 * k + j`.
pub proof fn lemma_index_parts(k: int, j: int)
    requires
        0 <= k,
        0 <= j < 8,
    ensures
        (8 * k + j) / 8 == k,
        (8 * k + j) % 8 == j,
{
    assert((8 * k + j) / 8 == k && (8 * k + j) % 8 == j) by (nonlinear_arith)
        requires
            0 <= k,
            0 <= j < 8,
    ;
}

// ---------------------------------------------------------------------------
// Laws of the updates.

/// Bits whose word lies past the end of the storage are unset; in particular
/// every bit of empty storage is unset.
pub proof fn lemma_unstored_bit_unset(words: Seq<u8>, i: int)
    requires
        i < 0 || i / 8 >= words.len(),
    ensures
        !bit_of(words, i),
{
}

/// Empty storage has no set bit.
pub proof fn lemma_empty_all_unset()
    ensures
        all_unset(Seq::<u8>::empty()),
        ones_of(Seq::<u8>::empty()) == Set::<int>::empty(),
{
    assert(ones_of(Seq::<u8>::empty()) =~= Set::<int>::empty());
}

/// After setting bit `i`, bit `i` is set and every other bit is as it was.
pub proof fn lemma_set_bit(words: Seq<u8>, i: nat)
    ensures
        bit_of(words_with_bit_set(words, i), i as int),
        forall|j: int|
            j != i ==> #[trigger] bit_of(words_with_bit_set(words, i), j) == bit_of(words, j),
{
    let k = (i / 8) as int;
    let off = (i % 8) as u8;
    let grown = if k < words.len() {
        words
    } else {
        words + Seq::new((k + 1 - words.len()) as nat, |_n: int| 0u8)
    };
    let after = words_with_bit_set(words, i);
    assert(grown.len() > k);
    assert(after == grown.update(k, grown[k] | mask(off)));
    lemma_or_mask(grown[k], off, off);
    assert forall|j: int| j != i implies #[trigger] bit_of(after, j) == bit_of(words, j) by {
        if 0 <= j && j / 8 < after.len() {
            let m = (j % 8) as u8;
            let q = j / 8;
            let old_word: u8 = if q < words.len() {
                words[q]
            } else {
                0u8
            };
            assert(grown[q] == old_word);
            if q >= words.len() {
                lemma_zero_word(m);
            }
            if q == k {
                assert(j % 8 != i % 8);
                lemma_or_mask(grown[k], off, m);
            }
        }
    }
}

/// After clearing bit `i`, bit `i` is unset and every other bit is as it was.
pub proof fn lemma_clear_bit(words: Seq<u8>, i: nat)
    ensures
        !bit_of(words_with_bit_cleared(words, i), i as int),
        forall|j: int|
            j != i ==> #[trigger] bit_of(words_with_bit_cleared(words, i), j) == bit_of(words, j),
{
    let k = (i / 8) as int;
    let off = (i % 8) as u8;
    let after = words_with_bit_cleared(words, i);
    if k < words.len() {
        lemma_and_not_mask(words[k], off, off);
        assert forall|j: int| j != i implies #[trigger] bit_of(after, j) == bit_of(words, j) by {
            if 0 <= j && j / 8 == k {
                assert(j % 8 != i % 8);
                lemma_and_not_mask(words[k], off, (j % 8) as u8);
            }
        }
    }
}

/// Setting a bit that is already set leaves the storage exactly as it was.
pub proof fn lemma_set_bit_when_set(words: Seq<u8>, i: nat)
    requires
        bit_of(words, i as int),
    ensures
        words_with_bit_set(words, i) == words,
{
    let k = (i / 8) as int;
    lemma_or_mask_when_set(words[k], (i % 8) as u8);
    assert(words_with_bit_set(words, i) =~= words);
}

/// Clearing a bit that is already unset leaves the storage exactly as it was.
pub proof fn lemma_clear_bit_when_unset(words: Seq<u8>, i: nat)
    requires
        !bit_of(words, i as int),
    ensures
        words_with_bit_cleared(words, i) == words,
{
    let k = (i / 8) as int;
    if k < words.len() {
        lemma_and_not_mask_when_unset(words[k], (i % 8) as u8);
        assert(words_with_bit_cleared(words, i) =~= words);
    }
}

/// Setting bit `i` twice is the same as setting it once, and the second call
/// finds the bit already set.
pub proof fn lemma_set_bit_twice(words: Seq<u8>, i: nat)
    ensures
        bit_of(words_with_bit_set(words, i), i as int),
        words_with_bit_set(words_with_bit_set(words, i), i) == words_with_bit_set(words, i),
{
    lemma_set_bit(words, i);
    lemma_set_bit_when_set(words_with_bit_set(words, i), i);
}

/// Clearing bit `i` twice is the same as clearing it once, and the second
/// call finds the bit already unset.
pub proof fn lemma_clear_bit_twice(words: Seq<u8>, i: nat)
    ensures
        !bit_of(words_with_bit_cleared(words, i), i as int),
        words_with_bit_cleared(words_with_bit_cleared(words, i), i) == words_with_bit_cleared(
            words,
            i,
        ),
{
    lemma_clear_bit(words, i);
    lemma_clear_bit_when_unset(words_with_bit_cleared(words, i), i);
}

// ---------------------------------------------------------------------------
// Counting.

proof fn lemma_ones_in_word_bound(w: u8, n: nat)
    ensures
        ones_in_word(w, n) <= n,
    decreases n,
{
    if n > 0 {
        lemma_ones_in_word_bound(w, (n - 1) as nat);
    }
}

proof fn lemma_ones_below_bound(words: Seq<u8>, n: nat)
    ensures
        ones_below(words, n) <= n,
    decreases n,
{
    if n > 0 {
        lemma_ones_below_bound(words, (n - 1) as nat);
    }
}

/// Counting on through the low `n` bits of word `k` adds the set bits among
/// those bits of that word.
proof fn lemma_ones_below_word(words: Seq<u8>, k: int, n: nat)
    requires
        0 <= k < words.len(),
        n <= 8,
    ensures
        ones_below(words, (8 * k + n) as nat) == ones_below(words, (8 * k) as nat) + ones_in_word(
            words[k],
            n,
        ),
    decreases n,
{
    if n > 0 {
        lemma_ones_below_word(words, k, (n - 1) as nat);
        lemma_index_parts(k, n - 1);
        assert(((8 * k + n) - 1) as nat == (8 * k + (n - 1)) as nat);
    }
}

/// After counting through word `k`, the count grows by that word's set bits,
/// and never exceeds the number of bits counted.
pub proof fn lemma_count_step(words: Seq<u8>, k: int)
    requires
        0 <= k < words.len(),
    ensures
        ones_below(words, (8 * (k + 1)) as nat) == ones_below(words, (8 * k) as nat)
            + ones_in_word(words[k], 8),
        ones_below(words, (8 * k) as nat) <= 8 * k,
        ones_in_word(words[k], 8) <= 8,
{
    lemma_ones_below_word(words, k, 8);
    assert((8 * k + 8) as nat == (8 * (k + 1)) as nat);
    lemma_ones_below_bound(words, (8 * k) as nat);
    lemma_ones_in_word_bound(words[k], 8);
}

proof fn lemma_ones_prefix(words: Seq<u8>, n: nat)
    ensures
        Set::new(|i: int| 0 <= i < n && bit_of(words, i)).finite(),
        Set::new(|i: int| 0 <= i < n && bit_of(words, i)).len() == ones_below(words, n),
    decreases n,
{
    let s = Set::new(|i: int| 0 <= i < n && bit_of(words, i));
    if n == 0 {
        assert(s =~= Set::<int>::empty());
    } else {
        lemma_ones_prefix(words, (n - 1) as nat);
        let p = Set::new(|i: int| 0 <= i < n - 1 && bit_of(words, i));
        if bit_of(words, n - 1) {
            assert(s =~= p.insert(n - 1));
        } else {
            assert(s =~= p);
        }
    }
}

/// The set bits are finitely many, all of them below `8 * words.len()`, and
/// their number is the count of set bits below that index.
pub proof fn lemma_ones_count(words: Seq<u8>)
    ensures
        ones_of(words).finite(),
        ones_of(words).len() == ones_below(words, 8 * words.len()),
{
    let n = 8 * words.len();
    lemma_ones_prefix(words, n);
    assert forall|i: int| bit_of(words, i) implies i < n by {
        vstd::arithmetic::div_mod::lemma_fundamental_div_mod(i, 8);
    }
    assert(ones_of(words) =~= Set::new(|i: int| 0 <= i < n && bit_of(words, i)));
}

/// The storage is logically empty exactly when no index holds a set bit, that
/// is, when the number of set bits is zero.
pub proof fn lemma_all_unset_iff_no_ones(words: Seq<u8>)
    ensures
        all_unset(words) <==> ones_of(words).len() == 0,
{
    lemma_ones_count(words);
    if all_unset(words) {
        assert(ones_of(words) =~= Set::<int>::empty());
    }
    if ones_of(words).len() == 0 {
        ones_of(words).lemma_len0_is_empty();
        assert forall|i: int| !#[trigger] bit_of(words, i) by {
            assert(!ones_of(words).contains(i));
        }
    }
}

/// Every logical bit is unset exactly when every stored word is zero.
pub proof fn lemma_zero_words_iff_all_unset(words: Seq<u8>)
    ensures
        all_words_zero(words) <==> all_unset(words),
{
    if all_words_zero(words) {
        assert forall|i: int| !#[trigger] bit_of(words, i) by {
            if 0 <= i && i / 8 < words.len() {
                assert(words[i / 8] == 0u8);
                lemma_zero_word((i % 8) as u8);
            }
        }
    } else {
        let k = choose|k: int| 0 <= k < words.len() && words[k] != 0u8;
        lemma_nonzero_word(words[k]);
        let j = choose|j: u8| j < 8 && #[trigger] word_bit(words[k], j);
        lemma_index_parts(k, j as int);
        assert(bit_of(words, 8 * k + j));
    }
}

/// The storage after setting each index of `indices`, in order.
pub open spec fn words_with_bits_set(words: Seq<u8>, indices: Seq<int>) -> Seq<u8>
    decreases indices.len(),
{
    if indices.len() == 0 {
        words
    } else {
        words_with_bit_set(words_with_bits_set(words, indices.drop_last()), indices.last() as nat)
    }
}

/// Starting from empty storage and setting each index of `indices` in turn,
/// the set bits are exactly those indices, so there are as many of them as
/// there are distinct indices.
pub proof fn lemma_set_bits_from_empty(indices: Seq<int>)
    requires
        forall|k: int| 0 <= k < indices.len() ==> #[trigger] indices[k] >= 0,
    ensures
        ones_of(words_with_bits_set(Seq::<u8>::empty(), indices)) == indices.to_set(),
        ones_of(words_with_bits_set(Seq::<u8>::empty(), indices)).len()
            == indices.to_set().len(),
    decreases indices.len(),
{
    let after = words_with_bits_set(Seq::<u8>::empty(), indices);
    if indices.len() == 0 {
        lemma_empty_all_unset();
        assert(indices.to_set() =~= Set::<int>::empty());
    } else {
        let prev = indices.drop_last();
        let last = indices.last();
        assert forall|k: int| 0 <= k < prev.len() implies #[trigger] prev[k] >= 0 by {
            assert(prev[k] == indices[k]);
        }
        lemma_set_bits_from_empty(prev);
        let before = words_with_bits_set(Seq::<u8>::empty(), prev);
        lemma_set_bit(before, last as nat);
        assert(after == words_with_bit_set(before, last as nat));
        assert forall|i: int| #[trigger] ones_of(after).contains(i) == indices.to_set().contains(
            i,
        ) by {
            assert(ones_of(after).contains(i) == bit_of(after, i));
            assert(ones_of(before).contains(i) == bit_of(before, i));
            if i == last {
                assert(indices[indices.len() - 1] == i);
            } else {
                if prev.contains(i) {
                    let k = choose|k: int| 0 <= k < prev.len() && prev[k] == i;
                    assert(indices[k] == i);
                }
                if indices.contains(i) {
                    let k = choose|k: int| 0 <= k < indices.len() && indices[k] == i;
                    assert(k < prev.len());
                    assert(prev[k] == i);
                }
            }
        }
        assert(ones_of(after) =~= indices.to_set());
    }
}

// ---------------------------------------------------------------------------
// Trimming.

/// Dropping the trailing zero words keeps a prefix of the storage that ends in
/// a nonzero word (or is empty), drops only zero words, and leaves every
/// logical bit as it was.
pub proof fn lemma_trim_trailing_zeros(words: Seq<u8>)
    ensures
        trim_trailing_zeros(words).len() <= words.len(),
        trim_trailing_zeros(words) == words.subrange(0, trim_trailing_zeros(words).len() as int),
        trim_trailing_zeros(words).len() == 0 || trim_trailing_zeros(words).last() != 0u8,
        forall|k: int|
            trim_trailing_zeros(words).len() <= k < words.len() ==> #[trigger] words[k] == 0u8,
        forall|i: int| #[trigger] bit_of(trim_trailing_zeros(words), i) == bit_of(words, i),
    decreases words.len(),
{
    if words.len() > 0 && words.last() == 0u8 {
        let shorter = words.drop_last();
        lemma_trim_trailing_zeros(shorter);
        let t = trim_trailing_zeros(words);
        assert(t == trim_trailing_zeros(shorter));
        assert(t =~= words.subrange(0, t.len() as int));
        assert forall|k: int| t.len() <= k < words.len() implies #[trigger] words[k] == 0u8 by {
            if k < shorter.len() {
                assert(shorter[k] == words[k]);
            }
        }
        assert forall|i: int| #[trigger] bit_of(t, i) == bit_of(words, i) by {
            assert(bit_of(t, i) == bit_of(shorter, i));
            if 0 <= i && i / 8 == words.len() - 1 {
                lemma_zero_word((i % 8) as u8);
            }
        }
    } else {
        assert(words =~= words.subrange(0, words.len() as int));
    }
}

} // verus!
