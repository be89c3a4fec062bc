use growable_bitmap::GrowableBitMap;

#[test]
fn new_is_empty_and_unallocated() {
    let b = GrowableBitMap::new();
    assert!(b.is_empty());
    assert_eq!(b.capacity(), 0);
    assert_eq!(b.count_ones(), 0);
}

#[test]
fn out_of_range_read_on_empty() {
    let b = GrowableBitMap::new();
    assert!(!b.get_bit(0));
    assert!(!b.get_bit(15));
    assert!(!b.get_bit(10_000_000));
    assert_eq!(b.capacity(), 0);
}

#[test]
fn get_after_set() {
    let mut b = GrowableBitMap::new();
    for i in [0usize, 1, 7, 8, 15, 63, 64, 127, 1000] {
        b.set_bit(i);
        assert!(b.get_bit(i));
    }
}

#[test]
fn get_after_clear() {
    let mut b = GrowableBitMap::new();
    for i in [0usize, 3, 9, 200] {
        b.set_bit(i);
        b.clear_bit(i);
        assert!(!b.get_bit(i));
    }
    b.clear_bit(5000);
    assert!(!b.get_bit(5000));
}

#[test]
fn set_reports_transition() {
    let mut b = GrowableBitMap::new();
    assert!(b.set_bit(0));
    assert!(!b.set_bit(0));
    assert!(!b.set_bit(0));
    assert!(b.set_bit(10));
    b.clear_bit(0);
    assert!(b.set_bit(0));
}

#[test]
fn clear_reports_transition() {
    let mut b = GrowableBitMap::new();
    assert!(!b.clear_bit(0));
    b.set_bit(0);
    assert!(b.clear_bit(0));
    assert!(!b.clear_bit(0));
    b.set_bit(13);
    assert!(!b.clear_bit(12));
    assert!(b.clear_bit(13));
}

#[test]
fn clear_past_end_does_not_grow() {
    let mut b = GrowableBitMap::new();
    assert!(!b.clear_bit(1_000_000));
    assert_eq!(b.capacity(), 0);
    assert!(b.is_empty());
}

#[test]
fn non_interference() {
    let mut b = GrowableBitMap::new();
    b.set_bit(5);
    b.set_bit(17);
    b.set_bit(6);
    assert!(b.get_bit(5));
    assert!(b.get_bit(17));
    assert!(!b.get_bit(4));
    assert!(!b.get_bit(7));
    b.clear_bit(6);
    assert!(b.get_bit(5));
    assert!(b.get_bit(17));
    for j in 0..40usize {
        assert_eq!(b.get_bit(j), j == 5 || j == 17);
    }
}

#[test]
fn set_bit_grows_storage() {
    let mut b = GrowableBitMap::new();
    assert!(b.set_bit(10));
    assert!(b.capacity() >= 11);
    b.set_bit(125);
    assert_eq!(b.capacity(), 128);
}

#[test]
fn count_ones_small() {
    let mut b = GrowableBitMap::new();
    assert_eq!(b.count_ones(), 0);
    b.set_bit(2);
    assert_eq!(b.count_ones(), 1);
    b.set_bit(9);
    assert_eq!(b.count_ones(), 2);
    for i in 16..24usize {
        b.set_bit(i);
    }
    assert_eq!(b.count_ones(), 10);
}

#[test]
fn count_ones_matches_random_subset() {
    let mut b = GrowableBitMap::new();
    let mut chosen = vec![false; 10_000];
    let mut state: u64 = 0x2545_F491_4F6C_DD1D;
    for _ in 0..4000 {
        state = state.wrapping_mul(6364136223846793005).wrapping_add(1442695040888963407);
        let i = ((state >> 33) % 10_000) as usize;
        let fresh = !chosen[i];
        assert_eq!(b.set_bit(i), fresh);
        chosen[i] = true;
    }
    let expected = chosen.iter().filter(|c| **c).count();
    assert_eq!(b.count_ones(), expected);
    let read = (0..10_000usize).filter(|i| b.get_bit(*i)).count();
    assert_eq!(read, expected);
    for i in 0..10_000usize {
        assert_eq!(b.get_bit(i), chosen[i]);
    }
}

#[test]
fn with_capacity_rounds_up() {
    assert_eq!(GrowableBitMap::with_capacity(125).capacity(), 128);
    assert_eq!(GrowableBitMap::with_capacity(0).capacity(), 0);
    assert_eq!(GrowableBitMap::with_capacity(1).capacity(), 8);
    let mut b = GrowableBitMap::with_capacity(8);
    assert!(b.is_empty());
    assert_eq!(b.capacity(), 8);
    b.set_bit(7);
    assert_eq!(b.capacity(), 8);
    b.set_bit(10);
    assert!(b.capacity() >= 8);
}

#[test]
fn words_for_bits_values() {
    assert_eq!(GrowableBitMap::words_for_bits(0), 0);
    assert_eq!(GrowableBitMap::words_for_bits(1), 1);
    assert_eq!(GrowableBitMap::words_for_bits(8), 1);
    assert_eq!(GrowableBitMap::words_for_bits(9), 2);
    assert_eq!(GrowableBitMap::words_for_bits(120), 15);
    assert_eq!(GrowableBitMap::words_for_bits(125), 16);
    assert_eq!(GrowableBitMap::words_for_bits(usize::MAX), usize::MAX / 8 + 1);
}

#[test]
fn bits_for_words_values() {
    assert_eq!(GrowableBitMap::bits_for_words(0), 0);
    assert_eq!(GrowableBitMap::bits_for_words(16), 128);
    assert_eq!(GrowableBitMap::bits_for_words(usize::MAX / 8), usize::MAX / 8 * 8);
    assert_eq!(GrowableBitMap::bits_for_words(usize::MAX / 8 + 1), usize::MAX);
    assert_eq!(GrowableBitMap::bits_for_words(usize::MAX), usize::MAX);
}

#[test]
fn shrink_keeps_bits() {
    let mut b = GrowableBitMap::with_capacity(125);
    b.set_bit(63);
    b.set_bit(127);
    b.clear_bit(127);
    b.shrink_to_fit();
    assert_eq!(b.capacity(), 64);
    assert!(b.get_bit(63));
    assert!(!b.get_bit(127));
    assert_eq!(b.count_ones(), 1);
}

#[test]
fn shrink_keeps_interior_zero_words() {
    let mut b = GrowableBitMap::new();
    b.set_bit(3);
    b.set_bit(40);
    b.set_bit(100);
    b.clear_bit(100);
    b.clear_bit(3);
    b.shrink_to_fit();
    assert_eq!(b.capacity(), 48);
    assert!(b.get_bit(40));
    assert!(!b.get_bit(3));
    let mut c = GrowableBitMap::new();
    c.set_bit(20);
    c.clear_bit(20);
    c.shrink_to_fit();
    assert_eq!(c.capacity(), 0);
    assert!(c.is_empty());
}

#[test]
fn emptiness_matches_count() {
    let mut b = GrowableBitMap::new();
    assert_eq!(b.is_empty(), b.count_ones() == 0);
    b.set_bit(30);
    assert!(!b.is_empty());
    assert_eq!(b.is_empty(), b.count_ones() == 0);
    b.clear_bit(30);
    assert!(b.is_empty());
    assert_eq!(b.is_empty(), b.count_ones() == 0);
    b.set_bit(1);
    b.set_bit(2);
    b.clear();
    assert!(b.is_empty());
    assert_eq!(b.count_ones(), 0);
}

#[test]
fn clear_drops_storage() {
    let mut b = GrowableBitMap::new();
    b.set_bit(4);
    assert!(!b.is_empty());
    b.clear();
    assert!(b.is_empty());
    assert!(!b.get_bit(4));
}

#[test]
fn scenario() {
    let mut b = GrowableBitMap::new();
    assert!(b.set_bit(0));
    assert!(!b.set_bit(0));
    assert!(b.set_bit(10));
    assert!(b.capacity() >= 11);
    assert_eq!(b.count_ones(), 2);
    assert!(b.clear_bit(0));
    assert_eq!(b.count_ones(), 1);
    b.clear();
    assert!(b.is_empty());
    assert_eq!(b.count_ones(), 0);
}

#[test]
fn equality_follows_stored_words() {
    let mut a = GrowableBitMap::new();
    a.set_bit(3);
    let mut b = a.clone();
    assert_eq!(a, b);
    b.set_bit(20);
    b.clear_bit(20);
    assert_ne!(a, b);
    assert!(a < b);
    b.shrink_to_fit();
    assert_eq!(a, b);
}

#[test]
fn clone_is_independent() {
    let mut a = GrowableBitMap::new();
    a.set_bit(1);
    let b = a.clone();
    a.set_bit(2);
    assert!(!b.get_bit(2));
    assert!(b.get_bit(1));
}

#[test]
fn full_word_counts_eight() {
    let mut b = GrowableBitMap::new();
    for i in 8..16usize {
        b.set_bit(i);
    }
    assert_eq!(b.count_ones(), 8);
    b.clear_bit(12);
    assert_eq!(b.count_ones(), 7);
}

#[test]
fn debug_lists_words() {
    let mut b = GrowableBitMap::new();
    b.set_bit(0);
    b.set_bit(9);
    let text = format!("{:?}", b);
    assert!(text.contains("[1, 2]"));
}

#[test]
fn clear_keeps_capacity() {
    let mut b = GrowableBitMap::new();
    b.set_bit(100);
    let before = b.capacity();
    assert!(before >= 104);
    b.clear();
    assert!(b.is_empty());
    assert_eq!(b.capacity(), before);
}

#[test]
fn clear_bit_keeps_capacity() {
    let mut b = GrowableBitMap::with_capacity(64);
    b.set_bit(30);
    let before = b.capacity();
    assert!(b.clear_bit(30));
    assert_eq!(b.capacity(), before);
    assert!(!b.clear_bit(5000));
    assert_eq!(b.capacity(), before);
}

#[test]
fn set_bit_within_reserve_keeps_capacity() {
    let mut b = GrowableBitMap::with_capacity(256);
    let before = b.capacity();
    assert!(before >= 256);
    b.set_bit(255);
    b.set_bit(0);
    assert_eq!(b.capacity(), before);
    assert_eq!(b.count_ones(), 2);
}

#[test]
fn shrink_never_raises_capacity() {
    let mut b = GrowableBitMap::with_capacity(1024);
    b.set_bit(9);
    let before = b.capacity();
    b.shrink_to_fit();
    assert!(b.capacity() <= before);
    assert!(b.capacity() >= 16);
    assert!(b.get_bit(9));
}
