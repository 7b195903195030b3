use trigrep_index::trigram::extract_trigrams;
use trigrep_index::types::{bloom_hash, trigram_hash};

#[test]
fn test_extract_trigrams_basic() {
    let content = b"abcde";
    let trigrams = extract_trigrams(content);
    // "abcde" -> trigrams: "abc", "bcd", "cde"
    assert_eq!(trigrams.len(), 3);

    let abc = trigram_hash(b'a', b'b', b'c');
    let bcd = trigram_hash(b'b', b'c', b'd');
    let cde = trigram_hash(b'c', b'd', b'e');

    assert!(trigrams.contains_key(&abc));
    assert!(trigrams.contains_key(&bcd));
    assert!(trigrams.contains_key(&cde));
}

#[test]
fn test_extract_trigrams_short() {
    assert!(extract_trigrams(b"ab").is_empty());
    assert!(extract_trigrams(b"a").is_empty());
    assert!(extract_trigrams(b"").is_empty());
}

#[test]
fn test_extract_trigrams_exact_three() {
    let trigrams = extract_trigrams(b"abc");
    assert_eq!(trigrams.len(), 1);
    let abc = trigram_hash(b'a', b'b', b'c');
    assert!(trigrams.contains_key(&abc));
}

#[test]
fn test_loc_mask_wraps() {
    // A content long enough that positions wrap around mod 8
    let content = b"0123456789";
    let trigrams = extract_trigrams(content);
    // With 10 chars we get 8 trigrams at positions 0..7
    let hash_0 = trigram_hash(b'0', b'1', b'2');
    let (loc, _) = trigrams[&hash_0];
    assert_eq!(loc & 1, 1); // bit 0 is set
}

#[test]
fn test_next_mask_set() {
    let content = b"abcd";
    let trigrams = extract_trigrams(content);
    let abc = trigram_hash(b'a', b'b', b'c');
    let (_, next) = trigrams[&abc];
    let expected_bit = 1u8 << bloom_hash(b'd');
    assert_ne!(next & expected_bit, 0);
}

#[test]
fn test_repeated_trigram_merges_masks() {
    // "abcabc" has "abc" at positions 0 and 3
    let content = b"abcabc";
    let trigrams = extract_trigrams(content);
    let abc = trigram_hash(b'a', b'b', b'c');
    let (loc, _) = trigrams[&abc];
    // Position 0 -> bit 0, position 3 -> bit 3
    assert_ne!(loc & (1 << 0), 0);
    assert_ne!(loc & (1 << 3), 0);
}

#[test]
fn trigram_hash_packs_bytes_big_endian() {
    assert_eq!(trigram_hash(b'a', b'b', b'c'), 0x0061_6263);
    assert_eq!(trigram_hash(0xff, 0xff, 0xff), 0x00ff_ffff);
    assert_eq!(trigram_hash(0, 0, 0), 0);
    assert_ne!(trigram_hash(b'a', b'b', b'c'), trigram_hash(b'c', b'b', b'a'));
}

#[test]
fn bloom_hash_exact_values() {
    assert_eq!(bloom_hash(b'd'), 5);
    assert_eq!(bloom_hash(0), 0);
    assert_eq!(bloom_hash(b'a'), ((b'a'.wrapping_mul(0x9E)) >> 5) & 7);
    for b in 0..=255u8 {
        assert!(bloom_hash(b) < 8);
    }
}

#[test]
fn extract_trigrams_exact_masks() {
    // "abcabcx": "abc" at 0 and 3, followed by 'a' and 'x'.
    let t = extract_trigrams(b"abcabcx");
    let abc = trigram_hash(b'a', b'b', b'c');
    let (loc, next) = t[&abc];
    assert_eq!(loc, 0b0000_1001);
    assert_eq!(next, (1u8 << bloom_hash(b'a')) | (1u8 << bloom_hash(b'x')));
    // "bcx" ends the content: no next byte.
    let bcx = trigram_hash(b'b', b'c', b'x');
    assert_eq!(t[&bcx], (1u8 << 4, 0));
    assert_eq!(t.len(), 4);
}

#[test]
fn loc_mask_adjacency_holds_for_consecutive_trigrams() {
    let content = b"the quick brown fox jumps";
    let t = extract_trigrams(content);
    for i in 0..content.len() - 3 {
        let h1 = trigram_hash(content[i], content[i + 1], content[i + 2]);
        let h2 = trigram_hash(content[i + 1], content[i + 2], content[i + 3]);
        assert_ne!(t[&h1].0.rotate_left(1) & t[&h2].0, 0);
        assert_ne!(t[&h1].1 & (1u8 << bloom_hash(content[i + 3])), 0);
    }
}

#[test]
fn bloom_hash_spreads_bytes_evenly() {
    for k in 0u8..8 {
        let ascii = (0u8..128).filter(|&b| bloom_hash(b) == k).count();
        let all = (0u8..=255).filter(|&b| bloom_hash(b) == k).count();
        assert_eq!(ascii, 16);
        assert_eq!(all, 32);
    }
}
