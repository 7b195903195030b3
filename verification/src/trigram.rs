use std::collections::HashMap;
use vstd::prelude::*;
use crate::masks::{bit_set, lemma_rotl1_shared_bit, rotl1, lemma_bits_determine, lemma_mask_from_bits, lemma_or_bit, lemma_or_zero, mask_from};
use crate::types::{bloom_hash, spec_bloom_hash, spec_trigram_hash, trigram_hash, TrigramHash};

verus! {

broadcast use vstd::std_specs::hash::group_hash_axioms;

/// The hash of the trigram that starts at byte `i` of `c`.
pub open spec fn window_hash(c: Seq<u8>, i: int) -> u32 {
    spec_trigram_hash(c[i], c[i + 1], c[i + 2])
}

/// The trigram `h` starts at byte `i` of `c`, and `i` is one of the first
/// `k` starting positions.
pub open spec fn occurs_before(c: Seq<u8>, h: u32, i: int, k: int) -> bool {
    0 <= i < k && i + 3 <= c.len() && window_hash(c, i) == h
}

/// The trigram `h` starts at byte `i` of `c`.
pub open spec fn occurs_at(c: Seq<u8>, h: u32, i: int) -> bool {
    occurs_before(c, h, i, c.len() as int)
}

/// Among the first `k` positions, `h` starts at some offset congruent to `j` mod 8.
pub open spec fn loc_bit_before(c: Seq<u8>, h: u32, j: u8, k: int) -> bool {
    exists|i: int| #[trigger] occurs_before(c, h, i, k) && i % 8 == j as int
}

/// Among the first `k` positions, `h` starts at some offset that is followed
/// by a byte whose Bloom bit is `j`.
pub open spec fn next_bit_before(c: Seq<u8>, h: u32, j: u8, k: int) -> bool {
    exists|i: int|
        #[trigger] occurs_before(c, h, i, k) && i + 3 < c.len() && spec_bloom_hash(c[i + 3])
            == j
}

/// The location mask of `h` over the first `k` positions.
pub open spec fn loc_mask_before(c: Seq<u8>, h: u32, k: int) -> u8 {
    mask_from(
        loc_bit_before(c, h, 0, k),
        loc_bit_before(c, h, 1, k),
        loc_bit_before(c, h, 2, k),
        loc_bit_before(c, h, 3, k),
        loc_bit_before(c, h, 4, k),
        loc_bit_before(c, h, 5, k),
        loc_bit_before(c, h, 6, k),
        loc_bit_before(c, h, 7, k),
    )
}

/// The next-byte Bloom mask of `h` over the first `k` positions.
pub open spec fn next_mask_before(c: Seq<u8>, h: u32, k: int) -> u8 {
    mask_from(
        next_bit_before(c, h, 0, k),
        next_bit_before(c, h, 1, k),
        next_bit_before(c, h, 2, k),
        next_bit_before(c, h, 3, k),
        next_bit_before(c, h, 4, k),
        next_bit_before(c, h, 5, k),
        next_bit_before(c, h, 6, k),
        next_bit_before(c, h, 7, k),
    )
}

/// The trigram table of the first `k` starting positions of `c`: each trigram
/// that starts there, with its location mask and next-byte mask.
pub open spec fn trigram_map_before(c: Seq<u8>, k: int) -> Map<u32, (u8, u8)> {
    Map::new(
        |h: u32| exists|i: int| #[trigger] occurs_before(c, h, i, k),
        |h: u32| (loc_mask_before(c, h, k), next_mask_before(c, h, k)),
    )
}

/// The trigram table of `c`: every overlapping 3-byte window, with bit `j`
/// of its location mask set iff it starts at an offset `i` with
/// `i % 8 == j`, and bit `j` of its next mask set iff one of its occurrences
/// is followed by a byte whose Bloom bit is `j`.
pub open spec fn trigram_map(c: Seq<u8>) -> Map<u32, (u8, u8)> {
    trigram_map_before(c, c.len() as int)
}

/// The mask bits of the table entry for `h`, read one bit at a time.
pub proof fn lemma_trigram_map_bits(c: Seq<u8>, k: int, h: u32, j: u8)
    requires
        j < 8,
    ensures
        bit_set(loc_mask_before(c, h, k), j) == loc_bit_before(c, h, j, k),
        bit_set(next_mask_before(c, h, k), j) == next_bit_before(c, h, j, k),
{
    lemma_mask_from_bits(
        loc_bit_before(c, h, 0, k),
        loc_bit_before(c, h, 1, k),
        loc_bit_before(c, h, 2, k),
        loc_bit_before(c, h, 3, k),
        loc_bit_before(c, h, 4, k),
        loc_bit_before(c, h, 5, k),
        loc_bit_before(c, h, 6, k),
        loc_bit_before(c, h, 7, k),
    );
    lemma_mask_from_bits(
        next_bit_before(c, h, 0, k),
        next_bit_before(c, h, 1, k),
        next_bit_before(c, h, 2, k),
        next_bit_before(c, h, 3, k),
        next_bit_before(c, h, 4, k),
        next_bit_before(c, h, 5, k),
        next_bit_before(c, h, 6, k),
        next_bit_before(c, h, 7, k),
    );
}

/// Adding the window at position `k` to the table of the first `k`
/// positions or-s its location bit and next bit into its entry and leaves
/// every other entry alone.
proof fn lemma_table_step(c: Seq<u8>, k: int, old_entry: (u8, u8), s: u8, nb: u8, nbit: u8)
    requires
        0 <= k,
        k + 3 <= c.len(),
        s == k % 8,
        old_entry == (if trigram_map_before(c, k).contains_key(window_hash(c, k)) {
            trigram_map_before(c, k)[window_hash(c, k)]
        } else {
            (0u8, 0u8)
        }),
        k + 3 < c.len() ==> nbit == spec_bloom_hash(c[k + 3]) && nb == 1u8 << nbit,
        k + 3 >= c.len() ==> nb == 0u8,
        nbit < 8,
    ensures
        trigram_map_before(c, k + 1) == trigram_map_before(c, k).insert(
            window_hash(c, k),
            (old_entry.0 | (1u8 << s), old_entry.1 | nb),
        ),
{
    let h = window_hash(c, k);
    let m0 = trigram_map_before(c, k);
    let m1 = trigram_map_before(c, k + 1);
    let new_loc = old_entry.0 | (1u8 << s);
    let new_next = old_entry.1 | nb;
    assert forall|g: u32| #[trigger] m1.contains_key(g) <==> m0.insert(h, (new_loc, new_next)).contains_key(g) by {
        if m1.contains_key(g) {
            let i = choose|i: int| #[trigger] occurs_before(c, g, i, k + 1);
            if i < k {
                assert(occurs_before(c, g, i, k));
            }
        }
        if m0.contains_key(g) {
            let i = choose|i: int| #[trigger] occurs_before(c, g, i, k);
            assert(occurs_before(c, g, i, k + 1));
        }
        if g == h {
            assert(occurs_before(c, g, k, k + 1));
        }
    }
    assert forall|g: u32| #[trigger] m1.contains_key(g) implies m1[g] == m0.insert(h, (new_loc, new_next))[g] by {
        if g != h {
            assert forall|j: u8| j < 8 implies loc_bit_before(c, g, j, k + 1) == loc_bit_before(c, g, j, k)
                && next_bit_before(c, g, j, k + 1) == next_bit_before(c, g, j, k) by {
                if loc_bit_before(c, g, j, k + 1) {
                    let i = choose|i: int| #[trigger] occurs_before(c, g, i, k + 1) && i % 8 == j as int;
                    assert(occurs_before(c, g, i, k));
                }
                if loc_bit_before(c, g, j, k) {
                    let i = choose|i: int| #[trigger] occurs_before(c, g, i, k) && i % 8 == j as int;
                    assert(occurs_before(c, g, i, k + 1));
                }
                if next_bit_before(c, g, j, k + 1) {
                    let i = choose|i: int|
                        #[trigger] occurs_before(c, g, i, k + 1) && i + 3 < c.len() && spec_bloom_hash(c[i + 3]) == j;
                    assert(occurs_before(c, g, i, k));
                }
                if next_bit_before(c, g, j, k) {
                    let i = choose|i: int|
                        #[trigger] occurs_before(c, g, i, k) && i + 3 < c.len() && spec_bloom_hash(c[i + 3]) == j;
                    assert(occurs_before(c, g, i, k + 1));
                }
            }
            assert forall|j: u8| j < 8 implies bit_set(loc_mask_before(c, g, k + 1), j) == bit_set(loc_mask_before(c, g, k), j)
                && bit_set(next_mask_before(c, g, k + 1), j) == bit_set(next_mask_before(c, g, k), j) by {
                lemma_trigram_map_bits(c, k, g, j);
                lemma_trigram_map_bits(c, k + 1, g, j);
            }
            lemma_bits_determine(loc_mask_before(c, g, k + 1), loc_mask_before(c, g, k));
            lemma_bits_determine(next_mask_before(c, g, k + 1), next_mask_before(c, g, k));
        } else {
            assert forall|j: u8| j < 8 implies bit_set(new_loc, j) == bit_set(loc_mask_before(c, g, k + 1), j)
                && bit_set(new_next, j) == bit_set(next_mask_before(c, g, k + 1), j) by {
                lemma_trigram_map_bits(c, k, g, j);
                lemma_trigram_map_bits(c, k + 1, g, j);
                lemma_or_bit(old_entry.0, s, j);
                lemma_or_zero(old_entry.0, j);
                lemma_or_zero(old_entry.1, j);
                if k + 3 < c.len() {
                    lemma_or_bit(old_entry.1, nbit, j);
                } else {
                    lemma_or_zero(old_entry.1, j);
                }
                if !m0.contains_key(g) {
                    assert(!loc_bit_before(c, g, j, k)) by {
                        if loc_bit_before(c, g, j, k) {
                            let i = choose|i: int| #[trigger] occurs_before(c, g, i, k) && i % 8 == j as int;
                        }
                    }
                    assert(!next_bit_before(c, g, j, k)) by {
                        if next_bit_before(c, g, j, k) {
                            let i = choose|i: int|
                                #[trigger] occurs_before(c, g, i, k) && i + 3 < c.len() && spec_bloom_hash(c[i + 3]) == j;
                        }
                    }
                }
                // location bit
                if loc_bit_before(c, g, j, k + 1) {
                    let i = choose|i: int| #[trigger] occurs_before(c, g, i, k + 1) && i % 8 == j as int;
                    if i < k {
                        assert(occurs_before(c, g, i, k));
                    }
                }
                if loc_bit_before(c, g, j, k) {
                    let i = choose|i: int| #[trigger] occurs_before(c, g, i, k) && i % 8 == j as int;
                    assert(occurs_before(c, g, i, k + 1));
                }
                if j == s {
                    assert(occurs_before(c, g, k, k + 1));
                }
                // next bit
                if next_bit_before(c, g, j, k + 1) {
                    let i = choose|i: int|
                        #[trigger] occurs_before(c, g, i, k + 1) && i + 3 < c.len() && spec_bloom_hash(c[i + 3]) == j;
                    if i < k {
                        assert(occurs_before(c, g, i, k));
                    }
                }
                if next_bit_before(c, g, j, k) {
                    let i = choose|i: int|
                        #[trigger] occurs_before(c, g, i, k) && i + 3 < c.len() && spec_bloom_hash(c[i + 3]) == j;
                    assert(occurs_before(c, g, i, k + 1));
                }
                if k + 3 < c.len() && j == nbit {
                    assert(occurs_before(c, g, k, k + 1));
                }
            }
            lemma_bits_determine(new_loc, loc_mask_before(c, g, k + 1));
            lemma_bits_determine(new_next, next_mask_before(c, g, k + 1));
        }
    }
    assert(m1 =~= m0.insert(h, (new_loc, new_next)));
}

/// Positions past the last full window add nothing to the table.
proof fn lemma_table_complete(c: Seq<u8>)
    requires
        c.len() >= 3,
    ensures
        trigram_map_before(c, c.len() - 2) == trigram_map(c),
{
    let n = c.len() - 2;
    assert forall|h: u32, j: u8| #[trigger] loc_bit_before(c, h, j, n)
        == loc_bit_before(c, h, j, c.len() as int) by {
        if loc_bit_before(c, h, j, c.len() as int) {
            let i = choose|i: int| #[trigger] occurs_before(c, h, i, c.len() as int) && i % 8 == j as int;
            assert(occurs_before(c, h, i, n));
        }
        if loc_bit_before(c, h, j, n) {
            let i = choose|i: int| #[trigger] occurs_before(c, h, i, n) && i % 8 == j as int;
            assert(occurs_before(c, h, i, c.len() as int));
        }
    }
    assert forall|h: u32, j: u8| #[trigger] next_bit_before(c, h, j, n)
        == next_bit_before(c, h, j, c.len() as int) by {
        if next_bit_before(c, h, j, c.len() as int) {
            let i = choose|i: int|
                #[trigger] occurs_before(c, h, i, c.len() as int) && i + 3 < c.len() && spec_bloom_hash(c[i + 3]) == j;
            assert(occurs_before(c, h, i, n));
        }
        if next_bit_before(c, h, j, n) {
            let i = choose|i: int|
                #[trigger] occurs_before(c, h, i, n) && i + 3 < c.len() && spec_bloom_hash(c[i + 3]) == j;
            assert(occurs_before(c, h, i, c.len() as int));
        }
    }
    assert forall|h: u32| #[trigger] trigram_map_before(c, n).contains_key(h)
        == trigram_map(c).contains_key(h) by {
        if trigram_map(c).contains_key(h) {
            let i = choose|i: int| #[trigger] occurs_before(c, h, i, c.len() as int);
            assert(occurs_before(c, h, i, n));
        }
        if trigram_map_before(c, n).contains_key(h) {
            let i = choose|i: int| #[trigger] occurs_before(c, h, i, n);
            assert(occurs_before(c, h, i, c.len() as int));
        }
    }
    assert forall|h: u32| #[trigger] trigram_map_before(c, n).contains_key(h) implies
        trigram_map_before(c, n)[h] == trigram_map(c)[h] by {
        assert(loc_mask_before(c, h, n) == loc_mask_before(c, h, c.len() as int));
        assert(next_mask_before(c, h, n) == next_mask_before(c, h, c.len() as int));
    }
    assert(trigram_map_before(c, n) =~= trigram_map(c));
}

/// Every occurrence of a trigram at offset `i` sets bit `i % 8` of its
/// location mask.
pub proof fn lemma_loc_mask_covers_offset(c: Seq<u8>, i: int)
    requires
        0 <= i,
        i + 3 <= c.len(),
    ensures
        trigram_map(c).contains_key(window_hash(c, i)),
        bit_set(trigram_map(c)[window_hash(c, i)].0, (i % 8) as u8),
{
    let n = c.len() as int;
    let h = window_hash(c, i);
    assert(occurs_before(c, h, i, n));
    let s = (i % 8) as u8;
    assert(loc_bit_before(c, h, s, n));
    lemma_trigram_map_bits(c, n, h, s);
}

/// Every trigram of a table occurs somewhere, so its location mask has a
/// bit set: no entry of a trigram table has an empty location mask.
pub proof fn lemma_loc_masks_nonzero(c: Seq<u8>)
    ensures
        forall|h: u32| #[trigger] trigram_map(c).contains_key(h) ==> trigram_map(c)[h].0 != 0,
{
    assert forall|h: u32| #[trigger] trigram_map(c).contains_key(h) implies trigram_map(c)[h].0 != 0 by {
        let i = choose|i: int| #[trigger] occurs_before(c, h, i, c.len() as int);
        lemma_loc_mask_covers_offset(c, i);
        lemma_or_zero(0, (i % 8) as u8);
    }
}

/// Adjacency never gives a false negative: when the trigram at `i` is
/// immediately followed by the trigram at `i + 1`, the first one's location
/// mask rotated left by one bit shares a bit with the second one's location
/// mask.
#[verifier::spinoff_prover]
pub proof fn lemma_loc_mask_adjacency(c: Seq<u8>, i: int)
    requires
        0 <= i,
        i + 4 <= c.len(),
    ensures
        trigram_map(c).contains_key(window_hash(c, i)),
        trigram_map(c).contains_key(window_hash(c, i + 1)),
        rotl1(trigram_map(c)[window_hash(c, i)].0) & trigram_map(c)[window_hash(c, i + 1)].0 != 0,
{
    lemma_loc_mask_covers_offset(c, i);
    lemma_loc_mask_covers_offset(c, i + 1);
    let a = trigram_map(c)[window_hash(c, i)].0;
    let b = trigram_map(c)[window_hash(c, i + 1)].0;
    lemma_rotl1_shared_bit(a, b, (i % 8) as u8, ((i + 1) % 8) as u8);
}

/// The next-byte mask never gives a false negative: every occurrence of a
/// trigram that is followed by a byte `d` sets the Bloom bit of `d` in that
/// trigram's next mask.
pub proof fn lemma_next_mask_covers_successor(c: Seq<u8>, i: int)
    requires
        0 <= i,
        i + 4 <= c.len(),
    ensures
        trigram_map(c).contains_key(window_hash(c, i)),
        bit_set(trigram_map(c)[window_hash(c, i)].1, spec_bloom_hash(c[i + 3])),
{
    let n = c.len() as int;
    let h = window_hash(c, i);
    assert(occurs_before(c, h, i, n));
    let j = spec_bloom_hash(c[i + 3]);
    assert(next_bit_before(c, h, j, n));
    lemma_trigram_map_bits(c, n, h, j);
}

/// Extract all overlapping trigrams from file content.
/// Returns a map of trigram_hash -> (loc_mask, next_mask) for this file.
pub fn extract_trigrams(content: &[u8]) -> (result: HashMap<TrigramHash, (u8, u8)>)
    ensures
        result@ == trigram_map(content@),
        forall|h: u32| #[trigger] result@.contains_key(h) ==> result@[h].0 != 0,
{
    proof {
        lemma_loc_masks_nonzero(content@);
    }
    let mut result: HashMap<TrigramHash, (u8, u8)> = HashMap::new();
    if content.len() < 3 {
        proof {
            assert forall|h: u32| !(#[trigger] trigram_map(content@).contains_key(h)) by {
                if trigram_map(content@).contains_key(h) {
                    let i = choose|i: int| #[trigger] occurs_before(content@, h, i, content@.len() as int);
                }
            }
            assert(trigram_map(content@) =~= Map::empty());
        }
        return result;
    }
    proof {
        assert(trigram_map_before(content@, 0) =~= Map::empty());
    }
    let n = content.len() - 2;
    for i in 0..n
        invariant
            n == content@.len() - 2,
            result@ == trigram_map_before(content@, i as int),
    {
        let hash = trigram_hash(content[i], content[i + 1], content[i + 2]);
        let s: u8 = (i % 8) as u8;
        let loc_bit: u8 = 1u8 << s;
        let mut nbit: u8 = 0;
        let next_bit: u8 = if i + 3 < content.len() {
            nbit = bloom_hash(content[i + 3]);
            1u8 << nbit
        } else {
            0
        };
        let old_entry: (u8, u8) = match result.get(&hash) {
            Some(e) => *e,
            None => (0u8, 0u8),
        };
        result.insert(hash, (old_entry.0 | loc_bit, old_entry.1 | next_bit));
        proof {
            lemma_table_step(content@, i as int, old_entry, s, next_bit, nbit);
        }
    }
    proof {
        lemma_table_complete(content@);
    }
    result
}

} // verus!
