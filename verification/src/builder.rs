use std::collections::HashMap;
use vstd::prelude::*;
use crate::types::{PostingEntry, TrigramHash};
use crate::masks::bit_set;
use crate::trigram::{lemma_trigram_map_bits, loc_bit_before, loc_mask_before, next_bit_before, next_mask_before, occurs_at, occurs_before, trigram_map};
use crate::types::spec_bloom_hash;

verus! {

broadcast use vstd::std_specs::hash::group_hash_axioms;

/// The posting list of `h` in `p`, empty where `p` has none.
pub open spec fn list_or_empty(p: Map<u32, Seq<PostingEntry>>, h: u32) -> Seq<PostingEntry> {
    if p.contains_key(h) {
        p[h]
    } else {
        Seq::empty()
    }
}

/// The posting entry that file `file_id` contributes for trigram `h` of its
/// trigram table `t`.
pub open spec fn posting_for(t: Map<u32, (u8, u8)>, h: u32, file_id: u32) -> PostingEntry {
    PostingEntry { file_id, loc_mask: t[h].0, next_mask: t[h].1 }
}

/// The postings `p` after file `file_id`, with trigram table `t`, is merged
/// in: each trigram of the file gets one more entry at the end of its list;
/// the other lists stay as they were.
pub open spec fn with_file(p: Map<u32, Seq<PostingEntry>>, t: Map<u32, (u8, u8)>, file_id: u32) -> Map<
    u32,
    Seq<PostingEntry>,
> {
    Map::new(
        |h: u32| p.contains_key(h) || t.contains_key(h),
        |h: u32|
            if t.contains_key(h) {
                list_or_empty(p, h).push(posting_for(t, h, file_id))
            } else {
                p[h]
            },
    )
}

/// A sequence of key-value items that names every key of `t` covers `t`.
proof fn lemma_restrict_covered(t: Map<u32, (u8, u8)>, items: Seq<(&u32, &(u8, u8))>)
    requires
        forall|h: u32| t.contains_key(h) ==> #[trigger] items.contains((&h, &t[h])),
    ensures
        t.restrict(Set::new(|h: u32| exists|k: int| 0 <= k < items.len() && *#[trigger] items[k].0 == h)) == t,
{
    let done = Set::new(|h: u32| exists|k: int| 0 <= k < items.len() && *#[trigger] items[k].0 == h);
    assert forall|h: u32| t.contains_key(h) implies done.contains(h) by {
        assert(items.contains((&h, &t[h])));
        let k = choose|k: int| 0 <= k < items.len() && items[k] == (&h, &t[h]);
        assert(*items[k].0 == h);
    }
    assert(t.restrict(done) =~= t);
}

/// The postings after the files with contents `cs` were added in order to
/// an empty builder: file `f` contributes its trigram table under id `f`.
pub open spec fn index_of(cs: Seq<Seq<u8>>) -> Map<u32, Seq<PostingEntry>>
    decreases cs.len(),
{
    if cs.len() == 0 {
        Map::empty()
    } else {
        with_file(index_of(cs.drop_last()), trigram_map(cs.last()), (cs.len() - 1) as u32)
    }
}

/// The inverted index is exact: file `f` has an entry in the posting list
/// of trigram `h` exactly when `h` occurs in the file's content, that entry
/// carries the file's location and next masks for `h`, and the entries of
/// every list are in strictly increasing order of file id. Indexes of more
/// than `u32::MAX` files are left out: file ids are 32-bit.
pub proof fn lemma_index_exact(cs: Seq<Seq<u8>>, h: u32, f: int)
    requires
        cs.len() <= u32::MAX,
        0 <= f < cs.len(),
    ensures
        (exists|k: int|
            0 <= k < list_or_empty(index_of(cs), h).len() && #[trigger] list_or_empty(index_of(cs), h)[k].file_id
                == f) <==> trigram_map(cs[f]).contains_key(h),
        forall|k: int|
            0 <= k < list_or_empty(index_of(cs), h).len() && #[trigger] list_or_empty(index_of(cs), h)[k].file_id
                == f ==> list_or_empty(index_of(cs), h)[k] == posting_for(trigram_map(cs[f]), h, f as u32),
        forall|a: int, b: int|
            0 <= a < b < list_or_empty(index_of(cs), h).len() ==> #[trigger] list_or_empty(index_of(cs), h)[a].file_id
                < #[trigger] list_or_empty(index_of(cs), h)[b].file_id,
        forall|a: int|
            0 <= a < list_or_empty(index_of(cs), h).len() ==> #[trigger] list_or_empty(index_of(cs), h)[a].file_id
                < cs.len(),
        forall|k: int|
            0 <= k < list_or_empty(index_of(cs), h).len() && #[trigger] list_or_empty(index_of(cs), h)[k].file_id
                == f ==> list_or_empty(index_of(cs), h)[k].loc_mask == trigram_map(cs[f])[h].0
                && list_or_empty(index_of(cs), h)[k].next_mask == trigram_map(cs[f])[h].1,
    decreases cs.len(),
{
    let n = cs.len() - 1;
    let c0 = cs.drop_last();
    let p0 = index_of(c0);
    let t = trigram_map(cs.last());
    let l0 = list_or_empty(p0, h);
    let l = list_or_empty(index_of(cs), h);
    assert(index_of(cs) == with_file(p0, t, n as u32));
    if n > 0 {
        lemma_index_sorted(c0, h);
    }
    if f < n {
        lemma_index_exact(c0, h, f);
        assert(c0[f] == cs[f]);
    }
    if t.contains_key(h) {
        assert(l == l0.push(posting_for(t, h, n as u32)));
        assert forall|k: int| 0 <= k < l.len() && #[trigger] l[k].file_id == f implies (f == n ==> k == l.len() - 1) && (f < n ==> k < l0.len()) by {
            if k < l0.len() {
                assert(l[k] == l0[k]);
            }
        }
        if f == n {
            assert(l[l.len() - 1].file_id == f);
        } else {
            if exists|k: int| 0 <= k < l0.len() && #[trigger] l0[k].file_id == f {
                let k = choose|k: int| 0 <= k < l0.len() && #[trigger] l0[k].file_id == f;
                assert(l[k] == l0[k]);
            }
        }
    } else {
        assert(l == l0) by {
            if p0.contains_key(h) {
            } else {
                assert(l =~= l0);
            }
        }
        if f == n {
            assert forall|k: int| 0 <= k < l.len() implies #[trigger] l[k].file_id != f by {}
        }
    }
}

/// The masks of the posting entries of an index built from files in order:
/// in the list of trigram `h`, the entry of file `f` has bit `j` of its
/// location mask set exactly when `h` starts in file `f` at some offset `i`
/// with `i % 8 == j`, and bit `j` of its next mask set exactly when some
/// occurrence of `h` in file `f` is followed by a byte whose Bloom bit is
/// `j`.
pub proof fn lemma_index_masks(cs: Seq<Seq<u8>>, h: u32, f: int, k: int, j: u8)
    requires
        cs.len() <= u32::MAX,
        0 <= f < cs.len(),
        0 <= k < list_or_empty(index_of(cs), h).len(),
        list_or_empty(index_of(cs), h)[k].file_id == f,
        j < 8,
    ensures
        bit_set(list_or_empty(index_of(cs), h)[k].loc_mask, j) <==> exists|i: int|
            #[trigger] occurs_at(cs[f], h, i) && i % 8 == j as int,
        bit_set(list_or_empty(index_of(cs), h)[k].next_mask, j) <==> exists|i: int|
            #[trigger] occurs_at(cs[f], h, i) && i + 3 < cs[f].len() && spec_bloom_hash(cs[f][i + 3]) == j,
{
    lemma_index_exact(cs, h, f);
    let c = cs[f];
    assert(trigram_map(c).contains_key(h));
    lemma_trigram_map_bits(c, c.len() as int, h, j);
    assert(trigram_map(c)[h] == (loc_mask_before(c, h, c.len() as int), next_mask_before(c, h, c.len() as int)));
    assert((exists|i: int| #[trigger] occurs_at(c, h, i) && i % 8 == j as int) == loc_bit_before(c, h, j, c.len() as int)) by {
        if loc_bit_before(c, h, j, c.len() as int) {
            let i = choose|i: int| #[trigger] occurs_before(c, h, i, c.len() as int) && i % 8 == j as int;
            assert(occurs_at(c, h, i));
        }
    }
    assert((exists|i: int| #[trigger] occurs_at(c, h, i) && i + 3 < c.len() && spec_bloom_hash(c[i + 3]) == j)
        == next_bit_before(c, h, j, c.len() as int)) by {
        if next_bit_before(c, h, j, c.len() as int) {
            let i = choose|i: int|
                #[trigger] occurs_before(c, h, i, c.len() as int) && i + 3 < c.len() && spec_bloom_hash(c[i + 3]) == j;
            assert(occurs_at(c, h, i));
        }
    }
}

/// Each posting list of an index built from files in order names files of
/// the index only, in strictly increasing order of file id.
proof fn lemma_index_sorted(cs: Seq<Seq<u8>>, h: u32)
    requires
        cs.len() <= u32::MAX,
    ensures
        forall|a: int, b: int|
            0 <= a < b < list_or_empty(index_of(cs), h).len() ==> #[trigger] list_or_empty(index_of(cs), h)[a].file_id
                < #[trigger] list_or_empty(index_of(cs), h)[b].file_id,
        forall|a: int|
            0 <= a < list_or_empty(index_of(cs), h).len() ==> #[trigger] list_or_empty(index_of(cs), h)[a].file_id
                < cs.len(),
    decreases cs.len(),
{
    if cs.len() > 0 {
        let n = cs.len() - 1;
        let c0 = cs.drop_last();
        let p0 = index_of(c0);
        let t = trigram_map(cs.last());
        let l0 = list_or_empty(p0, h);
        let l = list_or_empty(index_of(cs), h);
        lemma_index_sorted(c0, h);
        if t.contains_key(h) {
            assert(l == l0.push(posting_for(t, h, n as u32)));
        } else {
            assert(l =~= l0);
        }
    }
}

/// In-memory index builder that accumulates trigram posting data.
pub struct IndexBuilder {
    pub files: Vec<String>,
    pub postings: HashMap<TrigramHash, Vec<PostingEntry>>,
}

impl IndexBuilder {
    /// The posting lists, each taken as a sequence.
    pub open spec fn postings_model(&self) -> Map<u32, Seq<PostingEntry>> {
        self.postings@.map_values(|v: Vec<PostingEntry>| v@)
    }

    /// Every posting list is non-empty and names files of this builder only,
    /// in strictly increasing order of file id, each entry with a non-empty
    /// location mask.
    pub open spec fn wf(&self) -> bool {
        forall|h: u32|
            #[trigger] self.postings_model().contains_key(h) ==> {
                let l = self.postings_model()[h];
                &&& l.len() > 0
                &&& forall|a: int, b: int|
                    0 <= a < b < l.len() ==> #[trigger] l[a].file_id < #[trigger] l[b].file_id
                &&& forall|a: int| 0 <= a < l.len() ==> #[trigger] l[a].file_id < self.files@.len()
                &&& forall|a: int| 0 <= a < l.len() ==> #[trigger] l[a].loc_mask != 0
            }
    }

    pub fn new() -> (b: Self)
        ensures
            b.files@ == Seq::<String>::empty(),
            b.postings_model() == Map::<u32, Seq<PostingEntry>>::empty(),
            b.wf(),
    {
        let b = IndexBuilder { files: Vec::new(), postings: HashMap::new() };
        assert(b.postings_model() =~= Map::<u32, Seq<PostingEntry>>::empty());
        b
    }

    /// Register one file with its trigram table: the file gets the next file
    /// id, and each of its trigrams one more posting entry carrying the
    /// file's masks.
    pub fn add_file(&mut self, relative_path: String, file_trigrams: HashMap<TrigramHash, (u8, u8)>)
        ensures
            final(self).files@ == old(self).files@.push(relative_path),
            final(self).postings_model() == with_file(
                old(self).postings_model(),
                file_trigrams@,
                old(self).files@.len() as u32,
            ),
            forall|h: u32|
                #[trigger] file_trigrams@.contains_key(h) ==> final(self).postings_model().contains_key(h)
                    && final(self).postings_model()[h] == list_or_empty(old(self).postings_model(), h).push(
                    (PostingEntry {
                        file_id: old(self).files@.len() as u32,
                        loc_mask: file_trigrams@[h].0,
                        next_mask: file_trigrams@[h].1,
                    }),
                ),
            forall|h: u32|
                !file_trigrams@.contains_key(h) ==> final(self).postings_model().contains_key(h)
                    == old(self).postings_model().contains_key(h) && (old(self).postings_model().contains_key(h)
                    ==> #[trigger] final(self).postings_model()[h] == old(self).postings_model()[h]),
            old(self).wf() && old(self).files@.len() < u32::MAX && (forall|h: u32|
                #[trigger] file_trigrams@.contains_key(h) ==> file_trigrams@[h].0 != 0) ==> final(self).wf(),
    {
        let file_id = #[verifier::truncate] (self.files.len() as u32);
        let ghost p0 = self.postings_model();
        let ghost t = file_trigrams@;
        self.files.push(relative_path);
        proof {
            assert(with_file(p0, t.restrict(Set::empty()), file_id) =~= p0);
            assert(t.restrict(Set::empty()) =~= Map::empty());
        }
        for (hash, masks) in it: file_trigrams.iter()
            invariant
                self.files@ == old(self).files@.push(relative_path),
                file_id == old(self).files@.len() as u32,
                p0 == old(self).postings_model(),
                t == file_trigrams@,
                it.seq().no_duplicates(),
                forall|k: int| 0 <= k < it.seq().len() ==> #[trigger] t.contains_key(*it.seq()[k].0)
                    && t[*it.seq()[k].0] == *it.seq()[k].1,
                forall|h: u32| t.contains_key(h) ==> #[trigger] it.seq().contains((&h, &t[h])),
                self.postings_model() == with_file(
                    p0,
                    t.restrict(Set::new(|h: u32| exists|k: int| 0 <= k < it.index() && *#[trigger] it.seq()[k].0 == h)),
                    file_id,
                ),
                it.index() == it.seq().len() ==> self.postings_model() == with_file(p0, t, file_id),
        {
            let ghost done = Set::new(|h: u32| exists|k: int| 0 <= k < it.index() && *#[trigger] it.seq()[k].0 == h);
            let ghost cur = self.postings_model();
            assert(it.seq()[it.index() as int] == (hash, masks));
            assert(t.contains_key(*hash) && t[*hash] == *masks);
            let ghost before = self.postings@;
            let mut list: Vec<PostingEntry> = match self.postings.remove(hash) {
                Some(v) => {
                    assert(before.contains_key(*hash) && before[*hash] == v);
                    assert(v@ == cur[*hash]);
                    v
                },
                None => {
                    assert(!before.contains_key(*hash));
                    Vec::new()
                },
            };
            assert(list@ == list_or_empty(cur, *hash));
            list.push(PostingEntry { file_id, loc_mask: masks.0, next_mask: masks.1 });
            self.postings.insert(*hash, list);
            proof {
                let h = *hash;
                let done2 = done.insert(h);
                assert(!done.contains(h)) by {
                    if done.contains(h) {
                        let k = choose|k: int| 0 <= k < it.index() && *#[trigger] it.seq()[k].0 == h;
                        assert(*it.seq()[k].1 == t[h]);
                        assert(it.seq()[k] == it.seq()[it.index() as int]);
                    }
                }
                assert forall|g: u32| done2.contains(g) <==> (exists|k: int| 0 <= k < it.index() + 1 && *#[trigger] it.seq()[k].0 == g) by {
                    if g == h {
                        assert(*it.seq()[it.index() as int].0 == g);
                    }
                }
                let m_old = with_file(p0, t.restrict(done), file_id);
                assert(m_old.contains_key(h) == p0.contains_key(h));
                assert(cur == m_old);
                assert(list@ == list_or_empty(p0, h).push(posting_for(t, h, file_id)));
                assert(self.postings_model() =~= cur.insert(h, list@));
                assert(self.postings_model() =~= with_file(p0, t.restrict(done2), file_id));
                lemma_restrict_covered(t, it.seq());
            }
        }
    }

    pub fn num_files(&self) -> (n: u32)
        ensures
            n == self.files@.len() as u32,
    {
        self.files.len() as u32
    }

    pub fn num_trigrams(&self) -> (n: u32)
        ensures
            n == self.postings@.len() as u32,
    {
        self.postings.len() as u32
    }
}

} // verus!
