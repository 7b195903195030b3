use vstd::prelude::*;
use vstd::utf8::encode_utf8;
use crate::builder::IndexBuilder;
use crate::meta::{IndexMeta, INDEX_VERSION};
use crate::format::{le_bytes_u16, le_bytes_u32, le_bytes_u64, put_u16, put_u32, put_u64, put_u8};
use crate::types::{LookupEntry, PostingEntry};

verus! {

broadcast use vstd::std_specs::hash::group_hash_axioms;

/// The 6 bytes of a posting entry: file id (little-endian), location mask,
/// next mask.
pub open spec fn posting_bytes(e: PostingEntry) -> Seq<u8> {
    le_bytes_u32(e.file_id) + seq![e.loc_mask, e.next_mask]
}

/// A posting list on disk: its entries' bytes, one after the other.
pub open spec fn list_bytes(l: Seq<PostingEntry>) -> Seq<u8>
    decreases l.len(),
{
    if l.len() == 0 {
        Seq::empty()
    } else {
        list_bytes(l.drop_last()) + posting_bytes(l.last())
    }
}

/// One record of files.bin: file id, byte length of the path (both
/// little-endian, the length cut to 16 bits), then the path's UTF-8 bytes.
pub open spec fn file_record(id: int, path: Seq<char>) -> Seq<u8> {
    le_bytes_u32(id as u32) + le_bytes_u16(encode_utf8(path).len() as u16) + encode_utf8(path)
}

/// files.bin: one record per path, file ids counting from 0.
pub open spec fn files_file(paths: Seq<Seq<char>>) -> Seq<u8>
    decreases paths.len(),
{
    if paths.len() == 0 {
        Seq::empty()
    } else {
        files_file(paths.drop_last()) + file_record(paths.len() - 1, paths.last())
    }
}

/// Where record `i` of files.bin starts: each earlier record takes six
/// header bytes and the bytes of its path.
pub open spec fn record_start(paths: Seq<Seq<char>>, i: int) -> int
    decreases i,
{
    if i <= 0 {
        0
    } else {
        record_start(paths, i - 1) + 6 + encode_utf8(paths[i - 1]).len()
    }
}

/// Record starts depend only on the paths before them.
proof fn lemma_record_start_prefix(paths: Seq<Seq<char>>, n: int, i: int)
    requires
        0 <= i <= n <= paths.len(),
    ensures
        record_start(paths.take(n), i) == record_start(paths, i),
    decreases i,
{
    if i > 0 {
        lemma_record_start_prefix(paths, n, i - 1);
        assert(paths.take(n)[i - 1] == paths[i - 1]);
    }
}

/// The layout of files.bin: the records follow one another with nothing
/// between or after them, and record `i` is the file id `i` as four
/// little-endian bytes, the byte length of path `i` as two little-endian
/// bytes (its low 16 bits), then the UTF-8 bytes of path `i`.
pub proof fn lemma_files_layout(paths: Seq<Seq<char>>, i: int)
    requires
        0 <= i < paths.len(),
        i <= u32::MAX,
    ensures
        files_file(paths).len() == record_start(paths, paths.len() as int),
        files_file(paths).subrange(record_start(paths, i), record_start(paths, i) + 4) == le_bytes_u32(
            i as u32,
        ),
        files_file(paths).subrange(record_start(paths, i) + 4, record_start(paths, i) + 6)
            == le_bytes_u16(encode_utf8(paths[i]).len() as u16),
        files_file(paths).subrange(record_start(paths, i) + 6, record_start(paths, i + 1))
            == encode_utf8(paths[i]),
    decreases paths.len(),
{
    let n = paths.len() - 1;
    let p0 = paths.drop_last();
    assert(p0 =~= paths.take(n));
    lemma_files_length(p0);
    lemma_record_start_prefix(paths, n, n);
    let f = files_file(paths);
    let f0 = files_file(p0);
    let s = record_start(paths, i);
    if i < n {
        lemma_files_layout(p0, i);
        lemma_record_start_prefix(paths, n, i);
        lemma_record_start_prefix(paths, n, i + 1);
        lemma_record_start_monotone(p0, i + 1, n);
        assert(f == f0 + file_record(n, paths.last()));
        assert(s == record_start(p0, i));
        assert(record_start(p0, i + 1) == s + 6 + encode_utf8(paths[i]).len());
        assert(p0[i] == paths[i]);
        assert(record_start(p0, i + 1) <= f0.len());
        let e = record_start(p0, i + 1);
        lemma_record_start_monotone(p0, 0, i);
        assert(0 <= s);
        assert(forall|k: int| 0 <= k < f0.len() ==> f[k] == f0[k]);
        assert(f.subrange(s, s + 4) =~= f0.subrange(s, s + 4));
        assert(f.subrange(s + 4, s + 6) =~= f0.subrange(s + 4, s + 6));
        assert(f.subrange(s + 6, e) =~= f0.subrange(s + 6, e));
    } else {
        assert(f.subrange(s, s + 4) =~= le_bytes_u32(i as u32));
        assert(f.subrange(s + 4, s + 6) =~= le_bytes_u16(encode_utf8(paths[i]).len() as u16));
        assert(f.subrange(s + 6, record_start(paths, i + 1)) =~= encode_utf8(paths[i]));
    }
}

/// files.bin is as long as its records.
proof fn lemma_files_length(paths: Seq<Seq<char>>)
    ensures
        files_file(paths).len() == record_start(paths, paths.len() as int),
    decreases paths.len(),
{
    if paths.len() > 0 {
        let n = paths.len() - 1;
        let p0 = paths.drop_last();
        assert(p0 =~= paths.take(n));
        lemma_files_length(p0);
        lemma_record_start_prefix(paths, n, n);
    }
}

/// Later records start later.
proof fn lemma_record_start_monotone(paths: Seq<Seq<char>>, i: int, j: int)
    requires
        0 <= i <= j,
    ensures
        record_start(paths, i) <= record_start(paths, j),
    decreases j - i,
{
    if i < j {
        lemma_record_start_monotone(paths, i, j - 1);
    }
}

/// The paths of `files`, as character sequences.
pub open spec fn paths_of(files: Seq<String>) -> Seq<Seq<char>> {
    files.map_values(|s: String| s@)
}

/// `keys` lists the set `dom` in strictly increasing order.
pub open spec fn is_key_order(keys: Seq<u32>, dom: Set<u32>) -> bool {
    &&& forall|i: int, j: int| 0 <= i < j < keys.len() ==> keys[i] < keys[j]
    &&& forall|h: u32| dom.contains(h) <==> keys.contains(h)
}

/// The trigrams of `dom` in increasing order.
pub open spec fn key_order(dom: Set<u32>) -> Seq<u32> {
    choose|keys: Seq<u32>| is_key_order(keys, dom)
}

/// postings.bin: the posting lists of `keys`, in that order.
pub open spec fn postings_file(p: Map<u32, Seq<PostingEntry>>, keys: Seq<u32>) -> Seq<u8>
    decreases keys.len(),
{
    if keys.len() == 0 {
        Seq::empty()
    } else {
        postings_file(p, keys.drop_last()) + list_bytes(p[keys.last()])
    }
}

/// The 16 bytes of a lookup entry: hash, offset, length, little-endian.
pub open spec fn lookup_entry_bytes(e: LookupEntry) -> Seq<u8> {
    le_bytes_u32(e.ngram_hash) + le_bytes_u64(e.offset) + le_bytes_u32(e.length)
}

/// The lookup entry of the last key of `keys`: its hash, the byte offset of
/// its posting list in postings.bin, and the number of its entries.
pub open spec fn lookup_entry_of(p: Map<u32, Seq<PostingEntry>>, keys: Seq<u32>) -> LookupEntry {
    LookupEntry {
        ngram_hash: keys.last(),
        offset: postings_file(p, keys.drop_last()).len() as u64,
        length: p[keys.last()].len() as u32,
    }
}

/// lookup.bin: one lookup entry for each key of `keys`, in that order.
pub open spec fn lookup_file(p: Map<u32, Seq<PostingEntry>>, keys: Seq<u32>) -> Seq<u8>
    decreases keys.len(),
{
    if keys.len() == 0 {
        Seq::empty()
    } else {
        lookup_file(p, keys.drop_last()) + lookup_entry_bytes(lookup_entry_of(p, keys))
    }
}

/// Two increasing orders of one set are the same sequence.
pub proof fn lemma_key_order_unique(k1: Seq<u32>, k2: Seq<u32>, dom: Set<u32>)
    requires
        is_key_order(k1, dom),
        is_key_order(k2, dom),
    ensures
        k1 == k2,
{
    assert forall|i: int| 0 <= i < k1.len() && 0 <= i < k2.len() implies k1[i] == k2[i] by {
        lemma_key_order_agree(k1, k2, dom, i);
    }
    if k1.len() < k2.len() {
        let n = k1.len() as int;
        assert(k2.contains(k2[n]));
        assert(k1.contains(k2[n]));
        let j = choose|j: int| 0 <= j < k1.len() && k1[j] == k2[n];
        assert(k1[j] == k2[j]);
    } else if k2.len() < k1.len() {
        let n = k2.len() as int;
        assert(k1.contains(k1[n]));
        assert(k2.contains(k1[n]));
        let j = choose|j: int| 0 <= j < k2.len() && k2[j] == k1[n];
        assert(k1[j] == k2[j]);
    }
    assert(k1 =~= k2);
}

proof fn lemma_key_order_agree(k1: Seq<u32>, k2: Seq<u32>, dom: Set<u32>, i: int)
    requires
        is_key_order(k1, dom),
        is_key_order(k2, dom),
        0 <= i < k1.len(),
        0 <= i < k2.len(),
    ensures
        k1[i] == k2[i],
    decreases i,
{
    if i > 0 {
        lemma_key_order_agree(k1, k2, dom, i - 1);
    }
    assert(k1.contains(k1[i]));
    assert(k2.contains(k1[i]));
    let j = choose|j: int| 0 <= j < k2.len() && k2[j] == k1[i];
    assert(k2.contains(k2[i]));
    assert(k1.contains(k2[i]));
    let j2 = choose|j: int| 0 <= j < k1.len() && k1[j] == k2[i];
    if j < i {
        lemma_key_order_agree(k1, k2, dom, j);
    }
    if j2 < i {
        lemma_key_order_agree(k1, k2, dom, j2);
    }
}

/// Every finite set of trigram hashes has an increasing order.
pub proof fn lemma_key_order_exists(dom: Set<u32>)
    requires
        dom.finite(),
    ensures
        is_key_order(key_order(dom), dom),
    decreases dom.len(),
{
    if dom.len() == 0 {
        assert(is_key_order(Seq::empty(), dom));
    } else {
        let m = lemma_set_max(dom);
        let rest = dom.remove(m);
        lemma_key_order_exists(rest);
        let k = key_order(rest).push(m);
        assert forall|h: u32| dom.contains(h) <==> k.contains(h) by {
            if dom.contains(h) && h != m {
                assert(rest.contains(h));
                assert(key_order(rest).contains(h));
                let j = choose|j: int| 0 <= j < key_order(rest).len() && key_order(rest)[j] == h;
                assert(k[j] == h);
            }
            if h == m {
                assert(k[k.len() - 1] == m);
            }
            if k.contains(h) && h != m {
                let j = choose|j: int| 0 <= j < k.len() && k[j] == h;
                assert(key_order(rest)[j] == h);
                assert(key_order(rest).contains(h));
            }
        }
        assert forall|i: int, j: int| 0 <= i < j < k.len() implies k[i] < k[j] by {
            if j == k.len() - 1 {
                assert(key_order(rest).contains(k[i]));
                assert(rest.contains(k[i]));
            }
        }
        assert(is_key_order(k, dom));
    }
}

/// A finite non-empty set of hashes has a largest element.
proof fn lemma_set_max(s: Set<u32>) -> (m: u32)
    requires
        s.finite(),
        s.len() > 0,
    ensures
        s.contains(m),
        forall|x: u32| s.contains(x) ==> x <= m,
    decreases s.len(),
{
    let x = s.choose();
    if s.len() == 1 {
        assert forall|y: u32| s.contains(y) implies y <= x by {
            if y != x {
                assert(s.remove(x).contains(y));
                assert(s.remove(x).len() == 0);
            }
        }
        x
    } else {
        let m0 = lemma_set_max(s.remove(x));
        if m0 < x {
            x
        } else {
            m0
        }
    }
}

/// Sorts through std's `slice::sort`.
/// Claimed: the result is a permutation of the input, in ascending order.
#[verifier::external_body]
pub(crate) fn sort_hashes(v: &mut Vec<u32>)
    ensures
        final(v)@.to_multiset() == old(v)@.to_multiset(),
        forall|i: int, j: int| 0 <= i < j < final(v)@.len() ==> final(v)@[i] <= final(v)@[j],
{
    v.sort();
}

/// A duplicate-free sequence of hashes, sorted, lists its set in increasing
/// order.
proof fn lemma_sorted_is_key_order(before: Seq<u32>, after: Seq<u32>, dom: Set<u32>)
    requires
        before.to_set() == dom,
        before.no_duplicates(),
        after.to_multiset() == before.to_multiset(),
        forall|i: int, j: int| 0 <= i < j < after.len() ==> after[i] <= after[j],
    ensures
        is_key_order(after, dom),
{
    broadcast use vstd::seq_lib::to_multiset_contains;

    before.lemma_multiset_has_no_duplicates();
    after.lemma_multiset_has_no_duplicates_conv();
    assert forall|h: u32| dom.contains(h) <==> after.contains(h) by {
        assert(before.to_set().contains(h) <==> before.contains(h));
        assert(before.contains(h) <==> before.to_multiset().count(h) > 0);
        assert(after.contains(h) <==> after.to_multiset().count(h) > 0);
    }
}

/// The trigrams of the builder, in increasing order.
fn sorted_trigrams(builder: &IndexBuilder) -> (keys: Vec<u32>)
    ensures
        keys@ == key_order(builder.postings_model().dom()),
{
    let ghost dom = builder.postings@.dom();
    let mut keys: Vec<u32> = Vec::new();
    for k in it: builder.postings.keys()
        invariant
            dom == builder.postings@.dom(),
            it.seq().unref().to_set() == dom,
            it.seq().no_duplicates(),
            keys@ == it.seq().take(it.index() as int).unref(),
            it.index() == it.seq().len() ==> keys@.to_set() == dom && keys@.no_duplicates(),
    {
        keys.push(*k);
        proof {
            assert(it.seq().take(it.index() + 1).unref() =~= it.seq().take(it.index() as int).unref().push(
                *it.seq()[it.index() as int],
            ));
            assert(it.seq().take(it.seq().len() as int) =~= it.seq());
            assert(it.seq().unref().no_duplicates());
        }
    }
    let ghost unsorted = keys@;
    sort_hashes(&mut keys);
    proof {
        assert(builder.postings_model().dom() =~= dom);
        lemma_sorted_is_key_order(unsorted, keys@, dom);
        lemma_key_order_exists(dom);
        lemma_key_order_unique(keys@, key_order(dom), dom);
    }
    keys
}

/// Appends the bytes of one posting list to `out`.
fn write_posting_list(out: &mut Vec<u8>, entries: &Vec<PostingEntry>)
    ensures
        final(out)@ == old(out)@ + list_bytes(entries@),
{
    let ghost base = out@;
    for k in 0..entries.len()
        invariant
            out@ == base + list_bytes(entries@.take(k as int)),
    {
        let e = entries[k];
        put_u32(out, e.file_id);
        put_u8(out, e.loc_mask);
        put_u8(out, e.next_mask);
        proof {
            assert(entries@.take(k + 1).drop_last() =~= entries@.take(k as int));
            assert(out@ =~= base + list_bytes(entries@.take(k + 1)));
        }
    }
    assert(entries@.take(entries@.len() as int) =~= entries@);
}

/// Appends the bytes of one lookup entry to `out`.
fn write_lookup_entry(out: &mut Vec<u8>, e: LookupEntry)
    ensures
        final(out)@ == old(out)@ + lookup_entry_bytes(e),
{
    put_u32(out, e.ngram_hash);
    put_u64(out, e.offset);
    put_u32(out, e.length);
    assert(out@ =~= old(out)@ + lookup_entry_bytes(e));
}

/// postings.bin and lookup.bin for the trigrams `keys` of the builder.
fn encode_postings(builder: &IndexBuilder, keys: &Vec<u32>) -> (res: (Vec<u8>, Vec<u8>))
    requires
        forall|i: int| 0 <= i < keys@.len() ==> builder.postings_model().contains_key(#[trigger] keys@[i]),
    ensures
        res.0@ == postings_file(builder.postings_model(), keys@),
        res.1@ == lookup_file(builder.postings_model(), keys@),
{
    let ghost p = builder.postings_model();
    let mut postings: Vec<u8> = Vec::new();
    let mut lookup: Vec<u8> = Vec::new();
    for i in 0..keys.len()
        invariant
            p == builder.postings_model(),
            forall|i: int| 0 <= i < keys@.len() ==> p.contains_key(#[trigger] keys@[i]),
            postings@ == postings_file(p, keys@.take(i as int)),
            lookup@ == lookup_file(p, keys@.take(i as int)),
    {
        let hash = keys[i];
        assert(p.contains_key(keys@[i as int]));
        let entries: &Vec<PostingEntry> = match builder.postings.get(&hash) {
            Some(v) => v,
            None => {
                proof {
                    assert(false);
                }
                return (postings, lookup);
            },
        };
        let ghost prefix = keys@.take(i + 1);
        proof {
            assert(prefix.drop_last() =~= keys@.take(i as int));
            assert(prefix.last() == hash);
        }
        let entry = LookupEntry {
            ngram_hash: hash,
            offset: postings.len() as u64,
            length: #[verifier::truncate] (entries.len() as u32),
        };
        assert(entry == lookup_entry_of(p, prefix));
        write_lookup_entry(&mut lookup, entry);
        write_posting_list(&mut postings, entries);
    }
    assert(keys@.take(keys@.len() as int) =~= keys@);
    (postings, lookup)
}

/// files.bin for the file table `files`.
fn encode_files(files: &Vec<String>) -> (out: Vec<u8>)
    ensures
        out@ == files_file(paths_of(files@)),
{
    let mut out: Vec<u8> = Vec::new();
    for i in 0..files.len()
        invariant
            out@ == files_file(paths_of(files@.take(i as int))),
    {
        let path_bytes: &[u8] = files[i].as_str().as_bytes();
        put_u32(&mut out, #[verifier::truncate] (i as u32));
        put_u16(&mut out, #[verifier::truncate] (path_bytes.len() as u16));
        let ghost before = out@;
        for k in 0..path_bytes.len()
            invariant
                out@ == before + path_bytes@.take(k as int),
        {
            out.push(path_bytes[k]);
            assert(path_bytes@.take(k + 1) =~= path_bytes@.take(k as int).push(path_bytes@[k as int]));
        }
        proof {
            let ps = paths_of(files@.take(i + 1));
            assert(path_bytes@.take(path_bytes@.len() as int) =~= path_bytes@);
            assert(ps.drop_last() =~= paths_of(files@.take(i as int)));
            assert(ps.last() == files@[i as int]@);
            assert(out@ =~= files_file(ps));
        }
    }
    assert(files@.take(files@.len() as int) =~= files@);
    out
}

/// The three index files, as bytes, and the counts recorded in the index
/// metadata.
pub struct EncodedIndex {
    /// postings.bin: every posting list, ordered by trigram.
    pub postings: Vec<u8>,
    /// lookup.bin: one 16-byte entry per trigram, ordered by trigram.
    pub lookup: Vec<u8>,
    /// files.bin: one record per indexed file.
    pub files: Vec<u8>,
    pub num_files: u32,
    pub num_trigrams: u32,
}

/// Encode the built index in its on-disk format: posting lists sorted by
/// trigram hash so that the lookup table can be binary searched.
pub fn encode_index(builder: &IndexBuilder) -> (enc: EncodedIndex)
    ensures
        enc.postings@ == postings_file(
            builder.postings_model(),
            key_order(builder.postings_model().dom()),
        ),
        enc.lookup@ == lookup_file(builder.postings_model(), key_order(builder.postings_model().dom())),
        enc.files@ == files_file(paths_of(builder.files@)),
        enc.num_files == builder.files@.len() as u32,
        enc.num_trigrams == builder.postings_model().dom().len() as u32,
{
    let keys = sorted_trigrams(builder);
    proof {
        assert(builder.postings_model().dom() =~= builder.postings@.dom());
        assert(builder.postings@.dom().finite());
        lemma_key_order_exists(builder.postings_model().dom());
        assert forall|i: int| 0 <= i < keys@.len() implies builder.postings_model().contains_key(
            #[trigger] keys@[i],
        ) by {
            assert(keys@.contains(keys@[i]));
        }
        assert(keys@.no_duplicates());
        keys@.unique_seq_to_set();
        assert(keys@.to_set() =~= builder.postings_model().dom());
    }
    let (postings, lookup) = encode_postings(builder, &keys);
    let files = encode_files(&builder.files);
    EncodedIndex {
        postings,
        lookup,
        files,
        num_files: #[verifier::truncate] (builder.files.len() as u32),
        num_trigrams: #[verifier::truncate] (keys.len() as u32),
    }
}

impl EncodedIndex {
    /// The metadata written beside these files: the current format version,
    /// the given creation time, repository root and git HEAD, the counts, and
    /// the total size of the three files.
    pub fn meta(&self, created_at: String, repo_root: String, git_head: Option<String>) -> (m: IndexMeta)
        requires
            self.postings@.len() + self.lookup@.len() + self.files@.len() <= u64::MAX,
        ensures
            m == (IndexMeta {
                version: INDEX_VERSION,
                created_at,
                repo_root,
                num_files: self.num_files,
                num_trigrams: self.num_trigrams,
                index_size_bytes: (self.postings@.len() + self.lookup@.len() + self.files@.len()) as u64,
                git_head,
            }),
    {
        let size = self.postings.len() as u64 + self.lookup.len() as u64 + self.files.len() as u64;
        IndexMeta {
            version: INDEX_VERSION,
            created_at,
            repo_root,
            num_files: self.num_files,
            num_trigrams: self.num_trigrams,
            index_size_bytes: size,
            git_head,
        }
    }
}

} // verus!