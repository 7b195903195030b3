use vstd::prelude::*;
use crate::builder::{index_of, lemma_index_exact, list_or_empty, posting_for, with_file, IndexBuilder};
use crate::query::{file_ids, plan_result};
use crate::reader::IndexReader;
use crate::trigram::{occurs_before, trigram_map, window_hash};
use crate::types::PlanModel;
use crate::format::{
    lemma_le_u16_roundtrip, lemma_le_u32_roundtrip, lemma_le_u64_roundtrip, le_bytes_u16, le_bytes_u32,
    le_bytes_u64, le_u16_at,
};
use crate::ondisk::{
    file_record, files_file, is_key_order, key_order, lemma_key_order_exists, list_bytes, lookup_entry_bytes, lookup_entry_of,
    lookup_file, posting_bytes, postings_file,
};
use crate::reader::{
    decode_entry, decode_list, entry_hash, entry_length, entry_offset, lemma_search_sorted,
    num_entries, parse_files_bin, posting_list_in, prepend_paths, table_lookup, table_sorted,
};
use vstd::utf8::{decode_utf8, encode_utf8, encode_utf8_decode_utf8, encode_utf8_valid_utf8, valid_utf8};
use crate::types::PostingEntry;

verus! {

/// A posting list takes 6 bytes per entry, entry `k` at bytes `6k..6k+6`.
proof fn lemma_list_layout(l: Seq<PostingEntry>)
    ensures
        list_bytes(l).len() == 6 * l.len(),
        forall|k: int| 0 <= k < l.len() ==> #[trigger] list_bytes(l).subrange(6 * k, 6 * k + 6) == posting_bytes(l[k]),
    decreases l.len(),
{
    if l.len() > 0 {
        let l0 = l.drop_last();
        lemma_list_layout(l0);
        let a = list_bytes(l0);
        let b = posting_bytes(l.last());
        assert forall|k: int| 0 <= k < l.len() implies #[trigger] list_bytes(l).subrange(6 * k, 6 * k + 6) == posting_bytes(l[k]) by {
            if k < l0.len() {
                assert(list_bytes(l).subrange(6 * k, 6 * k + 6) =~= a.subrange(6 * k, 6 * k + 6));
                assert(l[k] == l0[k]);
            } else {
                assert(list_bytes(l).subrange(6 * k, 6 * k + 6) =~= b);
            }
        }
    }
}

/// The posting list of key `i` sits in postings.bin right after the lists
/// of the keys before it.
proof fn lemma_postings_layout(p: Map<u32, Seq<PostingEntry>>, keys: Seq<u32>, i: int)
    requires
        0 <= i < keys.len(),
    ensures
        ({
            let off = postings_file(p, keys.take(i)).len() as int;
            let len = list_bytes(p[keys[i]]).len() as int;
            &&& off + len <= postings_file(p, keys).len()
            &&& postings_file(p, keys).subrange(off, off + len) == list_bytes(p[keys[i]])
        }),
    decreases keys.len(),
{
    let k0 = keys.drop_last();
    let a = postings_file(p, k0);
    let b = list_bytes(p[keys.last()]);
    assert(postings_file(p, keys) == a + b);
    if i == keys.len() - 1 {
        assert(keys.take(i) =~= k0);
        assert(postings_file(p, keys).subrange(a.len() as int, a.len() + b.len() as int) =~= b);
    } else {
        lemma_postings_layout(p, k0, i);
        assert(k0.take(i) =~= keys.take(i));
        assert(k0[i] == keys[i]);
        let off = postings_file(p, keys.take(i)).len() as int;
        let len = list_bytes(p[keys[i]]).len() as int;
        assert(postings_file(p, keys).subrange(off, off + len) =~= a.subrange(off, off + len));
    }
}

/// lookup.bin has 16 bytes per key, entry `i` at bytes `16i..16i+16`.
proof fn lemma_lookup_layout(p: Map<u32, Seq<PostingEntry>>, keys: Seq<u32>)
    ensures
        lookup_file(p, keys).len() == 16 * keys.len(),
        forall|i: int| 0 <= i < keys.len() ==> #[trigger] lookup_file(p, keys).subrange(16 * i, 16 * i + 16)
            == lookup_entry_bytes(lookup_entry_of(p, keys.take(i + 1))),
    decreases keys.len(),
{
    if keys.len() > 0 {
        let k0 = keys.drop_last();
        lemma_lookup_layout(p, k0);
        let a = lookup_file(p, k0);
        let b = lookup_entry_bytes(lookup_entry_of(p, keys));
        assert(lookup_file(p, keys) == a + b);
        assert forall|i: int| 0 <= i < keys.len() implies #[trigger] lookup_file(p, keys).subrange(16 * i, 16 * i + 16)
            == lookup_entry_bytes(lookup_entry_of(p, keys.take(i + 1))) by {
            if i < k0.len() {
                assert(lookup_file(p, keys).subrange(16 * i, 16 * i + 16) =~= a.subrange(16 * i, 16 * i + 16));
                assert(k0.take(i + 1) =~= keys.take(i + 1));
            } else {
                assert(lookup_file(p, keys).subrange(16 * i, 16 * i + 16) =~= b);
                assert(keys.take(i + 1) =~= keys);
            }
        }
    }
}

/// Lookup entry `i` decodes to key `i`, the offset of its posting list and
/// its length.
proof fn lemma_lookup_entry_decodes(p: Map<u32, Seq<PostingEntry>>, keys: Seq<u32>, i: int)
    requires
        0 <= i < keys.len(),
    ensures
        num_entries(lookup_file(p, keys)) == keys.len(),
        entry_hash(lookup_file(p, keys), i) == keys[i],
        entry_offset(lookup_file(p, keys), i) == postings_file(p, keys.take(i)).len() as u64,
        entry_length(lookup_file(p, keys), i) == p[keys[i]].len() as u32,
{
    lemma_lookup_layout(p, keys);
    let d = lookup_file(p, keys);
    let e = lookup_entry_of(p, keys.take(i + 1));
    let s = d.subrange(16 * i, 16 * i + 16);
    assert(s == lookup_entry_bytes(e));
    assert(keys.take(i + 1).drop_last() =~= keys.take(i));
    assert(keys.take(i + 1).last() == keys[i]);
    assert(d.subrange(16 * i, 16 * i + 4) =~= s.subrange(0, 4));
    assert(s.subrange(0, 4) =~= le_bytes_u32(e.ngram_hash));
    lemma_le_u32_roundtrip(d, 16 * i, e.ngram_hash);
    assert(d.subrange(16 * i + 4, 16 * i + 12) =~= s.subrange(4, 12));
    assert(s.subrange(4, 12) =~= le_bytes_u64(e.offset));
    lemma_le_u64_roundtrip(d, 16 * i + 4, e.offset);
    assert(d.subrange(16 * i + 12, 16 * i + 16) =~= s.subrange(12, 16));
    assert(s.subrange(12, 16) =~= le_bytes_u32(e.length));
    lemma_le_u32_roundtrip(d, 16 * i + 12, e.length);
}

/// Entry `k` of the posting list of key `i` decodes back from postings.bin.
proof fn lemma_posting_entry_decodes(p: Map<u32, Seq<PostingEntry>>, keys: Seq<u32>, i: int, k: int)
    requires
        0 <= i < keys.len(),
        0 <= k < p[keys[i]].len(),
    ensures
        postings_file(p, keys.take(i)).len() + 6 * p[keys[i]].len() <= postings_file(p, keys).len(),
        decode_entry(postings_file(p, keys), postings_file(p, keys.take(i)).len() + 6 * k) == p[keys[i]][k],
{
    let l = p[keys[i]];
    let d = postings_file(p, keys);
    let off = postings_file(p, keys.take(i)).len() as int;
    lemma_postings_layout(p, keys, i);
    lemma_list_layout(l);
    let lb = list_bytes(l);
    let pos = off + 6 * k;
    assert(d.subrange(off, off + lb.len()) == lb);
    assert(lb.subrange(6 * k, 6 * k + 6) == posting_bytes(l[k]));
    let s = d.subrange(pos, pos + 6);
    assert(s =~= lb.subrange(6 * k, 6 * k + 6));
    assert(d.subrange(pos, pos + 4) =~= le_bytes_u32(l[k].file_id));
    lemma_le_u32_roundtrip(d, pos, l[k].file_id);
    assert(d[pos + 4] == s[4]);
    assert(d[pos + 5] == s[5]);
}

/// The index reads back what was built: for every trigram `h`, reading its
/// posting list through lookup.bin and postings.bin as encoded from the
/// builder's postings `p` gives exactly the builder's list for `h` (empty
/// for a trigram the builder never saw). Lists of more than `u32::MAX`
/// entries and postings files beyond `u64::MAX` bytes are left out: their
/// lengths and offsets do not fit the on-disk fields.
pub proof fn lemma_postings_roundtrip(p: Map<u32, Seq<PostingEntry>>, h: u32)
    requires
        p.dom().finite(),
        forall|k: u32| #[trigger] p.contains_key(k) ==> p[k].len() <= u32::MAX,
        postings_file(p, key_order(p.dom())).len() <= u64::MAX,
    ensures
        posting_list_in(lookup_file(p, key_order(p.dom())), postings_file(p, key_order(p.dom())), h)
            == Some(list_or_empty(p, h)),
{
    let keys = key_order(p.dom());
    lemma_key_order_exists(p.dom());
    let l = lookup_file(p, keys);
    let d = postings_file(p, keys);
    lemma_lookup_layout(p, keys);
    assert(num_entries(l) == keys.len());
    assert forall|i: int, j: int| 0 <= i < j < num_entries(l) implies entry_hash(l, i) < entry_hash(l, j) by {
        lemma_lookup_entry_decodes(p, keys, i);
        lemma_lookup_entry_decodes(p, keys, j);
    }
    assert(table_sorted(l));
    lemma_search_sorted(l, h, 0, num_entries(l));
    if p.contains_key(h) {
        assert(keys.contains(h));
        let i = choose|i: int| 0 <= i < keys.len() && keys[i] == h;
        lemma_lookup_entry_decodes(p, keys, i);
        let off = postings_file(p, keys.take(i)).len();
        let n = p[h].len();
        lemma_postings_layout(p, keys, i);
        lemma_list_layout(p[h]);
        assert(off + 6 * n <= d.len());
        assert(table_lookup(l, h) == Some((off as u64, n as u32)));
        if n > 0 {
            assert forall|k: int| 0 <= k < n implies #[trigger] decode_list(d, off as int, n as int)[k] == p[h][k] by {
                lemma_posting_entry_decodes(p, keys, i, k);
            }
            assert(decode_list(d, off as int, n as int) =~= p[h]);
        } else {
            assert(p[h] =~= Seq::<PostingEntry>::empty());
        }
    } else {
        assert forall|i: int| 0 <= i < num_entries(l) implies entry_hash(l, i) != h by {
            lemma_lookup_entry_decodes(p, keys, i);
            assert(keys.contains(keys[i]));
        }
        assert(table_lookup(l, h) is None);
    }
}

/// Parsing files.bin record by record: bytes that parse completely can be
/// followed by more records.
proof fn lemma_parse_files_concat(x: Seq<u8>, y: Seq<u8>)
    requires
        parse_files_bin(x) is Some,
    ensures
        parse_files_bin(x + y) == prepend_paths(parse_files_bin(x).unwrap(), parse_files_bin(y)),
    decreases x.len(),
{
    if x.len() == 0 {
        assert(x + y =~= y);
        assert(prepend_paths(Seq::empty(), parse_files_bin(y)) == parse_files_bin(y)) by {
            if parse_files_bin(y) is Some {
                assert(Seq::<Seq<u8>>::empty() + parse_files_bin(y).unwrap() =~= parse_files_bin(y).unwrap());
            }
        }
    } else {
        let xy = x + y;
        let n = le_u16_at(x, 4) as int;
        assert(le_u16_at(xy, 4) == le_u16_at(x, 4));
        assert(xy.skip(6 + n) =~= x.skip(6 + n) + y);
        assert(xy.subrange(6, 6 + n) =~= x.subrange(6, 6 + n));
        lemma_parse_files_concat(x.skip(6 + n), y);
        let rest = parse_files_bin(x.skip(6 + n)).unwrap();
        if parse_files_bin(y) is Some {
            let ry = parse_files_bin(y).unwrap();
            assert(seq![x.subrange(6, 6 + n)] + (rest + ry) =~= (seq![x.subrange(6, 6 + n)] + rest) + ry);
        }
    }
}

/// One record parses back to its path's bytes.
proof fn lemma_parse_file_record(id: int, path: Seq<char>)
    requires
        encode_utf8(path).len() <= u16::MAX,
    ensures
        parse_files_bin(file_record(id, path)) == Some(seq![encode_utf8(path)]),
{
    let b = encode_utf8(path);
    let n = b.len() as int;
    let r = file_record(id, path);
    assert(r.subrange(4, 6) =~= le_bytes_u16(n as u16));
    lemma_le_u16_roundtrip(r, 4, n as u16);
    assert(r.subrange(6, 6 + n) =~= b);
    assert(r.skip(6 + n) =~= Seq::<u8>::empty());
    assert(parse_files_bin(r.skip(6 + n)) == Some(Seq::<Seq<u8>>::empty()));
    assert(le_u16_at(r, 4) as int == n);
    assert(seq![b] + Seq::<Seq<u8>>::empty() =~= seq![b]);
}

/// Every path's UTF-8 bytes are valid and decode to the path.
proof fn lemma_paths_utf8(paths: Seq<Seq<char>>)
    ensures
        forall|i: int|
            0 <= i < paths.len() ==> valid_utf8(encode_utf8(#[trigger] paths[i])) && decode_utf8(
                encode_utf8(paths[i]),
            ) == paths[i],
{
    assert forall|i: int| 0 <= i < paths.len() implies valid_utf8(encode_utf8(#[trigger] paths[i]))
        && decode_utf8(encode_utf8(paths[i])) == paths[i] by {
        encode_utf8_valid_utf8(paths[i]);
        encode_utf8_decode_utf8(paths[i]);
    }
}

/// Parsing files.bin as encoded from `paths` gives each path's bytes.
proof fn lemma_files_parse(paths: Seq<Seq<char>>)
    requires
        forall|i: int| 0 <= i < paths.len() ==> encode_utf8(#[trigger] paths[i]).len() <= u16::MAX,
    ensures
        parse_files_bin(files_file(paths)) == Some(paths.map_values(|s: Seq<char>| encode_utf8(s))),
    decreases paths.len(),
{
    if paths.len() == 0 {
        assert(paths.map_values(|s: Seq<char>| encode_utf8(s)) =~= Seq::<Seq<u8>>::empty());
    } else {
        let p0 = paths.drop_last();
        let last = paths.last();
        assert forall|i: int| 0 <= i < p0.len() implies encode_utf8(#[trigger] p0[i]).len() <= u16::MAX by {
            assert(p0[i] == paths[i]);
        }
        lemma_files_parse(p0);
        assert(encode_utf8(paths[paths.len() - 1]).len() <= u16::MAX);
        lemma_parse_file_record(paths.len() - 1, last);
        let x = files_file(p0);
        let y = file_record(paths.len() - 1, last);
        assert(files_file(paths) == x + y);
        lemma_parse_files_concat(x, y);
        let a = p0.map_values(|s: Seq<char>| encode_utf8(s));
        assert(a + seq![encode_utf8(last)] =~= paths.map_values(|s: Seq<char>| encode_utf8(s)));
    }
}

/// The file table reads back what was written: parsing files.bin as encoded
/// from `paths` gives each path's UTF-8 bytes in order, and those bytes are
/// valid UTF-8 decoding to the path. Paths longer than `u16::MAX` bytes are
/// left out: their length does not fit the 16-bit length field.
pub proof fn lemma_files_roundtrip(paths: Seq<Seq<char>>)
    requires
        forall|i: int| 0 <= i < paths.len() ==> encode_utf8(#[trigger] paths[i]).len() <= u16::MAX,
    ensures
        parse_files_bin(files_file(paths)) == Some(paths.map_values(|s: Seq<char>| encode_utf8(s))),
        forall|i: int|
            0 <= i < paths.len() ==> valid_utf8(encode_utf8(#[trigger] paths[i])) && decode_utf8(
                encode_utf8(paths[i]),
            ) == paths[i],
{
    lemma_files_parse(paths);
    lemma_paths_utf8(paths);
}

/// A reader over the lookup and postings files that `encode_index` wrote
/// for a builder reads back the builder's posting list of every trigram.
pub proof fn lemma_reader_reads_builder(b: IndexBuilder, r: IndexReader, h: u32)
    requires
        forall|k: u32| #[trigger] b.postings_model().contains_key(k) ==> b.postings_model()[k].len() <= u32::MAX,
        postings_file(b.postings_model(), key_order(b.postings_model().dom())).len() <= u64::MAX,
        r.lookup_bytes() == lookup_file(b.postings_model(), key_order(b.postings_model().dom())),
        r.postings_bytes() == postings_file(b.postings_model(), key_order(b.postings_model().dom())),
    ensures
        r.posting_list(h) == Some(list_or_empty(b.postings_model(), h)),
{
    assert(b.postings_model().dom() =~= b.postings@.dom());
    assert(b.postings@.dom().finite());
    lemma_postings_roundtrip(b.postings_model(), h);
}

/// The trigrams of one content form a finite set.
proof fn lemma_trigram_map_finite(c: Seq<u8>)
    ensures
        trigram_map(c).dom().finite(),
{
    broadcast use vstd::seq_lib::seq_to_set_is_finite;

    let ws = Seq::new(c.len(), |i: int| if i + 3 <= c.len() { window_hash(c, i) } else { 0u32 });
    assert forall|h: u32| trigram_map(c).dom().contains(h) implies ws.to_set().contains(h) by {
        let i = choose|i: int| #[trigger] occurs_before(c, h, i, c.len() as int);
        assert(ws[i] == h);
    }
    vstd::set_lib::lemma_set_subset_finite(ws.to_set(), trigram_map(c).dom());
}

/// An index built from files has finitely many trigrams, and each posting
/// list has at most one entry per file.
proof fn lemma_index_bounds(cs: Seq<Seq<u8>>)
    ensures
        index_of(cs).dom().finite(),
        forall|h: u32| index_of(cs).contains_key(h) ==> #[trigger] index_of(cs)[h].len() <= cs.len(),
    decreases cs.len(),
{
    if cs.len() > 0 {
        let c0 = cs.drop_last();
        lemma_index_bounds(c0);
        lemma_trigram_map_finite(cs.last());
        let p0 = index_of(c0);
        let t = trigram_map(cs.last());
        assert(index_of(cs).dom() =~= p0.dom().union(t.dom()));
        assert forall|h: u32| index_of(cs).contains_key(h) implies #[trigger] index_of(cs)[h].len() <= cs.len() by {
            if t.contains_key(h) {
                assert(index_of(cs)[h] == list_or_empty(p0, h).push(posting_for(t, h, (cs.len() - 1) as u32)));
            }
        }
    }
}

/// Searching never misses and never invents a file: on the index files
/// encoded from the contents `cs`, an `And` query over trigrams `ts` yields
/// exactly the files in which every one of those trigrams occurs. Indexes
/// of more than `u32::MAX` files, and postings files beyond `u64::MAX`
/// bytes, are left out: their ids and offsets do not fit the on-disk fields.
pub proof fn lemma_and_query_exact(cs: Seq<Seq<u8>>, r: IndexReader, ts: Seq<(u32, Option<u8>)>)
    requires
        cs.len() <= u32::MAX,
        ts.len() > 0,
        postings_file(index_of(cs), key_order(index_of(cs).dom())).len() <= u64::MAX,
        r.lookup_bytes() == lookup_file(index_of(cs), key_order(index_of(cs).dom())),
        r.postings_bytes() == postings_file(index_of(cs), key_order(index_of(cs).dom())),
    ensures
        plan_result(r, PlanModel::And(ts)) == Some(
            Set::new(
                |f: u32|
                    f < cs.len() && forall|i: int|
                        0 <= i < ts.len() ==> #[trigger] trigram_map(cs[f as int]).contains_key(ts[i].0),
            ),
        ),
{
    let p = index_of(cs);
    lemma_index_bounds(cs);
    assert forall|h: u32| #[trigger] r.posting_list(h) == Some(list_or_empty(p, h)) by {
        lemma_postings_roundtrip(p, h);
    }
    let expected = Set::new(
        |f: u32|
            f < cs.len() && forall|i: int|
                0 <= i < ts.len() ==> #[trigger] trigram_map(cs[f as int]).contains_key(ts[i].0),
    );
    assert forall|i: int| 0 <= i < ts.len() implies (#[trigger] r.posting_list(ts[i].0)) is Some by {}
    let got = Set::new(
        |id: u32|
            forall|i: int|
                0 <= i < ts.len() ==> #[trigger] file_ids(r.posting_list(ts[i].0).unwrap()).contains(id),
    );
    assert(plan_result(r, PlanModel::And(ts)) == Some(got));
    assert forall|f: u32| got.contains(f) <==> expected.contains(f) by {
        if got.contains(f) {
            let h = ts[0].0;
            assert(file_ids(r.posting_list(h).unwrap()).contains(f));
            let l = list_or_empty(p, h);
            let k = choose|k: int| 0 <= k < l.len() && #[trigger] l[k].file_id == f;
            assert(l[k].file_id < cs.len()) by {
                if cs.len() > 0 {
                    lemma_index_exact(cs, h, 0);
                }
            }
            assert forall|i: int| 0 <= i < ts.len() implies #[trigger] trigram_map(cs[f as int]).contains_key(ts[i].0) by {
                let hi = ts[i].0;
                assert(file_ids(r.posting_list(hi).unwrap()).contains(f));
                let li = list_or_empty(p, hi);
                let ki = choose|k: int| 0 <= k < li.len() && #[trigger] li[k].file_id == f;
                lemma_index_exact(cs, hi, f as int);
            }
        }
        if expected.contains(f) {
            assert forall|i: int| 0 <= i < ts.len() implies #[trigger] file_ids(r.posting_list(ts[i].0).unwrap()).contains(f) by {
                let hi = ts[i].0;
                lemma_index_exact(cs, hi, f as int);
                let li = list_or_empty(p, hi);
                let ki = choose|k: int| 0 <= k < li.len() && #[trigger] li[k].file_id == f as int;
                assert(li[ki].file_id == f);
            }
        }
    }
    assert(got =~= expected);
}

} // verus!