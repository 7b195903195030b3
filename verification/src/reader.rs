use vstd::prelude::*;
use crate::error::IndexError;
use crate::format::{get_bytes, get_u16, get_u32, get_u64, get_u8, le_u16_at, le_u32_at, le_u64_at};
use crate::meta::{lossy_string, utf8_lossy, IndexMeta};
use vstd::utf8::{decode_utf8, valid_utf8};
use crate::types::{PostingEntry, TrigramHash};

verus! {

/// The number of whole 16-byte entries in a lookup table.
pub open spec fn num_entries(d: Seq<u8>) -> int {
    d.len() as int / 16
}

/// The trigram hash of lookup entry `i`.
pub open spec fn entry_hash(d: Seq<u8>, i: int) -> u32 {
    le_u32_at(d, 16 * i)
}

/// The postings offset of lookup entry `i`.
pub open spec fn entry_offset(d: Seq<u8>, i: int) -> u64 {
    le_u64_at(d, 16 * i + 4)
}

/// The posting list length of lookup entry `i`.
pub open spec fn entry_length(d: Seq<u8>, i: int) -> u32 {
    le_u32_at(d, 16 * i + 12)
}

/// Binary search for `h` among lookup entries `lo..hi`: the offset and
/// length of the entry it lands on, if that entry's hash is `h`.
pub open spec fn search(d: Seq<u8>, h: u32, lo: int, hi: int) -> Option<(u64, u32)>
    decreases hi - lo,
{
    if lo >= hi {
        None
    } else {
        let mid = lo + (hi - lo) / 2;
        if entry_hash(d, mid) < h {
            search(d, h, mid + 1, hi)
        } else if entry_hash(d, mid) > h {
            search(d, h, lo, mid)
        } else {
            Some((entry_offset(d, mid), entry_length(d, mid)))
        }
    }
}

/// What looking up `h` in the lookup table `d` finds.
pub open spec fn table_lookup(d: Seq<u8>, h: u32) -> Option<(u64, u32)> {
    search(d, h, 0, num_entries(d))
}

/// The lookup entries are in strictly increasing order of hash.
pub open spec fn table_sorted(d: Seq<u8>) -> bool {
    forall|i: int, j: int| 0 <= i < j < num_entries(d) ==> entry_hash(d, i) < entry_hash(d, j)
}

/// The posting entry stored at byte `pos` of postings.bin.
pub open spec fn decode_entry(d: Seq<u8>, pos: int) -> PostingEntry {
    PostingEntry { file_id: le_u32_at(d, pos), loc_mask: d[pos + 4], next_mask: d[pos + 5] }
}

/// The `n` posting entries stored from byte `off` of postings.bin.
pub open spec fn decode_list(d: Seq<u8>, off: int, n: int) -> Seq<PostingEntry> {
    Seq::new(n as nat, |k: int| decode_entry(d, off + 6 * k))
}

/// The posting list of `h`: empty when the lookup table has no entry for
/// it, the decoded entries when postings.bin holds them all, and nothing
/// (a read error) when postings.bin ends too early.
pub open spec fn posting_list_in(lookup: Seq<u8>, postings: Seq<u8>, h: u32) -> Option<Seq<PostingEntry>> {
    match table_lookup(lookup, h) {
        None => Some(Seq::empty()),
        Some((off, len)) => if len == 0 {
            Some(Seq::empty())
        } else if off + 6 * len <= postings.len() {
            Some(decode_list(postings, off as int, len as int))
        } else {
            None
        },
    }
}

/// The path bytes stored in files.bin, in record order: each record is a
/// file id (4 bytes, ignored), a path length `n` (2 bytes) and `n` path
/// bytes; nothing (a read error) when a record is cut short.
pub open spec fn parse_files_bin(d: Seq<u8>) -> Option<Seq<Seq<u8>>>
    decreases d.len(),
{
    if d.len() == 0 {
        Some(Seq::empty())
    } else if d.len() < 6 {
        None
    } else {
        let n = le_u16_at(d, 4) as int;
        if 6 + n > d.len() {
            None
        } else {
            match parse_files_bin(d.skip(6 + n)) {
                Some(rest) => Some(seq![d.subrange(6, 6 + n)] + rest),
                None => None,
            }
        }
    }
}

/// `done` followed by what `rest` parsed to, if it parsed.
pub open spec fn prepend_paths(done: Seq<Seq<u8>>, rest: Option<Seq<Seq<u8>>>) -> Option<
    Seq<Seq<u8>>,
> {
    match rest {
        Some(r) => Some(done + r),
        None => None,
    }
}

/// On a sorted table, the binary search finds exactly the entry with hash `h`.
pub proof fn lemma_search_sorted(d: Seq<u8>, h: u32, lo: int, hi: int)
    requires
        table_sorted(d),
        0 <= lo,
        hi <= num_entries(d),
    ensures
        search(d, h, lo, hi) is Some <==> exists|i: int| lo <= i < hi && entry_hash(d, i) == h,
        forall|i: int|
            lo <= i < hi && entry_hash(d, i) == h ==> search(d, h, lo, hi) == Some(
                (entry_offset(d, i), entry_length(d, i)),
            ),
    decreases hi - lo,
{
    if lo < hi {
        let mid = lo + (hi - lo) / 2;
        if entry_hash(d, mid) < h {
            lemma_search_sorted(d, h, mid + 1, hi);
            assert forall|i: int| lo <= i <= mid implies entry_hash(d, i) != h by {
                if i < mid {
                    assert(entry_hash(d, i) < entry_hash(d, mid));
                }
            }
        } else if entry_hash(d, mid) > h {
            lemma_search_sorted(d, h, lo, mid);
            assert forall|i: int| mid <= i < hi implies entry_hash(d, i) != h by {
                if i > mid {
                    assert(entry_hash(d, mid) < entry_hash(d, i));
                }
            }
        } else {
            assert forall|i: int| lo <= i < hi && entry_hash(d, i) == h implies i == mid by {
                if i < mid {
                    assert(entry_hash(d, i) < entry_hash(d, mid));
                }
                if i > mid {
                    assert(entry_hash(d, mid) < entry_hash(d, i));
                }
            }
        }
    }
}

/// Entry `i` of a lookup table lies inside the table.
proof fn lemma_entry_in_table(len: int, i: int)
    requires
        0 <= i < len / 16,
        0 <= len,
    ensures
        16 * i + 16 <= len,
{
    assert(16 * i + 16 <= len) by (nonlinear_arith)
        requires
            0 <= i < len / 16,
            0 <= len,
    ;
}

/// A reader over the bytes of lookup.bin and postings.bin, borrowed from
/// wherever the caller holds them (a memory map reads them from disk only as
/// they are used), with the decoded file table and the metadata.
pub struct IndexReader<'a> {
    lookup_data: &'a [u8],
    postings_data: &'a [u8],
    pub files: Vec<String>,
    pub meta: IndexMeta,
}

impl<'a> IndexReader<'a> {
    /// The bytes of lookup.bin.
    pub closed spec fn lookup_bytes(&self) -> Seq<u8> {
        self.lookup_data@
    }

    /// The bytes of postings.bin.
    pub closed spec fn postings_bytes(&self) -> Seq<u8> {
        self.postings_data@
    }

    /// The file table.
    pub closed spec fn file_table(&self) -> Seq<String> {
        self.files@
    }

    /// The metadata.
    pub closed spec fn metadata(&self) -> IndexMeta {
        self.meta
    }

    /// The posting list of `h` as this reader reads it.
    pub open spec fn posting_list(&self, h: u32) -> Option<Seq<PostingEntry>> {
        posting_list_in(self.lookup_bytes(), self.postings_bytes(), h)
    }

    /// A reader over the contents of lookup.bin, postings.bin, the decoded
    /// files.bin and the metadata.
    pub fn from_parts(lookup_data: &'a [u8], postings_data: &'a [u8], files: Vec<String>, meta: IndexMeta) -> (r: Self)
        ensures
            r.lookup_bytes() == lookup_data@,
            r.postings_bytes() == postings_data@,
            r.file_table() == files@,
            r.metadata() == meta,
    {
        IndexReader { lookup_data, postings_data, files, meta }
    }

    pub fn num_files(&self) -> (n: usize)
        ensures
            n == self.file_table().len(),
    {
        self.files.len()
    }

    /// Binary search the lookup table for a trigram hash.
    /// Returns (byte_offset_in_postings, num_entries) if found.
    pub fn lookup(&self, hash: TrigramHash) -> (res: Option<(u64, u32)>)
        ensures
            res == table_lookup(self.lookup_bytes(), hash),
            table_sorted(self.lookup_bytes()) ==> (res is Some <==> exists|i: int|
                0 <= i < num_entries(self.lookup_bytes()) && entry_hash(self.lookup_bytes(), i) == hash),
            table_sorted(self.lookup_bytes()) ==> forall|i: int|
                0 <= i < num_entries(self.lookup_bytes()) && entry_hash(self.lookup_bytes(), i)
                    == hash ==> res == Some(
                    (entry_offset(self.lookup_bytes(), i), entry_length(self.lookup_bytes(), i)),
                ),
    {
        let data = self.lookup_data;
        let len = data.len();
        let n = len / 16;
        let mut lo: usize = 0;
        let mut hi: usize = n;
        proof {
            if table_sorted(data@) {
                lemma_search_sorted(data@, hash, 0, n as int);
            }
        }
        while lo < hi
            invariant
                0 <= lo <= hi <= n,
                len == data@.len(),
                data@ == self.lookup_bytes(),
                n == num_entries(data@),
                search(data@, hash, 0, n as int) == search(data@, hash, lo as int, hi as int),
            decreases hi - lo,
        {
            let mid = lo + (hi - lo) / 2;
            proof {
                assert(mid < n);
                lemma_entry_in_table(len as int, mid as int);
            }
            let base = mid * 16;
            let found = match get_u32(data, base) {
                Ok(v) => v,
                Err(_) => {
                    proof {
                        assert(false);
                    }
                    return None;
                },
            };
            if found < hash {
                lo = mid + 1;
            } else if found > hash {
                hi = mid;
            } else {
                let offset = match get_u64(data, base + 4) {
                    Ok(v) => v,
                    Err(_) => {
                        proof {
                            assert(false);
                        }
                        return None;
                    },
                };
                let length = match get_u32(data, base + 12) {
                    Ok(v) => v,
                    Err(_) => {
                        proof {
                            assert(false);
                        }
                        return None;
                    },
                };
                proof {
                    assert(entry_hash(data@, mid as int) == hash);
                    assert(search(data@, hash, lo as int, hi as int) == Some((offset, length)));
                    if table_sorted(data@) {
                        lemma_search_sorted(data@, hash, 0, n as int);
                    }
                }
                return Some((offset, length));
            }
        }
        None
    }
}

impl<'a> IndexReader<'a> {
    /// Read the posting list of a trigram from the postings file.
    pub fn read_posting_list(&mut self, hash: TrigramHash) -> (res: Result<Vec<PostingEntry>, IndexError>)
        ensures
            *final(self) == *old(self),
            old(self).posting_list(hash) matches Some(l) ==> res is Ok && res.unwrap()@ == l,
            old(self).posting_list(hash) is None ==> res matches Err(IndexError::Io(_)),
    {
        let (offset, length) = match self.lookup(hash) {
            Some(v) => v,
            None => {
                return Ok(Vec::new());
            },
        };
        let data = self.postings_data;
        let mut entries: Vec<PostingEntry> = Vec::new();
        if length == 0 {
            proof {
                assert(entries@ =~= Seq::<PostingEntry>::empty());
            }
            return Ok(entries);
        }
        let len = data.len();
        if offset > len as u64 {
            // Seeking past the end of the file: the first read fails.
            match get_u8(data, len) {
                Err(e) => {
                    return Err(IndexError::Io(e));
                },
                Ok(_) => {
                    proof {
                        assert(false);
                    }
                    return Ok(entries);
                },
            }
        }
        let mut pos: usize = offset as usize;
        for k in 0..length
            invariant
                len == data@.len(),
                data@ == self.postings_bytes(),
                pos == offset + 6 * k,
                pos <= len,
                entries@ == decode_list(data@, offset as int, k as int),
                self.posting_list(hash) == posting_list_in(self.lookup_bytes(), data@, hash),
                table_lookup(self.lookup_bytes(), hash) == Some((offset, length)),
                length > 0,
        {
            let file_id = match get_u32(data, pos) {
                Ok(v) => v,
                Err(e) => {
                    return Err(IndexError::Io(e));
                },
            };
            let loc_mask = match get_u8(data, pos + 4) {
                Ok(v) => v,
                Err(e) => {
                    return Err(IndexError::Io(e));
                },
            };
            let next_mask = match get_u8(data, pos + 5) {
                Ok(v) => v,
                Err(e) => {
                    return Err(IndexError::Io(e));
                },
            };
            entries.push(PostingEntry { file_id, loc_mask, next_mask });
            proof {
                assert(entries@ =~= decode_list(data@, offset as int, k + 1));
            }
            pos = pos + 6;
        }
        Ok(entries)
    }

    /// Get the relative path for a file ID.
    pub fn file_path(&self, file_id: u32) -> (path: &str)
        requires
            file_id < self.file_table().len(),
        ensures
            path@ == self.file_table()[file_id as int]@,
    {
        self.files[file_id as usize].as_str()
    }
}

/// The file table decoded from the path bytes `raw`: same length, each path
/// decoded leniently, and exactly when it is valid UTF-8.
pub open spec fn decodes_paths(files: Seq<String>, raw: Seq<Seq<u8>>) -> bool {
    &&& files.len() == raw.len()
    &&& forall|i: int| 0 <= i < raw.len() ==> #[trigger] files[i]@ == utf8_lossy(raw[i])
    &&& forall|i: int| 0 <= i < raw.len() && valid_utf8(#[trigger] raw[i]) ==> files[i]@ == decode_utf8(raw[i])
}

/// Read the files.bin table into a Vec<String>.
pub fn read_files_bin(data: &[u8]) -> (res: Result<Vec<String>, IndexError>)
    ensures
        parse_files_bin(data@) matches Some(raw) ==> res is Ok && decodes_paths(res.unwrap()@, raw),
        parse_files_bin(data@) is None ==> res matches Err(IndexError::Io(_)),
{
    let len = data.len();
    let mut files: Vec<String> = Vec::new();
    let ghost mut raw: Seq<Seq<u8>> = Seq::empty();
    let mut pos: usize = 0;
    assert(data@.skip(0) =~= data@);
    assert(raw + Seq::<Seq<u8>>::empty() =~= raw);
    while pos < len
        invariant
            len == data@.len(),
            pos <= len,
            decodes_paths(files@, raw),
            parse_files_bin(data@) == prepend_paths(raw, parse_files_bin(data@.skip(pos as int))),
        decreases len - pos,
    {
        let ghost d = data@.skip(pos as int);
        let _file_id = match get_u32(data, pos) {
            Ok(v) => v,
            Err(e) => {
                return Err(IndexError::Io(e));
            },
        };
        let path_len = match get_u16(data, pos + 4) {
            Ok(v) => v,
            Err(e) => {
                return Err(IndexError::Io(e));
            },
        };
        assert(path_len == le_u16_at(d, 4));
        let path_bytes = match get_bytes(data, pos + 6, path_len as usize) {
            Ok(v) => v,
            Err(e) => {
                return Err(IndexError::Io(e));
            },
        };
        let path = lossy_string(path_bytes.as_slice());
        files.push(path);
        proof {
            let n = path_len as int;
            let rec = d.subrange(6, 6 + n);
            assert(path_bytes@ =~= rec);
            assert(d.skip(6 + n) =~= data@.skip(pos + 6 + n));
            let old_raw = raw;
            raw = raw.push(rec);
            if parse_files_bin(d.skip(6 + n)) is Some {
                let rest = parse_files_bin(d.skip(6 + n)).unwrap();
                assert(old_raw + (seq![rec] + rest) =~= raw + rest);
            }
        }
        pos = pos + 6 + path_len as usize;
    }
    proof {
        assert(data@.skip(len as int) =~= Seq::<u8>::empty());
        assert(raw + Seq::<Seq<u8>>::empty() =~= raw);
    }
    Ok(files)
}

} // verus!