use std::collections::HashMap;
use trigrep_index::builder::IndexBuilder;
use trigrep_index::error::IndexError;
use trigrep_index::meta::{head_from_git_output, timestamp_from_date_output, IndexMeta, INDEX_VERSION};
use trigrep_index::ondisk::{encode_index, EncodedIndex};
use trigrep_index::query::execute;
use trigrep_index::reader::{read_files_bin, IndexReader};
use trigrep_index::trigram::extract_trigrams;
use trigrep_index::types::{trigram_hash, PostingEntry, QueryPlan, TrigramQuery};

fn meta() -> IndexMeta {
    IndexMeta {
        version: INDEX_VERSION,
        created_at: "2024-01-01T00:00:00Z".to_string(),
        repo_root: "/repo".to_string(),
        num_files: 0,
        num_trigrams: 0,
        index_size_bytes: 0,
        git_head: None,
    }
}

fn build(files: &[(&str, &[u8])]) -> IndexBuilder {
    let mut b = IndexBuilder::new();
    for (path, content) in files {
        b.add_file(path.to_string(), extract_trigrams(content));
    }
    b
}

fn reader_for(enc: &EncodedIndex) -> IndexReader<'_> {
    let files = read_files_bin(&enc.files).unwrap();
    IndexReader::from_parts(&enc.lookup, &enc.postings, files, meta())
}

fn q(h: u32) -> TrigramQuery {
    TrigramQuery { hash: h, expected_next: None }
}

#[test]
fn builder_assigns_file_ids_in_order() {
    let b = build(&[("a.rs", b"abcd"), ("b.rs", b"xabc")]);
    assert_eq!(b.num_files(), 2);
    assert_eq!(b.num_trigrams(), 3);
    let abc = trigram_hash(b'a', b'b', b'c');
    let list = &b.postings[&abc];
    assert_eq!(list.len(), 2);
    assert_eq!(list[0], PostingEntry { file_id: 0, loc_mask: 1, next_mask: 1 << trigrep_index::bloom_hash(b'd') });
    assert_eq!(list[1], PostingEntry { file_id: 1, loc_mask: 2, next_mask: 0 });
    assert_eq!(b.files, vec!["a.rs".to_string(), "b.rs".to_string()]);
}

#[test]
fn encode_single_trigram_exact_bytes() {
    let b = build(&[("f", b"abc")]);
    let enc = encode_index(&b);
    assert_eq!(enc.postings, vec![0, 0, 0, 0, 1, 0]);
    assert_eq!(enc.lookup, vec![0x63, 0x62, 0x61, 0, 0, 0, 0, 0, 0, 0, 0, 0, 1, 0, 0, 0]);
    assert_eq!(enc.files, vec![0, 0, 0, 0, 1, 0, b'f']);
    assert_eq!(enc.num_files, 1);
    assert_eq!(enc.num_trigrams, 1);
    let m = enc.meta("t".to_string(), "/r".to_string(), Some("abc".to_string()));
    assert_eq!(m.version, 1);
    assert_eq!(m.index_size_bytes, 6 + 16 + 7);
    assert_eq!(m.num_files, 1);
    assert_eq!(m.num_trigrams, 1);
    assert_eq!(m.git_head.as_deref(), Some("abc"));
}

#[test]
fn lookup_table_is_sorted_by_hash() {
    let b = build(&[("a", b"zzzabc"), ("b", b"mmm")]);
    let enc = encode_index(&b);
    let n = enc.lookup.len() / 16;
    assert_eq!(n, 5);
    let mut prev = None;
    for i in 0..n {
        let h = u32::from_le_bytes(enc.lookup[16 * i..16 * i + 4].try_into().unwrap());
        if let Some(p) = prev {
            assert!(p < h);
        }
        prev = Some(h);
    }
}

#[test]
fn reader_reads_back_every_posting_list() {
    let files: Vec<(&str, &[u8])> = vec![
        ("src/main.rs", b"fn main() { println!(\"hi\"); }"),
        ("src/lib.rs", b"pub fn main_loop() {}"),
        ("README.md", b"main documentation"),
    ];
    let b = build(&files);
    let enc = encode_index(&b);
    let mut r = reader_for(&enc);
    assert_eq!(r.num_files(), 3);
    assert_eq!(r.file_path(1), "src/lib.rs");
    for (h, list) in b.postings.iter() {
        assert_eq!(&r.read_posting_list(*h).unwrap(), list);
        assert!(r.lookup(*h).is_some());
    }
    let absent = trigram_hash(b'Q', b'Q', b'Q');
    assert_eq!(r.lookup(absent), None);
    assert!(r.read_posting_list(absent).unwrap().is_empty());
}

#[test]
fn files_table_roundtrip() {
    let files = vec!["a.rs".to_string(), "dir/ünïcode.txt".to_string(), String::new()];
    let mut b = IndexBuilder::new();
    for f in &files {
        b.add_file(f.clone(), HashMap::new());
    }
    let enc = encode_index(&b);
    assert_eq!(read_files_bin(&enc.files).unwrap(), files);
}

#[test]
fn files_table_truncated_is_io_error() {
    assert!(matches!(read_files_bin(&[0, 0, 0, 0, 5, 0, b'a']), Err(IndexError::Io(_))));
    assert!(matches!(read_files_bin(&[0, 0, 0]), Err(IndexError::Io(_))));
    assert!(matches!(read_files_bin(&[0, 0, 0, 0, 1]), Err(IndexError::Io(_))));
    assert_eq!(read_files_bin(&[]).unwrap(), Vec::<String>::new());
}

#[test]
fn files_table_invalid_utf8_is_decoded_lossily() {
    let files = read_files_bin(&[7, 0, 0, 0, 2, 0, b'a', 0xff]).unwrap();
    assert_eq!(files, vec!["a\u{FFFD}".to_string()]);
}

#[test]
fn truncated_postings_give_io_error() {
    let b = build(&[("f", b"abcd")]);
    let enc = encode_index(&b);
    let mut postings = enc.postings.clone();
    postings.pop();
    let mut r = IndexReader::from_parts(&enc.lookup, &postings, vec!["f".to_string()], meta());
    let abc = trigram_hash(b'a', b'b', b'c');
    assert_eq!(r.read_posting_list(abc).unwrap().len(), 1);
    let bcd = trigram_hash(b'b', b'c', b'd');
    assert!(matches!(r.read_posting_list(bcd), Err(IndexError::Io(_))));
}

#[test]
fn lookup_on_handmade_table() {
    let mut lookup = Vec::new();
    for (h, off, len) in [(5u32, 0u64, 1u32), (9, 6, 2), (12, 18, 0)] {
        lookup.extend_from_slice(&h.to_le_bytes());
        lookup.extend_from_slice(&off.to_le_bytes());
        lookup.extend_from_slice(&len.to_le_bytes());
    }
    lookup.push(0xAA); // a trailing partial entry is ignored
    let postings = vec![1, 0, 0, 0, 3, 4, 2, 0, 0, 0, 5, 6, 3, 0, 0, 0, 7, 8];
    let mut r = IndexReader::from_parts(&lookup, &postings, vec![], meta());
    assert_eq!(r.lookup(5), Some((0, 1)));
    assert_eq!(r.lookup(9), Some((6, 2)));
    assert_eq!(r.lookup(12), Some((18, 0)));
    assert_eq!(r.lookup(7), None);
    assert_eq!(
        r.read_posting_list(9).unwrap(),
        vec![
            PostingEntry { file_id: 2, loc_mask: 5, next_mask: 6 },
            PostingEntry { file_id: 3, loc_mask: 7, next_mask: 8 },
        ]
    );
    assert!(r.read_posting_list(12).unwrap().is_empty());
}

#[test]
fn execute_and_or_matchall() {
    let b = build(&[("a", b"hello world"), ("b", b"help me"), ("c", b"world peace"), ("d", b"xyz")]);
    let enc = encode_index(&b);
    let mut r = reader_for(&enc);
    let hel = trigram_hash(b'h', b'e', b'l');
    let llo = trigram_hash(b'l', b'l', b'o');
    let wor = trigram_hash(b'w', b'o', b'r');
    let absent = trigram_hash(b'Q', b'Q', b'Q');
    assert_eq!(execute(&mut r, &QueryPlan::MatchAll).unwrap(), vec![0, 1, 2, 3]);
    assert_eq!(execute(&mut r, &QueryPlan::And(vec![])).unwrap(), vec![0, 1, 2, 3]);
    assert_eq!(execute(&mut r, &QueryPlan::And(vec![q(hel)])).unwrap(), vec![0, 1]);
    assert_eq!(execute(&mut r, &QueryPlan::And(vec![q(hel), q(llo)])).unwrap(), vec![0]);
    assert_eq!(execute(&mut r, &QueryPlan::And(vec![q(hel), q(absent)])).unwrap(), Vec::<u32>::new());
    let or = QueryPlan::Or(vec![QueryPlan::And(vec![q(llo)]), QueryPlan::And(vec![q(wor)])]);
    assert_eq!(execute(&mut r, &or).unwrap(), vec![0, 2]);
    assert_eq!(execute(&mut r, &QueryPlan::Or(vec![])).unwrap(), Vec::<u32>::new());
    let nested = QueryPlan::Or(vec![or.clone(), QueryPlan::And(vec![q(hel)])]);
    assert_eq!(execute(&mut r, &nested).unwrap(), vec![0, 1, 2]);
}

#[test]
fn execute_reports_read_errors() {
    let b = build(&[("f", b"abcd")]);
    let enc = encode_index(&b);
    let mut r = IndexReader::from_parts(&enc.lookup, &[], vec!["f".to_string()], meta());
    let abc = trigram_hash(b'a', b'b', b'c');
    assert!(matches!(execute(&mut r, &QueryPlan::And(vec![q(abc)])), Err(IndexError::Io(_))));
    let or = QueryPlan::Or(vec![QueryPlan::MatchAll, QueryPlan::And(vec![q(abc)])]);
    assert!(matches!(execute(&mut r, &or), Err(IndexError::Io(_))));
}

#[test]
fn check_version_accepts_only_current() {
    let m = meta();
    assert!(m.check_version().is_ok());
    let mut old = meta();
    old.version = 2;
    match old.check_version() {
        Err(IndexError::VersionMismatch { found, expected }) => {
            assert_eq!(found, 2);
            assert_eq!(expected, 1);
        }
        _ => panic!("expected a version mismatch"),
    }
}

#[test]
fn git_and_date_output_parsing() {
    assert_eq!(head_from_git_output(true, b"  abc123\n".to_vec()), Some("abc123".to_string()));
    assert_eq!(head_from_git_output(false, b"abc123\n".to_vec()), None);
    assert_eq!(head_from_git_output(true, vec![0xff, 0xfe]), None);
    assert_eq!(timestamp_from_date_output(true, b"2024-05-01T10:00:00Z\n"), "2024-05-01T10:00:00Z");
    assert_eq!(timestamp_from_date_output(false, b"whatever"), "unknown");
    assert_eq!(timestamp_from_date_output(true, &[b' ', 0xff, b'\n']), "\u{FFFD}");
}

#[test]
fn inverted_index_is_exact() {
    let contents: Vec<&[u8]> = vec![b"abcabc", b"bcdx", b"", b"xyzabc", b"ab"];
    let files: Vec<(&str, &[u8])> = contents.iter().map(|c| ("f", *c)).collect();
    let b = build(&files);
    let tables: Vec<_> = contents.iter().map(|c| extract_trigrams(c)).collect();
    for (h, list) in b.postings.iter() {
        for w in list.windows(2) {
            assert!(w[0].file_id < w[1].file_id);
        }
        for (f, t) in tables.iter().enumerate() {
            let entry = list.iter().find(|e| e.file_id == f as u32);
            match t.get(h) {
                Some((loc, next)) => {
                    assert_eq!(entry, Some(&PostingEntry { file_id: f as u32, loc_mask: *loc, next_mask: *next }));
                }
                None => assert!(entry.is_none()),
            }
        }
    }
    for t in &tables {
        for h in t.keys() {
            assert!(b.postings.contains_key(h));
        }
    }
}

#[test]
fn and_query_matches_brute_force() {
    let contents: Vec<&[u8]> = vec![b"fn parse_args()", b"let args = parse();", b"parse tree", b"nothing here"];
    let files: Vec<(&str, &[u8])> = contents.iter().map(|c| ("f", *c)).collect();
    let b = build(&files);
    let enc = encode_index(&b);
    let mut r = reader_for(&enc);
    let queries: Vec<Vec<u32>> = vec![
        vec![trigram_hash(b'p', b'a', b'r')],
        vec![trigram_hash(b'p', b'a', b'r'), trigram_hash(b'a', b'r', b'g')],
        vec![trigram_hash(b'h', b'e', b'r'), trigram_hash(b'n', b'o', b't')],
        vec![trigram_hash(b'Z', b'Z', b'Z')],
    ];
    for hs in queries {
        let plan = QueryPlan::And(hs.iter().map(|h| q(*h)).collect());
        let expected: Vec<u32> = (0..contents.len() as u32)
            .filter(|f| {
                let t = extract_trigrams(contents[*f as usize]);
                hs.iter().all(|h| t.contains_key(h))
            })
            .collect();
        assert_eq!(execute(&mut r, &plan).unwrap(), expected);
    }
}

#[test]
fn git_head_trims_unicode_white_space_only() {
    let out = "\u{3000}\tab c\u{85}\u{2009}\n".as_bytes().to_vec();
    assert_eq!(head_from_git_output(true, out), Some("ab c".to_string()));
    let out = "\u{200B}x\u{FEFF}".as_bytes().to_vec();
    assert_eq!(head_from_git_output(true, out), Some("\u{200B}x\u{FEFF}".to_string()));
    assert_eq!(head_from_git_output(true, b" \n\t".to_vec()), Some(String::new()));
}

#[test]
fn and_narrows_and_or_widens_with_more_terms() {
    let b = build(&[("a", b"abcde"), ("b", b"abcxy"), ("c", b"bcdzz"), ("d", b"qqq")]);
    let enc = encode_index(&b);
    let mut r = reader_for(&enc);
    let abc = trigram_hash(b'a', b'b', b'c');
    let bcd = trigram_hash(b'b', b'c', b'd');
    let one = execute(&mut r, &QueryPlan::And(vec![q(abc)])).unwrap();
    let two = execute(&mut r, &QueryPlan::And(vec![q(abc), q(bcd)])).unwrap();
    assert_eq!(one, vec![0, 1]);
    assert_eq!(two, vec![0]);
    let or_one = execute(&mut r, &QueryPlan::Or(vec![QueryPlan::And(vec![q(abc)])])).unwrap();
    let or_two = execute(
        &mut r,
        &QueryPlan::Or(vec![QueryPlan::And(vec![q(abc)]), QueryPlan::And(vec![q(bcd)])]),
    )
    .unwrap();
    assert_eq!(or_one, vec![0, 1]);
    assert_eq!(or_two, vec![0, 1, 2]);
}

#[test]
fn term_order_does_not_change_results() {
    let b = build(&[("a", b"abcde"), ("b", b"abcxy"), ("c", b"bcdzz"), ("d", b"xyz")]);
    let enc = encode_index(&b);
    let mut r = reader_for(&enc);
    let abc = trigram_hash(b'a', b'b', b'c');
    let bcd = trigram_hash(b'b', b'c', b'd');
    let xyz = trigram_hash(b'x', b'y', b'z');
    let fwd = execute(&mut r, &QueryPlan::And(vec![q(abc), q(bcd)])).unwrap();
    let rev = execute(&mut r, &QueryPlan::And(vec![q(bcd), q(abc)])).unwrap();
    assert_eq!(fwd, rev);
    let o1 = execute(
        &mut r,
        &QueryPlan::Or(vec![QueryPlan::And(vec![q(xyz)]), QueryPlan::And(vec![q(bcd)]), QueryPlan::MatchAll]),
    )
    .unwrap();
    let o2 = execute(
        &mut r,
        &QueryPlan::Or(vec![QueryPlan::MatchAll, QueryPlan::And(vec![q(bcd)]), QueryPlan::And(vec![q(xyz)])]),
    )
    .unwrap();
    assert_eq!(o1, o2);
    assert_eq!(o1, vec![0, 1, 2, 3]);
}

#[test]
fn builder_lists_are_nonempty_sorted_with_masks() {
    let b = build(&[("a", b"abcabcabc"), ("b", b"zzzz"), ("c", b""), ("d", b"xabcx")]);
    assert!(!b.postings.is_empty());
    for list in b.postings.values() {
        assert!(!list.is_empty());
        for w in list.windows(2) {
            assert!(w[0].file_id < w[1].file_id);
        }
        for e in list {
            assert!(e.loc_mask != 0);
            assert!((e.file_id as usize) < b.files.len());
        }
    }
    for (_, (loc, _)) in extract_trigrams(b"hello, world") {
        assert!(loc != 0);
    }
}
