use vstd::prelude::*;
use vstd::utf8::encode_utf8;

verus! {

/// Known binary file extensions to skip during indexing.
pub open spec fn binary_extension_names() -> Seq<Seq<char>> {
    seq![
        "png"@, "jpg"@, "jpeg"@, "gif"@, "bmp"@, "ico"@, "svg"@, "webp"@,
        "wasm"@, "exe"@, "dll"@, "so"@, "dylib"@, "o"@, "a"@, "lib"@,
        "zip"@, "gz"@, "tar"@, "bz2"@, "xz"@, "zst"@, "7z"@, "rar"@,
        "pdf"@, "doc"@, "docx"@, "xls"@, "xlsx"@, "ppt"@, "pptx"@,
        "class"@, "pyc"@, "pyo"@, "whl"@, "egg"@,
        "ttf"@, "otf"@, "woff"@, "woff2"@, "eot"@,
        "mp3"@, "mp4"@, "avi"@, "mkv"@, "mov"@, "wav"@, "flac"@,
        "bin"@, "dat"@, "db"@, "sqlite"@, "sqlite3"@,
        "DS_Store"@,
    ]
}

/// The known binary extensions, in the order `binary_extension_names` lists them.
fn binary_extensions() -> (v: Vec<&'static str>)
    ensures
        v@.map_values(|s: &str| s@) == binary_extension_names(),
{
    let v = vec![
        "png", "jpg", "jpeg", "gif", "bmp", "ico", "svg", "webp",
        "wasm", "exe", "dll", "so", "dylib", "o", "a", "lib",
        "zip", "gz", "tar", "bz2", "xz", "zst", "7z", "rar",
        "pdf", "doc", "docx", "xls", "xlsx", "ppt", "pptx",
        "class", "pyc", "pyo", "whl", "egg",
        "ttf", "otf", "woff", "woff2", "eot",
        "mp3", "mp4", "avi", "mkv", "mov", "wav", "flac",
        "bin", "dat", "db", "sqlite", "sqlite3",
        "DS_Store",
    ];
    assert(v@.map_values(|s: &str| s@) =~= binary_extension_names());
    v
}

/// The ASCII lower-case form of a byte (other bytes unchanged).
pub open spec fn ascii_lower(b: u8) -> u8 {
    if 65 <= b <= 90 {
        (b + 32) as u8
    } else {
        b
    }
}

/// Two byte strings are equal up to ASCII case.
pub open spec fn eq_ignore_ascii_case(a: Seq<u8>, b: Seq<u8>) -> bool {
    a.len() == b.len() && forall|i: int| 0 <= i < a.len() ==> ascii_lower(#[trigger] a[i]) == ascii_lower(b[i])
}

/// The extension names a known binary format, compared without regard to
/// ASCII case.
pub open spec fn is_binary_extension_spec(ext: Seq<char>) -> bool {
    exists|k: int|
        0 <= k < binary_extension_names().len() && eq_ignore_ascii_case(
            encode_utf8(ext),
            encode_utf8(#[trigger] binary_extension_names()[k]),
        )
}

/// Each of the known binary formats is recognised by its extension, in any
/// ASCII case: png, jpg, jpeg, gif, bmp, ico, svg, webp, wasm, exe, dll, so,
/// dylib, o, a, lib, zip, gz, tar, bz2, xz, zst, 7z, rar, pdf, doc, docx,
/// xls, xlsx, ppt, pptx, class, pyc, pyo, whl, egg, ttf, otf, woff, woff2,
/// eot, mp3, mp4, avi, mkv, mov, wav, flac, bin, dat, db, sqlite, sqlite3 and
/// DS_Store; and no other extension is.
#[verifier::spinoff_prover]
pub proof fn lemma_known_binary_extensions(e: Seq<char>)
    ensures
        eq_ignore_ascii_case(encode_utf8(e), encode_utf8("png"@)) ==> is_binary_extension_spec(e),
        eq_ignore_ascii_case(encode_utf8(e), encode_utf8("jpg"@)) ==> is_binary_extension_spec(e),
        eq_ignore_ascii_case(encode_utf8(e), encode_utf8("jpeg"@)) ==> is_binary_extension_spec(e),
        eq_ignore_ascii_case(encode_utf8(e), encode_utf8("gif"@)) ==> is_binary_extension_spec(e),
        eq_ignore_ascii_case(encode_utf8(e), encode_utf8("bmp"@)) ==> is_binary_extension_spec(e),
        eq_ignore_ascii_case(encode_utf8(e), encode_utf8("ico"@)) ==> is_binary_extension_spec(e),
        eq_ignore_ascii_case(encode_utf8(e), encode_utf8("svg"@)) ==> is_binary_extension_spec(e),
        eq_ignore_ascii_case(encode_utf8(e), encode_utf8("webp"@)) ==> is_binary_extension_spec(e),
        eq_ignore_ascii_case(encode_utf8(e), encode_utf8("wasm"@)) ==> is_binary_extension_spec(e),
        eq_ignore_ascii_case(encode_utf8(e), encode_utf8("exe"@)) ==> is_binary_extension_spec(e),
        eq_ignore_ascii_case(encode_utf8(e), encode_utf8("dll"@)) ==> is_binary_extension_spec(e),
        eq_ignore_ascii_case(encode_utf8(e), encode_utf8("so"@)) ==> is_binary_extension_spec(e),
        eq_ignore_ascii_case(encode_utf8(e), encode_utf8("dylib"@)) ==> is_binary_extension_spec(e),
        eq_ignore_ascii_case(encode_utf8(e), encode_utf8("o"@)) ==> is_binary_extension_spec(e),
        eq_ignore_ascii_case(encode_utf8(e), encode_utf8("a"@)) ==> is_binary_extension_spec(e),
        eq_ignore_ascii_case(encode_utf8(e), encode_utf8("lib"@)) ==> is_binary_extension_spec(e),
        eq_ignore_ascii_case(encode_utf8(e), encode_utf8("zip"@)) ==> is_binary_extension_spec(e),
        eq_ignore_ascii_case(encode_utf8(e), encode_utf8("gz"@)) ==> is_binary_extension_spec(e),
        eq_ignore_ascii_case(encode_utf8(e), encode_utf8("tar"@)) ==> is_binary_extension_spec(e),
        eq_ignore_ascii_case(encode_utf8(e), encode_utf8("bz2"@)) ==> is_binary_extension_spec(e),
        eq_ignore_ascii_case(encode_utf8(e), encode_utf8("xz"@)) ==> is_binary_extension_spec(e),
        eq_ignore_ascii_case(encode_utf8(e), encode_utf8("zst"@)) ==> is_binary_extension_spec(e),
        eq_ignore_ascii_case(encode_utf8(e), encode_utf8("7z"@)) ==> is_binary_extension_spec(e),
        eq_ignore_ascii_case(encode_utf8(e), encode_utf8("rar"@)) ==> is_binary_extension_spec(e),
        eq_ignore_ascii_case(encode_utf8(e), encode_utf8("pdf"@)) ==> is_binary_extension_spec(e),
        eq_ignore_ascii_case(encode_utf8(e), encode_utf8("doc"@)) ==> is_binary_extension_spec(e),
        eq_ignore_ascii_case(encode_utf8(e), encode_utf8("docx"@)) ==> is_binary_extension_spec(e),
        eq_ignore_ascii_case(encode_utf8(e), encode_utf8("xls"@)) ==> is_binary_extension_spec(e),
        eq_ignore_ascii_case(encode_utf8(e), encode_utf8("xlsx"@)) ==> is_binary_extension_spec(e),
        eq_ignore_ascii_case(encode_utf8(e), encode_utf8("ppt"@)) ==> is_binary_extension_spec(e),
        eq_ignore_ascii_case(encode_utf8(e), encode_utf8("pptx"@)) ==> is_binary_extension_spec(e),
        eq_ignore_ascii_case(encode_utf8(e), encode_utf8("class"@)) ==> is_binary_extension_spec(e),
        eq_ignore_ascii_case(encode_utf8(e), encode_utf8("pyc"@)) ==> is_binary_extension_spec(e),
        eq_ignore_ascii_case(encode_utf8(e), encode_utf8("pyo"@)) ==> is_binary_extension_spec(e),
        eq_ignore_ascii_case(encode_utf8(e), encode_utf8("whl"@)) ==> is_binary_extension_spec(e),
        eq_ignore_ascii_case(encode_utf8(e), encode_utf8("egg"@)) ==> is_binary_extension_spec(e),
        eq_ignore_ascii_case(encode_utf8(e), encode_utf8("ttf"@)) ==> is_binary_extension_spec(e),
        eq_ignore_ascii_case(encode_utf8(e), encode_utf8("otf"@)) ==> is_binary_extension_spec(e),
        eq_ignore_ascii_case(encode_utf8(e), encode_utf8("woff"@)) ==> is_binary_extension_spec(e),
        eq_ignore_ascii_case(encode_utf8(e), encode_utf8("woff2"@)) ==> is_binary_extension_spec(e),
        eq_ignore_ascii_case(encode_utf8(e), encode_utf8("eot"@)) ==> is_binary_extension_spec(e),
        eq_ignore_ascii_case(encode_utf8(e), encode_utf8("mp3"@)) ==> is_binary_extension_spec(e),
        eq_ignore_ascii_case(encode_utf8(e), encode_utf8("mp4"@)) ==> is_binary_extension_spec(e),
        eq_ignore_ascii_case(encode_utf8(e), encode_utf8("avi"@)) ==> is_binary_extension_spec(e),
        eq_ignore_ascii_case(encode_utf8(e), encode_utf8("mkv"@)) ==> is_binary_extension_spec(e),
        eq_ignore_ascii_case(encode_utf8(e), encode_utf8("mov"@)) ==> is_binary_extension_spec(e),
        eq_ignore_ascii_case(encode_utf8(e), encode_utf8("wav"@)) ==> is_binary_extension_spec(e),
        eq_ignore_ascii_case(encode_utf8(e), encode_utf8("flac"@)) ==> is_binary_extension_spec(e),
        eq_ignore_ascii_case(encode_utf8(e), encode_utf8("bin"@)) ==> is_binary_extension_spec(e),
        eq_ignore_ascii_case(encode_utf8(e), encode_utf8("dat"@)) ==> is_binary_extension_spec(e),
        eq_ignore_ascii_case(encode_utf8(e), encode_utf8("db"@)) ==> is_binary_extension_spec(e),
        eq_ignore_ascii_case(encode_utf8(e), encode_utf8("sqlite"@)) ==> is_binary_extension_spec(e),
        eq_ignore_ascii_case(encode_utf8(e), encode_utf8("sqlite3"@)) ==> is_binary_extension_spec(e),
        eq_ignore_ascii_case(encode_utf8(e), encode_utf8("DS_Store"@)) ==> is_binary_extension_spec(e),
        is_binary_extension_spec(e) ==> {
            ||| eq_ignore_ascii_case(encode_utf8(e), encode_utf8("png"@))
            ||| eq_ignore_ascii_case(encode_utf8(e), encode_utf8("jpg"@))
            ||| eq_ignore_ascii_case(encode_utf8(e), encode_utf8("jpeg"@))
            ||| eq_ignore_ascii_case(encode_utf8(e), encode_utf8("gif"@))
            ||| eq_ignore_ascii_case(encode_utf8(e), encode_utf8("bmp"@))
            ||| eq_ignore_ascii_case(encode_utf8(e), encode_utf8("ico"@))
            ||| eq_ignore_ascii_case(encode_utf8(e), encode_utf8("svg"@))
            ||| eq_ignore_ascii_case(encode_utf8(e), encode_utf8("webp"@))
            ||| eq_ignore_ascii_case(encode_utf8(e), encode_utf8("wasm"@))
            ||| eq_ignore_ascii_case(encode_utf8(e), encode_utf8("exe"@))
            ||| eq_ignore_ascii_case(encode_utf8(e), encode_utf8("dll"@))
            ||| eq_ignore_ascii_case(encode_utf8(e), encode_utf8("so"@))
            ||| eq_ignore_ascii_case(encode_utf8(e), encode_utf8("dylib"@))
            ||| eq_ignore_ascii_case(encode_utf8(e), encode_utf8("o"@))
            ||| eq_ignore_ascii_case(encode_utf8(e), encode_utf8("a"@))
            ||| eq_ignore_ascii_case(encode_utf8(e), encode_utf8("lib"@))
            ||| eq_ignore_ascii_case(encode_utf8(e), encode_utf8("zip"@))
            ||| eq_ignore_ascii_case(encode_utf8(e), encode_utf8("gz"@))
            ||| eq_ignore_ascii_case(encode_utf8(e), encode_utf8("tar"@))
            ||| eq_ignore_ascii_case(encode_utf8(e), encode_utf8("bz2"@))
            ||| eq_ignore_ascii_case(encode_utf8(e), encode_utf8("xz"@))
            ||| eq_ignore_ascii_case(encode_utf8(e), encode_utf8("zst"@))
            ||| eq_ignore_ascii_case(encode_utf8(e), encode_utf8("7z"@))
            ||| eq_ignore_ascii_case(encode_utf8(e), encode_utf8("rar"@))
            ||| eq_ignore_ascii_case(encode_utf8(e), encode_utf8("pdf"@))
            ||| eq_ignore_ascii_case(encode_utf8(e), encode_utf8("doc"@))
            ||| eq_ignore_ascii_case(encode_utf8(e), encode_utf8("docx"@))
            ||| eq_ignore_ascii_case(encode_utf8(e), encode_utf8("xls"@))
            ||| eq_ignore_ascii_case(encode_utf8(e), encode_utf8("xlsx"@))
            ||| eq_ignore_ascii_case(encode_utf8(e), encode_utf8("ppt"@))
            ||| eq_ignore_ascii_case(encode_utf8(e), encode_utf8("pptx"@))
            ||| eq_ignore_ascii_case(encode_utf8(e), encode_utf8("class"@))
            ||| eq_ignore_ascii_case(encode_utf8(e), encode_utf8("pyc"@))
            ||| eq_ignore_ascii_case(encode_utf8(e), encode_utf8("pyo"@))
            ||| eq_ignore_ascii_case(encode_utf8(e), encode_utf8("whl"@))
            ||| eq_ignore_ascii_case(encode_utf8(e), encode_utf8("egg"@))
            ||| eq_ignore_ascii_case(encode_utf8(e), encode_utf8("ttf"@))
            ||| eq_ignore_ascii_case(encode_utf8(e), encode_utf8("otf"@))
            ||| eq_ignore_ascii_case(encode_utf8(e), encode_utf8("woff"@))
            ||| eq_ignore_ascii_case(encode_utf8(e), encode_utf8("woff2"@))
            ||| eq_ignore_ascii_case(encode_utf8(e), encode_utf8("eot"@))
            ||| eq_ignore_ascii_case(encode_utf8(e), encode_utf8("mp3"@))
            ||| eq_ignore_ascii_case(encode_utf8(e), encode_utf8("mp4"@))
            ||| eq_ignore_ascii_case(encode_utf8(e), encode_utf8("avi"@))
            ||| eq_ignore_ascii_case(encode_utf8(e), encode_utf8("mkv"@))
            ||| eq_ignore_ascii_case(encode_utf8(e), encode_utf8("mov"@))
            ||| eq_ignore_ascii_case(encode_utf8(e), encode_utf8("wav"@))
            ||| eq_ignore_ascii_case(encode_utf8(e), encode_utf8("flac"@))
            ||| eq_ignore_ascii_case(encode_utf8(e), encode_utf8("bin"@))
            ||| eq_ignore_ascii_case(encode_utf8(e), encode_utf8("dat"@))
            ||| eq_ignore_ascii_case(encode_utf8(e), encode_utf8("db"@))
            ||| eq_ignore_ascii_case(encode_utf8(e), encode_utf8("sqlite"@))
            ||| eq_ignore_ascii_case(encode_utf8(e), encode_utf8("sqlite3"@))
            ||| eq_ignore_ascii_case(encode_utf8(e), encode_utf8("DS_Store"@))
        },
{
    assert(binary_extension_names()[0] == "png"@);
    assert(binary_extension_names()[1] == "jpg"@);
    assert(binary_extension_names()[2] == "jpeg"@);
    assert(binary_extension_names()[3] == "gif"@);
    assert(binary_extension_names()[4] == "bmp"@);
    assert(binary_extension_names()[5] == "ico"@);
    assert(binary_extension_names()[6] == "svg"@);
    assert(binary_extension_names()[7] == "webp"@);
    assert(binary_extension_names()[8] == "wasm"@);
    assert(binary_extension_names()[9] == "exe"@);
    assert(binary_extension_names()[10] == "dll"@);
    assert(binary_extension_names()[11] == "so"@);
    assert(binary_extension_names()[12] == "dylib"@);
    assert(binary_extension_names()[13] == "o"@);
    assert(binary_extension_names()[14] == "a"@);
    assert(binary_extension_names()[15] == "lib"@);
    assert(binary_extension_names()[16] == "zip"@);
    assert(binary_extension_names()[17] == "gz"@);
    assert(binary_extension_names()[18] == "tar"@);
    assert(binary_extension_names()[19] == "bz2"@);
    assert(binary_extension_names()[20] == "xz"@);
    assert(binary_extension_names()[21] == "zst"@);
    assert(binary_extension_names()[22] == "7z"@);
    assert(binary_extension_names()[23] == "rar"@);
    assert(binary_extension_names()[24] == "pdf"@);
    assert(binary_extension_names()[25] == "doc"@);
    assert(binary_extension_names()[26] == "docx"@);
    assert(binary_extension_names()[27] == "xls"@);
    assert(binary_extension_names()[28] == "xlsx"@);
    assert(binary_extension_names()[29] == "ppt"@);
    assert(binary_extension_names()[30] == "pptx"@);
    assert(binary_extension_names()[31] == "class"@);
    assert(binary_extension_names()[32] == "pyc"@);
    assert(binary_extension_names()[33] == "pyo"@);
    assert(binary_extension_names()[34] == "whl"@);
    assert(binary_extension_names()[35] == "egg"@);
    assert(binary_extension_names()[36] == "ttf"@);
    assert(binary_extension_names()[37] == "otf"@);
    assert(binary_extension_names()[38] == "woff"@);
    assert(binary_extension_names()[39] == "woff2"@);
    assert(binary_extension_names()[40] == "eot"@);
    assert(binary_extension_names()[41] == "mp3"@);
    assert(binary_extension_names()[42] == "mp4"@);
    assert(binary_extension_names()[43] == "avi"@);
    assert(binary_extension_names()[44] == "mkv"@);
    assert(binary_extension_names()[45] == "mov"@);
    assert(binary_extension_names()[46] == "wav"@);
    assert(binary_extension_names()[47] == "flac"@);
    assert(binary_extension_names()[48] == "bin"@);
    assert(binary_extension_names()[49] == "dat"@);
    assert(binary_extension_names()[50] == "db"@);
    assert(binary_extension_names()[51] == "sqlite"@);
    assert(binary_extension_names()[52] == "sqlite3"@);
    assert(binary_extension_names()[53] == "DS_Store"@);
    assert(binary_extension_names().len() == 54);
}

/// `a` and `b` are equal up to ASCII case, as `str::eq_ignore_ascii_case`
/// compares them.
fn str_eq_ignore_ascii_case(a: &str, b: &str) -> (res: bool)
    ensures
        res == eq_ignore_ascii_case(encode_utf8(a@), encode_utf8(b@)),
{
    let x = a.as_bytes();
    let y = b.as_bytes();
    if x.len() != y.len() {
        return false;
    }
    for i in 0..x.len()
        invariant
            x@ == encode_utf8(a@),
            y@ == encode_utf8(b@),
            x@.len() == y@.len(),
            forall|j: int| 0 <= j < i ==> ascii_lower(#[trigger] x@[j]) == ascii_lower(y@[j]),
    {
        let p = x[i];
        let q = y[i];
        let lp = if 65 <= p && p <= 90 {
            p + 32
        } else {
            p
        };
        let lq = if 65 <= q && q <= 90 {
            q + 32
        } else {
            q
        };
        if lp != lq {
            return false;
        }
    }
    true
}

/// Check whether an extension (without the dot) is a known binary extension.
pub fn is_binary_extension_name(ext: &str) -> (res: bool)
    ensures
        res == is_binary_extension_spec(ext@),
{
    let names = binary_extensions();
    let ghost spec_names = binary_extension_names();
    for k in 0..names.len()
        invariant
            names@.map_values(|s: &str| s@) == spec_names,
            spec_names == binary_extension_names(),
            forall|j: int| 0 <= j < k ==> !eq_ignore_ascii_case(
                encode_utf8(ext@),
                encode_utf8(#[trigger] spec_names[j]),
            ),
    {
        assert(names@[k as int]@ == spec_names[k as int]);
        if str_eq_ignore_ascii_case(ext, names[k]) {
            return true;
        }
    }
    false
}

/// The extension that `std::path::Path::extension` finds in the path text
/// `path` (the part of the file name after its last `.`, for the path syntax
/// of the target the library is built for), or `None` where it finds none.
pub uninterp spec fn path_extension(path: Seq<char>) -> Option<Seq<char>>;

/// Calls `Path::extension` on `path` and reads the result as UTF-8
/// (`OsStr::to_str`). An extension of a `&str` path is a piece of that text,
/// so it is valid UTF-8 and comes back whole: the result is the named
/// extension, `None` exactly where there is none.
#[verifier::external_body]
fn extension_of_str(path: &str) -> (res: Option<String>)
    ensures
        match res {
            Some(e) => path_extension(path@) == Some(e@),
            None => path_extension(path@) is None,
        },
{
    match std::path::Path::new(path).extension() {
        Some(e) => match e.to_str() {
            Some(s) => Some(s.to_string()),
            None => None,
        },
        None => None,
    }
}

/// Check if a file path has a known binary extension: its extension, compared
/// without regard to ASCII case, is one of `binary_extension_names`. A path
/// without an extension is not binary by name.
pub fn is_binary_extension(path: &str) -> (res: bool)
    ensures
        res == (path_extension(path@) matches Some(e) && is_binary_extension_spec(e)),
{
    match extension_of_str(path) {
        Some(ext) => is_binary_extension_name(ext.as_str()),
        None => false,
    }
}

/// The first at most 8192 bytes of `content` hold a NUL byte.
pub open spec fn has_nul_prefix(content: Seq<u8>) -> bool {
    exists|i: int| 0 <= i < content.len() && i < 8192 && content[i] == 0
}

/// Check if content appears to be binary by looking for NUL bytes in the first 8KB.
pub fn is_binary_content(content: &[u8]) -> (res: bool)
    ensures
        res == has_nul_prefix(content@),
{
    let check_len = if content.len() < 8192 {
        content.len()
    } else {
        8192
    };
    for i in 0..check_len
        invariant
            check_len <= content@.len(),
            check_len <= 8192,
            check_len == content@.len() || check_len == 8192,
            forall|j: int| 0 <= j < i ==> content@[j] != 0,
    {
        if content[i] == 0 {
            return true;
        }
    }
    false
}

/// Collected file entry from walking the directory tree.
pub struct FileEntry {
    pub relative_path: String,
    pub content: Vec<u8>,
}

} // verus!
