use vstd::prelude::*;
use vstd::utf8::{decode_utf8, valid_utf8};
use crate::error::IndexError;

verus! {

/// The on-disk format version this library reads and writes.
pub const INDEX_VERSION: u32 = 1;

/// The directory, under the repository root, that holds the index files.
pub const INDEX_DIR: &'static str = ".trigrep";

/// Index metadata, stored as meta.json.
#[derive(Debug, Clone)]
pub struct IndexMeta {
    pub version: u32,
    pub created_at: String,
    pub repo_root: String,
    pub num_files: u32,
    pub num_trigrams: u32,
    pub index_size_bytes: u64,
    pub git_head: Option<String>,
}

impl IndexMeta {
    /// Accept metadata only of the supported format version: this is what
    /// `read` decides after parsing meta.json.
    pub fn check_version(self) -> (res: Result<IndexMeta, IndexError>)
        ensures
            self.version == INDEX_VERSION <==> res is Ok,
            res matches Ok(m) ==> m == self,
            res matches Err(e) ==> e == (IndexError::VersionMismatch {
                found: self.version,
                expected: INDEX_VERSION,
            }),
    {
        if self.version != INDEX_VERSION {
            return Err(IndexError::VersionMismatch { found: self.version, expected: INDEX_VERSION });
        }
        Ok(self)
    }
}

/// The characters with the Unicode property White_Space, which is what
/// `char::is_whitespace` tests.
pub open spec fn is_white_space(c: char) -> bool {
    let n = c as u32;
    ||| 0x09 <= n <= 0x0D
    ||| n == 0x20
    ||| n == 0x85
    ||| n == 0xA0
    ||| n == 0x1680
    ||| 0x2000 <= n <= 0x200A
    ||| n == 0x2028
    ||| n == 0x2029
    ||| n == 0x202F
    ||| n == 0x205F
    ||| n == 0x3000
}

/// `s` without its leading white space.
pub open spec fn trim_front(s: Seq<char>) -> Seq<char>
    decreases s.len(),
{
    if s.len() > 0 && is_white_space(s[0]) {
        trim_front(s.drop_first())
    } else {
        s
    }
}

/// `s` without its trailing white space.
pub open spec fn trim_back(s: Seq<char>) -> Seq<char>
    decreases s.len(),
{
    if s.len() > 0 && is_white_space(s.last()) {
        trim_back(s.drop_last())
    } else {
        s
    }
}

/// What `str::trim` returns for a string: the string without leading and
/// trailing white space.
pub open spec fn trimmed(s: Seq<char>) -> Seq<char> {
    trim_back(trim_front(s))
}

/// What `String::from_utf8_lossy` returns for a byte string.
pub uninterp spec fn utf8_lossy(bytes: Seq<u8>) -> Seq<char>;

/// Calls `str::trim` and copies the result into a `String`.
/// Claimed: the result is `trimmed` of the input.
#[verifier::external_body]
pub(crate) fn trim_string(s: &str) -> (res: String)
    ensures
        res@ == trimmed(s@),
{
    s.trim().to_string()
}

/// Calls `String::from_utf8_lossy` and copies the result into a `String`.
/// Claimed: the result is `utf8_lossy` of the input, and for valid UTF-8 it
/// is the decoded text.
#[verifier::external_body]
pub(crate) fn lossy_string(bytes: &[u8]) -> (res: String)
    ensures
        res@ == utf8_lossy(bytes@),
        valid_utf8(bytes@) ==> res@ == decode_utf8(bytes@),
{
    String::from_utf8_lossy(bytes).into_owned()
}

/// Calls `String::from_utf8`.
/// Claimed: a string exactly when the bytes are valid UTF-8, and then the
/// decoded text.
#[verifier::external_body]
pub(crate) fn utf8_string(bytes: Vec<u8>) -> (res: Option<String>)
    ensures
        res is Some <==> valid_utf8(bytes@),
        res is Some ==> res.unwrap()@ == decode_utf8(bytes@),
{
    String::from_utf8(bytes).ok()
}

/// The commit hash that `git rev-parse HEAD` printed: its standard output,
/// trimmed, when the command succeeded and printed UTF-8; nothing otherwise.
pub fn head_from_git_output(success: bool, stdout: Vec<u8>) -> (res: Option<String>)
    ensures
        res is Some <==> success && valid_utf8(stdout@),
        res is Some ==> res.unwrap()@ == trimmed(decode_utf8(stdout@)),
{
    if !success {
        return None;
    }
    match utf8_string(stdout) {
        Some(s) => Some(trim_string(s.as_str())),
        None => None,
    }
}

/// The creation timestamp from the output of `date -u +%Y-%m-%dT%H:%M:%SZ`:
/// its standard output, decoded leniently and trimmed, when the command
/// succeeded; "unknown" otherwise.
pub fn timestamp_from_date_output(success: bool, stdout: &[u8]) -> (res: String)
    ensures
        success ==> res@ == trimmed(utf8_lossy(stdout@)),
        !success ==> res@ == seq!['u', 'n', 'k', 'n', 'o', 'w', 'n'],
{
    if success {
        let s = lossy_string(stdout);
        trim_string(s.as_str())
    } else {
        let r = String::from_str("unknown");
        proof {
            reveal_strlit("unknown");
        }
        r
    }
}

} // verus!
