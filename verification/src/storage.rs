//! The content-addressed storage layer: derivation of an item's storage key
//! from its absolute path, a high-resolution timestamp and its kind, and the
//! pure path helpers that locate a stored artifact and extract a file name.

use vstd::prelude::*;
use vstd::string::StrSliceExecFns;
use vstd::string::StringExecFns;
use vstd::string::StringSliceAdditionalSpecFns;

use crate::error::FstkError;
use crate::text::{chars_of, substring_of};
use sha2::Digest;

verus! {

/// The SHA-256 digest of a byte sequence, named but not written out: the
/// implementation is the sha2 crate's.
pub uninterp spec fn sha256_of(data: Seq<u8>) -> Seq<u8>;

/// Relies on sha2's Sha256: the digest is a function of the input bytes alone
/// and is 32 bytes long.
#[verifier::external_body]
fn sha256(data: &[u8]) -> (r: Vec<u8>)
    ensures
        r@ == sha256_of(data@),
        r@.len() == 32,
{
    sha2::Sha256::digest(data).to_vec()
}

/// The lowercase hexadecimal digit of a value below 16.
pub open spec fn spec_hex_digit(n: int) -> char {
    if n == 0 {
        '0'
    } else if n == 1 {
        '1'
    } else if n == 2 {
        '2'
    } else if n == 3 {
        '3'
    } else if n == 4 {
        '4'
    } else if n == 5 {
        '5'
    } else if n == 6 {
        '6'
    } else if n == 7 {
        '7'
    } else if n == 8 {
        '8'
    } else if n == 9 {
        '9'
    } else if n == 10 {
        'a'
    } else if n == 11 {
        'b'
    } else if n == 12 {
        'c'
    } else if n == 13 {
        'd'
    } else if n == 14 {
        'e'
    } else {
        'f'
    }
}

/// The lowercase hexadecimal encoding of a byte sequence: two digits per
/// byte, high nibble first.
pub open spec fn spec_to_hex(data: Seq<u8>) -> Seq<char>
    decreases data.len(),
{
    if data.len() == 0 {
        Seq::empty()
    } else {
        seq![
            spec_hex_digit((data.first() >> 4u8) as int),
            spec_hex_digit((data.first() & 0x0fu8) as int),
        ] + spec_to_hex(data.drop_first())
    }
}

pub proof fn lemma_to_hex_len(data: Seq<u8>)
    ensures
        spec_to_hex(data).len() == 2 * data.len(),
    decreases data.len(),
{
    if data.len() > 0 {
        lemma_to_hex_len(data.drop_first());
    }
}

/// Relies on hex::encode: the lowercase hexadecimal encoding of the bytes,
/// two digits per byte, high nibble first.
#[verifier::external_body]
fn to_hex(data: &[u8]) -> (r: String)
    ensures
        r@ == spec_to_hex(data@),
{
    hex::encode(data)
}

/// Relies on chrono's Local::now: nanoseconds since the epoch at the moment
/// of the call (zero when that does not fit chrono's range). Nothing can be
/// promised of a clock reading.
#[verifier::external_body]
fn now_timestamp_nanos() -> i64 {
    chrono::Local::now().timestamp_nanos_opt().unwrap_or(0)
}

/// The big-endian bytes of a 64-bit value.
pub open spec fn spec_be_bytes(x: u64) -> Seq<u8> {
    seq![
        (x >> 56u64) as u8,
        (x >> 48u64) as u8,
        (x >> 40u64) as u8,
        (x >> 32u64) as u8,
        (x >> 24u64) as u8,
        (x >> 16u64) as u8,
        (x >> 8u64) as u8,
        x as u8,
    ]
}

/// The kind discriminator mixed into the storage key: the bytes of "dir" for
/// a directory, of "fil" for a file.
pub open spec fn spec_kind_bytes(is_dir: bool) -> Seq<u8> {
    if is_dir {
        seq![100u8, 105u8, 114u8]
    } else {
        seq![102u8, 105u8, 108u8]
    }
}

/// The hashed message behind a storage key: the path's bytes, the timestamp's
/// big-endian bytes, and the kind discriminator.
pub open spec fn spec_key_message(path: Seq<char>, is_dir: bool, nanos: i64) -> Seq<u8> {
    vstd::utf8::encode_utf8(path) + spec_be_bytes(nanos as u64) + spec_kind_bytes(is_dir)
}

/// The storage key of a push: the first 16 hexadecimal characters of the
/// SHA-256 digest of the key message.
pub open spec fn spec_storage_key(path: Seq<char>, is_dir: bool, nanos: i64) -> Seq<char> {
    spec_to_hex(sha256_of(spec_key_message(path, is_dir, nanos))).take(16)
}

/// The storage key derived from this path, kind, and timestamp.
pub fn storage_key_at(path: &str, is_dir: bool, timestamp_nanos: i64) -> (r: String)
    ensures
        r@ == spec_storage_key(path@, is_dir, timestamp_nanos),
        r@.len() == 16,
{
    let mut message: Vec<u8> = path.as_bytes_vec();
    let t = timestamp_nanos as u64;
    message.push((t >> 56u64) as u8);
    message.push((t >> 48u64) as u8);
    message.push((t >> 40u64) as u8);
    message.push((t >> 32u64) as u8);
    message.push((t >> 24u64) as u8);
    message.push((t >> 16u64) as u8);
    message.push((t >> 8u64) as u8);
    message.push(t as u8);
    if is_dir {
        message.push(100u8);
        message.push(105u8);
        message.push(114u8);
    } else {
        message.push(102u8);
        message.push(105u8);
        message.push(108u8);
    }
    proof {
        assert(message@ =~= spec_key_message(path@, is_dir, timestamp_nanos));
    }
    let digest = sha256(message.as_slice());
    let full = to_hex(digest.as_slice());
    proof {
        lemma_to_hex_len(digest@);
    }
    let key = full.as_str().substring_char(0, 16);
    String::from_str(key)
}

/// The storage key of a push made now: derived from the absolute path, the
/// clock's nanoseconds, and the kind discriminator, so that repeated pushes of
/// one path get distinct keys with overwhelming likelihood. The store's
/// uniqueness constraint on storage keys is the backstop; a collision fails
/// the insertion and is not retried.
pub fn generate_hash(path: &str, is_dir: bool) -> (r: Result<String, FstkError>)
    ensures
        r is Ok,
        r->Ok_0@.len() == 16,
        exists|t: i64| r->Ok_0@ == spec_storage_key(path@, is_dir, t),
{
    let t = now_timestamp_nanos();
    let key = storage_key_at(path, is_dir, t);
    proof {
        assert(key@ == spec_storage_key(path@, is_dir, t));
    }
    Ok(key)
}

/// The path of the artifact with this storage key: the key appended to the
/// content directory.
pub fn get_stored_path(data_dir: &str, hash: &str) -> (r: String)
    ensures
        r@ == data_dir@ + "/"@ + hash@,
{
    String::from_str(data_dir).concat("/").concat(hash)
}

/// The file-name component of a path: the segment after the last separator,
/// with trailing separators ignored. `None` when nothing remains or the
/// segment is a dot component.
pub open spec fn spec_file_name(s: Seq<char>) -> Option<Seq<char>> {
    let t = spec_strip_trailing_slashes(s);
    if t.len() == 0 {
        None
    } else {
        let seg = t.skip(spec_last_slash(t) + 1);
        if seg == seq!['.'] || seg == seq!['.', '.'] {
            None
        } else {
            Some(seg)
        }
    }
}

/// The path with trailing separators removed.
pub open spec fn spec_strip_trailing_slashes(s: Seq<char>) -> Seq<char>
    decreases s.len(),
{
    if s.len() > 0 && s.last() == '/' {
        spec_strip_trailing_slashes(s.drop_last())
    } else {
        s
    }
}

/// Index of the last separator of `s`, or -1 if there is none.
pub open spec fn spec_last_slash(s: Seq<char>) -> int
    decreases s.len(),
{
    if s.len() == 0 {
        -1
    } else if s.last() == '/' {
        s.len() - 1
    } else {
        spec_last_slash(s.drop_last())
    }
}

proof fn lemma_strip_trailing_slashes(s: Seq<char>, e: int)
    requires
        0 <= e <= s.len(),
        forall|j: int| e <= j < s.len() ==> s[j] == '/',
        e == 0 || s[e - 1] != '/',
    ensures
        spec_strip_trailing_slashes(s) == s.take(e),
    decreases s.len() - e,
{
    if e == s.len() {
        assert(s.take(e) =~= s);
    } else {
        assert(s.last() == '/');
        let t = s.drop_last();
        lemma_strip_trailing_slashes(t, e);
        assert(t.take(e) =~= s.take(e));
    }
}

proof fn lemma_last_slash(s: Seq<char>, k: int)
    requires
        -1 <= k < s.len(),
        k >= 0 ==> s[k] == '/',
        forall|j: int| k < j < s.len() ==> s[j] != '/',
    ensures
        spec_last_slash(s) == k,
    decreases s.len(),
{
    if s.len() > 0 {
        if s.last() == '/' {
            assert(k == s.len() - 1);
        } else {
            let t = s.drop_last();
            assert(forall|j: int| k < j < t.len() ==> t[j] == s[j]);
            lemma_last_slash(t, k);
        }
    }
}

/// The file-name component of a path: the segment after the last separator,
/// with trailing separators ignored. Fails when no segment remains (the root,
/// or an empty path) or the segment is a dot component.
pub fn get_file_name(path: &str) -> (r: Result<String, FstkError>)
    ensures
        r is Ok <==> spec_file_name(path@) is Some,
        r is Ok ==> Some(r->Ok_0@) == spec_file_name(path@),
        r is Err ==> r->Err_0 is FileSystemError,
{
    let cs = chars_of(path);
    let n = cs.len();
    // Ignore trailing separators.
    let mut e: usize = n;
    while e > 0 && cs[e - 1] == '/'
        invariant
            e <= n,
            n == cs@.len(),
            cs@ == path@,
            forall|j: int| e <= j < n ==> cs@[j] == '/',
        decreases e,
    {
        e = e - 1;
    }
    proof {
        lemma_strip_trailing_slashes(path@, e as int);
    }
    let ghost t = spec_strip_trailing_slashes(path@);
    assert(t =~= cs@.subrange(0, e as int));
    if e == 0 {
        return Err(
            FstkError::FileSystemError(
                String::from_str("Invalid path, no filename component found"),
            ),
        );
    }
    // Find the last separator before the segment.
    let mut k: usize = e;
    while k > 0 && !(cs[k - 1] == '/')
        invariant
            k <= e <= n,
            n == cs@.len(),
            cs@ == path@,
            forall|j: int| k <= j < e ==> cs@[j] != '/',
        decreases k,
    {
        k = k - 1;
    }
    proof {
        assert(forall|j: int| k <= j < t.len() ==> t[j] != '/');
        if k > 0 {
            assert(t[k - 1] == '/');
        }
        lemma_last_slash(t, k as int - 1);
    }
    let ghost seg = t.skip(spec_last_slash(t) + 1);
    assert(seg =~= cs@.subrange(k as int, e as int));
    // Reject dot components, which name no file.
    let len = e - k;
    let is_dot = len == 1 && cs[k] == '.';
    let is_dot_dot = len == 2 && cs[k] == '.' && cs[k + 1] == '.';
    if is_dot || is_dot_dot {
        proof {
            if is_dot {
                assert(seg =~= seq!['.']);
            } else {
                assert(seg =~= seq!['.', '.']);
            }
        }
        return Err(
            FstkError::FileSystemError(
                String::from_str("Invalid path, no filename component found"),
            ),
        );
    }
    proof {
        assert(seg != seq!['.'] && seg != seq!['.', '.']) by {
            if seg == seq!['.'] {
                assert(seg.len() == 1 && seg[0] == '.');
            }
            if seg == seq!['.', '.'] {
                assert(seg.len() == 2 && seg[0] == '.' && seg[1] == '.');
            }
        }
    }
    Ok(substring_of(&cs, k, e))
}

} // verus!
