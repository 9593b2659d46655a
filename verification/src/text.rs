//! Byte-level text utilities: UTF-8 decoding of byte ranges into strings,
//! and verified equality of byte slices and string slices.

use vstd::prelude::*;

verus! {

use vstd::utf8::valid_utf8;
use vstd::utf8::decode_utf8;
use vstd::utf8::encode_utf8;

/// The length of the longest prefix of `bytes` (looking no further than the
/// first `upto` bytes) that is valid UTF-8.
pub open spec fn max_valid_prefix(bytes: Seq<u8>, upto: int) -> int
    decreases upto,
{
    if upto <= 0 {
        0
    } else if valid_utf8(bytes.subrange(0, upto)) {
        upto
    } else {
        max_valid_prefix(bytes, upto - 1)
    }
}

/// The index of the first byte of `bytes` at which UTF-8 decoding fails:
/// the largest `k` such that the first `k` bytes are valid UTF-8 while no
/// longer prefix is.
pub open spec fn utf8_fail_offset(bytes: Seq<u8>) -> int {
    max_valid_prefix(bytes, bytes.len() as int)
}

pub proof fn lemma_max_valid_prefix(bytes: Seq<u8>, upto: int)
    requires
        0 <= upto <= bytes.len(),
    ensures
        0 <= max_valid_prefix(bytes, upto) <= upto,
        valid_utf8(bytes.subrange(0, max_valid_prefix(bytes, upto))),
        forall|j: int|
            max_valid_prefix(bytes, upto) < j <= upto ==> !valid_utf8(bytes.subrange(0, j)),
    decreases upto,
{
    if upto <= 0 {
        assert(bytes.subrange(0, 0) =~= Seq::<u8>::empty());
        assert(valid_utf8(bytes.subrange(0, 0)));
    } else if valid_utf8(bytes.subrange(0, upto)) {
    } else {
        lemma_max_valid_prefix(bytes, upto - 1);
    }
}

/// Relies on `String::from_utf8`: it returns `Ok` exactly on valid UTF-8
/// input, decoding it as vstd's UTF-8 model describes, and on failure
/// `FromUtf8Error::utf8_error().valid_up_to()` is the largest index such
/// that the prefix of that length is valid UTF-8.
#[verifier::external_body]
fn string_from_utf8(v: Vec<u8>) -> (r: Result<String, usize>)
    ensures
        valid_utf8(v@) ==> r is Ok,
        r is Ok ==> valid_utf8(v@) && r->Ok_0@ == decode_utf8(v@),
        r is Err ==> !valid_utf8(v@) && r->Err_0 == utf8_fail_offset(v@),
{
    match String::from_utf8(v) {
        Ok(s) => Ok(s),
        Err(e) => Err(e.utf8_error().valid_up_to()),
    }
}

/// Decodes `bytes[start..end]` as UTF-8. On failure, the error holds the
/// absolute offset (an index into `bytes`) of the first invalid byte.
pub fn decode_range(bytes: &[u8], start: usize, end: usize) -> (r: Result<String, usize>)
    requires
        start <= end <= bytes@.len(),
    ensures
        valid_utf8(bytes@.subrange(start as int, end as int)) <==> r is Ok,
        r is Ok ==> r->Ok_0@ == decode_utf8(bytes@.subrange(start as int, end as int)),
        r is Err ==> r->Err_0 == start + utf8_fail_offset(
            bytes@.subrange(start as int, end as int),
        ) && start <= r->Err_0 <= end,
{
    let seg = vstd::slice::slice_subrange(bytes, start, end);
    let seg_vec = vstd::slice::slice_to_vec(seg);
    match string_from_utf8(seg_vec) {
        Ok(s) => Ok(s),
        Err(k) => {
            proof {
                lemma_max_valid_prefix(seg@, seg@.len() as int);
            }
            Err(start + k)
        },
    }
}

/// Compares two byte slices for equality of their contents.
pub fn bytes_eq(a: &[u8], b: &[u8]) -> (r: bool)
    ensures
        r == (a@ == b@),
{
    if a.len() != b.len() {
        return false;
    }
    let n = a.len();
    let mut i: usize = 0;
    while i < n
        invariant
            n == a@.len(),
            n == b@.len(),
            i <= n,
            forall|j: int| 0 <= j < i ==> a@[j] == b@[j],
        decreases n - i,
    {
        if a[i] != b[i] {
            return false;
        }
        i += 1;
    }
    proof {
        assert(a@ =~= b@);
    }
    true
}

/// Compares two string slices for equality of their character sequences.
pub fn str_eq(a: &str, b: &str) -> (r: bool)
    ensures
        r == (a@ == b@),
{
    let r = bytes_eq(a.as_bytes(), b.as_bytes());
    proof {
        if r {
            vstd::utf8::encode_utf8_decode_utf8(a@);
            vstd::utf8::encode_utf8_decode_utf8(b@);
            assert(decode_utf8(encode_utf8(a@)) == decode_utf8(encode_utf8(b@)));
        }
    }
    r
}

} // verus!
