//! Small facilities the parsers share: UTF-8 decoding and byte patterns.
use vstd::prelude::*;
use vstd::utf8::*;

verus! {

broadcast use vstd::string::group_string_axioms;

/// Decodes `b` as UTF-8 with `core::str::from_utf8`.
///
/// Trusted: Rust documents that `from_utf8` succeeds exactly when `b` is
/// well-formed UTF-8 and that the resulting string slice is made of exactly
/// the bytes of `b`; the contract states both facts over vstd's definition
/// of well-formed UTF-8.
#[verifier::external_body]
pub(crate) fn str_from_utf8(b: &[u8]) -> (r: Option<&str>)
    ensures
        r.is_some() == valid_utf8(b@),
        r matches Some(s) ==> encode_utf8(s@) == b@,
{
    core::str::from_utf8(b).ok()
}

/// The decoded characters of well-formed UTF-8 bytes, as an owned string.
pub(crate) fn owned_utf8(b: &[u8]) -> (r: Option<String>)
    ensures
        r.is_some() == valid_utf8(b@),
        r matches Some(s) ==> s@ == decode_utf8(b@),
{
    match str_from_utf8(b) {
        Some(s) => {
            proof {
                encode_utf8_decode_utf8(s@);
            }
            Some(s.to_owned())
        },
        None => None,
    }
}

/// True when `b` holds the bytes of `pat` starting at index `at`.
pub(crate) fn bytes_match_at(b: &[u8], at: usize, pat: &[u8]) -> (r: bool)
    ensures
        r == (at + pat@.len() <= b@.len() && b@.subrange(at as int, at + pat@.len()) == pat@),
{
    if at > b.len() || pat.len() > b.len() - at {
        return false;
    }
    let mut k: usize = 0;
    while k < pat.len()
        invariant
            at + pat.len() <= b.len(),
            k <= pat@.len(),
            forall|j: int| 0 <= j < k ==> b@[at + j] == pat@[j],
        decreases pat@.len() - k,
    {
        if b[at + k] != pat[k] {
            assert(b@.subrange(at as int, at + pat@.len())[k as int] != pat@[k as int]);
            return false;
        }
        k = k + 1;
    }
    assert(b@.subrange(at as int, at + pat@.len()) =~= pat@);
    true
}

/// True when the `n` bytes of `b` starting at `i` are all zero.
pub open spec fn zero_run(b: Seq<u8>, i: int, n: int) -> bool {
    forall|k: int| i <= k < i + n ==> b[k] == 0
}

pub(crate) fn is_zero_run(b: &[u8], i: usize, n: usize) -> (r: bool)
    requires
        i + n <= b.len(),
    ensures
        r == zero_run(b@, i as int, n as int),
{
    let mut k: usize = 0;
    while k < n
        invariant
            i + n <= b.len(),
            k <= n,
            forall|j: int| i <= j < i + k ==> b@[j] == 0,
        decreases n - k,
    {
        if b[i + k] != 0 {
            return false;
        }
        k = k + 1;
    }
    true
}


/// True when `a` and `b` hold the same bytes.
pub(crate) fn bytes_equal(a: &[u8], b: &[u8]) -> (r: bool)
    ensures
        r == (a@ == b@),
{
    if a.len() != b.len() {
        assert(a@.len() != b@.len());
        return false;
    }
    let mut i: usize = 0;
    while i < a.len()
        invariant
            i <= a@.len(),
            a@.len() == b@.len(),
            forall|j: int| 0 <= j < i ==> a@[j] == b@[j],
        decreases a@.len() - i,
    {
        if a[i] != b[i] {
            assert(a@[i as int] != b@[i as int]);
            return false;
        }
        i = i + 1;
    }
    assert(a@ =~= b@);
    true
}

/// A copy of the bytes of `b`.
pub(crate) fn slice_to_vec(b: &[u8]) -> (r: Vec<u8>)
    ensures
        r@ == b@,
{
    let mut v: Vec<u8> = Vec::new();
    let mut i: usize = 0;
    while i < b.len()
        invariant
            i <= b@.len(),
            v@ == b@.take(i as int),
        decreases b@.len() - i,
    {
        v.push(b[i]);
        i = i + 1;
        assert(v@ =~= b@.take(i as int));
    }
    assert(b@.take(b@.len() as int) =~= b@);
    v
}

} // verus!
