//! Building `String`s from bytes the library has proved to be UTF-8.

use vstd::prelude::*;
use vstd::string::StringSliceAdditionalSpecFns;
use vstd::utf8::{encode_utf8, encode_utf8_valid_utf8, valid_utf8, valid_utf8_concat};

verus! {

/// `String::from_utf8`, on bytes known to be valid UTF-8.
///
/// Claims what std documents: for valid UTF-8 the conversion succeeds and
/// the string holds exactly those bytes.
#[verifier::external_body]
pub fn string_from_utf8(bytes: Vec<u8>) -> (s: String)
    requires
        valid_utf8(bytes@),
    ensures
        encode_utf8(s@) == bytes@,
{
    String::from_utf8(bytes).unwrap()
}

/// One ASCII byte is valid UTF-8 on its own.
pub proof fn lemma_ascii_valid(b: u8)
    requires
        b < 0x80,
    ensures
        valid_utf8(seq![b]),
{
    reveal_with_fuel(valid_utf8, 2);
    assert(seq![b].subrange(1, 1) =~= Seq::<u8>::empty());
}


/// Appends the bytes of `s`; what was valid UTF-8 stays so.
pub fn push_str_bytes(out: &mut Vec<u8>, s: &str)
    ensures
        final(out)@ == old(out)@ + s.spec_bytes(),
        valid_utf8(old(out)@) ==> valid_utf8(final(out)@),
{
    let b = s.as_bytes();
    let mut k: usize = 0;
    while k < b.len()
        invariant
            k <= b@.len(),
            b@ == s.spec_bytes(),
            out@ == old(out)@ + b@.subrange(0, k as int),
        decreases b@.len() - k,
    {
        out.push(b[k]);
        proof {
            assert(b@.subrange(0, k + 1) =~= b@.subrange(0, k as int).push(b@[k as int]));
        }
        k = k + 1;
    }
    proof {
        assert(b@.subrange(0, b@.len() as int) =~= b@);
        encode_utf8_valid_utf8(s@);
        if valid_utf8(old(out)@) {
            valid_utf8_concat(old(out)@, b@);
        }
    }
}

/// Appends one ASCII byte; what was valid UTF-8 stays so.
pub fn push_ascii(out: &mut Vec<u8>, b: u8)
    requires
        b < 0x80,
    ensures
        final(out)@ == old(out)@.push(b),
        valid_utf8(old(out)@) ==> valid_utf8(final(out)@),
{
    out.push(b);
    proof {
        lemma_ascii_valid(b);
        assert(old(out)@.push(b) =~= old(out)@ + seq![b]);
        if valid_utf8(old(out)@) {
            valid_utf8_concat(old(out)@, seq![b]);
        }
    }
}

/// Whether two byte strings are equal.
pub fn bytes_eq(a: &[u8], b: &[u8]) -> (r: bool)
    ensures
        r == (a@ == b@),
{
    if a.len() != b.len() {
        return false;
    }
    let mut k: usize = 0;
    while k < a.len()
        invariant
            k <= a@.len(),
            a@.len() == b@.len(),
            forall|j: int| 0 <= j < k ==> a@[j] == b@[j],
        decreases a@.len() - k,
    {
        if a[k] != b[k] {
            return false;
        }
        k = k + 1;
    }
    proof {
        assert(a@ =~= b@);
    }
    true
}

/// The empty byte string is valid UTF-8.
pub proof fn lemma_empty_valid()
    ensures
        valid_utf8(Seq::<u8>::empty()),
{
}

} // verus!
