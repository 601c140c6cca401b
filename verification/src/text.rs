//! Text as the player sees it: names and paths arrive as the bytes the
//! operating system gave, and leave as UTF-8 text.

use vstd::prelude::*;
use vstd::string::*;
use vstd::utf8::*;

verus! {

/// Encoding a concatenation gives the concatenation of the encodings.
pub proof fn lemma_encode_concat(a: Seq<char>, b: Seq<char>)
    ensures
        encode_utf8(a + b) == encode_utf8(a) + encode_utf8(b),
    decreases a.len(),
{
    if a.len() == 0 {
        assert(a + b =~= b);
        assert(encode_utf8(a) + encode_utf8(b) =~= encode_utf8(b));
    } else {
        lemma_encode_concat(a.drop_first(), b);
        assert((a + b).drop_first() =~= a.drop_first() + b);
        assert((a + b)[0] == a[0]);
        assert(encode_utf8(a + b) =~= encode_utf8(a) + encode_utf8(b));
    }
}

/// Where valid UTF-8 is followed by more bytes and the whole is valid too,
/// the join falls between two characters.
pub proof fn lemma_prefix_boundary(p: Seq<u8>, rest: Seq<u8>)
    requires
        valid_utf8(p),
        valid_utf8(p + rest),
    ensures
        is_char_boundary(p + rest, p.len() as int),
    decreases p.len(),
{
    if p.len() > 0 {
        let whole = p + rest;
        assert(valid_first_scalar(p));
        assert(length_of_first_scalar(p) <= p.len());
        assert(whole[0] == p[0]);
        assert(length_of_first_scalar(whole) == length_of_first_scalar(p));
        assert(pop_first_scalar(whole) =~= pop_first_scalar(p) + rest);
        lemma_prefix_boundary(pop_first_scalar(p), rest);
    }
}

/// A text begins with another exactly when its encoding begins with the
/// other's encoding.
pub proof fn lemma_prefix_of_encoding(p: Seq<char>, s: Seq<char>)
    ensures
        p.is_prefix_of(s) <==> encode_utf8(p).is_prefix_of(encode_utf8(s)),
{
    broadcast use group_utf8_lib;

    let pb = encode_utf8(p);
    let sb = encode_utf8(s);
    if p.is_prefix_of(s) {
        let tail = s.skip(p.len() as int);
        assert(s =~= p + tail);
        lemma_encode_concat(p, tail);
        assert(pb =~= sb.subrange(0, pb.len() as int));
    }
    if pb.is_prefix_of(sb) {
        let n = pb.len() as int;
        let rest = sb.subrange(n, sb.len() as int);
        assert(sb =~= pb + rest);
        lemma_prefix_boundary(pb, rest);
        decode_utf8_split(sb, n);
        assert(sb.subrange(0, n) =~= pb);
        assert(s =~= p + decode_utf8(rest));
        assert(p =~= s.subrange(0, p.len() as int));
    }
}

/// `core::str::from_utf8` of std: the bytes read as text. It gives a text
/// exactly when the bytes are well-formed UTF-8, and the text then has those
/// bytes and no others.
#[verifier::external_body]
fn from_utf8(bytes: &[u8]) -> (r: Option<&str>)
    ensures
        r is Some <==> valid_utf8(bytes@),
        r matches Some(s) ==> s.spec_bytes() == bytes@,
{
    core::str::from_utf8(bytes).ok()
}

/// The text that `bytes` encode, where they encode one.
pub fn utf8_text(bytes: &[u8]) -> (r: Option<&str>)
    ensures
        r is Some <==> valid_utf8(bytes@),
        r matches Some(s) ==> s@ == decode_utf8(bytes@),
{
    broadcast use encode_utf8_decode_utf8;

    from_utf8(bytes)
}

/// Whether two rows of bytes are the same. Every byte is looked at, so that
/// rows of one length take the same time whatever they hold.
pub fn bytes_equal(a: &[u8], b: &[u8]) -> (r: bool)
    ensures
        r == (a@ == b@),
{
    if a.len() != b.len() {
        return false;
    }
    let mut difference: u8 = 0;
    let mut i: usize = 0;
    proof {
        assert(a@.take(0) =~= b@.take(0));
    }
    while i < a.len()
        invariant
            i <= a.len(),
            a.len() == b.len(),
            difference == 0 <==> a@.take(i as int) == b@.take(i as int),
        decreases a.len() - i,
    {
        let x = a[i];
        let y = b[i];
        let ghost before = difference;
        difference = difference | (x ^ y);
        proof {
            assert((before | (x ^ y)) == 0 <==> (before == 0 && x == y)) by (bit_vector);
            assert(a@.take(i + 1).drop_last() =~= a@.take(i as int));
            assert(b@.take(i + 1).drop_last() =~= b@.take(i as int));
            if before == 0 && x == y {
                assert(a@.take(i + 1) =~= a@.take(i as int).push(x));
                assert(b@.take(i + 1) =~= b@.take(i as int).push(y));
            }
            if a@.take(i + 1) == b@.take(i + 1) {
                assert(a@.take(i + 1)[i as int] == b@.take(i + 1)[i as int]);
            }
        }
        i += 1;
    }
    proof {
        assert(a@.take(a.len() as int) =~= a@);
        assert(b@.take(b.len() as int) =~= b@);
    }
    difference == 0
}

/// Whether `s` begins with the bytes of `prefix`.
pub fn bytes_start_with(s: &[u8], prefix: &[u8]) -> (r: bool)
    ensures
        r == prefix@.is_prefix_of(s@),
{
    if prefix.len() > s.len() {
        return false;
    }
    let mut i: usize = 0;
    while i < prefix.len()
        invariant
            i <= prefix.len() <= s.len(),
            forall|j: int| 0 <= j < i ==> s@[j] == prefix@[j],
        decreases prefix.len() - i,
    {
        if s[i] != prefix[i] {
            assert(s@.subrange(0, prefix@.len() as int)[i as int] != prefix@[i as int]);
            return false;
        }
        i += 1;
    }
    assert(prefix@ =~= s@.subrange(0, prefix@.len() as int));
    true
}

/// Whether the text `s` begins with the text `prefix`.
pub fn starts_with(s: &str, prefix: &str) -> (r: bool)
    ensures
        r == prefix@.is_prefix_of(s@),
{
    proof {
        lemma_prefix_of_encoding(prefix@, s@);
    }
    bytes_start_with(s.as_bytes(), prefix.as_bytes())
}

/// What follows `prefix` in `s`, where `s` begins with it.
pub fn strip_prefix<'a>(s: &'a str, prefix: &str) -> (r: Option<&'a str>)
    ensures
        r is Some <==> prefix@.is_prefix_of(s@),
        r matches Some(rest) ==> rest@ == s@.skip(prefix@.len() as int),
{
    broadcast use group_utf8_lib;

    proof {
        lemma_prefix_of_encoding(prefix@, s@);
    }
    let prefix_bytes = prefix.as_bytes();
    if !bytes_start_with(s.as_bytes(), prefix_bytes) {
        return None;
    }
    let n = prefix_bytes.len();
    proof {
        let pb = encode_utf8(prefix@);
        let sb = encode_utf8(s@);
        let rest = sb.subrange(n as int, sb.len() as int);
        assert(sb =~= pb + rest);
        lemma_prefix_boundary(pb, rest);
    }
    let (_, rest) = s.split_at(n);
    proof {
        let pb = encode_utf8(prefix@);
        let sb = encode_utf8(s@);
        decode_utf8_split(sb, n as int);
        assert(sb.subrange(0, n as int) =~= pb);
        assert(decode_utf8(rest.spec_bytes()) == rest@);
        assert(s@ =~= prefix@ + rest@);
        assert(rest@ =~= s@.skip(prefix@.len() as int));
    }
    Some(rest)
}

} // verus!
