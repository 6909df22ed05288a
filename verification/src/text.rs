//! Text handling: string equality through byte comparison, conversion of
//! decoded bytes back to strings, and the facts about UTF-8 encoding that
//! connect the byte-level engine to string-level contracts.
use vstd::prelude::*;

use vstd::utf8::{decode_utf8, encode_scalar, encode_utf8, encode_utf8_decode_utf8, valid_utf8};

use crate::pretok::cat;

verus! {

/// UTF-8 encoding is injective: equal byte encodings mean equal strings.
pub proof fn lemma_encode_utf8_injective(a: Seq<char>, b: Seq<char>)
    requires
        encode_utf8(a) == encode_utf8(b),
    ensures
        a == b,
{
    encode_utf8_decode_utf8(a);
    encode_utf8_decode_utf8(b);
}

/// UTF-8 encoding distributes over concatenation.
pub proof fn lemma_encode_utf8_append(a: Seq<char>, b: Seq<char>)
    ensures
        encode_utf8(a + b) == encode_utf8(a) + encode_utf8(b),
    decreases a.len(),
{
    if a.len() == 0 {
        assert(a + b =~= b);
        assert(encode_utf8(a) + encode_utf8(b) =~= encode_utf8(b));
    } else {
        assert((a + b)[0] == a[0]);
        assert((a + b).drop_first() =~= a.drop_first() + b);
        lemma_encode_utf8_append(a.drop_first(), b);
        assert(encode_scalar(a[0] as u32) + (encode_utf8(a.drop_first()) + encode_utf8(b)) =~= (
        encode_scalar(a[0] as u32) + encode_utf8(a.drop_first())) + encode_utf8(b));
    }
}

/// Encoding a concatenation of texts encodes each text in order.
pub proof fn lemma_encode_utf8_cat(texts: Seq<Seq<char>>)
    ensures
        encode_utf8(cat(texts)) == cat(texts.map_values(|t: Seq<char>| encode_utf8(t))),
    decreases texts.len(),
{
    let m = texts.map_values(|t: Seq<char>| encode_utf8(t));
    if texts.len() == 0 {
        assert(m.len() == 0);
    } else {
        lemma_encode_utf8_cat(texts.drop_first());
        lemma_encode_utf8_append(texts[0], cat(texts.drop_first()));
        assert(m[0] == encode_utf8(texts[0]));
        assert(m.drop_first() =~= texts.drop_first().map_values(|t: Seq<char>| encode_utf8(t)));
    }
}

/// A nonempty string encodes to at least one byte.
pub proof fn lemma_encode_utf8_nonempty(s: Seq<char>)
    requires
        s.len() > 0,
    ensures
        encode_utf8(s).len() >= 1,
{
    assert(encode_scalar(s[0] as u32).len() >= 1);
}

/// String equality, decided by comparing the UTF-8 bytes.
pub fn str_eq(a: &str, b: &str) -> (r: bool)
    ensures
        r <==> a@ == b@,
{
    let av = a.as_bytes_vec();
    let bv = b.as_bytes_vec();
    let r = crate::vocab::eq_bytes(&av, &bv);
    proof {
        if r {
            lemma_encode_utf8_injective(a@, b@);
        }
    }
    r
}

/// Relies on `String::from_utf8`: it succeeds exactly on input that is
/// valid UTF-8, and the returned string consists of exactly those bytes.
#[verifier::external_body]
pub fn string_from_bytes(bytes: Vec<u8>) -> (r: Option<String>)
    ensures
        r is Some <==> valid_utf8(bytes@),
        r is Some ==> encode_utf8(r.unwrap()@) == bytes@,
{
    String::from_utf8(bytes).ok()
}

} // verus!
