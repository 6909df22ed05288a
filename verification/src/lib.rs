//! A byte-pair-encoding (BPE) tokenizer: given raw text and a tokenizer
//! name, it returns the sequence of tokens (text fragment and numeric id)
//! that the named BPE vocabulary produces.
use vstd::prelude::*;

pub mod vocab;
pub mod pretok;
pub mod errors;
pub mod bpe;
pub mod text;
pub mod tiktoken;
pub mod variant;
pub mod registry;
pub mod specials;

verus! {

use vstd::utf8::{encode_utf8, valid_utf8};

use crate::errors::TokenizeError;
use crate::pretok::{cat, spec_split};
use crate::registry::{parse_name, spec_name_of, Registry};
use crate::specials::find_special_from;
use crate::text::{lemma_encode_utf8_cat, lemma_encode_utf8_injective, string_from_bytes};
use crate::variant::{is_loaded_variant, lemma_encode_specials_count, lemma_loaded_variant_table,
    spec_encode_chunks, spec_encode_with_specials, spec_specials, variant_table, TokenizerName,
    Variant};
use crate::vocab::lookup_bytes;

/// One token of the result: its display text and its numeric id.
#[derive(Debug)]
pub struct TokenInfo {
    pub text: String,
    pub id: usize,
}

/// The texts of a token sequence.
pub open spec fn texts_of(toks: Seq<TokenInfo>) -> Seq<Seq<char>> {
    toks.map_values(|t: TokenInfo| t.text@)
}

/// What tokenizing promises over a given table and special list: the
/// encoding-failure case and the ill-formed-text case each tied exactly
/// to their condition, success owed whenever neither holds, and, on
/// success, the records pinned id by id with each text decoding from
/// exactly that token's bytes, never more records than input bytes.
pub open spec fn tokenize_outcome(
    tbl: Seq<(u32, Seq<u8>)>,
    sp: Seq<(u32, Seq<u8>)>,
    text: Seq<char>,
    r: Result<Vec<TokenInfo>, TokenizeError>,
) -> bool {
    let ids_opt = spec_encode_with_specials(tbl, sp, encode_utf8(text));
    &&& (r == Err::<Vec<TokenInfo>, TokenizeError>(TokenizeError::Encoding) <==> ids_opt is None)
    &&& (ids_opt is Some ==> {
        let ids = ids_opt.unwrap();
        &&& (r == Err::<Vec<TokenInfo>, TokenizeError>(TokenizeError::DecodeInvalidUtf8) <==>
            exists|k: int| 0 <= k < ids.len() && !valid_utf8(
                lookup_bytes(tbl, #[trigger] ids[k]).unwrap(),
            ))
        &&& ((forall|k: int| 0 <= k < ids.len() ==> valid_utf8(
            lookup_bytes(tbl, #[trigger] ids[k]).unwrap(),
        )) ==> r is Ok)
        &&& (r is Ok ==> {
            let toks = r.unwrap()@;
            &&& toks.len() == ids.len()
            &&& toks.len() <= encode_utf8(text).len()
            &&& forall|k: int| 0 <= k < ids.len() ==> (#[trigger] toks[k]).id == ids[k] as usize
                && encode_utf8(toks[k].text@) == lookup_bytes(tbl, ids[k]).unwrap()
        })
    })
}

/// Tokenization is deterministic: two results that meet the outcome
/// relation for one table, special list and text agree — the same error,
/// or token sequences equal record by record. With `variant_table` and
/// `spec_specials` of one name (the alias included, which parses to the
/// same name), repeated calls of `tokenize` therefore agree.
pub proof fn lemma_tokenize_outcome_agreement(
    tbl: Seq<(u32, Seq<u8>)>,
    sp: Seq<(u32, Seq<u8>)>,
    text: Seq<char>,
    r1: Result<Vec<TokenInfo>, TokenizeError>,
    r2: Result<Vec<TokenInfo>, TokenizeError>,
)
    requires
        tokenize_outcome(tbl, sp, text, r1),
        tokenize_outcome(tbl, sp, text, r2),
        r1 is Err ==> (r1.unwrap_err() == TokenizeError::Encoding || r1.unwrap_err()
            == TokenizeError::DecodeInvalidUtf8),
        r2 is Err ==> (r2.unwrap_err() == TokenizeError::Encoding || r2.unwrap_err()
            == TokenizeError::DecodeInvalidUtf8),
    ensures
        r1 is Ok <==> r2 is Ok,
        r1 is Err ==> r1.unwrap_err() == r2.unwrap_err(),
        r1 is Ok ==> r1.unwrap()@.len() == r2.unwrap()@.len(),
        r1 is Ok ==> forall|k: int| 0 <= k < r1.unwrap()@.len() ==> (#[trigger] r1.unwrap()@[k]).id
            == r2.unwrap()@[k].id && r1.unwrap()@[k].text@ == r2.unwrap()@[k].text@,
{
    let ids_opt = spec_encode_with_specials(tbl, sp, encode_utf8(text));
    if ids_opt is Some {
        let ids = ids_opt.unwrap();
        if !(exists|k: int| 0 <= k < ids.len() && !valid_utf8(
            lookup_bytes(tbl, #[trigger] ids[k]).unwrap(),
        )) {
            assert(forall|k: int| 0 <= k < ids.len() ==> valid_utf8(
                lookup_bytes(tbl, #[trigger] ids[k]).unwrap(),
            ));
            assert(r1 is Ok && r2 is Ok);
            assert forall|k: int| 0 <= k < r1.unwrap()@.len() implies (#[trigger] r1.unwrap()@[k]).id
                == r2.unwrap()@[k].id && r1.unwrap()@[k].text@ == r2.unwrap()@[k].text@ by {
                assert(encode_utf8(r1.unwrap()@[k].text@) == lookup_bytes(tbl, ids[k]).unwrap());
                assert(encode_utf8(r2.unwrap()@[k].text@) == lookup_bytes(tbl, ids[k]).unwrap());
                lemma_encode_utf8_injective(r1.unwrap()@[k].text@, r2.unwrap()@[k].text@);
            }
        }
    }
}

/// Turns raw tokens into result records, decoding each token's bytes to
/// its display text. Fails exactly when some token's bytes alone are not
/// well-formed text.
fn tokens_to_infos(toks: &Vec<(u32, Vec<u8>)>) -> (r: Result<Vec<TokenInfo>, TokenizeError>)
    ensures
        r is Ok <==> (forall|k: int| 0 <= k < toks@.len() ==> valid_utf8(
            (#[trigger] toks@[k]).1@,
        )),
        r is Ok ==> r.unwrap()@.len() == toks@.len(),
        r is Ok ==> forall|k: int| 0 <= k < toks@.len() ==> encode_utf8(
            (#[trigger] r.unwrap()@[k]).text@,
        ) == toks@[k].1@ && r.unwrap()@[k].id == toks@[k].0 as usize,
        r is Err ==> r.unwrap_err() == TokenizeError::DecodeInvalidUtf8,
{
    let mut infos: Vec<TokenInfo> = Vec::new();
    let mut k: usize = 0;
    while k < toks.len()
        invariant
            k <= toks@.len(),
            infos@.len() == k,
            forall|j: int| 0 <= j < k ==> valid_utf8((#[trigger] toks@[j]).1@),
            forall|j: int| 0 <= j < k ==> encode_utf8((#[trigger] infos@[j]).text@) == toks@[j].1@
                && infos@[j].id == toks@[j].0 as usize,
        decreases toks@.len() - k,
    {
        let bytes = toks[k].1.clone();
        let id = toks[k].0;
        match string_from_bytes(bytes) {
            None => {
                return Err(TokenizeError::DecodeInvalidUtf8);
            },
            Some(s) => {
                infos.push(TokenInfo { text: s, id: id as usize });
            },
        }
        k += 1;
    }
    Ok(infos)
}

/// Runs the pipeline of one variant on text: pre-tokenize, encode, and
/// decode each token id back to its display text. The concatenation of
/// the returned texts is exactly the input.
fn tokenize_core(v: &Variant, text: &str) -> (r: Result<Vec<TokenInfo>, TokenizeError>)
    requires
        v.wf(),
    ensures
        tokenize_outcome(v.table(), v.specials_view(), text@, r),
        r is Ok ==> cat(texts_of(r.unwrap()@)) == text@,
        r is Err ==> (r.unwrap_err() == TokenizeError::Encoding || r.unwrap_err()
            == TokenizeError::DecodeInvalidUtf8),
{
    let ghost tbl = v.table();
    let bytes = text.as_bytes_vec();
    let ghost ids_opt = spec_encode_with_specials(tbl, v.specials_view(), bytes@);
    let toks = match v.tokenize_bytes(&bytes) {
        Err(e) => {
            return Err(e);
        },
        Ok(toks) => toks,
    };
    let ghost ids = ids_opt.unwrap();
    proof {
        lemma_encode_specials_count(tbl, v.specials_view(), bytes@);
        assert forall|k: int| 0 <= k < ids.len() implies lookup_bytes(
            tbl,
            #[trigger] ids[k],
        ) is Some && toks@[k].1@ == lookup_bytes(tbl, ids[k]).unwrap() by {
            assert((#[trigger] toks@[k]).0 == ids[k]);
        }
    }
    match tokens_to_infos(&toks) {
        Err(e) => {
            proof {
                // some token's bytes alone are ill-formed
                assert(exists|k: int| 0 <= k < toks@.len() && !valid_utf8(
                    (#[trigger] toks@[k]).1@,
                ));
                let bad = choose|k: int| 0 <= k < toks@.len() && !valid_utf8(
                    (#[trigger] toks@[k]).1@,
                );
                assert(!valid_utf8(lookup_bytes(tbl, ids[bad]).unwrap()));
                assert(exists|k: int| 0 <= k < ids.len() && !valid_utf8(
                    lookup_bytes(tbl, #[trigger] ids[k]).unwrap(),
                ));
            }
            Err(e)
        },
        Ok(infos) => {
            proof {
                let texts = texts_of(infos@);
                lemma_encode_utf8_cat(texts);
                assert(texts.map_values(|t: Seq<char>| encode_utf8(t)) =~= toks@.map_values(
                    |t: (u32, Vec<u8>)| t.1@,
                ));
                lemma_encode_utf8_injective(cat(texts), text@);
                assert forall|k: int| 0 <= k < ids.len() implies (#[trigger] infos@[k]).id
                    == ids[k] as usize && encode_utf8(infos@[k].text@) == lookup_bytes(
                    tbl,
                    ids[k],
                ).unwrap() by {
                    assert(encode_utf8((#[trigger] infos@[k]).text@) == toks@[k].1@);
                    assert(infos@[k].id == toks@[k].0 as usize);
                }
            }
            Ok(infos)
        },
    }
}

/// Empty text tokenizes to the empty record sequence under any table.
proof fn lemma_tokenize_outcome_empty(
    tbl: Seq<(u32, Seq<u8>)>,
    sp: Seq<(u32, Seq<u8>)>,
    text: Seq<char>,
    r: Result<Vec<TokenInfo>, TokenizeError>,
)
    requires
        text.len() == 0,
        r is Ok,
        r.unwrap()@.len() == 0,
    ensures
        tokenize_outcome(tbl, sp, text, r),
{
    let b = encode_utf8(text);
    assert(b =~= Seq::<u8>::empty());
    assert(find_special_from(sp, b, 0) is None);
    assert(spec_split(b) =~= Seq::<Seq<u8>>::empty());
    assert(spec_encode_chunks(tbl, spec_split(b)) == Option::Some(Seq::<u32>::empty()));
    assert(spec_encode_with_specials(tbl, sp, b) == Option::Some(Seq::<u32>::empty()));
}

/// Tokenizes text with the named tokenizer, constructing the variant for
/// this call. An unrecognized name fails without touching any artifact;
/// empty text yields the empty token sequence, not an error.
///
/// Each token's display text is decoded from that token's bytes alone,
/// not from the whole sequence: a token whose bytes end inside a
/// multi-byte code point fails with the ill-formed-text error, even
/// though decoding all ids together would succeed (`Variant::decode`
/// offers that whole-sequence decoding).
pub fn tokenize(text: &str, tokenizer: &str) -> (r: Result<Vec<TokenInfo>, TokenizeError>)
    ensures
        r == Err::<Vec<TokenInfo>, TokenizeError>(TokenizeError::UnknownTokenizer) <==>
            spec_name_of(tokenizer@) is None,
        r is Err ==> (r.unwrap_err() == TokenizeError::UnknownTokenizer || r.unwrap_err()
            == TokenizeError::Encoding || r.unwrap_err() == TokenizeError::DecodeInvalidUtf8),
        r is Ok ==> cat(texts_of(r.unwrap()@)) == text@,
        spec_name_of(tokenizer@) is Some && text@.len() == 0 ==> r is Ok && r.unwrap()@.len()
            == 0,
        spec_name_of(tokenizer@) is Some ==> tokenize_outcome(
            variant_table(spec_name_of(tokenizer@).unwrap()),
            spec_specials(spec_name_of(tokenizer@).unwrap()),
            text@,
            r,
        ),
{
    let name = match parse_name(tokenizer) {
        None => {
            return Err(TokenizeError::UnknownTokenizer);
        },
        Some(n) => n,
    };
    if text.is_empty() {
        let r: Result<Vec<TokenInfo>, TokenizeError> = Ok(Vec::new());
        proof {
            assert(cat(texts_of(Seq::<TokenInfo>::empty())) =~= Seq::<char>::empty());
            assert(text@ =~= Seq::<char>::empty());
            lemma_tokenize_outcome_empty(variant_table(name), spec_specials(name), text@, r);
        }
        return r;
    }
    let variant = match Variant::load(name) {
        Err(e) => {
            proof {
                assert(false);
            }
            return Err(e);
        },
        Ok(v) => v,
    };
    let r = tokenize_core(&variant, text);
    proof {
        lemma_loaded_variant_table(variant, name);
    }
    r
}

/// Tokenizes text through a registry: the named variant is constructed on
/// first use and reused afterwards.
pub fn tokenize_cached(reg: &mut Registry, text: &str, tokenizer: &str) -> (r: Result<
    Vec<TokenInfo>,
    TokenizeError,
>)
    requires
        old(reg).wf(),
    ensures
        final(reg).wf(),
        r == Err::<Vec<TokenInfo>, TokenizeError>(TokenizeError::UnknownTokenizer) <==>
            spec_name_of(tokenizer@) is None,
        r is Err ==> (r.unwrap_err() == TokenizeError::UnknownTokenizer || r.unwrap_err()
            == TokenizeError::Encoding || r.unwrap_err() == TokenizeError::DecodeInvalidUtf8),
        r is Ok ==> cat(texts_of(r.unwrap()@)) == text@,
        spec_name_of(tokenizer@) is Some && text@.len() == 0 ==> r is Ok && r.unwrap()@.len()
            == 0,
        spec_name_of(tokenizer@) is Some ==> tokenize_outcome(
            variant_table(spec_name_of(tokenizer@).unwrap()),
            spec_specials(spec_name_of(tokenizer@).unwrap()),
            text@,
            r,
        ),
{
    let name = match parse_name(tokenizer) {
        None => {
            return Err(TokenizeError::UnknownTokenizer);
        },
        Some(n) => n,
    };
    if text.is_empty() {
        let r: Result<Vec<TokenInfo>, TokenizeError> = Ok(Vec::new());
        proof {
            assert(cat(texts_of(Seq::<TokenInfo>::empty())) =~= Seq::<char>::empty());
            assert(text@ =~= Seq::<char>::empty());
            lemma_tokenize_outcome_empty(variant_table(name), spec_specials(name), text@, r);
        }
        return r;
    }
    match reg.resolve(name) {
        Err(e) => {
            proof {
                assert(false);
            }
            return Err(e);
        },
        Ok(()) => {},
    }
    match reg.get(name) {
        None => {
            proof {
                assert(false);
            }
            Err(TokenizeError::Load)
        },
        Some(v) => {
            let r = tokenize_core(v, text);
            proof {
                assert(is_loaded_variant(reg.slot(name).unwrap(), name));
                lemma_loaded_variant_table(*v, name);
            }
            r
        },
    }
}

/// The recognized tokenizer names, in their stable order. The alias
/// `gpt2` is accepted by `tokenize` but is not part of this list.
pub fn get_available_tokenizers() -> (r: Vec<String>)
    ensures
        r@.len() == 6,
        r@[0]@ == "o200k_harmony"@,
        r@[1]@ == "o200k_base"@,
        r@[2]@ == "cl100k_base"@,
        r@[3]@ == "p50k_base"@,
        r@[4]@ == "p50k_edit"@,
        r@[5]@ == "r50k_base"@,
        forall|k: int| 0 <= k < r@.len() ==> spec_name_of((#[trigger] r@[k])@) is Some,
        forall|k: int| 0 <= k < r@.len() ==> (#[trigger] r@[k])@ != "gpt2"@,
{
    let mut v: Vec<String> = Vec::new();
    v.push("o200k_harmony".to_owned());
    v.push("o200k_base".to_owned());
    v.push("cl100k_base".to_owned());
    v.push("p50k_base".to_owned());
    v.push("p50k_edit".to_owned());
    v.push("r50k_base".to_owned());
    proof {
        reveal_strlit("gpt2");
        reveal_strlit("o200k_harmony");
        reveal_strlit("o200k_base");
        reveal_strlit("cl100k_base");
        reveal_strlit("p50k_base");
        reveal_strlit("p50k_edit");
        reveal_strlit("r50k_base");
        assert("gpt2"@.len() == 4);
        assert("o200k_harmony"@.len() == 13);
        assert("o200k_base"@.len() == 10);
        assert("cl100k_base"@.len() == 11);
        assert("p50k_base"@.len() == 9);
        assert("p50k_edit"@.len() == 9);
        assert("r50k_base"@.len() == 9);
        assert forall|k: int| 0 <= k < v@.len() implies spec_name_of((#[trigger] v@[k])@) is Some
            && (#[trigger] v@[k])@ != "gpt2"@ by {
            if k == 0 {
                assert(v@[k]@ == "o200k_harmony"@);
            } else if k == 1 {
                assert(v@[k]@ == "o200k_base"@);
            } else if k == 2 {
                assert(v@[k]@ == "cl100k_base"@);
            } else if k == 3 {
                assert(v@[k]@ == "p50k_base"@);
            } else if k == 4 {
                assert(v@[k]@ == "p50k_edit"@);
            } else {
                assert(v@[k]@ == "r50k_base"@);
            }
        }
    }
    v
}

} // verus!
