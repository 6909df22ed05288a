//! The boundary to the tiktoken-rs crate, which supplies each tokenizer
//! variant's pre-built vocabulary artifact. The loaders build a `CoreBPE`
//! from data embedded in that crate; `extract_vocab` then reads the
//! vocabulary out of it, one id at a time, into the library's own store.
use vstd::prelude::*;

use vstd::utf8::encode_utf8;

use crate::vocab::{table_matches, Vocabulary};

verus! {

#[verifier::external_type_specification]
#[verifier::external_body]
pub struct ExCoreBPE(tiktoken_rs::CoreBPE);

/// The id-to-bytes contents of a loaded tokenizer: its regular and its
/// special vocabulary together, the two maps `CoreBPE::decode_bytes` reads.
pub uninterp spec fn bpe_vocab(bpe: tiktoken_rs::CoreBPE) -> Map<u32, Seq<u8>>;

/// The contents of one vocabulary artifact embedded in the tiktoken-rs
/// crate. The artifacts are fixed at compile time, so each is one
/// constant map; the codes stand for o200k_harmony (0), o200k_base (1),
/// cl100k_base (2), p50k_base (3), p50k_edit (4) and r50k_base (5), as
/// the loaders below state.
pub uninterp spec fn artifact_vocab(code: u8) -> Map<u32, Seq<u8>>;

/// Relies on `CoreBPE::decode_bytes`: for a single id it returns that id's
/// bytes from the tokenizer's vocabulary (regular or special), and fails
/// exactly when the id is in neither.
#[verifier::external_body]
fn probe_token_bytes(bpe: &tiktoken_rs::CoreBPE, id: u32) -> (r: Option<Vec<u8>>)
    ensures
        r is Some <==> bpe_vocab(*bpe).dom().contains(id),
        r is Some ==> r.unwrap()@ == bpe_vocab(*bpe)[id],
{
    bpe.decode_bytes(&[id]).ok()
}

/// Relies on `tiktoken_rs::o200k_harmony`: builds that tokenizer from the
/// artifact embedded in that crate, which is fixed and well-formed, so
/// construction succeeds and its contents are the constant map
/// `artifact_vocab(0)`. The special tokens listed are the ones that
/// loader inserts, at ids no regular entry of the artifact carries.
#[verifier::external_body]
pub(crate) fn load_o200k_harmony() -> (r: Option<tiktoken_rs::CoreBPE>)
    ensures
        r is Some,
        bpe_vocab(r.unwrap()) == artifact_vocab(0),
        bpe_vocab(r.unwrap()).contains_pair(199998u32, encode_utf8("<|startoftext|>"@)),
        bpe_vocab(r.unwrap()).contains_pair(199999u32, encode_utf8("<|endoftext|>"@)),
        bpe_vocab(r.unwrap()).contains_pair(200002u32, encode_utf8("<|return|>"@)),
        bpe_vocab(r.unwrap()).contains_pair(200003u32, encode_utf8("<|constrain|>"@)),
        bpe_vocab(r.unwrap()).contains_pair(200005u32, encode_utf8("<|channel|>"@)),
        bpe_vocab(r.unwrap()).contains_pair(200006u32, encode_utf8("<|start|>"@)),
        bpe_vocab(r.unwrap()).contains_pair(200007u32, encode_utf8("<|end|>"@)),
        bpe_vocab(r.unwrap()).contains_pair(200008u32, encode_utf8("<|message|>"@)),
        bpe_vocab(r.unwrap()).contains_pair(200012u32, encode_utf8("<|call|>"@)),
{
    tiktoken_rs::o200k_harmony().ok()
}

/// Relies on `tiktoken_rs::o200k_base`: builds that tokenizer from the
/// artifact embedded in that crate, which is fixed and well-formed, so
/// construction succeeds and its contents are the constant map
/// `artifact_vocab(1)`. The special tokens listed are the ones that
/// loader inserts, at ids no regular entry of the artifact carries.
#[verifier::external_body]
pub(crate) fn load_o200k_base() -> (r: Option<tiktoken_rs::CoreBPE>)
    ensures
        r is Some,
        bpe_vocab(r.unwrap()) == artifact_vocab(1),
        bpe_vocab(r.unwrap()).contains_pair(199999u32, encode_utf8("<|endoftext|>"@)),
        bpe_vocab(r.unwrap()).contains_pair(200018u32, encode_utf8("<|endofprompt|>"@)),
{
    tiktoken_rs::o200k_base().ok()
}

/// Relies on `tiktoken_rs::cl100k_base`: builds that tokenizer from the
/// artifact embedded in that crate, which is fixed and well-formed, so
/// construction succeeds and its contents are the constant map
/// `artifact_vocab(2)`. The special tokens listed are the ones that
/// loader inserts, at ids no regular entry of the artifact carries.
#[verifier::external_body]
pub(crate) fn load_cl100k_base() -> (r: Option<tiktoken_rs::CoreBPE>)
    ensures
        r is Some,
        bpe_vocab(r.unwrap()) == artifact_vocab(2),
        bpe_vocab(r.unwrap()).contains_pair(100257u32, encode_utf8("<|endoftext|>"@)),
        bpe_vocab(r.unwrap()).contains_pair(100258u32, encode_utf8("<|fim_prefix|>"@)),
        bpe_vocab(r.unwrap()).contains_pair(100259u32, encode_utf8("<|fim_middle|>"@)),
        bpe_vocab(r.unwrap()).contains_pair(100260u32, encode_utf8("<|fim_suffix|>"@)),
        bpe_vocab(r.unwrap()).contains_pair(100276u32, encode_utf8("<|endofprompt|>"@)),
{
    tiktoken_rs::cl100k_base().ok()
}

/// Relies on `tiktoken_rs::p50k_base`: builds that tokenizer from the
/// artifact embedded in that crate, which is fixed and well-formed, so
/// construction succeeds and its contents are the constant map
/// `artifact_vocab(3)`. The special tokens listed are the ones that
/// loader inserts, at ids no regular entry of the artifact carries.
#[verifier::external_body]
pub(crate) fn load_p50k_base() -> (r: Option<tiktoken_rs::CoreBPE>)
    ensures
        r is Some,
        bpe_vocab(r.unwrap()) == artifact_vocab(3),
        bpe_vocab(r.unwrap()).contains_pair(50256u32, encode_utf8("<|endoftext|>"@)),
{
    tiktoken_rs::p50k_base().ok()
}

/// Relies on `tiktoken_rs::p50k_edit`: builds that tokenizer from the
/// artifact embedded in that crate, which is fixed and well-formed, so
/// construction succeeds and its contents are the constant map
/// `artifact_vocab(4)`. The special tokens listed are the ones that
/// loader inserts, at ids no regular entry of the artifact carries.
#[verifier::external_body]
pub(crate) fn load_p50k_edit() -> (r: Option<tiktoken_rs::CoreBPE>)
    ensures
        r is Some,
        bpe_vocab(r.unwrap()) == artifact_vocab(4),
        bpe_vocab(r.unwrap()).contains_pair(50256u32, encode_utf8("<|endoftext|>"@)),
        bpe_vocab(r.unwrap()).contains_pair(50281u32, encode_utf8("<|fim_prefix|>"@)),
        bpe_vocab(r.unwrap()).contains_pair(50282u32, encode_utf8("<|fim_middle|>"@)),
        bpe_vocab(r.unwrap()).contains_pair(50283u32, encode_utf8("<|fim_suffix|>"@)),
{
    tiktoken_rs::p50k_edit().ok()
}

/// Relies on `tiktoken_rs::r50k_base`: builds that tokenizer from the
/// artifact embedded in that crate, which is fixed and well-formed, so
/// construction succeeds and its contents are the constant map
/// `artifact_vocab(5)`. The special tokens listed are the ones that
/// loader inserts, at ids no regular entry of the artifact carries.
#[verifier::external_body]
pub(crate) fn load_r50k_base() -> (r: Option<tiktoken_rs::CoreBPE>)
    ensures
        r is Some,
        bpe_vocab(r.unwrap()) == artifact_vocab(5),
        bpe_vocab(r.unwrap()).contains_pair(50256u32, encode_utf8("<|endoftext|>"@)),
{
    tiktoken_rs::r50k_base().ok()
}

/// Reads the vocabulary out of a loaded tokenizer: every id below `limit`
/// that the tokenizer knows, paired with its bytes, in increasing id order.
pub fn extract_vocab(bpe: &tiktoken_rs::CoreBPE, limit: u32) -> (v: Vocabulary)
    ensures
        v.wf(),
        table_matches(v.model(), bpe_vocab(*bpe), limit),
{
    let mut entries: Vec<(u32, Vec<u8>)> = Vec::new();
    let mut id: u32 = 0;
    while id < limit
        invariant
            id <= limit,
            forall|k: int| 0 <= k < entries@.len() ==> ((#[trigger] entries@[k]).0 < id
                && bpe_vocab(*bpe).dom().contains(entries@[k].0) && entries@[k].1@ == bpe_vocab(
                *bpe,
            )[entries@[k].0]),
            forall|k1: int, k2: int| 0 <= k1 < k2 < entries@.len() ==> (#[trigger] entries@[k1]).0
                < (#[trigger] entries@[k2]).0,
            forall|id2: u32| id2 < id && bpe_vocab(*bpe).dom().contains(id2) ==> exists|k: int|
                0 <= k < entries@.len() && (#[trigger] entries@[k]).0 == id2,
        decreases limit - id,
    {
        match probe_token_bytes(bpe, id) {
            None => {},
            Some(bytes) => {
                let ghost before = entries@;
                entries.push((id, bytes));
                proof {
                    assert(entries@[before.len() as int].0 == id);
                    assert forall|id2: u32|
                        id2 < id + 1 && bpe_vocab(*bpe).dom().contains(id2) implies exists|k: int|
                        0 <= k < entries@.len() && (#[trigger] entries@[k]).0 == id2 by {
                        if id2 < id {
                            let k = choose|k: int|
                                0 <= k < before.len() && (#[trigger] before[k]).0 == id2;
                            assert(entries@[k].0 == id2);
                        } else {
                            assert(entries@[before.len() as int].0 == id2);
                        }
                    }
                }
            },
        }
        id += 1;
    }
    let ghost tbl = entries@.map(|i: int, e: (u32, Vec<u8>)| (e.0, e.1@));
    proof {
        assert forall|i: int, j: int| 0 <= i < j < tbl.len() implies (#[trigger] tbl[i]).0 != (
        #[trigger] tbl[j]).0 by {
            assert(entries@[i].0 < entries@[j].0);
        }
    }
    let ghost es = entries@;
    match Vocabulary::new(entries) {
        Some(v) => {
            proof {
                assert forall|id2: u32|
                    id2 < limit && bpe_vocab(*bpe).dom().contains(id2) implies exists|k: int|
                    0 <= k < v.model().len() && (#[trigger] v.model()[k]).0 == id2 by {
                    let k = choose|k: int| 0 <= k < es.len() && (#[trigger] es[k]).0 == id2;
                    assert(v.model()[k].0 == id2);
                }
            }
            v
        },
        None => {
            proof {
                assert(false);
            }
            Vocabulary::empty()
        },
    }
}

} // verus!
