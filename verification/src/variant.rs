//! A tokenizer variant: a vocabulary together with the operations of the
//! pipeline — pre-tokenize, encode chunk by chunk, decode — and the laws
//! that relate them.
use vstd::prelude::*;

use vstd::utf8::{encode_utf8, valid_utf8};

use crate::bpe::{encode_chunk, lemma_decode_append, lemma_encode_chunk_roundtrip, spec_decode,
    spec_encode_chunk};
use crate::text::lemma_encode_utf8_nonempty;
use crate::errors::TokenizeError;
use crate::pretok::{cat, lemma_split_cat, pre_tokenize, spec_split};
use crate::specials::{find_special, find_special_from, lemma_find_special_bounds, pairs_view};
use crate::text::string_from_bytes;
use crate::tiktoken::{artifact_vocab, bpe_vocab, extract_vocab, load_cl100k_base, load_o200k_base,
    load_o200k_harmony, load_p50k_base, load_p50k_edit, load_r50k_base};
use crate::vocab::{distinct_ids, lemma_lookup_bytes_from_entry, lemma_table_matches_distinct,
    lemma_table_matches_unique, lookup_bytes, table_matches, Vocabulary};

verus! {

/// The recognized tokenizer variants.
#[derive(PartialEq, Eq, Structural, Clone, Copy, Debug)]
pub enum TokenizerName {
    O200kHarmony,
    O200kBase,
    Cl100kBase,
    P50kBase,
    P50kEdit,
    R50kBase,
}

/// The code of the artifact each name loads (see `artifact_vocab`).
pub open spec fn spec_artifact_code(name: TokenizerName) -> u8 {
    match name {
        TokenizerName::O200kHarmony => 0,
        TokenizerName::O200kBase => 1,
        TokenizerName::Cl100kBase => 2,
        TokenizerName::P50kBase => 3,
        TokenizerName::P50kEdit => 4,
        TokenizerName::R50kBase => 5,
    }
}

/// One past the highest id each artifact assigns: the span probed when
/// the vocabulary is read out of it.
pub open spec fn spec_probe_limit(name: TokenizerName) -> u32 {
    match name {
        TokenizerName::O200kHarmony => 201088,
        TokenizerName::O200kBase => 200019,
        TokenizerName::Cl100kBase => 100277,
        TokenizerName::P50kBase => 50281,
        TokenizerName::P50kEdit => 50284,
        TokenizerName::R50kBase => 50257,
    }
}

/// The special tokens modeled for each variant, in the order the scanner
/// consults them. The o200k_harmony artifact also defines a long run of
/// reserved filler literals (`<|reserved_200000|>` and its kin) that are
/// not modeled here: their ids stay ordinary vocabulary entries, which
/// decode by id but are not scanned for as literals.
pub open spec fn spec_specials(name: TokenizerName) -> Seq<(u32, Seq<u8>)> {
    match name {
        TokenizerName::O200kHarmony => seq![
            (199998u32, encode_utf8("<|startoftext|>"@)),
            (199999u32, encode_utf8("<|endoftext|>"@)),
            (200002u32, encode_utf8("<|return|>"@)),
            (200003u32, encode_utf8("<|constrain|>"@)),
            (200005u32, encode_utf8("<|channel|>"@)),
            (200006u32, encode_utf8("<|start|>"@)),
            (200007u32, encode_utf8("<|end|>"@)),
            (200008u32, encode_utf8("<|message|>"@)),
            (200012u32, encode_utf8("<|call|>"@)),
        ],
        TokenizerName::O200kBase => seq![
            (199999u32, encode_utf8("<|endoftext|>"@)),
            (200018u32, encode_utf8("<|endofprompt|>"@)),
        ],
        TokenizerName::Cl100kBase => seq![
            (100257u32, encode_utf8("<|endoftext|>"@)),
            (100258u32, encode_utf8("<|fim_prefix|>"@)),
            (100259u32, encode_utf8("<|fim_middle|>"@)),
            (100260u32, encode_utf8("<|fim_suffix|>"@)),
            (100276u32, encode_utf8("<|endofprompt|>"@)),
        ],
        TokenizerName::P50kBase => seq![(50256u32, encode_utf8("<|endoftext|>"@))],
        TokenizerName::P50kEdit => seq![
            (50256u32, encode_utf8("<|endoftext|>"@)),
            (50281u32, encode_utf8("<|fim_prefix|>"@)),
            (50282u32, encode_utf8("<|fim_middle|>"@)),
            (50283u32, encode_utf8("<|fim_suffix|>"@)),
        ],
        TokenizerName::R50kBase => seq![(50256u32, encode_utf8("<|endoftext|>"@))],
    }
}

/// A variant as loading `name` yields it: its table drawn from the named
/// artifact over the probed span, its special list the modeled one.
pub open spec fn is_loaded_variant(v: Variant, name: TokenizerName) -> bool {
    &&& v.wf()
    &&& table_matches(v.table(), artifact_vocab(spec_artifact_code(name)), spec_probe_limit(name))
    &&& v.specials_view() == spec_specials(name)
}

/// The one table loading `name` can yield: `table_matches` pins the
/// sequence completely, so this names it.
pub open spec fn variant_table(name: TokenizerName) -> Seq<(u32, Seq<u8>)> {
    choose|t: Seq<(u32, Seq<u8>)>|
        table_matches(t, artifact_vocab(spec_artifact_code(name)), spec_probe_limit(name))
}

/// Every loaded variant carries exactly `variant_table` and
/// `spec_specials` of its name: repeated loads observe the same tokenizer.
pub proof fn lemma_loaded_variant_table(v: Variant, name: TokenizerName)
    requires
        is_loaded_variant(v, name),
    ensures
        v.table() == variant_table(name),
        v.specials_view() == spec_specials(name),
{
    let m = artifact_vocab(spec_artifact_code(name));
    let limit = spec_probe_limit(name);
    assert(exists|t: Seq<(u32, Seq<u8>)>| table_matches(t, m, limit)) by {
        assert(table_matches(v.table(), m, limit));
    }
    lemma_table_matches_unique(v.table(), variant_table(name), m, limit);
}

/// An id the artifact pairs with given bytes looks those bytes up in any
/// table drawn from the artifact.
proof fn lemma_special_entry(
    tbl: Seq<(u32, Seq<u8>)>,
    m: Map<u32, Seq<u8>>,
    limit: u32,
    id: u32,
    lit: Seq<u8>,
)
    requires
        table_matches(tbl, m, limit),
        m.contains_pair(id, lit),
        id < limit,
    ensures
        lookup_bytes(tbl, id) == Option::Some(lit),
{
    lemma_table_matches_distinct(tbl, m, limit);
    let k = choose|k: int| 0 <= k < tbl.len() && (#[trigger] tbl[k]).0 == id;
    lemma_lookup_bytes_from_entry(tbl, k);
}

/// Encoding of a sequence of chunks: each chunk's ids, concatenated;
/// `None` as soon as one chunk fails.
pub open spec fn spec_encode_chunks(tbl: Seq<(u32, Seq<u8>)>, chunks: Seq<Seq<u8>>) -> Option<
    Seq<u32>,
>
    decreases chunks.len(),
{
    if chunks.len() == 0 {
        Option::Some(Seq::empty())
    } else {
        match spec_encode_chunk(tbl, chunks[0]) {
            Option::None => Option::None,
            Option::Some(h) => match spec_encode_chunks(tbl, chunks.drop_first()) {
                Option::None => Option::None,
                Option::Some(t) => Option::Some(h + t),
            },
        }
    }
}

/// What encoding a whole byte string returns: pre-tokenize, then encode
/// the chunks in order.
pub open spec fn spec_encode_text(tbl: Seq<(u32, Seq<u8>)>, bytes: Seq<u8>) -> Option<Seq<u32>> {
    spec_encode_chunks(tbl, spec_split(bytes))
}

/// Decoding the encoding of a chunk sequence yields its concatenation.
pub proof fn lemma_encode_chunks_roundtrip(tbl: Seq<(u32, Seq<u8>)>, chunks: Seq<Seq<u8>>)
    requires
        distinct_ids(tbl),
        spec_encode_chunks(tbl, chunks) is Some,
    ensures
        spec_decode(tbl, spec_encode_chunks(tbl, chunks).unwrap()) == Option::Some(cat(chunks)),
    decreases chunks.len(),
{
    if chunks.len() == 0 {
        assert(spec_decode(tbl, Seq::<u32>::empty()) == Option::Some(Seq::<u8>::empty()));
        assert(cat(chunks) =~= Seq::<u8>::empty());
    } else {
        let h = spec_encode_chunk(tbl, chunks[0]).unwrap();
        let t = spec_encode_chunks(tbl, chunks.drop_first()).unwrap();
        lemma_encode_chunk_roundtrip(tbl, chunks[0]);
        lemma_encode_chunks_roundtrip(tbl, chunks.drop_first());
        lemma_decode_append(tbl, h, t);
    }
}

/// Round trip for a whole input: when encoding succeeds, decoding the
/// resulting ids yields exactly the input bytes.
pub proof fn lemma_encode_decode_roundtrip(tbl: Seq<(u32, Seq<u8>)>, bytes: Seq<u8>)
    requires
        distinct_ids(tbl),
        spec_encode_text(tbl, bytes) is Some,
    ensures
        spec_decode(tbl, spec_encode_text(tbl, bytes).unwrap()) == Option::Some(bytes),
{
    lemma_encode_chunks_roundtrip(tbl, spec_split(bytes));
    lemma_split_cat(bytes);
}

/// Tokenization is reproducible: two variants loaded under one name
/// carry the same table and specials, so encoding any input through
/// either gives the same result.
pub proof fn lemma_encode_deterministic(
    v1: Variant,
    v2: Variant,
    name: TokenizerName,
    bytes: Seq<u8>,
)
    requires
        is_loaded_variant(v1, name),
        is_loaded_variant(v2, name),
    ensures
        v1.table() == v2.table(),
        v1.specials_view() == v2.specials_view(),
        spec_encode_with_specials(v1.table(), v1.specials_view(), bytes)
            == spec_encode_with_specials(v2.table(), v2.specials_view(), bytes),
{
    lemma_loaded_variant_table(v1, name);
    lemma_loaded_variant_table(v2, name);
}

/// When decoding succeeds, every id was found, and the result is the
/// concatenation of each id's bytes in order.
pub proof fn lemma_decode_elements(tbl: Seq<(u32, Seq<u8>)>, ids: Seq<u32>)
    requires
        spec_decode(tbl, ids) is Some,
    ensures
        forall|k: int| 0 <= k < ids.len() ==> lookup_bytes(tbl, #[trigger] ids[k]) is Some,
        spec_decode(tbl, ids).unwrap() == cat(
            ids.map_values(|id: u32| lookup_bytes(tbl, id).unwrap()),
        ),
    decreases ids.len(),
{
    let m = ids.map_values(|id: u32| lookup_bytes(tbl, id).unwrap());
    if ids.len() == 0 {
        assert(m.len() == 0);
    } else {
        lemma_decode_elements(tbl, ids.drop_first());
        assert forall|k: int| 0 <= k < ids.len() implies lookup_bytes(tbl, #[trigger] ids[k]) is Some by {
            if k > 0 {
                assert(ids[k] == ids.drop_first()[k - 1]);
            }
        }
        assert(m[0] == lookup_bytes(tbl, ids[0]).unwrap());
        assert(m.drop_first() =~= ids.drop_first().map_values(
            |id: u32| lookup_bytes(tbl, id).unwrap(),
        ));
    }
}

/// A chunk sequence's encoding has at most one id per concatenated byte.
pub proof fn lemma_encode_chunks_count(tbl: Seq<(u32, Seq<u8>)>, chunks: Seq<Seq<u8>>)
    requires
        spec_encode_chunks(tbl, chunks) is Some,
    ensures
        spec_encode_chunks(tbl, chunks).unwrap().len() <= cat(chunks).len(),
    decreases chunks.len(),
{
    if chunks.len() > 0 {
        crate::bpe::lemma_encode_chunk_count(tbl, chunks[0]);
        lemma_encode_chunks_count(tbl, chunks.drop_first());
    }
}

/// The ordinary encoding of an input has at most one id per input byte.
pub proof fn lemma_encode_text_count(tbl: Seq<(u32, Seq<u8>)>, bytes: Seq<u8>)
    requires
        spec_encode_text(tbl, bytes) is Some,
    ensures
        spec_encode_text(tbl, bytes).unwrap().len() <= bytes.len(),
{
    lemma_encode_chunks_count(tbl, spec_split(bytes));
    lemma_split_cat(bytes);
}

/// The full encoding of an input has at most one id per input byte:
/// every token, special ones included, covers at least one byte.
pub proof fn lemma_encode_specials_count(
    tbl: Seq<(u32, Seq<u8>)>,
    specials: Seq<(u32, Seq<u8>)>,
    bytes: Seq<u8>,
)
    requires
        spec_encode_with_specials(tbl, specials, bytes) is Some,
    ensures
        spec_encode_with_specials(tbl, specials, bytes).unwrap().len() <= bytes.len(),
    decreases bytes.len(),
{
    match find_special_from(specials, bytes, 0) {
        Option::None => {
            lemma_encode_text_count(tbl, bytes);
        },
        Option::Some(ps) => {
            let lit = specials[ps.1].1;
            if 0 <= ps.0 && 1 <= lit.len() && ps.0 + lit.len() <= bytes.len() {
                lemma_encode_text_count(tbl, bytes.take(ps.0));
                lemma_encode_specials_count(tbl, specials, bytes.skip(ps.0 + lit.len()));
            } else {
                lemma_encode_text_count(tbl, bytes);
            }
        },
    }
}

/// The special-token list agrees with the vocabulary: every literal is
/// nonempty, and its reserved id maps back to exactly that literal.
pub open spec fn specials_wf(tbl: Seq<(u32, Seq<u8>)>, specials: Seq<(u32, Seq<u8>)>) -> bool {
    forall|s: int| 0 <= s < specials.len() ==> ((#[trigger] specials[s]).1.len() >= 1
        && lookup_bytes(tbl, specials[s].0) == Option::Some(specials[s].1))
}

/// What the full encoder returns: special literals are extracted by
/// exact match, leftmost first, and map directly to their reserved id;
/// the stretches between go through pre-tokenization and BPE merging.
pub open spec fn spec_encode_with_specials(
    tbl: Seq<(u32, Seq<u8>)>,
    specials: Seq<(u32, Seq<u8>)>,
    bytes: Seq<u8>,
) -> Option<Seq<u32>>
    decreases bytes.len(),
{
    match find_special_from(specials, bytes, 0) {
        Option::None => spec_encode_text(tbl, bytes),
        Option::Some(ps) => {
            let lit = specials[ps.1].1;
            if 0 <= ps.0 && 1 <= lit.len() && ps.0 + lit.len() <= bytes.len() {
                match spec_encode_text(tbl, bytes.take(ps.0)) {
                    Option::None => Option::None,
                    Option::Some(pre) => match spec_encode_with_specials(
                        tbl,
                        specials,
                        bytes.skip(ps.0 + lit.len()),
                    ) {
                        Option::None => Option::None,
                        Option::Some(rest) => Option::Some(pre + seq![specials[ps.1].0] + rest),
                    },
                }
            } else {
                spec_encode_text(tbl, bytes)
            }
        },
    }
}

/// Round trip for the full encoder: special ids decode back to their
/// literals, so decoding still recovers exactly the input bytes.
pub proof fn lemma_encode_specials_roundtrip(
    tbl: Seq<(u32, Seq<u8>)>,
    specials: Seq<(u32, Seq<u8>)>,
    bytes: Seq<u8>,
)
    requires
        distinct_ids(tbl),
        specials_wf(tbl, specials),
        spec_encode_with_specials(tbl, specials, bytes) is Some,
    ensures
        spec_decode(tbl, spec_encode_with_specials(tbl, specials, bytes).unwrap())
            == Option::Some(bytes),
    decreases bytes.len(),
{
    match find_special_from(specials, bytes, 0) {
        Option::None => {
            lemma_encode_decode_roundtrip(tbl, bytes);
        },
        Option::Some(ps) => {
            lemma_find_special_bounds(specials, bytes, 0);
            let pos = ps.0;
            let id = specials[ps.1].0;
            let lit = specials[ps.1].1;
            let tail = bytes.skip(pos + lit.len());
            let pre = spec_encode_text(tbl, bytes.take(pos)).unwrap();
            let rest = spec_encode_with_specials(tbl, specials, tail).unwrap();
            lemma_encode_decode_roundtrip(tbl, bytes.take(pos));
            lemma_encode_specials_roundtrip(tbl, specials, tail);
            assert(spec_decode(tbl, seq![id]) == Option::Some(lit)) by {
                assert(specials[ps.1].1.len() >= 1 && lookup_bytes(tbl, specials[ps.1].0)
                    == Option::Some(specials[ps.1].1));
                assert(seq![id][0] == id);
                assert(seq![id].drop_first() =~= Seq::<u32>::empty());
                assert(spec_decode(tbl, Seq::<u32>::empty()) == Option::Some(Seq::<u8>::empty()));
                assert(lit + Seq::<u8>::empty() =~= lit);
            }
            lemma_decode_append(tbl, pre, seq![id]);
            lemma_decode_append(tbl, pre + seq![id], rest);
            assert(pre + seq![id] + rest =~= spec_encode_with_specials(
                tbl,
                specials,
                bytes,
            ).unwrap());
            assert(bytes.take(pos) + lit + tail =~= bytes) by {
                assert(bytes.subrange(pos, pos + lit.len()) == lit);
                assert forall|j: int| 0 <= j < lit.len() implies lit[j] == bytes[pos + j] by {
                    assert(bytes.subrange(pos, pos + lit.len())[j] == bytes[pos + j]);
                }
            }
        },
    }
}

/// The special tokens each variant reserves, as its artifact defines
/// them. One variant also carries a long run of reserved filler ids;
/// those literals never occur in real text and are not scanned for.
fn specials_for(name: TokenizerName) -> (r: Vec<(u32, Vec<u8>)>)
    ensures
        pairs_view(r@) == spec_specials(name),
{
    let mut v: Vec<(u32, Vec<u8>)> = Vec::new();
    match name {
        TokenizerName::R50kBase => {
            v.push((50256, "<|endoftext|>".as_bytes_vec()));
        },
        TokenizerName::P50kBase => {
            v.push((50256, "<|endoftext|>".as_bytes_vec()));
        },
        TokenizerName::P50kEdit => {
            v.push((50256, "<|endoftext|>".as_bytes_vec()));
            v.push((50281, "<|fim_prefix|>".as_bytes_vec()));
            v.push((50282, "<|fim_middle|>".as_bytes_vec()));
            v.push((50283, "<|fim_suffix|>".as_bytes_vec()));
        },
        TokenizerName::Cl100kBase => {
            v.push((100257, "<|endoftext|>".as_bytes_vec()));
            v.push((100258, "<|fim_prefix|>".as_bytes_vec()));
            v.push((100259, "<|fim_middle|>".as_bytes_vec()));
            v.push((100260, "<|fim_suffix|>".as_bytes_vec()));
            v.push((100276, "<|endofprompt|>".as_bytes_vec()));
        },
        TokenizerName::O200kBase => {
            v.push((199999, "<|endoftext|>".as_bytes_vec()));
            v.push((200018, "<|endofprompt|>".as_bytes_vec()));
        },
        TokenizerName::O200kHarmony => {
            v.push((199998, "<|startoftext|>".as_bytes_vec()));
            v.push((199999, "<|endoftext|>".as_bytes_vec()));
            v.push((200002, "<|return|>".as_bytes_vec()));
            v.push((200003, "<|constrain|>".as_bytes_vec()));
            v.push((200005, "<|channel|>".as_bytes_vec()));
            v.push((200006, "<|start|>".as_bytes_vec()));
            v.push((200007, "<|end|>".as_bytes_vec()));
            v.push((200008, "<|message|>".as_bytes_vec()));
            v.push((200012, "<|call|>".as_bytes_vec()));
        },
    }
    proof {
        assert(pairs_view(v@) =~= spec_specials(name));
    }
    v
}

/// A named bundle of vocabulary, special tokens and splitting rules,
/// constructed once from its artifact and immutable afterwards.
#[derive(Debug)]
pub struct Variant {
    vocab: Vocabulary,
    specials: Vec<(u32, Vec<u8>)>,
}

impl Variant {
    /// The variant's id-to-bytes table.
    pub closed spec fn table(&self) -> Seq<(u32, Seq<u8>)> {
        self.vocab.model()
    }

    /// The variant's special-token list.
    pub closed spec fn specials_view(&self) -> Seq<(u32, Seq<u8>)> {
        pairs_view(self.specials@)
    }

    pub open spec fn wf(&self) -> bool {
        distinct_ids(self.table()) && specials_wf(self.table(), self.specials_view())
    }

    /// A variant without special tokens.
    pub fn from_vocab(vocab: Vocabulary) -> (v: Variant)
        requires
            vocab.wf(),
        ensures
            v.wf(),
            v.table() == vocab.model(),
            v.specials_view() == Seq::<(u32, Seq<u8>)>::empty(),
    {
        let v = Variant { vocab, specials: Vec::new() };
        proof {
            assert(v.specials_view() =~= Seq::<(u32, Seq<u8>)>::empty());
        }
        v
    }

    /// A variant with special tokens. Refuses a special list that the
    /// vocabulary does not agree with: every literal must be nonempty and
    /// must be exactly what its reserved id decodes to.
    pub fn with_specials(vocab: Vocabulary, specials: Vec<(u32, Vec<u8>)>) -> (r: Option<Variant>)
        requires
            vocab.wf(),
        ensures
            r is Some <==> specials_wf(vocab.model(), pairs_view(specials@)),
            r is Some ==> r.unwrap().wf() && r.unwrap().table() == vocab.model()
                && r.unwrap().specials_view() == pairs_view(specials@),
    {
        let ghost sp = pairs_view(specials@);
        let n = specials.len();
        let mut s: usize = 0;
        while s < n
            invariant
                n == specials@.len(),
                s <= n,
                sp == pairs_view(specials@),
                vocab.wf(),
                forall|j: int| 0 <= j < s ==> ((#[trigger] sp[j]).1.len() >= 1 && lookup_bytes(
                    vocab.model(),
                    sp[j].0,
                ) == Option::Some(sp[j].1)),
            decreases n - s,
        {
            if specials[s].1.len() == 0 {
                proof {
                    assert(sp[s as int].1.len() == 0);
                }
                return None;
            }
            match vocab.id_to_bytes(specials[s].0) {
                None => {
                    proof {
                        assert(lookup_bytes(vocab.model(), sp[s as int].0) is None);
                    }
                    return None;
                },
                Some(found) => {
                    if !crate::vocab::eq_bytes(&found, &specials[s].1) {
                        proof {
                            assert(lookup_bytes(vocab.model(), sp[s as int].0) != Option::Some(
                                sp[s as int].1,
                            ));
                        }
                        return None;
                    }
                },
            }
            proof {
                assert(sp[s as int].1 == specials@[s as int].1@);
            }
            s += 1;
        }
        Some(Variant { vocab, specials })
    }

    /// Builds the named variant from its artifact. The artifacts are
    /// embedded and well-formed, so loading a recognized variant always
    /// succeeds, with the table and specials the name determines.
    pub fn load(name: TokenizerName) -> (r: Result<Variant, TokenizeError>)
        ensures
            r is Ok,
            is_loaded_variant(r.unwrap(), name),
    {
        let bpe_opt = match name {
            TokenizerName::O200kHarmony => load_o200k_harmony(),
            TokenizerName::O200kBase => load_o200k_base(),
            TokenizerName::Cl100kBase => load_cl100k_base(),
            TokenizerName::P50kBase => load_p50k_base(),
            TokenizerName::P50kEdit => load_p50k_edit(),
            TokenizerName::R50kBase => load_r50k_base(),
        };
        let ghost m = artifact_vocab(spec_artifact_code(name));
        let bpe = match bpe_opt {
            None => {
                proof {
                    assert(false);
                }
                return Err(TokenizeError::Load);
            },
            Some(b) => b,
        };
        proof {
            assert(bpe_vocab(bpe) == m);
        }
        let limit: u32 = match name {
            TokenizerName::O200kHarmony => 201088,
            TokenizerName::O200kBase => 200019,
            TokenizerName::Cl100kBase => 100277,
            TokenizerName::P50kBase => 50281,
            TokenizerName::P50kEdit => 50284,
            TokenizerName::R50kBase => 50257,
        };
        proof {
            assert(limit == spec_probe_limit(name));
        }
        let vocab = extract_vocab(&bpe, limit);
        let specials = specials_for(name);
        proof {
            let tbl = vocab.model();
            let sp = spec_specials(name);
            reveal_strlit("<|startoftext|>");
            reveal_strlit("<|endoftext|>");
            reveal_strlit("<|return|>");
            reveal_strlit("<|constrain|>");
            reveal_strlit("<|channel|>");
            reveal_strlit("<|start|>");
            reveal_strlit("<|end|>");
            reveal_strlit("<|message|>");
            reveal_strlit("<|call|>");
            reveal_strlit("<|endofprompt|>");
            reveal_strlit("<|fim_prefix|>");
            reveal_strlit("<|fim_middle|>");
            reveal_strlit("<|fim_suffix|>");
            lemma_encode_utf8_nonempty("<|startoftext|>"@);
            lemma_encode_utf8_nonempty("<|endoftext|>"@);
            lemma_encode_utf8_nonempty("<|return|>"@);
            lemma_encode_utf8_nonempty("<|constrain|>"@);
            lemma_encode_utf8_nonempty("<|channel|>"@);
            lemma_encode_utf8_nonempty("<|start|>"@);
            lemma_encode_utf8_nonempty("<|end|>"@);
            lemma_encode_utf8_nonempty("<|message|>"@);
            lemma_encode_utf8_nonempty("<|call|>"@);
            lemma_encode_utf8_nonempty("<|endofprompt|>"@);
            lemma_encode_utf8_nonempty("<|fim_prefix|>"@);
            lemma_encode_utf8_nonempty("<|fim_middle|>"@);
            lemma_encode_utf8_nonempty("<|fim_suffix|>"@);
            assert forall|s: int| 0 <= s < sp.len() implies ((#[trigger] sp[s]).1.len() >= 1
                && lookup_bytes(tbl, sp[s].0) == Option::Some(sp[s].1)) by {
                assert(bpe_vocab(bpe).contains_pair(sp[s].0, sp[s].1) && sp[s].0 < limit && sp[
                    s
                ].1.len() >= 1);
                lemma_special_entry(tbl, m, limit, sp[s].0, sp[s].1);
            }
        }
        let v = match Variant::with_specials(vocab, specials) {
            None => {
                proof {
                    assert(false);
                }
                return Err(TokenizeError::Load);
            },
            Some(v) => v,
        };
        Ok(v)
    }

    /// Encodes a whole input, special tokens included: exact occurrences
    /// of special literals map directly to their reserved id, leftmost
    /// first; everything between is encoded ordinarily.
    pub fn encode_with_specials(&self, input: &Vec<u8>) -> (r: Result<Vec<u32>, TokenizeError>)
        requires
            self.wf(),
        ensures
            r is Ok <==> spec_encode_with_specials(
                self.table(),
                self.specials_view(),
                input@,
            ) is Some,
            r is Ok ==> Some(r.unwrap()@) == spec_encode_with_specials(
                self.table(),
                self.specials_view(),
                input@,
            ),
            r is Err ==> r.unwrap_err() == TokenizeError::Encoding,
            r is Ok ==> spec_decode(self.table(), r.unwrap()@) == Some(input@),
        decreases input@.len(),
    {
        let ghost tbl = self.table();
        let ghost sp = self.specials_view();
        match find_special(&self.specials, input, 0) {
            None => self.encode_bytes(input),
            Some((pos, s)) => {
                proof {
                    lemma_find_special_bounds(sp, input@, 0);
                }
                let lit_len = self.specials[s].1.len();
                let n = input.len();
                let start = pos + lit_len;
                // the stretch before the special literal
                let mut pre: Vec<u8> = Vec::new();
                let mut t: usize = 0;
                while t < pos
                    invariant
                        t <= pos,
                        pos <= n == input@.len(),
                        pre@ == input@.take(t as int),
                    decreases pos - t,
                {
                    let b = input[t];
                    pre.push(b);
                    proof {
                        assert(pre@ =~= input@.take(t + 1));
                    }
                    t += 1;
                }
                // the remainder after the special literal
                let mut rest: Vec<u8> = Vec::new();
                let mut u: usize = start;
                while u < n
                    invariant
                        start <= u <= n == input@.len(),
                        rest@ == input@.subrange(start as int, u as int),
                    decreases n - u,
                {
                    let b = input[u];
                    rest.push(b);
                    proof {
                        assert(rest@ =~= input@.subrange(start as int, u + 1));
                    }
                    u += 1;
                }
                proof {
                    assert(rest@ =~= input@.skip(start as int));
                }
                let pre_ids = match self.encode_bytes(&pre) {
                    Err(_) => {
                        return Err(TokenizeError::Encoding);
                    },
                    Ok(x) => x,
                };
                let rest_ids = match self.encode_with_specials(&rest) {
                    Err(_) => {
                        return Err(TokenizeError::Encoding);
                    },
                    Ok(x) => x,
                };
                let mut out = pre_ids;
                let id = self.specials[s].0;
                out.push(id);
                let mut rest_ids = rest_ids;
                out.append(&mut rest_ids);
                proof {
                    let spec_pre = spec_encode_text(tbl, input@.take(pos as int)).unwrap();
                    let spec_rest = spec_encode_with_specials(
                        tbl,
                        sp,
                        input@.skip(pos + lit_len),
                    ).unwrap();
                    assert(out@ =~= spec_pre + seq![sp[s as int].0] + spec_rest);
                    lemma_encode_specials_roundtrip(tbl, sp, input@);
                }
                Ok(out)
            },
        }
    }

    /// Encodes a whole input: pre-tokenizes it and encodes the chunks in
    /// order. Fails exactly when some chunk has a final symbol outside
    /// the vocabulary.
    pub fn encode_bytes(&self, input: &Vec<u8>) -> (r: Result<Vec<u32>, TokenizeError>)
        requires
            self.wf(),
        ensures
            r is Ok <==> spec_encode_text(self.table(), input@) is Some,
            r is Ok ==> Some(r.unwrap()@) == spec_encode_text(self.table(), input@),
            r is Err ==> r.unwrap_err() == TokenizeError::Encoding,
            r is Ok ==> spec_decode(self.table(), r.unwrap()@) == Some(input@),
    {
        let ghost tbl = self.table();
        let chunks = pre_tokenize(input);
        let ghost cviews = chunks@.map(|i: int, c: Vec<u8>| c@);
        let mut ids: Vec<u32> = Vec::new();
        let mut c: usize = 0;
        proof {
            assert(cviews.skip(0) =~= cviews);
        }
        while c < chunks.len()
            invariant
                self.wf(),
                tbl == self.table(),
                c <= chunks@.len(),
                cviews == chunks@.map(|i: int, ch: Vec<u8>| ch@),
                spec_encode_text(tbl, input@) == spec_encode_chunks(tbl, cviews),
                spec_encode_chunks(tbl, cviews) == (match spec_encode_chunks(
                    tbl,
                    cviews.skip(c as int),
                ) {
                    Option::None => Option::None::<Seq<u32>>,
                    Option::Some(x) => Option::Some(ids@ + x),
                }),
            decreases chunks@.len() - c,
        {
            let ghost suffix = cviews.skip(c as int);
            proof {
                assert(suffix[0] == cviews[c as int]);
                assert(suffix.drop_first() =~= cviews.skip(c + 1));
            }
            match encode_chunk(&self.vocab, &chunks[c]) {
                Err(_) => {
                    proof {
                        assert(spec_encode_chunk(tbl, suffix[0]) is None);
                        assert(spec_encode_chunks(tbl, suffix) is None);
                    }
                    return Err(TokenizeError::Encoding);
                },
                Ok(chunk_ids) => {
                    let ghost old_ids = ids@;
                    let mut chunk_ids = chunk_ids;
                    let ghost h = chunk_ids@;
                    ids.append(&mut chunk_ids);
                    proof {
                        assert(ids@ == old_ids + h);
                        assert(spec_encode_chunk(tbl, suffix[0]) == Option::Some(h));
                        if spec_encode_chunks(tbl, cviews.skip(c + 1)) is Some {
                            let x = spec_encode_chunks(tbl, cviews.skip(c + 1)).unwrap();
                            assert(spec_encode_chunks(tbl, suffix) == Option::Some(h + x));
                            assert((old_ids + h) + x =~= old_ids + (h + x));
                        } else {
                            assert(spec_encode_chunks(tbl, suffix) is None);
                        }
                    }
                },
            }
            c += 1;
        }
        proof {
            assert(cviews.skip(chunks@.len() as int) =~= Seq::<Seq<u8>>::empty());
            assert(spec_encode_chunks(tbl, Seq::<Seq<u8>>::empty()) == Option::Some(
                Seq::<u32>::empty(),
            ));
            assert(ids@ + Seq::<u32>::empty() =~= ids@);
            lemma_encode_decode_roundtrip(tbl, input@);
        }
        Ok(ids)
    }

    /// Decodes ids to bytes: each id's bytes, concatenated in order.
    /// Fails exactly when an id is absent from the vocabulary.
    pub fn decode_to_bytes(&self, ids: &Vec<u32>) -> (r: Result<Vec<u8>, TokenizeError>)
        requires
            self.wf(),
        ensures
            r is Ok <==> spec_decode(self.table(), ids@) is Some,
            r is Ok ==> Some(r.unwrap()@) == spec_decode(self.table(), ids@),
            r is Err ==> r.unwrap_err() == TokenizeError::DecodeUnknownId,
    {
        let ghost tbl = self.table();
        let mut out: Vec<u8> = Vec::new();
        let mut k: usize = 0;
        proof {
            assert(ids@.skip(0) =~= ids@);
        }
        while k < ids.len()
            invariant
                self.wf(),
                tbl == self.table(),
                k <= ids@.len(),
                spec_decode(tbl, ids@) == (match spec_decode(tbl, ids@.skip(k as int)) {
                    Option::None => Option::None::<Seq<u8>>,
                    Option::Some(x) => Option::Some(out@ + x),
                }),
            decreases ids@.len() - k,
        {
            let ghost suffix = ids@.skip(k as int);
            proof {
                assert(suffix[0] == ids@[k as int]);
                assert(suffix.drop_first() =~= ids@.skip(k + 1));
            }
            match self.vocab.id_to_bytes(ids[k]) {
                None => {
                    proof {
                        assert(spec_decode(tbl, suffix) is None);
                    }
                    return Err(TokenizeError::DecodeUnknownId);
                },
                Some(bytes) => {
                    let ghost old_out = out@;
                    let ghost b = bytes@;
                    let mut bytes = bytes;
                    out.append(&mut bytes);
                    proof {
                        assert(out@ == old_out + b);
                        assert(lookup_bytes(tbl, suffix[0]) == Option::Some(b));
                        if spec_decode(tbl, ids@.skip(k + 1)) is Some {
                            let x = spec_decode(tbl, ids@.skip(k + 1)).unwrap();
                            assert(spec_decode(tbl, suffix) == Option::Some(b + x));
                            assert((old_out + b) + x =~= old_out + (b + x));
                        } else {
                            assert(spec_decode(tbl, suffix) is None);
                        }
                    }
                },
            }
            k += 1;
        }
        proof {
            assert(ids@.skip(ids@.len() as int) =~= Seq::<u32>::empty());
            assert(out@ + Seq::<u8>::empty() =~= out@);
        }
        Ok(out)
    }

    /// Decodes ids to text. An unknown id and ill-formed bytes fail
    /// distinctly, in that order.
    pub fn decode(&self, ids: &Vec<u32>) -> (r: Result<String, TokenizeError>)
        requires
            self.wf(),
        ensures
            spec_decode(self.table(), ids@) is None <==> r == Err::<String, TokenizeError>(
                TokenizeError::DecodeUnknownId,
            ),
            spec_decode(self.table(), ids@) is Some && !valid_utf8(
                spec_decode(self.table(), ids@).unwrap(),
            ) <==> r == Err::<String, TokenizeError>(TokenizeError::DecodeInvalidUtf8),
            r is Ok ==> encode_utf8(r.unwrap()@) == spec_decode(self.table(), ids@).unwrap(),
    {
        match self.decode_to_bytes(ids) {
            Err(e) => Err(e),
            Ok(bytes) => {
                let ghost b = bytes@;
                match string_from_bytes(bytes) {
                    None => Err(TokenizeError::DecodeInvalidUtf8),
                    Some(s) => Ok(s),
                }
            },
        }
    }

    /// Splits the input into its tokens: each token's id and bytes, in
    /// order; the bytes concatenate back to the input.
    pub fn tokenize_bytes(&self, input: &Vec<u8>) -> (r: Result<Vec<(u32, Vec<u8>)>, TokenizeError>)
        requires
            self.wf(),
        ensures
            r is Ok <==> spec_encode_with_specials(
                self.table(),
                self.specials_view(),
                input@,
            ) is Some,
            r is Err ==> r.unwrap_err() == TokenizeError::Encoding,
            r is Ok ==> {
                let ids = spec_encode_with_specials(
                    self.table(),
                    self.specials_view(),
                    input@,
                ).unwrap();
                &&& r.unwrap()@.len() == ids.len()
                &&& forall|k: int| 0 <= k < ids.len() ==> (#[trigger] r.unwrap()@[k]).0 == ids[k]
                    && Some(r.unwrap()@[k].1@) == lookup_bytes(self.table(), ids[k])
                &&& cat(r.unwrap()@.map_values(|t: (u32, Vec<u8>)| t.1@)) == input@
            },
    {
        let ghost tbl = self.table();
        let ids = match self.encode_with_specials(input) {
            Err(e) => {
                return Err(e);
            },
            Ok(ids) => ids,
        };
        proof {
            lemma_decode_elements(tbl, ids@);
        }
        let mut toks: Vec<(u32, Vec<u8>)> = Vec::new();
        let mut k: usize = 0;
        while k < ids.len()
            invariant
                self.wf(),
                tbl == self.table(),
                k <= ids@.len(),
                toks@.len() == k,
                forall|j: int| 0 <= j < ids@.len() ==> lookup_bytes(tbl, #[trigger] ids@[j]) is Some,
                forall|j: int| 0 <= j < k ==> (#[trigger] toks@[j]).0 == ids@[j] && Some(
                    toks@[j].1@,
                ) == lookup_bytes(tbl, ids@[j]),
            decreases ids@.len() - k,
        {
            match self.vocab.id_to_bytes(ids[k]) {
                None => {
                    proof {
                        assert(lookup_bytes(tbl, ids@[k as int]) is Some);
                        assert(false);
                    }
                    return Err(TokenizeError::Encoding);
                },
                Some(bytes) => {
                    let id = ids[k];
                    toks.push((id, bytes));
                },
            }
            k += 1;
        }
        proof {
            let m1 = toks@.map_values(|t: (u32, Vec<u8>)| t.1@);
            let m2 = ids@.map_values(|id: u32| lookup_bytes(tbl, id).unwrap());
            assert(m1 =~= m2);
            assert(spec_decode(tbl, ids@) == Some(input@));
        }
        Ok(toks)
    }
}

} // verus!
