//! The BPE encoder and decoder. Encoding a chunk starts from single-byte
//! symbols and repeatedly merges the adjacent pair with the lowest rank,
//! leftmost first on a tie, until no adjacent pair is in the merge table.
//! The merge rank of a pair is the id of the concatenated bytes in the
//! vocabulary, so every merged symbol is a vocabulary entry. Decoding maps
//! ids back to bytes and concatenates.
use vstd::prelude::*;

use crate::errors::TokenizeError;
use crate::pretok::{cat, lemma_cat_cons};
use crate::vocab::{
    distinct_ids, lemma_lookup_roundtrip, lookup_bytes, lookup_id, Vocabulary,
};

verus! {

/// The views of a vector of byte vectors.
pub open spec fn views(s: Seq<Vec<u8>>) -> Seq<Seq<u8>> {
    s.map_values(|v: Vec<u8>| v@)
}

/// The merge rank of the adjacent pair at `i`: the id of the pair's
/// concatenated bytes, when the vocabulary has them.
pub open spec fn pair_rank(tbl: Seq<(u32, Seq<u8>)>, syms: Seq<Seq<u8>>, i: int) -> Option<u32> {
    lookup_id(tbl, syms[i] + syms[i + 1])
}

/// Keeps the lower-ranked candidate; on a tie the earlier one stands.
pub open spec fn better(cand: Option<(int, u32)>, i: int, r: Option<u32>) -> Option<(int, u32)> {
    match r {
        Option::None => cand,
        Option::Some(rr) => match cand {
            Option::None => Option::Some((i, rr)),
            Option::Some(p) => if rr < p.1 {
                Option::Some((i, rr))
            } else {
                cand
            },
        },
    }
}

/// Scans pairs from `i` on, folding in the best candidate so far.
pub open spec fn best_from(
    tbl: Seq<(u32, Seq<u8>)>,
    syms: Seq<Seq<u8>>,
    i: int,
    cand: Option<(int, u32)>,
) -> Option<(int, u32)>
    decreases syms.len() - i,
{
    if i < 0 || i + 1 >= syms.len() {
        cand
    } else {
        best_from(tbl, syms, i + 1, better(cand, i, pair_rank(tbl, syms, i)))
    }
}

/// The pair to merge next: the leftmost among those of lowest rank.
pub open spec fn best_pair(tbl: Seq<(u32, Seq<u8>)>, syms: Seq<Seq<u8>>) -> Option<(int, u32)> {
    best_from(tbl, syms, 0, Option::None)
}

pub open spec fn valid_cand(
    tbl: Seq<(u32, Seq<u8>)>,
    syms: Seq<Seq<u8>>,
    cand: Option<(int, u32)>,
) -> bool {
    match cand {
        Option::None => true,
        Option::Some(p) => 0 <= p.0 && p.0 + 1 < syms.len() && pair_rank(tbl, syms, p.0)
            == Option::Some(p.1),
    }
}

pub proof fn lemma_best_from_valid(
    tbl: Seq<(u32, Seq<u8>)>,
    syms: Seq<Seq<u8>>,
    i: int,
    cand: Option<(int, u32)>,
)
    requires
        0 <= i,
        valid_cand(tbl, syms, cand),
    ensures
        valid_cand(tbl, syms, best_from(tbl, syms, i, cand)),
    decreases syms.len() - i,
{
    if !(i + 1 >= syms.len()) {
        lemma_best_from_valid(tbl, syms, i + 1, better(cand, i, pair_rank(tbl, syms, i)));
    }
}

pub proof fn lemma_best_pair_valid(tbl: Seq<(u32, Seq<u8>)>, syms: Seq<Seq<u8>>)
    ensures
        valid_cand(tbl, syms, best_pair(tbl, syms)),
{
    lemma_best_from_valid(tbl, syms, 0, Option::None);
}

/// The candidate is correct for the pairs before `i`: it is one of them,
/// no pair before `i` ranks below it, and every pair left of it ranks
/// strictly above it; `None` only when no pair before `i` has a rank.
pub open spec fn cand_minimal_upto(
    tbl: Seq<(u32, Seq<u8>)>,
    syms: Seq<Seq<u8>>,
    i: int,
    cand: Option<(int, u32)>,
) -> bool {
    match cand {
        Option::None => forall|j: int| 0 <= j < i && j + 1 < syms.len() ==> pair_rank(
            tbl,
            syms,
            #[trigger] (j + 0),
        ) is None,
        Option::Some(p) => {
            &&& 0 <= p.0 < i
            &&& p.0 + 1 < syms.len()
            &&& pair_rank(tbl, syms, p.0) == Option::Some(p.1)
            &&& forall|j: int| 0 <= j < i && j + 1 < syms.len() && pair_rank(
                tbl,
                syms,
                #[trigger] (j + 0),
            ) is Some ==> p.1 <= pair_rank(tbl, syms, j).unwrap()
            &&& forall|j: int| 0 <= j < p.0 && pair_rank(tbl, syms, #[trigger] (j + 0)) is Some
                ==> p.1 < pair_rank(tbl, syms, j).unwrap()
        },
    }
}

proof fn lemma_best_from_minimal(
    tbl: Seq<(u32, Seq<u8>)>,
    syms: Seq<Seq<u8>>,
    i: int,
    cand: Option<(int, u32)>,
)
    requires
        0 <= i,
        cand_minimal_upto(tbl, syms, i, cand),
    ensures
        cand_minimal_upto(
            tbl,
            syms,
            if i > syms.len() - 1 {
                i
            } else {
                syms.len() - 1
            },
            best_from(tbl, syms, i, cand),
        ),
    decreases syms.len() - i,
{
    if i + 1 < syms.len() {
        let next = better(cand, i, pair_rank(tbl, syms, i));
        assert(cand_minimal_upto(tbl, syms, i + 1, next));
        lemma_best_from_minimal(tbl, syms, i + 1, next);
    }
}

/// The tie-break invariant of the merge step: the chosen pair has the
/// lowest rank of any adjacent pair, and on a tie the leftmost one wins.
pub proof fn lemma_best_pair_minimal(tbl: Seq<(u32, Seq<u8>)>, syms: Seq<Seq<u8>>)
    ensures
        best_pair(tbl, syms) is None ==> forall|j: int| 0 <= j && j + 1 < syms.len()
            ==> pair_rank(tbl, syms, #[trigger] (j + 0)) is None,
        best_pair(tbl, syms) is Some ==> {
            let p = best_pair(tbl, syms).unwrap();
            &&& pair_rank(tbl, syms, p.0) == Option::Some(p.1)
            &&& forall|j: int| 0 <= j && j + 1 < syms.len() && pair_rank(
                tbl,
                syms,
                #[trigger] (j + 0),
            ) is Some ==> p.1 <= pair_rank(tbl, syms, j).unwrap()
            &&& forall|j: int| 0 <= j < p.0 && pair_rank(tbl, syms, #[trigger] (j + 0)) is Some
                ==> p.1 < pair_rank(tbl, syms, j).unwrap()
        },
{
    lemma_best_from_minimal(tbl, syms, 0, Option::None);
}

/// The symbol sequence after merging the pair at `i` into one symbol.
pub open spec fn merge_at(syms: Seq<Seq<u8>>, i: int) -> Seq<Seq<u8>> {
    syms.take(i) + seq![syms[i] + syms[i + 1]] + syms.skip(i + 2)
}

/// Merges until no adjacent pair is in the merge table.
pub open spec fn bpe_merge(tbl: Seq<(u32, Seq<u8>)>, syms: Seq<Seq<u8>>) -> Seq<Seq<u8>>
    decreases syms.len(),
{
    match best_pair(tbl, syms) {
        Option::None => syms,
        Option::Some(p) => if 0 <= p.0 && p.0 + 2 <= syms.len() {
            bpe_merge(tbl, merge_at(syms, p.0))
        } else {
            syms
        },
    }
}

pub proof fn lemma_cat_append<A>(s1: Seq<Seq<A>>, s2: Seq<Seq<A>>)
    ensures
        cat(s1 + s2) == cat(s1) + cat(s2),
    decreases s1.len(),
{
    if s1.len() == 0 {
        assert(s1 + s2 =~= s2);
        assert(cat(s1) + cat(s2) =~= cat(s2));
    } else {
        assert((s1 + s2)[0] == s1[0]);
        assert((s1 + s2).drop_first() =~= s1.drop_first() + s2);
        lemma_cat_append(s1.drop_first(), s2);
        assert(s1[0] + (cat(s1.drop_first()) + cat(s2)) =~= (s1[0] + cat(s1.drop_first())) + cat(
            s2,
        ));
    }
}

pub proof fn lemma_cat_single<A>(x: Seq<A>)
    ensures
        cat(seq![x]) == x,
{
    assert(seq![x].drop_first() =~= Seq::<Seq<A>>::empty());
    assert(x + cat(Seq::<Seq<A>>::empty()) =~= x);
}

/// Merging an adjacent pair does not change the concatenated bytes.
pub proof fn lemma_cat_merge_at(syms: Seq<Seq<u8>>, i: int)
    requires
        0 <= i,
        i + 2 <= syms.len(),
    ensures
        cat(merge_at(syms, i)) == cat(syms),
{
    let left = syms.take(i);
    let mid = seq![syms[i] + syms[i + 1]];
    let right = syms.skip(i + 2);
    lemma_cat_append(left + mid, right);
    lemma_cat_append(left, mid);
    lemma_cat_single(syms[i] + syms[i + 1]);
    let mid2 = seq![syms[i], syms[i + 1]];
    lemma_cat_append(left + mid2, right);
    lemma_cat_append(left, mid2);
    lemma_cat_cons(syms[i], seq![syms[i + 1]]);
    assert(seq![syms[i]] + seq![syms[i + 1]] =~= mid2);
    lemma_cat_single(syms[i + 1]);
    assert(left + mid2 + right =~= syms);
    assert(cat(merge_at(syms, i)) =~= cat(syms));
}

/// The whole merge preserves the concatenated bytes.
pub proof fn lemma_bpe_merge_cat(tbl: Seq<(u32, Seq<u8>)>, syms: Seq<Seq<u8>>)
    ensures
        cat(bpe_merge(tbl, syms)) == cat(syms),
    decreases syms.len(),
{
    lemma_best_pair_valid(tbl, syms);
    match best_pair(tbl, syms) {
        Option::None => {},
        Option::Some(p) => {
            lemma_cat_merge_at(syms, p.0);
            lemma_bpe_merge_cat(tbl, merge_at(syms, p.0));
        },
    }
}

/// Looks every symbol up; `None` when one is absent from the vocabulary.
pub open spec fn map_ids(tbl: Seq<(u32, Seq<u8>)>, syms: Seq<Seq<u8>>) -> Option<Seq<u32>>
    decreases syms.len(),
{
    if syms.len() == 0 {
        Option::Some(Seq::empty())
    } else {
        match lookup_id(tbl, syms[0]) {
            Option::None => Option::None,
            Option::Some(id) => match map_ids(tbl, syms.drop_first()) {
                Option::None => Option::None,
                Option::Some(rest) => Option::Some(seq![id] + rest),
            },
        }
    }
}

/// Each input byte as its own one-byte symbol.
pub open spec fn singletons(bytes: Seq<u8>) -> Seq<Seq<u8>> {
    bytes.map_values(|b: u8| seq![b])
}

pub proof fn lemma_cat_singletons(bytes: Seq<u8>)
    ensures
        cat(singletons(bytes)) == bytes,
    decreases bytes.len(),
{
    if bytes.len() > 0 {
        assert(singletons(bytes).drop_first() =~= singletons(bytes.drop_first()));
        lemma_cat_singletons(bytes.drop_first());
        assert(singletons(bytes)[0] == seq![bytes[0]]);
        assert(seq![bytes[0]] + bytes.drop_first() =~= bytes);
    }
}

/// What encoding one chunk returns: merge, then map the final symbols
/// to their ids.
pub open spec fn spec_encode_chunk(tbl: Seq<(u32, Seq<u8>)>, chunk: Seq<u8>) -> Option<Seq<u32>> {
    map_ids(tbl, bpe_merge(tbl, singletons(chunk)))
}

/// What decoding returns: each id's bytes, concatenated; `None` when an
/// id is unknown.
pub open spec fn spec_decode(tbl: Seq<(u32, Seq<u8>)>, ids: Seq<u32>) -> Option<Seq<u8>>
    decreases ids.len(),
{
    if ids.len() == 0 {
        Option::Some(Seq::empty())
    } else {
        match lookup_bytes(tbl, ids[0]) {
            Option::None => Option::None,
            Option::Some(b) => match spec_decode(tbl, ids.drop_first()) {
                Option::None => Option::None,
                Option::Some(rest) => Option::Some(b + rest),
            },
        }
    }
}

/// Decoding the ids of mapped symbols recovers their concatenation.
pub proof fn lemma_map_ids_decode(tbl: Seq<(u32, Seq<u8>)>, syms: Seq<Seq<u8>>)
    requires
        distinct_ids(tbl),
        map_ids(tbl, syms) is Some,
    ensures
        spec_decode(tbl, map_ids(tbl, syms).unwrap()) == Option::Some(cat(syms)),
    decreases syms.len(),
{
    if syms.len() > 0 {
        let id = lookup_id(tbl, syms[0]).unwrap();
        lemma_lookup_roundtrip(tbl, syms[0]);
        lemma_map_ids_decode(tbl, syms.drop_first());
        let rest = map_ids(tbl, syms.drop_first()).unwrap();
        let ids = map_ids(tbl, syms).unwrap();
        assert(ids == seq![id] + rest);
        assert(ids[0] == id);
        assert(ids.drop_first() =~= rest);
    }
}

/// Round trip for one chunk: when encoding succeeds, decoding its ids
/// yields exactly the chunk's bytes.
pub proof fn lemma_encode_chunk_roundtrip(tbl: Seq<(u32, Seq<u8>)>, chunk: Seq<u8>)
    requires
        distinct_ids(tbl),
        spec_encode_chunk(tbl, chunk) is Some,
    ensures
        spec_decode(tbl, spec_encode_chunk(tbl, chunk).unwrap()) == Option::Some(chunk),
{
    lemma_map_ids_decode(tbl, bpe_merge(tbl, singletons(chunk)));
    lemma_bpe_merge_cat(tbl, singletons(chunk));
    lemma_cat_singletons(chunk);
}

/// Decoding distributes over concatenation of id sequences.
pub proof fn lemma_decode_append(tbl: Seq<(u32, Seq<u8>)>, ids1: Seq<u32>, ids2: Seq<u32>)
    requires
        spec_decode(tbl, ids1) is Some,
        spec_decode(tbl, ids2) is Some,
    ensures
        spec_decode(tbl, ids1 + ids2) == Option::Some(
            spec_decode(tbl, ids1).unwrap() + spec_decode(tbl, ids2).unwrap(),
        ),
    decreases ids1.len(),
{
    if ids1.len() == 0 {
        assert(ids1 + ids2 =~= ids2);
        assert(spec_decode(tbl, ids1).unwrap() + spec_decode(tbl, ids2).unwrap() =~= spec_decode(
            tbl,
            ids2,
        ).unwrap());
    } else {
        assert((ids1 + ids2)[0] == ids1[0]);
        assert((ids1 + ids2).drop_first() =~= ids1.drop_first() + ids2);
        lemma_decode_append(tbl, ids1.drop_first(), ids2);
        let b = lookup_bytes(tbl, ids1[0]).unwrap();
        assert(b + (spec_decode(tbl, ids1.drop_first()).unwrap() + spec_decode(tbl, ids2).unwrap())
            =~= (b + spec_decode(tbl, ids1.drop_first()).unwrap()) + spec_decode(tbl, ids2).unwrap());
    }
}

/// A sequence of nonempty parts has no more parts than concatenated
/// elements.
pub proof fn lemma_cat_count(s: Seq<Seq<u8>>)
    requires
        forall|k: int| 0 <= k < s.len() ==> (#[trigger] s[k]).len() > 0,
    ensures
        s.len() <= cat(s).len(),
    decreases s.len(),
{
    if s.len() > 0 {
        assert forall|k: int| 0 <= k < s.drop_first().len() implies (#[trigger] s.drop_first()[k]).len()
            > 0 by {
            assert(s.drop_first()[k] == s[k + 1]);
        }
        lemma_cat_count(s.drop_first());
    }
}

proof fn lemma_merge_at_nonempty(syms: Seq<Seq<u8>>, i: int)
    requires
        0 <= i,
        i + 2 <= syms.len(),
        forall|k: int| 0 <= k < syms.len() ==> (#[trigger] syms[k]).len() > 0,
    ensures
        forall|k: int| 0 <= k < merge_at(syms, i).len() ==> (#[trigger] merge_at(syms, i)[k]).len()
            > 0,
{
    let merged = merge_at(syms, i);
    assert forall|k: int| 0 <= k < merged.len() implies (#[trigger] merged[k]).len() > 0 by {
        if k < i {
            assert(merged[k] == syms[k]);
        } else if k == i {
            assert(merged[k] == syms[i] + syms[i + 1]);
        } else {
            assert(merged[k] == syms[k + 1]);
        }
    }
}

/// Merging never produces an empty symbol.
pub proof fn lemma_bpe_merge_nonempty(tbl: Seq<(u32, Seq<u8>)>, syms: Seq<Seq<u8>>)
    requires
        forall|k: int| 0 <= k < syms.len() ==> (#[trigger] syms[k]).len() > 0,
    ensures
        forall|k: int| 0 <= k < bpe_merge(tbl, syms).len() ==> (#[trigger] bpe_merge(tbl, syms)[k]).len()
            > 0,
    decreases syms.len(),
{
    lemma_best_pair_valid(tbl, syms);
    match best_pair(tbl, syms) {
        Option::None => {
            assert(bpe_merge(tbl, syms) == syms);
        },
        Option::Some(p) => {
            lemma_merge_at_nonempty(syms, p.0);
            lemma_bpe_merge_nonempty(tbl, merge_at(syms, p.0));
            assert(bpe_merge(tbl, syms) == bpe_merge(tbl, merge_at(syms, p.0)));
        },
    }
}

/// One id per final symbol.
pub proof fn lemma_map_ids_len(tbl: Seq<(u32, Seq<u8>)>, syms: Seq<Seq<u8>>)
    requires
        map_ids(tbl, syms) is Some,
    ensures
        map_ids(tbl, syms).unwrap().len() == syms.len(),
    decreases syms.len(),
{
    if syms.len() > 0 {
        lemma_map_ids_len(tbl, syms.drop_first());
    }
}

/// A chunk's encoding has at most as many ids as the chunk has bytes:
/// every token covers at least one byte.
pub proof fn lemma_encode_chunk_count(tbl: Seq<(u32, Seq<u8>)>, chunk: Seq<u8>)
    requires
        spec_encode_chunk(tbl, chunk) is Some,
    ensures
        spec_encode_chunk(tbl, chunk).unwrap().len() <= chunk.len(),
{
    let syms0 = singletons(chunk);
    assert forall|k: int| 0 <= k < syms0.len() implies (#[trigger] syms0[k]).len() > 0 by {
        assert(syms0[k] == seq![chunk[k]]);
    }
    lemma_bpe_merge_nonempty(tbl, syms0);
    let fin = bpe_merge(tbl, syms0);
    lemma_map_ids_len(tbl, fin);
    lemma_cat_count(fin);
    lemma_bpe_merge_cat(tbl, syms0);
    lemma_cat_singletons(chunk);
}

spec fn opt_cand_view(c: Option<(usize, u32)>) -> Option<(int, u32)> {
    match c {
        Option::None => Option::None,
        Option::Some(p) => Option::Some((p.0 as int, p.1)),
    }
}

/// Concatenation of two byte vectors.
pub fn concat_bytes(a: &Vec<u8>, b: &Vec<u8>) -> (r: Vec<u8>)
    ensures
        r@ == a@ + b@,
{
    let mut r = a.clone();
    let mut i: usize = 0;
    while i < b.len()
        invariant
            i <= b@.len(),
            r@ == a@ + b@.take(i as int),
        decreases b@.len() - i,
    {
        let x = b[i];
        r.push(x);
        proof {
            assert(a@ + b@.take(i as int) + seq![b@[i as int]] =~= a@ + b@.take(i + 1));
        }
        i += 1;
    }
    proof {
        assert(b@.take(b@.len() as int) =~= b@);
    }
    r
}

/// Finds the pair to merge next: the leftmost pair of lowest rank.
fn find_best(vocab: &Vocabulary, syms: &Vec<Vec<u8>>) -> (r: Option<(usize, u32)>)
    ensures
        best_pair(vocab.model(), views(syms@)) == opt_cand_view(r),
        r is Some ==> r.unwrap().0 + 1 < syms@.len(),
{
    let ghost tbl = vocab.model();
    let ghost v = views(syms@);
    let n = syms.len();
    let mut cand: Option<(usize, u32)> = None;
    if n < 1 {
        return None;
    }
    let mut i: usize = 0;
    while i + 1 < n
        invariant
            n == syms@.len(),
            i + 1 <= n,
            tbl == vocab.model(),
            v == views(syms@),
            best_from(tbl, v, 0, Option::None) == best_from(tbl, v, i as int, opt_cand_view(cand)),
            cand is Some ==> cand.unwrap().0 + 1 < n,
        decreases n - i,
    {
        let pair = concat_bytes(&syms[i], &syms[i + 1]);
        proof {
            assert(v[i as int] == syms@[i as int]@);
            assert(v[i + 1] == syms@[i + 1]@);
        }
        let rank = vocab.bytes_to_id(&pair);
        let ghost prev = opt_cand_view(cand);
        match rank {
            None => {},
            Some(rr) => match cand {
                None => {
                    cand = Some((i, rr));
                },
                Some(p) => {
                    if rr < p.1 {
                        cand = Some((i, rr));
                    }
                },
            },
        }
        proof {
            assert(pair_rank(tbl, v, i as int) == lookup_id(tbl, pair@));
            assert(opt_cand_view(cand) == better(prev, i as int, pair_rank(tbl, v, i as int)));
            assert(best_from(tbl, v, i as int, prev) == best_from(
                tbl,
                v,
                i + 1,
                better(prev, i as int, pair_rank(tbl, v, i as int)),
            ));
        }
        i += 1;
    }
    cand
}

/// Encodes one chunk: merges the lowest-ranked adjacent pair, leftmost
/// on a tie, until none applies, then maps every final symbol to its id.
/// Fails exactly when a final symbol is absent from the vocabulary.
pub fn encode_chunk(vocab: &Vocabulary, chunk: &Vec<u8>) -> (r: Result<Vec<u32>, TokenizeError>)
    requires
        vocab.wf(),
    ensures
        r is Ok <==> spec_encode_chunk(vocab.model(), chunk@) is Some,
        r is Ok ==> Some(r.unwrap()@) == spec_encode_chunk(vocab.model(), chunk@),
        r is Err ==> r.unwrap_err() == TokenizeError::Encoding,
        r is Ok ==> spec_decode(vocab.model(), r.unwrap()@) == Some(chunk@),
{
    let ghost tbl = vocab.model();
    // start from single-byte symbols
    let mut syms: Vec<Vec<u8>> = Vec::new();
    let mut i: usize = 0;
    while i < chunk.len()
        invariant
            i <= chunk@.len(),
            views(syms@) == singletons(chunk@.take(i as int)),
        decreases chunk@.len() - i,
    {
        let b = chunk[i];
        let mut one: Vec<u8> = Vec::new();
        one.push(b);
        proof {
            assert(one@ =~= seq![b]);
        }
        let ghost before = syms@;
        syms.push(one);
        proof {
            assert(views(before) == singletons(chunk@.take(i as int)));
            assert(views(before).len() == before.len());
            assert(singletons(chunk@.take(i as int)).len() == i);
            assert(syms@ == before.push(one));
            let s1 = views(syms@);
            let s2 = singletons(chunk@.take(i + 1));
            assert(s1.len() == s2.len());
            assert forall|k: int| 0 <= k < s1.len() implies s1[k] == s2[k] by {
                assert(s1[k] == syms@[k]@);
                assert(s2[k] == seq![chunk@.take(i + 1)[k]]);
                if k < i {
                    assert(views(syms@.drop_last())[k] == syms@.drop_last()[k]@);
                    assert(singletons(chunk@.take(i as int))[k] == seq![chunk@.take(i as int)[k]]);
                }
            }
            assert(s1 =~= s2);
        }
        i += 1;
    }
    proof {
        assert(chunk@.take(chunk@.len() as int) =~= chunk@);
    }
    // merge until no adjacent pair is in the table
    let mut done = false;
    while !done
        invariant
            tbl == vocab.model(),
            vocab.wf(),
            bpe_merge(tbl, views(syms@)) == bpe_merge(tbl, singletons(chunk@)),
            done ==> best_pair(tbl, views(syms@)) is None,
        decreases (if done { 0int } else { syms@.len() as int + 1 }),
    {
        let ghost v = views(syms@);
        match find_best(vocab, &syms) {
            None => {
                done = true;
            },
            Some((at, _rank)) => {
                proof {
                    lemma_best_pair_valid(tbl, v);
                }
                let n = syms.len();
                let right = syms.remove(at + 1);
                let left = syms.remove(at);
                let merged = concat_bytes(&left, &right);
                syms.insert(at, merged);
                proof {
                    assert(views(syms@) =~= merge_at(v, at as int));
                    assert(bpe_merge(tbl, v) == bpe_merge(tbl, merge_at(v, at as int)));
                }
            },
        }
    }
    // map the final symbols to ids
    let ghost vfinal = views(syms@);
    let mut ids: Vec<u32> = Vec::new();
    let mut j: usize = 0;
    proof {
        assert(vfinal.skip(0) =~= vfinal);
    }
    while j < syms.len()
        invariant
            tbl == vocab.model(),
            vocab.wf(),
            j <= syms@.len(),
            vfinal == views(syms@),
            bpe_merge(tbl, singletons(chunk@)) == vfinal,
            ids@.len() == j,
            map_ids(tbl, vfinal) == (match map_ids(tbl, vfinal.skip(j as int)) {
                Option::None => Option::None::<Seq<u32>>,
                Option::Some(x) => Option::Some(ids@ + x),
            }),
        decreases syms@.len() - j,
    {
        let ghost suffix = vfinal.skip(j as int);
        proof {
            assert(suffix[0] == vfinal[j as int]);
            assert(suffix.drop_first() =~= vfinal.skip(j + 1));
        }
        match vocab.bytes_to_id(&syms[j]) {
            None => {
                proof {
                    assert(lookup_id(tbl, suffix[0]) is None);
                    assert(map_ids(tbl, suffix) is None);
                }
                return Err(TokenizeError::Encoding);
            },
            Some(id) => {
                let ghost old_ids = ids@;
                ids.push(id);
                proof {
                    assert(lookup_id(tbl, suffix[0]) == Option::Some(id));
                    assert(ids@ =~= old_ids + seq![id]);
                    if map_ids(tbl, vfinal.skip(j + 1)) is Some {
                        let x = map_ids(tbl, vfinal.skip(j + 1)).unwrap();
                        assert(map_ids(tbl, suffix) == Option::Some(seq![id] + x));
                        assert((old_ids + seq![id]) + x =~= old_ids + (seq![id] + x));
                    } else {
                        assert(map_ids(tbl, suffix) is None);
                    }
                }
            },
        }
        j += 1;
    }
    proof {
        assert(vfinal.skip(syms@.len() as int) =~= Seq::<Seq<u8>>::empty());
        assert(map_ids(tbl, Seq::<Seq<u8>>::empty()) == Option::Some(Seq::<u32>::empty()));
        assert(ids@ + Seq::<u32>::empty() =~= ids@);
        lemma_encode_chunk_roundtrip(tbl, chunk@);
    }
    Ok(ids)
}

} // verus!
