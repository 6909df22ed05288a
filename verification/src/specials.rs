//! Exact-match scanning for special tokens: reserved literal strings that
//! bypass BPE merging and map directly to a reserved id. The scan finds
//! the leftmost occurrence of any special literal; at one position the
//! first literal of the list wins.
use vstd::prelude::*;

verus! {

/// The views of a list of (id, bytes) pairs.
pub open spec fn pairs_view(s: Seq<(u32, Vec<u8>)>) -> Seq<(u32, Seq<u8>)> {
    s.map(|i: int, e: (u32, Vec<u8>)| (e.0, e.1@))
}

/// The literal `lit` occurs in `bytes` at `pos`.
pub open spec fn match_at(bytes: Seq<u8>, pos: int, lit: Seq<u8>) -> bool {
    &&& 0 <= pos
    &&& pos + lit.len() <= bytes.len()
    &&& bytes.subrange(pos, pos + lit.len()) == lit
}

/// The first entry of the list, from index `s` on, whose literal matches
/// at `pos`.
pub open spec fn special_at_from(
    specials: Seq<(u32, Seq<u8>)>,
    bytes: Seq<u8>,
    pos: int,
    s: int,
) -> Option<int>
    decreases specials.len() - s,
{
    if s < 0 || s >= specials.len() {
        Option::None
    } else if match_at(bytes, pos, specials[s].1) {
        Option::Some(s)
    } else {
        special_at_from(specials, bytes, pos, s + 1)
    }
}

/// The earliest match at or after `pos`: the leftmost matching position,
/// and there the first matching entry of the list.
pub open spec fn find_special_from(
    specials: Seq<(u32, Seq<u8>)>,
    bytes: Seq<u8>,
    pos: int,
) -> Option<(int, int)>
    decreases bytes.len() - pos,
{
    if pos < 0 || pos >= bytes.len() {
        Option::None
    } else {
        match special_at_from(specials, bytes, pos, 0) {
            Option::Some(s) => Option::Some((pos, s)),
            Option::None => find_special_from(specials, bytes, pos + 1),
        }
    }
}

pub proof fn lemma_special_at_bounds(specials: Seq<(u32, Seq<u8>)>, bytes: Seq<u8>, pos: int, s: int)
    requires
        special_at_from(specials, bytes, pos, s) is Some,
    ensures
        ({
            let si = special_at_from(specials, bytes, pos, s).unwrap();
            &&& s <= si < specials.len()
            &&& match_at(bytes, pos, specials[si].1)
        }),
    decreases specials.len() - s,
{
    if !(s < 0 || s >= specials.len()) && !match_at(bytes, pos, specials[s].1) {
        lemma_special_at_bounds(specials, bytes, pos, s + 1);
    }
}

/// A found match lies inside the input and names a real entry.
pub proof fn lemma_find_special_bounds(specials: Seq<(u32, Seq<u8>)>, bytes: Seq<u8>, pos: int)
    requires
        find_special_from(specials, bytes, pos) is Some,
    ensures
        ({
            let ps = find_special_from(specials, bytes, pos).unwrap();
            &&& pos <= ps.0 < bytes.len()
            &&& 0 <= ps.1 < specials.len()
            &&& match_at(bytes, ps.0, specials[ps.1].1)
        }),
    decreases bytes.len() - pos,
{
    if !(pos < 0 || pos >= bytes.len()) {
        match special_at_from(specials, bytes, pos, 0) {
            Option::Some(s) => {
                lemma_special_at_bounds(specials, bytes, pos, 0);
            },
            Option::None => {
                lemma_find_special_bounds(specials, bytes, pos + 1);
            },
        }
    }
}

/// Does `lit` occur in `bytes` at `pos`?
fn matches_at(bytes: &Vec<u8>, pos: usize, lit: &Vec<u8>) -> (r: bool)
    ensures
        r == match_at(bytes@, pos as int, lit@),
{
    let n = bytes.len();
    let m = lit.len();
    if pos > n || m > n - pos {
        return false;
    }
    let mut t: usize = 0;
    while t < m
        invariant
            n == bytes@.len(),
            m == lit@.len(),
            pos + m <= n,
            t <= m,
            forall|j: int| 0 <= j < t ==> bytes@[pos + j] == lit@[j],
        decreases m - t,
    {
        if bytes[pos + t] != lit[t] {
            proof {
                if match_at(bytes@, pos as int, lit@) {
                    assert(bytes@.subrange(pos as int, pos + lit@.len())[t as int] == lit@[t as int]);
                }
            }
            return false;
        }
        t += 1;
    }
    proof {
        assert(bytes@.subrange(pos as int, pos + lit@.len()) =~= lit@);
    }
    true
}

/// Finds the earliest occurrence of any special literal at or after
/// `from`: the leftmost position; there, the first entry of the list.
pub fn find_special(specials: &Vec<(u32, Vec<u8>)>, bytes: &Vec<u8>, from: usize) -> (r: Option<
    (usize, usize),
>)
    ensures
        r is None <==> find_special_from(pairs_view(specials@), bytes@, from as int) is None,
        r is Some ==> find_special_from(pairs_view(specials@), bytes@, from as int)
            == Option::Some((r.unwrap().0 as int, r.unwrap().1 as int)),
{
    let ghost sp = pairs_view(specials@);
    let n = bytes.len();
    let mut pos = from;
    while pos < n
        invariant
            n == bytes@.len(),
            sp == pairs_view(specials@),
            from <= pos,
            find_special_from(sp, bytes@, from as int) == find_special_from(sp, bytes@, pos as int),
        decreases n - pos,
    {
        // scan the list for a match at this position
        let m = specials.len();
        let mut s: usize = 0;
        while s < m
            invariant
                n == bytes@.len(),
                m == specials@.len(),
                sp == pairs_view(specials@),
                pos < n,
                s <= m,
                from <= pos,
                find_special_from(sp, bytes@, from as int) == find_special_from(
                    sp,
                    bytes@,
                    pos as int,
                ),
                special_at_from(sp, bytes@, pos as int, 0) == special_at_from(
                    sp,
                    bytes@,
                    pos as int,
                    s as int,
                ),
            decreases m - s,
        {
            if matches_at(bytes, pos, &specials[s].1) {
                proof {
                    assert(sp[s as int].1 == specials@[s as int].1@);
                    assert(special_at_from(sp, bytes@, pos as int, s as int) == Option::Some(
                        s as int,
                    ));
                    assert(find_special_from(sp, bytes@, pos as int) == Option::Some(
                        (pos as int, s as int),
                    ));
                }
                return Some((pos, s));
            }
            proof {
                assert(sp[s as int].1 == specials@[s as int].1@);
            }
            s += 1;
        }
        proof {
            assert(special_at_from(sp, bytes@, pos as int, m as int) is None);
        }
        pos += 1;
    }
    None
}

} // verus!
