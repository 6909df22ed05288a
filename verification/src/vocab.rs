//! The vocabulary store: an immutable association between token ids and
//! token byte sequences, fixed at construction and shared read-only by
//! the encoder and the decoder.
use vstd::prelude::*;

verus! {

/// First entry whose id is `id`, if any.
pub open spec fn lookup_bytes(tbl: Seq<(u32, Seq<u8>)>, id: u32) -> Option<Seq<u8>>
    decreases tbl.len(),
{
    if tbl.len() == 0 {
        None
    } else if tbl[0].0 == id {
        Some(tbl[0].1)
    } else {
        lookup_bytes(tbl.drop_first(), id)
    }
}

/// First entry whose bytes are `b`, if any.
pub open spec fn lookup_id(tbl: Seq<(u32, Seq<u8>)>, b: Seq<u8>) -> Option<u32>
    decreases tbl.len(),
{
    if tbl.len() == 0 {
        None
    } else if tbl[0].1 == b {
        Some(tbl[0].0)
    } else {
        lookup_id(tbl.drop_first(), b)
    }
}

/// No id occurs twice.
pub open spec fn distinct_ids(tbl: Seq<(u32, Seq<u8>)>) -> bool {
    forall|i: int, j: int| 0 <= i < j < tbl.len() ==> (#[trigger] tbl[i]).0 != (#[trigger] tbl[j]).0
}

/// An immutable id-to-bytes table with distinct ids.
#[derive(Debug)]
pub struct Vocabulary {
    entries: Vec<(u32, Vec<u8>)>,
}

impl Vocabulary {
    /// The table as a mathematical sequence of (id, bytes) pairs.
    pub closed spec fn model(&self) -> Seq<(u32, Seq<u8>)> {
        self.entries@.map(|i: int, e: (u32, Vec<u8>)| (e.0, e.1@))
    }

    pub open spec fn wf(&self) -> bool {
        distinct_ids(self.model())
    }

    pub closed spec fn spec_len(&self) -> nat {
        self.entries@.len()
    }

    /// Builds a vocabulary from entries; refuses a table with a repeated id.
    pub fn new(entries: Vec<(u32, Vec<u8>)>) -> (r: Option<Vocabulary>)
        ensures
            r is Some ==> r.unwrap().wf(),
            r is Some ==> r.unwrap().model() == entries@.map(
                |i: int, e: (u32, Vec<u8>)| (e.0, e.1@),
            ),
            r is Some <==> distinct_ids(
                entries@.map(|i: int, e: (u32, Vec<u8>)| (e.0, e.1@)),
            ),
    {
        let ghost tbl = entries@.map(|i: int, e: (u32, Vec<u8>)| (e.0, e.1@));
        let n = entries.len();
        let mut i: usize = 0;
        while i < n
            invariant
                n == entries@.len(),
                i <= n,
                tbl == entries@.map(|k: int, e: (u32, Vec<u8>)| (e.0, e.1@)),
                forall|p: int, q: int| 0 <= p < q < tbl.len() && p < i ==> (#[trigger] tbl[p]).0 != (#[trigger] tbl[q]).0,
            decreases n - i,
        {
            let mut j: usize = i + 1;
            while j < n
                invariant
                    n == entries@.len(),
                    i < j <= n || (i + 1 == j && j > n),
                    i < n,
                    tbl == entries@.map(|k: int, e: (u32, Vec<u8>)| (e.0, e.1@)),
                    forall|q: int| i < q < j ==> (#[trigger] tbl[q]).0 != tbl[i as int].0,
                decreases n - j,
            {
                if entries[i].0 == entries[j].0 {
                    assert(tbl[i as int].0 == tbl[j as int].0);
                    return None;
                }
                j += 1;
            }
            i += 1;
        }
        Some(Vocabulary { entries })
    }

    /// The empty vocabulary.
    pub fn empty() -> (r: Vocabulary)
        ensures
            r.wf(),
            r.model() == Seq::<(u32, Seq<u8>)>::empty(),
    {
        let r = Vocabulary { entries: Vec::new() };
        proof {
            assert(r.model() =~= Seq::<(u32, Seq<u8>)>::empty());
        }
        r
    }

    /// Number of entries.
    pub fn len(&self) -> (r: usize)
        ensures
            r == self.spec_len(),
            r == self.model().len(),
    {
        self.entries.len()
    }

    /// The bytes of the entry with id `id`, if the id is known.
    pub fn id_to_bytes(&self, id: u32) -> (r: Option<Vec<u8>>)
        ensures
            r is Some <==> lookup_bytes(self.model(), id) is Some,
            r is Some ==> Some(r.unwrap()@) == lookup_bytes(self.model(), id),
    {
        let ghost tbl = self.model();
        let n = self.entries.len();
        let mut i: usize = 0;
        proof {
            assert(tbl.skip(0) =~= tbl);
        }
        while i < n
            invariant
                n == self.entries@.len(),
                i <= n,
                tbl == self.model(),
                lookup_bytes(tbl, id) == lookup_bytes(tbl.skip(i as int), id),
            decreases n - i,
        {
            if self.entries[i].0 == id {
                assert(tbl.skip(i as int)[0] == tbl[i as int]);
                return Some(self.entries[i].1.clone());
            }
            proof {
                assert(tbl.skip(i as int)[0] == tbl[i as int]);
                assert(tbl.skip(i as int).drop_first() =~= tbl.skip(i + 1));
            }
            i += 1;
        }
        proof {
            assert(tbl.skip(n as int) =~= Seq::<(u32, Seq<u8>)>::empty());
        }
        None
    }

    /// The id of the first entry whose bytes are `b`, if any.
    pub fn bytes_to_id(&self, b: &Vec<u8>) -> (r: Option<u32>)
        ensures
            r == lookup_id(self.model(), b@),
    {
        let ghost tbl = self.model();
        let n = self.entries.len();
        let mut i: usize = 0;
        proof {
            assert(tbl.skip(0) =~= tbl);
        }
        while i < n
            invariant
                n == self.entries@.len(),
                i <= n,
                tbl == self.model(),
                lookup_id(tbl, b@) == lookup_id(tbl.skip(i as int), b@),
            decreases n - i,
        {
            if eq_bytes(&self.entries[i].1, b) {
                assert(tbl.skip(i as int)[0] == tbl[i as int]);
                return Some(self.entries[i].0);
            }
            proof {
                assert(tbl.skip(i as int)[0] == tbl[i as int]);
                assert(tbl.skip(i as int).drop_first() =~= tbl.skip(i + 1));
            }
            i += 1;
        }
        proof {
            assert(tbl.skip(n as int) =~= Seq::<(u32, Seq<u8>)>::empty());
        }
        None
    }
}

/// Byte-sequence equality.
pub fn eq_bytes(a: &Vec<u8>, b: &Vec<u8>) -> (r: bool)
    ensures
        r <==> a@ == b@,
{
    if a.len() != b.len() {
        return false;
    }
    let n = a.len();
    let mut i: usize = 0;
    while i < n
        invariant
            n == a@.len() == b@.len(),
            i <= n,
            forall|k: int| 0 <= k < i ==> a@[k] == b@[k],
        decreases n - i,
    {
        if a[i] != b[i] {
            return false;
        }
        i += 1;
    }
    proof {
        assert(a@ =~= b@);
    }
    true
}

/// Under distinct ids, the entry that carries an id decides the lookup.
pub proof fn lemma_lookup_bytes_from_entry(tbl: Seq<(u32, Seq<u8>)>, k: int)
    requires
        distinct_ids(tbl),
        0 <= k < tbl.len(),
    ensures
        lookup_bytes(tbl, tbl[k].0) == Some(tbl[k].1),
    decreases tbl.len(),
{
    if k > 0 {
        let rest = tbl.drop_first();
        assert forall|i: int, j: int| 0 <= i < j < rest.len() implies (#[trigger] rest[i]).0 != (
        #[trigger] rest[j]).0 by {
            assert(rest[i] == tbl[i + 1]);
            assert(rest[j] == tbl[j + 1]);
        }
        assert(rest[k - 1] == tbl[k]);
        lemma_lookup_bytes_from_entry(rest, k - 1);
        assert(tbl[0].0 != tbl[k].0);
    }
}

/// A table drawn from the id-to-bytes map `m`: every entry carries an id
/// of `m` below `limit` with that id's bytes, every such id of `m`
/// occurs, and ids increase strictly.
pub open spec fn table_matches(tbl: Seq<(u32, Seq<u8>)>, m: Map<u32, Seq<u8>>, limit: u32) -> bool {
    &&& forall|k: int| 0 <= k < tbl.len() ==> m.dom().contains((#[trigger] tbl[k]).0) && tbl[k].1
        == m[tbl[k].0] && tbl[k].0 < limit
    &&& forall|id: u32| id < limit && m.dom().contains(id) ==> exists|k: int|
        0 <= k < tbl.len() && (#[trigger] tbl[k]).0 == id
    &&& forall|k1: int, k2: int| 0 <= k1 < k2 < tbl.len() ==> (#[trigger] tbl[k1]).0 < (
    #[trigger] tbl[k2]).0
}

/// Strictly increasing ids are distinct.
pub proof fn lemma_table_matches_distinct(tbl: Seq<(u32, Seq<u8>)>, m: Map<u32, Seq<u8>>, limit: u32)
    requires
        table_matches(tbl, m, limit),
    ensures
        distinct_ids(tbl),
{
}

/// At most one table is drawn from a given map below a given span: the
/// conditions of `table_matches` pin the sequence completely.
pub proof fn lemma_table_matches_unique(
    t1: Seq<(u32, Seq<u8>)>,
    t2: Seq<(u32, Seq<u8>)>,
    m: Map<u32, Seq<u8>>,
    limit: u32,
)
    requires
        table_matches(t1, m, limit),
        table_matches(t2, m, limit),
    ensures
        t1 == t2,
    decreases t1.len(),
{
    if t1.len() == 0 {
        if t2.len() > 0 {
            let id = t2[0].0;
            assert(exists|k: int| 0 <= k < t1.len() && (#[trigger] t1[k]).0 == id);
        }
        assert(t1 =~= t2);
    } else if t2.len() == 0 {
        let id = t1[0].0;
        assert(exists|k: int| 0 <= k < t2.len() && (#[trigger] t2[k]).0 == id);
    } else {
        let h1 = t1[0].0;
        let h2 = t2[0].0;
        let k2 = choose|k: int| 0 <= k < t2.len() && (#[trigger] t2[k]).0 == h1;
        if k2 > 0 {
            assert(t2[0].0 < t2[k2].0);
        }
        let k1 = choose|k: int| 0 <= k < t1.len() && (#[trigger] t1[k]).0 == h2;
        if k1 > 0 {
            assert(t1[0].0 < t1[k1].0);
        }
        assert(h1 == h2);
        assert(t1[0] == t2[0]);
        let m2 = m.remove(h1);
        assert(tails_match(t1, m, limit, h1)) by {
            lemma_tail_matches(t1, m, limit);
        }
        assert(tails_match(t2, m, limit, h1)) by {
            lemma_tail_matches(t2, m, limit);
        }
        lemma_table_matches_unique(t1.drop_first(), t2.drop_first(), m2, limit);
        assert(t1 =~= t2) by {
            assert(t1.len() == t2.len());
            assert forall|i: int| 0 <= i < t1.len() implies t1[i] == t2[i] by {
                if i > 0 {
                    assert(t1[i] == t1.drop_first()[i - 1]);
                    assert(t2[i] == t2.drop_first()[i - 1]);
                }
            }
        }
    }
}

/// The tail of a matching table matches the map with the head's id
/// removed.
spec fn tails_match(tbl: Seq<(u32, Seq<u8>)>, m: Map<u32, Seq<u8>>, limit: u32, h: u32) -> bool {
    table_matches(tbl.drop_first(), m.remove(h), limit)
}

proof fn lemma_tail_matches(tbl: Seq<(u32, Seq<u8>)>, m: Map<u32, Seq<u8>>, limit: u32)
    requires
        table_matches(tbl, m, limit),
        tbl.len() > 0,
    ensures
        tails_match(tbl, m, limit, tbl[0].0),
{
    let h = tbl[0].0;
    let rest = tbl.drop_first();
    let m2 = m.remove(h);
    assert forall|k: int| 0 <= k < rest.len() implies m2.dom().contains((#[trigger] rest[k]).0)
        && rest[k].1 == m2[rest[k].0] && rest[k].0 < limit by {
        assert(rest[k] == tbl[k + 1]);
        assert(tbl[0].0 < tbl[k + 1].0);
    }
    assert forall|id: u32| id < limit && m2.dom().contains(id) implies exists|k: int|
        0 <= k < rest.len() && (#[trigger] rest[k]).0 == id by {
        let k = choose|k: int| 0 <= k < tbl.len() && (#[trigger] tbl[k]).0 == id;
        assert(id != h);
        assert(k > 0);
        assert(rest[k - 1] == tbl[k]);
        assert(rest[k - 1].0 == id);
    }
    assert forall|k1: int, k2: int| 0 <= k1 < k2 < rest.len() implies (#[trigger] rest[k1]).0 < (
    #[trigger] rest[k2]).0 by {
        assert(rest[k1] == tbl[k1 + 1]);
        assert(rest[k2] == tbl[k2 + 1]);
    }
}

/// A `Some` answer of `lookup_bytes` comes from an entry of the table.
proof fn lemma_lookup_bytes_member(tbl: Seq<(u32, Seq<u8>)>, id: u32)
    requires
        lookup_bytes(tbl, id) is Some,
    ensures
        exists|k: int| 0 <= k < tbl.len() && (#[trigger] tbl[k]).0 == id,
    decreases tbl.len(),
{
    if tbl.len() > 0 && tbl[0].0 != id {
        lemma_lookup_bytes_member(tbl.drop_first(), id);
        let k = choose|k: int| 0 <= k < tbl.drop_first().len() && (#[trigger] tbl.drop_first()[k]).0 == id;
        assert(tbl[k + 1] == tbl.drop_first()[k]);
    }
}

/// Looking a token's bytes up and mapping the id found back yields the
/// same bytes, provided ids are distinct.
pub proof fn lemma_lookup_roundtrip(tbl: Seq<(u32, Seq<u8>)>, b: Seq<u8>)
    requires
        distinct_ids(tbl),
        lookup_id(tbl, b) is Some,
    ensures
        lookup_bytes(tbl, lookup_id(tbl, b).unwrap()) == Some(b),
    decreases tbl.len(),
{
    let id = lookup_id(tbl, b).unwrap();
    if tbl[0].1 == b {
        assert(tbl[0].0 == id);
    } else {
        let rest = tbl.drop_first();
        assert forall|i: int, j: int| 0 <= i < j < rest.len() implies (#[trigger] rest[i]).0 != (#[trigger] rest[j]).0 by {
            assert(rest[i] == tbl[i + 1]);
            assert(rest[j] == tbl[j + 1]);
        }
        lemma_lookup_roundtrip(rest, b);
        lemma_lookup_bytes_member(rest, id);
        let k = choose|k: int| 0 <= k < rest.len() && (#[trigger] rest[k]).0 == id;
        assert(rest[k] == tbl[k + 1]);
        assert(tbl[0].0 != id);
    }
}

} // verus!
