//! The pre-tokenizer: splits input bytes into coarse chunks before BPE
//! merging. A chunk is a maximal run of bytes of one class (whitespace,
//! letters, digits, other); a UTF-8 continuation byte never opens a chunk,
//! so no encoded code point is split across a chunk boundary. The
//! concatenation of the chunks is exactly the input.
use vstd::prelude::*;
use vstd::utf8::is_continuation_byte;

verus! {

#[derive(PartialEq, Eq, Structural, Clone, Copy, Debug)]
pub enum ByteClass {
    Whitespace,
    Letter,
    Digit,
    Other,
}

pub open spec fn spec_class(b: u8) -> ByteClass {
    if b == 32 || b == 9 || b == 10 || b == 13 {
        ByteClass::Whitespace
    } else if (65 <= b && b <= 90) || (97 <= b && b <= 122) {
        ByteClass::Letter
    } else if 48 <= b && b <= 57 {
        ByteClass::Digit
    } else {
        ByteClass::Other
    }
}

pub fn class_of(b: u8) -> (r: ByteClass)
    ensures
        r == spec_class(b),
{
    if b == 32 || b == 9 || b == 10 || b == 13 {
        ByteClass::Whitespace
    } else if (65 <= b && b <= 90) || (97 <= b && b <= 122) {
        ByteClass::Letter
    } else if 48 <= b && b <= 57 {
        ByteClass::Digit
    } else {
        ByteClass::Other
    }
}

/// A chunk boundary falls between `a` and `b` when `b` does not continue
/// a multi-byte code point and its class differs from the class of `a`.
pub open spec fn is_boundary(a: u8, b: u8) -> bool {
    !is_continuation_byte(b) && spec_class(a) != spec_class(b)
}

pub fn boundary(a: u8, b: u8) -> (r: bool)
    ensures
        r == is_boundary(a, b),
{
    let cont = 128 <= b && b <= 191;
    if cont {
        false
    } else {
        let ca = class_of(a);
        let cb = class_of(b);
        ca != cb
    }
}

/// Length of the first chunk: the bytes up to (not including) the first
/// boundary.
pub open spec fn first_chunk_len(bytes: Seq<u8>) -> int
    decreases bytes.len(),
{
    if bytes.len() <= 1 {
        bytes.len() as int
    } else if is_boundary(bytes[0], bytes[1]) {
        1
    } else {
        1 + first_chunk_len(bytes.drop_first())
    }
}

pub proof fn lemma_first_chunk_len_bounds(bytes: Seq<u8>)
    requires
        bytes.len() > 0,
    ensures
        1 <= first_chunk_len(bytes) <= bytes.len(),
    decreases bytes.len(),
{
    if bytes.len() > 1 && !is_boundary(bytes[0], bytes[1]) {
        lemma_first_chunk_len_bounds(bytes.drop_first());
    }
}

/// The first chunk ends exactly at the first boundary: no boundary falls
/// inside it, and one follows it unless the input ends there.
pub proof fn lemma_first_chunk_len_character(bytes: Seq<u8>, m: int)
    requires
        bytes.len() > 0,
        1 <= m <= bytes.len(),
        forall|t: int| 1 <= t < m ==> !is_boundary(bytes[t - 1], #[trigger] bytes[t]),
        m == bytes.len() || is_boundary(bytes[m - 1], bytes[m]),
    ensures
        first_chunk_len(bytes) == m,
    decreases bytes.len(),
{
    if bytes.len() > 1 && !is_boundary(bytes[0], bytes[1]) {
        let rest = bytes.drop_first();
        assert(m >= 2) by {
            if m == 1 {
                assert(is_boundary(bytes[0], bytes[1]));
            }
        }
        assert forall|t: int| 1 <= t < m - 1 implies !is_boundary(rest[t - 1], #[trigger] rest[t]) by {
            assert(rest[t - 1] == bytes[t]);
            assert(rest[t] == bytes[t + 1]);
            assert(!is_boundary(bytes[t], bytes[t + 1]));
        }
        if m - 1 < rest.len() {
            assert(rest[m - 2] == bytes[m - 1]);
            assert(rest[m - 1] == bytes[m]);
        }
        lemma_first_chunk_len_character(rest, m - 1);
    }
}

/// The chunks of the input, in order.
pub open spec fn spec_split(bytes: Seq<u8>) -> Seq<Seq<u8>>
    decreases bytes.len(),
{
    if bytes.len() == 0 {
        Seq::empty()
    } else {
        let k = first_chunk_len(bytes);
        if 1 <= k <= bytes.len() {
            seq![bytes.take(k)] + spec_split(bytes.skip(k))
        } else {
            seq![bytes]
        }
    }
}

/// Concatenation of a sequence of sequences, in order.
pub open spec fn cat<A>(s: Seq<Seq<A>>) -> Seq<A>
    decreases s.len(),
{
    if s.len() == 0 {
        Seq::empty()
    } else {
        s[0] + cat(s.drop_first())
    }
}

pub proof fn lemma_cat_cons<A>(x: Seq<A>, s: Seq<Seq<A>>)
    ensures
        cat(seq![x] + s) == x + cat(s),
{
    let whole = seq![x] + s;
    assert(whole[0] == x);
    assert(whole.drop_first() =~= s);
}

/// No byte is lost or duplicated: the chunks concatenate to the input.
pub proof fn lemma_split_cat(bytes: Seq<u8>)
    ensures
        cat(spec_split(bytes)) == bytes,
    decreases bytes.len(),
{
    if bytes.len() > 0 {
        lemma_first_chunk_len_bounds(bytes);
        let k = first_chunk_len(bytes);
        lemma_split_cat(bytes.skip(k));
        lemma_cat_cons(bytes.take(k), spec_split(bytes.skip(k)));
        assert(bytes.take(k) + bytes.skip(k) =~= bytes);
    }
}

/// Every chunk is nonempty, and no chunk after the first opens with a
/// continuation byte: code points stay whole.
pub proof fn lemma_split_chunks_wf(bytes: Seq<u8>)
    ensures
        forall|c: int| 0 <= c < spec_split(bytes).len() ==> (#[trigger] spec_split(bytes)[c]).len() > 0,
        forall|c: int| 1 <= c < spec_split(bytes).len() ==> !is_continuation_byte(
            (#[trigger] spec_split(bytes)[c])[0],
        ),
    decreases bytes.len(),
{
    if bytes.len() > 0 {
        lemma_first_chunk_len_bounds(bytes);
        let k = first_chunk_len(bytes);
        let rest = bytes.skip(k);
        lemma_split_chunks_wf(rest);
        let s = spec_split(bytes);
        assert(s[0] == bytes.take(k));
        assert forall|c: int| 1 <= c < s.len() implies (#[trigger] s[c]).len() > 0 && !is_continuation_byte(
            s[c][0],
        ) by {
            assert(s[c] == spec_split(rest)[c - 1]);
            if c == 1 {
                // the first chunk of the remainder opens right after a boundary,
                // or the remainder is empty and there is no such chunk
                if rest.len() > 0 {
                    lemma_first_chunk_len_bounds(rest);
                    assert(spec_split(rest)[0] == rest.take(first_chunk_len(rest)));
                    assert(spec_split(rest)[0][0] == rest[0]);
                    assert(rest[0] == bytes[k]);
                    lemma_first_chunk_boundary(bytes);
                    assert(is_boundary(bytes[k - 1], bytes[k]));
                }
            }
        }
    }
}

/// When the first chunk does not take the whole input, a boundary follows it.
pub proof fn lemma_first_chunk_boundary(bytes: Seq<u8>)
    requires
        bytes.len() > 0,
        first_chunk_len(bytes) < bytes.len(),
    ensures
        is_boundary(bytes[first_chunk_len(bytes) - 1], bytes[first_chunk_len(bytes)]),
    decreases bytes.len(),
{
    if bytes.len() > 1 && !is_boundary(bytes[0], bytes[1]) {
        let rest = bytes.drop_first();
        lemma_first_chunk_len_bounds(rest);
        lemma_first_chunk_boundary(rest);
        let k = first_chunk_len(bytes);
        assert(rest[k - 2] == bytes[k - 1]);
        assert(rest[k - 1] == bytes[k]);
    }
}

/// Splits the input into chunks. The result is exactly `spec_split` of
/// the input; in particular the chunks concatenate back to the input.
pub fn pre_tokenize(input: &Vec<u8>) -> (chunks: Vec<Vec<u8>>)
    ensures
        chunks@.map(|i: int, c: Vec<u8>| c@) == spec_split(input@),
        cat(chunks@.map(|i: int, c: Vec<u8>| c@)) == input@,
{
    let n = input.len();
    let mut chunks: Vec<Vec<u8>> = Vec::new();
    let mut pos: usize = 0;
    proof {
        assert(input@.skip(0) =~= input@);
    }
    while pos < n
        invariant
            n == input@.len(),
            pos <= n,
            spec_split(input@) == chunks@.map(|i: int, c: Vec<u8>| c@) + spec_split(
                input@.skip(pos as int),
            ),
        decreases n - pos,
    {
        let ghost rest = input@.skip(pos as int);
        // scan to the end of the current chunk
        let mut j: usize = pos + 1;
        while j < n && !boundary(input[j - 1], input[j])
            invariant
                n == input@.len(),
                pos < j <= n,
                forall|t: int| pos < t < j ==> !is_boundary(input@[t - 1], #[trigger] input@[t]),
            decreases n - j,
        {
            j += 1;
        }
        proof {
            assert forall|t: int| 1 <= t < j - pos implies !is_boundary(rest[t - 1], #[trigger] rest[t]) by {
                assert(rest[t - 1] == input@[pos + t - 1]);
                assert(rest[t] == input@[pos + t]);
            }
            if j < n {
                assert(rest[j - pos - 1] == input@[j - 1]);
                assert(rest[j - pos] == input@[j as int]);
            }
            lemma_first_chunk_len_character(rest, j - pos);
        }
        // copy the chunk out
        let mut chunk: Vec<u8> = Vec::new();
        let mut t = pos;
        while t < j
            invariant
                n == input@.len(),
                pos <= t <= j <= n,
                chunk@ == input@.subrange(pos as int, t as int),
            decreases j - t,
        {
            let b = input[t];
            chunk.push(b);
            proof {
                assert(chunk@ =~= input@.subrange(pos as int, t + 1));
            }
            t += 1;
        }
        proof {
            let k = first_chunk_len(rest);
            assert(k == j - pos);
            assert(chunk@ =~= rest.take(k));
            assert(rest.skip(k) =~= input@.skip(j as int));
            assert(spec_split(rest) == seq![rest.take(k)] + spec_split(rest.skip(k)));
            let old_map = chunks@.map(|i: int, c: Vec<u8>| c@);
            assert((chunks@ + seq![chunk]).map(|i: int, c: Vec<u8>| c@) =~= old_map + seq![chunk@]);
            assert(old_map + seq![chunk@] + spec_split(input@.skip(j as int)) =~= old_map + (seq![
                rest.take(k),
            ] + spec_split(rest.skip(k))));
        }
        chunks.push(chunk);
        pos = j;
    }
    proof {
        assert(input@.skip(n as int) =~= Seq::<u8>::empty());
        assert(chunks@.map(|i: int, c: Vec<u8>| c@) + spec_split(input@.skip(n as int)) =~= chunks@.map(
            |i: int, c: Vec<u8>| c@,
        ));
        lemma_split_cat(input@);
    }
    chunks
}

} // verus!
