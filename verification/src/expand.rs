//! The prefix expander: the word candidates of one chunk.
//!
//! The chunk is decomposed into its jamo stream, and a candidate is cut at
//! every position of the stream that ends a whole syllable, never behind a
//! bare consonant. Its text is the stream's prefix put together again.

use vstd::prelude::*;
use crate::chunk::{all_of_class, copy_text, texts, CharClass};
use crate::jamo::is_syllable_spec;
use crate::stream::{assemble_char, disassemble, jamo_of, lemma_assemble_disassemble};

verus! {

/// The candidates cut within the first `k` characters of `chunk`: for each
/// position up to `k` that ends a whole syllable, the prefix that ends there.
pub open spec fn candidates_upto(chunk: Seq<char>, k: nat) -> Seq<Seq<char>>
    decreases k,
{
    if k == 0 {
        Seq::empty()
    } else {
        let shorter = candidates_upto(chunk, (k - 1) as nat);
        if is_syllable_spec(chunk[k - 1]) {
            shorter.push(chunk.take(k as int))
        } else {
            shorter
        }
    }
}

/// The candidates of a chunk, shortest first.
pub open spec fn candidates_spec(chunk: Seq<char>) -> Seq<Seq<char>> {
    candidates_upto(chunk, chunk.len())
}

/// Candidates are prefixes of the chunk that end in a whole syllable, at
/// most one for each length, in strictly increasing length.
pub proof fn lemma_candidates_shape(chunk: Seq<char>, k: nat)
    requires
        k <= chunk.len(),
    ensures
        candidates_upto(chunk, k).len() <= k,
        forall|i: int|
            0 <= i < candidates_upto(chunk, k).len() ==> ({
                let c = #[trigger] candidates_upto(chunk, k)[i];
                &&& 1 <= c.len() <= k
                &&& i < c.len()
                &&& c == chunk.take(c.len() as int)
                &&& is_syllable_spec(c.last())
            }),
        forall|i: int, j: int|
            0 <= i < j < candidates_upto(chunk, k).len() ==> (#[trigger] candidates_upto(
                chunk,
                k,
            )[i]).len() < (#[trigger] candidates_upto(chunk, k)[j]).len(),
    decreases k,
{
    if k > 0 {
        lemma_candidates_shape(chunk, (k - 1) as nat);
    }
}

/// A chunk of `n` syllables has at most `n` candidates, each a prefix of
/// the chunk that ends in a whole syllable, and each longer than the one
/// before it.
pub proof fn lemma_candidates_increasing(chunk: Seq<char>)
    ensures
        candidates_spec(chunk).len() <= chunk.len(),
        forall|i: int|
            0 <= i < candidates_spec(chunk).len() ==> ({
                let c = #[trigger] candidates_spec(chunk)[i];
                &&& 1 <= c.len() <= chunk.len()
                &&& c == chunk.take(c.len() as int)
                &&& is_syllable_spec(c.last())
            }),
        forall|i: int, j: int|
            0 <= i < j < candidates_spec(chunk).len() ==> (#[trigger] candidates_spec(
                chunk,
            )[i]).len() < (#[trigger] candidates_spec(chunk)[j]).len(),
{
    lemma_candidates_shape(chunk, chunk.len());
}

/// In a run of Hangul syllables every prefix is a candidate: the `i`-th
/// candidate is the first `i + 1` syllables.
pub proof fn lemma_candidates_of_hangul(chunk: Seq<char>, k: nat)
    requires
        all_of_class(chunk, CharClass::Hangul),
        k <= chunk.len(),
    ensures
        candidates_upto(chunk, k) == Seq::new(k, |i: int| chunk.take(i + 1)),
    decreases k,
{
    if k > 0 {
        lemma_candidates_of_hangul(chunk, (k - 1) as nat);
        assert(is_syllable_spec(chunk[k - 1]));
    }
    assert(candidates_upto(chunk, k) =~= Seq::new(k, |i: int| chunk.take(i + 1)));
}

/// Expands a chunk into its candidates, shortest first.
pub fn candidates(chunk: &Vec<char>) -> (out: Vec<Vec<char>>)
    ensures
        texts(out@) == candidates_spec(chunk@),
        out@.len() <= chunk@.len(),
        forall|i: int|
            0 <= i < out@.len() ==> ({
                let c = (#[trigger] out@[i])@;
                &&& 1 <= c.len() <= chunk@.len()
                &&& c == chunk@.take(c.len() as int)
                &&& is_syllable_spec(c.last())
            }),
        forall|i: int, j: int|
            0 <= i < j < out@.len() ==> (#[trigger] out@[i])@.len() < (#[trigger] out@[j])@.len(),
{
    proof {
        lemma_candidates_increasing(chunk@);
    }
    let stream = disassemble(chunk);
    let mut out: Vec<Vec<char>> = Vec::new();
    let mut prefix: Vec<char> = Vec::new();
    let mut k: usize = 0;
    assert(texts(out@) =~= candidates_upto(chunk@, 0));
    assert(prefix@ =~= chunk@.take(0));
    while k < stream.len()
        invariant
            stream@.len() == chunk@.len(),
            forall|i: int| 0 <= i < chunk@.len() ==> stream@[i] == jamo_of(chunk@[i]),
            k <= stream.len(),
            prefix@ == chunk@.take(k as int),
            texts(out@) == candidates_upto(chunk@, k as nat),
        decreases stream.len() - k,
    {
        let j = stream[k];
        proof {
            lemma_assemble_disassemble(chunk@[k as int]);
            assert(chunk@.take(k + 1) =~= chunk@.take(k as int).push(chunk@[k as int]));
        }
        prefix.push(assemble_char(j));
        let ghost before = texts(out@);
        if j.is_complete() {
            out.push(copy_text(&prefix));
            assert(texts(out@) =~= before.push(prefix@));
        }
        k += 1;
    }
    proof {
        assert forall|i: int| 0 <= i < out@.len() implies (#[trigger] out@[i])@ == candidates_spec(
            chunk@,
        )[i] by {
            assert(texts(out@)[i] == out@[i]@);
        }
    }
    out
}

} // verus!
