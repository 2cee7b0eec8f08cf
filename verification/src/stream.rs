//! The jamo stream of a text: one jamo triple per character, with the
//! fallbacks that keep both directions total.

use vstd::prelude::*;
use crate::jamo::{compose, compose_spec, decompose, decompose_spec, is_syllable_spec};
use crate::jamo::lemma_compose_decompose;

verus! {

/// What one character decomposes into. A syllable gives its onset, its
/// nucleus and, where it has one, its coda. Any other character stands as
/// its own onset, with neither nucleus nor coda.
#[derive(Clone, Copy, Debug, PartialEq, Eq)]
pub struct Jamo {
    pub onset: char,
    pub nucleus: Option<char>,
    pub coda: Option<char>,
}

impl Jamo {
    /// Whether the triple is a whole syllable rather than a bare character.
    pub open spec fn is_complete_spec(self) -> bool {
        self.nucleus is Some
    }

    /// The number of jamo units in the triple: one to three.
    pub open spec fn units(self) -> nat {
        let n: nat = if self.nucleus is Some { 1 } else { 0 };
        let c: nat = if self.coda is Some { 1 } else { 0 };
        1 + n + c
    }

    /// Whether the triple is a whole syllable rather than a bare character.
    pub fn is_complete(&self) -> (r: bool)
        ensures
            r == self.is_complete_spec(),
    {
        self.nucleus.is_some()
    }
}

/// The triple of one character, with the fallback for non-syllables.
pub open spec fn jamo_of(c: char) -> Jamo {
    match decompose_spec(c) {
        Some(t) => Jamo { onset: t.0, nucleus: Some(t.1), coda: t.2 },
        None => Jamo { onset: c, nucleus: None, coda: None },
    }
}

/// The character of one triple: the composed syllable, or the onset itself
/// where the triple does not compose.
pub open spec fn syllable_of(j: Jamo) -> char {
    match j.nucleus {
        Some(n) => match compose_spec(j.onset, n, j.coda) {
            Some(s) => s,
            None => j.onset,
        },
        None => j.onset,
    }
}

/// The triples of a text, character by character.
pub open spec fn stream_of(text: Seq<char>) -> Seq<Jamo> {
    Seq::new(text.len(), |i: int| jamo_of(text[i]))
}

/// The text of a stream, triple by triple.
pub open spec fn text_of(stream: Seq<Jamo>) -> Seq<char> {
    Seq::new(stream.len(), |i: int| syllable_of(stream[i]))
}

/// The number of jamo units that a text decomposes into.
pub open spec fn jamo_len_spec(text: Seq<char>) -> nat
    decreases text.len(),
{
    if text.len() == 0 {
        0
    } else {
        jamo_len_spec(text.drop_last()) + jamo_of(text.last()).units()
    }
}

/// A text decomposes into at least one and at most three units for each
/// of its characters.
pub proof fn lemma_jamo_len_bounds(text: Seq<char>)
    ensures
        text.len() <= jamo_len_spec(text) <= 3 * text.len(),
    decreases text.len(),
{
    if text.len() > 0 {
        lemma_jamo_len_bounds(text.drop_last());
    }
}

/// Reassembling the triple of any character gives the character back.
pub proof fn lemma_assemble_disassemble(c: char)
    ensures
        syllable_of(jamo_of(c)) == c,
        jamo_of(c).is_complete_spec() == is_syllable_spec(c),
{
    if is_syllable_spec(c) {
        lemma_compose_decompose(c);
    }
}

/// Reassembling the stream of any text gives the text back.
pub proof fn lemma_text_of_stream(text: Seq<char>)
    ensures
        text_of(stream_of(text)) == text,
{
    assert forall|i: int| 0 <= i < text.len() implies text_of(stream_of(text))[i] == text[i] by {
        lemma_assemble_disassemble(text[i]);
    }
    assert(text_of(stream_of(text)) =~= text);
}

/// Decomposes one character, falling back to the bare character.
pub fn disassemble_char(c: char) -> (j: Jamo)
    ensures
        j == jamo_of(c),
        j.is_complete_spec() == is_syllable_spec(c),
{
    match decompose(c) {
        Some(t) => Jamo { onset: t.0, nucleus: Some(t.1), coda: t.2 },
        None => Jamo { onset: c, nucleus: None, coda: None },
    }
}

/// Composes one triple, falling back to its onset.
pub fn assemble_char(j: Jamo) -> (c: char)
    ensures
        c == syllable_of(j),
{
    match j.nucleus {
        Some(n) => match compose(j.onset, n, j.coda) {
            Some(s) => s,
            None => j.onset,
        },
        None => j.onset,
    }
}

/// Decomposes a text into its jamo stream.
pub fn disassemble(text: &Vec<char>) -> (stream: Vec<Jamo>)
    ensures
        stream@ == stream_of(text@),
{
    let mut stream: Vec<Jamo> = Vec::new();
    let mut i: usize = 0;
    while i < text.len()
        invariant
            i <= text.len(),
            stream@ == stream_of(text@.take(i as int)),
        decreases text.len() - i,
    {
        stream.push(disassemble_char(text[i]));
        i += 1;
        assert(stream@ =~= stream_of(text@.take(i as int)));
    }
    assert(text@.take(text.len() as int) =~= text@);
    stream
}

/// Composes a jamo stream into its text.
pub fn assemble(stream: &Vec<Jamo>) -> (text: Vec<char>)
    ensures
        text@ == text_of(stream@),
{
    let mut text: Vec<char> = Vec::new();
    let mut i: usize = 0;
    while i < stream.len()
        invariant
            i <= stream.len(),
            text@ == text_of(stream@.take(i as int)),
        decreases stream.len() - i,
    {
        text.push(assemble_char(stream[i]));
        i += 1;
        assert(text@ =~= text_of(stream@.take(i as int)));
    }
    assert(stream@.take(stream.len() as int) =~= stream@);
    text
}

/// Counts the jamo units that a text decomposes into.
pub fn jamo_len(text: &Vec<char>) -> (n: u128)
    ensures
        n == jamo_len_spec(text@),
{
    let mut n: u128 = 0;
    let mut i: usize = 0;
    while i < text.len()
        invariant
            i <= text.len(),
            n == jamo_len_spec(text@.take(i as int)),
            n <= 3 * i,
        decreases text.len() - i,
    {
        let j = disassemble_char(text[i]);
        let mut units: u128 = 1;
        if j.nucleus.is_some() {
            units += 1;
        }
        if j.coda.is_some() {
            units += 1;
        }
        proof {
            assert(text@.take(i + 1).drop_last() =~= text@.take(i as int));
        }
        n += units;
        i += 1;
    }
    assert(text@.take(text.len() as int) =~= text@);
    n
}

} // verus!
