//! The chunk segmenter: a text cut into maximal runs of one character class.

use vstd::prelude::*;

verus! {

/// The class of one character.
#[derive(Clone, Copy, Debug, PartialEq, Eq, Structural)]
pub enum CharClass {
    /// `A` to `z` by code point, the six characters between `Z` and `a` included.
    Latin,
    /// A precomposed Hangul syllable.
    Hangul,
    /// `0` to `9`.
    Digit,
    /// Anything else.
    Other,
}

/// The class of `c`, by code-point range.
pub open spec fn class_of(c: char) -> CharClass {
    let u = c as u32;
    if 0x41 <= u <= 0x7A {
        CharClass::Latin
    } else if 0xAC00 <= u <= 0xD7A3 {
        CharClass::Hangul
    } else if 0x30 <= u <= 0x39 {
        CharClass::Digit
    } else {
        CharClass::Other
    }
}

/// Whether every character of `s` has the class `class`.
pub open spec fn all_of_class(s: Seq<char>, class: CharClass) -> bool {
    forall|i: int| 0 <= i < s.len() ==> class_of(#[trigger] s[i]) == class
}

/// Whether no two characters of `s` differ in class: each has the class of
/// the first.
pub open spec fn is_homogeneous(s: Seq<char>) -> bool {
    forall|i: int| 0 <= i < s.len() ==> class_of(#[trigger] s[i]) == class_of(s[0])
}

/// The texts held by a sequence of character vectors.
pub open spec fn texts(v: Seq<Vec<char>>) -> Seq<Seq<char>> {
    Seq::new(v.len(), |i: int| v[i]@)
}

/// The chunks joined in order.
pub open spec fn concat(chunks: Seq<Seq<char>>) -> Seq<char>
    decreases chunks.len(),
{
    if chunks.len() == 0 {
        Seq::empty()
    } else {
        concat(chunks.drop_last()) + chunks.last()
    }
}

/// Whether the chunks are maximal runs: none is empty, none mixes classes,
/// and neighbours differ in class.
pub open spec fn are_maximal_runs(chunks: Seq<Seq<char>>) -> bool {
    &&& forall|k: int| 0 <= k < chunks.len() ==> (#[trigger] chunks[k]).len() > 0
    &&& forall|k: int| 0 <= k < chunks.len() ==> is_homogeneous(#[trigger] chunks[k])
    &&& forall|j: int, k: int|
        0 <= j && j + 1 == k && k < chunks.len() ==> class_of((#[trigger] chunks[j]).last())
            != class_of((#[trigger] chunks[k])[0])
}

/// Whether `chunks` is the segmentation of `text`: joined in order they
/// give `text`, and they are maximal runs.
pub open spec fn is_segmentation(text: Seq<char>, chunks: Seq<Seq<char>>) -> bool {
    &&& concat(chunks) == text
    &&& are_maximal_runs(chunks)
}

/// One more run after maximal runs, of another class than the last, leaves
/// maximal runs.
proof fn lemma_runs_push(chunks: Seq<Seq<char>>, run: Seq<char>)
    requires
        are_maximal_runs(chunks),
        run.len() > 0,
        is_homogeneous(run),
        chunks.len() > 0 ==> class_of(chunks.last().last()) != class_of(run[0]),
    ensures
        are_maximal_runs(chunks.push(run)),
{
    let next = chunks.push(run);
    assert forall|k: int| 0 <= k < next.len() implies (#[trigger] next[k]).len() > 0
        && is_homogeneous(next[k]) by {
        if k < chunks.len() {
            assert(next[k] == chunks[k]);
        }
    }
    assert forall|j: int, k: int| 0 <= j && j + 1 == k && k < next.len() implies class_of(
        (#[trigger] next[j]).last(),
    ) != class_of((#[trigger] next[k])[0]) by {
        assert(next[j] == chunks[j]);
        if k < chunks.len() {
            assert(next[k] == chunks[k]);
        }
    }
}

/// One more character of the run's class leaves the run homogeneous.
proof fn lemma_run_push(run: Seq<char>, c: char)
    requires
        is_homogeneous(run),
        run.len() > 0 ==> class_of(run.last()) == class_of(c),
    ensures
        is_homogeneous(run.push(c)),
        run.len() > 0 ==> run.push(c)[0] == run[0],
{
    let next = run.push(c);
    assert forall|i: int| 0 <= i < next.len() implies class_of(#[trigger] next[i]) == class_of(
        next[0],
    ) by {
        if i < run.len() {
            assert(next[i] == run[i]);
        }
        if run.len() > 0 {
            assert(next[0] == run[0]);
            assert(class_of(run.last()) == class_of(run[0]));
        }
    }
}

/// The chunks of a text, defined character by character: each character
/// either extends the last chunk, when it has the class of that chunk's
/// last character, or opens a new chunk.
pub open spec fn segments(text: Seq<char>) -> Seq<Seq<char>>
    decreases text.len(),
{
    if text.len() == 0 {
        Seq::empty()
    } else {
        let before = segments(text.drop_last());
        let c = text.last();
        if before.len() > 0 && class_of(before.last().last()) == class_of(c) {
            before.drop_last().push(before.last().push(c))
        } else {
            before.push(Seq::<char>::empty().push(c))
        }
    }
}

/// Joining after appending one more chunk appends that chunk.
pub proof fn lemma_concat_push(chunks: Seq<Seq<char>>, last: Seq<char>)
    ensures
        concat(chunks.push(last)) == concat(chunks) + last,
{
    assert(chunks.push(last).drop_last() =~= chunks);
}

/// The chunks of any text are its segmentation: joined in order they give
/// the text back, none is empty, none mixes two classes, and neighbours
/// differ in class.
pub proof fn lemma_segments(text: Seq<char>)
    ensures
        is_segmentation(text, segments(text)),
        text.len() > 0 ==> segments(text).len() > 0 && segments(text).last().len() > 0
            && segments(text).last().last() == text.last(),
    decreases text.len(),
{
    if text.len() > 0 {
        let before = segments(text.drop_last());
        let c = text.last();
        lemma_segments(text.drop_last());
        assert(text =~= text.drop_last().push(c));
        if before.len() > 0 && class_of(before.last().last()) == class_of(c) {
            let closed = before.drop_last();
            let run = before.last();
            assert(before =~= closed.push(run));
            lemma_concat_push(closed, run);
            lemma_concat_push(closed, run.push(c));
            assert(concat(closed) + run.push(c) =~= (concat(closed) + run).push(c));
            assert forall|k: int| 0 <= k < closed.len() implies (#[trigger] closed[k]).len() > 0
                && is_homogeneous(closed[k]) by {
                assert(closed[k] == before[k]);
            }
            assert forall|j: int, k: int| 0 <= j && j + 1 == k && k < closed.len() implies class_of(
                (#[trigger] closed[j]).last(),
            ) != class_of((#[trigger] closed[k])[0]) by {
                assert(closed[j] == before[j] && closed[k] == before[k]);
            }
            lemma_run_push(run, c);
            if closed.len() > 0 {
                assert(closed.last() == before[closed.len() - 1]);
                assert(run == before[closed.len() as int]);
            }
            lemma_runs_push(closed, run.push(c));
            assert(segments(text) == closed.push(run.push(c)));
            assert(concat(segments(text)) == text);
        } else {
            let run = Seq::<char>::empty().push(c);
            lemma_concat_push(before, run);
            assert(concat(before) + run =~= concat(before).push(c));
            lemma_run_push(Seq::<char>::empty(), c);
            lemma_runs_push(before, run);
            assert(segments(text) == before.push(run));
            assert(concat(segments(text)) == text);
        }
    } else {
        assert(text =~= Seq::<char>::empty());
    }
}

/// Maximal runs without the last of them are maximal runs.
proof fn lemma_runs_drop_last(chunks: Seq<Seq<char>>)
    requires
        are_maximal_runs(chunks),
        chunks.len() > 0,
    ensures
        are_maximal_runs(chunks.drop_last()),
{
    let init = chunks.drop_last();
    assert forall|k: int| 0 <= k < init.len() implies (#[trigger] init[k]).len() > 0
        && is_homogeneous(init[k]) by {
        assert(init[k] == chunks[k]);
    }
    assert forall|j: int, k: int| 0 <= j && j + 1 == k && k < init.len() implies class_of(
        (#[trigger] init[j]).last(),
    ) != class_of((#[trigger] init[k])[0]) by {
        assert(init[j] == chunks[j] && init[k] == chunks[k]);
    }
}

/// A text has one segmentation only: whatever chunks join to the text and
/// are maximal runs are the chunks of the text.
pub proof fn lemma_segmentation_unique(text: Seq<char>, chunks: Seq<Seq<char>>)
    requires
        is_segmentation(text, chunks),
    ensures
        chunks == segments(text),
    decreases text.len(),
{
    if chunks.len() == 0 {
        assert(chunks =~= segments(text));
    } else {
        let last = chunks.last();
        let init = chunks.drop_last();
        let c = text.last();
        assert(last == chunks[chunks.len() - 1]);
        assert(text =~= concat(init) + last);
        assert(c == last.last());
        lemma_runs_drop_last(chunks);
        if init.len() > 0 {
            assert(init.last() == chunks[chunks.len() - 2]);
        }
        if last.len() == 1 {
            assert(concat(init) =~= text.drop_last());
            lemma_segmentation_unique(text.drop_last(), init);
            assert(last =~= Seq::<char>::empty().push(c));
            assert(chunks =~= init.push(last));
        } else {
            let shorter = last.drop_last();
            let sooner = init.push(shorter);
            lemma_concat_push(init, shorter);
            assert(concat(sooner) =~= text.drop_last());
            assert forall|i: int| 0 <= i < shorter.len() implies class_of(#[trigger] shorter[i])
                == class_of(shorter[0]) by {
                assert(shorter[i] == last[i] && shorter[0] == last[0]);
            }
            lemma_runs_push(init, shorter);
            lemma_segmentation_unique(text.drop_last(), sooner);
            assert(shorter.last() == last[last.len() - 2]);
            assert(class_of(shorter.last()) == class_of(last[0]));
            assert(class_of(c) == class_of(last[0]));
            assert(sooner.drop_last() =~= init);
            assert(shorter.push(c) =~= last);
            assert(chunks =~= init.push(last));
        }
    }
}

/// Classifies one character.
pub fn classify(c: char) -> (r: CharClass)
    ensures
        r == class_of(c),
{
    let u: u32 = c as u32;
    if 0x41 <= u && u <= 0x7A {
        CharClass::Latin
    } else if 0xAC00 <= u && u <= 0xD7A3 {
        CharClass::Hangul
    } else if 0x30 <= u && u <= 0x39 {
        CharClass::Digit
    } else {
        CharClass::Other
    }
}

/// The characters of a string, in order.
pub fn chars_of(text: &str) -> (r: Vec<char>)
    ensures
        r@ == text@,
{
    broadcast use vstd::string::group_string_axioms;

    let mut out: Vec<char> = Vec::new();
    for c in iter: text.chars()
        invariant
            iter.seq() == text@,
            out@ == text@.take(iter.index() as int),
    {
        out.push(c);
        assert(out@ =~= text@.take(iter.index() + 1));
    }
    assert(text@.take(text@.len() as int) =~= text@);
    out
}

/// A copy of a character vector.
pub fn copy_text(text: &Vec<char>) -> (r: Vec<char>)
    ensures
        r@ == text@,
{
    let mut out: Vec<char> = Vec::new();
    let mut i: usize = 0;
    while i < text.len()
        invariant
            i <= text.len(),
            out@ == text@.take(i as int),
        decreases text.len() - i,
    {
        out.push(text[i]);
        i += 1;
        assert(out@ =~= text@.take(i as int));
    }
    assert(text@.take(text.len() as int) =~= text@);
    out
}

/// Whether two character vectors hold the same text.
pub fn same_text(a: &Vec<char>, b: &Vec<char>) -> (r: bool)
    ensures
        r == (a@ == b@),
{
    if a.len() != b.len() {
        return false;
    }
    let mut i: usize = 0;
    while i < a.len()
        invariant
            a.len() == b.len(),
            i <= a.len(),
            a@.take(i as int) == b@.take(i as int),
        decreases a.len() - i,
    {
        if a[i] != b[i] {
            return false;
        }
        i += 1;
        assert(a@.take(i as int) =~= a@.take(i - 1).push(a[i - 1]));
        assert(b@.take(i as int) =~= b@.take(i - 1).push(b[i - 1]));
    }
    assert(a@.take(a.len() as int) =~= a@);
    assert(b@.take(b.len() as int) =~= b@);
    true
}

/// Whether the vector is a non-empty run of Hangul syllables.
pub fn is_hangul_chunk(chunk: &Vec<char>) -> (r: bool)
    ensures
        r == (chunk@.len() > 0 && all_of_class(chunk@, CharClass::Hangul)),
{
    if chunk.len() == 0 {
        return false;
    }
    let mut i: usize = 0;
    while i < chunk.len()
        invariant
            i <= chunk.len(),
            all_of_class(chunk@.take(i as int), CharClass::Hangul),
        decreases chunk.len() - i,
    {
        if classify(chunk[i]) != CharClass::Hangul {
            return false;
        }
        i += 1;
    }
    assert(chunk@.take(chunk.len() as int) =~= chunk@);
    true
}

/// Cuts a text into its chunks: maximal runs of characters of one class.
/// The chunks joined in order are the text, and the empty text has none.
pub fn split_chars(content: &Vec<char>) -> (chunks: Vec<Vec<char>>)
    ensures
        texts(chunks@) == segments(content@),
        is_segmentation(content@, texts(chunks@)),
{
    let mut chunks: Vec<Vec<char>> = Vec::new();
    let mut current: Vec<char> = Vec::new();
    let mut i: usize = 0;
    while i < content.len()
        invariant
            i <= content.len(),
            (current@.len() == 0) == (i == 0),
            i == 0 ==> chunks@.len() == 0,
            i > 0 ==> segments(content@.take(i as int)) == texts(chunks@).push(current@),
        decreases content.len() - i,
    {
        let c: char = content[i];
        let ghost closed = texts(chunks@);
        let ghost run = current@;
        let ghost before = segments(content@.take(i as int));
        proof {
            assert(content@.take(i + 1).drop_last() =~= content@.take(i as int));
            assert(content@.take(i + 1).last() == c);
            if i == 0 {
                assert(before =~= Seq::<Seq<char>>::empty());
                assert(closed =~= Seq::<Seq<char>>::empty());
            } else {
                assert(before.drop_last() =~= closed);
                assert(before.last() == run);
            }
        }
        if current.len() > 0 && classify(current[current.len() - 1]) != classify(c) {
            chunks.push(current);
            current = Vec::new();
            assert(texts(chunks@) =~= closed.push(run));
            assert(texts(chunks@) == before);
        }
        current.push(c);
        i += 1;
        proof {
            let after = segments(content@.take(i as int));
            if texts(chunks@) == before {
                assert(current@ =~= Seq::<char>::empty().push(c));
                assert(after == before.push(Seq::<char>::empty().push(c)));
            } else {
                assert(current@ =~= run.push(c));
                assert(after == before.drop_last().push(before.last().push(c)));
            }
        }
    }
    proof {
        assert(content@.take(content.len() as int) =~= content@);
        lemma_segments(content@);
    }
    if current.len() > 0 {
        let ghost closed = texts(chunks@);
        let ghost run = current@;
        chunks.push(current);
        assert(texts(chunks@) =~= closed.push(run));
    } else {
        assert(texts(chunks@) =~= segments(content@));
    }
    chunks
}

/// Cuts a string into its chunks; see `split_chars`.
pub fn split(content: &str) -> (chunks: Vec<Vec<char>>)
    ensures
        texts(chunks@) == segments(content@),
        is_segmentation(content@, texts(chunks@)),
{
    let chars = chars_of(content);
    split_chars(&chars)
}

} // verus!
