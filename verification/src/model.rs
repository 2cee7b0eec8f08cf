//! The cohesion model: candidates counted over a whole corpus, scored, and
//! one word selected for each chunk.

use vstd::prelude::*;
use crate::chunk::{
    all_of_class, chars_of, class_of, copy_text, is_hangul_chunk, same_text, segments,
    split_chars, texts, CharClass,
};
use crate::expand::{
    candidates, candidates_spec, candidates_upto, lemma_candidates_increasing,
    lemma_candidates_of_hangul,
};
use crate::jamo::is_syllable_spec;
use crate::score::{at_least, at_least_spec, floor_score, lemma_floor_above_zero, zero_score, Score};
use crate::stream::{jamo_len, jamo_len_spec, lemma_jamo_len_bounds};
use crate::table::{bump, count_after, FrequencyTable};

verus! {

/// Whether `c` is a non-empty run of Hangul syllables.
pub open spec fn is_hangul_run(c: Seq<char>) -> bool {
    c.len() > 0 && all_of_class(c, CharClass::Hangul)
}

/// `acc` followed by the Hangul runs among `chunks`, in order.
pub open spec fn gather(acc: Seq<Seq<char>>, chunks: Seq<Seq<char>>) -> Seq<Seq<char>>
    decreases chunks.len(),
{
    if chunks.len() == 0 {
        acc
    } else {
        let sooner = gather(acc, chunks.drop_last());
        if is_hangul_run(chunks.last()) {
            sooner.push(chunks.last())
        } else {
            sooner
        }
    }
}

/// The Hangul chunks of every document of a corpus, in order.
pub open spec fn hangul_chunks(corpus: Seq<Seq<char>>) -> Seq<Seq<char>>
    decreases corpus.len(),
{
    if corpus.len() == 0 {
        Seq::empty()
    } else {
        gather(hangul_chunks(corpus.drop_last()), segments(corpus.last()))
    }
}

/// How often `w` is a candidate of one of `chunks`.
pub open spec fn corpus_count(chunks: Seq<Seq<char>>, w: Seq<char>) -> nat
    decreases chunks.len(),
{
    if chunks.len() == 0 {
        0
    } else {
        count_after(corpus_count(chunks.drop_last(), w), candidates_spec(chunks.last()), w)
    }
}

/// The candidate counts of `chunks` as a function of the text.
pub open spec fn corpus_counts(chunks: Seq<Seq<char>>) -> spec_fn(Seq<char>) -> nat {
    |w: Seq<char>| corpus_count(chunks, w)
}

/// The cohesion score of `w` under `counts`. One syllable scores one tenth.
/// A longer text scores `(count(w) / count(head)) ^ (1 / jamo_len(w))`, where
/// `head` is its first syllable; it has no score when `head` was never
/// counted. The empty text has no score.
pub open spec fn score_of(counts: spec_fn(Seq<char>) -> nat, w: Seq<char>) -> Option<Score> {
    if w.len() == 0 {
        None
    } else if w.len() == 1 {
        Some(floor_score())
    } else if counts(w.take(1)) == 0 {
        None
    } else {
        Some(
            Score {
                num: counts(w) as u64,
                den: counts(w.take(1)) as u64,
                root: jamo_len_spec(w) as u128,
            },
        )
    }
}

/// The scan over candidates from position `i` on, with the best score and
/// word so far. A candidate whose score is at least the best becomes the
/// best; the first one that falls below, or has no score, ends the scan.
pub open spec fn scan(
    counts: spec_fn(Seq<char>) -> nat,
    cands: Seq<Seq<char>>,
    i: int,
    best: Score,
    word: Option<Seq<char>>,
) -> Option<Seq<char>>
    decreases cands.len() - i,
{
    if i < 0 || i >= cands.len() {
        word
    } else {
        match score_of(counts, cands[i]) {
            Some(s) => if at_least_spec(s, best) {
                scan(counts, cands, i + 1, s, Some(cands[i]))
            } else {
                word
            },
            None => word,
        }
    }
}

/// The word selected for a chunk: the scan over its candidates, shortest
/// first, from a best score of zero and no word.
pub open spec fn selected(counts: spec_fn(Seq<char>) -> nat, chunk: Seq<char>) -> Option<
    Seq<char>,
> {
    scan(counts, candidates_spec(chunk), 0, zero_score(), None)
}

/// The vocabulary after one selection: a word of more than one syllable
/// that is not yet in it is appended; anything else leaves it as it is.
pub open spec fn learn(vocab: Seq<Seq<char>>, word: Option<Seq<char>>) -> Seq<Seq<char>> {
    match word {
        Some(w) => if w.len() > 1 && !vocab.contains(w) {
            vocab.push(w)
        } else {
            vocab
        },
        None => vocab,
    }
}

/// The vocabulary discovered from `chunks` under `counts`.
pub open spec fn vocabulary_of(counts: spec_fn(Seq<char>) -> nat, chunks: Seq<Seq<char>>) -> Seq<
    Seq<char>,
>
    decreases chunks.len(),
{
    if chunks.len() == 0 {
        Seq::empty()
    } else {
        learn(vocabulary_of(counts, chunks.drop_last()), selected(counts, chunks.last()))
    }
}

/// The vocabulary that training on `corpus` discovers: every candidate of
/// every Hangul chunk is counted first, and only then are words selected.
pub open spec fn trained(corpus: Seq<Seq<char>>) -> Seq<Seq<char>> {
    vocabulary_of(corpus_counts(hangul_chunks(corpus)), hangul_chunks(corpus))
}

/// The text of an optional character vector.
pub open spec fn text_view(word: Option<Vec<char>>) -> Option<Seq<char>> {
    match word {
        Some(v) => Some(v@),
        None => None,
    }
}

/// A single syllable scores one tenth, whatever the counts.
pub proof fn lemma_single_syllable_floor(counts: spec_fn(Seq<char>) -> nat, w: Seq<char>)
    requires
        w.len() == 1,
    ensures
        score_of(counts, w) == Some(Score { num: 1, den: 10, root: 1 }),
{
}

/// Learning the same word a second time changes nothing.
pub proof fn lemma_learn_idempotent(vocab: Seq<Seq<char>>, word: Option<Seq<char>>)
    ensures
        learn(learn(vocab, word), word) == learn(vocab, word),
{
    if let Some(w) = word {
        if w.len() > 1 && !vocab.contains(w) {
            assert(vocab.push(w)[vocab.len() as int] == w);
            assert(vocab.push(w).contains(w));
        }
    }
}

/// Whether `w` is a prefix of more than one character of one of `chunks`.
pub open spec fn is_long_prefix_in(w: Seq<char>, chunks: Seq<Seq<char>>) -> bool {
    exists|k: int|
        0 <= k < chunks.len() && 1 < w.len() <= (#[trigger] chunks[k]).len() && w == chunks[k].take(
            w.len() as int,
        )
}

/// A scan ends with the word it started from or with one of the
/// candidates from position `i` on.
pub proof fn lemma_scan_result(
    counts: spec_fn(Seq<char>) -> nat,
    cands: Seq<Seq<char>>,
    i: int,
    best: Score,
    word: Option<Seq<char>>,
)
    requires
        0 <= i,
    ensures
        scan(counts, cands, i, best, word) == word || exists|k: int|
            i <= k < cands.len() && scan(counts, cands, i, best, word) == Some(#[trigger] cands[k]),
    decreases cands.len() - i,
{
    if i < cands.len() {
        match score_of(counts, cands[i]) {
            Some(s) => {
                if at_least_spec(s, best) {
                    lemma_scan_result(counts, cands, i + 1, s, Some(cands[i]));
                    let r = scan(counts, cands, i + 1, s, Some(cands[i]));
                    if r == Some(cands[i]) {
                        assert(i <= i < cands.len() && r == Some(cands[i]));
                    } else {
                        let k = choose|k: int| i + 1 <= k < cands.len() && r == Some(#[trigger] cands[k]);
                        assert(i <= k < cands.len() && r == Some(cands[k]));
                    }
                }
            },
            None => {},
        }
    }
}

/// The word selected for a chunk, if any, is one of its candidates: a
/// prefix of the chunk that ends in a whole syllable.
pub proof fn lemma_selected_is_candidate(counts: spec_fn(Seq<char>) -> nat, chunk: Seq<char>)
    ensures
        (match selected(counts, chunk) {
            Some(w) => 1 <= w.len() <= chunk.len() && w == chunk.take(w.len() as int)
                && is_syllable_spec(w.last()),
            None => true,
        }),
{
    let cands = candidates_spec(chunk);
    lemma_scan_result(counts, cands, 0, zero_score(), None);
    lemma_candidates_increasing(chunk);
}

/// For a run of Hangul syllables a word is always selected: the first
/// syllable scores one tenth, which is at least zero.
pub proof fn lemma_selected_of_hangul(counts: spec_fn(Seq<char>) -> nat, chunk: Seq<char>)
    requires
        is_hangul_run(chunk),
    ensures
        selected(counts, chunk) is Some,
{
    let cands = candidates_spec(chunk);
    lemma_candidates_of_hangul(chunk, chunk.len());
    assert(cands[0] == chunk.take(1));
    assert(score_of(counts, cands[0]) == Some(floor_score()));
    lemma_floor_above_zero();
    lemma_scan_result(counts, cands, 1, floor_score(), Some(cands[0]));
}

/// Every word of a discovered vocabulary has more than one syllable and is
/// a prefix of one of the chunks, and no word stands in it twice.
pub proof fn lemma_vocabulary_shape(counts: spec_fn(Seq<char>) -> nat, chunks: Seq<Seq<char>>)
    ensures
        forall|i: int|
            0 <= i < vocabulary_of(counts, chunks).len() ==> is_long_prefix_in(
                #[trigger] vocabulary_of(counts, chunks)[i],
                chunks,
            ),
        vocabulary_of(counts, chunks).no_duplicates(),
    decreases chunks.len(),
{
    if chunks.len() > 0 {
        let sooner = vocabulary_of(counts, chunks.drop_last());
        let word = selected(counts, chunks.last());
        let v = vocabulary_of(counts, chunks);
        lemma_vocabulary_shape(counts, chunks.drop_last());
        lemma_selected_is_candidate(counts, chunks.last());
        assert forall|i: int| 0 <= i < v.len() implies is_long_prefix_in(#[trigger] v[i], chunks) by {
            if i < sooner.len() {
                assert(v[i] == sooner[i]);
                let k = choose|k: int|
                    0 <= k < chunks.drop_last().len() && 1 < v[i].len() <= (
                    #[trigger] chunks.drop_last()[k]).len() && v[i] == chunks.drop_last()[k].take(
                        v[i].len() as int,
                    );
                assert(chunks[k] == chunks.drop_last()[k]);
            } else {
                let k = chunks.len() - 1;
                assert(chunks[k] == chunks.last());
                assert(v[i] == word->0);
            }
        }
        if v.len() > sooner.len() {
            assert forall|i: int, j: int| 0 <= i < v.len() && 0 <= j < v.len() && i != j implies v[i]
                != v[j] by {
                if i < sooner.len() && j < sooner.len() {
                    assert(v[i] == sooner[i] && v[j] == sooner[j]);
                } else if i < sooner.len() {
                    assert(sooner.contains(sooner[i]));
                } else {
                    assert(sooner.contains(sooner[j]));
                }
            }
        }
    }
}

/// Everything gathered beyond `acc` is a run of Hangul syllables.
pub proof fn lemma_gather_hangul(acc: Seq<Seq<char>>, chunks: Seq<Seq<char>>)
    requires
        forall|k: int| 0 <= k < acc.len() ==> is_hangul_run(#[trigger] acc[k]),
    ensures
        forall|k: int|
            0 <= k < gather(acc, chunks).len() ==> is_hangul_run(#[trigger] gather(acc, chunks)[k]),
    decreases chunks.len(),
{
    if chunks.len() > 0 {
        lemma_gather_hangul(acc, chunks.drop_last());
        let sooner = gather(acc, chunks.drop_last());
        let all = gather(acc, chunks);
        assert forall|k: int| 0 <= k < all.len() implies is_hangul_run(#[trigger] all[k]) by {
            if k < sooner.len() {
                assert(all[k] == sooner[k]);
            }
        }
    }
}

/// Every chunk kept from a corpus is a run of Hangul syllables.
pub proof fn lemma_hangul_chunks(corpus: Seq<Seq<char>>)
    ensures
        forall|k: int|
            0 <= k < hangul_chunks(corpus).len() ==> is_hangul_run(
                #[trigger] hangul_chunks(corpus)[k],
            ),
    decreases corpus.len(),
{
    if corpus.len() > 0 {
        lemma_hangul_chunks(corpus.drop_last());
        lemma_gather_hangul(hangul_chunks(corpus.drop_last()), segments(corpus.last()));
    }
}

/// Training discovers only words of more than one syllable, made of
/// Hangul syllables alone, and none twice.
pub proof fn lemma_trained_words(corpus: Seq<Seq<char>>)
    ensures
        forall|i: int|
            0 <= i < trained(corpus).len() ==> (#[trigger] trained(corpus)[i]).len() > 1
                && all_of_class(trained(corpus)[i], CharClass::Hangul),
        trained(corpus).no_duplicates(),
{
    let chunks = hangul_chunks(corpus);
    let counts = corpus_counts(chunks);
    let v = trained(corpus);
    lemma_hangul_chunks(corpus);
    lemma_vocabulary_shape(counts, chunks);
    assert forall|i: int| 0 <= i < v.len() implies (#[trigger] v[i]).len() > 1 && all_of_class(
        v[i],
        CharClass::Hangul,
    ) by {
        assert(is_long_prefix_in(v[i], chunks));
        let k = choose|k: int|
            0 <= k < chunks.len() && 1 < v[i].len() <= (#[trigger] chunks[k]).len() && v[i]
                == chunks[k].take(v[i].len() as int);
        assert(is_hangul_run(chunks[k]));
        assert forall|j: int| 0 <= j < v[i].len() implies class_of(#[trigger] v[i][j])
            == CharClass::Hangul by {
            assert(v[i][j] == chunks[k][j]);
        }
    }
}

/// Whether `w` is one of the first `m` prefixes of `chunk`.
pub open spec fn is_prefix_upto(w: Seq<char>, chunk: Seq<char>, m: nat) -> bool {
    1 <= w.len() <= m && w == chunk.take(w.len() as int)
}

/// Counting the candidates of one run of Hangul syllables adds one to the
/// count of each of its prefixes and leaves every other count alone.
pub proof fn lemma_count_after_candidates(base: nat, chunk: Seq<char>, m: nat, w: Seq<char>)
    requires
        all_of_class(chunk, CharClass::Hangul),
        m <= chunk.len(),
    ensures
        count_after(base, candidates_upto(chunk, m), w) == bump(
            base,
            is_prefix_upto(w, chunk, m),
        ),
    decreases m,
{
    if m > 0 {
        let shorter = candidates_upto(chunk, (m - 1) as nat);
        lemma_count_after_candidates(base, chunk, (m - 1) as nat, w);
        assert(is_syllable_spec(chunk[m - 1]));
        assert(shorter.push(chunk.take(m as int)).drop_last() =~= shorter);
        assert(chunk.take(m as int).len() == m);
    }
}

/// Over runs of Hangul syllables, a text is never counted more often than
/// its first syllable.
pub proof fn lemma_head_counted(chunks: Seq<Seq<char>>, w: Seq<char>)
    requires
        forall|k: int| 0 <= k < chunks.len() ==> is_hangul_run(#[trigger] chunks[k]),
        w.len() >= 1,
    ensures
        corpus_count(chunks, w) <= corpus_count(chunks, w.take(1)),
    decreases chunks.len(),
{
    if chunks.len() > 0 {
        let last = chunks.last();
        let sooner = chunks.drop_last();
        assert forall|k: int| 0 <= k < sooner.len() implies is_hangul_run(#[trigger] sooner[k]) by {
            assert(sooner[k] == chunks[k]);
        }
        lemma_head_counted(sooner, w);
        lemma_count_after_candidates(corpus_count(sooner, w), last, last.len(), w);
        lemma_count_after_candidates(corpus_count(sooner, w.take(1)), last, last.len(), w.take(1));
        if is_prefix_upto(w, last, last.len()) {
            assert(w.take(1) =~= last.take(1));
            assert(w.take(1).take(1) =~= w.take(1));
        }
    }
}

/// Every candidate of a counted run of Hangul syllables has been counted.
pub proof fn lemma_candidates_counted(chunks: Seq<Seq<char>>, k: int, m: int)
    requires
        forall|j: int| 0 <= j < chunks.len() ==> is_hangul_run(#[trigger] chunks[j]),
        0 <= k < chunks.len(),
        1 <= m <= chunks[k].len(),
    ensures
        corpus_count(chunks, chunks[k].take(m)) >= 1,
    decreases chunks.len(),
{
    let w = chunks[k].take(m);
    let last = chunks.last();
    let sooner = chunks.drop_last();
    lemma_count_after_candidates(corpus_count(sooner, w), last, last.len(), w);
    if k == chunks.len() - 1 {
        assert(w.take(m) =~= w);
        assert(is_prefix_upto(w, last, last.len()));
    } else {
        assert forall|j: int| 0 <= j < sooner.len() implies is_hangul_run(#[trigger] sooner[j]) by {
            assert(sooner[j] == chunks[j]);
        }
        assert(sooner[k] == chunks[k]);
        lemma_candidates_counted(sooner, k, m);
    }
}

/// Every candidate of a counted run of Hangul syllables has a score: its
/// first syllable was counted with it, so the ratio is defined.
pub proof fn lemma_candidates_have_scores(chunks: Seq<Seq<char>>, k: int, m: int)
    requires
        forall|j: int| 0 <= j < chunks.len() ==> is_hangul_run(#[trigger] chunks[j]),
        0 <= k < chunks.len(),
        1 <= m <= chunks[k].len(),
    ensures
        score_of(corpus_counts(chunks), chunks[k].take(m)) is Some,
{
    lemma_candidates_counted(chunks, k, 1);
    assert(chunks[k].take(m).take(1) =~= chunks[k].take(1));
}

/// Collects the Hangul chunks of every document, in order.
pub fn gather_chunks(corpus: &Vec<Vec<char>>) -> (chunks: Vec<Vec<char>>)
    ensures
        texts(chunks@) == hangul_chunks(texts(corpus@)),
{
    let mut chunks: Vec<Vec<char>> = Vec::new();
    let mut d: usize = 0;
    assert(texts(chunks@) =~= hangul_chunks(texts(corpus@).take(0)));
    while d < corpus.len()
        invariant
            d <= corpus.len(),
            texts(chunks@) == hangul_chunks(texts(corpus@).take(d as int)),
        decreases corpus.len() - d,
    {
        let parts = split_chars(&corpus[d]);
        let ghost base = texts(chunks@);
        let mut k: usize = 0;
        assert(texts(parts@).take(0) =~= Seq::<Seq<char>>::empty());
        while k < parts.len()
            invariant
                k <= parts.len(),
                texts(chunks@) == gather(base, texts(parts@).take(k as int)),
            decreases parts.len() - k,
        {
            let ghost sooner = texts(chunks@);
            proof {
                assert(texts(parts@).take(k + 1).drop_last() =~= texts(parts@).take(k as int));
                assert(texts(parts@).take(k + 1).last() == parts@[k as int]@);
            }
            if is_hangul_chunk(&parts[k]) {
                chunks.push(copy_text(&parts[k]));
                assert(texts(chunks@) =~= sooner.push(parts@[k as int]@));
            }
            k += 1;
        }
        proof {
            assert(texts(parts@).take(parts.len() as int) =~= texts(parts@));
            assert(texts(corpus@).take(d + 1).drop_last() =~= texts(corpus@).take(d as int));
            assert(texts(corpus@).take(d + 1).last() == corpus@[d as int]@);
        }
        d += 1;
    }
    assert(texts(corpus@).take(corpus.len() as int) =~= texts(corpus@));
    chunks
}

/// Counts every candidate of every chunk.
pub fn tally(chunks: &Vec<Vec<char>>) -> (table: FrequencyTable)
    ensures
        forall|w: Seq<char>| #[trigger] table.count(w) == corpus_count(texts(chunks@), w),
        table.counts() == corpus_counts(texts(chunks@)),
{
    let mut table = FrequencyTable::new();
    let mut i: usize = 0;
    assert(texts(chunks@).take(0) =~= Seq::<Seq<char>>::empty());
    while i < chunks.len()
        invariant
            i <= chunks.len(),
            forall|w: Seq<char>| #[trigger]
                table.count(w) == corpus_count(texts(chunks@).take(i as int), w),
        decreases chunks.len() - i,
    {
        let found = candidates(&chunks[i]);
        let ghost prior = table;
        table = table.record_all(&found);
        proof {
            assert(texts(chunks@).take(i + 1).drop_last() =~= texts(chunks@).take(i as int));
            assert(texts(chunks@).take(i + 1).last() == chunks@[i as int]@);
            assert forall|w: Seq<char>| #[trigger]
                table.count(w) == corpus_count(texts(chunks@).take(i + 1), w) by {
                assert(table.count(w) == count_after(prior.count(w), texts(found@), w));
            }
        }
        i += 1;
    }
    proof {
        assert(texts(chunks@).take(chunks.len() as int) =~= texts(chunks@));
        assert(table.counts() =~= corpus_counts(texts(chunks@)));
    }
    table
}

/// Scores one text against the table.
pub fn score(table: &FrequencyTable, w: &Vec<char>) -> (r: Option<Score>)
    ensures
        r == score_of(table.counts(), w@),
        w@.len() == 1 ==> r == Some(Score { num: 1, den: 10, root: 1 }),
        r is Some ==> r->0.den > 0 && r->0.root > 0,
{
    proof {
        lemma_jamo_len_bounds(w@);
    }
    if w.len() == 0 {
        None
    } else if w.len() == 1 {
        Some(Score { num: 1, den: 10, root: 1 })
    } else {
        let mut head: Vec<char> = Vec::new();
        head.push(w[0]);
        assert(head@ =~= w@.take(1));
        let den: u64 = table.count_of(&head);
        if den == 0 {
            None
        } else {
            Some(Score { num: table.count_of(w), den, root: jamo_len(w) })
        }
    }
}

/// Selects the word of one chunk: its candidates are scanned from the
/// shortest on, each that scores at least the best so far becomes the word
/// (so a tie favours the longer), and the first that scores less, or has no
/// score, ends the scan.
pub fn select_word(table: &FrequencyTable, chunk: &Vec<char>) -> (word: Option<Vec<char>>)
    ensures
        text_view(word) == selected(table.counts(), chunk@),
        word is Some ==> 1 <= word->0@.len() <= chunk@.len() && word->0@ == chunk@.take(
            word->0@.len() as int,
        ),
        is_hangul_run(chunk@) ==> word is Some,
{
    proof {
        lemma_selected_is_candidate(table.counts(), chunk@);
        if is_hangul_run(chunk@) {
            lemma_selected_of_hangul(table.counts(), chunk@);
        }
    }
    let cands = candidates(chunk);
    let mut best = Score { num: 0, den: 1, root: 1 };
    let mut pick: Option<usize> = None;
    let mut i: usize = 0;
    let mut open: bool = true;
    let ghost counts = table.counts();
    let ghost all = texts(cands@);
    while open && i < cands.len()
        invariant
            i <= cands.len(),
            all == texts(cands@),
            all == candidates_spec(chunk@),
            counts == table.counts(),
            match pick {
                Some(p) => p < cands.len(),
                None => true,
            },
            open ==> selected(counts, chunk@) == scan(
                counts,
                all,
                i as int,
                best,
                match pick {
                    Some(p) => Some(all[p as int]),
                    None => None,
                },
            ),
            !open ==> selected(counts, chunk@) == match pick {
                Some(p) => Some(all[p as int]),
                None => None,
            },
        decreases (if open { 1int } else { 0int }), cands.len() - i,
    {
        assert(all[i as int] == cands@[i as int]@);
        match score(table, &cands[i]) {
            Some(s) => {
                if at_least(s, best) {
                    best = s;
                    pick = Some(i);
                    i += 1;
                } else {
                    open = false;
                }
            },
            None => {
                open = false;
            },
        }
    }
    match pick {
        Some(p) => {
            assert(all[p as int] == cands@[p as int]@);
            Some(copy_text(&cands[p]))
        },
        None => None,
    }
}

/// Whether `word` is among `words`.
pub fn contains(words: &Vec<Vec<char>>, word: &Vec<char>) -> (r: bool)
    ensures
        r == texts(words@).contains(word@),
{
    let mut i: usize = 0;
    while i < words.len()
        invariant
            i <= words.len(),
            forall|j: int| 0 <= j < i ==> texts(words@)[j] != word@,
        decreases words.len() - i,
    {
        if same_text(&words[i], word) {
            assert(texts(words@)[i as int] == word@);
            return true;
        }
        i += 1;
    }
    false
}

/// Selects a word for each chunk in order and collects the vocabulary.
pub fn discover(table: &FrequencyTable, chunks: &Vec<Vec<char>>) -> (vocab: Vec<Vec<char>>)
    ensures
        texts(vocab@) == vocabulary_of(table.counts(), texts(chunks@)),
        texts(vocab@).no_duplicates(),
{
    proof {
        lemma_vocabulary_shape(table.counts(), texts(chunks@));
    }
    let mut vocab: Vec<Vec<char>> = Vec::new();
    let mut i: usize = 0;
    assert(texts(vocab@) =~= vocabulary_of(table.counts(), texts(chunks@).take(0)));
    while i < chunks.len()
        invariant
            i <= chunks.len(),
            texts(vocab@) == vocabulary_of(table.counts(), texts(chunks@).take(i as int)),
        decreases chunks.len() - i,
    {
        proof {
            assert(texts(chunks@).take(i + 1).drop_last() =~= texts(chunks@).take(i as int));
            assert(texts(chunks@).take(i + 1).last() == chunks@[i as int]@);
        }
        let ghost sooner = texts(vocab@);
        match select_word(table, &chunks[i]) {
            Some(w) => {
                if w.len() > 1 && !contains(&vocab, &w) {
                    vocab.push(w);
                    assert(texts(vocab@) =~= sooner.push(w@));
                }
            },
            None => {},
        }
        i += 1;
    }
    assert(texts(chunks@).take(chunks.len() as int) =~= texts(chunks@));
    vocab
}

/// The category of a vocabulary word.
#[derive(Clone, Copy, Debug, PartialEq, Eq)]
pub enum Tag {
    /// No category has been assigned yet.
    Unassigned,
}

/// A word-discovery model and the vocabulary it holds, in which no word
/// stands twice.
pub struct Kokoa {
    words: Vec<Vec<char>>,
}

impl Kokoa {
    /// No word stands in the vocabulary twice.
    #[verifier::type_invariant]
    spec fn no_word_twice(self) -> bool {
        texts(self.words@).no_duplicates()
    }

    /// The vocabulary, in the order of discovery.
    pub closed spec fn words(&self) -> Seq<Seq<char>> {
        texts(self.words@)
    }

    /// A model with an empty vocabulary.
    pub fn new() -> (k: Kokoa)
        ensures
            k.words() == Seq::<Seq<char>>::empty(),
    {
        let k = Kokoa { words: Vec::new() };
        assert(k.words() =~= Seq::<Seq<char>>::empty());
        k
    }

    /// Trains on a corpus. The vocabulary is built afresh from the corpus
    /// alone, so training again on the same corpus leaves the same
    /// vocabulary, whatever the model held before.
    pub fn train_corpus(&mut self, corpus: &Vec<Vec<char>>) -> (done: bool)
        ensures
            done,
            final(self).words() == trained(texts(corpus@)),
            final(self).words().no_duplicates(),
            forall|i: int|
                0 <= i < final(self).words().len() ==> (#[trigger] final(self).words()[i]).len() > 1
                    && all_of_class(final(self).words()[i], CharClass::Hangul),
    {
        proof {
            lemma_trained_words(texts(corpus@));
        }
        let chunks = gather_chunks(corpus);
        let table = tally(&chunks);
        self.words = discover(&table, &chunks);
        true
    }

    /// Trains on a single document, taken as a corpus of its own.
    pub fn train(&mut self, document: &str) -> (done: bool)
        ensures
            done,
            final(self).words() == trained(Seq::<Seq<char>>::empty().push(document@)),
            final(self).words().no_duplicates(),
            forall|i: int|
                0 <= i < final(self).words().len() ==> (#[trigger] final(self).words()[i]).len() > 1
                    && all_of_class(final(self).words()[i], CharClass::Hangul),
    {
        let mut corpus: Vec<Vec<char>> = Vec::new();
        corpus.push(chars_of(document));
        assert(texts(corpus@) =~= Seq::<Seq<char>>::empty().push(document@));
        self.train_corpus(&corpus)
    }

    /// The vocabulary, in the order of discovery.
    pub fn vocabulary(&self) -> (v: &Vec<Vec<char>>)
        ensures
            texts(v@) == self.words(),
            texts(v@).no_duplicates(),
    {
        proof {
            use_type_invariant(self);
        }
        &self.words
    }

    /// The tag of a word: unassigned for a word of the vocabulary, none for
    /// any other text.
    pub fn tag_of(&self, word: &Vec<char>) -> (t: Option<Tag>)
        ensures
            t == (if self.words().contains(word@) {
                Some(Tag::Unassigned)
            } else {
                None
            }),
    {
        if contains(&self.words, word) {
            Some(Tag::Unassigned)
        } else {
            None
        }
    }
}

} // verus!
