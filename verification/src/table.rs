//! The frequency table: how often each candidate text was observed.
//!
//! Counts are kept in `u64` and stop growing at `u64::MAX`.

use vstd::prelude::*;
use crate::chunk::{copy_text, same_text, texts};

verus! {

/// The count after one more observation: one more on a hit, unless the
/// count already stands at `u64::MAX`.
pub open spec fn bump(n: nat, hit: bool) -> nat {
    if hit && n < u64::MAX {
        n + 1
    } else {
        n
    }
}

/// The count of `w` after observing `words` in order, starting from `base`.
pub open spec fn count_after(base: nat, words: Seq<Seq<char>>, w: Seq<char>) -> nat
    decreases words.len(),
{
    if words.len() == 0 {
        base
    } else {
        bump(count_after(base, words.drop_last(), w), words.last() == w)
    }
}

/// A count depends only on how often the text occurs among the observed
/// words, not on their order: it is the base plus the number of
/// occurrences, capped at `u64::MAX`.
pub proof fn lemma_count_after_multiset(base: nat, words: Seq<Seq<char>>, w: Seq<char>)
    requires
        base <= u64::MAX,
    ensures
        count_after(base, words, w) == (if base + words.to_multiset().count(w) <= u64::MAX {
            base + words.to_multiset().count(w)
        } else {
            u64::MAX as nat
        }),
    decreases words.len(),
{
    if words.len() == 0 {
        vstd::seq_lib::to_multiset_contains(words, w);
        assert(!words.contains(w));
    } else {
        let sooner = words.drop_last();
        let last = words.last();
        lemma_count_after_multiset(base, sooner, w);
        assert(words =~= sooner.push(last));
        vstd::seq_lib::to_multiset_build(sooner, last);
        if last == w {
            vstd::multiset::lemma_insert_increases_count_by_1(sooner.to_multiset(), last);
        } else {
            vstd::multiset::lemma_insert_other_elements_unchanged(sooner.to_multiset(), last, w);
        }
    }
}

/// One text and the number of times it was observed.
pub struct Entry {
    pub text: Vec<char>,
    pub count: u64,
}

/// Counts of observed texts. A text never observed counts zero, and no
/// text has two entries.
pub struct FrequencyTable {
    entries: Vec<Entry>,
}

/// The count that the entries give to `w`: that of the last entry for it.
pub closed spec fn lookup(entries: Seq<Entry>, w: Seq<char>) -> nat
    decreases entries.len(),
{
    if entries.len() == 0 {
        0
    } else if entries.last().text@ == w {
        entries.last().count as nat
    } else {
        lookup(entries.drop_last(), w)
    }
}

proof fn lemma_lookup_skip(s: Seq<Entry>, i: int, w: Seq<char>)
    requires
        0 <= i <= s.len(),
        forall|j: int| i <= j < s.len() ==> (#[trigger] s[j]).text@ != w,
    ensures
        lookup(s, w) == lookup(s.take(i), w),
    decreases s.len(),
{
    if i == s.len() {
        assert(s.take(i) =~= s);
    } else {
        assert(s.last() == s[s.len() - 1]);
        lemma_lookup_skip(s.drop_last(), i, w);
        assert(s.drop_last().take(i) =~= s.take(i));
    }
}

proof fn lemma_lookup_update(s: Seq<Entry>, i: int, e: Entry, x: Seq<char>)
    requires
        0 <= i < s.len(),
        s[i].text@ == e.text@,
        forall|j: int| i < j < s.len() ==> (#[trigger] s[j]).text@ != e.text@,
    ensures
        lookup(s.update(i, e), x) == (if x == e.text@ {
            e.count as nat
        } else {
            lookup(s, x)
        }),
    decreases s.len(),
{
    let t = s.update(i, e);
    if i == s.len() - 1 {
        assert(t.drop_last() =~= s.drop_last());
    } else {
        assert(t.last() == s.last());
        assert(s.last() == s[s.len() - 1]);
        assert(t.drop_last() =~= s.drop_last().update(i, e));
        lemma_lookup_update(s.drop_last(), i, e, x);
    }
}

impl FrequencyTable {
    /// No text has two entries.
    #[verifier::type_invariant]
    spec fn distinct(self) -> bool {
        forall|i: int, j: int|
            0 <= i < j < self.entries@.len() ==> (#[trigger] self.entries@[i]).text@ != (
            #[trigger] self.entries@[j]).text@
    }

    /// How often `w` was observed.
    pub closed spec fn count(&self, w: Seq<char>) -> nat {
        lookup(self.entries@, w)
    }

    /// The counts as a function of the text.
    pub open spec fn counts(&self) -> spec_fn(Seq<char>) -> nat {
        |w: Seq<char>| self.count(w)
    }

    /// The table in which nothing was observed.
    pub fn new() -> (t: FrequencyTable)
        ensures
            forall|w: Seq<char>| #[trigger] t.count(w) == 0,
    {
        FrequencyTable { entries: Vec::new() }
    }

    /// The index of the last entry for `text`, if there is one.
    fn find(&self, text: &Vec<char>) -> (r: Option<usize>)
        ensures
            (match r {
                Some(i) => {
                    &&& i < self.entries@.len()
                    &&& self.entries@[i as int].text@ == text@
                    &&& forall|j: int|
                        i < j < self.entries@.len() ==> (#[trigger] self.entries@[j]).text@
                            != text@
                },
                None => forall|j: int|
                    0 <= j < self.entries@.len() ==> (#[trigger] self.entries@[j]).text@ != text@,
            }),
    {
        let mut i: usize = self.entries.len();
        while i > 0
            invariant
                i <= self.entries@.len(),
                forall|j: int|
                    i <= j < self.entries@.len() ==> (#[trigger] self.entries@[j]).text@ != text@,
            decreases i,
        {
            i -= 1;
            if same_text(&self.entries[i].text, text) {
                return Some(i);
            }
        }
        None
    }

    /// How often `text` was observed.
    pub fn count_of(&self, text: &Vec<char>) -> (n: u64)
        ensures
            n == self.count(text@),
    {
        match self.find(text) {
            Some(i) => {
                proof {
                    lemma_lookup_skip(self.entries@, i + 1, text@);
                    assert(self.entries@.take(i + 1).last() == self.entries@[i as int]);
                }
                self.entries[i].count
            },
            None => {
                proof {
                    lemma_lookup_skip(self.entries@, 0, text@);
                }
                0
            },
        }
    }

    /// The table after observing `text` once more. No other count changes.
    pub fn record(self, text: &Vec<char>) -> (next: FrequencyTable)
        ensures
            forall|w: Seq<char>| #[trigger] next.count(w) == bump(self.count(w), w == text@),
    {
        proof {
            use_type_invariant(&self);
        }
        let found = self.find(text);
        let mut entries = self.entries;
        let ghost before = entries@;
        match found {
            Some(i) => {
                let seen: u64 = entries[i].count;
                let next: u64 = if seen < u64::MAX {
                    seen + 1
                } else {
                    seen
                };
                let e = Entry { text: copy_text(text), count: next };
                proof {
                    lemma_lookup_skip(before, i + 1, text@);
                    assert(before.take(i + 1).last() == before[i as int]);
                    assert forall|w: Seq<char>| lookup(before.update(i as int, e), w) == bump(
                        lookup(before, w),
                        w == text@,
                    ) by {
                        lemma_lookup_update(before, i as int, e, w);
                    }
                }
                entries.set(i, e);
            },
            None => {
                let e = Entry { text: copy_text(text), count: 1 };
                proof {
                    lemma_lookup_skip(before, 0, text@);
                    assert(before.push(e).drop_last() =~= before);
                }
                entries.push(e);
            },
        }
        FrequencyTable { entries }
    }

    /// The table after observing each of `words` once, in order.
    pub fn record_all(self, words: &Vec<Vec<char>>) -> (next: FrequencyTable)
        ensures
            forall|w: Seq<char>| #[trigger]
                next.count(w) == count_after(self.count(w), texts(words@), w),
    {
        let mut table = self;
        let mut i: usize = 0;
        while i < words.len()
            invariant
                i <= words.len(),
                forall|w: Seq<char>| #[trigger]
                    table.count(w) == count_after(self.count(w), texts(words@).take(i as int), w),
            decreases words.len() - i,
        {
            let ghost prior = table;
            table = table.record(&words[i]);
            proof {
                assert(texts(words@).take(i + 1).drop_last() =~= texts(words@).take(i as int));
                assert(texts(words@).take(i + 1).last() == words@[i as int]@);
                assert forall|w: Seq<char>| #[trigger]
                    table.count(w) == count_after(
                        self.count(w),
                        texts(words@).take(i + 1),
                        w,
                    ) by {
                    assert(table.count(w) == bump(prior.count(w), w == words@[i as int]@));
                }
            }
            i += 1;
        }
        assert(texts(words@).take(words.len() as int) =~= texts(words@));
        table
    }
}

} // verus!
