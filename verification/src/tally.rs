//! Tallying words into a mapping from word to occurrence count.

use vstd::prelude::*;
use crate::normalize::{is_punct, lower_of, normalize_spec, normalize, lemma_strip_punct_chars};
use crate::tokenize::{is_space, words, word_of, lemma_words_wf, split_words};

verus! {

/// The tally that a listing of words induces: each distinct word maps to the
/// number of times it occurs in the listing.
pub open spec fn tally_of(ws: Seq<Seq<char>>) -> Map<Seq<char>, nat> {
    Map::new(
        |w: Seq<char>| ws.to_multiset().count(w) > 0,
        |w: Seq<char>| ws.to_multiset().count(w),
    )
}

/// The count that one more occurrence of `w` gives it under the mapping `m`.
pub open spec fn bumped(m: Map<Seq<char>, nat>, w: Seq<char>) -> nat {
    if m.contains_key(w) {
        (m[w] + 1) as nat
    } else {
        1
    }
}

/// The mapping that a listing of `(word, count)` entries denotes.  With
/// distinct words the order of the entries does not matter.
pub open spec fn map_of(es: Seq<(Seq<char>, nat)>) -> Map<Seq<char>, nat>
    decreases es.len(),
{
    if es.len() == 0 {
        Map::empty()
    } else {
        map_of(es.drop_last()).insert(es.last().0, es.last().1)
    }
}

/// The sum of the counts of a listing of `(word, count)` entries.
pub open spec fn total_of(es: Seq<(Seq<char>, nat)>) -> nat
    decreases es.len(),
{
    if es.len() == 0 {
        0
    } else {
        total_of(es.drop_last()) + es.last().1
    }
}

/// No two entries of the listing hold the same word.
pub open spec fn distinct_keys(es: Seq<(Seq<char>, nat)>) -> bool {
    forall|i: int, j: int|
        0 <= i < j < es.len() ==> (#[trigger] es[i]).0 != (#[trigger] es[j]).0
}

/// Whether some entry of the listing holds the word `w`.
pub open spec fn has_word(es: Seq<(Seq<char>, nat)>, w: Seq<char>) -> bool {
    exists|j: int| 0 <= j < es.len() && (#[trigger] es[j]).0 == w
}

proof fn lemma_map_of_contains(es: Seq<(Seq<char>, nat)>, w: Seq<char>)
    ensures
        map_of(es).contains_key(w) <==> has_word(es, w),
    decreases es.len(),
{
    if es.len() > 0 {
        let d = es.drop_last();
        lemma_map_of_contains(d, w);
        if es.last().0 == w {
            assert((es[es.len() - 1]).0 == w);
        } else {
            if has_word(d, w) {
                let j = choose|j: int| 0 <= j < d.len() && (#[trigger] d[j]).0 == w;
                assert((es[j]).0 == w);
            }
            if has_word(es, w) {
                let j = choose|j: int| 0 <= j < es.len() && (#[trigger] es[j]).0 == w;
                assert(j < es.len() - 1);
                assert((d[j]).0 == w);
            }
        }
    }
}

proof fn lemma_distinct_drop_last(es: Seq<(Seq<char>, nat)>)
    requires
        distinct_keys(es),
        es.len() > 0,
    ensures
        distinct_keys(es.drop_last()),
{
    let d = es.drop_last();
    assert forall|i: int, j: int| 0 <= i < j < d.len() implies (#[trigger] d[i]).0 != (
    #[trigger] d[j]).0 by {
        assert(d[i] == es[i]);
        assert(d[j] == es[j]);
    }
}

proof fn lemma_map_of_index(es: Seq<(Seq<char>, nat)>, j: int)
    requires
        distinct_keys(es),
        0 <= j < es.len(),
    ensures
        map_of(es).contains_key(es[j].0),
        map_of(es)[es[j].0] == es[j].1,
    decreases es.len(),
{
    let d = es.drop_last();
    if j == es.len() - 1 {
        assert(es.last() == es[j]);
    } else {
        lemma_distinct_drop_last(es);
        assert(d[j] == es[j]);
        lemma_map_of_index(d, j);
        assert(es.last().0 != es[j].0);
    }
}

proof fn lemma_map_of_update(es: Seq<(Seq<char>, nat)>, j: int, v: nat)
    requires
        distinct_keys(es),
        0 <= j < es.len(),
    ensures
        map_of(es.update(j, (es[j].0, v))) == map_of(es).insert(es[j].0, v),
    decreases es.len(),
{
    let k = es[j].0;
    let u = es.update(j, (k, v));
    let d = es.drop_last();
    if j == es.len() - 1 {
        assert(u.drop_last() =~= d);
        assert(u.last() == (k, v));
        assert(map_of(d).insert(k, v) =~= map_of(d).insert(k, es.last().1).insert(k, v));
    } else {
        lemma_distinct_drop_last(es);
        assert(d[j] == es[j]);
        lemma_map_of_update(d, j, v);
        assert(u.drop_last() =~= d.update(j, (k, v)));
        assert(u.last() == es.last());
        assert(es.last().0 != k);
        assert(map_of(d).insert(k, v).insert(es.last().0, es.last().1) =~= map_of(d).insert(
            es.last().0,
            es.last().1,
        ).insert(k, v));
    }
}

proof fn lemma_total_of_update(es: Seq<(Seq<char>, nat)>, j: int, v: nat)
    requires
        0 <= j < es.len(),
    ensures
        total_of(es.update(j, (es[j].0, v))) + es[j].1 == total_of(es) + v,
    decreases es.len(),
{
    let k = es[j].0;
    let u = es.update(j, (k, v));
    let d = es.drop_last();
    if j == es.len() - 1 {
        assert(u.drop_last() =~= d);
        assert(u.last() == (k, v));
    } else {
        assert(d[j] == es[j]);
        lemma_total_of_update(d, j, v);
        assert(u.drop_last() =~= d.update(j, (k, v)));
        assert(u.last() == es.last());
    }
}

proof fn lemma_entry_le_total(es: Seq<(Seq<char>, nat)>, j: int)
    requires
        0 <= j < es.len(),
    ensures
        es[j].1 <= total_of(es),
    decreases es.len(),
{
    let d = es.drop_last();
    if j < es.len() - 1 {
        assert(d[j] == es[j]);
        lemma_entry_le_total(d, j);
    }
}

/// Recording one more word at the end of a listing bumps exactly its count.
proof fn lemma_tally_push(ws: Seq<Seq<char>>, w: Seq<char>)
    ensures
        tally_of(ws.push(w)) == tally_of(ws).insert(w, bumped(tally_of(ws), w)),
    decreases ws.len(),
{
    broadcast use vstd::seq_lib::group_to_multiset_ensures;

    assert(ws.push(w).to_multiset() =~= ws.to_multiset().insert(w));
    assert(tally_of(ws.push(w)) =~= tally_of(ws).insert(w, bumped(tally_of(ws), w)));
}

/// A word-to-count mapping, stored as a listing of distinct words, each with
/// its occurrence count.
pub struct WordCounts {
    entries: Vec<(String, usize)>,
}

impl WordCounts {
    /// The entries as mathematical values, in storage order.
    pub closed spec fn view(&self) -> Seq<(Seq<char>, nat)> {
        Seq::new(
            self.entries@.len(),
            |i: int| (self.entries@[i].0@, self.entries@[i].1 as nat),
        )
    }

    /// The listing never repeats a word.
    pub open spec fn wf(&self) -> bool {
        distinct_keys(self@)
    }

    /// An empty tally: no words, no counts.
    pub fn new() -> (r: WordCounts)
        ensures
            r@ == Seq::<(Seq<char>, nat)>::empty(),
            r.wf(),
    {
        let r = WordCounts { entries: Vec::new() };
        proof {
            assert(r@ =~= Seq::<(Seq<char>, nat)>::empty());
        }
        r
    }

    /// How many distinct words the tally holds.
    pub fn len(&self) -> (r: usize)
        ensures
            r == self@.len(),
    {
        self.entries.len()
    }

    /// The entry at position `i`: a word together with its count.
    pub fn entry_at(&self, i: usize) -> (r: (String, usize))
        requires
            i < self@.len(),
        ensures
            (r.0@, r.1 as nat) == self@[i as int],
    {
        let e = &self.entries[i];
        (e.0.clone(), e.1)
    }

    fn find(&self, w: &String) -> (r: Option<usize>)
        ensures
            match r {
                Some(j) => j < self@.len() && self@[j as int].0 == w@,
                None => !has_word(self@, w@),
            },
    {
        let n = self.entries.len();
        let mut j: usize = 0;
        while j < n
            invariant
                j <= n,
                n == self@.len(),
                forall|k: int| 0 <= k < j ==> (#[trigger] self@[k]).0 != w@,
            decreases n - j,
        {
            if self.entries[j].0 == *w {
                return Some(j);
            }
            j = j + 1;
        }
        None
    }

    /// Records one more occurrence of `w`: its count grows by one, a first
    /// occurrence entering with count one; every other word is untouched.
    pub fn bump(&mut self, w: &String)
        requires
            old(self).wf(),
            total_of(old(self)@) < usize::MAX,
        ensures
            final(self).wf(),
            map_of(final(self)@) == map_of(old(self)@).insert(
                w@,
                bumped(map_of(old(self)@), w@),
            ),
            total_of(final(self)@) == total_of(old(self)@) + 1,
    {
        proof {
            lemma_map_of_contains(old(self)@, w@);
        }
        match self.find(w) {
            Some(j) => {
                proof {
                    lemma_entry_le_total(self@, j as int);
                    lemma_map_of_index(self@, j as int);
                    lemma_map_of_update(self@, j as int, (self@[j as int].1 + 1) as nat);
                    lemma_total_of_update(self@, j as int, (self@[j as int].1 + 1) as nat);
                }
                let key = self.entries[j].0.clone();
                let c = self.entries[j].1;
                self.entries[j] = (key, c + 1);
                proof {
                    assert(self@ =~= old(self)@.update(j as int, (old(self)@[j as int].0, (
                    old(self)@[j as int].1 + 1) as nat)));
                    assert forall|a: int, b: int| 0 <= a < b < self@.len() implies (
                    #[trigger] self@[a]).0 != (#[trigger] self@[b]).0 by {
                        assert((old(self)@[a]).0 == self@[a].0);
                        assert((old(self)@[b]).0 == self@[b].0);
                    }
                }
            },
            None => {
                self.entries.push((w.clone(), 1));
                proof {
                    assert(self@.drop_last() =~= old(self)@);
                    assert(self@.last() == (w@, 1nat));
                    assert forall|a: int, b: int| 0 <= a < b < self@.len() implies (
                    #[trigger] self@[a]).0 != (#[trigger] self@[b]).0 by {
                        if b < self@.len() - 1 {
                            assert((old(self)@[a]).0 == self@[a].0);
                            assert((old(self)@[b]).0 == self@[b].0);
                        } else {
                            assert((old(self)@[a]).0 == self@[a].0);
                            assert(self@[b] == (w@, 1nat));
                        }
                    }
                }
            },
        }
    }

    /// Looks a word up: the count under which the tally holds it, if at all.
    pub fn get(&self, w: &String) -> (r: Option<usize>)
        requires
            self.wf(),
        ensures
            match r {
                Some(c) => map_of(self@).contains_key(w@) && c as nat == map_of(self@)[w@],
                None => !map_of(self@).contains_key(w@),
            },
    {
        proof {
            lemma_map_of_contains(self@, w@);
        }
        match self.find(w) {
            Some(j) => {
                proof {
                    lemma_map_of_index(self@, j as int);
                }
                Some(self.entries[j].1)
            },
            None => None,
        }
    }
}

/// Tallies a listing of words, one bump per occurrence.
pub(crate) fn tally_words(ws: &Vec<String>) -> (r: WordCounts)
    ensures
        r.wf(),
        map_of(r@) == tally_of(ws.deep_view()),
        total_of(r@) == ws.deep_view().len(),
{
    let mut r = WordCounts::new();
    let n = ws.len();
    let mut k: usize = 0;
    proof {
        broadcast use vstd::seq_lib::group_to_multiset_ensures;

        let e = ws.deep_view().take(0);
        assert(e.len() == 0);
        assert forall|w: Seq<char>| e.to_multiset().count(w) == 0 by {
            if e.to_multiset().count(w) > 0 {
                assert(e.contains(w));
            }
        }
        assert(map_of(r@) =~= tally_of(e));
    }
    while k < n
        invariant
            k <= n,
            n == ws.deep_view().len(),
            r.wf(),
            map_of(r@) == tally_of(ws.deep_view().take(k as int)),
            total_of(r@) == k,
        decreases n - k,
    {
        proof {
            let pre = ws.deep_view().take(k as int);
            assert(ws.deep_view().take(k as int + 1) =~= pre.push(ws.deep_view()[k as int]));
            lemma_tally_push(pre, ws.deep_view()[k as int]);
            assert(ws[k as int]@ == ws.deep_view()[k as int]);
        }
        r.bump(&ws[k]);
        k = k + 1;
    }
    proof {
        assert(ws.deep_view().take(n as int) =~= ws.deep_view());
    }
    r
}

/// Counts the word frequencies of a text: the text is normalized, split into
/// whitespace-separated words, and each word mapped to the number of times it
/// occurs.  The sum of all counts equals the number of words the normalized
/// text splits into.
pub fn count_words(text: &str) -> (r: WordCounts)
    ensures
        r.wf(),
        map_of(r@) == tally_of(words(normalize_spec(text@))),
        total_of(r@) == words(normalize_spec(text@)).len(),
{
    let normalized = normalize(text);
    let ws = split_words(normalized.as_str());
    tally_words(&ws)
}

/// Every word in the tally of a text's word frequencies is normalized: it is
/// nonempty, holds no punctuation or separator character, and is drawn from
/// the case-folded text — each of its characters is a character of
/// `lower_of(s)`, the result of folding the input's case.
pub proof fn lemma_tally_keys_normalized(s: Seq<char>)
    ensures
        forall|w: Seq<char>| #[trigger]
            tally_of(words(normalize_spec(s))).contains_key(w) ==> w.len() > 0 && (forall|i: int|
                0 <= i < w.len() ==> !is_punct(#[trigger] w[i]) && !is_space(w[i]) && lower_of(
                    s,
                ).contains(w[i])),
{
    broadcast use vstd::seq_lib::group_to_multiset_ensures;

    let t = normalize_spec(s);
    lemma_strip_punct_chars(lower_of(s));
    lemma_words_wf(t);
    assert forall|w: Seq<char>| #[trigger]
        tally_of(words(t)).contains_key(w) implies w.len() > 0 && (forall|i: int|
        0 <= i < w.len() ==> !is_punct(#[trigger] w[i]) && !is_space(w[i]) && lower_of(s).contains(
            w[i],
        )) by {
        assert(words(t).contains(w));
        let k = choose|k: int| 0 <= k < words(t).len() && words(t)[k] == w;
        assert(word_of(t, words(t)[k]));
        assert forall|i: int| 0 <= i < w.len() implies !is_punct(#[trigger] w[i]) && !is_space(
            w[i],
        ) && lower_of(s).contains(w[i]) by {
            assert(t.contains(w[i]));
            let j = choose|j: int| 0 <= j < t.len() && t[j] == w[i];
            assert(!is_punct(normalize_spec(s)[j]) && lower_of(s).contains(normalize_spec(s)[j]));
        }
    }
}

} // verus!
