//! Splitting a text into whitespace-separated words.

use vstd::prelude::*;
use vstd::string::StrSliceExecFns;
use crate::normalize::string_from_chars;

verus! {

/// The characters that separate words: space, horizontal tab, line feed and
/// carriage return.
pub open spec fn is_space(c: char) -> bool {
    c == ' ' || c == '\t' || c == '\n' || c == '\r'
}

/// Decides membership in the separator set of [`is_space`].
pub fn char_is_space(c: char) -> (r: bool)
    ensures
        r == is_space(c),
{
    c == ' ' || c == '\t' || c == '\n' || c == '\r'
}

/// The words of a text: the maximal runs of non-separator characters, in
/// order.  Read from the right, the last character either is a separator
/// (and contributes nothing), extends the word it touches, or opens a new
/// word of its own.  Runs of separators, leading or trailing ones included,
/// never produce an empty word.
pub open spec fn words(s: Seq<char>) -> Seq<Seq<char>>
    decreases s.len(),
{
    if s.len() == 0 {
        Seq::empty()
    } else {
        let rest = words(s.drop_last());
        let c = s.last();
        if is_space(c) {
            rest
        } else if s.len() > 1 && !is_space(s.drop_last().last()) {
            rest.update(rest.len() - 1, rest.last().push(c))
        } else {
            rest.push(seq![c])
        }
    }
}

/// What it means for `t` to be a well-formed word drawn from the text `s`.
pub open spec fn word_of(s: Seq<char>, t: Seq<char>) -> bool {
    t.len() > 0 && forall|i: int|
        0 <= i < t.len() ==> !is_space(#[trigger] t[i]) && s.contains(t[i])
}

/// A text ending in a non-separator character has at least one word.
pub proof fn lemma_words_nonempty(s: Seq<char>)
    requires
        s.len() > 0,
        !is_space(s.last()),
    ensures
        words(s).len() > 0,
    decreases s.len(),
{
    if s.len() > 1 && !is_space(s.drop_last().last()) {
        lemma_words_nonempty(s.drop_last());
    }
}

/// Every word of a text is nonempty, free of separator characters, and made
/// only of characters of the text itself.
pub proof fn lemma_words_wf(s: Seq<char>)
    ensures
        forall|k: int|
            0 <= k < words(s).len() ==> word_of(s, #[trigger] words(s)[k]),
    decreases s.len(),
{
    if s.len() > 0 {
        let rest = words(s.drop_last());
        let c = s.last();
        lemma_words_wf(s.drop_last());
        assert forall|x: char| s.drop_last().contains(x) implies s.contains(x) by {
            let j = choose|j: int| 0 <= j < s.drop_last().len() && s.drop_last()[j] == x;
            assert(s[j] == x);
        }
        if is_space(c) {
        } else if s.len() > 1 && !is_space(s.drop_last().last()) {
            lemma_words_nonempty(s.drop_last());
            let ext = rest.last().push(c);
            assert(s.contains(c)) by {
                assert(s[s.len() - 1] == c);
            }
            assert(word_of(s, ext));
            assert forall|k: int| 0 <= k < words(s).len() implies word_of(
                s,
                words(s)[k],
            ) by {
                if k < words(s).len() - 1 {
                    assert(words(s)[k] == rest[k]);
                } else {
                    assert(words(s)[k] == ext);
                }
            }
        } else {
            assert(s.contains(c)) by {
                assert(s[s.len() - 1] == c);
            }
            assert(word_of(s, seq![c]));
            assert forall|k: int| 0 <= k < words(s).len() implies word_of(
                s,
                words(s)[k],
            ) by {
                if k < words(s).len() - 1 {
                    assert(words(s)[k] == rest[k]);
                } else {
                    assert(words(s)[k] == seq![c]);
                }
            }
        }
    }
}

/// Splits a text into its whitespace-separated words, as [`words`] describes.
pub fn split_words(s: &str) -> (r: Vec<String>)
    ensures
        r.deep_view() == words(s@),
{
    let n: usize = s.unicode_len();
    let mut out: Vec<String> = Vec::new();
    let mut cur: Vec<char> = Vec::new();
    let mut i: usize = 0;
    while i < n
        invariant
            i <= n,
            n == s@.len(),
            cur@.len() > 0 <==> (i > 0 && !is_space(s@[i as int - 1])),
            out.deep_view() + (if cur@.len() > 0 {
                seq![cur@]
            } else {
                Seq::<Seq<char>>::empty()
            }) == words(s@.take(i as int)),
        decreases n - i,
    {
        let ghost p = s@.take(i as int);
        let ghost p1 = s@.take(i as int + 1);
        let c = s.get_char(i);
        proof {
            assert(p1.drop_last() =~= p);
            assert(p1.last() == s@[i as int]);
        }
        if char_is_space(c) {
            if cur.len() > 0 {
                let w = string_from_chars(&cur);
                out.push(w);
                cur = Vec::new();
                proof {
                    assert(out.deep_view() =~= words(p1));
                }
            }
            proof {
                assert(out.deep_view() + Seq::<Seq<char>>::empty() =~= out.deep_view());
            }
        } else {
            if cur.len() > 0 {
                proof {
                    let rest = words(p);
                    lemma_words_nonempty(p);
                    assert(out.deep_view() + seq![cur@] == rest);
                    assert(rest.last() == cur@);
                    assert(words(p1) == rest.update(rest.len() - 1, cur@.push(s@[i as int])));
                    assert(out.deep_view() + seq![cur@.push(s@[i as int])] =~= words(p1));
                }
                cur.push(c);
            } else {
                proof {
                    assert(words(p1) == words(p).push(seq![s@[i as int]]));
                    assert(out.deep_view() + Seq::<Seq<char>>::empty() =~= out.deep_view());
                    assert(out.deep_view().push(seq![s@[i as int]]) =~= out.deep_view() + seq![
                        seq![s@[i as int]],
                    ]);
                }
                cur.push(c);
                proof {
                    assert(cur@ =~= seq![s@[i as int]]);
                }
            }
        }
        i = i + 1;
    }
    proof {
        assert(s@.take(n as int) =~= s@);
    }
    if cur.len() > 0 {
        let w = string_from_chars(&cur);
        out.push(w);
        proof {
            assert(out.deep_view() =~= words(s@));
        }
    } else {
        proof {
            assert(out.deep_view() + Seq::<Seq<char>>::empty() =~= out.deep_view());
        }
    }
    out
}

} // verus!
