//! Normalization of raw text: case folding and punctuation stripping.

use vstd::prelude::*;
use vstd::string::StrSliceExecFns;

verus! {

/// The fixed punctuation set that normalization removes: `/ , . ; : ? ! "`.
pub open spec fn is_punct(c: char) -> bool {
    c == '/' || c == ',' || c == '.' || c == ';' || c == ':' || c == '?' || c == '!' || c == '"'
}

/// The case-folded form of a text: what `str::to_lowercase` returns for it.
pub uninterp spec fn lower_of(s: Seq<char>) -> Seq<char>;

/// Relies on `str::to_lowercase`: the lowercase equivalent of the text,
/// which depends on its characters alone; an empty text stays empty.
#[verifier::external_body]
pub(crate) fn lowercase(s: &str) -> (r: String)
    ensures
        r@ == lower_of(s@),
        s@.len() == 0 ==> r@.len() == 0,
{
    s.to_lowercase()
}

/// What punctuation stripping produces: the text with every character of
/// the punctuation set dropped, everything else kept in order.
pub open spec fn strip_punct_spec(s: Seq<char>) -> Seq<char>
    decreases s.len(),
{
    if s.len() == 0 {
        Seq::empty()
    } else {
        let rest = strip_punct_spec(s.drop_last());
        if is_punct(s.last()) {
            rest
        } else {
            rest.push(s.last())
        }
    }
}

/// What normalization produces: the case-folded text with the punctuation
/// set stripped from it.
pub open spec fn normalize_spec(s: Seq<char>) -> Seq<char> {
    strip_punct_spec(lower_of(s))
}

/// Decides membership in the punctuation set of [`is_punct`].
pub fn char_is_punct(c: char) -> (r: bool)
    ensures
        r == is_punct(c),
{
    c == '/' || c == ',' || c == '.' || c == ';' || c == ':' || c == '?' || c == '!' || c == '"'
}

/// Relies on `String`'s `FromIterator<char>` implementation: collecting
/// characters yields the string holding exactly those characters, in order.
#[verifier::external_body]
pub(crate) fn string_from_chars(v: &Vec<char>) -> (r: String)
    ensures
        r@ == v@,
{
    v.iter().collect()
}

/// Drops every character of the punctuation set from a text, leaving
/// everything else (spacing included) as it was.
pub fn strip_punct(s: &str) -> (r: String)
    ensures
        r@ == strip_punct_spec(s@),
{
    let n: usize = s.unicode_len();
    let mut out: Vec<char> = Vec::new();
    let mut i: usize = 0;
    while i < n
        invariant
            i <= n,
            n == s@.len(),
            out@ == strip_punct_spec(s@.take(i as int)),
        decreases n - i,
    {
        let c = s.get_char(i);
        proof {
            let p = s@.take(i as int);
            let p1 = s@.take(i as int + 1);
            assert(p1.drop_last() =~= p);
            assert(p1.last() == s@[i as int]);
        }
        if !char_is_punct(c) {
            out.push(c);
        }
        i = i + 1;
    }
    proof {
        assert(s@.take(n as int) =~= s@);
    }
    string_from_chars(&out)
}

/// Normalizes a text: case-folds it and drops the punctuation set from the
/// result, leaving everything else (spacing included) as it was.
pub fn normalize(s: &str) -> (r: String)
    ensures
        r@ == normalize_spec(s@),
        s@.len() == 0 ==> r@.len() == 0,
{
    let lowered = lowercase(s);
    strip_punct(lowered.as_str())
}

/// Every character of a stripped text is outside the punctuation set and is
/// a character of the text it was stripped from.
pub proof fn lemma_strip_punct_chars(s: Seq<char>)
    ensures
        forall|i: int|
            0 <= i < strip_punct_spec(s).len() ==> !is_punct(#[trigger] strip_punct_spec(s)[i])
                && s.contains(strip_punct_spec(s)[i]),
    decreases s.len(),
{
    if s.len() > 0 {
        let rest = strip_punct_spec(s.drop_last());
        let c = s.last();
        lemma_strip_punct_chars(s.drop_last());
        assert forall|x: char| s.drop_last().contains(x) implies s.contains(x) by {
            let j = choose|j: int| 0 <= j < s.drop_last().len() && s.drop_last()[j] == x;
            assert(s[j] == x);
        }
        if !is_punct(c) {
            assert(s.contains(c)) by {
                assert(s[s.len() - 1] == c);
            }
            assert forall|i: int| 0 <= i < strip_punct_spec(s).len() implies !is_punct(
                strip_punct_spec(s)[i],
            ) && s.contains(strip_punct_spec(s)[i]) by {
                if i < rest.len() {
                    assert(strip_punct_spec(s)[i] == rest[i]);
                } else {
                    assert(strip_punct_spec(s)[i] == c);
                }
            }
        }
    }
}

/// Punctuation stripping leaves a text alone when every character is
/// already outside the punctuation set.
pub proof fn lemma_strip_punct_fixed_point(t: Seq<char>)
    requires
        forall|i: int| 0 <= i < t.len() ==> !is_punct(#[trigger] t[i]),
    ensures
        strip_punct_spec(t) == t,
    decreases t.len(),
{
    if t.len() == 0 {
        assert(strip_punct_spec(t) =~= t);
    } else {
        assert(forall|i: int|
            0 <= i < t.drop_last().len() ==> #[trigger] t.drop_last()[i] == t[i]);
        lemma_strip_punct_fixed_point(t.drop_last());
        assert(strip_punct_spec(t) =~= t);
    }
}

/// Running the normalizer twice yields the same text as running it once,
/// given that case folding no longer changes the once-normalized text: under
/// that hypothesis normalization reaches a fixed point after a single pass.
/// [`normalize_stable`] witnesses the hypothesis at run time.
pub proof fn lemma_normalize_idempotent(s: Seq<char>)
    requires
        lower_of(normalize_spec(s)) == normalize_spec(s),
    ensures
        normalize_spec(normalize_spec(s)) == normalize_spec(s),
{
    lemma_strip_punct_chars(lower_of(s));
    lemma_strip_punct_fixed_point(normalize_spec(s));
}

/// Normalizes a text and reports whether the result is a fixed point of
/// case folding.  Whenever it is — the second component is true — a second
/// normalization pass provably changes nothing.
pub fn normalize_stable(s: &str) -> (r: (String, bool))
    ensures
        r.0@ == normalize_spec(s@),
        r.1 == (lower_of(normalize_spec(s@)) == normalize_spec(s@)),
        r.1 ==> normalize_spec(normalize_spec(s@)) == normalize_spec(s@),
{
    let once = normalize(s);
    let lowered = lowercase(once.as_str());
    let stable = lowered == once;
    proof {
        if stable {
            lemma_normalize_idempotent(s@);
        }
    }
    (once, stable)
}

} // verus!
