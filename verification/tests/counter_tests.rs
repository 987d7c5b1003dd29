use word_counter::normalize::{normalize, normalize_stable};
use word_counter::tally::{count_words, WordCounts};
use word_counter::tokenize::split_words;

fn get(counts: &WordCounts, w: &str) -> Option<usize> {
    counts.get(&String::from(w))
}

fn sum_of_counts(counts: &WordCounts) -> usize {
    let mut total: usize = 0;
    let mut i: usize = 0;
    while i < counts.len() {
        let (_, c) = counts.entry_at(i);
        total += c;
        i += 1;
    }
    total
}

#[test]
fn normalize_lowercases_and_strips_punctuation() {
    assert_eq!(normalize("Hello, World!"), "hello world");
    assert_eq!(normalize("A/B c\"d;e:f?g!h.i,j"), "ab cdefghij");
    assert_eq!(normalize("MiXeD CaSe"), "mixed case");
}

#[test]
fn normalize_folds_case_beyond_ascii() {
    assert_eq!(normalize("ÉCOLE Déjà!"), "école déjà");
    assert_eq!(normalize("ΣΟΦΙΑ"), "σοφια");
    assert_eq!(normalize("İ"), "i\u{307}");
}

#[test]
fn normalize_keeps_whitespace_and_other_characters() {
    assert_eq!(normalize("a  b\tc\nd"), "a  b\tc\nd");
    assert_eq!(normalize("don't-stop_now"), "don't-stop_now");
}

#[test]
fn normalize_is_idempotent_on_samples() {
    for s in ["Hello, World!", "  A?B!  ", "", "a b c", "1/2.3", "ÉCOLE Déjà", "ΣΟΦΙΑ"] {
        let once = normalize(s);
        let twice = normalize(&once);
        assert_eq!(once, twice);
    }
}

#[test]
fn normalize_stable_reports_the_fixed_point() {
    for s in ["Hello, World!", "", "a b c", "ÉCOLE Déjà", "ΣΟΦΙΑ?"] {
        let (once, stable) = normalize_stable(s);
        assert_eq!(once, normalize(s));
        assert!(stable);
    }
}

#[test]
fn split_words_separates_on_whitespace_runs() {
    let ws = split_words("  a\t\tbb \n ccc ");
    assert_eq!(ws, vec!["a", "bb", "ccc"]);
}

#[test]
fn split_words_of_empty_or_blank_is_empty() {
    assert!(split_words("").is_empty());
    assert!(split_words(" \t\n\r ").is_empty());
}

#[test]
fn empty_string_gives_empty_mapping() {
    let counts = count_words("");
    assert_eq!(counts.len(), 0);
    assert_eq!(get(&counts, ""), None);
}

#[test]
fn whitespace_only_gives_empty_mapping() {
    let counts = count_words("   ");
    assert_eq!(counts.len(), 0);
}

#[test]
fn punctuation_only_gives_empty_mapping() {
    let counts = count_words("?! ,,, // .");
    assert_eq!(counts.len(), 0);
}

#[test]
fn hello_three_ways_collapses_to_one_word() {
    let counts = count_words("Hello, hello! HELLO?");
    assert_eq!(counts.len(), 1);
    assert_eq!(get(&counts, "hello"), Some(3));
    assert_eq!(get(&counts, "Hello"), None);
}

#[test]
fn simple_tally_counts_each_word() {
    let counts = count_words("a b a c b a");
    assert_eq!(counts.len(), 3);
    assert_eq!(get(&counts, "a"), Some(3));
    assert_eq!(get(&counts, "b"), Some(2));
    assert_eq!(get(&counts, "c"), Some(1));
    assert_eq!(get(&counts, "d"), None);
}

#[test]
fn keys_are_lowercase_and_free_of_punctuation() {
    let counts = count_words("The QUICK/ fox? the. Fox! THE École");
    let mut i: usize = 0;
    while i < counts.len() {
        let (word, _) = counts.entry_at(i);
        for c in word.chars() {
            assert!(!c.is_uppercase());
            assert!(!"/,.;:?!\"".contains(c));
        }
        i += 1;
    }
    assert_eq!(get(&counts, "the"), Some(3));
    assert_eq!(get(&counts, "fox"), Some(2));
    assert_eq!(get(&counts, "école"), Some(1));
}

#[test]
fn accented_words_collapse_under_case_folding() {
    let counts = count_words("É é Déjà DÉJÀ déjà");
    assert_eq!(counts.len(), 2);
    assert_eq!(get(&counts, "é"), Some(2));
    assert_eq!(get(&counts, "déjà"), Some(3));
    assert_eq!(get(&counts, "É"), None);
}

#[test]
fn counts_sum_to_number_of_words() {
    let counts = count_words("one two two, three! three. THREE");
    assert_eq!(sum_of_counts(&counts), 6);
    let blank = count_words(" , ! ");
    assert_eq!(sum_of_counts(&blank), 0);
}

#[test]
fn tally_can_be_built_by_hand() {
    let mut counts = WordCounts::new();
    assert_eq!(counts.len(), 0);
    counts.bump(&String::from("a"));
    counts.bump(&String::from("b"));
    counts.bump(&String::from("a"));
    assert_eq!(counts.len(), 2);
    assert_eq!(get(&counts, "a"), Some(2));
    assert_eq!(get(&counts, "b"), Some(1));
    let (first, c) = counts.entry_at(0);
    assert_eq!(first, "a");
    assert_eq!(c, 2);
}
