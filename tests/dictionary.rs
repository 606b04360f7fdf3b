use symspell::dictionary::{DictError, Dictionary, DEFAULT_ERROR_DISTANCE};
use symspell::variants::{deletion_variants, single_deletions};

fn strings(v: &[&str]) -> Vec<String> {
    v.iter().map(|s| s.to_string()).collect()
}

fn sorted(mut v: Vec<String>) -> Vec<String> {
    v.sort();
    v
}

#[test]
fn new_dictionary_is_empty() {
    let d = Dictionary::new();
    assert_eq!(d.error_distance(), DEFAULT_ERROR_DISTANCE);
    assert_eq!(d.error_distance(), 2);
    assert_eq!(d.score("a"), None);
    assert_eq!(d.candidates("a"), None);
}

#[test]
fn exact_match_wins_over_variants() {
    let mut d = Dictionary::new();
    d.insert_with_permutations("fork");
    d.insert_with_permutations("Doofus");
    d.insert("for");
    assert_eq!(d.check("fork"), Some("fork".to_string()));
    assert_eq!(d.check("Doofus"), Some("Doofus".to_string()));
    // "for" is also a variant of "fork", but as a known word it is returned itself.
    assert_eq!(d.check("for"), Some("for".to_string()));
}

#[test]
fn single_deletion_recall() {
    let mut d = Dictionary::new();
    d.insert_with_permutations("bell");
    assert_eq!(d.check("bel"), Some("bell".to_string()));
}

#[test]
fn score_decides_between_shared_candidates() {
    let mut d = Dictionary::new();
    d.insert_with_permutations_and_count("bell", 32);
    d.insert_with_permutations_and_count("belly", 29);
    assert_eq!(
        sorted(d.candidates("bel").unwrap()),
        strings(&["bell", "belly"])
    );
    assert_eq!(d.check("bel"), Some("bell".to_string()));
    assert_eq!(d.check("ell"), Some("bell".to_string()));
    // Only "belly" has "bely" as a variant.
    assert_eq!(d.candidates("bely"), Some(strings(&["belly"])));
    assert_eq!(d.check("bely"), Some("belly".to_string()));
}

#[test]
fn higher_score_wins_either_way() {
    let mut d = Dictionary::new();
    d.insert_with_permutations_and_count("bell", 3);
    d.insert_with_permutations_and_count("belly", 29);
    assert_eq!(d.check("bel"), Some("belly".to_string()));
}

#[test]
fn repeated_insert_counts_and_count_overwrites() {
    let mut d = Dictionary::new();
    d.insert("cat");
    d.insert("cat");
    d.insert("cat");
    assert_eq!(d.score("cat"), Some(3));
    d.insert_with_count("cat", 10);
    assert_eq!(d.score("cat"), Some(10));
    d.insert_with_count("cat", 4);
    assert_eq!(d.score("cat"), Some(4));
    // A plain insert does not index variants.
    assert_eq!(d.candidates("ca"), None);
}

#[test]
fn insert_saturates_at_largest_score() {
    let mut d = Dictionary::new();
    d.insert_with_count("x", u64::MAX);
    d.insert("x");
    assert_eq!(d.score("x"), Some(u64::MAX));
}

#[test]
fn insert_with_permutations_counts_like_insert() {
    let mut d = Dictionary::new();
    d.insert_with_permutations("dog");
    d.insert_with_permutations("dog");
    assert_eq!(d.score("dog"), Some(2));
    assert_eq!(d.candidates("og"), Some(strings(&["dog"])));
    d.insert_with_permutations_and_count("dog", 7);
    assert_eq!(d.score("dog"), Some(7));
    assert_eq!(d.candidates("og"), Some(strings(&["dog"])));
}

#[test]
fn empty_dictionary_finds_nothing() {
    let d = Dictionary::new();
    assert_eq!(d.check("anything"), None);
    assert_eq!(d.check(""), None);
}

#[test]
fn distant_query_finds_nothing() {
    let mut d = Dictionary::new();
    d.insert_with_permutations("cat");
    assert_eq!(d.check("dogfish"), None);
}

#[test]
fn fallback_search_reaches_four_deletions() {
    let mut d = Dictionary::new();
    d.insert("hello");
    assert_eq!(d.check("hxexlxlxo"), Some("hello".to_string()));
    assert_eq!(d.check("hxexlxlxox"), None);
}

#[test]
fn fallback_search_uses_the_variant_index() {
    let mut plain = Dictionary::new();
    plain.insert("hello");
    assert_eq!(plain.check("hxlxo"), None);
    let mut d = Dictionary::new();
    d.insert_with_permutations("hello");
    // "hlo" is reached from the query by deletions and from "hello" by the index.
    assert_eq!(d.check("hxlxo"), Some("hello".to_string()));
}

#[test]
fn permutations_of_fork() {
    let d = Dictionary::new();
    let v = sorted(d.permutations_of("fork"));
    let expected = sorted(strings(&[
        "ork", "frk", "fok", "for", "rk", "ok", "or", "fk", "fr", "fo",
    ]));
    assert_eq!(v, expected);
    assert!(v.iter().all(|s| s.chars().count() >= 2));
    assert!(!v.contains(&"fork".to_string()));
}

#[test]
fn permutations_collapse_duplicates() {
    let d = Dictionary::new();
    let v = sorted(d.permutations_of("aab"));
    assert_eq!(v, strings(&["a", "aa", "ab", "b"]));
    assert_eq!(sorted(deletion_variants("aab", 1)), strings(&["aa", "ab"]));
    assert_eq!(deletion_variants("aab", 0), Vec::<String>::new());
}

#[test]
fn permutations_of_short_words() {
    let d = Dictionary::new();
    assert_eq!(d.permutations_of("a"), strings(&[""]));
    assert_eq!(d.permutations_of(""), Vec::<String>::new());
}

#[test]
fn generate_permutations_one_per_position() {
    let d = Dictionary::new();
    assert_eq!(d.generate_permutations("abc"), strings(&["bc", "ac", "ab"]));
    assert_eq!(d.generate_permutations("aab"), strings(&["ab", "ab", "aa"]));
    assert_eq!(d.generate_permutations("é"), strings(&[""]));
    assert_eq!(single_deletions("café"), strings(&["afé", "cfé", "caé", "caf"]));
}

#[test]
fn merged_variants_keep_both_words() {
    let mut d = Dictionary::new();
    d.insert_with_permutations("fork");
    d.insert_with_permutations("fort");
    assert_eq!(d.check("fork"), Some("fork".to_string()));
    assert_eq!(d.check("fort"), Some("fort".to_string()));
    assert_eq!(d.candidates("for"), Some(strings(&["fork", "fort"])));
    assert_eq!(d.candidates("fo"), Some(strings(&["fork", "fort"])));
    assert_eq!(d.candidates("rk"), Some(strings(&["fork"])));
    assert_eq!(d.candidates("rt"), Some(strings(&["fort"])));
    d.insert_with_permutations("fork");
    assert_eq!(d.candidates("for"), Some(strings(&["fork", "fort"])));
}

#[test]
fn best_match_picks_highest_score() {
    let mut d = Dictionary::new();
    d.insert_with_count("a", 1);
    d.insert_with_count("b", 5);
    d.insert_with_count("c", 5);
    assert_eq!(
        d.find_best_match(strings(&["a", "b", "c"])),
        Ok("b".to_string())
    );
    assert_eq!(
        d.find_best_match(strings(&["c", "a", "b"])),
        Ok("c".to_string())
    );
    assert_eq!(d.find_best_match(strings(&["a"])), Ok("a".to_string()));
}

#[test]
fn best_match_with_zero_scores() {
    let mut d = Dictionary::new();
    d.insert_with_count("a", 0);
    d.insert_with_count("b", 0);
    assert_eq!(d.find_best_match(strings(&["b", "a"])), Ok("b".to_string()));
}

#[test]
fn best_match_reports_errors() {
    let mut d = Dictionary::new();
    d.insert("a");
    assert_eq!(d.find_best_match(Vec::new()), Err(DictError::EmptyCandidates));
    assert_eq!(
        d.find_best_match(strings(&["a", "zz"])),
        Err(DictError::UnknownCandidate)
    );
}

#[test]
fn generate_errors_seeds_from_words() {
    let mut d = Dictionary::new();
    d.insert("abcd");
    d.insert("xy");
    d.generate_errors();
    assert_eq!(d.candidates("bcd"), Some(strings(&["abcd"])));
    assert_eq!(d.candidates("abd"), Some(strings(&["abcd"])));
    assert_eq!(d.candidates("ab"), None);
    assert_eq!(d.candidates("x"), None);
    assert_eq!(d.candidates("abcd"), None);
    assert_eq!(d.check("bcd"), Some("abcd".to_string()));
}

#[test]
fn generate_errors_expands_one_level() {
    let mut d = Dictionary::new();
    d.insert_with_permutations("abcdef");
    assert_eq!(d.candidates("abc"), None);
    d.generate_errors();
    assert_eq!(d.candidates("abc"), Some(strings(&["abcdef"])));
    assert_eq!(d.candidates("ab"), None);
    d.generate_errors();
    assert_eq!(d.candidates("ab"), Some(strings(&["abcdef"])));
    assert_eq!(d.candidates("abc"), Some(strings(&["abcdef"])));
}

#[test]
fn generate_errors_merges_candidates() {
    let mut d = Dictionary::new();
    d.insert("abcx");
    d.insert("abcy");
    d.generate_errors();
    assert_eq!(sorted(d.candidates("abc").unwrap()), strings(&["abcx", "abcy"]));
    assert_eq!(d.candidates("bcx"), Some(strings(&["abcx"])));
}
