use minesweeper::anagram;
use minesweeper::anagram_v2;

fn sorted(mut words: Vec<&str>) -> Vec<&str> {
    words.sort_unstable();
    words
}

#[test]
fn finds_simple_anagrams() {
    let candidates = vec!["enlist", "google", "inlets", "banana"];
    let found = anagram::anagrams_for("listen", &candidates);
    assert_eq!(sorted(found), vec!["enlist", "inlets"]);
}

#[test]
fn finds_simple_anagrams_v2() {
    let candidates = vec!["enlist", "google", "inlets", "banana"];
    let found = anagram_v2::anagrams_for("listen", &candidates);
    assert_eq!(sorted(found), vec!["enlist", "inlets"]);
}

#[test]
fn excludes_the_word_itself_case_insensitively() {
    let candidates = vec!["Banana"];
    let found = anagram::anagrams_for("BANANA", &candidates);
    assert!(found.is_empty());
}

#[test]
fn excludes_the_word_itself_case_insensitively_v2() {
    let candidates = vec!["Banana"];
    let found = anagram_v2::anagrams_for("BANANA", &candidates);
    assert!(found.is_empty());
}

#[test]
fn matches_are_case_insensitive_but_keep_their_casing() {
    let candidates = vec!["Inlets", "ENLIST"];
    let found = anagram::anagrams_for("listen", &candidates);
    assert_eq!(sorted(found), vec!["ENLIST", "Inlets"]);
}

#[test]
fn matches_are_case_insensitive_but_keep_their_casing_v2() {
    let candidates = vec!["Inlets", "ENLIST"];
    let found = anagram_v2::anagrams_for("listen", &candidates);
    assert_eq!(sorted(found), vec!["ENLIST", "Inlets"]);
}

#[test]
fn repeated_spellings_are_collapsed() {
    let candidates = vec!["bca", "bca", "cab"];
    let found = anagram::anagrams_for("abc", &candidates);
    assert_eq!(sorted(found), vec!["bca", "cab"]);
}

#[test]
fn repeated_spellings_are_collapsed_v2() {
    let candidates = vec!["bca", "bca", "cab"];
    let found = anagram_v2::anagrams_for("abc", &candidates);
    assert_eq!(sorted(found), vec!["bca", "cab"]);
}

#[test]
fn length_must_match() {
    let candidates = vec!["ab", "abcd", "ba"];
    let found = anagram::anagrams_for("ab", &candidates);
    assert_eq!(found, vec!["ba"]);
}

#[test]
fn letter_counts_must_match() {
    let candidates = vec!["aabb", "abbb", "bbaa"];
    let found = anagram::anagrams_for("aabb", &candidates);
    assert_eq!(found, vec!["bbaa"]);
}

#[test]
fn no_candidates_means_no_anagrams() {
    let candidates: Vec<&str> = vec![];
    let found = anagram_v2::anagrams_for("word", &candidates);
    assert!(found.is_empty());
}
