//! Second anagram matcher with the same contract as `crate::anagram`:
//! it tests the cheap length condition first and only lowercases and
//! sorts a candidate of the right length.

use vstd::prelude::*;

use crate::chars::anagram_match;
use crate::chars::chars_eq;
use crate::chars::chars_of;
use crate::chars::contains_str;
use crate::chars::has_str;
use crate::chars::lemma_has_str_push;
use crate::chars::lemma_sorted_chars_unique;
use crate::chars::lower_of;
use crate::chars::lowercase;
use crate::chars::sort_chars;
use crate::chars::sorted_chars;
use crate::chars::str_eq;

verus! {

/// Returns the candidates that are anagrams of `word`: same length as
/// `word`, equal lowercased letter multisets, but not the same word
/// lowercased. Each matching spelling appears exactly once, with the
/// casing it has in `possible_anagrams`.
pub fn anagrams_for<'a>(word: &str, possible_anagrams: &[&'a str]) -> (r: Vec<&'a str>)
    ensures
        forall|s: Seq<char>|
            #![trigger has_str(r@, s)]
            #![trigger has_str(possible_anagrams@, s)]
            has_str(r@, s) <==> (has_str(possible_anagrams@, s) && anagram_match(word@, s)),
        forall|i: int| 0 <= i < r@.len() ==> #[trigger] anagram_match(word@, r@[i]@),
        forall|i: int, j: int| 0 <= i < j < r@.len() ==> r@[i]@ != r@[j]@,
{
    let lower_word = lowercase(word);
    let word_sorted = get_sorted(lower_word.as_str());
    let word_length = word.unicode_len();
    let n = possible_anagrams.len();
    let mut r: Vec<&'a str> = Vec::new();
    let mut j: usize = 0;
    while j < n
        invariant
            n == possible_anagrams@.len(),
            j <= n,
            word_length == word@.len(),
            lower_word@ == lower_of(word@),
            sorted_chars(word_sorted@),
            word_sorted@.to_multiset() == lower_of(word@).to_multiset(),
            forall|s: Seq<char>|
                #![trigger has_str(r@, s)]
                #![trigger has_str(possible_anagrams@.take(j as int), s)]
                has_str(r@, s) <==> (has_str(possible_anagrams@.take(j as int), s)
                    && anagram_match(word@, s)),
            forall|p: int, q: int| 0 <= p < q < r@.len() ==> r@[p]@ != r@[q]@,
        decreases n - j,
    {
        let anagram_candidate = possible_anagrams[j];
        let ghost r_prev = r@;
        if anagram_candidate.unicode_len() == word_length {
            let lower_anagram_candidate = lowercase(anagram_candidate);
            let mut is_match = false;
            if !str_eq(lower_anagram_candidate.as_str(), lower_word.as_str()) {
                let candidate_sorted = get_sorted(lower_anagram_candidate.as_str());
                is_match = chars_eq(&word_sorted, &candidate_sorted);
                proof {
                    if !is_match && lower_of(anagram_candidate@).to_multiset() == lower_of(
                        word@,
                    ).to_multiset() {
                        lemma_sorted_chars_unique(word_sorted@, candidate_sorted@);
                    }
                }
            }
            proof {
                assert(is_match == anagram_match(word@, anagram_candidate@));
            }
            if is_match && !contains_str(&r, anagram_candidate) {
                r.push(anagram_candidate);
                proof {
                    assert forall|p: int| 0 <= p < r_prev.len() implies r_prev[p]@
                        != anagram_candidate@ by {
                        if r_prev[p]@ == anagram_candidate@ {
                            assert(has_str(r_prev, anagram_candidate@));
                        }
                    }
                }
            }
        }
        proof {
            assert(!anagram_match(word@, anagram_candidate@) || r@ != r_prev || has_str(
                r_prev,
                anagram_candidate@,
            ));
            assert(possible_anagrams@.take(j + 1 as int) =~= possible_anagrams@.take(
                j as int,
            ).push(anagram_candidate));
            assert forall|s: Seq<char>|
                #![trigger has_str(r@, s)]
                #![trigger has_str(possible_anagrams@.take(j + 1 as int), s)]
                has_str(r@, s) <==> (has_str(possible_anagrams@.take(j + 1 as int), s)
                    && anagram_match(word@, s)) by {
                lemma_has_str_push(possible_anagrams@.take(j as int), anagram_candidate, s);
                if r@ != r_prev {
                    lemma_has_str_push(r_prev, anagram_candidate, s);
                }
            }
        }
        j = j + 1;
    }
    proof {
        assert(possible_anagrams@.take(n as int) =~= possible_anagrams@);
        assert forall|i: int| 0 <= i < r@.len() implies #[trigger] anagram_match(
            word@,
            r@[i]@,
        ) by {
            assert(has_str(r@, r@[i]@));
        }
    }
    r
}

/// The characters of `word`, in ascending code-point order.
fn get_sorted(word: &str) -> (r: Vec<char>)
    ensures
        sorted_chars(r@),
        r@.to_multiset() == word@.to_multiset(),
{
    let word_sorted = chars_of(word);
    sort_chars(&word_sorted)
}

} // verus!
