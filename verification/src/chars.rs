//! Shared character-sequence helpers: lowercasing, equality tests and a
//! verified sort, used by the anagram matchers.

use vstd::prelude::*;
use vstd::multiset::Multiset;
use vstd::relations::sorted_by;
use vstd::relations::total_ordering;
use vstd::seq_lib::lemma_multiset_commutative;
use vstd::seq_lib::lemma_sorted_unique;

verus! {

/// The sequence of characters produced by Unicode-lowercasing `s`.
/// The mapping itself is left abstract; it depends on the characters of
/// `s` alone.
pub uninterp spec fn lower_of(s: Seq<char>) -> Seq<char>;

/// Relies on `str::to_lowercase`: the result depends on the characters of
/// the input alone.
#[verifier::external_body]
pub fn lowercase(s: &str) -> (r: String)
    ensures
        r@ == lower_of(s@),
{
    s.to_lowercase()
}

/// Ordering on characters by code point, the order `sort_chars` uses.
pub open spec fn char_le(a: char, b: char) -> bool {
    a <= b
}

/// Collects the characters of `s` into a vector, in order.
pub fn chars_of(s: &str) -> (r: Vec<char>)
    ensures
        r@ == s@,
{
    let n = s.unicode_len();
    let mut r: Vec<char> = Vec::new();
    let mut i: usize = 0;
    while i < n
        invariant
            n == s@.len(),
            i <= n,
            r@ == s@.take(i as int),
        decreases n - i,
    {
        let c = s.get_char(i);
        r.push(c);
        proof {
            assert(r@ =~= s@.take(i + 1 as int));
        }
        i = i + 1;
    }
    proof {
        assert(s@.take(n as int) =~= s@);
    }
    r
}

/// `s` is in ascending code-point order.
pub open spec fn sorted_chars(s: Seq<char>) -> bool {
    forall|i: int, j: int| 0 <= i < j < s.len() ==> char_le(s[i], s[j])
}

/// `char_le` is a total ordering on characters.
pub proof fn lemma_char_le_total_ordering()
    ensures
        total_ordering(|a: char, b: char| char_le(a, b)),
{
    let leq = |a: char, b: char| char_le(a, b);
    assert forall|x: char| #[trigger] leq(x, x) by {}
    assert forall|x: char, y: char| #[trigger] leq(x, y) && #[trigger] leq(y, x) implies x == y by {}
    assert forall|x: char, y: char, z: char|
        #[trigger] leq(x, y) && #[trigger] leq(y, z) implies leq(x, z) by {}
    assert forall|x: char, y: char| #[trigger] leq(x, y) || #[trigger] leq(y, x) by {}
}

/// Inserting an element anywhere in a sequence inserts it into the
/// sequence's multiset.
pub proof fn lemma_insert_to_multiset<A>(s: Seq<A>, pos: int, x: A)
    requires
        0 <= pos <= s.len(),
    ensures
        s.insert(pos, x).to_multiset() == s.to_multiset().insert(x),
{
    broadcast use vstd::seq_lib::group_to_multiset_ensures;
    broadcast use vstd::multiset::group_multiset_axioms;

    let front = s.subrange(0, pos);
    let back = s.subrange(pos, s.len() as int);
    assert(s.insert(pos, x) == front.push(x) + back);
    lemma_multiset_commutative(front.push(x), back);
    lemma_multiset_commutative(front, back);
    assert(front + back =~= s);
    assert(front.push(x).to_multiset() =~= front.to_multiset().insert(x));
    assert(front.to_multiset().insert(x).add(back.to_multiset()) =~= front.to_multiset().add(
        back.to_multiset(),
    ).insert(x));
}

/// Sorts the characters of `v` into ascending code-point order; the result
/// holds exactly the characters of `v`.
pub fn sort_chars(v: &Vec<char>) -> (r: Vec<char>)
    ensures
        sorted_chars(r@),
        r@.to_multiset() == v@.to_multiset(),
        r@.len() == v@.len(),
{
    broadcast use vstd::seq_lib::group_to_multiset_ensures;

    let n = v.len();
    let mut r: Vec<char> = Vec::new();
    let mut i: usize = 0;
    proof {
        assert(v@.take(0) =~= Seq::<char>::empty());
        assert(Seq::<char>::empty().to_multiset() =~= Multiset::<char>::empty());
    }
    while i < n
        invariant
            n == v@.len(),
            i <= n,
            sorted_chars(r@),
            r@.to_multiset() == v@.take(i as int).to_multiset(),
            r@.len() == i,
        decreases n - i,
    {
        let c = v[i];
        let mut j: usize = 0;
        while j < r.len() && !char_lt(c, r[j])
            invariant
                j <= r@.len(),
                sorted_chars(r@),
                forall|k: int| 0 <= k < j ==> char_le(r@[k], c),
            decreases r@.len() - j,
        {
            j = j + 1;
        }
        proof {
            lemma_insert_to_multiset(r@, j as int, c);
            assert(v@.take(i + 1 as int) =~= v@.take(i as int).push(c));
            v@.take(i as int).to_multiset_ensures();
            assert(v@.take(i as int).push(c).to_multiset() =~= v@.take(
                i as int,
            ).to_multiset().insert(c));
            let s = r@.insert(j as int, c);
            r@.insert_ensures(j as int, c);
            assert(j == r@.len() || char_le(c, r@[j as int]));
            assert forall|p: int, q: int| 0 <= p < q < s.len() implies char_le(s[p], s[q]) by {
                if q < j {
                    assert(s[p] == r@[p] && s[q] == r@[q]);
                } else if j < p {
                    assert(s[p] == r@[p - 1] && s[q] == r@[q - 1]);
                } else if p == j {
                    assert(s[p] == c && s[q] == r@[q - 1]);
                    assert(j < r@.len());
                    assert(char_le(c, r@[j as int]));
                    if j < q - 1 {
                        assert(char_le(r@[j as int], r@[q - 1]));
                    }
                } else if q == j {
                    assert(s[p] == r@[p] && s[q] == c);
                    assert(char_le(r@[p], c));
                } else {
                    assert(p < j && j < q);
                    assert(s[p] == r@[p] && s[q] == r@[q - 1]);
                    assert(j < r@.len());
                    assert(char_le(r@[p], c));
                    assert(char_le(c, r@[j as int]));
                    if j < q - 1 {
                        assert(char_le(r@[j as int], r@[q - 1]));
                    }
                }
            }
        }
        r.insert(j, c);
        i = i + 1;
    }
    proof {
        assert(v@.take(n as int) =~= v@);
    }
    r
}

/// Strict version of `char_le`, used to find the insertion point.
fn char_lt(a: char, b: char) -> (r: bool)
    ensures
        r == (a < b),
{
    a < b
}

/// Two sorted character sequences holding the same characters are equal.
pub proof fn lemma_sorted_chars_unique(x: Seq<char>, y: Seq<char>)
    requires
        sorted_chars(x),
        sorted_chars(y),
        x.to_multiset() == y.to_multiset(),
    ensures
        x == y,
{
    let leq = |a: char, b: char| char_le(a, b);
    lemma_char_le_total_ordering();
    assert(sorted_by(x, leq));
    assert(sorted_by(y, leq));
    lemma_sorted_unique(x, y, leq);
    assert(x =~= y);
}

/// The characters of `s` in ascending code-point order, at the
/// specification level.
pub open spec fn sort_of(s: Seq<char>) -> Seq<char> {
    s.sort_by(|a: char, b: char| char_le(a, b))
}

/// Two character sequences hold the same letters (as multisets) exactly
/// when their sorted forms are equal: comparing sorted, lowercased
/// words is a complete anagram test.
pub proof fn lemma_multiset_eq_iff_sorted_eq(a: Seq<char>, b: Seq<char>)
    ensures
        (a.to_multiset() == b.to_multiset()) <==> (sort_of(a) == sort_of(b)),
{
    let leq = |x: char, y: char| char_le(x, y);
    lemma_char_le_total_ordering();
    a.lemma_sort_by_ensures(leq);
    b.lemma_sort_by_ensures(leq);
    if a.to_multiset() == b.to_multiset() {
        lemma_sorted_unique(a.sort_by(leq), b.sort_by(leq), leq);
        assert(sort_of(a) =~= sort_of(b));
    }
}

/// `c` is an anagram of `w`: same length, not the same word once
/// lowercased, and the lowercased letters of one are a rearrangement of
/// the lowercased letters of the other.
pub open spec fn anagram_match(w: Seq<char>, c: Seq<char>) -> bool {
    &&& c.len() == w.len()
    &&& lower_of(c) != lower_of(w)
    &&& lower_of(c).to_multiset() == lower_of(w).to_multiset()
}

/// A candidate is an anagram of the target exactly when its length
/// matches, its sorted lowercased characters equal the target's sorted
/// lowercased characters, and its lowercase form is not the target's.
pub proof fn lemma_anagram_match_by_sorting(w: Seq<char>, c: Seq<char>)
    ensures
        anagram_match(w, c) <==> (c.len() == w.len() && lower_of(c) != lower_of(w) && sort_of(
            lower_of(c),
        ) == sort_of(lower_of(w))),
{
    lemma_multiset_eq_iff_sorted_eq(lower_of(c), lower_of(w));
}

/// Some entry of `ss` has exactly the characters `s`.
pub open spec fn has_str(ss: Seq<&str>, s: Seq<char>) -> bool {
    exists|i: int| 0 <= i < ss.len() && ss[i]@ == s
}

/// How `has_str` behaves when one entry is appended.
pub proof fn lemma_has_str_push(ss: Seq<&str>, x: &str, s: Seq<char>)
    ensures
        has_str(ss.push(x), s) <==> (has_str(ss, s) || x@ == s),
{
    if has_str(ss, s) {
        let i = choose|i: int| 0 <= i < ss.len() && ss[i]@ == s;
        assert(ss.push(x)[i]@ == s);
    }
    if x@ == s {
        assert(ss.push(x)[ss.len() as int]@ == s);
    }
    if has_str(ss.push(x), s) {
        let i = choose|i: int| 0 <= i < ss.push(x).len() && ss.push(x)[i]@ == s;
        if i < ss.len() {
            assert(ss[i]@ == s);
        } else {
            assert(ss.push(x)[i] == x);
        }
    }
}

/// Whether some entry of `ss` has exactly the characters of `s`.
pub fn contains_str(ss: &Vec<&str>, s: &str) -> (r: bool)
    ensures
        r == has_str(ss@, s@),
{
    let n = ss.len();
    let mut i: usize = 0;
    while i < n
        invariant
            n == ss@.len(),
            i <= n,
            forall|k: int| 0 <= k < i ==> ss@[k]@ != s@,
        decreases n - i,
    {
        if str_eq(ss[i], s) {
            proof {
                assert(has_str(ss@, s@));
            }
            return true;
        }
        i = i + 1;
    }
    proof {
        if has_str(ss@, s@) {
            let k = choose|k: int| 0 <= k < ss@.len() && ss@[k]@ == s@;
            assert(false);
        }
    }
    false
}

/// Equality of two strings as character sequences.
pub fn str_eq(a: &str, b: &str) -> (r: bool)
    ensures
        r == (a@ == b@),
{
    let na = a.unicode_len();
    let nb = b.unicode_len();
    if na != nb {
        proof {
            assert(a@ != b@);
        }
        return false;
    }
    let mut i: usize = 0;
    while i < na
        invariant
            na == a@.len(),
            na == b@.len(),
            i <= na,
            forall|k: int| 0 <= k < i ==> a@[k] == b@[k],
        decreases na - i,
    {
        if a.get_char(i) != b.get_char(i) {
            return false;
        }
        i = i + 1;
    }
    proof {
        assert(a@ =~= b@);
    }
    true
}

/// Equality of two character vectors as sequences.
pub fn chars_eq(a: &Vec<char>, b: &Vec<char>) -> (r: bool)
    ensures
        r == (a@ == b@),
{
    let na = a.len();
    let nb = b.len();
    if na != nb {
        proof {
            assert(a@ != b@);
        }
        return false;
    }
    let mut i: usize = 0;
    while i < na
        invariant
            na == a@.len(),
            na == b@.len(),
            i <= na,
            forall|k: int| 0 <= k < i ==> a@[k] == b@[k],
        decreases na - i,
    {
        if a[i] != b[i] {
            return false;
        }
        i = i + 1;
    }
    proof {
        assert(a@ =~= b@);
    }
    true
}

} // verus!
