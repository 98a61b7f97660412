//! Ranking: scored documents in the order of their scores.
//!
//! A score is an integer here: whoever computes the scores hands them over
//! as integers that are ordered as the scores are.

use vstd::prelude::*;
use vstd::relations::{sorted_by, total_ordering};

verus! {

broadcast use {vstd::multiset::group_multiset_axioms, vstd::seq_lib::group_to_multiset_ensures};

/// Whether `a` is `b` or comes before it in the dictionary, where the two
/// are equal before position `from`: at the first position where they
/// differ the smaller code point decides, and a name comes before those
/// that it starts.
pub open spec fn precedes_from(a: Seq<char>, b: Seq<char>, from: int) -> bool
    decreases a.len() - from,
{
    if from >= a.len() {
        true
    } else if from >= b.len() {
        false
    } else if 0 <= from && a[from] != b[from] {
        (a[from] as int) < (b[from] as int)
    } else {
        precedes_from(a, b, from + 1)
    }
}

/// Whether the name `a` is `b` or comes before it in the dictionary.
pub open spec fn name_precedes(a: Seq<char>, b: Seq<char>) -> bool {
    precedes_from(a, b, 0)
}

/// Whether the entry `a` is `b` or is ranked before it: the higher score
/// comes first, and of two entries with one score the one whose name comes
/// first in the dictionary.
pub open spec fn ranks_before(a: (Seq<char>, i32), b: (Seq<char>, i32)) -> bool {
    a.1 > b.1 || (a.1 == b.1 && name_precedes(a.0, b.0))
}

/// `ranks_before` as a relation.
pub open spec fn ranking() -> spec_fn((Seq<char>, i32), (Seq<char>, i32)) -> bool {
    |a: (Seq<char>, i32), b: (Seq<char>, i32)| ranks_before(a, b)
}

/// Every name precedes itself.
pub proof fn lemma_precedes_reflexive(a: Seq<char>, from: int)
    requires
        0 <= from,
    ensures
        precedes_from(a, a, from),
    decreases a.len() - from,
{
    if from < a.len() {
        lemma_precedes_reflexive(a, from + 1);
    }
}

/// Of two names, one precedes the other.
pub proof fn lemma_precedes_total(a: Seq<char>, b: Seq<char>, from: int)
    requires
        0 <= from,
    ensures
        precedes_from(a, b, from) || precedes_from(b, a, from),
    decreases a.len() - from,
{
    if from < a.len() && from < b.len() && a[from] == b[from] {
        lemma_precedes_total(a, b, from + 1);
    }
}

/// Two names that precede each other are one name.
pub proof fn lemma_precedes_antisymmetric(a: Seq<char>, b: Seq<char>, from: int)
    requires
        0 <= from <= a.len(),
        from <= b.len(),
        a.take(from) == b.take(from),
        precedes_from(a, b, from),
        precedes_from(b, a, from),
    ensures
        a == b,
    decreases a.len() - from,
{
    if from < a.len() && from < b.len() {
        assert(a[from] == b[from]);
        assert(a.take(from + 1) =~= a.take(from).push(a[from]));
        assert(b.take(from + 1) =~= b.take(from).push(b[from]));
        lemma_precedes_antisymmetric(a, b, from + 1);
    } else {
        assert(a.len() == from && b.len() == from);
        assert(a =~= a.take(from));
        assert(b =~= b.take(from));
    }
}

/// A name that precedes a second, which precedes a third, precedes the
/// third.
pub proof fn lemma_precedes_transitive(a: Seq<char>, b: Seq<char>, c: Seq<char>, from: int)
    requires
        0 <= from,
        precedes_from(a, b, from),
        precedes_from(b, c, from),
    ensures
        precedes_from(a, c, from),
    decreases a.len() - from,
{
    if from < a.len() && from < b.len() && from < c.len() && a[from] == b[from] && b[from]
        == c[from] {
        lemma_precedes_transitive(a, b, c, from + 1);
    }
}

/// The ranking is a total order: of two entries one is ranked before the
/// other, and only an entry itself is ranked both before and after it.
pub proof fn lemma_ranking_is_total_order()
    ensures
        total_ordering(ranking()),
{
    let r = ranking();
    assert forall|x: (Seq<char>, i32)| #[trigger] r(x, x) by {
        lemma_precedes_reflexive(x.0, 0);
    }
    assert forall|x: (Seq<char>, i32), y: (Seq<char>, i32)| #[trigger]
        r(x, y) && #[trigger] r(y, x) implies x == y by {
        assert(x.0.take(0) =~= y.0.take(0));
        lemma_precedes_antisymmetric(x.0, y.0, 0);
    }
    assert forall|x: (Seq<char>, i32), y: (Seq<char>, i32), z: (Seq<char>, i32)| #[trigger]
        r(x, y) && #[trigger] r(y, z) implies r(x, z) by {
        if x.1 == y.1 && y.1 == z.1 {
            lemma_precedes_transitive(x.0, y.0, z.0, 0);
        }
    }
    assert forall|x: (Seq<char>, i32), y: (Seq<char>, i32)| #[trigger]
        r(x, y) || #[trigger] r(y, x) by {
        lemma_precedes_total(x.0, y.0, 0);
    }
}

/// Two rankings of the same entries are the same ranking: the order of the
/// result does not depend on the order in which the entries came.
pub proof fn lemma_ranking_is_unique(
    first: Seq<(Seq<char>, i32)>,
    second: Seq<(Seq<char>, i32)>,
)
    requires
        first.to_multiset() == second.to_multiset(),
        sorted_by(first, ranking()),
        sorted_by(second, ranking()),
    ensures
        first == second,
{
    lemma_ranking_is_total_order();
    vstd::seq_lib::lemma_sorted_unique(first, second, ranking());
}

/// The characters of `name`.
pub fn letters_of(name: &str) -> (letters: Vec<char>)
    ensures
        letters@ == name@,
{
    let mut letters: Vec<char> = Vec::new();
    for c in it: name.chars()
        invariant
            letters@ == it.seq().take(it.index()),
    {
        letters.push(c);
    }
    letters
}

/// Whether the name `a` is `b` or comes before it in the dictionary.
pub fn precedes(a: &[char], b: &[char]) -> (first: bool)
    ensures
        first == name_precedes(a@, b@),
{
    let mut k: usize = 0;
    while k < a.len() && k < b.len() && a[k] == b[k]
        invariant
            k <= a@.len(),
            k <= b@.len(),
            name_precedes(a@, b@) == precedes_from(a@, b@, k as int),
        decreases a@.len() - k,
    {
        k += 1;
    }
    if k >= a.len() {
        true
    } else if k >= b.len() {
        false
    } else {
        a[k] < b[k]
    }
}

/// Whether the entry with the score `score` and the name `name` is the
/// entry with `other_score` and `other`, or is ranked before it.
fn entry_ranks_before(score: i32, name: &[char], other_score: i32, other: &[char]) -> (first:
    bool)
    ensures
        first == ranks_before((name@, score), (other@, other_score)),
{
    score > other_score || (score == other_score && precedes(name, other))
}

/// Where a new entry goes into a ranking, it is still a ranking: the
/// entries in front of the place are ranked before the new one, and the
/// entry at the place is not.
proof fn lemma_insert_keeps_ranking(
    ranked: Seq<(Seq<char>, i32)>,
    at: int,
    entry: (Seq<char>, i32),
)
    requires
        sorted_by(ranked, ranking()),
        0 <= at <= ranked.len(),
        forall|i: int| 0 <= i < at ==> ranks_before(#[trigger] ranked[i], entry),
        at < ranked.len() ==> !ranks_before(ranked[at], entry),
    ensures
        sorted_by(ranked.insert(at, entry), ranking()),
{
    lemma_ranking_is_total_order();
    let r = ranking();
    let after = ranked.insert(at, entry);
    assert forall|i: int, j: int| 0 <= i < j < after.len() implies #[trigger] r(
        after[i],
        after[j],
    ) by {
        if j < at {
            assert(r(ranked[i], ranked[j]));
        } else if j == at {
            assert(ranks_before(ranked[i], entry));
        } else {
            // the entry that stood at the place is ranked after the new one,
            // and before all that follow it
            assert(r(ranked[at], entry) || r(entry, ranked[at]));
            if j - 1 > at {
                assert(r(ranked[at], ranked[j - 1]));
            }
            assert(r(entry, ranked[j - 1]));
            if i < at {
                assert(r(ranked[i], ranked[j - 1]));
            } else if i > at {
                assert(r(ranked[i - 1], ranked[j - 1]));
            }
        }
    }
}

/// Ranks scored documents: the highest score first, and of two documents
/// with one score the one whose name comes first in the dictionary.
///
/// No entry is lost or added, and the order in which the entries come in
/// does not show in the result.
pub fn rank(scored: Vec<(String, i32)>) -> (ranked: Vec<(String, i32)>)
    ensures
        ranked.deep_view().to_multiset() == scored.deep_view().to_multiset(),
        sorted_by(ranked.deep_view(), ranking()),
        ranked.deep_view() == scored.deep_view().sort_by(ranking()),
{
    let ghost all = scored.deep_view();
    let mut waiting = scored;
    let mut ranked: Vec<(String, i32)> = Vec::new();
    let mut letters: Vec<Vec<char>> = Vec::new();
    assert(ranked.deep_view() =~= Seq::<(Seq<char>, i32)>::empty());
    assert(ranked.deep_view().to_multiset().add(waiting.deep_view().to_multiset())
        =~= all.to_multiset());
    while waiting.len() > 0
        invariant
            ranked.deep_view().to_multiset().add(waiting.deep_view().to_multiset())
                == all.to_multiset(),
            sorted_by(ranked.deep_view(), ranking()),
            letters@.len() == ranked@.len(),
            forall|i: int| 0 <= i < ranked@.len() ==> (#[trigger] letters@[i])@ == ranked@[i].0@,
        decreases waiting.len(),
    {
        let ghost waited = waiting.deep_view();
        let ghost listed = ranked.deep_view();
        let entry = waiting.pop().unwrap();
        let ghost shown = (entry.0@, entry.1);
        assert(waited =~= waiting.deep_view().push(shown));
        let name = letters_of(entry.0.as_str());
        let n = ranked.len();
        let mut at: usize = 0;
        while at < n && entry_ranks_before(
            ranked[at].1,
            letters[at].as_slice(),
            entry.1,
            name.as_slice(),
        )
            invariant
                n == ranked@.len(),
                at <= n,
                letters@.len() == n,
                name@ == shown.0,
                entry.1 == shown.1,
                listed == ranked.deep_view(),
                forall|i: int| 0 <= i < n ==> (#[trigger] letters@[i])@ == ranked@[i].0@,
                forall|i: int| 0 <= i < at ==> ranks_before(#[trigger] listed[i], shown),
            decreases n - at,
        {
            assert(listed[at as int] == (ranked@[at as int].0@, ranked@[at as int].1));
            at += 1;
        }
        proof {
            if at < n {
                assert(listed[at as int] == (ranked@[at as int].0@, ranked@[at as int].1));
                assert(letters@[at as int]@ == ranked@[at as int].0@);
            }
            lemma_insert_keeps_ranking(listed, at as int, shown);
        }
        ranked.insert(at, entry);
        letters.insert(at, name);
        proof {
            assert(ranked.deep_view() =~= listed.insert(at as int, shown));
            assert(ranked.deep_view().to_multiset().add(waiting.deep_view().to_multiset())
                =~= listed.to_multiset().add(waited.to_multiset()));
        }
    }
    proof {
        assert(waiting.deep_view() =~= Seq::<(Seq<char>, i32)>::empty());
        assert(ranked.deep_view().to_multiset() =~= all.to_multiset());
        lemma_ranking_is_total_order();
        all.lemma_sort_by_ensures(ranking());
        lemma_ranking_is_unique(ranked.deep_view(), all.sort_by(ranking()));
    }
    ranked
}

} // verus!
