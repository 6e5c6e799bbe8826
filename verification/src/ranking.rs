//! Ranking of `(node, score)` lists: highest score first, ties in the order
//! in which the list held them.

use vstd::prelude::*;
use vstd::seq_lib::{to_multiset_build, to_multiset_insert, to_multiset_len};
use crate::error::CentralityError;

verus! {

/// The test "this entry has score `c`".
pub open spec fn score_is(c: usize) -> spec_fn((usize, usize)) -> bool {
    |entry: (usize, usize)| entry.1 == c
}

/// No entry has a lower score than one that follows it.
pub open spec fn sorted_descending(r: Seq<(usize, usize)>) -> bool {
    forall|i: int, j: int| 0 <= i < j < r.len() ==> r[i].1 >= r[j].1
}

/// `r` is `s` ranked: it holds the entries of `s`, each as often as `s` does,
/// with the scores descending, and the entries of any one score stand in the
/// order in which they stand in `s`.
pub open spec fn is_ranking_of(r: Seq<(usize, usize)>, s: Seq<(usize, usize)>) -> bool {
    &&& sorted_descending(r)
    &&& r.to_multiset() == s.to_multiset()
    &&& forall|c: usize| #[trigger] r.filter(score_is(c)) == s.filter(score_is(c))
}

/// The ranking of `s`. There is exactly one: see `lemma_ranked_is_ranking` and
/// `lemma_ranking_unique`.
pub open spec fn ranked(s: Seq<(usize, usize)>) -> Seq<(usize, usize)> {
    choose|r: Seq<(usize, usize)>| is_ranking_of(r, s)
}

/// What the last entry does to a filtered list.
proof fn lemma_filter_last(s: Seq<(usize, usize)>, c: usize)
    requires
        s.len() > 0,
    ensures
        s.last().1 == c ==> s.filter(score_is(c)) == s.drop_last().filter(score_is(c)).push(
            s.last(),
        ),
        s.last().1 != c ==> s.filter(score_is(c)) == s.drop_last().filter(score_is(c)),
{
    reveal(Seq::filter);
}

/// Where no entry has score `c`, filtering for `c` leaves nothing.
proof fn lemma_filter_none(s: Seq<(usize, usize)>, c: usize)
    requires
        forall|i: int| 0 <= i < s.len() ==> s[i].1 != c,
    ensures
        s.filter(score_is(c)).len() == 0,
    decreases s.len(),
{
    reveal(Seq::filter);
    if s.len() > 0 {
        lemma_filter_none(s.drop_last(), c);
    }
}

/// Two lists with descending scores and the same length, which agree on the
/// entries of each score and their order, are the same list.
proof fn lemma_rankings_agree(a: Seq<(usize, usize)>, b: Seq<(usize, usize)>)
    requires
        sorted_descending(a),
        sorted_descending(b),
        a.len() == b.len(),
        forall|c: usize| #[trigger] a.filter(score_is(c)) == b.filter(score_is(c)),
    ensures
        a == b,
    decreases a.len(),
{
    if a.len() == 0 {
        assert(a =~= b);
    } else {
        let x = a.last();
        let y = b.last();
        let a0 = a.drop_last();
        let b0 = b.drop_last();
        // The lowest score of each list occurs in the other, so they are one score.
        lemma_filter_last(a, x.1);
        assert(a.filter(score_is(x.1)) == b.filter(score_is(x.1)));
        if forall|i: int| 0 <= i < b.len() ==> b[i].1 != x.1 {
            lemma_filter_none(b, x.1);
        }
        lemma_filter_last(b, y.1);
        assert(a.filter(score_is(y.1)) == b.filter(score_is(y.1)));
        if forall|i: int| 0 <= i < a.len() ==> a[i].1 != y.1 {
            lemma_filter_none(a, y.1);
        }
        assert(x.1 == y.1);
        // So the two last entries are the last entry of one filtered list.
        assert(a0.filter(score_is(x.1)).push(x).last() == x);
        assert(b0.filter(score_is(x.1)).push(y).last() == y);
        assert(x == y);
        assert forall|c: usize| #[trigger] a0.filter(score_is(c)) == b0.filter(score_is(c)) by {
            lemma_filter_last(a, c);
            lemma_filter_last(b, c);
            assert(a.filter(score_is(c)) == b.filter(score_is(c)));
            if c == x.1 {
                assert(a0.filter(score_is(c)).push(x).drop_last() =~= a0.filter(score_is(c)));
                assert(b0.filter(score_is(c)).push(y).drop_last() =~= b0.filter(score_is(c)));
            }
        }
        lemma_rankings_agree(a0, b0);
        assert(a =~= a0.push(x));
        assert(b =~= b0.push(y));
    }
}

/// A ranking stays one when a new entry is put behind the entries that score
/// at least as much and before those that score less.
proof fn lemma_insert_keeps_ranking(
    r: Seq<(usize, usize)>,
    s: Seq<(usize, usize)>,
    x: (usize, usize),
    at: int,
)
    requires
        is_ranking_of(r, s),
        0 <= at <= r.len(),
        forall|j: int| 0 <= j < at ==> r[j].1 >= x.1,
        forall|j: int| at <= j < r.len() ==> r[j].1 < x.1,
    ensures
        is_ranking_of(r.insert(at, x), s.push(x)),
{
    let front = r.subrange(0, at);
    let back = r.subrange(at, r.len() as int);
    let grown = r.insert(at, x);
    assert(r =~= front + back);
    assert(grown == front.push(x) + back);
    assert(sorted_descending(grown)) by {
        r.insert_ensures(at, x);
        assert forall|i: int, j: int| 0 <= i < j < grown.len() implies grown[i].1
            >= grown[j].1 by {
            let before_i = if i < at { i } else { i - 1 };
            let before_j = if j < at { j } else { j - 1 };
            if i != at {
                assert(grown[i] == r[before_i]);
            }
            if j != at {
                assert(grown[j] == r[before_j]);
            }
        }
    }
    assert(grown.to_multiset() == s.push(x).to_multiset()) by {
        to_multiset_insert(r, at, x);
        to_multiset_build(s, x);
    }
    assert forall|c: usize| #[trigger] grown.filter(score_is(c)) == s.push(x).filter(
        score_is(c),
    ) by {
        let keep = score_is(c);
        assert(r.filter(keep) == s.filter(keep));
        Seq::filter_distributes_over_add(front, back, keep);
        Seq::filter_distributes_over_add(front.push(x), back, keep);
        front.lemma_filter_push(x, keep);
        s.lemma_filter_push(x, keep);
        if c == x.1 {
            lemma_filter_none(back, c);
            assert(back.filter(keep) =~= Seq::empty());
            assert(front.filter(keep) + back.filter(keep) =~= front.filter(keep));
            assert(front.filter(keep).push(x) + back.filter(keep) =~= front.filter(keep).push(x));
        }
    }
}

/// Every list has a ranking.
proof fn lemma_ranking_exists(s: Seq<(usize, usize)>) -> (r: Seq<(usize, usize)>)
    ensures
        is_ranking_of(r, s),
    decreases s.len(),
{
    if s.len() == 0 {
        assert(sorted_descending(s));
        s
    } else {
        let x = s.last();
        let r0 = lemma_ranking_exists(s.drop_last());
        let at = lemma_insertion_point(r0, x.1);
        lemma_insert_keeps_ranking(r0, s.drop_last(), x, at);
        assert(s.drop_last().push(x) =~= s);
        r0.insert(at, x)
    }
}

/// In a list with descending scores there is a place that parts the entries
/// that score at least `score` from those that score less.
proof fn lemma_insertion_point(r: Seq<(usize, usize)>, score: usize) -> (at: int)
    requires
        sorted_descending(r),
    ensures
        0 <= at <= r.len(),
        forall|j: int| 0 <= j < at ==> r[j].1 >= score,
        forall|j: int| at <= j < r.len() ==> r[j].1 < score,
    decreases r.len(),
{
    if r.len() == 0 {
        0
    } else if r.last().1 >= score {
        assert forall|j: int| 0 <= j < r.len() implies r[j].1 >= score by {
            if j < r.len() - 1 {
                assert(r[j].1 >= r[r.len() - 1].1);
            }
        }
        r.len() as int
    } else {
        let shorter = r.drop_last();
        assert forall|i: int, j: int| 0 <= i < j < shorter.len() implies shorter[i].1
            >= shorter[j].1 by {
            assert(r[i].1 >= r[j].1);
        }
        let at = lemma_insertion_point(shorter, score);
        assert forall|j: int| 0 <= j < at implies r[j].1 >= score by {
            assert(shorter[j] == r[j]);
        }
        assert forall|j: int| at <= j < r.len() implies r[j].1 < score by {
            if j < shorter.len() {
                assert(shorter[j] == r[j]);
            }
        }
        at
    }
}

/// `ranked(s)` is a ranking of `s`: sorted by descending score, a
/// rearrangement of `s`, and stable.
pub proof fn lemma_ranked_is_ranking(s: Seq<(usize, usize)>)
    ensures
        is_ranking_of(ranked(s), s),
        ranked(s).len() == s.len(),
{
    let witness = lemma_ranking_exists(s);
    assert(is_ranking_of(witness, s));
    to_multiset_len(ranked(s));
    to_multiset_len(s);
}

/// A list has one ranking only.
pub proof fn lemma_ranking_unique(
    a: Seq<(usize, usize)>,
    b: Seq<(usize, usize)>,
    s: Seq<(usize, usize)>,
)
    requires
        is_ranking_of(a, s),
        is_ranking_of(b, s),
    ensures
        a == b,
{
    to_multiset_len(a);
    to_multiset_len(b);
    assert forall|c: usize| #[trigger] a.filter(score_is(c)) == b.filter(score_is(c)) by {
        assert(b.filter(score_is(c)) == s.filter(score_is(c)));
    }
    lemma_rankings_agree(a, b);
}

/// Ranks a result list: highest score first, entries of equal score in the
/// order in which `results` holds them.
pub fn rank_descending(results: &Vec<(usize, usize)>) -> (ranking: Vec<(usize, usize)>)
    ensures
        ranking@ == ranked(results@),
        is_ranking_of(ranking@, results@),
{
    let mut ranking: Vec<(usize, usize)> = Vec::new();
    let mut i: usize = 0;
    proof {
        assert(sorted_descending(ranking@));
        assert(results@.take(0) =~= ranking@);
    }
    while i < results.len()
        invariant
            i <= results@.len(),
            is_ranking_of(ranking@, results@.take(i as int)),
        decreases results@.len() - i,
    {
        let entry = results[i];
        let mut at: usize = ranking.len();
        while at > 0 && ranking[at - 1].1 < entry.1
            invariant
                at <= ranking@.len(),
                forall|j: int| at <= j < ranking@.len() ==> ranking@[j].1 < entry.1,
            decreases at,
        {
            at -= 1;
        }
        proof {
            lemma_insert_keeps_ranking(ranking@, results@.take(i as int), entry, at as int);
            assert(results@.take(i as int).push(entry) =~= results@.take(i + 1));
        }
        ranking.insert(at, entry);
        i += 1;
    }
    proof {
        assert(results@.take(results@.len() as int) =~= results@);
        lemma_ranked_is_ranking(results@);
        lemma_ranking_unique(ranking@, ranked(results@), results@);
    }
    ranking
}

/// The `k` highest-scoring entries of `results`, highest first, ties in the
/// order in which `results` holds them. Refuses a `k` larger than the number
/// of entries.
pub fn top_k(results: &Vec<(usize, usize)>, k: usize) -> (r: Result<
    Vec<(usize, usize)>,
    CentralityError,
>)
    ensures
        match r {
            Ok(top) => k <= results@.len() && top@ == ranked(results@).take(k as int),
            Err(e) => k > results@.len() && e == CentralityError::InsufficientResults,
        },
{
    if k > results.len() {
        return Err(CentralityError::InsufficientResults);
    }
    let mut ranking = rank_descending(results);
    proof {
        lemma_ranked_is_ranking(results@);
    }
    ranking.truncate(k);
    Ok(ranking)
}

} // verus!
