//! Laws of the filtering engine: accurate feedback never eliminates the
//! solution, filtering is monotone and idempotent, and an empty history
//! constrains nothing.

use vstd::prelude::*;
use crate::letter::{Letter, Word, round_chars};
use crate::counting::{count_in, lemma_contains_iff_count};
use crate::aggregate::{
    required, hits_at, missed, excluded_at, max_round_count, lemma_required_count,
    lemma_max_round_lower,
};
use crate::valid::{accepts, pos_ok};
use crate::engine::{views, surviving, accepts_pred};

verus! {

/// One round of feedback is accurate for solution `s` when every `Hit` names
/// the letter standing at its position; every `Contains` names a letter that
/// occurs in `s` but not at that position; every `Miss` names a letter that
/// does not occur anywhere in `s`; and no letter is owed more often in the
/// round than it occurs in `s`.
pub open spec fn accurate_record(r: Seq<Letter>, s: Seq<char>) -> bool {
    &&& forall|i: int|
        0 <= i < 5 ==> (match #[trigger] r[i] {
            Letter::Hit(c) => s[i] == c,
            Letter::Contains(c) => count_in(s, c) >= 1 && s[i] != c,
            Letter::Miss(c) => count_in(s, c) == 0,
        })
    &&& forall|c: char| #[trigger] count_in(round_chars(r), c) <= count_in(s, c)
}

/// Every round of the history is accurate for solution `s`.
pub open spec fn accurate_history(h: Seq<Word>, s: Seq<char>) -> bool {
    forall|k: int| 0 <= k < h.len() ==> accurate_record((#[trigger] h[k])@, s)
}

/// With accurate feedback no round ever owes a letter more often than the
/// solution holds it.
proof fn lemma_max_round_bound(h: Seq<Word>, s: Seq<char>, c: char)
    requires
        accurate_history(h, s),
    ensures
        max_round_count(h, c) <= count_in(s, c),
    decreases h.len(),
{
    if h.len() > 0 {
        assert(accurate_history(h.drop_last(), s)) by {
            assert(forall|k: int| 0 <= k < h.len() - 1 ==> h.drop_last()[k] == h[k]);
        }
        lemma_max_round_bound(h.drop_last(), s, c);
        assert(h.last() == h[h.len() - 1]);
        assert(count_in(round_chars(h.last()@), c) <= count_in(s, c));
    }
}

/// A confirmed hit of an accurate history names the solution's own letter.
proof fn lemma_hits_accurate(h: Seq<Word>, s: Seq<char>, i: int)
    requires
        accurate_history(h, s),
        0 <= i < 5,
    ensures
        match hits_at(h, i) {
            Some(c) => s[i] == c,
            None => true,
        },
    decreases h.len(),
{
    if h.len() > 0 {
        assert(h.last() == h[h.len() - 1]);
        match h.last()@[i] {
            Letter::Hit(_) => {},
            _ => {
                assert(accurate_history(h.drop_last(), s)) by {
                    assert(forall|k: int| 0 <= k < h.len() - 1 ==> h.drop_last()[k] == h[k]);
                }
                lemma_hits_accurate(h.drop_last(), s, i);
            },
        }
    }
}

/// The solution itself always passes the compiled predicate of a history of
/// accurate feedback: filtering never eliminates the true target.
pub proof fn lemma_solution_survives(h: Seq<Word>, s: Seq<char>)
    requires
        s.len() == 5,
        accurate_history(h, s),
    ensures
        accepts(h, s),
{
    assert forall|i: int| 0 <= i < 5 implies pos_ok(h, s, i) by {
        lemma_hits_accurate(h, s, i);
        let c = s[i];
        assert(s.contains(c));
        lemma_contains_iff_count(s, c);
        if excluded_at(h, i, c) {
            let k = choose|k: int| 0 <= k < h.len() && h[k]@[i] == Letter::Contains(c);
            assert(accurate_record(h[k]@, s));
            assert(false);
        }
        if missed(h, c) {
            let (k, t) = choose|k: int, t: int|
                0 <= k < h.len() && 0 <= t < 5 && h[k]@[t] == Letter::Miss(c);
            assert(accurate_record(h[k]@, s));
            assert(false);
        }
    }
    assert forall|c: char| #[trigger] count_in(required(h), c) <= count_in(s, c) by {
        lemma_required_count(h, c);
        lemma_max_round_bound(h, s, c);
    }
}

/// A filtered word list keeps every word that holds the solution's letters,
/// and never grows: the solution present in the dictionary survives every
/// round of accurate feedback.
pub proof fn lemma_solution_retained(d: Seq<String>, h: Seq<Word>, j: int)
    requires
        0 <= j < d.len(),
        d[j]@.len() == 5,
        accurate_history(h, d[j]@),
    ensures
        surviving(d, h).contains(d[j]@),
        surviving(d, h).len() <= d.len(),
{
    lemma_solution_survives(h, d[j]@);
    let p = accepts_pred(h);
    views(d).filter_lemma(p);
    assert(views(d)[j] == d[j]@);
    assert(p(views(d)[j]));
}

/// A sequence whose every element satisfies `p` is left unchanged by
/// filtering with `p`.
proof fn lemma_filter_stable<A>(s: Seq<A>, p: spec_fn(A) -> bool)
    requires
        forall|i: int| 0 <= i < s.len() ==> p(#[trigger] s[i]),
    ensures
        s.filter(p) == s,
    decreases s.len(),
{
    reveal(Seq::filter);
    if s.len() > 0 {
        assert(forall|i: int| 0 <= i < s.drop_last().len() ==> p(#[trigger] s.drop_last()[i]));
        lemma_filter_stable(s.drop_last(), p);
        assert(p(s.last()));
        assert(s.drop_last().push(s.last()) =~= s);
    }
}

/// Filtering is idempotent: a dictionary that is already the survivors of a
/// history is left identical by filtering with that same history again.
pub proof fn lemma_refilter_identical(d0: Seq<String>, d1: Seq<String>, h: Seq<Word>)
    requires
        views(d1) == surviving(d0, h),
    ensures
        surviving(d1, h) == views(d1),
{
    let p = accepts_pred(h);
    views(d0).filter_lemma(p);
    assert(forall|i: int| 0 <= i < views(d1).len() ==> p(#[trigger] views(d1)[i]));
    lemma_filter_stable(views(d1), p);
}

/// An empty guess history constrains nothing: its predicate accepts every
/// word of the correct length.
pub proof fn lemma_empty_history_accepts(w: Seq<char>)
    requires
        w.len() == 5,
    ensures
        accepts(Seq::<Word>::empty(), w),
{
    let h = Seq::<Word>::empty();
    assert forall|i: int| 0 <= i < 5 implies pos_ok(h, w, i) by {
        assert(hits_at(h, i) is None);
        assert(!missed(h, w[i]));
        assert(!excluded_at(h, i, w[i]));
    }
    assert forall|c: char| #[trigger] count_in(required(h), c) <= count_in(w, c) by {
        assert(count_in(required(h), c) == 0);
    }
}

} // verus!
