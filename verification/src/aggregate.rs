//! The constraint aggregator: folds a guess history into the four derived
//! constraint sets (positional hits, positional exclusions, absent letters,
//! and the required-letter multiset with duplicate cancellation).

use vstd::prelude::*;
use crate::letter::{Letter, Word, required_part, round_chars};
use crate::counting::{
    count_in, remove_one, vec_contains_char, remove_first_char, copy_chars,
    lemma_remove_one_counts, lemma_contains_iff_count, lemma_push_contains,
};
use crate::engine::Wordl;

verus! {

/// One cancellation pass of the required-multiset fold: letters of `round`
/// are taken in order; each one cancels a pending instance from `stack` if it
/// can, and otherwise appends a new required instance to `acc`.
pub open spec fn merge_loop(acc: Seq<char>, stack: Seq<char>, round: Seq<char>) -> Seq<char>
    decreases round.len(),
{
    if round.len() == 0 {
        acc
    } else {
        let c = round[0];
        if stack.contains(c) {
            merge_loop(acc, remove_one(stack, c), round.drop_first())
        } else {
            merge_loop(acc.push(c), stack, round.drop_first())
        }
    }
}

/// Fold one round's extracted letters into the accumulated required multiset.
/// Cancellation is checked against the pending instances as they stood when
/// the round began.
pub open spec fn merge_round(acc: Seq<char>, round: Seq<char>) -> Seq<char> {
    merge_loop(acc, acc, round)
}

/// The required-letter multiset of a whole history, rounds folded in
/// chronological order.
pub open spec fn required(h: Seq<Word>) -> Seq<char>
    decreases h.len(),
{
    if h.len() == 0 {
        Seq::empty()
    } else {
        merge_round(required(h.drop_last()), round_chars(h.last()@))
    }
}

/// The confirmed letter at position `i`: the most recent `Hit` recorded
/// there, if any.
pub open spec fn hits_at(h: Seq<Word>, i: int) -> Option<char>
    decreases h.len(),
{
    if h.len() == 0 {
        None
    } else {
        match h.last()@[i] {
            Letter::Hit(c) => Some(c),
            _ => hits_at(h.drop_last(), i),
        }
    }
}

/// Whether some round marked `c` as `Miss` at any position.
pub open spec fn missed(h: Seq<Word>, c: char) -> bool {
    exists|k: int, i: int|
        0 <= k < h.len() && 0 <= i < 5 && h[k]@[i] == Letter::Miss(c)
}

/// Whether some round marked `c` as `Contains` at position `i`, i.e. the
/// letter is known to be present elsewhere but wrong right here.
pub open spec fn excluded_at(h: Seq<Word>, i: int, c: char) -> bool {
    exists|k: int| 0 <= k < h.len() && h[k]@[i] == Letter::Contains(c)
}

/// The largest number of times any single round owes the letter `c`.
pub open spec fn max_round_count(h: Seq<Word>, c: char) -> nat
    decreases h.len(),
{
    if h.len() == 0 {
        0
    } else {
        let prev = max_round_count(h.drop_last(), c);
        let cur = count_in(round_chars(h.last()@), c);
        if cur > prev {
            cur
        } else {
            prev
        }
    }
}

/// What one cancellation pass does to a letter's count: the accumulator
/// gains exactly the round's excess over the pending instances.
proof fn lemma_merge_count(acc: Seq<char>, stack: Seq<char>, round: Seq<char>, c: char)
    ensures
        count_in(merge_loop(acc, stack, round), c) == count_in(acc, c) + (if count_in(round, c)
            > count_in(stack, c) {
            count_in(round, c) - count_in(stack, c)
        } else {
            0
        }),
    decreases round.len(),
{
    if round.len() > 0 {
        let d = round[0];
        let rest = round.drop_first();
        lemma_contains_iff_count(stack, d);
        if stack.contains(d) {
            lemma_remove_one_counts(stack, d);
            lemma_merge_count(acc, remove_one(stack, d), rest, c);
        } else {
            lemma_merge_count(acc.push(d), stack, rest, c);
            crate::counting::lemma_count_push(acc, d, c);
        }
    }
}

/// The fold gives each letter exactly its largest per-round count: a letter
/// re-confirmed in a later round is cancelled, not double-counted, while a
/// genuine double letter within one round is owed twice.
pub proof fn lemma_required_count(h: Seq<Word>, c: char)
    ensures
        count_in(required(h), c) == max_round_count(h, c),
    decreases h.len(),
{
    if h.len() > 0 {
        lemma_required_count(h.drop_last(), c);
        let prev = required(h.drop_last());
        lemma_merge_count(prev, prev, round_chars(h.last()@), c);
    }
}

/// No single round's count exceeds the maximum.
pub proof fn lemma_max_round_lower(h: Seq<Word>, k: int, c: char)
    requires
        0 <= k < h.len(),
    ensures
        count_in(round_chars(h[k]@), c) <= max_round_count(h, c),
    decreases h.len(),
{
    if k == h.len() - 1 {
        assert(h.last() == h[k]);
    } else {
        assert(h.drop_last()[k] == h[k]);
        lemma_max_round_lower(h.drop_last(), k, c);
    }
}

/// Unfolding `merge_loop` by its first letter.
proof fn lemma_merge_unfold(acc: Seq<char>, stack: Seq<char>, c: char, rest: Seq<char>)
    ensures
        merge_loop(acc, stack, seq![c] + rest) == (if stack.contains(c) {
            merge_loop(acc, remove_one(stack, c), rest)
        } else {
            merge_loop(acc.push(c), stack, rest)
        }),
{
    let round = seq![c] + rest;
    assert(round[0] == c);
    assert(round.drop_first() =~= rest);
}

/// `round_chars` of a suffix peels off one position's contribution.
proof fn lemma_round_chars_skip(s: Seq<Letter>, i: int)
    requires
        0 <= i < s.len(),
    ensures
        round_chars(s.skip(i)) == required_part(s[i]) + round_chars(s.skip(i + 1)),
{
    let t = s.skip(i);
    assert(t[0] == s[i]);
    assert(t.drop_first() =~= s.skip(i + 1));
}

impl Wordl {
    /// Extract the required-letter multiset from the history: the letters
    /// marked `Hit` or `Contains`, folded round by round with duplicate
    /// cancellation, so that a letter re-confirmed in a later round does not
    /// double the requirement while a genuine double letter within one round
    /// does require two occurrences.
    pub fn make_contains(words: &Vec<Word>) -> (r: Vec<char>)
        ensures
            r@ == required(words@),
    {
        let mut acc: Vec<char> = Vec::new();
        let mut k: usize = 0;
        proof {
            assert(words@.subrange(0, 0) =~= Seq::<Word>::empty());
        }
        while k < words.len()
            invariant
                0 <= k <= words@.len(),
                acc@ == required(words@.subrange(0, k as int)),
            decreases words@.len() - k,
        {
            let ghost prev = acc@;
            let mut stack = copy_chars(&acc);
            let w: Word = words[k];
            let mut i: usize = 0;
            proof {
                assert(w@.skip(0) =~= w@);
            }
            while i < 5
                invariant
                    0 <= i <= 5,
                    w == words@[k as int],
                    0 <= k < words@.len(),
                    merge_loop(acc@, stack@, round_chars(w@.skip(i as int))) == merge_loop(
                        prev,
                        prev,
                        round_chars(w@),
                    ),
                decreases 5 - i,
            {
                let ghost round_left = round_chars(w@.skip(i as int));
                proof {
                    lemma_round_chars_skip(w@, i as int);
                }
                match w[i] {
                    Letter::Miss(_) => {
                        proof {
                            assert(round_left =~= round_chars(w@.skip(i as int + 1)));
                        }
                    },
                    Letter::Hit(c) => {
                        proof {
                            lemma_merge_unfold(acc@, stack@, c, round_chars(w@.skip(i as int + 1)));
                        }
                        if vec_contains_char(&stack, c) {
                            remove_first_char(&mut stack, c);
                        } else {
                            acc.push(c);
                        }
                    },
                    Letter::Contains(c) => {
                        proof {
                            lemma_merge_unfold(acc@, stack@, c, round_chars(w@.skip(i as int + 1)));
                        }
                        if vec_contains_char(&stack, c) {
                            remove_first_char(&mut stack, c);
                        } else {
                            acc.push(c);
                        }
                    },
                }
                i += 1;
            }
            proof {
                assert(w@.skip(5) =~= Seq::<Letter>::empty());
                assert(merge_loop(acc@, stack@, round_chars(w@.skip(5))) == acc@);
                let sub = words@.subrange(0, k as int + 1);
                assert(sub.drop_last() =~= words@.subrange(0, k as int));
                assert(sub.last() == words@[k as int]);
            }
            k += 1;
        }
        proof {
            assert(words@.subrange(0, words@.len() as int) =~= words@);
        }
        acc
    }

    /// For each position, the most recent confirmed `Hit` letter, if any;
    /// later rounds overwrite earlier ones.
    pub fn make_hits(words: &Vec<Word>) -> (r: [Option<char>; 5])
        ensures
            forall|i: int| 0 <= i < 5 ==> r@[i] == hits_at(words@, i),
    {
        let mut r: [Option<char>; 5] = [None, None, None, None, None];
        let mut k: usize = 0;
        proof {
            assert(words@.subrange(0, 0) =~= Seq::<Word>::empty());
        }
        while k < words.len()
            invariant
                0 <= k <= words@.len(),
                forall|i: int| 0 <= i < 5 ==> r@[i] == hits_at(words@.subrange(0, k as int), i),
            decreases words@.len() - k,
        {
            let w: Word = words[k];
            let mut i: usize = 0;
            while i < 5
                invariant
                    0 <= i <= 5,
                    w == words@[k as int],
                    0 <= k < words@.len(),
                    forall|t: int|
                        i <= t < 5 ==> r@[t] == hits_at(words@.subrange(0, k as int), t),
                    forall|t: int|
                        0 <= t < i ==> r@[t] == hits_at(words@.subrange(0, k as int + 1), t),
                decreases 5 - i,
            {
                proof {
                    let sub = words@.subrange(0, k as int + 1);
                    assert(sub.drop_last() =~= words@.subrange(0, k as int));
                    assert(sub.last() == words@[k as int]);
                }
                match w[i] {
                    Letter::Hit(c) => {
                        r[i] = Some(c);
                    },
                    _ => {},
                }
                i += 1;
            }
            k += 1;
        }
        proof {
            assert(words@.subrange(0, words@.len() as int) =~= words@);
        }
        r
    }

    /// For each position, the letters marked `Contains` there in some round:
    /// present in the solution, but confirmed wrong at that spot.
    pub fn make_excludes_at(words: &Vec<Word>) -> (r: Vec<Vec<char>>)
        ensures
            r@.len() == 5,
            forall|i: int, c: char|
                0 <= i < 5 ==> ((#[trigger] r@[i]@.contains(c)) <==> excluded_at(words@, i, c)),
    {
        let mut r: Vec<Vec<char>> = Vec::new();
        let mut i: usize = 0;
        while i < 5
            invariant
                r@.len() == i,
                0 <= i <= 5,
                forall|t: int, c: char|
                    0 <= t < i ==> ((#[trigger] r@[t]@.contains(c)) <==> excluded_at(
                        words@,
                        t,
                        c,
                    )),
            decreases 5 - i,
        {
            let mut row: Vec<char> = Vec::new();
            let mut k: usize = 0;
            while k < words.len()
                invariant
                    0 <= k <= words@.len(),
                    0 <= i < 5,
                    forall|c: char|
                        (#[trigger] row@.contains(c)) <==> exists|kk: int|
                            0 <= kk < k && (#[trigger] words@[kk])@[i as int] == Letter::Contains(
                                c,
                            ),
                decreases words@.len() - k,
            {
                let w: Word = words[k];
                let ghost old_row = row@;
                match w[i] {
                    Letter::Contains(c) => {
                        let already = vec_contains_char(&row, c);
                        if !already {
                            row.push(c);
                        }
                        proof {
                            assert forall|d: char| #[trigger]
                                row@.contains(d) == (old_row.contains(d) || d == c) by {
                                if !already {
                                    lemma_push_contains(old_row, c, d);
                                }
                            }
                            assert forall|d: char| #[trigger]
                                row@.contains(d) == (exists|kk: int|
                                    0 <= kk < k + 1 && (#[trigger] words@[kk])@[i as int]
                                        == Letter::Contains(d)) by {
                                if row@.contains(d) {
                                    if old_row.contains(d) {
                                        let kk = choose|kk: int|
                                            0 <= kk < k && (#[trigger] words@[kk])@[i as int]
                                                == Letter::Contains(d);
                                        assert(0 <= kk < k + 1 && words@[kk]@[i as int]
                                            == Letter::Contains(d));
                                    } else {
                                        assert(d == c);
                                        assert(words@[k as int]@[i as int] == Letter::Contains(d));
                                    }
                                }
                                if exists|kk: int|
                                    0 <= kk < k + 1 && (#[trigger] words@[kk])@[i as int]
                                        == Letter::Contains(d) {
                                    let kk = choose|kk: int|
                                        0 <= kk < k + 1 && (#[trigger] words@[kk])@[i as int]
                                            == Letter::Contains(d);
                                    if kk < k {
                                        assert(old_row.contains(d));
                                    } else {
                                        assert(d == c);
                                    }
                                    assert(row@.contains(d));
                                }
                            }
                        }
                    },
                    Letter::Hit(_) => {
                        proof {
                            assert forall|d: char| #[trigger]
                                row@.contains(d) == (exists|kk: int|
                                    0 <= kk < k + 1 && (#[trigger] words@[kk])@[i as int]
                                        == Letter::Contains(d)) by {
                                if exists|kk: int|
                                    0 <= kk < k + 1 && (#[trigger] words@[kk])@[i as int]
                                        == Letter::Contains(d) {
                                    let kk = choose|kk: int|
                                        0 <= kk < k + 1 && (#[trigger] words@[kk])@[i as int]
                                            == Letter::Contains(d);
                                    assert(kk != k);
                                    assert(old_row.contains(d));
                                }
                            }
                        }
                    },
                    Letter::Miss(_) => {
                        proof {
                            assert forall|d: char| #[trigger]
                                row@.contains(d) == (exists|kk: int|
                                    0 <= kk < k + 1 && (#[trigger] words@[kk])@[i as int]
                                        == Letter::Contains(d)) by {
                                if exists|kk: int|
                                    0 <= kk < k + 1 && (#[trigger] words@[kk])@[i as int]
                                        == Letter::Contains(d) {
                                    let kk = choose|kk: int|
                                        0 <= kk < k + 1 && (#[trigger] words@[kk])@[i as int]
                                            == Letter::Contains(d);
                                    assert(kk != k);
                                    assert(old_row.contains(d));
                                }
                            }
                        }
                    },
                }
                k += 1;
            }
            r.push(row);
            i += 1;
        }
        r
    }
}

} // verus!
