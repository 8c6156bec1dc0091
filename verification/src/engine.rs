//! The guessing session: a candidate dictionary plus the feedback history.

use vstd::prelude::*;
use crate::letter::{Word, WordlError, Status};
use crate::order::{lex_lt, str_lt, lemma_lex_total, lemma_lex_trans};
use crate::valid::accepts;
use crate::aggregate::hits_at;
use vstd::string::StrSliceExecFns;

verus! {

/// The character sequences of a list of words, in the same order.
pub open spec fn views(d: Seq<String>) -> Seq<Seq<char>> {
    d.map_values(|s: String| s@)
}

/// Whether some word of `d` reads as `w`.
pub open spec fn has_view(d: Seq<String>, w: Seq<char>) -> bool {
    exists|i: int| 0 <= i < d.len() && (#[trigger] d[i])@ == w
}

/// The acceptance test of history `h`, as a predicate value on word views.
pub open spec fn accepts_pred(h: Seq<Word>) -> spec_fn(Seq<char>) -> bool {
    |w: Seq<char>| accepts(h, w)
}

/// The words of `d`, in order, that the constraints of history `h` accept.
pub open spec fn surviving(d: Seq<String>, h: Seq<Word>) -> Seq<Seq<char>> {
    views(d).filter(accepts_pred(h))
}

/// Extending the word list by one word extends its surviving subsequence by
/// that word exactly when the constraints accept it.
proof fn lemma_surviving_step(d: Seq<String>, h: Seq<Word>, i: int)
    requires
        0 <= i < d.len(),
    ensures
        surviving(d.subrange(0, i + 1), h) == (if accepts(h, d[i]@) {
            surviving(d.subrange(0, i), h).push(d[i]@)
        } else {
            surviving(d.subrange(0, i), h)
        }),
{
    let s1 = views(d.subrange(0, i));
    let s2 = views(d.subrange(0, i + 1));
    assert(s2.drop_last() =~= s1);
    assert(s2.last() == d[i]@);
    assert(s2.len() == i + 1);
    reveal(Seq::filter);
}

/// The ranking score of candidate `w` against dictionary `d`: the sum, over
/// the five positions, of how many dictionary words share `w`'s letter
/// there.  Every position's total equals the dictionary size, so comparing
/// these sums orders words exactly as comparing mean relative frequencies.
pub open spec fn score(d: Seq<String>, w: Seq<char>) -> nat {
    crate::freq::col_count(d, 0, w[0]) + crate::freq::col_count(d, 1, w[1])
        + crate::freq::col_count(d, 2, w[2]) + crate::freq::col_count(d, 3, w[3])
        + crate::freq::col_count(d, 4, w[4])
}

/// The ranking order: higher score first, ties broken by lexicographic
/// order for reproducibility.
pub open spec fn ranks_before(d: Seq<String>, a: Seq<char>, b: Seq<char>) -> bool {
    score(d, a) > score(d, b) || (score(d, a) == score(d, b) && lex_lt(a, b))
}

/// The ranking order is total on distinct words.
pub proof fn lemma_ranks_total(d: Seq<String>, a: Seq<char>, b: Seq<char>)
    requires
        a != b,
    ensures
        ranks_before(d, a, b) || ranks_before(d, b, a),
{
    lemma_lex_total(a, b);
}

/// The ranking order is transitive.
pub proof fn lemma_ranks_trans(d: Seq<String>, a: Seq<char>, b: Seq<char>, c: Seq<char>)
    requires
        ranks_before(d, a, b),
        ranks_before(d, b, c),
    ensures
        ranks_before(d, a, c),
{
    if score(d, a) == score(d, b) && score(d, b) == score(d, c) {
        lemma_lex_trans(a, b, c);
    }
}

/// One guessing session.  The dictionary is seeded once and then only ever
/// shrinks; the guess history is append-only and chronological.
#[derive(Debug)]
pub struct Wordl {
    /// Candidate words, strictly sorted and therefore duplicate-free.
    pub dictionary: Vec<String>,
    /// Feedback records, one per round, in chronological order.
    pub guesses: Vec<Word>,
}

impl Wordl {
    /// The dictionary holds five-letter words only and is strictly sorted,
    /// which makes it duplicate-free.
    pub open spec fn wf(self) -> bool {
        &&& forall|i: int|
            0 <= i < self.dictionary@.len() ==> (#[trigger] self.dictionary@[i])@.len() == 5
        &&& forall|i: int, j: int|
            0 <= i < j < self.dictionary@.len() ==> lex_lt(
                self.dictionary@[i]@,
                self.dictionary@[j]@,
            )
    }

    /// Add one candidate word to the dictionary, keeping it sorted and
    /// duplicate-free.  A word of the wrong length is rejected; a word
    /// already present is reported without being added again.
    pub fn insert(&mut self, word: String) -> (r: Result<bool, WordlError>)
        requires
            old(self).wf(),
        ensures
            final(self).wf(),
            final(self).guesses@ == old(self).guesses@,
            match r {
                Err(e) => {
                    &&& e == WordlError::MalformedWord
                    &&& word@.len() != 5
                    &&& final(self).dictionary@ == old(self).dictionary@
                },
                Ok(false) => {
                    &&& word@.len() == 5
                    &&& has_view(old(self).dictionary@, word@)
                    &&& final(self).dictionary@ == old(self).dictionary@
                },
                Ok(true) => {
                    &&& word@.len() == 5
                    &&& !has_view(old(self).dictionary@, word@)
                    &&& exists|k: int|
                        0 <= k <= old(self).dictionary@.len() && final(self).dictionary@
                            == old(self).dictionary@.insert(k, word)
                },
            },
    {
        if word.as_str().unicode_len() != 5 {
            return Err(WordlError::MalformedWord);
        }
        let n = self.dictionary.len();
        let mut i: usize = 0;
        while i < n
            invariant
                0 <= i <= n,
                n == self.dictionary@.len(),
                *self == *old(self),
                old(self).wf(),
                word@.len() == 5,
                forall|t: int| 0 <= t < i ==> lex_lt((#[trigger] self.dictionary@[t])@, word@),
            decreases n - i,
        {
            if self.dictionary[i] == word {
                proof {
                    assert((self.dictionary@[i as int])@ == word@);
                    assert(has_view(self.dictionary@, word@));
                }
                return Ok(false);
            }
            if str_lt(word.as_str(), self.dictionary[i].as_str()) {
                let ghost d0 = self.dictionary@;
                self.dictionary.insert(i, word);
                proof {
                    let d1 = self.dictionary@;
                    assert(d1 == d0.insert(i as int, word));
                    d0.insert_ensures(i as int, word);
                    assert forall|t: int| 0 <= t < d0.len() implies (#[trigger] d0[t])@
                        != word@ by {
                        if t < i {
                            crate::order::lemma_lex_irrefl(word@);
                        } else {
                            if t > i {
                                lemma_lex_trans(word@, d0[i as int]@, d0[t]@);
                            }
                            crate::order::lemma_lex_irrefl(word@);
                        }
                    }
                    assert(!has_view(d0, word@));
                    assert(0 <= i as int <= d0.len() && d1 == d0.insert(i as int, word));
                    assert forall|a: int, b: int|
                        0 <= a < b < d1.len() implies lex_lt(
                        (#[trigger] d1[a])@,
                        (#[trigger] d1[b])@,
                    ) by {
                        if a < i && b == i {
                            assert(d1[a] == d0[a]);
                        } else if a == i {
                            assert(d0.insert(i as int, word)[(b - 1) + 1] == d0[b - 1]);
                            assert(d1[b] == d0[b - 1]);
                            assert(i <= b - 1);
                            if i < b - 1 {
                                lemma_lex_trans(word@, d0[i as int]@, d0[b - 1]@);
                            }
                        } else if a < i && b > i {
                            assert(d1[a] == d0[a]);
                            assert(d0.insert(i as int, word)[(b - 1) + 1] == d0[b - 1]);
                            assert(d1[b] == d0[b - 1]);
                        } else if a < i && b < i {
                            assert(d1[a] == d0[a]);
                            assert(d1[b] == d0[b]);
                        } else {
                            assert(d0.insert(i as int, word)[(a - 1) + 1] == d0[a - 1]);
                            assert(d0.insert(i as int, word)[(b - 1) + 1] == d0[b - 1]);
                            assert(d1[a] == d0[a - 1]);
                            assert(d1[b] == d0[b - 1]);
                        }
                    }
                    assert forall|a: int| 0 <= a < d1.len() implies (#[trigger] d1[a])@.len()
                        == 5 by {
                        if a < i {
                            assert(d1[a] == d0[a]);
                        } else if a > i {
                            assert(d0.insert(i as int, word)[(a - 1) + 1] == d0[a - 1]);
                            assert(d1[a] == d0[a - 1]);
                        }
                    }
                }
                return Ok(true);
            }
            proof {
                lemma_lex_total(self.dictionary@[i as int]@, word@);
            }
            i += 1;
        }
        let ghost d0 = self.dictionary@;
        self.dictionary.push(word);
        proof {
            let d1 = self.dictionary@;
            assert(d1 == d0.push(word));
            assert(d1 =~= d0.insert(d0.len() as int, word));
            d0.insert_ensures(d0.len() as int, word);
            assert forall|t: int| 0 <= t < d0.len() implies (#[trigger] d0[t])@ != word@ by {
                crate::order::lemma_lex_irrefl(word@);
            }
            assert(!has_view(d0, word@));
            assert(0 <= d0.len() as int <= d0.len() && d1 == d0.insert(d0.len() as int, word));
            assert forall|a: int, b: int|
                0 <= a < b < d1.len() implies lex_lt((#[trigger] d1[a])@, (#[trigger] d1[b])@) by {
                if b < d0.len() {
                    assert(d1[a] == d0[a]);
                    assert(d1[b] == d0[b]);
                } else {
                    assert(d1[a] == d0[a]);
                }
            }
            assert forall|a: int| 0 <= a < d1.len() implies (#[trigger] d1[a])@.len() == 5 by {
                if a < d0.len() {
                    assert(d1[a] == d0[a]);
                }
            }
        }
        Ok(true)
    }

    /// Record one round of feedback and retain only the candidate words the
    /// updated constraints accept.  Survivors keep their relative order.
    pub fn guess(&mut self, word: Word)
        requires
            old(self).wf(),
        ensures
            final(self).wf(),
            final(self).guesses@ == old(self).guesses@.push(word),
            views(final(self).dictionary@) == surviving(
                old(self).dictionary@,
                old(self).guesses@.push(word),
            ),
    {
        self.guesses.push(word);
        let valid = Wordl::make_is_valid(&self.guesses);
        let ghost h = self.guesses@;
        let ghost d0 = self.dictionary@;
        let mut kept: Vec<String> = Vec::new();
        let n = self.dictionary.len();
        let mut i: usize = 0;
        proof {
            assert(d0.subrange(0, 0) =~= Seq::<String>::empty());
            assert(views(d0.subrange(0, 0)) =~= Seq::<Seq<char>>::empty());
        }
        while i < n
            invariant
                0 <= i <= n,
                n == self.dictionary@.len(),
                self.dictionary@ == d0,
                h == self.guesses@,
                valid.wf(),
                valid.history@ == h,
                old(self).wf(),
                forall|t: int| 0 <= t < d0.len() ==> (#[trigger] d0[t])@.len() == 5,
                forall|a: int, b: int|
                    0 <= a < b < d0.len() ==> lex_lt((#[trigger] d0[a])@, (#[trigger] d0[b])@),
                views(kept@) == surviving(d0.subrange(0, i as int), h),
                forall|a: int|
                    0 <= a < kept@.len() ==> exists|j: int|
                        0 <= j < i && (#[trigger] kept@[a])@ == d0[j]@,
                forall|a: int, b: int|
                    0 <= a < b < kept@.len() ==> lex_lt((#[trigger] kept@[a])@, (#[trigger] kept@[b])@),
            decreases n - i,
        {
            let ghost s1 = views(d0.subrange(0, i as int));
            let ghost s2 = views(d0.subrange(0, i as int + 1));
            proof {
                assert(s2.drop_last() =~= s1);
                assert(s2.last() == d0[i as int]@);
            }
            let w = &self.dictionary[i];
            let ghost kept0 = kept@;
            proof {
                lemma_surviving_step(d0, h, i as int);
            }
            if valid.is_valid(w.as_str()) {
                kept.push(w.clone());
                proof {
                    assert(views(kept@) =~= views(kept0).push(d0[i as int]@));
                    assert forall|a: int| 0 <= a < kept@.len() implies exists|j: int|
                        0 <= j < i + 1 && (#[trigger] kept@[a])@ == d0[j]@ by {
                        if a < kept0.len() {
                            assert(kept@[a] == kept0[a]);
                            let j = choose|j: int| 0 <= j < i && kept0[a]@ == d0[j]@;
                            assert(0 <= j < i + 1 && kept@[a]@ == d0[j]@);
                        } else {
                            assert(kept@[a]@ == d0[i as int]@);
                        }
                    }
                    assert forall|a: int, b: int|
                        0 <= a < b < kept@.len() implies lex_lt(
                        (#[trigger] kept@[a])@,
                        (#[trigger] kept@[b])@,
                    ) by {
                        if b < kept0.len() {
                            assert(kept@[a] == kept0[a]);
                            assert(kept@[b] == kept0[b]);
                        } else {
                            assert(kept@[a] == kept0[a]);
                            let j = choose|j: int| 0 <= j < i && kept0[a]@ == d0[j]@;
                            assert(lex_lt(d0[j]@, d0[i as int]@));
                        }
                    }
                }
            } else {
                proof {
                    assert(views(kept@) == surviving(d0.subrange(0, i as int + 1), h));
                }
            }
            i += 1;
        }
        proof {
            assert(d0.subrange(0, n as int) =~= d0);
        }
        self.dictionary = kept;
    }

    /// Report whether the session is solved (every position confirmed),
    /// exhausted (no candidate left), or still in progress.
    pub fn status(&self) -> (r: Status)
        requires
            self.wf(),
        ensures
            (r == Status::Exhausted <==> self.dictionary@.len() == 0),
            (r == Status::Solved <==> (self.dictionary@.len() > 0 && forall|i: int|
                0 <= i < 5 ==> (#[trigger] hits_at(self.guesses@, i)) is Some)),
    {
        if self.dictionary.len() == 0 {
            return Status::Exhausted;
        }
        let hits = Wordl::make_hits(&self.guesses);
        let mut all = true;
        let mut i: usize = 0;
        while i < 5
            invariant
                0 <= i <= 5,
                forall|t: int| 0 <= t < 5 ==> hits@[t] == hits_at(self.guesses@, t),
                all <==> (forall|t: int| 0 <= t < i ==> (#[trigger] hits_at(self.guesses@, t)) is Some),
            decreases 5 - i,
        {
            match hits[i] {
                Some(_) => {},
                None => {
                    all = false;
                },
            }
            i += 1;
        }
        if all {
            Status::Solved
        } else {
            Status::InProgress
        }
    }
}

impl Default for Wordl {
    /// An empty session: no candidates loaded, no feedback yet.
    fn default() -> (r: Self)
        ensures
            r.dictionary@ == Seq::<String>::empty(),
            r.guesses@ == Seq::<Word>::empty(),
            r.wf(),
    {
        Wordl { dictionary: Vec::new(), guesses: Vec::new() }
    }
}

/// An element-for-element copy of a word list; each copy reads as its
/// original.
fn clone_strings(v: &Vec<String>) -> (r: Vec<String>)
    ensures
        r@.len() == v@.len(),
        forall|i: int| 0 <= i < v@.len() ==> (#[trigger] r@[i])@ == v@[i]@,
{
    let mut r: Vec<String> = Vec::new();
    let mut i: usize = 0;
    while i < v.len()
        invariant
            0 <= i <= v@.len(),
            r@.len() == i,
            forall|t: int| 0 <= t < i ==> (#[trigger] r@[t])@ == v@[t]@,
        decreases v@.len() - i,
    {
        r.push(v[i].clone());
        i += 1;
    }
    r
}

/// Sum the five positional frequency counts of `word`.
fn score_of(freq: &Vec<crate::freq::CharFreq>, word: &str, d: Ghost<Seq<String>>) -> (r: u128)
    requires
        freq@.len() == 5,
        word@.len() == 5,
        forall|i: int, c: char|
            0 <= i < 5 ==> #[trigger] crate::freq::pairs_count(freq@[i].counts@, c)
                == crate::freq::col_count(d@, i, c),
    ensures
        r == score(d@, word@),
{
    let c0 = freq[0].count(word.get_char(0));
    let c1 = freq[1].count(word.get_char(1));
    let c2 = freq[2].count(word.get_char(2));
    let c3 = freq[3].count(word.get_char(3));
    let c4 = freq[4].count(word.get_char(4));
    (c0 as u128) + (c1 as u128) + (c2 as u128) + (c3 as u128) + (c4 as u128)
}

/// Whether `a` is ranked ahead of `b`: higher score first, then
/// lexicographic order.
fn ranks_first(
    freq: &Vec<crate::freq::CharFreq>,
    a: &String,
    b: &String,
    d: Ghost<Seq<String>>,
) -> (r: bool)
    requires
        freq@.len() == 5,
        a@.len() == 5,
        b@.len() == 5,
        forall|i: int, c: char|
            0 <= i < 5 ==> #[trigger] crate::freq::pairs_count(freq@[i].counts@, c)
                == crate::freq::col_count(d@, i, c),
    ensures
        r == ranks_before(d@, a@, b@),
{
    let sa = score_of(freq, a.as_str(), d);
    let sb = score_of(freq, b.as_str(), d);
    if sa > sb {
        true
    } else if sa < sb {
        false
    } else {
        str_lt(a.as_str(), b.as_str())
    }
}

impl Wordl {
    /// Rank the remaining candidates by positional letter frequency over the
    /// current dictionary (ties broken by natural word order) and return the
    /// best `upto` of them; an exhausted dictionary is reported as an error
    /// rather than as an empty list.
    pub fn suggest(&self, upto: usize) -> (r: Result<Vec<String>, WordlError>)
        requires
            self.wf(),
        ensures
            match r {
                Err(e) => e == WordlError::ExhaustedCandidates && self.dictionary@.len() == 0,
                Ok(v) => {
                    let d = self.dictionary@;
                    &&& d.len() > 0
                    &&& v@.len() == (if (upto as int) <= d.len() {
                        upto as int
                    } else {
                        d.len() as int
                    })
                    &&& forall|i: int| 0 <= i < v@.len() ==> has_view(d, (#[trigger] v@[i])@)
                    &&& forall|i: int, j: int|
                        0 <= i < j < v@.len() ==> ranks_before(
                            d,
                            (#[trigger] v@[i])@,
                            (#[trigger] v@[j])@,
                        )
                    &&& forall|i: int, j: int|
                        0 <= i < v@.len() && 0 <= j < d.len() && !has_view(v@, (#[trigger] d[j])@)
                            ==> ranks_before(d, (#[trigger] v@[i])@, d[j]@)
                },
            },
    {
        let n = self.dictionary.len();
        if n == 0 {
            return Err(WordlError::ExhaustedCandidates);
        }
        let freq = Wordl::make_char_frequency(&self.dictionary);
        let ghost d = self.dictionary@;
        let mut remaining = clone_strings(&self.dictionary);
        let mut out: Vec<String> = Vec::new();
        proof {
            assert forall|j: int| 0 <= j < d.len() implies has_view(remaining@, (#[trigger] d[j])@)
                || has_view(out@, d[j]@) by {
                assert(remaining@[j]@ == d[j]@);
            }
            assert forall|a: int, b: int|
                0 <= a < b < remaining@.len() implies lex_lt(
                (#[trigger] remaining@[a])@,
                (#[trigger] remaining@[b])@,
            ) by {
                assert(remaining@[a]@ == d[a]@);
                assert(remaining@[b]@ == d[b]@);
            }
            assert forall|a: int| 0 <= a < remaining@.len() implies has_view(
                d,
                (#[trigger] remaining@[a])@,
            ) by {
                assert(remaining@[a]@ == d[a]@);
            }
        }
        while out.len() < upto && remaining.len() > 0
            invariant
                d == self.dictionary@,
                self.wf(),
                freq@.len() == 5,
                forall|i: int, c: char|
                    0 <= i < 5 ==> #[trigger] crate::freq::pairs_count(freq@[i].counts@, c)
                        == crate::freq::col_count(d, i, c),
                out@.len() + remaining@.len() == d.len(),
                out@.len() <= upto,
                forall|a: int| 0 <= a < remaining@.len() ==> has_view(d, (#[trigger] remaining@[a])@),
                forall|a: int| 0 <= a < out@.len() ==> has_view(d, (#[trigger] out@[a])@),
                forall|a: int|
                    0 <= a < remaining@.len() ==> (#[trigger] remaining@[a])@.len() == 5,
                forall|a: int| 0 <= a < out@.len() ==> (#[trigger] out@[a])@.len() == 5,
                forall|a: int, b: int|
                    0 <= a < b < remaining@.len() ==> lex_lt(
                        (#[trigger] remaining@[a])@,
                        (#[trigger] remaining@[b])@,
                    ),
                forall|j: int|
                    0 <= j < d.len() ==> has_view(out@, (#[trigger] d[j])@) || has_view(
                        remaining@,
                        d[j]@,
                    ),
                forall|a: int, b: int|
                    0 <= a < out@.len() && 0 <= b < remaining@.len() ==> ranks_before(
                        d,
                        (#[trigger] out@[a])@,
                        (#[trigger] remaining@[b])@,
                    ),
                forall|a: int, b: int|
                    0 <= a < b < out@.len() ==> ranks_before(
                        d,
                        (#[trigger] out@[a])@,
                        (#[trigger] out@[b])@,
                    ),
            decreases remaining@.len(),
        {
            let mut best: usize = 0;
            let mut t: usize = 1;
            while t < remaining.len()
                invariant
                    1 <= t <= remaining@.len(),
                    0 <= best < t,
                    freq@.len() == 5,
                    forall|i: int, c: char|
                        0 <= i < 5 ==> #[trigger] crate::freq::pairs_count(freq@[i].counts@, c)
                            == crate::freq::col_count(d, i, c),
                    forall|a: int|
                        0 <= a < remaining@.len() ==> (#[trigger] remaining@[a])@.len() == 5,
                    forall|a: int, b: int|
                        0 <= a < b < remaining@.len() ==> lex_lt(
                            (#[trigger] remaining@[a])@,
                            (#[trigger] remaining@[b])@,
                        ),
                    forall|a: int|
                        0 <= a < t && a != best ==> ranks_before(
                            d,
                            remaining@[best as int]@,
                            (#[trigger] remaining@[a])@,
                        ),
                decreases remaining@.len() - t,
            {
                if ranks_first(&freq, &remaining[t], &remaining[best], Ghost(d)) {
                    proof {
                        assert forall|a: int| 0 <= a < t + 1 && a != t implies ranks_before(
                            d,
                            remaining@[t as int]@,
                            (#[trigger] remaining@[a])@,
                        ) by {
                            if a != best {
                                lemma_ranks_trans(
                                    d,
                                    remaining@[t as int]@,
                                    remaining@[best as int]@,
                                    remaining@[a]@,
                                );
                            }
                        }
                    }
                    best = t;
                } else {
                    proof {
                        let va = remaining@[best as int]@;
                        let vb = remaining@[t as int]@;
                        assert(lex_lt(va, vb));
                        if va == vb {
                            crate::order::lemma_lex_irrefl(va);
                        }
                        lemma_ranks_total(d, va, vb);
                    }
                }
                t += 1;
            }
            let ghost rem0 = remaining@;
            let ghost out0 = out@;
            let picked = remaining.remove(best);
            out.push(picked);
            proof {
                let rem1 = remaining@;
                let out1 = out@;
                let b = best as int;
                assert(rem1 == rem0.remove(b));
                assert(rem1 =~= rem0.subrange(0, b) + rem0.subrange(b + 1, rem0.len() as int));
                assert(out1 == out0.push(rem0[b]));
                assert forall|a: int| 0 <= a < rem1.len() implies #[trigger] rem1[a]
                    == (if a < b {
                    rem0[a]
                } else {
                    rem0[a + 1]
                }) by {}
                assert forall|j: int| 0 <= j < d.len() implies has_view(out1, (#[trigger] d[j])@)
                    || has_view(rem1, d[j]@) by {
                    if !has_view(out0, d[j]@) {
                        let a = choose|a: int| 0 <= a < rem0.len() && (#[trigger] rem0[a])@ == d[j]@;
                        if a == b {
                            assert(out1[out0.len() as int]@ == d[j]@);
                        } else if a < b {
                            assert(rem1[a]@ == d[j]@);
                        } else {
                            assert(rem1[a - 1]@ == d[j]@);
                        }
                    } else {
                        let a = choose|a: int| 0 <= a < out0.len() && (#[trigger] out0[a])@ == d[j]@;
                        assert(out1[a]@ == d[j]@);
                    }
                }
                assert forall|a: int, bb: int|
                    0 <= a < out1.len() && 0 <= bb < rem1.len() implies ranks_before(
                    d,
                    (#[trigger] out1[a])@,
                    (#[trigger] rem1[bb])@,
                ) by {
                    let x = if bb < b {
                        bb
                    } else {
                        bb + 1
                    };
                    assert(rem1[bb] == rem0[x]);
                    if a < out0.len() {
                        assert(out1[a] == out0[a]);
                        assert(ranks_before(d, out0[a]@, rem0[x]@));
                    } else {
                        assert(out1[a] == rem0[b]);
                        assert(x != b);
                        assert(ranks_before(d, rem0[b]@, rem0[x]@));
                    }
                }
                assert forall|a: int, bb: int| 0 <= a < bb < out1.len() implies ranks_before(
                    d,
                    (#[trigger] out1[a])@,
                    (#[trigger] out1[bb])@,
                ) by {
                    if bb < out0.len() {
                        assert(out1[a] == out0[a]);
                        assert(out1[bb] == out0[bb]);
                    } else {
                        assert(out1[a] == out0[a]);
                        assert(out1[bb] == rem0[b]);
                        assert(ranks_before(d, out0[a]@, rem0[b]@));
                    }
                }
                assert forall|a: int| 0 <= a < out1.len() implies has_view(
                    d,
                    (#[trigger] out1[a])@,
                ) by {
                    if a < out0.len() {
                        assert(out1[a] == out0[a]);
                    } else {
                        assert(out1[a] == rem0[b]);
                    }
                }
                assert forall|a: int| 0 <= a < out1.len() implies (#[trigger] out1[a])@.len()
                    == 5 by {
                    if a < out0.len() {
                        assert(out1[a] == out0[a]);
                    } else {
                        assert(out1[a] == rem0[b]);
                    }
                }
                assert forall|a: int, bb: int| 0 <= a < bb < rem1.len() implies lex_lt(
                    (#[trigger] rem1[a])@,
                    (#[trigger] rem1[bb])@,
                ) by {
                    let x = if a < b {
                        a
                    } else {
                        a + 1
                    };
                    let y = if bb < b {
                        bb
                    } else {
                        bb + 1
                    };
                    assert(rem1[a] == rem0[x]);
                    assert(rem1[bb] == rem0[y]);
                    assert(x < y);
                }
            }
        }
        proof {
            assert forall|i: int, j: int|
                0 <= i < out@.len() && 0 <= j < d.len() && !has_view(
                    out@,
                    (#[trigger] d[j])@,
                ) implies ranks_before(d, (#[trigger] out@[i])@, d[j]@) by {
                assert(has_view(remaining@, d[j]@));
                let a = choose|a: int|
                    0 <= a < remaining@.len() && (#[trigger] remaining@[a])@ == d[j]@;
                assert(ranks_before(d, out@[i]@, remaining@[a]@));
            }
        }
        Ok(out)
    }
}

/// Whether `w` agrees with every confirmed hit of the history.
pub open spec fn hits_consistent(h: Seq<Word>, w: Seq<char>) -> bool {
    forall|i: int|
        0 <= i < 5 ==> (match #[trigger] hits_at(h, i) {
            Some(c) => w[i] == c,
            None => true,
        })
}

/// Whether some confirmed hit names the letter `c`.
pub open spec fn hit_letter(h: Seq<Word>, c: char) -> bool {
    exists|i: int| 0 <= i < 5 && #[trigger] hits_at(h, i) == Some(c)
}

/// Whether position `i` of `w` holds the first occurrence of a letter that
/// is neither confirmed correct anywhere nor marked absent: guessing it
/// would bring new information.
pub open spec fn fresh_at(h: Seq<Word>, w: Seq<char>, i: int) -> bool {
    &&& forall|t: int| 0 <= t < i ==> w[t] != w[i]
    &&& !hit_letter(h, w[i])
    &&& !crate::aggregate::missed(h, w[i])
}

/// How many of the first `n` positions of `w` are fresh.
pub open spec fn fresh_count(h: Seq<Word>, w: Seq<char>, n: int) -> nat
    decreases n,
{
    if n <= 0 {
        0
    } else {
        fresh_count(h, w, n - 1) + (if fresh_at(h, w, n - 1) {
            1nat
        } else {
            0nat
        })
    }
}

/// How many of the first `n` positions of `w` match a confirmed hit.
pub open spec fn hit_match_count(h: Seq<Word>, w: Seq<char>, n: int) -> nat
    decreases n,
{
    if n <= 0 {
        0
    } else {
        hit_match_count(h, w, n - 1) + (if hits_at(h, n - 1) == Some(w[n - 1]) {
            1nat
        } else {
            0nat
        })
    }
}

/// The overlap/uniqueness score: five points for each distinct letter not
/// yet known-correct and not yet excluded, plus one point for each position
/// matching a confirmed hit.
pub open spec fn overlap_score(h: Seq<Word>, w: Seq<char>) -> nat {
    5 * fresh_count(h, w, 5) + hit_match_count(h, w, 5)
}

/// Whether `word` agrees with every confirmed hit of the compiled snapshot.
fn hits_consistent_exec(v: &crate::valid::Validity, word: &str) -> (r: bool)
    requires
        v.wf(),
        word@.len() == 5,
    ensures
        r == hits_consistent(v.history@, word@),
{
    let mut i: usize = 0;
    while i < 5
        invariant
            0 <= i <= 5,
            v.wf(),
            word@.len() == 5,
            forall|t: int|
                0 <= t < i ==> (match #[trigger] hits_at(v.history@, t) {
                    Some(c) => word@[t] == c,
                    None => true,
                }),
        decreases 5 - i,
    {
        let c = word.get_char(i);
        match v.hits[i] {
            Some(hc) => {
                if hc != c {
                    proof {
                        assert(hits_at(v.history@, i as int) == Some(hc));
                        assert(!hits_consistent(v.history@, word@));
                    }
                    return false;
                }
            },
            None => {},
        }
        i += 1;
    }
    true
}

/// Compute the overlap/uniqueness score of `word`.
fn overlap_score_of(v: &crate::valid::Validity, word: &str) -> (r: u64)
    requires
        v.wf(),
        word@.len() == 5,
    ensures
        r == overlap_score(v.history@, word@),
{
    let ghost h = v.history@;
    let mut fresh: u64 = 0;
    let mut matched: u64 = 0;
    let mut i: usize = 0;
    while i < 5
        invariant
            0 <= i <= 5,
            v.wf(),
            word@.len() == 5,
            h == v.history@,
            fresh == fresh_count(h, word@, i as int),
            matched == hit_match_count(h, word@, i as int),
            fresh <= i,
            matched <= i,
        decreases 5 - i,
    {
        let c = word.get_char(i);
        let mut dup = false;
        let mut t: usize = 0;
        while t < i
            invariant
                0 <= t <= i <= 5,
                word@.len() == 5,
                c == word@[i as int],
                dup == !(forall|x: int| 0 <= x < t ==> word@[x] != c),
            decreases i - t,
        {
            if word.get_char(t) == c {
                dup = true;
            }
            t += 1;
        }
        let mut ishit = false;
        let mut t2: usize = 0;
        while t2 < 5
            invariant
                0 <= t2 <= 5,
                v.wf(),
                h == v.history@,
                ishit == exists|x: int| 0 <= x < t2 && #[trigger] hits_at(h, x) == Some(c),
            decreases 5 - t2,
        {
            match v.hits[t2] {
                Some(hc) => {
                    if hc == c {
                        ishit = true;
                        proof {
                            assert(hits_at(h, t2 as int) == Some(c));
                        }
                    }
                },
                None => {},
            }
            t2 += 1;
        }
        let ismiss = crate::counting::vec_contains_char(&v.misses, c);
        if !dup && !ishit && !ismiss {
            fresh = fresh + 1;
        }
        proof {
            assert((!dup && !ishit && !ismiss) == fresh_at(h, word@, i as int));
        }
        match v.hits[i] {
            Some(hc) => {
                if hc == c {
                    matched = matched + 1;
                }
            },
            None => {},
        }
        i += 1;
    }
    5 * fresh + matched
}

impl Wordl {
    /// The interactive ranking policy: among the candidates still consistent
    /// with the confirmed hits, pick the one scoring highest on unseen
    /// distinct letters plus hit overlap; ties go to the first candidate in
    /// dictionary order, which is the lexicographically least.
    pub fn suggest_overlap(&self) -> (r: Result<String, WordlError>)
        requires
            self.wf(),
        ensures
            match r {
                Err(e) => {
                    &&& e == WordlError::ExhaustedCandidates
                    &&& forall|j: int|
                        0 <= j < self.dictionary@.len() ==> !hits_consistent(
                            self.guesses@,
                            (#[trigger] self.dictionary@[j])@,
                        )
                },
                Ok(s) => {
                    let d = self.dictionary@;
                    let h = self.guesses@;
                    &&& s@.len() == 5
                    &&& has_view(d, s@)
                    &&& hits_consistent(h, s@)
                    &&& forall|j: int|
                        0 <= j < d.len() && hits_consistent(h, (#[trigger] d[j])@)
                            ==> overlap_score(h, s@) >= overlap_score(h, d[j]@)
                    &&& forall|j: int|
                        0 <= j < d.len() && hits_consistent(h, (#[trigger] d[j])@)
                            && overlap_score(h, d[j]@) == overlap_score(h, s@) && d[j]@ != s@
                            ==> lex_lt(s@, d[j]@)
                },
            },
    {
        let valid = Wordl::make_is_valid(&self.guesses);
        let ghost h = self.guesses@;
        let ghost d = self.dictionary@;
        let mut best: usize = 0;
        let mut best_score: u64 = 0;
        let mut found = false;
        let mut j: usize = 0;
        let n = self.dictionary.len();
        while j < n
            invariant
                0 <= j <= n,
                n == self.dictionary@.len(),
                self.wf(),
                valid.wf(),
                valid.history@ == h,
                h == self.guesses@,
                d == self.dictionary@,
                !found ==> forall|t: int|
                    0 <= t < j ==> !hits_consistent(h, (#[trigger] d[t])@),
                found ==> 0 <= best < j,
                found ==> hits_consistent(h, d[best as int]@),
                found ==> best_score == overlap_score(h, d[best as int]@),
                found ==> forall|t: int|
                    0 <= t < j && hits_consistent(h, (#[trigger] d[t])@) ==> overlap_score(
                        h,
                        d[t]@,
                    ) <= best_score,
                found ==> forall|t: int|
                    0 <= t < best && hits_consistent(h, (#[trigger] d[t])@) ==> overlap_score(
                        h,
                        d[t]@,
                    ) < best_score,
            decreases n - j,
        {
            let w = &self.dictionary[j];
            if hits_consistent_exec(&valid, w.as_str()) {
                let sc = overlap_score_of(&valid, w.as_str());
                if !found || sc > best_score {
                    best = j;
                    best_score = sc;
                    found = true;
                }
            }
            j += 1;
        }
        if !found {
            return Err(WordlError::ExhaustedCandidates);
        }
        let s = self.dictionary[best].clone();
        proof {
            assert(s@ == d[best as int]@);
            assert forall|t: int|
                0 <= t < d.len() && hits_consistent(h, (#[trigger] d[t])@) && overlap_score(
                    h,
                    d[t]@,
                ) == overlap_score(h, s@) && d[t]@ != s@ implies lex_lt(s@, d[t]@) by {
                if t < best {
                    assert(false);
                } else if t == best {
                    assert(false);
                } else {
                    assert(lex_lt(d[best as int]@, d[t]@));
                }
            }
        }
        Ok(s)
    }
}

} // verus!
