//! The validity predicate: a snapshot of the four derived constraint sets,
//! compiled once per round and then evaluated against any number of
//! candidate words.

use vstd::prelude::*;
use crate::letter::{Letter, Word, WordlError};
use crate::counting::{
    count_in, remove_one, vec_contains_char, remove_first_char, copy_chars,
    lemma_remove_one_counts, lemma_contains_iff_count, lemma_push_contains,
};
use crate::aggregate::{required, hits_at, missed, excluded_at};
use crate::engine::Wordl;
use vstd::string::StrSliceExecFns;

verus! {

/// Scan `w` left to right, cancelling against `pending`: each character
/// consumes one pending instance of itself, if one is left.  The result is
/// what remains owed after the whole word has been scanned.
pub open spec fn consume(pending: Seq<char>, w: Seq<char>) -> Seq<char>
    decreases w.len(),
{
    if w.len() == 0 {
        pending
    } else if pending.contains(w[0]) {
        consume(remove_one(pending, w[0]), w.drop_first())
    } else {
        consume(pending, w.drop_first())
    }
}

/// The per-position checks of the predicate, each evaluated independently:
/// the candidate letter must agree with a confirmed hit, must not be a
/// letter marked absent anywhere, and must not be excluded at this
/// position.
pub open spec fn pos_ok(h: Seq<Word>, w: Seq<char>, i: int) -> bool {
    &&& match hits_at(h, i) {
        Some(hc) => w[i] == hc,
        None => true,
    }
    &&& !missed(h, w[i])
    &&& !excluded_at(h, i, w[i])
}

/// Whether the history's constraints accept the candidate word `w`: every
/// position passes its checks, and the word supplies every letter of the
/// required multiset, with multiplicity.
pub open spec fn accepts(h: Seq<Word>, w: Seq<char>) -> bool {
    &&& w.len() == 5
    &&& forall|i: int| 0 <= i < 5 ==> pos_ok(h, w, i)
    &&& forall|c: char| #[trigger] count_in(required(h), c) <= count_in(w, c)
}

/// The consuming scan ends with nothing owed exactly when the word contains
/// every pending letter with at least its pending multiplicity.
pub proof fn lemma_consume_empty_iff(p: Seq<char>, w: Seq<char>)
    ensures
        (consume(p, w).len() == 0) <==> (forall|c: char| #[trigger]
            count_in(p, c) <= count_in(w, c)),
    decreases w.len(),
{
    if w.len() == 0 {
        if p.len() > 0 {
            assert(p.contains(p[0]));
            lemma_contains_iff_count(p, p[0]);
            assert(!(count_in(p, p[0]) <= count_in(w, p[0])));
        } else {
            assert forall|c: char| #[trigger] count_in(p, c) <= count_in(w, c) by {}
        }
    } else {
        let c0 = w[0];
        let w1 = w.drop_first();
        if p.contains(c0) {
            let p1 = remove_one(p, c0);
            lemma_remove_one_counts(p, c0);
            lemma_consume_empty_iff(p1, w1);
            assert(consume(p, w) == consume(p1, w1));
            if forall|c: char| #[trigger] count_in(p1, c) <= count_in(w1, c) {
                assert forall|c: char| #[trigger] count_in(p, c) <= count_in(w, c) by {
                    assert(count_in(p1, c) <= count_in(w1, c));
                }
            } else {
                let c = choose|c: char| !(#[trigger] count_in(p1, c) <= count_in(w1, c));
                assert(!(count_in(p, c) <= count_in(w, c)));
            }
        } else {
            lemma_contains_iff_count(p, c0);
            lemma_consume_empty_iff(p, w1);
            assert(consume(p, w) == consume(p, w1));
            if forall|c: char| #[trigger] count_in(p, c) <= count_in(w1, c) {
                assert forall|c: char| #[trigger] count_in(p, c) <= count_in(w, c) by {
                    assert(count_in(p, c) <= count_in(w1, c));
                }
            } else {
                let c = choose|c: char| !(#[trigger] count_in(p, c) <= count_in(w1, c));
                assert(count_in(p, c0) == 0);
                assert(!(count_in(p, c) <= count_in(w, c)));
            }
        }
    }
}

/// One step of the consuming scan, peeling position `i` of the word.
proof fn lemma_consume_skip_step(pending: Seq<char>, w: Seq<char>, i: int)
    requires
        0 <= i < w.len(),
    ensures
        consume(pending, w.skip(i)) == (if pending.contains(w[i]) {
            consume(remove_one(pending, w[i]), w.skip(i + 1))
        } else {
            consume(pending, w.skip(i + 1))
        }),
{
    let t = w.skip(i);
    assert(t[0] == w[i]);
    assert(t.drop_first() =~= w.skip(i + 1));
}

/// A compiled validity predicate: an immutable snapshot of the constraints
/// derived from one guess history.  Evaluation mutates only a local working
/// copy of the required multiset, so one snapshot can serve many words.
pub struct Validity {
    /// The required-letter multiset, in extraction order.
    pub required: Vec<char>,
    /// Letters marked `Miss` somewhere in the history.
    pub misses: Vec<char>,
    /// The confirmed letter per position, if any.
    pub hits: [Option<char>; 5],
    /// Per position, the letters confirmed wrong right there.
    pub excludes_at: Vec<Vec<char>>,
    /// The history the snapshot was compiled from.
    pub history: Ghost<Seq<Word>>,
}

impl Validity {
    /// Each stored constraint set agrees with the aggregate of the history.
    pub open spec fn wf(self) -> bool {
        &&& self.required@ == required(self.history@)
        &&& forall|c: char| (#[trigger] self.misses@.contains(c)) <==> missed(self.history@, c)
        &&& forall|i: int| 0 <= i < 5 ==> self.hits@[i] == hits_at(self.history@, i)
        &&& self.excludes_at@.len() == 5
        &&& forall|i: int, c: char|
            0 <= i < 5 ==> ((#[trigger] self.excludes_at@[i]@.contains(c)) <==> excluded_at(
                self.history@,
                i,
                c,
            ))
    }

    /// Evaluate the predicate on a five-letter candidate word.
    pub fn is_valid(&self, word: &str) -> (r: bool)
        requires
            self.wf(),
            word@.len() == 5,
        ensures
            r == accepts(self.history@, word@),
    {
        let ghost h = self.history@;
        let mut pending = copy_chars(&self.required);
        let mut i: usize = 0;
        proof {
            assert(word@.skip(0) =~= word@);
        }
        while i < 5
            invariant
                0 <= i <= 5,
                self.wf(),
                word@.len() == 5,
                h == self.history@,
                consume(self.required@, word@) == consume(pending@, word@.skip(i as int)),
                forall|t: int| 0 <= t < i ==> pos_ok(h, word@, t),
            decreases 5 - i,
        {
            let c = word.get_char(i);
            proof {
                lemma_consume_skip_step(pending@, word@, i as int);
            }
            if vec_contains_char(&pending, c) {
                remove_first_char(&mut pending, c);
            }
            match self.hits[i] {
                Some(hc) => {
                    if hc != c {
                        proof {
                            assert(!pos_ok(h, word@, i as int));
                        }
                        return false;
                    }
                },
                None => {},
            }
            if vec_contains_char(&self.misses, c) {
                proof {
                    assert(!pos_ok(h, word@, i as int));
                }
                return false;
            }
            if vec_contains_char(&self.excludes_at[i], c) {
                proof {
                    assert(!pos_ok(h, word@, i as int));
                }
                return false;
            }
            i += 1;
        }
        let r = pending.len() == 0;
        proof {
            assert(word@.skip(5) =~= Seq::<char>::empty());
            assert(consume(self.required@, word@) == pending@);
            lemma_consume_empty_iff(self.required@, word@);
        }
        r
    }

    /// Evaluate the predicate on a word of any length, surfacing a malformed
    /// candidate as an error instead of a silent verdict.
    pub fn check_word(&self, word: &str) -> (r: Result<bool, WordlError>)
        requires
            self.wf(),
        ensures
            match r {
                Ok(b) => word@.len() == 5 && b == accepts(self.history@, word@),
                Err(e) => word@.len() != 5 && e == WordlError::MalformedWord,
            },
    {
        if word.unicode_len() != 5 {
            return Err(WordlError::MalformedWord);
        }
        Ok(self.is_valid(word))
    }
}

/// Collect the letters marked `Miss` anywhere in the history, each once.
fn collect_misses(words: &Vec<Word>) -> (r: Vec<char>)
    ensures
        forall|c: char| (#[trigger] r@.contains(c)) <==> missed(words@, c),
{
    let mut out: Vec<char> = Vec::new();
    let mut k: usize = 0;
    while k < words.len()
        invariant
            0 <= k <= words@.len(),
            forall|c: char|
                (#[trigger] out@.contains(c)) <==> missed(words@.subrange(0, k as int), c),
        decreases words@.len() - k,
    {
        let ghost sub0 = words@.subrange(0, k as int);
        let ghost sub1 = words@.subrange(0, k as int + 1);
        let w: Word = words[k];
        let mut i: usize = 0;
        while i < 5
            invariant
                0 <= i <= 5,
                0 <= k < words@.len(),
                w == words@[k as int],
                sub0 == words@.subrange(0, k as int),
                forall|c: char|
                    (#[trigger] out@.contains(c)) <==> (missed(sub0, c) || exists|t: int|
                        0 <= t < i && w@[t] == Letter::Miss(c)),
            decreases 5 - i,
        {
            let ghost old_out = out@;
            match w[i] {
                Letter::Miss(c) => {
                    let already = vec_contains_char(&out, c);
                    if !already {
                        out.push(c);
                    }
                    proof {
                        assert forall|d: char| #[trigger]
                            out@.contains(d) == (old_out.contains(d) || d == c) by {
                            if !already {
                                lemma_push_contains(old_out, c, d);
                            }
                        }
                        assert forall|d: char| #[trigger]
                            out@.contains(d) == (missed(sub0, d) || exists|t: int|
                                0 <= t < i + 1 && w@[t] == Letter::Miss(d)) by {
                            if out@.contains(d) {
                                if !(old_out.contains(d)) {
                                    assert(w@[i as int] == Letter::Miss(d));
                                }
                            }
                            if exists|t: int| 0 <= t < i + 1 && w@[t] == Letter::Miss(d) {
                                let t = choose|t: int| 0 <= t < i + 1 && w@[t] == Letter::Miss(d);
                                if t < i {
                                    assert(old_out.contains(d));
                                } else {
                                    assert(d == c);
                                }
                                assert(out@.contains(d));
                            }
                        }
                    }
                },
                Letter::Hit(_) => {
                    proof {
                        assert forall|d: char| #[trigger]
                            out@.contains(d) == (missed(sub0, d) || exists|t: int|
                                0 <= t < i + 1 && w@[t] == Letter::Miss(d)) by {
                            if exists|t: int| 0 <= t < i + 1 && w@[t] == Letter::Miss(d) {
                                let t = choose|t: int| 0 <= t < i + 1 && w@[t] == Letter::Miss(d);
                                assert(t != i);
                            }
                        }
                    }
                },
                Letter::Contains(_) => {
                    proof {
                        assert forall|d: char| #[trigger]
                            out@.contains(d) == (missed(sub0, d) || exists|t: int|
                                0 <= t < i + 1 && w@[t] == Letter::Miss(d)) by {
                            if exists|t: int| 0 <= t < i + 1 && w@[t] == Letter::Miss(d) {
                                let t = choose|t: int| 0 <= t < i + 1 && w@[t] == Letter::Miss(d);
                                assert(t != i);
                            }
                        }
                    }
                },
            }
            i += 1;
        }
        proof {
            assert forall|d: char| #[trigger]
                out@.contains(d) == missed(sub1, d) by {
                if out@.contains(d) {
                    if missed(sub0, d) {
                        let (kk, ii) = choose|kk: int, ii: int|
                            0 <= kk < sub0.len() && 0 <= ii < 5 && sub0[kk]@[ii] == Letter::Miss(d);
                        assert(sub1[kk] == sub0[kk]);
                        assert(sub1[kk]@[ii] == Letter::Miss(d));
                    } else {
                        let t = choose|t: int| 0 <= t < 5 && w@[t] == Letter::Miss(d);
                        assert(sub1[k as int] == words@[k as int]);
                        assert(sub1[k as int]@[t] == Letter::Miss(d));
                    }
                }
                if missed(sub1, d) {
                    let (kk, ii) = choose|kk: int, ii: int|
                        0 <= kk < sub1.len() && 0 <= ii < 5 && sub1[kk]@[ii] == Letter::Miss(d);
                    if kk < k {
                        assert(sub0[kk] == sub1[kk]);
                        assert(missed(sub0, d));
                    } else {
                        assert(sub1[kk] == words@[k as int]);
                        assert(w@[ii] == Letter::Miss(d));
                    }
                    assert(out@.contains(d));
                }
            }
        }
        k += 1;
    }
    proof {
        assert(words@.subrange(0, words@.len() as int) =~= words@);
    }
    out
}

impl Wordl {
    /// Compile the whole history into a reusable validity predicate.
    pub fn make_is_valid(words: &Vec<Word>) -> (r: Validity)
        ensures
            r.wf(),
            r.history@ == words@,
    {
        let required = Wordl::make_contains(words);
        let misses = collect_misses(words);
        let hits = Wordl::make_hits(words);
        let excludes_at = Wordl::make_excludes_at(words);
        Validity { required, misses, hits, excludes_at, history: Ghost(words@) }
    }
}

} // verus!
