//! Per-position letter frequencies over the current dictionary, used to
//! score ranking candidates.  Counts are kept as integers; since every
//! position's total equals the dictionary size, comparing summed counts
//! orders words exactly as comparing summed relative frequencies would.

use vstd::prelude::*;
use crate::engine::Wordl;
use vstd::string::StrSliceExecFns;

verus! {

/// The count recorded for `c` in a key/count table: the first entry with
/// key `c`, or zero if there is none.
pub open spec fn pairs_count(s: Seq<(char, u64)>, c: char) -> u64
    decreases s.len(),
{
    if s.len() == 0 {
        0u64
    } else if s[0].0 == c {
        s[0].1
    } else {
        pairs_count(s.drop_first(), c)
    }
}

/// How many words of `d` carry the letter `c` at position `i`.
pub open spec fn col_count(d: Seq<String>, i: int, c: char) -> nat
    decreases d.len(),
{
    if d.len() == 0 {
        0
    } else {
        col_count(d.drop_last(), i, c) + (if d.last()@[i] == c {
            1nat
        } else {
            0nat
        })
    }
}

/// Updating the entry that holds a key rewrites that key's count and no
/// other.
proof fn lemma_pairs_update(s: Seq<(char, u64)>, i: int, p: (char, u64))
    requires
        0 <= i < s.len(),
        s[i].0 == p.0,
        forall|t: int| 0 <= t < i ==> (#[trigger] s[t]).0 != p.0,
    ensures
        pairs_count(s.update(i, p), p.0) == p.1,
        forall|d: char| d != p.0 ==> pairs_count(s.update(i, p), d) == pairs_count(s, d),
    decreases i,
{
    let s2 = s.update(i, p);
    if i == 0 {
        assert(s2[0] == p);
        assert(s2.drop_first() =~= s.drop_first());
        assert forall|d: char| d != p.0 implies pairs_count(s2, d) == pairs_count(s, d) by {
            assert(pairs_count(s2, d) == pairs_count(s2.drop_first(), d));
            assert(pairs_count(s, d) == pairs_count(s.drop_first(), d));
        }
    } else {
        assert(s2[0] == s[0]);
        assert(s2.drop_first() =~= s.drop_first().update(i - 1, p));
        lemma_pairs_update(s.drop_first(), i - 1, p);
        assert forall|d: char| d != p.0 implies pairs_count(s2, d) == pairs_count(s, d) by {
            assert(pairs_count(s.drop_first().update(i - 1, p), d) == pairs_count(
                s.drop_first(),
                d,
            ));
        }
    }
}

/// Appending an entry under a fresh key records its count and changes no
/// other key's count.
proof fn lemma_pairs_push(s: Seq<(char, u64)>, p: (char, u64))
    requires
        forall|t: int| 0 <= t < s.len() ==> (#[trigger] s[t]).0 != p.0,
    ensures
        pairs_count(s.push(p), p.0) == p.1,
        forall|d: char| d != p.0 ==> pairs_count(s.push(p), d) == pairs_count(s, d),
    decreases s.len(),
{
    let s2 = s.push(p);
    if s.len() == 0 {
        assert(s2[0] == p);
        assert(s2.drop_first() =~= Seq::<(char, u64)>::empty());
        assert forall|d: char| d != p.0 implies pairs_count(s2, d) == pairs_count(s, d) by {
            assert(pairs_count(s2, d) == pairs_count(s2.drop_first(), d));
        }
    } else {
        assert(s2[0] == s[0]);
        assert(s2.drop_first() =~= s.drop_first().push(p));
        lemma_pairs_push(s.drop_first(), p);
        assert forall|d: char| d != p.0 implies pairs_count(s2, d) == pairs_count(s, d) by {
            assert(pairs_count(s.drop_first().push(p), d) == pairs_count(s.drop_first(), d));
        }
    }
}

/// The first entry holding a key gives that key's count.
proof fn lemma_pairs_first(s: Seq<(char, u64)>, j: int)
    requires
        0 <= j < s.len(),
        forall|t: int| 0 <= t < j ==> (#[trigger] s[t]).0 != s[j].0,
    ensures
        pairs_count(s, s[j].0) == s[j].1,
    decreases j,
{
    if j > 0 {
        assert(s.drop_first()[j - 1] == s[j]);
        assert(forall|t: int|
            0 <= t < j - 1 ==> (#[trigger] s.drop_first()[t]).0 != s[j].0);
        lemma_pairs_first(s.drop_first(), j - 1);
    }
}

/// A key held by no entry counts zero.
proof fn lemma_pairs_absent(s: Seq<(char, u64)>, c: char)
    requires
        forall|t: int| 0 <= t < s.len() ==> (#[trigger] s[t]).0 != c,
    ensures
        pairs_count(s, c) == 0,
    decreases s.len(),
{
    if s.len() > 0 {
        assert(forall|t: int| 0 <= t < s.drop_first().len() ==> (#[trigger] s.drop_first()[t]).0
            != c);
        lemma_pairs_absent(s.drop_first(), c);
    }
}

/// Letter occurrence counts for one word position.
#[derive(Debug)]
pub struct CharFreq {
    /// One entry per letter seen so far, with its occurrence count.
    pub counts: Vec<(char, u64)>,
    /// Total number of insertions.
    pub total: u64,
}

impl CharFreq {
    /// Keys are unique and no single count exceeds the total.
    pub open spec fn wf(self) -> bool {
        &&& forall|i: int, j: int|
            0 <= i < j < self.counts@.len() ==> (#[trigger] self.counts@[i]).0 != (
            #[trigger] self.counts@[j]).0
        &&& forall|i: int| 0 <= i < self.counts@.len() ==> (#[trigger] self.counts@[i]).1
            <= self.total
    }

    /// An empty table.
    pub fn new() -> (r: Self)
        ensures
            r.wf(),
            r.total == 0,
            forall|c: char| pairs_count(r.counts@, c) == 0,
    {
        let r = CharFreq { counts: Vec::new(), total: 0 };
        proof {
            assert forall|c: char| pairs_count(r.counts@, c) == 0 by {}
        }
        r
    }

    /// Record one occurrence of `c`.
    pub fn insert(&mut self, c: char)
        requires
            old(self).wf(),
            old(self).total < u64::MAX,
        ensures
            final(self).wf(),
            final(self).total == old(self).total + 1,
            pairs_count(final(self).counts@, c) == pairs_count(old(self).counts@, c) + 1,
            forall|d: char|
                d != c ==> pairs_count(final(self).counts@, d) == pairs_count(
                    old(self).counts@,
                    d,
                ),
    {
        let n = self.counts.len();
        let mut i: usize = 0;
        while i < n
            invariant
                0 <= i <= n,
                n == self.counts@.len(),
                *self == *old(self),
                old(self).wf(),
                old(self).total < u64::MAX,
                forall|t: int| 0 <= t < i ==> (#[trigger] self.counts@[t]).0 != c,
            decreases n - i,
        {
            let (k0, v0) = self.counts[i];
            if k0 == c {
                proof {
                    assert((k0, v0) == self.counts@[i as int]);
                    assert(v0 <= self.total);
                    lemma_pairs_first(self.counts@, i as int);
                    lemma_pairs_update(self.counts@, i as int, (c, (v0 + 1) as u64));
                }
                self.counts[i] = (c, v0 + 1);
                self.total = self.total + 1;
                proof {
                    let s = old(self).counts@;
                    let s2 = self.counts@;
                    assert(s2 == s.update(i as int, (c, (v0 + 1) as u64)));
                    assert forall|a: int, b: int|
                        0 <= a < b < s2.len() implies (#[trigger] s2[a]).0 != (
                    #[trigger] s2[b]).0 by {
                        assert(s2[a].0 == s[a].0);
                        assert(s2[b].0 == s[b].0);
                    }
                    assert forall|a: int| 0 <= a < s2.len() implies (#[trigger] s2[a]).1
                        <= self.total by {
                        assert(a != i ==> s2[a] == s[a]);
                    }
                }
                return ;
            }
            i += 1;
        }
        proof {
            lemma_pairs_absent(self.counts@, c);
            lemma_pairs_push(self.counts@, (c, 1u64));
        }
        self.counts.push((c, 1));
        self.total = self.total + 1;
    }

    /// Look up the count recorded for `c`.
    pub fn count(&self, c: char) -> (r: u64)
        ensures
            r == pairs_count(self.counts@, c),
    {
        let n = self.counts.len();
        let mut i: usize = 0;
        while i < n
            invariant
                0 <= i <= n,
                n == self.counts@.len(),
                forall|t: int| 0 <= t < i ==> (#[trigger] self.counts@[t]).0 != c,
            decreases n - i,
        {
            let (k0, v0) = self.counts[i];
            if k0 == c {
                proof {
                    lemma_pairs_first(self.counts@, i as int);
                }
                return v0;
            }
            i += 1;
        }
        proof {
            lemma_pairs_absent(self.counts@, c);
        }
        0
    }
}

impl Wordl {
    /// Tally, per position, the empirical letter counts across the given
    /// words.
    pub fn make_char_frequency(vals: &Vec<String>) -> (r: Vec<CharFreq>)
        requires
            forall|k: int| 0 <= k < vals@.len() ==> (#[trigger] vals@[k])@.len() == 5,
        ensures
            r@.len() == 5,
            forall|i: int| 0 <= i < 5 ==> (#[trigger] r@[i]).wf(),
            forall|i: int| 0 <= i < 5 ==> (#[trigger] r@[i]).total == vals@.len(),
            forall|i: int, c: char|
                0 <= i < 5 ==> #[trigger] pairs_count(r@[i].counts@, c) == col_count(
                    vals@,
                    i,
                    c,
                ),
    {
        let mut r: Vec<CharFreq> = Vec::new();
        let mut i: usize = 0;
        while i < 5
            invariant
                r@.len() == i,
                0 <= i <= 5,
                forall|t: int| 0 <= t < i ==> (#[trigger] r@[t]).wf(),
                forall|t: int| 0 <= t < i ==> (#[trigger] r@[t]).total == vals@.len(),
                forall|t: int, c: char|
                    0 <= t < i ==> #[trigger] pairs_count(r@[t].counts@, c) == col_count(
                        vals@,
                        t,
                        c,
                    ),
                forall|k: int| 0 <= k < vals@.len() ==> (#[trigger] vals@[k])@.len() == 5,
            decreases 5 - i,
        {
            let mut f = CharFreq::new();
            let mut k: usize = 0;
            proof {
                assert(vals@.subrange(0, 0) =~= Seq::<String>::empty());
            }
            while k < vals.len()
                invariant
                    0 <= k <= vals@.len(),
                    0 <= i < 5,
                    f.wf(),
                    f.total == k,
                    forall|c: char|
                        pairs_count(f.counts@, c) == col_count(
                            vals@.subrange(0, k as int),
                            i as int,
                            c,
                        ),
                    forall|kk: int| 0 <= kk < vals@.len() ==> (#[trigger] vals@[kk])@.len() == 5,
                decreases vals@.len() - k,
            {
                let c = vals[k].as_str().get_char(i);
                let ghost before = f.counts@;
                f.insert(c);
                proof {
                    let sub1 = vals@.subrange(0, k as int + 1);
                    assert(sub1.drop_last() =~= vals@.subrange(0, k as int));
                    assert(sub1.last() == vals@[k as int]);
                    assert forall|d: char|
                        pairs_count(f.counts@, d) == col_count(sub1, i as int, d) by {
                        if d != c {
                            assert(pairs_count(f.counts@, d) == pairs_count(before, d));
                        }
                    }
                }
                k += 1;
            }
            proof {
                assert(vals@.subrange(0, vals@.len() as int) =~= vals@);
            }
            r.push(f);
            i += 1;
        }
        r
    }
}

} // verus!
