//! Multiset-style counting over character sequences, with the executable
//! helpers the engine uses to search and edit its working vectors.

use vstd::prelude::*;

verus! {

/// How many times `c` occurs in `s`.
pub open spec fn count_in(s: Seq<char>, c: char) -> nat
    decreases s.len(),
{
    if s.len() == 0 {
        0
    } else {
        (if s[0] == c {
            1nat
        } else {
            0nat
        }) + count_in(s.drop_first(), c)
    }
}

/// `s` with the first occurrence of `c` removed (or `s` itself if absent).
pub open spec fn remove_one(s: Seq<char>, c: char) -> Seq<char>
    decreases s.len(),
{
    if s.len() == 0 {
        s
    } else if s[0] == c {
        s.drop_first()
    } else {
        seq![s[0]] + remove_one(s.drop_first(), c)
    }
}

/// Occurrence counts add up across concatenation.
pub proof fn lemma_count_append(a: Seq<char>, b: Seq<char>, c: char)
    ensures
        count_in(a + b, c) == count_in(a, c) + count_in(b, c),
    decreases a.len(),
{
    if a.len() == 0 {
        assert(a + b =~= b);
    } else {
        assert((a + b).drop_first() =~= a.drop_first() + b);
        lemma_count_append(a.drop_first(), b, c);
    }
}

/// Membership is the same as a positive occurrence count.
pub proof fn lemma_contains_iff_count(s: Seq<char>, c: char)
    ensures
        s.contains(c) <==> count_in(s, c) >= 1,
    decreases s.len(),
{
    if s.len() > 0 {
        lemma_contains_iff_count(s.drop_first(), c);
        if s[0] != c && s.contains(c) {
            let i = choose|i: int| 0 <= i < s.len() && s[i] == c;
            assert(s.drop_first()[i - 1] == c);
        }
        if s.drop_first().contains(c) {
            let i = choose|i: int| 0 <= i < s.drop_first().len() && s.drop_first()[i] == c;
            assert(s[i + 1] == c);
        }
    }
}

/// Removing one occurrence of `c` lowers its count by one and leaves every
/// other letter's count unchanged.
pub proof fn lemma_remove_one_counts(s: Seq<char>, c: char)
    requires
        s.contains(c),
    ensures
        remove_one(s, c).len() == s.len() - 1,
        count_in(remove_one(s, c), c) + 1 == count_in(s, c),
        forall|d: char| d != c ==> count_in(remove_one(s, c), d) == count_in(s, d),
    decreases s.len(),
{
    lemma_contains_iff_count(s, c);
    if s[0] == c {
    } else {
        assert(s.drop_first().contains(c)) by {
            lemma_contains_iff_count(s.drop_first(), c);
        }
        lemma_remove_one_counts(s.drop_first(), c);
        let r = seq![s[0]] + remove_one(s.drop_first(), c);
        assert(r.drop_first() =~= remove_one(s.drop_first(), c));
        assert forall|d: char| d != c implies count_in(r, d) == count_in(s, d) by {
            lemma_count_append(seq![s[0]], remove_one(s.drop_first(), c), d);
            lemma_count_append(seq![s[0]], s.drop_first(), d);
            assert(s =~= seq![s[0]] + s.drop_first());
        }
        lemma_count_append(seq![s[0]], remove_one(s.drop_first(), c), c);
        lemma_count_append(seq![s[0]], s.drop_first(), c);
        assert(s =~= seq![s[0]] + s.drop_first());
    }
}

/// Removing the first occurrence of `c`, found at index `j`, is the same as
/// deleting index `j`.
pub proof fn lemma_remove_one_at(s: Seq<char>, c: char, j: int)
    requires
        0 <= j < s.len(),
        s[j] == c,
        forall|t: int| 0 <= t < j ==> s[t] != c,
    ensures
        remove_one(s, c) =~= s.remove(j),
    decreases j,
{
    if j == 0 {
        assert(remove_one(s, c) =~= s.remove(0));
    } else {
        assert(forall|t: int| 0 <= t < j - 1 ==> s.drop_first()[t] != c);
        lemma_remove_one_at(s.drop_first(), c, j - 1);
        assert(seq![s[0]] + s.drop_first().remove(j - 1) =~= s.remove(j));
    }
}

/// Appending one character raises its count by one and no other's.
pub proof fn lemma_count_push(s: Seq<char>, x: char, c: char)
    ensures
        count_in(s.push(x), c) == count_in(s, c) + (if x == c {
            1nat
        } else {
            0nat
        }),
{
    assert(s.push(x) =~= s + seq![x]);
    assert(seq![x].len() == 1);
    assert(seq![x][0] == x);
    assert(seq![x].drop_first() =~= Seq::<char>::empty());
    assert(count_in(Seq::<char>::empty(), c) == 0);
    assert(count_in(seq![x], c) == (if x == c {
        1nat
    } else {
        0nat
    }));
    lemma_count_append(s, seq![x], c);
}

/// Appending one character extends membership by exactly that character.
pub proof fn lemma_push_contains(s: Seq<char>, c: char, d: char)
    ensures
        s.push(c).contains(d) <==> (s.contains(d) || d == c),
{
    if d == c {
        assert(s.push(c)[s.len() as int] == c);
    }
    if s.contains(d) {
        let i = choose|i: int| 0 <= i < s.len() && s[i] == d;
        assert(s.push(c)[i] == d);
    }
    if s.push(c).contains(d) && d != c {
        let i = choose|i: int| 0 <= i < s.push(c).len() && s.push(c)[i] == d;
        assert(i < s.len());
        assert(s[i] == d);
    }
}

/// Whether `c` occurs in the character vector `v`.
pub fn vec_contains_char(v: &Vec<char>, c: char) -> (r: bool)
    ensures
        r == v@.contains(c),
{
    let mut i: usize = 0;
    while i < v.len()
        invariant
            0 <= i <= v@.len(),
            forall|t: int| 0 <= t < i ==> v@[t] != c,
        decreases v@.len() - i,
    {
        if v[i] == c {
            return true;
        }
        i += 1;
    }
    false
}

/// The index of the first occurrence of `c` in `v`, if any.
pub fn index_of_char(v: &Vec<char>, c: char) -> (r: Option<usize>)
    ensures
        match r {
            Some(j) => j < v@.len() && v@[j as int] == c && forall|t: int|
                0 <= t < j ==> v@[t] != c,
            None => !v@.contains(c),
        },
{
    let mut i: usize = 0;
    while i < v.len()
        invariant
            0 <= i <= v@.len(),
            forall|t: int| 0 <= t < i ==> v@[t] != c,
        decreases v@.len() - i,
    {
        if v[i] == c {
            return Some(i);
        }
        i += 1;
    }
    None
}

/// Remove the first occurrence of `c` from `v`.
pub fn remove_first_char(v: &mut Vec<char>, c: char)
    requires
        old(v)@.contains(c),
    ensures
        final(v)@ == remove_one(old(v)@, c),
{
    let j = match index_of_char(v, c) {
        Some(j) => j,
        None => {
            proof {
                assert(false);
            }
            0
        },
    };
    v.remove(j);
    proof {
        lemma_remove_one_at(old(v)@, c, j as int);
    }
}

/// An element-for-element copy of a character vector.
pub fn copy_chars(v: &Vec<char>) -> (r: Vec<char>)
    ensures
        r@ == v@,
{
    let mut r: Vec<char> = Vec::new();
    let mut i: usize = 0;
    while i < v.len()
        invariant
            0 <= i <= v@.len(),
            r@ =~= v@.subrange(0, i as int),
        decreases v@.len() - i,
    {
        r.push(v[i]);
        i += 1;
    }
    proof {
        assert(r@ =~= v@);
    }
    r
}

} // verus!
