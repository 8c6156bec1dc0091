//! The feedback model: per-letter outcomes and fixed-width guess records.

use vstd::prelude::*;

verus! {

/// Feedback for one letter position of a submitted guess.
#[derive(Clone, Copy, Debug, PartialEq, Eq, Structural)]
pub enum Letter {
    /// The letter is confirmed correct at this exact position.
    Hit(char),
    /// The letter does not occur anywhere in the solution (unless another
    /// outcome for the same letter says otherwise).
    Miss(char),
    /// The letter occurs in the solution, but not at this position.
    Contains(char),
}

/// Feedback for one whole guess: exactly one outcome per position.
pub type Word = [Letter; 5];

/// Errors surfaced to callers; the engine never recovers from these itself.
#[derive(Clone, Copy, Debug, PartialEq, Eq, Structural)]
pub enum WordlError {
    /// A candidate word of the wrong length was presented.
    MalformedWord,
    /// No word in the dictionary satisfies the accumulated constraints.
    ExhaustedCandidates,
}

/// Progress of a guessing session.
#[derive(Clone, Copy, Debug, PartialEq, Eq, Structural)]
pub enum Status {
    /// Every position has a confirmed letter.
    Solved,
    /// Candidates remain and at least one position is still open.
    InProgress,
    /// No candidate word is left.
    Exhausted,
}

/// The letters a single outcome contributes to the required multiset:
/// `Hit` and `Contains` letters are owed by a candidate, `Miss` letters are not.
pub open spec fn required_part(l: Letter) -> Seq<char> {
    match l {
        Letter::Hit(c) => seq![c],
        Letter::Contains(c) => seq![c],
        Letter::Miss(_) => Seq::empty(),
    }
}

/// The letters one guess record contributes to the required multiset,
/// in position order.
pub open spec fn round_chars(r: Seq<Letter>) -> Seq<char>
    decreases r.len(),
{
    if r.len() == 0 {
        Seq::empty()
    } else {
        required_part(r[0]) + round_chars(r.drop_first())
    }
}

} // verus!
