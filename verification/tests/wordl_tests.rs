use wordl::letter::{Letter, Status, Word, WordlError};
use wordl::engine::Wordl;

fn eggyy_history() -> Vec<Word> {
    vec![
        [
            Letter::Miss('c'),
            Letter::Miss('c'),
            Letter::Contains('e'),
            Letter::Miss('c'),
            Letter::Miss('c'),
        ],
        [
            Letter::Contains('e'),
            Letter::Miss('c'),
            Letter::Contains('g'),
            Letter::Miss('c'),
            Letter::Miss('c'),
        ],
        [
            Letter::Contains('e'),
            Letter::Contains('g'),
            Letter::Contains('g'),
            Letter::Miss('c'),
            Letter::Miss('c'),
        ],
        [
            Letter::Miss('c'),
            Letter::Miss('c'),
            Letter::Miss('e'),
            Letter::Miss('c'),
            Letter::Contains('y'),
        ],
    ]
}

#[test]
fn test_valid() {
    let words = eggyy_history();
    let f = Wordl::make_is_valid(&words);
    assert_eq!(f.is_valid("match"), false);
    // Round 4 marks 'e' absent (and rounds 2 and 3 exclude 'e' at position
    // 0), so even "eggyy" is rejected: every constraint is checked on its
    // own, also for letters the required multiset still owes.
    assert_eq!(f.is_valid("eggyy"), false);
}

#[test]
fn contains_creates_expected_vector() {
    // _ _ E _ _
    // E _ G _ _
    // E G G _ _
    // Y _ _ _ _
    // -> EGGY
    let words = eggyy_history();
    assert_eq!(Wordl::make_contains(&words), vec!['e', 'g', 'g', 'y']);
}

#[test]
fn contains_cancels_across_rounds() {
    // The same letter required in two separate rounds is owed only once.
    let words: Vec<Word> = vec![
        [
            Letter::Contains('e'),
            Letter::Miss('x'),
            Letter::Miss('x'),
            Letter::Miss('x'),
            Letter::Miss('x'),
        ],
        [
            Letter::Contains('e'),
            Letter::Miss('x'),
            Letter::Miss('x'),
            Letter::Miss('x'),
            Letter::Miss('x'),
        ],
    ];
    assert_eq!(Wordl::make_contains(&words), vec!['e']);
}

#[test]
fn contains_keeps_doubles_within_a_round() {
    // A double letter within one round is owed twice; a hit counts too.
    let words: Vec<Word> = vec![
        [
            Letter::Contains('g'),
            Letter::Contains('g'),
            Letter::Miss('x'),
            Letter::Miss('x'),
            Letter::Hit('a'),
        ],
    ];
    assert_eq!(Wordl::make_contains(&words), vec!['g', 'g', 'a']);
}

#[test]
fn empty_history_accepts_correct_length_only() {
    let words: Vec<Word> = vec![];
    let f = Wordl::make_is_valid(&words);
    assert_eq!(f.is_valid("abcde"), true);
    assert_eq!(f.is_valid("zzzzz"), true);
    assert_eq!(f.check_word("abcd"), Err(WordlError::MalformedWord));
    assert_eq!(f.check_word("abcdef"), Err(WordlError::MalformedWord));
    assert_eq!(f.check_word("abcde"), Ok(true));
}

#[test]
fn refiltering_is_idempotent() {
    let words: Vec<Word> = vec![
        [
            Letter::Contains('e'),
            Letter::Miss('x'),
            Letter::Miss('x'),
            Letter::Miss('x'),
            Letter::Miss('x'),
        ],
    ];
    let f = Wordl::make_is_valid(&words);
    let seed = vec![
        "abcde".to_string(),
        "eabcd".to_string(),
        "xyzzy".to_string(),
    ];
    let once: Vec<String> = seed.iter().filter(|w| f.is_valid(w)).cloned().collect();
    assert_eq!(once, vec!["abcde".to_string()]);
    let twice: Vec<String> = once.iter().filter(|w| f.is_valid(w)).cloned().collect();
    assert_eq!(once, twice);
}

#[test]
fn end_to_end_scenario() {
    let mut w = Wordl::default();
    assert_eq!(w.insert("match".to_string()), Ok(true));
    assert_eq!(w.insert("eggyy".to_string()), Ok(true));
    assert_eq!(w.insert("eggzz".to_string()), Ok(true));
    for record in eggyy_history() {
        w.guess(record);
    }
    // This history contradicts itself: round 4 marks 'e' absent while
    // earlier rounds require it, so no candidate can satisfy every
    // constraint and the dictionary empties.
    assert!(w.dictionary.is_empty());
    assert_eq!(w.status(), Status::Exhausted);
}

#[test]
fn insert_sorts_and_rejects() {
    let mut w = Wordl::default();
    assert_eq!(w.insert("bbbbb".to_string()), Ok(true));
    assert_eq!(w.insert("aaaaa".to_string()), Ok(true));
    assert_eq!(w.insert("ccccc".to_string()), Ok(true));
    assert_eq!(w.insert("aaaaa".to_string()), Ok(false));
    assert_eq!(w.insert("abc".to_string()), Err(WordlError::MalformedWord));
    assert_eq!(
        w.dictionary,
        vec!["aaaaa".to_string(), "bbbbb".to_string(), "ccccc".to_string()]
    );
}

#[test]
fn suggest_ranks_by_frequency_then_name() {
    let mut w = Wordl::default();
    assert_eq!(w.insert("xyzzz".to_string()), Ok(true));
    assert_eq!(w.insert("aaccc".to_string()), Ok(true));
    assert_eq!(w.insert("aabbb".to_string()), Ok(true));
    // Scores: "aabbb" and "aaccc" each 2+2+1+1+1 = 7, "xyzzz" 5; the tie is
    // broken by natural word order.
    assert_eq!(
        w.suggest(2),
        Ok(vec!["aabbb".to_string(), "aaccc".to_string()])
    );
    assert_eq!(
        w.suggest(10),
        Ok(vec![
            "aabbb".to_string(),
            "aaccc".to_string(),
            "xyzzz".to_string()
        ])
    );
}

#[test]
fn suggest_reports_exhaustion() {
    let w = Wordl::default();
    assert_eq!(w.suggest(3), Err(WordlError::ExhaustedCandidates));
}

#[test]
fn status_tracks_progress() {
    let mut w = Wordl::default();
    assert_eq!(w.status(), Status::Exhausted);
    assert_eq!(w.insert("abcde".to_string()), Ok(true));
    assert_eq!(w.status(), Status::InProgress);
    w.guess([
        Letter::Hit('a'),
        Letter::Hit('b'),
        Letter::Hit('c'),
        Letter::Hit('d'),
        Letter::Hit('e'),
    ]);
    assert_eq!(w.status(), Status::Solved);
    assert_eq!(w.dictionary, vec!["abcde".to_string()]);
}

#[test]
fn hits_take_the_most_recent_round() {
    let words: Vec<Word> = vec![
        [
            Letter::Hit('a'),
            Letter::Miss('x'),
            Letter::Miss('x'),
            Letter::Miss('x'),
            Letter::Miss('x'),
        ],
        [
            Letter::Hit('b'),
            Letter::Miss('x'),
            Letter::Hit('q'),
            Letter::Miss('x'),
            Letter::Miss('x'),
        ],
    ];
    let hits = Wordl::make_hits(&words);
    assert_eq!(hits[0], Some('b'));
    assert_eq!(hits[1], None);
    assert_eq!(hits[2], Some('q'));
    assert_eq!(hits[3], None);
    assert_eq!(hits[4], None);
}

#[test]
fn excludes_at_collects_contains_positions() {
    let words = eggyy_history();
    let ex = Wordl::make_excludes_at(&words);
    assert_eq!(ex.len(), 5);
    assert!(ex[0].contains(&'e'));
    assert!(ex[1].contains(&'g'));
    assert!(ex[2].contains(&'e'));
    assert!(ex[2].contains(&'g'));
    assert!(ex[3].is_empty());
    assert!(ex[4].contains(&'y'));
}

#[test]
fn char_frequency_counts_columns() {
    let vals = vec!["aabbb".to_string(), "aaccc".to_string(), "xyzzz".to_string()];
    let freq = Wordl::make_char_frequency(&vals);
    assert_eq!(freq.len(), 5);
    assert_eq!(freq[0].count('a'), 2);
    assert_eq!(freq[0].count('x'), 1);
    assert_eq!(freq[0].count('q'), 0);
    assert_eq!(freq[4].count('b'), 1);
    assert_eq!(freq[4].count('c'), 1);
    assert_eq!(freq[4].count('z'), 1);
    assert_eq!(freq[0].total, 3);
}

#[test]
fn char_freq_insert_accumulates() {
    let mut f = wordl::freq::CharFreq::new();
    f.insert('a');
    f.insert('b');
    f.insert('a');
    assert_eq!(f.count('a'), 2);
    assert_eq!(f.count('b'), 1);
    assert_eq!(f.count('z'), 0);
    assert_eq!(f.total, 3);
}

#[test]
fn exhausted_after_contradictory_feedback() {
    let mut w = Wordl::default();
    assert_eq!(w.insert("aaaaa".to_string()), Ok(true));
    w.guess([
        Letter::Miss('a'),
        Letter::Miss('a'),
        Letter::Miss('a'),
        Letter::Miss('a'),
        Letter::Miss('a'),
    ]);
    assert!(w.dictionary.is_empty());
    assert_eq!(w.status(), Status::Exhausted);
    assert_eq!(w.suggest(1), Err(WordlError::ExhaustedCandidates));
}

#[test]
fn overlap_prefers_unseen_letters() {
    let mut w = Wordl::default();
    assert_eq!(w.insert("aabbb".to_string()), Ok(true));
    assert_eq!(w.insert("aaccc".to_string()), Ok(true));
    assert_eq!(w.insert("xyzzz".to_string()), Ok(true));
    // No history: "xyzzz" brings three distinct letters (15 points), the
    // others two (10 points) each.
    assert_eq!(w.suggest_overlap(), Ok("xyzzz".to_string()));
}

#[test]
fn overlap_breaks_ties_by_dictionary_order() {
    let mut w = Wordl::default();
    assert_eq!(w.insert("aaccc".to_string()), Ok(true));
    assert_eq!(w.insert("aabbb".to_string()), Ok(true));
    assert_eq!(w.suggest_overlap(), Ok("aabbb".to_string()));
}

#[test]
fn overlap_prefilters_by_hits() {
    let mut w = Wordl::default();
    assert_eq!(w.insert("aabbb".to_string()), Ok(true));
    assert_eq!(w.insert("cdefg".to_string()), Ok(true));
    w.guesses.push([
        Letter::Hit('c'),
        Letter::Miss('x'),
        Letter::Miss('x'),
        Letter::Miss('x'),
        Letter::Miss('x'),
    ]);
    assert_eq!(w.suggest_overlap(), Ok("cdefg".to_string()));
    let empty = Wordl::default();
    assert_eq!(
        empty.suggest_overlap(),
        Err(WordlError::ExhaustedCandidates)
    );
}

#[test]
fn solution_survives_accurate_feedback() {
    // Solution "eggyy": a round of real-game feedback for the guess "gypsy".
    let mut w = Wordl::default();
    assert_eq!(w.insert("eggyy".to_string()), Ok(true));
    assert_eq!(w.insert("gypsy".to_string()), Ok(true));
    w.guess([
        Letter::Contains('g'),
        Letter::Contains('y'),
        Letter::Miss('p'),
        Letter::Miss('s'),
        Letter::Hit('y'),
    ]);
    assert!(w.dictionary.contains(&"eggyy".to_string()));
    assert!(!w.dictionary.contains(&"gypsy".to_string()));
}
