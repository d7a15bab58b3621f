use wordle::constraint::Constraint;
use wordle::constraint::combine;
use wordle::constraint::filter;
use wordle::constraint::merge;
use wordle::constraint::reply_to_tags;
use wordle::lanefilter::filter_lanes;
use wordle::scorer::Metric;
use wordle::scorer::Score;
use wordle::scorer::score;
use wordle::scorer::score_one_guess;
use wordle::scorer::top_k;
use wordle::tags::LetterTag;

fn letter_index(c: char) -> usize {
    (c as u32 - 97) as usize
}

#[test]
fn test_derive_all_black() {
    // Three letters, none shared: every position is Black.
    let r = wordle::tags::derive("abc", "def").unwrap();
    assert_eq!(r, vec![LetterTag::Black, LetterTag::Black, LetterTag::Black]);
}

#[test]
fn test_derive_one_green() {
    let r = wordle::tags::derive("abc", "aef").unwrap();
    assert_eq!(r, vec![LetterTag::Green, LetterTag::Black, LetterTag::Black]);
}

#[test]
fn test_derive_occurrence_budget() {
    // The third a of the guess has no remaining budget in the target.
    let r = wordle::tags::derive("aab", "aaa").unwrap();
    assert_eq!(r, vec![LetterTag::Green, LetterTag::Green, LetterTag::Black]);
}

#[test]
fn test_derive_yellow_budget() {
    // One a in the target, guessed twice out of place: one Yellow, one
    // Black.
    let r = wordle::tags::derive("xya", "aax").unwrap();
    assert_eq!(r, vec![LetterTag::Yellow, LetterTag::Black, LetterTag::Yellow]);
}

#[test]
fn test_derive_length_mismatch() {
    assert_eq!(wordle::tags::derive("ab", "abc"), Err(wordle::EngineError::LengthMismatch));
    assert_eq!(wordle::tags::derive("abcd", "abc"), Err(wordle::EngineError::LengthMismatch));
}

#[test]
fn test_green_count_equals_matches() {
    // The Green count equals the number of matching positions, exactly.
    let r = wordle::tags::derive("abcab", "axcba").unwrap();
    let greens = r.iter().filter(|t| matches!(t, LetterTag::Green)).count();
    assert_eq!(greens, 2);
}

#[test]
fn test_combine_inclusion_wins() {
    // Letter x Black at position 0 of one guess, Green at position 2 of
    // another: after combining, x is included and not excluded.
    let base = Constraint::new();
    let c1 = merge(&base, &reply_to_tags("byy"), "xab");
    let c2 = merge(&base, &reply_to_tags("bbg"), "cdx");
    let joined = combine(&c1, &c2);
    assert!(joined.letter_included(letter_index('x')));
    assert!(!joined.letter_excluded(letter_index('x')));
    // The order of combination does not change the letter sets.
    let joined_rev = combine(&c2, &c1);
    assert!(joined_rev.letter_included(letter_index('x')));
    assert!(!joined_rev.letter_excluded(letter_index('x')));
}

#[test]
fn test_filter_identity_and_empty() {
    let c = Constraint::new();
    let empty: Vec<String> = vec![];
    assert_eq!(filter(&empty, &c), Vec::<String>::new());
    let strict = merge(&c, &reply_to_tags("bbb"), "xyz");
    assert_eq!(filter(&empty, &strict), Vec::<String>::new());

    let words = vec!["abc".to_string(), "def".to_string(), "abd".to_string()];
    assert_eq!(filter(&words, &c), words, "the identity constraint keeps every word in order");
}

#[test]
fn test_filter_idempotent_concrete() {
    let c = merge(&Constraint::new(), &reply_to_tags("gby"), "abd");
    let words = vec![
        "abc".to_string(),
        "adc".to_string(),
        "dac".to_string(),
        "axd".to_string(),
    ];
    let once = filter(&words, &c);
    let twice = filter(&once, &c);
    assert_eq!(once, twice);
}

#[test]
fn test_scalar_and_lane_filters_agree() {
    let base = Constraint::new();
    let c = merge(&base, &reply_to_tags("gyb"), "abd");
    let words = vec![
        "abc".to_string(),
        "acb".to_string(),
        "axb".to_string(),
        "bca".to_string(),
        "xyz".to_string(),
        "aab".to_string(),
    ];
    let scalar = filter(&words, &c);
    let lanes = filter_lanes(&words, &c);
    assert_eq!(scalar, lanes, "both filter paths return identical ordered results");
    // And on the identity constraint too.
    assert_eq!(filter(&words, &base), filter_lanes(&words, &base));
}

#[test]
fn test_filter_semantics() {
    // Guess abd against reply g y b: a fixed at 0, b present but not at
    // position 1, d absent.
    let c = merge(&Constraint::new(), &reply_to_tags("gyb"), "abd");
    let words = vec![
        "abc".to_string(), // b at its avoided position
        "acb".to_string(), // keeps a at 0, b elsewhere
        "axd".to_string(), // holds the excluded d
        "xcb".to_string(), // a not at position 0
    ];
    assert_eq!(filter(&words, &c), vec!["acb".to_string()]);
}

#[test]
fn test_score_two_words() {
    // Scoring with dictionary [abc, def] and the single surviving target
    // abc: guessing abc identifies the target perfectly.
    let dictionary = vec!["abc".to_string(), "def".to_string()];
    let active = vec!["abc".to_string()];
    let base = Constraint::new();
    let scored = score(&dictionary, &active, &base);
    assert_eq!(scored.len(), 2);
    assert_eq!(scored[0].0, "abc");
    assert_eq!(scored[0].1.green, 3);
    assert_eq!(scored[0].1.rejected_words, 0);
    assert_eq!(scored[1].0, "def");
    assert_eq!(scored[1].1.green, 0);
    // def shares no letter with the only target, so its all-Black
    // response rejects nothing.
    assert_eq!(scored[1].1.rejected_words, 0);
}

#[test]
fn test_score_rejects_on_overlap() {
    // With two surviving targets, a guess that splits them rejects one
    // target per simulation.
    let dictionary = vec!["abc".to_string()];
    let active = vec!["abc".to_string(), "xyz".to_string()];
    let base = Constraint::new();
    let scored = score(&dictionary, &active, &base);
    // Against target abc the response is all Green and rejects xyz;
    // against target xyz the response is all Black and rejects abc.
    assert_eq!(scored[0].1.rejected_words, 2);
    assert_eq!(scored[0].1.green, 3);
}

#[test]
fn test_score_one_guess_counts() {
    let active = vec!["abc".to_string(), "abd".to_string()];
    let base = Constraint::new();
    let s = score_one_guess(&"abc".to_string(), &active, &base);
    // Target abc: three Greens, included {a, b, c}, excluded {}.
    // Target abd: two Greens, included {a, b}, excluded {c}.
    assert_eq!(s.green, 5);
    assert_eq!(s.inc_letters, 5);
    assert_eq!(s.exc_letters, 1);
}

#[test]
fn test_top_k_ranking() {
    let mk = |w: &str, green: usize, rej: usize| {
        (
            w.to_string(),
            Score { inc_letters: 0, exc_letters: 0, green, rejected_words: rej },
        )
    };
    let scored = vec![mk("aa", 1, 5), mk("bb", 3, 2), mk("cc", 3, 9), mk("dd", 2, 9)];
    // Descending by Green; the tie between bb and cc keeps input order.
    let top = top_k(&scored, Metric::Green, 3);
    assert_eq!(top.len(), 3);
    assert_eq!(top[0].0, "bb");
    assert_eq!(top[1].0, "cc");
    assert_eq!(top[2].0, "dd");
    // Descending by rejected words.
    let top = top_k(&scored, Metric::RejectedWords, 2);
    assert_eq!(top[0].0, "cc");
    assert_eq!(top[1].0, "dd");
    // Asking for more entries than exist ranks the whole list.
    let top = top_k(&scored, Metric::IncLetters, 10);
    assert_eq!(top.len(), 4);
}

#[test]
fn test_merge_keeps_disjoint_sets() {
    // A guess with the same letter Green and Black keeps it included only.
    let c = merge(&Constraint::new(), &reply_to_tags("gb"), "aa");
    assert!(c.letter_included(letter_index('a')));
    assert!(!c.letter_excluded(letter_index('a')));
}

#[test]
fn test_score_empty_active() {
    // An empty active set yields an empty ranking, not one all-zero
    // record per dictionary word.
    let dictionary = vec!["abc".to_string(), "def".to_string()];
    let active: Vec<String> = vec![];
    let base = Constraint::new();
    let scored = score(&dictionary, &active, &base);
    assert!(scored.is_empty());
    // And an empty dictionary yields an empty ranking too.
    let scored = score(&Vec::new(), &vec!["abc".to_string()], &base);
    assert!(scored.is_empty());
}
