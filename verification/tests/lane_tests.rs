use wordle::lanes::SimdAnswer;
use wordle::lanes::SimdGuess;
use wordle::lanes::SimdWordle;
use wordle::lanes::WordleFilter;
use wordle::lanes::WordleVec;
use wordle::lanes::word_to_simdwordle;

#[test]
fn test_extract_guess() {
    let target_word = SimdWordle::from("wahoo");
    let guess_word = SimdWordle::from("goner");

    // awoke, snout, wound
    let answer = target_word.answer_for_guess(&guess_word);

    println!("{:?}/{:?} = {:?}", target_word, guess_word, answer);
}

#[test]
fn test_wordlevec() {
    let my_words = vec!["maple", "apple", "bread", "mouth"];

    let my_wv: WordleVec = WordleVec::from(my_words);

    println!("My wordlevec = {:?}", my_wv);
}

#[test]
fn test_filter() {
    let my_words = WordleVec(vec![
        SimdWordle::from("maple"),
        SimdWordle::from("apple"),
        SimdWordle::from("bread"),
        SimdWordle::from("mouth"),
    ]);

    let my_filter = WordleFilter::new();
    println!("Filter = {:?}", my_filter);
    let filtered_words = my_words.simd_filter(&my_filter);
    assert_eq!(
        filtered_words,
        WordleVec(vec!(
            SimdWordle::from("maple"),
            SimdWordle::from("apple"),
            SimdWordle::from("bread"),
            SimdWordle::from("mouth"),
        )),
    );

    let my_filter = my_filter.exclude(SimdWordle::from("bbbbbbbb"));
    println!("Filter with exclusion = {:?}", my_filter);
    let filtered_words = my_words.simd_filter(&my_filter);
    assert_eq!(
        filtered_words,
        WordleVec(vec!(
            SimdWordle::from("maple"),
            SimdWordle::from("apple"),
            SimdWordle::from("mouth"),
        )),
    );

    let my_filter = my_filter.require_any(SimdWordle::from("aaaaaaaa"));
    println!("Filter with membership = {:?}", my_filter);
    let filtered_words = my_words.simd_filter(&my_filter);
    assert_eq!(
        filtered_words,
        WordleVec(vec!(SimdWordle::from("maple"), SimdWordle::from("apple"),)),
    );

    let my_filter = my_filter.require_all(SimdWordle::from("a*******"));
    println!("Filter with exact position = {:?}", my_filter);
    let filtered_words = my_words.simd_filter(&my_filter);
    assert_eq!(filtered_words, WordleVec(vec!(SimdWordle::from("apple"),)),);
}

#[test]
fn test_simdwordle() {
    println!("SimdWordle sizeof = {}", std::mem::size_of::<SimdWordle>());

    let myword = String::from("abcde");

    let mywordle = SimdWordle::from(myword.as_str());
    println!("mywordle = {:?}", mywordle);

    let mywords = vec!["abcd", "def"];

    let mywordles = word_to_simdwordle(mywords);

    println!("My wordles = {:?}", mywordles);
}

#[test]
fn test_answer() {
    let my_answer = String::from("ggybb");

    let answer = SimdAnswer::from(my_answer.as_str());

    println!("SimdAnswer = {:?}", answer);
}

#[test]
fn test_guess() {
    let my_word = String::from("abcde");
    let my_answer = String::from("ggybb");

    let guess = SimdGuess::new(my_word.as_str(), my_answer.as_str());

    println!("SimdGuess = {:?}", guess);

    println!("green = {:?}", guess.green());
    println!("black = {:?}", guess.black());
    let (yel_neg, yel_pos) = guess.yellow();
    println!("yellow = ({:?}, {:?})", yel_neg, yel_pos);

    let my_filter = WordleFilter::new();
    println!("Filter = {:?}", my_filter);

    let my_filter = my_filter.with_guess(&guess);
    println!("Filter after guess = {:?}", my_filter);
}

#[test]
fn test_lane_round_trip() {
    let w = SimdWordle::encode("maple").unwrap();
    assert_eq!(w.decode(), "maple");
    let short = SimdWordle::encode("ab").unwrap();
    assert_eq!(short.decode(), "ab");
}

#[test]
fn test_lane_encode_errors() {
    assert_eq!(SimdWordle::encode(""), Err(wordle::EngineError::Encoding));
    assert_eq!(SimdWordle::encode("overlonger"), Err(wordle::EngineError::Encoding));
    assert_eq!(SimdWordle::encode("ab-de"), Err(wordle::EngineError::Encoding));
    assert_eq!(SimdWordle::encode("APPLE"), Err(wordle::EngineError::Encoding));
}

#[test]
fn test_answer_for_guess_budget() {
    // Duplicate letters: the third a of the guess has no remaining budget.
    let target = SimdWordle::from("aab");
    let guess = SimdWordle::from("aaa");
    let answer = target.answer_for_guess(&guess);
    assert_eq!(answer.to_string_rep(), "ggb_____");
}

#[test]
fn test_answer_for_guess_yellow() {
    // A letter present elsewhere earns Yellow until its budget runs out.
    let target = SimdWordle::from("xya");
    let guess = SimdWordle::from("aax");
    let answer = target.answer_for_guess(&guess);
    assert_eq!(answer.to_string_rep(), "yby_____");
}

#[test]
fn test_reply_case_is_lowered() {
    // Replies pack the same way in either case.
    let upper = SimdGuess::new("abc", "GYB");
    let lower = SimdGuess::new("abc", "gyb");
    assert_eq!(upper.green().to_string_rep(), lower.green().to_string_rep());
    assert_eq!(upper.green().to_string_rep(), "a*******");
}

#[test]
fn test_guess_filters_words() {
    // A guess with one Green, one Yellow and one Black narrows a list the
    // same way its parts say it should.
    let words = WordleVec(vec![
        SimdWordle::from("abc"),
        SimdWordle::from("acd"),
        SimdWordle::from("axc"),
        SimdWordle::from("xyz"),
    ]);
    // Guess abc against target axc: a Green, b Black, c Green.
    let guess = SimdGuess::new("abc", "gbg");
    let filter = WordleFilter::new().with_guess(&guess);
    let filtered = words.simd_filter(&filter);
    assert_eq!(
        filtered,
        WordleVec(vec![SimdWordle::from("axc")]),
        "only the word with a..c and no b survives"
    );
}

#[test]
fn test_short_word_membership() {
    // A membership vector from a Yellow lane beyond a short word's length
    // must not match that word's padding: the word passes only if it
    // really holds the letter somewhere.
    let guess = SimdGuess::new("abc", "bby");
    let filter = WordleFilter::new().with_guess(&guess);
    let words = WordleVec(vec![SimdWordle::from("xy"), SimdWordle::from("cx")]);
    let filtered = words.simd_filter(&filter);
    assert_eq!(
        filtered,
        WordleVec(vec![SimdWordle::from("cx")]),
        "only the word that actually holds c survives"
    );
}

#[test]
fn test_word_pads_are_sentinel() {
    // Unused word lanes hold the none sentinel, distinct from letters and
    // from the filters' wildcard.
    let w = SimdWordle::from("ab");
    assert_eq!(w.to_string_rep(), "ab______");
}
