use wordle::bitcoded::BitCodedAnswer;
use wordle::bitcoded::BitCodedGuess;
use wordle::bitcoded::BitCodedLetter;
use wordle::bitcoded::BitCodedWordle;
use wordle::bitcoded::words_to_bitcodedwordle;

#[test]
fn test_conversion() {
    let a = BitCodedLetter::from('a');
    assert_eq!(a.data, 1, "a must be converted to 1");

    let a_char: char = a.to_char();
    assert_eq!(a_char, 'a', "a converted back from 1");

    let z = BitCodedLetter::from('z');
    assert_eq!(z.data, 26, "z must be converted to 27");

    let z_char: char = z.to_char();
    assert_eq!(z_char, 'z', "z converted back from 26");
}

#[test]
fn test_bitcodedanswer() {
    let ben = BitCodedAnswer::from("ggggg");

    assert_eq!(ben.data, 3247203);
}

#[test]
fn test_bitcodedguess() {
    let guess = BitCodedGuess::new("abcde", "gbyyb");

    println!("green for {:?} = {:?}", guess, guess.green_bitcoded());
    println!("black for {:?} = {:?}", guess, guess.black_bitcoded());
    println!("yellow for {:?} = {:?}", guess, guess.yellow_bitcoded());
}

#[test]
fn test_constructor() {
    let ben = BitCodedWordle::new("apple");

    println!("My guess is {:?}", ben);
}

#[test]
fn test_from() {
    let myword = "apple";
    let bitcoded = BitCodedWordle::new(myword);

    println!("myword = {:?}", bitcoded);

    let andback = bitcoded.decode();

    println!("reply was {}", andback);

    assert_eq!(myword, andback);
}

#[test]
fn test_words_to() {
    let mylist = vec!["WORDL", "APPLE"];

    words_to_bitcodedwordle(mylist);
}

#[test]
fn test_packed_round_trip_lowers_case() {
    let coded = BitCodedWordle::new("WoRdL");
    assert_eq!(coded.decode(), "wordl");
    assert_eq!(coded, BitCodedWordle::new("wordl"));
}

#[test]
fn test_packed_encode_errors() {
    assert_eq!(
        BitCodedWordle::encode("abc"),
        Err(wordle::EngineError::Encoding),
        "short words are rejected"
    );
    assert_eq!(
        BitCodedWordle::encode("abcdef"),
        Err(wordle::EngineError::Encoding),
        "long words are rejected"
    );
    assert_eq!(
        BitCodedWordle::encode("abc1e"),
        Err(wordle::EngineError::Encoding),
        "non-letters are rejected"
    );
    assert!(BitCodedWordle::encode("crane").is_ok());
}

#[test]
fn test_packed_equality_agrees_with_words() {
    assert_eq!(BitCodedWordle::new("crane"), BitCodedWordle::new("crane"));
    assert_ne!(BitCodedWordle::new("crane"), BitCodedWordle::new("crate"));
}

#[test]
fn test_green_bitcoded_fields() {
    // abcde against gbyyb keeps only the Green field: letter a in field 0.
    let guess = BitCodedGuess::new("abcde", "gbyyb");
    assert_eq!(guess.green_bitcoded().data, 1);
}

#[test]
fn test_black_bitcoded_splats() {
    // Field 1 (letter b, code 2) is the only Black: one vector of b in
    // every field.
    let guess = BitCodedGuess::new("abcde", "gbyyy");
    let black = guess.black_bitcoded();
    assert_eq!(black.len(), 1);
    assert_eq!(black[0].data, 2 * 0x108421);
}

#[test]
fn test_yellow_bitcoded_spreads() {
    // Field 2 (letter c, code 3) is the only Yellow: one vector of c in
    // every field but its own.
    let guess = BitCodedGuess::new("abcde", "gbybb");
    let yellow = guess.yellow_bitcoded();
    assert_eq!(yellow.len(), 1);
    assert_eq!(yellow[0].data, 3 * (0x108421 ^ (1 << 10)));
}
