//! A constraint-based guess evaluation engine for fixed-length word games.
//!
//! Given a dictionary of fixed-length words and the feedback gathered from
//! earlier guesses, the engine derives a positional response for any
//! (target, guess) pair, folds responses into a cumulative constraint,
//! filters a word list down to the candidates consistent with that
//! constraint, and scores every dictionary word as a possible next guess.

use vstd::prelude::*;

pub mod bitcoded;
pub mod constraint;
pub mod lanefilter;
pub mod lanes;
pub mod responses;
pub mod scorer;
pub mod tags;

verus! {

/// Errors raised at the engine boundary.  Both indicate a caller bug rather
/// than a recoverable condition: words are validated once, on ingestion.
#[derive(Debug, PartialEq, Eq, Structural, Clone, Copy)]
pub enum EngineError {
    /// A word had the wrong length for the codec, or held a character that
    /// is not a lowercase ASCII letter.
    Encoding,
    /// A target and a guess of different lengths were compared.
    LengthMismatch,
}

/// A valid letter: a lowercase ASCII letter.
pub open spec fn is_letter(c: char) -> bool {
    'a' <= c <= 'z'
}

/// A valid word: every character is a lowercase ASCII letter.
pub open spec fn wf_word(w: Seq<char>) -> bool {
    forall|i: int| 0 <= i < w.len() ==> is_letter(#[trigger] w[i])
}

/// The index of a letter in the 26-symbol alphabet: 0 for 'a' .. 25 for 'z'.
pub open spec fn letter_index(c: char) -> int {
    c as int - 97
}

/// The letter with the given alphabet index.
pub open spec fn letter_at(l: int) -> char {
    (l + 97) as char
}

/// Relies on String::push: appends the given character to the end of the
/// string.
#[verifier::external_body]
pub(crate) fn push_char(s: &mut String, c: char)
    ensures
        final(s)@ == old(s)@.push(c),
{
    s.push(c);
}

/// Tests whether a character is a lowercase ASCII letter.
pub fn is_letter_exec(c: char) -> (r: bool)
    ensures
        r == is_letter(c),
{
    'a' <= c && c <= 'z'
}

} // verus!
