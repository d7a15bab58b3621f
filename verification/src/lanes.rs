//! The byte-lane word representation and the lane-vectorized filter.
//!
//! A word is packed into a fixed-width vector of eight byte lanes, its
//! unused lanes holding a sentinel byte distinct from every letter and
//! from the filters' wildcard, so that whole-word comparisons become
//! lane-wise equality masks.  Filters are themselves lane vectors:
//! exact-position requirements mask out wildcard lanes, membership
//! requirements and exclusions compare all lanes at once, and their own
//! unused lanes hold the wildcard, which no word lane ever equals.
//!
//! The lane path exists purely for throughput: it never changes results
//! (see `filter_lanes` and `lemma_lane_scalar_agree`).

use vstd::prelude::*;

use crate::EngineError;
use crate::is_letter;

verus! {

/// The `g` tag byte of a lane-packed reply.
pub const LANE_GREEN: u8 = 103;

/// The `y` tag byte of a lane-packed reply.
pub const LANE_YELLOW: u8 = 121;

/// The `b` tag byte of a lane-packed reply.
pub const LANE_BLACK: u8 = 98;

/// The sentinel of an unused lane in a word or a reply: distinct from
/// every letter and from the wildcard, so no filter lane can match it.
pub const LANE_NONE: u8 = 95;

/// The wildcard of an unused filter lane: an exact-position filter skips
/// wildcard lanes, and no word lane ever holds it, so the unused lanes of
/// membership and negative vectors match nothing.
pub const LANE_ANY: u8 = 42;

/// A lowercase ASCII letter byte.
pub open spec fn is_lower_byte(b: u8) -> bool {
    97 <= b <= 122
}

/// A word padded into eight byte lanes: the characters first, sentinel
/// lanes after them.
pub open spec fn pad_spec(s: Seq<char>) -> Seq<u8> {
    Seq::new(8, |i: int| if i < s.len() { s[i] as u8 } else { LANE_NONE })
}

/// Eight lanes that hold a word of `n` letters: letter bytes first, then
/// sentinel padding.
pub open spec fn wf_lane_word(d: Seq<u8>, n: int) -> bool {
    &&& d.len() == 8
    &&& 0 <= n <= 8
    &&& forall|i: int| 0 <= i < n ==> is_lower_byte(#[trigger] d[i])
    &&& forall|i: int| n <= i < 8 ==> #[trigger] d[i] == LANE_NONE
}

/// The letter count of a lane-packed word is determined by its lanes.
pub proof fn lemma_lane_word_len_unique(d: Seq<u8>, n1: int, n2: int)
    requires
        wf_lane_word(d, n1),
        wf_lane_word(d, n2),
    ensures
        n1 == n2,
{
    if n1 < n2 {
        assert(is_lower_byte(d[n1]));
    }
    if n2 < n1 {
        assert(is_lower_byte(d[n2]));
    }
}

/// The lane codec round-trips: packing a valid word into lanes and
/// reading the letter lanes back as characters returns the word itself.
pub proof fn lemma_lane_round_trip(w: Seq<char>)
    requires
        crate::wf_word(w),
        w.len() <= 8,
    ensures
        wf_lane_word(pad_spec(w), w.len() as int),
        lane_chars(pad_spec(w), w.len() as int) == w,
{
    assert forall|i: int| 0 <= i < w.len() implies is_lower_byte(#[trigger] pad_spec(w)[i]) by {
        assert(is_letter(w[i]));
    }
    assert forall|i: int| 0 <= i < w.len() implies #[trigger] lane_chars(
        pad_spec(w),
        w.len() as int,
    )[i] == w[i] by {
        assert(is_letter(w[i]));
        assert(pad_spec(w)[i] == w[i] as u8);
    }
    assert(lane_chars(pad_spec(w), w.len() as int) =~= w);
}

/// The lane codec agrees with word equality: two valid words pack into
/// the same lanes exactly when they are the same word.
pub proof fn lemma_lane_encode_injective(w1: Seq<char>, w2: Seq<char>)
    requires
        crate::wf_word(w1),
        crate::wf_word(w2),
        w1.len() <= 8,
        w2.len() <= 8,
    ensures
        (pad_spec(w1) == pad_spec(w2)) == (w1 == w2),
{
    if pad_spec(w1) == pad_spec(w2) {
        lemma_lane_round_trip(w1);
        lemma_lane_round_trip(w2);
        lemma_lane_word_len_unique(pad_spec(w1), w1.len() as int, w2.len() as int);
        assert(w1 =~= w2);
    }
    if w1 == w2 {
        assert(pad_spec(w1) =~= pad_spec(w2));
    }
}

/// The letters of a lane-packed word, as characters.
pub open spec fn lane_chars(d: Seq<u8>, n: int) -> Seq<char> {
    Seq::new(n as nat, |i: int| d[i] as char)
}

/// A letter splatted across all eight lanes.
pub open spec fn splat(b: u8) -> Seq<u8> {
    Seq::new(8, |i: int| b)
}

/// One letter of a word, held in a full set of eight lanes.
#[derive(Debug)]
pub struct SimdLetter {
    pub data: Vec<u8>,
}

/// A word packed into eight byte lanes.
#[derive(Debug)]
pub struct SimdWordle {
    data: Vec<u8>,
}

impl View for SimdWordle {
    type V = Seq<u8>;

    closed spec fn view(&self) -> Seq<u8> {
        self.data@
    }
}

/// A lane-packed reply: one tag byte per letter lane, sentinel after.
#[derive(Debug)]
pub struct SimdAnswer {
    data: Vec<u8>,
}

impl View for SimdAnswer {
    type V = Seq<u8>;

    closed spec fn view(&self) -> Seq<u8> {
        self.data@
    }
}

/// A reply character, lowered and packed: `g`, `y` or `b` as a byte.
pub open spec fn reply_byte(c: char) -> u8 {
    if c == 'g' || c == 'G' {
        LANE_GREEN
    } else if c == 'y' || c == 'Y' {
        LANE_YELLOW
    } else {
        LANE_BLACK
    }
}

/// A reply character: one of `g`, `y`, `b`, in either case.
pub open spec fn is_reply_char(c: char) -> bool {
    c == 'g' || c == 'y' || c == 'b' || c == 'G' || c == 'Y' || c == 'B'
}

impl SimdWordle {
    /// Packs a word of at most eight ASCII characters into lanes, padding
    /// with the sentinel byte.
    pub fn from(s: &str) -> (r: SimdWordle)
        requires
            s.is_ascii(),
            s@.len() <= 8,
        ensures
            r@ == pad_spec(s@),
    {
        let len = s.unicode_len();
        let mut data: Vec<u8> = Vec::new();
        let mut i: usize = 0;
        while i < 8
            invariant
                i <= 8,
                data@.len() == i,
                s.is_ascii(),
                len == s@.len(),
                len <= 8,
                forall|j: int| 0 <= j < i ==> #[trigger] data@[j] == pad_spec(s@)[j],
            decreases 8 - i,
        {
            if i < len {
                data.push(s.get_ascii(i));
            } else {
                data.push(LANE_NONE);
            }
            i = i + 1;
        }
        let r = SimdWordle { data };
        proof {
            assert(r@ =~= pad_spec(s@));
        }
        r
    }

    /// Encodes a word for the lane codec.  Succeeds exactly on words of one
    /// to eight lowercase ASCII letters; anything else is an encoding error.
    pub fn encode(s: &str) -> (r: Result<SimdWordle, EngineError>)
        ensures
            (crate::wf_word(s@) && 1 <= s@.len() <= 8) ==> (r matches Ok(w) && w@ == pad_spec(
                s@,
            ) && wf_lane_word(w@, s@.len() as int)),
            !(crate::wf_word(s@) && 1 <= s@.len() <= 8) ==> (r matches Err(e) && e
                == EngineError::Encoding),
    {
        let len = s.unicode_len();
        if len < 1 || len > 8 {
            return Err(EngineError::Encoding);
        }
        let mut i: usize = 0;
        while i < len
            invariant
                i <= len,
                len == s@.len(),
                len <= 8,
                forall|j: int| 0 <= j < i ==> is_letter(#[trigger] s@[j]),
            decreases len - i,
        {
            let c = s.get_char(i);
            if !('a' <= c && c <= 'z') {
                return Err(EngineError::Encoding);
            }
            i = i + 1;
        }
        proof {
            assert(crate::wf_word(s@));
            assert forall|j: int| 0 <= j < s@.len() implies is_lower_byte(
                #[trigger] pad_spec(s@)[j],
            ) by {
                assert(is_letter(s@[j]));
            }
        }
        Ok(SimdWordle::from(s))
    }

    /// Builds a lane vector directly from its eight lanes.
    pub fn from_lanes(data: Vec<u8>) -> (r: SimdWordle)
        requires
            data@.len() == 8,
        ensures
            r@ == data@,
    {
        SimdWordle { data }
    }

    /// Writes all eight lanes out as characters, padding included.
    pub fn to_string_rep(&self) -> (r: String)
        requires
            self@.len() == 8,
            forall|i: int| 0 <= i < 8 ==> #[trigger] self@[i] < 128,
        ensures
            r@.len() == 8,
            forall|i: int| 0 <= i < 8 ==> #[trigger] r@[i] == (self@[i] as char),
    {
        let mut out = String::new();
        let mut i: usize = 0;
        while i < 8
            invariant
                i <= 8,
                self@.len() == 8,
                forall|k: int| 0 <= k < 8 ==> #[trigger] self@[k] < 128,
                out@.len() == i,
                forall|j: int| 0 <= j < i ==> #[trigger] out@[j] == (self@[j] as char),
            decreases 8 - i,
        {
            crate::push_char(&mut out, self.data[i] as char);
            i = i + 1;
        }
        out
    }

    /// Decodes the letters back out of the lanes, dropping the padding.
    pub fn decode(&self) -> (r: String)
        requires
            exists|n: int| wf_lane_word(self@, n),
        ensures
            wf_lane_word(self@, r@.len() as int),
            forall|i: int| 0 <= i < r@.len() ==> #[trigger] r@[i] == (self@[i] as char),
    {
        let ghost n = choose|n: int| wf_lane_word(self@, n);
        let mut out = String::new();
        let mut i: usize = 0;
        while i < 8
            invariant
                i <= 8,
                wf_lane_word(self@, n),
                i <= n ==> out@.len() == i,
                i > n ==> out@.len() == n,
                forall|j: int| 0 <= j < out@.len() ==> #[trigger] out@[j] == (self@[j] as char),
            decreases 8 - i,
        {
            let b = self.data[i];
            if 97 <= b && b <= 122 {
                proof {
                    assert(i < n) by {
                        if i >= n {
                            assert(self@[i as int] == LANE_NONE);
                        }
                    }
                }
                crate::push_char(&mut out, b as char);
            } else {
                proof {
                    assert(i >= n) by {
                        if i < n {
                            assert(is_lower_byte(self@[i as int]));
                        }
                    }
                }
            }
            i = i + 1;
        }
        out
    }
}

impl SimdAnswer {
    /// Writes all eight lanes out as characters, padding included.
    pub fn to_string_rep(&self) -> (r: String)
        requires
            self@.len() == 8,
            forall|i: int| 0 <= i < 8 ==> #[trigger] self@[i] < 128,
        ensures
            r@.len() == 8,
            forall|i: int| 0 <= i < 8 ==> #[trigger] r@[i] == (self@[i] as char),
    {
        let mut out = String::new();
        let mut i: usize = 0;
        while i < 8
            invariant
                i <= 8,
                self@.len() == 8,
                forall|k: int| 0 <= k < 8 ==> #[trigger] self@[k] < 128,
                out@.len() == i,
                forall|j: int| 0 <= j < i ==> #[trigger] out@[j] == (self@[j] as char),
            decreases 8 - i,
        {
            crate::push_char(&mut out, self.data[i] as char);
            i = i + 1;
        }
        out
    }

    /// Packs a reply of one to eight tag characters into lanes, lowering
    /// the case and padding with the sentinel byte.
    pub fn from(s: &str) -> (r: SimdAnswer)
        requires
            1 <= s@.len() <= 8,
            forall|i: int| 0 <= i < s@.len() ==> is_reply_char(#[trigger] s@[i]),
        ensures
            r@.len() == 8,
            forall|i: int|
                0 <= i < 8 ==> #[trigger] r@[i] == (if i < s@.len() {
                    reply_byte(s@[i])
                } else {
                    LANE_NONE
                }),
    {
        let len = s.unicode_len();
        let mut data: Vec<u8> = Vec::new();
        let mut i: usize = 0;
        while i < 8
            invariant
                i <= 8,
                data@.len() == i,
                len == s@.len(),
                1 <= len <= 8,
                forall|k: int| 0 <= k < s@.len() ==> is_reply_char(#[trigger] s@[k]),
                forall|j: int|
                    0 <= j < i ==> #[trigger] data@[j] == (if j < s@.len() {
                        reply_byte(s@[j])
                    } else {
                        LANE_NONE
                    }),
            decreases 8 - i,
        {
            if i < len {
                let c = s.get_char(i);
                if c == 'g' || c == 'G' {
                    data.push(LANE_GREEN);
                } else if c == 'y' || c == 'Y' {
                    data.push(LANE_YELLOW);
                } else {
                    data.push(LANE_BLACK);
                }
            } else {
                data.push(LANE_NONE);
            }
            i = i + 1;
        }
        SimdAnswer { data }
    }
}


/// The tag byte of a letter tag.
pub open spec fn tag_byte(t: crate::tags::LetterTag) -> u8 {
    match t {
        crate::tags::LetterTag::Green => LANE_GREEN,
        crate::tags::LetterTag::Yellow => LANE_YELLOW,
        crate::tags::LetterTag::Black => LANE_BLACK,
    }
}

/// A reply padded into eight lanes: tag bytes first, sentinel after.
pub open spec fn reply_pad_spec(s: Seq<char>) -> Seq<u8> {
    Seq::new(8, |i: int| if i < s.len() { reply_byte(s[i]) } else { LANE_NONE })
}

impl SimdWordle {
    /// Derives the lane-packed reply this word (as the target) would give
    /// for a guess, using the occurrence-budgeted two-pass algorithm on the
    /// letter lanes; the padding lanes carry the sentinel byte.
    pub fn answer_for_guess(&self, guess: &SimdWordle) -> (r: SimdAnswer)
        requires
            exists|n: int| wf_lane_word(self@, n) && wf_lane_word(guess@, n),
        ensures
            forall|n: int|
                wf_lane_word(self@, n) && wf_lane_word(guess@, n) ==> r@ == Seq::new(
                    8,
                    |i: int|
                        if i < n {
                            tag_byte(
                                crate::tags::tags_of(lane_chars(self@, n), lane_chars(guess@, n))[i],
                            )
                        } else {
                            LANE_NONE
                        },
                ),
    {
        let ghost n0 = choose|n: int| wf_lane_word(self@, n) && wf_lane_word(guess@, n);
        let ts = self.decode();
        let gs = guess.decode();
        proof {
            lemma_lane_word_len_unique(self@, ts@.len() as int, n0);
            lemma_lane_word_len_unique(guess@, gs@.len() as int, n0);
            assert forall|i: int| 0 <= i < ts@.len() implies is_letter(#[trigger] ts@[i]) by {
                assert(is_lower_byte(self@[i]));
                assert(ts@[i] == (self@[i] as char));
            }
            assert forall|i: int| 0 <= i < gs@.len() implies is_letter(#[trigger] gs@[i]) by {
                assert(is_lower_byte(guess@[i]));
                assert(gs@[i] == (guess@[i] as char));
            }
            assert(ts@ =~= lane_chars(self@, n0));
            assert(gs@ =~= lane_chars(guess@, n0));
        }
        let tags = crate::tags::derive_tags(ts.as_str(), gs.as_str());
        let len = ts.as_str().unicode_len();
        let mut data: Vec<u8> = Vec::new();
        let mut i: usize = 0;
        while i < 8
            invariant
                i <= 8,
                data@.len() == i,
                len == n0,
                tags@ == crate::tags::tags_of(lane_chars(self@, n0), lane_chars(guess@, n0)),
                tags@.len() == n0,
                forall|j: int|
                    0 <= j < i ==> #[trigger] data@[j] == (if j < n0 {
                        tag_byte(tags@[j])
                    } else {
                        LANE_NONE
                    }),
            decreases 8 - i,
        {
            if i < len {
                match tags[i] {
                    crate::tags::LetterTag::Green => data.push(LANE_GREEN),
                    crate::tags::LetterTag::Yellow => data.push(LANE_YELLOW),
                    crate::tags::LetterTag::Black => data.push(LANE_BLACK),
                }
            } else {
                data.push(LANE_NONE);
            }
            i = i + 1;
        }
        let r = SimdAnswer { data };
        proof {
            assert forall|n: int| wf_lane_word(self@, n) && wf_lane_word(guess@, n) implies r@
                == Seq::new(
                8,
                |i: int|
                    if i < n {
                        tag_byte(
                            crate::tags::tags_of(lane_chars(self@, n), lane_chars(guess@, n))[i],
                        )
                    } else {
                        LANE_NONE
                    },
            ) by {
                lemma_lane_word_len_unique(self@, n, n0);
                assert(r@ =~= Seq::new(
                    8,
                    |i: int|
                        if i < n {
                            tag_byte(
                                crate::tags::tags_of(lane_chars(self@, n), lane_chars(guess@, n))[i],
                            )
                        } else {
                            LANE_NONE
                        },
                ));
            }
        }
        r
    }
}

/// Copies a lane-packed word.
fn copy_word(w: &SimdWordle) -> (r: SimdWordle)
    ensures
        r@ == w@,
{
    let mut data: Vec<u8> = Vec::new();
    let mut i: usize = 0;
    while i < w.data.len()
        invariant
            i <= w@.len(),
            data@.len() == i,
            forall|j: int| 0 <= j < i ==> #[trigger] data@[j] == w@[j],
        decreases w@.len() - i,
    {
        data.push(w.data[i]);
        i = i + 1;
    }
    let r = SimdWordle { data };
    proof {
        assert(r@ =~= w@);
    }
    r
}

/// Compares two lane vectors.
fn lanes_eq(a: &SimdWordle, b: &SimdWordle) -> (r: bool)
    ensures
        r == (a@ == b@),
{
    if a.data.len() != b.data.len() {
        proof {
            assert(a@.len() != b@.len());
        }
        return false;
    }
    let mut i: usize = 0;
    while i < a.data.len()
        invariant
            i <= a@.len(),
            a@.len() == b@.len(),
            forall|j: int| 0 <= j < i ==> #[trigger] a@[j] == b@[j],
        decreases a@.len() - i,
    {
        if a.data[i] != b.data[i] {
            return false;
        }
        i = i + 1;
    }
    proof {
        assert(a@ =~= b@);
    }
    true
}

impl PartialEq for SimdWordle {
    /// Two lane vectors are equal when they hold the same bytes lane by
    /// lane.
    fn eq(&self, other: &SimdWordle) -> (r: bool) {
        lanes_eq(self, other)
    }
}

impl vstd::std_specs::cmp::PartialEqSpecImpl for SimdWordle {
    open spec fn obeys_eq_spec() -> bool {
        true
    }

    open spec fn eq_spec(&self, other: &SimdWordle) -> bool {
        self@ == other@
    }
}

/// An ordered list of lane-packed words.
#[derive(Debug)]
pub struct WordleVec(pub Vec<SimdWordle>);

impl View for WordleVec {
    type V = Seq<Seq<u8>>;

    open spec fn view(&self) -> Seq<Seq<u8>> {
        Seq::new(self.0@.len(), |i: int| self.0@[i]@)
    }
}

impl PartialEq for WordleVec {
    /// Two word lists are equal when they hold the same lanes in the same
    /// order.
    fn eq(&self, other: &WordleVec) -> (r: bool) {
        if self.0.len() != other.0.len() {
            proof {
                assert(self@.len() != other@.len());
            }
            return false;
        }
        let mut i: usize = 0;
        while i < self.0.len()
            invariant
                i <= self@.len(),
                self@.len() == other@.len(),
                self@.len() == self.0@.len(),
                other@.len() == other.0@.len(),
                forall|j: int| 0 <= j < i ==> #[trigger] self@[j] == other@[j],
            decreases self@.len() - i,
        {
            if !lanes_eq(&self.0[i], &other.0[i]) {
                proof {
                    assert(self@[i as int] == self.0@[i as int]@);
                    assert(other@[i as int] == other.0@[i as int]@);
                    assert(self@[i as int] != other@[i as int]);
                }
                return false;
            }
            i = i + 1;
        }
        proof {
            assert(self@ =~= other@);
        }
        true
    }
}

impl vstd::std_specs::cmp::PartialEqSpecImpl for WordleVec {
    open spec fn obeys_eq_spec() -> bool {
        true
    }

    open spec fn eq_spec(&self, other: &WordleVec) -> bool {
        self@ == other@
    }
}

/// Builds the list of lane-packed words for a list of plain words.
pub fn word_to_simdwordle(words: Vec<&str>) -> (r: WordleVec)
    requires
        forall|i: int|
            0 <= i < words@.len() ==> (#[trigger] words@[i]).is_ascii() && words@[i]@.len() <= 8,
    ensures
        r@.len() == words@.len(),
        forall|i: int| 0 <= i < words@.len() ==> #[trigger] r@[i] == pad_spec(words@[i]@),
{
    let mut out: Vec<SimdWordle> = Vec::new();
    let mut i: usize = 0;
    while i < words.len()
        invariant
            i <= words@.len(),
            out@.len() == i,
            forall|k: int|
                0 <= k < words@.len() ==> (#[trigger] words@[k]).is_ascii() && words@[k]@.len()
                    <= 8,
            forall|j: int| 0 <= j < i ==> #[trigger] out@[j]@ == pad_spec(words@[j]@),
        decreases words@.len() - i,
    {
        out.push(SimdWordle::from(words[i]));
        i = i + 1;
    }
    WordleVec(out)
}

impl WordleVec {
    /// Builds the list of lane-packed words for a list of plain words.
    pub fn from(words: Vec<&str>) -> (r: WordleVec)
        requires
            forall|i: int|
                0 <= i < words@.len() ==> (#[trigger] words@[i]).is_ascii() && words@[i]@.len()
                    <= 8,
        ensures
            r@.len() == words@.len(),
            forall|i: int| 0 <= i < words@.len() ==> #[trigger] r@[i] == pad_spec(words@[i]@),
    {
        word_to_simdwordle(words)
    }
}

/// An exact-position match: every non-wildcard filter lane equals the word
/// lane.
pub open spec fn match_all(f: Seq<u8>, d: Seq<u8>) -> bool {
    forall|i: int| 0 <= i < 8 ==> (#[trigger] f[i] == LANE_ANY || f[i] == d[i])
}

/// A membership match: some filter lane equals the word lane beside it.
pub open spec fn match_any(f: Seq<u8>, d: Seq<u8>) -> bool {
    exists|i: int| 0 <= i < 8 && #[trigger] f[i] == d[i]
}

/// Whether a lane-packed word passes a filter: it matches every
/// exact-position vector, matches each membership vector somewhere, and
/// matches no negative vector anywhere.
pub open spec fn lane_passes(d: Seq<u8>, alls: Seq<Seq<u8>>, anys: Seq<Seq<u8>>, negs: Seq<Seq<u8>>) -> bool {
    &&& forall|k: int| 0 <= k < alls.len() ==> match_all(#[trigger] alls[k], d)
    &&& forall|k: int| 0 <= k < anys.len() ==> match_any(#[trigger] anys[k], d)
    &&& forall|k: int| 0 <= k < negs.len() ==> !match_any(#[trigger] negs[k], d)
}

fn match_all_exec(f: &SimdWordle, d: &SimdWordle) -> (r: bool)
    requires
        f@.len() == 8,
        d@.len() == 8,
    ensures
        r == match_all(f@, d@),
{
    let mut i: usize = 0;
    while i < 8
        invariant
            i <= 8,
            f@.len() == 8,
            d@.len() == 8,
            forall|j: int| 0 <= j < i ==> (#[trigger] f@[j] == LANE_ANY || f@[j] == d@[j]),
        decreases 8 - i,
    {
        let fb = f.data[i];
        if fb != LANE_ANY && fb != d.data[i] {
            return false;
        }
        i = i + 1;
    }
    true
}

fn match_any_exec(f: &SimdWordle, d: &SimdWordle) -> (r: bool)
    requires
        f@.len() == 8,
        d@.len() == 8,
    ensures
        r == match_any(f@, d@),
{
    let mut i: usize = 0;
    while i < 8
        invariant
            i <= 8,
            f@.len() == 8,
            d@.len() == 8,
            forall|j: int| 0 <= j < i ==> #[trigger] f@[j] != d@[j],
        decreases 8 - i,
    {
        if f.data[i] == d.data[i] {
            return true;
        }
        i = i + 1;
    }
    false
}

/// A filter over lane-packed words, built from guesses or by hand.
///
/// Every vector uses the wildcard byte in its unused lanes: an
/// exact-position vector skips those lanes outright, and in a membership
/// or negative vector they never match by accident, because no word lane
/// holds the wildcard.
#[derive(Debug)]
pub struct WordleFilter {
    positive_all: WordleVec,
    positive_any: WordleVec,
    negative: WordleVec,
}

/// The exact-position vectors of a filter.
pub closed spec fn all_vecs(f: WordleFilter) -> Seq<Seq<u8>> {
    f.positive_all@
}

/// The membership vectors of a filter.
pub closed spec fn any_vecs(f: WordleFilter) -> Seq<Seq<u8>> {
    f.positive_any@
}

/// The negative vectors of a filter.
pub closed spec fn neg_vecs(f: WordleFilter) -> Seq<Seq<u8>> {
    f.negative@
}

/// Every vector of the filter spans the full eight lanes.
pub open spec fn wf_vecs(vs: Seq<Seq<u8>>) -> bool {
    forall|k: int| 0 <= k < vs.len() ==> (#[trigger] vs[k]).len() == 8
}

/// A well-formed filter: all its vectors span eight lanes.
pub open spec fn wf_filter(f: WordleFilter) -> bool {
    wf_vecs(all_vecs(f)) && wf_vecs(any_vecs(f)) && wf_vecs(neg_vecs(f))
}

impl WordleFilter {
    /// The empty filter: every word passes it.
    pub fn new() -> (f: WordleFilter)
        ensures
            wf_filter(f),
            all_vecs(f).len() == 0,
            any_vecs(f).len() == 0,
            neg_vecs(f).len() == 0,
    {
        WordleFilter {
            positive_all: WordleVec(Vec::new()),
            positive_any: WordleVec(Vec::new()),
            negative: WordleVec(Vec::new()),
        }
    }

    /// Adds an exact-position requirement: surviving words must equal the
    /// vector on its non-wildcard lanes.
    pub fn require_all(self, rhs: SimdWordle) -> (f: WordleFilter)
        requires
            rhs@.len() == 8,
        ensures
            all_vecs(f) == all_vecs(self).push(rhs@),
            any_vecs(f) == any_vecs(self),
            neg_vecs(f) == neg_vecs(self),
            wf_filter(self) ==> wf_filter(f),
    {
        let WordleFilter { positive_all, positive_any, negative } = self;
        let mut v = positive_all;
        v.0.push(rhs);
        let f = WordleFilter { positive_all: v, positive_any, negative };
        proof {
            assert(all_vecs(f) =~= all_vecs(self).push(rhs@));
        }
        f
    }

    /// Adds a membership requirement: surviving words must match the
    /// vector on at least one lane.
    pub fn require_any(self, rhs: SimdWordle) -> (f: WordleFilter)
        requires
            rhs@.len() == 8,
        ensures
            all_vecs(f) == all_vecs(self),
            any_vecs(f) == any_vecs(self).push(rhs@),
            neg_vecs(f) == neg_vecs(self),
            wf_filter(self) ==> wf_filter(f),
    {
        let WordleFilter { positive_all, positive_any, negative } = self;
        let mut v = positive_any;
        v.0.push(rhs);
        let f = WordleFilter { positive_all, positive_any: v, negative };
        proof {
            assert(any_vecs(f) =~= any_vecs(self).push(rhs@));
        }
        f
    }

    /// Adds an exclusion: surviving words must match the vector on no lane.
    pub fn exclude(self, rhs: SimdWordle) -> (f: WordleFilter)
        requires
            rhs@.len() == 8,
        ensures
            all_vecs(f) == all_vecs(self),
            any_vecs(f) == any_vecs(self),
            neg_vecs(f) == neg_vecs(self).push(rhs@),
            wf_filter(self) ==> wf_filter(f),
    {
        let WordleFilter { positive_all, positive_any, negative } = self;
        let mut v = negative;
        v.0.push(rhs);
        let f = WordleFilter { positive_all, positive_any, negative: v };
        proof {
            assert(neg_vecs(f) =~= neg_vecs(self).push(rhs@));
        }
        f
    }
}

/// Whether a word passes a filter, decided lane-wise.
pub fn word_passes(d: &SimdWordle, filter: &WordleFilter) -> (r: bool)
    requires
        d@.len() == 8,
        wf_filter(*filter),
    ensures
        r == lane_passes(d@, all_vecs(*filter), any_vecs(*filter), neg_vecs(*filter)),
{
    let mut k: usize = 0;
    while k < filter.positive_all.0.len()
        invariant
            k <= all_vecs(*filter).len(),
            d@.len() == 8,
            wf_filter(*filter),
            all_vecs(*filter).len() == filter.positive_all.0@.len(),
            forall|j: int| 0 <= j < k ==> match_all(#[trigger] all_vecs(*filter)[j], d@),
        decreases all_vecs(*filter).len() - k,
    {
        proof {
            assert(filter.positive_all.0@[k as int]@ == all_vecs(*filter)[k as int]);
            assert(all_vecs(*filter)[k as int].len() == 8);
        }
        if !match_all_exec(&filter.positive_all.0[k], d) {
            proof {
                assert(!match_all(all_vecs(*filter)[k as int], d@));
            }
            return false;
        }
        k = k + 1;
    }
    let mut k: usize = 0;
    while k < filter.positive_any.0.len()
        invariant
            k <= any_vecs(*filter).len(),
            d@.len() == 8,
            wf_filter(*filter),
            any_vecs(*filter).len() == filter.positive_any.0@.len(),
            forall|j: int| 0 <= j < k ==> match_any(#[trigger] any_vecs(*filter)[j], d@),
        decreases any_vecs(*filter).len() - k,
    {
        proof {
            assert(filter.positive_any.0@[k as int]@ == any_vecs(*filter)[k as int]);
            assert(any_vecs(*filter)[k as int].len() == 8);
        }
        if !match_any_exec(&filter.positive_any.0[k], d) {
            proof {
                assert(!match_any(any_vecs(*filter)[k as int], d@));
            }
            return false;
        }
        k = k + 1;
    }
    let mut k: usize = 0;
    while k < filter.negative.0.len()
        invariant
            k <= neg_vecs(*filter).len(),
            d@.len() == 8,
            wf_filter(*filter),
            neg_vecs(*filter).len() == filter.negative.0@.len(),
            forall|j: int| 0 <= j < k ==> !match_any(#[trigger] neg_vecs(*filter)[j], d@),
            forall|j: int| 0 <= j < all_vecs(*filter).len() ==> match_all(
                #[trigger] all_vecs(*filter)[j],
                d@,
            ),
            forall|j: int| 0 <= j < any_vecs(*filter).len() ==> match_any(
                #[trigger] any_vecs(*filter)[j],
                d@,
            ),
        decreases neg_vecs(*filter).len() - k,
    {
        proof {
            assert(filter.negative.0@[k as int]@ == neg_vecs(*filter)[k as int]);
            assert(neg_vecs(*filter)[k as int].len() == 8);
        }
        if match_any_exec(&filter.negative.0[k], d) {
            proof {
                assert(match_any(neg_vecs(*filter)[k as int], d@));
            }
            return false;
        }
        k = k + 1;
    }
    true
}

impl WordleVec {
    /// Filters the word list through the lane filter, keeping the original
    /// order.  This is the batched counterpart of the scalar candidate
    /// filter; it exists for throughput and never changes results.
    pub fn simd_filter(&self, filter: &WordleFilter) -> (r: WordleVec)
        requires
            wf_vecs(self@),
            wf_filter(*filter),
        ensures
            r@ == self@.filter(
                |d: Seq<u8>|
                    lane_passes(d, all_vecs(*filter), any_vecs(*filter), neg_vecs(*filter)),
            ),
    {
        let ghost pred = |d: Seq<u8>|
            lane_passes(d, all_vecs(*filter), any_vecs(*filter), neg_vecs(*filter));
        let mut out: Vec<SimdWordle> = Vec::new();
        let mut i: usize = 0;
        while i < self.0.len()
            invariant
                i <= self@.len(),
                self@.len() == self.0@.len(),
                wf_vecs(self@),
                wf_filter(*filter),
                pred == (|d: Seq<u8>|
                    lane_passes(d, all_vecs(*filter), any_vecs(*filter), neg_vecs(*filter))),
                WordleVec(out)@ == self@.take(i as int).filter(pred),
            decreases self@.len() - i,
        {
            proof {
                crate::constraint::lemma_filter_take_step(self@, pred, i as int);
                assert(self@[i as int] == self.0@[i as int]@);
            }
            let ghost before = WordleVec(out)@;
            if word_passes(&self.0[i], filter) {
                out.push(copy_word(&self.0[i]));
                proof {
                    assert(WordleVec(out)@ =~= before.push(self@[i as int]));
                }
            }
            i = i + 1;
        }
        proof {
            assert(self@.take(self@.len() as int) =~= self@);
        }
        WordleVec(out)
    }
}


/// The negative vectors a reply's Black lanes contribute: each Black lane's
/// guess letter, splatted across all lanes, taken in lane order over the
/// first `n` lanes.
pub open spec fn black_vecs(g: Seq<u8>, r: Seq<u8>, n: int) -> Seq<Seq<u8>>
    decreases n,
{
    if n <= 0 {
        Seq::empty()
    } else {
        black_vecs(g, r, n - 1) + if r[n - 1] == LANE_BLACK {
            seq![splat(g[n - 1])]
        } else {
            Seq::empty()
        }
    }
}

/// The negative vector of one Yellow lane: its guess letter at its own
/// position, the wildcard elsewhere, so it rejects exactly the words that
/// repeat the letter in that very position.
pub open spec fn yellow_neg_vec(g: Seq<u8>, i: int) -> Seq<u8> {
    Seq::new(8, |j: int| if j == i { g[i] } else { LANE_ANY })
}

/// The membership vector of one Yellow lane: its guess letter everywhere
/// but its own position, so it requires the letter somewhere else.
pub open spec fn yellow_pos_vec(g: Seq<u8>, i: int) -> Seq<u8> {
    Seq::new(8, |j: int| if j == i { LANE_ANY } else { g[i] })
}

/// The negative vectors of a reply's Yellow lanes, in lane order.
pub open spec fn yellow_neg_vecs(g: Seq<u8>, r: Seq<u8>, n: int) -> Seq<Seq<u8>>
    decreases n,
{
    if n <= 0 {
        Seq::empty()
    } else {
        yellow_neg_vecs(g, r, n - 1) + if r[n - 1] == LANE_YELLOW {
            seq![yellow_neg_vec(g, n - 1)]
        } else {
            Seq::empty()
        }
    }
}

/// The membership vectors of a reply's Yellow lanes, in lane order.
pub open spec fn yellow_pos_vecs(g: Seq<u8>, r: Seq<u8>, n: int) -> Seq<Seq<u8>>
    decreases n,
{
    if n <= 0 {
        Seq::empty()
    } else {
        yellow_pos_vecs(g, r, n - 1) + if r[n - 1] == LANE_YELLOW {
            seq![yellow_pos_vec(g, n - 1)]
        } else {
            Seq::empty()
        }
    }
}

/// Splats one byte across all eight lanes.
pub fn splat_word(b: u8) -> (r: SimdWordle)
    ensures
        r@ == splat(b),
{
    let mut data: Vec<u8> = Vec::new();
    let mut i: usize = 0;
    while i < 8
        invariant
            i <= 8,
            data@.len() == i,
            forall|j: int| 0 <= j < i ==> #[trigger] data@[j] == b,
        decreases 8 - i,
    {
        data.push(b);
        i = i + 1;
    }
    let r = SimdWordle { data };
    proof {
        assert(r@ =~= splat(b));
    }
    r
}

/// A guess together with the reply it received, both lane-packed.
#[derive(Debug)]
pub struct SimdGuess {
    guess: SimdWordle,
    reply: SimdAnswer,
}

/// The guess lanes of a lane-packed guess.
pub closed spec fn guess_lanes(g: SimdGuess) -> Seq<u8> {
    g.guess@
}

/// The reply lanes of a lane-packed guess.
pub closed spec fn reply_lanes(g: SimdGuess) -> Seq<u8> {
    g.reply@
}

/// A well-formed lane-packed guess: both parts span eight lanes.
pub open spec fn wf_guess(g: SimdGuess) -> bool {
    guess_lanes(g).len() == 8 && reply_lanes(g).len() == 8
}

impl SimdGuess {
    /// Packs a guess word and its reply string into lanes.
    pub fn new(guess: &str, reply: &str) -> (r: SimdGuess)
        requires
            guess.is_ascii(),
            guess@.len() <= 8,
            1 <= reply@.len() <= 8,
            forall|i: int| 0 <= i < reply@.len() ==> is_reply_char(#[trigger] reply@[i]),
        ensures
            wf_guess(r),
            guess_lanes(r) == pad_spec(guess@),
            reply_lanes(r) == reply_pad_spec(reply@),
    {
        let g = SimdWordle::from(guess);
        let a = SimdAnswer::from(reply);
        let r = SimdGuess { guess: g, reply: a };
        proof {
            assert(reply_lanes(r) =~= reply_pad_spec(reply@));
        }
        r
    }

    /// The exact-position vector of this guess: its letters on the Green
    /// lanes, the wildcard elsewhere.
    pub fn green(&self) -> (r: SimdWordle)
        requires
            wf_guess(*self),
        ensures
            r@.len() == 8,
            forall|i: int|
                0 <= i < 8 ==> #[trigger] r@[i] == (if reply_lanes(*self)[i] == LANE_GREEN {
                    guess_lanes(*self)[i]
                } else {
                    LANE_ANY
                }),
    {
        let mut data: Vec<u8> = Vec::new();
        let mut i: usize = 0;
        while i < 8
            invariant
                i <= 8,
                data@.len() == i,
                wf_guess(*self),
                forall|j: int|
                    0 <= j < i ==> #[trigger] data@[j] == (if reply_lanes(*self)[j] == LANE_GREEN {
                        guess_lanes(*self)[j]
                    } else {
                        LANE_ANY
                    }),
            decreases 8 - i,
        {
            if self.reply.data[i] == LANE_GREEN {
                data.push(self.guess.data[i]);
            } else {
                data.push(LANE_ANY);
            }
            i = i + 1;
        }
        SimdWordle { data }
    }

    /// The negative vectors of this guess's Black lanes: each Black letter
    /// splatted across all lanes, rejecting any word that holds it anywhere.
    /// A letter both Green and Black in one reply is rejected outright
    /// here; the cumulative constraint path lets inclusion win instead.
    pub fn black(&self) -> (r: WordleVec)
        requires
            wf_guess(*self),
        ensures
            r@ == black_vecs(guess_lanes(*self), reply_lanes(*self), 8),
    {
        let ghost g = guess_lanes(*self);
        let ghost rp = reply_lanes(*self);
        let mut out: Vec<SimdWordle> = Vec::new();
        let mut i: usize = 0;
        while i < 8
            invariant
                i <= 8,
                wf_guess(*self),
                g == guess_lanes(*self),
                rp == reply_lanes(*self),
                WordleVec(out)@ == black_vecs(g, rp, i as int),
            decreases 8 - i,
        {
            let ghost before = WordleVec(out)@;
            if self.reply.data[i] == LANE_BLACK {
                out.push(splat_word(self.guess.data[i]));
                proof {
                    assert(WordleVec(out)@ =~= before.push(splat(g[i as int])));
                    assert(black_vecs(g, rp, i as int + 1) =~= before.push(splat(g[i as int])));
                }
            } else {
                proof {
                    assert(black_vecs(g, rp, i as int + 1) =~= before);
                }
            }
            i = i + 1;
        }
        WordleVec(out)
    }

    /// The vectors of this guess's Yellow lanes: for each, a negative
    /// vector that rejects the letter at its own position, and a
    /// membership vector that requires it somewhere else.
    pub fn yellow(&self) -> (r: (WordleVec, WordleVec))
        requires
            wf_guess(*self),
        ensures
            r.0@ == yellow_neg_vecs(guess_lanes(*self), reply_lanes(*self), 8),
            r.1@ == yellow_pos_vecs(guess_lanes(*self), reply_lanes(*self), 8),
    {
        let ghost g = guess_lanes(*self);
        let ghost rp = reply_lanes(*self);
        let mut neg: Vec<SimdWordle> = Vec::new();
        let mut pos: Vec<SimdWordle> = Vec::new();
        let mut i: usize = 0;
        while i < 8
            invariant
                i <= 8,
                wf_guess(*self),
                g == guess_lanes(*self),
                rp == reply_lanes(*self),
                WordleVec(neg)@ == yellow_neg_vecs(g, rp, i as int),
                WordleVec(pos)@ == yellow_pos_vecs(g, rp, i as int),
            decreases 8 - i,
        {
            let ghost nbefore = WordleVec(neg)@;
            let ghost pbefore = WordleVec(pos)@;
            if self.reply.data[i] == LANE_YELLOW {
                let letter = self.guess.data[i];
                let mut ndata: Vec<u8> = Vec::new();
                let mut pdata: Vec<u8> = Vec::new();
                let mut j: usize = 0;
                while j < 8
                    invariant
                        j <= 8,
                        ndata@.len() == j,
                        pdata@.len() == j,
                        i < 8,
                        g == guess_lanes(*self),
                        wf_guess(*self),
                        letter == g[i as int],
                        forall|k: int|
                            0 <= k < j ==> #[trigger] ndata@[k] == (if k == i as int {
                                g[i as int]
                            } else {
                                LANE_ANY
                            }),
                        forall|k: int|
                            0 <= k < j ==> #[trigger] pdata@[k] == (if k == i as int {
                                LANE_ANY
                            } else {
                                g[i as int]
                            }),
                    decreases 8 - j,
                {
                    if j == i {
                        ndata.push(letter);
                        pdata.push(LANE_ANY);
                    } else {
                        ndata.push(LANE_ANY);
                        pdata.push(letter);
                    }
                    j = j + 1;
                }
                let nw = SimdWordle { data: ndata };
                let pw = SimdWordle { data: pdata };
                proof {
                    assert(nw@ =~= yellow_neg_vec(g, i as int));
                    assert(pw@ =~= yellow_pos_vec(g, i as int));
                }
                neg.push(nw);
                pos.push(pw);
                proof {
                    assert(WordleVec(neg)@ =~= nbefore.push(yellow_neg_vec(g, i as int)));
                    assert(WordleVec(pos)@ =~= pbefore.push(yellow_pos_vec(g, i as int)));
                    assert(yellow_neg_vecs(g, rp, i as int + 1) =~= nbefore.push(
                        yellow_neg_vec(g, i as int),
                    ));
                    assert(yellow_pos_vecs(g, rp, i as int + 1) =~= pbefore.push(
                        yellow_pos_vec(g, i as int),
                    ));
                }
            } else {
                proof {
                    assert(yellow_neg_vecs(g, rp, i as int + 1) =~= nbefore);
                    assert(yellow_pos_vecs(g, rp, i as int + 1) =~= pbefore);
                }
            }
            i = i + 1;
        }
        (WordleVec(neg), WordleVec(pos))
    }
}

impl WordleFilter {
    /// Folds a whole guess into the filter: its Green lanes as one
    /// exact-position vector, its Black letters as negative vectors, and
    /// its Yellow lanes as negative and membership vectors.
    pub fn with_guess(self, rhs: &SimdGuess) -> (f: WordleFilter)
        requires
            wf_filter(self),
            wf_guess(*rhs),
        ensures
            wf_filter(f),
            all_vecs(f) == all_vecs(self).push(
                Seq::new(
                    8,
                    |i: int|
                        if reply_lanes(*rhs)[i] == LANE_GREEN {
                            guess_lanes(*rhs)[i]
                        } else {
                            LANE_ANY
                        },
                ),
            ),
            any_vecs(f) == any_vecs(self) + yellow_pos_vecs(guess_lanes(*rhs), reply_lanes(*rhs), 8),
            neg_vecs(f) == neg_vecs(self) + black_vecs(guess_lanes(*rhs), reply_lanes(*rhs), 8)
                + yellow_neg_vecs(guess_lanes(*rhs), reply_lanes(*rhs), 8),
    {
        let green = rhs.green();
        proof {
            assert(green@ =~= Seq::new(
                8,
                |i: int|
                    if reply_lanes(*rhs)[i] == LANE_GREEN {
                        guess_lanes(*rhs)[i]
                    } else {
                        LANE_ANY
                    },
            ));
        }
        let black = rhs.black();
        let (yneg, ypos) = rhs.yellow();
        proof {
            lemma_black_vecs_wf(guess_lanes(*rhs), reply_lanes(*rhs), 8);
            lemma_yellow_vecs_wf(guess_lanes(*rhs), reply_lanes(*rhs), 8);
        }
        let f1 = self.require_all(green);
        let f2 = f1.append_any(ypos);
        let f3 = f2.append_neg(black);
        let f4 = f3.append_neg(yneg);
        proof {
            assert(neg_vecs(f4) =~= neg_vecs(self) + black_vecs(
                guess_lanes(*rhs),
                reply_lanes(*rhs),
                8,
            ) + yellow_neg_vecs(guess_lanes(*rhs), reply_lanes(*rhs), 8));
        }
        f4
    }

    /// Appends a list of membership vectors.
    fn append_any(self, more: WordleVec) -> (f: WordleFilter)
        requires
            wf_filter(self),
            wf_vecs(more@),
        ensures
            wf_filter(f),
            all_vecs(f) == all_vecs(self),
            any_vecs(f) == any_vecs(self) + more@,
            neg_vecs(f) == neg_vecs(self),
    {
        let ghost orig = self;
        let WordleFilter { positive_all, positive_any, negative } = self;
        let mut v = positive_any;
        let mut k: usize = 0;
        while k < more.0.len()
            invariant
                k <= more@.len(),
                more@.len() == more.0@.len(),
                wf_vecs(more@),
                wf_vecs(v@),
                v@ == any_vecs(orig) + more@.take(k as int),
            decreases more@.len() - k,
        {
            let ghost before = v@;
            proof {
                assert(more@[k as int] == more.0@[k as int]@);
                assert(more@[k as int].len() == 8);
            }
            v.0.push(copy_word(&more.0[k]));
            proof {
                assert(v@ =~= before.push(more.0@[k as int]@));
                assert(any_vecs(orig) + more@.take(k as int + 1) =~= before.push(
                    more.0@[k as int]@,
                ));
            }
            k = k + 1;
        }
        let f = WordleFilter { positive_all, positive_any: v, negative };
        proof {
            assert(more@.take(more@.len() as int) =~= more@);
            assert(any_vecs(f) =~= any_vecs(orig) + more@);
        }
        f
    }

    /// Appends a list of negative vectors.
    fn append_neg(self, more: WordleVec) -> (f: WordleFilter)
        requires
            wf_filter(self),
            wf_vecs(more@),
        ensures
            wf_filter(f),
            all_vecs(f) == all_vecs(self),
            any_vecs(f) == any_vecs(self),
            neg_vecs(f) == neg_vecs(self) + more@,
    {
        let ghost orig = self;
        let WordleFilter { positive_all, positive_any, negative } = self;
        let mut v = negative;
        let mut k: usize = 0;
        while k < more.0.len()
            invariant
                k <= more@.len(),
                more@.len() == more.0@.len(),
                wf_vecs(more@),
                wf_vecs(v@),
                v@ == neg_vecs(orig) + more@.take(k as int),
            decreases more@.len() - k,
        {
            let ghost before = v@;
            proof {
                assert(more@[k as int] == more.0@[k as int]@);
                assert(more@[k as int].len() == 8);
            }
            v.0.push(copy_word(&more.0[k]));
            proof {
                assert(v@ =~= before.push(more.0@[k as int]@));
                assert(neg_vecs(orig) + more@.take(k as int + 1) =~= before.push(
                    more.0@[k as int]@,
                ));
            }
            k = k + 1;
        }
        let f = WordleFilter { positive_all, positive_any, negative: v };
        proof {
            assert(more@.take(more@.len() as int) =~= more@);
            assert(neg_vecs(f) =~= neg_vecs(orig) + more@);
        }
        f
    }
}

/// Every Black vector spans the full eight lanes.
proof fn lemma_black_vecs_wf(g: Seq<u8>, r: Seq<u8>, n: int)
    ensures
        wf_vecs(black_vecs(g, r, n)),
    decreases n,
{
    if n > 0 {
        lemma_black_vecs_wf(g, r, n - 1);
    }
}

/// Every Yellow vector spans the full eight lanes.
proof fn lemma_yellow_vecs_wf(g: Seq<u8>, r: Seq<u8>, n: int)
    ensures
        wf_vecs(yellow_neg_vecs(g, r, n)),
        wf_vecs(yellow_pos_vecs(g, r, n)),
    decreases n,
{
    if n > 0 {
        lemma_yellow_vecs_wf(g, r, n - 1);
    }
}

} // verus!
