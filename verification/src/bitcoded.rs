//! The packed-integer word codec and its bit-level filter vectors.
//!
//! A five-letter word is packed into one 32-bit integer, five bits per
//! letter, with 1 for `a` through 26 for `z` and 0 left free.  Equality of
//! packed words is therefore one integer comparison.  A reply packs the
//! same way (3 for Green, 1 for Yellow, 0 for Black), and masked multiplies
//! spread single reply bits across whole letter fields to pull the Green,
//! Yellow and Black letters out of a guess in a handful of word-level
//! operations.

use vstd::prelude::*;

use crate::EngineError;
use crate::is_letter;

verus! {

/// One bit in the lowest position of each five-bit letter field.
pub const MULVAL: u32 = 0x108421;

/// The packed code of a lowercase letter: 1 for `a` through 26 for `z`.
pub open spec fn letter_code(c: char) -> int {
    c as int - 96
}

/// An ASCII letter of either case.
pub open spec fn is_alpha(c: char) -> bool {
    ('a' <= c <= 'z') || ('A' <= c <= 'Z')
}

/// An ASCII letter, lowered.
pub open spec fn lower_char(c: char) -> char {
    if 'A' <= c <= 'Z' {
        ((c as u32 + 32) as char)
    } else {
        c
    }
}

/// A word the packed codec accepts: exactly five ASCII letters of either
/// case.
pub open spec fn valid_packed_word(w: Seq<char>) -> bool {
    w.len() == 5 && forall|i: int| 0 <= i < 5 ==> is_alpha(#[trigger] w[i])
}

/// The five-bit letter field `i` of a packed word.
pub open spec fn field(d: u32, i: int) -> u32 {
    (d >> ((5 * i) as u32)) & 31
}

/// A well-formed packed word: each field holds a letter code, and the bits
/// above the five fields are clear.
pub open spec fn wf_packed(d: u32) -> bool {
    (forall|i: int| 0 <= i < 5 ==> 1 <= #[trigger] field(d, i) <= 26) && d >> 25 == 0
}

/// How five five-bit values pack into one integer, field by field.
proof fn lemma_pack_fields(x: u32, a: u32, b: u32, c: u32, d: u32, e: u32)
    requires
        a < 32,
        b < 32,
        c < 32,
        d < 32,
        e < 32,
        x == (a | (b << 5) | (c << 10) | (d << 15) | (e << 20)),
    ensures
        field(x, 0) == a,
        field(x, 1) == b,
        field(x, 2) == c,
        field(x, 3) == d,
        field(x, 4) == e,
        x >> 25 == 0,
{
    assert(((x >> 0) & 31 == a) && ((x >> 5) & 31 == b) && ((x >> 10) & 31 == c) && ((x >> 15)
        & 31 == d) && ((x >> 20) & 31 == e) && (x >> 25 == 0)) by (bit_vector)
        requires
            a < 32,
            b < 32,
            c < 32,
            d < 32,
            e < 32,
            x == (a | (b << 5) | (c << 10) | (d << 15) | (e << 20)),
    ;
    assert(field(x, 0) == (x >> 0) & 31);
    assert(field(x, 1) == (x >> 5) & 31);
    assert(field(x, 2) == (x >> 10) & 31);
    assert(field(x, 3) == (x >> 15) & 31);
    assert(field(x, 4) == (x >> 20) & 31);
}

/// Equal letter codes come from equal letters.
pub proof fn lemma_letter_code_injective(c1: char, c2: char)
    requires
        is_letter(c1),
        is_letter(c2),
        letter_code(c1) == letter_code(c2),
    ensures
        c1 == c2,
{
}

/// The packed codec round-trips: a codeword whose fields hold the letter
/// codes of a word decodes to that word, and nothing else.
pub proof fn lemma_packed_round_trip(w: Seq<char>, d: u32, r: Seq<char>)
    requires
        w.len() == 5,
        forall|i: int| 0 <= i < 5 ==> is_letter(#[trigger] w[i]),
        forall|i: int| 0 <= i < 5 ==> #[trigger] field(d, i) == letter_code(w[i]),
        r.len() == 5,
        forall|i: int|
            0 <= i < 5 ==> is_letter(#[trigger] r[i]) && letter_code(r[i]) == field(d, i),
    ensures
        r == w,
{
    assert forall|i: int| 0 <= i < 5 implies #[trigger] r[i] == w[i] by {
        lemma_letter_code_injective(r[i], w[i]);
    }
    assert(r =~= w);
}

/// The packed codec agrees with word equality: two valid codewords are
/// the same integer exactly when they encode the same word.
pub proof fn lemma_packed_encode_injective(w1: Seq<char>, w2: Seq<char>, d1: u32, d2: u32)
    requires
        w1.len() == 5,
        w2.len() == 5,
        forall|i: int| 0 <= i < 5 ==> is_letter(#[trigger] w1[i]) && is_letter(w2[i]),
        forall|i: int| 0 <= i < 5 ==> #[trigger] field(d1, i) == letter_code(w1[i]),
        forall|i: int| 0 <= i < 5 ==> #[trigger] field(d2, i) == letter_code(w2[i]),
        d1 >> 25 == 0,
        d2 >> 25 == 0,
    ensures
        (d1 == d2) == (w1 == w2),
{
    if d1 == d2 {
        assert forall|i: int| 0 <= i < 5 implies #[trigger] w1[i] == w2[i] by {
            assert(field(d1, i) == field(d2, i));
            lemma_letter_code_injective(w1[i], w2[i]);
        }
        assert(w1 =~= w2);
    }
    if w1 == w2 {
        lemma_fields_pin(d1, d2);
    }
}

/// Two packed words with equal fields and clear top bits are equal.
proof fn lemma_fields_pin(d1: u32, d2: u32)
    requires
        forall|i: int| 0 <= i < 5 ==> #[trigger] field(d1, i) == field(d2, i),
        d1 >> 25 == 0,
        d2 >> 25 == 0,
    ensures
        d1 == d2,
{
    assert(field(d1, 0) == field(d2, 0) && field(d1, 1) == field(d2, 1) && field(d1, 2) == field(
        d2,
        2,
    ) && field(d1, 3) == field(d2, 3) && field(d1, 4) == field(d2, 4));
    assert((((d1 >> 0) & 31 == (d2 >> 0) & 31) && ((d1 >> 5) & 31 == (d2 >> 5) & 31) && ((d1
        >> 10) & 31 == (d2 >> 10) & 31) && ((d1 >> 15) & 31 == (d2 >> 15) & 31) && ((d1 >> 20)
        & 31 == (d2 >> 20) & 31) && (d1 >> 25 == 0) && (d2 >> 25 == 0)) ==> d1 == d2) by (
    bit_vector);
    assert(field(d1, 0) == (d1 >> 0) & 31);
    assert(field(d1, 1) == (d1 >> 5) & 31);
    assert(field(d1, 2) == (d1 >> 10) & 31);
    assert(field(d1, 3) == (d1 >> 15) & 31);
    assert(field(d1, 4) == (d1 >> 20) & 31);
    assert(field(d2, 0) == (d2 >> 0) & 31);
    assert(field(d2, 1) == (d2 >> 5) & 31);
    assert(field(d2, 2) == (d2 >> 10) & 31);
    assert(field(d2, 3) == (d2 >> 15) & 31);
    assert(field(d2, 4) == (d2 >> 20) & 31);
}

/// One letter of a packed word.
#[derive(Debug, PartialEq, Eq, Structural, Clone, Copy)]
pub struct BitCodedLetter {
    pub data: u32,
}

impl BitCodedLetter {
    /// Packs one lowercase letter.
    pub fn from(c: char) -> (r: BitCodedLetter)
        requires
            is_letter(c),
        ensures
            r.data == letter_code(c),
            1 <= r.data <= 26,
    {
        BitCodedLetter { data: (c as u32) - 96 }
    }

    /// The letter this code stands for.
    pub fn to_char(&self) -> (r: char)
        requires
            1 <= self.data <= 26,
        ensures
            is_letter(r),
            letter_code(r) == self.data,
    {
        ((self.data + 96) as u8) as char
    }
}

/// A five-letter word packed into one integer, five bits per letter.
#[derive(Debug, PartialEq, Eq, Structural, Clone, Copy)]
pub struct BitCodedWordle {
    pub data: u32,
}

impl BitCodedWordle {
    /// Encodes a word for the packed codec.  Succeeds exactly on words of
    /// five ASCII letters, lowering the case; anything else is an encoding
    /// error.
    pub fn encode(word: &str) -> (r: Result<BitCodedWordle, EngineError>)
        ensures
            valid_packed_word(word@) ==> (r matches Ok(w) && wf_packed(w.data) && forall|i: int|
                0 <= i < 5 ==> #[trigger] field(w.data, i) == letter_code(lower_char(word@[i]))),
            !valid_packed_word(word@) ==> (r matches Err(e) && e == EngineError::Encoding),
    {
        if word.unicode_len() != 5 {
            return Err(EngineError::Encoding);
        }
        let mut codes: Vec<u32> = Vec::new();
        let mut i: usize = 0;
        while i < 5
            invariant
                i <= 5,
                word@.len() == 5,
                codes@.len() == i,
                forall|j: int| 0 <= j < i ==> is_alpha(#[trigger] word@[j]),
                forall|j: int|
                    0 <= j < i ==> #[trigger] codes@[j] == letter_code(lower_char(word@[j]))
                        && 1 <= codes@[j] <= 26,
            decreases 5 - i,
        {
            let c = word.get_char(i);
            let lc: char = if 'A' <= c && c <= 'Z' {
                (((c as u32) + 32) as u8) as char
            } else {
                c
            };
            if !('a' <= lc && lc <= 'z') {
                proof {
                    assert(!is_alpha(word@[i as int]));
                }
                return Err(EngineError::Encoding);
            }
            proof {
                assert(lc == lower_char(word@[i as int]));
            }
            codes.push((lc as u32) - 96);
            i = i + 1;
        }
        let data = codes[0] | (codes[1] << 5u32) | (codes[2] << 10u32) | (codes[3] << 15u32) | (
        codes[4] << 20u32);
        proof {
            lemma_pack_fields(data, codes@[0], codes@[1], codes@[2], codes@[3], codes@[4]);
            assert forall|j: int| 0 <= j < 5 implies #[trigger] field(data, j) == letter_code(
                lower_char(word@[j]),
            ) by {
                assert(j == 0 || j == 1 || j == 2 || j == 3 || j == 4);
            }
        }
        Ok(BitCodedWordle { data })
    }

    /// Packs a word of five ASCII letters, lowering the case.
    pub fn new(word: &str) -> (r: BitCodedWordle)
        requires
            valid_packed_word(word@),
        ensures
            wf_packed(r.data),
            forall|i: int|
                0 <= i < 5 ==> #[trigger] field(r.data, i) == letter_code(lower_char(word@[i])),
    {
        match BitCodedWordle::encode(word) {
            Ok(w) => w,
            Err(_) => {
                proof {
                    assert(false);
                }
                BitCodedWordle { data: 0 }
            },
        }
    }

    /// The packed code of one letter of the word.
    fn letter(&self, index: usize) -> (r: BitCodedLetter)
        requires
            index < 5,
        ensures
            r.data == field(self.data, index as int),
    {
        let temp = self.data >> ((index as u32) * 5);
        proof {
            assert((5 * (index as int)) as u32 == (index as u32) * 5);
        }
        BitCodedLetter { data: temp & 31 }
    }

    /// The number of letters a packed word holds.
    fn len(&self) -> (r: usize)
        ensures
            r == 5,
    {
        5
    }

    /// Decodes the word back out of the fields.
    pub fn decode(&self) -> (r: String)
        requires
            wf_packed(self.data),
        ensures
            r@.len() == 5,
            forall|i: int|
                0 <= i < 5 ==> is_letter(#[trigger] r@[i]) && letter_code(r@[i]) == field(
                    self.data,
                    i,
                ),
    {
        let mut out = String::new();
        let mut i: usize = 0;
        while i < 5
            invariant
                i <= 5,
                wf_packed(self.data),
                out@.len() == i,
                forall|j: int|
                    0 <= j < i ==> is_letter(#[trigger] out@[j]) && letter_code(out@[j]) == field(
                        self.data,
                        j,
                    ),
            decreases 5 - i,
        {
            let l = self.letter(i);
            proof {
                assert(1 <= field(self.data, i as int) <= 26);
            }
            crate::push_char(&mut out, l.to_char());
            i = i + 1;
        }
        out
    }
}

/// Packs a list of words for the packed codec.
pub fn words_to_bitcodedwordle(words: Vec<&str>) -> (r: Vec<BitCodedWordle>)
    requires
        forall|i: int| 0 <= i < words@.len() ==> valid_packed_word((#[trigger] words@[i])@),
    ensures
        r@.len() == words@.len(),
        forall|i: int|
            0 <= i < words@.len() ==> wf_packed(#[trigger] r@[i].data) && forall|j: int|
                0 <= j < 5 ==> #[trigger] field(r@[i].data, j) == letter_code(
                    lower_char(words@[i]@[j]),
                ),
{
    let mut out: Vec<BitCodedWordle> = Vec::new();
    let mut i: usize = 0;
    while i < words.len()
        invariant
            i <= words@.len(),
            out@.len() == i,
            forall|k: int| 0 <= k < words@.len() ==> valid_packed_word((#[trigger] words@[k])@),
            forall|k: int|
                0 <= k < i ==> wf_packed(#[trigger] out@[k].data) && forall|j: int|
                    0 <= j < 5 ==> #[trigger] field(out@[k].data, j) == letter_code(
                        lower_char(words@[k]@[j]),
                    ),
        decreases words@.len() - i,
    {
        out.push(BitCodedWordle::new(words[i]));
        i = i + 1;
    }
    out
}

/// The packed code of a reply character: 3 for Green, 1 for Yellow, 0 for
/// Black.
pub open spec fn answer_code(c: char) -> int {
    if c == 'g' || c == 'G' {
        3
    } else if c == 'y' || c == 'Y' {
        1
    } else {
        0
    }
}

/// A reply the packed codec accepts: five tag characters of either case.
pub open spec fn valid_packed_reply(s: Seq<char>) -> bool {
    s.len() == 5 && forall|i: int| 0 <= i < 5 ==> crate::lanes::is_reply_char(#[trigger] s[i])
}

/// A well-formed packed reply: each field holds a reply code, and the bits
/// above the five fields are clear.
pub open spec fn wf_packed_reply(d: u32) -> bool {
    (forall|i: int|
        0 <= i < 5 ==> (#[trigger] field(d, i) == 0 || field(d, i) == 1 || field(d, i) == 3)) && d
        >> 25 == 0
}

/// A reply of five tags packed into one integer, five bits per tag.
#[derive(Debug, PartialEq, Eq, Structural, Clone, Copy)]
pub struct BitCodedAnswer {
    pub data: u32,
}

impl BitCodedAnswer {
    /// Packs a reply string of five tag characters, lowering the case.
    pub fn from(reply: &str) -> (r: BitCodedAnswer)
        requires
            valid_packed_reply(reply@),
        ensures
            wf_packed_reply(r.data),
            forall|i: int| 0 <= i < 5 ==> #[trigger] field(r.data, i) == answer_code(reply@[i]),
    {
        let mut codes: Vec<u32> = Vec::new();
        let mut i: usize = 0;
        while i < 5
            invariant
                i <= 5,
                reply@.len() == 5,
                codes@.len() == i,
                forall|k: int| 0 <= k < 5 ==> crate::lanes::is_reply_char(#[trigger] reply@[k]),
                forall|j: int|
                    0 <= j < i ==> #[trigger] codes@[j] == answer_code(reply@[j]) && codes@[j]
                        <= 3,
            decreases 5 - i,
        {
            let c = reply.get_char(i);
            if c == 'g' || c == 'G' {
                codes.push(3);
            } else if c == 'y' || c == 'Y' {
                codes.push(1);
            } else {
                codes.push(0);
            }
            i = i + 1;
        }
        let data = codes[0] | (codes[1] << 5u32) | (codes[2] << 10u32) | (codes[3] << 15u32) | (
        codes[4] << 20u32);
        proof {
            lemma_pack_fields(data, codes@[0], codes@[1], codes@[2], codes@[3], codes@[4]);
            assert forall|j: int| 0 <= j < 5 implies #[trigger] field(data, j) == answer_code(
                reply@[j],
            ) by {
                assert(j == 0 || j == 1 || j == 2 || j == 3 || j == 4);
            }
        }
        BitCodedAnswer { data }
    }

    /// Packs a reply string of five tag characters.
    pub fn new(reply: &str) -> (r: BitCodedAnswer)
        requires
            valid_packed_reply(reply@),
        ensures
            wf_packed_reply(r.data),
            forall|i: int| 0 <= i < 5 ==> #[trigger] field(r.data, i) == answer_code(reply@[i]),
    {
        BitCodedAnswer::from(reply)
    }
}

/// A packed guess together with the packed reply it received.
#[derive(Debug, PartialEq, Eq, Structural, Clone, Copy)]
pub struct BitCodedGuess {
    guess: BitCodedWordle,
    reply: BitCodedAnswer,
}

/// The guess fields of a packed guess.
pub closed spec fn guess_data(g: BitCodedGuess) -> u32 {
    g.guess.data
}

/// The reply fields of a packed guess.
pub closed spec fn reply_data(g: BitCodedGuess) -> u32 {
    g.reply.data
}

/// A well-formed packed guess.
pub open spec fn wf_bit_guess(g: BitCodedGuess) -> bool {
    wf_packed(guess_data(g)) && wf_packed_reply(reply_data(g))
}

impl BitCodedGuess {
    /// Packs a guess word and its reply string.
    pub fn new(guess: &str, reply: &str) -> (r: BitCodedGuess)
        requires
            valid_packed_word(guess@),
            valid_packed_reply(reply@),
        ensures
            wf_bit_guess(r),
            forall|i: int|
                0 <= i < 5 ==> #[trigger] field(guess_data(r), i) == letter_code(
                    lower_char(guess@[i]),
                ),
            forall|i: int| 0 <= i < 5 ==> #[trigger] field(reply_data(r), i) == answer_code(
                reply@[i],
            ),
    {
        BitCodedGuess { guess: BitCodedWordle::new(guess), reply: BitCodedAnswer::new(reply) }
    }

    /// The Green letters of the guess, kept in their own fields; every
    /// other field is cleared.  Computed by spreading the high reply bit
    /// of each field across the whole field with one masked multiply.
    pub fn green_bitcoded(&self) -> (r: BitCodedWordle)
        requires
            wf_bit_guess(*self),
        ensures
            forall|i: int|
                0 <= i < 5 ==> #[trigger] field(r.data, i) == (if field(reply_data(*self), i)
                    == 3 {
                    field(guess_data(*self), i)
                } else {
                    0
                }),
    {
        let gd = self.guess.data;
        let rd = self.reply.data;
        let reply_mask_single = (rd >> 1) & MULVAL;
        proof {
            assert(reply_mask_single <= 0x108421u32) by (bit_vector)
                requires
                    reply_mask_single == (rd >> 1) & 0x108421u32,
            ;
        }
        let reply_mask = reply_mask_single * 31;
        proof {
            lemma_green_mask(gd, rd, reply_mask);
        }
        BitCodedWordle { data: reply_mask & gd }
    }

    /// The Black letters of the guess, each splatted across all five
    /// fields of its own packed word, in field order.
    pub fn black_bitcoded(&self) -> (r: Vec<BitCodedWordle>)
        requires
            wf_bit_guess(*self),
        ensures
            r@.map_values(|w: BitCodedWordle| w.data) == black_splats(
                guess_data(*self),
                reply_data(*self),
                5,
            ),
    {
        let gd = self.guess.data;
        let rd = self.reply.data;
        let mut out: Vec<BitCodedWordle> = Vec::new();
        let mut i: usize = 0;
        while i < 5
            invariant
                i <= 5,
                gd == guess_data(*self),
                rd == reply_data(*self),
                wf_bit_guess(*self),
                out@.map_values(|w: BitCodedWordle| w.data) == black_splats(gd, rd, i as int),
            decreases 5 - i,
        {
            let ghost before = out@.map_values(|w: BitCodedWordle| w.data);
            let rf = (rd >> ((i as u32) * 5)) & 3;
            let gf = (gd >> ((i as u32) * 5)) & 31;
            proof {
                lemma_low_field(gd, rd, i as int);
            }
            if rf == 0 {
                out.push(BitCodedWordle { data: MULVAL * gf });
                proof {
                    assert(out@.map_values(|w: BitCodedWordle| w.data) =~= before.push(
                        mul_splat(field(gd, i as int)),
                    ));
                    assert(black_splats(gd, rd, i as int + 1) =~= before.push(
                        mul_splat(field(gd, i as int)),
                    ));
                }
            } else {
                proof {
                    assert(black_splats(gd, rd, i as int + 1) =~= before);
                }
            }
            i = i + 1;
        }
        out
    }

    /// The Yellow letters of the guess, each spread across every field but
    /// its own, in field order.
    pub fn yellow_bitcoded(&self) -> (r: Vec<BitCodedWordle>)
        requires
            wf_bit_guess(*self),
        ensures
            r@.map_values(|w: BitCodedWordle| w.data) == yellow_spreads(
                guess_data(*self),
                reply_data(*self),
                5,
            ),
    {
        let gd = self.guess.data;
        let rd = self.reply.data;
        let mut out: Vec<BitCodedWordle> = Vec::new();
        let mut i: usize = 0;
        while i < 5
            invariant
                i <= 5,
                gd == guess_data(*self),
                rd == reply_data(*self),
                wf_bit_guess(*self),
                out@.map_values(|w: BitCodedWordle| w.data) == yellow_spreads(gd, rd, i as int),
            decreases 5 - i,
        {
            let ghost before = out@.map_values(|w: BitCodedWordle| w.data);
            let rf = (rd >> ((i as u32) * 5)) & 3;
            let gf = (gd >> ((i as u32) * 5)) & 31;
            proof {
                lemma_low_field(gd, rd, i as int);
            }
            if rf == 1 {
                let mask = MULVAL ^ (1u32 << ((i as u32) * 5));
                proof {
                    lemma_yellow_mask(i as int, gf);
                }
                out.push(BitCodedWordle { data: mask * gf });
                proof {
                    assert(out@.map_values(|w: BitCodedWordle| w.data) =~= before.push(
                        mul_spread(field(gd, i as int), i as int),
                    ));
                    assert(yellow_spreads(gd, rd, i as int + 1) =~= before.push(
                        mul_spread(field(gd, i as int), i as int),
                    ));
                }
            } else {
                proof {
                    assert(yellow_spreads(gd, rd, i as int + 1) =~= before);
                }
            }
            i = i + 1;
        }
        out
    }
}

/// A five-bit value splatted across all five fields.
pub open spec fn mul_splat(v: u32) -> u32 {
    (v * (MULVAL as int)) as u32
}

/// A five-bit value spread across every field but field `i`.
pub open spec fn mul_spread(v: u32, i: int) -> u32 {
    (v * ((MULVAL ^ (1u32 << ((5 * i) as u32))) as int)) as u32
}

/// The splatted Black letters of a packed guess, in field order over the
/// first `n` fields.
pub open spec fn black_splats(gd: u32, rd: u32, n: int) -> Seq<u32>
    decreases n,
{
    if n <= 0 {
        Seq::empty()
    } else {
        black_splats(gd, rd, n - 1) + if field(rd, n - 1) == 0 {
            seq![mul_splat(field(gd, n - 1))]
        } else {
            Seq::empty()
        }
    }
}

/// The spread Yellow letters of a packed guess, in field order over the
/// first `n` fields.
pub open spec fn yellow_spreads(gd: u32, rd: u32, n: int) -> Seq<u32>
    decreases n,
{
    if n <= 0 {
        Seq::empty()
    } else {
        yellow_spreads(gd, rd, n - 1) + if field(rd, n - 1) == 1 {
            seq![mul_spread(field(gd, n - 1), n - 1)]
        } else {
            Seq::empty()
        }
    }
}

/// Reading a field's low bits agrees with the field functions, and the
/// splat multiply stays in range.
proof fn lemma_low_field(gd: u32, rd: u32, i: int)
    requires
        0 <= i < 5,
        wf_packed_reply(rd),
    ensures
        ((rd >> ((i as u32) * 5)) & 3 == 0) == (field(rd, i) == 0),
        ((rd >> ((i as u32) * 5)) & 3 == 1) == (field(rd, i) == 1),
        (gd >> ((i as u32) * 5)) & 31 == field(gd, i),
        field(gd, i) < 32,
        field(gd, i) * MULVAL <= u32::MAX,
{
    let iu = i as u32;
    assert((5 * i) as u32 == iu * 5);
    assert(field(rd, i) == (rd >> (iu * 5)) & 31);
    assert(field(gd, i) == (gd >> (iu * 5)) & 31);
    assert(field(rd, i) == 0 || field(rd, i) == 1 || field(rd, i) == 3);
    assert(((rd >> (iu * 5)) & 31 == 0 || (rd >> (iu * 5)) & 31 == 1 || (rd >> (iu * 5)) & 31
        == 3) ==> ((((rd >> (iu * 5)) & 3 == 0) == ((rd >> (iu * 5)) & 31 == 0)) && (((rd >> (iu
        * 5)) & 3 == 1) == ((rd >> (iu * 5)) & 31 == 1)))) by (bit_vector);
    assert((gd >> (iu * 5)) & 31 < 32) by (bit_vector);
    assert(field(gd, i) * MULVAL < 32 * 1082402) by (nonlinear_arith)
        requires
            field(gd, i) < 32,
            MULVAL == 0x108421,
    ;
}

/// The Green mask computation: spreading the high reply bits across whole
/// fields and intersecting with the guess keeps exactly the Green fields.
proof fn lemma_green_mask(gd: u32, rd: u32, m: u32)
    requires
        wf_packed(gd),
        wf_packed_reply(rd),
        m == ((rd >> 1) & MULVAL) * 31,
    ensures
        forall|i: int|
            0 <= i < 5 ==> #[trigger] field(m & gd, i) == (if field(rd, i) == 3 {
                field(gd, i)
            } else {
                0
            }),
{
    assert forall|i: int| 0 <= i < 5 implies #[trigger] field(m & gd, i) == (if field(rd, i)
        == 3 {
        field(gd, i)
    } else {
        0
    }) by {
        let iu = i as u32;
        assert(field(rd, i) == (rd >> (iu * 5)) & 31) by {
            assert((5 * i) as u32 == iu * 5);
        }
        assert(field(gd, i) == (gd >> (iu * 5)) & 31) by {
            assert((5 * i) as u32 == iu * 5);
        }
        assert(field(m & gd, i) == ((m & gd) >> (iu * 5)) & 31) by {
            assert((5 * i) as u32 == iu * 5);
        }
        assert(((rd >> (iu * 5)) & 31 == 0 || (rd >> (iu * 5)) & 31 == 1 || (rd >> (iu * 5)) & 31
            == 3) ==> ((m & gd) >> (iu * 5)) & 31 == (if (rd >> (iu * 5)) & 31 == 3 {
            (gd >> (iu * 5)) & 31
        } else {
            0u32
        })) by (bit_vector)
            requires
                iu < 5,
                m == ((rd >> 1) & 0x108421u32) * 31,
        ;
    }
}

/// The Yellow mask multiply stays in range and matches the spread form.
proof fn lemma_yellow_mask(i: int, gf: u32)
    requires
        0 <= i < 5,
        gf < 32,
    ensures
        (MULVAL ^ (1u32 << ((i as u32) * 5))) * gf <= u32::MAX,
        (MULVAL ^ (1u32 << ((i as u32) * 5))) == (MULVAL ^ (1u32 << ((5 * i) as u32))),
{
    let iu = i as u32;
    assert((5 * i) as u32 == iu * 5);
    assert((0x108421u32 ^ (1u32 << (iu * 5))) <= 0x108421u32) by (bit_vector)
        requires
            iu < 5,
    ;
    assert((MULVAL ^ (1u32 << (iu * 5))) * gf < 32 * 1082402) by (nonlinear_arith)
        requires
            (MULVAL ^ (1u32 << (iu * 5))) <= 1082401,
            gf < 32,
    ;
}

/// A session's packed guesses with per-letter summaries, all in packed
/// form: the letters confirmed present and the letters confirmed absent.
#[derive(Debug, PartialEq)]
pub struct SResponse {
    /// The packed guesses made so far.
    pub guesses: Vec<BitCodedGuess>,
    /// The letters confirmed present somewhere.
    pub inc: Vec<BitCodedLetter>,
    /// The letters confirmed absent everywhere.
    pub exc: Vec<BitCodedLetter>,
}

} // verus!
