//! Guesses with their replies, and the per-word consistency checks.
//!
//! A `Guess` pairs a guessed word with the reply string it received.  An
//! `SResponse` accumulates a whole session's guesses and keeps two letter
//! summaries beside them: the letters confirmed present (`inc`) and the
//! letters confirmed absent (`exc`), each in first-occurrence order without
//! repeats.  A letter that is ever Green or Yellow anywhere stays out of
//! the absent summary, even when a duplicate of it was Black elsewhere:
//! inclusion wins, so the two summaries never share a letter.
//!
//! The checks pair characters positionally as far as both strings reach,
//! so words and replies of any length can be compared without failure.

use vstd::prelude::*;

use crate::constraint::word_contains;

verus! {

/// The shorter of two lengths.
pub open spec fn min2(a: int, b: int) -> int {
    if a <= b {
        a
    } else {
        b
    }
}

/// One guessed word together with the reply it received.
#[derive(Debug)]
pub struct Guess {
    guess: String,
    reply: String,
}

/// The guessed word of a guess.
pub closed spec fn guess_word(g: Guess) -> Seq<char> {
    g.guess@
}

/// The reply string of a guess.
pub closed spec fn guess_reply(g: Guess) -> Seq<char> {
    g.reply@
}

/// Whether position `i` of a guess confirms its letter as present: the
/// reply marks it Green or Yellow.
pub open spec fn marks_present(r: Seq<char>, i: int) -> bool {
    r[i] == 'g' || r[i] == 'y'
}

/// Whether some position among the first `n` confirms letter `c` as
/// present.
pub open spec fn letter_marked_present(g: Seq<char>, r: Seq<char>, c: char, n: int) -> bool
    decreases n,
{
    n > 0 && (letter_marked_present(g, r, c, n - 1) || (g[n - 1] == c && marks_present(r, n - 1)))
}

/// The letters confirmed present by the first `n` paired positions, in
/// first-occurrence order without repeats.
pub open spec fn inc_list(g: Seq<char>, r: Seq<char>, n: int) -> Seq<char>
    decreases n,
{
    if n <= 0 {
        Seq::empty()
    } else {
        let prev = inc_list(g, r, n - 1);
        prev + if marks_present(r, n - 1) && !prev.contains(g[n - 1]) {
            seq![g[n - 1]]
        } else {
            Seq::empty()
        }
    }
}

/// The letters confirmed absent by the first `n` paired positions: Black
/// letters that are nowhere Green or Yellow in the same guess, in
/// first-occurrence order without repeats.
pub open spec fn exc_list(g: Seq<char>, r: Seq<char>, n: int) -> Seq<char>
    decreases n,
{
    if n <= 0 {
        Seq::empty()
    } else {
        let prev = exc_list(g, r, n - 1);
        prev + if r[n - 1] == 'b' && !letter_marked_present(g, r, g[n - 1], min2(
            g.len() as int,
            r.len() as int,
        )) && !prev.contains(g[n - 1]) {
            seq![g[n - 1]]
        } else {
            Seq::empty()
        }
    }
}

/// The positional check of one guess against a word: Green positions must
/// match the word, Yellow positions must not, as far as all three strings
/// reach.
pub open spec fn yg_check_spec(g: Seq<char>, r: Seq<char>, w: Seq<char>) -> bool {
    forall|i: int|
        0 <= i < min2(min2(g.len() as int, r.len() as int), w.len() as int) ==> ((r[i] == 'g'
            ==> g[i] == w[i]) && (#[trigger] r[i] == 'y' ==> g[i] != w[i]))
}

/// The full check of one guess against a word: no absent letter occurs in
/// the word, every present letter occurs in it, and the positional check
/// holds.
pub open spec fn guess_check_spec(g: Seq<char>, r: Seq<char>, w: Seq<char>) -> bool {
    let n = min2(g.len() as int, r.len() as int);
    &&& forall|j: int| 0 <= j < exc_list(g, r, n).len() ==> !w.contains(#[trigger] exc_list(g, r, n)[j])
    &&& forall|j: int| 0 <= j < inc_list(g, r, n).len() ==> w.contains(#[trigger] inc_list(g, r, n)[j])
    &&& yg_check_spec(g, r, w)
}

impl Guess {
    /// Pairs a guessed word with its reply string.
    pub fn new(guess: &str, reply: &str) -> (r: Guess)
        ensures
            guess_word(r) == guess@,
            guess_reply(r) == reply@,
    {
        Guess { guess: String::from_str(guess), reply: String::from_str(reply) }
    }

    /// The letters this guess confirms as present, in first-occurrence
    /// order without repeats.
    pub fn inc(&self) -> (r: String)
        ensures
            r@ == inc_list(
                guess_word(*self),
                guess_reply(*self),
                min2(guess_word(*self).len() as int, guess_reply(*self).len() as int),
            ),
    {
        let ghost g = guess_word(*self);
        let ghost rp = guess_reply(*self);
        let glen = self.guess.as_str().unicode_len();
        let rlen = self.reply.as_str().unicode_len();
        let n = if glen <= rlen {
            glen
        } else {
            rlen
        };
        let mut out = String::new();
        let mut i: usize = 0;
        while i < n
            invariant
                i <= n,
                n == min2(g.len() as int, rp.len() as int),
                g == guess_word(*self),
                rp == guess_reply(*self),
                g == self.guess@,
                rp == self.reply@,
                out@ == inc_list(g, rp, i as int),
            decreases n - i,
        {
            let ghost before = out@;
            let gc = self.guess.as_str().get_char(i);
            let rc = self.reply.as_str().get_char(i);
            if (rc == 'g' || rc == 'y') && !word_contains(out.as_str(), gc) {
                crate::push_char(&mut out, gc);
                proof {
                    assert(inc_list(g, rp, i as int + 1) =~= before.push(g[i as int]));
                }
            } else {
                proof {
                    assert(inc_list(g, rp, i as int + 1) =~= before);
                }
            }
            i = i + 1;
        }
        out
    }

    /// The letters this guess confirms as absent: its Black letters, save
    /// those also marked Green or Yellow here, in first-occurrence order
    /// without repeats.
    pub fn exc(&self) -> (r: String)
        ensures
            r@ == exc_list(
                guess_word(*self),
                guess_reply(*self),
                min2(guess_word(*self).len() as int, guess_reply(*self).len() as int),
            ),
    {
        let ghost g = guess_word(*self);
        let ghost rp = guess_reply(*self);
        let glen = self.guess.as_str().unicode_len();
        let rlen = self.reply.as_str().unicode_len();
        let n = if glen <= rlen {
            glen
        } else {
            rlen
        };
        let inc = self.inc();
        proof {
            lemma_inc_list_complete(g, rp, n as int);
        }
        let mut out = String::new();
        let mut i: usize = 0;
        while i < n
            invariant
                i <= n,
                n == min2(g.len() as int, rp.len() as int),
                g == guess_word(*self),
                rp == guess_reply(*self),
                g == self.guess@,
                rp == self.reply@,
                inc@ == inc_list(g, rp, n as int),
                forall|c: char| inc@.contains(c) == letter_marked_present(g, rp, c, n as int),
                out@ == exc_list(g, rp, i as int),
            decreases n - i,
        {
            let ghost before = out@;
            let gc = self.guess.as_str().get_char(i);
            let rc = self.reply.as_str().get_char(i);
            if rc == 'b' && !word_contains(inc.as_str(), gc) && !word_contains(out.as_str(), gc) {
                crate::push_char(&mut out, gc);
                proof {
                    assert(exc_list(g, rp, i as int + 1) =~= before.push(g[i as int]));
                }
            } else {
                proof {
                    assert(exc_list(g, rp, i as int + 1) =~= before);
                }
            }
            i = i + 1;
        }
        out
    }

    /// The positional check of this guess against a word.
    pub fn yg_check(&self, word: &str) -> (r: bool)
        ensures
            r == yg_check_spec(guess_word(*self), guess_reply(*self), word@),
    {
        let ghost g = guess_word(*self);
        let ghost rp = guess_reply(*self);
        let glen = self.guess.as_str().unicode_len();
        let rlen = self.reply.as_str().unicode_len();
        let wlen = word.unicode_len();
        let mut n = if glen <= rlen {
            glen
        } else {
            rlen
        };
        if wlen < n {
            n = wlen;
        }
        let mut i: usize = 0;
        while i < n
            invariant
                i <= n,
                n == min2(min2(g.len() as int, rp.len() as int), word@.len() as int),
                g == self.guess@,
                rp == self.reply@,
                g == guess_word(*self),
                rp == guess_reply(*self),
                forall|j: int|
                    0 <= j < i ==> ((rp[j] == 'g' ==> g[j] == word@[j]) && (#[trigger] rp[j] == 'y'
                        ==> g[j] != word@[j])),
            decreases n - i,
        {
            let gc = self.guess.as_str().get_char(i);
            let rc = self.reply.as_str().get_char(i);
            let wc = word.get_char(i);
            if rc == 'g' && gc != wc {
                return false;
            }
            if rc == 'y' && gc == wc {
                return false;
            }
            i = i + 1;
        }
        true
    }

    /// The full check of this guess against a word.
    pub fn slow_check(&self, word: &str) -> (r: bool)
        ensures
            r == guess_check_spec(guess_word(*self), guess_reply(*self), word@),
    {
        let exc = self.exc();
        let inc = self.inc();
        let a = no_letter_of(exc.as_str(), word);
        let b = all_letters_of(inc.as_str(), word);
        let c = self.yg_check(word);
        a && b && c
    }
}

/// The reply character of a letter tag.
pub open spec fn tag_char(t: crate::tags::LetterTag) -> char {
    match t {
        crate::tags::LetterTag::Green => 'g',
        crate::tags::LetterTag::Yellow => 'y',
        crate::tags::LetterTag::Black => 'b',
    }
}

impl Guess {
    /// Builds the guess a target would answer: the reply is derived with
    /// the occurrence-budgeted two-pass algorithm and written in the
    /// `g`/`y`/`b` notation.
    pub fn from_target(target: &str, guess: &str) -> (r: Guess)
        requires
            crate::wf_word(target@),
            crate::wf_word(guess@),
            target@.len() == guess@.len(),
        ensures
            guess_word(r) == guess@,
            guess_reply(r) == Seq::new(
                guess@.len(),
                |i: int| tag_char(crate::tags::tags_of(target@, guess@)[i]),
            ),
    {
        let tags = crate::tags::derive_tags(target, guess);
        let mut reply = String::new();
        let mut i: usize = 0;
        while i < tags.len()
            invariant
                i <= tags@.len(),
                tags@ == crate::tags::tags_of(target@, guess@),
                reply@.len() == i,
                forall|j: int| 0 <= j < i ==> #[trigger] reply@[j] == tag_char(tags@[j]),
            decreases tags@.len() - i,
        {
            match tags[i] {
                crate::tags::LetterTag::Green => crate::push_char(&mut reply, 'g'),
                crate::tags::LetterTag::Yellow => crate::push_char(&mut reply, 'y'),
                crate::tags::LetterTag::Black => crate::push_char(&mut reply, 'b'),
            }
            i = i + 1;
        }
        let r = Guess::new(guess, reply.as_str());
        proof {
            assert(guess_reply(r) =~= Seq::new(
                guess@.len(),
                |i: int| tag_char(crate::tags::tags_of(target@, guess@)[i]),
            ));
        }
        r
    }
}

/// Whether an accumulated list already holds exactly the letters marked
/// present so far.
proof fn lemma_inc_list_complete(g: Seq<char>, r: Seq<char>, n: int)
    requires
        n <= min2(g.len() as int, r.len() as int),
    ensures
        forall|c: char|
            inc_list(g, r, n).contains(c) == letter_marked_present(g, r, c, n),
    decreases n,
{
    if n > 0 {
        lemma_inc_list_complete(g, r, n - 1);
        let prev = inc_list(g, r, n - 1);
        let cur = inc_list(g, r, n);
        assert forall|c: char| cur.contains(c) == letter_marked_present(g, r, c, n) by {
            assert(letter_marked_present(g, r, c, n) == (letter_marked_present(g, r, c, n - 1) || (
            g[n - 1] == c && marks_present(r, n - 1))));
            assert(prev.contains(c) == letter_marked_present(g, r, c, n - 1));
            if marks_present(r, n - 1) && !prev.contains(g[n - 1]) {
                assert(cur =~= prev.push(g[n - 1]));
                assert(cur.contains(c) == (prev.contains(c) || c == g[n - 1])) by {
                    if prev.contains(c) {
                        let j = choose|j: int| 0 <= j < prev.len() && prev[j] == c;
                        assert(cur[j] == c);
                    }
                    if c == g[n - 1] {
                        assert(cur[cur.len() - 1] == c);
                    }
                    if cur.contains(c) {
                        let j = choose|j: int| 0 <= j < cur.len() && cur[j] == c;
                        if j < prev.len() {
                            assert(prev[j] == c);
                        } else {
                            assert(c == g[n - 1]);
                        }
                    }
                }
            } else {
                assert(cur =~= prev);
                assert(cur.contains(c) == prev.contains(c));
                if g[n - 1] == c && marks_present(r, n - 1) {
                    assert(prev.contains(g[n - 1]));
                }
            }
        }
    }
}

/// Decides that no letter of `letters` occurs in `word`.
fn no_letter_of(letters: &str, word: &str) -> (r: bool)
    ensures
        r == (forall|j: int| 0 <= j < letters@.len() ==> !word@.contains(#[trigger] letters@[j])),
{
    let n = letters.unicode_len();
    let mut i: usize = 0;
    while i < n
        invariant
            i <= n,
            n == letters@.len(),
            forall|j: int| 0 <= j < i ==> !word@.contains(#[trigger] letters@[j]),
        decreases n - i,
    {
        if word_contains(word, letters.get_char(i)) {
            return false;
        }
        i = i + 1;
    }
    true
}

/// Decides that every letter of `letters` occurs in `word`.
fn all_letters_of(letters: &str, word: &str) -> (r: bool)
    ensures
        r == (forall|j: int| 0 <= j < letters@.len() ==> word@.contains(#[trigger] letters@[j])),
{
    let n = letters.unicode_len();
    let mut i: usize = 0;
    while i < n
        invariant
            i <= n,
            n == letters@.len(),
            forall|j: int| 0 <= j < i ==> word@.contains(#[trigger] letters@[j]),
        decreases n - i,
    {
        if !word_contains(word, letters.get_char(i)) {
            return false;
        }
        i = i + 1;
    }
    true
}

impl PartialEq for Guess {
    /// Two guesses are equal when they pair the same word with the same
    /// reply.
    fn eq(&self, other: &Guess) -> (r: bool) {
        self.guess == other.guess && self.reply == other.reply
    }
}

impl vstd::std_specs::cmp::PartialEqSpecImpl for Guess {
    open spec fn obeys_eq_spec() -> bool {
        true
    }

    open spec fn eq_spec(&self, other: &Guess) -> bool {
        guess_word(*self) == guess_word(*other) && guess_reply(*self) == guess_reply(*other)
    }
}


/// Appends the characters of `more` that the accumulator does not yet
/// hold, in order, over the first `k` of them.
pub open spec fn dedup_append(acc: Seq<char>, more: Seq<char>, k: int) -> Seq<char>
    decreases k,
{
    if k <= 0 {
        acc
    } else {
        let prev = dedup_append(acc, more, k - 1);
        prev + if !prev.contains(more[k - 1]) {
            seq![more[k - 1]]
        } else {
            Seq::empty()
        }
    }
}

/// Appends the characters of `more` that the accumulator does not yet
/// hold and that are not banned, in order, over the first `k` of them.
pub open spec fn dedup_append_banned(acc: Seq<char>, more: Seq<char>, k: int, banned: Seq<char>) -> Seq<char>
    decreases k,
{
    if k <= 0 {
        acc
    } else {
        let prev = dedup_append_banned(acc, more, k - 1, banned);
        prev + if !banned.contains(more[k - 1]) && !prev.contains(more[k - 1]) {
            seq![more[k - 1]]
        } else {
            Seq::empty()
        }
    }
}

/// The present-letter list of one guess.
pub open spec fn guess_inc(g: Guess) -> Seq<char> {
    inc_list(
        guess_word(g),
        guess_reply(g),
        min2(guess_word(g).len() as int, guess_reply(g).len() as int),
    )
}

/// The absent-letter list of one guess.
pub open spec fn guess_exc(g: Guess) -> Seq<char> {
    exc_list(
        guess_word(g),
        guess_reply(g),
        min2(guess_word(g).len() as int, guess_reply(g).len() as int),
    )
}

/// The letters the first `n` guesses confirm as present, in order of
/// first appearance without repeats.
pub open spec fn all_inc(gs: Seq<Guess>, n: int) -> Seq<char>
    decreases n,
{
    if n <= 0 {
        Seq::empty()
    } else {
        dedup_append(all_inc(gs, n - 1), guess_inc(gs[n - 1]), guess_inc(gs[n - 1]).len() as int)
    }
}

/// The letters the first `n` guesses confirm as absent — never one that
/// the whole session confirms as present — in order of first appearance
/// without repeats.
pub open spec fn all_exc(gs: Seq<Guess>, n: int, banned: Seq<char>) -> Seq<char>
    decreases n,
{
    if n <= 0 {
        Seq::empty()
    } else {
        dedup_append_banned(
            all_exc(gs, n - 1, banned),
            guess_exc(gs[n - 1]),
            guess_exc(gs[n - 1]).len() as int,
            banned,
        )
    }
}

/// Appends the characters of `more` that `acc` does not yet hold.
fn append_unique(acc: &mut String, more: &str)
    ensures
        final(acc)@ == dedup_append(old(acc)@, more@, more@.len() as int),
{
    let n = more.unicode_len();
    let mut i: usize = 0;
    while i < n
        invariant
            i <= n,
            n == more@.len(),
            acc@ == dedup_append(old(acc)@, more@, i as int),
        decreases n - i,
    {
        let ghost before = acc@;
        let c = more.get_char(i);
        if !word_contains(acc.as_str(), c) {
            crate::push_char(acc, c);
            proof {
                assert(dedup_append(old(acc)@, more@, i as int + 1) =~= before.push(
                    more@[i as int],
                ));
            }
        } else {
            proof {
                assert(dedup_append(old(acc)@, more@, i as int + 1) =~= before);
            }
        }
        i = i + 1;
    }
}

/// Appends the characters of `more` that `acc` does not yet hold and that
/// do not occur in `banned`.
fn append_unique_banned(acc: &mut String, more: &str, banned: &str)
    ensures
        final(acc)@ == dedup_append_banned(old(acc)@, more@, more@.len() as int, banned@),
{
    let n = more.unicode_len();
    let mut i: usize = 0;
    while i < n
        invariant
            i <= n,
            n == more@.len(),
            acc@ == dedup_append_banned(old(acc)@, more@, i as int, banned@),
        decreases n - i,
    {
        let ghost before = acc@;
        let c = more.get_char(i);
        if !word_contains(banned, c) && !word_contains(acc.as_str(), c) {
            crate::push_char(acc, c);
            proof {
                assert(dedup_append_banned(old(acc)@, more@, i as int + 1, banned@)
                    =~= before.push(more@[i as int]));
            }
        } else {
            proof {
                assert(dedup_append_banned(old(acc)@, more@, i as int + 1, banned@) =~= before);
            }
        }
        i = i + 1;
    }
}

/// No banned character enters a banned dedup-append.
proof fn lemma_dedup_banned_free(acc: Seq<char>, more: Seq<char>, k: int, banned: Seq<char>)
    requires
        forall|j: int| 0 <= j < acc.len() ==> !banned.contains(#[trigger] acc[j]),
    ensures
        forall|j: int|
            0 <= j < dedup_append_banned(acc, more, k, banned).len() ==> !banned.contains(
                #[trigger] dedup_append_banned(acc, more, k, banned)[j],
            ),
    decreases k,
{
    if k > 0 {
        lemma_dedup_banned_free(acc, more, k - 1, banned);
        let prev = dedup_append_banned(acc, more, k - 1, banned);
        let cur = dedup_append_banned(acc, more, k, banned);
        assert forall|j: int| 0 <= j < cur.len() implies !banned.contains(#[trigger] cur[j]) by {
            if j < prev.len() {
                assert(cur[j] == prev[j]);
            }
        }
    }
}

/// A session's guesses with the letter summaries drawn from their replies.
#[derive(Debug)]
pub struct SResponse {
    guesses: Vec<Guess>,
    inc: String,
    exc: String,
}

/// The guesses a response accumulates.
pub closed spec fn sres_guesses(s: SResponse) -> Seq<Guess> {
    s.guesses@
}

/// The present-letter summary of a response.
pub closed spec fn sres_inc(s: SResponse) -> Seq<char> {
    s.inc@
}

/// The absent-letter summary of a response.
pub closed spec fn sres_exc(s: SResponse) -> Seq<char> {
    s.exc@
}

/// The whole-session check of a word: no summarised absent letter occurs
/// in it, every summarised present letter occurs in it, and every guess's
/// positional check holds.
pub open spec fn sres_check_spec(gs: Seq<Guess>, inc: Seq<char>, exc: Seq<char>, w: Seq<char>) -> bool {
    &&& forall|j: int| 0 <= j < exc.len() ==> !w.contains(#[trigger] exc[j])
    &&& forall|j: int| 0 <= j < inc.len() ==> w.contains(#[trigger] inc[j])
    &&& forall|k: int|
        0 <= k < gs.len() ==> yg_check_spec(
            guess_word(#[trigger] gs[k]),
            guess_reply(gs[k]),
            w,
        )
}

impl Guess {
    /// Copies a guess.
    fn duplicate(&self) -> (r: Guess)
        ensures
            guess_word(r) == guess_word(*self),
            guess_reply(r) == guess_reply(*self),
    {
        Guess::new(self.guess.as_str(), self.reply.as_str())
    }
}

impl SResponse {
    /// Accumulates a list of guesses, summarising the letters their
    /// replies confirm as present and as absent.  Inclusion wins: a letter
    /// that any reply marks Green or Yellow never enters the absent
    /// summary, so the two summaries share no letter.
    pub fn new(guesses: &Vec<Guess>) -> (r: SResponse)
        ensures
            sres_guesses(r).len() == guesses@.len(),
            forall|i: int|
                0 <= i < guesses@.len() ==> guess_word(#[trigger] sres_guesses(r)[i])
                    == guess_word(guesses@[i]) && guess_reply(sres_guesses(r)[i]) == guess_reply(
                    guesses@[i],
                ),
            sres_inc(r) == all_inc(guesses@, guesses@.len() as int),
            sres_exc(r) == all_exc(
                guesses@,
                guesses@.len() as int,
                all_inc(guesses@, guesses@.len() as int),
            ),
            forall|j: int|
                0 <= j < sres_exc(r).len() ==> !sres_inc(r).contains(#[trigger] sres_exc(r)[j]),
    {
        let mut inc = String::new();
        let mut i: usize = 0;
        while i < guesses.len()
            invariant
                i <= guesses@.len(),
                inc@ == all_inc(guesses@, i as int),
            decreases guesses@.len() - i,
        {
            let more = guesses[i].inc();
            append_unique(&mut inc, more.as_str());
            i = i + 1;
        }
        let mut exc = String::new();
        let mut i: usize = 0;
        while i < guesses.len()
            invariant
                i <= guesses@.len(),
                inc@ == all_inc(guesses@, guesses@.len() as int),
                exc@ == all_exc(guesses@, i as int, inc@),
                forall|j: int| 0 <= j < exc@.len() ==> !inc@.contains(#[trigger] exc@[j]),
            decreases guesses@.len() - i,
        {
            let ghost before = exc@;
            let more = guesses[i].exc();
            append_unique_banned(&mut exc, more.as_str(), inc.as_str());
            proof {
                lemma_dedup_banned_free(before, more@, more@.len() as int, inc@);
            }
            i = i + 1;
        }
        let mut copies: Vec<Guess> = Vec::new();
        let mut i: usize = 0;
        while i < guesses.len()
            invariant
                i <= guesses@.len(),
                copies@.len() == i,
                forall|j: int|
                    0 <= j < i ==> guess_word(#[trigger] copies@[j]) == guess_word(guesses@[j])
                        && guess_reply(copies@[j]) == guess_reply(guesses@[j]),
            decreases guesses@.len() - i,
        {
            copies.push(guesses[i].duplicate());
            i = i + 1;
        }
        SResponse { guesses: copies, inc, exc }
    }

    /// The whole-session check of a word, using the letter summaries for
    /// the containment tests and each guess for the positional ones.
    pub fn check(&self, word: &str) -> (r: bool)
        ensures
            r == sres_check_spec(
                sres_guesses(*self),
                sres_inc(*self),
                sres_exc(*self),
                word@,
            ),
    {
        let a = no_letter_of(self.exc.as_str(), word);
        let b = all_letters_of(self.inc.as_str(), word);
        if !(a && b) {
            return false;
        }
        let mut k: usize = 0;
        while k < self.guesses.len()
            invariant
                k <= sres_guesses(*self).len(),
                sres_guesses(*self).len() == self.guesses@.len(),
                forall|j: int|
                    0 <= j < k ==> yg_check_spec(
                        guess_word(#[trigger] sres_guesses(*self)[j]),
                        guess_reply(sres_guesses(*self)[j]),
                        word@,
                    ),
                forall|j: int|
                    0 <= j < sres_exc(*self).len() ==> !word@.contains(
                        #[trigger] sres_exc(*self)[j],
                    ),
                forall|j: int|
                    0 <= j < sres_inc(*self).len() ==> word@.contains(#[trigger] sres_inc(*self)[j]),
            decreases self.guesses@.len() - k,
        {
            if !self.guesses[k].yg_check(word) {
                return false;
            }
            k = k + 1;
        }
        true
    }

    /// The per-guess check of a word: every accumulated guess accepts it.
    pub fn slow_check(&self, word: &str) -> (r: bool)
        ensures
            r == (forall|k: int|
                0 <= k < sres_guesses(*self).len() ==> guess_check_spec(
                    guess_word(#[trigger] sres_guesses(*self)[k]),
                    guess_reply(sres_guesses(*self)[k]),
                    word@,
                )),
    {
        let mut k: usize = 0;
        while k < self.guesses.len()
            invariant
                k <= sres_guesses(*self).len(),
                sres_guesses(*self).len() == self.guesses@.len(),
                forall|j: int|
                    0 <= j < k ==> guess_check_spec(
                        guess_word(#[trigger] sres_guesses(*self)[j]),
                        guess_reply(sres_guesses(*self)[j]),
                        word@,
                    ),
            decreases self.guesses@.len() - k,
        {
            if !self.guesses[k].slow_check(word) {
                return false;
            }
            k = k + 1;
        }
        true
    }

    /// Joins two responses: the guesses in order, and the letter
    /// summaries united, with inclusion again winning over exclusion.
    pub fn combined(&self, other: &SResponse) -> (r: SResponse)
        ensures
            sres_guesses(r).len() == sres_guesses(*self).len() + sres_guesses(*other).len(),
            forall|i: int|
                0 <= i < sres_guesses(*self).len() ==> guess_word(#[trigger] sres_guesses(r)[i])
                    == guess_word(sres_guesses(*self)[i]) && guess_reply(sres_guesses(r)[i])
                    == guess_reply(sres_guesses(*self)[i]),
            forall|i: int|
                sres_guesses(*self).len() <= i < sres_guesses(r).len() ==> guess_word(
                    #[trigger] sres_guesses(r)[i],
                ) == guess_word(sres_guesses(*other)[i - sres_guesses(*self).len()])
                    && guess_reply(sres_guesses(r)[i]) == guess_reply(
                    sres_guesses(*other)[i - sres_guesses(*self).len()],
                ),
            sres_inc(r) == dedup_append(
                dedup_append(Seq::empty(), sres_inc(*self), sres_inc(*self).len() as int),
                sres_inc(*other),
                sres_inc(*other).len() as int,
            ),
            sres_exc(r) == dedup_append_banned(
                dedup_append_banned(
                    Seq::empty(),
                    sres_exc(*self),
                    sres_exc(*self).len() as int,
                    sres_inc(r),
                ),
                sres_exc(*other),
                sres_exc(*other).len() as int,
                sres_inc(r),
            ),
            forall|j: int|
                0 <= j < sres_exc(r).len() ==> !sres_inc(r).contains(#[trigger] sres_exc(r)[j]),
    {
        let mut inc = String::new();
        append_unique(&mut inc, self.inc.as_str());
        append_unique(&mut inc, other.inc.as_str());
        let mut exc = String::new();
        append_unique_banned(&mut exc, self.exc.as_str(), inc.as_str());
        let ghost mid = exc@;
        append_unique_banned(&mut exc, other.exc.as_str(), inc.as_str());
        proof {
            lemma_dedup_banned_free(Seq::empty(), sres_exc(*self), sres_exc(*self).len() as int, inc@);
            lemma_dedup_banned_free(mid, sres_exc(*other), sres_exc(*other).len() as int, inc@);
        }
        let mut copies: Vec<Guess> = Vec::new();
        let mut i: usize = 0;
        while i < self.guesses.len()
            invariant
                i <= sres_guesses(*self).len(),
                sres_guesses(*self).len() == self.guesses@.len(),
                copies@.len() == i,
                forall|j: int|
                    0 <= j < i ==> guess_word(#[trigger] copies@[j]) == guess_word(
                        sres_guesses(*self)[j],
                    ) && guess_reply(copies@[j]) == guess_reply(sres_guesses(*self)[j]),
            decreases self.guesses@.len() - i,
        {
            copies.push(self.guesses[i].duplicate());
            i = i + 1;
        }
        let ghost selflen = sres_guesses(*self).len() as int;
        let mut i: usize = 0;
        while i < other.guesses.len()
            invariant
                i <= sres_guesses(*other).len(),
                sres_guesses(*other).len() == other.guesses@.len(),
                copies@.len() == selflen + i,
                selflen == sres_guesses(*self).len(),
                forall|j: int|
                    0 <= j < selflen ==> guess_word(#[trigger] copies@[j]) == guess_word(
                        sres_guesses(*self)[j],
                    ) && guess_reply(copies@[j]) == guess_reply(sres_guesses(*self)[j]),
                forall|j: int|
                    selflen <= j < copies@.len() ==> guess_word(#[trigger] copies@[j])
                        == guess_word(sres_guesses(*other)[j - selflen]) && guess_reply(
                        copies@[j],
                    ) == guess_reply(sres_guesses(*other)[j - selflen]),
            decreases other.guesses@.len() - i,
        {
            copies.push(other.guesses[i].duplicate());
            i = i + 1;
        }
        SResponse { guesses: copies, inc, exc }
    }

    /// The letters confirmed in their place, position by position: the
    /// latest Green letter of each position of the first guess's width,
    /// a space where none is known.  Later guesses narrower than the
    /// current summary narrow it further, as the positional pairing does.
    pub fn green(&self) -> (r: String)
        ensures
            r@ == green_spec(sres_guesses(*self)),
    {
        if self.guesses.len() == 0 {
            return String::new();
        }
        let width = self.guesses[0].guess_len();
        if width == 0 {
            return String::new();
        }
        let mut acc = String::new();
        let mut i: usize = 0;
        while i < width
            invariant
                i <= width,
                acc@.len() == i,
                forall|j: int| 0 <= j < i ==> #[trigger] acc@[j] == ' ',
            decreases width - i,
        {
            crate::push_char(&mut acc, ' ');
            i = i + 1;
        }
        proof {
            assert(acc@ =~= Seq::new(
                guess_word(sres_guesses(*self)[0]).len(),
                |j: int| ' ',
            ));
        }
        let mut k: usize = 0;
        while k < self.guesses.len()
            invariant
                k <= sres_guesses(*self).len(),
                sres_guesses(*self).len() == self.guesses@.len(),
                sres_guesses(*self).len() > 0,
                guess_word(sres_guesses(*self)[0]).len() > 0,
                acc@ == green_fold(
                    sres_guesses(*self),
                    k as int,
                    Seq::new(guess_word(sres_guesses(*self)[0]).len(), |j: int| ' '),
                ),
            decreases self.guesses@.len() - k,
        {
            let ghost before = acc@;
            acc = self.guesses[k].green_step(acc);
            proof {
                assert(green_fold(
                    sres_guesses(*self),
                    k as int + 1,
                    Seq::new(guess_word(sres_guesses(*self)[0]).len(), |j: int| ' '),
                ) == acc@);
            }
            k = k + 1;
        }
        acc
    }

    /// How many positions the session has confirmed in their place.
    pub fn green_count(&self) -> (r: usize)
        ensures
            r == count_nonspace(
                green_spec(sres_guesses(*self)),
                green_spec(sres_guesses(*self)).len() as int,
            ),
    {
        let g = self.green();
        let n = g.as_str().unicode_len();
        let mut cnt: usize = 0;
        let mut i: usize = 0;
        while i < n
            invariant
                i <= n,
                n == g@.len(),
                g@ == green_spec(sres_guesses(*self)),
                cnt == count_nonspace(g@, i as int),
                cnt <= i,
            decreases n - i,
        {
            if g.as_str().get_char(i) != ' ' {
                cnt = cnt + 1;
            }
            i = i + 1;
        }
        cnt
    }
}

impl Guess {
    /// The width of the guessed word.
    fn guess_len(&self) -> (r: usize)
        ensures
            r == guess_word(*self).len(),
    {
        self.guess.as_str().unicode_len()
    }

    /// One step of the Green summary fold: keep the letters this guess
    /// marks Green, keep the summary elsewhere, as far as all three reach.
    fn green_step(&self, acc: String) -> (r: String)
        ensures
            r@ == green_step_spec(acc@, guess_word(*self), guess_reply(*self)),
    {
        let ghost g = guess_word(*self);
        let ghost rp = guess_reply(*self);
        let alen = acc.as_str().unicode_len();
        let glen = self.guess.as_str().unicode_len();
        let rlen = self.reply.as_str().unicode_len();
        let mut n = if alen <= rlen {
            alen
        } else {
            rlen
        };
        if glen < n {
            n = glen;
        }
        let mut out = String::new();
        let mut i: usize = 0;
        while i < n
            invariant
                i <= n,
                n == min2(min2(acc@.len() as int, rp.len() as int), g.len() as int),
                g == self.guess@,
                rp == self.reply@,
                g == guess_word(*self),
                rp == guess_reply(*self),
                out@.len() == i,
                forall|j: int|
                    0 <= j < i ==> #[trigger] out@[j] == (if rp[j] == 'g' {
                        g[j]
                    } else {
                        acc@[j]
                    }),
            decreases n - i,
        {
            let rc = self.reply.as_str().get_char(i);
            if rc == 'g' {
                crate::push_char(&mut out, self.guess.as_str().get_char(i));
            } else {
                crate::push_char(&mut out, acc.as_str().get_char(i));
            }
            i = i + 1;
        }
        proof {
            assert(out@ =~= green_step_spec(acc@, g, rp));
        }
        out
    }
}

/// One step of the Green summary fold, over the views.
pub open spec fn green_step_spec(acc: Seq<char>, g: Seq<char>, r: Seq<char>) -> Seq<char> {
    Seq::new(
        min2(min2(acc.len() as int, r.len() as int), g.len() as int) as nat,
        |i: int|
            if r[i] == 'g' {
                g[i]
            } else {
                acc[i]
            },
    )
}

/// The Green summary after folding the first `n` guesses over `init`.
pub open spec fn green_fold(gs: Seq<Guess>, n: int, init: Seq<char>) -> Seq<char>
    decreases n,
{
    if n <= 0 {
        init
    } else {
        green_step_spec(green_fold(gs, n - 1, init), guess_word(gs[n - 1]), guess_reply(gs[n - 1]))
    }
}

/// The Green summary of a session: folded over all its guesses, starting
/// from a blank summary as wide as the first guess.  Empty when there is
/// no guess, or the first guess is empty.
pub open spec fn green_spec(gs: Seq<Guess>) -> Seq<char> {
    if gs.len() == 0 {
        Seq::empty()
    } else if guess_word(gs[0]).len() == 0 {
        Seq::empty()
    } else {
        green_fold(gs, gs.len() as int, Seq::new(guess_word(gs[0]).len(), |j: int| ' '))
    }
}

/// How many of the first `n` summary positions hold a confirmed letter.
pub open spec fn count_nonspace(s: Seq<char>, n: int) -> int
    decreases n,
{
    if n <= 0 {
        0
    } else {
        count_nonspace(s, n - 1) + if s[n - 1] != ' ' {
            1int
        } else {
            0int
        }
    }
}

impl PartialEq for SResponse {
    /// Two responses are equal when they hold the same guesses and the
    /// same letter summaries.
    fn eq(&self, other: &SResponse) -> (r: bool) {
        if !(self.inc == other.inc) || !(self.exc == other.exc) {
            return false;
        }
        if self.guesses.len() != other.guesses.len() {
            return false;
        }
        let mut k: usize = 0;
        while k < self.guesses.len()
            invariant
                k <= self.guesses@.len(),
                self.guesses@.len() == other.guesses@.len(),
                forall|j: int|
                    0 <= j < k ==> guess_word(#[trigger] self.guesses@[j]) == guess_word(
                        other.guesses@[j],
                    ) && guess_reply(self.guesses@[j]) == guess_reply(other.guesses@[j]),
            decreases self.guesses@.len() - k,
        {
            if !(self.guesses[k] == other.guesses[k]) {
                return false;
            }
            k = k + 1;
        }
        true
    }
}

impl vstd::std_specs::cmp::PartialEqSpecImpl for SResponse {
    open spec fn obeys_eq_spec() -> bool {
        true
    }

    open spec fn eq_spec(&self, other: &SResponse) -> bool {
        &&& sres_inc(*self) == sres_inc(*other)
        &&& sres_exc(*self) == sres_exc(*other)
        &&& sres_guesses(*self).len() == sres_guesses(*other).len()
        &&& forall|j: int|
            0 <= j < sres_guesses(*self).len() ==> guess_word(#[trigger] sres_guesses(*self)[j])
                == guess_word(sres_guesses(*other)[j]) && guess_reply(sres_guesses(*self)[j])
                == guess_reply(sres_guesses(*other)[j])
    }
}

} // verus!
