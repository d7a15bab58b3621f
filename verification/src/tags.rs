//! Positional responses: classifying each guess letter against a target.
//!
//! The response for a (target, guess) pair is computed with an
//! occurrence-budgeted two-pass algorithm.  A per-letter occurrence count of
//! the target is taken first; exact positional matches are tagged Green and
//! consume budget; the remaining positions are tagged Yellow while the
//! guessed letter still has budget, and Black once it has none.  This keeps
//! the Green plus Yellow count of a repeated letter from ever exceeding its
//! occurrence count in the target.

use vstd::prelude::*;

use crate::EngineError;
use crate::is_letter;
use crate::letter_index;
use crate::wf_word;

verus! {

/// The classification of one guess position against the target.
#[derive(Debug, PartialEq, Eq, Structural, Clone, Copy)]
pub enum LetterTag {
    /// The guessed letter stands in the target at this very position.
    Green,
    /// The guessed letter occurs in the target, but not here, and its
    /// occurrence budget is not yet exhausted.
    Yellow,
    /// The guessed letter is absent, or its budget is used up.
    Black,
}

/// How often `c` occurs in the first `n` elements of `s`.
pub open spec fn count_occ(s: Seq<char>, c: char, n: int) -> int
    decreases n,
{
    if n <= 0 {
        0
    } else {
        count_occ(s, c, n - 1) + if s[n - 1] == c {
            1int
        } else {
            0int
        }
    }
}

/// How many of the first `n` positions are exact matches of `c`:
/// positions `j` with `t[j] == g[j] == c`.
pub open spec fn count_green_occ(t: Seq<char>, g: Seq<char>, c: char, n: int) -> int
    decreases n,
{
    if n <= 0 {
        0
    } else {
        count_green_occ(t, g, c, n - 1) + if t[n - 1] == g[n - 1] && g[n - 1] == c {
            1int
        } else {
            0int
        }
    }
}

/// How many of the first `n` positions guess `c` without an exact match:
/// positions `j` with `t[j] != g[j]` and `g[j] == c`.
pub open spec fn count_nongreen_occ(t: Seq<char>, g: Seq<char>, c: char, n: int) -> int
    decreases n,
{
    if n <= 0 {
        0
    } else {
        count_nongreen_occ(t, g, c, n - 1) + if t[n - 1] != g[n - 1] && g[n - 1] == c {
            1int
        } else {
            0int
        }
    }
}

/// The budget left for tagging `c` Yellow: its occurrence count in the
/// target, less the occurrences consumed by exact positional matches.
pub open spec fn yellow_budget(t: Seq<char>, g: Seq<char>, c: char) -> int {
    count_occ(t, c, t.len() as int) - count_green_occ(t, g, c, t.len() as int)
}

/// The tag of position `i`, for words of equal length: Green on an exact
/// match; otherwise Yellow while earlier non-green occurrences of the
/// guessed letter have not used up its budget, and Black after that.
pub open spec fn tag_at(t: Seq<char>, g: Seq<char>, i: int) -> LetterTag {
    if t[i] == g[i] {
        LetterTag::Green
    } else if count_nongreen_occ(t, g, g[i], i) < yellow_budget(t, g, g[i]) {
        LetterTag::Yellow
    } else {
        LetterTag::Black
    }
}

/// The full response for a (target, guess) pair of equal length.
pub open spec fn tags_of(t: Seq<char>, g: Seq<char>) -> Seq<LetterTag> {
    Seq::new(g.len(), |i: int| tag_at(t, g, i))
}

/// How many of the first `n` tags are Green.
pub open spec fn count_tag(tags: Seq<LetterTag>, tag: LetterTag, n: int) -> int
    decreases n,
{
    if n <= 0 {
        0
    } else {
        count_tag(tags, tag, n - 1) + if tags[n - 1] == tag {
            1int
        } else {
            0int
        }
    }
}

/// How many of the first `n` positions are exact matches.
pub open spec fn count_matches(t: Seq<char>, g: Seq<char>, n: int) -> int
    decreases n,
{
    if n <= 0 {
        0
    } else {
        count_matches(t, g, n - 1) + if t[n - 1] == g[n - 1] {
            1int
        } else {
            0int
        }
    }
}

/// The Green count of a derived response equals the number of positions
/// where target and guess hold the same letter, exactly.
pub proof fn lemma_green_count(t: Seq<char>, g: Seq<char>)
    requires
        t.len() == g.len(),
    ensures
        count_tag(tags_of(t, g), LetterTag::Green, g.len() as int) == count_matches(
            t,
            g,
            g.len() as int,
        ),
{
    lemma_green_count_prefix(t, g, g.len() as int);
}

proof fn lemma_green_count_prefix(t: Seq<char>, g: Seq<char>, n: int)
    requires
        t.len() == g.len(),
        n <= g.len(),
    ensures
        count_tag(tags_of(t, g), LetterTag::Green, n) == count_matches(t, g, n),
    decreases n,
{
    if n > 0 {
        lemma_green_count_prefix(t, g, n - 1);
        assert(tags_of(t, g)[n - 1] == tag_at(t, g, n - 1));
    }
}

/// How many of the first `n` positions guess `c` and are tagged Yellow.
pub open spec fn count_yellow_occ(t: Seq<char>, g: Seq<char>, c: char, n: int) -> int
    decreases n,
{
    if n <= 0 {
        0
    } else {
        count_yellow_occ(t, g, c, n - 1) + if g[n - 1] == c && tag_at(t, g, n - 1)
            == LetterTag::Yellow {
            1int
        } else {
            0int
        }
    }
}

/// How many of the first `n` positions guess `c` and are tagged Green or
/// Yellow.
pub open spec fn count_gy_occ(t: Seq<char>, g: Seq<char>, c: char, n: int) -> int
    decreases n,
{
    if n <= 0 {
        0
    } else {
        count_gy_occ(t, g, c, n - 1) + if g[n - 1] == c && tag_at(t, g, n - 1)
            != LetterTag::Black {
            1int
        } else {
            0int
        }
    }
}

/// The Yellow positions of a letter never outnumber its remaining budget:
/// they are the earlier of its non-green positions, cut off at the budget.
proof fn lemma_yellow_occ_clamped(t: Seq<char>, g: Seq<char>, c: char, n: int)
    requires
        t.len() == g.len(),
        0 <= n <= g.len(),
        yellow_budget(t, g, c) >= 0,
    ensures
        count_yellow_occ(t, g, c, n) == if count_nongreen_occ(t, g, c, n) <= yellow_budget(
            t,
            g,
            c,
        ) {
            count_nongreen_occ(t, g, c, n)
        } else {
            yellow_budget(t, g, c)
        },
    decreases n,
{
    if n > 0 {
        lemma_yellow_occ_clamped(t, g, c, n - 1);
        lemma_nongreen_nonneg(t, g, c, n - 1);
    }
}

proof fn lemma_nongreen_nonneg(t: Seq<char>, g: Seq<char>, c: char, n: int)
    ensures
        count_nongreen_occ(t, g, c, n) >= 0,
    decreases n,
{
    if n > 0 {
        lemma_nongreen_nonneg(t, g, c, n - 1);
    }
}

/// The occurrence budget is respected: for every letter, the Green plus
/// Yellow count of the response never exceeds the letter's occurrence
/// count in the target.
pub proof fn lemma_occurrence_budget(t: Seq<char>, g: Seq<char>, c: char)
    requires
        t.len() == g.len(),
    ensures
        count_gy_occ(t, g, c, g.len() as int) <= count_occ(t, c, t.len() as int),
{
    let n = g.len() as int;
    lemma_green_le_occ(t, g, c, n);
    lemma_gy_split(t, g, c, n);
    lemma_yellow_occ_clamped(t, g, c, n);
}

/// A letter's Green-or-Yellow count splits into its Green count and its
/// Yellow count.
proof fn lemma_gy_split(t: Seq<char>, g: Seq<char>, c: char, n: int)
    requires
        n <= g.len(),
    ensures
        count_gy_occ(t, g, c, n) == count_green_occ(t, g, c, n) + count_yellow_occ(t, g, c, n),
    decreases n,
{
    if n > 0 {
        lemma_gy_split(t, g, c, n - 1);
    }
}

/// Derives the response for a (target, guess) pair of equal length whose
/// characters have already been validated.
///
/// Pass 0 builds the per-letter occurrence budget of the target.  Pass 1
/// tags exact matches Green and decrements their letter's budget.  Pass 2
/// tags the remaining positions Yellow while budget is left, else Black.
pub fn derive_tags(target: &str, guess: &str) -> (r: Vec<LetterTag>)
    requires
        wf_word(target@),
        wf_word(guess@),
        target@.len() == guess@.len(),
    ensures
        r@ == tags_of(target@, guess@),
{
    let ghost t = target@;
    let ghost g = guess@;
    let len = target.unicode_len();
    // Pass 0: per-letter occurrence counts of the target.
    let mut budget: Vec<usize> = Vec::new();
    let mut l: usize = 0;
    while l < 26
        invariant
            budget@.len() == l,
            l <= 26,
            len == t.len(),
            t == target@,
            wf_word(t),
            forall|k: int|
                0 <= k < l ==> budget@[k] == count_occ(t, crate::letter_at(k), t.len() as int),
        decreases 26 - l,
    {
        let mut cnt: usize = 0;
        let mut i: usize = 0;
        while i < len
            invariant
                i <= len,
                len == t.len(),
                cnt == count_occ(t, crate::letter_at(l as int), i as int),
                cnt <= i,
                wf_word(t),
                t == target@,
                l < 26,
            decreases len - i,
        {
            if target.get_char(i) as u32 == 97 + l as u32 {
                proof {
                    assert(is_letter(t[i as int]));
                    assert(t[i as int] as int == 97 + l as int);
                    assert(t[i as int] == crate::letter_at(l as int));
                }
                cnt = cnt + 1;
            } else {
                proof {
                    assert(t[i as int] as int != 97 + l as int);
                    assert(t[i as int] != crate::letter_at(l as int)) by {
                        assert(crate::letter_at(l as int) as int == 97 + l as int);
                    }
                }
            }
            i = i + 1;
        }
        budget.push(cnt);
        l = l + 1;
    }
    // Pass 1: tag exact matches Green and consume budget.
    let mut tags: Vec<LetterTag> = Vec::new();
    let mut i: usize = 0;
    while i < len
        invariant
            i <= len,
            len == t.len() == g.len(),
            t == target@,
            g == guess@,
            wf_word(t),
            wf_word(g),
            budget@.len() == 26,
            tags@.len() == i,
            forall|j: int|
                0 <= j < i ==> tags@[j] == (if t[j] == g[j] {
                    LetterTag::Green
                } else {
                    LetterTag::Black
                }),
            forall|k: int|
                0 <= k < 26 ==> budget@[k] == count_occ(t, crate::letter_at(k), t.len() as int)
                    - count_green_occ(t, g, crate::letter_at(k), i as int),
        decreases len - i,
    {
        let tc = target.get_char(i);
        let gc = guess.get_char(i);
        proof {
            assert(is_letter(g[i as int]));
            lemma_green_le_occ(t, g, g[i as int], i as int);
        }
        if tc == gc {
            let idx = (gc as u32 - 97) as usize;
            proof {
                assert(letter_index(g[i as int]) == idx as int);
                assert(crate::letter_at(idx as int) == g[i as int]) by {
                    assert(crate::letter_at(letter_index(g[i as int])) as int == g[i as int] as int);
                }
                // The budget stays non-negative: greens never outnumber occurrences.
                lemma_green_le_occ_step(t, g, g[i as int], i as int);
            }
            let b = budget[idx];
            budget.set(idx, b - 1);
            tags.push(LetterTag::Green);
        } else {
            tags.push(LetterTag::Black);
        }
        proof {
            assert forall|k: int| 0 <= k < 26 implies budget@[k] == count_occ(
                t,
                crate::letter_at(k),
                t.len() as int,
            ) - count_green_occ(t, g, crate::letter_at(k), i as int + 1) by {
                if t[i as int] == g[i as int] && g[i as int] == crate::letter_at(k) {
                } else {
                    assert(count_green_occ(t, g, crate::letter_at(k), i as int + 1)
                        == count_green_occ(t, g, crate::letter_at(k), i as int));
                }
            }
        }
        i = i + 1;
    }
    // Pass 2: spend the remaining budget on Yellow tags, left to right.
    let mut i: usize = 0;
    while i < len
        invariant
            i <= len,
            len == t.len() == g.len(),
            t == target@,
            g == guess@,
            wf_word(t),
            wf_word(g),
            budget@.len() == 26,
            tags@.len() == len,
            forall|j: int|
                i <= j < len ==> tags@[j] == (if t[j] == g[j] {
                    LetterTag::Green
                } else {
                    LetterTag::Black
                }),
            forall|j: int| 0 <= j < i ==> tags@[j] == tag_at(t, g, j),
            forall|k: int|
                0 <= k < 26 ==> budget@[k] == spent_budget(t, g, crate::letter_at(k), i as int),
        decreases len - i,
    {
        let gc = guess.get_char(i);
        let tc = target.get_char(i);
        proof {
            assert(is_letter(g[i as int]));
        }
        if tc != gc {
            let idx = (gc as u32 - 97) as usize;
            proof {
                assert(letter_index(g[i as int]) == idx as int);
                assert(crate::letter_at(idx as int) == g[i as int]) by {
                    assert(crate::letter_at(letter_index(g[i as int])) as int == g[i as int] as int);
                }
            }
            let b = budget[idx];
            if b > 0 {
                budget.set(idx, b - 1);
                let tag = tags[i];
                tags.set(i, LetterTag::Yellow);
                proof {
                    assert(spent_budget(t, g, g[i as int], i as int) > 0);
                    lemma_spent_budget_pos(t, g, g[i as int], i as int);
                    assert(tag_at(t, g, i as int) == LetterTag::Yellow);
                }
            } else {
                proof {
                    assert(spent_budget(t, g, g[i as int], i as int) == 0);
                    lemma_spent_budget_zero(t, g, g[i as int], i as int);
                    assert(tag_at(t, g, i as int) == LetterTag::Black);
                }
            }
        } else {
            proof {
                assert(tag_at(t, g, i as int) == LetterTag::Green);
            }
        }
        proof {
            assert forall|k: int| 0 <= k < 26 implies budget@[k] == spent_budget(
                t,
                g,
                crate::letter_at(k),
                i as int + 1,
            ) by {
                lemma_spent_budget_step(t, g, crate::letter_at(k), i as int);
            }
        }
        i = i + 1;
    }
    proof {
        assert(tags@ =~= tags_of(t, g));
    }
    tags
}

/// What is left of a letter's yellow budget after pass 2 has handled the
/// first `n` positions.
pub open spec fn spent_budget(t: Seq<char>, g: Seq<char>, c: char, n: int) -> int {
    let yb = yellow_budget(t, g, c);
    let used = count_nongreen_occ(t, g, c, n);
    if used < yb {
        yb - used
    } else {
        0
    }
}

proof fn lemma_spent_budget_pos(t: Seq<char>, g: Seq<char>, c: char, i: int)
    requires
        spent_budget(t, g, c, i) > 0,
    ensures
        count_nongreen_occ(t, g, c, i) < yellow_budget(t, g, c),
{
}

proof fn lemma_spent_budget_zero(t: Seq<char>, g: Seq<char>, c: char, i: int)
    requires
        spent_budget(t, g, c, i) == 0,
    ensures
        !(count_nongreen_occ(t, g, c, i) < yellow_budget(t, g, c)),
{
}

proof fn lemma_spent_budget_step(t: Seq<char>, g: Seq<char>, c: char, i: int)
    requires
        0 <= i < g.len(),
        i < t.len(),
    ensures
        spent_budget(t, g, c, i + 1) == if t[i] != g[i] && g[i] == c && spent_budget(t, g, c, i)
            > 0 {
            spent_budget(t, g, c, i) - 1
        } else if t[i] != g[i] && g[i] == c {
            0
        } else {
            spent_budget(t, g, c, i)
        },
{
    assert(count_nongreen_occ(t, g, c, i + 1) == count_nongreen_occ(t, g, c, i) + if t[i] != g[i]
        && g[i] == c {
        1int
    } else {
        0int
    });
}

proof fn lemma_green_le_occ(t: Seq<char>, g: Seq<char>, c: char, n: int)
    requires
        t.len() == g.len(),
        n <= t.len(),
    ensures
        count_green_occ(t, g, c, n) <= count_occ(t, c, n),
    decreases n,
{
    if n > 0 {
        lemma_green_le_occ(t, g, c, n - 1);
    }
}

proof fn lemma_green_le_occ_step(t: Seq<char>, g: Seq<char>, c: char, i: int)
    requires
        t.len() == g.len(),
        0 <= i < t.len(),
        t[i] == g[i] && g[i] == c,
    ensures
        count_green_occ(t, g, c, i) < count_occ(t, c, t.len() as int),
{
    lemma_green_le_occ(t, g, c, i);
    lemma_occ_monotone(t, c, i + 1, t.len() as int);
    assert(count_occ(t, c, i + 1) == count_occ(t, c, i) + 1);
}

proof fn lemma_occ_monotone(t: Seq<char>, c: char, m: int, n: int)
    requires
        0 <= m <= n,
    ensures
        count_occ(t, c, m) <= count_occ(t, c, n),
    decreases n,
{
    if m < n {
        lemma_occ_monotone(t, c, m, n - 1);
    }
}

/// Derives the tri-state positional response for a (target, guess) pair.
///
/// Returns the response exactly when the two words have equal length, and
/// `LengthMismatch` otherwise: a mismatch indicates a caller bug, never a
/// recoverable condition.
pub fn derive(target: &str, guess: &str) -> (r: Result<Vec<LetterTag>, EngineError>)
    requires
        wf_word(target@),
        wf_word(guess@),
    ensures
        target@.len() == guess@.len() ==> (r matches Ok(tags) && tags@ == tags_of(
            target@,
            guess@,
        )),
        target@.len() != guess@.len() ==> (r matches Err(e) && e
            == EngineError::LengthMismatch),
{
    if target.unicode_len() != guess.unicode_len() {
        Err(EngineError::LengthMismatch)
    } else {
        Ok(derive_tags(target, guess))
    }
}

/// Counts the Green tags of a response.
pub fn green_count_of(tags: &Vec<LetterTag>) -> (r: usize)
    ensures
        r == count_tag(tags@, LetterTag::Green, tags@.len() as int),
{
    let mut cnt: usize = 0;
    let mut i: usize = 0;
    while i < tags.len()
        invariant
            i <= tags@.len(),
            cnt == count_tag(tags@, LetterTag::Green, i as int),
            cnt <= i,
        decreases tags@.len() - i,
    {
        if matches!(tags[i], LetterTag::Green) {
            cnt = cnt + 1;
        }
        i = i + 1;
    }
    cnt
}

} // verus!
