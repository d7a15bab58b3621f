//! Scoring every dictionary word as a candidate next guess.
//!
//! For each guess in the dictionary and each surviving target in the
//! active set, the engine derives the response the target would give,
//! folds it into the base constraint, filters the active set through the
//! hypothetical constraint, and accumulates four counts per guess: the
//! Green positions, the sizes of the included and excluded letter sets of
//! the hypothetical constraint (absolute sizes, not increments), and the
//! number of active words the hypothetical constraint rejects.
//!
//! Each guess's record is a pure function of (guess, active set, base
//! constraint) with no shared mutable state across guesses, so the outer
//! loop over the dictionary is a data-parallel map with one independent
//! accumulator per guess.

use vstd::prelude::*;

use crate::constraint::Constraint;
use crate::constraint::filter;
use crate::constraint::merge;
use crate::constraint::merged_avoids;
use crate::constraint::merged_excluded;
use crate::constraint::merged_fixed;
use crate::constraint::merged_included;
use crate::constraint::satisfies;
use crate::constraint::wf;
use crate::letter_at;
use crate::tags::LetterTag;
use crate::tags::count_tag;
use crate::tags::derive_tags;
use crate::tags::green_count_of;
use crate::tags::tags_of;
use crate::wf_word;

verus! {

/// The per-guess aggregate over all simulated targets.
#[derive(Debug, PartialEq, Eq, Structural, Clone, Copy)]
pub struct Score {
    /// How many included letters the hypothetical constraints held, summed.
    pub inc_letters: usize,
    /// How many excluded letters the hypothetical constraints held, summed.
    pub exc_letters: usize,
    /// How many Green positions the simulated responses held, summed.
    pub green: usize,
    /// How many active words the hypothetical constraints rejected, summed.
    pub rejected_words: usize,
}

/// Whether a word would satisfy the constraint that merging the given
/// response into the base constraint produces.
pub open spec fn sat_after(w: Seq<char>, base: Constraint, tags: Seq<LetterTag>, g: Seq<char>) -> bool {
    &&& forall|l: int|
        0 <= l < 26 && #[trigger] merged_excluded(base, tags, g, l) ==> !w.contains(letter_at(l))
    &&& forall|l: int|
        0 <= l < 26 && #[trigger] merged_included(base, tags, g, l) ==> w.contains(letter_at(l))
    &&& forall|p: int|
        0 <= p < 8 ==> (#[trigger] merged_fixed(base, tags, g, p) matches Some(ch) ==> p < w.len()
            && w[p] == ch)
    &&& forall|p: int, l: int|
        0 <= p < 8 && 0 <= l < 26 && #[trigger] merged_avoids(base, tags, g, p, l) ==> !(p
            < w.len() && w[p] == letter_at(l))
}

/// A word satisfies the merged constraint exactly when it satisfies the
/// merge formulas over the base constraint and the response.
proof fn lemma_sat_after(w: Seq<char>, base: Constraint, tags: Seq<LetterTag>, g: Seq<char>, m: Constraint)
    requires
        forall|l: int|
            0 <= l < 26 ==> crate::constraint::includes(m, l) == merged_included(base, tags, g, l),
        forall|l: int|
            0 <= l < 26 ==> crate::constraint::excludes(m, l) == merged_excluded(base, tags, g, l),
        forall|p: int|
            0 <= p < 8 ==> crate::constraint::fixed_at(m, p) == merged_fixed(base, tags, g, p),
        forall|p: int, l: int|
            0 <= p < 8 && 0 <= l < 26 ==> crate::constraint::avoids(m, p, l) == merged_avoids(
                base,
                tags,
                g,
                p,
                l,
            ),
    ensures
        satisfies(w, m) == sat_after(w, base, tags, g),
{
    if satisfies(w, m) {
        assert forall|l: int| 0 <= l < 26 && #[trigger] merged_excluded(base, tags, g, l) implies
            !w.contains(letter_at(l)) by {
            assert(crate::constraint::excludes(m, l) && 0 <= l < 26 ==> !w.contains(
                #[trigger] letter_at(l),
            ));
        }
        assert forall|l: int| 0 <= l < 26 && #[trigger] merged_included(base, tags, g, l) implies
            w.contains(letter_at(l)) by {
            assert(crate::constraint::includes(m, l) && 0 <= l < 26 ==> w.contains(
                #[trigger] letter_at(l),
            ));
        }
        assert forall|p: int| 0 <= p < 8 implies (#[trigger] merged_fixed(base, tags, g, p)
            matches Some(ch) ==> p < w.len() && w[p] == ch) by {
            assert(crate::constraint::fixed_at(m, p) matches Some(ch) ==> p < w.len() && w[p]
                == ch);
        }
        assert forall|p: int, l: int|
            0 <= p < 8 && 0 <= l < 26 && #[trigger] merged_avoids(base, tags, g, p, l) implies !(p
            < w.len() && w[p] == letter_at(l)) by {
            assert(crate::constraint::avoids(m, p, l) && 0 <= p < 8 && 0 <= l < 26 ==> !(p
                < w.len() && w[p] == letter_at(l)));
        }
        assert(sat_after(w, base, tags, g));
    }
    if sat_after(w, base, tags, g) {
        assert forall|l: int| 0 <= l < 26 && crate::constraint::excludes(m, l) implies !w.contains(
            #[trigger] letter_at(l),
        ) by {
            assert(merged_excluded(base, tags, g, l));
        }
        assert forall|l: int| 0 <= l < 26 && crate::constraint::includes(m, l) implies w.contains(
            #[trigger] letter_at(l),
        ) by {
            assert(merged_included(base, tags, g, l));
        }
        assert forall|p: int| 0 <= p < 8 implies (#[trigger] crate::constraint::fixed_at(m, p)
            matches Some(ch) ==> p < w.len() && w[p] == ch) by {
            assert(merged_fixed(base, tags, g, p) == crate::constraint::fixed_at(m, p));
            assert(merged_fixed(base, tags, g, p) matches Some(ch) ==> p < w.len() && w[p] == ch);
        }
        assert forall|p: int, l: int|
            0 <= p < 8 && 0 <= l < 26 && #[trigger] crate::constraint::avoids(m, p, l) implies !(
        p < w.len() && w[p] == letter_at(l)) by {
            assert(merged_avoids(base, tags, g, p, l));
        }
        assert(satisfies(w, m));
    }
}

/// Two pointwise-equal predicates filter a sequence identically.
proof fn lemma_filter_congruence<A>(s: Seq<A>, p1: spec_fn(A) -> bool, p2: spec_fn(A) -> bool)
    requires
        forall|i: int| 0 <= i < s.len() ==> p1(#[trigger] s[i]) == p2(s[i]),
    ensures
        s.filter(p1) == s.filter(p2),
    decreases s.len(),
{
    reveal(Seq::filter);
    if s.len() > 0 {
        lemma_filter_congruence(s.drop_last(), p1, p2);
        assert(s.filter(p1) =~= s.filter(p2));
    } else {
        assert(s.filter(p1) =~= s.filter(p2));
    }
}

/// How many of the first `n` letters the merged constraint includes.
pub open spec fn count_inc(base: Constraint, tags: Seq<LetterTag>, g: Seq<char>, n: int) -> int
    decreases n,
{
    if n <= 0 {
        0
    } else {
        count_inc(base, tags, g, n - 1) + if merged_included(base, tags, g, n - 1) {
            1int
        } else {
            0int
        }
    }
}

/// How many of the first `n` letters the merged constraint excludes.
pub open spec fn count_exc(base: Constraint, tags: Seq<LetterTag>, g: Seq<char>, n: int) -> int
    decreases n,
{
    if n <= 0 {
        0
    } else {
        count_exc(base, tags, g, n - 1) + if merged_excluded(base, tags, g, n - 1) {
            1int
        } else {
            0int
        }
    }
}

/// The Green count one simulated target contributes.
pub open spec fn ts_green(t: Seq<char>, g: Seq<char>) -> int {
    count_tag(tags_of(t, g), LetterTag::Green, g.len() as int)
}

/// The included-letter count one simulated target contributes: the size
/// of the hypothetical constraint's included set.
pub open spec fn ts_inc(base: Constraint, t: Seq<char>, g: Seq<char>) -> int {
    count_inc(base, tags_of(t, g), g, 26)
}

/// The excluded-letter count one simulated target contributes.
pub open spec fn ts_exc(base: Constraint, t: Seq<char>, g: Seq<char>) -> int {
    count_exc(base, tags_of(t, g), g, 26)
}

/// The rejected-word count one simulated target contributes: how many
/// active words the hypothetical constraint rules out.
pub open spec fn ts_rej(base: Constraint, t: Seq<char>, g: Seq<char>, active: Seq<String>) -> int {
    active.len() - active.filter(|w: String| sat_after(w@, base, tags_of(t, g), g)).len()
}

/// The Green count summed over the first `n` targets.
pub open spec fn total_green(g: Seq<char>, active: Seq<String>, n: int) -> int
    decreases n,
{
    if n <= 0 {
        0
    } else {
        total_green(g, active, n - 1) + ts_green(active[n - 1]@, g)
    }
}

/// The included-letter count summed over the first `n` targets.
pub open spec fn total_inc(base: Constraint, g: Seq<char>, active: Seq<String>, n: int) -> int
    decreases n,
{
    if n <= 0 {
        0
    } else {
        total_inc(base, g, active, n - 1) + ts_inc(base, active[n - 1]@, g)
    }
}

/// The excluded-letter count summed over the first `n` targets.
pub open spec fn total_exc(base: Constraint, g: Seq<char>, active: Seq<String>, n: int) -> int
    decreases n,
{
    if n <= 0 {
        0
    } else {
        total_exc(base, g, active, n - 1) + ts_exc(base, active[n - 1]@, g)
    }
}

/// The rejected-word count summed over the first `n` targets.
pub open spec fn total_rej(base: Constraint, g: Seq<char>, active: Seq<String>, n: int) -> int
    decreases n,
{
    if n <= 0 {
        0
    } else {
        total_rej(base, g, active, n - 1) + ts_rej(base, active[n - 1]@, g, active)
    }
}

/// The words a scoring pass accepts: valid words of one common length, at
/// most eight letters, few enough that no aggregate can overflow.
pub open spec fn scoring_inputs(dict: Seq<String>, active: Seq<String>, len: int) -> bool {
    &&& 0 < len <= 8
    &&& forall|i: int|
        0 <= i < dict.len() ==> wf_word((#[trigger] dict[i])@) && dict[i]@.len() == len
    &&& forall|i: int|
        0 <= i < active.len() ==> wf_word((#[trigger] active[i])@) && active[i]@.len() == len
    &&& active.len() <= 46340
}

/// A tag count never exceeds the positions counted.
proof fn lemma_count_tag_le(tags: Seq<LetterTag>, tag: LetterTag, n: int)
    requires
        n >= 0,
    ensures
        0 <= count_tag(tags, tag, n) <= n,
    decreases n,
{
    if n > 0 {
        lemma_count_tag_le(tags, tag, n - 1);
    }
}

/// Letter-set counts never exceed the letters counted.
proof fn lemma_count_letters_le(base: Constraint, tags: Seq<LetterTag>, g: Seq<char>, n: int)
    requires
        n >= 0,
    ensures
        0 <= count_inc(base, tags, g, n) <= n,
        0 <= count_exc(base, tags, g, n) <= n,
    decreases n,
{
    if n > 0 {
        lemma_count_letters_le(base, tags, g, n - 1);
    }
}

/// Per-target contributions stay within their natural bounds.
proof fn lemma_contrib_bounds(base: Constraint, t: Seq<char>, g: Seq<char>, active: Seq<String>)
    ensures
        0 <= ts_green(t, g) <= g.len(),
        0 <= ts_inc(base, t, g) <= 26,
        0 <= ts_exc(base, t, g) <= 26,
        0 <= ts_rej(base, t, g, active) <= active.len(),
{
    lemma_count_tag_le(tags_of(t, g), LetterTag::Green, g.len() as int);
    lemma_count_letters_le(base, tags_of(t, g), g, 26);
    broadcast use vstd::seq_lib::group_filter_ensures;

    assert(active.filter(|w: String| sat_after(w@, base, tags_of(t, g), g)).len() <= active.len());
}

/// Scores one guess against every target of the active set: the per-guess
/// unit of the data-parallel outer loop, a pure function of its arguments.
pub fn score_one_guess(guess: &String, active: &Vec<String>, base: &Constraint) -> (r: Score)
    requires
        wf(*base),
        wf_word(guess@),
        0 < guess@.len() <= 8,
        forall|i: int|
            0 <= i < active@.len() ==> wf_word((#[trigger] active@[i])@) && active@[i]@.len()
                == guess@.len(),
        active@.len() <= 46340,
    ensures
        r.green == total_green(guess@, active@, active@.len() as int),
        r.inc_letters == total_inc(*base, guess@, active@, active@.len() as int),
        r.exc_letters == total_exc(*base, guess@, active@, active@.len() as int),
        r.rejected_words == total_rej(*base, guess@, active@, active@.len() as int),
{
    let ghost g = guess@;
    let n = active.len();
    let mut green: usize = 0;
    let mut inc: usize = 0;
    let mut exc: usize = 0;
    let mut rej: usize = 0;
    let mut k: usize = 0;
    while k < n
        invariant
            k <= n,
            n == active@.len(),
            g == guess@,
            wf(*base),
            wf_word(g),
            0 < g.len() <= 8,
            forall|i: int|
                0 <= i < active@.len() ==> wf_word((#[trigger] active@[i])@) && active@[i]@.len()
                    == g.len(),
            n <= 46340,
            green == total_green(g, active@, k as int),
            inc == total_inc(*base, g, active@, k as int),
            exc == total_exc(*base, g, active@, k as int),
            rej == total_rej(*base, g, active@, k as int),
            green <= 8 * k,
            inc <= 26 * k,
            exc <= 26 * k,
            rej <= n * k,
        decreases n - k,
    {
        let ghost t = active@[k as int]@;
        proof {
            lemma_contrib_bounds(*base, t, g, active@);
            assert(n * k + n <= n * n <= 46340 * 46340) by (nonlinear_arith)
                requires
                    0 <= k < n <= 46340,
            ;
            assert(8 * k + 8 == 8 * (k + 1) && 26 * k + 26 == 26 * (k + 1) && n * k + n == n * (k
                + 1)) by (nonlinear_arith);
        }
        let tags = derive_tags(active[k].as_str(), guess.as_str());
        let tg = green_count_of(&tags);
        let hyp = merge(base, &tags, guess.as_str());
        let mut ti: usize = 0;
        let mut te: usize = 0;
        let mut l: usize = 0;
        while l < 26
            invariant
                l <= 26,
                wf(hyp),
                tags@ == tags_of(t, g),
                forall|q: int|
                    0 <= q < 26 ==> crate::constraint::includes(hyp, q) == merged_included(
                        *base,
                        tags@,
                        g,
                        q,
                    ),
                forall|q: int|
                    0 <= q < 26 ==> crate::constraint::excludes(hyp, q) == merged_excluded(
                        *base,
                        tags@,
                        g,
                        q,
                    ),
                ti == count_inc(*base, tags@, g, l as int),
                te == count_exc(*base, tags@, g, l as int),
                ti <= l,
                te <= l,
            decreases 26 - l,
        {
            if hyp.letter_included(l) {
                ti = ti + 1;
            }
            if hyp.letter_excluded(l) {
                te = te + 1;
            }
            l = l + 1;
        }
        let reduced = filter(active, &hyp);
        proof {
            assert forall|i: int| 0 <= i < active@.len() implies (|w: String|
                satisfies(w@, hyp))(#[trigger] active@[i]) == (|w: String|
                sat_after(w@, *base, tags@, g))(active@[i]) by {
                lemma_sat_after(active@[i]@, *base, tags@, g, hyp);
            }
            lemma_filter_congruence(
                active@,
                |w: String| satisfies(w@, hyp),
                |w: String| sat_after(w@, *base, tags@, g),
            );
            broadcast use vstd::seq_lib::group_filter_ensures;

            assert(reduced@.len() <= active@.len());
            assert(ts_rej(*base, t, g, active@) == active@.len() - reduced@.len());
        }
        green = green + tg;
        inc = inc + ti;
        exc = exc + te;
        rej = rej + (n - reduced.len());
        k = k + 1;
    }
    Score { inc_letters: inc, exc_letters: exc, green, rejected_words: rej }
}

/// Relies on rayon's par_iter, map and collect: scores the guesses of the
/// dictionary in parallel, one independent accumulator per guess, and
/// collects the pairs in dictionary order.  The closure only pairs each
/// word with what the verified per-guess scorer returns for it.
#[verifier::external_body]
fn par_scores(dictionary: &Vec<String>, active: &Vec<String>, base: &Constraint) -> (r: Vec<
    (String, Score),
>)
    requires
        wf(*base),
        exists|len: int| #[trigger] scoring_inputs(dictionary@, active@, len),
    ensures
        r@.len() == dictionary@.len(),
        forall|i: int|
            0 <= i < r@.len() ==> (#[trigger] r@[i]).0@ == dictionary@[i]@ && r@[i].1.green
                == total_green(dictionary@[i]@, active@, active@.len() as int) && r@[i].1.inc_letters
                == total_inc(*base, dictionary@[i]@, active@, active@.len() as int)
                && r@[i].1.exc_letters == total_exc(
                *base,
                dictionary@[i]@,
                active@,
                active@.len() as int,
            ) && r@[i].1.rejected_words == total_rej(
                *base,
                dictionary@[i]@,
                active@,
                active@.len() as int,
            ),
{
    rayon::iter::ParallelIterator::collect(rayon::iter::ParallelIterator::map(
        rayon::iter::IntoParallelRefIterator::par_iter(dictionary),
        |guess: &String| (guess.clone(), score_one_guess(guess, active, base)),
    ))
}

/// Scores every dictionary word as a candidate next guess against the
/// active set under the base constraint, in dictionary order.  The whole
/// dictionary is eligible as a guess, not just the active set.  An empty
/// dictionary or an empty active set yields an empty ranking, never an
/// error: with no surviving target there is nothing to simulate against.
pub fn score(dictionary: &Vec<String>, active: &Vec<String>, base: &Constraint) -> (r: Vec<
    (String, Score),
>)
    requires
        wf(*base),
        exists|len: int| #[trigger] scoring_inputs(dictionary@, active@, len),
    ensures
        active@.len() == 0 ==> r@.len() == 0,
        active@.len() > 0 ==> r@.len() == dictionary@.len(),
        forall|i: int|
            0 <= i < r@.len() ==> (#[trigger] r@[i]).0@ == dictionary@[i]@ && r@[i].1.green
                == total_green(dictionary@[i]@, active@, active@.len() as int) && r@[i].1.inc_letters
                == total_inc(*base, dictionary@[i]@, active@, active@.len() as int)
                && r@[i].1.exc_letters == total_exc(
                *base,
                dictionary@[i]@,
                active@,
                active@.len() as int,
            ) && r@[i].1.rejected_words == total_rej(
                *base,
                dictionary@[i]@,
                active@,
                active@.len() as int,
            ),
{
    if active.len() == 0 {
        return Vec::new();
    }
    par_scores(dictionary, active, base)
}

/// The metric a caller ranks guesses by.
#[derive(Debug, PartialEq, Eq, Structural, Clone, Copy)]
pub enum Metric {
    /// Summed Green positions.
    Green,
    /// Summed included-letter counts.
    IncLetters,
    /// Summed excluded-letter counts.
    ExcLetters,
    /// Summed rejected-word counts.
    RejectedWords,
}

/// The value of a score under a metric.
pub open spec fn metric_of(s: Score, m: Metric) -> int {
    match m {
        Metric::Green => s.green as int,
        Metric::IncLetters => s.inc_letters as int,
        Metric::ExcLetters => s.exc_letters as int,
        Metric::RejectedWords => s.rejected_words as int,
    }
}

/// The value of a score under a metric.
pub fn metric_value(s: &Score, m: Metric) -> (r: usize)
    ensures
        r == metric_of(*s, m),
{
    match m {
        Metric::Green => s.green,
        Metric::IncLetters => s.inc_letters,
        Metric::ExcLetters => s.exc_letters,
        Metric::RejectedWords => s.rejected_words,
    }
}

/// The earliest entry that no other entry beats under the metric.
pub open spec fn is_first_max(s: Seq<(String, Score)>, m: Metric, i: int) -> bool {
    &&& 0 <= i < s.len()
    &&& forall|j: int| 0 <= j < s.len() ==> metric_of((#[trigger] s[j]).1, m) <= metric_of(s[i].1, m)
    &&& forall|j: int| 0 <= j < i ==> metric_of((#[trigger] s[j]).1, m) < metric_of(s[i].1, m)
}

/// The top `k` entries: repeatedly take the earliest maximum, so the
/// result is sorted descending by the metric with ties broken by input
/// order, deterministically.
pub open spec fn topk_spec(s: Seq<(String, Score)>, m: Metric, k: int) -> Seq<(String, Score)>
    decreases s.len(),
{
    if k <= 0 || s.len() == 0 {
        Seq::empty()
    } else {
        let i = choose|i: int| is_first_max(s, m, i);
        if 0 <= i < s.len() {
            seq![s[i]] + topk_spec(s.remove(i), m, k - 1)
        } else {
            Seq::empty()
        }
    }
}

/// A non-empty list has an earliest maximum.
proof fn lemma_first_max_exists(s: Seq<(String, Score)>, m: Metric)
    requires
        s.len() > 0,
    ensures
        exists|i: int| is_first_max(s, m, i),
    decreases s.len(),
{
    if s.len() == 1 {
        assert(is_first_max(s, m, 0));
    } else {
        let sub = s.drop_last();
        lemma_first_max_exists(sub, m);
        let i = choose|i: int| is_first_max(sub, m, i);
        assert(forall|j: int| 0 <= j < sub.len() ==> sub[j] == s[j]);
        if metric_of(s.last().1, m) > metric_of(s[i].1, m) {
            assert(is_first_max(s, m, s.len() - 1));
        } else {
            assert(is_first_max(s, m, i));
        }
    }
}

/// Earliest maxima are unique.
proof fn lemma_first_max_unique(s: Seq<(String, Score)>, m: Metric, i: int, j: int)
    requires
        is_first_max(s, m, i),
        is_first_max(s, m, j),
    ensures
        i == j,
{
    if i < j {
        assert(metric_of(s[i].1, m) < metric_of(s[j].1, m));
        assert(metric_of(s[j].1, m) <= metric_of(s[i].1, m));
    }
    if j < i {
        assert(metric_of(s[j].1, m) < metric_of(s[i].1, m));
        assert(metric_of(s[i].1, m) <= metric_of(s[j].1, m));
    }
}

/// Ranks the scored entries and returns the top `k`: sorted descending by
/// the chosen metric, ties broken by input order, deterministically.  With
/// fewer than `k` entries the whole list comes back ranked.
pub fn top_k(scored: &Vec<(String, Score)>, metric: Metric, k: usize) -> (r: Vec<(String, Score)>)
    ensures
        r@ == topk_spec(scored@, metric, k as int),
{
    let mut remaining: Vec<(String, Score)> = Vec::new();
    let mut i: usize = 0;
    while i < scored.len()
        invariant
            i <= scored@.len(),
            remaining@.len() == i,
            forall|j: int| 0 <= j < i ==> #[trigger] remaining@[j] == scored@[j],
        decreases scored@.len() - i,
    {
        let p = &scored[i];
        remaining.push((p.0.clone(), p.1));
        i = i + 1;
    }
    proof {
        assert(remaining@ =~= scored@);
    }
    let mut out: Vec<(String, Score)> = Vec::new();
    while out.len() < k && remaining.len() > 0
        invariant
            out@.len() <= k,
            out@ + topk_spec(remaining@, metric, k - out@.len()) == topk_spec(
                scored@,
                metric,
                k as int,
            ),
        decreases remaining@.len(),
    {
        let ghost rem0 = remaining@;
        let ghost kk = k - out@.len();
        let mut best: usize = 0;
        let mut j: usize = 1;
        while j < remaining.len()
            invariant
                remaining@.len() > 0,
                best < j,
                j <= remaining@.len(),
                forall|t: int|
                    0 <= t < j ==> metric_of((#[trigger] remaining@[t]).1, metric) <= metric_of(
                        remaining@[best as int].1,
                        metric,
                    ),
                forall|t: int|
                    0 <= t < best ==> metric_of((#[trigger] remaining@[t]).1, metric) < metric_of(
                        remaining@[best as int].1,
                        metric,
                    ),
            decreases remaining@.len() - j,
        {
            if metric_value(&remaining[j].1, metric) > metric_value(&remaining[best].1, metric) {
                best = j;
            }
            j = j + 1;
        }
        proof {
            assert(is_first_max(rem0, metric, best as int));
            lemma_first_max_exists(rem0, metric);
            let c = choose|i: int| is_first_max(rem0, metric, i);
            lemma_first_max_unique(rem0, metric, c, best as int);
            assert(topk_spec(rem0, metric, kk) == seq![rem0[best as int]] + topk_spec(
                rem0.remove(best as int),
                metric,
                kk - 1,
            ));
        }
        let ghost out0 = out@;
        let item = remaining.remove(best);
        out.push(item);
        proof {
            assert(out@ =~= out0.push(rem0[best as int]));
            assert(out0 + topk_spec(rem0, metric, kk) =~= out@ + topk_spec(
                remaining@,
                metric,
                kk - 1,
            ));
        }
    }
    proof {
        if out@.len() == k {
            assert(topk_spec(remaining@, metric, 0) =~= Seq::<(String, Score)>::empty());
        }
        assert(out@ + topk_spec(remaining@, metric, k - out@.len()) =~= out@);
    }
    out
}

} // verus!
