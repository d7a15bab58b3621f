//! Cumulative constraints and the scalar candidate filter.
//!
//! A constraint is the four-part summary of all feedback received so far:
//! letters confirmed present somewhere, letters confirmed absent everywhere,
//! positions fixed to a letter, and (position, letter) pairs the word must
//! avoid.  Merging keeps the invariant that no letter is both included and
//! excluded: a letter that is ever Green or Yellow anywhere stays out of the
//! excluded set even if it was Black elsewhere, because duplicate letters in
//! a guess can produce both outcomes for one letter and inclusion wins.
//!
//! Constraints are never mutated in place: merging and combining return new
//! values, so simulated branches can share a base constraint by reference.

use vstd::prelude::*;

use crate::is_letter;
use crate::is_letter_exec;
use crate::letter_at;
use crate::letter_index;
use crate::tags::LetterTag;
use crate::wf_word;

verus! {

/// A cumulative constraint over words of up to eight letters — the width
/// of the byte-lane word representation, which fixes the longest word a
/// session can use.
///
/// `included` and `excluded` are letter sets indexed by alphabet index;
/// `fixed` maps each position to its confirmed letter, if any; `avoided`
/// is a set of (position, letter) pairs, stored row-major with 26 letters
/// per position.
pub struct Constraint {
    included: Vec<bool>,
    excluded: Vec<bool>,
    fixed: Vec<Option<char>>,
    avoided: Vec<bool>,
}

/// Well-formedness: the field widths, valid fixed letters, and the
/// invariant that no letter is both included and excluded.
pub closed spec fn wf(c: Constraint) -> bool {
    &&& c.included@.len() == 26
    &&& c.excluded@.len() == 26
    &&& c.fixed@.len() == 8
    &&& c.avoided@.len() == 208
    &&& forall|l: int| 0 <= l < 26 ==> !(c.included@[l] && #[trigger] c.excluded@[l])
    &&& forall|p: int| 0 <= p < 8 ==> (#[trigger] c.fixed@[p] matches Some(ch) ==> is_letter(ch))
}

/// Whether the constraint confirms letter index `l` as present somewhere.
pub closed spec fn includes(c: Constraint, l: int) -> bool {
    c.included@[l]
}

/// Whether the constraint confirms letter index `l` as absent everywhere.
pub closed spec fn excludes(c: Constraint, l: int) -> bool {
    c.excluded@[l]
}

/// The letter confirmed at position `p`, if any.
pub closed spec fn fixed_at(c: Constraint, p: int) -> Option<char> {
    c.fixed@[p]
}

/// Whether the constraint forbids letter index `l` at position `p`.
pub closed spec fn avoids(c: Constraint, p: int, l: int) -> bool {
    c.avoided@[p * 26 + l]
}

/// A word is consistent with a constraint iff no excluded letter occurs in
/// it, every included letter occurs in it, every fixed position holds its
/// letter, and no avoided (position, letter) pair matches.
pub open spec fn satisfies(w: Seq<char>, c: Constraint) -> bool {
    &&& forall|l: int| 0 <= l < 26 && excludes(c, l) ==> !w.contains(#[trigger] letter_at(l))
    &&& forall|l: int|
        0 <= l < 26 && includes(c, l) ==> w.contains(
            #[trigger] letter_at(l),
        )
    &&& forall|p: int|
        0 <= p < 8 ==> (#[trigger] fixed_at(c, p) matches Some(ch) ==> p < w.len() && w[p] == ch)
    &&& forall|p: int, l: int|
        0 <= p < 8 && 0 <= l < 26 && #[trigger] avoids(c, p, l) ==> !(p < w.len() && w[p]
            == letter_at(l))
}

impl Constraint {
    /// The identity constraint: all fields empty.  Every word satisfies it,
    /// and merging or combining with it changes nothing.
    pub fn new() -> (c: Constraint)
        ensures
            wf(c),
            forall|l: int| 0 <= l < 26 ==> !includes(c, l) && !excludes(c, l),
            forall|p: int| 0 <= p < 8 ==> fixed_at(c, p) is None,
            forall|p: int, l: int| 0 <= p < 8 && 0 <= l < 26 ==> !avoids(c, p, l),
    {
        let included: Vec<bool> = vec_false(26);
        let excluded: Vec<bool> = vec_false(26);
        let avoided: Vec<bool> = vec_false(208);
        let mut fixed: Vec<Option<char>> = Vec::new();
        let mut i: usize = 0;
        while i < 8
            invariant
                i <= 8,
                fixed@.len() == i,
                forall|p: int| 0 <= p < i ==> fixed@[p] is None,
            decreases 8 - i,
        {
            fixed.push(None);
            i = i + 1;
        }
        Constraint { included, excluded, fixed, avoided }
    }
}

/// A well-formed constraint fixes positions to valid letters only.
pub proof fn lemma_wf_fixed_letter(c: Constraint, p: int)
    requires
        wf(c),
        0 <= p < 8,
    ensures
        fixed_at(c, p) matches Some(ch) ==> is_letter(ch),
{
}

impl Constraint {
    /// The letter confirmed at a position, if any.
    pub fn fixed_letter(&self, p: usize) -> (r: Option<char>)
        requires
            wf(*self),
            p < 8,
        ensures
            r == fixed_at(*self, p as int),
    {
        self.fixed[p]
    }

    /// Whether a letter index is confirmed present somewhere.
    pub fn letter_included(&self, l: usize) -> (r: bool)
        requires
            wf(*self),
            l < 26,
        ensures
            r == includes(*self, l as int),
    {
        self.included[l]
    }

    /// Whether a letter index is confirmed absent everywhere.
    pub fn letter_excluded(&self, l: usize) -> (r: bool)
        requires
            wf(*self),
            l < 26,
        ensures
            r == excludes(*self, l as int),
    {
        self.excluded[l]
    }

    /// Whether a (position, letter index) pair is to be avoided.
    pub fn pair_avoided(&self, p: usize, l: usize) -> (r: bool)
        requires
            wf(*self),
            p < 8,
            l < 26,
        ensures
            r == avoids(*self, p as int, l as int),
    {
        proof {
            assert(0 <= p * 26 + l < 208) by (nonlinear_arith)
                requires
                    0 <= p < 8,
                    0 <= l < 26,
            ;
        }
        self.avoided[p * 26 + l]
    }
}

/// Builds a vector of `n` `false` entries.
fn vec_false(n: usize) -> (v: Vec<bool>)
    ensures
        v@.len() == n,
        forall|i: int| 0 <= i < n ==> !v@[i],
{
    let mut v: Vec<bool> = Vec::new();
    let mut i: usize = 0;
    while i < n
        invariant
            i <= n,
            v@.len() == i,
            forall|j: int| 0 <= j < i ==> !v@[j],
        decreases n - i,
    {
        v.push(false);
        i = i + 1;
    }
    v
}

/// Whether one of the first `n` response positions gives letter index `l`
/// a Green or Yellow tag.
pub open spec fn has_nonblack(tags: Seq<LetterTag>, g: Seq<char>, l: int, n: int) -> bool
    decreases n,
{
    n > 0 && (has_nonblack(tags, g, l, n - 1) || (letter_index(g[n - 1]) == l && tags[n - 1]
        != LetterTag::Black))
}

/// Whether one of the first `n` response positions gives letter index `l`
/// a Black tag.
pub open spec fn has_black(tags: Seq<LetterTag>, g: Seq<char>, l: int, n: int) -> bool
    decreases n,
{
    n > 0 && (has_black(tags, g, l, n - 1) || (letter_index(g[n - 1]) == l && tags[n - 1]
        == LetterTag::Black))
}

/// The included set after a merge: a letter is included once it is Green
/// or Yellow anywhere in the response, or was included before.
pub open spec fn merged_included(c: Constraint, tags: Seq<LetterTag>, g: Seq<char>, l: int) -> bool {
    includes(c, l) || has_nonblack(tags, g, l, tags.len() as int)
}

/// The excluded set after a merge: a letter is excluded if it is not
/// included afterwards and was excluded before or is Black somewhere in
/// the response.  Inclusion wins over exclusion.
pub open spec fn merged_excluded(c: Constraint, tags: Seq<LetterTag>, g: Seq<char>, l: int) -> bool {
    !merged_included(c, tags, g, l) && (excludes(c, l) || has_black(tags, g, l, tags.len() as int))
}

/// The fixed map after a merge: a Green position records its guess letter,
/// overwriting any earlier entry (the most recent merge wins); every other
/// position keeps what it had.
pub open spec fn merged_fixed(c: Constraint, tags: Seq<LetterTag>, g: Seq<char>, p: int) -> Option<
    char,
> {
    if 0 <= p < tags.len() && tags[p] == LetterTag::Green {
        Some(g[p])
    } else {
        fixed_at(c, p)
    }
}

/// The avoided set after a merge: a Yellow position adds its (position,
/// letter) pair; everything previously avoided stays.
pub open spec fn merged_avoids(c: Constraint, tags: Seq<LetterTag>, g: Seq<char>, p: int, l: int) -> bool {
    avoids(c, p, l) || (0 <= p < tags.len() && tags[p] == LetterTag::Yellow && letter_index(g[p])
        == l)
}

/// Folds one response into a constraint, returning a new constraint.
///
/// Green adds the letter to `included` and fixes its position; Yellow adds
/// the letter to `included` and the pair to `avoided`; Black adds the
/// letter to `excluded` unless it is included — in that case the letter is
/// also removed from `excluded`, so the disjointness invariant holds.
pub fn merge(base: &Constraint, tags: &Vec<LetterTag>, guess: &str) -> (c: Constraint)
    requires
        wf(*base),
        wf_word(guess@),
        tags@.len() == guess@.len(),
        guess@.len() <= 8,
    ensures
        wf(c),
        forall|l: int| 0 <= l < 26 ==> includes(c, l) == merged_included(*base, tags@, guess@, l),
        forall|l: int| 0 <= l < 26 ==> excludes(c, l) == merged_excluded(*base, tags@, guess@, l),
        forall|p: int| 0 <= p < 8 ==> fixed_at(c, p) == merged_fixed(*base, tags@, guess@, p),
        forall|p: int, l: int|
            0 <= p < 8 && 0 <= l < 26 ==> avoids(c, p, l) == merged_avoids(
                *base,
                tags@,
                guess@,
                p,
                l,
            ),
{
    let ghost ts = tags@;
    let ghost g = guess@;
    let len = guess.unicode_len();
    let mut included = copy_bools(&base.included);
    let mut excluded = copy_bools(&base.excluded);
    let mut fixed = copy_fixed(&base.fixed);
    let mut avoided = copy_bools(&base.avoided);
    let mut i: usize = 0;
    while i < len
        invariant
            i <= len,
            len == g.len(),
            ts == tags@,
            g == guess@,
            tags@.len() == g.len(),
            g.len() <= 8,
            wf_word(g),
            wf(*base),
            included@.len() == 26,
            excluded@.len() == 26,
            fixed@.len() == 8,
            avoided@.len() == 208,
            forall|l: int|
                0 <= l < 26 ==> #[trigger] included@[l] == (includes(*base, l) || has_nonblack(
                    ts,
                    g,
                    l,
                    i as int,
                )),
            forall|l: int|
                0 <= l < 26 ==> #[trigger] excluded@[l] == (!included@[l] && (excludes(*base, l)
                    || has_black(ts, g, l, i as int))),
            forall|p: int|
                0 <= p < 8 ==> #[trigger] fixed@[p] == (if 0 <= p < i && ts[p]
                    == LetterTag::Green {
                    Some(g[p])
                } else {
                    fixed_at(*base, p)
                }),
            forall|p: int, l: int|
                0 <= p < 8 && 0 <= l < 26 ==> #[trigger] avoided@[p * 26 + l] == (avoids(
                    *base,
                    p,
                    l,
                ) || (0 <= p < i && ts[p] == LetterTag::Yellow && letter_index(g[p]) == l)),
        decreases len - i,
    {
        let gc = guess.get_char(i);
        let idx = (gc as u32 - 97) as usize;
        let ghost inc0 = included@;
        let ghost exc0 = excluded@;
        proof {
            assert(is_letter(g[i as int]));
            assert(letter_index(g[i as int]) == idx as int);
            assert forall|l: int| 0 <= l < 26 implies #[trigger] has_nonblack(
                ts,
                g,
                l,
                i as int + 1,
            ) == (has_nonblack(ts, g, l, i as int) || (letter_index(g[i as int]) == l
                && ts[i as int] != LetterTag::Black)) by {}
            assert forall|l: int| 0 <= l < 26 implies #[trigger] has_black(
                ts,
                g,
                l,
                i as int + 1,
            ) == (has_black(ts, g, l, i as int) || (letter_index(g[i as int]) == l && ts[i as int]
                == LetterTag::Black)) by {}
            assert forall|p: int, l: int|
                0 <= p < 8 && 0 <= l < 26 && (p != i as int || l != idx as int) implies #[trigger] (
            p * 26 + l) != i as int * 26 + idx as int by {
                assert(p * 26 + l != i as int * 26 + idx as int) by (nonlinear_arith)
                    requires
                        0 <= p < 8,
                        0 <= l < 26,
                        0 <= i < 8,
                        0 <= idx < 26,
                        p != i as int || l != idx as int,
                ;
            }
        }
        let tag = tags[i];
        match tag {
            LetterTag::Green => {
                included.set(idx, true);
                excluded.set(idx, false);
                fixed.set(i, Some(gc));
                proof {
                    assert(ts[i as int] == LetterTag::Green);
                    assert forall|l: int| 0 <= l < 26 implies excluded@[l] == (!included@[l] && (
                    excludes(*base, l) || has_black(ts, g, l, i as int + 1))) by {
                        assert(exc0[l] == (!inc0[l] && (excludes(*base, l) || has_black(
                            ts,
                            g,
                            l,
                            i as int,
                        ))));
                    }
                }
            },
            LetterTag::Yellow => {
                included.set(idx, true);
                excluded.set(idx, false);
                avoided.set(i * 26 + idx, true);
                proof {
                    assert(ts[i as int] == LetterTag::Yellow);
                    assert forall|l: int| 0 <= l < 26 implies excluded@[l] == (!included@[l] && (
                    excludes(*base, l) || has_black(ts, g, l, i as int + 1))) by {
                        assert(exc0[l] == (!inc0[l] && (excludes(*base, l) || has_black(
                            ts,
                            g,
                            l,
                            i as int,
                        ))));
                    }
                }
            },
            LetterTag::Black => {
                proof {
                    assert(ts[i as int] == LetterTag::Black);
                }
                if !included[idx] {
                    excluded.set(idx, true);
                }
                proof {
                    assert forall|l: int| 0 <= l < 26 implies excluded@[l] == (!included@[l] && (
                    excludes(*base, l) || has_black(ts, g, l, i as int + 1))) by {
                        assert(exc0[l] == (!inc0[l] && (excludes(*base, l) || has_black(
                            ts,
                            g,
                            l,
                            i as int,
                        ))));
                        assert(inc0[l] == (includes(*base, l) || has_nonblack(
                            ts,
                            g,
                            l,
                            i as int,
                        )));
                    }
                    assert forall|l: int| 0 <= l < 26 implies included@[l] == (includes(*base, l)
                        || has_nonblack(ts, g, l, i as int + 1)) by {
                        assert(inc0[l] == (includes(*base, l) || has_nonblack(
                            ts,
                            g,
                            l,
                            i as int,
                        )));
                    }
                }
            },
        }
        i = i + 1;
    }
    Constraint { included, excluded, fixed, avoided }
}

/// Copies a vector of flags.
fn copy_bools(v: &Vec<bool>) -> (r: Vec<bool>)
    ensures
        r@ == v@,
{
    let mut r: Vec<bool> = Vec::new();
    let mut i: usize = 0;
    while i < v.len()
        invariant
            i <= v@.len(),
            r@ == v@.take(i as int),
        decreases v@.len() - i,
    {
        r.push(v[i]);
        proof {
            assert(r@ =~= v@.take(i as int + 1));
        }
        i = i + 1;
    }
    proof {
        assert(r@ =~= v@);
    }
    r
}

/// Copies a fixed-position map.
fn copy_fixed(v: &Vec<Option<char>>) -> (r: Vec<Option<char>>)
    ensures
        r@ == v@,
{
    let mut r: Vec<Option<char>> = Vec::new();
    let mut i: usize = 0;
    while i < v.len()
        invariant
            i <= v@.len(),
            r@ == v@.take(i as int),
        decreases v@.len() - i,
    {
        r.push(v[i]);
        proof {
            assert(r@ =~= v@.take(i as int + 1));
        }
        i = i + 1;
    }
    proof {
        assert(r@ =~= v@);
    }
    r
}

/// Unites two independently built constraints into one.
///
/// The set-valued fields are united, with inclusion again winning over
/// exclusion; conflicting fixed positions take the second constraint's
/// entry (the most recent one wins), so a caller picks the combination
/// order when conflicts are possible.
pub fn combine(a: &Constraint, b: &Constraint) -> (c: Constraint)
    requires
        wf(*a),
        wf(*b),
    ensures
        wf(c),
        forall|l: int| 0 <= l < 26 ==> includes(c, l) == (includes(*a, l) || includes(*b, l)),
        forall|l: int|
            0 <= l < 26 ==> excludes(c, l) == ((excludes(*a, l) || excludes(*b, l)) && !(includes(
                *a,
                l,
            ) || includes(*b, l))),
        forall|p: int|
            0 <= p < 8 ==> fixed_at(c, p) == (if fixed_at(*b, p) is Some {
                fixed_at(*b, p)
            } else {
                fixed_at(*a, p)
            }),
        forall|p: int, l: int|
            0 <= p < 8 && 0 <= l < 26 ==> avoids(c, p, l) == (avoids(*a, p, l) || avoids(
                *b,
                p,
                l,
            )),
{
    let mut included: Vec<bool> = Vec::new();
    let mut excluded: Vec<bool> = Vec::new();
    let mut l: usize = 0;
    while l < 26
        invariant
            l <= 26,
            wf(*a),
            wf(*b),
            included@.len() == l,
            excluded@.len() == l,
            forall|k: int|
                0 <= k < l ==> #[trigger] included@[k] == (includes(*a, k) || includes(*b, k)),
            forall|k: int|
                0 <= k < l ==> #[trigger] excluded@[k] == ((excludes(*a, k) || excludes(*b, k))
                    && !(includes(*a, k) || includes(*b, k))),
        decreases 26 - l,
    {
        let inc = a.included[l] || b.included[l];
        included.push(inc);
        excluded.push((a.excluded[l] || b.excluded[l]) && !inc);
        l = l + 1;
    }
    let mut fixed: Vec<Option<char>> = Vec::new();
    let mut p: usize = 0;
    while p < 8
        invariant
            p <= 8,
            wf(*a),
            wf(*b),
            fixed@.len() == p,
            forall|k: int|
                0 <= k < p ==> #[trigger] fixed@[k] == (if fixed_at(*b, k) is Some {
                    fixed_at(*b, k)
                } else {
                    fixed_at(*a, k)
                }),
        decreases 8 - p,
    {
        match b.fixed[p] {
            Some(ch) => fixed.push(Some(ch)),
            None => fixed.push(a.fixed[p]),
        }
        p = p + 1;
    }
    let mut avoided: Vec<bool> = Vec::new();
    let mut k: usize = 0;
    while k < 208
        invariant
            k <= 208,
            wf(*a),
            wf(*b),
            avoided@.len() == k,
            forall|j: int| 0 <= j < k ==> #[trigger] avoided@[j] == (a.avoided@[j] || b.avoided@[j]),
        decreases 208 - k,
    {
        avoided.push(a.avoided[k] || b.avoided[k]);
        k = k + 1;
    }
    let c = Constraint { included, excluded, fixed, avoided };
    proof {
        assert forall|pp: int, ll: int| 0 <= pp < 8 && 0 <= ll < 26 implies avoids(c, pp, ll)
            == (avoids(*a, pp, ll) || avoids(*b, pp, ll)) by {
            assert(0 <= pp * 26 + ll < 208) by (nonlinear_arith)
                requires
                    0 <= pp < 8,
                    0 <= ll < 26,
            ;
        }
        assert forall|pp: int| 0 <= pp < 8 implies (#[trigger] c.fixed@[pp] matches Some(ch)
            ==> is_letter(ch)) by {
            assert(fixed_at(*a, pp) matches Some(ch) ==> is_letter(ch));
            assert(fixed_at(*b, pp) matches Some(ch) ==> is_letter(ch));
        }
    }
    c
}

/// The identity constraint combines as a no-op: united with any
/// well-formed constraint it returns that constraint's fields unchanged.
pub proof fn lemma_combine_identity(id: Constraint, c: Constraint, out: Constraint)
    requires
        wf(c),
        forall|l: int| 0 <= l < 26 ==> !includes(id, l) && !excludes(id, l),
        forall|p: int, l: int| 0 <= p < 8 && 0 <= l < 26 ==> !avoids(id, p, l),
        forall|l: int| 0 <= l < 26 ==> includes(out, l) == (includes(id, l) || includes(c, l)),
        forall|l: int|
            0 <= l < 26 ==> excludes(out, l) == ((excludes(id, l) || excludes(c, l)) && !(includes(
                id,
                l,
            ) || includes(c, l))),
        forall|p: int, l: int|
            0 <= p < 8 && 0 <= l < 26 ==> avoids(out, p, l) == (avoids(id, p, l) || avoids(
                c,
                p,
                l,
            )),
    ensures
        forall|l: int| 0 <= l < 26 ==> includes(out, l) == includes(c, l),
        forall|l: int| 0 <= l < 26 ==> excludes(out, l) == excludes(c, l),
        forall|p: int, l: int| 0 <= p < 8 && 0 <= l < 26 ==> avoids(out, p, l) == avoids(c, p, l),
{
    assert forall|l: int| 0 <= l < 26 implies excludes(out, l) == excludes(c, l) by {
        assert(!(includes(c, l) && excludes(c, l)));
    }
}

/// Combining is commutative on the set-valued fields: two constraints
/// united in either order include, exclude and avoid the same letters.
/// Only the fixed positions depend on the order, where the most recent
/// entry wins.
pub proof fn lemma_combine_commutative(a: Constraint, b: Constraint, ab: Constraint, ba: Constraint)
    requires
        forall|l: int| 0 <= l < 26 ==> includes(ab, l) == (includes(a, l) || includes(b, l)),
        forall|l: int|
            0 <= l < 26 ==> excludes(ab, l) == ((excludes(a, l) || excludes(b, l)) && !(includes(
                a,
                l,
            ) || includes(b, l))),
        forall|p: int, l: int|
            0 <= p < 8 && 0 <= l < 26 ==> avoids(ab, p, l) == (avoids(a, p, l) || avoids(b, p, l)),
        forall|l: int| 0 <= l < 26 ==> includes(ba, l) == (includes(b, l) || includes(a, l)),
        forall|l: int|
            0 <= l < 26 ==> excludes(ba, l) == ((excludes(b, l) || excludes(a, l)) && !(includes(
                b,
                l,
            ) || includes(a, l))),
        forall|p: int, l: int|
            0 <= p < 8 && 0 <= l < 26 ==> avoids(ba, p, l) == (avoids(b, p, l) || avoids(a, p, l)),
    ensures
        forall|l: int| 0 <= l < 26 ==> includes(ab, l) == includes(ba, l),
        forall|l: int| 0 <= l < 26 ==> excludes(ab, l) == excludes(ba, l),
        forall|p: int, l: int| 0 <= p < 8 && 0 <= l < 26 ==> avoids(ab, p, l) == avoids(ba, p, l),
{
}

/// Combining is associative on the set-valued fields: for well-formed
/// constraints, either grouping includes the letters any part includes,
/// excludes the letters some part excludes and no part includes, and
/// avoids the pairs any part avoids.
pub proof fn lemma_combine_associative(
    a: Constraint,
    b: Constraint,
    c: Constraint,
    ab: Constraint,
    bc: Constraint,
)
    requires
        wf(a),
        wf(b),
        wf(c),
        forall|l: int| 0 <= l < 26 ==> includes(ab, l) == (includes(a, l) || includes(b, l)),
        forall|l: int|
            0 <= l < 26 ==> excludes(ab, l) == ((excludes(a, l) || excludes(b, l)) && !(includes(
                a,
                l,
            ) || includes(b, l))),
        forall|p: int, l: int|
            0 <= p < 8 && 0 <= l < 26 ==> avoids(ab, p, l) == (avoids(a, p, l) || avoids(b, p, l)),
        forall|l: int| 0 <= l < 26 ==> includes(bc, l) == (includes(b, l) || includes(c, l)),
        forall|l: int|
            0 <= l < 26 ==> excludes(bc, l) == ((excludes(b, l) || excludes(c, l)) && !(includes(
                b,
                l,
            ) || includes(c, l))),
        forall|p: int, l: int|
            0 <= p < 8 && 0 <= l < 26 ==> avoids(bc, p, l) == (avoids(b, p, l) || avoids(c, p, l)),
    ensures
        forall|l: int|
            0 <= l < 26 ==> (includes(ab, l) || includes(c, l)) == (includes(a, l) || includes(
                bc,
                l,
            )),
        forall|l: int|
            0 <= l < 26 ==> ((excludes(ab, l) || excludes(c, l)) && !(includes(ab, l) || includes(
                c,
                l,
            ))) == ((excludes(a, l) || excludes(bc, l)) && !(includes(a, l) || includes(bc, l))),
        forall|p: int, l: int|
            0 <= p < 8 && 0 <= l < 26 ==> (avoids(ab, p, l) || avoids(c, p, l)) == (avoids(
                a,
                p,
                l,
            ) || avoids(bc, p, l)),
{
    assert forall|l: int|
        0 <= l < 26 implies ((excludes(ab, l) || excludes(c, l)) && !(includes(ab, l) || includes(
        c,
        l,
    ))) == ((excludes(a, l) || excludes(bc, l)) && !(includes(a, l) || includes(bc, l))) by {
        assert(!(excludes(a, l) && includes(a, l)));
        assert(!(excludes(b, l) && includes(b, l)));
        assert(!(excludes(c, l) && includes(c, l)));
    }
}

/// Translates a feedback string over {g, y, b} into letter tags, position
/// by position.  Any character other than `g` or `y` reads as Black.
pub open spec fn tag_of_char(c: char) -> LetterTag {
    if c == 'g' {
        LetterTag::Green
    } else if c == 'y' {
        LetterTag::Yellow
    } else {
        LetterTag::Black
    }
}

/// Reads a feedback string (one of `g`, `y`, `b` per position) into tags.
pub fn reply_to_tags(reply: &str) -> (r: Vec<LetterTag>)
    ensures
        r@.len() == reply@.len(),
        forall|i: int| 0 <= i < reply@.len() ==> r@[i] == tag_of_char(reply@[i]),
{
    let len = reply.unicode_len();
    let mut r: Vec<LetterTag> = Vec::new();
    let mut i: usize = 0;
    while i < len
        invariant
            i <= len,
            len == reply@.len(),
            r@.len() == i,
            forall|j: int| 0 <= j < i ==> r@[j] == tag_of_char(reply@[j]),
        decreases len - i,
    {
        let c = reply.get_char(i);
        if c == 'g' {
            r.push(LetterTag::Green);
        } else if c == 'y' {
            r.push(LetterTag::Yellow);
        } else {
            r.push(LetterTag::Black);
        }
        i = i + 1;
    }
    r
}

/// Decides whether a word contains a character.
pub fn word_contains(word: &str, c: char) -> (r: bool)
    ensures
        r == word@.contains(c),
{
    let len = word.unicode_len();
    let mut i: usize = 0;
    while i < len
        invariant
            i <= len,
            len == word@.len(),
            forall|j: int| 0 <= j < i ==> word@[j] != c,
        decreases len - i,
    {
        if word.get_char(i) == c {
            return true;
        }
        i = i + 1;
    }
    proof {
        assert(!word@.contains(c));
    }
    false
}

/// Checks the two letter-set conjuncts of `satisfies`.
fn check_letters(word: &str, c: &Constraint) -> (r: bool)
    requires
        wf(*c),
    ensures
        r == ((forall|l: int|
            0 <= l < 26 && excludes(*c, l) ==> !word@.contains(#[trigger] letter_at(l))) && (
        forall|l: int|
            0 <= l < 26 && includes(*c, l) ==> word@.contains(#[trigger] letter_at(l)))),
{
    let mut l: usize = 0;
    while l < 26
        invariant
            l <= 26,
            wf(*c),
            forall|k: int|
                0 <= k < l && excludes(*c, k) ==> !word@.contains(#[trigger] letter_at(k)),
            forall|k: int| 0 <= k < l && includes(*c, k) ==> word@.contains(#[trigger] letter_at(k)),
        decreases 26 - l,
    {
        let ch = ((97 + l) as u8) as char;
        proof {
            assert(ch == letter_at(l as int));
        }
        let present = word_contains(word, ch);
        if c.excluded[l] && present {
            return false;
        }
        if c.included[l] && !present {
            return false;
        }
        l = l + 1;
    }
    true
}

/// Checks the fixed-position conjunct of `satisfies`.
fn check_fixed(word: &str, c: &Constraint) -> (r: bool)
    requires
        wf(*c),
    ensures
        r == (forall|p: int|
            0 <= p < 8 ==> (#[trigger] fixed_at(*c, p) matches Some(ch) ==> p < word@.len()
                && word@[p] == ch)),
{
    let len = word.unicode_len();
    let mut p: usize = 0;
    while p < 8
        invariant
            p <= 8,
            wf(*c),
            len == word@.len(),
            forall|k: int|
                0 <= k < p ==> (#[trigger] fixed_at(*c, k) matches Some(ch) ==> k < word@.len()
                    && word@[k] == ch),
        decreases 8 - p,
    {
        match c.fixed[p] {
            Some(ch) => {
                if p >= len {
                    proof {
                        assert(fixed_at(*c, p as int) == Some(ch));
                        assert(!(fixed_at(*c, p as int) matches Some(x) ==> p < word@.len()
                            && word@[p as int] == x));
                    }
                    return false;
                }
                if word.get_char(p) != ch {
                    proof {
                        assert(fixed_at(*c, p as int) == Some(ch));
                        assert(!(fixed_at(*c, p as int) matches Some(x) ==> p < word@.len()
                            && word@[p as int] == x));
                    }
                    return false;
                }
            },
            None => {},
        }
        p = p + 1;
    }
    true
}

/// Checks the avoided-pair conjunct of `satisfies`.
fn check_avoided(word: &str, c: &Constraint) -> (r: bool)
    requires
        wf(*c),
    ensures
        r == (forall|p: int, l: int|
            0 <= p < 8 && 0 <= l < 26 && #[trigger] avoids(*c, p, l) ==> !(p < word@.len()
                && word@[p] == letter_at(l))),
{
    let len = word.unicode_len();
    let mut p: usize = 0;
    while p < 8
        invariant
            p <= 8,
            wf(*c),
            len == word@.len(),
            forall|k: int, l: int|
                0 <= k < p && 0 <= l < 26 && #[trigger] avoids(*c, k, l) ==> !(k < word@.len()
                    && word@[k] == letter_at(l)),
        decreases 8 - p,
    {
        if p < len {
            let wc = word.get_char(p);
            if is_letter_exec(wc) {
                let idx = (wc as u32 - 97) as usize;
                proof {
                    assert(letter_index(word@[p as int]) == idx as int);
                    assert(letter_at(idx as int) == word@[p as int]);
                    assert(0 <= p * 26 + idx < 208) by (nonlinear_arith)
                        requires
                            0 <= p < 8,
                            0 <= idx < 26,
                    ;
                }
                if c.avoided[p * 26 + idx] {
                    proof {
                        assert(avoids(*c, p as int, idx as int));
                        assert((p as int) < word@.len() && word@[p as int] == letter_at(
                            idx as int,
                        ));
                    }
                    return false;
                }
                proof {
                    assert forall|l: int|
                        0 <= l < 26 && #[trigger] avoids(*c, p as int, l) implies !(p
                        < word@.len() && word@[p as int] == letter_at(l)) by {
                        if word@[p as int] == letter_at(l) {
                            assert(letter_index(letter_at(l)) == l);
                            assert(l == idx as int);
                        }
                    }
                }
            } else {
                proof {
                    assert forall|l: int|
                        0 <= l < 26 && #[trigger] avoids(*c, p as int, l) implies !(p
                        < word@.len() && word@[p as int] == letter_at(l)) by {
                        assert(is_letter(letter_at(l)));
                    }
                }
            }
        } else {
            proof {
                assert forall|l: int|
                    0 <= l < 26 && #[trigger] avoids(*c, p as int, l) implies !(p < word@.len()
                    && word@[p as int] == letter_at(l)) by {}
            }
        }
        p = p + 1;
    }
    true
}

/// Decides whether a word is consistent with a constraint.
pub fn satisfies_exec(word: &str, c: &Constraint) -> (r: bool)
    requires
        wf(*c),
    ensures
        r == satisfies(word@, *c),
{
    let a = check_letters(word, c);
    let b = check_fixed(word, c);
    let d = check_avoided(word, c);
    a && b && d
}

/// One step of a filtering loop: extending the prefix by one element either
/// appends it to the filtered prefix or leaves the filtered prefix as it was.
pub proof fn lemma_filter_take_step<A>(s: Seq<A>, pred: spec_fn(A) -> bool, i: int)
    requires
        0 <= i < s.len(),
    ensures
        s.take(i + 1).filter(pred) == if pred(s[i]) {
            s.take(i).filter(pred).push(s[i])
        } else {
            s.take(i).filter(pred)
        },
{
    reveal(Seq::filter);
    assert(s.take(i + 1).drop_last() =~= s.take(i));
    assert(s.take(i + 1).last() == s[i]);
}

/// Applies a constraint to a word list, returning the consistent subset in
/// the original order.  Pure: the input list is not changed.
pub fn filter(words: &Vec<String>, c: &Constraint) -> (r: Vec<String>)
    requires
        wf(*c),
    ensures
        r@ == words@.filter(|w: String| satisfies(w@, *c)),
{
    let ghost pred = |w: String| satisfies(w@, *c);
    let mut r: Vec<String> = Vec::new();
    let mut i: usize = 0;
    while i < words.len()
        invariant
            i <= words@.len(),
            wf(*c),
            pred == (|w: String| satisfies(w@, *c)),
            r@ == words@.take(i as int).filter(pred),
        decreases words@.len() - i,
    {
        proof {
            lemma_filter_take_step(words@, pred, i as int);
        }
        if satisfies_exec(words[i].as_str(), c) {
            r.push(words[i].clone());
        }
        i = i + 1;
    }
    proof {
        assert(words@.take(words@.len() as int) =~= words@);
    }
    r
}

/// Every element of a filtered sequence satisfies the predicate.
proof fn lemma_filter_all<A>(s: Seq<A>, pred: spec_fn(A) -> bool)
    requires
        forall|i: int| 0 <= i < s.len() ==> pred(#[trigger] s[i]),
    ensures
        s.filter(pred) == s,
    decreases s.len(),
{
    reveal(Seq::filter);
    if s.len() > 0 {
        lemma_filter_all(s.drop_last(), pred);
        assert(s.filter(pred) =~= s);
    } else {
        assert(s.filter(pred) =~= s);
    }
}

/// Filtering is idempotent: applying the same constraint twice returns the
/// same list as applying it once, for every word list and constraint.
pub proof fn lemma_filter_idempotent(words: Seq<String>, c: Constraint)
    ensures
        words.filter(|w: String| satisfies(w@, c)).filter(|w: String| satisfies(w@, c))
            == words.filter(|w: String| satisfies(w@, c)),
{
    let pred = |w: String| satisfies(w@, c);
    let once = words.filter(pred);
    broadcast use vstd::seq_lib::group_filter_ensures;

    assert(forall|i: int| 0 <= i < once.len() ==> pred(#[trigger] once[i]));
    lemma_filter_all(once, pred);
}

} // verus!
