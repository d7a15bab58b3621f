//! The lane-vectorized candidate filter, and its equivalence to the scalar
//! one.
//!
//! A cumulative constraint is translated into lane filter vectors: the
//! fixed positions become one exact-position vector, each included letter a
//! splatted membership vector, each excluded letter a splatted negative
//! vector, and each avoided (position, letter) pair a negative vector that
//! holds the letter in that one lane and the wildcard elsewhere.  `lemma_lane_scalar_agree` proves
//! that a word passes those vectors exactly when it satisfies the
//! constraint, so the batched filter returns the very same ordered result
//! as the scalar one.

use vstd::prelude::*;

use crate::constraint::Constraint;
use crate::constraint::avoids;
use crate::constraint::excludes;
use crate::constraint::fixed_at;
use crate::constraint::includes;
use crate::constraint::satisfies;
use crate::constraint::wf;
use crate::is_letter;
use crate::lanes::LANE_ANY;
use crate::lanes::LANE_NONE;
use crate::lanes::SimdWordle;
use crate::lanes::WordleFilter;
use crate::lanes::all_vecs;
use crate::lanes::any_vecs;
use crate::lanes::lane_passes;
use crate::lanes::match_all;
use crate::lanes::match_any;
use crate::lanes::neg_vecs;
use crate::lanes::pad_spec;
use crate::lanes::splat;
use crate::lanes::wf_filter;
use crate::letter_at;
use crate::wf_word;

verus! {

/// The one exact-position vector of a constraint: each fixed letter in its
/// lane, the wildcard elsewhere.
pub open spec fn fixed_vec_spec(c: Constraint) -> Seq<u8> {
    Seq::new(
        8,
        |i: int|
            match fixed_at(c, i) {
                Some(ch) => ch as u8,
                None => LANE_ANY,
            },
    )
}

/// The membership vectors of a constraint: one splatted vector per
/// included letter, in alphabet order over the first `n` letters.
pub open spec fn incl_splats(c: Constraint, n: int) -> Seq<Seq<u8>>
    decreases n,
{
    if n <= 0 {
        Seq::empty()
    } else {
        incl_splats(c, n - 1) + if includes(c, n - 1) {
            seq![splat((letter_at(n - 1)) as u8)]
        } else {
            Seq::empty()
        }
    }
}

/// The negative vectors of a constraint's excluded letters: one splatted
/// vector per excluded letter, in alphabet order over the first `n`.
pub open spec fn excl_splats(c: Constraint, n: int) -> Seq<Seq<u8>>
    decreases n,
{
    if n <= 0 {
        Seq::empty()
    } else {
        excl_splats(c, n - 1) + if excludes(c, n - 1) {
            seq![splat((letter_at(n - 1)) as u8)]
        } else {
            Seq::empty()
        }
    }
}

/// The negative vector of one avoided (position, letter) pair: the letter
/// in that one lane, the wildcard elsewhere, which no word lane equals.
pub open spec fn avoid_vec(p: int, l: int) -> Seq<u8> {
    Seq::new(8, |j: int| if j == p { (letter_at(l)) as u8 } else { LANE_ANY })
}

/// The negative vectors of a constraint's avoided pairs, row-major over
/// the first `n` of the 208 (position, letter) slots.
pub open spec fn avoid_vecs(c: Constraint, n: int) -> Seq<Seq<u8>>
    decreases n,
{
    if n <= 0 {
        Seq::empty()
    } else {
        avoid_vecs(c, n - 1) + if avoids(c, (n - 1) / 26, (n - 1) % 26) {
            seq![avoid_vec((n - 1) / 26, (n - 1) % 26)]
        } else {
            Seq::empty()
        }
    }
}

/// Equal lowercase letter bytes come from equal letters.
proof fn lemma_letter_byte_eq(c1: char, c2: char)
    requires
        is_letter(c1),
        is_letter(c2),
    ensures
        (c1 as u8 == c2 as u8) == (c1 == c2),
{
}

/// A splatted letter matches a padded word somewhere iff the word contains
/// the letter.
proof fn lemma_splat_match(ch: char, w: Seq<char>)
    requires
        is_letter(ch),
        wf_word(w),
        w.len() <= 8,
    ensures
        match_any(splat(ch as u8), pad_spec(w)) == w.contains(ch),
{
    let d = pad_spec(w);
    if match_any(splat(ch as u8), d) {
        let i = choose|i: int| 0 <= i < 8 && #[trigger] splat(ch as u8)[i] == d[i];
        assert(i < w.len()) by {
            if i >= w.len() {
                assert(d[i] == LANE_NONE);
            }
        }
        assert(is_letter(w[i]));
        assert(ch as u8 == w[i] as u8);
        assert(ch == w[i]);
        assert(w.contains(ch));
    }
    if w.contains(ch) {
        let i = choose|i: int| 0 <= i < w.len() && w[i] == ch;
        assert(splat(ch as u8)[i] == d[i]);
        assert(match_any(splat(ch as u8), d));
    }
}

/// An avoided-pair vector matches a padded word somewhere iff the word
/// holds that very letter at that very position.
proof fn lemma_avoid_match(p: int, l: int, w: Seq<char>)
    requires
        0 <= p < 8,
        0 <= l < 26,
        wf_word(w),
        w.len() <= 8,
    ensures
        match_any(avoid_vec(p, l), pad_spec(w)) == (p < w.len() && w[p] == letter_at(l)),
{
    let d = pad_spec(w);
    let v = avoid_vec(p, l);
    assert(is_letter(letter_at(l)));
    if match_any(v, d) {
        let i = choose|i: int| 0 <= i < 8 && #[trigger] v[i] == d[i];
        assert(i == p) by {
            if i != p {
                assert(v[i] == LANE_ANY);
                if i < w.len() {
                    assert(is_letter(w[i]));
                } else {
                    assert(d[i] == LANE_NONE);
                }
            }
        }
        assert(p < w.len()) by {
            if p >= w.len() {
                assert(d[p] == LANE_NONE);
            }
        }
        assert(is_letter(w[p]));
        assert((letter_at(l)) as u8 == w[p] as u8);
        lemma_letter_byte_eq(letter_at(l), w[p]);
    }
    if p < w.len() && w[p] == letter_at(l) {
        assert(v[p] == d[p]);
        assert(match_any(v, d));
    }
}

/// The membership vectors are exactly the splats of the included letters.
proof fn lemma_incl_splats(c: Constraint, n: int)
    requires
        0 <= n <= 26,
    ensures
        forall|k: int|
            0 <= k < incl_splats(c, n).len() ==> exists|l: int|
                0 <= l < n && includes(c, l) && #[trigger] incl_splats(c, n)[k] == splat(
                    (letter_at(l)) as u8,
                ),
        forall|l: int|
            0 <= l < n && includes(c, l) ==> incl_splats(c, n).contains(
                splat((#[trigger] letter_at(l)) as u8),
            ),
    decreases n,
{
    if n > 0 {
        lemma_incl_splats(c, n - 1);
        let s = incl_splats(c, n);
        let s0 = incl_splats(c, n - 1);
        assert forall|k: int|
            0 <= k < s.len() implies exists|l: int|
            0 <= l < n && includes(c, l) && #[trigger] s[k] == splat((letter_at(l)) as u8) by {
            if k < s0.len() {
                assert(s[k] == s0[k]);
                let l = choose|l: int|
                    0 <= l < n - 1 && includes(c, l) && #[trigger] s0[k] == splat(
                        (letter_at(l)) as u8,
                    );
                assert(0 <= l < n && includes(c, l) && s[k] == splat((letter_at(l)) as u8));
            } else {
                if !includes(c, n - 1) {
                    assert(s.len() == s0.len());
                }
                assert(includes(c, n - 1));
                assert(s[k] == splat((letter_at(n - 1)) as u8));
            }
        }
        assert forall|l: int|
            0 <= l < n && includes(c, l) implies s.contains(
            splat((#[trigger] letter_at(l)) as u8),
        ) by {
            if l == n - 1 {
                assert(s[s.len() - 1] == splat((letter_at(l)) as u8));
            } else {
                assert(s0.contains(splat((letter_at(l)) as u8)));
                let k = choose|k: int|
                    0 <= k < s0.len() && s0[k] == splat((letter_at(l)) as u8);
                assert(s[k] == splat((letter_at(l)) as u8));
            }
        }
    }
}

/// The excluded-letter negative vectors are exactly the splats of the
/// excluded letters.
proof fn lemma_excl_splats(c: Constraint, n: int)
    requires
        0 <= n <= 26,
    ensures
        forall|k: int|
            0 <= k < excl_splats(c, n).len() ==> exists|l: int|
                0 <= l < n && excludes(c, l) && #[trigger] excl_splats(c, n)[k] == splat(
                    (letter_at(l)) as u8,
                ),
        forall|l: int|
            0 <= l < n && excludes(c, l) ==> excl_splats(c, n).contains(
                splat((#[trigger] letter_at(l)) as u8),
            ),
    decreases n,
{
    if n > 0 {
        lemma_excl_splats(c, n - 1);
        let s = excl_splats(c, n);
        let s0 = excl_splats(c, n - 1);
        assert forall|k: int|
            0 <= k < s.len() implies exists|l: int|
            0 <= l < n && excludes(c, l) && #[trigger] s[k] == splat((letter_at(l)) as u8) by {
            if k < s0.len() {
                assert(s[k] == s0[k]);
                let l = choose|l: int|
                    0 <= l < n - 1 && excludes(c, l) && #[trigger] s0[k] == splat(
                        (letter_at(l)) as u8,
                    );
                assert(0 <= l < n && excludes(c, l) && s[k] == splat((letter_at(l)) as u8));
            } else {
                if !excludes(c, n - 1) {
                    assert(s.len() == s0.len());
                }
                assert(excludes(c, n - 1));
                assert(s[k] == splat((letter_at(n - 1)) as u8));
            }
        }
        assert forall|l: int|
            0 <= l < n && excludes(c, l) implies s.contains(
            splat((#[trigger] letter_at(l)) as u8),
        ) by {
            if l == n - 1 {
                assert(s[s.len() - 1] == splat((letter_at(l)) as u8));
            } else {
                assert(s0.contains(splat((letter_at(l)) as u8)));
                let k = choose|k: int|
                    0 <= k < s0.len() && s0[k] == splat((letter_at(l)) as u8);
                assert(s[k] == splat((letter_at(l)) as u8));
            }
        }
    }
}

/// The avoided-pair negative vectors are exactly those of the avoided
/// pairs.
#[verifier::rlimit(50)]
#[verifier::spinoff_prover]
proof fn lemma_avoid_vecs(c: Constraint, n: int)
    requires
        0 <= n <= 208,
    ensures
        forall|k: int|
            #![trigger avoid_vecs(c, n)[k]]
            0 <= k < avoid_vecs(c, n).len() ==> exists|p: int, l: int|
                #![trigger avoid_vec(p, l)]
                0 <= p < 8 && 0 <= l < 26 && p * 26 + l < n && avoids(c, p, l) && avoid_vecs(
                    c,
                    n,
                )[k] == avoid_vec(p, l),
        forall|p: int, l: int|
            0 <= p < 8 && 0 <= l < 26 && p * 26 + l < n && #[trigger] avoids(c, p, l)
                ==> avoid_vecs(c, n).contains(avoid_vec(p, l)),
    decreases n,
{
    if n > 0 {
        lemma_avoid_vecs(c, n - 1);
        let s = avoid_vecs(c, n);
        let s0 = avoid_vecs(c, n - 1);
        let pn = (n - 1) / 26;
        let ln = (n - 1) % 26;
        assert(0 <= pn < 8 && 0 <= ln < 26 && pn * 26 + ln == n - 1) by (nonlinear_arith)
            requires
                1 <= n <= 208,
                pn == (n - 1) / 26,
                ln == (n - 1) % 26,
        ;
        assert forall|k: int|
            #![trigger s[k]]
            0 <= k < s.len() implies exists|p: int, l: int|
            #![trigger avoid_vec(p, l)]
            0 <= p < 8 && 0 <= l < 26 && p * 26 + l < n && avoids(c, p, l) && s[k] == avoid_vec(
                p,
                l,
            ) by {
            if k < s0.len() {
                assert(s[k] == s0[k]);
                assert(exists|p: int, l: int|
                    #![trigger avoid_vec(p, l)]
                    0 <= p < 8 && 0 <= l < 26 && p * 26 + l < n - 1 && avoids(c, p, l) && s0[k]
                        == avoid_vec(p, l));
                let (p, l) = choose|p: int, l: int|
                    #![trigger avoid_vec(p, l)]
                    0 <= p < 8 && 0 <= l < 26 && p * 26 + l < n - 1 && avoids(c, p, l) && s0[k]
                        == avoid_vec(p, l);
                assert(0 <= p < 8 && 0 <= l < 26 && p * 26 + l < n && avoids(c, p, l) && s[k]
                    == avoid_vec(p, l));
            } else {
                if !avoids(c, pn, ln) {
                    assert(s.len() == s0.len());
                }
                assert(avoids(c, pn, ln));
                assert(s[k] == avoid_vec(pn, ln));
            }
        }
        assert forall|p: int, l: int|
            0 <= p < 8 && 0 <= l < 26 && p * 26 + l < n && #[trigger] avoids(c, p, l) implies
            s.contains(avoid_vec(p, l)) by {
            if p * 26 + l < n - 1 {
                assert(s0.contains(avoid_vec(p, l)));
                let k = choose|k: int| 0 <= k < s0.len() && s0[k] == avoid_vec(p, l);
                assert(s[k] == avoid_vec(p, l));
            } else {
                assert(p * 26 + l == n - 1);
                assert(p == pn && l == ln) by (nonlinear_arith)
                    requires
                        0 <= p < 8,
                        0 <= l < 26,
                        p * 26 + l == n - 1,
                        pn == (n - 1) / 26,
                        ln == (n - 1) % 26,
                ;
                assert(avoids(c, pn, ln));
                assert(s[s.len() - 1] == avoid_vec(pn, ln));
            }
        }
    }
}

/// Scalar and lane-vectorized filtering agree on every word: a word
/// satisfies a constraint exactly when its lane packing passes the
/// constraint's filter vectors.
pub proof fn lemma_lane_scalar_agree(w: Seq<char>, c: Constraint)
    requires
        wf(c),
        wf_word(w),
        w.len() <= 8,
    ensures
        satisfies(w, c) == lane_passes(
            pad_spec(w),
            seq![fixed_vec_spec(c)],
            incl_splats(c, 26),
            excl_splats(c, 26) + avoid_vecs(c, 208),
        ),
{
    let d = pad_spec(w);
    let alls = seq![fixed_vec_spec(c)];
    let anys = incl_splats(c, 26);
    let negs = excl_splats(c, 26) + avoid_vecs(c, 208);
    lemma_incl_splats(c, 26);
    lemma_excl_splats(c, 26);
    lemma_avoid_vecs(c, 208);

    // The exact-position vector corresponds to the fixed conjunct.
    assert(match_all(fixed_vec_spec(c), d) == (forall|p: int|
        0 <= p < 8 ==> (#[trigger] fixed_at(c, p) matches Some(ch) ==> p < w.len() && w[p]
            == ch))) by {
        let fv = fixed_vec_spec(c);
        if match_all(fv, d) {
            assert forall|p: int|
                0 <= p < 8 implies (#[trigger] fixed_at(c, p) matches Some(ch) ==> p < w.len()
                && w[p] == ch) by {
                if fixed_at(c, p) is Some {
                    let ch = fixed_at(c, p)->Some_0;
                    crate::constraint::lemma_wf_fixed_letter(c, p);
                    assert(is_letter(ch));
                    assert(fv[p] == ch as u8);
                    assert(fv[p] != LANE_ANY);
                    assert(fv[p] == d[p]);
                    assert(p < w.len()) by {
                        if p >= w.len() {
                            assert(d[p] == LANE_NONE);
                        }
                    }
                    assert(is_letter(w[p]));
                    lemma_letter_byte_eq(ch, w[p]);
                }
            }
        }
        if (forall|p: int|
            0 <= p < 8 ==> (#[trigger] fixed_at(c, p) matches Some(ch) ==> p < w.len() && w[p]
                == ch)) {
            assert forall|p: int| 0 <= p < 8 implies (#[trigger] fv[p] == LANE_ANY || fv[p]
                == d[p]) by {
                if fixed_at(c, p) is Some {
                    let ch = fixed_at(c, p)->Some_0;
                    crate::constraint::lemma_wf_fixed_letter(c, p);
                    assert(p < w.len() && w[p] == ch);
                    assert(fv[p] == ch as u8);
                    assert(d[p] == w[p] as u8);
                }
            }
        }
    }

    // The membership vectors correspond to the included conjunct.
    assert((forall|k: int| 0 <= k < anys.len() ==> match_any(#[trigger] anys[k], d)) == (
    forall|l: int|
        0 <= l < 26 && includes(c, l) ==> w.contains(#[trigger] letter_at(l)))) by {
        if (forall|k: int| 0 <= k < anys.len() ==> match_any(#[trigger] anys[k], d)) {
            assert forall|l: int| 0 <= l < 26 && includes(c, l) implies w.contains(
                #[trigger] letter_at(l),
            ) by {
                assert(anys.contains(splat((letter_at(l)) as u8)));
                let k = choose|k: int|
                    0 <= k < anys.len() && anys[k] == splat((letter_at(l)) as u8);
                assert(match_any(anys[k], d));
                assert(is_letter(letter_at(l)));
                lemma_splat_match(letter_at(l), w);
            }
        }
        if (forall|l: int| 0 <= l < 26 && includes(c, l) ==> w.contains(#[trigger] letter_at(l))) {
            assert forall|k: int| 0 <= k < anys.len() implies match_any(#[trigger] anys[k], d) by {
                let l = choose|l: int|
                    0 <= l < 26 && includes(c, l) && anys[k] == splat((letter_at(l)) as u8);
                assert(w.contains(letter_at(l)));
                assert(is_letter(letter_at(l)));
                lemma_splat_match(letter_at(l), w);
            }
        }
    }

    // The negative vectors correspond to the excluded and avoided
    // conjuncts together.
    let exn = excl_splats(c, 26).len() as int;
    assert((forall|k: int| 0 <= k < negs.len() ==> !match_any(#[trigger] negs[k], d)) == ((
    forall|l: int| 0 <= l < 26 && excludes(c, l) ==> !w.contains(#[trigger] letter_at(l))) && (
    forall|p: int, l: int|
        0 <= p < 8 && 0 <= l < 26 && #[trigger] avoids(c, p, l) ==> !(p < w.len() && w[p]
            == letter_at(l))))) by {
        if (forall|k: int| 0 <= k < negs.len() ==> !match_any(#[trigger] negs[k], d)) {
            assert forall|l: int| 0 <= l < 26 && excludes(c, l) implies !w.contains(
                #[trigger] letter_at(l),
            ) by {
                assert(excl_splats(c, 26).contains(splat((letter_at(l)) as u8)));
                let k = choose|k: int|
                    0 <= k < exn && excl_splats(c, 26)[k] == splat((letter_at(l)) as u8);
                assert(negs[k] == splat((letter_at(l)) as u8));
                assert(!match_any(negs[k], d));
                assert(is_letter(letter_at(l)));
                lemma_splat_match(letter_at(l), w);
            }
            assert forall|p: int, l: int|
                0 <= p < 8 && 0 <= l < 26 && #[trigger] avoids(c, p, l) implies !(p < w.len()
                && w[p] == letter_at(l)) by {
                assert(p * 26 + l < 208) by (nonlinear_arith)
                    requires
                        0 <= p < 8,
                        0 <= l < 26,
                ;
                assert(avoid_vecs(c, 208).contains(avoid_vec(p, l)));
                let k = choose|k: int|
                    0 <= k < avoid_vecs(c, 208).len() && avoid_vecs(c, 208)[k] == avoid_vec(p, l);
                assert(negs[exn + k] == avoid_vec(p, l));
                assert(!match_any(negs[exn + k], d));
                lemma_avoid_match(p, l, w);
            }
        }
        if ((forall|l: int| 0 <= l < 26 && excludes(c, l) ==> !w.contains(#[trigger] letter_at(l)))
            && (forall|p: int, l: int|
            0 <= p < 8 && 0 <= l < 26 && #[trigger] avoids(c, p, l) ==> !(p < w.len() && w[p]
                == letter_at(l)))) {
            assert forall|k: int| 0 <= k < negs.len() implies !match_any(#[trigger] negs[k], d) by {
                if k < exn {
                    assert(negs[k] == excl_splats(c, 26)[k]);
                    let l = choose|l: int|
                        0 <= l < 26 && excludes(c, l) && excl_splats(c, 26)[k] == splat(
                            (letter_at(l)) as u8,
                        );
                    assert(!w.contains(letter_at(l)));
                    assert(is_letter(letter_at(l)));
                    lemma_splat_match(letter_at(l), w);
                } else {
                    assert(negs[k] == avoid_vecs(c, 208)[k - exn]);
                    let (p, l) = choose|p: int, l: int|
                        #![trigger avoid_vec(p, l)]
                        0 <= p < 8 && 0 <= l < 26 && p * 26 + l < 208 && avoids(c, p, l)
                            && avoid_vecs(c, 208)[k - exn] == avoid_vec(p, l);
                    assert(!(p < w.len() && w[p] == letter_at(l)));
                    lemma_avoid_match(p, l, w);
                }
            }
        }
    }

    // Stitch the three conjunct equivalences into the full statement.
    assert((forall|k: int| 0 <= k < alls.len() ==> match_all(#[trigger] alls[k], d)) == match_all(
        fixed_vec_spec(c),
        d,
    )) by {
        assert(alls[0] == fixed_vec_spec(c));
        if match_all(fixed_vec_spec(c), d) {
            assert forall|k: int| 0 <= k < alls.len() implies match_all(
                #[trigger] alls[k],
                d,
            ) by {
                assert(alls[k] == fixed_vec_spec(c));
            }
        }
    }
}

/// Builds the lane filter vectors of a constraint.
pub fn filter_of_constraint(c: &Constraint) -> (f: WordleFilter)
    requires
        wf(*c),
    ensures
        wf_filter(f),
        all_vecs(f) == seq![fixed_vec_spec(*c)],
        any_vecs(f) == incl_splats(*c, 26),
        neg_vecs(f) == excl_splats(*c, 26) + avoid_vecs(*c, 208),
{
    let mut f = WordleFilter::new();
    // The fixed positions, as one exact-position vector.
    let mut data: Vec<u8> = Vec::new();
    let mut p: usize = 0;
    while p < 8
        invariant
            p <= 8,
            wf(*c),
            data@.len() == p,
            forall|j: int| 0 <= j < p ==> #[trigger] data@[j] == fixed_vec_spec(*c)[j],
        decreases 8 - p,
    {
        match c.fixed_letter(p) {
            Some(ch) => {
                proof {
                    crate::constraint::lemma_wf_fixed_letter(*c, p as int);
                    assert(is_letter(ch));
                }
                data.push(ch as u8);
            },
            None => data.push(LANE_ANY),
        }
        p = p + 1;
    }
    let fixed_word = SimdWordle::from_lanes(data);
    proof {
        assert(fixed_word@ =~= fixed_vec_spec(*c));
    }
    let f = f.require_all(fixed_word);
    // One splatted membership vector per included letter.
    let mut f = f;
    let mut l: usize = 0;
    while l < 26
        invariant
            l <= 26,
            wf(*c),
            wf_filter(f),
            all_vecs(f) == seq![fixed_vec_spec(*c)],
            any_vecs(f) == incl_splats(*c, l as int),
            neg_vecs(f).len() == 0,
        decreases 26 - l,
    {
        let ghost before = any_vecs(f);
        if c.letter_included(l) {
            let ch = ((97 + l) as u8) as char;
            proof {
                assert(ch == letter_at(l as int));
            }
            f = f.require_any(crate::lanes::splat_word(ch as u8));
            proof {
                assert(any_vecs(f) =~= before.push(splat((letter_at(l as int)) as u8)));
                assert(incl_splats(*c, l as int + 1) =~= before.push(
                    splat((letter_at(l as int)) as u8),
                ));
            }
        } else {
            proof {
                assert(incl_splats(*c, l as int + 1) =~= before);
            }
        }
        l = l + 1;
    }
    // One splatted negative vector per excluded letter.
    let mut l: usize = 0;
    while l < 26
        invariant
            l <= 26,
            wf(*c),
            wf_filter(f),
            all_vecs(f) == seq![fixed_vec_spec(*c)],
            any_vecs(f) == incl_splats(*c, 26),
            neg_vecs(f) == excl_splats(*c, l as int),
        decreases 26 - l,
    {
        let ghost before = neg_vecs(f);
        if c.letter_excluded(l) {
            let ch = ((97 + l) as u8) as char;
            proof {
                assert(ch == letter_at(l as int));
            }
            f = f.exclude(crate::lanes::splat_word(ch as u8));
            proof {
                assert(neg_vecs(f) =~= before.push(splat((letter_at(l as int)) as u8)));
                assert(excl_splats(*c, l as int + 1) =~= before.push(
                    splat((letter_at(l as int)) as u8),
                ));
            }
        } else {
            proof {
                assert(excl_splats(*c, l as int + 1) =~= before);
            }
        }
        l = l + 1;
    }
    // One single-lane negative vector per avoided pair.
    let mut k: usize = 0;
    while k < 208
        invariant
            k <= 208,
            wf(*c),
            wf_filter(f),
            all_vecs(f) == seq![fixed_vec_spec(*c)],
            any_vecs(f) == incl_splats(*c, 26),
            neg_vecs(f) == excl_splats(*c, 26) + avoid_vecs(*c, k as int),
        decreases 208 - k,
    {
        let ghost before = neg_vecs(f);
        let p = k / 26;
        let l = k % 26;
        proof {
            assert(0 <= p < 8 && 0 <= l < 26) by (nonlinear_arith)
                requires
                    0 <= k < 208,
                    p == k / 26,
                    l == k % 26,
            ;
        }
        if c.pair_avoided(p, l) {
            let ch = ((97 + l) as u8) as char;
            let mut data: Vec<u8> = Vec::new();
            let mut j: usize = 0;
            while j < 8
                invariant
                    j <= 8,
                    data@.len() == j,
                    p < 8,
                    l < 26,
                    forall|i: int|
                        0 <= i < j ==> #[trigger] data@[i] == (if i == p as int {
                            (letter_at(l as int)) as u8
                        } else {
                            LANE_ANY
                        }),
                decreases 8 - j,
            {
                if j == p {
                    data.push((97 + l as u8));
                    proof {
                        assert((97 + l as u8) == (letter_at(l as int)) as u8);
                    }
                } else {
                    data.push(LANE_ANY);
                }
                j = j + 1;
            }
            let av = SimdWordle::from_lanes(data);
            proof {
                assert(av@ =~= avoid_vec(p as int, l as int));
            }
            f = f.exclude(av);
            proof {
                assert(neg_vecs(f) =~= before.push(avoid_vec(p as int, l as int)));
                assert(excl_splats(*c, 26) + avoid_vecs(*c, k as int + 1) =~= before.push(
                    avoid_vec(p as int, l as int),
                ));
            }
        } else {
            proof {
                assert(excl_splats(*c, 26) + avoid_vecs(*c, k as int + 1) =~= before);
            }
        }
        k = k + 1;
    }
    f
}

/// Applies a constraint to a word list through the lane-vectorized path,
/// returning the consistent subset in the original order: by
/// `lemma_lane_scalar_agree`, exactly what the scalar `filter` returns.
pub fn filter_lanes(words: &Vec<String>, c: &Constraint) -> (r: Vec<String>)
    requires
        wf(*c),
        forall|i: int|
            0 <= i < words@.len() ==> wf_word((#[trigger] words@[i])@) && words@[i]@.len() <= 8,
    ensures
        r@ == words@.filter(|w: String| satisfies(w@, *c)),
{
    let ghost pred = |w: String| satisfies(w@, *c);
    let lf = filter_of_constraint(c);
    let mut r: Vec<String> = Vec::new();
    let mut i: usize = 0;
    while i < words.len()
        invariant
            i <= words@.len(),
            wf(*c),
            forall|k: int|
                0 <= k < words@.len() ==> wf_word((#[trigger] words@[k])@) && words@[k]@.len()
                    <= 8,
            wf_filter(lf),
            all_vecs(lf) == seq![fixed_vec_spec(*c)],
            any_vecs(lf) == incl_splats(*c, 26),
            neg_vecs(lf) == excl_splats(*c, 26) + avoid_vecs(*c, 208),
            pred == (|w: String| satisfies(w@, *c)),
            r@ == words@.take(i as int).filter(pred),
        decreases words@.len() - i,
    {
        proof {
            crate::constraint::lemma_filter_take_step(words@, pred, i as int);
            assert(words@[i as int].is_ascii()) by {
                assert(forall|j: int|
                    0 <= j < words@[i as int]@.len() ==> is_letter(
                        #[trigger] words@[i as int]@[j],
                    ));
            }
        }
        let packed = SimdWordle::from(words[i].as_str());
        proof {
            lemma_lane_scalar_agree(words@[i as int]@, *c);
        }
        if crate::lanes::word_passes(&packed, &lf) {
            r.push(words[i].clone());
        }
        i = i + 1;
    }
    proof {
        assert(words@.take(words@.len() as int) =~= words@);
    }
    r
}

} // verus!
