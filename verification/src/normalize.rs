//! Shared score normalization: divide every raw score by the maximum score
//! (eigenvector centrality) or by the sum of all scores (betweenness
//! centrality), with the zero-denominator degeneracies reported explicitly.

use vstd::prelude::*;

use crate::rational::{
    frac_add, frac_div, frac_eq, frac_le, frac_one, frac_sum, frac_wf, frac_zero,
    lemma_frac_add_congruence, lemma_frac_add_wf, lemma_frac_div_add, lemma_frac_eq_trans,
    spec_checked_add, spec_checked_div, Frac, Rational,
};
use crate::CentralityError;

verus! {

/// Folding a sequence of scores through the executable addition, at the
/// specification level: `None` as soon as one reduced intermediate total
/// leaves `u64`.
pub open spec fn spec_sum_fold(s: Seq<Rational>, i: int) -> Option<Rational>
    decreases i,
{
    if i <= 0 {
        Option::Some(Rational { num: 0, den: 1 })
    } else {
        match spec_sum_fold(s, i - 1) {
            Option::Some(t) => spec_checked_add(t, s[i - 1]),
            Option::None => Option::None,
        }
    }
}

/// Once the fold has overflowed it stays overflowed.
proof fn lemma_spec_sum_fold_none(s: Seq<Rational>, i: int, j: int)
    requires
        0 <= i <= j,
        spec_sum_fold(s, i) is None,
    ensures
        spec_sum_fold(s, j) is None,
    decreases j,
{
    if j > i {
        lemma_spec_sum_fold_none(s, i, j - 1);
    }
}

/// The index the executable maximum scan settles on among the first `i`
/// scores: the earliest maximal score wins ties.
pub open spec fn spec_max_index(s: Seq<Rational>, i: int) -> int
    decreases i,
{
    if i <= 1 {
        0
    } else {
        let m = spec_max_index(s, i - 1);
        if !frac_le(s[i - 1].v(), s[m].v()) {
            i - 1
        } else {
            m
        }
    }
}

/// The fractions a sequence of rationals denotes.
pub open spec fn fracs(s: Seq<Rational>) -> Seq<Frac> {
    s.map_values(|r: Rational| r.v())
}

/// Every rational in the sequence has a positive denominator.
pub open spec fn all_wf(s: Seq<Rational>) -> bool {
    forall|i: int| 0 <= i < s.len() ==> (#[trigger] s[i]).wf()
}

/// A sum of well-formed fractions is well formed.
pub proof fn lemma_frac_sum_wf(s: Seq<Frac>)
    requires
        forall|i: int| 0 <= i < s.len() ==> frac_wf(#[trigger] s[i]),
    ensures
        frac_wf(frac_sum(s)),
    decreases s.len(),
{
    if s.len() > 0 {
        lemma_frac_sum_wf(s.drop_last());
        lemma_frac_add_wf(frac_sum(s.drop_last()), s.last());
    }
}

/// A sum of non-negative fractions is zero only when every addend is.
pub proof fn lemma_frac_sum_zero(s: Seq<Frac>)
    requires
        forall|i: int| 0 <= i < s.len() ==> frac_wf(#[trigger] s[i]),
        frac_eq(frac_sum(s), frac_zero()),
    ensures
        forall|i: int| 0 <= i < s.len() ==> (#[trigger] s[i]).n == 0,
    decreases s.len(),
{
    if s.len() > 0 {
        let rest = s.drop_last();
        let a = frac_sum(rest);
        let b = s.last();
        lemma_frac_sum_wf(rest);
        assert(frac_sum(s).n == 0);
        assert(a.n * b.d == 0 && b.n * a.d == 0) by (nonlinear_arith)
            requires
                a.n * b.d + b.n * a.d == 0,
                a.n >= 0,
                b.n >= 0,
                a.d >= 1,
                b.d >= 1,
        ;
        assert(a.n == 0 && b.n == 0) by (nonlinear_arith)
            requires
                a.n * b.d == 0,
                b.n * a.d == 0,
                a.d >= 1,
                b.d >= 1,
        ;
        lemma_frac_sum_zero(rest);
        assert forall|i: int| 0 <= i < s.len() implies (#[trigger] s[i]).n == 0 by {
            if i < s.len() - 1 {
                assert(s[i] == rest[i]);
            }
        }
    }
}

/// Dividing two equivalent fractions by equivalent divisors gives
/// equivalent quotients (congruence of division in the divisor).
pub proof fn lemma_frac_div_congruence(a: Frac, t: Frac, t2: Frac)
    requires
        frac_wf(a),
        frac_wf(t),
        frac_wf(t2),
        t.n >= 1,
        t2.n >= 1,
        frac_eq(t, t2),
    ensures
        frac_eq(frac_div(a, t), frac_div(a, t2)),
{
    assert((a.n * t.d) * (a.d * t2.n) == (a.n * t2.d) * (a.d * t.n)) by (nonlinear_arith)
        requires
            t.n * t2.d == t2.n * t.d,
    ;
}

/// Summing quotients with a fixed divisor equals dividing the sum once.
pub proof fn lemma_sum_of_divided(raws: Seq<Frac>, outs: Seq<Frac>, t: Frac)
    requires
        raws.len() == outs.len(),
        forall|i: int| 0 <= i < raws.len() ==> frac_wf(#[trigger] raws[i]),
        forall|i: int| 0 <= i < outs.len() ==> frac_wf(#[trigger] outs[i]),
        frac_wf(t),
        t.n >= 1,
        forall|i: int|
            0 <= i < raws.len() ==> frac_eq(#[trigger] outs[i], frac_div(raws[i], t)),
    ensures
        frac_eq(frac_sum(outs), frac_div(frac_sum(raws), t)),
    decreases raws.len(),
{
    if raws.len() == 0 {
        let l = frac_sum(outs);
        let r = frac_div(frac_sum(raws), t);
        assert(l == frac_zero() && r == (Frac { n: 0 * t.d, d: 1 * t.n }));
        assert(l.n * r.d == r.n * l.d) by (nonlinear_arith)
            requires
                l.n == 0,
                l.d == 1,
                r.n == 0 * t.d,
                r.d == 1 * t.n,
        ;
    } else {
        let rs = raws.drop_last();
        let os = outs.drop_last();
        assert(forall|i: int| 0 <= i < rs.len() ==> #[trigger] rs[i] == raws[i]);
        assert(forall|i: int| 0 <= i < os.len() ==> #[trigger] os[i] == outs[i]);
        lemma_sum_of_divided(rs, os, t);
        let sr = frac_sum(rs);
        let so = frac_sum(os);
        lemma_frac_sum_wf(rs);
        lemma_frac_sum_wf(os);
        lemma_frac_sum_wf(raws);
        lemma_frac_sum_wf(outs);
        let dr = frac_div(sr, t);
        assert(frac_wf(dr)) by (nonlinear_arith)
            requires
                sr.n >= 0,
                sr.d >= 1,
                t.n >= 1,
                t.d >= 1,
                dr == (Frac { n: sr.n * t.d, d: sr.d * t.n }),
        ;
        let dl = frac_div(raws.last(), t);
        assert(frac_wf(dl)) by (nonlinear_arith)
            requires
                raws.last().n >= 0,
                raws.last().d >= 1,
                t.n >= 1,
                t.d >= 1,
                dl == (Frac { n: raws.last().n * t.d, d: raws.last().d * t.n }),
        ;
        // sum(outs) = sum(os) + last(outs) ~ div(sr, t) + div(last(raws), t)
        lemma_frac_add_congruence(so, dr, outs.last());
        lemma_frac_add_wf(so, outs.last());
        lemma_frac_add_wf(dr, outs.last());
        assert(frac_add(dr, outs.last()) == frac_add(outs.last(), dr));
        assert(frac_add(dr, dl) == frac_add(dl, dr));
        lemma_frac_add_congruence(outs.last(), dl, dr);
        lemma_frac_add_wf(dr, dl);
        lemma_frac_eq_trans(
            frac_sum(outs),
            frac_add(dr, outs.last()),
            frac_add(dr, dl),
        );
        // div(sr, t) + div(last, t) ~ div(sr + last, t) = div(sum(raws), t)
        lemma_frac_div_add(sr, raws.last(), t);
        lemma_frac_add_wf(sr, raws.last());
        assert(frac_wf(frac_div(frac_add(sr, raws.last()), t))) by (nonlinear_arith)
            requires
                frac_add(sr, raws.last()).n >= 0,
                frac_add(sr, raws.last()).d >= 1,
                t.n >= 1,
                t.d >= 1,
        ;
        lemma_frac_eq_trans(
            frac_sum(outs),
            frac_add(dr, dl),
            frac_div(frac_add(sr, raws.last()), t),
        );
        assert(frac_add(sr, raws.last()) == frac_sum(raws));
    }
}

/// Divide every raw score by the total so that the results sum to exactly
/// one.  Reports the all-zero degeneracy instead of dividing by zero.
pub fn normalize_by_sum(raw: &Vec<Rational>) -> (r: Result<Vec<Rational>, CentralityError>)
    requires
        all_wf(raw@),
    ensures
        match r {
            Ok(out) => {
                &&& out@.len() == raw@.len()
                &&& all_wf(out@)
                &&& !frac_eq(frac_sum(fracs(raw@)), frac_zero())
                &&& forall|i: int|
                    0 <= i < raw@.len() ==> frac_eq(
                        (#[trigger] out@[i]).v(),
                        frac_div(raw@[i].v(), frac_sum(fracs(raw@))),
                    )
                &&& frac_eq(frac_sum(fracs(out@)), frac_one())
                &&& forall|i: int|
                    0 <= i < raw@.len() && (#[trigger] raw@[i]).num == 0 ==> out@[i].num == 0
            },
            Err(e) => e == CentralityError::Overflow || (e == CentralityError::ZeroNormalizer
                && forall|i: int| 0 <= i < raw@.len() ==> (#[trigger] raw@[i]).num == 0),
        },
        ({
            let fold = spec_sum_fold(raw@, raw@.len() as int);
            &&& (fold is None ==> r is Err && r->Err_0 == CentralityError::Overflow)
            &&& (fold matches Option::Some(t) ==> {
                &&& (t.num == 0 ==> r is Err && r->Err_0 == CentralityError::ZeroNormalizer)
                &&& (t.num >= 1 && (forall|j: int|
                    0 <= j < raw@.len() ==> (#[trigger] spec_checked_div(raw@[j], t)) is Some)
                    ==> r is Ok && (forall|j: int|
                    0 <= j < raw@.len() ==> #[trigger] spec_checked_div(raw@[j], t)
                        == Option::Some(r->Ok_0@[j])))
                &&& (t.num >= 1 && !(forall|j: int|
                    0 <= j < raw@.len() ==> (#[trigger] spec_checked_div(raw@[j], t)) is Some)
                    ==> r is Err && r->Err_0 == CentralityError::Overflow)
            })
        }),
{
    let ghost raw_fracs = fracs(raw@);
    proof {
        assert(forall|i: int| 0 <= i < raw_fracs.len() ==> frac_wf(#[trigger] raw_fracs[i]));
        lemma_frac_sum_wf(raw_fracs);
    }
    let mut total = Rational::zero();
    let mut i: usize = 0;
    while i < raw.len()
        invariant
            all_wf(raw@),
            raw_fracs == fracs(raw@),
            i <= raw.len(),
            total.wf(),
            frac_eq(total.v(), frac_sum(raw_fracs.take(i as int))),
            spec_sum_fold(raw@, i as int) == Option::Some(total),
        decreases raw.len() - i,
    {
        proof {
            lemma_frac_sum_wf(raw_fracs.take(i as int));
            lemma_frac_add_wf(frac_sum(raw_fracs.take(i as int)), raw@[i as int].v());
        }
        let next = match total.checked_add(raw[i]) {
            Some(t) => t,
            None => {
                proof {
                    assert(spec_sum_fold(raw@, i as int + 1) is None);
                    lemma_spec_sum_fold_none(raw@, i as int + 1, raw@.len() as int);
                }
                return Err(CentralityError::Overflow);
            },
        };
        proof {
            let pre = raw_fracs.take(i as int);
            let post = raw_fracs.take(i as int + 1);
            assert(post.drop_last() == pre);
            assert(post.last() == raw_fracs[i as int]);
            lemma_frac_add_congruence(total.v(), frac_sum(pre), raw@[i as int].v());
            lemma_frac_add_wf(total.v(), raw@[i as int].v());
            lemma_frac_eq_trans(
                next.v(),
                frac_add(total.v(), raw@[i as int].v()),
                frac_add(frac_sum(pre), raw@[i as int].v()),
            );
        }
        total = next;
        i = i + 1;
    }
    proof {
        assert(raw_fracs.take(raw@.len() as int) == raw_fracs);
    }
    if total.num == 0 {
        proof {
            assert(frac_eq(total.v(), frac_zero())) by (nonlinear_arith)
                requires
                    total.v().n == 0,
            ;
            lemma_frac_eq_trans(frac_zero(), total.v(), frac_sum(raw_fracs));
            lemma_frac_sum_zero(raw_fracs);
            assert forall|i2: int| 0 <= i2 < raw@.len() implies (#[trigger] raw@[i2]).num == 0 by {
                assert(raw_fracs[i2] == raw@[i2].v());
            }
        }
        return Err(CentralityError::ZeroNormalizer);
    }
    proof {
        lemma_frac_sum_wf(raw_fracs);
        if frac_eq(frac_sum(raw_fracs), frac_zero()) {
            lemma_frac_eq_trans(total.v(), frac_sum(raw_fracs), frac_zero());
            assert(total.num == 0) by (nonlinear_arith)
                requires
                    total.v().n * 1 == 0 * total.v().d,
                    total.v().n == total.num,
            ;
        }
        assert(frac_sum(raw_fracs).n >= 1) by (nonlinear_arith)
            requires
                frac_sum(raw_fracs).n >= 0,
                !(frac_sum(raw_fracs).n * 1 == 0 * frac_sum(raw_fracs).d),
        ;
    }
    let mut out: Vec<Rational> = Vec::new();
    let mut j: usize = 0;
    while j < raw.len()
        invariant
            all_wf(raw@),
            raw_fracs == fracs(raw@),
            j <= raw.len(),
            out@.len() == j,
            total.wf(),
            total.num >= 1,
            frac_eq(total.v(), frac_sum(raw_fracs)),
            !frac_eq(frac_sum(raw_fracs), frac_zero()),
            frac_wf(frac_sum(raw_fracs)),
            frac_sum(raw_fracs).n >= 1,
            all_wf(out@),
            forall|k: int|
                0 <= k < j ==> frac_eq(
                    (#[trigger] out@[k]).v(),
                    frac_div(raw@[k].v(), frac_sum(raw_fracs)),
                ),
            forall|k: int|
                0 <= k < j ==> frac_eq((#[trigger] out@[k]).v(), frac_div(raw@[k].v(), total.v())),
            forall|k: int| 0 <= k < j && (#[trigger] raw@[k]).num == 0 ==> out@[k].num == 0,
            spec_sum_fold(raw@, raw@.len() as int) == Option::Some(total),
            forall|k: int|
                0 <= k < j ==> #[trigger] spec_checked_div(raw@[k], total) == Option::Some(
                    out@[k],
                ),
        decreases raw.len() - j,
    {
        let c = match raw[j].checked_div(total) {
            Some(c) => c,
            None => {
                proof {
                    assert(spec_checked_div(raw@[j as int], total) is None);
                }
                return Err(CentralityError::Overflow);
            },
        };
        proof {
            lemma_frac_sum_wf(raw_fracs);
            assert(frac_wf(frac_div(raw@[j as int].v(), total.v()))) by (nonlinear_arith)
                requires
                    raw@[j as int].v().n >= 0,
                    raw@[j as int].v().d >= 1,
                    total.v().n >= 1,
                    total.v().d >= 1,
            ;
            lemma_frac_div_congruence(raw@[j as int].v(), total.v(), frac_sum(raw_fracs));
            assert(frac_wf(frac_div(raw@[j as int].v(), frac_sum(raw_fracs))))
                by (nonlinear_arith)
                requires
                    raw@[j as int].v().n >= 0,
                    raw@[j as int].v().d >= 1,
                    frac_sum(raw_fracs).n >= 1,
                    frac_sum(raw_fracs).d >= 1,
            ;
            lemma_frac_eq_trans(
                c.v(),
                frac_div(raw@[j as int].v(), total.v()),
                frac_div(raw@[j as int].v(), frac_sum(raw_fracs)),
            );
        }
        out.push(c);
        j = j + 1;
    }
    proof {
        lemma_frac_sum_wf(raw_fracs);
        assert(forall|i2: int|
            0 <= i2 < fracs(out@).len() ==> frac_wf(#[trigger] fracs(out@)[i2]));
        lemma_sum_of_divided(raw_fracs, fracs(out@), total.v());
        // div(sum, total) ~ one because total ~ sum
        let s = frac_sum(raw_fracs);
        assert(frac_eq(frac_div(s, total.v()), frac_one())) by (nonlinear_arith)
            requires
                total.v().n * s.d == s.n * total.v().d,
        ;
        lemma_frac_sum_wf(fracs(out@));
        assert(frac_wf(frac_div(s, total.v()))) by (nonlinear_arith)
            requires
                s.n >= 0,
                s.d >= 1,
                total.v().n >= 1,
                total.v().d >= 1,
        ;
        lemma_frac_eq_trans(frac_sum(fracs(out@)), frac_div(s, total.v()), frac_one());
    }
    Ok(out)
}

/// What `normalize_by_max` promises of its output, at witness index `m`:
/// `raw[m]` is a maximal raw score, its normalized score is exactly one,
/// and every normalized score is its raw score divided by `raw[m]`.
pub open spec fn max_normalized(raw: Seq<Rational>, out: Seq<Rational>, m: int) -> bool {
    &&& 0 <= m < raw.len()
    &&& forall|i: int| 0 <= i < raw.len() ==> frac_le((#[trigger] raw[i]).v(), raw[m].v())
    &&& frac_eq(out[m].v(), frac_one())
    &&& forall|i: int|
        0 <= i < raw.len() ==> frac_eq((#[trigger] out[i]).v(), frac_div(raw[i].v(), raw[m].v()))
}

/// Divide every raw score by the largest one, so the scores land in `[0, 1]`
/// with at least one score exactly one.  Reports the all-zero degeneracy
/// instead of dividing by zero.
#[verifier::rlimit(80)]
#[verifier::spinoff_prover]
pub fn normalize_by_max(raw: &Vec<Rational>) -> (r: Result<Vec<Rational>, CentralityError>)
    requires
        all_wf(raw@),
        raw@.len() >= 1,
    ensures
        match r {
            Ok(out) => {
                &&& out@.len() == raw@.len()
                &&& all_wf(out@)
                &&& exists|m: int| #[trigger] max_normalized(raw@, out@, m)
                &&& forall|i: int|
                    0 <= i < raw@.len() ==> frac_le((#[trigger] out@[i]).v(), frac_one())
                &&& forall|i: int|
                    0 <= i < raw@.len() && (#[trigger] raw@[i]).num == 0 ==> out@[i].num == 0
                &&& exists|i: int| 0 <= i < raw@.len() && (#[trigger] raw@[i]).num >= 1
            },
            Err(e) => e == CentralityError::Overflow || (e == CentralityError::ZeroNormalizer
                && forall|i: int| 0 <= i < raw@.len() ==> (#[trigger] raw@[i]).num == 0),
        },
        ({
            let t = raw@[spec_max_index(raw@, raw@.len() as int)];
            &&& (t.num == 0 ==> r is Err && r->Err_0 == CentralityError::ZeroNormalizer)
            &&& (t.num >= 1 && (forall|j: int|
                0 <= j < raw@.len() ==> (#[trigger] spec_checked_div(raw@[j], t)) is Some)
                ==> r is Ok && (forall|j: int|
                0 <= j < raw@.len() ==> #[trigger] spec_checked_div(raw@[j], t) == Option::Some(
                    r->Ok_0@[j],
                )))
            &&& (t.num >= 1 && !(forall|j: int|
                0 <= j < raw@.len() ==> (#[trigger] spec_checked_div(raw@[j], t)) is Some)
                ==> r is Err && r->Err_0 == CentralityError::Overflow)
        }),
{
    let mut m: usize = 0;
    let mut i: usize = 1;
    while i < raw.len()
        invariant
            all_wf(raw@),
            1 <= i <= raw.len(),
            m < i,
            m as int == spec_max_index(raw@, i as int),
            forall|k: int| 0 <= k < i ==> frac_le((#[trigger] raw@[k]).v(), raw@[m as int].v()),
        decreases raw.len() - i,
    {
        let ghost oldm = m as int;
        if raw[m].lt(raw[i]) {
            m = i;
        }
        proof {
            assert forall|k: int|
                0 <= k < i + 1 implies frac_le((#[trigger] raw@[k]).v(), raw@[m as int].v()) by {
                if m as int != oldm {
                    if k < i as int {
                        crate::rational::lemma_frac_le_trans(
                            raw@[k].v(),
                            raw@[oldm].v(),
                            raw@[m as int].v(),
                        );
                    }
                }
            }
        }
        i = i + 1;
    }
    let maxv = raw[m];
    if maxv.num == 0 {
        proof {
            assert forall|k: int| 0 <= k < raw@.len() implies (#[trigger] raw@[k]).num == 0 by {
                let a = raw@[k].v();
                let b = maxv.v();
                assert(raw@[k].num == 0) by (nonlinear_arith)
                    requires
                        a.n * b.d <= b.n * a.d,
                        b.n == 0,
                        a.n >= 0,
                        a.d >= 1,
                        b.d >= 1,
                        a.n == raw@[k].num,
                ;
            }
        }
        return Err(CentralityError::ZeroNormalizer);
    }
    let mut out: Vec<Rational> = Vec::new();
    let mut j: usize = 0;
    while j < raw.len()
        invariant
            all_wf(raw@),
            j <= raw.len(),
            out@.len() == j,
            m < raw.len(),
            maxv == raw@[m as int],
            maxv.wf(),
            maxv.num >= 1,
            forall|k: int| 0 <= k < raw@.len() ==> frac_le((#[trigger] raw@[k]).v(), maxv.v()),
            all_wf(out@),
            forall|k: int|
                0 <= k < j ==> frac_eq(
                    (#[trigger] out@[k]).v(),
                    frac_div(raw@[k].v(), maxv.v()),
                ),
            forall|k: int| 0 <= k < j ==> frac_le((#[trigger] out@[k]).v(), frac_one()),
            forall|k: int| 0 <= k < j && (#[trigger] raw@[k]).num == 0 ==> out@[k].num == 0,
            m as int == spec_max_index(raw@, raw@.len() as int),
            forall|k: int|
                0 <= k < j ==> #[trigger] spec_checked_div(raw@[k], maxv) == Option::Some(
                    out@[k],
                ),
        decreases raw.len() - j,
    {
        let c = match raw[j].checked_div(maxv) {
            Some(c) => c,
            None => {
                proof {
                    assert(spec_checked_div(raw@[j as int], maxv) is None);
                }
                return Err(CentralityError::Overflow);
            },
        };
        proof {
            let a = raw@[j as int].v();
            let b = maxv.v();
            assert(frac_le(c.v(), frac_one())) by (nonlinear_arith)
                requires
                    c.v().n * (a.d * b.n) == (a.n * b.d) * c.v().d,
                    a.n * b.d <= b.n * a.d,
                    a.d >= 1,
                    b.n >= 1,
                    b.d >= 1,
                    a.n >= 0,
                    c.v().n >= 0,
                    c.v().d >= 1,
            ;
        }
        out.push(c);
        j = j + 1;
    }
    proof {
        assert(raw@[m as int].num >= 1);
        assert(exists|i: int| 0 <= i < raw@.len() && (#[trigger] raw@[i]).num >= 1);
        assert forall|i: int|
            0 <= i < raw@.len() && (#[trigger] raw@[i]).num == 0 implies out@[i].num == 0 by {
            assert(out@[i].num == 0);
        }
        let b = maxv.v();
        let c = out@[m as int].v();
        assert(frac_eq(c, frac_div(raw@[m as int].v(), maxv.v())));
        assert(c.n * 1 == 1 * c.d) by (nonlinear_arith)
            requires
                c.n * (b.d * b.n) == (b.n * b.d) * c.d,
                b.n >= 1,
                b.d >= 1,
        ;
        assert(frac_eq(out@[m as int].v(), frac_one()));
        assert(forall|i: int|
            0 <= i < raw@.len() ==> frac_le((#[trigger] raw@[i]).v(), raw@[m as int].v()));
        assert(forall|i: int|
            0 <= i < raw@.len() ==> frac_eq(
                (#[trigger] out@[i]).v(),
                frac_div(raw@[i].v(), raw@[m as int].v()),
            ));
        assert(max_normalized(raw@, out@, m as int));
        assert(maxv == raw@[spec_max_index(raw@, raw@.len() as int)]);
        assert(forall|j: int|
            0 <= j < raw@.len() ==> #[trigger] spec_checked_div(raw@[j], maxv) == Option::Some(
                out@[j],
            ));
    }
    Ok(out)
}

} // verus!
