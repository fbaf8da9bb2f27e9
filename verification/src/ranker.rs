//! The reporting boundary: turn a node-to-score mapping into an explicit
//! sequence of (node, score) pairs ordered by descending score.  Ties keep
//! no particular order; callers choose their own tie-break.

use vstd::prelude::*;

use crate::normalize::all_wf;
use crate::rational::{frac_le, Rational};

verus! {

/// Every node exactly once, paired with its score, largest score first.
pub fn rank_descending(scores: &Vec<Rational>) -> (r: Vec<(usize, Rational)>)
    requires
        all_wf(scores@),
    ensures
        r@.len() == scores@.len(),
        forall|k: int|
            0 <= k < r@.len() ==> (#[trigger] r@[k]).0 < scores@.len() && r@[k].1
                == scores@[r@[k].0 as int],
        forall|a: int, b: int|
            0 <= a < b < r@.len() ==> frac_le((#[trigger] r@[b]).1.v(), (#[trigger] r@[a]).1.v()),
        forall|a: int, b: int|
            0 <= a < b < r@.len() ==> (#[trigger] r@[a]).0 != (#[trigger] r@[b]).0,
{
    let n = scores.len();
    let mut r: Vec<(usize, Rational)> = Vec::new();
    let mut i: usize = 0;
    while i < n
        invariant
            all_wf(scores@),
            n == scores@.len(),
            i <= n,
            r@.len() == i,
            forall|k: int|
                0 <= k < r@.len() ==> (#[trigger] r@[k]).0 < i && r@[k].1
                    == scores@[r@[k].0 as int],
            forall|a: int, b: int|
                0 <= a < b < r@.len() ==> frac_le(
                    (#[trigger] r@[b]).1.v(),
                    (#[trigger] r@[a]).1.v(),
                ),
            forall|a: int, b: int|
                0 <= a < b < r@.len() ==> (#[trigger] r@[a]).0 != (#[trigger] r@[b]).0,
        decreases n - i,
    {
        let sc = scores[i];
        let mut pos: usize = 0;
        while pos < r.len() && !r[pos].1.lt(sc)
            invariant
                all_wf(scores@),
                i < n == scores@.len(),
                sc == scores@[i as int],
                pos <= r@.len(),
                r@.len() == i,
                forall|k: int|
                    0 <= k < r@.len() ==> (#[trigger] r@[k]).0 < i && r@[k].1
                        == scores@[r@[k].0 as int],
                forall|a: int, b: int|
                    0 <= a < b < r@.len() ==> frac_le(
                        (#[trigger] r@[b]).1.v(),
                        (#[trigger] r@[a]).1.v(),
                    ),
                forall|a: int, b: int|
                    0 <= a < b < r@.len() ==> (#[trigger] r@[a]).0 != (#[trigger] r@[b]).0,
                forall|k: int| 0 <= k < pos ==> frac_le(sc.v(), (#[trigger] r@[k]).1.v()),
            decreases r@.len() - pos,
        {
            pos = pos + 1;
        }
        let ghost old_r = r@;
        r.insert(pos, (i, sc));
        proof {
            assert(r@ == old_r.insert(pos as int, (i, sc)));
            assert(forall|k: int| 0 <= k < pos ==> #[trigger] r@[k] == old_r[k]);
            assert(r@[pos as int] == (i, sc));
            assert(forall|k: int|
                pos < k < r@.len() ==> #[trigger] r@[k] == old_r[k - 1]);
            if (pos as int) < old_r.len() {
                assert(!frac_le(sc.v(), old_r[pos as int].1.v()));
                assert(frac_le(old_r[pos as int].1.v(), sc.v()));
            }
            assert forall|a: int, b: int|
                0 <= a < b < r@.len() implies frac_le(
                (#[trigger] r@[b]).1.v(),
                (#[trigger] r@[a]).1.v(),
            ) by {
                if b < pos as int {
                    assert(r@[a] == old_r[a] && r@[b] == old_r[b]);
                } else if a > pos as int {
                    assert(r@[a] == old_r[a - 1] && r@[b] == old_r[b - 1]);
                } else if a == pos as int && b > pos as int {
                    assert(r@[b] == old_r[b - 1]);
                    assert(frac_le(old_r[b - 1].1.v(), old_r[pos as int].1.v()) || b - 1
                        == pos as int);
                    if b - 1 > pos as int {
                        crate::rational::lemma_frac_le_trans(
                            old_r[b - 1].1.v(),
                            old_r[pos as int].1.v(),
                            sc.v(),
                        );
                    }
                } else if b == pos as int {
                    assert(r@[a] == old_r[a]);
                    assert(frac_le(sc.v(), old_r[a].1.v()));
                } else {
                    assert(a < pos as int && b > pos as int);
                    assert(r@[a] == old_r[a] && r@[b] == old_r[b - 1]);
                    if b - 1 == pos as int {
                        crate::rational::lemma_frac_le_trans(
                            old_r[pos as int].1.v(),
                            sc.v(),
                            old_r[a].1.v(),
                        );
                    } else {
                        assert(frac_le(old_r[b - 1].1.v(), old_r[a].1.v()));
                    }
                }
            }
        }
        proof {
            assert forall|a: int, b: int|
                0 <= a < b < r@.len() implies (#[trigger] r@[a]).0 != (#[trigger] r@[b]).0 by {
                if a < pos as int && b < pos as int {
                    assert(r@[a] == old_r[a] && r@[b] == old_r[b]);
                } else if a > pos as int && b > pos as int {
                    assert(r@[a] == old_r[a - 1] && r@[b] == old_r[b - 1]);
                } else if a == pos as int {
                    assert(r@[a].0 == i && r@[b] == old_r[b - 1] && old_r[b - 1].0 < i);
                } else if b == pos as int {
                    assert(r@[b].0 == i && r@[a] == old_r[a] && old_r[a].0 < i);
                } else {
                    assert(r@[a] == old_r[a] && r@[b] == old_r[b - 1]);
                }
            }
        }
        i = i + 1;
    }
    r
}

} // verus!
