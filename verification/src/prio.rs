//! Priority reduction: the fold order of a binary chain, by descending
//! precedence, ties broken by ascending source position.

use vstd::prelude::*;
use crate::operators::Operator;
use crate::model::{best_upto, lemma_best_upto_bounds, order_from, prio_order, precs_of, range_seq};
use crate::deep::chain_model;

verus! {

/// The chain's precedences, one per binary operator.
fn chain_precs(ops: &Vec<Operator>) -> (r: Vec<u32>)
    ensures
        r@ == precs_of(chain_model(ops@)),
{
    let mut out: Vec<u32> = Vec::new();
    let mut i: usize = 0;
    while i < ops.len()
        invariant
            i <= ops@.len(),
            out@.len() == i,
            forall|j: int| 0 <= j < i ==> out@[j] == ops@[j].prec,
        decreases ops@.len() - i,
    {
        out.push(ops[i].prec);
        i = i + 1;
    }
    proof {
        assert(out@ =~= precs_of(chain_model(ops@)));
    }
    out
}

/// The fold order of a binary chain: a permutation of its indices,
/// operators consumed by descending precedence, ties broken by
/// ascending source position.
pub fn prioritized_indices(ops: &Vec<Operator>) -> (r: Vec<usize>)
    ensures
        r@.map_values(|x: usize| x as int) == prio_order(precs_of(chain_model(ops@))),
{
    let precs = chain_precs(ops);
    let ghost ps = precs@;
    let mut cands: Vec<usize> = Vec::new();
    let mut i: usize = 0;
    while i < precs.len()
        invariant
            i <= ps.len(),
            precs@ == ps,
            cands@.len() == i,
            forall|j: int| 0 <= j < i ==> #[trigger] cands@[j] == j,
        decreases ps.len() - i,
    {
        cands.push(i);
        i = i + 1;
    }
    proof {
        assert(cands@.map_values(|x: usize| x as int) =~= range_seq(ps.len() as int));
        assert(Seq::<int>::empty() + order_from(ps, cands@.map_values(|x: usize| x as int))
            =~= prio_order(ps));
    }
    let mut out: Vec<usize> = Vec::new();
    proof {
        assert(out@.map_values(|x: usize| x as int) =~= Seq::<int>::empty());
    }
    while cands.len() > 0
        invariant
            precs@ == ps,
            forall|j: int| 0 <= j < cands@.len() ==> 0 <= #[trigger] cands@[j] < ps.len(),
            out@.map_values(|x: usize| x as int) + order_from(
                ps,
                cands@.map_values(|x: usize| x as int),
            ) == prio_order(ps),
        decreases cands@.len(),
    {
        let ghost cs = cands@.map_values(|x: usize| x as int);
        let mut best: usize = 0;
        let mut m: usize = 1;
        while m < cands.len()
            invariant
                precs@ == ps,
                cands@.len() >= 1,
                forall|j: int| 0 <= j < cands@.len() ==> 0 <= #[trigger] cands@[j] < ps.len(),
                cs == cands@.map_values(|x: usize| x as int),
                best < m,
                m <= cands@.len(),
                best as int == best_upto(ps, cs, m as int),
            decreases cands@.len() - m,
        {
            if precs[cands[m]] > precs[cands[best]] {
                best = m;
            }
            m = m + 1;
        }
        let chosen = cands[best];
        let ghost prev_out = out@;
        out.push(chosen);
        let ghost prev_cands = cands@;
        cands.remove(best);
        proof {
            lemma_best_upto_bounds(ps, cs, cs.len() as int);
            assert(cands@ == prev_cands.remove(best as int));
            assert(cands@.map_values(|x: usize| x as int) =~= cs.remove(best as int));
            assert(order_from(ps, cs) == seq![cs[best as int]] + order_from(
                ps,
                cs.remove(best as int),
            ));
            assert(out@.map_values(|x: usize| x as int) =~= prev_out.map_values(
                |x: usize| x as int,
            ).push(chosen as int));
            assert(out@.map_values(|x: usize| x as int) + order_from(
                ps,
                cands@.map_values(|x: usize| x as int),
            ) =~= prev_out.map_values(|x: usize| x as int) + order_from(ps, cs));
            assert forall|j: int| 0 <= j < cands@.len() implies 0 <= #[trigger] cands@[j]
                < ps.len() by {
                if j < best {
                    assert(cands@[j] == prev_cands[j]);
                } else {
                    assert(cands@[j] == prev_cands[j + 1]);
                }
            }
        }
    }
    proof {
        assert(cands@.map_values(|x: usize| x as int) =~= Seq::<int>::empty());
        assert(out@.map_values(|x: usize| x as int) + order_from(ps, Seq::<int>::empty())
            =~= out@.map_values(|x: usize| x as int));
    }
    out
}

} // verus!
