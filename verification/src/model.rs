//! The mathematical model of expression trees.
//!
//! A flat tree (leaves, binary chain, unary chain) denotes a [`Term`]: the
//! binary chain is folded into nested binary applications in priority
//! order, ties broken left to right, and a non-empty unary chain wraps the
//! folded result. The symbolic derivative [`dterm`] is defined over terms.

use vstd::prelude::*;
use crate::operators::OpModel;

verus! {

/// The closed set of operator kinds the model distinguishes. `Other`
/// stands for any representation the derivative rules do not know.
pub enum OpKind {
    Add,
    Sub,
    Mul,
    Div,
    Pow,
    Sin,
    Cos,
    NegSin,
    NegCos,
    Ln,
    Neg,
    UPlus,
    Other,
}

/// The ghost mirror of a leaf node.
pub ghost enum NodeModel {
    /// A numeric constant, held as its canonical literal text.
    Num(Seq<char>),
    /// A variable: its index and its display name.
    Var(nat, Seq<char>),
    /// An owned sub-expression.
    Expr(Box<ExprModel>),
}

/// The ghost mirror of the overloaded-operator record a tree may carry.
pub ghost struct OvModel {
    pub add: OpModel,
    pub sub: OpModel,
    pub mul: OpModel,
}

/// The ghost mirror of a flat expression tree.
pub ghost struct ExprModel {
    pub nodes: Seq<NodeModel>,
    pub bins: Seq<OpModel>,
    pub unops: Seq<OpModel>,
    pub ovops: Option<OvModel>,
}

/// A term: the denotation of a flat tree after priority reduction.
#[verifier::ext_equal]
pub ghost enum Term {
    Num(Seq<char>),
    Var(nat, Seq<char>),
    Bin(OpKind, Box<Term>, Box<Term>),
    /// A unary chain, outermost first, over a core term.
    Un(Seq<OpKind>, Box<Term>),
}

/// The canonical text of the constant zero.
pub open spec fn zero_text() -> Seq<char> {
    "0.0"@
}

/// The canonical text of the constant one.
pub open spec fn one_text() -> Seq<char> {
    "1.0"@
}

/// The kind an operator representation has in binary position.
pub open spec fn bin_kind_of(repr: Seq<char>) -> OpKind {
    if repr == "+"@ {
        OpKind::Add
    } else if repr == "-"@ {
        OpKind::Sub
    } else if repr == "*"@ {
        OpKind::Mul
    } else if repr == "/"@ {
        OpKind::Div
    } else if repr == "^"@ {
        OpKind::Pow
    } else {
        OpKind::Other
    }
}

/// The kind an operator representation has in unary position.
pub open spec fn un_kind_of(repr: Seq<char>) -> OpKind {
    if repr == "sin"@ {
        OpKind::Sin
    } else if repr == "cos"@ {
        OpKind::Cos
    } else if repr == "-sin"@ {
        OpKind::NegSin
    } else if repr == "-cos"@ {
        OpKind::NegCos
    } else if repr == "ln"@ {
        OpKind::Ln
    } else if repr == "-"@ {
        OpKind::Neg
    } else if repr == "+"@ {
        OpKind::UPlus
    } else {
        OpKind::Other
    }
}

/// The representation of the outer-derivative of a unary operator kind:
/// the registered operator that is its derivative function.
pub open spec fn deriv_repr(k: OpKind) -> Seq<char> {
    match k {
        OpKind::Sin => "cos"@,
        OpKind::Cos => "-sin"@,
        OpKind::NegSin => "-cos"@,
        OpKind::NegCos => "sin"@,
        _ => Seq::empty(),
    }
}

/// Whether a unary operator kind has an outer-derivative mapping.
pub open spec fn has_deriv(k: OpKind) -> bool {
    k is Sin || k is Cos || k is NegSin || k is NegCos
}

/// The kind of the outer-derivative of a unary operator kind.
pub open spec fn dkind(k: OpKind) -> OpKind {
    un_kind_of(deriv_repr(k))
}

// ---------------------------------------------------------------------
// Priority reduction over the model.
// ---------------------------------------------------------------------

/// The position, among the first `m` candidates, of the leftmost
/// candidate of maximal precedence.
pub open spec fn best_upto(precs: Seq<u32>, cands: Seq<int>, m: int) -> int
    decreases m,
{
    if m <= 1 {
        0
    } else {
        let p = best_upto(precs, cands, m - 1);
        if precs[cands[m - 1]] > precs[cands[p]] {
            m - 1
        } else {
            p
        }
    }
}

/// The leftmost maximum lies among the first `m` candidates.
pub proof fn lemma_best_upto_bounds(precs: Seq<u32>, cands: Seq<int>, m: int)
    requires
        m >= 1,
    ensures
        0 <= best_upto(precs, cands, m) < m,
    decreases m,
{
    if m > 1 {
        lemma_best_upto_bounds(precs, cands, m - 1);
    }
}

/// The fold order of a set of candidate chain indices: repeatedly the
/// leftmost candidate of maximal precedence.
pub open spec fn order_from(precs: Seq<u32>, cands: Seq<int>) -> Seq<int>
    decreases cands.len(),
    via order_from_dec
{
    if cands.len() == 0 {
        Seq::empty()
    } else {
        let b = best_upto(precs, cands, cands.len() as int);
        seq![cands[b]] + order_from(precs, cands.remove(b))
    }
}

#[via_fn]
proof fn order_from_dec(precs: Seq<u32>, cands: Seq<int>) {
    if cands.len() > 0 {
        lemma_best_upto_bounds(precs, cands, cands.len() as int);
    }
}

/// The sequence `0, 1, ..., n-1`.
pub open spec fn range_seq(n: int) -> Seq<int> {
    Seq::new(if n >= 0 { n as nat } else { 0 }, |k: int| k)
}

/// The fold order of a whole binary chain, by descending precedence,
/// ties broken by ascending source position.
pub open spec fn prio_order(precs: Seq<u32>) -> Seq<int> {
    order_from(precs, range_seq(precs.len() as int))
}

/// Decrements every recorded position greater than `p` after the leaf at
/// `p + 1` is removed by a fold step.
pub open spec fn shrink_pos(pos: Seq<int>, p: int) -> Seq<int> {
    pos.map_values(|x: int| if x > p { x - 1 } else { x })
}

/// Folds a sequence of terms by the recorded positions: each step joins
/// the two terms adjacent to its position into one binary application.
pub open spec fn fold_terms(ts: Seq<Term>, ks: Seq<OpKind>, pos: Seq<int>) -> Term
    decreases pos.len(),
{
    if pos.len() == 0 {
        if ts.len() > 0 {
            ts[0]
        } else {
            Term::Num(zero_text())
        }
    } else {
        let p = pos[0];
        let merged = ts.take(p) + seq![Term::Bin(ks[0], Box::new(ts[p]), Box::new(ts[p + 1]))]
            + ts.skip(p + 2);
        fold_terms(merged, ks.skip(1), shrink_pos(pos.skip(1), p))
    }
}

// ---------------------------------------------------------------------
// The denotation of a flat tree.
// ---------------------------------------------------------------------

/// The term a leaf node denotes.
pub open spec fn node_term(n: NodeModel) -> Term
    decreases n, 2int,
{
    match n {
        NodeModel::Num(t) => Term::Num(t),
        NodeModel::Var(v, name) => Term::Var(v, name),
        NodeModel::Expr(b) => term_of(*b),
    }
}

/// The terms a sequence of leaf nodes denotes.
pub open spec fn terms_of(ns: Seq<NodeModel>) -> Seq<Term>
    decreases ns, 3int,
{
    if ns.len() == 0 {
        Seq::empty()
    } else {
        seq![node_term(ns[0])] + terms_of(ns.skip(1))
    }
}

/// The kinds of a binary chain in fold order.
pub open spec fn kinds_by(bins: Seq<OpModel>, ord: Seq<int>) -> Seq<OpKind> {
    ord.map_values(|j: int| bin_kind_of(bins[j].repr))
}

/// The precedences of a binary chain.
pub open spec fn precs_of(bins: Seq<OpModel>) -> Seq<u32> {
    bins.map_values(|o: OpModel| o.prec)
}

/// The kinds of a unary chain, outermost first.
pub open spec fn un_kinds(unops: Seq<OpModel>) -> Seq<OpKind> {
    unops.map_values(|o: OpModel| un_kind_of(o.repr))
}

/// The core term of a tree: its leaves folded by its binary chain in
/// priority order, the unary chain ignored.
pub open spec fn core_term(m: ExprModel) -> Term
    decreases m, 0int,
{
    let ord = prio_order(precs_of(m.bins));
    fold_terms(terms_of(m.nodes), kinds_by(m.bins, ord), ord)
}

/// The term a flat tree denotes: its core, wrapped by its unary chain
/// when that chain is not empty.
pub open spec fn term_of(m: ExprModel) -> Term
    decreases m, 1int,
{
    if m.unops.len() == 0 {
        core_term(m)
    } else {
        Term::Un(un_kinds(m.unops), Box::new(core_term(m)))
    }
}

// ---------------------------------------------------------------------
// Well-formedness.
// ---------------------------------------------------------------------

/// Whether a leaf node is well formed.
pub open spec fn wf_node(n: NodeModel) -> bool
    decreases n,
{
    match n {
        NodeModel::Num(_) => true,
        NodeModel::Var(_, _) => true,
        NodeModel::Expr(b) => wf_model(*b),
    }
}

/// Whether every leaf of a sequence is well formed.
pub open spec fn wf_nodes(ns: Seq<NodeModel>) -> bool
    decreases ns,
{
    if ns.len() == 0 {
        true
    } else {
        wf_node(ns[0]) && wf_nodes(ns.skip(1))
    }
}

/// Whether a flat tree is well formed: one more leaf than binary
/// operators, at least one leaf, operators fit for their positions, and
/// every sub-expression well formed in turn.
pub open spec fn wf_model(m: ExprModel) -> bool
    decreases m,
{
    &&& m.nodes.len() >= 1
    &&& m.nodes.len() == m.bins.len() + 1
    &&& (forall|j: int| 0 <= j < m.bins.len() ==> (#[trigger] m.bins[j]).has_bin)
    &&& (forall|j: int| 0 <= j < m.unops.len() ==> (#[trigger] m.unops[j]).has_unary)
    &&& wf_nodes(m.nodes)
}

// ---------------------------------------------------------------------
// The symbolic derivative.
// ---------------------------------------------------------------------

/// The running product of outer factors: each unary operator of the
/// chain contributes its derivative function applied to the original
/// core, multiplied onto the accumulator in chain order.
pub open spec fn outer_fold(acc: Term, ks: Seq<OpKind>, core: Term) -> Term
    decreases ks.len(),
{
    if ks.len() == 0 {
        acc
    } else {
        outer_fold(
            Term::Bin(
                OpKind::Mul,
                Box::new(acc),
                Box::new(Term::Un(seq![dkind(ks[0])], Box::new(core))),
            ),
            ks.skip(1),
            core,
        )
    }
}

/// The symbolic partial derivative of a term with respect to the
/// variable of index `i`. Binary kinds follow the sum, difference,
/// product, quotient and general power rules; the power rule is used
/// unconditionally, even for constant exponents. A unary chain
/// contributes an outer factor per operator, each evaluated at the
/// original core.
pub open spec fn dterm(i: nat, t: Term) -> Term
    decreases t,
{
    match t {
        Term::Num(_) => Term::Num(zero_text()),
        Term::Var(v, _) => if v == i {
            Term::Num(one_text())
        } else {
            Term::Num(zero_text())
        },
        Term::Bin(k, f, g) => {
            let df = dterm(i, *f);
            let dg = dterm(i, *g);
            match k {
                OpKind::Add => Term::Bin(OpKind::Add, Box::new(df), Box::new(dg)),
                OpKind::Sub => Term::Bin(OpKind::Sub, Box::new(df), Box::new(dg)),
                OpKind::Mul => Term::Bin(
                    OpKind::Add,
                    Box::new(Term::Bin(OpKind::Mul, Box::new(df), g)),
                    Box::new(Term::Bin(OpKind::Mul, f, Box::new(dg))),
                ),
                OpKind::Div => Term::Bin(
                    OpKind::Div,
                    Box::new(
                        Term::Bin(
                            OpKind::Sub,
                            Box::new(Term::Bin(OpKind::Mul, Box::new(df), g)),
                            Box::new(Term::Bin(OpKind::Mul, f, Box::new(dg))),
                        ),
                    ),
                    Box::new(Term::Bin(OpKind::Mul, g, g)),
                ),
                OpKind::Pow => Term::Bin(
                    OpKind::Add,
                    Box::new(
                        Term::Bin(
                            OpKind::Mul,
                            Box::new(
                                Term::Bin(
                                    OpKind::Mul,
                                    Box::new(
                                        Term::Bin(
                                            OpKind::Pow,
                                            f,
                                            Box::new(
                                                Term::Bin(
                                                    OpKind::Sub,
                                                    g,
                                                    Box::new(Term::Num(one_text())),
                                                ),
                                            ),
                                        ),
                                    ),
                                    g,
                                ),
                            ),
                            Box::new(df),
                        ),
                    ),
                    Box::new(
                        Term::Bin(
                            OpKind::Mul,
                            Box::new(
                                Term::Bin(
                                    OpKind::Mul,
                                    Box::new(Term::Bin(OpKind::Pow, f, g)),
                                    Box::new(Term::Un(seq![OpKind::Ln], f)),
                                ),
                            ),
                            Box::new(dg),
                        ),
                    ),
                ),
                _ => Term::Num(zero_text()),
            }
        },
        Term::Un(ks, c) => Term::Bin(
            OpKind::Mul,
            Box::new(dterm(i, *c)),
            Box::new(outer_fold(Term::Num(one_text()), ks, *c)),
        ),
    }
}

// ---------------------------------------------------------------------
// When differentiation is owed to succeed.
// ---------------------------------------------------------------------

/// The first registry entry with the given representation, if any.
pub open spec fn find_opm(repr: Seq<char>, ops: Seq<OpModel>) -> Option<OpModel>
    decreases ops.len(),
{
    if ops.len() == 0 {
        None
    } else if ops[0].repr == repr {
        Some(ops[0])
    } else {
        find_opm(repr, ops.skip(1))
    }
}

/// Whether the registry holds a binary operator of the given
/// representation.
pub open spec fn has_bin_named(ops: Seq<OpModel>, repr: Seq<char>) -> bool {
    match find_opm(repr, ops) {
        Some(o) => o.has_bin,
        None => false,
    }
}

/// Whether the registry holds a unary operator of the given
/// representation.
pub open spec fn has_unary_named(ops: Seq<OpModel>, repr: Seq<char>) -> bool {
    match find_opm(repr, ops) {
        Some(o) => o.has_unary,
        None => false,
    }
}

/// Whether the registry holds the binary `+`, `-` and `*` the engine
/// needs to synthesize constant leaves and combine derivative results.
pub open spec fn overloaded_available(ops: Seq<OpModel>) -> bool {
    has_bin_named(ops, "+"@) && has_bin_named(ops, "-"@) && has_bin_named(ops, "*"@)
}

/// Whether the registry holds what the general power rule needs: a
/// binary `^` and a unary `ln`.
pub open spec fn pow_ready(ops: Seq<OpModel>) -> bool {
    has_bin_named(ops, "^"@) && has_unary_named(ops, "ln"@)
}

/// Whether a unary operator kind can be differentiated against the given
/// registry: it has an outer-derivative mapping whose target is
/// registered as a unary operator.
pub open spec fn un_diff_ok(k: OpKind, ops: Seq<OpModel>) -> bool {
    has_deriv(k) && has_unary_named(ops, deriv_repr(k))
}

/// Whether a binary operator kind has a derivative rule.
pub open spec fn bin_rule_kind(k: OpKind) -> bool {
    k is Add || k is Sub || k is Mul || k is Div || k is Pow
}

/// Whether the overloaded-operator record a tree carries is the expected
/// one: binary `+`, `-` and `*` under their canonical representations.
pub open spec fn ov_wf(ov: OvModel) -> bool {
    &&& ov.add.repr == "+"@
    &&& ov.add.has_bin
    &&& ov.sub.repr == "-"@
    &&& ov.sub.has_bin
    &&& ov.mul.repr == "*"@
    &&& ov.mul.has_bin
}

/// Whether a leaf can be differentiated against the given registry.
pub open spec fn diff_ok_node(n: NodeModel, ops: Seq<OpModel>) -> bool
    decreases n, 2int,
{
    match n {
        NodeModel::Num(_) => true,
        NodeModel::Var(_, _) => true,
        NodeModel::Expr(b) => diff_ok_model(*b, ops),
    }
}

/// Whether every leaf of a sequence can be differentiated.
pub open spec fn diff_ok_nodes(ns: Seq<NodeModel>, ops: Seq<OpModel>) -> bool
    decreases ns, 3int,
{
    if ns.len() == 0 {
        true
    } else {
        diff_ok_node(ns[0], ops) && diff_ok_nodes(ns.skip(1), ops)
    }
}

/// Whether a tree's core — leaves and binary chain, the unary chain set
/// aside — can be differentiated against the given registry.
pub open spec fn core_diff_ok(m: ExprModel, ops: Seq<OpModel>) -> bool
    decreases m, 0int,
{
    &&& (forall|j: int|
        0 <= j < m.bins.len() ==> bin_rule_kind(bin_kind_of((#[trigger] m.bins[j]).repr)))
    &&& (forall|j: int|
        0 <= j < m.bins.len() ==> (bin_kind_of((#[trigger] m.bins[j]).repr) is Pow ==> pow_ready(
            ops,
        )))
    &&& diff_ok_nodes(m.nodes, ops)
}

/// Whether a tree can be differentiated against the given registry:
/// every binary chain operator has a derivative rule (with the registry
/// providing `^` and `ln` where the power rule fires), every unary chain
/// operator has an outer-derivative mapping whose target the registry
/// registers as unary, recursively in sub-expressions.
pub open spec fn diff_ok_model(m: ExprModel, ops: Seq<OpModel>) -> bool
    decreases m, 1int,
{
    &&& core_diff_ok(m, ops)
    &&& (forall|j: int|
        0 <= j < m.unops.len() ==> un_diff_ok(un_kind_of((#[trigger] m.unops[j]).repr), ops))
}

// ---------------------------------------------------------------------
// Variable count.
// ---------------------------------------------------------------------

/// One more than the largest variable index of a leaf node.
pub open spec fn nvars_node(n: NodeModel) -> nat
    decreases n,
{
    match n {
        NodeModel::Num(_) => 0,
        NodeModel::Var(v, _) => v + 1,
        NodeModel::Expr(b) => nvars_model(*b),
    }
}

/// One more than the largest variable index of a sequence of leaves.
pub open spec fn nvars_nodes(ns: Seq<NodeModel>) -> nat
    decreases ns,
{
    if ns.len() == 0 {
        0
    } else {
        let rest = nvars_nodes(ns.skip(1));
        if nvars_node(ns[0]) >= rest {
            nvars_node(ns[0])
        } else {
            rest
        }
    }
}

/// One more than the largest variable index occurring in a tree; zero
/// for a tree without variables.
pub open spec fn nvars_model(m: ExprModel) -> nat
    decreases m,
{
    nvars_nodes(m.nodes)
}

// ---------------------------------------------------------------------
// Supporting lemmas.
// ---------------------------------------------------------------------

/// The terms of a leaf sequence have the same length and mirror each
/// leaf in place.
pub proof fn lemma_terms_of_index(ns: Seq<NodeModel>)
    ensures
        terms_of(ns).len() == ns.len(),
        forall|j: int| 0 <= j < ns.len() ==> terms_of(ns)[j] == node_term(#[trigger] ns[j]),
    decreases ns,
{
    if ns.len() > 0 {
        lemma_terms_of_index(ns.skip(1));
        assert forall|j: int| 0 <= j < ns.len() implies terms_of(ns)[j] == node_term(
            #[trigger] ns[j],
        ) by {
            if j > 0 {
                assert(ns.skip(1)[j - 1] == ns[j]);
            }
        }
    }
}

/// Differentiability of a leaf sequence is pointwise.
pub proof fn lemma_diff_ok_nodes_pointwise(ns: Seq<NodeModel>, ops: Seq<OpModel>)
    ensures
        diff_ok_nodes(ns, ops) <==> (forall|j: int|
            0 <= j < ns.len() ==> diff_ok_node(#[trigger] ns[j], ops)),
    decreases ns,
{
    if ns.len() > 0 {
        lemma_diff_ok_nodes_pointwise(ns.skip(1), ops);
        assert(forall|j: int| 1 <= j < ns.len() ==> ns.skip(1)[j - 1] == #[trigger] ns[j]);
        if diff_ok_node(ns[0], ops) && diff_ok_nodes(ns.skip(1), ops) {
            assert forall|j: int| 0 <= j < ns.len() implies diff_ok_node(
                #[trigger] ns[j],
                ops,
            ) by {
                if j > 0 {
                    assert(ns[j] == ns.skip(1)[j - 1]);
                }
            }
        }
    }
}

/// The variable count of a leaf sequence exceeds `i` exactly when the
/// count of one of its leaves does.
pub proof fn lemma_nvars_nodes_exceeds(ns: Seq<NodeModel>, i: nat)
    ensures
        nvars_nodes(ns) > i <==> (exists|j: int|
            0 <= j < ns.len() && nvars_node(#[trigger] ns[j]) > i),
    decreases ns,
{
    if ns.len() > 0 {
        lemma_nvars_nodes_exceeds(ns.skip(1), i);
        assert(forall|j: int| 1 <= j < ns.len() ==> ns.skip(1)[j - 1] == #[trigger] ns[j]);
        if nvars_nodes(ns) > i {
            if nvars_node(ns[0]) > i {
                assert(0 <= 0 < ns.len() && nvars_node(ns[0]) > i);
            } else {
                let j = choose|j: int|
                    0 <= j < ns.skip(1).len() && nvars_node(#[trigger] ns.skip(1)[j]) > i;
                assert(nvars_node(ns[j + 1]) > i);
            }
        }
        if exists|j: int| 0 <= j < ns.len() && nvars_node(#[trigger] ns[j]) > i {
            let j = choose|j: int| 0 <= j < ns.len() && nvars_node(#[trigger] ns[j]) > i;
            if j > 0 {
                assert(ns.skip(1)[j - 1] == ns[j]);
                assert(nvars_node(ns.skip(1)[j - 1]) > i);
            }
        }
    }
}

/// The fold order of a candidate set keeps its length, draws every entry
/// from the candidates, and repeats none when the candidates repeat
/// none.
pub proof fn lemma_order_from_perm(precs: Seq<u32>, cands: Seq<int>)
    ensures
        order_from(precs, cands).len() == cands.len(),
        forall|x: int| #[trigger] order_from(precs, cands).contains(x) ==> cands.contains(x),
        cands.no_duplicates() ==> order_from(precs, cands).no_duplicates(),
    decreases cands.len(),
{
    if cands.len() > 0 {
        let b = best_upto(precs, cands, cands.len() as int);
        lemma_best_upto_bounds(precs, cands, cands.len() as int);
        let rest = cands.remove(b);
        lemma_order_from_perm(precs, rest);
        let ord = order_from(precs, cands);
        assert(ord == seq![cands[b]] + order_from(precs, rest));
        assert forall|x: int| #[trigger] ord.contains(x) implies cands.contains(x) by {
            let j = choose|j: int| 0 <= j < ord.len() && ord[j] == x;
            if j == 0 {
                assert(cands[b] == x);
            } else {
                assert(order_from(precs, rest)[j - 1] == x);
                assert(order_from(precs, rest).contains(x));
                assert(rest.contains(x));
                let m = choose|m: int| 0 <= m < rest.len() && rest[m] == x;
                if m < b {
                    assert(cands[m] == x);
                } else {
                    assert(cands[m + 1] == x);
                }
            }
        }
        if cands.no_duplicates() {
            assert forall|j: int, m: int|
                0 <= j < rest.len() && 0 <= m < rest.len() && j != m implies rest[j]
                != rest[m] by {
                let oj = if j < b { j } else { j + 1 };
                let om = if m < b { m } else { m + 1 };
                assert(rest[j] == cands[oj]);
                assert(rest[m] == cands[om]);
            }
            assert(rest.no_duplicates());
            assert forall|j: int, m: int|
                0 <= j < ord.len() && 0 <= m < ord.len() && j != m implies ord[j] != ord[m] by {
                if j == 0 || m == 0 {
                    let o = if j == 0 { m } else { j };
                    assert(ord[o] == order_from(precs, rest)[o - 1]);
                    assert(order_from(precs, rest).contains(ord[o]));
                    assert(rest.contains(ord[o]));
                    let w = choose|w: int| 0 <= w < rest.len() && rest[w] == ord[o];
                    let ow = if w < b { w } else { w + 1 };
                    assert(rest[w] == cands[ow]);
                    assert(ord[0] == cands[b]);
                    assert(ow != b);
                } else {
                    assert(ord[j] == order_from(precs, rest)[j - 1]);
                    assert(ord[m] == order_from(precs, rest)[m - 1]);
                }
            }
            assert(ord.no_duplicates());
        }
    }
}

/// The full fold order is a duplicate-free permutation of the chain
/// indices, each within range.
pub proof fn lemma_prio_order_perm(precs: Seq<u32>)
    ensures
        prio_order(precs).len() == precs.len(),
        prio_order(precs).no_duplicates(),
        forall|j: int|
            0 <= j < prio_order(precs).len() ==> 0 <= #[trigger] prio_order(precs)[j]
                < precs.len(),
{
    let r = range_seq(precs.len() as int);
    lemma_order_from_perm(precs, r);
    assert(r.no_duplicates());
    assert forall|j: int| 0 <= j < prio_order(precs).len() implies 0 <= #[trigger] prio_order(
        precs,
    )[j] < precs.len() by {
        assert(prio_order(precs).contains(prio_order(precs)[j]));
        assert(r.contains(prio_order(precs)[j]));
        let m = choose|m: int| 0 <= m < r.len() && r[m] == prio_order(precs)[j];
    }
}

/// The kinds of the canonical operator representations, and that the
/// representations are pairwise distinct.
pub proof fn lemma_repr_kinds()
    ensures
        bin_kind_of("+"@) == OpKind::Add,
        bin_kind_of("-"@) == OpKind::Sub,
        bin_kind_of("*"@) == OpKind::Mul,
        bin_kind_of("/"@) == OpKind::Div,
        bin_kind_of("^"@) == OpKind::Pow,
        bin_kind_of("sin"@) == OpKind::Other,
        bin_kind_of("cos"@) == OpKind::Other,
        bin_kind_of("-sin"@) == OpKind::Other,
        bin_kind_of("-cos"@) == OpKind::Other,
        bin_kind_of("ln"@) == OpKind::Other,
        un_kind_of("sin"@) == OpKind::Sin,
        un_kind_of("cos"@) == OpKind::Cos,
        un_kind_of("-sin"@) == OpKind::NegSin,
        un_kind_of("-cos"@) == OpKind::NegCos,
        un_kind_of("ln"@) == OpKind::Ln,
        un_kind_of("-"@) == OpKind::Neg,
        un_kind_of("+"@) == OpKind::UPlus,
        un_kind_of("^"@) == OpKind::Other,
        un_kind_of("*"@) == OpKind::Other,
        un_kind_of("/"@) == OpKind::Other,
{
    reveal_strlit("+");
    reveal_strlit("-");
    reveal_strlit("*");
    reveal_strlit("/");
    reveal_strlit("^");
    reveal_strlit("sin");
    reveal_strlit("cos");
    reveal_strlit("-sin");
    reveal_strlit("-cos");
    reveal_strlit("ln");
    assert("+"@.len() == 1 && "+"@[0] == '+');
    assert("-"@.len() == 1 && "-"@[0] == '-');
    assert("*"@.len() == 1 && "*"@[0] == '*');
    assert("/"@.len() == 1 && "/"@[0] == '/');
    assert("^"@.len() == 1 && "^"@[0] == '^');
    assert("sin"@.len() == 3 && "sin"@[0] == 's');
    assert("cos"@.len() == 3 && "cos"@[0] == 'c');
    assert("-sin"@.len() == 4 && "-sin"@[1] == 's');
    assert("-cos"@.len() == 4 && "-cos"@[1] == 'c');
    assert("ln"@.len() == 2 && "ln"@[0] == 'l');
}

/// A single leaf with no binary chain has the leaf's own term as its
/// core.
pub proof fn lemma_core_single(m: ExprModel)
    requires
        m.nodes.len() == 1,
        m.bins.len() == 0,
    ensures
        core_term(m) == node_term(m.nodes[0]),
{
    lemma_terms_of_index(m.nodes);
    let ps = precs_of(m.bins);
    assert(ps.len() == 0);
    assert(range_seq(0) =~= Seq::<int>::empty());
    assert(order_from(ps, range_seq(0)) =~= Seq::<int>::empty());
    assert(prio_order(ps) =~= Seq::<int>::empty());
    assert(core_term(m) == terms_of(m.nodes)[0]);
}

/// A single leaf with empty chains denotes the leaf's own term.
pub proof fn lemma_term_single(m: ExprModel)
    requires
        m.nodes.len() == 1,
        m.bins.len() == 0,
        m.unops.len() == 0,
    ensures
        term_of(m) == node_term(m.nodes[0]),
{
    lemma_core_single(m);
}

/// Two leaves joined by one binary operator denote that operator applied
/// to the leaves' terms.
pub proof fn lemma_term_pair(m: ExprModel)
    requires
        m.nodes.len() == 2,
        m.bins.len() == 1,
        m.unops.len() == 0,
    ensures
        term_of(m) == Term::Bin(
            bin_kind_of(m.bins[0].repr),
            Box::new(node_term(m.nodes[0])),
            Box::new(node_term(m.nodes[1])),
        ),
{
    lemma_terms_of_index(m.nodes);
    let ps = precs_of(m.bins);
    assert(ps.len() == 1);
    let r = range_seq(1);
    assert(r.len() == 1 && r[0] == 0);
    assert(best_upto(ps, r, 1) == 0);
    assert(r.remove(0) =~= Seq::<int>::empty());
    assert(order_from(ps, r.remove(0)) =~= Seq::<int>::empty());
    assert(order_from(ps, r) =~= seq![0int]);
    let ord = prio_order(ps);
    assert(ord =~= seq![0int]);
    let ts = terms_of(m.nodes);
    let ks = kinds_by(m.bins, ord);
    assert(ks[0] == bin_kind_of(m.bins[0].repr));
    let merged = ts.take(0) + seq![Term::Bin(ks[0], Box::new(ts[0]), Box::new(ts[1]))] + ts.skip(
        2,
    );
    assert(merged =~= seq![Term::Bin(ks[0], Box::new(ts[0]), Box::new(ts[1]))]);
    assert(ks.skip(1) =~= Seq::<OpKind>::empty());
    assert(shrink_pos(ord.skip(1), 0) =~= Seq::<int>::empty());
    assert(merged.len() == 1);
    assert(fold_terms(merged, ks.skip(1), shrink_pos(ord.skip(1), 0)) == merged[0]);
    assert(ord[0] == 0);
    assert(fold_terms(ts, ks, ord) == merged[0]);
}

} // verus!
