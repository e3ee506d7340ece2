//! The flat expression tree: a sequence of leaves, a binary-operator
//! chain linking consecutive leaves, and a unary-operator chain applied
//! outermost-first to the fully reduced result.

use vstd::prelude::*;
use crate::operators::{Operator, OpModel, clone_op, str_eq};
use crate::model::{
    ExprModel, NodeModel, OvModel, Term, lemma_nvars_nodes_exceeds, lemma_term_pair,
    lemma_term_single, bin_kind_of, nvars_model, nvars_node, nvars_nodes, term_of, wf_model,
    wf_node, wf_nodes,
};

verus! {

/// The failure modes of tree construction and differentiation, all
/// returned as values.
#[derive(Debug)]
pub enum DiffError {
    /// An externally supplied tree breaks the shape invariants.
    MalformedInputTree,
    /// An operator representation has no rule or registry entry that the
    /// requested operation needs; the representation is carried along.
    UnsupportedOperator(String),
    /// An operator was used in a position its capabilities do not cover.
    OperatorArityMismatch,
    /// Two combined trees answer to different registries.
    RegistryMismatch,
    /// A tree lacks the registry reference needed to synthesize a
    /// constant leaf.
    RegistryMissing,
    /// The variable index lies outside the tree's variable range.
    VarIdxOutOfRange,
}

/// A numeric constant, held as its canonical literal text; the engine
/// never interprets it, only copies it and synthesizes the two canonical
/// constants `0.0` and `1.0`.
pub struct Val {
    pub text: String,
}

/// Clones a constant, keeping its text.
pub fn clone_val(v: &Val) -> (r: Val)
    ensures
        r == *v,
{
    Val { text: v.text.clone() }
}

/// The constant zero.
pub fn val_zero() -> (r: Val)
    ensures
        r.text@ == crate::model::zero_text(),
{
    Val { text: "0.0".to_string() }
}

/// The constant one.
pub fn val_one() -> (r: Val)
    ensures
        r.text@ == crate::model::one_text(),
{
    Val { text: "1.0".to_string() }
}

/// A leaf of a flat tree.
pub enum DeepNode {
    /// A numeric constant.
    Num(Val),
    /// A variable: its index and its display name.
    Var(usize, String),
    /// An owned sub-expression.
    Expr(Box<DeepEx>),
}

/// The binary `+`, `-` and `*` of a governing registry, carried by a
/// tree so that transformations can synthesize constant leaves and
/// combine results.
pub struct OverloadedOps {
    pub add_op: Operator,
    pub sub_op: Operator,
    pub mul_op: Operator,
}

/// A flat expression tree. Invariants: one more leaf than binary
/// operators, at least one leaf, every chain operator fit for its
/// position, recursively in sub-expressions.
pub struct DeepEx {
    pub nodes: Vec<DeepNode>,
    pub bin_ops: Vec<Operator>,
    pub unary_ops: Vec<Operator>,
    pub ovops: Option<OverloadedOps>,
}

impl OverloadedOps {
    pub open spec fn model(&self) -> OvModel {
        OvModel { add: self.add_op.model(), sub: self.sub_op.model(), mul: self.mul_op.model() }
    }
}

/// The ghost mirror of a leaf.
pub open spec fn node_model(n: DeepNode) -> NodeModel
    decreases n,
{
    match n {
        DeepNode::Num(v) => NodeModel::Num(v.text@),
        DeepNode::Var(i, name) => NodeModel::Var(i as nat, name@),
        DeepNode::Expr(b) => NodeModel::Expr(Box::new(model(*b))),
    }
}

/// The ghost mirrors of a sequence of leaves.
pub open spec fn nodes_model(ns: Seq<DeepNode>) -> Seq<NodeModel>
    decreases ns,
{
    if ns.len() == 0 {
        Seq::empty()
    } else {
        seq![node_model(ns[0])] + nodes_model(ns.skip(1))
    }
}

/// The ghost mirror of a chain of operators.
pub open spec fn chain_model(ops: Seq<Operator>) -> Seq<OpModel> {
    ops.map_values(|o: Operator| o.model())
}

/// The ghost mirror of a tree.
pub open spec fn model(e: DeepEx) -> ExprModel
    decreases e,
{
    ExprModel {
        nodes: nodes_model(e.nodes@),
        bins: chain_model(e.bin_ops@),
        unops: chain_model(e.unary_ops@),
        ovops: match e.ovops {
            Some(ov) => Some(ov.model()),
            None => None,
        },
    }
}

/// The mirror of a leaf sequence has the same length and mirrors each
/// leaf in place.
pub proof fn lemma_nodes_model_index(ns: Seq<DeepNode>)
    ensures
        nodes_model(ns).len() == ns.len(),
        forall|j: int| 0 <= j < ns.len() ==> nodes_model(ns)[j] == node_model(#[trigger] ns[j]),
    decreases ns,
{
    if ns.len() > 0 {
        lemma_nodes_model_index(ns.skip(1));
        assert forall|j: int| 0 <= j < ns.len() implies nodes_model(ns)[j] == node_model(
            #[trigger] ns[j],
        ) by {
            if j > 0 {
                assert(ns.skip(1)[j - 1] == ns[j]);
            }
        }
    }
}

/// Appending one leaf appends its mirror.
pub proof fn lemma_nodes_model_push(ns: Seq<DeepNode>, x: DeepNode)
    ensures
        nodes_model(ns.push(x)) == nodes_model(ns) + seq![node_model(x)],
    decreases ns,
{
    if ns.len() == 0 {
        assert(ns.push(x).len() == 1);
        assert(ns.push(x)[0] == x);
        assert(ns.push(x).skip(1) =~= Seq::<DeepNode>::empty());
        assert(nodes_model(ns.push(x).skip(1)) =~= Seq::<NodeModel>::empty());
        assert(nodes_model(ns) =~= Seq::<NodeModel>::empty());
        assert(nodes_model(ns.push(x)) == seq![node_model(ns.push(x)[0])] + nodes_model(
            ns.push(x).skip(1),
        ));
        assert(nodes_model(ns.push(x)) =~= nodes_model(ns) + seq![node_model(x)]);
    } else {
        assert(ns.push(x)[0] == ns[0]);
        assert(ns.push(x).skip(1) =~= ns.skip(1).push(x));
        lemma_nodes_model_push(ns.skip(1), x);
        assert(nodes_model(ns.push(x)) == seq![node_model(ns.push(x)[0])] + nodes_model(
            ns.push(x).skip(1),
        ));
        assert(nodes_model(ns) == seq![node_model(ns[0])] + nodes_model(ns.skip(1)));
        assert(nodes_model(ns.push(x)) =~= nodes_model(ns) + seq![node_model(x)]);
    }
}

/// Well-formedness of a leaf sequence is pointwise.
pub proof fn lemma_wf_nodes_pointwise(ns: Seq<NodeModel>)
    ensures
        wf_nodes(ns) <==> (forall|j: int| 0 <= j < ns.len() ==> wf_node(#[trigger] ns[j])),
    decreases ns,
{
    if ns.len() > 0 {
        lemma_wf_nodes_pointwise(ns.skip(1));
        assert(forall|j: int| 1 <= j < ns.len() ==> ns.skip(1)[j - 1] == #[trigger] ns[j]);
        if wf_node(ns[0]) && wf_nodes(ns.skip(1)) {
            assert forall|j: int| 0 <= j < ns.len() implies wf_node(#[trigger] ns[j]) by {
                if j > 0 {
                    assert(ns[j] == ns.skip(1)[j - 1]);
                }
            }
        }
    }
}

// ---------------------------------------------------------------------
// Clones.
// ---------------------------------------------------------------------

/// Clones a leaf, keeping its mirror.
pub fn clone_node(n: &DeepNode) -> (r: DeepNode)
    ensures
        node_model(r) == node_model(*n),
    decreases *n,
{
    match n {
        DeepNode::Num(v) => DeepNode::Num(clone_val(v)),
        DeepNode::Var(i, name) => DeepNode::Var(*i, name.clone()),
        DeepNode::Expr(b) => DeepNode::Expr(Box::new(clone_deepex(b))),
    }
}

/// Clones a sequence of leaves, keeping their mirrors.
pub fn clone_nodes(ns: &Vec<DeepNode>) -> (r: Vec<DeepNode>)
    ensures
        nodes_model(r@) == nodes_model(ns@),
    decreases *ns,
{
    let mut out: Vec<DeepNode> = Vec::new();
    let mut i: usize = 0;
    proof {
        assert(ns@.take(0) =~= Seq::<DeepNode>::empty());
    }
    while i < ns.len()
        invariant
            i <= ns@.len(),
            nodes_model(out@) == nodes_model(ns@.take(i as int)),
        decreases ns@.len() - i,
    {
        let ghost prev = out@;
        let c = clone_node(&ns[i]);
        let ghost cg = c;
        out.push(c);
        proof {
            lemma_nodes_model_push(prev, cg);
            lemma_nodes_model_push(ns@.take(i as int), ns@[i as int]);
            assert(ns@.take(i + 1) =~= ns@.take(i as int).push(ns@[i as int]));
            assert(nodes_model(out@) =~= nodes_model(ns@.take(i + 1)));
        }
        i = i + 1;
    }
    proof {
        assert(ns@.take(ns@.len() as int) =~= ns@);
    }
    out
}

/// Clones an operator chain, keeping every entry.
pub fn clone_chain(ops: &Vec<Operator>) -> (r: Vec<Operator>)
    ensures
        r@ == ops@,
{
    let mut out: Vec<Operator> = Vec::new();
    let mut i: usize = 0;
    while i < ops.len()
        invariant
            i <= ops@.len(),
            out@ == ops@.take(i as int),
        decreases ops@.len() - i,
    {
        out.push(clone_op(&ops[i]));
        proof {
            assert(out@ =~= ops@.take(i + 1));
        }
        i = i + 1;
    }
    proof {
        assert(ops@.take(ops@.len() as int) =~= ops@);
    }
    out
}

/// Clones an overloaded-operator record, keeping it whole.
pub fn clone_ovops(ov: &OverloadedOps) -> (r: OverloadedOps)
    ensures
        r == *ov,
{
    OverloadedOps {
        add_op: clone_op(&ov.add_op),
        sub_op: clone_op(&ov.sub_op),
        mul_op: clone_op(&ov.mul_op),
    }
}

/// The terms of a sequence of value leaves.
pub open spec fn val_terms(vs: Seq<DeepNode>) -> Seq<Term> {
    crate::model::terms_of(nodes_model(vs))
}

/// The terms of a leaf sequence, taken pointwise.
pub proof fn lemma_val_terms_index(vs: Seq<DeepNode>)
    ensures
        val_terms(vs).len() == vs.len(),
        forall|q: int|
            0 <= q < vs.len() ==> val_terms(vs)[q] == crate::model::node_term(node_model(
                #[trigger] vs[q],
            )),
{
    lemma_nodes_model_index(vs);
    crate::model::lemma_terms_of_index(nodes_model(vs));
}

// ---------------------------------------------------------------------
// Well-formedness and variable range.
// ---------------------------------------------------------------------

/// Checks the shape invariants of a tree: one more leaf than binary
/// operators, at least one leaf, every chain operator fit for its
/// position, recursively in sub-expressions.
pub fn is_well_formed(e: &DeepEx) -> (r: bool)
    ensures
        r == wf_model(model(*e)),
    decreases *e,
{
    proof {
        lemma_nodes_model_index(e.nodes@);
        lemma_wf_nodes_pointwise(nodes_model(e.nodes@));
    }
    if e.nodes.len() == 0 {
        return false;
    }
    if e.nodes.len() - 1 != e.bin_ops.len() {
        return false;
    }
    let mut j: usize = 0;
    while j < e.bin_ops.len()
        invariant
            j <= e.bin_ops@.len(),
            forall|m: int| 0 <= m < j ==> (#[trigger] e.bin_ops@[m]).has_bin,
        decreases e.bin_ops@.len() - j,
    {
        if !e.bin_ops[j].has_bin {
            proof {
                assert(model(*e).bins[j as int] == e.bin_ops@[j as int].model());
            }
            return false;
        }
        j = j + 1;
    }
    let mut j: usize = 0;
    while j < e.unary_ops.len()
        invariant
            j <= e.unary_ops@.len(),
            forall|m: int| 0 <= m < j ==> (#[trigger] e.unary_ops@[m]).has_unary,
        decreases e.unary_ops@.len() - j,
    {
        if !e.unary_ops[j].has_unary {
            proof {
                assert(model(*e).unops[j as int] == e.unary_ops@[j as int].model());
            }
            return false;
        }
        j = j + 1;
    }
    let mut j: usize = 0;
    while j < e.nodes.len()
        invariant
            j <= e.nodes@.len(),
            forall|m: int| 0 <= m < j ==> wf_node(node_model(#[trigger] e.nodes@[m])),
            forall|m: int| 0 <= m < e.bin_ops@.len() ==> (#[trigger] e.bin_ops@[m]).has_bin,
            forall|m: int| 0 <= m < e.unary_ops@.len() ==> (#[trigger] e.unary_ops@[m]).has_unary,
            e.nodes@.len() == e.bin_ops@.len() + 1,
        decreases e.nodes@.len() - j,
    {
        let ok = match &e.nodes[j] {
            DeepNode::Num(_) => true,
            DeepNode::Var(_, _) => true,
            DeepNode::Expr(b) => is_well_formed(b),
        };
        if !ok {
            proof {
                lemma_nodes_model_index(e.nodes@);
                lemma_wf_nodes_pointwise(nodes_model(e.nodes@));
                assert(nodes_model(e.nodes@)[j as int] == node_model(e.nodes@[j as int]));
                assert(!wf_node(nodes_model(e.nodes@)[j as int]));
            }
            return false;
        }
        j = j + 1;
    }
    proof {
        lemma_nodes_model_index(e.nodes@);
        lemma_wf_nodes_pointwise(nodes_model(e.nodes@));
        assert forall|m: int| 0 <= m < nodes_model(e.nodes@).len() implies wf_node(
            #[trigger] nodes_model(e.nodes@)[m],
        ) by {
            assert(nodes_model(e.nodes@)[m] == node_model(e.nodes@[m]));
        }
        assert forall|m: int| 0 <= m < model(*e).bins.len() implies (
        #[trigger] model(*e).bins[m]).has_bin by {
            assert(model(*e).bins[m] == e.bin_ops@[m].model());
        }
        assert forall|m: int| 0 <= m < model(*e).unops.len() implies (
        #[trigger] model(*e).unops[m]).has_unary by {
            assert(model(*e).unops[m] == e.unary_ops@[m].model());
        }
    }
    true
}

/// Whether the tree uses a variable of index `i` or beyond; exactly when
/// `i` lies below the tree's variable count.
pub fn uses_var_at_or_beyond(e: &DeepEx, i: usize) -> (r: bool)
    ensures
        r == (nvars_model(model(*e)) > i as nat),
    decreases *e,
{
    proof {
        lemma_nodes_model_index(e.nodes@);
        lemma_nvars_nodes_exceeds(nodes_model(e.nodes@), i as nat);
    }
    let mut j: usize = 0;
    while j < e.nodes.len()
        invariant
            j <= e.nodes@.len(),
            forall|m: int|
                0 <= m < j ==> !(nvars_node(node_model(#[trigger] e.nodes@[m])) > i as nat),
        decreases e.nodes@.len() - j,
    {
        let hit = match &e.nodes[j] {
            DeepNode::Num(_) => false,
            DeepNode::Var(v, _) => *v >= i,
            DeepNode::Expr(b) => uses_var_at_or_beyond(b, i),
        };
        if hit {
            proof {
                lemma_nodes_model_index(e.nodes@);
                lemma_nvars_nodes_exceeds(nodes_model(e.nodes@), i as nat);
                assert(nodes_model(e.nodes@)[j as int] == node_model(e.nodes@[j as int]));
                assert(nvars_node(nodes_model(e.nodes@)[j as int]) > i as nat);
            }
            return true;
        }
        j = j + 1;
    }
    proof {
        lemma_nodes_model_index(e.nodes@);
        lemma_nvars_nodes_exceeds(nodes_model(e.nodes@), i as nat);
        assert forall|m: int| 0 <= m < nodes_model(e.nodes@).len() implies !(nvars_node(
            #[trigger] nodes_model(e.nodes@)[m],
        ) > i as nat) by {
            assert(nodes_model(e.nodes@)[m] == node_model(e.nodes@[m]));
        }
    }
    false
}

// ---------------------------------------------------------------------
// Construction.
// ---------------------------------------------------------------------

/// Wraps a single leaf with empty chains: the base case for derivative
/// results, carrying the registry record that later operations need.
pub fn from_node(node: DeepNode, ovops: OverloadedOps) -> (r: DeepEx)
    ensures
        model(r).nodes == seq![node_model(node)],
        model(r).bins =~= Seq::<OpModel>::empty(),
        model(r).unops =~= Seq::<OpModel>::empty(),
        model(r).ovops == Some(ovops.model()),
        term_of(model(r)) == node_term_of(node),
        wf_model(model(r)) == wf_node(node_model(node)),
        nvars_model(model(r)) == nvars_node(node_model(node)),
{
    let ghost nm = node_model(node);
    let mut nodes: Vec<DeepNode> = Vec::new();
    nodes.push(node);
    let r = DeepEx { nodes, bin_ops: Vec::new(), unary_ops: Vec::new(), ovops: Some(ovops) };
    proof {
        assert(r.nodes@ =~= seq![r.nodes@[0]]);
        assert(nodes_model(r.nodes@) =~= seq![nm]) by {
            assert(r.nodes@.skip(1) =~= Seq::<DeepNode>::empty());
        }
        assert(model(r).bins =~= Seq::<OpModel>::empty());
        assert(model(r).unops =~= Seq::<OpModel>::empty());
        lemma_term_single(model(r));
        assert(model(r).nodes.skip(1) =~= Seq::<NodeModel>::empty());
        assert(wf_nodes(model(r).nodes.skip(1)));
        assert(nvars_nodes(model(r).nodes.skip(1)) == 0);
        assert(model(r).nodes[0] == nm);
        assert(wf_nodes(model(r).nodes) == wf_node(nm));
        assert(nvars_nodes(model(r).nodes) == nvars_node(nm));
    }
    r
}

/// The term denoted by a single leaf.
pub open spec fn node_term_of(node: DeepNode) -> Term {
    crate::model::node_term(node_model(node))
}

/// Joins two trees as subexpression leaves around one binary operator:
/// the junction used for every derivative combination, so that operator
/// precedence cannot leak across operand boundaries.
pub fn pair(op: &Operator, f: DeepEx, g: DeepEx, ov: &OverloadedOps) -> (r: DeepEx)
    ensures
        model(r).ovops == Some(ov.model()),
        wf_model(model(r)) == (op.has_bin && wf_model(model(f)) && wf_model(model(g))),
        term_of(model(r)) == Term::Bin(
            bin_kind_of(op.repr@),
            Box::new(term_of(model(f))),
            Box::new(term_of(model(g))),
        ),
{
    let ghost fm = model(f);
    let ghost gm = model(g);
    let mut nodes: Vec<DeepNode> = Vec::new();
    nodes.push(DeepNode::Expr(Box::new(f)));
    nodes.push(DeepNode::Expr(Box::new(g)));
    let mut bin_ops: Vec<Operator> = Vec::new();
    bin_ops.push(clone_op(op));
    let r = DeepEx { nodes, bin_ops, unary_ops: Vec::new(), ovops: Some(clone_ovops(ov)) };
    proof {
        assert(r.nodes@.skip(1) =~= seq![r.nodes@[1]]);
        assert(r.nodes@.skip(1)[0] == r.nodes@[1]);
        assert(r.nodes@.skip(1).skip(1) =~= Seq::<DeepNode>::empty());
        assert(nodes_model(r.nodes@.skip(1).skip(1)) =~= Seq::<NodeModel>::empty());
        assert(nodes_model(r.nodes@.skip(1)) =~= seq![node_model(r.nodes@[1])]);
        assert(node_model(r.nodes@[0]) == NodeModel::Expr(Box::new(fm)));
        assert(node_model(r.nodes@[1]) == NodeModel::Expr(Box::new(gm)));
        assert(nodes_model(r.nodes@) =~= seq![
            NodeModel::Expr(Box::new(fm)),
            NodeModel::Expr(Box::new(gm)),
        ]);
        assert(model(r).bins =~= seq![op.model()]);
        assert(model(r).unops =~= Seq::<OpModel>::empty());
        lemma_term_pair(model(r));
        lemma_wf_nodes_pointwise(model(r).nodes);
        assert(model(r).nodes[0] == NodeModel::Expr(Box::new(fm)));
        assert(model(r).nodes[1] == NodeModel::Expr(Box::new(gm)));
    }
    r
}

/// Concatenating leaf sequences concatenates their mirrors.
pub proof fn lemma_nodes_model_concat(a: Seq<DeepNode>, b: Seq<DeepNode>)
    ensures
        nodes_model(a + b) == nodes_model(a) + nodes_model(b),
    decreases a,
{
    if a.len() == 0 {
        assert(a + b =~= b);
        assert(nodes_model(a) =~= Seq::<NodeModel>::empty());
        assert(nodes_model(a + b) =~= nodes_model(a) + nodes_model(b));
    } else {
        assert((a + b)[0] == a[0]);
        assert((a + b).skip(1) =~= a.skip(1) + b);
        lemma_nodes_model_concat(a.skip(1), b);
        assert(nodes_model(a + b) == seq![node_model((a + b)[0])] + nodes_model((a + b).skip(1)));
        assert(nodes_model(a) == seq![node_model(a[0])] + nodes_model(a.skip(1)));
        assert(nodes_model(a + b) =~= nodes_model(a) + nodes_model(b));
    }
}

/// Whether two operators are the same registry entry.
pub fn op_model_eq(a: &Operator, b: &Operator) -> (r: bool)
    ensures
        r == (a.model() == b.model()),
{
    let same = str_eq(a.repr.as_str(), b.repr.as_str()) && a.has_bin == b.has_bin && a.has_unary
        == b.has_unary && a.prec == b.prec;
    same
}

/// Whether two overloaded-operator records resolve to the same registry.
pub fn ovops_model_eq(a: &OverloadedOps, b: &OverloadedOps) -> (r: bool)
    ensures
        r == (a.model() == b.model()),
{
    op_model_eq(&a.add_op, &b.add_op) && op_model_eq(&a.sub_op, &b.sub_op) && op_model_eq(
        &a.mul_op,
        &b.mul_op,
    )
}

/// The leaves a tree contributes when it stands as one operand of a
/// combination: its own leaves, unless a unary chain forces it whole
/// into a single subexpression leaf.
pub open spec fn operand_nodes(m: ExprModel) -> Seq<NodeModel> {
    if m.unops.len() == 0 {
        m.nodes
    } else {
        seq![NodeModel::Expr(Box::new(m))]
    }
}

/// The binary chain a tree contributes as one operand of a combination.
pub open spec fn operand_bins(m: ExprModel) -> Seq<OpModel> {
    if m.unops.len() == 0 {
        m.bins
    } else {
        Seq::empty()
    }
}

/// Whether two registry records can govern one combined tree.
pub open spec fn ovops_compatible(a: Option<OvModel>, b: Option<OvModel>) -> bool {
    match (a, b) {
        (Some(x), Some(y)) => x == y,
        _ => true,
    }
}

/// The registry record a combined tree carries.
pub open spec fn merged_ovops(a: Option<OvModel>, b: Option<OvModel>) -> Option<OvModel> {
    match a {
        Some(x) => Some(x),
        None => b,
    }
}

/// Turns a tree into the leaves and chain it contributes as an operand.
fn operand_parts(e: &DeepEx) -> (r: (Vec<DeepNode>, Vec<Operator>))
    ensures
        nodes_model(r.0@) == operand_nodes(model(*e)),
        chain_model(r.1@) == operand_bins(model(*e)),
{
    if e.unary_ops.len() == 0 {
        (clone_nodes(&e.nodes), clone_chain(&e.bin_ops))
    } else {
        let mut ns: Vec<DeepNode> = Vec::new();
        ns.push(DeepNode::Expr(Box::new(clone_deepex(e))));
        proof {
            assert(ns@.skip(1) =~= Seq::<DeepNode>::empty());
            assert(nodes_model(ns@.skip(1)) =~= Seq::<NodeModel>::empty());
            assert(node_model(ns@[0]) == NodeModel::Expr(Box::new(model(*e))));
            assert(nodes_model(ns@) =~= seq![NodeModel::Expr(Box::new(model(*e)))]);
            assert(chain_model(Seq::<Operator>::empty()) =~= Seq::<OpModel>::empty());
        }
        (ns, Vec::new())
    }
}

/// Concatenates the leaves of two trees around one binary operator; an
/// operand carrying a unary chain first becomes a single subexpression
/// leaf, so its chain stays intact. Both operands must answer to the
/// same registry.
pub fn combine(op: &Operator, left: &DeepEx, right: &DeepEx) -> (r: Result<DeepEx, DiffError>)
    ensures
        !op.has_bin ==> r == Err::<DeepEx, DiffError>(DiffError::OperatorArityMismatch),
        op.has_bin && !ovops_compatible(model(*left).ovops, model(*right).ovops) ==> r == Err::<
            DeepEx,
            DiffError,
        >(DiffError::RegistryMismatch),
        op.has_bin && ovops_compatible(model(*left).ovops, model(*right).ovops) ==> (r matches Ok(
            c,
        ) && model(c).nodes == operand_nodes(model(*left)) + operand_nodes(model(*right)) && model(
            c,
        ).bins == operand_bins(model(*left)) + seq![op.model()] + operand_bins(model(*right))
            && model(c).unops =~= Seq::<OpModel>::empty() && model(c).ovops == merged_ovops(
            model(*left).ovops,
            model(*right).ovops,
        ) && (wf_model(model(*left)) && wf_model(model(*right)) ==> wf_model(model(c)))),
{
    if !op.has_bin {
        return Err(DiffError::OperatorArityMismatch);
    }
    match (&left.ovops, &right.ovops) {
        (Some(a), Some(b)) => {
            if !ovops_model_eq(a, b) {
                return Err(DiffError::RegistryMismatch);
            }
        },
        _ => {},
    }
    let ovops = match (&left.ovops, &right.ovops) {
        (Some(a), _) => Some(clone_ovops(a)),
        (None, Some(b)) => Some(clone_ovops(b)),
        (None, None) => None,
    };
    let (mut nodes, mut bins) = operand_parts(left);
    let (mut rn, mut rb) = operand_parts(right);
    let ghost ln_m = nodes_model(nodes@);
    let ghost lb_m = chain_model(bins@);
    let ghost rn_m = nodes_model(rn@);
    let ghost rb_m = chain_model(rb@);
    proof {
        lemma_nodes_model_concat(nodes@, rn@);
    }
    nodes.append(&mut rn);
    bins.push(clone_op(op));
    proof {
        assert(chain_model(bins@) =~= lb_m + seq![op.model()]);
    }
    bins.append(&mut rb);
    proof {
        assert(chain_model(bins@) =~= lb_m + seq![op.model()] + rb_m);
    }
    let c = DeepEx { nodes, bin_ops: bins, unary_ops: Vec::new(), ovops };
    proof {
        assert(model(c).nodes == ln_m + rn_m);
        assert(model(c).unops =~= Seq::<OpModel>::empty());
        if wf_model(model(*left)) && wf_model(model(*right)) {
            lemma_wf_nodes_pointwise(model(*left).nodes);
            lemma_wf_nodes_pointwise(model(*right).nodes);
            lemma_wf_nodes_pointwise(model(c).nodes);
            assert forall|m: int| 0 <= m < model(c).nodes.len() implies wf_node(
                #[trigger] model(c).nodes[m],
            ) by {
                if m < ln_m.len() {
                    assert(model(c).nodes[m] == ln_m[m]);
                    if model(*left).unops.len() == 0 {
                        assert(ln_m[m] == model(*left).nodes[m]);
                    }
                } else {
                    assert(model(c).nodes[m] == rn_m[m - ln_m.len()]);
                    if model(*right).unops.len() == 0 {
                        assert(rn_m[m - ln_m.len()] == model(*right).nodes[m - ln_m.len()]);
                    }
                }
            }
            assert forall|m: int| 0 <= m < model(c).bins.len() implies (
            #[trigger] model(c).bins[m]).has_bin by {
                if m < lb_m.len() {
                    assert(model(c).bins[m] == lb_m[m]);
                    assert(lb_m[m] == model(*left).bins[m]);
                } else if m == lb_m.len() {
                    assert(model(c).bins[m] == op.model());
                } else {
                    assert(model(c).bins[m] == rb_m[m - lb_m.len() - 1]);
                    assert(rb_m[m - lb_m.len() - 1] == model(*right).bins[m - lb_m.len() - 1]);
                }
            }
        }
    }
    Ok(c)
}

/// What joining two trees with the given overloaded operator must
/// yield: the shape [`combine`] promises, or its error.
pub open spec fn sugar_post(
    r: Result<DeepEx, DiffError>,
    lm: ExprModel,
    rm: ExprModel,
    op: OpModel,
) -> bool {
    &&& !op.has_bin ==> r == Err::<DeepEx, DiffError>(DiffError::OperatorArityMismatch)
    &&& op.has_bin && !ovops_compatible(lm.ovops, rm.ovops) ==> r == Err::<DeepEx, DiffError>(
        DiffError::RegistryMismatch,
    )
    &&& op.has_bin && ovops_compatible(lm.ovops, rm.ovops) ==> (r matches Ok(c) && model(c).nodes
        == operand_nodes(lm) + operand_nodes(rm) && model(c).bins == operand_bins(lm) + seq![op]
        + operand_bins(rm) && model(c).unops =~= Seq::<OpModel>::empty() && model(c).ovops
        == merged_ovops(lm.ovops, rm.ovops) && (wf_model(lm) && wf_model(rm) ==> wf_model(
        model(c),
    )))
}

impl DeepEx {
    /// Joins two trees with the registries' binary `+`; sugar over
    /// [`combine`], drawing the operator from whichever operand carries
    /// a registry record.
    pub fn plus(&self, other: &DeepEx) -> (r: Result<DeepEx, DiffError>)
        ensures
            model(*self).ovops is None && model(*other).ovops is None ==> r == Err::<
                DeepEx,
                DiffError,
            >(DiffError::RegistryMissing),
            merged_ovops(model(*self).ovops, model(*other).ovops) matches Some(ovm)
                ==> sugar_post(r, model(*self), model(*other), ovm.add),
    {
        let ov = match (&self.ovops, &other.ovops) {
            (Some(o), _) => o,
            (None, Some(o)) => o,
            (None, None) => {
                return Err(DiffError::RegistryMissing);
            },
        };
        combine(&ov.add_op, self, other)
    }

    /// Joins two trees with the registries' binary `-`; sugar over
    /// [`combine`].
    pub fn minus(&self, other: &DeepEx) -> (r: Result<DeepEx, DiffError>)
        ensures
            model(*self).ovops is None && model(*other).ovops is None ==> r == Err::<
                DeepEx,
                DiffError,
            >(DiffError::RegistryMissing),
            merged_ovops(model(*self).ovops, model(*other).ovops) matches Some(ovm)
                ==> sugar_post(r, model(*self), model(*other), ovm.sub),
    {
        let ov = match (&self.ovops, &other.ovops) {
            (Some(o), _) => o,
            (None, Some(o)) => o,
            (None, None) => {
                return Err(DiffError::RegistryMissing);
            },
        };
        combine(&ov.sub_op, self, other)
    }

    /// Joins two trees with the registries' binary `*`; sugar over
    /// [`combine`].
    pub fn times(&self, other: &DeepEx) -> (r: Result<DeepEx, DiffError>)
        ensures
            model(*self).ovops is None && model(*other).ovops is None ==> r == Err::<
                DeepEx,
                DiffError,
            >(DiffError::RegistryMissing),
            merged_ovops(model(*self).ovops, model(*other).ovops) matches Some(ovm)
                ==> sugar_post(r, model(*self), model(*other), ovm.mul),
    {
        let ov = match (&self.ovops, &other.ovops) {
            (Some(o), _) => o,
            (None, Some(o)) => o,
            (None, None) => {
                return Err(DiffError::RegistryMissing);
            },
        };
        combine(&ov.mul_op, self, other)
    }
}

/// Prepends a unary operator, which must carry a unary function, to a
/// tree's unary chain.
pub fn apply_unary(op: &Operator, e: &DeepEx) -> (r: Result<DeepEx, DiffError>)
    ensures
        !op.has_unary ==> r == Err::<DeepEx, DiffError>(DiffError::OperatorArityMismatch),
        op.has_unary ==> (r matches Ok(c) && model(c).nodes == model(*e).nodes && model(c).bins
            == model(*e).bins && model(c).unops == seq![op.model()] + model(*e).unops && model(
            c,
        ).ovops == model(*e).ovops && (wf_model(model(*e)) ==> wf_model(model(c)))),
{
    if !op.has_unary {
        return Err(DiffError::OperatorArityMismatch);
    }
    let mut unary_ops: Vec<Operator> = Vec::new();
    unary_ops.push(clone_op(op));
    let mut rest = clone_chain(&e.unary_ops);
    unary_ops.append(&mut rest);
    let c = DeepEx {
        nodes: clone_nodes(&e.nodes),
        bin_ops: clone_chain(&e.bin_ops),
        unary_ops,
        ovops: match &e.ovops {
            Some(ov) => Some(clone_ovops(ov)),
            None => None,
        },
    };
    proof {
        assert(model(c).unops =~= seq![op.model()] + model(*e).unops);
        if wf_model(model(*e)) {
            assert forall|m: int| 0 <= m < model(c).unops.len() implies (
            #[trigger] model(c).unops[m]).has_unary by {
                if m == 0 {
                    assert(model(c).unops[0] == op.model());
                } else {
                    assert(model(c).unops[m] == model(*e).unops[m - 1]);
                }
            }
        }
    }
    Ok(c)
}

/// Assembles a tree from its parts, surfacing a shape violation at once.
pub fn new_deepex(
    nodes: Vec<DeepNode>,
    bin_ops: Vec<Operator>,
    unary_ops: Vec<Operator>,
    ovops: Option<OverloadedOps>,
) -> (r: Result<DeepEx, DiffError>)
    ensures
        ({
            let m = ExprModel {
                nodes: nodes_model(nodes@),
                bins: chain_model(bin_ops@),
                unops: chain_model(unary_ops@),
                ovops: match ovops {
                    Some(ov) => Some(ov.model()),
                    None => None,
                },
            };
            if wf_model(m) {
                r matches Ok(c) && model(c) == m
            } else {
                r == Err::<DeepEx, DiffError>(DiffError::MalformedInputTree)
            }
        }),
{
    let e = DeepEx { nodes, bin_ops, unary_ops, ovops };
    if is_well_formed(&e) {
        Ok(e)
    } else {
        Err(DiffError::MalformedInputTree)
    }
}

/// Clones a tree, keeping its mirror.
pub fn clone_deepex(e: &DeepEx) -> (r: DeepEx)
    ensures
        model(r) == model(*e),
    decreases *e,
{
    let nodes = clone_nodes(&e.nodes);
    let bin_ops = clone_chain(&e.bin_ops);
    let unary_ops = clone_chain(&e.unary_ops);
    let ovops = match &e.ovops {
        Some(ov) => Some(clone_ovops(ov)),
        None => None,
    };
    let r = DeepEx { nodes, bin_ops, unary_ops, ovops };
    proof {
        assert(model(r) =~= model(*e));
    }
    r
}

} // verus!
