//! Textual rendering of expression trees: the canonical text that
//! round-trips through a parser. Leaves are interleaved with the binary
//! chain's representations; a variable shows as `{name}`, a
//! sub-expression in parentheses; each unary operator wraps the whole
//! in `repr(...)`, outermost first.

use vstd::prelude::*;
use crate::operators::OpModel;
use crate::model::{ExprModel, NodeModel, wf_model, wf_node};
use crate::deep::{DeepEx, DeepNode, model, node_model, lemma_nodes_model_index};

verus! {

/// The text of one leaf.
pub open spec fn render_node(n: NodeModel) -> Seq<char>
    decreases n, 2int,
{
    match n {
        NodeModel::Num(t) => t,
        NodeModel::Var(_, name) => "{"@ + name + "}"@,
        NodeModel::Expr(b) => "("@ + render_model(*b) + ")"@,
    }
}

/// Leaf texts interleaved with the binary chain's representations.
pub open spec fn render_interleave(ns: Seq<NodeModel>, bins: Seq<OpModel>) -> Seq<char>
    decreases ns, 0int,
{
    if ns.len() == 0 {
        Seq::empty()
    } else if ns.len() == 1 {
        render_node(ns[0])
    } else {
        render_node(ns[0]) + bins[0].repr + render_interleave(ns.skip(1), bins.skip(1))
    }
}

/// A core text wrapped by a unary chain, outermost first.
pub open spec fn render_unary(unops: Seq<OpModel>, core: Seq<char>) -> Seq<char>
    decreases unops.len(),
{
    if unops.len() == 0 {
        core
    } else {
        unops[0].repr + "("@ + render_unary(unops.skip(1), core) + ")"@
    }
}

/// The canonical text of a tree.
pub open spec fn render_model(m: ExprModel) -> Seq<char>
    decreases m, 1int,
{
    render_unary(m.unops, render_interleave(m.nodes, m.bins))
}

/// The text of one leaf.
fn unparse_node(n: &DeepNode) -> (r: String)
    requires
        wf_node(node_model(*n)),
    ensures
        r@ == render_node(node_model(*n)),
    decreases *n, 2int,
{
    match n {
        DeepNode::Num(v) => v.text.clone(),
        DeepNode::Var(_, name) => {
            let mut s = "{".to_string();
            s.append(name.as_str());
            s.append("}");
            s
        },
        DeepNode::Expr(b) => {
            let mut s = "(".to_string();
            let inner = unparse(b);
            s.append(inner.as_str());
            s.append(")");
            s
        },
    }
}

/// The text of a tree's core: leaves interleaved with the binary chain.
fn unparse_core(e: &DeepEx) -> (r: String)
    requires
        wf_model(model(*e)),
    ensures
        r@ == render_interleave(model(*e).nodes, model(*e).bins),
    decreases *e, 1int,
{
    let ghost em = model(*e);
    proof {
        lemma_nodes_model_index(e.nodes@);
        crate::deep::lemma_wf_nodes_pointwise(em.nodes);
        assert(em.nodes.skip(0) =~= em.nodes);
        assert(em.bins.skip(0) =~= em.bins);
    }
    let mut out = String::new();
    let mut j: usize = 0;
    while j < e.nodes.len()
        invariant
            em == model(*e),
            wf_model(em),
            em.nodes.len() == e.nodes@.len(),
            em.bins.len() == e.bin_ops@.len(),
            em.nodes.len() == em.bins.len() + 1,
            j <= e.nodes@.len(),
            out@ + render_interleave(em.nodes.skip(j as int), em.bins.skip(j as int))
                == render_interleave(em.nodes, em.bins),
        decreases e.nodes@.len() - j,
    {
        proof {
            lemma_nodes_model_index(e.nodes@);
            crate::deep::lemma_wf_nodes_pointwise(em.nodes);
            assert(em.nodes.skip(j as int)[0] == em.nodes[j as int]);
            assert(em.nodes.skip(j as int).skip(1) =~= em.nodes.skip(j + 1));
        }
        let piece = unparse_node(&e.nodes[j]);
        out.append(piece.as_str());
        if j < e.nodes.len() - 1 {
            proof {
                assert(em.bins.skip(j as int).skip(1) =~= em.bins.skip(j + 1));
                assert(em.bins.skip(j as int)[0] == em.bins[j as int]);
                assert(em.bins[j as int] == e.bin_ops@[j as int].model());
            }
            out.append(e.bin_ops[j].repr.as_str());
        } else {
            proof {
                assert(em.nodes.skip(j as int).len() == 1);
            }
        }
        j = j + 1;
    }
    proof {
        assert(em.nodes.skip(em.nodes.len() as int) =~= Seq::<NodeModel>::empty());
        assert(render_interleave(
            em.nodes.skip(em.nodes.len() as int),
            em.bins.skip(em.nodes.len() as int),
        ) =~= Seq::<char>::empty());
        assert(out@ =~= out@ + Seq::<char>::empty());
    }
    out
}

/// A core text wrapped by the unary chain from position `m` on.
fn unparse_wrap(e: &DeepEx, m: usize, core: &String) -> (r: String)
    requires
        m <= e.unary_ops@.len(),
    ensures
        r@ == render_unary(model(*e).unops.skip(m as int), core@),
    decreases e.unary_ops@.len() - m,
{
    let ghost em = model(*e);
    if m == e.unary_ops.len() {
        proof {
            assert(em.unops.skip(m as int) =~= Seq::<OpModel>::empty());
        }
        core.clone()
    } else {
        let rest = unparse_wrap(e, m + 1, core);
        let mut s = e.unary_ops[m].repr.clone();
        s.append("(");
        s.append(rest.as_str());
        s.append(")");
        proof {
            assert(em.unops.skip(m as int)[0] == em.unops[m as int]);
            assert(em.unops[m as int] == e.unary_ops@[m as int].model());
            assert(em.unops.skip(m as int).skip(1) =~= em.unops.skip(m + 1));
        }
        s
    }
}

/// The canonical text of a tree, sufficient to rebuild it by parsing:
/// what a serializer hands out for any tree the engine produces.
pub fn unparse(e: &DeepEx) -> (r: String)
    requires
        wf_model(model(*e)),
    ensures
        r@ == render_model(model(*e)),
    decreases *e, 3int,
{
    proof {
        assert(model(*e).unops.skip(0) =~= model(*e).unops);
    }
    let core = unparse_core(e);
    unparse_wrap(e, 0, &core)
}

} // verus!
