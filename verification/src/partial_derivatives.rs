//! The differentiation engine: recursive symbolic partial derivatives
//! over flat expression trees, driven by a per-operator rule table.

use vstd::prelude::*;
use crate::operators::{
    Operator, find_op, lemma_find_opm_matches, lemma_spec_find_op_found, ops_model, str_eq,
};
use crate::deep::{
    DeepEx, DeepNode, DiffError, OverloadedOps, apply_unary, clone_chain, clone_deepex,
    clone_node, clone_nodes, clone_ovops, from_node, is_well_formed, lemma_nodes_model_index,
    model, node_model, nodes_model, pair, uses_var_at_or_beyond, val_one, val_zero,
};
use crate::model::{
    OpKind, Term, bin_kind_of, core_term, deriv_repr, dkind, dterm, find_opm, has_bin_named,
    has_deriv, has_unary_named, lemma_repr_kinds, one_text, outer_fold, overloaded_available,
    ov_wf, pow_ready, term_of, un_diff_ok, un_kind_of, un_kinds, wf_model, wf_node, zero_text,
};

verus! {

/// The closed set of binary derivative rules.
#[derive(Clone, Copy)]
pub enum BinRule {
    /// `f' + g'`
    Sum,
    /// `f' - g'`
    Difference,
    /// `f'*g + f*g'`
    Product,
    /// `(f'*g - f*g') / (g*g)`
    Quotient,
    /// `f^(g-1)*g*f' + f^g*ln(f)*g'`, used unconditionally.
    Power,
}

/// The derivative capabilities of one operator: a binary rule, an
/// outer-derivative target for unary position, or both absent.
pub struct PartialDerivative {
    pub repr: String,
    pub bin_op: Option<BinRule>,
    pub unary_op: Option<String>,
}

/// The first rule-table entry for the given representation, if any.
pub open spec fn spec_find_pd(repr: Seq<char>, t: Seq<PartialDerivative>) -> Option<
    PartialDerivative,
>
    decreases t.len(),
{
    if t.len() == 0 {
        None
    } else if t[0].repr@ == repr {
        Some(t[0])
    } else {
        spec_find_pd(repr, t.skip(1))
    }
}

/// Looks up the derivative capabilities of an operator representation in
/// a rule table; a linear scan returning the first match.
pub fn find_derivative_ops<'a>(
    repr: &str,
    partial_derivative_ops: &'a Vec<PartialDerivative>,
) -> (r: Option<&'a PartialDerivative>)
    ensures
        match r {
            Some(p) => spec_find_pd(repr@, partial_derivative_ops@) == Some(*p),
            None => spec_find_pd(repr@, partial_derivative_ops@) is None,
        },
{
    let mut i: usize = 0;
    proof {
        assert(partial_derivative_ops@.skip(0) =~= partial_derivative_ops@);
    }
    while i < partial_derivative_ops.len()
        invariant
            i <= partial_derivative_ops@.len(),
            spec_find_pd(repr@, partial_derivative_ops@) == spec_find_pd(
                repr@,
                partial_derivative_ops@.skip(i as int),
            ),
        decreases partial_derivative_ops@.len() - i,
    {
        proof {
            assert(partial_derivative_ops@.skip(i as int)[0] == partial_derivative_ops@[i as int]);
        }
        if str_eq(partial_derivative_ops[i].repr.as_str(), repr) {
            return Some(&partial_derivative_ops[i]);
        }
        proof {
            assert(partial_derivative_ops@.skip(i as int).skip(1) =~= partial_derivative_ops@.skip(
                i + 1,
            ));
        }
        i = i + 1;
    }
    None
}

/// Looks an operator up for binary use: found, and carrying a binary
/// function.
pub fn find_as_bin_op_with_reprs(repr: &str, ops: &Vec<Operator>) -> (r: Result<
    Operator,
    DiffError,
>)
    ensures
        r matches Ok(o) ==> find_opm(repr@, ops_model(ops@)) == Some(o.model()) && o.repr@ == repr@
            && o.has_bin,
        (r is Ok) == has_bin_named(ops_model(ops@), repr@),
{
    proof {
        lemma_find_opm_matches(repr@, ops@);
        lemma_spec_find_op_found(repr@, ops@);
    }
    match find_op(repr, ops) {
        None => Err(DiffError::UnsupportedOperator(repr.to_string())),
        Some(o) => if o.has_bin {
            Ok(o)
        } else {
            Err(DiffError::OperatorArityMismatch)
        },
    }
}

/// Looks an operator up for unary use: found, and carrying a unary
/// function.
pub fn find_as_unary_op_with_reprs(repr: &str, ops: &Vec<Operator>) -> (r: Result<
    Operator,
    DiffError,
>)
    ensures
        r matches Ok(o) ==> find_opm(repr@, ops_model(ops@)) == Some(o.model()) && o.repr@ == repr@
            && o.has_unary,
        (r is Ok) == has_unary_named(ops_model(ops@), repr@),
{
    proof {
        lemma_find_opm_matches(repr@, ops@);
        lemma_spec_find_op_found(repr@, ops@);
    }
    match find_op(repr, ops) {
        None => Err(DiffError::UnsupportedOperator(repr.to_string())),
        Some(o) => if o.has_unary {
            Ok(o)
        } else {
            Err(DiffError::OperatorArityMismatch)
        },
    }
}

/// Collects the binary `+`, `-` and `*` from a registry; the record
/// every synthesized constant leaf and derivative combination carries.
pub fn find_overloaded_ops(ops: &Vec<Operator>) -> (r: Option<OverloadedOps>)
    ensures
        r matches Some(ov) ==> ov_wf(ov.model()),
        (r is Some) == overloaded_available(ops_model(ops@)),
{
    let add_op = match find_as_bin_op_with_reprs("+", ops) {
        Ok(o) => o,
        Err(_) => {
            return None;
        },
    };
    let sub_op = match find_as_bin_op_with_reprs("-", ops) {
        Ok(o) => o,
        Err(_) => {
            return None;
        },
    };
    let mul_op = match find_as_bin_op_with_reprs("*", ops) {
        Ok(o) => o,
        Err(_) => {
            return None;
        },
    };
    Some(OverloadedOps { add_op, sub_op, mul_op })
}

/// The shape of the built-in derivative-rule table.
pub open spec fn pd_table_shape(t: Seq<PartialDerivative>) -> bool {
    &&& t.len() == 9
    &&& t[0].repr@ == "^"@ && t[0].bin_op == Some(BinRule::Power) && t[0].unary_op is None
    &&& t[1].repr@ == "+"@ && t[1].bin_op == Some(BinRule::Sum) && t[1].unary_op is None
    &&& t[2].repr@ == "-"@ && t[2].bin_op == Some(BinRule::Difference) && t[2].unary_op is None
    &&& t[3].repr@ == "*"@ && t[3].bin_op == Some(BinRule::Product) && t[3].unary_op is None
    &&& t[4].repr@ == "/"@ && t[4].bin_op == Some(BinRule::Quotient) && t[4].unary_op is None
    &&& t[5].repr@ == "sin"@ && t[5].bin_op is None && (t[5].unary_op matches Some(u) && u@
        == "cos"@)
    &&& t[6].repr@ == "cos"@ && t[6].bin_op is None && (t[6].unary_op matches Some(u) && u@
        == "-sin"@)
    &&& t[7].repr@ == "-sin"@ && t[7].bin_op is None && (t[7].unary_op matches Some(u) && u@
        == "-cos"@)
    &&& t[8].repr@ == "-cos"@ && t[8].bin_op is None && (t[8].unary_op matches Some(u) && u@
        == "sin"@)
}

/// Builds one rule-table entry.
fn mk_pd(repr: &str, bin_op: Option<BinRule>, unary: Option<&str>) -> (r: PartialDerivative)
    ensures
        r.repr@ == repr@,
        r.bin_op == bin_op,
        match unary {
            Some(u) => r.unary_op matches Some(s) && s@ == u@,
            None => r.unary_op is None,
        },
{
    let unary_op = match unary {
        Some(u) => Some(u.to_string()),
        None => None,
    };
    PartialDerivative { repr: repr.to_string(), bin_op, unary_op }
}

/// The built-in derivative rules: the five binary rules the engine
/// mandates, and the outer-derivative mappings of the sine family,
/// closed under repeated differentiation.
pub fn make_partial_derivative_ops() -> (r: Vec<PartialDerivative>)
    ensures
        pd_table_shape(r@),
{
    let mut t: Vec<PartialDerivative> = Vec::new();
    t.push(mk_pd("^", Some(BinRule::Power), None));
    t.push(mk_pd("+", Some(BinRule::Sum), None));
    t.push(mk_pd("-", Some(BinRule::Difference), None));
    t.push(mk_pd("*", Some(BinRule::Product), None));
    t.push(mk_pd("/", Some(BinRule::Quotient), None));
    t.push(mk_pd("sin", None, Some("cos")));
    t.push(mk_pd("cos", None, Some("-sin")));
    t.push(mk_pd("-sin", None, Some("-cos")));
    t.push(mk_pd("-cos", None, Some("sin")));
    t
}

/// What looking a representation up in the built-in table yields.
pub proof fn lemma_pd_lookup(t: Seq<PartialDerivative>, r: Seq<char>)
    requires
        pd_table_shape(t),
    ensures
        spec_find_pd(r, t) == (if r == "^"@ {
            Some(t[0])
        } else if r == "+"@ {
            Some(t[1])
        } else if r == "-"@ {
            Some(t[2])
        } else if r == "*"@ {
            Some(t[3])
        } else if r == "/"@ {
            Some(t[4])
        } else if r == "sin"@ {
            Some(t[5])
        } else if r == "cos"@ {
            Some(t[6])
        } else if r == "-sin"@ {
            Some(t[7])
        } else if r == "-cos"@ {
            Some(t[8])
        } else {
            None::<PartialDerivative>
        }),
{
    assert(t.skip(1).len() == 8 && t.skip(1)[0] == t[1]);
    assert(t.skip(1).skip(1) =~= t.skip(2));
    assert(t.skip(2).len() == 7 && t.skip(2)[0] == t[2]);
    assert(t.skip(2).skip(1) =~= t.skip(3));
    assert(t.skip(3).len() == 6 && t.skip(3)[0] == t[3]);
    assert(t.skip(3).skip(1) =~= t.skip(4));
    assert(t.skip(4).len() == 5 && t.skip(4)[0] == t[4]);
    assert(t.skip(4).skip(1) =~= t.skip(5));
    assert(t.skip(5).len() == 4 && t.skip(5)[0] == t[5]);
    assert(t.skip(5).skip(1) =~= t.skip(6));
    assert(t.skip(6).len() == 3 && t.skip(6)[0] == t[6]);
    assert(t.skip(6).skip(1) =~= t.skip(7));
    assert(t.skip(7).len() == 2 && t.skip(7)[0] == t[7]);
    assert(t.skip(7).skip(1) =~= t.skip(8));
    assert(t.skip(8).len() == 1 && t.skip(8)[0] == t[8]);
    assert(t.skip(8).skip(1) =~= t.skip(9));
    assert(t.skip(9).len() == 0);
    assert(spec_find_pd(r, t.skip(9)) is None);
    assert(spec_find_pd(r, t.skip(8)) == (if r == "-cos"@ {
        Some(t[8])
    } else {
        spec_find_pd(r, t.skip(9))
    }));
    assert(spec_find_pd(r, t.skip(7)) == (if r == "-sin"@ {
        Some(t[7])
    } else {
        spec_find_pd(r, t.skip(8))
    }));
    assert(spec_find_pd(r, t.skip(6)) == (if r == "cos"@ {
        Some(t[6])
    } else {
        spec_find_pd(r, t.skip(7))
    }));
    assert(spec_find_pd(r, t.skip(5)) == (if r == "sin"@ {
        Some(t[5])
    } else {
        spec_find_pd(r, t.skip(6))
    }));
    assert(spec_find_pd(r, t.skip(4)) == (if r == "/"@ {
        Some(t[4])
    } else {
        spec_find_pd(r, t.skip(5))
    }));
    assert(spec_find_pd(r, t.skip(3)) == (if r == "*"@ {
        Some(t[3])
    } else {
        spec_find_pd(r, t.skip(4))
    }));
    assert(spec_find_pd(r, t.skip(2)) == (if r == "-"@ {
        Some(t[2])
    } else {
        spec_find_pd(r, t.skip(3))
    }));
    assert(spec_find_pd(r, t.skip(1)) == (if r == "+"@ {
        Some(t[1])
    } else {
        spec_find_pd(r, t.skip(2))
    }));
    assert(t.skip(0) =~= t);
    assert(spec_find_pd(r, t) == (if r == "^"@ {
        Some(t[0])
    } else {
        spec_find_pd(r, t.skip(1))
    }));
}

/// The local contribution of one binary derivative rule, over the two
/// operand terms and their already-formed derivatives.
pub open spec fn rule_term(rule: BinRule, ft: Term, gt: Term, fdt: Term, gdt: Term) -> Term {
    match rule {
        BinRule::Sum => Term::Bin(OpKind::Add, Box::new(fdt), Box::new(gdt)),
        BinRule::Difference => Term::Bin(OpKind::Sub, Box::new(fdt), Box::new(gdt)),
        BinRule::Product => Term::Bin(
            OpKind::Add,
            Box::new(Term::Bin(OpKind::Mul, Box::new(fdt), Box::new(gt))),
            Box::new(Term::Bin(OpKind::Mul, Box::new(ft), Box::new(gdt))),
        ),
        BinRule::Quotient => Term::Bin(
            OpKind::Div,
            Box::new(
                Term::Bin(
                    OpKind::Sub,
                    Box::new(Term::Bin(OpKind::Mul, Box::new(fdt), Box::new(gt))),
                    Box::new(Term::Bin(OpKind::Mul, Box::new(ft), Box::new(gdt))),
                ),
            ),
            Box::new(Term::Bin(OpKind::Mul, Box::new(gt), Box::new(gt))),
        ),
        BinRule::Power => Term::Bin(
            OpKind::Add,
            Box::new(
                Term::Bin(
                    OpKind::Mul,
                    Box::new(
                        Term::Bin(
                            OpKind::Mul,
                            Box::new(
                                Term::Bin(
                                    OpKind::Pow,
                                    Box::new(ft),
                                    Box::new(
                                        Term::Bin(
                                            OpKind::Sub,
                                            Box::new(gt),
                                            Box::new(Term::Num(one_text())),
                                        ),
                                    ),
                                ),
                            ),
                            Box::new(gt),
                        ),
                    ),
                    Box::new(fdt),
                ),
            ),
            Box::new(
                Term::Bin(
                    OpKind::Mul,
                    Box::new(
                        Term::Bin(
                            OpKind::Mul,
                            Box::new(Term::Bin(OpKind::Pow, Box::new(ft), Box::new(gt))),
                            Box::new(Term::Un(seq![OpKind::Ln], Box::new(ft))),
                        ),
                    ),
                    Box::new(gdt),
                ),
            ),
        ),
    }
}

/// The derivative of a binary application is its rule's contribution
/// over the operands' derivatives.
pub proof fn lemma_dterm_rule(i: nat, k: OpKind, rule: BinRule, ft: Term, gt: Term)
    requires
        k is Add ==> rule is Sum,
        k is Sub ==> rule is Difference,
        k is Mul ==> rule is Product,
        k is Div ==> rule is Quotient,
        k is Pow ==> rule is Power,
        crate::model::bin_rule_kind(k),
    ensures
        dterm(i, Term::Bin(k, Box::new(ft), Box::new(gt))) == rule_term(
            rule,
            ft,
            gt,
            dterm(i, ft),
            dterm(i, gt),
        ),
{
}

/// Applies one binary derivative rule: `fv` and `gv` are the operand
/// value trees, `fd` and `gd` their derivative trees.
fn apply_bin_rule(
    rule: &BinRule,
    chain_op: &Operator,
    fv: &DeepEx,
    gv: &DeepEx,
    fd: DeepEx,
    gd: DeepEx,
    ov: &OverloadedOps,
    ops: &Vec<Operator>,
) -> (r: Result<DeepEx, DiffError>)
    requires
        wf_model(model(*fv)),
        wf_model(model(*gv)),
        wf_model(model(fd)),
        wf_model(model(gd)),
        model(*fv).unops.len() == 0,
        ov_wf(ov.model()),
        rule is Quotient ==> chain_op.repr@ == "/"@ && chain_op.has_bin,
    ensures
        (r is Ok) == (rule is Power ==> pow_ready(ops_model(ops@))),
        r matches Ok(d) ==> wf_model(model(d)) && model(d).ovops == Some(ov.model()) && term_of(
            model(d),
        ) == rule_term(
            *rule,
            term_of(model(*fv)),
            term_of(model(*gv)),
            term_of(model(fd)),
            term_of(model(gd)),
        ),
{
    proof {
        lemma_repr_kinds();
    }
    match rule {
        BinRule::Sum => Ok(pair(&ov.add_op, fd, gd, ov)),
        BinRule::Difference => Ok(pair(&ov.sub_op, fd, gd, ov)),
        BinRule::Product => {
            let left = pair(&ov.mul_op, fd, clone_deepex(gv), ov);
            let right = pair(&ov.mul_op, clone_deepex(fv), gd, ov);
            Ok(pair(&ov.add_op, left, right, ov))
        },
        BinRule::Quotient => {
            let left = pair(&ov.mul_op, fd, clone_deepex(gv), ov);
            let right = pair(&ov.mul_op, clone_deepex(fv), gd, ov);
            let num = pair(&ov.sub_op, left, right, ov);
            let den = pair(&ov.mul_op, clone_deepex(gv), clone_deepex(gv), ov);
            Ok(pair(chain_op, num, den, ov))
        },
        BinRule::Power => {
            let pow_op = match find_as_bin_op_with_reprs("^", ops) {
                Ok(o) => o,
                Err(er) => {
                    return Err(er);
                },
            };
            let ln_op = match find_as_unary_op_with_reprs("ln", ops) {
                Ok(o) => o,
                Err(er) => {
                    return Err(er);
                },
            };
            let one_t = from_node(DeepNode::Num(val_one()), clone_ovops(ov));
            let g_minus_1 = pair(&ov.sub_op, clone_deepex(gv), one_t, ov);
            let f_pow_gm1 = pair(&pow_op, clone_deepex(fv), g_minus_1, ov);
            let t1 = pair(&ov.mul_op, pair(&ov.mul_op, f_pow_gm1, clone_deepex(gv), ov), fd, ov);
            let f_pow_g = pair(&pow_op, clone_deepex(fv), clone_deepex(gv), ov);
            let ln_f = match apply_unary(&ln_op, fv) {
                Ok(x) => x,
                Err(_) => {
                    proof {
                        assert(false);
                    }
                    return Err(DiffError::OperatorArityMismatch);
                },
            };
            proof {
                assert(core_term(model(ln_f)) == core_term(model(*fv)));
                assert(un_kinds(model(ln_f).unops) =~= seq![OpKind::Ln]) by {
                    assert(model(ln_f).unops[0] == ln_op.model());
                }
                assert(term_of(model(ln_f)) == Term::Un(
                    seq![OpKind::Ln],
                    Box::new(term_of(model(*fv))),
                ));
            }
            let t2 = pair(&ov.mul_op, pair(&ov.mul_op, f_pow_g, ln_f, ov), gd, ov);
            Ok(pair(&ov.add_op, t1, t2, ov))
        },
    }
}

/// The outer factor a unary chain contributes: one for the empty chain,
/// then for each chain operator its registered derivative function
/// applied to the tree's original core, multiplied on in chain order.
pub fn partial_derivative_outer(
    e: &DeepEx,
    partial_derivative_ops: &Vec<PartialDerivative>,
    ov: &OverloadedOps,
    ops: &Vec<Operator>,
) -> (r: Result<DeepEx, DiffError>)
    requires
        wf_model(model(*e)),
        ov_wf(ov.model()),
        pd_table_shape(partial_derivative_ops@),
    ensures
        (r is Ok) == (forall|j: int|
            0 <= j < model(*e).unops.len() ==> un_diff_ok(
                un_kind_of((#[trigger] model(*e).unops[j]).repr),
                ops_model(ops@),
            )),
        r matches Ok(d) ==> wf_model(model(d)) && model(d).ovops == Some(ov.model()) && term_of(
            model(d),
        ) == outer_fold(
            Term::Num(one_text()),
            un_kinds(model(*e).unops),
            core_term(model(*e)),
        ),
{
    let ghost ks = un_kinds(model(*e).unops);
    let ghost core = core_term(model(*e));
    let ghost opsm = ops_model(ops@);
    let mut acc = from_node(DeepNode::Num(val_one()), clone_ovops(ov));
    proof {
        assert(ks.len() == e.unary_ops@.len());
        assert(ks.skip(0) =~= ks);
    }
    let mut m: usize = 0;
    while m < e.unary_ops.len()
        invariant
            m <= e.unary_ops@.len(),
            wf_model(model(*e)),
            ov_wf(ov.model()),
            pd_table_shape(partial_derivative_ops@),
            ks == un_kinds(model(*e).unops),
            core == core_term(model(*e)),
            opsm == ops_model(ops@),
            ks.len() == e.unary_ops@.len(),
            wf_model(model(acc)),
            model(acc).ovops == Some(ov.model()),
            outer_fold(Term::Num(one_text()), ks, core) == outer_fold(
                term_of(model(acc)),
                ks.skip(m as int),
                core,
            ),
            forall|j: int| 0 <= j < m ==> un_diff_ok(#[trigger] ks[j], opsm),
        decreases e.unary_ops@.len() - m,
    {
        let ghost uop = model(*e).unops[m as int];
        proof {
            assert(uop == e.unary_ops@[m as int].model());
            assert(ks[m as int] == un_kind_of(uop.repr));
            lemma_pd_lookup(partial_derivative_ops@, uop.repr);
            lemma_repr_kinds();
        }
        let repr = &e.unary_ops[m].repr;
        let entry = match find_derivative_ops(repr.as_str(), partial_derivative_ops) {
            Some(p) => p,
            None => {
                proof {
                    assert(!has_deriv(un_kind_of(uop.repr)));
                    assert(!un_diff_ok(ks[m as int], opsm));
                }
                return Err(DiffError::UnsupportedOperator(repr.clone()));
            },
        };
        let dr = match &entry.unary_op {
            Some(s) => s,
            None => {
                proof {
                    assert(!has_deriv(un_kind_of(uop.repr)));
                    assert(!un_diff_ok(ks[m as int], opsm));
                }
                return Err(DiffError::UnsupportedOperator(repr.clone()));
            },
        };
        proof {
            assert(has_deriv(un_kind_of(uop.repr)));
            assert(dr@ == deriv_repr(un_kind_of(uop.repr)));
        }
        let dop = match find_as_unary_op_with_reprs(dr.as_str(), ops) {
            Ok(o) => o,
            Err(er) => {
                proof {
                    assert(!has_unary_named(opsm, deriv_repr(un_kind_of(uop.repr))));
                    assert(!un_diff_ok(ks[m as int], opsm));
                }
                return Err(er);
            },
        };
        let ghost dopm = dop.model();
        let factor = DeepEx {
            nodes: clone_nodes(&e.nodes),
            bin_ops: clone_chain(&e.bin_ops),
            unary_ops: vec![dop],
            ovops: Some(clone_ovops(ov)),
        };
        proof {
            assert(model(factor).nodes == model(*e).nodes);
            assert(model(factor).bins =~= model(*e).bins);
            assert(factor.unary_ops@.len() == 1);
            assert(model(factor).unops.len() == 1);
            assert(model(factor).unops[0] == dopm);
            assert(core_term(model(factor)) == core);
            assert(un_kinds(model(factor).unops) =~= seq![dkind(ks[m as int])]);
            assert(term_of(model(factor)) == Term::Un(seq![dkind(ks[m as int])], Box::new(core)));
            assert(wf_model(model(factor))) by {
                assert(forall|j: int|
                    0 <= j < model(factor).unops.len() ==> (
                    #[trigger] model(factor).unops[j]).has_unary);
            }
        }
        let ghost acc_t = term_of(model(acc));
        acc = pair(&ov.mul_op, acc, factor, ov);
        proof {
            lemma_repr_kinds();
            assert(ks.skip(m as int)[0] == ks[m as int]);
            assert(ks.skip(m as int).skip(1) =~= ks.skip(m + 1));
            assert(term_of(model(acc)) == Term::Bin(
                OpKind::Mul,
                Box::new(acc_t),
                Box::new(Term::Un(seq![dkind(ks[m as int])], Box::new(core))),
            ));
            assert(outer_fold(acc_t, ks.skip(m as int), core) == outer_fold(
                term_of(model(acc)),
                ks.skip(m + 1),
                core,
            ));
        }
        m = m + 1;
    }
    proof {
        assert(ks.skip(ks.len() as int) =~= Seq::<OpKind>::empty());
        assert(outer_fold(term_of(model(acc)), ks.skip(ks.len() as int), core) == term_of(
            model(acc),
        ));
        assert forall|j: int| 0 <= j < model(*e).unops.len() implies un_diff_ok(
            un_kind_of((#[trigger] model(*e).unops[j]).repr),
            opsm,
        ) by {
            assert(ks[j] == un_kind_of(model(*e).unops[j].repr));
        }
    }
    Ok(acc)
}

/// Whether a rule is the one a binary operator kind calls for.
pub open spec fn rule_fits(rule: BinRule, k: OpKind) -> bool {
    match k {
        OpKind::Add => rule is Sum,
        OpKind::Sub => rule is Difference,
        OpKind::Mul => rule is Product,
        OpKind::Div => rule is Quotient,
        OpKind::Pow => rule is Power,
        _ => false,
    }
}

/// Copies an index vector.
fn copy_indices(v: &Vec<usize>) -> (r: Vec<usize>)
    ensures
        r@ == v@,
{
    let mut out: Vec<usize> = Vec::new();
    let mut i: usize = 0;
    while i < v.len()
        invariant
            i <= v@.len(),
            out@ == v@.take(i as int),
        decreases v@.len() - i,
    {
        out.push(v[i]);
        proof {
            assert(out@ =~= v@.take(i + 1));
        }
        i = i + 1;
    }
    proof {
        assert(v@.take(v@.len() as int) =~= v@);
    }
    out
}

/// The derivative of one leaf: the zero tree for a constant, the one or
/// zero tree for a variable, recursion for a sub-expression, which
/// inherits the caller's registry record.
fn node_derivative(
    i: usize,
    node: &DeepNode,
    partial_derivative_ops: &Vec<PartialDerivative>,
    ov: &OverloadedOps,
    ops: &Vec<Operator>,
) -> (r: Result<DeepEx, DiffError>)
    requires
        wf_node(node_model(*node)),
        ov_wf(ov.model()),
        pd_table_shape(partial_derivative_ops@),
    ensures
        (r is Ok) == crate::model::diff_ok_node(node_model(*node), ops_model(ops@)),
        r matches Ok(d) ==> wf_model(model(d)) && model(d).ovops == Some(ov.model()) && term_of(
            model(d),
        ) == dterm(i as nat, crate::model::node_term(node_model(*node))),
    decreases *node, 0int,
{
    match node {
        DeepNode::Num(_) => Ok(from_node(DeepNode::Num(val_zero()), clone_ovops(ov))),
        DeepNode::Var(v, _) => {
            if *v == i {
                Ok(from_node(DeepNode::Num(val_one()), clone_ovops(ov)))
            } else {
                Ok(from_node(DeepNode::Num(val_zero()), clone_ovops(ov)))
            }
        },
        DeepNode::Expr(b) => partial_rec(i, b, partial_derivative_ops, ov, ops),
    }
}

/// The derivative of a tree's core: leaf derivatives are formed first,
/// then the binary chain is folded in priority order, each step joining
/// the two value trees adjacent to its recorded position and combining
/// their derivatives by the operator's rule, positions beyond the
/// removed leaf shifting down by one.
#[verifier::rlimit(100)]
fn partial_derivative_inner(
    i: usize,
    e: &DeepEx,
    partial_derivative_ops: &Vec<PartialDerivative>,
    ov: &OverloadedOps,
    ops: &Vec<Operator>,
) -> (r: Result<DeepEx, DiffError>)
    requires
        wf_model(model(*e)),
        ov_wf(ov.model()),
        pd_table_shape(partial_derivative_ops@),
    ensures
        (r is Ok) == crate::model::core_diff_ok(model(*e), ops_model(ops@)),
        r matches Ok(d) ==> wf_model(model(d)) && model(d).ovops == Some(ov.model()) && term_of(
            model(d),
        ) == dterm(i as nat, core_term(model(*e))),
    decreases *e, 1int,
{
    let ghost em = model(*e);
    let ghost opsm = ops_model(ops@);
    proof {
        lemma_nodes_model_index(e.nodes@);
        crate::model::lemma_diff_ok_nodes_pointwise(em.nodes, opsm);
        crate::deep::lemma_wf_nodes_pointwise(em.nodes);
    }
    if e.nodes.len() == 1 {
        let d = match node_derivative(i, &e.nodes[0], partial_derivative_ops, ov, ops) {
            Ok(d) => d,
            Err(er) => {
                proof {
                    assert(!crate::model::diff_ok_node(em.nodes[0], opsm));
                }
                return Err(er);
            },
        };
        proof {
            crate::model::lemma_core_single(em);
            assert(crate::model::diff_ok_nodes(em.nodes, opsm));
        }
        return Ok(d);
    }
    // Validate a rule for every chain operator, the power rule's registry
    // needs included.
    let mut rules: Vec<BinRule> = Vec::new();
    let mut j: usize = 0;
    while j < e.bin_ops.len()
        invariant
            em == model(*e),
            opsm == ops_model(ops@),
            wf_model(em),
            ov_wf(ov.model()),
            pd_table_shape(partial_derivative_ops@),
            j <= e.bin_ops@.len(),
            em.bins.len() == e.bin_ops@.len(),
            rules@.len() == j,
            forall|q: int|
                0 <= q < j ==> rule_fits(#[trigger] rules@[q], bin_kind_of(em.bins[q].repr)),
            forall|q: int|
                0 <= q < j ==> (bin_kind_of((#[trigger] em.bins[q]).repr) is Pow ==> pow_ready(
                    opsm,
                )),
        decreases e.bin_ops@.len() - j,
    {
        let ghost bop = em.bins[j as int];
        proof {
            assert(bop == e.bin_ops@[j as int].model());
            lemma_pd_lookup(partial_derivative_ops@, bop.repr);
            lemma_repr_kinds();
        }
        let repr = &e.bin_ops[j].repr;
        let entry = match find_derivative_ops(repr.as_str(), partial_derivative_ops) {
            Some(p) => p,
            None => {
                proof {
                    assert(!crate::model::bin_rule_kind(bin_kind_of(bop.repr)));
                }
                return Err(DiffError::UnsupportedOperator(repr.clone()));
            },
        };
        let rule = match &entry.bin_op {
            Some(rb) => *rb,
            None => {
                proof {
                    assert(!crate::model::bin_rule_kind(bin_kind_of(bop.repr)));
                }
                return Err(DiffError::UnsupportedOperator(repr.clone()));
            },
        };
        let is_power = match rule {
            BinRule::Power => true,
            _ => false,
        };
        if is_power {
            match find_as_bin_op_with_reprs("^", ops) {
                Ok(_) => {},
                Err(er) => {
                    proof {
                        assert(bin_kind_of(bop.repr) is Pow);
                        assert(!pow_ready(opsm));
                    }
                    return Err(er);
                },
            }
            match find_as_unary_op_with_reprs("ln", ops) {
                Ok(_) => {},
                Err(er) => {
                    proof {
                        assert(bin_kind_of(bop.repr) is Pow);
                        assert(!pow_ready(opsm));
                    }
                    return Err(er);
                },
            }
        }
        rules.push(rule);
        proof {
            assert(rule_fits(rule, bin_kind_of(bop.repr)));
        }
        j = j + 1;
    }
    // Leaf values and their derivatives.
    let mut vals: Vec<DeepNode> = Vec::new();
    let mut ders: Vec<DeepEx> = Vec::new();
    let mut j: usize = 0;
    while j < e.nodes.len()
        invariant
            em == model(*e),
            opsm == ops_model(ops@),
            wf_model(em),
            ov_wf(ov.model()),
            pd_table_shape(partial_derivative_ops@),
            j <= e.nodes@.len(),
            em.nodes.len() == e.nodes@.len(),
            vals@.len() == j,
            ders@.len() == j,
            forall|q: int| 0 <= q < j ==> node_model(#[trigger] vals@[q]) == em.nodes[q],
            forall|q: int| 0 <= q < j ==> wf_model(model(#[trigger] ders@[q])),
            forall|q: int|
                0 <= q < j ==> (model(#[trigger] ders@[q])).ovops == Some(ov.model()),
            forall|q: int|
                0 <= q < j ==> term_of(model(#[trigger] ders@[q])) == dterm(
                    i as nat,
                    crate::model::node_term(em.nodes[q]),
                ),
            forall|q: int| 0 <= q < j ==> crate::model::diff_ok_node(#[trigger] em.nodes[q], opsm),
        decreases e.nodes@.len() - j,
    {
        proof {
            lemma_nodes_model_index(e.nodes@);
            crate::deep::lemma_wf_nodes_pointwise(em.nodes);
            assert(em.nodes[j as int] == node_model(e.nodes@[j as int]));
            assert(wf_node(em.nodes[j as int]));
        }
        let d = match node_derivative(i, &e.nodes[j], partial_derivative_ops, ov, ops) {
            Ok(d) => d,
            Err(er) => {
                proof {
                    assert(!crate::model::diff_ok_node(em.nodes[j as int], opsm));
                    crate::model::lemma_diff_ok_nodes_pointwise(em.nodes, opsm);
                    assert(!crate::model::core_diff_ok(em, opsm));
                }
                return Err(er);
            },
        };
        vals.push(clone_node(&e.nodes[j]));
        ders.push(d);
        j = j + 1;
    }
    // The priority fold.
    let prio = crate::prio::prioritized_indices(&e.bin_ops);
    let ghost ps = crate::model::precs_of(em.bins);
    let ghost ord = crate::model::prio_order(ps);
    let ghost nops = e.bin_ops@.len() as int;
    let ghost kseq = Seq::new(ord.len(), |q: int| bin_kind_of(em.bins[ord[q]].repr));
    let ghost t0 = crate::deep::val_terms(vals@);
    proof {
        crate::model::lemma_prio_order_perm(ps);
        assert(ps.len() == nops);
        assert(prio@.map_values(|x: usize| x as int) == ord);
        assert(prio@.len() == ord.len());
        crate::deep::lemma_val_terms_index(vals@);
        lemma_nodes_model_index(vals@);
        lemma_nodes_model_index(e.nodes@);
        assert forall|q: int| 0 <= q < vals@.len() implies #[trigger] nodes_model(vals@)[q]
            == em.nodes[q] by {
            assert(nodes_model(vals@)[q] == node_model(vals@[q]));
        }
        assert(nodes_model(vals@) =~= em.nodes);
        assert(t0 == crate::model::terms_of(em.nodes));
        assert forall|q: int| 0 <= q < ders@.len() implies term_of(
            model(#[trigger] ders@[q]),
        ) == dterm(i as nat, crate::deep::val_terms(vals@)[q]) by {
            assert(crate::deep::val_terms(vals@)[q] == crate::model::node_term(
                node_model(vals@[q]),
            ));
            assert(node_model(vals@[q]) == em.nodes[q]);
        }
        assert(kseq =~= crate::model::kinds_by(em.bins, ord));
        assert(core_term(em) == crate::model::fold_terms(t0, kseq, ord));
        assert(kseq.skip(0) =~= kseq);
        assert(ord.skip(0) =~= ord);
    }
    let mut num_inds = copy_indices(&prio);
    let mut m: usize = 0;
    proof {
        assert(num_inds@.map_values(|x: usize| x as int).skip(0) =~= ord);
    }
    while m < prio.len()
        invariant
            em == model(*e),
            opsm == ops_model(ops@),
            wf_model(em),
            ov_wf(ov.model()),
            pd_table_shape(partial_derivative_ops@),
            em.bins.len() == e.bin_ops@.len(),
            em.nodes.len() == e.nodes@.len(),
            nops == e.bin_ops@.len() as int,
            em.nodes.len() == nops + 1,
            ps == crate::model::precs_of(em.bins),
            ord == crate::model::prio_order(ps),
            ord.len() == nops,
            forall|w: int| 0 <= w < ord.len() ==> 0 <= #[trigger] ord[w] < nops,
            kseq == Seq::new(ord.len(), |q: int| bin_kind_of(em.bins[ord[q]].repr)),
            t0 == crate::model::terms_of(em.nodes),
            core_term(em) == crate::model::fold_terms(t0, kseq, ord),
            prio@.map_values(|x: usize| x as int) == ord,
            prio@.len() == ord.len(),
            rules@.len() == nops,
            forall|q: int|
                0 <= q < nops ==> rule_fits(#[trigger] rules@[q], bin_kind_of(em.bins[q].repr)),
            forall|q: int|
                0 <= q < nops ==> (bin_kind_of((#[trigger] em.bins[q]).repr) is Pow ==> pow_ready(
                    opsm,
                )),
            forall|q: int| 0 <= q < em.nodes.len() ==> crate::model::diff_ok_node(
                #[trigger] em.nodes[q],
                opsm,
            ),
            m <= prio@.len(),
            num_inds@.len() == nops,
            vals@.len() == em.nodes.len() - m,
            ders@.len() == vals@.len(),
            forall|q: int| 0 <= q < vals@.len() ==> wf_node(node_model(#[trigger] vals@[q])),
            forall|q: int| 0 <= q < ders@.len() ==> wf_model(model(#[trigger] ders@[q])),
            forall|q: int|
                0 <= q < ders@.len() ==> (model(#[trigger] ders@[q])).ovops == Some(ov.model()),
            forall|q: int|
                0 <= q < ders@.len() ==> term_of(model(#[trigger] ders@[q])) == dterm(
                    i as nat,
                    crate::deep::val_terms(vals@)[q],
                ),
            ({
                let rem = num_inds@.map_values(|x: usize| x as int).skip(m as int);
                &&& rem.no_duplicates()
                &&& (forall|w: int| 0 <= w < rem.len() ==> 0 <= #[trigger] rem[w] <= vals@.len() - 2)
                &&& crate::model::fold_terms(t0, kseq, ord) == crate::model::fold_terms(
                    crate::deep::val_terms(vals@),
                    kseq.skip(m as int),
                    rem,
                )
            }),
        decreases prio@.len() - m,
    {
        let ghost rem = num_inds@.map_values(|x: usize| x as int).skip(m as int);
        let ghost vt_old = crate::deep::val_terms(vals@);
        let bin_op_idx = prio[m];
        let p = num_inds[m];
        proof {
            assert(rem[0] == p as int);
            assert(rem.len() == nops - m);
            assert(0 <= p as int <= vals@.len() - 2);
            assert(ord[m as int] == bin_op_idx as int);
            assert((bin_op_idx as int) < nops);
            assert(kseq[m as int] == bin_kind_of(em.bins[bin_op_idx as int].repr));
            crate::deep::lemma_val_terms_index(vals@);
        }
        let rule = rules[bin_op_idx];
        let chain_op = &e.bin_ops[bin_op_idx];
        let ghost kind = bin_kind_of(em.bins[bin_op_idx as int].repr);
        proof {
            assert(em.bins[bin_op_idx as int] == e.bin_ops@[bin_op_idx as int].model());
            assert(chain_op.repr@ == em.bins[bin_op_idx as int].repr);
            assert(rule_fits(rule, kind));
            assert(chain_op.has_bin);
            if rule is Quotient {
                assert(kind is Div);
                assert(chain_op.repr@ == "/"@);
            }
        }
        let fv = from_node(clone_node(&vals[p]), clone_ovops(ov));
        let gv = from_node(clone_node(&vals[p + 1]), clone_ovops(ov));
        let ghost ft = vt_old[p as int];
        let ghost gt = vt_old[p as int + 1];
        proof {
            assert(term_of(model(fv)) == ft);
            assert(term_of(model(gv)) == gt);
            assert(wf_model(model(fv)));
            assert(wf_model(model(gv)));
            assert(model(fv).unops.len() == 0);
        }
        let ghost old_ders = ders@;
        let fd = ders.remove(p);
        let gd = ders.remove(p);
        let ghost fdt = term_of(model(fd));
        let ghost gdt = term_of(model(gd));
        proof {
            assert(fd == old_ders[p as int]);
            assert(gd == old_ders[p as int + 1]);
            assert(fdt == dterm(i as nat, ft));
            assert(gdt == dterm(i as nat, gt));
        }
        let d_new = match apply_bin_rule(&rule, chain_op, &fv, &gv, fd, gd, ov, ops) {
            Ok(x) => x,
            Err(er) => {
                proof {
                    assert(rule is Power);
                    assert(kind is Pow);
                    assert(pow_ready(opsm));
                    assert(false);
                }
                return Err(er);
            },
        };
        let val_new = DeepNode::Expr(Box::new(pair(chain_op, fv, gv, ov)));
        let ghost old_vals = vals@;
        vals.set(p, val_new);
        vals.remove(p + 1);
        ders.insert(p, d_new);
        let ghost old_num = num_inds@;
        let mut q: usize = m + 1;
        while q < num_inds.len()
            invariant
                m + 1 <= q,
                q <= num_inds@.len(),
                num_inds@.len() == old_num.len(),
                p == old_num[m as int],
                m < old_num.len(),
                forall|w: int| 0 <= w <= m ==> #[trigger] num_inds@[w] == old_num[w],
                forall|w: int|
                    m + 1 <= w < q ==> #[trigger] num_inds@[w] as int == (if old_num[w] as int
                        > p as int {
                        old_num[w] as int - 1
                    } else {
                        old_num[w] as int
                    }),
                forall|w: int| q <= w < old_num.len() ==> #[trigger] num_inds@[w] == old_num[w],
            decreases num_inds@.len() - q,
        {
            if num_inds[q] > p {
                let x = num_inds[q];
                num_inds.set(q, x - 1);
            }
            q = q + 1;
        }
        proof {
            let vt_new = crate::deep::val_terms(vals@);
            let merged = vt_old.take(p as int) + seq![
                Term::Bin(kseq[m as int], Box::new(ft), Box::new(gt)),
            ] + vt_old.skip(p as int + 2);
            crate::deep::lemma_val_terms_index(old_vals);
            crate::deep::lemma_val_terms_index(vals@);
            assert(vals@ =~= old_vals.update(p as int, val_new).remove(p as int + 1));
            assert(crate::model::node_term(node_model(val_new)) == Term::Bin(
                kseq[m as int],
                Box::new(ft),
                Box::new(gt),
            ));
            assert forall|w: int| 0 <= w < vt_new.len() implies #[trigger] vt_new[w] == merged[w] by {
                if w < p as int {
                    assert(vals@[w] == old_vals[w]);
                } else if w == p as int {
                    assert(vals@[w] == val_new);
                } else {
                    assert(vals@[w] == old_vals[w + 1]);
                }
            }
            assert(vt_new =~= merged);
            assert(crate::model::fold_terms(vt_old, kseq.skip(m as int), rem)
                == crate::model::fold_terms(
                merged,
                kseq.skip(m as int).skip(1),
                crate::model::shrink_pos(rem.skip(1), p as int),
            ));
            assert(kseq.skip(m as int).skip(1) =~= kseq.skip(m + 1));
            let rem_new = num_inds@.map_values(|x: usize| x as int).skip(m + 1);
            assert forall|w: int| 0 <= w < rem_new.len() implies #[trigger] rem_new[w]
                == crate::model::shrink_pos(rem.skip(1), p as int)[w] by {
                assert(rem.skip(1)[w] == old_num[w + m + 1] as int);
                assert(num_inds@[w + m + 1] as int == (if old_num[w + m + 1] as int > p as int {
                    old_num[w + m + 1] as int - 1
                } else {
                    old_num[w + m + 1] as int
                }));
            }
            assert(rem_new =~= crate::model::shrink_pos(rem.skip(1), p as int));
            assert(crate::model::fold_terms(t0, kseq, ord) == crate::model::fold_terms(
                vt_new,
                kseq.skip(m + 1),
                rem_new,
            ));
            // the remaining positions stay distinct and in range
            assert(rem.skip(1).no_duplicates());
            assert forall|w: int| 0 <= w < rem_new.len() implies 0 <= #[trigger] rem_new[w]
                <= vals@.len() - 2 by {
                assert(rem.skip(1)[w] == rem[w + 1]);
                assert(rem[w + 1] != rem[0]);
                assert(0 <= rem[w + 1] <= old_vals.len() - 2);
            }
            assert forall|w1: int, w2: int|
                0 <= w1 < rem_new.len() && 0 <= w2 < rem_new.len() && w1 != w2 implies rem_new[w1]
                != rem_new[w2] by {
                assert(rem.skip(1)[w1] == rem[w1 + 1]);
                assert(rem.skip(1)[w2] == rem[w2 + 1]);
                assert(rem[w1 + 1] != rem[w2 + 1]);
                assert(rem[w1 + 1] != rem[0]);
                assert(rem[w2 + 1] != rem[0]);
            }
            assert(rem_new.no_duplicates());
            // leaf and derivative bookkeeping
            let ghost new_ders = ders@;
            assert(new_ders =~= old_ders.remove(p as int).remove(p as int).insert(
                p as int,
                d_new,
            ));
            assert forall|w: int| 0 <= w < new_ders.len() implies wf_model(
                model(#[trigger] new_ders[w]),
            ) && (model(new_ders[w])).ovops == Some(ov.model()) && term_of(model(new_ders[w]))
                == dterm(i as nat, vt_new[w]) by {
                if w < p as int {
                    assert(new_ders[w] == old_ders[w]);
                    assert(vt_new[w] == vt_old[w]);
                } else if w == p as int {
                    assert(new_ders[w] == d_new);
                    crate::model::lemma_repr_kinds();
                    lemma_dterm_rule(i as nat, kind, rule, ft, gt);
                } else {
                    assert(new_ders[w] == old_ders[w + 1]);
                    assert(vt_new[w] == vt_old[w + 1]);
                }
            }
            assert forall|w: int| 0 <= w < vals@.len() implies wf_node(
                node_model(#[trigger] vals@[w]),
            ) by {
                if w < p as int {
                    assert(vals@[w] == old_vals[w]);
                } else if w == p as int {
                    assert(vals@[w] == val_new);
                } else {
                    assert(vals@[w] == old_vals[w + 1]);
                }
            }
        }
        m = m + 1;
    }
    proof {
        assert(vals@.len() == 1);
        let rem_end = num_inds@.map_values(|x: usize| x as int).skip(m as int);
        assert(rem_end.len() == 0);
        assert(kseq.skip(m as int).len() == 0);
        assert(crate::model::fold_terms(
            crate::deep::val_terms(vals@),
            kseq.skip(m as int),
            rem_end,
        ) == crate::deep::val_terms(vals@)[0]) by {
            crate::deep::lemma_val_terms_index(vals@);
        }
        assert(core_term(em) == crate::deep::val_terms(vals@)[0]);
    }
    let d = match ders.pop() {
        Some(x) => x,
        None => {
            proof {
                assert(false);
            }
            return Err(DiffError::MalformedInputTree);
        },
    };
    proof {
        assert(term_of(model(d)) == dterm(i as nat, core_term(em)));
        crate::model::lemma_diff_ok_nodes_pointwise(em.nodes, opsm);
        assert(crate::model::core_diff_ok(em, opsm)) by {
            assert forall|q: int| 0 <= q < em.bins.len() implies crate::model::bin_rule_kind(
                bin_kind_of((#[trigger] em.bins[q]).repr),
            ) by {
                assert(rule_fits(rules@[q], bin_kind_of(em.bins[q].repr)));
            }
        }
    }
    Ok(d)
}

/// The symbolic partial derivative of a tree with respect to the
/// variable of index `i`, against a caller-supplied registry record:
/// the core's derivative, multiplied — when the unary chain is not
/// empty — by the chain's outer factor.
fn partial_rec(
    i: usize,
    e: &DeepEx,
    partial_derivative_ops: &Vec<PartialDerivative>,
    ov: &OverloadedOps,
    ops: &Vec<Operator>,
) -> (r: Result<DeepEx, DiffError>)
    requires
        wf_model(model(*e)),
        ov_wf(ov.model()),
        pd_table_shape(partial_derivative_ops@),
    ensures
        (r is Ok) == crate::model::diff_ok_model(model(*e), ops_model(ops@)),
        r matches Ok(d) ==> wf_model(model(d)) && model(d).ovops == Some(ov.model()) && term_of(
            model(d),
        ) == dterm(i as nat, term_of(model(*e))),
    decreases *e, 2int,
{
    let ghost em = model(*e);
    let ghost opsm = ops_model(ops@);
    let inner = match partial_derivative_inner(i, e, partial_derivative_ops, ov, ops) {
        Ok(d) => d,
        Err(er) => {
            return Err(er);
        },
    };
    if e.unary_ops.len() == 0 {
        proof {
            assert(term_of(em) == core_term(em));
        }
        Ok(inner)
    } else {
        let outer = match partial_derivative_outer(e, partial_derivative_ops, ov, ops) {
            Ok(d) => d,
            Err(er) => {
                return Err(er);
            },
        };
        let d = pair(&ov.mul_op, inner, outer, ov);
        proof {
            lemma_repr_kinds();
            assert(term_of(em) == Term::Un(un_kinds(em.unops), Box::new(core_term(em))));
            assert(dterm(i as nat, term_of(em)) == Term::Bin(
                OpKind::Mul,
                Box::new(dterm(i as nat, core_term(em))),
                Box::new(outer_fold(Term::Num(one_text()), un_kinds(em.unops), core_term(em))),
            ));
            assert forall|j: int| 0 <= j < em.unops.len() implies un_diff_ok(
                un_kind_of((#[trigger] em.unops[j]).repr),
                opsm,
            ) by {}
        }
        Ok(d)
    }
}

/// The symbolic partial derivative of a tree with respect to the
/// variable of index `i`. The registry must offer binary `+`, `-` and
/// `*`; every chain operator of the tree must have a derivative rule,
/// with `^` and `ln` available where the power rule fires and every
/// unary operator's derivative function registered; and a tree whose
/// own unary chain is not empty must carry a registry record for the
/// outer factor. The input is left untouched; an index beyond the
/// tree's variables is not rejected — such a derivative is zero.
pub fn partial_deepex(i: usize, deepex: &DeepEx, ops: &Vec<Operator>) -> (r: Result<
    DeepEx,
    DiffError,
>)
    ensures
        (r is Ok) == (wf_model(model(*deepex)) && overloaded_available(ops_model(ops@))
            && crate::model::diff_ok_model(model(*deepex), ops_model(ops@)) && (model(
            *deepex,
        ).unops.len() > 0 ==> model(*deepex).ovops is Some)),
        !wf_model(model(*deepex)) ==> r == Err::<DeepEx, DiffError>(DiffError::MalformedInputTree),
        r matches Ok(d) ==> wf_model(model(d)) && model(d).ovops is Some && term_of(model(d))
            == dterm(i as nat, term_of(model(*deepex))),
{
    let ghost em = model(*deepex);
    let ghost opsm = ops_model(ops@);
    if !is_well_formed(deepex) {
        return Err(DiffError::MalformedInputTree);
    }
    let partial_derivative_ops = make_partial_derivative_ops();
    let add_op = match find_as_bin_op_with_reprs("+", ops) {
        Ok(o) => o,
        Err(er) => {
            return Err(er);
        },
    };
    let sub_op = match find_as_bin_op_with_reprs("-", ops) {
        Ok(o) => o,
        Err(er) => {
            return Err(er);
        },
    };
    let mul_op = match find_as_bin_op_with_reprs("*", ops) {
        Ok(o) => o,
        Err(er) => {
            return Err(er);
        },
    };
    let ovp = OverloadedOps { add_op, sub_op, mul_op };
    let inner = match partial_derivative_inner(i, deepex, &partial_derivative_ops, &ovp, ops) {
        Ok(d) => d,
        Err(er) => {
            return Err(er);
        },
    };
    if deepex.unary_ops.len() == 0 {
        proof {
            assert(term_of(em) == core_term(em));
        }
        Ok(inner)
    } else {
        // The spec of the outer factor demands a registry record on the
        // tree itself; synthesis then uses the registry-derived record,
        // as recursion into sub-expressions does.
        match &deepex.ovops {
            Some(_) => {},
            None => {
                return Err(DiffError::RegistryMissing);
            },
        }
        let outer = match partial_derivative_outer(deepex, &partial_derivative_ops, &ovp, ops) {
            Ok(d) => d,
            Err(er) => {
                return Err(er);
            },
        };
        let d = pair(&ovp.mul_op, inner, outer, &ovp);
        proof {
            lemma_repr_kinds();
            assert(term_of(em) == Term::Un(un_kinds(em.unops), Box::new(core_term(em))));
        }
        Ok(d)
    }
}

/// The partial derivative of a tree under range checking: an index at
/// or beyond the tree's variable count is rejected with an error, never
/// a fault.
pub fn partial(i: usize, deepex: &DeepEx, ops: &Vec<Operator>) -> (r: Result<DeepEx, DiffError>)
    ensures
        !wf_model(model(*deepex)) ==> r == Err::<DeepEx, DiffError>(DiffError::MalformedInputTree),
        wf_model(model(*deepex)) && crate::model::nvars_model(model(*deepex)) <= i as nat ==> r
            == Err::<DeepEx, DiffError>(DiffError::VarIdxOutOfRange),
        (r is Ok) == (wf_model(model(*deepex)) && crate::model::nvars_model(model(*deepex))
            > i as nat && overloaded_available(ops_model(ops@)) && crate::model::diff_ok_model(
            model(*deepex),
            ops_model(ops@),
        ) && (model(*deepex).unops.len() > 0 ==> model(*deepex).ovops is Some)),
        r matches Ok(d) ==> wf_model(model(d)) && term_of(model(d)) == dterm(
            i as nat,
            term_of(model(*deepex)),
        ),
{
    if !is_well_formed(deepex) {
        return Err(DiffError::MalformedInputTree);
    }
    if !uses_var_at_or_beyond(deepex, i) {
        return Err(DiffError::VarIdxOutOfRange);
    }
    partial_deepex(i, deepex, ops)
}

// ---------------------------------------------------------------------
// Laws of the symbolic derivative.
// ---------------------------------------------------------------------

/// Law: the derivative of a constant is the constant zero, whatever the
/// variable index.
pub proof fn lemma_derivative_of_constant(i: nat, text: Seq<char>)
    ensures
        dterm(i, Term::Num(text)) == Term::Num(zero_text()),
{
}

/// Law: the derivative of a variable with respect to itself is the
/// constant one; with respect to any other index, the constant zero.
pub proof fn lemma_derivative_of_variable(i: nat, v: nat, name: Seq<char>)
    ensures
        v == i ==> dterm(i, Term::Var(v, name)) == Term::Num(one_text()),
        v != i ==> dterm(i, Term::Var(v, name)) == Term::Num(zero_text()),
{
}

/// Law: a tree holding one constant leaf denotes a constant, and its
/// derivative term is the constant zero for every variable index.
pub proof fn lemma_partial_of_constant_tree(m: crate::model::ExprModel, i: nat, t: Seq<char>)
    requires
        m.nodes == seq![crate::model::NodeModel::Num(t)],
        m.bins.len() == 0,
        m.unops.len() == 0,
    ensures
        dterm(i, term_of(m)) == Term::Num(zero_text()),
{
    crate::model::lemma_term_single(m);
}

/// Law: a tree holding one variable leaf differentiates to the constant
/// one under its own index, and to the constant zero under any other.
pub proof fn lemma_partial_of_variable_tree(
    m: crate::model::ExprModel,
    i: nat,
    v: nat,
    name: Seq<char>,
)
    requires
        m.nodes == seq![crate::model::NodeModel::Var(v, name)],
        m.bins.len() == 0,
        m.unops.len() == 0,
    ensures
        v == i ==> dterm(i, term_of(m)) == Term::Num(one_text()),
        v != i ==> dterm(i, term_of(m)) == Term::Num(zero_text()),
{
    crate::model::lemma_term_single(m);
}

/// Law (sum rule): the derivative of a sum is the sum of the
/// derivatives.
pub proof fn lemma_sum_rule(i: nat, f: Term, g: Term)
    ensures
        dterm(i, Term::Bin(OpKind::Add, Box::new(f), Box::new(g))) == Term::Bin(
            OpKind::Add,
            Box::new(dterm(i, f)),
            Box::new(dterm(i, g)),
        ),
{
}

/// Law (product rule): the derivative of a product is the derivative of
/// each factor multiplied by the other, summed.
pub proof fn lemma_product_rule(i: nat, f: Term, g: Term)
    ensures
        dterm(i, Term::Bin(OpKind::Mul, Box::new(f), Box::new(g))) == Term::Bin(
            OpKind::Add,
            Box::new(Term::Bin(OpKind::Mul, Box::new(dterm(i, f)), Box::new(g))),
            Box::new(Term::Bin(OpKind::Mul, Box::new(f), Box::new(dterm(i, g)))),
        ),
{
}

} // verus!
