use exmex::deep::{
    clone_deepex, combine, from_node, new_deepex, DeepEx, DeepNode, DiffError, OverloadedOps, Val,
};
use exmex::operators::{find_op, make_default_operators, Operator};
use exmex::partial_derivatives::{
    find_as_bin_op_with_reprs, find_as_unary_op_with_reprs, find_derivative_ops,
    find_overloaded_ops, make_partial_derivative_ops, partial, partial_deepex,
    partial_derivative_outer,
};
use exmex::prio::prioritized_indices;
use exmex::render::unparse;

// ------------------------------------------------------------------
// Helpers: building trees, evaluating them numerically, parsing the
// canonical rendering back. Evaluation and parsing are the external
// collaborators of the library; these fixtures stand in for them.
// ------------------------------------------------------------------

fn default_ops() -> Vec<Operator> {
    make_default_operators()
}

fn default_ov(ops: &Vec<Operator>) -> OverloadedOps {
    find_overloaded_ops(ops).unwrap()
}

fn num(x: f64) -> DeepNode {
    DeepNode::Num(Val {
        text: format!("{:?}", x),
    })
}

fn var(i: usize, name: &str) -> DeepNode {
    DeepNode::Var(i, name.to_string())
}

fn op(repr: &str, ops: &Vec<Operator>) -> Operator {
    find_op(repr, ops).unwrap()
}

fn leaf(node: DeepNode, ops: &Vec<Operator>) -> DeepEx {
    from_node(node, default_ov(ops))
}

fn chain(nodes: Vec<DeepNode>, bins: Vec<Operator>, uns: Vec<Operator>, ops: &Vec<Operator>) -> DeepEx {
    new_deepex(nodes, bins, uns, Some(default_ov(ops))).unwrap()
}

fn apply_bin(repr: &str, a: f64, b: f64) -> f64 {
    match repr {
        "+" => a + b,
        "-" => a - b,
        "*" => a * b,
        "/" => a / b,
        "^" => a.powf(b),
        other => panic!("no binary function for {}", other),
    }
}

fn apply_un(repr: &str, a: f64) -> f64 {
    match repr {
        "+" => a,
        "-" => -a,
        "sin" => a.sin(),
        "cos" => a.cos(),
        "-sin" => -a.sin(),
        "-cos" => -a.cos(),
        "ln" => a.ln(),
        other => panic!("no unary function for {}", other),
    }
}

fn eval_node(n: &DeepNode, vars: &[f64]) -> f64 {
    match n {
        DeepNode::Num(v) => v.text.parse::<f64>().unwrap(),
        DeepNode::Var(i, _) => vars[*i],
        DeepNode::Expr(b) => eval_tree(b, vars),
    }
}

fn eval_tree(e: &DeepEx, vars: &[f64]) -> f64 {
    let mut vals: Vec<f64> = e.nodes.iter().map(|n| eval_node(n, vars)).collect();
    let prio = prioritized_indices(&e.bin_ops);
    let mut num_inds = prio.clone();
    for m in 0..prio.len() {
        let p = num_inds[m];
        let r = apply_bin(&e.bin_ops[prio[m]].repr, vals[p], vals[p + 1]);
        vals[p] = r;
        vals.remove(p + 1);
        for q in num_inds.iter_mut() {
            if *q > p {
                *q -= 1;
            }
        }
    }
    let mut v = vals[0];
    for u in e.unary_ops.iter().rev() {
        v = apply_un(&u.repr, v);
    }
    v
}

fn assert_float_eq_f64(a: f64, b: f64) {
    assert!(
        (a - b).abs() < 1e-9,
        "floats differ: {} vs {}",
        a,
        b
    );
}

struct Parser<'a> {
    text: &'a [u8],
    pos: usize,
    vars: Vec<(String, usize)>,
    ops: Vec<Operator>,
}

impl<'a> Parser<'a> {
    fn starts_with(&self, s: &str) -> bool {
        self.text[self.pos..].starts_with(s.as_bytes())
    }

    fn item(&mut self) -> DeepNode {
        for name in ["-sin", "-cos", "sin", "cos", "ln", "-", "+"] {
            if self.starts_with(name) && self.text[self.pos + name.len()..].first() == Some(&b'(')
            {
                self.pos += name.len() + 1;
                let inner = self.expr();
                assert_eq!(self.text[self.pos], b')');
                self.pos += 1;
                let uop = op(name, &self.ops);
                let wrapped = exmex::deep::apply_unary(&uop, &inner).unwrap();
                return DeepNode::Expr(Box::new(wrapped));
            }
        }
        if self.text[self.pos] == b'(' {
            self.pos += 1;
            let inner = self.expr();
            assert_eq!(self.text[self.pos], b')');
            self.pos += 1;
            return DeepNode::Expr(Box::new(inner));
        }
        if self.text[self.pos] == b'{' {
            let end = self.pos + self.text[self.pos..].iter().position(|&c| c == b'}').unwrap();
            let name = std::str::from_utf8(&self.text[self.pos + 1..end]).unwrap().to_string();
            self.pos = end + 1;
            let idx = self.vars.iter().find(|(n, _)| *n == name).unwrap().1;
            return DeepNode::Var(idx, name);
        }
        let start = self.pos;
        while self.pos < self.text.len()
            && (self.text[self.pos].is_ascii_digit() || self.text[self.pos] == b'.')
        {
            self.pos += 1;
        }
        let lit = std::str::from_utf8(&self.text[start..self.pos]).unwrap().to_string();
        assert!(!lit.is_empty(), "parse stuck at byte {}", start);
        DeepNode::Num(Val { text: lit })
    }

    fn expr(&mut self) -> DeepEx {
        let mut nodes = vec![self.item()];
        let mut bins: Vec<Operator> = Vec::new();
        while self.pos < self.text.len() {
            let c = self.text[self.pos] as char;
            if !matches!(c, '+' | '-' | '*' | '/' | '^') {
                break;
            }
            self.pos += 1;
            bins.push(op(&c.to_string(), &self.ops));
            nodes.push(self.item());
        }
        new_deepex(nodes, bins, Vec::new(), Some(default_ov(&self.ops))).unwrap()
    }
}

fn parse(text: &str, vars: &[(&str, usize)]) -> DeepEx {
    let mut p = Parser {
        text: text.as_bytes(),
        pos: 0,
        vars: vars.iter().map(|(n, i)| (n.to_string(), *i)).collect(),
        ops: default_ops(),
    };
    let e = p.expr();
    assert_eq!(p.pos, p.text.len(), "trailing input in {}", text);
    e
}

fn sin_x(ops: &Vec<Operator>) -> DeepEx {
    chain(vec![var(0, "x")], Vec::new(), vec![op("sin", ops)], ops)
}

// ------------------------------------------------------------------
// Tests carried over from the engine's original suite.
// ------------------------------------------------------------------

#[test]
fn test_partial_outer() {
    let ops = default_ops();
    let partial_derivative_ops = make_partial_derivative_ops();
    let e = sin_x(&ops);
    let ov = default_ov(&ops);
    let deri = partial_derivative_outer(&e, &partial_derivative_ops, &ov, &ops).unwrap();
    assert_eq!(deri.nodes.len(), 2);
    assert_float_eq_f64(eval_tree(&deri, &[1.0]), 0.5403023058681398);
    assert_float_eq_f64(eval_tree(&deri, &[0.0]), 1.0);
    assert_float_eq_f64(eval_tree(&deri, &[2.0]), -0.4161468365471424);
}

#[test]
fn test_partial_derivative() {
    let ops = default_ops();

    let deepex = leaf(num(1.0), &ops);
    let derivative = partial_deepex(0, &deepex, &ops).unwrap();
    assert_eq!(derivative.nodes.len(), 1);
    assert_eq!(derivative.bin_ops.len(), 0);
    match &derivative.nodes[0] {
        DeepNode::Num(n) => assert_float_eq_f64(n.text.parse::<f64>().unwrap(), 0.0),
        _ => panic!("expected a constant leaf"),
    }

    let deepex = leaf(var(0, "x"), &ops);
    let derivative = partial_deepex(0, &deepex, &ops).unwrap();
    assert_eq!(derivative.nodes.len(), 1);
    assert_eq!(derivative.bin_ops.len(), 0);
    match &derivative.nodes[0] {
        DeepNode::Num(n) => assert_float_eq_f64(n.text.parse::<f64>().unwrap(), 1.0),
        _ => panic!("expected a constant leaf"),
    }

    let deepex = chain(vec![var(0, "x"), num(2.0)], vec![op("^", &ops)], Vec::new(), &ops);
    let derivative = partial_deepex(0, &deepex, &ops).unwrap();
    let result = eval_tree(&derivative, &[4.5]);
    assert_float_eq_f64(result, 9.0);

    let deepex = sin_x(&ops);
    let derivative = partial_deepex(0, &deepex, &ops).unwrap();
    assert_float_eq_f64(eval_tree(&derivative, &[0.0]), 1.0);
    assert_float_eq_f64(eval_tree(&derivative, &[1.0]), 0.5403023058681398);
}

// ------------------------------------------------------------------
// Derivatives of constants and variables.
// ------------------------------------------------------------------

#[test]
fn test_constant_derivative_is_zero_everywhere() {
    let ops = default_ops();
    for c in [0.0, 1.0, 2.5, 1234.75] {
        for i in [0usize, 1, 5] {
            let deepex = leaf(num(c), &ops);
            let derivative = partial_deepex(i, &deepex, &ops).unwrap();
            for x in [-100.0, 0.0, 0.5, 3.25] {
                assert_float_eq_f64(eval_tree(&derivative, &[x, x]), 0.0);
            }
        }
    }
}

#[test]
fn test_variable_derivative_is_kronecker() {
    let ops = default_ops();
    for i in [0usize, 1, 2] {
        let deepex = leaf(var(i, "v"), &ops);
        let same = partial_deepex(i, &deepex, &ops).unwrap();
        let other = partial_deepex(i + 1, &deepex, &ops).unwrap();
        for x in [-2.0, 0.0, 7.5] {
            assert_float_eq_f64(eval_tree(&same, &[x, x, x]), 1.0);
            assert_float_eq_f64(eval_tree(&other, &[x, x, x]), 0.0);
        }
    }
}

// ------------------------------------------------------------------
// Sum and product rules at sampled points.
// ------------------------------------------------------------------

#[test]
fn test_sum_rule_sampled() {
    let ops = default_ops();
    let f = chain(vec![var(0, "x"), var(1, "y")], vec![op("*", &ops)], Vec::new(), &ops);
    let g = chain(vec![var(0, "x"), num(2.0)], vec![op("^", &ops)], Vec::new(), &ops);
    let sum = combine(&op("+", &ops), &f, &g).unwrap();
    for i in [0usize, 1] {
        let d_sum = partial_deepex(i, &sum, &ops).unwrap();
        let d_f = partial_deepex(i, &f, &ops).unwrap();
        let d_g = partial_deepex(i, &g, &ops).unwrap();
        for p in [[0.5, 2.0], [1.5, -3.0], [4.0, 0.25]] {
            assert_float_eq_f64(
                eval_tree(&d_sum, &p),
                eval_tree(&d_f, &p) + eval_tree(&d_g, &p),
            );
        }
    }
}

#[test]
fn test_product_rule_sampled() {
    let ops = default_ops();
    let f = chain(vec![var(0, "x"), var(1, "y")], vec![op("+", &ops)], Vec::new(), &ops);
    let g = chain(vec![var(0, "x")], Vec::new(), vec![op("sin", &ops)], &ops);
    // the product junction binds tighter than f's sum chain, so both
    // operands stand as subexpression leaves
    let prod = chain(
        vec![
            DeepNode::Expr(Box::new(clone_deepex(&f))),
            DeepNode::Expr(Box::new(clone_deepex(&g))),
        ],
        vec![op("*", &ops)],
        Vec::new(),
        &ops,
    );
    for i in [0usize, 1] {
        let d_prod = partial_deepex(i, &prod, &ops).unwrap();
        let d_f = partial_deepex(i, &f, &ops).unwrap();
        let d_g = partial_deepex(i, &g, &ops).unwrap();
        for p in [[0.5, 2.0], [1.5, -3.0], [4.0, 0.25]] {
            assert_float_eq_f64(
                eval_tree(&d_prod, &p),
                eval_tree(&d_f, &p) * eval_tree(&g, &p)
                    + eval_tree(&f, &p) * eval_tree(&d_g, &p),
            );
        }
    }
}

// ------------------------------------------------------------------
// Higher-order derivatives of the sine family.
// ------------------------------------------------------------------

#[test]
fn test_partial_sine_family_higher_order() {
    let ops = default_ops();
    // sin(x) - cos(x) + a, with names sorted: a is 0, x is 1.
    let sinx = chain(vec![var(1, "x")], Vec::new(), vec![op("sin", &ops)], &ops);
    let cosx = chain(vec![var(1, "x")], Vec::new(), vec![op("cos", &ops)], &ops);
    let e = chain(
        vec![
            DeepNode::Expr(Box::new(sinx)),
            DeepNode::Expr(Box::new(cosx)),
            var(0, "a"),
        ],
        vec![op("-", &ops), op("+", &ops)],
        Vec::new(),
        &ops,
    );
    let refs: [fn(f64) -> f64; 4] = [
        |x| x.cos() + x.sin(),
        |x| -x.sin() + x.cos(),
        |x| -x.cos() - x.sin(),
        |x| x.sin() - x.cos(),
    ];
    let mut deri = e;
    for reference in refs {
        deri = partial_deepex(1, &deri, &ops).unwrap();
        for x in [-3.0, 0.0, 0.5, 2.0, 10.0] {
            assert_float_eq_f64(eval_tree(&deri, &[123.0, x]), reference(x));
        }
    }
}

// ------------------------------------------------------------------
// Derivatives against finite-difference estimates.
// ------------------------------------------------------------------

fn assert_close(a: f64, b: f64, abs_tol: f64, rel_tol: f64) {
    let diff = (a - b).abs();
    let scale = a.abs().max(b.abs()).max(1e-12);
    assert!(
        diff < abs_tol || diff / scale < rel_tol,
        "values differ: {} vs {}",
        a,
        b
    );
}

#[test]
fn test_partial_finite() {
    let ops = default_ops();
    let step = 1e-5;
    // sin(x+z), z*sin(x)+cos(y), sin(x)*cos(y) as flat trees
    let sin_xz = chain(
        vec![var(0, "x"), var(1, "z")],
        vec![op("+", &ops)],
        vec![op("sin", &ops)],
        &ops,
    );
    let sinx = chain(vec![var(0, "x")], Vec::new(), vec![op("sin", &ops)], &ops);
    let cosy = chain(vec![var(1, "y")], Vec::new(), vec![op("cos", &ops)], &ops);
    let z_sinx_cosy = chain(
        vec![
            var(2, "z"),
            DeepNode::Expr(Box::new(clone_deepex(&sinx))),
            DeepNode::Expr(Box::new(clone_deepex(&cosy))),
        ],
        vec![op("*", &ops), op("+", &ops)],
        Vec::new(),
        &ops,
    );
    let sinx_cosy = chain(
        vec![
            DeepNode::Expr(Box::new(clone_deepex(&sinx))),
            DeepNode::Expr(Box::new(clone_deepex(&cosy))),
        ],
        vec![op("*", &ops)],
        Vec::new(),
        &ops,
    );
    for (e, n_vars) in [(sin_xz, 2usize), (z_sinx_cosy, 3), (sinx_cosy, 2)] {
        let x0s = [0.37, -1.21, 2.83];
        for var_idx in 0..n_vars {
            let base: Vec<f64> = x0s[..n_vars].to_vec();
            let mut shifted = base.clone();
            shifted[var_idx] += step;
            let fd = (eval_tree(&e, &shifted) - eval_tree(&e, &base)) / step;
            let deri = partial_deepex(var_idx, &e, &ops).unwrap();
            assert_close(eval_tree(&deri, &base), fd, 1e-4, 1e-3);
        }
    }
}

// ------------------------------------------------------------------
// Mixed partials commute under evaluation.
// ------------------------------------------------------------------

#[test]
fn test_mixed_partials_commute() {
    let ops = default_ops();
    // x*y*2.0 + y*y
    let prod = chain(
        vec![var(0, "x"), var(1, "y"), num(2.0)],
        vec![op("*", &ops), op("*", &ops)],
        Vec::new(),
        &ops,
    );
    let sq = chain(vec![var(1, "y"), var(1, "y")], vec![op("*", &ops)], Vec::new(), &ops);
    let e = combine(&op("+", &ops), &prod, &sq).unwrap();
    let d_xy = partial_deepex(1, &partial_deepex(0, &e, &ops).unwrap(), &ops).unwrap();
    let d_yx = partial_deepex(0, &partial_deepex(1, &e, &ops).unwrap(), &ops).unwrap();
    for p in [[0.5, 2.0], [1.5, 3.0], [4.0, 0.25]] {
        assert_float_eq_f64(eval_tree(&d_xy, &p), eval_tree(&d_yx, &p));
    }
}

// ------------------------------------------------------------------
// Arithmetic sugar over combine.
// ------------------------------------------------------------------

#[test]
fn test_arithmetic_sugar() {
    let ops = default_ops();
    let x = leaf(var(0, "x"), &ops);
    let y = leaf(var(1, "y"), &ops);
    let sum = x.plus(&y).unwrap();
    let diff = x.minus(&y).unwrap();
    let prod = x.times(&y).unwrap();
    for p in [[2.0, 3.0], [-1.5, 0.25]] {
        assert_float_eq_f64(eval_tree(&sum, &p), p[0] + p[1]);
        assert_float_eq_f64(eval_tree(&diff, &p), p[0] - p[1]);
        assert_float_eq_f64(eval_tree(&prod, &p), p[0] * p[1]);
    }
    let bare_a = new_deepex(vec![var(0, "x")], Vec::new(), Vec::new(), None).unwrap();
    let bare_b = new_deepex(vec![var(1, "y")], Vec::new(), Vec::new(), None).unwrap();
    assert!(matches!(bare_a.plus(&bare_b), Err(DiffError::RegistryMissing)));
}

// ------------------------------------------------------------------
// Errors are values, never faults.
// ------------------------------------------------------------------

#[test]
fn test_out_of_range_index_is_an_error() {
    let ops = default_ops();
    let e = chain(vec![var(0, "x"), var(1, "y")], vec![op("*", &ops)], Vec::new(), &ops);
    assert!(matches!(partial(2, &e, &ops), Err(DiffError::VarIdxOutOfRange)));
    assert!(matches!(partial(usize::MAX, &e, &ops), Err(DiffError::VarIdxOutOfRange)));
    assert!(partial(1, &e, &ops).is_ok());
    let c = leaf(num(3.0), &ops);
    assert!(matches!(partial(0, &c, &ops), Err(DiffError::VarIdxOutOfRange)));
}

#[test]
fn test_unsupported_operator_error() {
    let ops = default_ops();
    // unary `+` is registered but has no outer-derivative mapping
    let e = chain(vec![var(0, "x")], Vec::new(), vec![op("+", &ops)], &ops);
    match partial_deepex(0, &e, &ops) {
        Err(DiffError::UnsupportedOperator(r)) => assert_eq!(r, "+"),
        other => panic!("expected an unsupported-operator error, got {:?}", other.is_ok()),
    }
}

#[test]
fn test_registry_without_overloaded_ops() {
    let ops = default_ops();
    let e = leaf(var(0, "x"), &ops);
    let empty: Vec<Operator> = Vec::new();
    match partial_deepex(0, &e, &empty) {
        Err(DiffError::UnsupportedOperator(r)) => assert_eq!(r, "+"),
        other => panic!("expected an unsupported-operator error, got ok={}", other.is_ok()),
    }
}

#[test]
fn test_arity_mismatch_error() {
    let ops = default_ops();
    assert!(matches!(
        find_as_bin_op_with_reprs("sin", &ops),
        Err(DiffError::OperatorArityMismatch)
    ));
    assert!(matches!(
        find_as_unary_op_with_reprs("*", &ops),
        Err(DiffError::OperatorArityMismatch)
    ));
    let sin_op = op("sin", &ops);
    let a = leaf(num(1.0), &ops);
    let b = leaf(num(2.0), &ops);
    assert!(matches!(combine(&sin_op, &a, &b), Err(DiffError::OperatorArityMismatch)));
}

#[test]
fn test_registry_mismatch_error() {
    let ops = default_ops();
    let a = leaf(num(1.0), &ops);
    let mut other_ov = default_ov(&ops);
    other_ov.mul_op.prec = 9;
    let b = from_node(num(2.0), other_ov);
    assert!(matches!(combine(&op("+", &ops), &a, &b), Err(DiffError::RegistryMismatch)));
}

#[test]
fn test_registry_missing_error() {
    let ops = default_ops();
    let e = new_deepex(vec![var(0, "x")], Vec::new(), vec![op("sin", &ops)], None).unwrap();
    assert!(matches!(partial_deepex(0, &e, &ops), Err(DiffError::RegistryMissing)));
}

#[test]
fn test_malformed_tree_error() {
    let ops = default_ops();
    assert!(matches!(
        new_deepex(vec![var(0, "x"), num(1.0)], Vec::new(), Vec::new(), None),
        Err(DiffError::MalformedInputTree)
    ));
    assert!(matches!(
        new_deepex(Vec::new(), Vec::new(), Vec::new(), None),
        Err(DiffError::MalformedInputTree)
    ));
    // a unary-only operator cannot stand in the binary chain
    assert!(matches!(
        new_deepex(
            vec![var(0, "x"), var(1, "y")],
            vec![op("sin", &ops)],
            Vec::new(),
            None
        ),
        Err(DiffError::MalformedInputTree)
    ));
}

// ------------------------------------------------------------------
// Rendering and the round trip through the parser.
// ------------------------------------------------------------------

#[test]
fn test_unparse_canonical_text() {
    let ops = default_ops();
    let e = chain(
        vec![var(1, "y"), var(0, "x"), num(2.0)],
        vec![op("*", &ops), op("^", &ops)],
        Vec::new(),
        &ops,
    );
    assert_eq!(unparse(&e), "{y}*{x}^2.0");
    let s = sin_x(&ops);
    assert_eq!(unparse(&s), "sin({x})");
}

#[test]
fn test_round_trip_through_parser() {
    let ops = default_ops();
    let vars = [("x", 0usize), ("y", 1usize)];
    // y*x^2 and sin(x)+y
    let e1 = chain(
        vec![var(1, "y"), var(0, "x"), num(2.0)],
        vec![op("*", &ops), op("^", &ops)],
        Vec::new(),
        &ops,
    );
    let sinx = chain(vec![var(0, "x")], Vec::new(), vec![op("sin", &ops)], &ops);
    let e2 = chain(
        vec![DeepNode::Expr(Box::new(sinx)), var(1, "y")],
        vec![op("+", &ops)],
        Vec::new(),
        &ops,
    );
    for e in [e1, e2] {
        for i in [0usize, 1] {
            let deri = partial_deepex(i, &e, &ops).unwrap();
            let text = unparse(&deri);
            let reparsed = parse(&text, &vars);
            for p in [[0.5, 2.0], [1.25, -0.75], [3.0, 4.0]] {
                assert_float_eq_f64(eval_tree(&deri, &p), eval_tree(&reparsed, &p));
            }
        }
    }
}

// ------------------------------------------------------------------
// Registry lookups and the rule table.
// ------------------------------------------------------------------

#[test]
fn test_find_op_lookup() {
    let ops = default_ops();
    let plus = find_op("+", &ops).unwrap();
    assert_eq!(plus.repr, "+");
    assert!(plus.has_bin);
    assert!(plus.has_unary);
    assert_eq!(plus.prec, 1);
    assert!(find_op("tan", &ops).is_none());
}

#[test]
fn test_find_derivative_ops_lookup() {
    let table = make_partial_derivative_ops();
    let sin_entry = find_derivative_ops("sin", &table).unwrap();
    assert_eq!(sin_entry.unary_op.as_deref(), Some("cos"));
    let cos_entry = find_derivative_ops("cos", &table).unwrap();
    assert_eq!(cos_entry.unary_op.as_deref(), Some("-sin"));
    assert!(find_derivative_ops("tan", &table).is_none());
    let pow_entry = find_derivative_ops("^", &table).unwrap();
    assert!(pow_entry.bin_op.is_some());
}

#[test]
fn test_quotient_rule_sampled() {
    let ops = default_ops();
    // x / y: derivative wrt x is 1/y, wrt y is -x/y^2
    let e = chain(vec![var(0, "x"), var(1, "y")], vec![op("/", &ops)], Vec::new(), &ops);
    let d_x = partial_deepex(0, &e, &ops).unwrap();
    let d_y = partial_deepex(1, &e, &ops).unwrap();
    for p in [[1.0, 2.0], [-3.0, 0.5], [7.0, -4.0]] {
        assert_float_eq_f64(eval_tree(&d_x, &p), 1.0 / p[1]);
        assert_float_eq_f64(eval_tree(&d_y, &p), -p[0] / (p[1] * p[1]));
    }
}

#[test]
fn test_power_rule_general_form() {
    let ops = default_ops();
    // x ^ x at sampled points: derivative is x^x * (ln(x) + 1)
    let e = chain(vec![var(0, "x"), var(0, "x")], vec![op("^", &ops)], Vec::new(), &ops);
    let d = partial_deepex(0, &e, &ops).unwrap();
    for x in [0.5f64, 1.0, 1.7, 2.5] {
        let expected = x.powf(x) * (x.ln() + 1.0);
        assert_float_eq_f64(eval_tree(&d, &[x]), expected);
    }
    // the general form keeps a ln(f)*g' term even for a constant exponent
    let sq = chain(vec![var(0, "x"), num(2.0)], vec![op("^", &ops)], Vec::new(), &ops);
    let d_sq = partial_deepex(0, &sq, &ops).unwrap();
    let text = unparse(&d_sq);
    assert!(text.contains("ln"), "general power rule expected in {}", text);
}
