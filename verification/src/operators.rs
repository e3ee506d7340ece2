//! The operator registry: named operators with binary and unary
//! capabilities and a precedence, looked up by their textual
//! representation.

use vstd::prelude::*;

verus! {

/// A registry entry. An operator may stand in binary position (between two
/// leaves), in unary position (applied to a reduced result), or in both;
/// `prec` orders binary folds, larger binds tighter.
pub struct Operator {
    pub repr: String,
    pub has_bin: bool,
    pub has_unary: bool,
    pub prec: u32,
}

/// The ghost mirror of an [`Operator`].
pub ghost struct OpModel {
    pub repr: Seq<char>,
    pub has_bin: bool,
    pub has_unary: bool,
    pub prec: u32,
}

impl Operator {
    pub open spec fn model(&self) -> OpModel {
        OpModel { repr: self.repr@, has_bin: self.has_bin, has_unary: self.has_unary, prec: self.prec }
    }
}

/// The ghost mirror of a registry.
pub open spec fn ops_model(ops: Seq<Operator>) -> Seq<OpModel> {
    ops.map_values(|o: Operator| o.model())
}

/// Compares two string slices character by character.
pub fn str_eq(a: &str, b: &str) -> (r: bool)
    ensures
        r <==> a@ == b@,
{
    let la = a.unicode_len();
    let lb = b.unicode_len();
    if la != lb {
        return false;
    }
    let mut i: usize = 0;
    while i < la
        invariant
            la == a@.len(),
            la == b@.len(),
            i <= la,
            forall|j: int| 0 <= j < i ==> a@[j] == b@[j],
        decreases la - i,
    {
        if a.get_char(i) != b.get_char(i) {
            return false;
        }
        i = i + 1;
    }
    proof {
        assert(a@ =~= b@);
    }
    true
}

/// Clones an operator, keeping every field.
pub fn clone_op(o: &Operator) -> (r: Operator)
    ensures
        r == *o,
{
    Operator {
        repr: o.repr.clone(),
        has_bin: o.has_bin,
        has_unary: o.has_unary,
        prec: o.prec,
    }
}

/// The first registry entry with the given representation, if any.
pub open spec fn spec_find_op(repr: Seq<char>, ops: Seq<Operator>) -> Option<Operator>
    decreases ops.len(),
{
    if ops.len() == 0 {
        None
    } else if ops[0].repr@ == repr {
        Some(ops[0])
    } else {
        spec_find_op(repr, ops.skip(1))
    }
}

/// A found entry carries the representation it was looked up by.
pub proof fn lemma_spec_find_op_found(repr: Seq<char>, ops: Seq<Operator>)
    ensures
        spec_find_op(repr, ops) matches Some(o) ==> o.repr@ == repr,
    decreases ops.len(),
{
    if ops.len() > 0 && ops[0].repr@ != repr {
        lemma_spec_find_op_found(repr, ops.skip(1));
    }
}

/// Lookup commutes with taking the registry's ghost mirror.
pub proof fn lemma_find_opm_matches(repr: Seq<char>, ops: Seq<Operator>)
    ensures
        match spec_find_op(repr, ops) {
            Some(o) => crate::model::find_opm(repr, ops_model(ops)) == Some(o.model()),
            None => crate::model::find_opm(repr, ops_model(ops)) is None,
        },
    decreases ops.len(),
{
    if ops.len() > 0 {
        assert(ops_model(ops)[0] == ops[0].model());
        if ops[0].repr@ != repr {
            lemma_find_opm_matches(repr, ops.skip(1));
            assert(ops_model(ops).skip(1) =~= ops_model(ops.skip(1)));
        }
    } else {
        assert(ops_model(ops).len() == 0);
    }
}

/// Exact-match lookup of an operator by its representation; a linear scan,
/// returning a copy of the first match.
pub fn find_op(repr: &str, ops: &Vec<Operator>) -> (r: Option<Operator>)
    ensures
        match r {
            Some(o) => spec_find_op(repr@, ops@) == Some(o),
            None => spec_find_op(repr@, ops@) is None,
        },
{
    let mut i: usize = 0;
    proof {
        assert(ops@.skip(0) =~= ops@);
    }
    while i < ops.len()
        invariant
            i <= ops@.len(),
            spec_find_op(repr@, ops@) == spec_find_op(repr@, ops@.skip(i as int)),
            forall|j: int| 0 <= j < i ==> ops@[j].repr@ != repr@,
        decreases ops@.len() - i,
    {
        proof {
            assert(ops@.skip(i as int)[0] == ops@[i as int]);
        }
        if str_eq(ops[i].repr.as_str(), repr) {
            return Some(clone_op(&ops[i]));
        }
        proof {
            assert(ops@.skip(i as int).skip(1) =~= ops@.skip(i + 1));
        }
        i = i + 1;
    }
    None
}

/// Builds one registry entry.
fn mk_op(repr: &str, has_bin: bool, has_unary: bool, prec: u32) -> (r: Operator)
    ensures
        r.model() == (OpModel { repr: repr@, has_bin, has_unary, prec }),
{
    Operator { repr: repr.to_string(), has_bin, has_unary, prec }
}

/// The default registry: the binary `+ - * / ^` (with unary `+` and `-`),
/// and the unary `sin`, `cos`, `-sin`, `-cos` and `ln`. The `-sin` and
/// `-cos` entries close the sine family under repeated differentiation.
pub fn make_default_operators() -> (r: Vec<Operator>)
    ensures
        r@.len() == 10,
        r@[0].model() == (OpModel { repr: "^"@, has_bin: true, has_unary: false, prec: 3 }),
        r@[1].model() == (OpModel { repr: "*"@, has_bin: true, has_unary: false, prec: 2 }),
        r@[2].model() == (OpModel { repr: "/"@, has_bin: true, has_unary: false, prec: 2 }),
        r@[3].model() == (OpModel { repr: "+"@, has_bin: true, has_unary: true, prec: 1 }),
        r@[4].model() == (OpModel { repr: "-"@, has_bin: true, has_unary: true, prec: 1 }),
        r@[5].model() == (OpModel { repr: "sin"@, has_bin: false, has_unary: true, prec: 4 }),
        r@[6].model() == (OpModel { repr: "cos"@, has_bin: false, has_unary: true, prec: 4 }),
        r@[7].model() == (OpModel { repr: "-sin"@, has_bin: false, has_unary: true, prec: 4 }),
        r@[8].model() == (OpModel { repr: "-cos"@, has_bin: false, has_unary: true, prec: 4 }),
        r@[9].model() == (OpModel { repr: "ln"@, has_bin: false, has_unary: true, prec: 4 }),
{
    let mut ops: Vec<Operator> = Vec::new();
    ops.push(mk_op("^", true, false, 3));
    ops.push(mk_op("*", true, false, 2));
    ops.push(mk_op("/", true, false, 2));
    ops.push(mk_op("+", true, true, 1));
    ops.push(mk_op("-", true, true, 1));
    ops.push(mk_op("sin", false, true, 4));
    ops.push(mk_op("cos", false, true, 4));
    ops.push(mk_op("-sin", false, true, 4));
    ops.push(mk_op("-cos", false, true, 4));
    ops.push(mk_op("ln", false, true, 4));
    ops
}

} // verus!
