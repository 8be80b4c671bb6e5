//! The nested-tree evaluator: operators written as JSON objects such as
//! `{"=": [{"var": "champ.name"}, "Fezzig"]}`.
use crate::context::{get_context_var, lookup};
use crate::number::Num;
use crate::operand::{Operator, ScalarModel, scalar_combine};
use crate::text::chars_of;
use crate::value::{JsonModel, JsonValue, json_same, same_json};
use vstd::prelude::*;
use vstd::string::StringExecFns;

verus! {

/// The operators of a tree node.
#[derive(Debug, Clone, Copy, PartialEq, Eq, Structural)]
pub enum Opss {
    More,
    Less,
    Eq,
    LessEq,
    MoreEq,
    Neq,
    Plus,
    Minus,
    Multiply,
    Division,
    And,
}

/// A node of an operator tree, and also what evaluating one gives: a value
/// or a list of results.
#[derive(Debug)]
pub enum AllCombined {
    Ops(Opss, Vec<AllCombined>),
    Var(String),
    OpList(Vec<AllCombined>),
    Primitive(JsonValue),
}

pub enum NodeModel {
    Ops(Opss, Seq<NodeModel>),
    Var(Seq<char>),
    OpList(Seq<NodeModel>),
    Primitive(JsonModel),
}

pub open spec fn node_models(v: Vec<AllCombined>) -> Seq<NodeModel>
    decreases v,
{
    Seq::new(
        v@.len(),
        |i: int|
            if 0 <= i < v@.len() {
                v@[i].model()
            } else {
                NodeModel::OpList(Seq::empty())
            },
    )
}

impl AllCombined {
    pub open spec fn model(self) -> NodeModel
        decreases self,
    {
        match self {
            AllCombined::Ops(t, v) => NodeModel::Ops(t, node_models(v)),
            AllCombined::Var(s) => NodeModel::Var(s@),
            AllCombined::OpList(v) => NodeModel::OpList(node_models(v)),
            AllCombined::Primitive(j) => NodeModel::Primitive(j.model()),
        }
    }
}

// ---------------------------------------------------------------------------
// Semantics
/// Structural equality of nodes, with JSON values compared as `json_same`.
pub open spec fn node_same(a: NodeModel, b: NodeModel) -> bool
    decreases a,
{
    match a {
        NodeModel::Ops(t, xs) => b is Ops && b->Ops_0 == t && xs.len() == b->Ops_1.len() && forall|
            i: int,
        | 0 <= i < xs.len() ==> node_same(#[trigger] xs[i], b->Ops_1[i]),
        NodeModel::Var(s) => b == NodeModel::Var(s),
        NodeModel::OpList(xs) => b is OpList && xs.len() == b->OpList_0.len() && forall|i: int|
            0 <= i < xs.len() ==> node_same(#[trigger] xs[i], b->OpList_0[i]),
        NodeModel::Primitive(v) => b is Primitive && json_same(v, b->Primitive_0),
    }
}

/// Only two numbers are ordered; any other pair compares as equal.
pub open spec fn node_lt(a: NodeModel, b: NodeModel) -> bool {
    match (a, b) {
        (NodeModel::Primitive(JsonModel::Number(x)), NodeModel::Primitive(JsonModel::Number(y))) => x.value_lt(y),
        _ => false,
    }
}

pub open spec fn num_json(r: Option<Num>) -> JsonModel {
    match r {
        Some(n) => JsonModel::Number(n),
        None => JsonModel::Null,
    }
}

/// Arithmetic on two results: numbers (null when out of range or divided by
/// zero), strings joined by `+`, null for anything else.
pub open spec fn arith(t: Opss, a: NodeModel, b: NodeModel) -> NodeModel {
    NodeModel::Primitive(
        match (a, b) {
            (NodeModel::Primitive(JsonModel::Number(x)), NodeModel::Primitive(JsonModel::Number(y))) => match t {
                Opss::Plus => num_json(x.spec_sum(y)),
                Opss::Minus => num_json(x.spec_difference(y)),
                Opss::Multiply => num_json(x.spec_product(y)),
                Opss::Division => num_json(x.spec_quotient(y)),
                _ => JsonModel::Null,
            },
            (NodeModel::Primitive(JsonModel::Str(x)), NodeModel::Primitive(JsonModel::Str(y))) => if t
                == Opss::Plus {
                JsonModel::Str(x + y)
            } else {
                JsonModel::Null
            },
            _ => JsonModel::Null,
        },
    )
}

pub open spec fn bool_node(b: bool) -> NodeModel {
    NodeModel::Primitive(JsonModel::Bool(b))
}

/// An operator applied to the results of its operands. Comparisons with
/// fewer than two operands are false, arithmetic null; `and` is true when
/// there is at least one operand and every one is `true`.
pub open spec fn apply_op(t: Opss, rs: Seq<NodeModel>) -> NodeModel {
    match t {
        Opss::And => bool_node(
            rs.len() > 0 && forall|i: int| 0 <= i < rs.len() ==> #[trigger] rs[i] == bool_node(true),
        ),
        Opss::More => bool_node(rs.len() >= 2 && node_lt(rs[1], rs[0])),
        Opss::Less => bool_node(rs.len() >= 2 && node_lt(rs[0], rs[1])),
        Opss::LessEq => bool_node(rs.len() >= 2 && !node_lt(rs[1], rs[0])),
        Opss::MoreEq => bool_node(rs.len() >= 2 && !node_lt(rs[0], rs[1])),
        Opss::Eq => bool_node(rs.len() >= 2 && node_same(rs[0], rs[1])),
        Opss::Neq => bool_node(rs.len() >= 2 && !node_same(rs[0], rs[1])),
        _ => if rs.len() >= 2 {
            arith(t, rs[0], rs[1])
        } else {
            NodeModel::Primitive(JsonModel::Null)
        },
    }
}

/// The results of a list of trees.
pub open spec fn eval_all(xs: Seq<NodeModel>, ctx: JsonModel) -> Seq<NodeModel>
    decreases xs,
{
    Seq::new(
        xs.len(),
        |i: int|
            if 0 <= i < xs.len() {
                eval_node(xs[i], ctx)
            } else {
                bool_node(false)
            },
    )
}

/// What a tree evaluates to against a context.
pub open spec fn eval_node(n: NodeModel, ctx: JsonModel) -> NodeModel
    decreases n,
{
    match n {
        NodeModel::Ops(t, xs) => apply_op(t, eval_all(xs, ctx)),
        NodeModel::Var(p) => NodeModel::Primitive(lookup(p, ctx)),
        NodeModel::OpList(xs) => NodeModel::OpList(eval_all(xs, ctx)),
        NodeModel::Primitive(v) => NodeModel::Primitive(v),
    }
}

// ---------------------------------------------------------------------------
// Building a tree from JSON
/// The operator that an object key names.
pub open spec fn op_tag(k: Seq<char>) -> Option<Opss> {
    if k.len() == 1 {
        let c = k[0];
        if c == '>' {
            Some(Opss::More)
        } else if c == '<' {
            Some(Opss::Less)
        } else if c == '=' {
            Some(Opss::Eq)
        } else if c == '+' {
            Some(Opss::Plus)
        } else if c == '-' {
            Some(Opss::Minus)
        } else if c == '*' {
            Some(Opss::Multiply)
        } else if c == '/' {
            Some(Opss::Division)
        } else {
            None
        }
    } else if k.len() == 2 && k[1] == '=' {
        let c = k[0];
        if c == '<' {
            Some(Opss::LessEq)
        } else if c == '>' {
            Some(Opss::MoreEq)
        } else if c == '!' {
            Some(Opss::Neq)
        } else {
            None
        }
    } else if k.len() == 3 && k[0] == 'a' && k[1] == 'n' && k[2] == 'd' {
        Some(Opss::And)
    } else {
        None
    }
}

pub open spec fn is_var_key(k: Seq<char>) -> bool {
    k.len() == 3 && k[0] == 'v' && k[1] == 'a' && k[2] == 'r'
}

/// The tree that a JSON value denotes: an array is a list of trees; an
/// object with the single key `var` and a string is a path; an object with a
/// single operator key and an array is an operation; anything else is a
/// literal value.
pub open spec fn tree_of(m: JsonModel) -> NodeModel
    decreases m,
{
    match m {
        JsonModel::Array(xs) => NodeModel::OpList(
            Seq::new(
                xs.len(),
                |i: int|
                    if 0 <= i < xs.len() {
                        tree_of(xs[i])
                    } else {
                        bool_node(false)
                    },
            ),
        ),
        JsonModel::Object(es) => if es.len() == 1 && is_var_key(es[0].0) && es[0].1 is Str {
            NodeModel::Var(es[0].1->Str_0)
        } else if es.len() == 1 && op_tag(es[0].0) is Some && es[0].1 is Array {
            NodeModel::Ops(
                op_tag(es[0].0)->0,
                Seq::new(
                    es[0].1->Array_0.len(),
                    |i: int|
                        if 0 <= i < es[0].1->Array_0.len() {
                            tree_of(es[0].1->Array_0[i])
                        } else {
                            bool_node(false)
                        },
                ),
            )
        } else {
            NodeModel::Primitive(m)
        },
        _ => NodeModel::Primitive(m),
    }
}

// ---------------------------------------------------------------------------
// Evaluation
/// Whether two nodes are equal in the sense of `node_same`.
pub fn same_node(a: &AllCombined, b: &AllCombined) -> (r: bool)
    ensures
        r == node_same(a.model(), b.model()),
    decreases a,
{
    match (a, b) {
        (AllCombined::Primitive(x), AllCombined::Primitive(y)) => same_json(x, y),
        (AllCombined::Var(x), AllCombined::Var(y)) => *x == *y,
        (AllCombined::OpList(xs), AllCombined::OpList(ys)) => {
            proof {
                assert(decreases_to!(*a => a->OpList_0));
            }
            assert(a.model() == NodeModel::OpList(node_models(*xs)));
            assert(b.model() == NodeModel::OpList(node_models(*ys)));
            same_nodes(xs, ys)
        },
        (AllCombined::Ops(s, xs), AllCombined::Ops(t, ys)) => {
            proof {
                assert(decreases_to!(*a => a->Ops_1));
            }
            assert(a.model() == NodeModel::Ops(*s, node_models(*xs)));
            assert(b.model() == NodeModel::Ops(*t, node_models(*ys)));
            let same_tag = *s == *t;
            let same_kids = same_nodes(xs, ys);
            same_tag && same_kids
        },
        _ => false,
    }
}

/// Whether two lists of nodes are pairwise equal.
fn same_nodes(xs: &Vec<AllCombined>, ys: &Vec<AllCombined>) -> (r: bool)
    ensures
        r == (xs@.len() == ys@.len() && forall|i: int|
            0 <= i < xs@.len() ==> node_same(#[trigger] node_models(*xs)[i], node_models(*ys)[i])),
    decreases xs,
{
    if xs.len() != ys.len() {
        return false;
    }
    let mut i: usize = 0;
    while i < xs.len()
        invariant
            xs@.len() == ys@.len(),
            i <= xs@.len(),
            forall|j: int| 0 <= j < i ==> node_same(#[trigger] node_models(*xs)[j], node_models(*ys)[j]),
        decreases xs@.len() - i,
    {
        proof {
            assert(decreases_to!(*xs => xs@));
            assert(decreases_to!(xs@ => xs@[i as int]));
        }
        assert(node_models(*xs)[i as int] == xs@[i as int].model());
        assert(node_models(*ys)[i as int] == ys@[i as int].model());
        if !same_node(&xs[i], &ys[i]) {
            return false;
        }
        i = i + 1;
    }
    true
}

fn less_node(a: &AllCombined, b: &AllCombined) -> (r: bool)
    ensures
        r == node_lt(a.model(), b.model()),
{
    match (a, b) {
        (AllCombined::Primitive(JsonValue::Number(x)), AllCombined::Primitive(JsonValue::Number(y))) => x.less(y),
        _ => false,
    }
}

fn num_result(r: Option<Num>) -> (j: JsonValue)
    ensures
        j.model() == num_json(r),
{
    match r {
        Some(n) => JsonValue::Number(n),
        None => JsonValue::Null,
    }
}

fn arith_exec(t: Opss, a: &AllCombined, b: &AllCombined) -> (r: AllCombined)
    ensures
        r.model() == arith(t, a.model(), b.model()),
{
    let j = match (a, b) {
        (AllCombined::Primitive(JsonValue::Number(x)), AllCombined::Primitive(JsonValue::Number(y))) => match t {
            Opss::Plus => num_result(x.sum(y)),
            Opss::Minus => num_result(x.difference(y)),
            Opss::Multiply => num_result(x.product(y)),
            Opss::Division => num_result(x.quotient(y)),
            _ => JsonValue::Null,
        },
        (AllCombined::Primitive(JsonValue::String(x)), AllCombined::Primitive(JsonValue::String(y))) => {
            if t == Opss::Plus {
                let mut c = x.clone();
                c.append(y.as_str());
                JsonValue::String(c)
            } else {
                JsonValue::Null
            }
        },
        _ => JsonValue::Null,
    };
    AllCombined::Primitive(j)
}

fn bool_result(b: bool) -> (r: AllCombined)
    ensures
        r.model() == bool_node(b),
{
    AllCombined::Primitive(JsonValue::Bool(b))
}

/// Applies an operator to the results of its operands, as `apply_op` states.
fn apply_exec(t: Opss, rs: &Vec<AllCombined>) -> (r: AllCombined)
    ensures
        r.model() == apply_op(t, node_models(*rs)),
{
    let ghost ms = node_models(*rs);
    let n = rs.len();
    match t {
        Opss::And => {
            let mut all = n > 0;
            let mut i: usize = 0;
            while i < n
                invariant
                    n == rs@.len(),
                    ms == node_models(*rs),
                    i <= n,
                    all == (n > 0 && forall|j: int| 0 <= j < i ==> #[trigger] ms[j] == bool_node(true)),
                decreases n - i,
            {
                assert(ms[i as int] == rs@[i as int].model());
                let is_true = match &rs[i] {
                    AllCombined::Primitive(JsonValue::Bool(b)) => *b,
                    _ => false,
                };
                assert(is_true == (ms[i as int] == bool_node(true)));
                all = all && is_true;
                i = i + 1;
            }
            bool_result(all)
        },
        Opss::More | Opss::Less | Opss::LessEq | Opss::MoreEq | Opss::Eq | Opss::Neq => {
            if n < 2 {
                return bool_result(false);
            }
            assert(ms[0] == rs@[0].model());
            assert(ms[1] == rs@[1].model());
            let v = match t {
                Opss::More => less_node(&rs[1], &rs[0]),
                Opss::Less => less_node(&rs[0], &rs[1]),
                Opss::LessEq => !less_node(&rs[1], &rs[0]),
                Opss::MoreEq => !less_node(&rs[0], &rs[1]),
                Opss::Eq => same_node(&rs[0], &rs[1]),
                _ => !same_node(&rs[0], &rs[1]),
            };
            bool_result(v)
        },
        _ => {
            if n < 2 {
                return AllCombined::Primitive(JsonValue::Null);
            }
            assert(ms[0] == rs@[0].model());
            assert(ms[1] == rs@[1].model());
            arith_exec(t, &rs[0], &rs[1])
        },
    }
}

/// Evaluates each node of a list.
fn execute_combined_list(l: &Vec<AllCombined>, context: &JsonValue) -> (r: Vec<AllCombined>)
    ensures
        r@.len() == l@.len(),
        forall|i: int|
            0 <= i < l@.len() ==> (#[trigger] r@[i]).model() == eval_node(l@[i].model(), context.model()),
    decreases l,
{
    let mut r: Vec<AllCombined> = Vec::new();
    let mut i: usize = 0;
    while i < l.len()
        invariant
            i <= l@.len(),
            r@.len() == i,
            forall|j: int|
                0 <= j < i ==> (#[trigger] r@[j]).model() == eval_node(l@[j].model(), context.model()),
        decreases l@.len() - i,
    {
        proof {
            assert(decreases_to!(*l => l@));
            assert(decreases_to!(l@ => l@[i as int]));
        }
        let v = l[i].execute(context);
        r.push(v);
        i = i + 1;
    }
    r
}

impl AllCombined {
    /// Evaluates the tree against `context`.
    pub fn execute(&self, context: &JsonValue) -> (r: AllCombined)
        ensures
            r.model() == eval_node(self.model(), context.model()),
        decreases self,
    {
        match self {
            AllCombined::OpList(l) => {
                proof {
                    assert(decreases_to!(*self => self->OpList_0));
                }
                let s = execute_combined_list(l, context);
                let r = AllCombined::OpList(s);
                assert(self.model() == NodeModel::OpList(node_models(*l)));
                assert(r.model()->OpList_0 =~= eval_node(self.model(), context.model())->OpList_0);
                r
            },
            AllCombined::Ops(t, l) => {
                proof {
                    assert(decreases_to!(*self => self->Ops_1));
                }
                let s = execute_combined_list(l, context);
                assert(node_models(s) =~= eval_all(node_models(*l), context.model()));
                let r = apply_exec(*t, &s);
                assert(self.model() == NodeModel::Ops(*t, node_models(*l)));
                assert(r.model() == eval_node(self.model(), context.model()));
                r
            },
            AllCombined::Var(p) => {
                let r = AllCombined::Primitive(get_context_var(p, context));
                assert(r.model() == eval_node(self.model(), context.model()));
                r
            },
            AllCombined::Primitive(v) => {
                let r = AllCombined::Primitive(v.deep_copy());
                assert(r.model() == eval_node(self.model(), context.model()));
                r
            },
        }
    }
}

fn op_tag_exec(k: &String) -> (r: Option<Opss>)
    ensures
        r == op_tag(k@),
{
    let cs = chars_of(k.as_str());
    let n = cs.len();
    if n == 1 {
        let c = cs[0];
        if c == '>' {
            Some(Opss::More)
        } else if c == '<' {
            Some(Opss::Less)
        } else if c == '=' {
            Some(Opss::Eq)
        } else if c == '+' {
            Some(Opss::Plus)
        } else if c == '-' {
            Some(Opss::Minus)
        } else if c == '*' {
            Some(Opss::Multiply)
        } else if c == '/' {
            Some(Opss::Division)
        } else {
            None
        }
    } else if n == 2 && cs[1] == '=' {
        let c = cs[0];
        if c == '<' {
            Some(Opss::LessEq)
        } else if c == '>' {
            Some(Opss::MoreEq)
        } else if c == '!' {
            Some(Opss::Neq)
        } else {
            None
        }
    } else if n == 3 && cs[0] == 'a' && cs[1] == 'n' && cs[2] == 'd' {
        Some(Opss::And)
    } else {
        None
    }
}

fn is_var_key_exec(k: &String) -> (r: bool)
    ensures
        r == is_var_key(k@),
{
    let cs = chars_of(k.as_str());
    cs.len() == 3 && cs[0] == 'v' && cs[1] == 'a' && cs[2] == 'r'
}

/// The trees of the elements of a JSON array.
fn trees_of(xs: &Vec<JsonValue>) -> (r: Vec<AllCombined>)
    ensures
        r@.len() == xs@.len(),
        forall|i: int| 0 <= i < xs@.len() ==> (#[trigger] r@[i]).model() == tree_of(xs@[i].model()),
    decreases xs,
{
    let mut r: Vec<AllCombined> = Vec::new();
    let mut i: usize = 0;
    while i < xs.len()
        invariant
            i <= xs@.len(),
            r@.len() == i,
            forall|j: int| 0 <= j < i ==> (#[trigger] r@[j]).model() == tree_of(xs@[j].model()),
        decreases xs@.len() - i,
    {
        proof {
            assert(decreases_to!(*xs => xs@));
            assert(decreases_to!(xs@ => xs@[i as int]));
        }
        let v = from_json(&xs[i]);
        r.push(v);
        i = i + 1;
    }
    r
}

/// The operator tree that a JSON value denotes, as `tree_of` states.
pub fn from_json(v: &JsonValue) -> (r: AllCombined)
    ensures
        r.model() == tree_of(v.model()),
    decreases v,
{
    match v {
        JsonValue::Array(xs) => {
            proof {
                assert(decreases_to!(*v => v->Array_0));
            }
            let ts = trees_of(xs);
            let r = AllCombined::OpList(ts);
            assert(r.model()->OpList_0 =~= tree_of(v.model())->OpList_0);
            r
        },
        JsonValue::Object(es) => {
            if es.len() == 1 {
                let ghost em = v.model()->Object_0;
                assert(em[0] == (es@[0].0@, es@[0].1.model()));
                let key = &es[0].0;
                let val = &es[0].1;
                if is_var_key_exec(key) {
                    if let JsonValue::String(s) = val {
                        return AllCombined::Var(s.clone());
                    }
                }
                match op_tag_exec(key) {
                    Some(tag) => {
                        if let JsonValue::Array(xs) = val {
                            proof {
                                assert(decreases_to!(*v => v->Object_0));
                                assert(decreases_to!(v->Object_0 => v->Object_0@));
                                assert(decreases_to!(v->Object_0@ => v->Object_0@[0]));
                                assert(decreases_to!(v->Object_0@[0] => v->Object_0@[0].1));
                                assert(decreases_to!(v->Object_0@[0].1 => v->Object_0@[0].1->Array_0));
                            }
                            let ts = trees_of(xs);
                            let r = AllCombined::Ops(tag, ts);
                            assert(r.model()->Ops_1 =~= tree_of(v.model())->Ops_1);
                            return r;
                        }
                    },
                    None => {},
                }
            }
            AllCombined::Primitive(v.deep_copy())
        },
        _ => AllCombined::Primitive(v.deep_copy()),
    }
}

impl PartialEq for AllCombined {
    fn eq(&self, o: &AllCombined) -> (r: bool) {
        same_node(self, o)
    }
}

impl vstd::std_specs::cmp::PartialEqSpecImpl for AllCombined {
    open spec fn obeys_eq_spec() -> bool {
        true
    }

    open spec fn eq_spec(&self, o: &AllCombined) -> bool {
        node_same(self.model(), o.model())
    }
}

// ---------------------------------------------------------------------------
// Agreement with the formula interpreter
/// The tree operator that a formula operator corresponds to.
pub open spec fn tag_of(o: Operator) -> Opss {
    match o {
        Operator::Plus => Opss::Plus,
        Operator::Substract => Opss::Minus,
        Operator::Multiply => Opss::Multiply,
        Operator::Division => Opss::Division,
        Operator::L => Opss::Less,
        Operator::G => Opss::More,
        Operator::LE => Opss::LessEq,
        Operator::GE => Opss::MoreEq,
        Operator::E => Opss::Eq,
        Operator::NE => Opss::Neq,
    }
}

/// A scalar as a JSON value.
pub open spec fn json_of(s: ScalarModel) -> JsonModel {
    match s {
        ScalarModel::Null => JsonModel::Null,
        ScalarModel::Bool(b) => JsonModel::Bool(b),
        ScalarModel::Number(n) => JsonModel::Number(n),
        ScalarModel::Str(t) => JsonModel::Str(t),
    }
}

/// The two evaluators agree: an operator applied in a tree to two literal
/// scalars gives what the formula interpreter gives for the same operator on
/// the same operands, in every context.
pub proof fn lemma_evaluators_agree(o: Operator, a: ScalarModel, b: ScalarModel, ctx: JsonModel)
    ensures
        eval_node(
            NodeModel::Ops(
                tag_of(o),
                seq![NodeModel::Primitive(json_of(a)), NodeModel::Primitive(json_of(b))],
            ),
            ctx,
        ) == NodeModel::Primitive(json_of(scalar_combine(o, a, b))),
{
    let xs = seq![NodeModel::Primitive(json_of(a)), NodeModel::Primitive(json_of(b))];
    assert(eval_all(xs, ctx) =~= xs);
}

} // verus!
