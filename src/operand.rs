//! Tokens of a formula and the rules by which two values combine.
use crate::number::Num;
use vstd::prelude::*;
use vstd::string::StringExecFns;

verus! {

/// A binary operator of the formula language.
#[derive(Debug, Clone, Copy, PartialEq, Eq, Structural)]
pub enum Operator {
    Plus,
    Substract,
    Multiply,
    Division,
    L,
    G,
    LE,
    GE,
    E,
    NE,
}

/// A scalar value: the kinds a formula can produce.
#[derive(Debug, Clone, PartialEq)]
pub enum Scalar {
    Null,
    Bool(bool),
    Number(Num),
    String(String),
}

/// A token of a formula, or a value on the evaluation stack.
#[derive(Debug, Clone, PartialEq)]
pub enum Operand {
    Primitive(Scalar),
    Variable(String),
    OperatorToken(Operator),
    OpenParen,
    CloseParen,
}

pub enum ScalarModel {
    Null,
    Bool(bool),
    Number(Num),
    Str(Seq<char>),
}

pub enum OperandModel {
    Primitive(ScalarModel),
    Variable(Seq<char>),
    OperatorToken(Operator),
    OpenParen,
    CloseParen,
}

impl View for Scalar {
    type V = ScalarModel;

    open spec fn view(&self) -> ScalarModel {
        match self {
            Scalar::Null => ScalarModel::Null,
            Scalar::Bool(b) => ScalarModel::Bool(*b),
            Scalar::Number(n) => ScalarModel::Number(*n),
            Scalar::String(s) => ScalarModel::Str(s@),
        }
    }
}

impl View for Operand {
    type V = OperandModel;

    open spec fn view(&self) -> OperandModel {
        match self {
            Operand::Primitive(p) => OperandModel::Primitive(p@),
            Operand::Variable(s) => OperandModel::Variable(s@),
            Operand::OperatorToken(o) => OperandModel::OperatorToken(*o),
            Operand::OpenParen => OperandModel::OpenParen,
            Operand::CloseParen => OperandModel::CloseParen,
        }
    }
}

impl DeepView for Operand {
    type V = OperandModel;

    open spec fn deep_view(&self) -> OperandModel {
        self@
    }
}

/// Binding strength of an operator: products bind tighter than sums, and
/// every comparison binds after arithmetic.
pub open spec fn spec_precedence(o: Operator) -> int {
    match o {
        Operator::Plus | Operator::Substract => 1,
        Operator::Multiply | Operator::Division => 2,
        _ => -1,
    }
}

/// A number result, or null when it is out of range or undefined.
pub open spec fn num_or_null(r: Option<Num>) -> ScalarModel {
    match r {
        Some(n) => ScalarModel::Number(n),
        None => ScalarModel::Null,
    }
}

/// Equality of two scalars: numbers by value, strings by content, booleans
/// and null by kind; values of different kinds are never equal.
pub open spec fn scalar_eq(l: ScalarModel, r: ScalarModel) -> bool {
    match (l, r) {
        (ScalarModel::Null, ScalarModel::Null) => true,
        (ScalarModel::Bool(a), ScalarModel::Bool(b)) => a == b,
        (ScalarModel::Number(a), ScalarModel::Number(b)) => a.value_eq(b),
        (ScalarModel::Str(a), ScalarModel::Str(b)) => a == b,
        _ => false,
    }
}

/// Strict order: only two numbers are ever ordered; any other pair compares
/// as equal.
pub open spec fn scalar_lt(l: ScalarModel, r: ScalarModel) -> bool {
    match (l, r) {
        (ScalarModel::Number(a), ScalarModel::Number(b)) => a.value_lt(b),
        _ => false,
    }
}

/// What a binary operator gives on two scalars.
pub open spec fn scalar_combine(o: Operator, l: ScalarModel, r: ScalarModel) -> ScalarModel {
    match o {
        Operator::Plus => match (l, r) {
            (ScalarModel::Number(a), ScalarModel::Number(b)) => num_or_null(a.spec_sum(b)),
            (ScalarModel::Str(a), ScalarModel::Str(b)) => ScalarModel::Str(a + b),
            _ => ScalarModel::Null,
        },
        Operator::Substract => match (l, r) {
            (ScalarModel::Number(a), ScalarModel::Number(b)) => num_or_null(a.spec_difference(b)),
            _ => ScalarModel::Null,
        },
        Operator::Multiply => match (l, r) {
            (ScalarModel::Number(a), ScalarModel::Number(b)) => num_or_null(a.spec_product(b)),
            _ => ScalarModel::Null,
        },
        Operator::Division => match (l, r) {
            (ScalarModel::Number(a), ScalarModel::Number(b)) => num_or_null(a.spec_quotient(b)),
            _ => ScalarModel::Null,
        },
        Operator::L => ScalarModel::Bool(scalar_lt(l, r)),
        Operator::G => ScalarModel::Bool(scalar_lt(r, l)),
        Operator::LE => ScalarModel::Bool(!scalar_lt(r, l)),
        Operator::GE => ScalarModel::Bool(!scalar_lt(l, r)),
        Operator::E => ScalarModel::Bool(scalar_eq(l, r)),
        Operator::NE => ScalarModel::Bool(!scalar_eq(l, r)),
    }
}

/// What a binary operator gives on two stack entries: null unless both are
/// primitive values.
pub open spec fn combine(o: Operator, l: OperandModel, r: OperandModel) -> OperandModel {
    match (l, r) {
        (OperandModel::Primitive(a), OperandModel::Primitive(b)) => OperandModel::Primitive(
            scalar_combine(o, a, b),
        ),
        _ => OperandModel::Primitive(ScalarModel::Null),
    }
}

pub fn precedence(o: &Operator) -> (r: i32)
    ensures
        r as int == spec_precedence(*o),
{
    match o {
        Operator::Plus | Operator::Substract => 1,
        Operator::Multiply | Operator::Division => 2,
        _ => -1,
    }
}

fn num_result(r: Option<Num>) -> (s: Scalar)
    ensures
        s@ == num_or_null(r),
{
    match r {
        Some(n) => Scalar::Number(n),
        None => Scalar::Null,
    }
}

impl Scalar {
    pub fn copy(&self) -> (r: Scalar)
        ensures
            r == *self,
    {
        match self {
            Scalar::Null => Scalar::Null,
            Scalar::Bool(b) => Scalar::Bool(*b),
            Scalar::Number(n) => Scalar::Number(*n),
            Scalar::String(s) => Scalar::String(s.clone()),
        }
    }

    /// Equality in the sense of `scalar_eq`.
    pub fn same(&self, o: &Scalar) -> (r: bool)
        ensures
            r == scalar_eq(self@, o@),
    {
        match (self, o) {
            (Scalar::Null, Scalar::Null) => true,
            (Scalar::Bool(a), Scalar::Bool(b)) => *a == *b,
            (Scalar::Number(a), Scalar::Number(b)) => a.same(b),
            (Scalar::String(a), Scalar::String(b)) => *a == *b,
            _ => false,
        }
    }

    /// Order in the sense of `scalar_lt`.
    pub fn less(&self, o: &Scalar) -> (r: bool)
        ensures
            r == scalar_lt(self@, o@),
    {
        match (self, o) {
            (Scalar::Number(a), Scalar::Number(b)) => a.less(b),
            _ => false,
        }
    }

    pub fn combine(op: &Operator, l: &Scalar, r: &Scalar) -> (s: Scalar)
        ensures
            s@ == scalar_combine(*op, l@, r@),
    {
        match op {
            Operator::Plus => match (l, r) {
                (Scalar::Number(a), Scalar::Number(b)) => num_result(a.sum(b)),
                (Scalar::String(a), Scalar::String(b)) => {
                    let mut c = a.clone();
                    c.append(b.as_str());
                    Scalar::String(c)
                },
                _ => Scalar::Null,
            },
            Operator::Substract => match (l, r) {
                (Scalar::Number(a), Scalar::Number(b)) => num_result(a.difference(b)),
                _ => Scalar::Null,
            },
            Operator::Multiply => match (l, r) {
                (Scalar::Number(a), Scalar::Number(b)) => num_result(a.product(b)),
                _ => Scalar::Null,
            },
            Operator::Division => match (l, r) {
                (Scalar::Number(a), Scalar::Number(b)) => num_result(a.quotient(b)),
                _ => Scalar::Null,
            },
            Operator::L => Scalar::Bool(l.less(r)),
            Operator::G => Scalar::Bool(r.less(l)),
            Operator::LE => Scalar::Bool(!r.less(l)),
            Operator::GE => Scalar::Bool(!l.less(r)),
            Operator::E => Scalar::Bool(l.same(r)),
            Operator::NE => Scalar::Bool(!l.same(r)),
        }
    }
}

impl Operand {
    pub fn copy(&self) -> (r: Operand)
        ensures
            r == *self,
    {
        match self {
            Operand::Primitive(p) => Operand::Primitive(p.copy()),
            Operand::Variable(s) => Operand::Variable(s.clone()),
            Operand::OperatorToken(o) => Operand::OperatorToken(*o),
            Operand::OpenParen => Operand::OpenParen,
            Operand::CloseParen => Operand::CloseParen,
        }
    }

    /// Applies `op` to two stack entries, as `combine` states.
    pub fn apply(op: &Operator, l: &Operand, r: &Operand) -> (res: Operand)
        ensures
            res@ == combine(*op, l@, r@),
    {
        match (l, r) {
            (Operand::Primitive(a), Operand::Primitive(b)) => Operand::Primitive(
                Scalar::combine(op, a, b),
            ),
            _ => Operand::Primitive(Scalar::Null),
        }
    }
}

} // verus!
