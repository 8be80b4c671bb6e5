//! The postfix interpreter, and what it guarantees for well-formed formulas.
use crate::number::Num;
use crate::operand::{Operand, OperandModel, Scalar, ScalarModel, combine, spec_precedence};
use crate::tokenizer::{
    drain, lex, models, lemma_models_drop_last, lemma_models_push, pop_to_open, pop_while,
    postfix_of, sy_scan,
};
use vstd::prelude::*;

verus! {

/// What `interpret` leaves for a variable. `interpret` has no context, so a
/// formula with free variables cannot be evaluated by it: callers substitute
/// context values first (as decision tables do). A variable that reaches
/// `interpret` is not looked up; it is replaced by this fixed placeholder, the
/// number two.
pub open spec fn unbound_variable() -> OperandModel {
    OperandModel::Primitive(ScalarModel::Number(Num::spec_int(2)))
}

/// One token of evaluation. An operator takes the two top entries (the right
/// operand on top); if fewer are there it takes what there is and leaves null.
pub open spec fn eval_step(stack: Seq<OperandModel>, t: OperandModel) -> Seq<OperandModel> {
    match t {
        OperandModel::OperatorToken(o) => if stack.len() >= 2 {
            stack.drop_last().drop_last().push(
                combine(o, stack[stack.len() - 2], stack.last()),
            )
        } else {
            seq![OperandModel::Primitive(ScalarModel::Null)]
        },
        OperandModel::Variable(_) => stack.push(unbound_variable()),
        _ => stack.push(t),
    }
}

/// The evaluation stack after the whole postfix sequence.
pub open spec fn eval_postfix(p: Seq<OperandModel>) -> Seq<OperandModel>
    decreases p.len(),
{
    if p.len() == 0 {
        Seq::empty()
    } else {
        eval_step(eval_postfix(p.drop_last()), p.last())
    }
}

/// Evaluates a postfix sequence and returns what is left on the stack: one
/// value for a balanced sequence. Formulas with free variables are not
/// supported: see `unbound_variable`.
pub fn interpret(postfix: &Vec<Operand>) -> (r: Vec<Operand>)
    ensures
        models(r@) == eval_postfix(models(postfix@)),
{
    let mut stack: Vec<Operand> = Vec::new();
    let mut i: usize = 0;
    assert(models(postfix@).subrange(0, 0) =~= Seq::<OperandModel>::empty());
    assert(models(stack@) =~= Seq::<OperandModel>::empty());
    while i < postfix.len()
        invariant
            i <= postfix@.len(),
            models(stack@) == eval_postfix(models(postfix@).subrange(0, i as int)),
        decreases postfix@.len() - i,
    {
        let ghost before = models(stack@);
        let ghost t = postfix@[i as int]@;
        proof {
            let q = models(postfix@).subrange(0, i + 1);
            assert(q.drop_last() =~= models(postfix@).subrange(0, i as int));
            assert(q.last() == t);
        }
        match &postfix[i] {
            Operand::OperatorToken(o) => {
                if stack.len() >= 2 {
                    proof {
                        lemma_models_drop_last(stack@);
                    }
                    let r = stack.pop().unwrap();
                    proof {
                        lemma_models_drop_last(stack@);
                    }
                    let l = stack.pop().unwrap();
                    let v = Operand::apply(o, &l, &r);
                    proof {
                        lemma_models_push(stack@, v);
                        assert(before[before.len() - 2] == l@);
                    }
                    stack.push(v);
                } else {
                    stack.clear();
                    let v = Operand::Primitive(Scalar::Null);
                    proof {
                        lemma_models_push(stack@, v);
                        assert(models(stack@).push(v@) =~= seq![v@]);
                    }
                    stack.push(v);
                }
            },
            Operand::Variable(_) => {
                let v = Operand::Primitive(Scalar::Number(Num::from_int(2)));
                proof {
                    lemma_models_push(stack@, v);
                }
                stack.push(v);
            },
            p => {
                let v = p.copy();
                proof {
                    lemma_models_push(stack@, v);
                }
                stack.push(v);
            },
        }
        i = i + 1;
    }
    assert(models(postfix@).subrange(0, postfix@.len() as int) =~= models(postfix@));
    stack
}

/// Stack depth after each token when every operator finds two operands;
/// `None` once one does not.
pub open spec fn balanced_depth(p: Seq<OperandModel>) -> Option<int>
    decreases p.len(),
{
    if p.len() == 0 {
        Some(0)
    } else {
        match balanced_depth(p.drop_last()) {
            Some(k) => if p.last() is OperatorToken {
                if k >= 2 {
                    Some(k - 1)
                } else {
                    None
                }
            } else {
                Some(k + 1)
            },
            None => None,
        }
    }
}

/// Whether every operator of `p` finds two operands and exactly one value is
/// left at the end.
pub fn is_postfix_valid(postfix: &Vec<Operand>) -> (r: bool)
    ensures
        r == (balanced_depth(models(postfix@)) == Some(1int)),
{
    let mut depth: usize = 0;
    let mut ok = true;
    let mut i: usize = 0;
    assert(models(postfix@).subrange(0, 0) =~= Seq::<OperandModel>::empty());
    while i < postfix.len()
        invariant
            i <= postfix@.len(),
            depth <= i,
            ok == (balanced_depth(models(postfix@).subrange(0, i as int)) is Some),
            ok ==> balanced_depth(models(postfix@).subrange(0, i as int)) == Some(depth as int),
        decreases postfix@.len() - i,
    {
        proof {
            let q = models(postfix@).subrange(0, i + 1);
            assert(q.drop_last() =~= models(postfix@).subrange(0, i as int));
            assert(q.last() == postfix@[i as int]@);
        }
        if ok {
            match &postfix[i] {
                Operand::OperatorToken(_) => {
                    if depth >= 2 {
                        depth = depth - 1;
                    } else {
                        ok = false;
                    }
                },
                _ => {
                    depth = depth + 1;
                },
            }
        }
        i = i + 1;
    }
    assert(models(postfix@).subrange(0, postfix@.len() as int) =~= models(postfix@));
    ok && depth == 1
}

/// A balanced sequence leaves as many values as its depth says.
pub proof fn lemma_balanced_eval(p: Seq<OperandModel>)
    requires
        balanced_depth(p) is Some,
    ensures
        eval_postfix(p).len() == balanced_depth(p)->0,
    decreases p.len(),
{
    if p.len() > 0 {
        lemma_balanced_eval(p.drop_last());
    }
}

// ---------------------------------------------------------------------------
// Well-formed infix token sequences
/// Reading state: whether an operand was just completed, and how many
/// parentheses are open.
pub open spec fn infix_step(st: (bool, int), t: OperandModel) -> Option<(bool, int)> {
    match t {
        OperandModel::OpenParen => if !st.0 {
            Some((false, st.1 + 1))
        } else {
            None
        },
        OperandModel::CloseParen => if st.0 && st.1 > 0 {
            Some((true, st.1 - 1))
        } else {
            None
        },
        OperandModel::OperatorToken(_) => if st.0 {
            Some((false, st.1))
        } else {
            None
        },
        _ => if !st.0 {
            Some((true, st.1))
        } else {
            None
        },
    }
}

pub open spec fn infix_scan(ts: Seq<OperandModel>) -> Option<(bool, int)>
    decreases ts.len(),
{
    if ts.len() == 0 {
        Some((false, 0))
    } else {
        match infix_scan(ts.drop_last()) {
            Some(st) => infix_step(st, ts.last()),
            None => None,
        }
    }
}

/// Operands and binary operators alternate, starting and ending with an
/// operand, and parentheses are matched around operands.
pub open spec fn well_formed(ts: Seq<OperandModel>) -> bool {
    infix_scan(ts) == Some((true, 0int))
}

pub open spec fn count_ops(st: Seq<OperandModel>) -> int
    decreases st.len(),
{
    if st.len() == 0 {
        0
    } else {
        count_ops(st.drop_last()) + if st.last() is OperatorToken {
            1int
        } else {
            0
        }
    }
}

pub open spec fn count_open(st: Seq<OperandModel>) -> int
    decreases st.len(),
{
    if st.len() == 0 {
        0
    } else {
        count_open(st.drop_last()) + if st.last() is OpenParen {
            1int
        } else {
            0
        }
    }
}

pub open spec fn stack_ok(st: Seq<OperandModel>) -> bool {
    forall|i: int| 0 <= i < st.len() ==> #[trigger] st[i] is OperatorToken || st[i] is OpenParen
}

/// What the converter's state satisfies after a well-formed prefix.
pub open spec fn sy_inv(out: Seq<OperandModel>, st: Seq<OperandModel>, x: bool, d: int) -> bool {
    &&& stack_ok(st)
    &&& count_open(st) == d
    &&& balanced_depth(out) == Some(
        count_ops(st) + if x {
            1int
        } else {
            0
        },
    )
}

proof fn lemma_stack_ok_drop(st: Seq<OperandModel>)
    requires
        stack_ok(st),
        st.len() > 0,
    ensures
        stack_ok(st.drop_last()),
{
    assert forall|i: int| 0 <= i < st.drop_last().len() implies #[trigger] st.drop_last()[i] is OperatorToken
        || st.drop_last()[i] is OpenParen by {
        assert(st.drop_last()[i] == st[i]);
    }
}

proof fn lemma_stack_ok_push(st: Seq<OperandModel>, t: OperandModel)
    requires
        stack_ok(st),
        t is OperatorToken || t is OpenParen,
    ensures
        stack_ok(st.push(t)),
{
    assert forall|i: int| 0 <= i < st.push(t).len() implies #[trigger] st.push(t)[i] is OperatorToken
        || st.push(t)[i] is OpenParen by {
        if i < st.len() {
            assert(st.push(t)[i] == st[i]);
        }
    }
}

proof fn lemma_count_nonneg(st: Seq<OperandModel>)
    ensures
        count_ops(st) >= 0,
        count_open(st) >= 0,
    decreases st.len(),
{
    if st.len() > 0 {
        lemma_count_nonneg(st.drop_last());
    }
}

proof fn lemma_pop_while(out: Seq<OperandModel>, st: Seq<OperandModel>, p: int)
    requires
        stack_ok(st),
        balanced_depth(out) == Some(count_ops(st) + 1),
    ensures
        stack_ok(pop_while(out, st, p).1),
        count_open(pop_while(out, st, p).1) == count_open(st),
        balanced_depth(pop_while(out, st, p).0) == Some(count_ops(pop_while(out, st, p).1) + 1),
    decreases st.len(),
{
    if st.len() > 0 && st.last() is OperatorToken && spec_precedence(st.last()->OperatorToken_0)
        >= p {
        lemma_stack_ok_drop(st);
        lemma_count_nonneg(st.drop_last());
        assert(out.push(st.last()).drop_last() =~= out);
        lemma_pop_while(out.push(st.last()), st.drop_last(), p);
    }
}

proof fn lemma_pop_to_open(out: Seq<OperandModel>, st: Seq<OperandModel>)
    requires
        stack_ok(st),
        count_open(st) > 0,
        balanced_depth(out) == Some(count_ops(st) + 1),
    ensures
        pop_to_open(out, st) is Some,
        stack_ok((pop_to_open(out, st)->0).1),
        count_open((pop_to_open(out, st)->0).1) == count_open(st) - 1,
        balanced_depth((pop_to_open(out, st)->0).0) == Some(count_ops((pop_to_open(out, st)->0).1) + 1),
    decreases st.len(),
{
    lemma_stack_ok_drop(st);
    lemma_count_nonneg(st.drop_last());
    if !(st.last() is OpenParen) {
        assert(st[st.len() - 1] is OperatorToken);
        assert(out.push(st.last()).drop_last() =~= out);
        lemma_pop_to_open(out.push(st.last()), st.drop_last());
    }
}

proof fn lemma_drain(out: Seq<OperandModel>, st: Seq<OperandModel>)
    requires
        stack_ok(st),
        count_open(st) == 0,
        balanced_depth(out) == Some(count_ops(st) + 1),
    ensures
        drain(out, st) is Ok,
        balanced_depth(drain(out, st)->Ok_0) == Some(1int),
    decreases st.len(),
{
    if st.len() > 0 {
        lemma_stack_ok_drop(st);
        lemma_count_nonneg(st.drop_last());
        assert(st[st.len() - 1] is OperatorToken);
        assert(out.push(st.last()).drop_last() =~= out);
        lemma_drain(out.push(st.last()), st.drop_last());
    }
}

proof fn lemma_sy_inv(ts: Seq<OperandModel>)
    requires
        infix_scan(ts) is Some,
    ensures
        sy_scan(ts) is Ok,
        sy_inv(
            (sy_scan(ts)->Ok_0).0,
            (sy_scan(ts)->Ok_0).1,
            (infix_scan(ts)->0).0,
            (infix_scan(ts)->0).1,
        ),
    decreases ts.len(),
{
    if ts.len() == 0 {
        assert(stack_ok(Seq::<OperandModel>::empty()));
    } else {
        let prev = ts.drop_last();
        lemma_sy_inv(prev);
        let (out, st) = sy_scan(prev)->Ok_0;
        let (x, d) = infix_scan(prev)->0;
        let t = ts.last();
        lemma_count_nonneg(st);
        match t {
            OperandModel::OpenParen => {
                lemma_stack_ok_push(st, t);
                assert(st.push(t).drop_last() =~= st);
            },
            OperandModel::CloseParen => {
                lemma_pop_to_open(out, st);
            },
            OperandModel::OperatorToken(o) => {
                lemma_pop_while(out, st, spec_precedence(o));
                let y = pop_while(out, st, spec_precedence(o));
                lemma_stack_ok_push(y.1, t);
                assert(y.1.push(t).drop_last() =~= y.1);
            },
            _ => {
                assert(out.push(t).drop_last() =~= out);
            },
        }
    }
}

/// For every formula that the lexer accepts and whose tokens are well formed,
/// conversion to postfix succeeds, every operator of the result finds two
/// operands, and evaluation leaves exactly one value.
pub proof fn lemma_round_trip(text: Seq<char>)
    requires
        lex(text) is Ok,
        well_formed(lex(text)->Ok_0),
    ensures
        postfix_of(lex(text)->Ok_0) is Ok,
        balanced_depth(postfix_of(lex(text)->Ok_0)->Ok_0) == Some(1int),
        eval_postfix(postfix_of(lex(text)->Ok_0)->Ok_0).len() == 1,
{
    let ts = lex(text)->Ok_0;
    lemma_sy_inv(ts);
    let (out, st) = sy_scan(ts)->Ok_0;
    lemma_drain(out, st);
    lemma_balanced_eval(postfix_of(ts)->Ok_0);
}

} // verus!
