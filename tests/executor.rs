use md_logic::executor::interpret;
use md_logic::number::Num;
use md_logic::operand::{Operand, Scalar};
use md_logic::tokenizer::Tokenizer;

fn postfix_for(formula: &str) -> Result<Vec<Operand>, String> {
    let mut tokenizer = Tokenizer::new(&formula);
    tokenizer.parse().map_err(|e| format!("{:?}", e))?;
    tokenizer.to_postfix().map_err(|e| format!("{:?}", e))
}

fn number(n: i64) -> Operand {
    Operand::Primitive(Scalar::Number(Num::from_int(n)))
}

#[test]
fn interpreter_succeeds_adding() -> Result<(), String> {
    let postfix = postfix_for("2+1");
    let formula_result = interpret(&postfix?);
    assert_eq!(formula_result, [number(3)]);
    Ok(())
}

#[test]
fn interpreter_succeeds_adding_string() -> Result<(), String> {
    let postfix = postfix_for("\"hello\"+\"world\"");

    let formula_result = interpret(&postfix?);
    assert_eq!(
        formula_result,
        [Operand::Primitive(Scalar::String("helloworld".to_string()))]
    );
    Ok(())
}

#[test]
fn interpreter_succeeds_substracting() -> Result<(), String> {
    let postfix = postfix_for("2-1");
    let formula_result = interpret(&postfix?);
    assert_eq!(formula_result, [number(1)]);
    Ok(())
}

#[test]
fn interpreter_succeeds_comparing_numbers_greater() -> Result<(), String> {
    let postfix = postfix_for("2>1");
    let formula_result = interpret(&postfix?);
    assert_eq!(formula_result, [Operand::Primitive(Scalar::Bool(true))]);
    Ok(())
}

#[test]
fn interpreter_succeeds_comparing_numbers_less() -> Result<(), String> {
    let postfix = postfix_for("20<1");
    let formula_result = interpret(&postfix?);
    assert_eq!(formula_result, [Operand::Primitive(Scalar::Bool(false))]);
    Ok(())
}

#[test]
fn interpreter_succeeds_comparing_non_eq_numbers() -> Result<(), String> {
    let postfix = postfix_for("20!=20");
    let formula_result = interpret(&postfix?);
    assert_eq!(formula_result, [Operand::Primitive(Scalar::Bool(false))]);
    Ok(())
}

#[test]
fn interpreter_succeeds_comparing_numbers_less_eq() -> Result<(), String> {
    let postfix = postfix_for("20<=20");
    let formula_result = interpret(&postfix?);
    assert_eq!(formula_result, [Operand::Primitive(Scalar::Bool(true))]);
    Ok(())
}

#[test]
fn interpreter_succeeds_comparing_numbers_ne() -> Result<(), String> {
    let postfix = postfix_for("20!=20");
    let formula_result = interpret(&postfix?);
    assert_eq!(formula_result, [Operand::Primitive(Scalar::Bool(false))]);
    Ok(())
}

#[test]
fn interpreter_succeeds_multiply() -> Result<(), String> {
    let postfix = postfix_for("20*2");
    let formula_result = interpret(&postfix?);
    assert_eq!(formula_result, [number(40)]);
    Ok(())
}

#[test]
fn interpreter_succeeds_divide() -> Result<(), String> {
    let postfix = postfix_for("20/2");
    let formula_result = interpret(&postfix?);
    assert_eq!(formula_result, [number(10)]);
    Ok(())
}

#[test]
fn interpreter_succeeds_divide_by_zero() -> Result<(), String> {
    let postfix = postfix_for("20/0");
    let formula_result = interpret(&postfix?);
    assert_eq!(formula_result, [Operand::Primitive(Scalar::Null)]);
    Ok(())
}

#[test]
fn interpreter_succeeds_equality_check() -> Result<(), String> {
    let postfix = postfix_for("2+1=4-1");
    let formula_result = interpret(&postfix?);
    assert_eq!(formula_result, [Operand::Primitive(Scalar::Bool(true))]);
    Ok(())
}

#[test]
fn interpreter_succeeds_sum_with_variable() -> Result<(), String> {
    let postfix = postfix_for("2+extraValue");

    let formula_result = interpret(&postfix?);
    assert_eq!(formula_result, [number(4)]);
    Ok(())
}

#[test]
fn interpreter_keeps_decimals_exact() -> Result<(), String> {
    let formula_result = interpret(&postfix_for("0.1+0.2=0.3")?);
    assert_eq!(formula_result, [Operand::Primitive(Scalar::Bool(true))]);
    let formula_result = interpret(&postfix_for("1/3")?);
    assert_eq!(
        formula_result,
        [Operand::Primitive(Scalar::Number(Num::ratio(1, 3).unwrap()))]
    );
    Ok(())
}

#[test]
fn interpreter_mixed_kinds_give_null_or_equal() -> Result<(), String> {
    assert_eq!(
        interpret(&postfix_for("\"a\"+1")?),
        [Operand::Primitive(Scalar::Null)]
    );
    assert_eq!(
        interpret(&postfix_for("\"a\"-\"b\"")?),
        [Operand::Primitive(Scalar::Null)]
    );
    // values of different kinds are never equal, and never ordered
    assert_eq!(
        interpret(&postfix_for("\"a\"=1")?),
        [Operand::Primitive(Scalar::Bool(false))]
    );
    assert_eq!(
        interpret(&postfix_for("\"a\"<1")?),
        [Operand::Primitive(Scalar::Bool(false))]
    );
    assert_eq!(
        interpret(&postfix_for("\"a\"<=1")?),
        [Operand::Primitive(Scalar::Bool(true))]
    );
    assert_eq!(
        interpret(&postfix_for("\"b\">=\"a\"")?),
        [Operand::Primitive(Scalar::Bool(true))]
    );
    assert_eq!(
        interpret(&postfix_for("\"b\"!=\"a\"")?),
        [Operand::Primitive(Scalar::Bool(true))]
    );
    Ok(())
}

#[test]
fn interpreter_operator_without_operands_leaves_null() -> Result<(), String> {
    assert_eq!(interpret(&postfix_for("11+")?), [Operand::Primitive(Scalar::Null)]);
    Ok(())
}
