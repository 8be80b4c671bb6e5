use md_logic::executor::is_postfix_valid;
use md_logic::number::Num;
use md_logic::operand::{Operand, Operator, Scalar};
use md_logic::tokenizer::{LexError, ParenError, Tokenizer};

fn number(n: i64) -> Operand {
    Operand::Primitive(Scalar::Number(Num::from_int(n)))
}

fn variable(name: &str) -> Operand {
    Operand::Variable(name.to_string())
}

fn lex_err(e: LexError) -> String {
    format!("{:?}", e)
}

fn paren_err(e: ParenError) -> String {
    format!("{:?}", e)
}

#[test]
fn parses_expression() -> Result<(), String> {
    let formula = "100.00<=
 ((aA+(b*c))-d*2 )";

    let mut parser = Tokenizer::new(&formula);
    let res = parser.parse();
    assert!(res.is_ok());
    assert!(parser.operands().len() == 17);

    let postfix = parser.to_postfix().map_err(paren_err)?;
    assert!(postfix.len() == 11);
    assert_eq!(
        postfix,
        vec![
            number(100),
            variable("aA"),
            variable("b"),
            variable("c"),
            Operand::OperatorToken(Operator::Multiply),
            Operand::OperatorToken(Operator::Plus),
            variable("d"),
            number(2),
            Operand::OperatorToken(Operator::Multiply),
            Operand::OperatorToken(Operator::Substract),
            Operand::OperatorToken(Operator::LE),
        ]
    );
    Ok(())
}

#[test]
fn parses_no_paren_expression() -> Result<(), String> {
    let formula = "aA+b *c-d*2";

    let mut parser = Tokenizer::new(&formula);
    let res = parser.parse();
    assert!(res.is_ok());
    assert!(parser.operands().len() == 9);

    let postfix = parser.to_postfix().map_err(paren_err)?;
    assert!(postfix.len() == 9);
    assert_eq!(
        postfix,
        vec![
            variable("aA"),
            variable("b"),
            variable("c"),
            Operand::OperatorToken(Operator::Multiply),
            Operand::OperatorToken(Operator::Plus),
            variable("d"),
            number(2),
            Operand::OperatorToken(Operator::Multiply),
            Operand::OperatorToken(Operator::Substract),
        ]
    );
    Ok(())
}

#[test]
fn fails_expression_unknown_symbol() {
    let formula = "100.00<)^";
    let mut parser = Tokenizer::new(&formula);
    let res = parser.parse();
    assert!(!res.is_ok());
}

#[test]
fn fails_expression_no_open_paren() -> Result<(), String> {
    let formula = "100.00)";
    let mut parser = Tokenizer::new(&formula);
    parser.parse().map_err(lex_err)?;
    let postfix = parser.to_postfix();
    assert!(!postfix.is_ok());
    Ok(())
}

#[test]
fn fails_expression_no_closing_paren() -> Result<(), String> {
    let formula = "100.00(";
    let mut parser = Tokenizer::new(&formula);
    parser.parse().map_err(lex_err)?;

    let postfix = parser.to_postfix();
    assert!(!postfix.is_ok());
    Ok(())
}

#[test]
fn succeeds_single_string_literal_element() -> Result<(), String> {
    let formula = "\"hello\"";
    let mut parser = Tokenizer::new(&formula);
    parser.parse().map_err(lex_err)?;

    let postfix = parser.to_postfix();
    assert!(postfix.is_ok());

    assert_eq!(
        postfix.map_err(paren_err)?,
        vec![Operand::Primitive(Scalar::String("hello".to_string()))]
    );
    Ok(())
}

#[test]
fn fail_string_missing_quote() -> Result<(), String> {
    let formula = "\"miss you";
    let mut parser = Tokenizer::new(&formula);
    let failed_string_parse = parser.parse();

    assert!(!failed_string_parse.is_ok());
    Ok(())
}

#[test]
fn fail_number_with_many_dots() -> Result<(), String> {
    let formula = "100.00.0";
    let mut parser = Tokenizer::new(&formula);
    let failed_number = parser.parse();

    assert!(!failed_number.is_ok());
    Ok(())
}

#[test]
fn succeeds_single_number_element() -> Result<(), String> {
    let formula = "101.001";
    let mut parser = Tokenizer::new(&formula);
    parser.parse().map_err(lex_err)?;

    let postfix = parser.to_postfix();
    assert!(postfix.is_ok());

    assert_eq!(
        postfix.map_err(paren_err)?,
        vec![Operand::Primitive(Scalar::Number(
            Num::ratio(101001, 1000).unwrap()
        ))]
    );
    Ok(())
}

#[test]
fn succeeds_single_variable() -> Result<(), String> {
    let formula = "expectedVariable";
    let mut parser = Tokenizer::new(&formula);
    parser.parse().map_err(lex_err)?;

    let postfix = parser.to_postfix();
    assert!(postfix.is_ok());

    assert_eq!(postfix.map_err(paren_err)?, vec![variable("expectedVariable")]);
    Ok(())
}

#[test]
fn succeeds_single_boolean() -> Result<(), String> {
    let formula = "true";
    let mut parser = Tokenizer::new(&formula);
    parser.parse().map_err(lex_err)?;

    let postfix = parser.to_postfix();
    assert!(postfix.is_ok());

    assert_eq!(
        postfix.map_err(paren_err)?,
        vec![Operand::Primitive(Scalar::Bool(true))]
    );
    Ok(())
}

#[test]
fn succeeds_inserting_to_biginning() -> Result<(), String> {
    let formula = "<10";
    let mut parser = Tokenizer::new(&formula);
    parser.parse().map_err(lex_err)?;

    let start_with_operand = parser.starts_with_operand();
    assert_eq!(start_with_operand, true);

    parser.insert_start(number(11));

    let postfix = parser.to_postfix();
    assert!(postfix.is_ok());

    assert_eq!(
        postfix.map_err(paren_err)?,
        vec![number(11), number(10), Operand::OperatorToken(Operator::L)]
    );
    Ok(())
}

#[test]
fn succeeds_inserting_implicit_operator() -> Result<(), String> {
    let formula = "10";
    let mut parser = Tokenizer::new(&formula);
    parser.parse().map_err(lex_err)?;

    let start_with_operand = parser.starts_with_operand();
    assert_eq!(start_with_operand, false);

    parser.insert_start(Operand::OperatorToken(Operator::E));
    parser.insert_start(number(11));

    let postfix = parser.to_postfix();
    assert!(postfix.is_ok());

    assert_eq!(
        postfix.map_err(paren_err)?,
        vec![number(11), number(10), Operand::OperatorToken(Operator::E)]
    );
    Ok(())
}

#[test]
fn reserved_bool_operand() -> Result<(), String> {
    let formula = "true + false";
    let mut parser = Tokenizer::new(&formula);
    parser.parse().map_err(lex_err)?;
    let postfix = parser.to_postfix();
    assert_eq!(
        postfix.map_err(paren_err)?,
        vec![
            Operand::Primitive(Scalar::Bool(true)),
            Operand::Primitive(Scalar::Bool(false)),
            Operand::OperatorToken(Operator::Plus)
        ]
    );
    Ok(())
}

#[test]
fn succeeds_operator_check() -> Result<(), String> {
    let formula = "11+10";
    let mut parser = Tokenizer::new(&formula);
    parser.parse().map_err(lex_err)?;

    let postfix = parser.to_postfix();
    assert!(postfix.is_ok());

    assert_eq!(is_postfix_valid(&postfix.map_err(paren_err)?), true);
    Ok(())
}

#[test]
fn fails_operator_check_on_right() -> Result<(), String> {
    let formula = "11+";
    let mut parser = Tokenizer::new(&formula);
    parser.parse().map_err(lex_err)?;
    let postfix = parser.to_postfix();
    assert_eq!(is_postfix_valid(&postfix.map_err(paren_err)?), false);
    Ok(())
}

#[test]
fn fails_operator_check_on_left() -> Result<(), String> {
    let formula = "+11";
    let mut parser = Tokenizer::new(&formula);
    parser.parse().map_err(lex_err)?;
    let postfix = parser.to_postfix();
    assert_eq!(is_postfix_valid(&postfix.map_err(paren_err)?), false);
    Ok(())
}

#[test]
fn lexer_reports_each_error_kind() {
    let mut p = Tokenizer::new("\"open");
    assert_eq!(p.parse(), Err(LexError::UnterminatedString { position: 0 }));
    let mut p = Tokenizer::new("2*-3");
    assert_eq!(
        p.parse(),
        Err(LexError::UnsupportedOperator { text: "*-".to_string(), position: 1 })
    );
    let mut p = Tokenizer::new("2 ^ 3");
    assert_eq!(
        p.parse(),
        Err(LexError::UnknownSymbol { position: 2, symbol: '^' })
    );
    // a failed read leaves no tokens behind
    assert_eq!(p.operands().len(), 0);
}

#[test]
fn long_numerals_are_read_exactly_or_as_null() {
    let mut p = Tokenizer::new("1.0000000000000000000 4611686018427387903.5 99999999999999999999 12345678901234567890123456789012345678901");
    assert!(p.parse().is_ok());
    assert_eq!(
        p.operands().clone(),
        vec![
            number(1),
            Operand::Primitive(Scalar::Number(
                Num::ratio(9223372036854775807, 2).unwrap()
            )),
            Operand::Primitive(Scalar::Null),
            Operand::Primitive(Scalar::Null),
        ]
    );
}

#[test]
fn lexer_splits_letters_from_digits_and_reads_each_operator() {
    let mut p = Tokenizer::new("ab12\t!= <= >= = < > - / *\n");
    assert!(p.parse().is_ok());
    assert_eq!(
        p.operands().clone(),
        vec![
            variable("ab"),
            number(12),
            Operand::OperatorToken(Operator::NE),
            Operand::OperatorToken(Operator::LE),
            Operand::OperatorToken(Operator::GE),
            Operand::OperatorToken(Operator::E),
            Operand::OperatorToken(Operator::L),
            Operand::OperatorToken(Operator::G),
            Operand::OperatorToken(Operator::Substract),
            Operand::OperatorToken(Operator::Division),
            Operand::OperatorToken(Operator::Multiply),
        ]
    );
    // a second read adds nothing
    assert!(p.parse().is_ok());
    assert_eq!(p.operands().len(), 11);
}

#[test]
fn unmatched_parens_fail_in_both_directions() -> Result<(), String> {
    let mut p = Tokenizer::new("100.00)");
    p.parse().map_err(lex_err)?;
    assert_eq!(p.to_postfix(), Err(ParenError::UnmatchedCloseParen));
    let mut p = Tokenizer::new("100.00(");
    p.parse().map_err(lex_err)?;
    assert_eq!(p.to_postfix(), Err(ParenError::UnmatchedOpenParen));
    Ok(())
}

#[test]
fn equal_precedence_is_left_associative() -> Result<(), String> {
    let mut p = Tokenizer::new("8-3-2");
    p.parse().map_err(lex_err)?;
    assert_eq!(
        p.to_postfix().map_err(paren_err)?,
        vec![
            number(8),
            number(3),
            Operand::OperatorToken(Operator::Substract),
            number(2),
            Operand::OperatorToken(Operator::Substract),
        ]
    );
    Ok(())
}
