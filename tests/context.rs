use md_logic::context::{get_context_var, var_to_operand};
use md_logic::number::Num;
use md_logic::operand::{Operand, Scalar};
use md_logic::tokenizer::parse_number;
use md_logic::value::JsonValue;

fn number_of(n: &serde_json::Number) -> JsonValue {
    if let Some(i) = n.as_i64() {
        if i > i64::MIN {
            return JsonValue::Number(Num::from_int(i));
        }
    }
    // f64's Display never uses exponent notation, so this is plain decimal
    let text = match n.as_f64() {
        Some(f) => format!("{}", f),
        None => n.to_string(),
    };
    let parsed = match text.strip_prefix('-') {
        Some(rest) => parse_number(rest).map(|x| x.negated()),
        None => parse_number(&text),
    };
    match parsed {
        Some(x) => JsonValue::Number(x),
        None => JsonValue::Null,
    }
}

fn to_value(v: &serde_json::Value) -> JsonValue {
    match v {
        serde_json::Value::Null => JsonValue::Null,
        serde_json::Value::Bool(b) => JsonValue::Bool(*b),
        serde_json::Value::Number(n) => number_of(n),
        serde_json::Value::String(s) => JsonValue::String(s.clone()),
        serde_json::Value::Array(xs) => JsonValue::Array(xs.iter().map(to_value).collect()),
        serde_json::Value::Object(m) => {
            JsonValue::Object(m.iter().map(|(k, x)| (k.clone(), to_value(x))).collect())
        }
    }
}

fn json(text: &str) -> JsonValue {
    to_value(&serde_json::from_str::<serde_json::Value>(text).unwrap())
}

#[test]
fn succeeds_get_context_value_as_operand() -> Result<(), String> {
    let json_str = r#"{ "season": "Fall", "preferences": { "type": "vegetarian" }, "count": 1 }
                "#;

    let context = json(json_str);

    let c = var_to_operand(&"season".to_owned(), &context);
    assert_eq!(c, Operand::Primitive(Scalar::String("Fall".to_owned())));

    let num = var_to_operand(&"count".to_owned(), &context);
    assert_eq!(num, Operand::Primitive(Scalar::Number(Num::from_int(1))));

    let missing_val = var_to_operand(&"NoExist.subParam".to_owned(), &context);
    assert_eq!(missing_val, Operand::Primitive(Scalar::Null));

    Ok(())
}

#[test]
fn succeeds_get_context_value() -> Result<(), String> {
    let json_str = r#"{ "season": "Fall", "preferences": { "type": "vegetarian" }, "count": 1 }
                "#;

    let context = json(json_str);

    let season = get_context_var(&"season".to_string(), &context);

    assert_eq!(season, JsonValue::String("Fall".to_string()));

    let p_type = get_context_var(&"preferences.type".to_string(), &context);
    assert_eq!(p_type, JsonValue::String("vegetarian".to_string()));

    let missing_val = get_context_var(&"NoExist".to_string(), &context);
    assert_eq!(missing_val, JsonValue::Null);

    let missing_val = get_context_var(&"NoExist.subParam".to_string(), &context);
    assert_eq!(missing_val, JsonValue::Null);

    let num = get_context_var(&"count".to_string(), &context);
    let num_value: Option<f64> = match num {
        JsonValue::Number(column_number) => {
            Some(column_number.numerator() as f64 / column_number.denominator() as f64)
        }
        _ => Some(0.0),
    };

    assert_eq!(num_value, Some(1.0));

    Ok(())
}

#[test]
fn context_value_of_an_object_is_a_copy_of_it() {
    let context = json(r#"{ "a": { "b": [1, 2], "c": null } }"#);
    let a = get_context_var(&"a".to_string(), &context);
    assert_eq!(a, json(r#"{ "b": [1, 2], "c": null }"#));
    assert_eq!(get_context_var(&"a.c".to_string(), &context), JsonValue::Null);
    assert_eq!(get_context_var(&"a.c.d".to_string(), &context), JsonValue::Null);
    assert_eq!(get_context_var(&"a.b.x".to_string(), &context), JsonValue::Null);
    assert_eq!(
        var_to_operand(&"a".to_string(), &context),
        Operand::Primitive(Scalar::Null)
    );
}

#[test]
fn context_numbers_keep_their_exact_value() {
    let context = json(r#"{ "price": 10.25, "debt": -3 }"#);
    assert_eq!(
        var_to_operand(&"price".to_string(), &context),
        Operand::Primitive(Scalar::Number(Num::ratio(41, 4).unwrap()))
    );
    assert_eq!(
        var_to_operand(&"debt".to_string(), &context),
        Operand::Primitive(Scalar::Number(Num::from_int(-3)))
    );
    let context = json(r#"{ "big": 1.5e3 }"#);
    assert_eq!(
        var_to_operand(&"big".to_string(), &context),
        Operand::Primitive(Scalar::Number(Num::from_int(1500)))
    );
}
