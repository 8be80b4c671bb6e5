use md_logic::json_logic::{from_json, AllCombined};
use md_logic::number::Num;
use md_logic::tokenizer::parse_number;
use md_logic::value::JsonValue;

fn number_of(n: &serde_json::Number) -> JsonValue {
    if let Some(i) = n.as_i64() {
        if i > i64::MIN {
            return JsonValue::Number(Num::from_int(i));
        }
    }
    // f64's Display never uses exponent notation, so this is plain decimal
    let text = match n.as_f64() {
        Some(f) => format!("{}", f),
        None => n.to_string(),
    };
    let parsed = match text.strip_prefix('-') {
        Some(rest) => parse_number(rest).map(|x| x.negated()),
        None => parse_number(&text),
    };
    match parsed {
        Some(x) => JsonValue::Number(x),
        None => JsonValue::Null,
    }
}

fn to_value(v: &serde_json::Value) -> JsonValue {
    match v {
        serde_json::Value::Null => JsonValue::Null,
        serde_json::Value::Bool(b) => JsonValue::Bool(*b),
        serde_json::Value::Number(n) => number_of(n),
        serde_json::Value::String(s) => JsonValue::String(s.clone()),
        serde_json::Value::Array(xs) => JsonValue::Array(xs.iter().map(to_value).collect()),
        serde_json::Value::Object(m) => {
            JsonValue::Object(m.iter().map(|(k, x)| (k.clone(), to_value(x))).collect())
        }
    }
}

fn json(text: &str) -> JsonValue {
    to_value(&serde_json::from_str::<serde_json::Value>(text).unwrap())
}

fn tree(text: &str) -> AllCombined {
    from_json(&json(text))
}

#[test]
fn serializes_more_operator_enum_representation() {
    let cases = vec![
        (r#" { ">" : [3,10] }"#, false),
        (r#" { ">" : [10,3] }"#, true),
        (r#" { "<" : [3,10] }"#, true),
        (r#" { "<" : [30,10] }"#, false),
        (r#" { "=" : [10.0,10.0] }"#, true),
        (r#" { "<=" : [10.0,10.0] }"#, true),
        (r#" { "<=" : [12.0,10.0] }"#, false),
        (r#" { ">=" : [10.0,10.0] }"#, true),
        (r#" { ">=" : [9.0,10.0] }"#, false),
        (r#" { "!=" : [9.0,10.0] }"#, true),
        (r#" { "!=" : [10.0,10.0] }"#, false),
        (r#" { "!=" : [true,false] }"#, true),
        (r#" { "=" : [true,true] }"#, true),
        (r#" { "=" : [{ "<" : [3,10] },{ ">": [1, 0] }] }"#, true),
        (r#" { "=" : ["hi","hi"] }"#, true),
        (r#" { "=" : ["hi","hi2"] }"#, false),
        (r#" { "=" : ["hi", 2] }"#, false),
        (r#" { ">" : ["hi", 2] }"#, false),
        (r#" { "=" : [{"+": [1,1]}, 2.0] }"#, true),
        (r#" { "=" : [{"-": [2,1]}, 1.0] }"#, true),
        (r#" { "=" : [{"*": [2,3]}, 6.0] }"#, true),
        (r#" { "=" : [{"/": [6,3]}, 2.0] }"#, true),
        (r#" { "=" : [{"/": [6,0]}, null] }"#, true),
        (r#" { "=" : [{"var" : "champ.name"}, "Fezzig"] }"#, true),
        (
            r#" { "=" : [{"var" : "challenger.name"}, "Dread Pirate Roberts"] }"#,
            true,
        ),
        (r#" { "=" : [{"var" : "rounds"}, 4] }"#, true),
        (
            r#"{
                "and": [
                    { ">": [3, 1] },
                    { "<": [1, 3] }
                ]
            }"#,
            true,
        ),
    ];

    let context = json(
        r#"{
            "rounds" : 4, 
            "champ" : {
              "name" : "Fezzig",
              "height" : 223
            },
            "challenger" : {
              "name" : "Dread Pirate Roberts",
              "height" : 183
            }
          }"#,
    );

    for (data, expected) in cases {
        let p = tree(data);
        let res = p.execute(&context);
        assert_eq!(res, AllCombined::Primitive(JsonValue::Bool(expected)), "{}", data);
    }
}

#[test]
fn nested_tree_examples_from_the_description() {
    let context = json(r#"{"champ":{"name":"Fezzig"}}"#);
    let cases = [
        (r#"{"=":[{"var":"champ.name"}, "Fezzig"]}"#, true),
        (r#"{"and":[{">":[3,1]},{"<":[1,3]}]}"#, true),
        (r#"{"and":[]}"#, false),
    ];
    for (data, expected) in cases {
        assert_eq!(
            tree(data).execute(&context),
            AllCombined::Primitive(JsonValue::Bool(expected)),
            "{}",
            data
        );
    }
}

#[test]
fn nested_tree_short_operand_lists() {
    let context = json("{}");
    assert_eq!(
        tree(r#"{">":[3]}"#).execute(&context),
        AllCombined::Primitive(JsonValue::Bool(false))
    );
    assert_eq!(
        tree(r#"{"+":[3]}"#).execute(&context),
        AllCombined::Primitive(JsonValue::Null)
    );
    assert_eq!(
        tree(r#"{"and":[true, 1]}"#).execute(&context),
        AllCombined::Primitive(JsonValue::Bool(false))
    );
}

#[test]
fn nested_tree_lists_literals_and_arithmetic() {
    let context = json(r#"{"a": {"b": 5}}"#);
    assert_eq!(
        tree(r#"[{"+": [1, 2]}, "x", {"var": "a.b"}]"#).execute(&context),
        AllCombined::OpList(vec![
            AllCombined::Primitive(JsonValue::Number(Num::from_int(3))),
            AllCombined::Primitive(JsonValue::String("x".to_string())),
            AllCombined::Primitive(JsonValue::Number(Num::from_int(5))),
        ])
    );
    assert_eq!(
        tree(r#"{"+": ["ab", "cd"]}"#).execute(&context),
        AllCombined::Primitive(JsonValue::String("abcd".to_string()))
    );
    assert_eq!(
        tree(r#"{"/": [1, 4]}"#).execute(&context),
        AllCombined::Primitive(JsonValue::Number(Num::ratio(1, 4).unwrap()))
    );
    // an object that is not a single operator is a literal
    assert_eq!(
        tree(r#"{"x": 1, "y": 2}"#).execute(&context),
        AllCombined::Primitive(json(r#"{"x": 1, "y": 2}"#))
    );
    assert_eq!(
        tree(r#"{"var": 3}"#),
        AllCombined::Primitive(json(r#"{"var": 3}"#))
    );
    assert_eq!(
        tree(r#"{"var": "a"}"#).execute(&context),
        AllCombined::Primitive(json(r#"{"b": 5}"#))
    );
}
