use md_logic::configs::{hasmap_contains, Gaction, Goal, PlanConfig};
use md_logic::executor::{interpret, is_postfix_valid};
use md_logic::finder::Finder;
use md_logic::json_logic::{from_json, AllCombined};
use md_logic::logic_table::{parse, run_table, TableError, TableFormatError};
use md_logic::number::Num;
use md_logic::operand::{Operand, Scalar};
use md_logic::planner::{to_plan_config, BodyAction, BodyGoal, ParameterValue, PlanBody};
use md_logic::tokenizer::{LexError, ParenError, Tokenizer};
use md_logic::value::JsonValue;

fn evaluate(formula: &str) -> Vec<Operand> {
    let mut t = Tokenizer::new(formula);
    t.parse().unwrap();
    interpret(&t.to_postfix().unwrap())
}

fn number(n: i64) -> Operand {
    Operand::Primitive(Scalar::Number(Num::from_int(n)))
}

#[test]
fn products_bind_tighter_than_sums() {
    assert_eq!(evaluate("2+3*4"), vec![number(14)]);
}

#[test]
fn parentheses_group_first() {
    assert_eq!(evaluate("(2+3)*4"), vec![number(20)]);
}

#[test]
fn strings_concatenate() {
    assert_eq!(
        evaluate("\"hello\"+\"world\""),
        vec![Operand::Primitive(Scalar::String("helloworld".to_string()))]
    );
}

#[test]
fn dividing_by_zero_gives_null() {
    assert_eq!(evaluate("20/0"), vec![Operand::Primitive(Scalar::Null)]);
}

#[test]
fn unmatched_parentheses_fail_conversion() {
    for (text, err) in [
        ("100.00)", ParenError::UnmatchedCloseParen),
        ("100.00(", ParenError::UnmatchedOpenParen),
    ] {
        let mut t = Tokenizer::new(text);
        t.parse().unwrap();
        assert_eq!(t.to_postfix(), Err(err));
    }
}

#[test]
fn well_formed_formula_leaves_one_value() {
    for text in ["(1+2)*3-4/2 >= 7", "((5))", "\"a\"+\"b\" = \"ab\"", "x*2 < 1"] {
        let mut t = Tokenizer::new(text);
        t.parse().unwrap();
        let p = t.to_postfix().unwrap();
        assert!(is_postfix_valid(&p), "{}", text);
        assert_eq!(interpret(&p).len(), 1, "{}", text);
    }
    assert_eq!(
        evaluate("(1+2)*3-4/2 >= 7"),
        vec![Operand::Primitive(Scalar::Bool(true))]
    );
}

const DISHES: &str = r#"
| season   | guestCount | desiredDish |
|----------|------------|------------:|
| string   | number     |      string |
| ##       | ##         |          ## |
| "Fall"   | 8          | "Spaceribs" |
| "Winter" | 8          | "Roastbeef" |
"#;

fn context(season: &str, guests: i64) -> JsonValue {
    JsonValue::Object(vec![
        ("season".to_string(), JsonValue::String(season.to_string())),
        ("guestCount".to_string(), JsonValue::Number(Num::from_int(guests))),
    ])
}

#[test]
fn decision_table_end_to_end() {
    let table = parse(DISHES).unwrap();
    let out = run_table(&table, &context("Fall", 8)).unwrap();
    assert_eq!(out.list.len(), 1);
    assert_eq!(out.list[0].entries.len(), 1);
    assert_eq!(out.list[0].entries[0].0, "desiredDish");
    assert_eq!(
        out.list[0].entries[0].1,
        Operand::Primitive(Scalar::String("\"Spaceribs\"".to_string()))
    );
    let none = run_table(&table, &context("Spring", 8)).unwrap();
    assert_eq!(none.list.len(), 0);
}

#[test]
fn decision_table_collects_every_matching_row() {
    let text = r#"
| guestCount | size  |
|------------|------:|
| number     | text  |
| ##         | ##    |
| >5         | big   |
| <10        | small |
| >=100      | huge  |
"#;
    let table = parse(text).unwrap();
    let out = run_table(&table, &context("Fall", 8)).unwrap();
    assert_eq!(out.list.len(), 2);
    assert_eq!(
        out.list[0].get("size"),
        Some(&Operand::Primitive(Scalar::String("big".to_string())))
    );
    assert_eq!(
        out.list[1].get("size"),
        Some(&Operand::Primitive(Scalar::String("small".to_string())))
    );
    assert!(!out.list[0].contains_key("missing"));
}

#[test]
fn decision_table_reports_a_bad_cell() {
    let text = r#"
| guestCount | size |
|------------|-----:|
| number     | text |
| ##         | ##   |
| (5         | big  |
"#;
    let table = parse(text).unwrap();
    assert_eq!(
        run_table(&table, &context("Fall", 8)).err(),
        Some(TableError::Paren(ParenError::UnmatchedOpenParen))
    );
    let text = r#"
| guestCount | size |
|------------|-----:|
| number     | text |
| ##         | ##   |
| 5 ^ 2      | big  |
"#;
    let table = parse(text).unwrap();
    assert_eq!(
        run_table(&table, &context("Fall", 8)).err(),
        Some(TableError::Lex(LexError::UnknownSymbol { position: 2, symbol: '^' }))
    );
}

#[test]
fn repeated_output_names_keep_the_last_column() {
    let text = r#"
| guestCount | dish  | dish   |
|------------|------:|-------:|
| number     | text  | text   |
| ##         | ##    | ##     |
| 8          | soup  | salad  |
"#;
    let table = parse(text).unwrap();
    let out = run_table(&table, &context("Fall", 8)).unwrap();
    assert_eq!(out.list.len(), 1);
    assert_eq!(out.list[0].entries.len(), 1);
    assert_eq!(
        out.list[0].get("dish"),
        Some(&Operand::Primitive(Scalar::String("salad".to_string())))
    );
}

#[test]
fn table_without_data_rows_is_rejected() {
    let text = r#"
| season   | guestCount | desiredDish |
|----------|------------|------------:|
| string   | number     |      string |
| ##       | ##         |          ## |
"#;
    assert_eq!(parse(text).err(), Some(TableFormatError::NoDataRows));
}

#[test]
fn table_format_errors() {
    assert_eq!(
        parse("| a |\n").err(),
        Some(TableFormatError::InsufficientColumns)
    );
    let short_markers = "| a | b |\n|---|\n| t | t |\n| # | # |\n| 1 | 2 |\n";
    assert_eq!(
        parse(short_markers).err(),
        Some(TableFormatError::InsufficientColumns)
    );
    let mismatch = "| a | b |\n|---|--:| x |\n| t | t |\n| # | # |\n| 1 | 2 |\n";
    // cells of the definition lines beyond the header are ignored
    let t = parse(mismatch).unwrap();
    assert_eq!(t.defs.inputs, vec![("a".to_string(), "t".to_string())]);
    assert_eq!(t.defs.outputs, vec![("b".to_string(), "t".to_string())]);
    // a missing marker leaves its column neither input nor output
    let short_marker = "| a | b | c |\n|---|--:|\n| t | t | t |\n| # | # | # |\n| 1 | 2 |\n";
    let t = parse(short_marker).unwrap();
    assert_eq!(t.defs.inputs.len() + t.defs.outputs.len(), 2);
    let no_output = "| a | b |\n|---|---|\n| t | t |\n| # | # |\n| 1 | 2 |\n";
    assert_eq!(
        parse(no_output).err(),
        Some(TableFormatError::MissingInputOrOutput)
    );
    let wide_row = "| a | b |\n|---|--:|\n| t | t |\n| # | # |\n| 1 | 2 | 3 |\n";
    assert_eq!(parse(wide_row).err(), Some(TableFormatError::RowWidth));
}

fn params(pairs: &[(&str, bool)]) -> Vec<ParameterValue> {
    pairs
        .iter()
        .map(|(p, v)| ParameterValue { parameter: p.to_string(), value: *v })
        .collect()
}

fn body() -> PlanBody {
    PlanBody {
        actions: vec![
            BodyAction {
                name: "getAxe".to_string(),
                cost: 2,
                pre_state: params(&[("hasAxe", false)]),
                post_state: params(&[("hasAxe", true)]),
            },
            BodyAction {
                name: "chopTree".to_string(),
                cost: 4,
                pre_state: params(&[("hasAxe", true)]),
                post_state: params(&[("hasWood", true)]),
            },
            BodyAction {
                name: "buyWood".to_string(),
                cost: 20,
                pre_state: params(&[]),
                post_state: params(&[("hasWood", true)]),
            },
        ],
        goals: vec![BodyGoal { name: "wood".to_string(), state: params(&[("hasWood", true)]) }],
        world_state: params(&[("hasAxe", false), ("hasWood", false)]),
    }
}

#[test]
fn planner_finds_the_cheap_plan() {
    let config = to_plan_config(body()).unwrap();
    let mut finder = Finder::new(&config);
    let plan = finder.execute();
    assert_eq!(plan, vec!["getAxe".to_string(), "chopTree".to_string()]);
    let mut expensive = body();
    expensive.actions[0].cost = 30;
    let config = to_plan_config(expensive).unwrap();
    assert_eq!(Finder::new(&config).execute(), vec!["buyWood".to_string()]);
    let mut stuck = body();
    stuck.actions.truncate(1);
    let config = to_plan_config(stuck).unwrap();
    assert_eq!(Finder::new(&config).execute(), Vec::<String>::new());
}

#[test]
fn planner_request_must_not_be_empty() {
    let mut b = body();
    b.world_state = vec![];
    assert!(to_plan_config(b).is_err());
    let mut b = body();
    b.goals = vec![];
    assert!(to_plan_config(b).is_err());
}

#[test]
fn state_inclusion_uses_the_last_value_of_a_key() {
    let big = vec![("a".to_string(), true), ("b".to_string(), false), ("a".to_string(), false)];
    assert!(hasmap_contains(&big, &vec![("a".to_string(), false)]));
    assert!(!hasmap_contains(&big, &vec![("a".to_string(), true)]));
    assert!(!hasmap_contains(&big, &vec![("c".to_string(), true)]));
    assert!(hasmap_contains(&big, &vec![]));
    let action = Gaction {
        cost: 1,
        pre_state: vec![("b".to_string(), false)],
        post_state: vec![("b".to_string(), true), ("c".to_string(), true)],
    };
    assert!(action.are_preconditions_met(&big));
    let mut state = big.clone();
    action.update_with_post_conditions(&mut state);
    assert!(hasmap_contains(
        &state,
        &vec![("a".to_string(), false), ("b".to_string(), true), ("c".to_string(), true)]
    ));
    let _unused = PlanConfig { actions: vec![], goals: vec![Goal { name: "g".to_string(), state: vec![] }], world_state: vec![] };
}

#[test]
fn formula_and_tree_evaluators_agree() {
    let cases: [(&str, JsonValue); 5] = [
        ("7/2", JsonValue::Number(Num::ratio(7, 2).unwrap())),
        ("\"a\"<3", JsonValue::Bool(false)),
        ("\"a\"<=3", JsonValue::Bool(true)),
        ("4-9", JsonValue::Number(Num::from_int(-5))),
        ("1/0", JsonValue::Null),
    ];
    let trees = [
        ("/", JsonValue::Number(Num::from_int(7)), JsonValue::Number(Num::from_int(2))),
        ("<", JsonValue::String("a".to_string()), JsonValue::Number(Num::from_int(3))),
        ("<=", JsonValue::String("a".to_string()), JsonValue::Number(Num::from_int(3))),
        ("-", JsonValue::Number(Num::from_int(4)), JsonValue::Number(Num::from_int(9))),
        ("/", JsonValue::Number(Num::from_int(1)), JsonValue::Number(Num::from_int(0))),
    ];
    for ((formula, expected), (key, a, b)) in cases.into_iter().zip(trees.into_iter()) {
        let scalar = match &expected {
            JsonValue::Null => Scalar::Null,
            JsonValue::Bool(x) => Scalar::Bool(*x),
            JsonValue::Number(n) => Scalar::Number(*n),
            _ => unreachable!(),
        };
        assert_eq!(evaluate(formula), vec![Operand::Primitive(scalar)], "{}", formula);
        let node = JsonValue::Object(vec![(key.to_string(), JsonValue::Array(vec![a, b]))]);
        let result = from_json(&node).execute(&JsonValue::Null);
        assert_eq!(result, AllCombined::Primitive(expected), "{}", formula);
    }
}
