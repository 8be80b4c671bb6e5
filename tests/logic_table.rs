use md_logic::logic_table::{parse, run_table, Table, TableOutputs};
use md_logic::number::Num;
use md_logic::operand::{Operand, Scalar};
use md_logic::value::JsonValue;

const TABLE: &str = r#"
    | season   | guestCount | desiredDish |
    |----------|------------|------------:|
    | string   | number     |      string |
    | ##       | ##         |          ## |
    | "Fall"   | 8          | "Spaceribs" |
    | "Winter" | 8          | "Roastbeef" |"#;

fn get_test_table() -> Result<Table, String> {
    parse(TABLE).map_err(|e| format!("{:?}", e))
}

fn context(season: &str, guests: i64) -> JsonValue {
    JsonValue::Object(vec![
        ("season".to_string(), JsonValue::String(season.to_string())),
        ("guestCount".to_string(), JsonValue::Number(Num::from_int(guests))),
    ])
}

#[test]
fn correct_md_table_size() -> Result<(), String> {
    let table = get_test_table()?;
    assert_eq!(table.defs.inputs.len(), 2);
    assert_eq!(table.defs.outputs.len(), 1);
    assert_eq!(table.rows.len(), 2); // actual 2 data/logic rows

    assert_eq!(table.defs.inputs[0].1, "string".to_owned());
    assert_eq!(table.defs.inputs[1].1, "number".to_owned());
    assert_eq!(table.defs.outputs[0].1, "string".to_owned());

    assert_eq!(table.rows[1].cells[2], "\"Roastbeef\"".to_owned());

    Ok(())
}

#[test]
fn execute_md_table() -> Result<(), String> {
    let table = get_test_table()?;
    let context = context("Fall", 8);
    let TableOutputs { list } = run_table(&table, &context).map_err(|e| format!("{:?}", e))?;

    assert_eq!(list.len(), 1);

    let firs_res = &list[0];
    assert_eq!(firs_res.contains_key("desiredDish"), true);
    assert_eq!(
        firs_res.get("desiredDish"),
        Some(&Operand::Primitive(Scalar::String("\"Spaceribs\"".to_owned())))
    );

    Ok(())
}

#[test]
fn md_table_expect_failure_insufficient_wrows() -> Result<(), String> {
    let contents = r#"
        | season   | guestCount | desiredDish |
        |----------|------------|------------:|
        | string   | number     |      string |
        | ##       | ##         |          ## |
        "#;

    let table = parse(&contents);

    match table {
        Ok(_) => Err("table should be broken".to_string()),
        Err(_) => Ok(()),
    }
}
