use nadi_core::parser::table::{parse_table, parse_table_complete};
use nadi_core::table::{is_safe_template, rows_with_diagram, Column, ColumnAlign, Table};
use string_template_plus::{Render, RenderOptions};

fn same(a: &Column, b: &Column) -> bool {
    a.align == b.align && a.header == b.header && a.template == b.template
}

fn check(txt: &str, expected: Vec<Column>) {
    let cols = parse_table(txt).expect("a table file");
    assert_eq!(cols.len(), expected.len());
    for (a, b) in cols.iter().zip(expected.iter()) {
        assert!(same(a, b), "{:?} != {:?}", a, b);
    }
}

#[test]
fn table_single_column_default_align() {
    check(
        "field=> test {here}",
        vec![Column::new("field", "test {here}", Some(ColumnAlign::Center))],
    );
}

#[test]
fn table_left_aligned_column() {
    check(
        "<Field 1 =>{here} is {more_test?\"default\"} 2.4",
        vec![Column::new(
            "Field 1",
            "{here} is {more_test?\"default\"} 2.4",
            Some(ColumnAlign::Left),
        )],
    );
}

#[test]
fn table_comment_before_column() {
    check(
        "#new field\n < field => test {here}\n",
        vec![Column::new("field", "test {here}", Some(ColumnAlign::Left))],
    );
}

#[test]
fn table_two_columns_with_comments() {
    check(
        "#new field\n < field => test {here}\n# an co\n\n<Field 1 =>{here} is {more_test?\"default\"} 2.4",
        vec![
            Column::new("field", "test {here}", Some(ColumnAlign::Left)),
            Column::new(
                "Field 1",
                "{here} is {more_test?\"default\"} 2.4",
                Some(ColumnAlign::Left),
            ),
        ],
    );
}

#[test]
fn table_right_aligned_column() {
    check(
        ">  Area =>{area}\n^ Name => {NAME}\n",
        vec![
            Column::new("Area", "{area}", Some(ColumnAlign::Right)),
            Column::new("Name", "{NAME}", Some(ColumnAlign::Center)),
        ],
    );
}

#[test]
fn table_empty_text_has_no_columns() {
    check("", vec![]);
    check("  \n\n", vec![]);
}

#[test]
fn table_without_arrow_is_rejected() {
    assert!(parse_table("just some words").is_none());
}

#[test]
fn table_complete_adds_line_end() {
    let cols = parse_table_complete("<a => {x}").expect("table");
    assert_eq!(cols.len(), 1);
    assert!(same(&cols[0], &Column::new("a", "{x}", Some(ColumnAlign::Left))));
}

#[test]
fn table_complete_error_message() {
    match parse_table_complete("no arrow here") {
        Ok(_) => panic!("expected an error"),
        Err(m) => assert_eq!(m, "Invalid table file"),
    }
}

#[test]
fn column_templates_parse_in_order() {
    let table = Table {
        columns: vec![Column::new("Name", "{NAME}", None), Column::new("Fixed", "plain", None)],
    };
    assert!(table.templates_are_safe());
    let ts = table.column_templates().unwrap();
    assert_eq!(ts.len(), 2);
    let mut op = RenderOptions::default();
    op.variables.insert("NAME".to_string(), "abc".to_string());
    assert_eq!(ts[0].render(&op).unwrap(), "abc");
    assert_eq!(ts[1].render(&op).unwrap(), "plain");
}

#[test]
fn unsafe_templates_are_recognised() {
    assert!(is_safe_template("{NAME} and {\"x\"?b} {name?\"unknown\"}"));
    assert!(!is_safe_template("caf\u{e9}"));
    assert!(!is_safe_template("{\"?\"}"));
    assert!(!is_safe_template("{a? \"}"));
    assert!(is_safe_template("{a?b}"));
}

#[test]
fn rows_start_with_the_diagram_where_asked() {
    let cells = vec![vec!["a".to_string(), "1".to_string()], vec!["b".to_string(), "2".to_string()]];
    let diagram = vec!["o".to_string(), "|".to_string()];
    let rows = rows_with_diagram(cells.clone(), Some(&diagram));
    assert_eq!(rows, vec![vec!["o", "a", "1"], vec!["|", "b", "2"]]);
    assert_eq!(rows_with_diagram(cells.clone(), None), cells);
}
