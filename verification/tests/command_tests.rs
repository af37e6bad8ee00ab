use nadi_core::attrs::Attribute;
use nadi_core::command::{key_val, var_lines};
use nadi_core::values::FloatTable;

#[test]
fn key_val_reads_one_value() {
    let (k, v) = key_val("name=\"Joe\"", &FloatTable::new()).unwrap();
    assert_eq!(k, "name");
    assert!(matches!(v, Attribute::String(s) if s == "Joe"));
    let (k, v) = key_val("count = 3", &FloatTable::new()).unwrap();
    assert_eq!(k, "count");
    assert!(matches!(v, Attribute::Integer(3)));
}

#[test]
fn key_val_errors() {
    assert_eq!(key_val("", &FloatTable::new()).unwrap_err(), "No values read");
    assert!(key_val("x = ", &FloatTable::new()).unwrap_err().starts_with("ParseError at line 0"));
    assert_eq!(key_val("x\n  ?y", &FloatTable::new()).unwrap_err(), "TokenError: Error at line 1 col 3");
}

#[test]
fn var_lines_read_marked_lines_in_order() {
    let out = "starting\nnadi:var:a=1\r\nother line\nnadi:var:b=true\nnadi:varc=2";
    let v = var_lines(out, &FloatTable::new()).unwrap();
    assert_eq!(v.len(), 2);
    assert_eq!(v[0].0, "a");
    assert!(matches!(v[0].1, Attribute::Integer(1)));
    assert_eq!(v[1].0, "b");
    assert!(matches!(v[1].1, Attribute::Bool(true)));
}

#[test]
fn var_lines_stop_at_the_first_bad_line() {
    let out = "nadi:var:a=1\nnadi:var:\nnadi:var:b=2\n";
    assert_eq!(var_lines(out, &FloatTable::new()).unwrap_err(), "No values read");
    assert!(var_lines("no values here\n", &FloatTable::new()).unwrap().is_empty());
}
