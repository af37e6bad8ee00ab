use nadi_core::attrs::{AttrMap, Attribute, Date, DateTime, Time};
use nadi_core::convert::{FromAttribute, FromAttributeRelaxed};
use nadi_core::table::{contents_2_md, Column, ColumnAlign, Table};

#[test]
fn markdown_table() {
    let md = contents_2_md(
        &["a", "bb"],
        &[&ColumnAlign::Left, &ColumnAlign::Right],
        vec![vec!["x".to_string(), "yyy".to_string()]],
    );
    assert_eq!(md, "| a |  bb |\n|:--|----:|\n| x | yyy |\n");
}

#[test]
fn centered_cells() {
    let md = contents_2_md(&["head"], &[&ColumnAlign::Center], vec![vec!["ab".to_string()]]);
    assert_eq!(md, "| head |\n|:----:|\n|  ab  |\n");
}

#[test]
fn table_with_connections_column() {
    let t = Table { columns: vec![Column::new("Name", "{NAME}", None)] };
    let md = t.markdown_from_contents(
        vec![vec!["  ╷".to_string(), "c".to_string()]],
        Some("Conn".to_string()),
    );
    // widths count bytes: the diagram cell is five bytes wide
    assert_eq!(md, "| Conn  | Name |\n|:------|:----:|\n|   ╷   |  c   |\n");
}

#[test]
fn column_defaults_to_center() {
    let c = Column::new("h", "t", None);
    assert!(matches!(c.align, ColumnAlign::Center));
    assert_eq!(ColumnAlign::Right.symbol(), '>');
}

#[test]
fn day_of_year() {
    assert_eq!(Date::new(2020, 3, 1).doy(), 61);
    assert_eq!(Date::new(2021, 3, 1).doy(), 60);
    assert!(Date::leap_year(2000));
    assert!(!Date::leap_year(1900));
    assert_eq!(Date::days_in_month(2, true), 29);
    assert_eq!(Date::days_in_month(4, false), 30);
}

#[test]
fn seconds_round_trip() {
    let t = Time::new(13, 45, 30, 0);
    let s = t.seconds_since_midnight();
    assert_eq!(s, 49530);
    assert_eq!(Time::from_seconds_since_midnight(s), t);
}

#[test]
fn strict_conversions() {
    assert_eq!(bool::try_from_attr(&Attribute::Bool(true)), Ok(true));
    assert_eq!(
        bool::try_from_attr(&Attribute::Integer(1)).unwrap_err(),
        "Incorrect Type: got Integer instead of bool"
    );
    assert_eq!(i64::try_from_attr(&Attribute::Integer(-4)), Ok(-4));
}

#[test]
fn relaxed_conversions() {
    assert_eq!(bool::try_from_attr_relaxed(&Attribute::Integer(0)), Ok(false));
    assert_eq!(bool::try_from_attr_relaxed(&Attribute::Float(0.5f64.to_bits())), Ok(true));
    assert_eq!(bool::try_from_attr_relaxed(&Attribute::Float((-0.0f64).to_bits())), Ok(false));
    assert_eq!(bool::try_from_attr_relaxed(&Attribute::Array(vec![])), Ok(true));
    assert_eq!(i64::try_from_attr_relaxed(&Attribute::Bool(true)), Ok(1));
    assert_eq!(
        i64::try_from_attr_relaxed(&Attribute::String("1".to_string())).unwrap_err(),
        "Incorrect Type: `String` cannot be converted to `i64`"
    );
    let d = Date::new(2000, 1, 2);
    let dt = DateTime::try_from_attr_relaxed(&Attribute::Date(d)).unwrap();
    assert_eq!(dt, DateTime::new(d, Time::new(0, 0, 0, 0), None));
}

#[test]
fn read_after_write() {
    let mut m = AttrMap::new();
    assert!(m.insert("k".to_string(), Attribute::Integer(1)).is_none());
    assert!(matches!(m.insert("k".to_string(), Attribute::Integer(2)), Some(Attribute::Integer(1))));
    assert_eq!(m.len(), 1);
    assert!(matches!(m.get("k"), Some(Attribute::Integer(2))));
    assert_eq!(m.try_attr::<i64>("k"), Ok(2));
    assert_eq!(m.try_attr::<i64>("z").unwrap_err(), "Attribute Error: Attribute z not found in Node");
    assert!(matches!(m.remove("k"), Some(Attribute::Integer(2))));
    assert!(m.is_empty());
}

#[test]
fn type_names() {
    assert_eq!(Attribute::Bool(true).type_name_str(), "Bool");
    assert_eq!(Attribute::Table(AttrMap::new()).type_name_str(), "Table");
}
