use nadi_core::attrs::{AttrMap, Attribute};
use nadi_core::parser::attrs::parse;
use nadi_core::parser::tokenizer::get_tokens;
use nadi_core::parser::ParseErrorType;
use nadi_core::values::FloatTable;

fn attrs_of(txt: &str) -> AttrMap {
    let tokens = get_tokens(txt).expect("tokens");
    parse(tokens, &FloatTable::new()).expect("attributes")
}

fn table<'a>(m: &'a AttrMap, key: &str) -> &'a AttrMap {
    match m.get(key) {
        Some(Attribute::Table(t)) => t,
        other => panic!("{key} is not a table: {:?}", other),
    }
}

#[test]
fn attrs_key_value_without_newline() {
    let m = attrs_of("name=\"Joe\"");
    assert_eq!(m.len(), 1);
    assert!(matches!(m.get("name"), Some(Attribute::String(s)) if s == "Joe"));
}

#[test]
fn attrs_several_lines() {
    let m = attrs_of("a = 1\nb = true\n\nc = [1, 2]\n");
    assert_eq!(m.len(), 3);
    assert!(matches!(m.get("a"), Some(Attribute::Integer(1))));
    assert!(matches!(m.get("b"), Some(Attribute::Bool(true))));
    match m.get("c") {
        Some(Attribute::Array(v)) => {
            assert_eq!(v.len(), 2);
            assert!(matches!(v[1], Attribute::Integer(2)));
        }
        _ => panic!("array"),
    }
}

#[test]
fn attrs_dotted_key_makes_tables() {
    let m = attrs_of("x.y.z = 5\nx.w = 6\n");
    let x = table(&m, "x");
    assert!(matches!(x.get("w"), Some(Attribute::Integer(6))));
    let y = table(x, "y");
    assert!(matches!(y.get("z"), Some(Attribute::Integer(5))));
}

#[test]
fn attrs_group_header() {
    let m = attrs_of("top = 1\n[g.h]\nk = 2\nl = 3\n[other]\nq = 4\n");
    assert!(matches!(m.get("top"), Some(Attribute::Integer(1))));
    let h = table(table(&m, "g"), "h");
    assert_eq!(h.len(), 2);
    assert!(matches!(h.get("k"), Some(Attribute::Integer(2))));
    assert!(matches!(h.get("l"), Some(Attribute::Integer(3))));
    let o = table(&m, "other");
    assert!(matches!(o.get("q"), Some(Attribute::Integer(4))));
    assert!(m.get("k").is_none());
}

#[test]
fn attrs_later_value_replaces_earlier() {
    let m = attrs_of("a = 1\na = 2\n");
    assert_eq!(m.len(), 1);
    assert!(matches!(m.get("a"), Some(Attribute::Integer(2))));
}

#[test]
fn attrs_quoted_keys() {
    let m = attrs_of("\"my key\" = 1\n");
    assert!(matches!(m.get("my key"), Some(Attribute::Integer(1))));
}

#[test]
fn attrs_entering_a_value_is_an_error() {
    let tokens = get_tokens("a = 1\na.b = 2\n").unwrap();
    let e = parse(tokens, &FloatTable::new()).unwrap_err();
    assert!(matches!(e.ty, ParseErrorType::SyntaxError));
    assert_eq!(e.line, 1);
}

#[test]
fn attrs_two_values_on_a_line_is_an_error() {
    let tokens = get_tokens("a = 1 b = 2\n").unwrap();
    let e = parse(tokens, &FloatTable::new()).unwrap_err();
    assert!(matches!(e.ty, ParseErrorType::SyntaxError));
}

#[test]
fn attrs_key_without_value_is_unclosed() {
    let tokens = get_tokens("a").unwrap();
    let e = parse(tokens, &FloatTable::new()).unwrap_err();
    assert!(matches!(e.ty, ParseErrorType::Unclosed));
}

#[test]
fn attrs_unknown_token_is_invalid() {
    let tokens = get_tokens("a -> b\n").unwrap();
    let e = parse(tokens, &FloatTable::new()).unwrap_err();
    assert!(matches!(e.ty, ParseErrorType::InvalidToken));
}

#[test]
fn attrs_node_attribute_file_example() {
    let txt = "stn=\"smithland\"\nnat_7q10=12335.94850131619\norsanco_7q10=16900\nlock=true\n";
    let tokens = get_tokens(txt).unwrap();
    let mut floats = FloatTable::new();
    floats
        .entries
        .push(("12335.94850131619".to_string(), 12335.94850131619f64.to_bits()));
    let m = parse(tokens, &floats).unwrap();
    assert_eq!(m.len(), 4);
    assert!(matches!(m.get("stn"), Some(Attribute::String(s)) if s == "smithland"));
    match m.get("nat_7q10") {
        Some(Attribute::Float(b)) => assert_eq!(f64::from_bits(*b), 12335.94850131619),
        other => panic!("float: {:?}", other),
    }
    assert!(matches!(m.get("orsanco_7q10"), Some(Attribute::Integer(16900))));
    assert!(matches!(m.get("lock"), Some(Attribute::Bool(true))));
}
