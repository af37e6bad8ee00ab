use nadi_core::attrs::Attribute;
use nadi_core::convert::{vec_from_attr, vec_from_attr_relaxed, FromAttribute, FromAttributeRelaxed};

fn arr(v: Vec<Attribute>) -> Attribute {
    Attribute::Array(v)
}

#[test]
fn try_from_attr_relaxed_test() {
    assert!(bool::try_from_attr_relaxed(&Attribute::Integer(2)).unwrap());
    assert_eq!(i64::try_from_attr_relaxed(&Attribute::Bool(false)).unwrap(), 0);
    assert_eq!(i64::try_from_attr_relaxed(&Attribute::Bool(true)).unwrap(), 1);
    let pair = <(i64, bool)>::try_from_attr_relaxed(&arr(vec![Attribute::Integer(2), Attribute::Integer(1)])).unwrap();
    assert_eq!(pair, (2, true));
}

#[test]
fn pairs_and_triples_read_from_arrays() {
    let a = arr(vec![Attribute::Integer(1), Attribute::String("a".to_string()), Attribute::Bool(true)]);
    assert_eq!(<(i64, String)>::from_attr(&a), Some((1, "a".to_string())));
    assert_eq!(<(i64, String, bool)>::from_attr(&a), Some((1, "a".to_string(), true)));
    assert_eq!(<(i64, i64)>::from_attr(&a), None);
    assert_eq!(<(i64, String)>::from_attr(&arr(vec![Attribute::Integer(1)])), None);
    assert!(<(i64, bool)>::try_from_attr(&Attribute::Integer(1)).is_err());
    assert!(<(i64, bool)>::try_from_attr_relaxed(&arr(vec![Attribute::Integer(1)])).is_err());
}

#[test]
fn lists_read_member_by_member() {
    let a = arr(vec![Attribute::Integer(1), Attribute::Integer(2)]);
    assert_eq!(vec_from_attr::<i64>(&a).unwrap(), vec![1, 2]);
    let b = arr(vec![Attribute::Integer(1), Attribute::Bool(true)]);
    assert_eq!(
        vec_from_attr::<i64>(&b).unwrap_err(),
        i64::try_from_attr(&Attribute::Bool(true)).unwrap_err()
    );
    assert_eq!(vec_from_attr_relaxed::<i64>(&b).unwrap(), vec![1, 1]);
    let e = vec_from_attr::<i64>(&Attribute::Integer(3)).unwrap_err();
    assert!(e.starts_with("Incorrect Type: got "));
    assert!(e.ends_with(" instead of Array"));
    assert!(vec_from_attr::<i64>(&arr(vec![])).unwrap().is_empty());
}

#[test]
fn tuple_errors_name_the_member_or_the_shape() {
    let one = arr(vec![Attribute::Integer(1)]);
    assert_eq!(<(i64, bool)>::try_from_attr_relaxed(&one).unwrap_err(), "Not enough members");
    assert_eq!(<(i64, bool)>::try_from_attr(&one).unwrap_err(), "Not enough members");
    let bad = arr(vec![Attribute::Integer(1), Attribute::Integer(2)]);
    assert_eq!(
        <(i64, bool)>::try_from_attr(&bad).unwrap_err(),
        bool::try_from_attr(&Attribute::Integer(2)).unwrap_err()
    );
    let e = <(i64, bool)>::try_from_attr(&Attribute::Integer(3)).unwrap_err();
    assert!(e.starts_with("Incorrect Type: got `"));
    assert!(e.ends_with("` instead of `(i64, bool)`"));
    let e = <(i64,)>::try_from_attr_relaxed(&Attribute::Integer(3)).unwrap_err();
    assert!(e.ends_with(" instead of (i64,)"));
}

#[test]
fn longer_tuples_read_from_arrays() {
    let a = arr((1..=5).map(Attribute::Integer).collect());
    assert_eq!(<(i64,)>::from_attr(&a), Some((1,)));
    assert_eq!(<(i64, i64, i64, i64)>::from_attr(&a), Some((1, 2, 3, 4)));
    assert_eq!(<(i64, i64, i64, i64, i64)>::from_attr(&a), Some((1, 2, 3, 4, 5)));
    assert_eq!(<(bool, bool, bool, bool, bool)>::try_from_attr_relaxed(&a).unwrap(), (true, true, true, true, true));
}
