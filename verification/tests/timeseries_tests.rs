use nadi_core::node::NodeInner;
use nadi_core::attrs::{Attribute, Date};
use nadi_core::timeseries::{TimeLineInner, TimeSeries, TimeSeriesValues};
use std::rc::Rc;

fn timeline() -> Rc<TimeLineInner> {
    Rc::new(TimeLineInner::new(
        0,
        7200,
        3600,
        true,
        vec!["00:00".to_string(), "01:00".to_string(), "02:00".to_string()],
        "%H:%M",
    ))
}

#[test]
fn timeline_parts() {
    let t = timeline();
    assert_eq!(t.start(), 0);
    assert_eq!(t.end(), 7200);
    assert_eq!(t.step(), 3600);
    assert_eq!(t.str_values(), vec!["00:00", "01:00", "02:00"]);
    assert_eq!(t.datetimefmt(), "%H:%M");
}

#[test]
fn timelines_compare_without_texts() {
    let a = TimeLineInner::new(0, 10, 1, true, vec![], "a");
    let b = TimeLineInner::new(0, 10, 1, true, vec!["x".to_string()], "b");
    let c = TimeLineInner::new(0, 10, 2, true, vec![], "a");
    assert!(a == b);
    assert!(a != c);
}

#[test]
fn series_values_and_types() {
    let tl = timeline();
    let s = TimeSeries::new(tl.clone(), TimeSeriesValues::integers(vec![1, 2, 3]));
    assert_eq!(s.len(), 3);
    assert!(!s.is_empty());
    assert_eq!(s.start(), 0);
    assert_eq!(s.step(), 3600);
    assert_eq!(s.values_type(), "Integers");
    assert_eq!(s.integers(), Some(&[1i64, 2, 3][..]));
    assert!(s.floats().is_none());
    assert_eq!(
        s.try_floats().unwrap_err(),
        "Incorrect Type: timeseries of `Integers` cannot be converted to `f64`"
    );
    let attrs = s.values_as_attributes();
    assert!(matches!(attrs[2], Attribute::Integer(3)));
    let f = TimeSeries::new(tl.clone(), TimeSeriesValues::floats(vec![1.5f64.to_bits()]));
    assert_eq!(f.try_floats().unwrap(), &[1.5f64.to_bits()][..]);
    assert!(s.same_timeline(&f));
    let other = TimeSeries::new(timeline(), TimeSeriesValues::dates(vec![Date::new(2020, 1, 1)]));
    assert!(!s.same_timeline(&other));
    assert!(other.is_timeline(other.timeline()));
    assert_eq!(other.values_type(), "Dates");
}

#[test]
fn empty_series() {
    let s = TimeSeries::new(timeline(), TimeSeriesValues::strings(vec![]));
    assert!(s.is_empty());
    assert_eq!(s.values_as_attributes().len(), 0);
}

#[test]
fn node_time_series() {
    let mut n = NodeInner::new(0, "river");
    assert!(n.ts("flow").is_none());
    assert_eq!(
        n.try_ts("flow").unwrap_err(),
        "Node `river` does not have timeseries `flow`"
    );
    n.set_ts("flow", TimeSeries::new(timeline(), TimeSeriesValues::integers(vec![5, 6])));
    assert_eq!(n.ts("flow").unwrap().len(), 2);
    assert_eq!(n.ts_all().len(), 1);
    assert!(matches!(n.del_attr("NAME"), Some(Attribute::String(s)) if s == "river"));
    assert!(n.attr("NAME").is_none());
}
