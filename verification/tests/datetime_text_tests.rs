use nadi_core::attrs::{Date, DateTime, Time};
use nadi_core::values::{date_from_chars, datetime_from_chars, time_from_chars};

fn chars(s: &str) -> Vec<char> {
    s.chars().collect()
}

#[test]
fn date_text_is_zero_padded() {
    assert_eq!(Date::new(1990, 12, 21).to_string(), "1990-12-21");
    assert_eq!(Date::new(2024, 1, 5).to_string(), "2024-01-05");
    assert_eq!(Date::new(7, 3, 30).to_string(), "07-03-30");
}

#[test]
fn time_text_is_zero_padded() {
    assert_eq!(Time::new(9, 5, 0, 0).to_string(), "09:05:00");
    assert_eq!(Time::new(23, 59, 59, 500).to_string(), "23:59:59");
}

#[test]
fn datetime_text_has_a_space() {
    let dt = DateTime::new(Date::new(2000, 2, 29), Time::new(12, 0, 1, 0), None);
    assert_eq!(dt.to_string(), "2000-02-29 12:00:01");
}

#[test]
fn date_written_then_read_back() {
    let d = Date::new(1987, 6, 4);
    let t = d.to_string();
    let v = chars(&t);
    assert_eq!(date_from_chars(&v, 0, v.len()), Some(d));
}

#[test]
fn time_written_then_read_back() {
    let t = Time::new(6, 7, 8, 0);
    let s = t.to_string();
    let v = chars(&s);
    assert_eq!(time_from_chars(&v, 0, v.len()), Some(t));
}

#[test]
fn datetime_written_then_read_back() {
    let dt = DateTime::new(Date::new(2012, 11, 30), Time::new(1, 2, 3, 0), None);
    let s = dt.to_string();
    let v = chars(&s);
    assert_eq!(datetime_from_chars(&v, 0, v.len()), Some(dt));
}
