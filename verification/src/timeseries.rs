//! Time series: values of one type along a timeline. Floats are held as
//! their IEEE-754 bit patterns, as in attributes.
use vstd::prelude::*;
use std::rc::Rc;
use crate::attrs::{Attribute, Val, Date, Time, DateTime, attrs_view, lemma_attrs_view};
use crate::text::{owned, push_str};

verus! {

/// The times of a series: start, end and step (in seconds), whether the
/// steps are regular, and the times as text with the format they use.
#[derive(Debug)]
pub struct TimeLineInner {
    start: i64,
    end: i64,
    step: i64,
    regular: bool,
    str_values: Vec<String>,
    datetimefmt: String,
}

impl PartialEq for TimeLineInner {
    /// Timelines are equal where start, end, step and regularity are; the
    /// texts only serve printing.
    fn eq(&self, other: &Self) -> (r: bool) {
        self.start == other.start && self.end == other.end && self.step == other.step
            && self.regular == other.regular
    }
}

impl vstd::std_specs::cmp::PartialEqSpecImpl for TimeLineInner {
    open spec fn obeys_eq_spec() -> bool {
        true
    }

    open spec fn eq_spec(&self, other: &Self) -> bool {
        self.start_spec() == other.start_spec() && self.end_spec() == other.end_spec()
            && self.step_spec() == other.step_spec() && self.regular_spec() == other.regular_spec()
    }
}

pub open spec fn strings_view(v: Seq<String>) -> Seq<Seq<char>> {
    v.map_values(|s: String| s@)
}

impl TimeLineInner {
    pub closed spec fn start_spec(&self) -> i64 {
        self.start
    }

    pub closed spec fn end_spec(&self) -> i64 {
        self.end
    }

    pub closed spec fn step_spec(&self) -> i64 {
        self.step
    }

    pub closed spec fn regular_spec(&self) -> bool {
        self.regular
    }

    pub closed spec fn texts(&self) -> Seq<Seq<char>> {
        strings_view(self.str_values@)
    }

    pub closed spec fn format_spec(&self) -> Seq<char> {
        self.datetimefmt@
    }

    pub fn new(start: i64, end: i64, step: i64, regular: bool, str_values: Vec<String>, datetimefmt: &str) -> (t: Self)
        ensures
            t.start_spec() == start,
            t.end_spec() == end,
            t.step_spec() == step,
            t.regular_spec() == regular,
            t.texts() == strings_view(str_values@),
            t.format_spec() == datetimefmt@,
    {
        TimeLineInner { start, end, step, regular, str_values, datetimefmt: owned(datetimefmt) }
    }

    pub fn start(&self) -> (s: i64)
        ensures
            s == self.start_spec(),
    {
        self.start
    }

    pub fn end(&self) -> (e: i64)
        ensures
            e == self.end_spec(),
    {
        self.end
    }

    pub fn step(&self) -> (s: i64)
        ensures
            s == self.step_spec(),
    {
        self.step
    }

    /// The times as text.
    pub fn str_values(&self) -> (v: Vec<&str>)
        ensures
            v@.len() == self.texts().len(),
            forall|i: int| 0 <= i < v@.len() ==> #[trigger] v@[i]@ == self.texts()[i],
    {
        let mut v: Vec<&str> = Vec::new();
        let mut i: usize = 0;
        while i < self.str_values.len()
            invariant
                i <= self.str_values.len(),
                v@.len() == i,
                forall|j: int| 0 <= j < i ==> #[trigger] v@[j]@ == self.texts()[j],
            decreases self.str_values.len() - i,
        {
            v.push(self.str_values[i].as_str());
            i = i + 1;
        }
        v
    }

    pub fn datetimefmt(&self) -> (s: &str)
        ensures
            s@ == self.format_spec(),
    {
        self.datetimefmt.as_str()
    }
}

/// The values of a series, all of one type.
#[derive(Debug)]
pub enum TimeSeriesValues {
    Floats(Vec<u64>),
    Integers(Vec<i64>),
    Strings(Vec<String>),
    Booleans(Vec<bool>),
    Dates(Vec<Date>),
    Times(Vec<Time>),
    DateTimes(Vec<DateTime>),
    Attributes(Vec<Attribute>),
}

/// The values as attributes.
pub open spec fn series_vals(v: TimeSeriesValues) -> Seq<Val> {
    match v {
        TimeSeriesValues::Floats(x) => x@.map_values(|f: u64| Val::Float(f)),
        TimeSeriesValues::Integers(x) => x@.map_values(|i: i64| Val::Integer(i)),
        TimeSeriesValues::Strings(x) => x@.map_values(|s: String| Val::Str(s@)),
        TimeSeriesValues::Booleans(x) => x@.map_values(|b: bool| Val::Bool(b)),
        TimeSeriesValues::Dates(x) => x@.map_values(|d: Date| Val::Date(d)),
        TimeSeriesValues::Times(x) => x@.map_values(|t: Time| Val::Time(t)),
        TimeSeriesValues::DateTimes(x) => x@.map_values(|d: DateTime| Val::DateTime(d)),
        TimeSeriesValues::Attributes(x) => attrs_view(x@),
    }
}

/// The name of the values' type.
pub open spec fn series_type_name(v: TimeSeriesValues) -> Seq<char> {
    match v {
        TimeSeriesValues::Floats(_) => "Floats"@,
        TimeSeriesValues::Integers(_) => "Integers"@,
        TimeSeriesValues::Strings(_) => "Strings"@,
        TimeSeriesValues::Booleans(_) => "Booleans"@,
        TimeSeriesValues::Dates(_) => "Dates"@,
        TimeSeriesValues::Times(_) => "Times"@,
        TimeSeriesValues::DateTimes(_) => "DateTimes"@,
        TimeSeriesValues::Attributes(_) => "Attributes"@,
    }
}

/// The number of values.
pub open spec fn series_len(v: TimeSeriesValues) -> nat {
    match v {
        TimeSeriesValues::Floats(x) => x@.len(),
        TimeSeriesValues::Integers(x) => x@.len(),
        TimeSeriesValues::Strings(x) => x@.len(),
        TimeSeriesValues::Booleans(x) => x@.len(),
        TimeSeriesValues::Dates(x) => x@.len(),
        TimeSeriesValues::Times(x) => x@.len(),
        TimeSeriesValues::DateTimes(x) => x@.len(),
        TimeSeriesValues::Attributes(x) => x@.len(),
    }
}

impl TimeSeriesValues {
    /// Floats, by their bit patterns.
    pub fn floats(v: Vec<u64>) -> (s: Self)
        ensures
            s == TimeSeriesValues::Floats(v),
    {
        TimeSeriesValues::Floats(v)
    }

    pub fn integers(v: Vec<i64>) -> (s: Self)
        ensures
            s == TimeSeriesValues::Integers(v),
    {
        TimeSeriesValues::Integers(v)
    }

    pub fn strings(v: Vec<String>) -> (s: Self)
        ensures
            s == TimeSeriesValues::Strings(v),
    {
        TimeSeriesValues::Strings(v)
    }

    pub fn booleans(v: Vec<bool>) -> (s: Self)
        ensures
            s == TimeSeriesValues::Booleans(v),
    {
        TimeSeriesValues::Booleans(v)
    }

    pub fn dates(v: Vec<Date>) -> (s: Self)
        ensures
            s == TimeSeriesValues::Dates(v),
    {
        TimeSeriesValues::Dates(v)
    }

    pub fn times(v: Vec<Time>) -> (s: Self)
        ensures
            s == TimeSeriesValues::Times(v),
    {
        TimeSeriesValues::Times(v)
    }

    pub fn datetimes(v: Vec<DateTime>) -> (s: Self)
        ensures
            s == TimeSeriesValues::DateTimes(v),
    {
        TimeSeriesValues::DateTimes(v)
    }

    pub fn attributes(v: Vec<Attribute>) -> (s: Self)
        ensures
            s == TimeSeriesValues::Attributes(v),
    {
        TimeSeriesValues::Attributes(v)
    }

    pub fn len(&self) -> (n: usize)
        ensures
            n == series_len(*self),
    {
        match self {
            TimeSeriesValues::Floats(v) => v.len(),
            TimeSeriesValues::Integers(v) => v.len(),
            TimeSeriesValues::Strings(v) => v.len(),
            TimeSeriesValues::Booleans(v) => v.len(),
            TimeSeriesValues::Dates(v) => v.len(),
            TimeSeriesValues::Times(v) => v.len(),
            TimeSeriesValues::DateTimes(v) => v.len(),
            TimeSeriesValues::Attributes(v) => v.len(),
        }
    }

    pub fn is_empty(&self) -> (b: bool)
        ensures
            b == (series_len(*self) == 0),
    {
        self.len() == 0
    }

    /// The name of the values' type (`Floats`, `Integers`, ...).
    pub fn values_type_name(&self) -> (s: &'static str)
        ensures
            s@ == series_type_name(*self),
    {
        match self {
            TimeSeriesValues::Floats(_) => "Floats",
            TimeSeriesValues::Integers(_) => "Integers",
            TimeSeriesValues::Strings(_) => "Strings",
            TimeSeriesValues::Booleans(_) => "Booleans",
            TimeSeriesValues::Dates(_) => "Dates",
            TimeSeriesValues::Times(_) => "Times",
            TimeSeriesValues::DateTimes(_) => "DateTimes",
            TimeSeriesValues::Attributes(_) => "Attributes",
        }
    }

    /// The values as attributes.
    pub fn as_attributes(&self) -> (r: Vec<Attribute>)
        ensures
            attrs_view(r@) == series_vals(*self),
    {
        let mut r: Vec<Attribute> = Vec::new();
        let n = self.len();
        let ghost target = series_vals(*self);
        proof {
            lemma_series_vals_len(*self);
        }
        let mut i: usize = 0;
        while i < n
            invariant
                i <= n,
                n == series_len(*self),
                target == series_vals(*self),
                target.len() == n,
                r@.len() == i,
                forall|j: int| 0 <= j < i ==> #[trigger] r@[j]@ == target[j],
            decreases n - i,
        {
            let a = match self {
                TimeSeriesValues::Floats(v) => Attribute::Float(v[i]),
                TimeSeriesValues::Integers(v) => Attribute::Integer(v[i]),
                TimeSeriesValues::Strings(v) => Attribute::String(v[i].clone()),
                TimeSeriesValues::Booleans(v) => Attribute::Bool(v[i]),
                TimeSeriesValues::Dates(v) => Attribute::Date(v[i]),
                TimeSeriesValues::Times(v) => Attribute::Time(v[i]),
                TimeSeriesValues::DateTimes(v) => Attribute::DateTime(v[i]),
                TimeSeriesValues::Attributes(v) => {
                    proof {
                        lemma_attrs_view(v@);
                    }
                    crate::attrs::clone_attr(&v[i])
                },
            };
            r.push(a);
            i = i + 1;
        }
        proof {
            lemma_attrs_view(r@);
            assert forall|j: int| 0 <= j < target.len() implies attrs_view(r@)[j] == target[j] by {
                assert(r@[j]@ == target[j]);
            }
            assert(attrs_view(r@) =~= target);
        }
        r
    }
}

proof fn lemma_series_vals_len(v: TimeSeriesValues)
    ensures
        series_vals(v).len() == series_len(v),
{
    match v {
        TimeSeriesValues::Attributes(x) => {
            lemma_attrs_view(x@);
        },
        _ => {},
    }
}

/// A series: values along a timeline, which several series may share.
#[derive(Debug)]
pub struct TimeSeries {
    timeline: Rc<TimeLineInner>,
    values: TimeSeriesValues,
}

/// Whether two handles point at the same timeline (`Rc::ptr_eq`); handles
/// of one timeline read the same.
#[verifier::external_body]
fn same_rc(a: &Rc<TimeLineInner>, b: &Rc<TimeLineInner>) -> (r: bool)
    ensures
        r ==> **a == **b,
{
    Rc::ptr_eq(a, b)
}

impl TimeSeries {
    pub closed spec fn timeline_spec(&self) -> TimeLineInner {
        *self.timeline
    }

    pub closed spec fn values_spec(&self) -> TimeSeriesValues {
        self.values
    }

    pub fn new(timeline: Rc<TimeLineInner>, values: TimeSeriesValues) -> (s: Self)
        ensures
            s.timeline_spec() == *timeline,
            s.values_spec() == values,
    {
        TimeSeries { timeline, values }
    }

    pub fn start(&self) -> (s: i64)
        ensures
            s == self.timeline_spec().start_spec(),
    {
        self.timeline.start()
    }

    pub fn step(&self) -> (s: i64)
        ensures
            s == self.timeline_spec().step_spec(),
    {
        self.timeline.step()
    }

    pub fn timeline(&self) -> (t: &Rc<TimeLineInner>)
        ensures
            **t == self.timeline_spec(),
    {
        &self.timeline
    }

    pub fn len(&self) -> (n: usize)
        ensures
            n == series_len(self.values_spec()),
    {
        self.values.len()
    }

    pub fn is_empty(&self) -> (b: bool)
        ensures
            b == (series_len(self.values_spec()) == 0),
    {
        self.values.is_empty()
    }

    /// The values as attributes.
    pub fn values_as_attributes(&self) -> (r: Vec<Attribute>)
        ensures
            attrs_view(r@) == series_vals(self.values_spec()),
    {
        self.values.as_attributes()
    }

    /// The name of the values' type.
    pub fn values_type(&self) -> (s: &'static str)
        ensures
            s@ == series_type_name(self.values_spec()),
    {
        self.values.values_type_name()
    }

    /// Whether the series runs along timeline `tl` itself (not an equal
    /// copy).
    pub fn is_timeline(&self, tl: &Rc<TimeLineInner>) -> (r: bool)
        ensures
            r ==> self.timeline_spec() == **tl,
    {
        same_rc(&self.timeline, tl)
    }

    /// Whether two series share their timeline.
    pub fn same_timeline(&self, other: &Self) -> (r: bool)
        ensures
            r ==> self.timeline_spec() == other.timeline_spec(),
    {
        self.is_timeline(&other.timeline)
    }

    /// The values, where they are integers.
    pub fn integers(&self) -> (r: Option<&[i64]>)
        ensures
            match self.values_spec() {
                TimeSeriesValues::Integers(v) => r matches Some(s) && s@ == v@,
                _ => r is None,
            },
    {
        match &self.values {
            TimeSeriesValues::Integers(v) => Some(v.as_slice()),
            _ => None,
        }
    }

    /// The values, where they are floats (by their bit patterns).
    pub fn floats(&self) -> (r: Option<&[u64]>)
        ensures
            match self.values_spec() {
                TimeSeriesValues::Floats(v) => r matches Some(s) && s@ == v@,
                _ => r is None,
            },
    {
        match &self.values {
            TimeSeriesValues::Floats(v) => Some(v.as_slice()),
            _ => None,
        }
    }

    /// The values, where they are booleans.
    pub fn booleans(&self) -> (r: Option<&[bool]>)
        ensures
            match self.values_spec() {
                TimeSeriesValues::Booleans(v) => r matches Some(s) && s@ == v@,
                _ => r is None,
            },
    {
        match &self.values {
            TimeSeriesValues::Booleans(v) => Some(v.as_slice()),
            _ => None,
        }
    }

    /// The values, where they are strings.
    pub fn strings(&self) -> (r: Option<&[String]>)
        ensures
            match self.values_spec() {
                TimeSeriesValues::Strings(v) => r matches Some(s) && s@ == v@,
                _ => r is None,
            },
    {
        match &self.values {
            TimeSeriesValues::Strings(v) => Some(v.as_slice()),
            _ => None,
        }
    }

    /// The values, where they are dates.
    pub fn dates(&self) -> (r: Option<&[Date]>)
        ensures
            match self.values_spec() {
                TimeSeriesValues::Dates(v) => r matches Some(s) && s@ == v@,
                _ => r is None,
            },
    {
        match &self.values {
            TimeSeriesValues::Dates(v) => Some(v.as_slice()),
            _ => None,
        }
    }

    /// The values, where they are times.
    pub fn times(&self) -> (r: Option<&[Time]>)
        ensures
            match self.values_spec() {
                TimeSeriesValues::Times(v) => r matches Some(s) && s@ == v@,
                _ => r is None,
            },
    {
        match &self.values {
            TimeSeriesValues::Times(v) => Some(v.as_slice()),
            _ => None,
        }
    }

    /// The values, where they are dates with times.
    pub fn datetimes(&self) -> (r: Option<&[DateTime]>)
        ensures
            match self.values_spec() {
                TimeSeriesValues::DateTimes(v) => r matches Some(s) && s@ == v@,
                _ => r is None,
            },
    {
        match &self.values {
            TimeSeriesValues::DateTimes(v) => Some(v.as_slice()),
            _ => None,
        }
    }

    /// The values, where they are attributes.
    pub fn attributes(&self) -> (r: Option<&[Attribute]>)
        ensures
            match self.values_spec() {
                TimeSeriesValues::Attributes(v) => r matches Some(s) && s@ == v@,
                _ => r is None,
            },
    {
        match &self.values {
            TimeSeriesValues::Attributes(v) => Some(v.as_slice()),
            _ => None,
        }
    }

    /// The integer values, or the message that the series holds another
    /// type.
    pub fn try_integers(&self) -> (r: Result<&[i64], String>)
        ensures
            match self.values_spec() {
                TimeSeriesValues::Integers(v) => r matches Ok(s) && s@ == v@,
                _ => r matches Err(m) && m@ == series_type_error(self.values_spec(), "i64"@),
            },
    {
        match self.integers() {
            Some(s) => Ok(s),
            None => Err(type_message(&self.values, "i64")),
        }
    }

    /// The float values (bit patterns), or the message that the series
    /// holds another type.
    pub fn try_floats(&self) -> (r: Result<&[u64], String>)
        ensures
            match self.values_spec() {
                TimeSeriesValues::Floats(v) => r matches Ok(s) && s@ == v@,
                _ => r matches Err(m) && m@ == series_type_error(self.values_spec(), "f64"@),
            },
    {
        match self.floats() {
            Some(s) => Ok(s),
            None => Err(type_message(&self.values, "f64")),
        }
    }
}

/// The message for a series of the wrong type.
pub open spec fn series_type_error(v: TimeSeriesValues, want: Seq<char>) -> Seq<char> {
    "Incorrect Type: timeseries of `"@ + series_type_name(v) + "` cannot be converted to `"@ + want + "`"@
}

fn type_message(v: &TimeSeriesValues, want: &str) -> (m: String)
    ensures
        m@ == series_type_error(*v, want@),
{
    let mut m = owned("Incorrect Type: timeseries of `");
    push_str(&mut m, v.values_type_name());
    push_str(&mut m, "` cannot be converted to `");
    push_str(&mut m, want);
    push_str(&mut m, "`");
    m
}

} // verus!
