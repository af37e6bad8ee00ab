use vstd::prelude::*;
use crate::text::{str_eq, chars_of, substring, owned, push_str, push_char, push_decimal, decimal};

verus! {

/// A calendar date as written in attribute files (`YYYY-MM-DD`).
#[derive(Clone, Copy, PartialEq, Eq, Debug, Default, Structural)]
pub struct Date {
    pub year: u16,
    pub month: u8,
    pub day: u8,
}

/// A time of day (`HH:MM:SS`) with an optional sub-second part.
#[derive(Clone, Copy, PartialEq, Eq, Debug, Default, Structural)]
pub struct Time {
    pub hour: u8,
    pub min: u8,
    pub sec: u8,
    pub nanosecond: u32,
}

/// A time-zone offset from UTC.
#[derive(Clone, Copy, PartialEq, Eq, Debug, Default, Structural)]
pub struct Offset {
    pub hour: u8,
    pub min: u8,
    pub east: bool,
}

impl View for Date {
    type V = Date;

    open spec fn view(&self) -> Date {
        *self
    }
}

impl View for Time {
    type V = Time;

    open spec fn view(&self) -> Time {
        *self
    }
}

impl View for DateTime {
    type V = DateTime;

    open spec fn view(&self) -> DateTime {
        *self
    }
}

/// Gregorian leap-year rule.
pub open spec fn is_leap_year(year: int) -> bool {
    (year % 4 == 0) && ((year % 100 != 0) || (year % 400 == 0))
}

/// Number of days in `month`; months other than 2, 4, 6, 9, 11 have 31 days.
pub open spec fn month_days(month: int, leap: bool) -> int {
    if month == 2 {
        if leap { 29 } else { 28 }
    } else if month == 4 || month == 6 || month == 9 || month == 11 {
        30
    } else {
        31
    }
}

/// Days in the months strictly before `month` (months are counted from 1).
pub open spec fn days_before_month(month: int, leap: bool) -> int
    decreases month,
{
    if month <= 1 {
        0
    } else {
        days_before_month(month - 1, leap) + month_days(month - 1, leap)
    }
}

pub proof fn lemma_days_before_month_bound(month: int, leap: bool)
    ensures
        0 <= days_before_month(month, leap) <= 31 * (if month <= 1 { 0 } else { month - 1 }),
    decreases month,
{
    if month > 1 {
        lemma_days_before_month_bound(month - 1, leap);
    }
}

impl Date {
    pub fn new(year: u16, month: u8, day: u8) -> (d: Self)
        ensures
            d.year == year,
            d.month == month,
            d.day == day,
    {
        Self { year, month, day }
    }

    pub fn with_time(self, time: Time) -> (dt: DateTime)
        ensures
            dt.date == self,
            dt.time == time,
            dt.offset.is_none(),
    {
        DateTime { date: self, time, offset: None }
    }

    pub fn leap_year(year: u16) -> (b: bool)
        ensures
            b == is_leap_year(year as int),
    {
        (year % 4 == 0) && ((year % 100 != 0) || (year % 400 == 0))
    }

    pub fn days_in_month(month: u8, leap_year: bool) -> (d: u8)
        ensures
            d == month_days(month as int, leap_year),
    {
        match month {
            2 if leap_year => 29,
            2 => 28,
            4 | 6 | 9 | 11 => 30,
            _ => 31,
        }
    }

    /// Day of the year: the days of the months before `month` plus `day`.
    ///
    /// The result is an 8-bit number, so it is only defined where it fits
    /// (through the first days of September).
    pub fn doy(&self) -> (d: u8)
        requires
            days_before_month(self.month as int, is_leap_year(self.year as int)) + self.day <= 255,
        ensures
            d == days_before_month(self.month as int, is_leap_year(self.year as int)) + self.day,
    {
        let ly = Date::leap_year(self.year);
        let mut doy: u8 = 0;
        let mut m: u8 = 1;
        while m < self.month
            invariant
                1 <= m,
                m <= self.month || (self.month < 1 && m == 1),
                ly == is_leap_year(self.year as int),
                doy == days_before_month(m as int, ly),
                days_before_month(self.month as int, ly) + self.day <= 255,
            decreases self.month - m,
        {
            proof {
                lemma_days_before_month_monotone(m as int + 1, self.month as int, ly);
            }
            doy = doy + Date::days_in_month(m, ly);
            m = m + 1;
        }
        assert(doy == days_before_month(self.month as int, ly));
        doy + self.day
    }
}

pub proof fn lemma_days_before_month_monotone(a: int, b: int, leap: bool)
    requires
        a <= b,
    ensures
        days_before_month(a, leap) <= days_before_month(b, leap),
    decreases b - a,
{
    if a < b {
        lemma_days_before_month_monotone(a, b - 1, leap);
    }
}

/// Seconds elapsed since midnight for a time of day.
pub open spec fn spec_seconds(hour: int, min: int, sec: int) -> int {
    (hour * 60 + min) * 60 + sec
}

impl Time {
    pub fn new(hour: u8, min: u8, sec: u8, nanosecond: u32) -> (t: Self)
        ensures
            t.hour == hour,
            t.min == min,
            t.sec == sec,
            t.nanosecond == nanosecond,
    {
        Self { hour, min, sec, nanosecond }
    }

    pub fn seconds_since_midnight(&self) -> (s: u32)
        ensures
            s == spec_seconds(self.hour as int, self.min as int, self.sec as int),
    {
        (self.hour as u32 * 60 + self.min as u32) * 60 + self.sec as u32
    }

    /// Splits a count of seconds into hours, minutes and seconds; the hour
    /// keeps its low eight bits where the count spans more than 255 hours.
    pub fn from_seconds_since_midnight(secs: u32) -> (t: Self)
        ensures
            t.sec == secs % 60,
            t.min == (secs / 60) % 60,
            t.hour == ((secs / 3600) % 256),
            t.nanosecond == 0,
    {
        let sec = secs % 60;
        let mins = (secs - sec) / 60;
        let min = mins % 60;
        let hour = (mins - min) / 60;
        assert(mins == secs / 60) by (nonlinear_arith)
            requires sec == secs % 60, mins == (secs - sec) / 60;
        assert(hour == secs / 3600) by (nonlinear_arith)
            requires min == mins % 60, hour == (mins - min) / 60, mins == secs / 60;
        let h8: u8 = (hour % 256) as u8;
        Self { hour: h8, min: min as u8, sec: sec as u8, nanosecond: 0 }
    }
}

/// Counting the seconds of a time of day and splitting them again gives
/// the time back, without its sub-second part.
pub proof fn law_time_seconds_round_trip(t: Time)
    requires
        t.min < 60,
        t.sec < 60,
    ensures
        ({
            let s = spec_seconds(t.hour as int, t.min as int, t.sec as int);
            &&& 0 <= s <= u32::MAX
            &&& s % 60 == t.sec
            &&& (s / 60) % 60 == t.min
            &&& (s / 3600) % 256 == t.hour
        }),
{
    let h = t.hour as int;
    let m = t.min as int;
    let x = t.sec as int;
    let s = (h * 60 + m) * 60 + x;
    assert(0 <= s <= 255 * 3600 + 59 * 60 + 59) by (nonlinear_arith)
        requires 0 <= h <= 255, 0 <= m < 60, 0 <= x < 60, s == (h * 60 + m) * 60 + x;
    assert(s % 60 == x && s / 60 == h * 60 + m) by (nonlinear_arith)
        requires 0 <= x < 60, s == (h * 60 + m) * 60 + x, h >= 0, m >= 0;
    assert((h * 60 + m) % 60 == m && (h * 60 + m) / 60 == h) by (nonlinear_arith)
        requires 0 <= m < 60, h >= 0;
    assert(s / 3600 == h) by (nonlinear_arith)
        requires 0 <= m < 60, 0 <= x < 60, s == (h * 60 + m) * 60 + x, h >= 0;
    assert(h % 256 == h);
}

/// A date and a time with an optional offset.
#[derive(Clone, Copy, PartialEq, Eq, Debug, Default, Structural)]
pub struct DateTime {
    pub date: Date,
    pub time: Time,
    pub offset: Option<Offset>,
}

impl DateTime {
    pub fn new(date: Date, time: Time, offset: Option<Offset>) -> (dt: Self)
        ensures
            dt.date == date,
            dt.time == time,
            dt.offset == offset,
    {
        Self { date, time, offset }
    }
}


/// A value held by a node, a network or the environment.
#[derive(Debug)]
pub enum Attribute {
    Bool(bool),
    String(String),
    Integer(i64),
    /// A 64-bit float, held as its IEEE-754 bit pattern.
    Float(u64),
    Date(Date),
    Time(Time),
    DateTime(DateTime),
    Array(Vec<Attribute>),
    Table(AttrMap),
}

/// A table of attributes: names mapped to values, in insertion order.
#[derive(Debug)]
pub struct AttrMap {
    entries: Vec<(String, Attribute)>,
}

/// The mathematical value of an attribute.
pub enum Val {
    Bool(bool),
    Str(Seq<char>),
    Integer(i64),
    Float(u64),
    Date(Date),
    Time(Time),
    DateTime(DateTime),
    Array(Seq<Val>),
    Table(Seq<(Seq<char>, Val)>),
}

pub open spec fn attr_view(a: Attribute) -> Val
    decreases a,
{
    match a {
        Attribute::Bool(b) => Val::Bool(b),
        Attribute::String(s) => Val::Str(s@),
        Attribute::Integer(i) => Val::Integer(i),
        Attribute::Float(f) => Val::Float(f),
        Attribute::Date(d) => Val::Date(d),
        Attribute::Time(t) => Val::Time(t),
        Attribute::DateTime(d) => Val::DateTime(d),
        Attribute::Array(v) => Val::Array(attrs_view(v@)),
        Attribute::Table(m) => Val::Table(table_view(m)),
    }
}

/// The entries of a table.
pub closed spec fn table_view(m: AttrMap) -> Seq<(Seq<char>, Val)>
    decreases m,
{
    entries_view(m.entries@)
}

pub open spec fn attrs_view(s: Seq<Attribute>) -> Seq<Val>
    decreases s,
{
    if s.len() == 0 {
        Seq::empty()
    } else {
        attrs_view(s.drop_last()).push(attr_view(s.last()))
    }
}

pub open spec fn entries_view(s: Seq<(String, Attribute)>) -> Seq<(Seq<char>, Val)>
    decreases s,
{
    if s.len() == 0 {
        Seq::empty()
    } else {
        entries_view(s.drop_last()).push((s.last().0@, attr_view(s.last().1)))
    }
}

impl View for Attribute {
    type V = Val;

    open spec fn view(&self) -> Val {
        attr_view(*self)
    }
}

pub proof fn lemma_attrs_view(s: Seq<Attribute>)
    ensures
        attrs_view(s).len() == s.len(),
        forall|i: int| 0 <= i < s.len() ==> #[trigger] attrs_view(s)[i] == attr_view(s[i]),
    decreases s.len(),
{
    if s.len() > 0 {
        lemma_attrs_view(s.drop_last());
    }
}

pub proof fn lemma_entries_view(s: Seq<(String, Attribute)>)
    ensures
        entries_view(s).len() == s.len(),
        forall|i: int| 0 <= i < s.len() ==> #[trigger] entries_view(s)[i] == (s[i].0@, attr_view(s[i].1)),
    decreases s.len(),
{
    if s.len() > 0 {
        lemma_entries_view(s.drop_last());
    }
}

/// No key occurs twice.
pub open spec fn unique_keys(e: Seq<(Seq<char>, Val)>) -> bool {
    forall|i: int, j: int| 0 <= i < j < e.len() ==> #[trigger] e[i].0 != #[trigger] e[j].0
}

/// The value under `key`, if any.
pub open spec fn lookup(e: Seq<(Seq<char>, Val)>, key: Seq<char>) -> Option<Val> {
    if exists|i: int| 0 <= i < e.len() && #[trigger] e[i].0 == key {
        Some(e[choose|i: int| 0 <= i < e.len() && #[trigger] e[i].0 == key].1)
    } else {
        None
    }
}

/// `key` set to `v`: in place where the key is there, at the end otherwise.
pub open spec fn upsert(e: Seq<(Seq<char>, Val)>, key: Seq<char>, v: Val) -> Seq<(Seq<char>, Val)> {
    if exists|i: int| 0 <= i < e.len() && #[trigger] e[i].0 == key {
        e.update(choose|i: int| 0 <= i < e.len() && #[trigger] e[i].0 == key, (key, v))
    } else {
        e.push((key, v))
    }
}

/// `key` taken out.
pub open spec fn without(e: Seq<(Seq<char>, Val)>, key: Seq<char>) -> Seq<(Seq<char>, Val)> {
    if exists|i: int| 0 <= i < e.len() && #[trigger] e[i].0 == key {
        e.remove(choose|i: int| 0 <= i < e.len() && #[trigger] e[i].0 == key)
    } else {
        e
    }
}

impl View for AttrMap {
    type V = Seq<(Seq<char>, Val)>;

    open spec fn view(&self) -> Seq<(Seq<char>, Val)> {
        table_view(*self)
    }
}

impl AttrMap {
    #[verifier::type_invariant]
    closed spec fn inv(self) -> bool {
        unique_keys(entries_view(self.entries@))
    }

    pub fn new() -> (m: Self)
        ensures
            m@ == Seq::<(Seq<char>, Val)>::empty(),
    {
        let m = AttrMap { entries: Vec::new() };
        assert(m@ =~= Seq::<(Seq<char>, Val)>::empty());
        m
    }

    pub fn len(&self) -> (n: usize)
        ensures
            n == self@.len(),
    {
        proof {
            lemma_entries_view(self.entries@);
        }
        self.entries.len()
    }

    pub fn is_empty(&self) -> (b: bool)
        ensures
            b == (self@.len() == 0),
    {
        self.len() == 0
    }

    /// Index of `key`, if present.
    fn find(&self, key: &str) -> (r: Option<usize>)
        ensures
            r matches Some(i) ==> i < self@.len() && self@[i as int].0 == key@,
            r is None ==> forall|i: int| 0 <= i < self@.len() ==> #[trigger] self@[i].0 != key@,
    {
        proof {
            lemma_entries_view(self.entries@);
        }
        let mut i: usize = 0;
        while i < self.entries.len()
            invariant
                i <= self.entries.len(),
                entries_view(self.entries@).len() == self.entries.len(),
                forall|j: int| 0 <= j < self.entries.len() ==> #[trigger] entries_view(self.entries@)[j]
                    == (self.entries@[j].0@, attr_view(self.entries@[j].1)),
                forall|j: int| 0 <= j < i ==> #[trigger] entries_view(self.entries@)[j].0 != key@,
            decreases self.entries.len() - i,
        {
            if str_eq(self.entries[i].0.as_str(), key) {
                return Some(i);
            }
            i = i + 1;
        }
        None
    }

    /// The value under `key`.
    pub fn get(&self, key: &str) -> (r: Option<&Attribute>)
        ensures
            match r {
                Some(a) => lookup(self@, key@) == Some(a@),
                None => lookup(self@, key@) is None,
            },
    {
        proof {
            use_type_invariant(self);
        }
        match self.find(key) {
            Some(i) => {
                proof {
                    lemma_entries_view(self.entries@);
                    let w = choose|j: int| 0 <= j < self@.len() && #[trigger] self@[j].0 == key@;
                    assert(self@[i as int].0 == key@);
                    if w != i {
                        if w < i {
                            assert(self@[w].0 != self@[i as int].0);
                        } else {
                            assert(self@[i as int].0 != self@[w].0);
                        }
                    }
                }
                Some(&self.entries[i].1)
            },
            None => None,
        }
    }

    pub fn contains_key(&self, key: &str) -> (b: bool)
        ensures
            b == (lookup(self@, key@) is Some),
    {
        self.get(key).is_some()
    }

    /// Sets `key` to `val`, giving back the value it replaces.
    pub fn insert(&mut self, key: String, val: Attribute) -> (r: Option<Attribute>)
        ensures
            final(self)@ == upsert(old(self)@, key@, val@),
            unique_keys(old(self)@),
            match r {
                Some(a) => lookup(old(self)@, key@) == Some(a@),
                None => lookup(old(self)@, key@) is None,
            },
    {
        proof {
            use_type_invariant(&*self);
            lemma_entries_view(self.entries@);
        }
        let ghost key_v = key@;
        let ghost val_v = val@;
        match self.find(key.as_str()) {
            Some(i) => {
                let ghost old_e = self.entries@;
                let mut entries: Vec<(String, Attribute)> = Vec::new();
                std::mem::swap(&mut entries, &mut self.entries);
                let old_entry = entries.remove(i);
                entries.insert(i, (key, val));
                proof {
                    lemma_entries_view(entries@);
                    lemma_entries_view(old_e);
                    let w = choose|j: int| 0 <= j < old(self)@.len() && #[trigger] old(self)@[j].0 == key_v;
                    if w != i {
                        if w < i {
                            assert(old(self)@[w].0 != old(self)@[i as int].0);
                        } else {
                            assert(old(self)@[i as int].0 != old(self)@[w].0);
                        }
                    }
                    assert(entries_view(entries@) =~= upsert(old(self)@, key_v, val_v));
                    assert(old_entry == old_e[i as int]);
                }
                self.entries = entries;
                Some(old_entry.1)
            },
            None => {
                let ghost old_e = self.entries@;
                let mut entries: Vec<(String, Attribute)> = Vec::new();
                std::mem::swap(&mut entries, &mut self.entries);
                entries.push((key, val));
                proof {
                    assert(entries@.drop_last() =~= old_e);
                    assert(entries_view(entries@) =~= old(self)@.push((key_v, val_v)));
                    lemma_entries_view(entries@);
                }
                self.entries = entries;
                None
            },
        }
    }

    /// Takes `key` out, giving back its value.
    pub fn remove(&mut self, key: &str) -> (r: Option<Attribute>)
        ensures
            final(self)@ == without(old(self)@, key@),
            match r {
                Some(a) => lookup(old(self)@, key@) == Some(a@),
                None => lookup(old(self)@, key@) is None,
            },
    {
        proof {
            use_type_invariant(&*self);
            lemma_entries_view(self.entries@);
        }
        match self.find(key) {
            Some(i) => {
                let ghost old_e = self.entries@;
                let mut entries: Vec<(String, Attribute)> = Vec::new();
                std::mem::swap(&mut entries, &mut self.entries);
                let old_entry = entries.remove(i);
                proof {
                    lemma_entries_view(entries@);
                    lemma_entries_view(old_e);
                    let w = choose|j: int| 0 <= j < old(self)@.len() && #[trigger] old(self)@[j].0 == key@;
                    if w != i {
                        if w < i {
                            assert(old(self)@[w].0 != old(self)@[i as int].0);
                        } else {
                            assert(old(self)@[i as int].0 != old(self)@[w].0);
                        }
                    }
                    assert(entries_view(entries@) =~= without(old(self)@, key@));
                }
                self.entries = entries;
                Some(old_entry.1)
            },
            None => None,
        }
    }

    /// Sets `key` to `v` in the table that `path[at..]` leads to (see
    /// `set_in`).
    pub fn set_at(&mut self, path: &Vec<String>, at: usize, key: String, v: Attribute)
        requires
            at <= path.len(),
        ensures
            final(self)@ == set_in(old(self)@, names_view(path@).skip(at as int), key@, v@),
        decreases path.len() - at,
    {
        proof {
            use_type_invariant(&*self);
            lemma_entries_view(self.entries@);
        }
        let ghost p = names_view(path@).skip(at as int);
        if at == path.len() {
            assert(p.len() == 0);
            self.insert(key, v);
            return;
        }
        proof {
            assert(p[0] == path@[at as int]@);
            assert(p.drop_first() =~= names_view(path@).skip(at + 1));
        }
        match self.find(path[at].as_str()) {
            None => {
                assert(!(exists|j: int| 0 <= j < old(self)@.len() && #[trigger] old(self)@[j].0 == p[0]));
            },
            Some(i) => {
                let ghost old_e = self.entries@;
                let mut entries: Vec<(String, Attribute)> = Vec::new();
                std::mem::swap(&mut entries, &mut self.entries);
                let (k, a) = entries.remove(i);
                proof {
                    lemma_entries_view(old_e);
                    assert((k, a) == old_e[i as int]);
                    lemma_entry_at(old(self)@, i as int, Val::Bool(false));
                }
                match a {
                    Attribute::Table(mut t) => {
                        let ghost t_old = t@;
                        t.set_at(path, at + 1, key, v);
                        let ghost nv = Val::Table(t@);
                        entries.insert(i, (k, Attribute::Table(t)));
                        proof {
                            lemma_entry_at(old(self)@, i as int, nv);
                            lemma_entries_view(entries@);
                            assert(entries_view(entries@) =~= old(self)@.update(i as int, (p[0], nv)));
                        }
                        self.entries = entries;
                    },
                    other => {
                        entries.insert(i, (k, other));
                        proof {
                            lemma_entries_view(entries@);
                            assert(entries@ =~= old_e);
                        }
                        self.entries = entries;
                    },
                }
            },
        }
    }

    /// Makes `key` hold a table in the table that `path[at..]` leads to
    /// (see `moved_in`); `false`, with nothing changed, where it cannot.
    pub fn move_in(&mut self, path: &Vec<String>, at: usize, key: &str) -> (r: bool)
        requires
            at <= path.len(),
        ensures
            match moved_in(old(self)@, names_view(path@).skip(at as int), key@) {
                Some(m) => r && final(self)@ == m,
                None => !r && final(self)@ == old(self)@,
            },
        decreases path.len() - at,
    {
        proof {
            use_type_invariant(&*self);
            lemma_entries_view(self.entries@);
        }
        let ghost p = names_view(path@).skip(at as int);
        if at == path.len() {
            assert(p.len() == 0);
            let present = match self.get(key) {
                Some(Attribute::Table(_)) => Some(true),
                Some(_) => Some(false),
                None => None,
            };
            return match present {
                Some(b) => b,
                None => {
                    let e = AttrMap::new();
                    self.insert(key.to_owned(), Attribute::Table(e));
                    true
                },
            };
        }
        proof {
            assert(p[0] == path@[at as int]@);
            assert(p.drop_first() =~= names_view(path@).skip(at + 1));
        }
        match self.find(path[at].as_str()) {
            None => {
                assert(!(exists|j: int| 0 <= j < old(self)@.len() && #[trigger] old(self)@[j].0 == p[0]));
                false
            },
            Some(i) => {
                let ghost old_e = self.entries@;
                let mut entries: Vec<(String, Attribute)> = Vec::new();
                std::mem::swap(&mut entries, &mut self.entries);
                let (k, a) = entries.remove(i);
                proof {
                    lemma_entries_view(old_e);
                    assert((k, a) == old_e[i as int]);
                    lemma_entry_at(old(self)@, i as int, Val::Bool(false));
                }
                match a {
                    Attribute::Table(mut t) => {
                        let ok = t.move_in(path, at + 1, key);
                        let ghost nv = Val::Table(t@);
                        entries.insert(i, (k, Attribute::Table(t)));
                        proof {
                            lemma_entry_at(old(self)@, i as int, nv);
                            lemma_entries_view(entries@);
                            assert(entries_view(entries@) =~= old(self)@.update(i as int, (p[0], nv)));
                            if !ok {
                                assert(old(self)@.update(i as int, (p[0], nv)) =~= old(self)@);
                            }
                        }
                        self.entries = entries;
                        ok
                    },
                    other => {
                        entries.insert(i, (k, other));
                        proof {
                            lemma_entries_view(entries@);
                            assert(entries@ =~= old_e);
                        }
                        self.entries = entries;
                        false
                    },
                }
            },
        }
    }

    /// The entries, in insertion order.
    pub fn entries(&self) -> (e: &Vec<(String, Attribute)>)
        ensures
            entries_view(e@) == self@,
    {
        &self.entries
    }
}


/// The names of a path of tables.
pub open spec fn names_view(p: Seq<String>) -> Seq<Seq<char>> {
    p.map_values(|s: String| s@)
}

/// `m` with `key` set to `v` in the table that `path` leads to, going
/// through nested tables; unchanged where the path does not lead through
/// tables.
pub open spec fn set_in(m: Seq<(Seq<char>, Val)>, path: Seq<Seq<char>>, key: Seq<char>, v: Val) -> Seq<(Seq<char>, Val)>
    decreases path.len(),
{
    if path.len() == 0 {
        upsert(m, key, v)
    } else {
        match lookup(m, path[0]) {
            Some(Val::Table(t)) => upsert(m, path[0], Val::Table(set_in(t, path.drop_first(), key, v))),
            _ => m,
        }
    }
}

/// `m` where, in the table that `path` leads to, `key` holds a table: the
/// one already there, or a new empty one. `None` where `key` holds another
/// value, or the path does not lead through tables.
pub open spec fn moved_in(m: Seq<(Seq<char>, Val)>, path: Seq<Seq<char>>, key: Seq<char>) -> Option<Seq<(Seq<char>, Val)>>
    decreases path.len(),
{
    if path.len() == 0 {
        match lookup(m, key) {
            Some(Val::Table(_)) => Some(m),
            Some(_) => None,
            None => Some(upsert(m, key, Val::Table(Seq::empty()))),
        }
    } else {
        match lookup(m, path[0]) {
            Some(Val::Table(t)) => match moved_in(t, path.drop_first(), key) {
                Some(t2) => Some(upsert(m, path[0], Val::Table(t2))),
                None => None,
            },
            _ => None,
        }
    }
}

/// With unique keys, the entry at `i` is what its key reads, and setting
/// that key replaces the entry in place.
pub proof fn lemma_entry_at(e: Seq<(Seq<char>, Val)>, i: int, v: Val)
    requires
        unique_keys(e),
        0 <= i < e.len(),
    ensures
        lookup(e, e[i].0) == Some(e[i].1),
        upsert(e, e[i].0, v) == e.update(i, (e[i].0, v)),
        unique_keys(e.update(i, (e[i].0, v))),
{
    let key = e[i].0;
    assert(exists|j: int| 0 <= j < e.len() && #[trigger] e[j].0 == key);
    let w = choose|j: int| 0 <= j < e.len() && #[trigger] e[j].0 == key;
    if w != i {
        if w < i {
            assert(e[w].0 != e[i].0);
        } else {
            assert(e[i].0 != e[w].0);
        }
    }
    let u = e.update(i, (key, v));
    assert forall|a: int, b: int| 0 <= a < b < u.len() implies #[trigger] u[a].0 != #[trigger] u[b].0 by {
        assert(e[a].0 != e[b].0);
    }
}

/// Setting a key twice leaves the second value; setting a key to the value
/// it holds changes nothing.
pub proof fn lemma_upsert_twice(e: Seq<(Seq<char>, Val)>, k: Seq<char>, a: Val, b: Val)
    requires
        unique_keys(e),
    ensures
        upsert(upsert(e, k, a), k, b) == upsert(e, k, b),
        lookup(e, k) == Some(b) ==> upsert(e, k, b) == e,
{
    if exists|i: int| 0 <= i < e.len() && #[trigger] e[i].0 == k {
        let i = choose|i: int| 0 <= i < e.len() && #[trigger] e[i].0 == k;
        lemma_entry_at(e, i, a);
        lemma_entry_at(e, i, b);
        let e1 = e.update(i, (k, a));
        assert(e1[i].0 == k);
        lemma_entry_at(e1, i, b);
        assert(e1.update(i, (k, b)) =~= e.update(i, (k, b)));
        if lookup(e, k) == Some(b) {
            assert(e.update(i, (k, b)) =~= e);
        }
    } else {
        let e1 = e.push((k, a));
        let n = e.len() as int;
        assert(e1[n].0 == k);
        assert forall|x: int, y: int| 0 <= x < y < e1.len() implies #[trigger] e1[x].0 != #[trigger] e1[y].0 by {
            if y < n {
                assert(e[x].0 != e[y].0);
            } else {
                assert(e[x].0 != k);
            }
        }
        lemma_entry_at(e1, n, b);
        assert(e1.update(n, (k, b)) =~= e.push((k, b)));
    }
}

/// After `key` is set to `v`, reading `key` gives `v` and every other key
/// reads as before; keys stay unique.
pub proof fn law_read_after_write(e: Seq<(Seq<char>, Val)>, key: Seq<char>, v: Val)
    requires
        unique_keys(e),
    ensures
        lookup(upsert(e, key, v), key) == Some(v),
        forall|k: Seq<char>| k != key ==> lookup(upsert(e, key, v), k) == lookup(e, k),
        unique_keys(upsert(e, key, v)),
{
    let u = upsert(e, key, v);
    if exists|i: int| 0 <= i < e.len() && #[trigger] e[i].0 == key {
        let w = choose|i: int| 0 <= i < e.len() && #[trigger] e[i].0 == key;
        assert(u[w].0 == key);
        let r = choose|i: int| 0 <= i < u.len() && #[trigger] u[i].0 == key;
        if r != w {
            if r < w {
                assert(e[r].0 != e[w].0);
            } else {
                assert(e[w].0 != e[r].0);
            }
        }
        assert forall|k: Seq<char>| k != key implies lookup(u, k) == lookup(e, k) by {
            if exists|i: int| 0 <= i < e.len() && #[trigger] e[i].0 == k {
                let a = choose|i: int| 0 <= i < e.len() && #[trigger] e[i].0 == k;
                assert(u[a].0 == k);
                let b = choose|i: int| 0 <= i < u.len() && #[trigger] u[i].0 == k;
                assert(b != w);
                if a != b {
                    if a < b {
                        assert(e[a].0 != e[b].0);
                    } else {
                        assert(e[b].0 != e[a].0);
                    }
                }
            } else {
                assert(!(exists|i: int| 0 <= i < u.len() && #[trigger] u[i].0 == k)) by {
                    if exists|i: int| 0 <= i < u.len() && #[trigger] u[i].0 == k {
                        let b = choose|i: int| 0 <= i < u.len() && #[trigger] u[i].0 == k;
                        assert(b != w);
                        assert(e[b].0 == k);
                    }
                }
            }
        }
        assert forall|i: int, j: int| 0 <= i < j < u.len() implies #[trigger] u[i].0 != #[trigger] u[j].0 by {
            if i == w {
                assert(e[j].0 != e[w].0);
            } else if j == w {
                assert(e[i].0 != e[w].0);
            } else {
                assert(e[i].0 != e[j].0);
            }
        }
    } else {
        assert(u[e.len() as int].0 == key);
        let r = choose|i: int| 0 <= i < u.len() && #[trigger] u[i].0 == key;
        assert(r == e.len());
        assert forall|k: Seq<char>| k != key implies lookup(u, k) == lookup(e, k) by {
            if exists|i: int| 0 <= i < e.len() && #[trigger] e[i].0 == k {
                let a = choose|i: int| 0 <= i < e.len() && #[trigger] e[i].0 == k;
                assert(u[a].0 == k);
                let b = choose|i: int| 0 <= i < u.len() && #[trigger] u[i].0 == k;
                if a != b {
                    assert(b < e.len());
                    if a < b {
                        assert(e[a].0 != e[b].0);
                    } else {
                        assert(e[b].0 != e[a].0);
                    }
                }
            } else {
                assert(!(exists|i: int| 0 <= i < u.len() && #[trigger] u[i].0 == k)) by {
                    if exists|i: int| 0 <= i < u.len() && #[trigger] u[i].0 == k {
                        let b = choose|i: int| 0 <= i < u.len() && #[trigger] u[i].0 == k;
                        assert(b < e.len());
                        assert(e[b].0 == k);
                    }
                }
            }
        }
    }
}

/// After `key` is taken out, it reads as missing and every other key reads
/// as before.
pub proof fn law_read_after_remove(e: Seq<(Seq<char>, Val)>, key: Seq<char>)
    requires
        unique_keys(e),
    ensures
        lookup(without(e, key), key) is None,
        forall|k: Seq<char>| k != key ==> lookup(without(e, key), k) == lookup(e, k),
{
    let u = without(e, key);
    if exists|i: int| 0 <= i < e.len() && #[trigger] e[i].0 == key {
        let w = choose|i: int| 0 <= i < e.len() && #[trigger] e[i].0 == key;
        assert(!(exists|i: int| 0 <= i < u.len() && #[trigger] u[i].0 == key)) by {
            if exists|i: int| 0 <= i < u.len() && #[trigger] u[i].0 == key {
                let b = choose|i: int| 0 <= i < u.len() && #[trigger] u[i].0 == key;
                if b < w {
                    assert(e[b].0 != e[w].0);
                } else {
                    assert(e[w].0 != e[b + 1].0);
                }
            }
        }
        assert forall|k: Seq<char>| k != key implies lookup(u, k) == lookup(e, k) by {
            if exists|i: int| 0 <= i < e.len() && #[trigger] e[i].0 == k {
                let a = choose|i: int| 0 <= i < e.len() && #[trigger] e[i].0 == k;
                let ua = if a < w { a } else { a - 1 };
                assert(u[ua].0 == k);
                let b = choose|i: int| 0 <= i < u.len() && #[trigger] u[i].0 == k;
                let eb = if b < w { b } else { b + 1 };
                assert(e[eb].0 == k);
                if a != eb {
                    if a < eb {
                        assert(e[a].0 != e[eb].0);
                    } else {
                        assert(e[eb].0 != e[a].0);
                    }
                }
            } else {
                assert(!(exists|i: int| 0 <= i < u.len() && #[trigger] u[i].0 == k)) by {
                    if exists|i: int| 0 <= i < u.len() && #[trigger] u[i].0 == k {
                        let b = choose|i: int| 0 <= i < u.len() && #[trigger] u[i].0 == k;
                        let eb = if b < w { b } else { b + 1 };
                        assert(e[eb].0 == k);
                    }
                }
            }
        }
    }
}

/// The name of a value's type.
pub open spec fn type_name_of(v: Val) -> Seq<char> {
    match v {
        Val::Bool(_) => seq!['B', 'o', 'o', 'l'],
        Val::Str(_) => seq!['S', 't', 'r', 'i', 'n', 'g'],
        Val::Integer(_) => seq!['I', 'n', 't', 'e', 'g', 'e', 'r'],
        Val::Float(_) => seq!['F', 'l', 'o', 'a', 't'],
        Val::Date(_) => seq!['D', 'a', 't', 'e'],
        Val::Time(_) => seq!['T', 'i', 'm', 'e'],
        Val::DateTime(_) => seq!['D', 'a', 't', 'e', 'T', 'i', 'm', 'e'],
        Val::Array(_) => seq!['A', 'r', 'r', 'a', 'y'],
        Val::Table(_) => seq!['T', 'a', 'b', 'l', 'e'],
    }
}

/// A copy of an attribute, nested values included.
#[verifier::loop_isolation(false)]
pub fn clone_attr(a: &Attribute) -> (r: Attribute)
    ensures
        r@ == a@,
    decreases a,
{
    match a {
        Attribute::Bool(b) => Attribute::Bool(*b),
        Attribute::String(s) => Attribute::String(s.clone()),
        Attribute::Integer(i) => Attribute::Integer(*i),
        Attribute::Float(f) => Attribute::Float(*f),
        Attribute::Date(d) => Attribute::Date(*d),
        Attribute::Time(t) => Attribute::Time(*t),
        Attribute::DateTime(d) => Attribute::DateTime(*d),
        Attribute::Array(v) => {
            let mut w: Vec<Attribute> = Vec::new();
            let mut i: usize = 0;
            while i < v.len()
                invariant
                    i <= v.len(),
                    w@.len() == i,
                    forall|j: int| 0 <= j < i ==> #[trigger] attr_view(w@[j]) == attr_view(v@[j]),
                decreases v.len() - i,
            {
                proof {
                    broadcast use vstd::std_specs::vec::axiom_vec_decreases_to_view;
                    assert(decreases_to!(a => *v));
                    assert(decreases_to!(*v => v@));
                    assert(decreases_to!(v@ => v@[i as int]));
                }
                let c = clone_attr(&v[i]);
                w.push(c);
                i = i + 1;
            }
            proof {
                lemma_attrs_view(w@);
                lemma_attrs_view(v@);
                assert(attrs_view(w@) =~= attrs_view(v@));
            }
            Attribute::Array(w)
        },
        Attribute::Table(m) => {
            assert(decreases_to!(a => m));
            Attribute::Table(clone_map(m))
        },
    }
}

/// A copy of a table, nested values included.
#[verifier::loop_isolation(false)]
pub fn clone_map(m: &AttrMap) -> (r: AttrMap)
    ensures
        r@ == m@,
    decreases m,
{
    proof {
        use_type_invariant(m);
        lemma_entries_view(m.entries@);
    }
    let mut w: Vec<(String, Attribute)> = Vec::new();
    let mut i: usize = 0;
    while i < m.entries.len()
        invariant
            i <= m.entries.len(),
            w@.len() == i,
            forall|j: int| 0 <= j < i ==> #[trigger] w@[j].0@ == m.entries@[j].0@ && attr_view(w@[j].1) == attr_view(m.entries@[j].1),
        decreases m.entries.len() - i,
    {
        proof {
            broadcast use vstd::std_specs::vec::axiom_vec_decreases_to_view;
            assert(decreases_to!(*m => m.entries));
            assert(decreases_to!(m.entries => m.entries@));
            assert(decreases_to!(m.entries@ => m.entries@[i as int]));
            assert(decreases_to!(m.entries@[i as int] => m.entries@[i as int].1));
        }
        let k = m.entries[i].0.clone();
        let c = clone_attr(&m.entries[i].1);
        w.push((k, c));
        i = i + 1;
    }
    proof {
        lemma_entries_view(w@);
        assert(entries_view(w@) =~= entries_view(m.entries@));
    }
    AttrMap { entries: w }
}

impl Clone for Attribute {
    fn clone(&self) -> (r: Self)
        ensures
            r@ == self@,
    {
        clone_attr(self)
    }
}

impl Clone for AttrMap {
    fn clone(&self) -> (r: Self)
        ensures
            r@ == self@,
    {
        clone_map(self)
    }
}

impl Attribute {
    /// The name of the attribute's type.
    pub fn type_name_str(&self) -> (n: &'static str)
        ensures
            n@ == type_name_of(self@),
    {
        match self {
            Attribute::Bool(_) => {
                proof { reveal_strlit("Bool"); }
                "Bool"
            },
            Attribute::String(_) => {
                proof { reveal_strlit("String"); }
                "String"
            },
            Attribute::Integer(_) => {
                proof { reveal_strlit("Integer"); }
                "Integer"
            },
            Attribute::Float(_) => {
                proof { reveal_strlit("Float"); }
                "Float"
            },
            Attribute::Date(_) => {
                proof { reveal_strlit("Date"); }
                "Date"
            },
            Attribute::Time(_) => {
                proof { reveal_strlit("Time"); }
                "Time"
            },
            Attribute::DateTime(_) => {
                proof { reveal_strlit("DateTime"); }
                "DateTime"
            },
            Attribute::Array(_) => {
                proof { reveal_strlit("Array"); }
                "Array"
            },
            Attribute::Table(_) => {
                proof { reveal_strlit("Table"); }
                "Table"
            },
        }
    }

    pub fn get_string(&self) -> (r: Option<&str>)
        ensures
            match self@ {
                Val::Str(s) => r matches Some(x) && x@ == s,
                _ => r is None,
            },
    {
        match self {
            Attribute::String(s) => Some(s.as_str()),
            _ => None,
        }
    }

    pub fn get_table(&self) -> (r: Option<&AttrMap>)
        ensures
            match self@ {
                Val::Table(t) => r matches Some(m) && m@ == t,
                _ => r is None,
            },
    {
        match self {
            Attribute::Table(t) => Some(t),
            _ => None,
        }
    }
}

impl Default for Attribute {
    fn default() -> (r: Self)
        ensures
            r@ == Val::Bool(false),
    {
        Attribute::Bool(false)
    }
}


// ---------------------------------------------------------------------------
// Dates and times as text.
// ---------------------------------------------------------------------------

/// The decimal digits of `n`, with a leading zero below ten.
pub open spec fn pad2(n: nat) -> Seq<char> {
    if n < 10 {
        seq!['0'] + decimal(n)
    } else {
        decimal(n)
    }
}

/// `YYYY-MM-DD`, each number at least two digits long.
pub open spec fn date_text(d: Date) -> Seq<char> {
    pad2(d.year as nat) + seq!['-'] + pad2(d.month as nat) + seq!['-'] + pad2(d.day as nat)
}

/// `HH:MM:SS`, each number at least two digits long.
pub open spec fn time_text(t: Time) -> Seq<char> {
    pad2(t.hour as nat) + seq![':'] + pad2(t.min as nat) + seq![':'] + pad2(t.sec as nat)
}

/// The date and the time, separated by a space.
pub open spec fn datetime_text(d: DateTime) -> Seq<char> {
    date_text(d.date) + seq![' '] + time_text(d.time)
}

fn push_pad2(s: &mut String, n: u64)
    ensures
        final(s)@ == old(s)@ + pad2(n as nat),
{
    if n < 10 {
        push_char(s, '0');
    }
    push_decimal(s, n);
    assert(s@ =~= old(s)@ + pad2(n as nat));
}

fn push_date(s: &mut String, d: &Date)
    ensures
        final(s)@ == old(s)@ + date_text(*d),
{
    push_pad2(s, d.year as u64);
    push_char(s, '-');
    push_pad2(s, d.month as u64);
    push_char(s, '-');
    push_pad2(s, d.day as u64);
    assert(s@ =~= old(s)@ + date_text(*d));
}

fn push_time(s: &mut String, t: &Time)
    ensures
        final(s)@ == old(s)@ + time_text(*t),
{
    push_pad2(s, t.hour as u64);
    push_char(s, ':');
    push_pad2(s, t.min as u64);
    push_char(s, ':');
    push_pad2(s, t.sec as u64);
    assert(s@ =~= old(s)@ + time_text(*t));
}

impl Date {
    /// The date as `YYYY-MM-DD`.
    pub fn to_string(&self) -> (s: String)
        ensures
            s@ == date_text(*self),
    {
        let mut s = owned("");
        proof {
            reveal_strlit("");
        }
        push_date(&mut s, self);
        assert(s@ =~= date_text(*self));
        s
    }
}

impl Time {
    /// The time as `HH:MM:SS`.
    pub fn to_string(&self) -> (s: String)
        ensures
            s@ == time_text(*self),
    {
        let mut s = owned("");
        proof {
            reveal_strlit("");
        }
        push_time(&mut s, self);
        assert(s@ =~= time_text(*self));
        s
    }
}

impl DateTime {
    /// The date and the time, separated by a space.
    pub fn to_string(&self) -> (s: String)
        ensures
            s@ == datetime_text(*self),
    {
        let mut s = owned("");
        proof {
            reveal_strlit("");
        }
        push_date(&mut s, &self.date);
        push_char(&mut s, ' ');
        push_time(&mut s, &self.time);
        assert(s@ =~= datetime_text(*self));
        s
    }
}

// ---------------------------------------------------------------------------
// Short type names.
// ---------------------------------------------------------------------------

/// The characters that separate the paths inside a type's name.
pub open spec fn is_type_delim(c: char) -> bool {
    c == ',' || c == '(' || c == ')' || c == '<' || c == '>'
}

/// What follows the last `::` of `s[st..hi]`, scanning for `::` from
/// position `i` on, left to right.
pub open spec fn seg_tail(s: Seq<char>, hi: int, i: int, st: int) -> Seq<char>
    decreases hi - i,
{
    if i + 1 < hi && s[i] == ':' && s[i + 1] == ':' {
        seg_tail(s, hi, i + 2, i + 2)
    } else if i < hi {
        seg_tail(s, hi, i + 1, st)
    } else {
        s.subrange(st, hi)
    }
}

/// `s[st..]` with each path between separators cut to its last part, from
/// position `i` on.
pub open spec fn short_from(s: Seq<char>, i: int, st: int) -> Seq<char>
    decreases s.len() - i,
{
    if i >= s.len() {
        seg_tail(s, s.len() as int, st, st)
    } else if is_type_delim(s[i]) {
        seg_tail(s, i, st, st) + seq![s[i]] + short_from(s, i + 1, i + 1)
    } else {
        short_from(s, i + 1, st)
    }
}

/// A type's full name with each module path cut to its last part, such as
/// `Vec<String>` for `alloc::vec::Vec<alloc::string::String>`.
pub open spec fn short_type_name(s: Seq<char>) -> Seq<char> {
    short_from(s, 0, 0)
}

fn seg_tail_start(v: &Vec<char>, a: usize, b: usize) -> (st: usize)
    requires
        a <= b <= v.len(),
    ensures
        a <= st <= b,
        v@.subrange(st as int, b as int) == seg_tail(v@, b as int, a as int, a as int),
{
    let mut i = a;
    let mut st = a;
    while i < b
        invariant
            a <= st <= i <= b <= v.len(),
            seg_tail(v@, b as int, a as int, a as int) == seg_tail(v@, b as int, i as int, st as int),
        decreases b - i,
    {
        if i + 1 < b && v[i] == ':' && v[i + 1] == ':' {
            i = i + 2;
            st = i;
        } else {
            i = i + 1;
        }
    }
    st
}

/// The short form of a full type name (see `short_type_name`).
pub fn type_name_from_path(org: &str) -> (r: String)
    ensures
        r@ == short_type_name(org@),
{
    let v = chars_of(org);
    let mut out = owned("");
    proof {
        reveal_strlit("");
        assert(out@ + short_from(v@, 0, 0) =~= short_from(v@, 0, 0));
    }
    let mut st: usize = 0;
    let mut i: usize = 0;
    while i < v.len()
        invariant
            st <= i <= v.len(),
            v@ == org@,
            out@ + short_from(v@, i as int, st as int) == short_from(v@, 0, 0),
        decreases v.len() - i,
    {
        if v[i] == ',' || v[i] == '(' || v[i] == ')' || v[i] == '<' || v[i] == '>' {
            let t = seg_tail_start(&v, st, i);
            let part = substring(&v, t, i);
            let ghost o0 = out@;
            push_str(&mut out, part.as_str());
            push_char(&mut out, v[i]);
            assert(out@ + short_from(v@, i + 1, i + 1) =~= o0 + short_from(v@, i as int, st as int));
            st = i + 1;
        }
        i = i + 1;
    }
    let t = seg_tail_start(&v, st, v.len());
    let part = substring(&v, t, v.len());
    let ghost o0 = out@;
    push_str(&mut out, part.as_str());
    assert(out@ =~= o0 + short_from(v@, i as int, st as int));
    out
}

} // verus!
