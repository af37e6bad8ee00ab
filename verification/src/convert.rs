//! Reading typed values out of attributes: strictly (the attribute has
//! that type) or relaxed (some other types convert).
use vstd::prelude::*;
use crate::attrs::{AttrMap, Attribute, Date, DateTime, Time, Val, lookup, type_name_of, clone_map};
use crate::text::{owned, push_str};

verus! {

/// The message of a failed strict conversion.
pub open spec fn strict_error(v: Val, label: Seq<char>) -> Seq<char> {
    "Incorrect Type: got "@ + type_name_of(v) + " instead of "@ + label
}

/// The message of a failed relaxed conversion.
pub open spec fn relaxed_error(v: Val, label: Seq<char>) -> Seq<char> {
    "Incorrect Type: `"@ + type_name_of(v) + "` cannot be converted to `"@ + label + "`"@
}

/// Types that an attribute of one kind holds.
pub trait FromAttribute: Sized + View {
    /// The value held by an attribute of this type.
    spec fn from_val(v: Val) -> Option<Self::V>;

    /// The name of the type.
    spec fn label() -> Seq<char>;

    fn type_label() -> (s: &'static str)
        ensures
            s@ == Self::label();

    /// The value, where the attribute has this type.
    fn from_attr(value: &Attribute) -> (r: Option<Self>)
        ensures
            match (r, Self::from_val(value@)) {
                (Some(x), Some(y)) => x@ == y,
                (None, None) => true,
                _ => false,
            };

    /// The message of an attribute that is not of this type.
    spec fn strict_err(v: Val) -> Seq<char>;

    /// The value, or the message that the attribute has another type.
    fn try_from_attr(value: &Attribute) -> (r: Result<Self, String>)
        ensures
            match (r, Self::from_val(value@)) {
                (Ok(x), Some(y)) => x@ == y,
                (Err(m), None) => m@ == Self::strict_err(value@),
                _ => false,
            };
}

fn strict_message(value: &Attribute, label: &str) -> (m: String)
    ensures
        m@ == strict_error(value@, label@),
{
    let mut m = owned("Incorrect Type: got ");
    push_str(&mut m, value.type_name_str());
    push_str(&mut m, " instead of ");
    push_str(&mut m, label);
    m
}

/// Types that attributes of several kinds convert to.
pub trait FromAttributeRelaxed: Sized + View {
    /// The value an attribute converts to.
    spec fn relaxed_val(v: Val) -> Option<Self::V>;

    spec fn relaxed_label() -> Seq<char>;

    fn relaxed_type_label() -> (s: &'static str)
        ensures
            s@ == Self::relaxed_label();

    /// The message of an attribute that does not convert.
    spec fn relaxed_err(v: Val) -> Seq<char>;

    /// The converted value, or the message that the attribute does not
    /// convert.
    fn try_from_attr_relaxed(value: &Attribute) -> (r: Result<Self, String>)
        ensures
            match (r, Self::relaxed_val(value@)) {
                (Ok(x), Some(y)) => x@ == y,
                (Err(m), None) => m@ == Self::relaxed_err(value@),
                _ => false,
            };

    fn from_attr_relaxed(value: &Attribute) -> (r: Option<Self>)
        ensures
            match (r, Self::relaxed_val(value@)) {
                (Some(x), Some(y)) => x@ == y,
                (None, None) => true,
                _ => false,
            },
    {
        match Self::try_from_attr_relaxed(value) {
            Ok(x) => Some(x),
            Err(_) => None,
        }
    }
}

fn relaxed_message(value: &Attribute, label: &str) -> (m: String)
    ensures
        m@ == relaxed_error(value@, label@),
{
    let mut m = owned("Incorrect Type: `");
    push_str(&mut m, value.type_name_str());
    push_str(&mut m, "` cannot be converted to `");
    push_str(&mut m, label);
    push_str(&mut m, "`");
    m
}

/// A float given by its bits is not zero (NaN is not zero either).
pub open spec fn float_nonzero(bits: u64) -> bool {
    bits & 0x7fff_ffff_ffff_ffffu64 != 0
}

impl FromAttribute for bool {
    open spec fn from_val(v: Val) -> Option<bool> {
        match v {
            Val::Bool(b) => Some(b),
            _ => None,
        }
    }

    open spec fn label() -> Seq<char> {
        "bool"@
    }

    fn type_label() -> (s: &'static str) {
        "bool"
    }

    open spec fn strict_err(v: Val) -> Seq<char> {
        strict_error(v, "bool"@)
    }

    fn try_from_attr(value: &Attribute) -> (r: Result<bool, String>) {
        match Self::from_attr(value) {
            Some(x) => Ok(x),
            None => Err(strict_message(value, "bool")),
        }
    }

    fn from_attr(value: &Attribute) -> (r: Option<bool>) {
        match value {
            Attribute::Bool(b) => Some(*b),
            _ => None,
        }
    }
}

impl FromAttributeRelaxed for bool {
    /// Numbers are true where they are not zero; strings, arrays and
    /// tables are true where they are empty.
    open spec fn relaxed_val(v: Val) -> Option<bool> {
        match v {
            Val::Bool(b) => Some(b),
            Val::Integer(i) => Some(i != 0),
            Val::Float(f) => Some(float_nonzero(f)),
            Val::Str(s) => Some(s.len() == 0),
            Val::Array(a) => Some(a.len() == 0),
            Val::Table(t) => Some(t.len() == 0),
            _ => None,
        }
    }

    open spec fn relaxed_label() -> Seq<char> {
        "bool"@
    }

    fn relaxed_type_label() -> (s: &'static str) {
        "bool"
    }

    open spec fn relaxed_err(v: Val) -> Seq<char> {
        relaxed_error(v, "bool"@)
    }

    fn try_from_attr_relaxed(value: &Attribute) -> (r: Result<bool, String>) {
        match value {
            Attribute::Bool(b) => Ok(*b),
            Attribute::Integer(i) => Ok(*i != 0),
            Attribute::Float(f) => Ok(*f & 0x7fff_ffff_ffff_ffffu64 != 0),
            Attribute::String(s) => {
                proof {
                    crate::text::lemma_utf8_bytes_len(s@);
                }
                Ok(crate::text::string_byte_len(s) == 0)
            },
            Attribute::Array(a) => {
                proof {
                    crate::attrs::lemma_attrs_view(a@);
                }
                Ok(a.len() == 0)
            },
            Attribute::Table(t) => Ok(t.is_empty()),
            _ => {
                let m = relaxed_message(value, "bool");
                assert(<bool as FromAttributeRelaxed>::relaxed_label() == "bool"@);
                assert(<bool as FromAttributeRelaxed>::relaxed_val(value@) is None);
                assert(m@ == <bool as FromAttributeRelaxed>::relaxed_err(value@));
                Err(m)
            },
        }
    }
}

impl FromAttribute for i64 {
    open spec fn from_val(v: Val) -> Option<i64> {
        match v {
            Val::Integer(i) => Some(i),
            _ => None,
        }
    }

    open spec fn label() -> Seq<char> {
        "i64"@
    }

    fn type_label() -> (s: &'static str) {
        "i64"
    }

    open spec fn strict_err(v: Val) -> Seq<char> {
        strict_error(v, "i64"@)
    }

    fn try_from_attr(value: &Attribute) -> (r: Result<i64, String>) {
        match Self::from_attr(value) {
            Some(x) => Ok(x),
            None => Err(strict_message(value, "i64")),
        }
    }

    fn from_attr(value: &Attribute) -> (r: Option<i64>) {
        match value {
            Attribute::Integer(i) => Some(*i),
            _ => None,
        }
    }
}

impl FromAttributeRelaxed for i64 {
    /// Booleans are 1 and 0.
    open spec fn relaxed_val(v: Val) -> Option<i64> {
        match v {
            Val::Integer(i) => Some(i),
            Val::Bool(b) => Some(if b { 1 } else { 0 }),
            _ => None,
        }
    }

    open spec fn relaxed_label() -> Seq<char> {
        "i64"@
    }

    fn relaxed_type_label() -> (s: &'static str) {
        "i64"
    }

    open spec fn relaxed_err(v: Val) -> Seq<char> {
        relaxed_error(v, "i64"@)
    }

    fn try_from_attr_relaxed(value: &Attribute) -> (r: Result<i64, String>) {
        match value {
            Attribute::Integer(i) => Ok(*i),
            Attribute::Bool(b) => Ok(if *b { 1 } else { 0 }),
            _ => {
                let m = relaxed_message(value, "i64");
                assert(<i64 as FromAttributeRelaxed>::relaxed_label() == "i64"@);
                assert(m@ == <i64 as FromAttributeRelaxed>::relaxed_err(value@));
                Err(m)
            },
        }
    }
}

impl FromAttribute for String {
    open spec fn from_val(v: Val) -> Option<Seq<char>> {
        match v {
            Val::Str(s) => Some(s),
            _ => None,
        }
    }

    open spec fn label() -> Seq<char> {
        "String"@
    }

    fn type_label() -> (s: &'static str) {
        "String"
    }

    open spec fn strict_err(v: Val) -> Seq<char> {
        strict_error(v, "String"@)
    }

    fn try_from_attr(value: &Attribute) -> (r: Result<String, String>) {
        match Self::from_attr(value) {
            Some(x) => Ok(x),
            None => Err(strict_message(value, "String")),
        }
    }

    fn from_attr(value: &Attribute) -> (r: Option<String>) {
        match value {
            Attribute::String(s) => Some(s.clone()),
            _ => None,
        }
    }
}

impl FromAttributeRelaxed for String {
    open spec fn relaxed_val(v: Val) -> Option<Seq<char>> {
        <String as FromAttribute>::from_val(v)
    }

    open spec fn relaxed_label() -> Seq<char> {
        "String"@
    }

    fn relaxed_type_label() -> (s: &'static str) {
        "String"
    }

    open spec fn relaxed_err(v: Val) -> Seq<char> {
        relaxed_error(v, "String"@)
    }

    fn try_from_attr_relaxed(value: &Attribute) -> (r: Result<String, String>) {
        match value {
            Attribute::String(s) => Ok(s.clone()),
            _ => {
                let m = relaxed_message(value, "String");
                assert(<String as FromAttributeRelaxed>::relaxed_label() == "String"@);
                assert(m@ == <String as FromAttributeRelaxed>::relaxed_err(value@));
                Err(m)
            },
        }
    }
}

impl FromAttribute for Date {
    open spec fn from_val(v: Val) -> Option<Date> {
        match v {
            Val::Date(d) => Some(d),
            _ => None,
        }
    }

    open spec fn label() -> Seq<char> {
        "Date"@
    }

    fn type_label() -> (s: &'static str) {
        "Date"
    }

    open spec fn strict_err(v: Val) -> Seq<char> {
        strict_error(v, "Date"@)
    }

    fn try_from_attr(value: &Attribute) -> (r: Result<Date, String>) {
        match Self::from_attr(value) {
            Some(x) => Ok(x),
            None => Err(strict_message(value, "Date")),
        }
    }

    fn from_attr(value: &Attribute) -> (r: Option<Date>) {
        match value {
            Attribute::Date(d) => Some(*d),
            _ => None,
        }
    }
}

impl FromAttributeRelaxed for Date {
    open spec fn relaxed_val(v: Val) -> Option<Date> {
        <Date as FromAttribute>::from_val(v)
    }

    open spec fn relaxed_label() -> Seq<char> {
        "Date"@
    }

    fn relaxed_type_label() -> (s: &'static str) {
        "Date"
    }

    open spec fn relaxed_err(v: Val) -> Seq<char> {
        relaxed_error(v, "Date"@)
    }

    fn try_from_attr_relaxed(value: &Attribute) -> (r: Result<Date, String>) {
        match value {
            Attribute::Date(d) => Ok(*d),
            _ => {
                let m = relaxed_message(value, "Date");
                assert(<Date as FromAttributeRelaxed>::relaxed_label() == "Date"@);
                assert(m@ == <Date as FromAttributeRelaxed>::relaxed_err(value@));
                Err(m)
            },
        }
    }
}

impl FromAttribute for Time {
    open spec fn from_val(v: Val) -> Option<Time> {
        match v {
            Val::Time(t) => Some(t),
            _ => None,
        }
    }

    open spec fn label() -> Seq<char> {
        "Time"@
    }

    fn type_label() -> (s: &'static str) {
        "Time"
    }

    open spec fn strict_err(v: Val) -> Seq<char> {
        strict_error(v, "Time"@)
    }

    fn try_from_attr(value: &Attribute) -> (r: Result<Time, String>) {
        match Self::from_attr(value) {
            Some(x) => Ok(x),
            None => Err(strict_message(value, "Time")),
        }
    }

    fn from_attr(value: &Attribute) -> (r: Option<Time>) {
        match value {
            Attribute::Time(t) => Some(*t),
            _ => None,
        }
    }
}

impl FromAttributeRelaxed for Time {
    open spec fn relaxed_val(v: Val) -> Option<Time> {
        <Time as FromAttribute>::from_val(v)
    }

    open spec fn relaxed_label() -> Seq<char> {
        "Time"@
    }

    fn relaxed_type_label() -> (s: &'static str) {
        "Time"
    }

    open spec fn relaxed_err(v: Val) -> Seq<char> {
        relaxed_error(v, "Time"@)
    }

    fn try_from_attr_relaxed(value: &Attribute) -> (r: Result<Time, String>) {
        match value {
            Attribute::Time(t) => Ok(*t),
            _ => {
                let m = relaxed_message(value, "Time");
                assert(<Time as FromAttributeRelaxed>::relaxed_label() == "Time"@);
                assert(m@ == <Time as FromAttributeRelaxed>::relaxed_err(value@));
                Err(m)
            },
        }
    }
}

impl FromAttribute for DateTime {
    open spec fn from_val(v: Val) -> Option<DateTime> {
        match v {
            Val::DateTime(d) => Some(d),
            _ => None,
        }
    }

    open spec fn label() -> Seq<char> {
        "DateTime"@
    }

    fn type_label() -> (s: &'static str) {
        "DateTime"
    }

    open spec fn strict_err(v: Val) -> Seq<char> {
        strict_error(v, "DateTime"@)
    }

    fn try_from_attr(value: &Attribute) -> (r: Result<DateTime, String>) {
        match Self::from_attr(value) {
            Some(x) => Ok(x),
            None => Err(strict_message(value, "DateTime")),
        }
    }

    fn from_attr(value: &Attribute) -> (r: Option<DateTime>) {
        match value {
            Attribute::DateTime(d) => Some(*d),
            _ => None,
        }
    }
}

impl FromAttributeRelaxed for DateTime {
    /// A date is the start of that day.
    open spec fn relaxed_val(v: Val) -> Option<DateTime> {
        match v {
            Val::DateTime(d) => Some(d),
            Val::Date(d) => Some(DateTime { date: d, time: Time { hour: 0, min: 0, sec: 0, nanosecond: 0 }, offset: None }),
            _ => None,
        }
    }

    open spec fn relaxed_label() -> Seq<char> {
        "DateTime"@
    }

    fn relaxed_type_label() -> (s: &'static str) {
        "DateTime"
    }

    open spec fn relaxed_err(v: Val) -> Seq<char> {
        relaxed_error(v, "DateTime"@)
    }

    fn try_from_attr_relaxed(value: &Attribute) -> (r: Result<DateTime, String>) {
        match value {
            Attribute::DateTime(d) => Ok(*d),
            Attribute::Date(d) => Ok(DateTime::new(*d, Time::new(0, 0, 0, 0), None)),
            _ => {
                let m = relaxed_message(value, "DateTime");
                assert(<DateTime as FromAttributeRelaxed>::relaxed_label() == "DateTime"@);
                assert(m@ == <DateTime as FromAttributeRelaxed>::relaxed_err(value@));
                Err(m)
            },
        }
    }
}

impl FromAttribute for AttrMap {
    open spec fn from_val(v: Val) -> Option<Seq<(Seq<char>, Val)>> {
        match v {
            Val::Table(t) => Some(t),
            _ => None,
        }
    }

    open spec fn label() -> Seq<char> {
        "AttrMap"@
    }

    fn type_label() -> (s: &'static str) {
        "AttrMap"
    }

    open spec fn strict_err(v: Val) -> Seq<char> {
        strict_error(v, "AttrMap"@)
    }

    fn try_from_attr(value: &Attribute) -> (r: Result<AttrMap, String>) {
        match Self::from_attr(value) {
            Some(x) => Ok(x),
            None => Err(strict_message(value, "AttrMap")),
        }
    }

    fn from_attr(value: &Attribute) -> (r: Option<AttrMap>) {
        match value {
            Attribute::Table(t) => Some(clone_map(t)),
            _ => None,
        }
    }
}

impl FromAttributeRelaxed for AttrMap {
    open spec fn relaxed_val(v: Val) -> Option<Seq<(Seq<char>, Val)>> {
        <AttrMap as FromAttribute>::from_val(v)
    }

    open spec fn relaxed_label() -> Seq<char> {
        "AttrMap"@
    }

    fn relaxed_type_label() -> (s: &'static str) {
        "AttrMap"
    }

    open spec fn relaxed_err(v: Val) -> Seq<char> {
        relaxed_error(v, "AttrMap"@)
    }

    fn try_from_attr_relaxed(value: &Attribute) -> (r: Result<AttrMap, String>) {
        match value {
            Attribute::Table(t) => Ok(clone_map(t)),
            _ => {
                let m = relaxed_message(value, "AttrMap");
                assert(<AttrMap as FromAttributeRelaxed>::relaxed_label() == "AttrMap"@);
                assert(m@ == <AttrMap as FromAttributeRelaxed>::relaxed_err(value@));
                Err(m)
            },
        }
    }
}

/// The message of an array with too few members for a tuple.
pub open spec fn not_enough() -> Seq<char> {
    "Not enough members"@
}

/// An array read as a 1-tuple: its first members, each read as its type;
/// the error is the first member's, or that there are too few members.
impl<A0: FromAttribute> FromAttribute for (A0,) {
    open spec fn from_val(v: Val) -> Option<(A0::V,)> {
        match v {
            Val::Array(a) => if a.len() >= 1 && A0::from_val(a[0]) is Some {
                Some((A0::from_val(a[0])->0,))
            } else {
                None
            },
            _ => None,
        }
    }

    open spec fn label() -> Seq<char> {
        "tuple"@
    }

    fn type_label() -> (s: &'static str) {
        "tuple"
    }

    open spec fn strict_err(v: Val) -> Seq<char> {
        match v {
            Val::Array(a) => if a.len() < 1 {
                not_enough()
            } else if A0::from_val(a[0]) is None {
                A0::strict_err(a[0])
            } else {
                Seq::empty()
            },
            _ => "Incorrect Type: got `"@ + type_name_of(v) + "` instead of `("@ + A0::label() + ","@ + ")`"@,
        }
    }

    fn from_attr(value: &Attribute) -> (r: Option<(A0,)>) {
        match Self::try_from_attr(value) {
            Ok(x) => Some(x),
            Err(_) => None,
        }
    }

    fn try_from_attr(value: &Attribute) -> (r: Result<(A0,), String>) {
        proof {
            assert(Self::strict_err(value@) == <Self as FromAttribute>::strict_err(value@));
        }
        match value {
            Attribute::Array(a) => {
                proof {
                    crate::attrs::lemma_attrs_view(a@);
                }
                if a.len() < 1 {
                    return Err(owned("Not enough members"));
                }
                let x0 = match A0::try_from_attr(&a[0]) {
                    Ok(x) => x,
                    Err(e) => {
                        return Err(e);
                    },
                };
                Ok((x0,))
            },
            _ => {
                let mut m = owned("Incorrect Type: got `");
                push_str(&mut m, value.type_name_str());
                push_str(&mut m, "` instead of `(");
                push_str(&mut m, A0::type_label());
                push_str(&mut m, ",");
                push_str(&mut m, ")`");
                Err(m)
            },
        }
    }
}

/// An array converted to a 1-tuple: its first members, each converted;
/// the error is the first member's, or that there are too few members.
impl<A0: FromAttributeRelaxed> FromAttributeRelaxed for (A0,) {
    open spec fn relaxed_val(v: Val) -> Option<(A0::V,)> {
        match v {
            Val::Array(a) => if a.len() >= 1 && A0::relaxed_val(a[0]) is Some {
                Some((A0::relaxed_val(a[0])->0,))
            } else {
                None
            },
            _ => None,
        }
    }

    open spec fn relaxed_label() -> Seq<char> {
        "tuple"@
    }

    fn relaxed_type_label() -> (s: &'static str) {
        "tuple"
    }

    open spec fn relaxed_err(v: Val) -> Seq<char> {
        match v {
            Val::Array(a) => if a.len() < 1 {
                not_enough()
            } else if A0::relaxed_val(a[0]) is None {
                A0::relaxed_err(a[0])
            } else {
                Seq::empty()
            },
            _ => "Incorrect Type: got "@ + type_name_of(v) + " instead of ("@ + A0::relaxed_label() + ","@ + ")"@,
        }
    }

    fn try_from_attr_relaxed(value: &Attribute) -> (r: Result<(A0,), String>) {
        proof {
            assert(Self::relaxed_err(value@) == <Self as FromAttributeRelaxed>::relaxed_err(value@));
        }
        match value {
            Attribute::Array(a) => {
                proof {
                    crate::attrs::lemma_attrs_view(a@);
                }
                if a.len() < 1 {
                    return Err(owned("Not enough members"));
                }
                let x0 = match A0::try_from_attr_relaxed(&a[0]) {
                    Ok(x) => x,
                    Err(e) => {
                        return Err(e);
                    },
                };
                Ok((x0,))
            },
            _ => {
                let mut m = owned("Incorrect Type: got ");
                push_str(&mut m, value.type_name_str());
                push_str(&mut m, " instead of (");
                push_str(&mut m, A0::relaxed_type_label());
                push_str(&mut m, ",");
                push_str(&mut m, ")");
                Err(m)
            },
        }
    }
}

/// An array read as a 2-tuple: its first members, each read as its type;
/// the error is the first member's, or that there are too few members.
impl<A0: FromAttribute, A1: FromAttribute> FromAttribute for (A0, A1) {
    open spec fn from_val(v: Val) -> Option<(A0::V, A1::V)> {
        match v {
            Val::Array(a) => if a.len() >= 2 && A0::from_val(a[0]) is Some && A1::from_val(a[1]) is Some {
                Some((A0::from_val(a[0])->0, A1::from_val(a[1])->0))
            } else {
                None
            },
            _ => None,
        }
    }

    open spec fn label() -> Seq<char> {
        "tuple"@
    }

    fn type_label() -> (s: &'static str) {
        "tuple"
    }

    open spec fn strict_err(v: Val) -> Seq<char> {
        match v {
            Val::Array(a) => if a.len() < 1 {
                not_enough()
            } else if A0::from_val(a[0]) is None {
                A0::strict_err(a[0])
            } else if a.len() < 2 {
                not_enough()
            } else if A1::from_val(a[1]) is None {
                A1::strict_err(a[1])
            } else {
                Seq::empty()
            },
            _ => "Incorrect Type: got `"@ + type_name_of(v) + "` instead of `("@ + A0::label() + ", "@ + A1::label() + ")`"@,
        }
    }

    fn from_attr(value: &Attribute) -> (r: Option<(A0, A1)>) {
        match Self::try_from_attr(value) {
            Ok(x) => Some(x),
            Err(_) => None,
        }
    }

    fn try_from_attr(value: &Attribute) -> (r: Result<(A0, A1), String>) {
        proof {
            assert(Self::strict_err(value@) == <Self as FromAttribute>::strict_err(value@));
        }
        match value {
            Attribute::Array(a) => {
                proof {
                    crate::attrs::lemma_attrs_view(a@);
                }
                if a.len() < 1 {
                    return Err(owned("Not enough members"));
                }
                let x0 = match A0::try_from_attr(&a[0]) {
                    Ok(x) => x,
                    Err(e) => {
                        return Err(e);
                    },
                };
                if a.len() < 2 {
                    return Err(owned("Not enough members"));
                }
                let x1 = match A1::try_from_attr(&a[1]) {
                    Ok(x) => x,
                    Err(e) => {
                        return Err(e);
                    },
                };
                Ok((x0, x1))
            },
            _ => {
                let mut m = owned("Incorrect Type: got `");
                push_str(&mut m, value.type_name_str());
                push_str(&mut m, "` instead of `(");
                push_str(&mut m, A0::type_label());
                push_str(&mut m, ", ");
                push_str(&mut m, A1::type_label());
                push_str(&mut m, ")`");
                Err(m)
            },
        }
    }
}

/// An array converted to a 2-tuple: its first members, each converted;
/// the error is the first member's, or that there are too few members.
impl<A0: FromAttributeRelaxed, A1: FromAttributeRelaxed> FromAttributeRelaxed for (A0, A1) {
    open spec fn relaxed_val(v: Val) -> Option<(A0::V, A1::V)> {
        match v {
            Val::Array(a) => if a.len() >= 2 && A0::relaxed_val(a[0]) is Some && A1::relaxed_val(a[1]) is Some {
                Some((A0::relaxed_val(a[0])->0, A1::relaxed_val(a[1])->0))
            } else {
                None
            },
            _ => None,
        }
    }

    open spec fn relaxed_label() -> Seq<char> {
        "tuple"@
    }

    fn relaxed_type_label() -> (s: &'static str) {
        "tuple"
    }

    open spec fn relaxed_err(v: Val) -> Seq<char> {
        match v {
            Val::Array(a) => if a.len() < 1 {
                not_enough()
            } else if A0::relaxed_val(a[0]) is None {
                A0::relaxed_err(a[0])
            } else if a.len() < 2 {
                not_enough()
            } else if A1::relaxed_val(a[1]) is None {
                A1::relaxed_err(a[1])
            } else {
                Seq::empty()
            },
            _ => "Incorrect Type: got "@ + type_name_of(v) + " instead of ("@ + A0::relaxed_label() + ", "@ + A1::relaxed_label() + ")"@,
        }
    }

    fn try_from_attr_relaxed(value: &Attribute) -> (r: Result<(A0, A1), String>) {
        proof {
            assert(Self::relaxed_err(value@) == <Self as FromAttributeRelaxed>::relaxed_err(value@));
        }
        match value {
            Attribute::Array(a) => {
                proof {
                    crate::attrs::lemma_attrs_view(a@);
                }
                if a.len() < 1 {
                    return Err(owned("Not enough members"));
                }
                let x0 = match A0::try_from_attr_relaxed(&a[0]) {
                    Ok(x) => x,
                    Err(e) => {
                        return Err(e);
                    },
                };
                if a.len() < 2 {
                    return Err(owned("Not enough members"));
                }
                let x1 = match A1::try_from_attr_relaxed(&a[1]) {
                    Ok(x) => x,
                    Err(e) => {
                        return Err(e);
                    },
                };
                Ok((x0, x1))
            },
            _ => {
                let mut m = owned("Incorrect Type: got ");
                push_str(&mut m, value.type_name_str());
                push_str(&mut m, " instead of (");
                push_str(&mut m, A0::relaxed_type_label());
                push_str(&mut m, ", ");
                push_str(&mut m, A1::relaxed_type_label());
                push_str(&mut m, ")");
                Err(m)
            },
        }
    }
}

/// An array read as a 3-tuple: its first members, each read as its type;
/// the error is the first member's, or that there are too few members.
impl<A0: FromAttribute, A1: FromAttribute, A2: FromAttribute> FromAttribute for (A0, A1, A2) {
    open spec fn from_val(v: Val) -> Option<(A0::V, A1::V, A2::V)> {
        match v {
            Val::Array(a) => if a.len() >= 3 && A0::from_val(a[0]) is Some && A1::from_val(a[1]) is Some && A2::from_val(a[2]) is Some {
                Some((A0::from_val(a[0])->0, A1::from_val(a[1])->0, A2::from_val(a[2])->0))
            } else {
                None
            },
            _ => None,
        }
    }

    open spec fn label() -> Seq<char> {
        "tuple"@
    }

    fn type_label() -> (s: &'static str) {
        "tuple"
    }

    open spec fn strict_err(v: Val) -> Seq<char> {
        match v {
            Val::Array(a) => if a.len() < 1 {
                not_enough()
            } else if A0::from_val(a[0]) is None {
                A0::strict_err(a[0])
            } else if a.len() < 2 {
                not_enough()
            } else if A1::from_val(a[1]) is None {
                A1::strict_err(a[1])
            } else if a.len() < 3 {
                not_enough()
            } else if A2::from_val(a[2]) is None {
                A2::strict_err(a[2])
            } else {
                Seq::empty()
            },
            _ => "Incorrect Type: got `"@ + type_name_of(v) + "` instead of `("@ + A0::label() + ", "@ + A1::label() + ", "@ + A2::label() + ")`"@,
        }
    }

    fn from_attr(value: &Attribute) -> (r: Option<(A0, A1, A2)>) {
        match Self::try_from_attr(value) {
            Ok(x) => Some(x),
            Err(_) => None,
        }
    }

    fn try_from_attr(value: &Attribute) -> (r: Result<(A0, A1, A2), String>) {
        proof {
            assert(Self::strict_err(value@) == <Self as FromAttribute>::strict_err(value@));
        }
        match value {
            Attribute::Array(a) => {
                proof {
                    crate::attrs::lemma_attrs_view(a@);
                }
                if a.len() < 1 {
                    return Err(owned("Not enough members"));
                }
                let x0 = match A0::try_from_attr(&a[0]) {
                    Ok(x) => x,
                    Err(e) => {
                        return Err(e);
                    },
                };
                if a.len() < 2 {
                    return Err(owned("Not enough members"));
                }
                let x1 = match A1::try_from_attr(&a[1]) {
                    Ok(x) => x,
                    Err(e) => {
                        return Err(e);
                    },
                };
                if a.len() < 3 {
                    return Err(owned("Not enough members"));
                }
                let x2 = match A2::try_from_attr(&a[2]) {
                    Ok(x) => x,
                    Err(e) => {
                        return Err(e);
                    },
                };
                Ok((x0, x1, x2))
            },
            _ => {
                let mut m = owned("Incorrect Type: got `");
                push_str(&mut m, value.type_name_str());
                push_str(&mut m, "` instead of `(");
                push_str(&mut m, A0::type_label());
                push_str(&mut m, ", ");
                push_str(&mut m, A1::type_label());
                push_str(&mut m, ", ");
                push_str(&mut m, A2::type_label());
                push_str(&mut m, ")`");
                Err(m)
            },
        }
    }
}

/// An array converted to a 3-tuple: its first members, each converted;
/// the error is the first member's, or that there are too few members.
impl<A0: FromAttributeRelaxed, A1: FromAttributeRelaxed, A2: FromAttributeRelaxed> FromAttributeRelaxed for (A0, A1, A2) {
    open spec fn relaxed_val(v: Val) -> Option<(A0::V, A1::V, A2::V)> {
        match v {
            Val::Array(a) => if a.len() >= 3 && A0::relaxed_val(a[0]) is Some && A1::relaxed_val(a[1]) is Some && A2::relaxed_val(a[2]) is Some {
                Some((A0::relaxed_val(a[0])->0, A1::relaxed_val(a[1])->0, A2::relaxed_val(a[2])->0))
            } else {
                None
            },
            _ => None,
        }
    }

    open spec fn relaxed_label() -> Seq<char> {
        "tuple"@
    }

    fn relaxed_type_label() -> (s: &'static str) {
        "tuple"
    }

    open spec fn relaxed_err(v: Val) -> Seq<char> {
        match v {
            Val::Array(a) => if a.len() < 1 {
                not_enough()
            } else if A0::relaxed_val(a[0]) is None {
                A0::relaxed_err(a[0])
            } else if a.len() < 2 {
                not_enough()
            } else if A1::relaxed_val(a[1]) is None {
                A1::relaxed_err(a[1])
            } else if a.len() < 3 {
                not_enough()
            } else if A2::relaxed_val(a[2]) is None {
                A2::relaxed_err(a[2])
            } else {
                Seq::empty()
            },
            _ => "Incorrect Type: got "@ + type_name_of(v) + " instead of ("@ + A0::relaxed_label() + ", "@ + A1::relaxed_label() + ", "@ + A2::relaxed_label() + ")"@,
        }
    }

    fn try_from_attr_relaxed(value: &Attribute) -> (r: Result<(A0, A1, A2), String>) {
        proof {
            assert(Self::relaxed_err(value@) == <Self as FromAttributeRelaxed>::relaxed_err(value@));
        }
        match value {
            Attribute::Array(a) => {
                proof {
                    crate::attrs::lemma_attrs_view(a@);
                }
                if a.len() < 1 {
                    return Err(owned("Not enough members"));
                }
                let x0 = match A0::try_from_attr_relaxed(&a[0]) {
                    Ok(x) => x,
                    Err(e) => {
                        return Err(e);
                    },
                };
                if a.len() < 2 {
                    return Err(owned("Not enough members"));
                }
                let x1 = match A1::try_from_attr_relaxed(&a[1]) {
                    Ok(x) => x,
                    Err(e) => {
                        return Err(e);
                    },
                };
                if a.len() < 3 {
                    return Err(owned("Not enough members"));
                }
                let x2 = match A2::try_from_attr_relaxed(&a[2]) {
                    Ok(x) => x,
                    Err(e) => {
                        return Err(e);
                    },
                };
                Ok((x0, x1, x2))
            },
            _ => {
                let mut m = owned("Incorrect Type: got ");
                push_str(&mut m, value.type_name_str());
                push_str(&mut m, " instead of (");
                push_str(&mut m, A0::relaxed_type_label());
                push_str(&mut m, ", ");
                push_str(&mut m, A1::relaxed_type_label());
                push_str(&mut m, ", ");
                push_str(&mut m, A2::relaxed_type_label());
                push_str(&mut m, ")");
                Err(m)
            },
        }
    }
}

/// An array read as a 4-tuple: its first members, each read as its type;
/// the error is the first member's, or that there are too few members.
impl<A0: FromAttribute, A1: FromAttribute, A2: FromAttribute, A3: FromAttribute> FromAttribute for (A0, A1, A2, A3) {
    open spec fn from_val(v: Val) -> Option<(A0::V, A1::V, A2::V, A3::V)> {
        match v {
            Val::Array(a) => if a.len() >= 4 && A0::from_val(a[0]) is Some && A1::from_val(a[1]) is Some && A2::from_val(a[2]) is Some && A3::from_val(a[3]) is Some {
                Some((A0::from_val(a[0])->0, A1::from_val(a[1])->0, A2::from_val(a[2])->0, A3::from_val(a[3])->0))
            } else {
                None
            },
            _ => None,
        }
    }

    open spec fn label() -> Seq<char> {
        "tuple"@
    }

    fn type_label() -> (s: &'static str) {
        "tuple"
    }

    open spec fn strict_err(v: Val) -> Seq<char> {
        match v {
            Val::Array(a) => if a.len() < 1 {
                not_enough()
            } else if A0::from_val(a[0]) is None {
                A0::strict_err(a[0])
            } else if a.len() < 2 {
                not_enough()
            } else if A1::from_val(a[1]) is None {
                A1::strict_err(a[1])
            } else if a.len() < 3 {
                not_enough()
            } else if A2::from_val(a[2]) is None {
                A2::strict_err(a[2])
            } else if a.len() < 4 {
                not_enough()
            } else if A3::from_val(a[3]) is None {
                A3::strict_err(a[3])
            } else {
                Seq::empty()
            },
            _ => "Incorrect Type: got `"@ + type_name_of(v) + "` instead of `("@ + A0::label() + ", "@ + A1::label() + ", "@ + A2::label() + ", "@ + A3::label() + ")`"@,
        }
    }

    fn from_attr(value: &Attribute) -> (r: Option<(A0, A1, A2, A3)>) {
        match Self::try_from_attr(value) {
            Ok(x) => Some(x),
            Err(_) => None,
        }
    }

    fn try_from_attr(value: &Attribute) -> (r: Result<(A0, A1, A2, A3), String>) {
        proof {
            assert(Self::strict_err(value@) == <Self as FromAttribute>::strict_err(value@));
        }
        match value {
            Attribute::Array(a) => {
                proof {
                    crate::attrs::lemma_attrs_view(a@);
                }
                if a.len() < 1 {
                    return Err(owned("Not enough members"));
                }
                let x0 = match A0::try_from_attr(&a[0]) {
                    Ok(x) => x,
                    Err(e) => {
                        return Err(e);
                    },
                };
                if a.len() < 2 {
                    return Err(owned("Not enough members"));
                }
                let x1 = match A1::try_from_attr(&a[1]) {
                    Ok(x) => x,
                    Err(e) => {
                        return Err(e);
                    },
                };
                if a.len() < 3 {
                    return Err(owned("Not enough members"));
                }
                let x2 = match A2::try_from_attr(&a[2]) {
                    Ok(x) => x,
                    Err(e) => {
                        return Err(e);
                    },
                };
                if a.len() < 4 {
                    return Err(owned("Not enough members"));
                }
                let x3 = match A3::try_from_attr(&a[3]) {
                    Ok(x) => x,
                    Err(e) => {
                        return Err(e);
                    },
                };
                Ok((x0, x1, x2, x3))
            },
            _ => {
                let mut m = owned("Incorrect Type: got `");
                push_str(&mut m, value.type_name_str());
                push_str(&mut m, "` instead of `(");
                push_str(&mut m, A0::type_label());
                push_str(&mut m, ", ");
                push_str(&mut m, A1::type_label());
                push_str(&mut m, ", ");
                push_str(&mut m, A2::type_label());
                push_str(&mut m, ", ");
                push_str(&mut m, A3::type_label());
                push_str(&mut m, ")`");
                Err(m)
            },
        }
    }
}

/// An array converted to a 4-tuple: its first members, each converted;
/// the error is the first member's, or that there are too few members.
impl<A0: FromAttributeRelaxed, A1: FromAttributeRelaxed, A2: FromAttributeRelaxed, A3: FromAttributeRelaxed> FromAttributeRelaxed for (A0, A1, A2, A3) {
    open spec fn relaxed_val(v: Val) -> Option<(A0::V, A1::V, A2::V, A3::V)> {
        match v {
            Val::Array(a) => if a.len() >= 4 && A0::relaxed_val(a[0]) is Some && A1::relaxed_val(a[1]) is Some && A2::relaxed_val(a[2]) is Some && A3::relaxed_val(a[3]) is Some {
                Some((A0::relaxed_val(a[0])->0, A1::relaxed_val(a[1])->0, A2::relaxed_val(a[2])->0, A3::relaxed_val(a[3])->0))
            } else {
                None
            },
            _ => None,
        }
    }

    open spec fn relaxed_label() -> Seq<char> {
        "tuple"@
    }

    fn relaxed_type_label() -> (s: &'static str) {
        "tuple"
    }

    open spec fn relaxed_err(v: Val) -> Seq<char> {
        match v {
            Val::Array(a) => if a.len() < 1 {
                not_enough()
            } else if A0::relaxed_val(a[0]) is None {
                A0::relaxed_err(a[0])
            } else if a.len() < 2 {
                not_enough()
            } else if A1::relaxed_val(a[1]) is None {
                A1::relaxed_err(a[1])
            } else if a.len() < 3 {
                not_enough()
            } else if A2::relaxed_val(a[2]) is None {
                A2::relaxed_err(a[2])
            } else if a.len() < 4 {
                not_enough()
            } else if A3::relaxed_val(a[3]) is None {
                A3::relaxed_err(a[3])
            } else {
                Seq::empty()
            },
            _ => "Incorrect Type: got "@ + type_name_of(v) + " instead of ("@ + A0::relaxed_label() + ", "@ + A1::relaxed_label() + ", "@ + A2::relaxed_label() + ", "@ + A3::relaxed_label() + ")"@,
        }
    }

    fn try_from_attr_relaxed(value: &Attribute) -> (r: Result<(A0, A1, A2, A3), String>) {
        proof {
            assert(Self::relaxed_err(value@) == <Self as FromAttributeRelaxed>::relaxed_err(value@));
        }
        match value {
            Attribute::Array(a) => {
                proof {
                    crate::attrs::lemma_attrs_view(a@);
                }
                if a.len() < 1 {
                    return Err(owned("Not enough members"));
                }
                let x0 = match A0::try_from_attr_relaxed(&a[0]) {
                    Ok(x) => x,
                    Err(e) => {
                        return Err(e);
                    },
                };
                if a.len() < 2 {
                    return Err(owned("Not enough members"));
                }
                let x1 = match A1::try_from_attr_relaxed(&a[1]) {
                    Ok(x) => x,
                    Err(e) => {
                        return Err(e);
                    },
                };
                if a.len() < 3 {
                    return Err(owned("Not enough members"));
                }
                let x2 = match A2::try_from_attr_relaxed(&a[2]) {
                    Ok(x) => x,
                    Err(e) => {
                        return Err(e);
                    },
                };
                if a.len() < 4 {
                    return Err(owned("Not enough members"));
                }
                let x3 = match A3::try_from_attr_relaxed(&a[3]) {
                    Ok(x) => x,
                    Err(e) => {
                        return Err(e);
                    },
                };
                Ok((x0, x1, x2, x3))
            },
            _ => {
                let mut m = owned("Incorrect Type: got ");
                push_str(&mut m, value.type_name_str());
                push_str(&mut m, " instead of (");
                push_str(&mut m, A0::relaxed_type_label());
                push_str(&mut m, ", ");
                push_str(&mut m, A1::relaxed_type_label());
                push_str(&mut m, ", ");
                push_str(&mut m, A2::relaxed_type_label());
                push_str(&mut m, ", ");
                push_str(&mut m, A3::relaxed_type_label());
                push_str(&mut m, ")");
                Err(m)
            },
        }
    }
}

/// An array read as a 5-tuple: its first members, each read as its type;
/// the error is the first member's, or that there are too few members.
impl<A0: FromAttribute, A1: FromAttribute, A2: FromAttribute, A3: FromAttribute, A4: FromAttribute> FromAttribute for (A0, A1, A2, A3, A4) {
    open spec fn from_val(v: Val) -> Option<(A0::V, A1::V, A2::V, A3::V, A4::V)> {
        match v {
            Val::Array(a) => if a.len() >= 5 && A0::from_val(a[0]) is Some && A1::from_val(a[1]) is Some && A2::from_val(a[2]) is Some && A3::from_val(a[3]) is Some && A4::from_val(a[4]) is Some {
                Some((A0::from_val(a[0])->0, A1::from_val(a[1])->0, A2::from_val(a[2])->0, A3::from_val(a[3])->0, A4::from_val(a[4])->0))
            } else {
                None
            },
            _ => None,
        }
    }

    open spec fn label() -> Seq<char> {
        "tuple"@
    }

    fn type_label() -> (s: &'static str) {
        "tuple"
    }

    open spec fn strict_err(v: Val) -> Seq<char> {
        match v {
            Val::Array(a) => if a.len() < 1 {
                not_enough()
            } else if A0::from_val(a[0]) is None {
                A0::strict_err(a[0])
            } else if a.len() < 2 {
                not_enough()
            } else if A1::from_val(a[1]) is None {
                A1::strict_err(a[1])
            } else if a.len() < 3 {
                not_enough()
            } else if A2::from_val(a[2]) is None {
                A2::strict_err(a[2])
            } else if a.len() < 4 {
                not_enough()
            } else if A3::from_val(a[3]) is None {
                A3::strict_err(a[3])
            } else if a.len() < 5 {
                not_enough()
            } else if A4::from_val(a[4]) is None {
                A4::strict_err(a[4])
            } else {
                Seq::empty()
            },
            _ => "Incorrect Type: got `"@ + type_name_of(v) + "` instead of `("@ + A0::label() + ", "@ + A1::label() + ", "@ + A2::label() + ", "@ + A3::label() + ", "@ + A4::label() + ")`"@,
        }
    }

    fn from_attr(value: &Attribute) -> (r: Option<(A0, A1, A2, A3, A4)>) {
        match Self::try_from_attr(value) {
            Ok(x) => Some(x),
            Err(_) => None,
        }
    }

    fn try_from_attr(value: &Attribute) -> (r: Result<(A0, A1, A2, A3, A4), String>) {
        proof {
            assert(Self::strict_err(value@) == <Self as FromAttribute>::strict_err(value@));
        }
        match value {
            Attribute::Array(a) => {
                proof {
                    crate::attrs::lemma_attrs_view(a@);
                }
                if a.len() < 1 {
                    return Err(owned("Not enough members"));
                }
                let x0 = match A0::try_from_attr(&a[0]) {
                    Ok(x) => x,
                    Err(e) => {
                        return Err(e);
                    },
                };
                if a.len() < 2 {
                    return Err(owned("Not enough members"));
                }
                let x1 = match A1::try_from_attr(&a[1]) {
                    Ok(x) => x,
                    Err(e) => {
                        return Err(e);
                    },
                };
                if a.len() < 3 {
                    return Err(owned("Not enough members"));
                }
                let x2 = match A2::try_from_attr(&a[2]) {
                    Ok(x) => x,
                    Err(e) => {
                        return Err(e);
                    },
                };
                if a.len() < 4 {
                    return Err(owned("Not enough members"));
                }
                let x3 = match A3::try_from_attr(&a[3]) {
                    Ok(x) => x,
                    Err(e) => {
                        return Err(e);
                    },
                };
                if a.len() < 5 {
                    return Err(owned("Not enough members"));
                }
                let x4 = match A4::try_from_attr(&a[4]) {
                    Ok(x) => x,
                    Err(e) => {
                        return Err(e);
                    },
                };
                Ok((x0, x1, x2, x3, x4))
            },
            _ => {
                let mut m = owned("Incorrect Type: got `");
                push_str(&mut m, value.type_name_str());
                push_str(&mut m, "` instead of `(");
                push_str(&mut m, A0::type_label());
                push_str(&mut m, ", ");
                push_str(&mut m, A1::type_label());
                push_str(&mut m, ", ");
                push_str(&mut m, A2::type_label());
                push_str(&mut m, ", ");
                push_str(&mut m, A3::type_label());
                push_str(&mut m, ", ");
                push_str(&mut m, A4::type_label());
                push_str(&mut m, ")`");
                Err(m)
            },
        }
    }
}

/// An array converted to a 5-tuple: its first members, each converted;
/// the error is the first member's, or that there are too few members.
impl<A0: FromAttributeRelaxed, A1: FromAttributeRelaxed, A2: FromAttributeRelaxed, A3: FromAttributeRelaxed, A4: FromAttributeRelaxed> FromAttributeRelaxed for (A0, A1, A2, A3, A4) {
    open spec fn relaxed_val(v: Val) -> Option<(A0::V, A1::V, A2::V, A3::V, A4::V)> {
        match v {
            Val::Array(a) => if a.len() >= 5 && A0::relaxed_val(a[0]) is Some && A1::relaxed_val(a[1]) is Some && A2::relaxed_val(a[2]) is Some && A3::relaxed_val(a[3]) is Some && A4::relaxed_val(a[4]) is Some {
                Some((A0::relaxed_val(a[0])->0, A1::relaxed_val(a[1])->0, A2::relaxed_val(a[2])->0, A3::relaxed_val(a[3])->0, A4::relaxed_val(a[4])->0))
            } else {
                None
            },
            _ => None,
        }
    }

    open spec fn relaxed_label() -> Seq<char> {
        "tuple"@
    }

    fn relaxed_type_label() -> (s: &'static str) {
        "tuple"
    }

    open spec fn relaxed_err(v: Val) -> Seq<char> {
        match v {
            Val::Array(a) => if a.len() < 1 {
                not_enough()
            } else if A0::relaxed_val(a[0]) is None {
                A0::relaxed_err(a[0])
            } else if a.len() < 2 {
                not_enough()
            } else if A1::relaxed_val(a[1]) is None {
                A1::relaxed_err(a[1])
            } else if a.len() < 3 {
                not_enough()
            } else if A2::relaxed_val(a[2]) is None {
                A2::relaxed_err(a[2])
            } else if a.len() < 4 {
                not_enough()
            } else if A3::relaxed_val(a[3]) is None {
                A3::relaxed_err(a[3])
            } else if a.len() < 5 {
                not_enough()
            } else if A4::relaxed_val(a[4]) is None {
                A4::relaxed_err(a[4])
            } else {
                Seq::empty()
            },
            _ => "Incorrect Type: got "@ + type_name_of(v) + " instead of ("@ + A0::relaxed_label() + ", "@ + A1::relaxed_label() + ", "@ + A2::relaxed_label() + ", "@ + A3::relaxed_label() + ", "@ + A4::relaxed_label() + ")"@,
        }
    }

    fn try_from_attr_relaxed(value: &Attribute) -> (r: Result<(A0, A1, A2, A3, A4), String>) {
        proof {
            assert(Self::relaxed_err(value@) == <Self as FromAttributeRelaxed>::relaxed_err(value@));
        }
        match value {
            Attribute::Array(a) => {
                proof {
                    crate::attrs::lemma_attrs_view(a@);
                }
                if a.len() < 1 {
                    return Err(owned("Not enough members"));
                }
                let x0 = match A0::try_from_attr_relaxed(&a[0]) {
                    Ok(x) => x,
                    Err(e) => {
                        return Err(e);
                    },
                };
                if a.len() < 2 {
                    return Err(owned("Not enough members"));
                }
                let x1 = match A1::try_from_attr_relaxed(&a[1]) {
                    Ok(x) => x,
                    Err(e) => {
                        return Err(e);
                    },
                };
                if a.len() < 3 {
                    return Err(owned("Not enough members"));
                }
                let x2 = match A2::try_from_attr_relaxed(&a[2]) {
                    Ok(x) => x,
                    Err(e) => {
                        return Err(e);
                    },
                };
                if a.len() < 4 {
                    return Err(owned("Not enough members"));
                }
                let x3 = match A3::try_from_attr_relaxed(&a[3]) {
                    Ok(x) => x,
                    Err(e) => {
                        return Err(e);
                    },
                };
                if a.len() < 5 {
                    return Err(owned("Not enough members"));
                }
                let x4 = match A4::try_from_attr_relaxed(&a[4]) {
                    Ok(x) => x,
                    Err(e) => {
                        return Err(e);
                    },
                };
                Ok((x0, x1, x2, x3, x4))
            },
            _ => {
                let mut m = owned("Incorrect Type: got ");
                push_str(&mut m, value.type_name_str());
                push_str(&mut m, " instead of (");
                push_str(&mut m, A0::relaxed_type_label());
                push_str(&mut m, ", ");
                push_str(&mut m, A1::relaxed_type_label());
                push_str(&mut m, ", ");
                push_str(&mut m, A2::relaxed_type_label());
                push_str(&mut m, ", ");
                push_str(&mut m, A3::relaxed_type_label());
                push_str(&mut m, ", ");
                push_str(&mut m, A4::relaxed_type_label());
                push_str(&mut m, ")");
                Err(m)
            },
        }
    }
}

/// The message of the first member among the first `n` of `a` that does
/// not read as `T`.
pub open spec fn vec_error<T: FromAttribute>(a: Seq<Val>, n: int) -> Option<Seq<char>>
    decreases n,
{
    if n <= 0 || n > a.len() {
        None
    } else {
        match vec_error::<T>(a, n - 1) {
            Some(e) => Some(e),
            None => if T::from_val(a[n - 1]) is None {
                Some(T::strict_err(a[n - 1]))
            } else {
                None
            },
        }
    }
}

/// The message of the first member among the first `n` of `a` that does
/// not convert to `T`.
pub open spec fn vec_relaxed_error<T: FromAttributeRelaxed>(a: Seq<Val>, n: int) -> Option<Seq<char>>
    decreases n,
{
    if n <= 0 || n > a.len() {
        None
    } else {
        match vec_relaxed_error::<T>(a, n - 1) {
            Some(e) => Some(e),
            None => if T::relaxed_val(a[n - 1]) is None {
                Some(T::relaxed_err(a[n - 1]))
            } else {
                None
            },
        }
    }
}

proof fn lemma_vec_error_stays<T: FromAttribute>(a: Seq<Val>, n: int, m: int)
    requires
        0 <= n <= m <= a.len(),
        vec_error::<T>(a, n) is Some,
    ensures
        vec_error::<T>(a, m) == vec_error::<T>(a, n),
    decreases m - n,
{
    if m > n {
        lemma_vec_error_stays::<T>(a, n, m - 1);
    }
}

proof fn lemma_vec_relaxed_error_stays<T: FromAttributeRelaxed>(a: Seq<Val>, n: int, m: int)
    requires
        0 <= n <= m <= a.len(),
        vec_relaxed_error::<T>(a, n) is Some,
    ensures
        vec_relaxed_error::<T>(a, m) == vec_relaxed_error::<T>(a, n),
    decreases m - n,
{
    if m > n {
        lemma_vec_relaxed_error_stays::<T>(a, n, m - 1);
    }
}

/// An array read as a list of `T`: each member read as `T`; the error is
/// that of the first member that is not a `T`, or that the attribute is no
/// array.
pub fn vec_from_attr<T: FromAttribute>(value: &Attribute) -> (r: Result<Vec<T>, String>)
    ensures
        match value@ {
            Val::Array(a) => match vec_error::<T>(a, a.len() as int) {
                Some(e) => r matches Err(m) && m@ == e,
                None => r matches Ok(x) && x@.len() == a.len()
                    && forall|i: int| 0 <= i < a.len() ==> Some(#[trigger] x@[i]@) == T::from_val(a[i]),
            },
            _ => r matches Err(m) && m@ == strict_error(value@, "Array"@),
        },
{
    match value {
        Attribute::Array(a) => {
            proof {
                crate::attrs::lemma_attrs_view(a@);
            }
            let ghost av = value@->Array_0;
            let mut out: Vec<T> = Vec::new();
            let mut i: usize = 0;
            while i < a.len()
                invariant
                    i <= a.len(),
                    value@ == Val::Array(av),
                    av.len() == a.len(),
                    forall|j: int| 0 <= j < a.len() ==> #[trigger] av[j] == a@[j]@,
                    vec_error::<T>(av, i as int) is None,
                    out@.len() == i,
                    forall|j: int| 0 <= j < i ==> Some(#[trigger] out@[j]@) == T::from_val(av[j]),
                decreases a.len() - i,
            {
                match T::try_from_attr(&a[i]) {
                    Ok(x) => {
                        out.push(x);
                    },
                    Err(e) => {
                        proof {
                            lemma_vec_error_stays::<T>(av, i + 1, av.len() as int);
                        }
                        return Err(e);
                    },
                }
                i = i + 1;
            }
            Ok(out)
        },
        _ => {
            let mut m = owned("Incorrect Type: got ");
            push_str(&mut m, value.type_name_str());
            push_str(&mut m, " instead of ");
            push_str(&mut m, "Array");
            Err(m)
        },
    }
}

/// An array converted to a list of `T`: each member converted; the error is
/// that of the first member that does not convert, or that the attribute
/// is no array.
pub fn vec_from_attr_relaxed<T: FromAttributeRelaxed>(value: &Attribute) -> (r: Result<Vec<T>, String>)
    ensures
        match value@ {
            Val::Array(a) => match vec_relaxed_error::<T>(a, a.len() as int) {
                Some(e) => r matches Err(m) && m@ == e,
                None => r matches Ok(x) && x@.len() == a.len()
                    && forall|i: int| 0 <= i < a.len() ==> Some(#[trigger] x@[i]@) == T::relaxed_val(a[i]),
            },
            _ => r matches Err(m) && m@ == strict_error(value@, "Array"@),
        },
{
    match value {
        Attribute::Array(a) => {
            proof {
                crate::attrs::lemma_attrs_view(a@);
            }
            let ghost av = value@->Array_0;
            let mut out: Vec<T> = Vec::new();
            let mut i: usize = 0;
            while i < a.len()
                invariant
                    i <= a.len(),
                    value@ == Val::Array(av),
                    av.len() == a.len(),
                    forall|j: int| 0 <= j < a.len() ==> #[trigger] av[j] == a@[j]@,
                    vec_relaxed_error::<T>(av, i as int) is None,
                    out@.len() == i,
                    forall|j: int| 0 <= j < i ==> Some(#[trigger] out@[j]@) == T::relaxed_val(av[j]),
                decreases a.len() - i,
            {
                match T::try_from_attr_relaxed(&a[i]) {
                    Ok(x) => {
                        out.push(x);
                    },
                    Err(e) => {
                        proof {
                            lemma_vec_relaxed_error_stays::<T>(av, i + 1, av.len() as int);
                        }
                        return Err(e);
                    },
                }
                i = i + 1;
            }
            Ok(out)
        },
        _ => {
            let mut m = owned("Incorrect Type: got ");
            push_str(&mut m, value.type_name_str());
            push_str(&mut m, " instead of ");
            push_str(&mut m, "Array");
            Err(m)
        },
    }
}

/// Whatever reads strictly as one of the library's types reads as the same
/// value relaxed: the relaxed reading only adds conversions.
pub proof fn law_relaxed_extends_strict(v: Val)
    ensures
        <bool as FromAttribute>::from_val(v) is Some ==> <bool as FromAttributeRelaxed>::relaxed_val(v)
            == <bool as FromAttribute>::from_val(v),
        <i64 as FromAttribute>::from_val(v) is Some ==> <i64 as FromAttributeRelaxed>::relaxed_val(v)
            == <i64 as FromAttribute>::from_val(v),
        <String as FromAttribute>::from_val(v) is Some ==> <String as FromAttributeRelaxed>::relaxed_val(v)
            == <String as FromAttribute>::from_val(v),
        <Date as FromAttribute>::from_val(v) is Some ==> <Date as FromAttributeRelaxed>::relaxed_val(v)
            == <Date as FromAttribute>::from_val(v),
        <Time as FromAttribute>::from_val(v) is Some ==> <Time as FromAttributeRelaxed>::relaxed_val(v)
            == <Time as FromAttribute>::from_val(v),
        <DateTime as FromAttribute>::from_val(v) is Some ==> <DateTime as FromAttributeRelaxed>::relaxed_val(v)
            == <DateTime as FromAttribute>::from_val(v),
        <AttrMap as FromAttribute>::from_val(v) is Some ==> <AttrMap as FromAttributeRelaxed>::relaxed_val(v)
            == <AttrMap as FromAttribute>::from_val(v),
{
}

impl AttrMap {
    /// The value of attribute `name` as type `T`; the error says it is not
    /// there or has another type.
    pub fn try_attr<T: FromAttribute>(&self, name: &str) -> (r: Result<T, String>)
        ensures
            match lookup(self@, name@) {
                None => r matches Err(m) && m@ == missing_error(name@),
                Some(v) => match (r, T::from_val(v)) {
                    (Ok(x), Some(y)) => x@ == y,
                    (Err(m), None) => m@ == T::strict_err(v),
                    _ => false,
                },
            },
    {
        match self.get(name) {
            Some(v) => T::try_from_attr(v),
            None => Err(missing_message(name)),
        }
    }

    /// The value of attribute `name` converted to type `T`.
    pub fn try_attr_relaxed<T: FromAttributeRelaxed>(&self, name: &str) -> (r: Result<T, String>)
        ensures
            match lookup(self@, name@) {
                None => r matches Err(m) && m@ == missing_error(name@),
                Some(v) => match (r, T::relaxed_val(v)) {
                    (Ok(x), Some(y)) => x@ == y,
                    (Err(m), None) => m@ == T::relaxed_err(v),
                    _ => false,
                },
            },
    {
        match self.get(name) {
            Some(v) => T::try_from_attr_relaxed(v),
            None => Err(missing_message(name)),
        }
    }
}

/// The message for a missing attribute.
pub open spec fn missing_error(name: Seq<char>) -> Seq<char> {
    "Attribute Error: Attribute "@ + name + " not found in Node"@
}

fn missing_message(name: &str) -> (m: String)
    ensures
        m@ == missing_error(name@),
{
    let mut m = owned("Attribute Error: Attribute ");
    push_str(&mut m, name);
    push_str(&mut m, " not found in Node");
    m
}

} // verus!
