//! Unit conversions typed as `<amount> <unit> [to|in] <unit>`: which words
//! make a request and which units convert into each other. The arithmetic
//! on amounts is done in floating point by the program around the library.
use vstd::prelude::*;
use crate::apps::str_eq;
use crate::text::{chars_of, lowercase, split_words, string_of_range, to_lowercase, word_ranges};

verus! {

/// A temperature scale.
#[derive(Debug, Clone, Copy, PartialEq, Eq, Structural)]
pub enum Scale {
    Celsius,
    Fahrenheit,
    Kelvin,
}

/// What a unit measures.
#[derive(Debug, Clone, Copy, PartialEq, Eq, Structural)]
pub enum Dimension {
    Length,
    Mass,
    Storage,
    Time,
    Speed,
}

/// A unit that converts by a factor.
#[derive(Debug, Clone, Copy, PartialEq, Eq, Structural)]
pub enum Unit {
    Millimeter,
    Centimeter,
    Meter,
    Kilometer,
    Inch,
    Foot,
    Yard,
    Mile,
    Milligram,
    Gram,
    Kilogram,
    Ounce,
    Pound,
    Ton,
    Byte,
    Kilobyte,
    Megabyte,
    Gigabyte,
    Terabyte,
    Second,
    Minute,
    Hour,
    Day,
    Week,
    MetersPerSecond,
    KilometersPerHour,
    MilesPerHour,
    Knot,
}

/// How an amount is converted.
#[derive(Debug, Clone, Copy, PartialEq, Eq, Structural)]
pub enum Conversion {
    /// Between two different temperature scales.
    Temperature(Scale, Scale),
    /// Between two units of one dimension, by their factors.
    Scaled(Unit, Unit),
}

pub open spec fn scale_named(s: Seq<char>) -> Option<Scale> {
    if s == "c"@ || s == "celsius"@ {
        Some(Scale::Celsius)
    } else if s == "f"@ || s == "fahrenheit"@ {
        Some(Scale::Fahrenheit)
    } else if s == "k"@ || s == "kelvin"@ {
        Some(Scale::Kelvin)
    } else {
        None
    }
}

/// The unit of a dimension with a given name.
pub open spec fn unit_named(d: Dimension, s: Seq<char>) -> Option<Unit> {
    match d {
        Dimension::Length => if s == "mm"@ || s == "millimeter"@ || s == "millimeters"@ {
            Some(Unit::Millimeter)
        } else if s == "cm"@ || s == "centimeter"@ || s == "centimeters"@ {
            Some(Unit::Centimeter)
        } else if s == "m"@ || s == "meter"@ || s == "meters"@ {
            Some(Unit::Meter)
        } else if s == "km"@ || s == "kilometer"@ || s == "kilometers"@ {
            Some(Unit::Kilometer)
        } else if s == "in"@ || s == "inch"@ || s == "inches"@ {
            Some(Unit::Inch)
        } else if s == "ft"@ || s == "feet"@ || s == "foot"@ {
            Some(Unit::Foot)
        } else if s == "yd"@ || s == "yard"@ || s == "yards"@ {
            Some(Unit::Yard)
        } else if s == "mi"@ || s == "mile"@ || s == "miles"@ {
            Some(Unit::Mile)
        } else {
            None
        },
        Dimension::Mass => if s == "mg"@ || s == "milligram"@ || s == "milligrams"@ {
            Some(Unit::Milligram)
        } else if s == "g"@ || s == "gram"@ || s == "grams"@ {
            Some(Unit::Gram)
        } else if s == "kg"@ || s == "kilogram"@ || s == "kilograms"@ {
            Some(Unit::Kilogram)
        } else if s == "oz"@ || s == "ounce"@ || s == "ounces"@ {
            Some(Unit::Ounce)
        } else if s == "lb"@ || s == "lbs"@ || s == "pound"@ || s == "pounds"@ {
            Some(Unit::Pound)
        } else if s == "t"@ || s == "ton"@ || s == "tons"@ {
            Some(Unit::Ton)
        } else {
            None
        },
        Dimension::Storage => if s == "b"@ || s == "byte"@ || s == "bytes"@ {
            Some(Unit::Byte)
        } else if s == "kb"@ || s == "kilobyte"@ || s == "kilobytes"@ {
            Some(Unit::Kilobyte)
        } else if s == "mb"@ || s == "megabyte"@ || s == "megabytes"@ {
            Some(Unit::Megabyte)
        } else if s == "gb"@ || s == "gigabyte"@ || s == "gigabytes"@ {
            Some(Unit::Gigabyte)
        } else if s == "tb"@ || s == "terabyte"@ || s == "terabytes"@ {
            Some(Unit::Terabyte)
        } else {
            None
        },
        Dimension::Time => if s == "s"@ || s == "sec"@ || s == "second"@ || s == "seconds"@ {
            Some(Unit::Second)
        } else if s == "m"@ || s == "min"@ || s == "minute"@ || s == "minutes"@ {
            Some(Unit::Minute)
        } else if s == "h"@ || s == "hr"@ || s == "hour"@ || s == "hours"@ {
            Some(Unit::Hour)
        } else if s == "d"@ || s == "day"@ || s == "days"@ {
            Some(Unit::Day)
        } else if s == "w"@ || s == "wk"@ || s == "week"@ || s == "weeks"@ {
            Some(Unit::Week)
        } else {
            None
        },
        Dimension::Speed => if s == "m/s"@ {
            Some(Unit::MetersPerSecond)
        } else if s == "km/h"@ || s == "kph"@ {
            Some(Unit::KilometersPerHour)
        } else if s == "mph"@ {
            Some(Unit::MilesPerHour)
        } else if s == "knot"@ || s == "knots"@ {
            Some(Unit::Knot)
        } else {
            None
        },
    }
}

/// Both names are units of dimension `d`.
pub open spec fn scaled_in(d: Dimension, from: Seq<char>, to: Seq<char>) -> Option<Conversion> {
    match (unit_named(d, from), unit_named(d, to)) {
        (Some(a), Some(b)) => Some(Conversion::Scaled(a, b)),
        _ => None,
    }
}

/// How `from` converts to `to`: two different temperature scales first,
/// then two units of one dimension, tried as length, mass, storage, time
/// and speed in turn (so `m` is a metre beside a length, a minute beside a
/// time).
pub open spec fn conversion_between(from: Seq<char>, to: Seq<char>) -> Option<Conversion> {
    match (scale_named(from), scale_named(to)) {
        (Some(a), Some(b)) if a != b => Some(Conversion::Temperature(a, b)),
        _ => {
            if scaled_in(Dimension::Length, from, to) is Some {
                scaled_in(Dimension::Length, from, to)
            } else if scaled_in(Dimension::Mass, from, to) is Some {
                scaled_in(Dimension::Mass, from, to)
            } else if scaled_in(Dimension::Storage, from, to) is Some {
                scaled_in(Dimension::Storage, from, to)
            } else if scaled_in(Dimension::Time, from, to) is Some {
                scaled_in(Dimension::Time, from, to)
            } else {
                scaled_in(Dimension::Speed, from, to)
            }
        },
    }
}

/// The words of a request: `<amount> <from> <to>`, or four words with `to`
/// or `in` third. The unit names are lowercased.
pub open spec fn request_words(input: Seq<char>) -> Option<(Seq<char>, Seq<char>, Seq<char>)> {
    let w = split_words(input);
    if w.len() == 4 && (w[2] == "to"@ || w[2] == "in"@) {
        Some((w[0], lowercase(w[1]), lowercase(w[3])))
    } else if w.len() == 3 {
        Some((w[0], lowercase(w[1]), lowercase(w[2])))
    } else {
        None
    }
}

/// A conversion request: the amount as typed, the two unit names as
/// lowercased, and how to convert.
pub struct Request {
    pub amount: String,
    pub from: String,
    pub to: String,
    pub conversion: Conversion,
}

fn scale_of(s: &str) -> (r: Option<Scale>)
    ensures
        r == scale_named(s@),
{
    if str_eq(s, "c") || str_eq(s, "celsius") {
        Some(Scale::Celsius)
    } else if str_eq(s, "f") || str_eq(s, "fahrenheit") {
        Some(Scale::Fahrenheit)
    } else if str_eq(s, "k") || str_eq(s, "kelvin") {
        Some(Scale::Kelvin)
    } else {
        None
    }
}

/// The unit of dimension `d` named `s`.
#[verifier::rlimit(40)]
pub fn unit_of(d: Dimension, s: &str) -> (r: Option<Unit>)
    ensures
        r == unit_named(d, s@),
{
    match d {
        Dimension::Length => if str_eq(s, "mm") || str_eq(s, "millimeter") || str_eq(s, "millimeters") {
            Some(Unit::Millimeter)
        } else if str_eq(s, "cm") || str_eq(s, "centimeter") || str_eq(s, "centimeters") {
            Some(Unit::Centimeter)
        } else if str_eq(s, "m") || str_eq(s, "meter") || str_eq(s, "meters") {
            Some(Unit::Meter)
        } else if str_eq(s, "km") || str_eq(s, "kilometer") || str_eq(s, "kilometers") {
            Some(Unit::Kilometer)
        } else if str_eq(s, "in") || str_eq(s, "inch") || str_eq(s, "inches") {
            Some(Unit::Inch)
        } else if str_eq(s, "ft") || str_eq(s, "feet") || str_eq(s, "foot") {
            Some(Unit::Foot)
        } else if str_eq(s, "yd") || str_eq(s, "yard") || str_eq(s, "yards") {
            Some(Unit::Yard)
        } else if str_eq(s, "mi") || str_eq(s, "mile") || str_eq(s, "miles") {
            Some(Unit::Mile)
        } else {
            None
        },
        Dimension::Mass => if str_eq(s, "mg") || str_eq(s, "milligram") || str_eq(s, "milligrams") {
            Some(Unit::Milligram)
        } else if str_eq(s, "g") || str_eq(s, "gram") || str_eq(s, "grams") {
            Some(Unit::Gram)
        } else if str_eq(s, "kg") || str_eq(s, "kilogram") || str_eq(s, "kilograms") {
            Some(Unit::Kilogram)
        } else if str_eq(s, "oz") || str_eq(s, "ounce") || str_eq(s, "ounces") {
            Some(Unit::Ounce)
        } else if str_eq(s, "lb") || str_eq(s, "lbs") || str_eq(s, "pound") || str_eq(s, "pounds") {
            Some(Unit::Pound)
        } else if str_eq(s, "t") || str_eq(s, "ton") || str_eq(s, "tons") {
            Some(Unit::Ton)
        } else {
            None
        },
        Dimension::Storage => if str_eq(s, "b") || str_eq(s, "byte") || str_eq(s, "bytes") {
            Some(Unit::Byte)
        } else if str_eq(s, "kb") || str_eq(s, "kilobyte") || str_eq(s, "kilobytes") {
            Some(Unit::Kilobyte)
        } else if str_eq(s, "mb") || str_eq(s, "megabyte") || str_eq(s, "megabytes") {
            Some(Unit::Megabyte)
        } else if str_eq(s, "gb") || str_eq(s, "gigabyte") || str_eq(s, "gigabytes") {
            Some(Unit::Gigabyte)
        } else if str_eq(s, "tb") || str_eq(s, "terabyte") || str_eq(s, "terabytes") {
            Some(Unit::Terabyte)
        } else {
            None
        },
        Dimension::Time => if str_eq(s, "s") || str_eq(s, "sec") || str_eq(s, "second") || str_eq(s, "seconds") {
            Some(Unit::Second)
        } else if str_eq(s, "m") || str_eq(s, "min") || str_eq(s, "minute") || str_eq(s, "minutes") {
            Some(Unit::Minute)
        } else if str_eq(s, "h") || str_eq(s, "hr") || str_eq(s, "hour") || str_eq(s, "hours") {
            Some(Unit::Hour)
        } else if str_eq(s, "d") || str_eq(s, "day") || str_eq(s, "days") {
            Some(Unit::Day)
        } else if str_eq(s, "w") || str_eq(s, "wk") || str_eq(s, "week") || str_eq(s, "weeks") {
            Some(Unit::Week)
        } else {
            None
        },
        Dimension::Speed => if str_eq(s, "m/s") {
            Some(Unit::MetersPerSecond)
        } else if str_eq(s, "km/h") || str_eq(s, "kph") {
            Some(Unit::KilometersPerHour)
        } else if str_eq(s, "mph") {
            Some(Unit::MilesPerHour)
        } else if str_eq(s, "knot") || str_eq(s, "knots") {
            Some(Unit::Knot)
        } else {
            None
        },
    }
}

fn scaled_of(d: Dimension, from: &str, to: &str) -> (r: Option<Conversion>)
    ensures
        r == scaled_in(d, from@, to@),
{
    match (unit_of(d, from), unit_of(d, to)) {
        (Some(a), Some(b)) => Some(Conversion::Scaled(a, b)),
        _ => None,
    }
}

/// How the unit named `from` converts to the one named `to`, if at all.
pub fn conversion_of(from: &str, to: &str) -> (r: Option<Conversion>)
    ensures
        r == conversion_between(from@, to@),
{
    match (scale_of(from), scale_of(to)) {
        (Some(a), Some(b)) => {
            if a != b {
                return Some(Conversion::Temperature(a, b));
            }
        },
        _ => {},
    }
    let length = scaled_of(Dimension::Length, from, to);
    if length.is_some() {
        return length;
    }
    let mass = scaled_of(Dimension::Mass, from, to);
    if mass.is_some() {
        return mass;
    }
    let storage = scaled_of(Dimension::Storage, from, to);
    if storage.is_some() {
        return storage;
    }
    let time = scaled_of(Dimension::Time, from, to);
    if time.is_some() {
        return time;
    }
    scaled_of(Dimension::Speed, from, to)
}

/// Reads a conversion request: `None` unless the input has the shape of one
/// and its units convert into each other.
#[verifier::rlimit(40)]
pub fn conversion_request(input: &str) -> (r: Option<Request>)
    ensures
        match request_words(input@) {
            Some((amount, from, to)) => match conversion_between(from, to) {
                Some(c) => r matches Some(q) && q.amount@ == amount && q.from@ == from && q.to@
                    == to && q.conversion == c,
                None => r is None,
            },
            None => r is None,
        },
{
    let v = chars_of(input);
    let ranges = word_ranges(&v);
    let ghost w = split_words(input@);
    let n = ranges.len();
    let (amount_at, from_at, to_at) = if n == 4 {
        let (a2, b2) = ranges[2];
        assert(v@.subrange(a2 as int, b2 as int) == w[2]);
        if crate::apps::range_eq(&v, a2, b2, "to") || crate::apps::range_eq(&v, a2, b2, "in") {
            (0, 1, 3)
        } else {
            return None;
        }
    } else if n == 3 {
        (0, 1, 2)
    } else {
        return None;
    };
    let (a0, b0) = ranges[amount_at];
    let (a1, b1) = ranges[from_at];
    let (a3, b3) = ranges[to_at];
    let amount = string_of_range(&v, a0, b0);
    let from_word = string_of_range(&v, a1, b1);
    let to_word = string_of_range(&v, a3, b3);
    let from = to_lowercase(from_word.as_str());
    let to = to_lowercase(to_word.as_str());
    match conversion_of(from.as_str(), to.as_str()) {
        Some(conversion) => Some(Request { amount, from, to, conversion }),
        None => None,
    }
}

} // verus!
