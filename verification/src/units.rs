//! Numerals and time units.
//!
//! A number in a file is a text. The library finds the texts that are to be
//! read as numbers and says with which unit; the values come back in a table.

use crate::double::Double;
use crate::name_map::NameMap;
use crate::text::{has_suffix, lowercase, lowered, strip_suffix, trim, trimmed};
use vstd::prelude::*;
use vstd::string::*;

verus! {

/// The units of time that the file formats know.
#[derive(Clone, Copy, Debug, PartialEq, Eq, Structural)]
pub enum TimeUnit {
    Fs,
    Ps,
    Ns,
    Us,
    Ms,
    S,
}

/// What stands before the unit at the end of a text, and the unit: `fs`, `ps`,
/// `ns`, `us`, `ms`, or else `s`.
pub open spec fn unit_split(s: Seq<char>) -> Option<(Seq<char>, TimeUnit)> {
    if has_suffix(s, "fs"@) {
        Some((s.take(s.len() - "fs"@.len()), TimeUnit::Fs))
    } else if has_suffix(s, "ps"@) {
        Some((s.take(s.len() - "ps"@.len()), TimeUnit::Ps))
    } else if has_suffix(s, "ns"@) {
        Some((s.take(s.len() - "ns"@.len()), TimeUnit::Ns))
    } else if has_suffix(s, "us"@) {
        Some((s.take(s.len() - "us"@.len()), TimeUnit::Us))
    } else if has_suffix(s, "ms"@) {
        Some((s.take(s.len() - "ms"@.len()), TimeUnit::Ms))
    } else if has_suffix(s, "s"@) {
        Some((s.take(s.len() - "s"@.len()), TimeUnit::S))
    } else {
        None
    }
}

/// Takes the unit off the end of a text.
pub fn split_unit(s: &str) -> (r: Option<(&str, TimeUnit)>)
    ensures
        match r {
            Some((front, unit)) => unit_split(s@) == Some((front@, unit)),
            None => unit_split(s@) is None,
        },
{
    if let Some(f) = strip_suffix(s, "fs") {
        Some((f, TimeUnit::Fs))
    } else if let Some(f) = strip_suffix(s, "ps") {
        Some((f, TimeUnit::Ps))
    } else if let Some(f) = strip_suffix(s, "ns") {
        Some((f, TimeUnit::Ns))
    } else if let Some(f) = strip_suffix(s, "us") {
        Some((f, TimeUnit::Us))
    } else if let Some(f) = strip_suffix(s, "ms") {
        Some((f, TimeUnit::Ms))
    } else if let Some(f) = strip_suffix(s, "s") {
        Some((f, TimeUnit::S))
    } else {
        None
    }
}

/// A text to be read as a number, in the given unit of time if any.
#[derive(Debug)]
pub struct Numeral {
    pub text: String,
    pub unit: Option<TimeUnit>,
}

impl Numeral {
    /// This is the numeral `text` in `unit`.
    pub open spec fn is(self, text: Seq<char>, unit: Option<TimeUnit>) -> bool {
        self.text@ == text && self.unit == unit
    }
}

/// The table of the numerals that have been read. A numeral in a unit of time
/// reads as seconds. One that the table lacks is not a number.
pub struct Numerals {
    plain: NameMap<Option<Double>>,
    fs: NameMap<Option<Double>>,
    ps: NameMap<Option<Double>>,
    ns: NameMap<Option<Double>>,
    us: NameMap<Option<Double>>,
    ms: NameMap<Option<Double>>,
    s: NameMap<Option<Double>>,
}

impl Numerals {
    spec fn column(self, unit: Option<TimeUnit>) -> Map<Seq<char>, Option<Double>> {
        match unit {
            None => self.plain@,
            Some(TimeUnit::Fs) => self.fs@,
            Some(TimeUnit::Ps) => self.ps@,
            Some(TimeUnit::Ns) => self.ns@,
            Some(TimeUnit::Us) => self.us@,
            Some(TimeUnit::Ms) => self.ms@,
            Some(TimeUnit::S) => self.s@,
        }
    }

    /// What `text` reads as, in `unit`.
    pub closed spec fn value(self, text: Seq<char>, unit: Option<TimeUnit>) -> Option<Double> {
        if self.column(unit).contains_key(text) {
            self.column(unit)[text]
        } else {
            None
        }
    }

    /// Makes an empty table.
    pub fn new() -> (r: Numerals)
        ensures
            forall|t: Seq<char>, u: Option<TimeUnit>| (#[trigger] r.value(t, u)) is None,
    {
        Numerals {
            plain: NameMap::new(),
            fs: NameMap::new(),
            ps: NameMap::new(),
            ns: NameMap::new(),
            us: NameMap::new(),
            ms: NameMap::new(),
            s: NameMap::new(),
        }
    }

    /// Sets what `text` reads as, in `unit`: `None` where it is not a number.
    pub fn set(&mut self, text: String, unit: Option<TimeUnit>, value: Option<Double>)
        ensures
            forall|t: Seq<char>, u: Option<TimeUnit>|
                #[trigger] final(self).value(t, u) == if t == text@ && u == unit {
                    value
                } else {
                    old(self).value(t, u)
                },
    {
        match unit {
            None => self.plain.insert(text, value),
            Some(TimeUnit::Fs) => self.fs.insert(text, value),
            Some(TimeUnit::Ps) => self.ps.insert(text, value),
            Some(TimeUnit::Ns) => self.ns.insert(text, value),
            Some(TimeUnit::Us) => self.us.insert(text, value),
            Some(TimeUnit::Ms) => self.ms.insert(text, value),
            Some(TimeUnit::S) => self.s.insert(text, value),
        }
    }

    /// Looks a numeral up.
    pub fn get(&self, text: &str, unit: Option<TimeUnit>) -> (r: Option<Double>)
        ensures
            r == self.value(text@, unit),
    {
        let found = match unit {
            None => self.plain.get(text),
            Some(TimeUnit::Fs) => self.fs.get(text),
            Some(TimeUnit::Ps) => self.ps.get(text),
            Some(TimeUnit::Ns) => self.ns.get(text),
            Some(TimeUnit::Us) => self.us.get(text),
            Some(TimeUnit::Ms) => self.ms.get(text),
            Some(TimeUnit::S) => self.s.get(text),
        };
        match found {
            Some(x) => *x,
            None => None,
        }
    }

    /// The two tables read `text` in `unit` alike.
    pub open spec fn agrees(self, other: Numerals, text: Seq<char>, unit: Option<TimeUnit>) -> bool {
        self.value(text, unit) == other.value(text, unit)
    }
}

/// A time scale as it is written: a number and a unit. Without a unit the scale
/// is a nanosecond, whatever the number.
#[derive(Debug)]
pub struct Timescale {
    pub mantissa: String,
    pub unit: Option<TimeUnit>,
}

/// What a `Timescale` holds.
pub struct TimescaleView {
    pub mantissa: Seq<char>,
    pub unit: Option<TimeUnit>,
}

impl View for Timescale {
    type V = TimescaleView;

    open spec fn view(&self) -> TimescaleView {
        TimescaleView { mantissa: self.mantissa@, unit: self.unit }
    }
}

/// The scale that is in force where none is given: a nanosecond.
pub open spec fn default_timescale() -> TimescaleView {
    TimescaleView { mantissa: Seq::empty(), unit: None }
}

/// The time scale that `s`, in lower case, writes.
pub open spec fn timescale_of(s: Seq<char>) -> TimescaleView {
    match unit_split(s) {
        Some((num, unit)) => TimescaleView { mantissa: trimmed(num), unit: Some(unit) },
        None => default_timescale(),
    }
}

impl Timescale {
    /// The scale that is in force where none is given.
    pub fn new() -> (r: Timescale)
        ensures
            r@ == default_timescale(),
    {
        Timescale { mantissa: String::new(), unit: None }
    }

    /// A copy of the scale.
    pub fn copy(&self) -> (r: Timescale)
        ensures
            r@ == self@,
    {
        Timescale { mantissa: self.mantissa.clone(), unit: self.unit }
    }
}

/// Reads a time scale.
pub fn parse_timescale(s: &str) -> (r: Timescale)
    ensures
        r@ == timescale_of(lowered(s@)),
{
    let low = lowercase(s);
    match split_unit(low.as_str()) {
        Some((num, unit)) => Timescale { mantissa: trim(num).to_owned(), unit: Some(unit) },
        None => Timescale::new(),
    }
}

} // verus!
