//! The four datetime records of the generated constants, and the array types
//! that stand for their slices.

use vstd::prelude::*;
use vstd::std_specs::convert::FromSpecImpl;
use crate::value::{default_date, default_offset, default_time, Date, Datetime, Offset, Time};

verus! {

/// A date and a time with an offset from UTC.
#[derive(Clone, Copy, Debug, PartialEq, Eq, Structural)]
pub struct OffsetDateTime {
    pub date: Date,
    pub time: Time,
    pub offset: Offset,
}

/// A date and a time without an offset.
#[derive(Clone, Copy, Debug, PartialEq, Eq, Structural)]
pub struct LocalDateTime {
    pub date: Date,
    pub time: Time,
}

/// A date alone.
#[derive(Clone, Copy, Debug, PartialEq, Eq, Structural)]
pub struct LocalDate {
    pub date: Date,
}

/// A time alone.
#[derive(Clone, Copy, Debug, PartialEq, Eq, Structural)]
pub struct LocalTime {
    pub time: Time,
}

/// The date that stands in for a missing date.
pub fn the_default_date() -> (date: Date)
    ensures
        date == default_date(),
{
    Date { year: 1970, month: 1, day: 1 }
}

/// The time that stands in for a missing time.
pub fn the_default_time() -> (time: Time)
    ensures
        time == default_time(),
{
    Time { hour: 0, minute: 0, second: 0, nanosecond: 0 }
}

impl Default for OffsetDateTime {
    fn default() -> (value: Self)
        ensures
            value == (OffsetDateTime {
                date: default_date(),
                time: default_time(),
                offset: default_offset(),
            }),
    {
        Self { date: the_default_date(), time: the_default_time(), offset: Offset::Z }
    }
}

impl Default for LocalDateTime {
    fn default() -> (value: Self)
        ensures
            value == (LocalDateTime { date: default_date(), time: default_time() }),
    {
        Self { date: the_default_date(), time: the_default_time() }
    }
}

impl Default for LocalDate {
    fn default() -> (value: Self)
        ensures
            value == (LocalDate { date: default_date() }),
    {
        Self { date: the_default_date() }
    }
}

impl Default for LocalTime {
    fn default() -> (value: Self)
        ensures
            value == (LocalTime { time: default_time() }),
    {
        Self { time: the_default_time() }
    }
}

impl From<OffsetDateTime> for Datetime {
    fn from(value: OffsetDateTime) -> (datetime: Self) {
        Self { date: Some(value.date), time: Some(value.time), offset: Some(value.offset) }
    }
}

impl FromSpecImpl<OffsetDateTime> for Datetime {
    open spec fn obeys_from_spec() -> bool {
        true
    }

    open spec fn from_spec(value: OffsetDateTime) -> Self {
        Datetime { date: Some(value.date), time: Some(value.time), offset: Some(value.offset) }
    }
}

impl From<LocalDateTime> for Datetime {
    fn from(value: LocalDateTime) -> (datetime: Self) {
        Self { date: Some(value.date), time: Some(value.time), offset: None }
    }
}

impl FromSpecImpl<LocalDateTime> for Datetime {
    open spec fn obeys_from_spec() -> bool {
        true
    }

    open spec fn from_spec(value: LocalDateTime) -> Self {
        Datetime { date: Some(value.date), time: Some(value.time), offset: None }
    }
}

impl From<LocalDate> for Datetime {
    fn from(value: LocalDate) -> (datetime: Self) {
        Self { date: Some(value.date), time: None, offset: None }
    }
}

impl FromSpecImpl<LocalDate> for Datetime {
    open spec fn obeys_from_spec() -> bool {
        true
    }

    open spec fn from_spec(value: LocalDate) -> Self {
        Datetime { date: Some(value.date), time: None, offset: None }
    }
}

impl From<LocalTime> for Datetime {
    fn from(value: LocalTime) -> (datetime: Self) {
        Self { date: None, time: Some(value.time), offset: None }
    }
}

impl FromSpecImpl<LocalTime> for Datetime {
    open spec fn obeys_from_spec() -> bool {
        true
    }

    open spec fn from_spec(value: LocalTime) -> Self {
        Datetime { date: None, time: Some(value.time), offset: None }
    }
}

/// What `toml` writes for a datetime.
pub uninterp spec fn datetime_display(datetime: Datetime) -> Seq<char>;

/// Whether an offset can be written out: its minutes have a negative, which
/// the least 16-bit number has not.
pub open spec fn offset_writable(offset: Offset) -> bool {
    match offset {
        Offset::Z => true,
        Offset::Custom { minutes } => minutes > i16::MIN,
    }
}

/// Whether a datetime can be written out: its offset, where it has one, can.
pub open spec fn writable(datetime: Datetime) -> bool {
    match datetime.offset {
        Some(offset) => offset_writable(offset),
        None => true,
    }
}

/// The `Display` form of `toml::value::Datetime` for the datetime with the
/// same fields: the date, the time and the offset that are there, as TOML
/// writes them.  That form negates the minutes of a negative offset, so the
/// least 16-bit number is left out.
#[verifier::external_body]
fn datetime_text(dt: &Datetime) -> (text: String)
    requires
        writable(*dt),
    ensures
        text@ == datetime_display(*dt),
{
    let date = dt.date.map(|d| toml::value::Date { year: d.year, month: d.month, day: d.day });
    let time = dt.time.map(|t| toml::value::Time {
        hour: t.hour, minute: t.minute, second: t.second, nanosecond: t.nanosecond,
    });
    let offset = dt.offset.map(|o| match o {
        Offset::Z => toml::value::Offset::Z,
        Offset::Custom { minutes } => toml::value::Offset::Custom { minutes },
    });
    format!("{}", toml::value::Datetime { date, time, offset })
}

impl Datetime {
    /// The datetime as TOML writes it.
    pub fn to_string(&self) -> (text: String)
        requires
            writable(*self),
        ensures
            text@ == datetime_display(*self),
    {
        datetime_text(self)
    }
}

impl OffsetDateTime {
    /// The datetime as TOML writes it.
    pub fn to_string(&self) -> (text: String)
        requires
            offset_writable(self.offset),
        ensures
            text@ == datetime_display(
                Datetime { date: Some(self.date), time: Some(self.time), offset: Some(self.offset) },
            ),
    {
        let as_dt = Datetime::from(*self);
        datetime_text(&as_dt)
    }
}

impl LocalDateTime {
    /// The datetime as TOML writes it.
    pub fn to_string(&self) -> (text: String)
        ensures
            text@ == datetime_display(
                Datetime { date: Some(self.date), time: Some(self.time), offset: None },
            ),
    {
        let as_dt = Datetime::from(*self);
        datetime_text(&as_dt)
    }
}

impl LocalDate {
    /// The date as TOML writes it.
    pub fn to_string(&self) -> (text: String)
        ensures
            text@ == datetime_display(Datetime { date: Some(self.date), time: None, offset: None }),
    {
        let as_dt = Datetime::from(*self);
        datetime_text(&as_dt)
    }
}

impl LocalTime {
    /// The time as TOML writes it.
    pub fn to_string(&self) -> (text: String)
        ensures
            text@ == datetime_display(Datetime { date: None, time: Some(self.time), offset: None }),
    {
        let as_dt = Datetime::from(*self);
        datetime_text(&as_dt)
    }
}

/// An empty value. Empty toml arrays contain this type.
#[derive(Clone, Copy, Debug)]
pub struct Empty {}

/// Const array
#[derive(Clone, Copy, Debug)]
pub struct Array<T: 'static>(pub &'static [T]);

impl<T: 'static + Copy> std::ops::Deref for Array<T> {
    type Target = [T];

    fn deref(&self) -> (elements: &[T])
        ensures
            elements@ == self.0@,
    {
        self.0
    }
}

} // verus!
