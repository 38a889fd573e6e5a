//! Values that facts state, and the instants at which they are stated.

use vstd::prelude::*;

use crate::model::Uri;

verus! {

/// A value: a plain string or a reference to another entity.
#[derive(Debug, Clone, PartialEq, Eq, PartialOrd, Ord, Hash)]
pub enum Value {
    String(String),
    Uri(Uri),
}

/// The mathematical value of a `Value`.
pub enum ValueV {
    Str(Seq<char>),
    Uri(Seq<char>),
}

impl View for Value {
    type V = ValueV;

    open spec fn view(&self) -> ValueV {
        match self {
            Value::String(s) => ValueV::Str(s@),
            Value::Uri(u) => ValueV::Uri(u@),
        }
    }
}

/// The text of a value.
pub open spec fn value_text(v: ValueV) -> Seq<char> {
    match v {
        ValueV::Str(s) => s,
        ValueV::Uri(u) => u,
    }
}

impl Value {
    /// A string value.
    pub fn string(s: &str) -> (r: Value)
        ensures
            r@ == ValueV::Str(s@),
    {
        Value::String(s.to_string())
    }

    /// A reference to an entity.
    pub fn uri(uri: Uri) -> (r: Value)
        ensures
            r@ == ValueV::Uri(uri@),
    {
        Value::Uri(uri)
    }

    /// The text of the value.
    pub fn to_string(&self) -> (r: String)
        ensures
            r@ == value_text(self@),
    {
        match self {
            Value::String(s) => s.clone(),
            Value::Uri(u) => u.to_string(),
        }
    }

    /// A copy with the same value.
    pub fn duplicate(&self) -> (r: Value)
        ensures
            r@ == self@,
    {
        match self {
            Value::String(s) => Value::String(s.clone()),
            Value::Uri(u) => Value::Uri(u.duplicate()),
        }
    }
}

impl From<Uri> for Value {
    fn from(value: Uri) -> (r: Value) {
        Value::Uri(value)
    }
}

impl vstd::std_specs::convert::FromSpecImpl<Uri> for Value {
    open spec fn obeys_from_spec() -> bool {
        true
    }

    open spec fn from_spec(value: Uri) -> Value {
        Value::Uri(value)
    }
}

/// Reads the system clock through `time::OffsetDateTime::now_utc`, as nanoseconds
/// since the Unix epoch. Nothing is stated of the result: it is whatever the clock says.
#[verifier::external_body]
fn clock_unix_nanos() -> (r: i128) {
    time::OffsetDateTime::now_utc().unix_timestamp_nanos()
}

/// An instant, as nanoseconds since the Unix epoch (UTC).
#[derive(Debug, Clone, Copy, PartialEq, Eq, PartialOrd, Ord, Hash)]
pub struct DateTime(i128);

impl DateTime {
    /// The current instant.
    pub fn now_utc() -> (r: DateTime) {
        DateTime(clock_unix_nanos())
    }

    /// The instant `nanos` nanoseconds after the Unix epoch.
    pub fn from_unix_nanos(nanos: i128) -> (r: DateTime)
        ensures
            r.nanos() == nanos,
    {
        DateTime(nanos)
    }

    pub closed spec fn nanos(self) -> i128 {
        self.0
    }

    /// Nanoseconds since the Unix epoch.
    pub fn unix_nanos(&self) -> (r: i128)
        ensures
            r == self.nanos(),
    {
        self.0
    }
}

} // verus!
