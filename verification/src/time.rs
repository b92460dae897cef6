//! Timestamps of document creation and modification.
//!
//! A timestamp is the number of microseconds since the Unix epoch, kept
//! within the years 1970 to 9999 so that its RFC 3339 rendering (used as the
//! fallback sort key) is always defined. Rendering is chrono's work, behind
//! a trusted wrapper; everything else on timestamps is plain integer logic.

use vstd::prelude::*;

verus! {

/// Upper bound of the representable range: the last microsecond of the year
/// 9999 (`9999-12-31T23:59:59.999999Z`).
pub const MAX_TIMESTAMP_MICROS: i64 = 253_402_300_799_999_999;

/// A point in time, at microsecond precision, within the years 1970 to 9999.
#[derive(Debug, Clone, Copy, PartialEq, Eq, Structural)]
pub struct Timestamp {
    micros: i64,
}

impl View for Timestamp {
    type V = int;

    closed spec fn view(&self) -> int {
        self.micros as int
    }
}

impl Timestamp {
    #[verifier::type_invariant]
    spec fn type_inv(self) -> bool {
        0 <= self.micros <= MAX_TIMESTAMP_MICROS
    }

    /// Builds a timestamp from microseconds since the Unix epoch; `None`
    /// outside the representable range.
    pub fn from_micros(micros: i64) -> (r: Option<Timestamp>)
        ensures
            (0 <= micros <= MAX_TIMESTAMP_MICROS) <==> r is Some,
            r is Some ==> r.unwrap()@ == micros as int,
    {
        if 0 <= micros && micros <= MAX_TIMESTAMP_MICROS {
            Some(Timestamp { micros })
        } else {
            None
        }
    }

    /// Microseconds since the Unix epoch.
    pub fn micros(&self) -> (r: i64)
        ensures
            r as int == self@,
    {
        self.micros
    }

    /// Whether this timestamp is at or before `other`.
    pub fn le(&self, other: &Timestamp) -> (r: bool)
        ensures
            r == (self@ <= other@),
    {
        self.micros <= other.micros
    }

    /// The RFC 3339 rendering of this timestamp, used as the fallback sort
    /// key of a document whose frontmatter lacks the requested field.
    pub fn render(&self) -> (r: String)
        ensures
            r@ == rfc3339_of(self@),
    {
        proof {
            use_type_invariant(&*self);
        }
        format_rfc3339_micros(self.micros)
    }
}

/// The RFC 3339 rendering of a microsecond Unix timestamp, as chrono
/// produces it. The rendering depends on the microsecond value alone.
pub uninterp spec fn rfc3339_of(micros: int) -> Seq<char>;

/// Relies on chrono's `DateTime::<Utc>::from_timestamp_micros` and
/// `DateTime::to_rfc3339`: within the required range the conversion is
/// documented to succeed, and the rendering is a function of the microsecond
/// value alone.
#[verifier::external_body]
fn format_rfc3339_micros(micros: i64) -> (r: String)
    requires
        0 <= micros <= MAX_TIMESTAMP_MICROS,
    ensures
        r@ == rfc3339_of(micros as int),
{
    match chrono::DateTime::<chrono::Utc>::from_timestamp_micros(micros) {
        Some(dt) => dt.to_rfc3339(),
        None => String::new(),
    }
}

} // verus!
