//! Daily equity time-series aggregation: a validated ticker symbol, a calendar
//! date type, fixed-point decimal price parsing, and date-window summary
//! statistics over a daily price series.

use vstd::prelude::*;

pub mod clock;
pub mod date;
pub mod decimal;
pub mod digits;
pub mod series;

verus! {

/// Selects the inclusive date window applied before aggregation.
#[derive(Clone, Copy, PartialEq, Eq, Structural, Debug)]
pub enum TimePeriod {
    Month,
    Year,
    AllTime,
}

/// A typed failure, surfaced to the caller and never recovered internally.
#[derive(Debug)]
pub enum ApiError {
    /// Required configuration (the upstream API key) is missing.
    Configuration,
    /// A network failure or a non-2xx HTTP status, with its description.
    Transport(String),
    /// The response was structurally invalid, missed an expected field, or
    /// held a field that could not be read as a date or a number.
    Parse,
    /// No data point remained after the date-window filter.
    EmptyResult,
}

/// A ticker symbol: a non-empty string passed verbatim to the upstream query.
pub struct Symbol(pub String);

impl View for Symbol {
    type V = Seq<char>;

    open spec fn view(&self) -> Seq<char> {
        self.0@
    }
}

impl Symbol {
    /// Accepts any non-empty string and rejects the empty one.
    pub fn new(s: String) -> (r: Option<Symbol>)
        ensures
            r is Some <==> s@.len() > 0,
            r is Some ==> r->0@ == s@,
    {
        if s.as_str().unicode_len() > 0 {
            Some(Symbol(s))
        } else {
            None
        }
    }

    /// The symbol's text, for use as a query parameter.
    pub fn as_str(&self) -> (r: &str)
        ensures
            r@ == self@,
    {
        self.0.as_str()
    }
}

/// How much history the upstream is asked for.
pub enum DailyOutputSize {
    Compact,
    Full,
}

impl DailyOutputSize {
    /// The query-parameter value the upstream expects for this output size.
    pub fn as_str(&self) -> (r: &str)
        ensures
            self is Compact ==> r@ == "compact"@,
            self is Full ==> r@ == "full"@,
    {
        match self {
            DailyOutputSize::Compact => "compact",
            DailyOutputSize::Full => "full",
        }
    }
}

} // verus!
