//! The record model: one parsed log line.
use vstd::prelude::*;

pub mod log_level;

use self::log_level::LogLevel;

verus! {

/// The payload of a record.
#[derive(Debug, Clone)]
pub struct Fields {
    pub message: String,
}

/// Describes a span; two descriptors stand for the same span when their
/// names agree.
#[derive(Debug, Clone)]
pub struct Span {
    pub name: String,
}

/// One record of the log, as decoded from a line.
#[derive(Debug, Clone)]
pub struct Event {
    pub fields: Fields,
    pub level: LogLevel,
    /// The span the record belongs to.
    pub span: Option<Span>,
    /// Every span open when the record was emitted, outermost first.
    pub spans: Option<Vec<Span>>,
    /// The module path that emitted the record, such as `a::b::c`.
    pub target: String,
}

/// What the reconstruction and the filter read of a record.
pub struct EventView {
    pub message: Seq<char>,
    pub level: LogLevel,
    pub span: Option<Seq<char>>,
    pub spans: Option<Seq<Seq<char>>>,
    pub target: Seq<char>,
}

impl View for Span {
    type V = Seq<char>;

    open spec fn view(&self) -> Seq<char> {
        self.name@
    }
}

/// The view of an optional span descriptor.
pub open spec fn span_view(s: Option<Span>) -> Option<Seq<char>> {
    match s {
        Option::Some(s) => Option::Some(s@),
        Option::None => Option::None,
    }
}

impl View for Event {
    type V = EventView;

    open spec fn view(&self) -> EventView {
        EventView {
            message: self.fields.message@,
            level: self.level,
            span: span_view(self.span),
            spans: match self.spans {
                Option::Some(v) => Option::Some(v@.map_values(|s: Span| s@)),
                Option::None => Option::None,
            },
            target: self.target@,
        }
    }
}

impl PartialEq for Span {
    fn eq(&self, other: &Span) -> (r: bool) {
        self.name == other.name
    }
}

impl vstd::std_specs::cmp::PartialEqSpecImpl for Span {
    open spec fn obeys_eq_spec() -> bool {
        true
    }

    open spec fn eq_spec(&self, other: &Span) -> bool {
        self@ == other@
    }
}

} // verus!
