//! Severity levels of log records.
use vstd::prelude::*;

use crate::text::{ascii_lower, str_eq, to_ascii_lowercase};

verus! {

/// Severity of a record, from least to most severe. `Off` ranks above
/// every real severity: as a filter threshold it hides everything.
#[derive(Debug, Clone, Copy, PartialEq, Eq, Structural, Hash)]
pub enum LogLevel {
    Trace,
    Debug,
    Info,
    Warn,
    Error,
    Off,
}

/// The name that no level has, as it was given (after lower-casing).
#[derive(Debug, Clone)]
pub struct UnknownLevel {
    pub name: String,
}

impl LogLevel {
    /// Position of the level in the severity order.
    pub open spec fn rank(self) -> nat {
        match self {
            LogLevel::Trace => 0,
            LogLevel::Debug => 1,
            LogLevel::Info => 2,
            LogLevel::Warn => 3,
            LogLevel::Error => 4,
            LogLevel::Off => 5,
        }
    }

    /// The lower-case name under which the level is parsed.
    pub open spec fn lower_name(self) -> Seq<char> {
        match self {
            LogLevel::Trace => "trace"@,
            LogLevel::Debug => "debug"@,
            LogLevel::Info => "info"@,
            LogLevel::Warn => "warn"@,
            LogLevel::Error => "error"@,
            LogLevel::Off => "none"@,
        }
    }

    /// The upper-case name under which the level is written.
    pub open spec fn upper_name(self) -> Seq<char> {
        match self {
            LogLevel::Trace => "TRACE"@,
            LogLevel::Debug => "DEBUG"@,
            LogLevel::Info => "INFO"@,
            LogLevel::Warn => "WARN"@,
            LogLevel::Error => "ERROR"@,
            LogLevel::Off => "NONE"@,
        }
    }

    /// The colour that stands for the level in a view.
    pub open spec fn color_name(self) -> Seq<char> {
        match self {
            LogLevel::Trace => "gray-500"@,
            LogLevel::Debug => "blue-500"@,
            LogLevel::Info => "green-500"@,
            LogLevel::Warn => "orange-500"@,
            LogLevel::Error => "red-500"@,
            LogLevel::Off => "white"@,
        }
    }

    /// The name in brackets, padded with spaces to seven characters.
    pub open spec fn label_text(self) -> Seq<char> {
        match self {
            LogLevel::Trace => "[TRACE]"@,
            LogLevel::Debug => "[DEBUG]"@,
            LogLevel::Info => "[INFO] "@,
            LogLevel::Warn => "[WARN] "@,
            LogLevel::Error => "[ERROR]"@,
            LogLevel::Off => "[NONE] "@,
        }
    }

    pub fn color(&self) -> (r: &'static str)
        ensures
            r@ == self.color_name(),
    {
        match self {
            LogLevel::Trace => "gray-500",
            LogLevel::Debug => "blue-500",
            LogLevel::Info => "green-500",
            LogLevel::Warn => "orange-500",
            LogLevel::Error => "red-500",
            LogLevel::Off => "white",
        }
    }

    pub fn num(&self) -> (r: usize)
        ensures
            r == self.rank(),
    {
        match self {
            LogLevel::Trace => 0,
            LogLevel::Debug => 1,
            LogLevel::Info => 2,
            LogLevel::Warn => 3,
            LogLevel::Error => 4,
            LogLevel::Off => 5,
        }
    }

    /// The upper-case name of the level.
    pub fn name(&self) -> (r: &'static str)
        ensures
            r@ == self.upper_name(),
    {
        match self {
            LogLevel::Trace => "TRACE",
            LogLevel::Debug => "DEBUG",
            LogLevel::Info => "INFO",
            LogLevel::Warn => "WARN",
            LogLevel::Error => "ERROR",
            LogLevel::Off => "NONE",
        }
    }

    /// The label shown in front of a record: the name in brackets, padded
    /// to a fixed width so that messages line up.
    pub fn label(&self) -> (r: &'static str)
        ensures
            r@ == self.label_text(),
    {
        match self {
            LogLevel::Trace => "[TRACE]",
            LogLevel::Debug => "[DEBUG]",
            LogLevel::Info => "[INFO] ",
            LogLevel::Warn => "[WARN] ",
            LogLevel::Error => "[ERROR]",
            LogLevel::Off => "[NONE] ",
        }
    }

    /// Parses a level name, ignoring ASCII case.
    pub fn from_name(s: &str) -> (r: Result<LogLevel, UnknownLevel>)
        ensures
            match r {
                Ok(l) => s@.map_values(|c: char| ascii_lower(c)) == l.lower_name(),
                Err(e) => e.name@ == s@.map_values(|c: char| ascii_lower(c))
                    && forall|l: LogLevel| e.name@ != #[trigger] l.lower_name(),
            },
    {
        let lower = to_ascii_lowercase(s);
        let t = lower.as_str();
        if str_eq(t, "none") {
            Ok(LogLevel::Off)
        } else if str_eq(t, "error") {
            Ok(LogLevel::Error)
        } else if str_eq(t, "warn") {
            Ok(LogLevel::Warn)
        } else if str_eq(t, "info") {
            Ok(LogLevel::Info)
        } else if str_eq(t, "debug") {
            Ok(LogLevel::Debug)
        } else if str_eq(t, "trace") {
            Ok(LogLevel::Trace)
        } else {
            assert forall|l: LogLevel| lower@ != #[trigger] l.lower_name() by {
                match l {
                    LogLevel::Trace => {},
                    LogLevel::Debug => {},
                    LogLevel::Info => {},
                    LogLevel::Warn => {},
                    LogLevel::Error => {},
                    LogLevel::Off => {},
                }
            }
            Err(UnknownLevel { name: lower })
        }
    }
}

/// What the label in front of a record shows: the level's bracketed name,
/// on the background of the level's colour.
#[derive(Debug, Clone, Copy, PartialEq, Eq, Structural)]
pub struct LogLevelLabelProps {
    pub level: LogLevel,
}

impl LogLevelLabelProps {
    /// The text of the label.
    pub fn text(&self) -> (r: &'static str)
        ensures
            r@ == self.level.label_text(),
    {
        self.level.label()
    }

    /// The style class that colours the label's background.
    pub fn background(&self) -> (r: String)
        ensures
            r@ == "bg-"@ + self.level.color_name(),
    {
        String::from_str("bg-").concat(self.level.color())
    }
}

impl Default for LogLevel {
    fn default() -> (r: LogLevel)
        ensures
            r == LogLevel::Off,
    {
        LogLevel::Off
    }
}

impl PartialOrd for LogLevel {
    fn partial_cmp(&self, other: &LogLevel) -> (r: Option<core::cmp::Ordering>) {
        let a = self.num();
        let b = other.num();
        if a < b {
            Some(core::cmp::Ordering::Less)
        } else if a == b {
            Some(core::cmp::Ordering::Equal)
        } else {
            Some(core::cmp::Ordering::Greater)
        }
    }
}

impl vstd::std_specs::cmp::PartialOrdSpecImpl for LogLevel {
    open spec fn obeys_partial_cmp_spec() -> bool {
        true
    }

    open spec fn partial_cmp_spec(&self, other: &LogLevel) -> Option<core::cmp::Ordering> {
        if self.rank() < other.rank() {
            Some(core::cmp::Ordering::Less)
        } else if self.rank() == other.rank() {
            Some(core::cmp::Ordering::Equal)
        } else {
            Some(core::cmp::Ordering::Greater)
        }
    }
}

impl core::str::FromStr for LogLevel {
    type Err = UnknownLevel;

    fn from_str(s: &str) -> (r: Result<LogLevel, UnknownLevel>)
        ensures
            match r {
                Ok(l) => s@.map_values(|c: char| ascii_lower(c)) == l.lower_name(),
                Err(e) => e.name@ == s@.map_values(|c: char| ascii_lower(c))
                    && forall|l: LogLevel| e.name@ != #[trigger] l.lower_name(),
            },
    {
        LogLevel::from_name(s)
    }
}

} // verus!
