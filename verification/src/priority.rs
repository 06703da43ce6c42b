//! The eight-level syslog severity scale, ordered with `Emerge` most severe
//! (numeric value 0) and `Debug` least severe (numeric value 7).

use vstd::prelude::*;

verus! {

/// Severity of a journal record. Lower numeric value means higher severity.
#[derive(Debug, Clone, Copy, PartialEq, Eq, Hash, Structural)]
pub enum JournalPriority {
    Emerge,
    Alert,
    Critical,
    Error,
    Warning,
    Notice,
    Info,
    Debug,
}

impl JournalPriority {
    /// Numeric value of this severity on the syslog scale.
    pub open spec fn spec_as_num(&self) -> u8 {
        match self {
            JournalPriority::Emerge => 0,
            JournalPriority::Alert => 1,
            JournalPriority::Critical => 2,
            JournalPriority::Error => 3,
            JournalPriority::Warning => 4,
            JournalPriority::Notice => 5,
            JournalPriority::Info => 6,
            JournalPriority::Debug => 7,
        }
    }

    /// The severity with numeric value `n`, if `n` is on the scale.
    pub open spec fn spec_from_num(n: u8) -> Option<JournalPriority> {
        match n {
            0u8 => Some(JournalPriority::Emerge),
            1u8 => Some(JournalPriority::Alert),
            2u8 => Some(JournalPriority::Critical),
            3u8 => Some(JournalPriority::Error),
            4u8 => Some(JournalPriority::Warning),
            5u8 => Some(JournalPriority::Notice),
            6u8 => Some(JournalPriority::Info),
            7u8 => Some(JournalPriority::Debug),
            _ => None,
        }
    }

    #[verifier::when_used_as_spec(spec_as_num)]
    pub fn as_num(&self) -> (n: u8)
        ensures
            n == self.spec_as_num(),
            n < 8,
    {
        match self {
            JournalPriority::Emerge => 0,
            JournalPriority::Alert => 1,
            JournalPriority::Critical => 2,
            JournalPriority::Error => 3,
            JournalPriority::Warning => 4,
            JournalPriority::Notice => 5,
            JournalPriority::Info => 6,
            JournalPriority::Debug => 7,
        }
    }

    pub fn from_num(n: u8) -> (r: Option<JournalPriority>)
        ensures
            r == Self::spec_from_num(n),
            r is Some <==> n < 8,
            r is Some ==> r.unwrap().spec_as_num() == n,
    {
        match n {
            0 => Some(JournalPriority::Emerge),
            1 => Some(JournalPriority::Alert),
            2 => Some(JournalPriority::Critical),
            3 => Some(JournalPriority::Error),
            4 => Some(JournalPriority::Warning),
            5 => Some(JournalPriority::Notice),
            6 => Some(JournalPriority::Info),
            7 => Some(JournalPriority::Debug),
            _ => None,
        }
    }

    /// ANSI escape that styles output lines of this severity.
    pub open spec fn spec_ansi_color(self) -> Seq<char> {
        match self {
            JournalPriority::Emerge => "\x1b[35;1m"@,
            JournalPriority::Alert => "\x1b[35;1m"@,
            JournalPriority::Critical => "\x1b[31;1m"@,
            JournalPriority::Error => "\x1b[31m"@,
            JournalPriority::Warning => "\x1b[33m"@,
            JournalPriority::Notice => "\x1b[36;1m"@,
            JournalPriority::Info => ""@,
            JournalPriority::Debug => "\x1b[3m"@,
        }
    }

    pub fn ansi_color(&self) -> (r: &str)
        ensures
            r@ == self.spec_ansi_color(),
    {
        match self {
            JournalPriority::Emerge => "\x1b[35;1m",
            JournalPriority::Alert => "\x1b[35;1m",
            JournalPriority::Critical => "\x1b[31;1m",
            JournalPriority::Error => "\x1b[31m",
            JournalPriority::Warning => "\x1b[33m",
            JournalPriority::Notice => "\x1b[36;1m",
            JournalPriority::Info => "",
            JournalPriority::Debug => "\x1b[3m",
        }
    }

    /// Display name of this severity, as it appears on a report's count line.
    pub open spec fn spec_name(self) -> Seq<char> {
        match self {
            JournalPriority::Emerge => "Emerge"@,
            JournalPriority::Alert => "Alert"@,
            JournalPriority::Critical => "Critical"@,
            JournalPriority::Error => "Error"@,
            JournalPriority::Warning => "Warning"@,
            JournalPriority::Notice => "Notice"@,
            JournalPriority::Info => "Info"@,
            JournalPriority::Debug => "Debug"@,
        }
    }

    pub fn name(&self) -> (r: &str)
        ensures
            r@ == self.spec_name(),
    {
        match self {
            JournalPriority::Emerge => "Emerge",
            JournalPriority::Alert => "Alert",
            JournalPriority::Critical => "Critical",
            JournalPriority::Error => "Error",
            JournalPriority::Warning => "Warning",
            JournalPriority::Notice => "Notice",
            JournalPriority::Info => "Info",
            JournalPriority::Debug => "Debug",
        }
    }
}

} // verus!
