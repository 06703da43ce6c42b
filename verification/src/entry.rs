//! A single journal record and its field accessors.
//!
//! A record is decoded from one frame of the raw stream. Each required field
//! may be absent; accessors report absence (or a malformed value) as `None`,
//! so a consumer can decide per field whether that is fatal.

use vstd::prelude::*;
use crate::parse::{parse_u128_dec, parse_u128_hex, spec_parse_u128};
use crate::priority::JournalPriority;

verus! {

/// A boot-session identifier: a 128-bit unsigned value read from a hex string.
pub type BootId = u128;

/// The raw fields of one decoded journal record. A `None` field was absent
/// from the frame (or, for all but the message, not a string there).
#[derive(Debug)]
pub struct JournalEntry {
    /// Severity, as a decimal string.
    pub priority: Option<String>,
    /// Source identifier: the syslog identifier, or the emitting command's
    /// name where the former is absent.
    pub identifier: Option<String>,
    /// Boot-session id, as a hex string.
    pub boot_id: Option<String>,
    /// Realtime timestamp, as a decimal string of microseconds since epoch.
    pub timestamp: Option<String>,
    /// Message text; an empty string where the frame holds a non-string value.
    pub message: Option<String>,
    /// Sequence-number id, as a hex string.
    pub seqnum: Option<String>,
}

/// Mathematical content of a `JournalEntry`.
pub struct RecordFields {
    pub priority: Option<Seq<char>>,
    pub identifier: Option<Seq<char>>,
    pub boot_id: Option<Seq<char>>,
    pub timestamp: Option<Seq<char>>,
    pub message: Option<Seq<char>>,
    pub seqnum: Option<Seq<char>>,
}

pub open spec fn view_of_opt(s: Option<String>) -> Option<Seq<char>> {
    match s {
        Some(x) => Some(x@),
        None => None,
    }
}

impl View for JournalEntry {
    type V = RecordFields;

    open spec fn view(&self) -> RecordFields {
        RecordFields {
            priority: view_of_opt(self.priority),
            identifier: view_of_opt(self.identifier),
            boot_id: view_of_opt(self.boot_id),
            timestamp: view_of_opt(self.timestamp),
            message: view_of_opt(self.message),
            seqnum: view_of_opt(self.seqnum),
        }
    }
}

impl RecordFields {
    /// The boot-session id this record carries, if its hex field is present
    /// and well formed.
    pub open spec fn spec_boot_id(self) -> Option<BootId> {
        match self.boot_id {
            Some(s) => spec_parse_u128(s, 16),
            None => None,
        }
    }

    /// The severity this record carries, if its decimal field is present and
    /// names one of the eight levels.
    pub open spec fn spec_priority(self) -> Option<JournalPriority> {
        match self.priority {
            Some(s) => match spec_parse_u128(s, 10) {
                Some(v) => if v < 8 {
                    JournalPriority::spec_from_num(v as u8)
                } else {
                    None
                },
                None => None,
            },
            None => None,
        }
    }

    /// The timestamp this record carries, if present and well formed.
    pub open spec fn spec_timestamp(self) -> Option<u128> {
        match self.timestamp {
            Some(s) => spec_parse_u128(s, 10),
            None => None,
        }
    }

    /// The sequence-number id this record carries, if present and well formed.
    pub open spec fn spec_seqnum(self) -> Option<u128> {
        match self.seqnum {
            Some(s) => spec_parse_u128(s, 16),
            None => None,
        }
    }
}

impl Clone for JournalEntry {
    fn clone(&self) -> (r: Self)
        ensures
            r@ == self@,
    {
        JournalEntry {
            priority: clone_opt_string(&self.priority),
            identifier: clone_opt_string(&self.identifier),
            boot_id: clone_opt_string(&self.boot_id),
            timestamp: clone_opt_string(&self.timestamp),
            message: clone_opt_string(&self.message),
            seqnum: clone_opt_string(&self.seqnum),
        }
    }
}

fn clone_opt_string(s: &Option<String>) -> (r: Option<String>)
    ensures
        view_of_opt(r) == view_of_opt(*s),
{
    match s {
        Some(x) => Some(x.clone()),
        None => None,
    }
}

impl JournalEntry {
    /// Source identifier, if present.
    pub fn get_identifier(&self) -> (r: Option<&str>)
        ensures
            match r {
                Some(s) => self@.identifier == Some(s@),
                None => self@.identifier is None,
            },
    {
        match &self.identifier {
            Some(s) => Some(s.as_str()),
            None => None,
        }
    }

    /// Boot-session id parsed from its hex field, if present and well formed.
    pub fn get_boot_id(&self) -> (r: Option<BootId>)
        ensures
            r == self@.spec_boot_id(),
    {
        match &self.boot_id {
            Some(s) => parse_u128_hex(s.as_str()),
            None => None,
        }
    }

    /// Severity parsed from its decimal field, if present and on the scale.
    pub fn get_priority(&self) -> (r: Option<JournalPriority>)
        ensures
            r == self@.spec_priority(),
    {
        match &self.priority {
            Some(s) => match parse_u128_dec(s.as_str()) {
                Some(v) => if v < 8 {
                    JournalPriority::from_num(v as u8)
                } else {
                    None
                },
                None => None,
            },
            None => None,
        }
    }

    /// Timestamp in microseconds since epoch, if present and well formed.
    pub fn get_timestamp(&self) -> (r: Option<u128>)
        ensures
            r == self@.spec_timestamp(),
    {
        match &self.timestamp {
            Some(s) => parse_u128_dec(s.as_str()),
            None => None,
        }
    }

    /// Message text, if the frame carried one.
    pub fn get_message(&self) -> (r: Option<&str>)
        ensures
            match r {
                Some(s) => self@.message == Some(s@),
                None => self@.message is None,
            },
    {
        match &self.message {
            Some(s) => Some(s.as_str()),
            None => None,
        }
    }

    /// Sequence-number id parsed from its hex field, if present and well formed.
    pub fn get_sequence_number_id(&self) -> (r: Option<u128>)
        ensures
            r == self@.spec_seqnum(),
    {
        match &self.seqnum {
            Some(s) => parse_u128_hex(s.as_str()),
            None => None,
        }
    }
}

/// The fields that the frame `bytes` decodes to: `None` where the frame is
/// not a well-formed record object at all.
pub uninterp spec fn frame_fields(bytes: Seq<u8>) -> Option<RecordFields>;

/// Relies on `serde_json::from_slice` to decode one frame as a JSON object,
/// and on `serde_json::Value::get` / `Value::as_str` to pick the record's
/// named fields out of it. The decoded content depends on the bytes alone;
/// `frame_fields` names it. A frame that is not valid JSON decodes to `None`.
/// The source identifier falls back to the `_COMM` field when
/// `SYSLOG_IDENTIFIER` is absent, and a present but non-string message is
/// read as the empty string, as the fields of `JournalEntry` describe.
#[verifier::external_body]
pub fn decode_frame(bytes: &[u8]) -> (r: Option<JournalEntry>)
    ensures
        match r {
            Some(e) => frame_fields(bytes@) == Some(e@),
            None => frame_fields(bytes@) is None,
        },
{
    let value: serde_json::Value = match serde_json::from_slice(bytes) {
        Ok(v) => v,
        Err(_) => return None,
    };
    Some(JournalEntry {
        priority: value["PRIORITY"].as_str().map(String::from),
        identifier: value.get("SYSLOG_IDENTIFIER").or(value.get("_COMM")).and_then(|v| v.as_str()).map(String::from),
        boot_id: value["_BOOT_ID"].as_str().map(String::from),
        timestamp: value["__REALTIME_TIMESTAMP"].as_str().map(String::from),
        message: value.get("MESSAGE").map(|v| v.as_str().unwrap_or("").to_string()),
        seqnum: value["__SEQNUM_ID"].as_str().map(String::from),
    })
}

} // verus!
