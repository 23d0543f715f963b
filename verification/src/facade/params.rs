//! What callers in dynamic languages pass as loose values: revisions,
//! durabilities, identities and policies, and what they get back of a record.
use crate::db::retain::RetentionPolicy;
use crate::facade::types::{DurabilityDto, ExpectedRevisionDto, RecordDto};
use crate::format::metadata::value_of;
use crate::text::{hex_value, pair_value, read_pair, same_text, utf8_text};
use vstd::prelude::*;
use vstd::utf8::{decode_utf8, encode_utf8, valid_utf8};

verus! {

/// A loose value that is to be a revision.
#[derive(Debug)]
pub enum RevisionArgument {
    Missing,
    Truth,
    Number(u64),
    Text(String),
    Other,
}

/// The revision that a loose value gives.
pub open spec fn revision_of(argument: RevisionArgument) -> Option<ExpectedRevisionDto> {
    match argument {
        RevisionArgument::Missing => Some(ExpectedRevisionDto::Any),
        RevisionArgument::Truth => None,
        RevisionArgument::Number(n) => Some(ExpectedRevisionDto::Exact(n)),
        RevisionArgument::Text(text) => if text@ == "any"@ {
            Some(ExpectedRevisionDto::Any)
        } else if text@ == "no_stream"@ {
            Some(ExpectedRevisionDto::NoStream)
        } else {
            None
        },
        RevisionArgument::Other => None,
    }
}

/// The revision that a loose value gives.
pub fn parse_expected_revision(argument: &RevisionArgument) -> (r: core::result::Result<ExpectedRevisionDto, String>)
    ensures
        match revision_of(*argument) {
            Some(revision) => r == Ok::<ExpectedRevisionDto, String>(revision),
            None => r matches Err(e) && e@
                == "expected_revision must be None, 'any', 'no_stream', or a non-negative integer"@,
        },
{
    match argument {
        RevisionArgument::Missing => return Ok(ExpectedRevisionDto::Any),
        RevisionArgument::Number(n) => return Ok(ExpectedRevisionDto::Exact(*n)),
        RevisionArgument::Text(text) => {
            if same_text(text.as_str(), "any") {
                return Ok(ExpectedRevisionDto::Any);
            }
            if same_text(text.as_str(), "no_stream") {
                return Ok(ExpectedRevisionDto::NoStream);
            }
        },
        _ => {},
    }
    Err("expected_revision must be None, 'any', 'no_stream', or a non-negative integer".to_owned())
}

/// The durability of a name.
pub open spec fn durability_of(name: Seq<char>) -> Option<DurabilityDto> {
    if name == "buffered"@ {
        Some(DurabilityDto::Buffered)
    } else if name == "flush"@ {
        Some(DurabilityDto::Flush)
    } else if name == "sync"@ {
        Some(DurabilityDto::Sync)
    } else {
        None
    }
}

/// The durability of a name.
pub fn parse_durability(name: &str) -> (r: core::result::Result<DurabilityDto, String>)
    ensures
        match durability_of(name@) {
            Some(durability) => r == Ok::<DurabilityDto, String>(durability),
            None => r matches Err(e) && e@ == "durability must be 'buffered', 'flush', or 'sync'"@,
        },
{
    if same_text(name, "buffered") {
        Ok(DurabilityDto::Buffered)
    } else if same_text(name, "flush") {
        Ok(DurabilityDto::Flush)
    } else if same_text(name, "sync") {
        Ok(DurabilityDto::Sync)
    } else {
        Err("durability must be 'buffered', 'flush', or 'sync'".to_owned())
    }
}

/// What a receipt's durability is called.
pub fn durability_name(durability: DurabilityDto) -> (r: &'static str)
    ensures
        r@ == match durability {
            DurabilityDto::Buffered => "buffered"@,
            DurabilityDto::Flush => "flushed"@,
            DurabilityDto::Sync => "synced"@,
        },
{
    match durability {
        DurabilityDto::Buffered => "buffered",
        DurabilityDto::Flush => "flushed",
        DurabilityDto::Sync => "synced",
    }
}

/// The policy of a name and a value, or why there is none.
pub open spec fn policy_of(name: Seq<char>, value: i64) -> core::result::Result<RetentionPolicy, Seq<char>> {
    let negative = "policy value must be non-negative"@;
    if name == "keep_from"@ {
        if value < 0 {
            Err(negative)
        } else {
            Ok(RetentionPolicy::KeepFrom(value as u64))
        }
    } else if name == "keep_latest_events"@ {
        if value < 0 {
            Err(negative)
        } else {
            Ok(RetentionPolicy::KeepLatestEvents(value as u64))
        }
    } else if name == "keep_newer_than"@ {
        Ok(RetentionPolicy::KeepNewerThan(value))
    } else if name == "target_log_bytes"@ {
        if value < 0 {
            Err(negative)
        } else {
            Ok(RetentionPolicy::TargetLogBytes(value as u64))
        }
    } else {
        Err("policy must be keep_from, keep_latest_events, keep_newer_than, or target_log_bytes"@)
    }
}

fn nonnegative_policy_value(value: i64) -> (r: core::result::Result<u64, String>)
    ensures
        value >= 0 ==> r == Ok::<u64, String>(value as u64),
        value < 0 ==> (r matches Err(e) && e@ == "policy value must be non-negative"@),
{
    if value < 0 {
        Err("policy value must be non-negative".to_owned())
    } else {
        Ok(value as u64)
    }
}

/// The policy of a name and a value.
pub fn parse_policy(name: &str, value: i64) -> (r: core::result::Result<RetentionPolicy, String>)
    ensures
        match policy_of(name@, value) {
            Ok(policy) => r == Ok::<RetentionPolicy, String>(policy),
            Err(text) => r matches Err(e) && e@ == text,
        },
{
    if same_text(name, "keep_from") {
        match nonnegative_policy_value(value) {
            Ok(n) => Ok(RetentionPolicy::KeepFrom(n)),
            Err(e) => Err(e),
        }
    } else if same_text(name, "keep_latest_events") {
        match nonnegative_policy_value(value) {
            Ok(n) => Ok(RetentionPolicy::KeepLatestEvents(n)),
            Err(e) => Err(e),
        }
    } else if same_text(name, "keep_newer_than") {
        Ok(RetentionPolicy::KeepNewerThan(value))
    } else if same_text(name, "target_log_bytes") {
        match nonnegative_policy_value(value) {
            Ok(n) => Ok(RetentionPolicy::TargetLogBytes(n)),
            Err(e) => Err(e),
        }
    } else {
        Err("policy must be keep_from, keep_latest_events, keep_newer_than, or target_log_bytes".to_owned())
    }
}

/// Whether bytes are thirty-two hexadecimal digits.
pub open spec fn is_hex_id(bytes: Seq<u8>) -> bool {
    bytes.len() == 32 && forall|i: int| 0 <= i < 32 ==> hex_value(#[trigger] bytes[i]) is Some
}

/// The identity that a text spells: two hexadecimal digits for each byte.
pub fn parse_hex_id(value: &str) -> (r: core::result::Result<[u8; 16], String>)
    ensures
        match r {
            Ok(id) => is_hex_id(encode_utf8(value@)) && forall|i: int|
                0 <= i < 16 ==> Some(#[trigger] id@[i]) == pair_value(encode_utf8(value@)[2 * i], encode_utf8(value@)[2 * i + 1]),
            Err(e) => !is_hex_id(encode_utf8(value@)) && e@ == "event_id must contain exactly 32 hexadecimal characters"@,
        },
{
    let bytes = value.as_bytes();
    if bytes.len() != 32 {
        return Err("event_id must contain exactly 32 hexadecimal characters".to_owned());
    }
    let mut id: [u8; 16] = [0; 16];
    let mut i: usize = 0;
    while i < 16
        invariant
            i <= 16,
            bytes@.len() == 32,
            bytes@ == encode_utf8(value@),
            forall|j: int| 0 <= j < 2 * i ==> hex_value(#[trigger] bytes@[j]) is Some,
            forall|j: int| 0 <= j < i ==> Some(#[trigger] id@[j]) == pair_value(bytes@[2 * j], bytes@[2 * j + 1]),
        decreases 16 - i,
    {
        let first: u8 = bytes[2 * i];
        match read_pair(first, bytes[2 * i + 1]) {
            Some(byte) => {
                if first == 0x2b {
                    assert(hex_value(bytes@[2 * (i as int)]) is None);
                    return Err("event_id must contain exactly 32 hexadecimal characters".to_owned());
                }
                id[i] = byte;
            },
            None => {
                assert(hex_value(bytes@[2 * (i as int)]) is None || hex_value(bytes@[2 * (i as int) + 1]) is None);
                return Err("event_id must contain exactly 32 hexadecimal characters".to_owned());
            },
        }
        i = i + 1;
    }
    Ok(id)
}

/// The stream that a record names, where it names one in UTF-8.
pub open spec fn namespace_of(record: RecordDto) -> Option<Seq<char>> {
    match value_of(record.metadata@, "salamander.stream_name"@) {
        Some(bytes) => if valid_utf8(bytes) {
            Some(decode_utf8(bytes))
        } else {
            None
        },
        None => None,
    }
}

/// The stream that a record names.
pub fn record_namespace(record: &RecordDto) -> (r: Option<String>)
    ensures
        match namespace_of(*record) {
            Some(name) => r matches Some(s) && s@ == name,
            None => r is None,
        },
{
    match record.metadata.get("salamander.stream_name") {
        Some(bytes) => utf8_text(bytes.as_slice()),
        None => None,
    }
}

/// Where a watch begins: where it is told to, at a consumer's checkpoint, or
/// else at what is durable now.
pub fn watch_start(start: Option<u64>, has_consumer: bool, durable_head: u64) -> (r: Option<u64>)
    ensures
        r == match start {
            Some(position) => Some(position),
            None => if has_consumer {
                None
            } else {
                Some(durable_head)
            },
        },
{
    match start {
        Some(position) => Some(position),
        None => if has_consumer {
            None
        } else {
            Some(durable_head)
        },
    }
}

/// The longest wait for a page before signals are looked at again.
pub const WATCH_WAIT_CHUNK_MILLIS: u64 = 200;

/// How long a watch waits for its next page: nothing, once its time is over.
pub fn watch_wait(remaining_millis: Option<Option<u64>>) -> (r: Option<u64>)
    ensures
        r == match remaining_millis {
            None => Some(WATCH_WAIT_CHUNK_MILLIS),
            Some(None) => None,
            Some(Some(left)) => Some(
                if left < WATCH_WAIT_CHUNK_MILLIS {
                    left
                } else {
                    WATCH_WAIT_CHUNK_MILLIS
                },
            ),
        },
{
    match remaining_millis {
        None => Some(WATCH_WAIT_CHUNK_MILLIS),
        Some(None) => None,
        Some(Some(left)) => Some(
            if left < WATCH_WAIT_CHUNK_MILLIS {
                left
            } else {
                WATCH_WAIT_CHUNK_MILLIS
            },
        ),
    }
}

} // verus!
