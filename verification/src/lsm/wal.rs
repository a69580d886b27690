//! Write-ahead log for crash recovery.
//!
//! Every write is appended to the log before being applied to the memtable.
//! If the process crashes, the log is replayed on startup to reconstruct the
//! memtable state.
//!
//! # Format
//!
//! Each record is:
//! ```text
//! [type: u8][key_len: u32 LE][key: [u8; key_len]][value_len: u32 LE][value: [u8; value_len]]
//! ```
//!
//! Where type is `0x01` for Put and `0x02` for Delete (value_len = 0 for
//! deletes).

use vstd::prelude::*;

use super::codec::{
    copy_range, find_framed, framed, lemma_unframe, lemma_unframe_short, push_framed, unframe,
};
use super::error::{Error, Result};
use super::text::{hex, hex_text};

verus! {

/// Type byte of a put record.
pub const RECORD_PUT: u8 = 0x01;

/// Type byte of a delete record.
pub const RECORD_DELETE: u8 = 0x02;

/// A record recovered from the log during replay.
#[derive(Debug, PartialEq, Eq)]
pub enum WalRecord {
    /// A put operation.
    Put {
        /// The key.
        key: Vec<u8>,
        /// The value.
        value: Vec<u8>,
    },
    /// A delete operation.
    Delete {
        /// The key to delete.
        key: Vec<u8>,
    },
}

/// The contents of a log record.
pub enum LogEntry {
    /// A put operation.
    Put(Seq<u8>, Seq<u8>),
    /// A delete operation.
    Delete(Seq<u8>),
}

impl View for WalRecord {
    type V = LogEntry;

    open spec fn view(&self) -> LogEntry {
        match self {
            WalRecord::Put { key, value } => LogEntry::Put(key@, value@),
            WalRecord::Delete { key } => LogEntry::Delete(key@),
        }
    }
}

/// The bytes of a put record.
pub open spec fn put_bytes(key: Seq<u8>, value: Seq<u8>) -> Seq<u8> {
    seq![RECORD_PUT] + framed(key) + framed(value)
}

/// The bytes of a delete record.
pub open spec fn delete_bytes(key: Seq<u8>) -> Seq<u8> {
    seq![RECORD_DELETE] + framed(key) + framed(Seq::empty())
}

/// The bytes of a record.
pub open spec fn entry_bytes(e: LogEntry) -> Seq<u8> {
    match e {
        LogEntry::Put(key, value) => put_bytes(key, value),
        LogEntry::Delete(key) => delete_bytes(key),
    }
}

/// The bytes of a sequence of records.
pub open spec fn log_bytes(entries: Seq<LogEntry>) -> Seq<u8>
    decreases entries.len(),
{
    if entries.len() == 0 {
        Seq::empty()
    } else {
        entry_bytes(entries[0]) + log_bytes(entries.drop_first())
    }
}

/// Split the first record off a log: its type, key and value, and the rest of
/// the log. `None` if there is no complete record.
pub open spec fn first_record(s: Seq<u8>) -> Option<(u8, Seq<u8>, Seq<u8>, Seq<u8>)> {
    if s.len() == 0 {
        None
    } else {
        match unframe(s.skip(1)) {
            None => None,
            Some((key, rest)) => match unframe(rest) {
                None => None,
                Some((value, rest)) => Some((s[0], key, value, rest)),
            },
        }
    }
}

/// The records of a log, up to the first incomplete one, or the first unknown
/// record type.
pub open spec fn log_entries(s: Seq<u8>) -> core::result::Result<Seq<LogEntry>, u8>
    decreases s.len(),
{
    match first_record(s) {
        None => Ok(Seq::empty()),
        Some((kind, key, value, rest)) => {
            proof {
                lemma_record_shrinks(s);
            }
            if kind == RECORD_PUT {
                prepend(LogEntry::Put(key, value), log_entries(rest))
            } else if kind == RECORD_DELETE {
                prepend(LogEntry::Delete(key), log_entries(rest))
            } else {
                Err(kind)
            }
        },
    }
}

/// The length of the complete records of a log, which an incomplete one may
/// follow.
pub open spec fn valid_len(s: Seq<u8>) -> nat
    decreases s.len(),
{
    match first_record(s) {
        None => 0,
        Some((kind, key, value, rest)) => {
            proof {
                lemma_record_shrinks(s);
            }
            if kind == RECORD_PUT || kind == RECORD_DELETE {
                (s.len() - rest.len()) as nat + valid_len(rest)
            } else {
                0
            }
        },
    }
}

/// A record in front of the records that follow, if those are known.
pub open spec fn prepend(
    e: LogEntry,
    rest: core::result::Result<Seq<LogEntry>, u8>,
) -> core::result::Result<Seq<LogEntry>, u8> {
    match rest {
        Ok(entries) => Ok(seq![e] + entries),
        Err(kind) => Err(kind),
    }
}

/// The message for an unknown record type.
pub open spec fn unknown_type_text(kind: u8) -> Seq<char> {
    "unknown WAL record type: "@ + hex_text(kind as nat)
}

/// Taking a record off a log leaves less.
pub proof fn lemma_record_shrinks(s: Seq<u8>)
    ensures
        first_record(s) matches Some(r) ==> r.3.len() < s.len(),
{
}

/// What a log file holds.
pub struct Recovered {
    /// The complete records, in order.
    pub records: Vec<WalRecord>,
    /// Their length in bytes. What follows is an incomplete record, and has to be
    /// cut off before new records are written to the file.
    pub valid_len: usize,
}

/// An append-only write-ahead log.
///
/// Appended records are buffered. The owner of the log file takes the pending
/// bytes and writes them to the end of the file.
pub struct Wal {
    pending: Vec<u8>,
}

impl Wal {
    /// The buffered bytes.
    pub closed spec fn view(self) -> Seq<u8> {
        self.pending@
    }

    /// Start a log with nothing buffered.
    pub fn open() -> (r: Self)
        ensures
            r@ == Seq::<u8>::empty(),
    {
        Wal { pending: Vec::new() }
    }

    /// Append a put record to the log.
    pub fn append_put(&mut self, key: &[u8], value: &[u8])
        ensures
            final(self)@ == old(self)@ + put_bytes(key@, value@),
    {
        self.pending.push(RECORD_PUT);
        push_framed(&mut self.pending, key);
        push_framed(&mut self.pending, value);
        assert(self@ =~= old(self)@ + put_bytes(key@, value@));
    }

    /// Append a delete record to the log.
    pub fn append_delete(&mut self, key: &[u8])
        ensures
            final(self)@ == old(self)@ + delete_bytes(key@),
    {
        self.pending.push(RECORD_DELETE);
        push_framed(&mut self.pending, key);
        // Delete records have a zero-length value.
        let nothing: Vec<u8> = Vec::new();
        push_framed(&mut self.pending, nothing.as_slice());
        assert(self@ =~= old(self)@ + delete_bytes(key@));
    }

    /// Take the buffered bytes, to be written to the end of the log file.
    pub fn sync(&mut self) -> (r: Vec<u8>)
        ensures
            r@ == old(self)@,
            final(self)@ == Seq::<u8>::empty(),
    {
        let mut bytes: Vec<u8> = Vec::new();
        core::mem::swap(&mut bytes, &mut self.pending);
        bytes
    }

    /// Drop the buffered bytes (called after a successful memtable flush, when
    /// the log file is truncated too).
    pub fn truncate(&mut self)
        ensures
            final(self)@ == Seq::<u8>::empty(),
    {
        self.pending.clear();
    }

    /// Replay all records from the contents of a log file.
    ///
    /// Returns records in order. Incomplete trailing records (from a crash
    /// mid-write) are silently skipped.
    ///
    /// # Errors
    ///
    /// Returns [`Error::Corruption`] if a complete record has an unknown type.
    pub fn recover(bytes: &[u8]) -> (r: Result<Vec<WalRecord>>)
        ensures
            match r {
                Ok(records) => log_entries(bytes@) == Ok::<_, u8>(
                    records@.map_values(|w: WalRecord| w@),
                ),
                Err(e) => {
                    &&& log_entries(bytes@) is Err
                    &&& e is Corruption
                    &&& e->Corruption_0@ == unknown_type_text(log_entries(bytes@)->Err_0)
                },
            },
    {
        match Wal::replay(bytes) {
            Ok(recovered) => Ok(recovered.records),
            Err(e) => Err(e),
        }
    }

    /// Replay all records from the contents of a log file, and find where the
    /// complete records end.
    ///
    /// # Errors
    ///
    /// Returns [`Error::Corruption`] if a complete record has an unknown type.
    pub fn replay(bytes: &[u8]) -> (r: Result<Recovered>)
        ensures
            match r {
                Ok(recovered) => {
                    &&& log_entries(bytes@) == Ok::<_, u8>(
                        recovered.records@.map_values(|w: WalRecord| w@),
                    )
                    &&& recovered.valid_len == valid_len(bytes@)
                    &&& recovered.valid_len <= bytes@.len()
                },
                Err(e) => {
                    &&& log_entries(bytes@) is Err
                    &&& e is Corruption
                    &&& e->Corruption_0@ == unknown_type_text(log_entries(bytes@)->Err_0)
                },
            },
    {
        let mut records: Vec<WalRecord> = Vec::new();
        let mut at: usize = 0;
        let ghost all = log_entries(bytes@);
        let ghost seen = |w: WalRecord| w@;
        assert(bytes@.skip(0) =~= bytes@);
        proof {
            lemma_prepend_all(records@.map_values(seen), all);
        }
        loop
            invariant
                at <= bytes@.len(),
                seen == (|w: WalRecord| w@),
                all == log_entries(bytes@),
                all == prepend_all(records@.map_values(seen), log_entries(bytes@.skip(at as int))),
                valid_len(bytes@) == at + valid_len(bytes@.skip(at as int)),
            ensures
                at <= bytes@.len(),
                all == Ok::<_, u8>(records@.map_values(seen)),
                valid_len(bytes@) == at,
            decreases bytes@.len() - at,
        {
            let ghost s = bytes@.skip(at as int);
            proof {
                if first_record(s) is None {
                    assert(records@.map_values(seen) + Seq::empty() =~= records@.map_values(seen));
                }
            }
            if at >= bytes.len() {
                break ;
            }
            assert(s.skip(1) =~= bytes@.skip(at + 1));
            let kind: u8 = bytes[at];
            let (key_start, key_end): (usize, usize) = match find_framed(bytes, at + 1) {
                Some(range) => range,
                None => break ,
            };
            let (value_start, value_end): (usize, usize) = match find_framed(bytes, key_end) {
                Some(range) => range,
                None => break ,
            };
            let ghost rest = log_entries(bytes@.skip(value_end as int));
            let key: Vec<u8> = copy_range(bytes, key_start, key_end);
            let ghost before_step = records@;
            if kind == RECORD_PUT {
                let value: Vec<u8> = copy_range(bytes, value_start, value_end);
                records.push(WalRecord::Put { key, value });
            } else if kind == RECORD_DELETE {
                records.push(WalRecord::Delete { key });
            } else {
                let mut message: String = "unknown WAL record type: ".to_owned();
                let code: String = hex(kind as u32);
                message.append(code.as_str());
                return Err(Error::Corruption(message));
            }
            proof {
                let e = records@.last()@;
                assert(log_entries(s) == prepend(e, rest));
                let (shorter, longer) = (before_step.map_values(seen), records@.map_values(seen));
                assert(longer =~= shorter.push(e));
                if let Ok(entries) = rest {
                    assert(shorter + (seq![e] + entries) =~= longer + entries);
                }
            }
            at = value_end;
        }
        Ok(Recovered { records, valid_len: at })
    }
}

/// Records in front of the records that follow, if those are known.
spec fn prepend_all(
    entries: Seq<LogEntry>,
    rest: core::result::Result<Seq<LogEntry>, u8>,
) -> core::result::Result<Seq<LogEntry>, u8> {
    match rest {
        Ok(more) => Ok(entries + more),
        Err(kind) => Err(kind),
    }
}

/// Putting nothing in front changes nothing.
proof fn lemma_prepend_all(
    entries: Seq<LogEntry>,
    rest: core::result::Result<Seq<LogEntry>, u8>,
)
    requires
        entries.len() == 0,
    ensures
        prepend_all(entries, rest) == rest,
{
    if let Ok(more) = rest {
        assert(entries + more =~= more);
    }
}

/// The lengths in a record are in the range that the format can store.
pub open spec fn is_storable(e: LogEntry) -> bool {
    match e {
        LogEntry::Put(key, value) => key.len() < 0x1_0000_0000 && value.len() < 0x1_0000_0000,
        LogEntry::Delete(key) => key.len() < 0x1_0000_0000,
    }
}

/// Reading a log gives back the records that were written to it, followed by
/// the records of whatever comes after them.
#[verifier::spinoff_prover]
pub proof fn law_log_roundtrip(entries: Seq<LogEntry>, rest: Seq<u8>)
    requires
        forall|i: int| 0 <= i < entries.len() ==> is_storable(#[trigger] entries[i]),
    ensures
        log_entries(log_bytes(entries) + rest) == match log_entries(rest) {
            Ok(more) => Ok::<_, u8>(entries + more),
            Err(kind) => Err(kind),
        },
    decreases entries.len(),
{
    if entries.len() == 0 {
        assert(log_bytes(entries) + rest =~= rest);
        if let Ok(more) = log_entries(rest) {
            assert(entries + more =~= more);
        }
    } else {
        let e = entries[0];
        let tail = entries.drop_first();
        let after = log_bytes(tail) + rest;
        assert forall|i: int| 0 <= i < tail.len() implies is_storable(#[trigger] tail[i]) by {
            assert(tail[i] == entries[i + 1]);
        }
        law_log_roundtrip(tail, rest);
        lemma_first_record(e, after);
        let all = log_bytes(entries) + rest;
        assert(all =~= entry_bytes(e) + after);
        assert(log_entries(all) == prepend(e, log_entries(after)));
        if let Ok(more) = log_entries(rest) {
            assert(seq![e] + (tail + more) =~= entries + more);
        }
    }
}

/// The first record of a log that starts with the bytes of a record.
proof fn lemma_first_record(e: LogEntry, rest: Seq<u8>)
    requires
        is_storable(e),
    ensures
        match e {
            LogEntry::Put(key, value) => first_record(entry_bytes(e) + rest) == Some(
                (RECORD_PUT, key, value, rest),
            ),
            LogEntry::Delete(key) => first_record(entry_bytes(e) + rest) == Some(
                (RECORD_DELETE, key, Seq::<u8>::empty(), rest),
            ),
        },
        rest.len() < (entry_bytes(e) + rest).len(),
{
    let (key, value) = match e {
        LogEntry::Put(key, value) => (key, value),
        LogEntry::Delete(key) => (key, Seq::empty()),
    };
    let all = entry_bytes(e) + rest;
    lemma_unframe(key, framed(value) + rest);
    lemma_unframe(value, rest);
    assert(all.skip(1) =~= framed(key) + (framed(value) + rest));
}

/// An incomplete record at the end of a log, cut off at any point, is skipped.
pub proof fn law_incomplete_record_is_skipped(entries: Seq<LogEntry>, last: LogEntry, n: int)
    requires
        forall|i: int| 0 <= i < entries.len() ==> is_storable(#[trigger] entries[i]),
        is_storable(last),
        0 <= n < entry_bytes(last).len(),
    ensures
        log_entries(log_bytes(entries) + entry_bytes(last).take(n)) == Ok::<_, u8>(entries),
{
    let cut = entry_bytes(last).take(n);
    law_log_roundtrip(entries, cut);
    let (key, value) = match last {
        LogEntry::Put(key, value) => (key, value),
        LogEntry::Delete(key) => (key, Seq::empty()),
    };
    if n > 0 {
        let k = framed(key).len() as int;
        lemma_unframe(key, framed(value).take(0));
        if n - 1 < k {
            assert(cut.skip(1) =~= framed(key).take(n - 1));
            lemma_unframe_short(key, n - 1);
        } else {
            let m = n - 1 - k;
            assert(cut.skip(1) =~= framed(key) + framed(value).take(m));
            lemma_unframe(key, framed(value).take(m));
            lemma_unframe_short(value, m);
        }
    }
    assert(first_record(cut) is None);
    assert(entries + Seq::empty() =~= entries);
}

/// The first byte string does not depend on what follows it.
proof fn lemma_unframe_prefix(s: Seq<u8>, first: Seq<u8>, rest: Seq<u8>, more: Seq<u8>)
    requires
        unframe(s) == Some((first, rest)),
    ensures
        unframe(s.take(s.len() - rest.len()) + more) == Some((first, more)),
        rest == s.skip(s.len() - rest.len()),
{
    let n = s.len() - rest.len();
    let t = s.take(n) + more;
    assert(t.take(4) =~= s.take(4));
    assert(t.subrange(4, n) =~= s.subrange(4, n));
    assert(t.skip(n) =~= more);
}

/// The first record does not depend on what follows it.
proof fn lemma_record_prefix(s: Seq<u8>, more: Seq<u8>)
    requires
        first_record(s) is Some,
    ensures
        ({
            let (kind, key, value, rest) = first_record(s)->0;
            &&& first_record(s.take(s.len() - rest.len()) + more) == Some((kind, key, value, more))
            &&& rest == s.skip(s.len() - rest.len())
        }),
{
    let (kind, key, value, rest) = first_record(s)->0;
    let (_, after_key) = unframe(s.skip(1))->0;
    let n = s.len() - rest.len();
    let t = s.take(n) + more;
    let k = s.skip(1).len() - after_key.len();
    let v = after_key.len() - rest.len();
    lemma_unframe_prefix(s.skip(1), key, after_key, after_key.take(v) + more);
    lemma_unframe_prefix(after_key, value, rest, more);
    assert(t.skip(1) =~= s.skip(1).take(k) + (after_key.take(v) + more));
    assert(rest =~= s.skip(n));
}

/// New records that are written behind the complete records of a log are
/// replayed after them, whatever incomplete record was cut off there.
pub proof fn law_records_follow_the_valid_prefix(s: Seq<u8>, more: Seq<u8>)
    requires
        log_entries(s) is Ok,
    ensures
        valid_len(s) <= s.len(),
        log_entries(s.take(valid_len(s) as int) + more) == match log_entries(more) {
            Ok(entries) => Ok::<_, u8>(log_entries(s)->Ok_0 + entries),
            Err(kind) => Err(kind),
        },
    decreases s.len(),
{
    lemma_record_shrinks(s);
    match first_record(s) {
        None => {
            assert(s.take(0) + more =~= more);
            if let Ok(entries) = log_entries(more) {
                assert(Seq::<LogEntry>::empty() + entries =~= entries);
            }
        },
        Some((kind, key, value, rest)) => {
            let n = s.len() - rest.len();
            let v = valid_len(rest) as int;
            law_records_follow_the_valid_prefix(rest, more);
            lemma_record_prefix(s, rest.take(v) + more);
            let t = s.take(valid_len(s) as int) + more;
            assert(t =~= s.take(n) + (rest.take(v) + more)) by {
                assert(rest == s.skip(n));
            }
            lemma_record_shrinks(t);
            let e = if kind == RECORD_PUT {
                LogEntry::Put(key, value)
            } else {
                LogEntry::Delete(key)
            };
            assert(log_entries(t) == prepend(e, log_entries(rest.take(v) + more)));
            if let Ok(entries) = log_entries(more) {
                let first = log_entries(rest)->Ok_0;
                assert(seq![e] + (first + entries) =~= (seq![e] + first) + entries);
            }
        },
    }
}

} // verus!
