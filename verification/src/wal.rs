//! Write-ahead log with CRC-32-framed binary records.
//!
//! On-disk record layout (all integers little-endian):
//!
//! ```text
//! +-------------+-------------+--------+------------------+
//! | total_len:4 | crc32:4     | op:1   | body: total_len-1|
//! +-------------+-------------+--------+------------------+
//! ```
//!
//! `total_len` covers `op` and `body`; `crc32` is computed over the same bytes.
//!
//! The log is append-only. Recovery reads records in order and stops at the
//! first one that is cut short, fails its checksum or does not decode. That is
//! the shape of a write torn by a crash, so it is not an error: everything
//! before the tear is returned.

use crate::checksum;
use crate::codec;
use crate::record;
use crate::record::Record;
use crate::replay;
use crate::replay::Replay;
use vstd::prelude::*;

pub use crate::record::WalRecord;

verus! {

/// The stored form of a payload under a given checksum.
pub open spec fn framed(payload: Seq<u8>, crc: u32) -> Seq<u8> {
    codec::le_bytes(payload.len(), 4) + codec::le_bytes(crc as nat, 4) + payload
}

/// The stored form of a record.
pub open spec fn frame(record: Record) -> Seq<u8> {
    framed(record.payload(), checksum::crc32_of(record.payload()))
}

/// The stored form of several records, one behind the other.
pub open spec fn frames(records: Seq<Record>) -> Seq<u8>
    decreases records.len(),
{
    if records.len() == 0 {
        Seq::empty()
    } else {
        frame(records[0]) + frames(records.skip(1))
    }
}

/// Whether a record's stored length fits the four bytes that hold it.
pub open spec fn frameable(record: Record) -> bool {
    record.payload().len() <= u32::MAX
}

/// The record that a payload holds, if its checksum is the expected one and it
/// decodes.
pub open spec fn accepted(payload: Seq<u8>, expected_crc: u32, actual_crc: u32) -> Option<Record> {
    if actual_crc != expected_crc || payload.len() == 0 {
        None
    } else {
        match record::parse_body(payload[0], payload.skip(1)) {
            Ok(record) => Some(record),
            Err(_) => None,
        }
    }
}

/// The record at the front of a log and the length of its frame, if a whole and
/// intact one stands there.
pub open spec fn first_record(log: Seq<u8>) -> Option<(Record, nat)> {
    if log.len() < 8 {
        None
    } else {
        let total_len = codec::le_value(log.subrange(0, 4));
        let expected_crc = codec::le_value(log.subrange(4, 8)) as u32;
        if log.len() < 8 + total_len {
            None
        } else {
            let payload = log.subrange(8, 8 + total_len as int);
            match accepted(payload, expected_crc, checksum::crc32_of(payload)) {
                Some(record) => Some((record, 8 + total_len)),
                None => None,
            }
        }
    }
}

/// The records that recovery finds in a log, and the offset just past the last
/// of them.
pub open spec fn replayed(log: Seq<u8>) -> (Seq<Record>, nat)
    decreases log.len(),
{
    match first_record(log) {
        Some((record, n)) => {
            let rest = replayed(log.skip(n as int));
            (seq![record] + rest.0, n + rest.1)
        },
        None => (Seq::empty(), 0),
    }
}

/// The records of a vector, as sequences.
pub open spec fn contents(records: Seq<WalRecord>) -> Seq<Record> {
    records.map_values(|r: WalRecord| r@)
}

/// One thing that the owner of the log file does on the log's behalf.
///
/// The file is open for appending, behind a buffer.
#[derive(Debug, PartialEq, Eq)]
pub enum WalAction {
    /// Hand these bytes to the buffer.
    Write(Vec<u8>),
    /// Empty the buffer into the file.
    Flush,
    /// Wait until the file's data is on the device.
    SyncData,
    /// Cut the file off at its start.
    Clear,
    /// Replace the file handle and its buffer, which is empty, by fresh ones.
    Reopen,
}

/// What a [`WalAction`] says, with its bytes as a sequence.
pub enum Action {
    Write(Seq<u8>),
    Flush,
    SyncData,
    Clear,
    Reopen,
}

impl View for WalAction {
    type V = Action;

    open spec fn view(&self) -> Action {
        match *self {
            WalAction::Write(bytes) => Action::Write(bytes@),
            WalAction::Flush => Action::Flush,
            WalAction::SyncData => Action::SyncData,
            WalAction::Clear => Action::Clear,
            WalAction::Reopen => Action::Reopen,
        }
    }
}

/// The actions of a vector, as sequences.
pub open spec fn plan(actions: Seq<WalAction>) -> Seq<Action> {
    actions.map_values(|a: WalAction| a@)
}

/// Makes everything that was appended durable.
pub open spec fn flush_plan() -> Seq<Action> {
    seq![Action::Flush, Action::SyncData]
}

/// Stores a payload under a given checksum, durably if `sync` says so.
pub open spec fn append_plan(payload: Seq<u8>, crc: u32, sync: bool) -> Seq<Action> {
    let writes = seq![
        Action::Write(codec::le_bytes(payload.len(), 4)),
        Action::Write(codec::le_bytes(crc as nat, 4)),
        Action::Write(payload),
    ];
    if sync {
        writes + flush_plan()
    } else {
        writes
    }
}

/// Empties the log.
pub open spec fn truncate_plan() -> Seq<Action> {
    seq![Action::Flush, Action::Clear, Action::Reopen]
}

/// A log file as its owner sees it between actions.
#[verifier::ext_equal]
pub struct LogFile {
    /// What a reader would find once the buffer is empty.
    pub content: Seq<u8>,
    /// What the file is known to hold: the content at the last flush.
    pub flushed: Seq<u8>,
    /// What is sure to survive a crash: the file at the last sync, or nothing if
    /// it was cut off since.
    pub durable: Seq<u8>,
}

impl LogFile {
    /// Appending never takes back what the file holds.
    pub open spec fn well_formed(self) -> bool {
        self.flushed.is_prefix_of(self.content)
    }

    /// The log file after one action that succeeded.
    pub open spec fn after(self, action: Action) -> LogFile {
        match action {
            Action::Write(bytes) => LogFile { content: self.content + bytes, ..self },
            Action::Flush => LogFile { flushed: self.content, ..self },
            Action::SyncData => LogFile { durable: self.flushed, ..self },
            Action::Clear => LogFile {
                content: self.content.skip(self.flushed.len() as int),
                flushed: Seq::empty(),
                durable: Seq::empty(),
            },
            Action::Reopen => self,
        }
    }

    /// The log file after each of these records was appended.
    pub open spec fn after_appending(self, records: Seq<Record>, sync: bool) -> LogFile
        decreases records.len(),
    {
        if records.len() == 0 {
            self
        } else {
            let payload = records[0].payload();
            self.after_all(append_plan(payload, checksum::crc32_of(payload), sync)).after_appending(
                records.skip(1),
                sync,
            )
        }
    }

    /// The log file after several actions that all succeeded.
    pub open spec fn after_all(self, actions: Seq<Action>) -> LogFile
        decreases actions.len(),
    {
        if actions.len() == 0 {
            self
        } else {
            self.after(actions[0]).after_all(actions.skip(1))
        }
    }
}

/// The rules of the write-ahead log. The file itself belongs to the owner, who
/// carries out the actions that the methods return, in order, and gives up at
/// the first one that fails.
#[derive(Debug, Clone, Copy, PartialEq, Eq)]
pub struct WriteAheadLog {
    pub fsync_every_write: bool,
}

impl WriteAheadLog {
    /// A log that makes each record durable before it is acknowledged, or one
    /// that leaves that to [`WriteAheadLog::flush`].
    pub fn open(fsync_every_write: bool) -> (log: WriteAheadLog)
        ensures
            log.fsync_every_write == fsync_every_write,
    {
        WriteAheadLog { fsync_every_write }
    }

    /// Appends a record.
    ///
    /// Unless `fsync_every_write` is set, the record is only in the buffer when
    /// the actions are done, and not yet durable.
    pub fn append(&self, record: &WalRecord) -> (actions: Vec<WalAction>)
        requires
            record@.payload().len() <= isize::MAX,
        ensures
            plan(actions@) == append_plan(
                record@.payload(),
                checksum::crc32_of(record@.payload()),
                self.fsync_every_write,
            ),
    {
        let (op, body) = record.encode_body();
        let mut payload: Vec<u8> = Vec::with_capacity(1 + body.len());
        payload.push(op);
        payload.extend_from_slice(body.as_slice());
        assert(payload@ =~= record@.payload());
        let crc: u32 = crc32fast::hash(payload.as_slice());
        self.append_checked(payload, crc)
    }

    /// Appends a payload whose checksum is `crc`.
    pub fn append_checked(&self, payload: Vec<u8>, crc: u32) -> (actions: Vec<WalAction>)
        ensures
            plan(actions@) == append_plan(payload@, crc, self.fsync_every_write),
    {
        let mut len_bytes: Vec<u8> = Vec::with_capacity(4);
        codec::push_le(&mut len_bytes, payload.len() as u64, 4);
        let mut crc_bytes: Vec<u8> = Vec::with_capacity(4);
        codec::push_le(&mut crc_bytes, crc as u64, 4);
        assert(len_bytes@ =~= codec::le_bytes(payload@.len(), 4));
        assert(crc_bytes@ =~= codec::le_bytes(crc as nat, 4));
        let mut actions: Vec<WalAction> = Vec::with_capacity(5);
        actions.push(WalAction::Write(len_bytes));
        actions.push(WalAction::Write(crc_bytes));
        actions.push(WalAction::Write(payload));
        if self.fsync_every_write {
            let mut sync = self.flush();
            actions.append(&mut sync);
        }
        assert(plan(actions@) =~= append_plan(payload@, crc, self.fsync_every_write));
        actions
    }

    /// Makes everything that was appended durable.
    pub fn flush(&self) -> (actions: Vec<WalAction>)
        ensures
            plan(actions@) == flush_plan(),
    {
        let mut actions: Vec<WalAction> = Vec::with_capacity(2);
        actions.push(WalAction::Flush);
        actions.push(WalAction::SyncData);
        assert(plan(actions@) =~= flush_plan());
        actions
    }

    /// Empties the log. Used once its records are durable elsewhere.
    pub fn truncate(&self) -> (actions: Vec<WalAction>)
        ensures
            plan(actions@) == truncate_plan(),
    {
        let mut actions: Vec<WalAction> = Vec::with_capacity(3);
        actions.push(WalAction::Flush);
        actions.push(WalAction::Clear);
        actions.push(WalAction::Reopen);
        assert(plan(actions@) =~= truncate_plan());
        actions
    }

    /// Reads every valid record of a log in order, and stops at the first one
    /// that is truncated or fails its checksum. Returns the records and the
    /// offset just past the last of them, where a torn tail can be cut off.
    pub fn replay(log: &[u8]) -> (r: (Vec<WalRecord>, u64))
        ensures
            (contents(r.0@), r.1 as nat) == replayed(log@),
    {
        let mut replay = Replay::new();
        let mut at: usize = 0;
        proof {
            replay::law_replay_starts_with_whole_log(log@);
            assert(log@.skip(0) =~= log@);
        }
        loop
            invariant
                at <= log.len(),
                replay@.outcome(log@.skip(at as int)) == replayed(log@),
                replay@.position() == Some(at as nat) || replay@.position() is None,
            ensures
                replay.stage is Stopped,
                replay@.outcome(log@.skip(at as int)) == replayed(log@),
            decreases log.len() - at, (if replay.stage is Stopped { 0int } else { 1int }),
        {
            let n: usize = match replay.wanted() {
                Some(n) => n,
                None => break,
            };
            if log.len() - at < n {
                proof {
                    replay::law_stopping_at_the_end_keeps_outcome(replay@, log@.skip(at as int));
                }
                replay.stop();
            } else {
                let chunk = vstd::slice::slice_subrange(log, at, at + n);
                let ghost before = replay@;
                proof {
                    let rest = log@.skip(at + n);
                    assert(log@.skip(at as int) =~= chunk@ + rest);
                    replay::law_reading_on_keeps_outcome(before, chunk@, rest);
                    replay::lemma_position(before, chunk@, checksum::crc32_of(chunk@));
                }
                replay.supply(chunk);
                at = at + n;
            }
        }
        replay.finish()
    }
}

/// What stands at the front of a log depends only on the bytes of that frame.
proof fn lemma_first_record_ignores_rest(log: Seq<u8>, more: Seq<u8>)
    requires
        first_record(log) is Some,
    ensures
        first_record(log) matches Some((record, n)) && first_record(
            log.take(n as int) + more,
        ) == Some((record, n)),
{
    let (_, len) = first_record(log).unwrap();
    let n = len as int;
    let other = log.take(n) + more;
    assert(other.subrange(0, 4) =~= log.subrange(0, 4));
    assert(other.subrange(4, 8) =~= log.subrange(4, 8));
    assert(other.subrange(8, n) =~= log.subrange(8, n));
}

/// A stored record is found at the front of a log, whatever follows it.
proof fn lemma_first_record_of_frame(record: Record, more: Seq<u8>)
    requires
        frameable(record),
    ensures
        first_record(frame(record) + more) == Some((record, frame(record).len())),
{
    let payload = record.payload();
    let crc = checksum::crc32_of(payload);
    let log = frame(record) + more;
    codec::lemma_capacities();
    codec::lemma_le_bytes_len(payload.len(), 4);
    codec::lemma_le_bytes_len(crc as nat, 4);
    codec::lemma_le_value_of_bytes(payload.len(), 4);
    codec::lemma_le_value_of_bytes(crc as nat, 4);
    assert(log.subrange(0, 4) =~= codec::le_bytes(payload.len(), 4));
    assert(log.subrange(4, 8) =~= codec::le_bytes(crc as nat, 4));
    assert(log.subrange(8, 8 + payload.len() as int) =~= payload);
    assert(payload.skip(1) =~= record.body() + Seq::<u8>::empty());
    record.lemma_body_len();
    record::law_decode_inverts_encode(record, Seq::empty());
}

/// A frame that was only partly written holds no record.
proof fn lemma_first_record_of_torn_frame(record: Record, n: nat)
    requires
        frameable(record),
        n < frame(record).len(),
    ensures
        first_record(frame(record).take(n as int)) is None,
{
    let payload = record.payload();
    let torn = frame(record).take(n as int);
    codec::lemma_capacities();
    codec::lemma_le_bytes_len(payload.len(), 4);
    codec::lemma_le_bytes_len(checksum::crc32_of(payload) as nat, 4);
    codec::lemma_le_value_of_bytes(payload.len(), 4);
    if n >= 8 {
        assert(torn.subrange(0, 4) =~= codec::le_bytes(payload.len(), 4));
    }
}

/// Replay gives back every record that was appended, in order, and then goes on
/// with whatever follows them in the log.
#[verifier::spinoff_prover]
pub proof fn law_replay_returns_appended_records(records: Seq<Record>, tail: Seq<u8>)
    requires
        forall|i: int| 0 <= i < records.len() ==> frameable(#[trigger] records[i]),
    ensures
        replayed(frames(records) + tail) == (
            records + replayed(tail).0,
            frames(records).len() + replayed(tail).1,
        ),
    decreases records.len(),
{
    if records.len() == 0 {
        assert(frames(records) + tail =~= tail);
        assert(records + replayed(tail).0 =~= replayed(tail).0);
    } else {
        let rest = records.skip(1);
        let log = frames(records) + tail;
        let behind = frames(rest) + tail;
        let n = frame(records[0]).len();
        assert(log =~= frame(records[0]) + behind);
        assert(first_record(log) == Some((records[0], n))) by {
            lemma_first_record_of_frame(records[0], behind);
        }
        assert(log.skip(n as int) =~= behind);
        assert forall|i: int| 0 <= i < rest.len() implies frameable(#[trigger] rest[i]) by {
            assert(rest[i] == records[i + 1]);
        }
        law_replay_returns_appended_records(rest, tail);
        assert(replayed(log) == (seq![records[0]] + replayed(behind).0, n + replayed(behind).1));
        assert(seq![records[0]] + (rest + replayed(tail).0) =~= records + replayed(tail).0);
    }
}

/// A log that was written completely replays to exactly its records, and the
/// valid offset is its length.
pub proof fn law_replay_inverts_append(records: Seq<Record>)
    requires
        forall|i: int| 0 <= i < records.len() ==> frameable(#[trigger] records[i]),
    ensures
        replayed(frames(records)) == (records, frames(records).len()),
{
    law_replay_returns_appended_records(records, Seq::empty());
    assert(frames(records) + Seq::<u8>::empty() =~= frames(records));
    assert(records + Seq::<Record>::empty() =~= records);
}

/// Replay stops at the first place where no intact record stands, and returns
/// all records before it.
pub proof fn law_replay_stops_at_damage(records: Seq<Record>, damaged: Seq<u8>)
    requires
        forall|i: int| 0 <= i < records.len() ==> frameable(#[trigger] records[i]),
        first_record(damaged) is None,
    ensures
        replayed(frames(records) + damaged) == (records, frames(records).len()),
{
    law_replay_returns_appended_records(records, damaged);
    assert(records + Seq::<Record>::empty() =~= records);
}

/// A crash in the middle of an append loses that record and no other: whatever
/// part of the frame reached the log, replay returns the records before it.
pub proof fn law_torn_append_loses_only_itself(records: Seq<Record>, torn: Record, n: nat)
    requires
        forall|i: int| 0 <= i < records.len() ==> frameable(#[trigger] records[i]),
        frameable(torn),
        n < frame(torn).len(),
    ensures
        replayed(frames(records) + frame(torn).take(n as int)) == (
            records,
            frames(records).len(),
        ),
{
    lemma_first_record_of_torn_frame(torn, n);
    law_replay_stops_at_damage(records, frame(torn).take(n as int));
}

/// The valid offset lies inside the log. Cutting the log off there keeps all
/// replayed records, and what is appended behind the cut is replayed after them.
#[verifier::spinoff_prover]
pub proof fn law_resume_at_valid_offset(log: Seq<u8>, more: Seq<u8>)
    ensures
        replayed(log).1 <= log.len(),
        replayed(log.take(replayed(log).1 as int) + more) == (
            replayed(log).0 + replayed(more).0,
            replayed(log).1 + replayed(more).1,
        ),
    decreases log.len(),
{
    match first_record(log) {
        Some((record, n)) => {
            let rest = log.skip(n as int);
            law_resume_at_valid_offset(rest, more);
            let m = replayed(rest).1 as int;
            let cut = log.take(n + m) + more;
            assert(cut =~= log.take(n as int) + (rest.take(m) + more));
            lemma_first_record_ignores_rest(log, rest.take(m) + more);
            assert(cut.skip(n as int) =~= rest.take(m) + more);
            assert(seq![record] + (replayed(rest).0 + replayed(more).0) =~= replayed(log).0
                + replayed(more).0);
        },
        None => {
            assert(log.take(0) + more =~= more);
            assert(Seq::<Record>::empty() + replayed(more).0 =~= replayed(more).0);
        },
    }
}

proof fn lemma_after_writes_and_flush(log: LogFile, payload: Seq<u8>, crc: u32, sync: bool)
    ensures
        log.after_all(append_plan(payload, crc, sync)) == (LogFile {
            content: log.content + framed(payload, crc),
            flushed: if sync { log.content + framed(payload, crc) } else { log.flushed },
            durable: if sync { log.content + framed(payload, crc) } else { log.durable },
        }),
{
    let actions = append_plan(payload, crc, sync);
    reveal_with_fuel(LogFile::after_all, 6);
    assert(log.content + codec::le_bytes(payload.len(), 4) + codec::le_bytes(crc as nat, 4)
        + payload =~= log.content + framed(payload, crc));
    assert(actions[0] == Action::Write(codec::le_bytes(payload.len(), 4)));
    assert(actions.skip(1)[0] == Action::Write(codec::le_bytes(crc as nat, 4)));
    assert(actions.skip(1).skip(1)[0] == Action::Write(payload));
    if sync {
        assert(actions.skip(1).skip(1).skip(1)[0] == Action::Flush);
        assert(actions.skip(1).skip(1).skip(1).skip(1)[0] == Action::SyncData);
    }
}

/// Appending puts the record's frame behind what the log holds. If every write
/// is synced, the whole log is durable once the append is done; otherwise what
/// is durable does not change.
pub proof fn law_append_extends_log(log: LogFile, record: Record, sync: bool)
    requires
        log.well_formed(),
    ensures
        ({
            let after = log.after_all(
                append_plan(record.payload(), checksum::crc32_of(record.payload()), sync),
            );
            &&& after.well_formed()
            &&& after.content == log.content + frame(record)
            &&& after.durable == if sync { after.content } else { log.durable }
        }),
{
    let payload = record.payload();
    lemma_after_writes_and_flush(log, payload, checksum::crc32_of(payload), sync);
}

/// Flushing makes the whole log durable and changes nothing in it.
pub proof fn law_flush_makes_log_durable(log: LogFile)
    ensures
        log.after_all(flush_plan()) == (LogFile {
            content: log.content,
            flushed: log.content,
            durable: log.content,
        }),
{
    reveal_with_fuel(LogFile::after_all, 3);
}

/// Truncating leaves an empty log.
pub proof fn law_truncate_empties_log(log: LogFile)
    ensures
        log.after_all(truncate_plan()).well_formed(),
        log.after_all(truncate_plan()).content == Seq::<u8>::empty(),
{
    reveal_with_fuel(LogFile::after_all, 4);
    assert(log.content.skip(log.content.len() as int) =~= Seq::<u8>::empty());
}

/// One record that was appended to a log without a torn tail is replayed behind
/// what the log held before.
#[verifier::spinoff_prover]
proof fn lemma_log_replays_one_more(log: LogFile, record: Record, sync: bool)
    requires
        log.well_formed(),
        replayed(log.content).1 == log.content.len(),
        frameable(record),
    ensures
        ({
            let next = log.after_all(
                append_plan(record.payload(), checksum::crc32_of(record.payload()), sync),
            );
            &&& next.well_formed()
            &&& replayed(next.content) == (
                replayed(log.content).0.push(record),
                next.content.len(),
            )
            &&& sync ==> next.durable == next.content
        }),
{
    law_append_extends_log(log, record, sync);
    law_resume_at_valid_offset(log.content, frame(record));
    assert(log.content.take(log.content.len() as int) =~= log.content);
    assert(replayed(frame(record)) == (seq![record], frame(record).len())) by {
        law_replay_inverts_append(seq![record]);
        assert(seq![record].skip(1) =~= Seq::<Record>::empty());
        reveal_with_fuel(frames, 2);
        assert(frames(seq![record]) =~= frame(record));
    }
    assert(replayed(log.content).0 + seq![record] =~= replayed(log.content).0.push(record));
}

/// What was appended to a log without a torn tail is replayed behind what the
/// log held before. With every write synced, all of it survives a crash.
#[verifier::spinoff_prover]
pub proof fn law_log_replays_what_was_appended(log: LogFile, records: Seq<Record>, sync: bool)
    requires
        log.well_formed(),
        replayed(log.content).1 == log.content.len(),
        forall|i: int| 0 <= i < records.len() ==> frameable(#[trigger] records[i]),
    ensures
        ({
            let after = log.after_appending(records, sync);
            &&& after.well_formed()
            &&& replayed(after.content) == (
                replayed(log.content).0 + records,
                after.content.len(),
            )
            &&& sync && records.len() > 0 ==> after.durable == after.content
        }),
    decreases records.len(),
{
    if records.len() == 0 {
        assert(replayed(log.content).0 + records =~= replayed(log.content).0);
    } else {
        let first = records[0];
        let next = log.after_all(
            append_plan(first.payload(), checksum::crc32_of(first.payload()), sync),
        );
        lemma_log_replays_one_more(log, first, sync);
        assert forall|i: int| 0 <= i < records.skip(1).len() implies frameable(
            #[trigger] records.skip(1)[i],
        ) by {
            assert(records.skip(1)[i] == records[i + 1]);
        }
        law_log_replays_what_was_appended(next, records.skip(1), sync);
        assert(replayed(log.content).0.push(first) + records.skip(1) =~= replayed(log.content).0
            + records);
        if records.len() == 1 {
            assert(next.after_appending(records.skip(1), sync) == next);
        }
    }
}

/// What a stored record looks like: the length of the payload, the checksum of the
/// payload, the payload.
pub proof fn law_frame_layout(record: Record)
    ensures
        frame(record) == codec::le_bytes(record.payload().len(), 4) + codec::le_bytes(
            checksum::crc32_of(record.payload()) as nat,
            4,
        ) + record.payload(),
        frame(record).len() == 8 + record.payload().len(),
{
    codec::lemma_le_bytes_len(record.payload().len(), 4);
    codec::lemma_le_bytes_len(checksum::crc32_of(record.payload()) as nat, 4);
}

/// A log without records is empty, and each further record stands behind the
/// others.
pub proof fn law_frames_follow_each_other(records: Seq<Record>, record: Record)
    ensures
        frames(Seq::<Record>::empty()) == Seq::<u8>::empty(),
        frames(records.push(record)) == frames(records) + frame(record),
    decreases records.len(),
{
    let all = records.push(record);
    if records.len() == 0 {
        assert(all.skip(1) =~= Seq::<Record>::empty());
        assert(records =~= Seq::<Record>::empty());
        assert(frame(record) + Seq::<u8>::empty() =~= Seq::<u8>::empty() + frame(record));
    } else {
        law_frames_follow_each_other(records.skip(1), record);
        assert(all.skip(1) =~= records.skip(1).push(record));
        assert(frames(all) =~= frames(records) + frame(record));
    }
}

/// A record can be framed exactly if four bytes can hold the length of its
/// payload.
pub proof fn law_records_that_can_be_framed(record: Record)
    ensures
        frameable(record) <==> record.payload().len() <= 0xffff_ffff,
        frameable(record) <==> match record {
            Record::Put { key, value, .. } => 17 + key.len() + value.len() <= 0xffff_ffff,
            Record::Delete { key, .. } => 13 + key.len() <= 0xffff_ffff,
        },
{
    match record {
        Record::Put { seq, key, value } => {
            record::law_put_layout(seq, key, value);
        },
        Record::Delete { seq, key } => {
            record::law_delete_layout(seq, key);
        },
    }
}

/// What follows intact records changes nothing about them: replay returns them and
/// stops where `rest` yields nothing.
proof fn lemma_replay_stops_behind(records: Seq<Record>, rest: Seq<u8>)
    requires
        forall|i: int|
            0 <= i < records.len() ==> (#[trigger] records[i]).payload().len() <= 0xffff_ffff,
        replayed(rest) == (Seq::<Record>::empty(), 0nat),
    ensures
        replayed(frames(records) + rest) == (records, frames(records).len()),
{
    assert forall|i: int| 0 <= i < records.len() implies frameable(#[trigger] records[i]) by {
        law_records_that_can_be_framed(records[i]);
    }
    law_replay_returns_appended_records(records, rest);
    assert(records + Seq::<Record>::empty() =~= records);
}

/// A payload of any length whose checksum is not the stored one is refused: replay
/// stops there, with everything before it and nothing of it or behind it.
pub proof fn law_wrong_checksum_is_refused(records: Seq<Record>, log: Seq<u8>)
    requires
        log.len() >= 8,
        log.len() >= 8 + codec::le_value(log.subrange(0, 4)),
        codec::le_value(log.subrange(4, 8)) != checksum::crc32_of(
            log.subrange(8, 8 + codec::le_value(log.subrange(0, 4)) as int),
        ),
        forall|i: int|
            0 <= i < records.len() ==> (#[trigger] records[i]).payload().len() <= 0xffff_ffff,
    ensures
        replayed(log) == (Seq::<Record>::empty(), 0nat),
        replayed(frames(records) + log) == (records, frames(records).len()),
{
    codec::lemma_capacities();
    codec::lemma_le_value_bound(log.subrange(4, 8));
    lemma_replay_stops_behind(records, log);
}

/// A frame that the log is too short for is refused: replay stops there.
pub proof fn law_cut_frame_is_refused(records: Seq<Record>, log: Seq<u8>)
    requires
        log.len() < 8 || log.len() < 8 + codec::le_value(log.subrange(0, 4)),
        forall|i: int|
            0 <= i < records.len() ==> (#[trigger] records[i]).payload().len() <= 0xffff_ffff,
    ensures
        replayed(log) == (Seq::<Record>::empty(), 0nat),
        replayed(frames(records) + log) == (records, frames(records).len()),
{
    lemma_replay_stops_behind(records, log);
}

/// A frame without a payload, or with one that does not decode, is refused, though
/// its checksum be right: replay stops there.
pub proof fn law_undecodable_frame_is_refused(records: Seq<Record>, log: Seq<u8>)
    requires
        log.len() >= 8,
        log.len() >= 8 + codec::le_value(log.subrange(0, 4)),
        codec::le_value(log.subrange(0, 4)) > 0 ==> record::parse_body(
            log[8],
            log.subrange(9, 8 + codec::le_value(log.subrange(0, 4)) as int),
        ) is Err,
        forall|i: int|
            0 <= i < records.len() ==> (#[trigger] records[i]).payload().len() <= 0xffff_ffff,
    ensures
        replayed(log) == (Seq::<Record>::empty(), 0nat),
        replayed(frames(records) + log) == (records, frames(records).len()),
{
    let n = codec::le_value(log.subrange(0, 4)) as int;
    let payload = log.subrange(8, 8 + n);
    if n > 0 {
        assert(payload.skip(1) =~= log.subrange(9, 8 + n));
    }
    lemma_replay_stops_behind(records, log);
}

/// A whole frame whose payload decodes and has the stored checksum is accepted:
/// replay returns its record first and goes on just behind it.
pub proof fn law_intact_frame_is_accepted(log: Seq<u8>, record: Record)
    requires
        log.len() >= 8,
        codec::le_value(log.subrange(0, 4)) > 0,
        log.len() >= 8 + codec::le_value(log.subrange(0, 4)),
        codec::le_value(log.subrange(4, 8)) == checksum::crc32_of(
            log.subrange(8, 8 + codec::le_value(log.subrange(0, 4)) as int),
        ),
        record::parse_body(
            log[8],
            log.subrange(9, 8 + codec::le_value(log.subrange(0, 4)) as int),
        ) == Ok::<Record, Seq<char>>(record),
    ensures
        ({
            let end = 8 + codec::le_value(log.subrange(0, 4));
            let rest = replayed(log.skip(end as int));
            replayed(log) == (seq![record] + rest.0, end + rest.1)
        }),
{
    let n = codec::le_value(log.subrange(0, 4)) as int;
    codec::lemma_capacities();
    codec::lemma_le_value_bound(log.subrange(4, 8));
    assert(log.subrange(8, 8 + n).skip(1) =~= log.subrange(9, 8 + n));
}

/// A payload is accepted exactly if the two checksums agree and it decodes.
pub proof fn law_payload_is_accepted_under_its_checksum(
    payload: Seq<u8>,
    expected_crc: u32,
    actual_crc: u32,
)
    ensures
        accepted(payload, expected_crc, actual_crc) is Some ==> expected_crc == actual_crc
            && payload.len() > 0 && record::parse_body(
            payload[0],
            payload.subrange(1, payload.len() as int),
        ) == Ok::<Record, Seq<char>>(accepted(payload, expected_crc, actual_crc)->0),
        expected_crc == actual_crc && payload.len() > 0 && record::parse_body(
            payload[0],
            payload.subrange(1, payload.len() as int),
        ) is Ok ==> accepted(payload, expected_crc, actual_crc) is Some,
{
    if payload.len() > 0 {
        assert(payload.skip(1) =~= payload.subrange(1, payload.len() as int));
    }
}

/// The bytes that an append writes, in order, are the length of the payload, its
/// checksum and the payload; flushing and syncing follow exactly if every write
/// is synced.
pub proof fn law_append_writes_one_frame(payload: Seq<u8>, crc: u32, sync: bool)
    ensures
        append_plan(payload, crc, sync).len() == if sync {
            5nat
        } else {
            3nat
        },
        append_plan(payload, crc, sync)[0] == Action::Write(codec::le_bytes(payload.len(), 4)),
        append_plan(payload, crc, sync)[1] == Action::Write(codec::le_bytes(crc as nat, 4)),
        append_plan(payload, crc, sync)[2] == Action::Write(payload),
        sync ==> append_plan(payload, crc, sync)[3] is Flush,
        sync ==> append_plan(payload, crc, sync)[4] is SyncData,
{
}

/// Flushing empties the buffer and then syncs. Truncating empties the buffer, cuts
/// the file off and then takes a fresh handle.
pub proof fn law_flush_and_truncate_steps()
    ensures
        flush_plan().len() == 2,
        flush_plan()[0] is Flush,
        flush_plan()[1] is SyncData,
        truncate_plan().len() == 3,
        truncate_plan()[0] is Flush,
        truncate_plan()[1] is Clear,
        truncate_plan()[2] is Reopen,
{
}

/// Records and actions of a vector are taken over one by one, with all that they
/// hold.
pub proof fn law_sequences_lose_nothing(
    records: Seq<WalRecord>,
    actions: Seq<WalAction>,
    i: int,
    j: int,
)
    requires
        0 <= i < records.len(),
        0 <= j < actions.len(),
    ensures
        contents(records).len() == records.len(),
        contents(records)[i] == records[i]@,
        plan(actions).len() == actions.len(),
        actions[j] matches WalAction::Write(bytes) ==> plan(actions)[j] == Action::Write(bytes@),
        actions[j] is Flush <==> plan(actions)[j] is Flush,
        actions[j] is SyncData <==> plan(actions)[j] is SyncData,
        actions[j] is Clear <==> plan(actions)[j] is Clear,
        actions[j] is Reopen <==> plan(actions)[j] is Reopen,
{
}

/// What each action does to the log file.
pub proof fn law_actions_on_the_log_file(log: LogFile, bytes: Seq<u8>)
    ensures
        log.after(Action::Write(bytes)).content == log.content + bytes,
        log.after(Action::Write(bytes)).durable == log.durable,
        log.after(Action::Flush).content == log.content,
        log.after(Action::Flush).flushed == log.content,
        log.after(Action::SyncData).content == log.content,
        log.after(Action::SyncData).durable == log.flushed,
        log.content == log.flushed ==> log.after(Action::Clear).content.len() == 0,
        log.after(Action::Reopen) == log,
{
}

} // verus!
