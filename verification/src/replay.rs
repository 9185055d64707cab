//! Recovery of a log, one read at a time.
//!
//! A [`Replay`] says how many bytes it needs next. Its owner reads them and
//! hands them over, or reports that the log ended first. This goes on until the
//! replay needs nothing more.

use crate::checksum;
use crate::codec;
use crate::record;
use crate::record::{Record, WalRecord};
use crate::wal;
use vstd::prelude::*;

verus! {

/// The part of a record's frame that comes next.
#[derive(Debug, Clone, Copy, PartialEq, Eq)]
pub enum Stage {
    /// The four bytes of a frame's length, or the clean end of the log.
    Length,
    /// The four bytes of a frame's checksum.
    Checksum { total_len: u32 },
    /// The bytes that the length and the checksum speak of.
    Payload { total_len: u32, expected_crc: u32 },
    /// Nothing: the log ended or is torn here.
    Stopped,
}

#[derive(Debug)]
pub struct Replay {
    pub stage: Stage,
    pub records: Vec<WalRecord>,
    pub valid_offset: u64,
}

/// How far a replay has come: what it needs next, the records found so far and
/// the offset just past the last of them.
#[verifier::ext_equal]
pub struct Progress {
    pub stage: Stage,
    pub records: Seq<Record>,
    pub valid_offset: nat,
}

impl View for Replay {
    type V = Progress;

    open spec fn view(&self) -> Progress {
        Progress {
            stage: self.stage,
            records: wal::contents(self.records@),
            valid_offset: self.valid_offset as nat,
        }
    }
}

impl Progress {
    pub open spec fn start() -> Progress {
        Progress { stage: Stage::Length, records: Seq::empty(), valid_offset: 0 }
    }

    /// How many bytes are needed next, or `None` once the replay has stopped.
    pub open spec fn wanted(self) -> Option<nat> {
        match self.stage {
            Stage::Length => Some(4),
            Stage::Checksum { .. } => Some(4),
            Stage::Payload { total_len, .. } => Some(total_len as nat),
            Stage::Stopped => None,
        }
    }

    /// The bytes of the current frame that were read already.
    pub open spec fn pending(self) -> Seq<u8> {
        match self.stage {
            Stage::Length => Seq::empty(),
            Stage::Checksum { total_len } => codec::le_bytes(total_len as nat, 4),
            Stage::Payload { total_len, expected_crc } => codec::le_bytes(total_len as nat, 4)
                + codec::le_bytes(expected_crc as nat, 4),
            Stage::Stopped => Seq::empty(),
        }
    }

    /// Where the replay stands once it has got `chunk`, if `chunk` has the
    /// checksum `actual_crc`. The checksum matters for payloads only.
    pub open spec fn given(self, chunk: Seq<u8>, actual_crc: u32) -> Progress {
        match self.stage {
            Stage::Length => Progress {
                stage: Stage::Checksum { total_len: codec::le_value(chunk) as u32 },
                ..self
            },
            Stage::Checksum { total_len } => Progress {
                stage: Stage::Payload { total_len, expected_crc: codec::le_value(chunk) as u32 },
                ..self
            },
            Stage::Payload { total_len, expected_crc } => match wal::accepted(
                chunk,
                expected_crc,
                actual_crc,
            ) {
                Some(record) => Progress {
                    stage: Stage::Length,
                    records: self.records.push(record),
                    valid_offset: self.valid_offset + 8 + total_len as nat,
                },
                None => self.stopped(),
            },
            Stage::Stopped => self,
        }
    }

    /// The offset in the log of the bytes that are needed next.
    pub open spec fn position(self) -> Option<nat> {
        if self.stage is Stopped {
            None
        } else {
            Some(self.valid_offset + self.pending().len())
        }
    }

    pub open spec fn stopped(self) -> Progress {
        Progress { stage: Stage::Stopped, ..self }
    }

    /// What the replay comes to in the end, if `rest` is what is left to read.
    pub open spec fn outcome(self, rest: Seq<u8>) -> (Seq<Record>, nat) {
        if self.stage is Stopped {
            (self.records, self.valid_offset)
        } else {
            let found = wal::replayed(self.pending() + rest);
            (self.records + found.0, self.valid_offset + found.1)
        }
    }
}

/// A fresh replay comes to what the log holds.
pub proof fn law_replay_starts_with_whole_log(log: Seq<u8>)
    ensures
        Progress::start().outcome(log) == wal::replayed(log),
{
    assert(Seq::<u8>::empty() + log =~= log);
    assert(Seq::<Record>::empty() + wal::replayed(log).0 =~= wal::replayed(log).0);
}

/// Handing over the bytes that come next does not change what the replay comes
/// to.
pub proof fn law_reading_on_keeps_outcome(before: Progress, chunk: Seq<u8>, rest: Seq<u8>)
    requires
        before.wanted() == Some(chunk.len()),
    ensures
        before.given(chunk, checksum::crc32_of(chunk)).outcome(rest) == before.outcome(
            chunk + rest,
        ),
{
    let after = before.given(chunk, checksum::crc32_of(chunk));
    let log = before.pending() + (chunk + rest);
    codec::lemma_capacities();
    match before.stage {
        Stage::Length | Stage::Checksum { .. } => {
            codec::lemma_le_value_bound(chunk);
            codec::lemma_le_bytes_of_value(chunk);
            assert(after.pending() + rest =~= log);
        },
        Stage::Payload { total_len, expected_crc } => {
            codec::lemma_le_bytes_len(total_len as nat, 4);
            codec::lemma_le_bytes_len(expected_crc as nat, 4);
            codec::lemma_le_value_of_bytes(total_len as nat, 4);
            codec::lemma_le_value_of_bytes(expected_crc as nat, 4);
            assert(log.subrange(0, 4) =~= codec::le_bytes(total_len as nat, 4));
            assert(log.subrange(4, 8) =~= codec::le_bytes(expected_crc as nat, 4));
            assert(log.subrange(8, 8 + total_len as int) =~= chunk);
            assert(log.skip(8 + total_len as int) =~= rest);
            assert(Seq::<u8>::empty() + rest =~= rest);
            match wal::accepted(chunk, expected_crc, checksum::crc32_of(chunk)) {
                Some(record) => {
                    assert(before.records.push(record) + wal::replayed(rest).0 =~= before.records
                        + (seq![record] + wal::replayed(rest).0));
                },
                None => {
                    assert(before.records + Seq::<Record>::empty() =~= before.records);
                },
            }
        },
        Stage::Stopped => {},
    }
}

/// If fewer bytes are left than the replay needs, stopping does not change what
/// it comes to.
pub proof fn law_stopping_at_the_end_keeps_outcome(before: Progress, rest: Seq<u8>)
    requires
        before.wanted() matches Some(n) && rest.len() < n,
    ensures
        before.stopped().outcome(Seq::empty()) == before.outcome(rest),
{
    let log = before.pending() + rest;
    codec::lemma_capacities();
    match before.stage {
        Stage::Checksum { total_len } => {
            codec::lemma_le_bytes_len(total_len as nat, 4);
        },
        Stage::Payload { total_len, expected_crc } => {
            codec::lemma_le_bytes_len(total_len as nat, 4);
            codec::lemma_le_bytes_len(expected_crc as nat, 4);
            codec::lemma_le_value_of_bytes(total_len as nat, 4);
            assert(log.subrange(0, 4) =~= codec::le_bytes(total_len as nat, 4));
        },
        _ => {},
    }
    assert(wal::first_record(log) is None);
    assert(before.records + Seq::<Record>::empty() =~= before.records);
}

/// A replay that goes on stands just behind the bytes that it got.
pub proof fn lemma_position(before: Progress, chunk: Seq<u8>, actual_crc: u32)
    requires
        before.wanted() == Some(chunk.len()),
    ensures
        before.given(chunk, actual_crc).position() matches Some(next) ==> before.position() == Some(
            (next - chunk.len()) as nat,
        ) && chunk.len() <= next,
        before.stage is Payload ==> before.position() == Some(before.valid_offset + 8),
{
    match before.stage {
        Stage::Length => {
            codec::lemma_le_bytes_len(codec::le_value(chunk) as u32 as nat, 4);
        },
        Stage::Checksum { total_len } => {
            codec::lemma_le_bytes_len(total_len as nat, 4);
            codec::lemma_le_bytes_len(codec::le_value(chunk) as u32 as nat, 4);
        },
        Stage::Payload { total_len, expected_crc } => {
            codec::lemma_le_bytes_len(total_len as nat, 4);
            codec::lemma_le_bytes_len(expected_crc as nat, 4);
        },
        Stage::Stopped => {},
    }
}

/// What is needed next: four bytes for a length, four for a checksum, as many for
/// a payload as its length says, nothing once the replay has stopped.
pub proof fn law_wanted_bytes(progress: Progress)
    ensures
        progress.stage is Length ==> progress.wanted() == Some(4nat),
        progress.stage is Checksum ==> progress.wanted() == Some(4nat),
        progress.stage matches Stage::Payload { total_len, .. } ==> progress.wanted() == Some(
            total_len as nat,
        ),
        progress.stage is Stopped ==> progress.wanted() is None,
{
}

/// Length and checksum are taken from the log as they are, in any size, and
/// nothing is found or counted yet.
pub proof fn law_header_is_taken_over(before: Progress, chunk: Seq<u8>, crc: u32)
    requires
        chunk.len() == 4,
    ensures
        before.stage is Length ==> {
            &&& before.given(chunk, crc).stage matches Stage::Checksum { total_len }
            &&& total_len == codec::le_value(chunk)
        },
        before.stage matches Stage::Checksum { total_len } ==> {
            &&& before.given(chunk, crc).stage matches Stage::Payload {
                total_len: kept,
                expected_crc,
            }
            &&& kept == total_len
            &&& expected_crc == codec::le_value(chunk)
        },
        before.stage is Length || before.stage is Checksum ==> {
            &&& before.given(chunk, crc).records == before.records
            &&& before.given(chunk, crc).valid_offset == before.valid_offset
        },
{
    codec::lemma_capacities();
    codec::lemma_le_value_bound(chunk);
}

/// A payload of any length is taken for a record only under the expected checksum.
/// If it is, the record comes behind the others and the valid offset moves past
/// the whole frame; if not, the replay stops with what it had.
pub proof fn law_payload_ends_a_frame(before: Progress, chunk: Seq<u8>, crc: u32)
    requires
        before.stage is Payload,
    ensures
        before.stage matches Stage::Payload { total_len, expected_crc } ==> {
            let after = before.given(chunk, crc);
            let intact = chunk.len() > 0 && expected_crc == crc && record::parse_body(
                chunk[0],
                chunk.subrange(1, chunk.len() as int),
            ) is Ok;
            &&& intact ==> after.stage is Length && after.valid_offset == before.valid_offset + 8
                + total_len && after.records == before.records.push(
                record::parse_body(chunk[0], chunk.subrange(1, chunk.len() as int))->Ok_0,
            )
            &&& !intact ==> after.stage is Stopped && after.valid_offset == before.valid_offset
                && after.records == before.records
        },
{
    if chunk.len() > 0 {
        assert(chunk.skip(1) =~= chunk.subrange(1, chunk.len() as int));
    }
}

/// A replay that has stopped comes to what it has found, and takes nothing more.
pub proof fn law_stopped_replay_is_final(progress: Progress, chunk: Seq<u8>, crc: u32)
    ensures
        progress.stopped().stage is Stopped,
        progress.stopped().records == progress.records,
        progress.stopped().valid_offset == progress.valid_offset,
        progress.stage is Stopped ==> progress.given(chunk, crc) == progress,
        progress.stage is Stopped ==> progress.outcome(chunk) == (
            progress.records,
            progress.valid_offset,
        ),
        Progress::start().stage is Length,
        Progress::start().records.len() == 0,
        Progress::start().valid_offset == 0,
{
}

/// What is known of a replay is exactly what it holds.
pub proof fn law_progress_loses_nothing(replay: Replay)
    ensures
        replay@.stage == replay.stage,
        replay@.records.len() == replay.records.len(),
        forall|i: int|
            0 <= i < replay.records.len() ==> #[trigger] replay@.records[i] == replay.records[i]@,
        replay@.valid_offset == replay.valid_offset,
{
}

/// The record that `payload` holds, if its checksum is the expected one and it
/// decodes.
pub fn accept_payload(payload: &[u8], expected_crc: u32, actual_crc: u32) -> (r: Option<WalRecord>)
    ensures
        match r {
            Some(record) => wal::accepted(payload@, expected_crc, actual_crc) == Some(record@),
            None => wal::accepted(payload@, expected_crc, actual_crc) is None,
        },
{
    if actual_crc != expected_crc {
        return None;
    }
    if payload.len() == 0 {
        return None;
    }
    let op: u8 = payload[0];
    let body = vstd::slice::slice_subrange(payload, 1, payload.len());
    assert(body@ =~= payload@.skip(1));
    match WalRecord::decode(op, body) {
        Ok(record) => Some(record),
        Err(_) => None,
    }
}

impl Replay {
    pub fn new() -> (r: Replay)
        ensures
            r@ == Progress::start(),
    {
        let r = Replay { stage: Stage::Length, records: Vec::new(), valid_offset: 0 };
        assert(r@ =~= Progress::start());
        r
    }

    /// How many bytes are needed next, or `None` once the replay has stopped.
    pub fn wanted(&self) -> (r: Option<usize>)
        ensures
            match r {
                Some(n) => self@.wanted() == Some(n as nat),
                None => self@.wanted() is None,
            },
    {
        match self.stage {
            Stage::Length => Some(4),
            Stage::Checksum { .. } => Some(4),
            Stage::Payload { total_len, .. } => Some(total_len as usize),
            Stage::Stopped => None,
        }
    }

    /// Takes the bytes that were needed.
    pub fn supply(&mut self, chunk: &[u8])
        requires
            old(self)@.wanted() == Some(chunk@.len()),
            old(self).stage is Payload ==> old(self)@.valid_offset + 8 + chunk@.len() <= u64::MAX,
        ensures
            final(self)@ == old(self)@.given(chunk@, checksum::crc32_of(chunk@)),
    {
        let actual_crc: u32 = match self.stage {
            Stage::Payload { .. } => crc32fast::hash(chunk),
            _ => 0,
        };
        self.supply_checked(chunk, actual_crc);
    }

    /// Takes the bytes that were needed, whose checksum is `actual_crc`.
    pub fn supply_checked(&mut self, chunk: &[u8], actual_crc: u32)
        requires
            old(self)@.wanted() == Some(chunk@.len()),
            old(self).stage is Payload ==> old(self)@.valid_offset + 8 + chunk@.len() <= u64::MAX,
        ensures
            final(self)@ == old(self)@.given(chunk@, actual_crc),
    {
        match self.stage {
            Stage::Length => {
                let total_len: u64 = codec::read_le(chunk, 0, 4);
                proof {
                    codec::lemma_capacities();
                    codec::lemma_le_value_bound(chunk@);
                    assert(chunk@.subrange(0, 4) =~= chunk@);
                }
                self.stage = Stage::Checksum { total_len: total_len as u32 };
            },
            Stage::Checksum { total_len } => {
                let expected_crc: u64 = codec::read_le(chunk, 0, 4);
                proof {
                    codec::lemma_capacities();
                    codec::lemma_le_value_bound(chunk@);
                    assert(chunk@.subrange(0, 4) =~= chunk@);
                }
                self.stage = Stage::Payload { total_len, expected_crc: expected_crc as u32 };
            },
            Stage::Payload { total_len, expected_crc } => {
                match accept_payload(chunk, expected_crc, actual_crc) {
                    Some(record) => {
                        self.records.push(record);
                        self.valid_offset = self.valid_offset + 8 + total_len as u64;
                        self.stage = Stage::Length;
                        assert(self@.records =~= old(self)@.records.push(record@));
                    },
                    None => {
                        self.stage = Stage::Stopped;
                    },
                }
            },
            Stage::Stopped => {},
        }
    }

    /// Takes the news that the log ended before the bytes that were needed.
    pub fn stop(&mut self)
        ensures
            final(self)@ == old(self)@.stopped(),
    {
        self.stage = Stage::Stopped;
    }

    /// The records that were found and the offset just past the last of them.
    pub fn finish(self) -> (r: (Vec<WalRecord>, u64))
        ensures
            wal::contents(r.0@) == self@.records,
            r.1 == self@.valid_offset,
    {
        (self.records, self.valid_offset)
    }
}

} // verus!
