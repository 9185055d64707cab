use chronicle_storage::error::StorageError;
use chronicle_storage::replay::{accept_payload, Replay, Stage};
use chronicle_storage::wal::WalAction;
use chronicle_storage::{WalRecord, WriteAheadLog};

/// A log file in memory: carries out actions and keeps what a crash would leave.
struct TestFile {
    buffered: Vec<u8>,
    written: Vec<u8>,
    synced: Vec<u8>,
}

impl TestFile {
    fn new() -> TestFile {
        TestFile { buffered: Vec::new(), written: Vec::new(), synced: Vec::new() }
    }

    fn perform(&mut self, actions: Vec<WalAction>) {
        for action in actions {
            match action {
                WalAction::Write(bytes) => self.buffered.extend_from_slice(&bytes),
                WalAction::Flush => self.written.append(&mut self.buffered),
                WalAction::SyncData => self.synced = self.written.clone(),
                WalAction::Clear => self.written.clear(),
                WalAction::Reopen => assert!(self.buffered.is_empty()),
            }
        }
    }
}

fn put(seq: u64, key: &[u8], value: &[u8]) -> WalRecord {
    WalRecord::Put { seq, key: key.to_vec(), value: value.to_vec() }
}

fn delete(seq: u64, key: &[u8]) -> WalRecord {
    WalRecord::Delete { seq, key: key.to_vec() }
}

fn corrupt_text(r: Result<WalRecord, StorageError>) -> String {
    match r {
        Err(StorageError::Corrupt(text)) => text,
        other => panic!("unexpected {other:?}"),
    }
}

#[test]
fn append_and_replay_roundtrip() {
    let mut file = TestFile::new();
    let wal = WriteAheadLog::open(true);
    file.perform(wal.append(&WalRecord::Put { seq: 1, key: b"a".to_vec(), value: b"1".to_vec() }));
    file.perform(wal.append(&WalRecord::Put { seq: 2, key: b"b".to_vec(), value: b"2".to_vec() }));
    file.perform(wal.append(&WalRecord::Delete { seq: 3, key: b"a".to_vec() }));
    let (records, offset) = WriteAheadLog::replay(&file.synced);
    assert_eq!(records.len(), 3);
    assert_eq!(records[0], WalRecord::Put { seq: 1, key: b"a".to_vec(), value: b"1".to_vec() });
    assert_eq!(records[1], WalRecord::Put { seq: 2, key: b"b".to_vec(), value: b"2".to_vec() });
    assert_eq!(records[2], WalRecord::Delete { seq: 3, key: b"a".to_vec() });
    assert_eq!(offset, file.synced.len() as u64);
}

#[test]
fn replay_stops_cleanly_at_torn_tail() {
    let mut file = TestFile::new();
    let wal = WriteAheadLog::open(true);
    file.perform(wal.append(&WalRecord::Put { seq: 1, key: b"a".to_vec(), value: b"1".to_vec() }));
    let good_len = file.written.len() as u64;
    // Simulate a crash mid-write: append a partial, garbage record.
    file.written.extend_from_slice(&[1, 2, 3, 4, 5]);
    let (records, valid_offset) = WriteAheadLog::replay(&file.written);
    assert_eq!(records.len(), 1);
    assert_eq!(records[0], WalRecord::Put { seq: 1, key: b"a".to_vec(), value: b"1".to_vec() });
    // valid_offset should point exactly past the first good record,
    // letting the caller truncate off the torn garbage.
    let file_len = file.written.len() as u64;
    assert!(valid_offset < file_len);
    assert_eq!(valid_offset, good_len);
}

#[test]
fn empty_log_replays_to_nothing() {
    let (records, offset) = WriteAheadLog::replay(&[]);
    assert!(records.is_empty());
    assert_eq!(offset, 0);
}

#[test]
fn truncate_resets_log() {
    let mut file = TestFile::new();
    let wal = WriteAheadLog::open(true);
    file.perform(wal.append(&WalRecord::Put { seq: 1, key: b"a".to_vec(), value: b"1".to_vec() }));
    file.perform(wal.truncate());
    assert!(file.written.is_empty());
    file.perform(wal.append(&WalRecord::Put { seq: 2, key: b"b".to_vec(), value: b"2".to_vec() }));
    let (records, _) = WriteAheadLog::replay(&file.written);
    assert_eq!(records.len(), 1);
    assert_eq!(records[0].seq(), 2);
}

#[test]
fn frames_have_the_documented_layout() {
    let wal = WriteAheadLog::open(false);
    let payload = vec![0, 1, 0, 0, 0, 0, 0, 0, 0, 1, 0, 0, 0, 97, 1, 0, 0, 0, 49];
    assert_eq!(
        wal.append(&put(1, b"a", b"1")),
        vec![
            WalAction::Write(vec![19, 0, 0, 0]),
            WalAction::Write(0x758ee1c5u32.to_le_bytes().to_vec()),
            WalAction::Write(payload.clone()),
        ]
    );
    assert_eq!(crc32fast::hash(&payload), 0x758ee1c5);
    let payload = vec![1, 3, 0, 0, 0, 0, 0, 0, 0, 1, 0, 0, 0, 97];
    assert_eq!(
        WriteAheadLog::open(true).append(&delete(3, b"a")),
        vec![
            WalAction::Write(vec![14, 0, 0, 0]),
            WalAction::Write(0xf6ab8c01u32.to_le_bytes().to_vec()),
            WalAction::Write(payload),
            WalAction::Flush,
            WalAction::SyncData,
        ]
    );
}

#[test]
fn unsynced_appends_stay_in_the_buffer_until_flushed() {
    let mut file = TestFile::new();
    let wal = WriteAheadLog::open(false);
    file.perform(wal.append(&put(1, b"a", b"1")));
    assert!(file.synced.is_empty());
    file.perform(wal.flush());
    assert_eq!(WriteAheadLog::replay(&file.synced).0, vec![put(1, b"a", b"1")]);
    assert_eq!(wal.flush(), vec![WalAction::Flush, WalAction::SyncData]);
    assert_eq!(wal.truncate(), vec![WalAction::Flush, WalAction::Clear, WalAction::Reopen]);
}

#[test]
fn every_cut_keeps_the_records_before_it() {
    let mut file = TestFile::new();
    let wal = WriteAheadLog::open(true);
    let written = vec![put(1, b"k", b"value"), delete(2, b"k"), put(3, b"", b"")];
    let mut ends = vec![0];
    for record in &written {
        file.perform(wal.append(record));
        ends.push(file.written.len());
    }
    for cut in 0..=file.written.len() {
        let whole = ends.iter().filter(|end| **end <= cut).count() - 1;
        let (records, offset) = WriteAheadLog::replay(&file.written[..cut]);
        assert_eq!(records[..], written[..whole]);
        assert_eq!(offset, ends[whole] as u64);
    }
}

#[test]
fn appending_resumes_at_the_valid_offset() {
    let mut file = TestFile::new();
    let wal = WriteAheadLog::open(true);
    file.perform(wal.append(&put(1, b"a", b"1")));
    file.written.extend_from_slice(&[9; 30]);
    let (_, offset) = WriteAheadLog::replay(&file.written);
    file.written.truncate(offset as usize);
    file.perform(wal.append(&delete(2, b"a")));
    let (records, _) = WriteAheadLog::replay(&file.written);
    assert_eq!(records, vec![put(1, b"a", b"1"), delete(2, b"a")]);
}

#[test]
fn damaged_payload_fails_its_checksum() {
    let mut file = TestFile::new();
    let wal = WriteAheadLog::open(true);
    file.perform(wal.append(&put(1, b"a", b"1")));
    let first = file.written.len();
    file.perform(wal.append(&put(2, b"b", b"2")));
    file.perform(wal.append(&put(3, b"c", b"3")));
    let last = file.written.len() - 1;
    for at in first + 8..first + 27 {
        let mut damaged = file.written.clone();
        damaged[at] ^= 1;
        let (records, offset) = WriteAheadLog::replay(&damaged);
        assert_eq!(records, vec![put(1, b"a", b"1")]);
        assert_eq!(offset, first as u64);
    }
    file.written[last] ^= 0x80;
    assert_eq!(WriteAheadLog::replay(&file.written).0.len(), 2);
}

#[test]
fn empty_frame_ends_the_log() {
    // A zero length and the checksum of nothing, followed by a good record.
    let mut log = vec![0, 0, 0, 0];
    log.extend_from_slice(&crc32fast::hash(&[]).to_le_bytes());
    let mut file = TestFile::new();
    file.perform(WriteAheadLog::open(true).append(&put(1, b"a", b"1")));
    log.extend_from_slice(&file.written);
    let (records, offset) = WriteAheadLog::replay(&log);
    assert!(records.is_empty());
    assert_eq!(offset, 0);
}

#[test]
fn undecodable_payload_ends_the_log() {
    let payload = [7u8; 12];
    let mut log = vec![12, 0, 0, 0];
    log.extend_from_slice(&crc32fast::hash(&payload).to_le_bytes());
    log.extend_from_slice(&payload);
    assert_eq!(WriteAheadLog::replay(&log), (Vec::new(), 0));
}

#[test]
fn decode_inverts_encode() {
    let records =
        vec![put(u64::MAX, b"key", b"value"), put(0, b"", b""), delete(7, b"gone"), delete(8, b"")];
    for record in records {
        let (op, body) = record.encode_body();
        assert_eq!(WalRecord::decode(op, &body).unwrap(), record);
        let mut longer = body.clone();
        longer.extend_from_slice(b"more");
        assert_eq!(WalRecord::decode(op, &longer).unwrap(), record.clone());
    }
}

#[test]
fn decode_names_what_is_missing() {
    let (op, body) = put(1, b"key", b"value").encode_body();
    assert_eq!((op, body.len()), (0, 24));
    assert_eq!(corrupt_text(WalRecord::decode(op, &body[..7])), "truncated u64");
    assert_eq!(corrupt_text(WalRecord::decode(op, &body[..11])), "truncated u32");
    assert_eq!(corrupt_text(WalRecord::decode(op, &body[..14])), "truncated key");
    assert_eq!(corrupt_text(WalRecord::decode(op, &body[..18])), "truncated u32");
    assert_eq!(corrupt_text(WalRecord::decode(op, &body[..23])), "truncated value");
    let (op, body) = delete(1, b"key").encode_body();
    assert_eq!((op, body.len()), (1, 15));
    assert_eq!(corrupt_text(WalRecord::decode(op, &body[..7])), "truncated u64");
    assert_eq!(corrupt_text(WalRecord::decode(op, &body[..8])), "truncated u32");
    assert_eq!(corrupt_text(WalRecord::decode(op, &body[..12])), "truncated key");
}

#[test]
fn decode_names_an_unknown_operation() {
    assert_eq!(corrupt_text(WalRecord::decode(2, &[0; 8])), "unknown op byte 2");
    assert_eq!(corrupt_text(WalRecord::decode(40, &[0; 8])), "unknown op byte 40");
    assert_eq!(corrupt_text(WalRecord::decode(255, &[0; 8])), "unknown op byte 255");
    // The sequence number comes first.
    assert_eq!(corrupt_text(WalRecord::decode(255, &[0; 7])), "truncated u64");
}

#[test]
fn seq_is_the_sequence_number() {
    assert_eq!(put(5, b"k", b"v").seq(), 5);
    assert_eq!(delete(6, b"k").seq(), 6);
}

#[test]
fn payload_is_accepted_under_its_checksum_only() {
    let (op, body) = put(1, b"a", b"1").encode_body();
    let mut payload = vec![op];
    payload.extend_from_slice(&body);
    assert_eq!(accept_payload(&payload, 5, 5), Some(put(1, b"a", b"1")));
    assert_eq!(accept_payload(&payload, 5, 6), None);
    assert_eq!(accept_payload(&[], 5, 5), None);
    assert_eq!(accept_payload(&[9, 9], 5, 5), None);
}

#[test]
fn appended_payload_carries_the_given_checksum() {
    let wal = WriteAheadLog::open(false);
    assert_eq!(
        wal.append_checked(vec![1, 2, 3], 0x01020304),
        vec![
            WalAction::Write(vec![3, 0, 0, 0]),
            WalAction::Write(vec![4, 3, 2, 1]),
            WalAction::Write(vec![1, 2, 3]),
        ]
    );
}

#[test]
fn replay_asks_for_one_part_after_the_other() {
    let mut replay = Replay::new();
    assert_eq!(replay.wanted(), Some(4));
    replay.supply(&[14, 0, 0, 0]);
    assert_eq!(replay.stage, Stage::Checksum { total_len: 14 });
    assert_eq!(replay.wanted(), Some(4));
    replay.supply(&0xf6ab8c01u32.to_le_bytes());
    assert_eq!(replay.stage, Stage::Payload { total_len: 14, expected_crc: 0xf6ab8c01 });
    assert_eq!(replay.wanted(), Some(14));
    replay.supply(&[1, 3, 0, 0, 0, 0, 0, 0, 0, 1, 0, 0, 0, 97]);
    assert_eq!(replay.stage, Stage::Length);
    assert_eq!(replay.valid_offset, 22);
    replay.stop();
    assert_eq!(replay.wanted(), None);
    assert_eq!(replay.finish(), (vec![delete(3, b"a")], 22));
}

#[test]
fn replay_stops_on_a_wrong_checksum() {
    let mut replay = Replay::new();
    replay.supply(&[2, 0, 0, 0]);
    replay.supply(&[1, 1, 1, 1]);
    replay.supply_checked(&[0, 0], 0);
    assert_eq!(replay.stage, Stage::Stopped);
    assert_eq!(replay.finish(), (Vec::new(), 0));
}
