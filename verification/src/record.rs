//! Write-ahead log records and their byte layout.
//!
//! A record is stored as one operation byte and a body:
//!
//! - a put: `seq:8 | key_len:4 | key | value_len:4 | value`
//! - a delete: `seq:8 | key_len:4 | key`
//!
//! All integers are little-endian.

use crate::codec;
use crate::error::StorageError;
use vstd::prelude::*;

verus! {

pub const OP_PUT: u8 = 0;

pub const OP_DELETE: u8 = 1;

#[derive(Debug, PartialEq, Eq)]
pub enum WalRecord {
    Put { seq: u64, key: Vec<u8>, value: Vec<u8> },
    Delete { seq: u64, key: Vec<u8> },
}

/// What a [`WalRecord`] says, with its byte strings as sequences.
pub enum Record {
    Put { seq: u64, key: Seq<u8>, value: Seq<u8> },
    Delete { seq: u64, key: Seq<u8> },
}

impl View for WalRecord {
    type V = Record;

    open spec fn view(&self) -> Record {
        match *self {
            WalRecord::Put { seq, key, value } => Record::Put { seq, key: key@, value: value@ },
            WalRecord::Delete { seq, key } => Record::Delete { seq, key: key@ },
        }
    }
}

impl Clone for WalRecord {
    fn clone(&self) -> (r: WalRecord)
        ensures
            r@ == self@,
    {
        match self {
            WalRecord::Put { seq, key, value } => WalRecord::Put {
                seq: *seq,
                key: codec::copy_bytes(key),
                value: codec::copy_bytes(value),
            },
            WalRecord::Delete { seq, key } => WalRecord::Delete {
                seq: *seq,
                key: codec::copy_bytes(key),
            },
        }
    }
}

/// A byte string preceded by the four low-order bytes of its length.
pub open spec fn prefixed(s: Seq<u8>) -> Seq<u8> {
    codec::le_bytes(s.len(), 4) + s
}

impl Record {
    pub open spec fn sequence_number(self) -> u64 {
        match self {
            Record::Put { seq, .. } => seq,
            Record::Delete { seq, .. } => seq,
        }
    }

    /// The byte that names the record's operation.
    pub open spec fn op(self) -> u8 {
        match self {
            Record::Put { .. } => OP_PUT,
            Record::Delete { .. } => OP_DELETE,
        }
    }

    /// The stored form of everything but the operation.
    pub open spec fn body(self) -> Seq<u8> {
        match self {
            Record::Put { seq, key, value } => codec::le_bytes(seq as nat, 8) + prefixed(key)
                + prefixed(value),
            Record::Delete { seq, key } => codec::le_bytes(seq as nat, 8) + prefixed(key),
        }
    }

    /// The operation byte followed by the body.
    pub open spec fn payload(self) -> Seq<u8> {
        seq![self.op()] + self.body()
    }

    /// Whether the lengths inside the record fit the four bytes that store them.
    pub open spec fn lengths_fit(self) -> bool {
        match self {
            Record::Put { key, value, .. } => key.len() <= u32::MAX && value.len() <= u32::MAX,
            Record::Delete { key, .. } => key.len() <= u32::MAX,
        }
    }
}

/// The length-prefixed byte string that starts at `at`, or what is missing of it.
pub open spec fn prefixed_at(body: Seq<u8>, at: int, cut_short: Seq<char>) -> Result<
    Seq<u8>,
    Seq<char>,
> {
    if body.len() < at + 4 {
        Err("truncated u32"@)
    } else {
        let n = codec::le_value(body.subrange(at, at + 4));
        if body.len() < at + 4 + n {
            Err(cut_short)
        } else {
            Ok(body.subrange(at + 4, at + 4 + n))
        }
    }
}

/// The record that an operation byte and a body stand for, or why they stand
/// for none. Bytes behind the last field are ignored.
pub open spec fn parse_body(op: u8, body: Seq<u8>) -> Result<Record, Seq<char>> {
    if body.len() < 8 {
        Err("truncated u64"@)
    } else {
        let seq = codec::le_value(body.subrange(0, 8)) as u64;
        if op == OP_PUT {
            match prefixed_at(body, 8, "truncated key"@) {
                Err(why) => Err(why),
                Ok(key) => match prefixed_at(body, 12 + key.len() as int, "truncated value"@) {
                    Err(why) => Err(why),
                    Ok(value) => Ok(Record::Put { seq, key, value }),
                },
            }
        } else if op == OP_DELETE {
            match prefixed_at(body, 8, "truncated key"@) {
                Err(why) => Err(why),
                Ok(key) => Ok(Record::Delete { seq, key }),
            }
        } else {
            Err("unknown op byte "@ + decimal(op as nat))
        }
    }
}

/// The decimal digit that stands for `d`.
pub open spec fn digit(d: nat) -> char {
    if d == 0 {
        '0'
    } else if d == 1 {
        '1'
    } else if d == 2 {
        '2'
    } else if d == 3 {
        '3'
    } else if d == 4 {
        '4'
    } else if d == 5 {
        '5'
    } else if d == 6 {
        '6'
    } else if d == 7 {
        '7'
    } else if d == 8 {
        '8'
    } else {
        '9'
    }
}

/// `n` in decimal notation, without leading zeros.
pub open spec fn decimal(n: nat) -> Seq<char>
    decreases n,
{
    if n < 10 {
        seq![digit(n)]
    } else {
        decimal(n / 10).push(digit(n % 10))
    }
}

fn digit_text(d: u8) -> (s: &'static str)
    requires
        d < 10,
    ensures
        s@ == seq![digit(d as nat)],
{
    proof {
        reveal_strlit("0");
        reveal_strlit("1");
        reveal_strlit("2");
        reveal_strlit("3");
        reveal_strlit("4");
        reveal_strlit("5");
        reveal_strlit("6");
        reveal_strlit("7");
        reveal_strlit("8");
        reveal_strlit("9");
    }
    match d {
        0 => "0",
        1 => "1",
        2 => "2",
        3 => "3",
        4 => "4",
        5 => "5",
        6 => "6",
        7 => "7",
        8 => "8",
        _ => "9",
    }
}

fn append_decimal(out: &mut String, n: u8)
    ensures
        final(out)@ == old(out)@ + decimal(n as nat),
    decreases n,
{
    if n >= 10 {
        append_decimal(out, n / 10);
    }
    out.append(digit_text(n % 10));
    assert(out@ =~= old(out)@ + decimal(n as nat));
}

fn corrupt(what: &str) -> (e: StorageError)
    ensures
        e matches StorageError::Corrupt(text) && text@ == what@,
{
    StorageError::Corrupt(what.to_owned())
}

fn unknown_op(op: u8) -> (e: StorageError)
    ensures
        e matches StorageError::Corrupt(text) && text@ == "unknown op byte "@ + decimal(op as nat),
{
    let mut text: String = "unknown op byte ".to_owned();
    append_decimal(&mut text, op);
    StorageError::Corrupt(text)
}

/// Copies out the length-prefixed byte string that starts at `at`.
fn read_prefixed(body: &[u8], at: usize, cut_short: &str) -> (r: Result<Vec<u8>, StorageError>)
    requires
        at <= body@.len(),
    ensures
        match r {
            Ok(bytes) => prefixed_at(body@, at as int, cut_short@) == Ok::<Seq<u8>, Seq<char>>(
                bytes@,
            ),
            Err(e) => e matches StorageError::Corrupt(text) && prefixed_at(
                body@,
                at as int,
                cut_short@,
            ) == Err::<Seq<u8>, Seq<char>>(text@),
        },
{
    if body.len() - at < 4 {
        return Err(corrupt("truncated u32"));
    }
    let n: u64 = codec::read_le(body, at, 4);
    if n > (body.len() - at - 4) as u64 {
        return Err(corrupt(cut_short));
    }
    let start: usize = at + 4;
    let end: usize = start + n as usize;
    Ok(vstd::slice::slice_to_vec(vstd::slice::slice_subrange(body, start, end)))
}

impl WalRecord {
    pub fn seq(&self) -> (seq: u64)
        ensures
            seq == self@.sequence_number(),
    {
        match self {
            WalRecord::Put { seq, .. } => *seq,
            WalRecord::Delete { seq, .. } => *seq,
        }
    }

    /// The operation byte and the body that stand for this record.
    ///
    /// A key or value of four gibibytes or more is written with the low-order
    /// bytes of its length only.
    pub fn encode_body(&self) -> (r: (u8, Vec<u8>))
        requires
            self@.body().len() <= isize::MAX,
        ensures
            r.0 == self@.op(),
            r.1@ == self@.body(),
    {
        proof {
            self@.lemma_body_len();
        }
        match self {
            WalRecord::Put { seq, key, value } => {
                let mut body: Vec<u8> = Vec::with_capacity(8 + 4 + key.len() + 4 + value.len());
                codec::push_le(&mut body, *seq, 8);
                codec::push_le(&mut body, key.len() as u64, 4);
                body.extend_from_slice(key.as_slice());
                assert(body@ =~= codec::le_bytes(*seq as nat, 8) + prefixed(key@));
                codec::push_le(&mut body, value.len() as u64, 4);
                body.extend_from_slice(value.as_slice());
                assert(body@ =~= self@.body());
                (OP_PUT, body)
            },
            WalRecord::Delete { seq, key } => {
                let mut body: Vec<u8> = Vec::with_capacity(8 + 4 + key.len());
                codec::push_le(&mut body, *seq, 8);
                codec::push_le(&mut body, key.len() as u64, 4);
                body.extend_from_slice(key.as_slice());
                assert(body@ =~= self@.body());
                (OP_DELETE, body)
            },
        }
    }

    /// The record that an operation byte and a body stand for.
    pub fn decode(op: u8, body: &[u8]) -> (r: Result<WalRecord, StorageError>)
        ensures
            match r {
                Ok(record) => parse_body(op, body@) == Ok::<Record, Seq<char>>(record@),
                Err(e) => e matches StorageError::Corrupt(text) && parse_body(op, body@) == Err::<
                    Record,
                    Seq<char>,
                >(text@),
            },
    {
        if body.len() < 8 {
            return Err(corrupt("truncated u64"));
        }
        let seq: u64 = codec::read_le(body, 0, 8);
        match op {
            OP_PUT => {
                let key = match read_prefixed(body, 8, "truncated key") {
                    Ok(key) => key,
                    Err(e) => return Err(e),
                };
                let value = match read_prefixed(body, 12 + key.len(), "truncated value") {
                    Ok(value) => value,
                    Err(e) => return Err(e),
                };
                Ok(WalRecord::Put { seq, key, value })
            },
            OP_DELETE => {
                let key = match read_prefixed(body, 8, "truncated key") {
                    Ok(key) => key,
                    Err(e) => return Err(e),
                };
                Ok(WalRecord::Delete { seq, key })
            },
            other => Err(unknown_op(other)),
        }
    }
}

impl Record {
    pub proof fn lemma_body_len(self)
        ensures
            self.body().len() == match self {
                Record::Put { key, value, .. } => 16 + key.len() + value.len(),
                Record::Delete { key, .. } => 12 + key.len(),
            },
    {
        codec::lemma_le_bytes_len(self.sequence_number() as nat, 8);
        match self {
            Record::Put { key, value, .. } => {
                codec::lemma_le_bytes_len(key.len(), 4);
                codec::lemma_le_bytes_len(value.len(), 4);
            },
            Record::Delete { key, .. } => {
                codec::lemma_le_bytes_len(key.len(), 4);
            },
        }
    }
}

/// A length-prefixed byte string whose length fits is read back, wherever it
/// stands and whatever follows it.
proof fn lemma_prefixed_reads_back(
    before: Seq<u8>,
    s: Seq<u8>,
    after: Seq<u8>,
    cut_short: Seq<char>,
)
    requires
        s.len() <= u32::MAX,
    ensures
        prefixed(s).len() == 4 + s.len(),
        prefixed_at(before + prefixed(s) + after, before.len() as int, cut_short) == Ok::<
            Seq<u8>,
            Seq<char>,
        >(s),
{
    let all = before + prefixed(s) + after;
    let at = before.len() as int;
    codec::lemma_capacities();
    codec::lemma_le_bytes_len(s.len(), 4);
    codec::lemma_le_value_of_bytes(s.len(), 4);
    assert(all.subrange(at, at + 4) =~= codec::le_bytes(s.len(), 4));
    assert(all.subrange(at + 4, at + 4 + s.len()) =~= s);
}

/// A length-prefixed byte string that can be read is the encoding of what was
/// read.
proof fn lemma_prefixed_was_written(body: Seq<u8>, at: int, cut_short: Seq<char>)
    requires
        0 <= at,
    ensures
        prefixed_at(body, at, cut_short) matches Ok(s) ==> {
            &&& s.len() <= u32::MAX
            &&& at + 4 + s.len() <= body.len()
            &&& body.subrange(at, at + 4 + s.len()) == prefixed(s)
        },
{
    if prefixed_at(body, at, cut_short) is Ok {
        let head = body.subrange(at, at + 4);
        codec::lemma_capacities();
        codec::lemma_le_value_bound(head);
        codec::lemma_le_bytes_of_value(head);
        let n = codec::le_value(head);
        assert(body.subrange(at, at + 4 + n) =~= head + body.subrange(at + 4, at + 4 + n));
    }
}

/// Decoding the stored form of a record gives back the record, also with more
/// bytes behind it.
pub proof fn law_decode_inverts_encode(record: Record, tail: Seq<u8>)
    requires
        record.lengths_fit(),
    ensures
        parse_body(record.op(), record.body() + tail) == Ok::<Record, Seq<char>>(record),
{
    let head = codec::le_bytes(record.sequence_number() as nat, 8);
    codec::lemma_capacities();
    codec::lemma_le_bytes_len(record.sequence_number() as nat, 8);
    codec::lemma_le_value_of_bytes(record.sequence_number() as nat, 8);
    let all = record.body() + tail;
    assert(all.subrange(0, 8) =~= head);
    match record {
        Record::Put { seq, key, value } => {
            lemma_prefixed_reads_back(head, key, prefixed(value) + tail, "truncated key"@);
            assert(head + prefixed(key) + (prefixed(value) + tail) =~= all);
            lemma_prefixed_reads_back(head + prefixed(key), value, tail, "truncated value"@);
        },
        Record::Delete { seq, key } => {
            lemma_prefixed_reads_back(head, key, tail, "truncated key"@);
        },
    }
}

/// Decoding accepts nothing but stored forms: whatever it accepts begins with
/// the encoding of the record that comes out.
pub proof fn law_decode_accepts_only_encodings(op: u8, body: Seq<u8>)
    ensures
        parse_body(op, body) matches Ok(record) ==> {
            &&& record.op() == op
            &&& record.lengths_fit()
            &&& record.body().is_prefix_of(body)
        },
{
    if body.len() >= 8 {
        let head = body.subrange(0, 8);
        codec::lemma_capacities();
        codec::lemma_le_value_bound(head);
        codec::lemma_le_bytes_of_value(head);
        lemma_prefixed_was_written(body, 8, "truncated key"@);
        if let Ok(key) = prefixed_at(body, 8, "truncated key"@) {
            let at = 12 + key.len() as int;
            lemma_prefixed_was_written(body, at, "truncated value"@);
            assert(body.subrange(0, at) =~= head + body.subrange(8, at));
            if op == OP_PUT {
                if let Ok(value) = prefixed_at(body, at, "truncated value"@) {
                    let end = at + 4 + value.len();
                    assert(body.subrange(0, end) =~= body.subrange(0, at)
                        + body.subrange(at, end));
                }
            }
        }
    }
}

/// What a stored put looks like: the byte 0, the sequence number, then key and
/// value, each behind its length.
pub proof fn law_put_layout(seq: u64, key: Seq<u8>, value: Seq<u8>)
    ensures
        (Record::Put { seq, key, value }).op() == 0,
        (Record::Put { seq, key, value }).sequence_number() == seq,
        (Record::Put { seq, key, value }).body() == codec::le_bytes(seq as nat, 8)
            + codec::le_bytes(key.len(), 4) + key + codec::le_bytes(value.len(), 4) + value,
        (Record::Put { seq, key, value }).payload() == seq![0u8] + (Record::Put {
            seq,
            key,
            value,
        }).body(),
        (Record::Put { seq, key, value }).payload().len() == 17 + key.len() + value.len(),
{
    let record = Record::Put { seq, key, value };
    record.lemma_body_len();
    assert(record.body() =~= codec::le_bytes(seq as nat, 8) + codec::le_bytes(key.len(), 4) + key
        + codec::le_bytes(value.len(), 4) + value);
}

/// What a stored delete looks like: the byte 1, the sequence number, then the key
/// behind its length.
pub proof fn law_delete_layout(seq: u64, key: Seq<u8>)
    ensures
        (Record::Delete { seq, key }).op() == 1,
        (Record::Delete { seq, key }).sequence_number() == seq,
        (Record::Delete { seq, key }).body() == codec::le_bytes(seq as nat, 8) + codec::le_bytes(
            key.len(),
            4,
        ) + key,
        (Record::Delete { seq, key }).payload() == seq![1u8] + (Record::Delete {
            seq,
            key,
        }).body(),
        (Record::Delete { seq, key }).payload().len() == 13 + key.len(),
{
    let record = Record::Delete { seq, key };
    record.lemma_body_len();
    assert(record.body() =~= codec::le_bytes(seq as nat, 8) + codec::le_bytes(key.len(), 4) + key);
}

/// The bytes of a put decode to that put, for keys and values of any length that
/// four bytes can hold, whatever follows them.
pub proof fn law_put_bytes_decode(seq: u64, key: Seq<u8>, value: Seq<u8>, tail: Seq<u8>)
    requires
        key.len() <= 0xffff_ffff,
        value.len() <= 0xffff_ffff,
    ensures
        parse_body(
            0,
            codec::le_bytes(seq as nat, 8) + codec::le_bytes(key.len(), 4) + key
                + codec::le_bytes(value.len(), 4) + value + tail,
        ) == Ok::<Record, Seq<char>>(Record::Put { seq, key, value }),
{
    law_put_layout(seq, key, value);
    law_decode_inverts_encode(Record::Put { seq, key, value }, tail);
}

/// The bytes of a delete decode to that delete, for keys of any length that four
/// bytes can hold, whatever follows them.
pub proof fn law_delete_bytes_decode(seq: u64, key: Seq<u8>, tail: Seq<u8>)
    requires
        key.len() <= 0xffff_ffff,
    ensures
        parse_body(
            1,
            codec::le_bytes(seq as nat, 8) + codec::le_bytes(key.len(), 4) + key + tail,
        ) == Ok::<Record, Seq<char>>(Record::Delete { seq, key }),
{
    law_delete_layout(seq, key);
    law_decode_inverts_encode(Record::Delete { seq, key }, tail);
}

/// Every record that is decoded has lengths that four bytes can hold, and those
/// are the records that decode again after encoding.
pub proof fn law_lengths_that_fit(record: Record)
    ensures
        record.lengths_fit() <==> match record {
            Record::Put { key, value, .. } => key.len() <= 0xffff_ffff && value.len()
                <= 0xffff_ffff,
            Record::Delete { key, .. } => key.len() <= 0xffff_ffff,
        },
{
}

/// The length prefix in front of a cut-off byte string is still read as a whole.
proof fn lemma_cut_prefixed(all: Seq<u8>, at: int, s: Seq<u8>, n: int, cut_short: Seq<char>)
    requires
        0 <= at <= n <= all.len(),
        at + 4 + s.len() <= all.len(),
        s.len() <= u32::MAX,
        all.subrange(at, at + 4) == codec::le_bytes(s.len(), 4),
        all.subrange(at + 4, at + 4 + s.len()) == s,
    ensures
        prefixed_at(all.take(n), at, cut_short) == if n < at + 4 {
            Err::<Seq<u8>, Seq<char>>("truncated u32"@)
        } else if n < at + 4 + s.len() {
            Err::<Seq<u8>, Seq<char>>(cut_short)
        } else {
            Ok::<Seq<u8>, Seq<char>>(s)
        },
{
    codec::lemma_capacities();
    codec::lemma_le_value_of_bytes(s.len(), 4);
    if n >= at + 4 {
        assert(all.take(n).subrange(at, at + 4) =~= all.subrange(at, at + 4));
    }
    if n >= at + 4 + s.len() {
        assert(all.take(n).subrange(at + 4, at + 4 + s.len()) =~= all.subrange(
            at + 4,
            at + 4 + s.len(),
        ));
    }
}

/// A put that was cut short anywhere is refused, and the error names the field in
/// which the cut lies.
pub proof fn law_cut_put_is_refused(seq: u64, key: Seq<u8>, value: Seq<u8>, n: int)
    requires
        key.len() <= 0xffff_ffff,
        value.len() <= 0xffff_ffff,
        0 <= n < 16 + key.len() + value.len(),
    ensures
        parse_body(
            0,
            (codec::le_bytes(seq as nat, 8) + codec::le_bytes(key.len(), 4) + key
                + codec::le_bytes(value.len(), 4) + value).take(n),
        ) == Err::<Record, Seq<char>>(
            if n < 8 {
                "truncated u64"@
            } else if n < 12 {
                "truncated u32"@
            } else if n < 12 + key.len() {
                "truncated key"@
            } else if n < 16 + key.len() {
                "truncated u32"@
            } else {
                "truncated value"@
            },
        ),
{
    let all = codec::le_bytes(seq as nat, 8) + codec::le_bytes(key.len(), 4) + key
        + codec::le_bytes(value.len(), 4) + value;
    codec::lemma_le_bytes_len(seq as nat, 8);
    codec::lemma_le_bytes_len(key.len(), 4);
    codec::lemma_le_bytes_len(value.len(), 4);
    let at = 12 + key.len() as int;
    assert(all.subrange(8, 12) =~= codec::le_bytes(key.len(), 4));
    assert(all.subrange(12, at) =~= key);
    assert(all.subrange(at, at + 4) =~= codec::le_bytes(value.len(), 4));
    assert(all.subrange(at + 4, at + 4 + value.len()) =~= value);
    if n >= 8 {
        lemma_cut_prefixed(all, 8, key, n, "truncated key"@);
    }
    if n >= at {
        lemma_cut_prefixed(all, at, value, n, "truncated value"@);
    }
}

/// A delete that was cut short anywhere is refused, and the error names the field
/// in which the cut lies.
pub proof fn law_cut_delete_is_refused(seq: u64, key: Seq<u8>, n: int)
    requires
        key.len() <= 0xffff_ffff,
        0 <= n < 12 + key.len(),
    ensures
        parse_body(
            1,
            (codec::le_bytes(seq as nat, 8) + codec::le_bytes(key.len(), 4) + key).take(n),
        ) == Err::<Record, Seq<char>>(
            if n < 8 {
                "truncated u64"@
            } else if n < 12 {
                "truncated u32"@
            } else {
                "truncated key"@
            },
        ),
{
    let all = codec::le_bytes(seq as nat, 8) + codec::le_bytes(key.len(), 4) + key;
    codec::lemma_le_bytes_len(seq as nat, 8);
    codec::lemma_le_bytes_len(key.len(), 4);
    assert(all.subrange(8, 12) =~= codec::le_bytes(key.len(), 4));
    assert(all.subrange(12, 12 + key.len() as int) =~= key);
    if n >= 8 {
        lemma_cut_prefixed(all, 8, key, n, "truncated key"@);
    }
}

/// No operation byte but 0 and 1 is decoded. The error names the byte, unless
/// even the sequence number is cut short.
pub proof fn law_unknown_operation_is_refused(op: u8, body: Seq<u8>)
    requires
        op > 1,
    ensures
        body.len() < 8 ==> parse_body(op, body) == Err::<Record, Seq<char>>("truncated u64"@),
        body.len() >= 8 ==> parse_body(op, body) == Err::<Record, Seq<char>>(
            "unknown op byte "@ + decimal(op as nat),
        ),
{
}

/// Decimal notation: a number below ten is its digit, any other is the notation
/// of its tens followed by the digit of its ones, and the digits are the
/// characters from 48 on.
pub proof fn law_decimal_notation(n: nat)
    ensures
        n < 10 ==> decimal(n).len() == 1 && decimal(n)[0] as int == 48 + n,
        n >= 10 ==> decimal(n).drop_last() == decimal(n / 10) && decimal(n).last() as int == 48 + n
            % 10,
{
    if n >= 10 {
        assert(decimal(n).drop_last() =~= decimal(n / 10));
    }
}

/// A record says exactly what a log record holds.
pub proof fn law_record_loses_nothing(record: WalRecord)
    ensures
        record matches WalRecord::Put { seq, key, value } ==> record@ == (Record::Put {
            seq,
            key: key@,
            value: value@,
        }),
        record matches WalRecord::Delete { seq, key } ==> record@ == (Record::Delete {
            seq,
            key: key@,
        }),
{
}

} // verus!
