//! The append-only output journal: its records on disk, reading them back,
//! and what a writer may do next.
use crate::bytes::{
    lemma_concat_associative, law_u16_round_trip, law_u32_round_trip, law_u64_round_trip, le_u16, le_u32, le_u64, push_u16,
    push_u32, push_u64, read_u16, read_u32, read_u64, u16_le, u32_le, u64_le,
};
use crate::outside::crc32;
use crate::text::{decimal_text, join, u64_text};
use vstd::prelude::*;
use vstd::string::StringExecFns;

verus! {

broadcast use crate::bytes::group_le_len;

pub const VERSION: u16 = 1;

pub const HEADER_SIZE: usize = 24;

pub const MAX_RECORD_SIZE: usize = 16777216;

/// How far a flush carries the bytes.
#[derive(Clone, Copy, Debug, PartialEq, Eq, Structural)]
pub enum Durability {
    Ephemeral,
    SessionLog,
    Audit,
}

/// What kind of failure the storage reported.
#[derive(Clone, Copy, Debug, PartialEq, Eq, Structural)]
pub enum IoFailureKind {
    NotFound,
    InvalidData,
    UnexpectedEof,
    StorageFull,
    PermissionDenied,
    Other,
}

#[derive(Clone, Debug, PartialEq, Eq)]
pub struct IoFailure {
    pub kind: IoFailureKind,
    pub detail: String,
}

#[derive(Debug)]
pub enum JournalError {
    Io(IoFailure),
    RecordTooLarge { actual: usize, limit: usize },
    UnknownLine(u64),
    InvalidSegmentSize { actual: u64, minimum: u64 },
    CorruptSegment { segment_id: u32, detail: String },
    SequenceGap { segment_id: u32, expected: u64, actual: u64 },
    TooManySegments,
    MissingSegment { segment_id: u32 },
    CorruptLineBlock { block_id: u64, detail: String },
    PostCommitIndex { sequence: u64, source: Box<JournalError> },
    JournalTailRollback { record_start: u64, write_error: String, rollback_error: String },
    JournalWriterPoisoned,
}

#[derive(Clone, Debug, PartialEq, Eq)]
pub struct JournalRecord {
    pub sequence: u64,
    pub payload: Vec<u8>,
}

#[derive(Clone, Debug, PartialEq, Eq)]
pub struct ScanReport {
    pub records: Vec<JournalRecord>,
    pub valid_bytes: u64,
    pub repaired_tail: bool,
    pub integrity_error: Option<String>,
}

// ---------------------------------------------------------------------------
// Records as bytes.

/// A record, with its payload as a sequence.
#[verifier::ext_equal]
pub struct RecordModel {
    pub sequence: u64,
    pub payload: Seq<u8>,
}

impl View for JournalRecord {
    type V = RecordModel;

    open spec fn view(&self) -> RecordModel {
        RecordModel { sequence: self.sequence, payload: self.payload@ }
    }
}

pub open spec fn record_views(records: Seq<JournalRecord>) -> Seq<RecordModel> {
    Seq::new(records.len(), |i: int| records[i]@)
}

pub open spec fn magic() -> Seq<u8> {
    seq![0x43u8, 0x53u8, 0x4au8, 0x52u8]
}

/// The header in front of a payload: magic, version, reserved, sequence,
/// length and checksum.
#[verifier::opaque]
pub open spec fn header_bytes(record: RecordModel) -> Seq<u8> {
    magic() + u16_le(VERSION) + u16_le(0) + u64_le(record.sequence) + u32_le(
        record.payload.len() as u32,
    ) + u32_le(crc32(record.payload))
}

pub open spec fn record_bytes(record: RecordModel) -> Seq<u8> {
    header_bytes(record) + record.payload
}

/// The journal file that holds `records`.
pub open spec fn journal_bytes(records: Seq<RecordModel>) -> Seq<u8>
    decreases records.len(),
{
    if records.len() == 0 {
        Seq::empty()
    } else {
        record_bytes(records[0]) + journal_bytes(records.skip(1))
    }
}

pub open spec fn fits(record: RecordModel) -> bool {
    record.payload.len() <= MAX_RECORD_SIZE
}

/// The header of the record of `payload`.
pub fn record_header(sequence: u64, payload: &[u8]) -> (header: Vec<u8>)
    requires
        payload@.len() <= MAX_RECORD_SIZE,
    ensures
        header@ == header_bytes((RecordModel { sequence, payload: payload@ })),
        header@.len() == HEADER_SIZE,
{
    let mut header: Vec<u8> = Vec::with_capacity(HEADER_SIZE);
    header.push(0x43);
    header.push(0x53);
    header.push(0x4a);
    header.push(0x52);
    assert(header@ =~= magic());
    push_u16(&mut header, VERSION);
    push_u16(&mut header, 0);
    push_u64(&mut header, sequence);
    push_u32(&mut header, payload.len() as u32);
    push_u32(&mut header, crc32fast::hash(payload));
    proof {
        reveal(header_bytes);
    }
    header
}

// ---------------------------------------------------------------------------
// Reading records.

/// Why the bytes at some place are no record.
#[derive(Clone, Copy, Debug, PartialEq, Eq, Structural)]
pub enum IntegrityFault {
    PartialHeader,
    InvalidMagic,
    UnsupportedVersion(u16),
    OversizedRecord,
    PartialPayload,
    ChecksumMismatch,
}

/// What a header says.
#[derive(Clone, Copy, Debug, PartialEq, Eq, Structural)]
pub struct RecordHeader {
    pub sequence: u64,
    pub payload_len: usize,
    pub checksum: u32,
}

/// What a header of full length says, or why it is none.
pub open spec fn header_of(header: Seq<u8>) -> Result<RecordHeader, IntegrityFault> {
    if header.take(4) != magic() {
        Err(IntegrityFault::InvalidMagic)
    } else if le_u16(header.skip(4)) != VERSION {
        Err(IntegrityFault::UnsupportedVersion(le_u16(header.skip(4))))
    } else if le_u32(header.skip(16)) > MAX_RECORD_SIZE {
        Err(IntegrityFault::OversizedRecord)
    } else {
        Ok(
            RecordHeader {
                sequence: le_u64(header.skip(8)),
                payload_len: le_u32(header.skip(16)) as usize,
                checksum: le_u32(header.skip(20)),
            },
        )
    }
}

/// Reads a header.
pub fn parse_header(header: &[u8]) -> (parsed: Result<RecordHeader, IntegrityFault>)
    requires
        header@.len() == HEADER_SIZE,
    ensures
        parsed == header_of(header@),
{
    if header[0] != 0x43 || header[1] != 0x53 || header[2] != 0x4a || header[3] != 0x52 {
        proof {
            if header@.take(4) == magic() {
                assert(header@[0] == header@.take(4)[0]);
                assert(header@[1] == header@.take(4)[1]);
                assert(header@[2] == header@.take(4)[2]);
                assert(header@[3] == header@.take(4)[3]);
            }
        }
        return Err(IntegrityFault::InvalidMagic);
    }
    assert(header@.take(4) =~= magic());
    let version: u16 = read_u16(header, 4);
    if version != VERSION {
        return Err(IntegrityFault::UnsupportedVersion(version));
    }
    let payload_len: u32 = read_u32(header, 16);
    if payload_len as usize > MAX_RECORD_SIZE {
        return Err(IntegrityFault::OversizedRecord);
    }
    Ok(
        RecordHeader {
            sequence: read_u64(header, 8),
            payload_len: payload_len as usize,
            checksum: read_u32(header, 20),
        },
    )
}

/// What stands at one place of a journal.
pub enum ParsedRecord {
    End,
    Fault(IntegrityFault),
    Record(RecordModel, int),
}

/// The record at `at`, with the place behind it.
pub open spec fn parse_record(bytes: Seq<u8>, at: int) -> ParsedRecord {
    if at == bytes.len() {
        ParsedRecord::End
    } else if at + HEADER_SIZE > bytes.len() {
        ParsedRecord::Fault(IntegrityFault::PartialHeader)
    } else {
        match header_of(bytes.subrange(at, at + HEADER_SIZE)) {
            Err(fault) => ParsedRecord::Fault(fault),
            Ok(header) => {
                let start = at + HEADER_SIZE;
                let next = start + header.payload_len;
                if next > bytes.len() {
                    ParsedRecord::Fault(IntegrityFault::PartialPayload)
                } else if crc32(bytes.subrange(start, next)) != header.checksum {
                    ParsedRecord::Fault(IntegrityFault::ChecksumMismatch)
                } else {
                    ParsedRecord::Record(
                        RecordModel {
                            sequence: header.sequence,
                            payload: bytes.subrange(start, next),
                        },
                        next,
                    )
                }
            },
        }
    }
}

/// The records found, where they end, and what stopped the reading early.
#[verifier::ext_equal]
pub struct Scan {
    pub records: Seq<RecordModel>,
    pub end: int,
    pub fault: Option<IntegrityFault>,
}

/// The records from `at` on, up to the first thing that is none.
pub open spec fn scan_from(bytes: Seq<u8>, at: int) -> Scan
    decreases bytes.len() - at,
{
    if at < 0 || at > bytes.len() {
        Scan { records: Seq::empty(), end: at, fault: None }
    } else {
        match parse_record(bytes, at) {
            ParsedRecord::End => Scan { records: Seq::empty(), end: at, fault: None },
            ParsedRecord::Fault(fault) => Scan {
                records: Seq::empty(),
                end: at,
                fault: Some(fault),
            },
            ParsedRecord::Record(record, next) => {
                let rest = scan_from(bytes, next);
                Scan { records: seq![record] + rest.records, ..rest }
            },
        }
    }
}

proof fn lemma_scan_end(bytes: Seq<u8>, at: int)
    requires
        0 <= at <= bytes.len(),
    ensures
        at <= scan_from(bytes, at).end <= bytes.len(),
        scan_from(bytes, at).fault is None ==> scan_from(bytes, at).end == bytes.len(),
    decreases bytes.len() - at,
{
    if let ParsedRecord::Record(_, next) = parse_record(bytes, at) {
        lemma_scan_end(bytes, next);
    }
}

/// Every header has the same length.
pub proof fn lemma_header_len(record: RecordModel)
    ensures
        header_bytes(record).len() == HEADER_SIZE,
        record_bytes(record).len() == HEADER_SIZE + record.payload.len(),
{
    reveal(header_bytes);
}

proof fn lemma_header_round_trip(record: RecordModel)
    requires
        fits(record),
    ensures
        header_bytes(record).len() == HEADER_SIZE,
        header_of(header_bytes(record)) == Ok::<RecordHeader, IntegrityFault>(
            RecordHeader {
                sequence: record.sequence,
                payload_len: record.payload.len() as usize,
                checksum: crc32(record.payload),
            },
        ),
{
    reveal(header_bytes);
    let header = header_bytes(record);
    let length = record.payload.len() as u32;
    let checksum = crc32(record.payload);
    law_u16_round_trip(VERSION);
    law_u64_round_trip(record.sequence);
    law_u32_round_trip(length);
    law_u32_round_trip(checksum);
    assert(header.take(4) =~= magic());
    assert(header.skip(4) =~= u16_le(VERSION) + header.skip(6));
    crate::bytes::lemma_prefix_decides(u16_le(VERSION), header.skip(6));
    assert(header.skip(8) =~= u64_le(record.sequence) + header.skip(16));
    crate::bytes::lemma_prefix_decides(u64_le(record.sequence), header.skip(16));
    assert(header.skip(16) =~= u32_le(length) + header.skip(20));
    crate::bytes::lemma_prefix_decides(u32_le(length), header.skip(20));
    assert(header.skip(20) =~= u32_le(checksum));
}

/// Whole records in front of anything are read back, and reading goes on
/// behind them.
pub proof fn law_scan_reads_back(before: Seq<u8>, records: Seq<RecordModel>, after: Seq<u8>)
    requires
        forall|i: int| 0 <= i < records.len() ==> fits(#[trigger] records[i]),
    ensures
        ({
            let bytes = before + journal_bytes(records) + after;
            let from = before.len() as int;
            let rest = scan_from(bytes, from + journal_bytes(records).len());
            scan_from(bytes, from) == (Scan { records: records + rest.records, ..rest })
        }),
    decreases records.len(),
{
    let bytes = before + journal_bytes(records) + after;
    let from = before.len() as int;
    if records.len() == 0 {
        let rest = scan_from(bytes, from);
        assert(records + rest.records =~= rest.records);
    } else {
        let record = records[0];
        let header = header_bytes(record);
        lemma_header_round_trip(record);
        assert(fits(record));
        assert(bytes.subrange(from, from + HEADER_SIZE) =~= header);
        let start = from + HEADER_SIZE;
        let next = start + record.payload.len();
        assert(bytes.subrange(start, next) =~= record.payload);
        assert(parse_record(bytes, from) == ParsedRecord::Record(record, next));
        let behind = before + record_bytes(record);
        assert(behind + journal_bytes(records.skip(1)) + after =~= bytes);
        assert forall|i: int| 0 <= i < records.skip(1).len() implies fits(
            #[trigger] records.skip(1)[i],
        ) by {
            assert(fits(records[i + 1]));
        }
        law_scan_reads_back(behind, records.skip(1), after);
        let rest = scan_from(bytes, from + journal_bytes(records).len());
        assert(next + journal_bytes(records.skip(1)).len() == from + journal_bytes(records).len());
        assert(seq![record] + (records.skip(1) + rest.records) =~= records + rest.records);
    }
}

/// A journal reads back as the records that were appended, in order.
pub proof fn law_journal_round_trip(records: Seq<RecordModel>)
    requires
        forall|i: int| 0 <= i < records.len() ==> fits(#[trigger] records[i]),
    ensures
        scan_from(journal_bytes(records), 0) == (Scan {
            records,
            end: journal_bytes(records).len() as int,
            fault: None,
        }),
{
    let bytes = journal_bytes(records);
    law_scan_reads_back(Seq::empty(), records, Seq::empty());
    assert(Seq::<u8>::empty() + bytes + Seq::<u8>::empty() =~= bytes);
    let rest = scan_from(bytes, bytes.len() as int);
    assert(records + rest.records =~= records);
}

/// Appending a record to a journal appends its bytes to the file.
pub proof fn law_append_appends(records: Seq<RecordModel>, record: RecordModel)
    ensures
        journal_bytes(records.push(record)) == journal_bytes(records) + record_bytes(record),
    decreases records.len(),
{
    let all = records.push(record);
    let added = record_bytes(record);
    if records.len() == 0 {
        assert(all.skip(1) =~= Seq::empty());
        assert(journal_bytes(all.skip(1)) =~= Seq::empty());
        assert(all[0] == record);
        assert(journal_bytes(all) == added + Seq::<u8>::empty());
        assert(added + Seq::<u8>::empty() =~= Seq::<u8>::empty() + added);
    } else {
        assert(all.skip(1) =~= records.skip(1).push(record));
        law_append_appends(records.skip(1), record);
        lemma_concat_associative(
            record_bytes(records[0]),
            journal_bytes(records.skip(1)),
            added,
        );
    }
}

/// A damaged tail costs no committed record: whatever follows whole records,
/// they are all read back first.
pub proof fn law_tail_costs_no_record(records: Seq<RecordModel>, tail: Seq<u8>)
    requires
        forall|i: int| 0 <= i < records.len() ==> fits(#[trigger] records[i]),
    ensures
        ({
            let found = scan_from(journal_bytes(records) + tail, 0);
            &&& records.len() <= found.records.len()
            &&& found.records.take(records.len() as int) == records
            &&& found.end >= journal_bytes(records).len()
        }),
{
    law_scan_reads_back(Seq::empty(), records, tail);
    let bytes = journal_bytes(records) + tail;
    assert(Seq::<u8>::empty() + journal_bytes(records) + tail =~= bytes);
    let rest = scan_from(bytes, journal_bytes(records).len() as int);
    lemma_scan_end(bytes, journal_bytes(records).len() as int);
    assert((records + rest.records).take(records.len() as int) =~= records);
}

/// Cutting the file where the records end keeps every record and leaves
/// nothing to complain about.
pub proof fn law_repair_keeps_records(bytes: Seq<u8>, at: int)
    requires
        0 <= at <= bytes.len(),
    ensures
        ({
            let found = scan_from(bytes, at);
            scan_from(bytes.take(found.end), at) == (Scan { fault: None, ..found })
        }),
    decreases bytes.len() - at,
{
    let found = scan_from(bytes, at);
    lemma_scan_end(bytes, at);
    let cut = bytes.take(found.end);
    if let ParsedRecord::Record(record, next) = parse_record(bytes, at) {
        lemma_scan_end(bytes, next);
        law_repair_keeps_records(bytes, next);
        assert(cut.subrange(at, at + HEADER_SIZE) =~= bytes.subrange(at, at + HEADER_SIZE));
        assert(cut.subrange(at + HEADER_SIZE, next) =~= bytes.subrange(at + HEADER_SIZE, next));
    }
}

/// The message for a fault at byte `at`.
pub open spec fn fault_message(fault: IntegrityFault, at: nat) -> Seq<char> {
    match fault {
        IntegrityFault::PartialHeader => "partial header at byte "@ + decimal_text(at)
            + ": failed to fill whole buffer"@,
        IntegrityFault::InvalidMagic => "invalid magic at byte "@ + decimal_text(at),
        IntegrityFault::UnsupportedVersion(version) => "unsupported version "@ + decimal_text(
            version as nat,
        ) + " at byte "@ + decimal_text(at),
        IntegrityFault::OversizedRecord => "oversized record at byte "@ + decimal_text(at),
        IntegrityFault::PartialPayload => "partial payload at byte "@ + decimal_text(at)
            + ": failed to fill whole buffer"@,
        IntegrityFault::ChecksumMismatch => "checksum mismatch at byte "@ + decimal_text(at),
    }
}

pub fn fault_text(fault: IntegrityFault, at: u64) -> (text: String)
    ensures
        text@ == fault_message(fault, at as nat),
{
    let place = u64_text(at);
    match fault {
        IntegrityFault::PartialHeader => join(
            join("partial header at byte ", place.as_str()).as_str(),
            ": failed to fill whole buffer",
        ),
        IntegrityFault::InvalidMagic => join("invalid magic at byte ", place.as_str()),
        IntegrityFault::UnsupportedVersion(version) => {
            let number = u64_text(version as u64);
            let front = join("unsupported version ", number.as_str());
            join(join(front.as_str(), " at byte ").as_str(), place.as_str())
        },
        IntegrityFault::OversizedRecord => join("oversized record at byte ", place.as_str()),
        IntegrityFault::PartialPayload => join(
            join("partial payload at byte ", place.as_str()).as_str(),
            ": failed to fill whole buffer",
        ),
        IntegrityFault::ChecksumMismatch => join("checksum mismatch at byte ", place.as_str()),
    }
}

/// The message of a scan, if anything stopped it.
pub open spec fn scan_message(scan: Scan) -> Option<Seq<char>> {
    match scan.fault {
        Some(fault) => Some(fault_message(fault, scan.end as nat)),
        None => None,
    }
}

pub open spec fn text_view(text: Option<String>) -> Option<Seq<char>> {
    match text {
        Some(text) => Some(text@),
        None => None,
    }
}

/// Reads the records of a journal's bytes. With `repair_tail`, a report that
/// names a fault also says that the tail behind `valid_bytes` is to be cut.
pub fn scan(bytes: &[u8], repair_tail: bool) -> (report: ScanReport)
    ensures
        ({
            let found = scan_from(bytes@, 0);
            &&& record_views(report.records@) == found.records
            &&& report.valid_bytes == found.end
            &&& text_view(report.integrity_error) == scan_message(found)
            &&& report.repaired_tail == (repair_tail && found.fault is Some)
        }),
{
    let mut records: Vec<JournalRecord> = Vec::new();
    let mut offset: usize = 0;
    let ghost whole = scan_from(bytes@, 0);
    assert(record_views(records@) + whole.records =~= whole.records);
    loop
        invariant
            offset <= bytes@.len(),
            whole == scan_from(bytes@, 0),
            whole.records == record_views(records@) + scan_from(bytes@, offset as int).records,
            whole.end == scan_from(bytes@, offset as int).end,
            whole.fault == scan_from(bytes@, offset as int).fault,
        decreases bytes@.len() - offset,
    {
        assert(offset <= bytes.len());
        if offset == bytes.len() {
            assert(record_views(records@) =~= whole.records);
            return ScanReport {
                records,
                valid_bytes: offset as u64,
                repaired_tail: false,
                integrity_error: None,
            };
        }
        let fault: IntegrityFault = if bytes.len() - offset < HEADER_SIZE {
            IntegrityFault::PartialHeader
        } else {
            match parse_header(vstd::slice::slice_subrange(bytes, offset, offset + HEADER_SIZE)) {
                Err(fault) => fault,
                Ok(header) => {
                    let start: usize = offset + HEADER_SIZE;
                    if bytes.len() - start < header.payload_len {
                        IntegrityFault::PartialPayload
                    } else {
                        let next: usize = start + header.payload_len;
                        let payload = vstd::slice::slice_subrange(bytes, start, next);
                        if crc32fast::hash(payload) != header.checksum {
                            IntegrityFault::ChecksumMismatch
                        } else {
                            let ghost before = record_views(records@);
                            records.push(
                                JournalRecord {
                                    sequence: header.sequence,
                                    payload: vstd::slice::slice_to_vec(payload),
                                },
                            );
                            proof {
                                let record = records@.last()@;
                                let rest = scan_from(bytes@, next as int).records;
                                assert(record_views(records@) =~= before.push(record));
                                assert(before + (seq![record] + rest) =~= before.push(record)
                                    + rest);
                            }
                            offset = next;
                            continue;
                        }
                    }
                },
            }
        };
        assert(record_views(records@) =~= whole.records);
        return ScanReport {
            records,
            valid_bytes: offset as u64,
            repaired_tail: repair_tail,
            integrity_error: Some(fault_text(fault, offset as u64)),
        };
    }
}

} // verus!
