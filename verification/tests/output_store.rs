use cshell::ansi::JournalColor;
use cshell::cache_swap::{next_candidate, CacheFile, CacheSwap, SwapEvent};
use cshell::checkpoint::{
    confirm_last_block, load_segmented_cache, write_segmented_cache, CacheLoad, FileStamp,
};
use cshell::history_search::{
    answer_page, begin_search, check_matcher, empty_result, search_page, HistorySearchCursor,
    HistorySearchDirection, HistorySearchError, HistorySearchRequest, HistorySearchResult,
    SearchStart,
};
use cshell::journal::{
    scan, Durability, IoFailure, IoFailureKind, JournalError, HEADER_SIZE, MAX_RECORD_SIZE,
};
use cshell::line_blocks::{
    BlockedLineIndex, LineBlock, LineBlockEnds, LineLocation, LoadedLineBlock,
    LINE_BLOCK_HEADER_BYTES,
};
use cshell::line_index::JournalLineIndexState;
use cshell::log_page::{
    read_logical_range, JournalLogPage, JournalStyledLogPage, PageReadPlan, PageStep,
    MAX_LOG_PAGE_BYTES, MAX_LOG_PAGE_LINES,
};
use cshell::search_query::{regex_query, RegexQuery};
use cshell::segmented::{segment_suffix, SegmentedJournalWriter, MIN_SEGMENT_BYTES};
use cshell::writer::{
    post_commit_error, JournalWriter, WriteOutcome, DEFAULT_SEGMENT_BYTES,
};

const SMALL_SEGMENT: u64 = 35;

/// The files of a journal, in memory.
#[derive(Clone, Default)]
struct Files {
    segments: Vec<Vec<u8>>,
    store: Vec<u8>,
    cache: Option<Vec<u8>>,
    temporary_cache: Option<Vec<u8>>,
    cache_copy: Option<Vec<u8>>,
}

impl Files {
    fn stamps(&self) -> Vec<FileStamp> {
        self.segments.iter().map(|bytes| stamp(bytes)).collect()
    }

    fn seal(&mut self, index: &mut JournalLineIndexState, filled: &[usize]) {
        for at in filled {
            let write = index.completed_lines.seal_plan(*at);
            self.store.truncate(write.offset as usize);
            self.store.extend_from_slice(&write.header);
            self.store.extend_from_slice(&write.payload);
            index.completed_lines.seal_done(*at, &write);
        }
    }

    fn block(&self, cold: &cshell::line_blocks::ColdLineBlock) -> Result<Vec<u64>, JournalError> {
        let (offset, length) = cold.location()?;
        let start = offset as usize;
        let payload = start + LINE_BLOCK_HEADER_BYTES;
        if payload + length > self.store.len() {
            return Err(JournalError::Io(IoFailure {
                kind: IoFailureKind::UnexpectedEof,
                detail: "store is cut".to_owned(),
            }));
        }
        cold.load(&self.store[start..payload], &self.store[payload..payload + length])
    }

    fn plan(
        &self,
        index: &JournalLineIndexState,
        anchor: Option<u64>,
        before: usize,
        after: usize,
    ) -> Result<PageReadPlan, JournalError> {
        let anchor = index.page_anchor(anchor)?;
        let mut loaded = Vec::new();
        loop {
            match index.page_plan(anchor, before, after, &loaded)? {
                PageStep::Read(plan) => return Ok(plan),
                PageStep::Load(blocks) => {
                    for (block_index, cold) in blocks {
                        let ends = self.block(&cold)?;
                        loaded.push(LoadedLineBlock { block_index, ends });
                    }
                }
            }
        }
    }

    fn read(&self, plan: &PageReadPlan, range: (u64, u64)) -> Vec<u8> {
        let mut bytes = Vec::new();
        for piece in read_logical_range(&plan.records, range.0, range.1) {
            let start = piece.file_offset as usize;
            bytes.extend_from_slice(
                &self.segments[piece.segment_id as usize][start..start + piece.length],
            );
        }
        bytes
    }

    fn read_page(
        &self,
        index: &JournalLineIndexState,
        anchor: Option<u64>,
        before: usize,
        after: usize,
    ) -> Result<JournalLogPage, JournalError> {
        let plan = self.plan(index, anchor, before, after)?;
        plan.read(&self.read(&plan, plan.raw_range()))
    }

    fn read_styled_page(
        &self,
        index: &JournalLineIndexState,
        anchor: Option<u64>,
        before: usize,
        after: usize,
    ) -> Result<JournalStyledLogPage, JournalError> {
        let plan = self.plan(index, anchor, before, after)?;
        plan.read_styled(&self.read(&plan, plan.styled_range()))
    }

    fn search(
        &self,
        index: &JournalLineIndexState,
        request: &HistorySearchRequest,
    ) -> Result<HistorySearchResult, HistorySearchError> {
        let total = index.line_count() as u64;
        match begin_search(request, total)? {
            SearchStart::Empty => Ok(empty_result(index.revision)),
            SearchStart::Read(window) => {
                let page = self
                    .read_styled_page(
                        index,
                        Some(window.cursor.line_id),
                        window.rows_before,
                        window.rows_after,
                    )
                    .unwrap();
                search_page(request, window.cursor, &page, total)
            }
        }
    }
}

fn stamp(bytes: &[u8]) -> FileStamp {
    FileStamp { len: bytes.len() as u64, modified_seconds: 1, modified_nanos: 2 }
}

/// The bytes that an index takes in memory.
fn resident_bytes(index: &BlockedLineIndex) -> usize {
    let ends: usize = index
        .blocks
        .iter()
        .map(|block| match &block.ends {
            LineBlockEnds::Narrow(ends) => ends.capacity() * 4,
            LineBlockEnds::Wide(ends) => ends.capacity() * 8,
            LineBlockEnds::Cold(_) => 0,
        })
        .sum();
    ends + index.blocks.capacity() * size_of::<LineBlock>()
}

fn storage_full() -> IoFailure {
    IoFailure { kind: IoFailureKind::StorageFull, detail: "no space".to_owned() }
}

/// A journal of one file.
struct Journal {
    files: Files,
    writer: JournalWriter,
    fail_after: Option<usize>,
    fail_rollback: bool,
}

impl Journal {
    fn open(mut files: Files) -> Self {
        if files.segments.is_empty() {
            files.segments.push(Vec::new());
        }
        let (mut writer, filled) = JournalWriter::create(&files.segments[0], Durability::Ephemeral);
        files.segments[0].truncate(writer.next_file_offset as usize);
        files.store.clear();
        files.seal(&mut writer.line_index, &filled);
        Journal { files, writer, fail_after: None, fail_rollback: false }
    }

    fn append(&mut self, payload: &[u8]) -> Result<u64, JournalError> {
        let write = self.writer.append(payload)?;
        assert!(write.new_segment.is_none());
        let file = &mut self.files.segments[0];
        assert_eq!(file.len() as u64, write.offset);
        let mut record = write.header.clone();
        record.extend_from_slice(payload);
        let outcome = match self.fail_after {
            None => {
                file.extend_from_slice(&record);
                WriteOutcome::Written
            }
            Some(count) if self.fail_rollback => {
                file.extend_from_slice(&record[..count]);
                WriteOutcome::Stuck {
                    write_error: "no space".to_owned(),
                    rollback_error: "cannot truncate".to_owned(),
                }
            }
            Some(_) => WriteOutcome::RolledBack(storage_full()),
        };
        let committed = self.writer.finish_append(payload, outcome)?;
        self.files.seal(&mut self.writer.line_index, &committed.filled);
        Ok(committed.sequence)
    }

    fn page(
        &self,
        anchor: Option<u64>,
        before: usize,
        after: usize,
    ) -> Result<JournalLogPage, JournalError> {
        self.files.read_page(&self.writer.line_index, anchor, before, after)
    }

    fn search(
        &self,
        request: &HistorySearchRequest,
    ) -> Result<HistorySearchResult, HistorySearchError> {
        self.files.search(&self.writer.line_index, request)
    }
}

/// A journal of several files.
#[derive(Debug)]
struct Segmented {
    files: Files,
    writer: SegmentedJournalWriter,
    from_cache: bool,
}

impl std::fmt::Debug for Files {
    fn fmt(&self, out: &mut std::fmt::Formatter<'_>) -> std::fmt::Result {
        out.write_str("files")
    }
}

impl Segmented {
    fn open(mut files: Files, max_segment_bytes: u64) -> Result<Self, JournalError> {
        let mut writer = SegmentedJournalWriter::create(Durability::Ephemeral, max_segment_bytes)?;
        if files.segments.is_empty() {
            files.segments.push(Vec::new());
        }
        let last = files.segments.len() - 1;
        let mut tried = None;
        while let Some(file) = next_candidate(tried) {
            tried = Some(file);
            let held = match file {
                CacheFile::Primary => &files.cache,
                CacheFile::Temporary => &files.temporary_cache,
                CacheFile::Copy => &files.cache_copy,
            };
            let Some(cache) = held else {
                continue;
            };
            let load = load_segmented_cache(cache, &files.stamps(), Some(stamp(&files.store)))?;
            let state = match load {
                CacheLoad::Refused => None,
                CacheLoad::Usable(state) => Some(state),
                CacheLoad::CheckLastBlock(state, cold) => match files.block(&cold) {
                    Ok(ends) if confirm_last_block(&state, &ends) => Some(state),
                    _ => None,
                },
            };
            if let Some(state) = state {
                let length = files.segments[last].len() as u64;
                writer.resume(state, last as u32, length);
                return Ok(Segmented { files, writer, from_cache: true });
            }
        }
        files.store.clear();
        for id in 0..=last {
            let added = writer.add_segment(id as u32, &files.segments[id].clone(), id == last)?;
            if added.repair_tail {
                files.segments[id].truncate(added.valid_bytes as usize);
            }
            files.seal(&mut writer.line_index, &added.filled);
        }
        Ok(Segmented { files, writer, from_cache: false })
    }

    fn append(&mut self, payload: &[u8]) -> Result<u64, JournalError> {
        self.append_with(payload, None, None)
    }

    fn append_with(
        &mut self,
        payload: &[u8],
        write_failure: Option<WriteOutcome>,
        store_failure: Option<IoFailure>,
    ) -> Result<u64, JournalError> {
        let write = self.writer.append(payload)?;
        if let Some(id) = write.new_segment {
            assert_eq!(id as usize, self.files.segments.len());
            self.files.segments.push(Vec::new());
            self.writer.rotate();
        }
        if let Some(outcome) = write_failure {
            return self.writer.finish_append(payload, outcome).map(|done| done.sequence);
        }
        let file = self.files.segments.last_mut().unwrap();
        assert_eq!(file.len() as u64, write.offset);
        file.extend_from_slice(&write.header);
        file.extend_from_slice(payload);
        let committed = self.writer.finish_append(payload, WriteOutcome::Written)?;
        if let (Some(failure), false) = (store_failure, committed.filled.is_empty()) {
            return Err(post_commit_error(committed.sequence, JournalError::Io(failure)));
        }
        self.files.seal(&mut self.writer.line_index, &committed.filled);
        Ok(committed.sequence)
    }

    fn flush(&mut self) {
        self.files.cache = Some(write_segmented_cache(
            &self.writer.line_index,
            &self.files.stamps(),
            Some(stamp(&self.files.store)),
        ));
    }

    fn line_count(&self) -> usize {
        self.writer.line_index.line_count()
    }

    fn page(
        &self,
        anchor: Option<u64>,
        before: usize,
        after: usize,
    ) -> Result<JournalLogPage, JournalError> {
        self.files.read_page(&self.writer.line_index, anchor, before, after)
    }

    fn styled_page(
        &self,
        anchor: Option<u64>,
        before: usize,
        after: usize,
    ) -> Result<JournalStyledLogPage, JournalError> {
        self.files.read_styled_page(&self.writer.line_index, anchor, before, after)
    }
}

// ---------------------------------------------------------------------------
// Journals.

#[test]
fn round_trip_preserves_order_and_bytes() {
    let mut journal = Journal::open(Files::default());
    assert_eq!(journal.append(b"alpha").unwrap(), 0);
    assert_eq!(journal.append(b"beta\0gamma").unwrap(), 1);

    let report = scan(&journal.files.segments[0], false);
    assert_eq!(report.records.len(), 2);
    assert_eq!(report.records[1].payload, b"beta\0gamma");
    assert!(report.integrity_error.is_none());
}

#[test]
fn corrupt_tail_is_reported_and_repaired() {
    let mut journal = Journal::open(Files::default());
    journal.append(b"valid").unwrap();
    let mut bytes = journal.files.segments[0].clone();
    bytes.extend_from_slice(b"broken-tail");

    let report = scan(&bytes, true);
    assert!(report.repaired_tail);
    assert!(report.integrity_error.is_some());
    bytes.truncate(report.valid_bytes as usize);
    let report = scan(&bytes, false);
    assert_eq!(report.records.len(), 1);
    assert!(report.integrity_error.is_none());
}

#[test]
fn partial_record_write_rolls_back_and_can_retry_without_sequence_gap() {
    let mut journal = Journal::open(Files::default());
    assert_eq!(journal.append(b"old\n").unwrap(), 0);
    let committed_bytes = journal.files.segments[0].len();
    journal.fail_after = Some(HEADER_SIZE + 3);

    let error = journal.append(b"new\n").unwrap_err();
    assert!(matches!(error, JournalError::Io(ref source)
        if source.kind == IoFailureKind::StorageFull));
    assert_eq!(journal.files.segments[0].len(), committed_bytes);
    assert_eq!(journal.writer.line_index.line_count(), 1);

    journal.fail_after = None;
    assert_eq!(journal.append(b"new\n").unwrap(), 1);
    let report = scan(&journal.files.segments[0], false);
    assert_eq!(
        report.records.iter().map(|record| record.sequence).collect::<Vec<_>>(),
        vec![0, 1]
    );
    assert_eq!(journal.writer.line_index.line_count(), 2);
}

#[test]
fn rollback_failure_poisons_writer_until_reopen_repairs_the_tail() {
    let mut journal = Journal::open(Files::default());
    journal.append(b"old\n").unwrap();
    journal.fail_after = Some(HEADER_SIZE + 1);
    journal.fail_rollback = true;

    assert!(matches!(
        journal.append(b"broken\n"),
        Err(JournalError::JournalTailRollback { record_start: 28, .. })
    ));
    assert!(matches!(
        journal.append(b"must-not-write\n"),
        Err(JournalError::JournalWriterPoisoned)
    ));

    let mut journal = Journal::open(journal.files);
    assert_eq!(journal.writer.line_index.line_count(), 1);
    assert_eq!(journal.append(b"recovered\n").unwrap(), 1);
    assert_eq!(journal.writer.line_index.line_count(), 2);
    assert!(scan(&journal.files.segments[0], false).integrity_error.is_none());
}

#[test]
fn oversized_records_are_refused() {
    let mut journal = Journal::open(Files::default());
    let payload = vec![0; MAX_RECORD_SIZE + 1];
    assert!(matches!(
        journal.append(&payload),
        Err(JournalError::RecordTooLarge { actual, limit: MAX_RECORD_SIZE })
            if actual == MAX_RECORD_SIZE + 1
    ));
}

#[test]
fn each_fault_of_a_record_is_named() {
    let mut journal = Journal::open(Files::default());
    journal.append(b"payload").unwrap();
    let good = journal.files.segments[0].clone();
    let fault = |bytes: &[u8]| scan(bytes, false).integrity_error.unwrap();

    assert_eq!(fault(&good[..10]), "partial header at byte 0: failed to fill whole buffer");
    assert_eq!(fault(&good[..HEADER_SIZE + 3]), "partial payload at byte 0: failed to fill whole buffer");
    let mut bytes = good.clone();
    bytes[0] = b'x';
    assert_eq!(fault(&bytes), "invalid magic at byte 0");
    let mut bytes = good.clone();
    bytes[4] = 9;
    assert_eq!(fault(&bytes), "unsupported version 9 at byte 0");
    let mut bytes = good.clone();
    bytes[19] = 0xff;
    assert_eq!(fault(&bytes), "oversized record at byte 0");
    let mut bytes = good.clone();
    *bytes.last_mut().unwrap() ^= 1;
    assert_eq!(fault(&bytes), "checksum mismatch at byte 0");
    assert!(scan(&good, false).integrity_error.is_none());
}

// ---------------------------------------------------------------------------
// Lines.

#[test]
fn incremental_index_reads_lines_across_record_boundaries_without_holding_payloads() {
    let mut journal = Journal::open(Files::default());
    journal.append(b"first\r\nsec").unwrap();
    journal.append(b"ond\n\nlast").unwrap();

    assert_eq!(journal.writer.line_index.line_count(), 4);
    let page = journal.page(Some(2), 1, 2).unwrap();
    assert_eq!(page.anchor_line_id, 2);
    assert_eq!(page.total_line_count, 4);
    assert_eq!(
        page.rows
            .iter()
            .map(|row| (row.line_id, row.bytes.as_slice(), row.truncated))
            .collect::<Vec<_>>(),
        vec![
            (1, b"first".as_slice(), false),
            (2, b"second".as_slice(), false),
            (3, b"".as_slice(), false),
            (4, b"last".as_slice(), false),
        ]
    );
    assert!(!page.has_before);
    assert!(!page.has_after);
}

#[test]
fn reopened_writer_rebuilds_the_index_and_keeps_line_ids_stable() {
    let mut journal = Journal::open(Files::default());
    journal.append(b"one\ntwo").unwrap();
    let mut journal = Journal::open(journal.files);
    assert_eq!(journal.writer.line_index.line_count(), 2);
    journal.append(b" continued\nthree").unwrap();
    let page = journal.page(None, 2, 0).unwrap();
    assert_eq!(page.anchor_line_id, 3);
    assert_eq!(page.rows[1].bytes, b"two continued");
    assert_eq!(page.rows[2].bytes, b"three");
}

#[test]
fn page_limits_rows_and_truncates_an_oversized_anchor_line() {
    let mut journal = Journal::open(Files::default());
    for _ in 0..MAX_LOG_PAGE_LINES + 10 {
        journal.append(b"x\n").unwrap();
    }
    let page = journal.page(None, MAX_LOG_PAGE_LINES * 2, 0).unwrap();
    assert_eq!(page.rows.len(), MAX_LOG_PAGE_LINES);
    assert!(page.has_before);

    let mut huge = Journal::open(Files::default());
    huge.append(&vec![b'z'; MAX_LOG_PAGE_BYTES + 17]).unwrap();
    let page = huge.page(None, 0, 0).unwrap();
    assert_eq!(page.rows[0].bytes.len(), MAX_LOG_PAGE_BYTES);
    assert!(page.rows[0].truncated);
}

#[test]
fn blocked_line_directory_uses_about_four_bytes_per_short_line() {
    const LINE_COUNT: usize = 250_000;
    let mut journal = Journal::open(Files::default());
    journal.append(&b"x\n".repeat(LINE_COUNT)).unwrap();

    assert_eq!(journal.writer.line_index.line_count(), LINE_COUNT);
    assert!(!journal.files.store.is_empty());
    let resident_before_reads = resident_bytes(&journal.writer.line_index.completed_lines);
    assert!(resident_before_reads < 64 * 1024);
    let page = journal.page(Some((LINE_COUNT / 2) as u64), 1, 1).unwrap();
    assert_eq!(page.rows.len(), 3);
    assert!(page.rows.iter().all(|row| row.bytes == b"x"));
    journal.page(Some(2), 1, 1).unwrap();
    journal.page(Some(LINE_COUNT as u64), 1, 0).unwrap();
    assert_eq!(
        resident_bytes(&journal.writer.line_index.completed_lines),
        resident_before_reads
    );
}

#[test]
fn corrupt_cold_line_block_is_reported_without_falling_back_to_bad_offsets() {
    let mut journal = Journal::open(Files::default());
    journal.append(&b"x\n".repeat(4096)).unwrap();
    journal.files.store[LINE_BLOCK_HEADER_BYTES] = 0xff;
    assert!(matches!(
        journal.page(Some(1), 0, 0),
        Err(JournalError::CorruptLineBlock { block_id: 0, .. })
    ));
}

#[test]
fn partial_cold_block_write_keeps_committed_journal_recoverable() {
    let mut journal = Segmented::open(Files::default(), DEFAULT_SEGMENT_BYTES).unwrap();
    journal.append(&b"old\n".repeat(4096)).unwrap();

    assert!(matches!(
        journal.append_with(&b"new\n".repeat(4096), None, Some(storage_full())),
        Err(JournalError::PostCommitIndex { sequence: 1, source })
            if matches!(*source, JournalError::Io(ref error)
                if error.kind == IoFailureKind::StorageFull)
    ));
    assert_eq!(journal.line_count(), 8192);
    let boundary = journal.page(Some(4096), 0, 1).unwrap();
    assert_eq!(boundary.rows[0].bytes, b"old");
    assert_eq!(boundary.rows[1].bytes, b"new");
    assert_eq!(journal.append(b"tail").unwrap(), 2);

    let report = scan(&journal.files.segments[0], false);
    assert_eq!(
        report.records.iter().map(|record| record.sequence).collect::<Vec<_>>(),
        vec![0, 1, 2]
    );
    let journal = Segmented::open(journal.files, DEFAULT_SEGMENT_BYTES).unwrap();
    assert_eq!(journal.line_count(), 8193);
    assert_eq!(journal.page(Some(8193), 0, 0).unwrap().rows[0].bytes, b"tail");
}

#[test]
fn oversized_logical_block_upgrades_without_losing_offsets() {
    let mut index = BlockedLineIndex::new(false);
    let end = u64::from(u32::MAX) + 17;
    index.push(0, end);
    assert_eq!(index.line(0, &Vec::new()), Some(LineLocation { start: 0, end }));
}

#[test]
fn unknown_lines_are_refused() {
    let mut journal = Journal::open(Files::default());
    journal.append(b"one\ntwo").unwrap();
    assert!(matches!(journal.page(Some(3), 0, 0), Err(JournalError::UnknownLine(3))));
    assert!(matches!(journal.page(Some(0), 0, 0), Err(JournalError::UnknownLine(0))));
}

// ---------------------------------------------------------------------------
// Segments.

#[test]
fn rotates_and_reads_a_line_across_segment_boundaries() {
    let mut journal = Segmented::open(Files::default(), SMALL_SEGMENT).unwrap();
    journal.append(b"first ").unwrap();
    journal.append(b"line\nsecond").unwrap();
    assert_eq!(journal.writer.segment_count(), 2);

    let page = journal.page(None, 1, 0).unwrap();
    assert_eq!(page.rows.len(), 2);
    assert_eq!(page.rows[0].bytes, b"first line");
    assert_eq!(page.rows[1].bytes, b"second");
}

#[test]
fn partial_segment_record_write_rolls_back_without_advancing_indexes() {
    let mut journal = Segmented::open(Files::default(), DEFAULT_SEGMENT_BYTES).unwrap();
    journal.append(b"old\n").unwrap();
    let error = journal
        .append_with(b"bad\n", Some(WriteOutcome::RolledBack(storage_full())), None)
        .unwrap_err();
    assert!(matches!(error, JournalError::Io(ref source)
        if source.kind == IoFailureKind::StorageFull));
    assert_eq!(journal.line_count(), 1);
    assert_eq!(journal.append(b"new\n").unwrap(), 1);
    assert_eq!(journal.line_count(), 2);
}

#[test]
fn reopen_preserves_global_sequence_and_line_ids() {
    let mut journal = Segmented::open(Files::default(), SMALL_SEGMENT).unwrap();
    journal.append(b"one\n").unwrap();
    journal.append(b"two").unwrap();
    journal.flush();

    let mut journal = Segmented::open(journal.files, SMALL_SEGMENT).unwrap();
    assert!(journal.from_cache);
    assert_eq!(journal.append(b" continued\nthree").unwrap(), 2);
    let page = journal.page(None, 2, 0).unwrap();
    assert_eq!(page.rows[0].line_id, 1);
    assert_eq!(page.rows[1].bytes, b"two continued");
    assert_eq!(page.rows[2].bytes, b"three");
}

#[test]
fn repairs_only_the_last_segment_tail() {
    let mut journal = Segmented::open(Files::default(), SMALL_SEGMENT).unwrap();
    journal.append(b"one\n").unwrap();
    journal.append(b"two\n").unwrap();
    journal.flush();
    journal.files.segments.last_mut().unwrap().extend_from_slice(b"broken");

    let journal = Segmented::open(journal.files, SMALL_SEGMENT).unwrap();
    assert_eq!(journal.line_count(), 2);
    assert!(scan(journal.files.segments.last().unwrap(), false).integrity_error.is_none());
}

#[test]
fn rejects_corruption_in_a_sealed_segment() {
    let mut journal = Segmented::open(Files::default(), SMALL_SEGMENT).unwrap();
    journal.append(b"one\n").unwrap();
    journal.append(b"two\n").unwrap();
    journal.flush();
    journal.files.segments[0].extend_from_slice(b"broken");

    let error = Segmented::open(journal.files, SMALL_SEGMENT).unwrap_err();
    assert!(matches!(error, JournalError::CorruptSegment { segment_id: 0, .. }));
}

#[test]
fn a_gap_in_the_sequence_is_refused() {
    let mut first = Segmented::open(Files::default(), SMALL_SEGMENT).unwrap();
    first.append(b"one\n").unwrap();
    first.append(b"two\n").unwrap();
    first.append(b"three\n").unwrap();
    let mut files = first.files;
    files.segments.remove(1);
    files.cache = None;
    assert!(matches!(
        Segmented::open(files, SMALL_SEGMENT).unwrap_err(),
        JournalError::SequenceGap { segment_id: 1, expected: 1, actual: 2 }
    ));
}

#[test]
fn segments_that_hold_no_record_are_refused() {
    assert!(matches!(
        Segmented::open(Files::default(), 24).unwrap_err(),
        JournalError::InvalidSegmentSize { actual: 24, minimum: MIN_SEGMENT_BYTES }
    ));
}

#[test]
fn segment_names_have_eight_digits() {
    assert_eq!(segment_suffix(1), ".00000001");
    assert_eq!(segment_suffix(4_294_967_295), ".4294967295");
}

#[test]
fn ignores_a_torn_index_checkpoint_and_rebuilds_from_segments() {
    let mut journal = Segmented::open(Files::default(), SMALL_SEGMENT).unwrap();
    journal.append(b"one\ntwo").unwrap();
    journal.files.cache = Some(b"torn".to_vec());

    let journal = Segmented::open(journal.files, SMALL_SEGMENT).unwrap();
    assert!(!journal.from_cache);
    let page = journal.page(None, 1, 0).unwrap();
    assert_eq!(page.rows[0].bytes, b"one");
    assert_eq!(page.rows[1].bytes, b"two");
}

#[test]
fn stale_checkpoint_after_unflushed_append_rebuilds_all_cold_blocks() {
    let mut journal = Segmented::open(Files::default(), DEFAULT_SEGMENT_BYTES).unwrap();
    journal.append(&b"old\n".repeat(4096)).unwrap();
    journal.flush();
    journal.append(&b"new\n".repeat(4096)).unwrap();

    let journal = Segmented::open(journal.files, DEFAULT_SEGMENT_BYTES).unwrap();
    assert!(!journal.from_cache);
    assert_eq!(journal.line_count(), 8192);
    assert_eq!(
        journal
            .page(Some(4096), 0, 1)
            .unwrap()
            .rows
            .iter()
            .map(|row| row.bytes.as_slice())
            .collect::<Vec<_>>(),
        vec![b"old".as_slice(), b"new".as_slice()]
    );
}

#[test]
fn failed_temporary_checkpoint_write_preserves_the_previous_checkpoint() {
    let mut journal = Segmented::open(Files::default(), SMALL_SEGMENT).unwrap();
    journal.append(b"old\n").unwrap();
    journal.flush();
    let previous = journal.files.cache.clone();
    journal.append(b"new\n").unwrap();
    journal.files.temporary_cache = Some(b"half".to_vec());
    assert_eq!(journal.files.cache, previous);

    let journal = Segmented::open(journal.files, SMALL_SEGMENT).unwrap();
    assert!(!journal.from_cache);
    assert_eq!(journal.line_count(), 2);
}

#[test]
fn complete_temporary_checkpoint_is_a_startup_recovery_candidate() {
    let mut journal = Segmented::open(Files::default(), SMALL_SEGMENT).unwrap();
    journal.append(b"recoverable\n").unwrap();
    journal.flush();
    journal.files.temporary_cache = journal.files.cache.take();

    let journal = Segmented::open(journal.files, SMALL_SEGMENT).unwrap();
    assert!(journal.from_cache);
    assert_eq!(journal.page(Some(1), 0, 0).unwrap().rows[0].bytes, b"recoverable");
}

#[test]
fn backup_checkpoint_is_a_startup_recovery_candidate() {
    let mut journal = Segmented::open(Files::default(), SMALL_SEGMENT).unwrap();
    journal.append(b"backup\n").unwrap();
    journal.flush();
    journal.files.cache_copy = journal.files.cache.take();

    let journal = Segmented::open(journal.files, SMALL_SEGMENT).unwrap();
    assert!(journal.from_cache);
    assert_eq!(journal.page(Some(1), 0, 0).unwrap().rows[0].bytes, b"backup");
}

#[test]
fn persisted_topology_rejects_a_missing_middle_segment() {
    let mut journal = Segmented::open(Files::default(), SMALL_SEGMENT).unwrap();
    journal.append(b"one\n").unwrap();
    journal.append(b"two\n").unwrap();
    journal.append(b"three\n").unwrap();
    journal.flush();
    assert_eq!(journal.writer.segment_count(), 3);
    journal.files.segments.truncate(1);

    let error = Segmented::open(journal.files, SMALL_SEGMENT).unwrap_err();
    assert!(matches!(error, JournalError::MissingSegment { segment_id: 1 }));
}

#[test]
fn ansi_checkpoint_restores_style_across_segment_and_restart() {
    let mut journal = Segmented::open(Files::default(), SMALL_SEGMENT).unwrap();
    journal.append(b"\x1b[38;5;196mfirst\n").unwrap();
    journal.append(b"second\x1b[0m\nplain").unwrap();
    journal.flush();
    assert_eq!(journal.writer.segment_count(), 2);

    let journal = Segmented::open(journal.files, SMALL_SEGMENT).unwrap();
    assert!(journal.from_cache);
    let page = journal.styled_page(Some(2), 0, 1).unwrap();
    assert_eq!(page.rows[0].text, "second");
    assert_eq!(page.rows[0].style_spans.len(), 1);
    assert_eq!(page.rows[0].style_spans[0].style.foreground, JournalColor::Indexed(196));
    assert_eq!(page.rows[1].text, "plain");
    assert!(page.rows[1].style_spans.is_empty());
}

#[test]
fn ansi_checkpoint_handles_a_csi_split_across_records() {
    let mut journal = Segmented::open(Files::default(), SMALL_SEGMENT).unwrap();
    journal.append(b"\x1b[38;2;10;").unwrap();
    journal.append(b"20;30mcolored\n").unwrap();

    let page = journal.styled_page(None, 0, 0).unwrap();
    assert_eq!(page.rows[0].text, "colored");
    assert_eq!(page.rows[0].style_spans[0].style.foreground, JournalColor::Rgb(10, 20, 30));
}

#[test]
fn ansi_checkpoint_restores_colon_true_color_after_restart() {
    let mut journal = Segmented::open(Files::default(), SMALL_SEGMENT).unwrap();
    journal.append(b"\x1b[38:2::10:20:30mfirst\n").unwrap();
    journal.append(b"second\x1b[0m\n").unwrap();
    journal.flush();

    let journal = Segmented::open(journal.files, SMALL_SEGMENT).unwrap();
    let page = journal.styled_page(Some(2), 0, 0).unwrap();
    assert_eq!(page.rows[0].text, "second");
    assert_eq!(page.rows[0].style_spans[0].style.foreground, JournalColor::Rgb(10, 20, 30));
}

#[test]
fn checkpoint_round_trip_preserves_multiple_line_blocks() {
    const LINE_COUNT: usize = 262_144;
    let mut journal = Segmented::open(Files::default(), DEFAULT_SEGMENT_BYTES).unwrap();
    journal.append(&b"x\n".repeat(LINE_COUNT)).unwrap();
    journal.flush();
    assert!(journal.files.cache.as_ref().unwrap().len() < 8 * 1024);
    let initial_store_bytes = journal.files.store.len();

    let mut journal = Segmented::open(journal.files, DEFAULT_SEGMENT_BYTES).unwrap();
    assert!(journal.from_cache);
    assert_eq!(journal.line_count(), LINE_COUNT);
    let page = journal.page(Some(131_073), 1, 1).unwrap();
    assert_eq!(page.rows.len(), 3);
    assert!(page.rows.iter().all(|row| row.bytes == b"x"));

    journal.append(&b"y\n".repeat(4_096)).unwrap();
    assert_eq!(journal.line_count(), 266_240);
    journal.flush();
    assert!(journal.files.store.len() > initial_store_bytes);

    let journal = Segmented::open(journal.files, DEFAULT_SEGMENT_BYTES).unwrap();
    assert!(journal.from_cache);
    assert_eq!(journal.line_count(), 266_240);
    assert_eq!(journal.page(Some(1), 0, 0).unwrap().rows[0].bytes, b"x");
    assert_eq!(journal.page(Some(266_240), 0, 0).unwrap().rows[0].bytes, b"y");
}

#[test]
fn changed_cold_store_invalidates_checkpoint_and_rebuilds_from_journal() {
    let mut journal = Segmented::open(Files::default(), DEFAULT_SEGMENT_BYTES).unwrap();
    journal.append(&b"safe\n".repeat(4096)).unwrap();
    journal.flush();
    let store_len = journal.files.store.len();
    journal.files.store.truncate(store_len - 1);

    let journal = Segmented::open(journal.files, DEFAULT_SEGMENT_BYTES).unwrap();
    assert!(!journal.from_cache);
    assert_eq!(journal.line_count(), 4096);
    assert_eq!(journal.page(Some(1), 0, 0).unwrap().rows[0].bytes, b"safe");
}

// ---------------------------------------------------------------------------
// Searching.

fn history() -> Journal {
    let mut journal = Journal::open(Files::default());
    journal
        .append(b"zero\n\x1b[31mError one\x1b[0m\nwide \xe7\x95\x8c Error two\nERROR_THREE\ntail")
        .unwrap();
    journal
}

#[test]
fn forward_search_is_ansi_decoded_and_continues_within_a_line() {
    let journal = history();
    let mut request = HistorySearchRequest::forward("error");
    request.max_matches = 1;
    let first = journal.search(&request).unwrap();
    assert_eq!(first.matches[0].line_id, 2);
    assert_eq!(first.matches[0].byte_start, 0);
    assert_eq!(first.next_cursor.unwrap().line_id, 2);

    request.cursor = first.next_cursor;
    let second = journal.search(&request).unwrap();
    assert_eq!(second.matches[0].line_id, 3);
    assert_eq!(
        &"wide 界 Error two"[second.matches[0].byte_start..second.matches[0].byte_end],
        "Error"
    );
}

#[test]
fn backward_regex_search_preserves_order_and_cursor() {
    let journal = history();
    let mut request = HistorySearchRequest::forward("Error|ERROR");
    request.direction = HistorySearchDirection::Backward;
    request.options.regex = true;
    request.options.case_sensitive = true;
    request.max_matches = 2;
    let first = journal.search(&request).unwrap();
    assert_eq!(first.matches.iter().map(|item| item.line_id).collect::<Vec<_>>(), vec![4, 3]);
    request.cursor = first.next_cursor;
    let second = journal.search(&request).unwrap();
    assert_eq!(second.matches.iter().map(|item| item.line_id).collect::<Vec<_>>(), vec![2]);
    assert!(second.next_cursor.is_none());
}

#[test]
fn scan_and_match_limits_are_hard_bounds() {
    let mut journal = Journal::open(Files::default());
    journal.append(&b"hit hit\n".repeat(5000)).unwrap();
    let mut request = HistorySearchRequest::forward("hit");
    request.max_scan_lines = 17;
    request.max_matches = 7;
    let result = journal.search(&request).unwrap();
    assert_eq!(result.scanned_lines, 4);
    assert_eq!(result.matches.len(), 7);
    assert_eq!(result.next_cursor, Some(HistorySearchCursor { line_id: 4, byte_offset: 3 }));
}

#[test]
fn validation_rejects_empty_matching_regex_and_bad_utf8_cursor() {
    let journal = history();
    let mut request = HistorySearchRequest::forward("a*");
    request.options.regex = true;
    assert!(matches!(journal.search(&request), Err(HistorySearchError::EmptyRegexMatch)));

    request.query = "wide".to_owned();
    request.options.regex = false;
    request.cursor = Some(HistorySearchCursor { line_id: 3, byte_offset: 6 });
    assert!(matches!(journal.search(&request), Err(HistorySearchError::InvalidCursor(3))));
}

#[test]
fn requests_out_of_bounds_are_refused() {
    let journal = history();
    let refused = |request: &HistorySearchRequest| journal.search(request).unwrap_err();
    assert!(matches!(
        refused(&HistorySearchRequest::forward("")),
        HistorySearchError::EmptyQuery
    ));
    assert!(matches!(
        refused(&HistorySearchRequest::forward(&"x".repeat(100_000))),
        HistorySearchError::QueryTooLong { actual: 100_000, .. }
    ));
    let mut request = HistorySearchRequest::forward("x");
    request.max_scan_lines = 0;
    assert!(matches!(refused(&request), HistorySearchError::InvalidScanLimit));
    let mut request = HistorySearchRequest::forward("x");
    request.max_matches = 0;
    assert!(matches!(refused(&request), HistorySearchError::InvalidMatchLimit));
    let mut request = HistorySearchRequest::forward("(");
    request.options.regex = true;
    assert!(matches!(refused(&request), HistorySearchError::InvalidRegex(_)));
    let mut request = HistorySearchRequest::forward("x");
    request.cursor = Some(HistorySearchCursor { line_id: 9, byte_offset: 0 });
    assert!(matches!(
        refused(&request),
        HistorySearchError::Journal(JournalError::UnknownLine(9))
    ));
}

#[test]
fn an_empty_journal_has_no_matches() {
    let journal = Journal::open(Files::default());
    let result = journal.search(&HistorySearchRequest::forward("x")).unwrap();
    assert!(result.matches.is_empty());
    assert_eq!(result.scanned_lines, 0);
    assert!(result.next_cursor.is_none());
}

#[test]
fn queries_are_taken_literally_unless_asked() {
    let mut journal = Journal::open(Files::default());
    journal.append(b"a+b\naab\n").unwrap();
    let mut request = HistorySearchRequest::forward("a+b");
    let lines = |result: HistorySearchResult| {
        result.matches.iter().map(|item| item.line_id).collect::<Vec<_>>()
    };
    assert_eq!(lines(journal.search(&request).unwrap()), vec![1]);
    request.options.regex = true;
    assert_eq!(lines(journal.search(&request).unwrap()), vec![2]);
}

#[test]
fn cumulative_page_byte_limit_returns_a_cursor_instead_of_skipping_rows() {
    let mut journal = Journal::open(Files::default());
    let mut payload = Vec::new();
    for line in 1..=3000 {
        if line == 2500 {
            payload.extend_from_slice(b"needle");
        }
        payload.extend(std::iter::repeat_n(b'x', 2048));
        payload.push(b'\n');
    }
    journal.append(&payload).unwrap();
    let mut request = HistorySearchRequest::forward("needle");
    request.max_scan_lines = 3000;

    let first = journal.search(&request).unwrap();
    assert!(first.matches.is_empty());
    assert!(first.scanned_lines < 2500);
    assert!(!first.incomplete);
    assert!(first.next_cursor.is_some());

    request.cursor = first.next_cursor;
    let second = journal.search(&request).unwrap();
    assert_eq!(second.matches.len(), 1);
    assert_eq!(second.matches[0].line_id, 2500);
}

#[test]
fn whole_word_and_unicode_case_match_current_terminal_semantics() {
    let journal = history();
    let mut request = HistorySearchRequest::forward("error");
    request.options.whole_word = true;
    let result = journal.search(&request).unwrap();
    assert_eq!(result.matches.iter().map(|item| item.line_id).collect::<Vec<_>>(), vec![2, 3]);
}

#[test]
fn a_new_checkpoint_takes_the_place_of_an_old_one() {
    let mut swap = CacheSwap::new();
    assert_eq!(swap, CacheSwap::RemoveLeftover);
    swap = swap.step(SwapEvent::Missing);
    assert_eq!(swap, CacheSwap::FindOld);
    assert_eq!(swap.step(SwapEvent::Missing), CacheSwap::Publish { set_aside: false });
    swap = swap.step(SwapEvent::Done);
    assert_eq!(swap, CacheSwap::SetAside);
    swap = swap.step(SwapEvent::Done);
    assert_eq!(swap, CacheSwap::Publish { set_aside: true });
    swap = swap.step(SwapEvent::Done);
    assert_eq!(swap, CacheSwap::RemoveCopy);
    assert_eq!(swap.step(SwapEvent::Done), CacheSwap::Done);
}

#[test]
fn an_old_checkpoint_comes_back_where_the_new_one_fails() {
    let swap = CacheSwap::Publish { set_aside: true }.step(SwapEvent::Failed);
    assert_eq!(swap, CacheSwap::PutBack);
    assert_eq!(swap.step(SwapEvent::Done), CacheSwap::Failed);
    assert_eq!(
        CacheSwap::Publish { set_aside: false }.step(SwapEvent::Failed),
        CacheSwap::Failed
    );
    assert_eq!(CacheSwap::SetAside.step(SwapEvent::Failed), CacheSwap::Failed);
    assert_eq!(CacheSwap::RemoveLeftover.step(SwapEvent::Failed), CacheSwap::Failed);
    assert_eq!(CacheSwap::RemoveCopy.step(SwapEvent::Failed), CacheSwap::Failed);
}

/// All pages of a search.
fn pages(journal: &Journal, mut request: HistorySearchRequest) -> Vec<(u64, usize)> {
    let mut found = Vec::new();
    loop {
        let result = journal.search(&request).unwrap();
        assert!(result.scanned_lines <= request.max_scan_lines);
        assert!(result.matches.len() <= request.max_matches);
        found.extend(result.matches.iter().map(|found| (found.line_id, found.byte_start)));
        match result.next_cursor {
            Some(next) => request.cursor = Some(next),
            None => return found,
        }
    }
}

#[test]
fn pages_of_a_search_report_every_match_once() {
    let mut journal = Journal::open(Files::default());
    journal.append(b"aa a\n\nb\na b a\nlast a").unwrap();
    let expected = vec![(1, 0), (1, 1), (1, 3), (4, 0), (4, 4), (5, 1), (5, 5)];
    for max_scan_lines in 1..6 {
        for max_matches in 1..9 {
            let mut request = HistorySearchRequest::forward("A");
            request.max_scan_lines = max_scan_lines;
            request.max_matches = max_matches;
            assert_eq!(pages(&journal, request.clone()), expected);
            request.direction = HistorySearchDirection::Backward;
            let mut reversed = pages(&journal, request);
            reversed.reverse();
            assert_eq!(reversed, expected);
        }
    }
}

#[test]
fn what_is_compiled_for_a_query_is_fixed() {
    let literal = regex_query("a.b", false, true);
    assert_eq!(
        literal,
        RegexQuery { pattern: "a\\.b".to_owned(), ignore_case: false, size_limit: 1_048_576 }
    );
    let expression = regex_query("a.b", true, false);
    assert_eq!(
        expression,
        RegexQuery { pattern: "a.b".to_owned(), ignore_case: true, size_limit: 1_048_576 }
    );
    let journal = history();
    let mut request = HistorySearchRequest::forward("(a{1000}){1000}");
    request.options.regex = true;
    assert!(matches!(
        journal.search(&request),
        Err(HistorySearchError::InvalidRegex(text))
            if text == "Compiled regex exceeds size limit of 1048576 bytes."
    ));
    request.query = "(".to_owned();
    assert!(matches!(
        journal.search(&request),
        Err(HistorySearchError::InvalidRegex(text)) if text.contains("unclosed group")
    ));
    assert!(matches!(
        check_matcher(true, Err("no".to_owned())),
        Err(HistorySearchError::InvalidRegex(text)) if text == "no"
    ));
    assert!(matches!(
        check_matcher(true, Ok(vec![vec![(0, 0)]])),
        Err(HistorySearchError::EmptyRegexMatch)
    ));
    assert!(check_matcher(false, Ok(vec![vec![(0, 0)]])).is_ok());
    assert!(check_matcher(true, Ok(vec![Vec::new()])).is_ok());
}

#[test]
fn a_page_is_answered_with_what_was_found_in_it() {
    let journal = history();
    let page =
        journal.files.read_styled_page(&journal.writer.line_index, Some(2), 0, 1).unwrap();
    let request = HistorySearchRequest::forward("x");
    let cursor = HistorySearchCursor { line_id: 2, byte_offset: 0 };
    let found = Ok(vec![vec![(6, 9)], vec![(0, 4)]]);
    let result = answer_page(&request, cursor, &page, found, 5).unwrap();
    let places: Vec<_> = result
        .matches
        .iter()
        .map(|found| (found.line_id, found.byte_start, found.byte_end))
        .collect();
    assert_eq!(places, vec![(2, 6, 9), (3, 0, 4)]);
    assert_eq!(result.next_cursor, Some(HistorySearchCursor { line_id: 4, byte_offset: 0 }));
    assert!(matches!(
        answer_page(&request, cursor, &page, Err("no".to_owned()), 5),
        Err(HistorySearchError::InvalidRegex(text)) if text == "no"
    ));
}

#[test]
fn a_line_looks_the_same_on_every_page() {
    let mut journal = Journal::open(Files::default());
    journal.append(b"plain\n\x1b[31mred\nstill red\n").unwrap();
    journal.append(b"and \x1b[1mbold\r\n\nend").unwrap();
    let index = &journal.writer.line_index;
    let whole = journal.files.read_styled_page(index, Some(1), 0, 10).unwrap();
    assert_eq!(whole.rows.len(), 6);
    for (anchor, before, after) in [(2, 0, 0), (3, 1, 1), (4, 0, 2), (5, 0, 0), (6, 2, 0)] {
        let page = journal.files.read_styled_page(index, Some(anchor), before, after).unwrap();
        for row in &page.rows {
            assert_eq!(*row, whole.rows[row.line_id as usize - 1]);
        }
    }
}

#[test]
fn pages_are_what_the_files_hold_before_an_unfinished_record() {
    let mut journal = Segmented::open(Files::default(), SMALL_SEGMENT).unwrap();
    journal.append(b"one\n\x1b[32mgreen ").unwrap();
    journal.append(b"too\n\nlast").unwrap();
    journal.files.segments.last_mut().unwrap().extend_from_slice(b"unfinished");
    let page = journal.page(Some(2), 1, 2).unwrap();
    let lines: Vec<&[u8]> = page.rows.iter().map(|row| row.bytes.as_slice()).collect();
    let expected: [&[u8]; 4] = [b"one", b"\x1b[32mgreen too", b"", b"last"];
    assert_eq!(lines, expected);
    let styled = journal.styled_page(Some(2), 1, 2).unwrap();
    assert_eq!(styled.rows[1].text, "green too");
    assert_eq!(styled.rows[1].style_spans[0].end, 9);
}
