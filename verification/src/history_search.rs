//! Searching the lines of a journal a bounded page at a time.
use crate::journal::JournalError;
use crate::log_page::{
    unknown_line, JournalStyledLogPage, StyledIndexedLogLine, StyledRowModel, styled_row_views,
};
use crate::outside::{alphanumeric, find_regex, ranges_in_text, regex_matches};
use crate::search_query::{
    compile_words, compiles, lemma_pattern_length, regex_query, search_pattern, RegexQuery,
};
use crate::text::{byte_len, last_char, lemma_boundary_at_ends, lemma_utf8_valid, utf8};
use vstd::prelude::*;
use vstd::string::StrSliceExecFns;
use vstd::utf8::{decode_utf8, is_char_boundary};

verus! {

pub const MAX_HISTORY_SEARCH_QUERY_BYTES: usize = 4096;

pub const MAX_HISTORY_SEARCH_SCAN_LINES: usize = 4096;

pub const MAX_HISTORY_SEARCH_MATCHES: usize = 4096;

#[derive(Clone, Copy, Debug, PartialEq, Eq, Structural)]
pub enum HistorySearchDirection {
    Forward,
    Backward,
}

impl Default for HistorySearchDirection {
    fn default() -> (direction: Self)
        ensures
            direction == HistorySearchDirection::Forward,
    {
        HistorySearchDirection::Forward
    }
}

#[derive(Clone, Copy, Debug, PartialEq, Eq, Structural)]
pub struct HistorySearchOptions {
    pub case_sensitive: bool,
    pub whole_word: bool,
    pub regex: bool,
}

impl Default for HistorySearchOptions {
    fn default() -> (options: Self)
        ensures
            !options.case_sensitive,
            !options.whole_word,
            !options.regex,
    {
        HistorySearchOptions { case_sensitive: false, whole_word: false, regex: false }
    }
}

/// A place in a line. `byte_offset` is inclusive for forward searches and
/// exclusive for backward searches.
#[derive(Clone, Copy, Debug, PartialEq, Eq, Structural)]
pub struct HistorySearchCursor {
    pub line_id: u64,
    pub byte_offset: usize,
}

#[derive(Clone, Debug, PartialEq, Eq)]
pub struct HistorySearchRequest {
    pub query: String,
    pub options: HistorySearchOptions,
    pub direction: HistorySearchDirection,
    pub cursor: Option<HistorySearchCursor>,
    pub max_scan_lines: usize,
    pub max_matches: usize,
}

impl HistorySearchRequest {
    /// A forward search for `query` from the first line, upper and lower case
    /// alike, with the largest limits.
    pub fn forward(query: &str) -> (request: Self)
        ensures
            request.query@ == query@,
            request.options == (HistorySearchOptions {
                case_sensitive: false,
                whole_word: false,
                regex: false,
            }),
            request.direction == HistorySearchDirection::Forward,
            request.cursor is None,
            request.max_scan_lines == MAX_HISTORY_SEARCH_SCAN_LINES,
            request.max_matches == MAX_HISTORY_SEARCH_MATCHES,
    {
        HistorySearchRequest {
            query: query.to_owned(),
            options: HistorySearchOptions::default(),
            direction: HistorySearchDirection::Forward,
            cursor: None,
            max_scan_lines: MAX_HISTORY_SEARCH_SCAN_LINES,
            max_matches: MAX_HISTORY_SEARCH_MATCHES,
        }
    }
}

#[derive(Clone, Copy, Debug, PartialEq, Eq, Structural)]
pub struct HistorySearchMatch {
    pub line_id: u64,
    pub byte_start: usize,
    pub byte_end: usize,
}

#[derive(Clone, Debug, PartialEq, Eq)]
pub struct HistorySearchResult {
    pub revision: u64,
    pub matches: Vec<HistorySearchMatch>,
    pub scanned_lines: usize,
    pub next_cursor: Option<HistorySearchCursor>,
    /// A line was longer than a page may be and only its beginning was searched.
    pub incomplete: bool,
}

#[derive(Debug)]
pub enum HistorySearchError {
    EmptyQuery,
    QueryTooLong { actual: usize, maximum: usize },
    InvalidScanLimit,
    InvalidMatchLimit,
    InvalidRegex(String),
    EmptyRegexMatch,
    InvalidCursor(u64),
    Journal(JournalError),
}

// ---------------------------------------------------------------------------
// Requests.

pub open spec fn query_fits(request: HistorySearchRequest) -> bool {
    0 < utf8(request.query@).len() <= MAX_HISTORY_SEARCH_QUERY_BYTES
}

pub open spec fn scan_limit_fits(request: HistorySearchRequest) -> bool {
    0 < request.max_scan_lines <= MAX_HISTORY_SEARCH_SCAN_LINES
}

pub open spec fn match_limit_fits(request: HistorySearchRequest) -> bool {
    0 < request.max_matches <= MAX_HISTORY_SEARCH_MATCHES
}

/// The request keeps to its limits.
pub open spec fn valid_request(request: HistorySearchRequest) -> bool {
    query_fits(request) && scan_limit_fits(request) && match_limit_fits(request)
}

/// What is wrong with a request that is not valid.
pub open spec fn request_fault(request: HistorySearchRequest, error: HistorySearchError) -> bool {
    if utf8(request.query@).len() == 0 {
        error is EmptyQuery
    } else if !query_fits(request) {
        error == (HistorySearchError::QueryTooLong {
            actual: utf8(request.query@).len() as usize,
            maximum: MAX_HISTORY_SEARCH_QUERY_BYTES,
        })
    } else if !scan_limit_fits(request) {
        error is InvalidScanLimit
    } else {
        error is InvalidMatchLimit
    }
}

pub fn validate_request(request: &HistorySearchRequest) -> (checked: Result<
    (),
    HistorySearchError,
>)
    ensures
        checked is Ok <==> valid_request(*request),
        checked matches Err(error) ==> request_fault(*request, error),
{
    let length: usize = byte_len(request.query.as_str());
    if length == 0 {
        return Err(HistorySearchError::EmptyQuery);
    }
    if length > MAX_HISTORY_SEARCH_QUERY_BYTES {
        return Err(
            HistorySearchError::QueryTooLong {
                actual: length,
                maximum: MAX_HISTORY_SEARCH_QUERY_BYTES,
            },
        );
    }
    if request.max_scan_lines == 0 || request.max_scan_lines > MAX_HISTORY_SEARCH_SCAN_LINES {
        return Err(HistorySearchError::InvalidScanLimit);
    }
    if request.max_matches == 0 || request.max_matches > MAX_HISTORY_SEARCH_MATCHES {
        return Err(HistorySearchError::InvalidMatchLimit);
    }
    Ok(())
}

/// The error of a query that cannot be compiled.
pub open spec fn is_invalid_regex(
    query: Seq<char>,
    options: HistorySearchOptions,
    error: HistorySearchError,
) -> bool {
    error matches HistorySearchError::InvalidRegex(text) && compile_words(
        query,
        options.regex,
        options.case_sensitive,
        text@,
    )
}

/// Whether an expression that is given as such matches the empty text.
pub open spec fn matches_blank(query: Seq<char>, options: HistorySearchOptions) -> bool {
    options.regex && regex_matches(query, !options.case_sensitive, ""@).len() > 0
}

/// What follows from searching the empty text with a compiled query.
pub fn check_matcher(
    regex: bool,
    blank: Result<Vec<Vec<(usize, usize)>>, String>,
) -> (checked: Result<(), HistorySearchError>)
    requires
        blank matches Ok(found) ==> found@.len() == 1,
    ensures
        match blank {
            Err(text) => checked == Err::<(), _>(HistorySearchError::InvalidRegex(text)),
            Ok(found) => if regex && found@[0]@.len() > 0 {
                checked matches Err(error) && error is EmptyRegexMatch
            } else {
                checked is Ok
            },
        },
{
    match blank {
        Err(text) => Err(HistorySearchError::InvalidRegex(text)),
        Ok(found) => if regex && found[0].len() > 0 {
            Err(HistorySearchError::EmptyRegexMatch)
        } else {
            Ok(())
        },
    }
}

/// What is compiled for a query. An expression that is given as such must not
/// match the empty text.
fn build_matcher(query: &str, options: HistorySearchOptions) -> (matcher: Result<
    RegexQuery,
    HistorySearchError,
>)
    requires
        utf8(query@).len() <= MAX_HISTORY_SEARCH_QUERY_BYTES,
    ensures
        match matcher {
            Ok(wanted) => {
                &&& wanted.pattern@ == search_pattern(query@, options.regex)
                &&& wanted.ignore_case == !options.case_sensitive
                &&& wanted.size_limit == 1048576
                &&& compiles(query@, options.regex, options.case_sensitive)
                &&& !matches_blank(query@, options)
            },
            Err(error) => is_invalid_regex(query@, options, error) || compiles(
                query@,
                options.regex,
                options.case_sensitive,
            ) && matches_blank(query@, options) && error is EmptyRegexMatch,
        },
{
    let wanted = regex_query(query, options.regex, options.case_sensitive);
    let mut texts: Vec<String> = Vec::new();
    texts.push("".to_owned());
    proof {
        lemma_pattern_length(query@, options.regex);
    }
    let blank = find_regex(&wanted, &texts);
    assert(blank matches Ok(found) ==> found@[0]@ == regex_matches(
        wanted.pattern@,
        wanted.ignore_case,
        texts@[0]@,
    ));
    match check_matcher(options.regex, blank) {
        Err(error) => Err(error),
        Ok(()) => Ok(wanted),
    }
}

/// The place at which a line is entered.
pub open spec fn line_entry(line_id: u64, direction: HistorySearchDirection) -> HistorySearchCursor {
    HistorySearchCursor {
        line_id,
        byte_offset: match direction {
            HistorySearchDirection::Forward => 0usize,
            HistorySearchDirection::Backward => usize::MAX,
        },
    }
}

pub fn line_start_cursor(line_id: u64, direction: HistorySearchDirection) -> (cursor:
    HistorySearchCursor)
    ensures
        cursor == line_entry(line_id, direction),
{
    HistorySearchCursor {
        line_id,
        byte_offset: match direction {
            HistorySearchDirection::Forward => 0usize,
            HistorySearchDirection::Backward => usize::MAX,
        },
    }
}

/// The page that a search reads: the lines around `cursor`.
#[derive(Clone, Copy, Debug, PartialEq, Eq, Structural)]
pub struct SearchWindow {
    pub cursor: HistorySearchCursor,
    pub rows_before: usize,
    pub rows_after: usize,
}

/// Where a search begins.
pub open spec fn search_cursor(request: HistorySearchRequest, total: u64) -> HistorySearchCursor {
    match request.cursor {
        Some(cursor) => cursor,
        None => line_entry(
            match request.direction {
                HistorySearchDirection::Forward => 1u64,
                HistorySearchDirection::Backward => total,
            },
            request.direction,
        ),
    }
}

/// The page that a search in `total` lines reads: as many lines as it may scan,
/// from the cursor on.
pub open spec fn window_of(
    request: HistorySearchRequest,
    total: u64,
    window: SearchWindow,
) -> bool {
    let cursor = search_cursor(request, total);
    &&& 1 <= cursor.line_id <= total
    &&& window.cursor == cursor
    &&& window.rows_before == match request.direction {
        HistorySearchDirection::Forward => 0,
        HistorySearchDirection::Backward => request.max_scan_lines - 1,
    }
    &&& window.rows_after == match request.direction {
        HistorySearchDirection::Forward => request.max_scan_lines - 1,
        HistorySearchDirection::Backward => 0,
    }
}

/// The page of a search in `total` lines; `None` where there are no lines.
pub fn search_window(request: &HistorySearchRequest, total: u64) -> (window: Result<
    Option<SearchWindow>,
    HistorySearchError,
>)
    requires
        valid_request(*request),
    ensures
        ({
            let cursor = search_cursor(*request, total);
            match window {
                Ok(None) => total == 0,
                Ok(Some(window)) => window_of(*request, total, window),
                Err(error) => total > 0 && !(1 <= cursor.line_id <= total) && (error matches
                    HistorySearchError::Journal(inner) && unknown_line(inner, cursor.line_id)),
            }
        }),
{
    if total == 0 {
        return Ok(None);
    }
    let cursor = match request.cursor {
        Some(cursor) => cursor,
        None => line_start_cursor(
            match request.direction {
                HistorySearchDirection::Forward => 1u64,
                HistorySearchDirection::Backward => total,
            },
            request.direction,
        ),
    };
    if cursor.line_id == 0 || cursor.line_id > total {
        return Err(HistorySearchError::Journal(JournalError::UnknownLine(cursor.line_id)));
    }
    let side_rows: usize = request.max_scan_lines - 1;
    Ok(
        Some(
            match request.direction {
                HistorySearchDirection::Forward => SearchWindow {
                    cursor,
                    rows_before: 0,
                    rows_after: side_rows,
                },
                HistorySearchDirection::Backward => SearchWindow {
                    cursor,
                    rows_before: side_rows,
                    rows_after: 0,
                },
            },
        ),
    )
}

// ---------------------------------------------------------------------------
// Words.

pub open spec fn is_word(character: char) -> bool {
    alphanumeric(character) || character == '_'
}

pub fn is_word_character(character: char) -> (yes: bool)
    ensures
        yes == is_word(character),
{
    character.is_alphanumeric() || character == '_'
}

/// No word goes on before or after the range.
pub open spec fn stands_alone(text: Seq<char>, start: int, end: int) -> bool {
    let before = decode_utf8(utf8(text).take(start));
    let after = decode_utf8(utf8(text).skip(end));
    &&& before.len() > 0 ==> !is_word(before.last())
    &&& after.len() > 0 ==> !is_word(after[0])
}

pub fn is_whole_word(text: &str, start: usize, end: usize) -> (yes: bool)
    requires
        start <= utf8(text@).len(),
        end <= utf8(text@).len(),
        is_char_boundary(utf8(text@), start as int),
        is_char_boundary(utf8(text@), end as int),
    ensures
        yes == stands_alone(text@, start as int, end as int),
{
    let (front, _) = text.split_at(start);
    let (_, back) = text.split_at(end);
    proof {
        lemma_utf8_valid(front@);
        lemma_utf8_valid(back@);
        assert(utf8(front@) =~= utf8(text@).take(start as int));
        assert(utf8(back@) =~= utf8(text@).skip(end as int));
    }
    if let Some(character) = last_char(front) {
        if is_word_character(character) {
            return false;
        }
    }
    !(!back.is_empty() && is_word_character(back.get_char(0)))
}

// ---------------------------------------------------------------------------
// Scanning a page.

/// Why a scan stops before the last row.
pub enum ScanEnd {
    /// As many matches were found as the request asked for; the search goes on
    /// at the cursor.
    Full(HistorySearchCursor),
    /// The row did not fit into the page and is left to the next request.
    Deferred(HistorySearchCursor),
    /// The expression matched the empty text.
    EmptyMatch,
    /// The cursor is inside a character of the line.
    BadCursor(u64),
}

/// What a scan has found so far.
#[verifier::ext_equal]
pub struct Scan {
    pub matches: Seq<HistorySearchMatch>,
    pub scanned: int,
    pub incomplete: bool,
    pub last_line: u64,
    pub end: Option<ScanEnd>,
}

/// The ranges that a search takes from a line, in the order in which it takes
/// them: forward those that begin at `boundary` or after it, backward those
/// that end at it or before.
pub open spec fn candidates(
    found: Seq<(usize, usize)>,
    direction: HistorySearchDirection,
    boundary: int,
) -> Seq<(usize, usize)>
    decreases found.len(),
{
    if found.len() == 0 {
        Seq::empty()
    } else {
        let rest = candidates(found.drop_last(), direction, boundary);
        match direction {
            HistorySearchDirection::Forward => if found.last().0 >= boundary {
                rest.push(found.last())
            } else {
                rest
            },
            HistorySearchDirection::Backward => if found.last().1 <= boundary {
                seq![found.last()] + rest
            } else {
                rest
            },
        }
    }
}

/// Where the search goes on after a match.
pub open spec fn after_match(
    found: HistorySearchMatch,
    direction: HistorySearchDirection,
) -> HistorySearchCursor {
    HistorySearchCursor {
        line_id: found.line_id,
        byte_offset: match direction {
            HistorySearchDirection::Forward => found.byte_end,
            HistorySearchDirection::Backward => found.byte_start,
        },
    }
}

/// The request takes this range of the line.
pub open spec fn accepts(
    options: HistorySearchOptions,
    text: Seq<char>,
    range: (usize, usize),
) -> bool {
    options.whole_word ==> stands_alone(text, range.0 as int, range.1 as int)
}

pub open spec fn match_of(line_id: u64, range: (usize, usize)) -> HistorySearchMatch {
    HistorySearchMatch { line_id, byte_start: range.0, byte_end: range.1 }
}

pub open spec fn with_range(
    scan: Scan,
    request: HistorySearchRequest,
    row: StyledRowModel,
    range: (usize, usize),
) -> Scan {
    if scan.end is Some {
        scan
    } else if range.0 >= range.1 {
        Scan { end: Some(ScanEnd::EmptyMatch), ..scan }
    } else if !accepts(request.options, row.text, range) {
        scan
    } else {
        let found = match_of(row.line_id, range);
        let matches = scan.matches.push(found);
        Scan {
            matches,
            end: if matches.len() == request.max_matches {
                Some(ScanEnd::Full(after_match(found, request.direction)))
            } else {
                None
            },
            ..scan
        }
    }
}

pub open spec fn with_ranges(
    scan: Scan,
    request: HistorySearchRequest,
    row: StyledRowModel,
    ranges: Seq<(usize, usize)>,
) -> Scan
    decreases ranges.len(),
{
    if ranges.len() == 0 {
        scan
    } else {
        with_range(
            with_ranges(scan, request, row, ranges.drop_last()),
            request,
            row,
            ranges.last(),
        )
    }
}

/// Where the search begins in a row.
pub open spec fn row_boundary(
    row: StyledRowModel,
    cursor: HistorySearchCursor,
    direction: HistorySearchDirection,
) -> int {
    let length = utf8(row.text).len() as int;
    if row.line_id == cursor.line_id {
        if cursor.byte_offset <= length {
            cursor.byte_offset as int
        } else {
            length
        }
    } else {
        match direction {
            HistorySearchDirection::Forward => 0,
            HistorySearchDirection::Backward => length,
        }
    }
}

/// A row is scanned whole or left to the next request: only the first one of a
/// page is scanned although its end is missing.
pub open spec fn with_row(
    scan: Scan,
    request: HistorySearchRequest,
    cursor: HistorySearchCursor,
    row: StyledRowModel,
    found: Seq<(usize, usize)>,
) -> Scan {
    let boundary = row_boundary(row, cursor, request.direction);
    let entered = Scan {
        scanned: scan.scanned + 1,
        last_line: row.line_id,
        incomplete: scan.incomplete || row.truncated,
        ..scan
    };
    if scan.end is Some {
        scan
    } else if row.truncated && scan.scanned > 0 {
        Scan {
            end: Some(ScanEnd::Deferred(line_entry(row.line_id, request.direction))),
            ..scan
        }
    } else if !is_char_boundary(utf8(row.text), boundary) {
        Scan { end: Some(ScanEnd::BadCursor(row.line_id)), ..entered }
    } else {
        with_ranges(entered, request, row, candidates(found, request.direction, boundary))
    }
}

pub open spec fn with_rows(
    scan: Scan,
    request: HistorySearchRequest,
    cursor: HistorySearchCursor,
    rows: Seq<(StyledRowModel, Seq<(usize, usize)>)>,
) -> Scan
    decreases rows.len(),
{
    if rows.len() == 0 {
        scan
    } else {
        with_row(
            with_rows(scan, request, cursor, rows.drop_last()),
            request,
            cursor,
            rows.last().0,
            rows.last().1,
        )
    }
}

/// The rows of a page with the ranges found in them, in the order in which
/// they are scanned.
pub open spec fn scan_order(
    rows: Seq<StyledRowModel>,
    found: Seq<Seq<(usize, usize)>>,
    direction: HistorySearchDirection,
    maximum: int,
) -> Seq<(StyledRowModel, Seq<(usize, usize)>)> {
    let count = if rows.len() <= maximum {
        rows.len()
    } else {
        maximum as nat
    };
    Seq::new(
        count,
        |i: int|
            match direction {
                HistorySearchDirection::Forward => (rows[i], found[i]),
                HistorySearchDirection::Backward => (
                    rows[rows.len() - 1 - i],
                    found[rows.len() - 1 - i],
                ),
            },
    )
}

pub open spec fn scan_start(cursor: HistorySearchCursor) -> Scan {
    Scan {
        matches: Seq::empty(),
        scanned: 0,
        incomplete: false,
        last_line: cursor.line_id,
        end: None,
    }
}

/// The line after the last one that was scanned, as long as there is one.
pub open spec fn next_line(
    last_line: u64,
    total: u64,
    direction: HistorySearchDirection,
) -> Option<HistorySearchCursor> {
    match direction {
        HistorySearchDirection::Forward => if last_line < total {
            Some(line_entry((last_line + 1) as u64, direction))
        } else {
            None
        },
        HistorySearchDirection::Backward => if last_line > 1 {
            Some(line_entry((last_line - 1) as u64, direction))
        } else {
            None
        },
    }
}

/// What a finished scan answers.
pub open spec fn scan_answers(
    scan: Scan,
    direction: HistorySearchDirection,
    revision: u64,
    total: u64,
    answer: Result<HistorySearchResult, HistorySearchError>,
) -> bool {
    match answer {
        Ok(result) => {
            &&& result.revision == revision
            &&& result.matches@ == scan.matches
            &&& result.scanned_lines == scan.scanned
            &&& result.incomplete == scan.incomplete
            &&& match scan.end {
                None => result.next_cursor == next_line(scan.last_line, total, direction),
                Some(ScanEnd::Full(cursor)) => result.next_cursor == Some(cursor),
                Some(ScanEnd::Deferred(cursor)) => result.next_cursor == Some(cursor),
                Some(_) => false,
            }
        },
        Err(error) => match scan.end {
            Some(ScanEnd::EmptyMatch) => error is EmptyRegexMatch,
            Some(ScanEnd::BadCursor(line_id)) => error == HistorySearchError::InvalidCursor(
                line_id,
            ),
            _ => false,
        },
    }
}

/// The ranges found in each row.
pub open spec fn range_views(found: Seq<Vec<(usize, usize)>>) -> Seq<Seq<(usize, usize)>> {
    found.map_values(|ranges: Vec<(usize, usize)>| ranges@)
}

/// Each row has the ranges found in it.
pub open spec fn found_in_rows(
    found: Seq<Vec<(usize, usize)>>,
    rows: Seq<StyledIndexedLogLine>,
) -> bool {
    &&& found.len() == rows.len()
    &&& forall|i: int|
        0 <= i < rows.len() ==> ranges_in_text((#[trigger] found[i])@, rows[i].text@)
}

proof fn lemma_ended_ranges(
    scan: Scan,
    request: HistorySearchRequest,
    row: StyledRowModel,
    ranges: Seq<(usize, usize)>,
    count: int,
)
    requires
        0 <= count <= ranges.len(),
        with_ranges(scan, request, row, ranges.take(count)).end is Some,
    ensures
        with_ranges(scan, request, row, ranges) == with_ranges(
            scan,
            request,
            row,
            ranges.take(count),
        ),
    decreases ranges.len() - count,
{
    if count == ranges.len() {
        assert(ranges.take(count) =~= ranges);
    } else {
        assert(ranges.take(count + 1).drop_last() =~= ranges.take(count));
        lemma_ended_ranges(scan, request, row, ranges, count + 1);
    }
}

proof fn lemma_ended_rows(
    scan: Scan,
    request: HistorySearchRequest,
    cursor: HistorySearchCursor,
    rows: Seq<(StyledRowModel, Seq<(usize, usize)>)>,
    count: int,
)
    requires
        0 <= count <= rows.len(),
        with_rows(scan, request, cursor, rows.take(count)).end is Some,
    ensures
        with_rows(scan, request, cursor, rows) == with_rows(
            scan,
            request,
            cursor,
            rows.take(count),
        ),
    decreases rows.len() - count,
{
    if count == rows.len() {
        assert(rows.take(count) =~= rows);
    } else {
        assert(rows.take(count + 1).drop_last() =~= rows.take(count));
        lemma_ended_rows(scan, request, cursor, rows, count + 1);
    }
}

proof fn lemma_candidates_of(
    found: Seq<(usize, usize)>,
    direction: HistorySearchDirection,
    boundary: int,
)
    ensures
        candidates(found, direction, boundary).len() <= found.len(),
        forall|i: int|
            0 <= i < candidates(found, direction, boundary).len() ==> found.contains(
                #[trigger] candidates(found, direction, boundary)[i],
            ),
    decreases found.len(),
{
    if found.len() > 0 {
        let before = found.drop_last();
        lemma_candidates_of(before, direction, boundary);
        let all = candidates(found, direction, boundary);
        let rest = candidates(before, direction, boundary);
        assert forall|i: int| 0 <= i < all.len() implies found.contains(#[trigger] all[i]) by {
            assert(found.last() == found[found.len() - 1]);
            if all[i] != found.last() {
                let j = if direction == HistorySearchDirection::Backward && all.len() > rest.len() {
                    i - 1
                } else {
                    i
                };
                assert(all[i] == rest[j]);
                let k = choose|k: int| 0 <= k < before.len() && before[k] == rest[j];
                assert(found[k] == all[i]);
            }
        }
    }
}

/// The ranges that a search takes from a line, in its order.
fn take_ranges(
    found: &Vec<(usize, usize)>,
    direction: HistorySearchDirection,
    boundary: usize,
) -> (ranges: Vec<(usize, usize)>)
    ensures
        ranges@ == candidates(found@, direction, boundary as int),
{
    let mut ranges: Vec<(usize, usize)> = Vec::new();
    let count: usize = found.len();
    match direction {
        HistorySearchDirection::Forward => {
            let mut index: usize = 0;
            while index < count
                invariant
                    index <= count == found@.len(),
                    direction == HistorySearchDirection::Forward,
                    ranges@ == candidates(found@.take(index as int), direction, boundary as int),
                decreases count - index,
            {
                assert(found@.take(index + 1).drop_last() =~= found@.take(index as int));
                let range = found[index];
                if range.0 >= boundary {
                    ranges.push(range);
                }
                index += 1;
            }
            assert(found@.take(count as int) =~= found@);
        },
        HistorySearchDirection::Backward => {
            let mut index: usize = count;
            assert(found@.take(count as int) =~= found@);
            while index > 0
                invariant
                    index <= count == found@.len(),
                    direction == HistorySearchDirection::Backward,
                    candidates(found@, direction, boundary as int) =~= ranges@ + candidates(
                        found@.take(index as int),
                        direction,
                        boundary as int,
                    ),
                decreases index,
            {
                assert(found@.take(index as int).drop_last() =~= found@.take(index - 1));
                index -= 1;
                let range = found[index];
                if range.1 <= boundary {
                    ranges.push(range);
                }
            }
        },
    }
    ranges
}

/// How a row ended the scan.
enum RowEnd {
    GoOn,
    Full(HistorySearchCursor),
    EmptyMatch,
}

/// Takes the matches of one row.
fn scan_row(
    request: &HistorySearchRequest,
    row: &StyledIndexedLogLine,
    ranges: &Vec<(usize, usize)>,
    matches: &mut Vec<HistorySearchMatch>,
    Ghost(entered): Ghost<Scan>,
) -> (end: RowEnd)
    requires
        match_limit_fits(*request),
        old(matches)@ == entered.matches,
        entered.end is None,
        entered.matches.len() < request.max_matches,
        forall|i: int|
            0 <= i < ranges@.len() ==> (#[trigger] ranges@[i]).0 <= ranges@[i].1 <= utf8(
                row.text@,
            ).len() && is_char_boundary(utf8(row.text@), ranges@[i].0 as int)
                && is_char_boundary(utf8(row.text@), ranges@[i].1 as int),
    ensures
        ({
            let scan = with_ranges(entered, *request, row@, ranges@);
            &&& final(matches)@ == scan.matches
            &&& scan == (Scan { matches: scan.matches, end: scan.end, ..entered })
            &&& match end {
                RowEnd::GoOn => scan.end is None && scan.matches.len() < request.max_matches,
                RowEnd::Full(cursor) => scan.end == Some(ScanEnd::Full(cursor)),
                RowEnd::EmptyMatch => scan.end == Some(ScanEnd::EmptyMatch),
            }
        }),
{
    let mut index: usize = 0;
    assert(ranges@.take(0) =~= Seq::empty());
    while index < ranges.len()
        invariant
            index <= ranges@.len(),
            match_limit_fits(*request),
            entered.end is None,
            matches@.len() < request.max_matches,
            with_ranges(entered, *request, row@, ranges@.take(index as int)) == (Scan {
                matches: matches@,
                ..entered
            }),
            forall|i: int|
                0 <= i < ranges@.len() ==> (#[trigger] ranges@[i]).0 <= ranges@[i].1 <= utf8(
                    row.text@,
                ).len() && is_char_boundary(utf8(row.text@), ranges@[i].0 as int)
                    && is_char_boundary(utf8(row.text@), ranges@[i].1 as int),
        decreases ranges@.len() - index,
    {
        proof {
            assert(ranges@.take(index + 1).drop_last() =~= ranges@.take(index as int));
        }
        let range = ranges[index];
        index += 1;
        if range.0 == range.1 {
            proof {
                lemma_ended_ranges(entered, *request, row@, ranges@, index as int);
            }
            return RowEnd::EmptyMatch;
        }
        if !request.options.whole_word || is_whole_word(row.text.as_str(), range.0, range.1) {
            let found = HistorySearchMatch {
                line_id: row.line_id,
                byte_start: range.0,
                byte_end: range.1,
            };
            matches.push(found);
            if matches.len() == request.max_matches {
                proof {
                    lemma_ended_ranges(entered, *request, row@, ranges@, index as int);
                }
                return RowEnd::Full(
                    HistorySearchCursor {
                        line_id: row.line_id,
                        byte_offset: match request.direction {
                            HistorySearchDirection::Forward => range.1,
                            HistorySearchDirection::Backward => range.0,
                        },
                    },
                );
            }
        }
    }
    assert(ranges@.take(ranges@.len() as int) =~= ranges@);
    RowEnd::GoOn
}

/// The matches in the rows of a page, given the ranges found in each row, and
/// where the search goes on.
pub fn scan_page(
    request: &HistorySearchRequest,
    cursor: HistorySearchCursor,
    page: &JournalStyledLogPage,
    found: &Vec<Vec<(usize, usize)>>,
    total: u64,
) -> (answer: Result<HistorySearchResult, HistorySearchError>)
    requires
        valid_request(*request),
        found_in_rows(found@, page.rows@),
    ensures
        scan_answers(
            with_rows(
                scan_start(cursor),
                *request,
                cursor,
                scan_order(
                    styled_row_views(page.rows@),
                    range_views(found@),
                    request.direction,
                    request.max_scan_lines as int,
                ),
            ),
            request.direction,
            page.revision,
            total,
            answer,
        ),
        answer matches Ok(result) ==> result.scanned_lines <= request.max_scan_lines
            && result.matches@.len() <= request.max_matches,
{
    let count: usize = page.rows.len();
    let limit: usize = if count <= request.max_scan_lines {
        count
    } else {
        request.max_scan_lines
    };
    let ghost order = scan_order(
        styled_row_views(page.rows@),
        range_views(found@),
        request.direction,
        request.max_scan_lines as int,
    );
    let ghost start = scan_start(cursor);
    proof {
        law_search_reports_first_matches(*request, cursor, order);
    }
    let mut matches: Vec<HistorySearchMatch> = Vec::new();
    let mut scanned_lines: usize = 0;
    let mut incomplete: bool = false;
    let mut last_line_id: u64 = cursor.line_id;
    assert(order.take(0) =~= Seq::empty());
    while scanned_lines < limit
        invariant
            scanned_lines <= limit,
            limit == order.len(),
            limit <= count == page.rows@.len(),
            valid_request(*request),
            found_in_rows(found@, page.rows@),
            order == scan_order(
                styled_row_views(page.rows@),
                range_views(found@),
                request.direction,
                request.max_scan_lines as int,
            ),
            start == scan_start(cursor),
            with_rows(start, *request, cursor, order).matches.len() <= request.max_matches,
            matches@.len() < request.max_matches,
            with_rows(start, *request, cursor, order.take(scanned_lines as int)) == (Scan {
                matches: matches@,
                scanned: scanned_lines as int,
                incomplete,
                last_line: last_line_id,
                end: None,
            }),
        decreases limit - scanned_lines,
    {
        let index: usize = match request.direction {
            HistorySearchDirection::Forward => scanned_lines,
            HistorySearchDirection::Backward => count - 1 - scanned_lines,
        };
        let row = &page.rows[index];
        let ghost before = with_rows(start, *request, cursor, order.take(scanned_lines as int));
        proof {
            assert(order.take(scanned_lines + 1).drop_last() =~= order.take(scanned_lines as int));
            assert(order.take(scanned_lines + 1).last() == (row@, found@[index as int]@));
            assert(with_rows(start, *request, cursor, order.take(scanned_lines + 1)) == with_row(
                before,
                *request,
                cursor,
                row@,
                found@[index as int]@,
            ));
            lemma_utf8_valid(row.text@);
            lemma_boundary_at_ends(utf8(row.text@));
        }
        if row.truncated && scanned_lines > 0 {
            proof {
                lemma_ended_rows(start, *request, cursor, order, scanned_lines + 1);
            }
            return Ok(
                HistorySearchResult {
                    revision: page.revision,
                    matches,
                    scanned_lines,
                    next_cursor: Some(line_start_cursor(row.line_id, request.direction)),
                    incomplete,
                },
            );
        }
        scanned_lines += 1;
        last_line_id = row.line_id;
        incomplete = incomplete || row.truncated;
        let length: usize = byte_len(row.text.as_str());
        let boundary: usize = if row.line_id == cursor.line_id {
            if cursor.byte_offset <= length {
                cursor.byte_offset
            } else {
                length
            }
        } else {
            match request.direction {
                HistorySearchDirection::Forward => 0,
                HistorySearchDirection::Backward => length,
            }
        };
        if !row.text.as_str().is_char_boundary(boundary) {
            proof {
                lemma_ended_rows(start, *request, cursor, order, scanned_lines as int);
            }
            return Err(HistorySearchError::InvalidCursor(row.line_id));
        }
        let ranges = take_ranges(&found[index], request.direction, boundary);
        proof {
            assert(ranges_in_text(found@[index as int]@, page.rows@[index as int].text@));
            lemma_candidates_of(found@[index as int]@, request.direction, boundary as int);
            assert forall|i: int| 0 <= i < ranges@.len() implies (#[trigger] ranges@[i]).0
                <= ranges@[i].1 <= utf8(row.text@).len() && is_char_boundary(
                utf8(row.text@),
                ranges@[i].0 as int,
            ) && is_char_boundary(utf8(row.text@), ranges@[i].1 as int) by {
                let k = choose|k: int|
                    0 <= k < found@[index as int]@.len() && found@[index as int]@[k] == ranges@[i];
                assert(found@[index as int]@[k] == ranges@[i]);
            }
        }
        let ghost entered = Scan {
            scanned: scanned_lines as int,
            last_line: last_line_id,
            incomplete,
            ..before
        };
        let end = scan_row(request, row, &ranges, &mut matches, Ghost(entered));
        match end {
            RowEnd::GoOn => {},
            RowEnd::Full(next) => {
                proof {
                    lemma_ended_rows(start, *request, cursor, order, scanned_lines as int);
                }
                return Ok(
                    HistorySearchResult {
                        revision: page.revision,
                        matches,
                        scanned_lines,
                        next_cursor: Some(next),
                        incomplete,
                    },
                );
            },
            RowEnd::EmptyMatch => {
                proof {
                    lemma_ended_rows(start, *request, cursor, order, scanned_lines as int);
                }
                return Err(HistorySearchError::EmptyRegexMatch);
            },
        }
    }
    assert(order.take(limit as int) =~= order);
    let next_cursor = match request.direction {
        HistorySearchDirection::Forward => if last_line_id < total {
            Some(line_start_cursor(last_line_id + 1, request.direction))
        } else {
            None
        },
        HistorySearchDirection::Backward => if last_line_id > 1 {
            Some(line_start_cursor(last_line_id - 1, request.direction))
        } else {
            None
        },
    };
    Ok(
        HistorySearchResult {
            revision: page.revision,
            matches,
            scanned_lines,
            next_cursor,
            incomplete,
        },
    )
}

/// The ranges of the rows of a page that match a pattern.
pub open spec fn page_matches(
    pattern: Seq<char>,
    ignore_case: bool,
    rows: Seq<StyledRowModel>,
) -> Seq<Seq<(usize, usize)>> {
    Seq::new(rows.len(), |i: int| regex_matches(pattern, ignore_case, rows[i].text))
}

/// What a search answers whose rows, in the order in which they are scanned,
/// have the ranges `found` in them.
pub open spec fn page_answers(
    request: HistorySearchRequest,
    cursor: HistorySearchCursor,
    page: JournalStyledLogPage,
    found: Seq<Seq<(usize, usize)>>,
    total: u64,
    answer: Result<HistorySearchResult, HistorySearchError>,
) -> bool {
    scan_answers(
        with_rows(
            scan_start(cursor),
            request,
            cursor,
            scan_order(
                styled_row_views(page.rows@),
                found,
                request.direction,
                request.max_scan_lines as int,
            ),
        ),
        request.direction,
        page.revision,
        total,
        answer,
    )
}

/// The answer of a search, given what was found in the rows of its page.
pub fn answer_page(
    request: &HistorySearchRequest,
    cursor: HistorySearchCursor,
    page: &JournalStyledLogPage,
    found: Result<Vec<Vec<(usize, usize)>>, String>,
    total: u64,
) -> (answer: Result<HistorySearchResult, HistorySearchError>)
    requires
        valid_request(*request),
        found matches Ok(found) ==> found_in_rows(found@, page.rows@),
    ensures
        match found {
            Err(text) => answer == Err::<HistorySearchResult, _>(
                HistorySearchError::InvalidRegex(text),
            ),
            Ok(found) => page_answers(
                *request,
                cursor,
                *page,
                range_views(found@),
                total,
                answer,
            ),
        },
        answer matches Ok(result) ==> result.scanned_lines <= request.max_scan_lines
            && result.matches@.len() <= request.max_matches,
{
    match found {
        Err(text) => Err(HistorySearchError::InvalidRegex(text)),
        Ok(found) => scan_page(request, cursor, page, &found, total),
    }
}

/// Searches the rows of a page.
pub fn search_page(
    request: &HistorySearchRequest,
    cursor: HistorySearchCursor,
    page: &JournalStyledLogPage,
    total: u64,
) -> (answer: Result<HistorySearchResult, HistorySearchError>)
    requires
        valid_request(*request),
    ensures
        (answer matches Err(error) && is_invalid_regex(request.query@, request.options, error))
            || compiles(
            request.query@,
            request.options.regex,
            request.options.case_sensitive,
        ) && page_answers(
            *request,
            cursor,
            *page,
            page_matches(
                search_pattern(request.query@, request.options.regex),
                !request.options.case_sensitive,
                styled_row_views(page.rows@),
            ),
            total,
            answer,
        ),
        answer matches Ok(result) ==> result.scanned_lines <= request.max_scan_lines
            && result.matches@.len() <= request.max_matches,
{
    let wanted = regex_query(
        request.query.as_str(),
        request.options.regex,
        request.options.case_sensitive,
    );
    let mut texts: Vec<String> = Vec::new();
    let mut index: usize = 0;
    while index < page.rows.len()
        invariant
            index <= page.rows@.len(),
            texts@.len() == index,
            forall|i: int| 0 <= i < index ==> (#[trigger] texts@[i])@ == page.rows@[i].text@,
        decreases page.rows@.len() - index,
    {
        texts.push(page.rows[index].text.clone());
        index += 1;
    }
    proof {
        lemma_pattern_length(request.query@, request.options.regex);
    }
    let found = find_regex(&wanted, &texts);
    proof {
        if let Ok(lists) = &found {
            assert forall|i: int| 0 <= i < page.rows@.len() implies ranges_in_text(
                (#[trigger] lists@[i])@,
                page.rows@[i].text@,
            ) && lists@[i]@ == regex_matches(
                wanted.pattern@,
                wanted.ignore_case,
                page.rows@[i].text@,
            ) by {
                assert(texts@[i]@ == page.rows@[i].text@);
            }
            assert(range_views(lists@) =~= page_matches(
                wanted.pattern@,
                wanted.ignore_case,
                styled_row_views(page.rows@),
            ));
        }
    }
    answer_page(request, cursor, page, found, total)
}

/// The first step of a search.
#[derive(Debug)]
pub enum SearchStart {
    /// There are no lines to search.
    Empty,
    /// The page is to be read and searched.
    Read(SearchWindow),
}

/// Checks a request against a journal of `total` lines and says what it reads.
pub fn begin_search(request: &HistorySearchRequest, total: u64) -> (start: Result<
    SearchStart,
    HistorySearchError,
>)
    ensures
        match start {
            Ok(start) => {
                &&& valid_request(*request)
                &&& compiles(
                    request.query@,
                    request.options.regex,
                    request.options.case_sensitive,
                )
                &&& !matches_blank(request.query@, request.options)
                &&& match start {
                    SearchStart::Empty => total == 0,
                    SearchStart::Read(window) => window_of(*request, total, window),
                }
            },
            Err(error) => if !valid_request(*request) {
                request_fault(*request, error)
            } else {
                ||| is_invalid_regex(request.query@, request.options, error)
                ||| compiles(
                    request.query@,
                    request.options.regex,
                    request.options.case_sensitive,
                ) && if matches_blank(request.query@, request.options) {
                    error is EmptyRegexMatch
                } else {
                    let cursor = search_cursor(*request, total);
                    total > 0 && !(1 <= cursor.line_id <= total) && (error matches
                        HistorySearchError::Journal(inner) && unknown_line(inner, cursor.line_id))
                }
            },
        },
{
    match validate_request(request) {
        Err(error) => {
            return Err(error);
        },
        Ok(()) => {},
    }
    match build_matcher(request.query.as_str(), request.options) {
        Err(error) => {
            return Err(error);
        },
        Ok(_) => {},
    }
    match search_window(request, total) {
        Err(error) => Err(error),
        Ok(None) => Ok(SearchStart::Empty),
        Ok(Some(window)) => Ok(SearchStart::Read(window)),
    }
}

/// The answer of a search in a journal without lines.
pub fn empty_result(revision: u64) -> (result: HistorySearchResult)
    ensures
        result.revision == revision,
        result.matches@.len() == 0,
        result.scanned_lines == 0,
        result.next_cursor is None,
        !result.incomplete,
{
    HistorySearchResult {
        revision,
        matches: Vec::new(),
        scanned_lines: 0,
        next_cursor: None,
        incomplete: false,
    }
}

// ---------------------------------------------------------------------------
// Laws.

/// Searching on from the cursor behind a match takes up exactly the ranges
/// that the search had not reached: forward those behind the match, backward
/// those before it, nearest first.
pub proof fn law_cursor_resumes_after_match(
    found: Seq<(usize, usize)>,
    text: Seq<char>,
    line_id: u64,
    at: int,
    direction: HistorySearchDirection,
)
    requires
        ranges_in_text(found, text),
        0 <= at < found.len(),
        found[at].0 < found[at].1,
    ensures
        ({
            let next = after_match(match_of(line_id, found[at]), direction);
            candidates(found, direction, next.byte_offset as int) == match direction {
                HistorySearchDirection::Forward => found.skip(at + 1),
                HistorySearchDirection::Backward => found.take(at).reverse(),
            }
        }),
{
    match direction {
        HistorySearchDirection::Forward => lemma_resume_forward(found, at, found.len() as int),
        HistorySearchDirection::Backward => lemma_resume_backward(found, at, found.len() as int),
    }
    assert(found.take(found.len() as int) =~= found);
}

proof fn lemma_resume_forward(found: Seq<(usize, usize)>, at: int, count: int)
    requires
        forall|i: int| 0 <= i < found.len() ==> (#[trigger] found[i]).0 <= found[i].1,
        forall|i: int, j: int|
            0 <= i < j < found.len() ==> (#[trigger] found[i]).1 <= (#[trigger] found[j]).0,
        0 <= at < found.len(),
        found[at].0 < found[at].1,
        0 <= count <= found.len(),
    ensures
        candidates(found.take(count), HistorySearchDirection::Forward, found[at].1 as int)
            =~= if count <= at + 1 {
            Seq::empty()
        } else {
            found.subrange(at + 1, count)
        },
    decreases count,
{
    if count > 0 {
        assert(found.take(count).drop_last() =~= found.take(count - 1));
        lemma_resume_forward(found, at, count - 1);
        assert(found[count - 1] == found.take(count).last());
    }
}

proof fn lemma_resume_backward(found: Seq<(usize, usize)>, at: int, count: int)
    requires
        forall|i: int| 0 <= i < found.len() ==> (#[trigger] found[i]).0 <= found[i].1,
        forall|i: int, j: int|
            0 <= i < j < found.len() ==> (#[trigger] found[i]).1 <= (#[trigger] found[j]).0,
        0 <= at < found.len(),
        found[at].0 < found[at].1,
        0 <= count <= found.len(),
    ensures
        candidates(found.take(count), HistorySearchDirection::Backward, found[at].0 as int)
            =~= if count <= at {
            found.take(count).reverse()
        } else {
            found.take(at).reverse()
        },
    decreases count,
{
    if count > 0 {
        assert(found.take(count).drop_last() =~= found.take(count - 1));
        lemma_resume_backward(found, at, count - 1);
        assert(found[count - 1] == found.take(count).last());
        if count <= at {
            assert(found.take(count).reverse() =~= seq![found[count - 1]] + found.take(
                count - 1,
            ).reverse());
        }
    }
}

/// The matches that the ranges of a row give.
pub open spec fn row_matches(
    options: HistorySearchOptions,
    row: StyledRowModel,
    ranges: Seq<(usize, usize)>,
) -> Seq<HistorySearchMatch>
    decreases ranges.len(),
{
    if ranges.len() == 0 {
        Seq::empty()
    } else {
        let before = row_matches(options, row, ranges.drop_last());
        if accepts(options, row.text, ranges.last()) {
            before.push(match_of(row.line_id, ranges.last()))
        } else {
            before
        }
    }
}

/// All the matches of rows, one row after the other.
pub open spec fn all_matches(
    request: HistorySearchRequest,
    cursor: HistorySearchCursor,
    rows: Seq<(StyledRowModel, Seq<(usize, usize)>)>,
) -> Seq<HistorySearchMatch>
    decreases rows.len(),
{
    if rows.len() == 0 {
        Seq::empty()
    } else {
        let (row, found) = rows.last();
        all_matches(request, cursor, rows.drop_last()) + row_matches(
            request.options,
            row,
            candidates(found, request.direction, row_boundary(row, cursor, request.direction)),
        )
    }
}

proof fn lemma_range_prefix(
    scan: Scan,
    request: HistorySearchRequest,
    row: StyledRowModel,
    ranges: Seq<(usize, usize)>,
)
    requires
        scan.end is None,
        scan.matches.len() < request.max_matches,
    ensures
        ({
            let after = with_ranges(scan, request, row, ranges);
            let all = scan.matches + row_matches(request.options, row, ranges);
            &&& after.matches.is_prefix_of(all)
            &&& after.end is None ==> after.matches == all && after.matches.len()
                < request.max_matches
            &&& after.end matches Some(ScanEnd::Full(_)) ==> after.matches.len()
                == request.max_matches
            &&& after.matches.len() <= request.max_matches
            &&& after.scanned == scan.scanned
            &&& !(after.end matches Some(ScanEnd::Deferred(_)))
        }),
    decreases ranges.len(),
{
    if ranges.len() > 0 {
        lemma_range_prefix(scan, request, row, ranges.drop_last());
        let before = scan.matches + row_matches(request.options, row, ranges.drop_last());
        let all = scan.matches + row_matches(request.options, row, ranges);
        assert(before.is_prefix_of(all));
        if accepts(request.options, row.text, ranges.last()) {
            assert(all =~= before.push(match_of(row.line_id, ranges.last())));
        }
    } else {
        assert(scan.matches + Seq::<HistorySearchMatch>::empty() =~= scan.matches);
    }
}

/// A search reports the matches of its rows from the first one on, without a
/// gap, and no more than it was asked for. It reports all of them unless it
/// stops early, and stops as full only with the number asked for.
pub proof fn law_search_reports_first_matches(
    request: HistorySearchRequest,
    cursor: HistorySearchCursor,
    rows: Seq<(StyledRowModel, Seq<(usize, usize)>)>,
)
    requires
        valid_request(request),
    ensures
        ({
            let scan = with_rows(scan_start(cursor), request, cursor, rows);
            let all = all_matches(request, cursor, rows);
            &&& scan.matches.is_prefix_of(all)
            &&& scan.matches.len() <= request.max_matches
            &&& scan.scanned <= rows.len()
            &&& scan.end is None ==> scan.matches == all && scan.matches.len()
                < request.max_matches && scan.scanned == rows.len()
            &&& scan.end matches Some(ScanEnd::Full(_)) ==> scan.matches.len()
                == request.max_matches
        }),
    decreases rows.len(),
{
    if rows.len() > 0 {
        law_search_reports_first_matches(request, cursor, rows.drop_last());
        let before = with_rows(scan_start(cursor), request, cursor, rows.drop_last());
        let earlier = all_matches(request, cursor, rows.drop_last());
        let all = all_matches(request, cursor, rows);
        assert(earlier.is_prefix_of(all));
        let (row, found) = rows.last();
        let boundary = row_boundary(row, cursor, request.direction);
        if before.end is None && !(row.truncated && before.scanned > 0) && is_char_boundary(
            utf8(row.text),
            boundary,
        ) {
            let entered = Scan {
                scanned: before.scanned + 1,
                last_line: row.line_id,
                incomplete: before.incomplete || row.truncated,
                ..before
            };
            lemma_range_prefix(
                entered,
                request,
                row,
                candidates(found, request.direction, boundary),
            );
        }
    }
}

/// A row that did not fit into the page is not passed over: the search that
/// goes on from the answer begins with that row.
pub proof fn law_deferred_row_is_next(
    request: HistorySearchRequest,
    cursor: HistorySearchCursor,
    rows: Seq<(StyledRowModel, Seq<(usize, usize)>)>,
    at: int,
)
    requires
        valid_request(request),
        0 < at < rows.len(),
        rows[at].0.truncated,
        with_rows(scan_start(cursor), request, cursor, rows.take(at)).end is None,
    ensures
        ({
            let scan = with_rows(scan_start(cursor), request, cursor, rows);
            &&& scan.end == Some(
                ScanEnd::Deferred(line_entry(rows[at].0.line_id, request.direction)),
            )
            &&& scan.matches == all_matches(request, cursor, rows.take(at))
            &&& scan.scanned == at
        }),
{
    law_search_reports_first_matches(request, cursor, rows.take(at));
    assert(rows.take(at + 1).drop_last() =~= rows.take(at));
    lemma_ended_rows(scan_start(cursor), request, cursor, rows, at + 1);
}

} // verus!
