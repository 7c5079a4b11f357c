//! The decoder itself: from raw bulletin text to a structured report.
//!
//! [`MOS::new`] runs the four stages in order — header parsing, hour-row
//! column location, per-line field mapping, timestamp assignment — and its
//! contract pins the whole result, success or failure, as a function of
//! the input text alone.

use vstd::prelude::*;

use crate::entry::{entry_fields, EntryView, MOSEntry};
use crate::error::{with_kind, ErrorKind, TaggedError};
use crate::text::{
    all_digits, chars_of, col_spans, digits_val, find_columns, has_label, label_of, label_span,
    lemma_lines_nonempty, lemma_scan, lines_spec, nth_token, nth_token_spec, parse_digits_u16,
    range_eq_str, scan, split_lines, token_spans, trim_range, trimmed,
};
use crate::time::{
    civil_valid, days_in_month_exec, epoch_minutes, lemma_epoch_minutes_bound, Timestamp,
};
use vstd::string::StrSliceExecFns;
use vstd::string::StringExecFns;

verus! {

/// The bulletin's header: which station, and when the model ran.
#[derive(Debug)]
pub struct MOSMeta {
    /// The station identifier, the header's first token.
    pub icao: String,
    /// The bulletin's nominal issue time.
    pub timestamp: Timestamp,
}

/// The mathematical value of a [`MOSMeta`].
pub ghost struct MetaView {
    /// The station identifier.
    pub icao: Seq<char>,
    /// Issue time, in minutes since the epoch.
    pub timestamp: int,
}

impl View for MOSMeta {
    type V = MetaView;

    open spec fn view(&self) -> MetaView {
        MetaView { icao: self.icao@, timestamp: self.timestamp.minutes as int }
    }
}

impl Default for MOSMeta {
    /// An empty station at the epoch.
    fn default() -> (m: MOSMeta)
        ensures
            m@.icao.len() == 0,
            m@.timestamp == 0,
    {
        MOSMeta { icao: String::new(), timestamp: Timestamp { minutes: 0 } }
    }
}

/// A decoded bulletin: header, one entry per hour column, and the raw
/// text kept verbatim.
#[derive(Debug)]
pub struct MOS {
    /// The parsed header.
    pub meta: MOSMeta,
    /// One entry per hour column, left to right — chronological order.
    pub entries: Vec<MOSEntry>,
    /// The undecoded input, byte for byte.
    pub raw: String,
}

/// The mathematical value of a [`MOS`].
pub ghost struct ReportView {
    /// The parsed header.
    pub meta: MetaView,
    /// One entry per hour column, in column order.
    pub entries: Seq<EntryView>,
    /// The raw input text.
    pub raw: Seq<char>,
}

impl View for MOS {
    type V = ReportView;

    open spec fn view(&self) -> ReportView {
        ReportView {
            meta: self.meta@,
            entries: Seq::new(self.entries@.len(), |i: int| self.entries@[i]@),
            raw: self.raw@,
        }
    }
}

impl Default for MOS {
    /// An empty report: default header, no entries, empty text.
    fn default() -> (m: MOS)
        ensures
            m@.meta.icao.len() == 0,
            m@.meta.timestamp == 0,
            m@.entries.len() == 0,
            m@.raw.len() == 0,
    {
        MOS { meta: MOSMeta::default(), entries: Vec::new(), raw: String::new() }
    }
}

/// The index of the first `/` in a date token, or its length.
pub open spec fn date_slash1(s: Seq<char>) -> int {
    scan(s, 0, |c: char| c == '/')
}

/// The index of the second `/` in a date token, or its length.
pub open spec fn date_slash2(s: Seq<char>) -> int {
    let i = date_slash1(s);
    if 0 <= i < s.len() {
        scan(s, i + 1, |c: char| c == '/')
    } else {
        s.len() as int
    }
}

/// Whether a token is a strict `MM/DD/YYYY` date: one or two digits,
/// a slash, one or two digits, a slash, exactly four digits.
pub open spec fn date_token_valid(s: Seq<char>) -> bool {
    let i = date_slash1(s);
    let j = date_slash2(s);
    &&& 1 <= i <= 2
    &&& i < s.len()
    &&& all_digits(s.subrange(0, i))
    &&& i + 2 <= j < s.len()
    &&& j - i - 1 <= 2
    &&& all_digits(s.subrange(i + 1, j))
    &&& s.len() - j - 1 == 4
    &&& all_digits(s.subrange(j + 1, s.len() as int))
}

/// The year, month and day a valid date token names.
pub open spec fn date_token_ymd(s: Seq<char>) -> (int, int, int) {
    let i = date_slash1(s);
    let j = date_slash2(s);
    (
        digits_val(s.subrange(j + 1, s.len() as int)),
        digits_val(s.subrange(0, i)),
        digits_val(s.subrange(i + 1, j)),
    )
}

/// A valid date token's year fits in four digits, its month and day in two.
pub proof fn lemma_date_ymd_bounds(s: Seq<char>)
    requires
        date_token_valid(s),
    ensures
        0 <= date_token_ymd(s).0 <= 9999,
        0 <= date_token_ymd(s).1 <= 99,
        0 <= date_token_ymd(s).2 <= 99,
{
    let i = date_slash1(s);
    let j = date_slash2(s);
    crate::text::lemma_digits_val_bound(s.subrange(0, i));
    crate::text::lemma_digits_val_bound(s.subrange(i + 1, j));
    crate::text::lemma_digits_val_bound(s.subrange(j + 1, s.len() as int));
    assert(crate::text::pow10(0) == 1);
    assert(crate::text::pow10(1) == 10);
    assert(crate::text::pow10(2) == 100);
    assert(crate::text::pow10(3) == 1000);
    assert(crate::text::pow10(4) == 10000);
}

/// Whether a token is a strict `HHMM` time: exactly four digits.
pub open spec fn time_token_valid(s: Seq<char>) -> bool {
    s.len() == 4 && all_digits(s)
}

/// The hour and minute a valid time token names.
pub open spec fn time_token_hm(s: Seq<char>) -> (int, int) {
    (digits_val(s.subrange(0, 2)), digits_val(s.subrange(2, 4)))
}

/// Whether the header line has all six tokens the format requires:
/// station, model label and run tokens, date and time.
pub open spec fn header_has_tokens(line: Seq<char>) -> bool {
    token_spans(line).len() >= 6
}

/// Whether the header's fifth and sixth tokens form a real date and time.
pub open spec fn header_dt_valid(line: Seq<char>) -> bool {
    let date = nth_token_spec(line, 4);
    let time = nth_token_spec(line, 5);
    &&& date_token_valid(date)
    &&& time_token_valid(time)
    &&& civil_valid(
        date_token_ymd(date).0,
        date_token_ymd(date).1,
        date_token_ymd(date).2,
        time_token_hm(time).0,
        time_token_hm(time).1,
    )
}

/// The issue time the header names, in minutes since the epoch.
pub open spec fn header_minutes(line: Seq<char>) -> int {
    let date = nth_token_spec(line, 4);
    let time = nth_token_spec(line, 5);
    epoch_minutes(
        date_token_ymd(date).0,
        date_token_ymd(date).1,
        date_token_ymd(date).2,
        time_token_hm(time).0,
        time_token_hm(time).1,
    )
}

/// The header a valid header line decodes to.
pub open spec fn meta_spec(line: Seq<char>) -> MetaView {
    MetaView { icao: nth_token_spec(line, 0), timestamp: header_minutes(line) }
}

impl MOS {
    /// Decodes a raw bulletin into a report.
    ///
    /// On success the whole result is pinned by [`report_spec`]: the
    /// header from the first line, one entry per two-digit column of the
    /// hour row with every labelled line mapped into its fields, each
    /// entry's timestamp from the irregular hour schedule, and the input
    /// kept verbatim in `raw`. On failure the error's kind names the
    /// first stage that could not proceed, per [`first_error`].
    #[verifier::loop_isolation(false)]
    pub fn new(raw_mos: &str) -> (r: Result<MOS, TaggedError>)
        ensures
            match r {
                Ok(mos) => decode_ok(raw_mos@) && mos@ == report_spec(raw_mos@),
                Err(e) => !decode_ok(raw_mos@) && e.kind == first_error(raw_mos@),
            },
    {
        let ghost ls = lines_spec(raw_mos@);
        if raw_mos.unicode_len() == 0 {
            return Err(with_kind(ErrorKind::EmptyInput, "mos string is empty"));
        }
        let lines = split_lines(raw_mos);
        proof {
            lemma_lines_nonempty(raw_mos@);
        }
        let meta = match MOS::parse_meta(lines[0]) {
            Ok(m) => m,
            Err(e) => {
                return Err(e);
            },
        };
        let mut chars: Vec<Vec<char>> = Vec::new();
        let mut k: usize = 0;
        while k < lines.len()
            invariant
                k <= lines@.len(),
                chars@.len() == k,
                forall|j: int| 0 <= j < k ==> #[trigger] chars@[j]@ == lines@[j]@,
            decreases lines@.len() - k,
        {
            chars.push(chars_of(lines[k]));
            k = k + 1;
        }
        let hr: usize = match find_hour_row(&chars) {
            Some(h) => h,
            None => {
                proof {
                    assert forall|k: int| 0 <= k < ls.len() implies !is_hour_line(
                        #[trigger] ls[k],
                    ) by {
                        assert(ls[k] == chars@[k]@);
                    }
                    lemma_hour_row_idx(ls, 0, ls.len() as int);
                }
                return Err(with_kind(ErrorKind::NoHourRow, "could not parse hour line"));
            },
        };
        proof {
            assert forall|k: int| 0 <= k < hr implies !is_hour_line(#[trigger] ls[k]) by {
                assert(ls[k] == chars@[k]@);
            }
            assert(ls[hr as int] == chars@[hr as int]@);
            lemma_hour_row_idx(ls, 0, hr as int);
        }
        let spans = find_columns(&chars[hr]);
        let n = spans.len();
        if n == 0 {
            return Err(
                with_kind(ErrorKind::NoColumns, "no hour columns found in the hour line"),
            );
        }
        let ghost cols = col_spans(ls[hr as int]);
        let ghost base = header_minutes(ls[0]);
        proof {
            let date = nth_token_spec(ls[0], 4);
            let time = nth_token_spec(ls[0], 5);
            lemma_epoch_minutes_bound(
                date_token_ymd(date).0,
                date_token_ymd(date).1,
                date_token_ymd(date).2,
                time_token_hm(time).0,
                time_token_hm(time).1,
            );
        }
        let mut entries: Vec<MOSEntry> = Vec::new();
        let mut i: usize = 0;
        while i < n
            invariant
                i <= n,
                n == spans@.len(),
                n == cols.len(),
                decode_ok(raw_mos@),
                ls == lines_spec(raw_mos@),
                hr as int == hour_row_idx(ls),
                hr < lines@.len(),
                cols == col_spans(ls[hr as int]),
                base == header_minutes(ls[0]),
                meta.timestamp.minutes == base,
                -5_000_000_000 <= base <= 5_000_000_000,
                lines@.len() == ls.len(),
                chars@.len() == lines@.len(),
                forall|j: int| 0 <= j < lines@.len() ==> #[trigger] lines@[j]@ == ls[j],
                forall|j: int| 0 <= j < lines@.len() ==> #[trigger] chars@[j]@ == lines@[j]@,
                forall|j: int|
                    0 <= j < spans@.len() ==> (#[trigger] spans@[j]).0 == cols[j].0 && spans@[
                        j
                    ].1 == cols[j].1 && spans@[j].0 < spans@[j].1,
                entries@.len() == i,
                forall|j: int|
                    0 <= j < i ==> #[trigger] entries@[j]@ == report_spec(raw_mos@).entries[j],
            decreases n - i,
        {
            let (s, e) = spans[i];
            let mut entry = crate::entry::build_entry(&lines, &chars, s, e, i == 0);
            proof {
                assert(Seq::new(lines@.len(), |j: int| lines@[j]@) =~= ls);
            }
            let add: i128 = {
                let base3: i128 = 3 * (i as i128) + 6;
                if n > 2 && i >= n - 2 {
                    base3 + 3 * ((3 - (n - i)) as i128)
                } else {
                    base3
                }
            };
            proof {
                assert(add == add_hours_spec(i as int, n as int));
                assert(usize::MAX as int <= u64::MAX as int || usize::MAX as int <= u32::MAX
                    as int);
                assert(i as int <= usize::MAX as int);
                assert(0 <= add <= 3 * (usize::MAX as int) + 12);
            }
            entry.timestamp = meta.timestamp.plus_hours(add);
            proof {
                let rv = report_spec(raw_mos@);
                assert(rv.entries[i as int] == EntryView {
                    timestamp: base + 60 * add_hours_spec(i as int, n as int),
                    ..entry_fields(ls, cols[i as int].0, cols[i as int].1, i == 0)
                });
                assert(entry@ == rv.entries[i as int]);
            }
            entries.push(entry);
            i = i + 1;
        }
        let raw = raw_mos.to_owned();
        let mos = MOS { meta, entries, raw };
        proof {
            let rv = report_spec(raw_mos@);
            assert(mos@.entries =~= rv.entries);
            assert(mos@ == rv);
        }
        Ok(mos)
    }

    /// Decodes the first line of a bulletin: the station identifier is the
    /// first whitespace-separated token, the issue date and time the fifth
    /// and sixth, as strict `MM/DD/YYYY` and `HHMM`.
    pub fn parse_meta(meta_line: &str) -> (r: Result<MOSMeta, TaggedError>)
        ensures
            match r {
                Ok(m) => {
                    &&& header_has_tokens(meta_line@)
                    &&& header_dt_valid(meta_line@)
                    &&& m@ == meta_spec(meta_line@)
                },
                Err(e) => {
                    &&& !(header_has_tokens(meta_line@) && header_dt_valid(meta_line@))
                    &&& e.kind == if !header_has_tokens(meta_line@) {
                        ErrorKind::MalformedHeader
                    } else {
                        ErrorKind::TimestampParse
                    }
                },
            },
    {
        let chars = chars_of(meta_line);
        let icao_span = match nth_token(&chars, 0) {
            Some(sp) => sp,
            None => {
                return Err(
                    with_kind(ErrorKind::MalformedHeader, "no icao in the first line of the mos"),
                );
            },
        };
        let date_span = match nth_token(&chars, 4) {
            Some(sp) => sp,
            None => {
                return Err(
                    with_kind(ErrorKind::MalformedHeader, "no date in the first line of the mos"),
                );
            },
        };
        let time_span = match nth_token(&chars, 5) {
            Some(sp) => sp,
            None => {
                return Err(
                    with_kind(ErrorKind::MalformedHeader, "no time in the first line of the mos"),
                );
            },
        };
        let dtok = copy_range(&chars, date_span.0, date_span.1);
        let ttok = copy_range(&chars, time_span.0, time_span.1);
        proof {
            assert(dtok@ == nth_token_spec(meta_line@, 4));
            assert(ttok@ == nth_token_spec(meta_line@, 5));
        }
        let (y, mo, d) = match parse_date_token(&dtok) {
            Some(ymd) => ymd,
            None => {
                return Err(
                    with_kind(
                        ErrorKind::TimestampParse,
                        "the date in the first line of the mos does not match MM/DD/YYYY",
                    ),
                );
            },
        };
        let (h, mi) = match parse_time_token(&ttok) {
            Some(hm) => hm,
            None => {
                return Err(
                    with_kind(
                        ErrorKind::TimestampParse,
                        "the time in the first line of the mos does not match HHMM",
                    ),
                );
            },
        };
        if !(1 <= mo && mo <= 12 && 1 <= d && h <= 23 && mi <= 59) {
            return Err(
                with_kind(
                    ErrorKind::TimestampParse,
                    "the date and time in the first line of the mos name no real instant",
                ),
            );
        }
        let dim = days_in_month_exec(y, mo as u8);
        if d > dim as u16 {
            return Err(
                with_kind(
                    ErrorKind::TimestampParse,
                    "the date in the first line of the mos names no real day",
                ),
            );
        }
        proof {
            lemma_date_ymd_bounds(dtok@);
        }
        let timestamp = Timestamp::from_civil(y, mo as u8, d as u8, h as u8, mi as u8);
        let icao = meta_line.substring_char(icao_span.0, icao_span.1).to_owned();
        Ok(MOSMeta { icao, timestamp })
    }
}

/// Whether a line is the hour row: its label is the marker `HR`.
pub open spec fn is_hour_line(line: Seq<char>) -> bool {
    has_label(line) && label_of(line) == "HR"@
}

/// The index of the first hour row among the lines, or their count when
/// no line carries the marker.
pub open spec fn hour_row_idx_from(lines: Seq<Seq<char>>, i: int) -> int
    decreases lines.len() - i
        when 0 <= i <= lines.len()
{
    if i >= lines.len() {
        lines.len() as int
    } else if is_hour_line(lines[i]) {
        i
    } else {
        hour_row_idx_from(lines, i + 1)
    }
}

/// The index of the first hour row, or the line count when there is none.
pub open spec fn hour_row_idx(lines: Seq<Seq<char>>) -> int {
    hour_row_idx_from(lines, 0)
}

/// Characterizes [`hour_row_idx`] by the first index carrying the marker.
pub proof fn lemma_hour_row_idx(lines: Seq<Seq<char>>, i: int, j: int)
    requires
        0 <= i <= j <= lines.len(),
        forall|k: int| i <= k < j ==> !is_hour_line(#[trigger] lines[k]),
        j < lines.len() ==> is_hour_line(lines[j]),
    ensures
        hour_row_idx_from(lines, i) == j,
    decreases j - i,
{
    if i < j {
        lemma_hour_row_idx(lines, i + 1, j);
    }
}

/// Whether the whole decode succeeds: some text, a well-formed header, a
/// real issue instant, an hour row, and at least one column on it.
pub open spec fn decode_ok(raw: Seq<char>) -> bool {
    let ls = lines_spec(raw);
    &&& raw.len() > 0
    &&& header_has_tokens(ls[0])
    &&& header_dt_valid(ls[0])
    &&& hour_row_idx(ls) < ls.len()
    &&& col_spans(ls[hour_row_idx(ls)]).len() > 0
}

/// The kind of the error a failing decode reports: the first stage that
/// cannot proceed.
pub open spec fn first_error(raw: Seq<char>) -> ErrorKind {
    let ls = lines_spec(raw);
    if raw.len() == 0 {
        ErrorKind::EmptyInput
    } else if !header_has_tokens(ls[0]) {
        ErrorKind::MalformedHeader
    } else if !header_dt_valid(ls[0]) {
        ErrorKind::TimestampParse
    } else if hour_row_idx(ls) >= ls.len() {
        ErrorKind::NoHourRow
    } else {
        ErrorKind::NoColumns
    }
}

/// How many hours after the issue time the entry at index `i` of `n`
/// describes: a steady three-hour cadence starting six hours out, with
/// the last two entries of a longer bulletin pushed further out because
/// they cover wider aggregation windows.
pub open spec fn add_hours_spec(i: int, n: int) -> int {
    if n > 2 && i >= n - 2 {
        3 * i + 6 + 3 * (3 - (n - i))
    } else {
        3 * i + 6
    }
}

/// The report a decodable text decodes to.
pub open spec fn report_spec(raw: Seq<char>) -> ReportView {
    let ls = lines_spec(raw);
    let hr = hour_row_idx(ls);
    let spans = col_spans(ls[hr]);
    let base = header_minutes(ls[0]);
    let n = spans.len() as int;
    ReportView {
        meta: meta_spec(ls[0]),
        entries: Seq::new(
            spans.len(),
            |i: int|
                EntryView {
                    timestamp: base + 60 * add_hours_spec(i, n),
                    ..entry_fields(ls, spans[i].0, spans[i].1, i == 0)
                },
        ),
        raw: raw,
    }
}

/// A decoded report has exactly one entry per two-digit column found on
/// the hour row.
pub proof fn lemma_entry_count(raw: Seq<char>)
    requires
        decode_ok(raw),
    ensures
        report_spec(raw).entries.len() == col_spans(
            lines_spec(raw)[hour_row_idx(lines_spec(raw))],
        ).len(),
{
}

/// Entry timestamps strictly increase with the column index.
pub proof fn lemma_timestamps_increasing(raw: Seq<char>, i: int)
    requires
        decode_ok(raw),
        0 <= i,
        i + 1 < report_spec(raw).entries.len(),
    ensures
        report_spec(raw).entries[i].timestamp < report_spec(raw).entries[i + 1].timestamp,
{
    let ls = lines_spec(raw);
    let n = col_spans(ls[hour_row_idx(ls)]).len() as int;
    assert(report_spec(raw).entries[i].timestamp == header_minutes(ls[0]) + 60 * add_hours_spec(
        i,
        n,
    ));
    assert(report_spec(raw).entries[i + 1].timestamp == header_minutes(ls[0]) + 60
        * add_hours_spec(i + 1, n));
    assert(add_hours_spec(i, n) < add_hours_spec(i + 1, n));
}

/// A bulletin of at most two entries keeps the uncorrected schedule: the
/// entry at index `i` sits exactly `3 * i + 6` hours after the issue time.
pub proof fn lemma_short_bulletin_timestamps(raw: Seq<char>, i: int)
    requires
        decode_ok(raw),
        report_spec(raw).entries.len() <= 2,
        0 <= i < report_spec(raw).entries.len(),
    ensures
        report_spec(raw).entries[i].timestamp == header_minutes(lines_spec(raw)[0]) + 60 * (3 * i
            + 6),
{
}

/// In a bulletin of more than two entries, each of the last two sits
/// exactly `3 * (3 - (n - i))` hours later than the uncorrected schedule.
pub proof fn lemma_tail_correction(raw: Seq<char>, i: int)
    requires
        decode_ok(raw),
        report_spec(raw).entries.len() > 2,
        report_spec(raw).entries.len() - 2 <= i < report_spec(raw).entries.len(),
    ensures
        report_spec(raw).entries[i].timestamp - (header_minutes(lines_spec(raw)[0]) + 60 * (3 * i
            + 6)) == 60 * 3 * (3 - (report_spec(raw).entries.len() - i)),
{
    let ls = lines_spec(raw);
    let n = col_spans(ls[hour_row_idx(ls)]).len() as int;
    assert(report_spec(raw).entries.len() == n);
    assert(report_spec(raw).entries[i].timestamp == header_minutes(ls[0]) + 60 * add_hours_spec(
        i,
        n,
    ));
    let ts = report_spec(raw).entries[i].timestamp;
    let base = header_minutes(ls[0]);
    let add = add_hours_spec(i, n);
    assert(add == 3 * i + 6 + 3 * (3 - (n - i)));
    assert(ts - (base + 60 * (3 * i + 6)) == 60 * 3 * (3 - (n - i))) by (nonlinear_arith)
        requires
            ts == base + 60 * add,
            add == 3 * i + 6 + 3 * (3 - (n - i)),
    ;
}

/// Decoding is a pure function of the text: two reports that both satisfy
/// the decode specification of the same raw text are identical.
pub proof fn lemma_decode_deterministic(raw: Seq<char>, r1: ReportView, r2: ReportView)
    requires
        r1 == report_spec(raw),
        r2 == report_spec(raw),
    ensures
        r1 == r2,
{
}

/// A decoded report keeps the raw input text verbatim.
pub proof fn lemma_raw_round_trip(raw: Seq<char>)
    requires
        decode_ok(raw),
    ensures
        report_spec(raw).raw == raw,
{
}

/// Finds the first line whose label is the hour-row marker.
fn find_hour_row(chars: &Vec<Vec<char>>) -> (r: Option<usize>)
    ensures
        match r {
            Some(h) => {
                &&& h < chars@.len()
                &&& forall|j: int| 0 <= j < h ==> !is_hour_line(#[trigger] chars@[j]@)
                &&& is_hour_line(chars@[h as int]@)
            },
            None => forall|j: int| 0 <= j < chars@.len() ==> !is_hour_line(#[trigger] chars@[j]@),
        },
{
    let n = chars.len();
    let mut hr: usize = 0;
    while hr < n
        invariant
            hr <= n,
            n == chars@.len(),
            forall|j: int| 0 <= j < hr ==> !is_hour_line(#[trigger] chars@[j]@),
        decreases n - hr,
    {
        let cj: &Vec<char> = &chars[hr];
        match label_span(cj) {
            None => {},
            Some((a, b)) => {
                let (la, lb) = trim_range(cj, a, b);
                proof {
                    assert(trimmed(cj@, a as int, b as int) == label_of(cj@));
                }
                if range_eq_str(cj, la, lb, "HR") {
                    return Some(hr);
                }
            },
        }
        hr = hr + 1;
    }
    None
}

/// Copies the range `[lo, hi)` of a line into a vector of its own.
fn copy_range(line: &Vec<char>, lo: usize, hi: usize) -> (v: Vec<char>)
    requires
        lo <= hi <= line@.len(),
    ensures
        v@ == line@.subrange(lo as int, hi as int),
{
    let mut v: Vec<char> = Vec::new();
    let mut k: usize = lo;
    while k < hi
        invariant
            lo <= k <= hi,
            hi <= line@.len(),
            v@ == line@.subrange(lo as int, k as int),
        decreases hi - k,
    {
        v.push(line[k]);
        proof {
            assert(line@.subrange(lo as int, (k + 1) as int) =~= line@.subrange(
                lo as int,
                k as int,
            ).push(line@[k as int]));
        }
        k = k + 1;
    }
    v
}

/// Parses a strict `MM/DD/YYYY` token into year, month and day values.
fn parse_date_token(tok: &Vec<char>) -> (r: Option<(u16, u16, u16)>)
    ensures
        match r {
            Some(ymd) => {
                &&& date_token_valid(tok@)
                &&& ymd.0 == date_token_ymd(tok@).0
                &&& ymd.1 == date_token_ymd(tok@).1
                &&& ymd.2 == date_token_ymd(tok@).2
            },
            None => !date_token_valid(tok@),
        },
{
    let n = tok.len();
    let mut i: usize = 0;
    while i < n && tok[i] != '/'
        invariant
            i <= n,
            n == tok@.len(),
            forall|k: int| 0 <= k < i ==> tok@[k] != '/',
        decreases n - i,
    {
        i = i + 1;
    }
    proof {
        lemma_scan(tok@, 0, i as int, |c: char| c == '/');
    }
    if !(1 <= i && i <= 2 && i < n) {
        return None;
    }
    let mut j: usize = i + 1;
    while j < n && tok[j] != '/'
        invariant
            i + 1 <= j <= n,
            n == tok@.len(),
            forall|k: int| i + 1 <= k < j ==> tok@[k] != '/',
        decreases n - j,
    {
        j = j + 1;
    }
    proof {
        lemma_scan(tok@, i + 1, j as int, |c: char| c == '/');
    }
    if !(i + 2 <= j && j < n && j - i - 1 <= 2 && n - j - 1 == 4) {
        return None;
    }
    let mo = match parse_digits_u16(tok, 0, i) {
        Some(v) => v,
        None => {
            return None;
        },
    };
    let d = match parse_digits_u16(tok, i + 1, j) {
        Some(v) => v,
        None => {
            return None;
        },
    };
    let y = match parse_digits_u16(tok, j + 1, n) {
        Some(v) => v,
        None => {
            return None;
        },
    };
    Some((y, mo, d))
}

/// Parses a strict `HHMM` token into hour and minute values.
fn parse_time_token(tok: &Vec<char>) -> (r: Option<(u16, u16)>)
    ensures
        match r {
            Some(hm) => {
                &&& time_token_valid(tok@)
                &&& hm.0 == time_token_hm(tok@).0
                &&& hm.1 == time_token_hm(tok@).1
            },
            None => !time_token_valid(tok@),
        },
{
    if tok.len() != 4 {
        return None;
    }
    let h = match parse_digits_u16(tok, 0, 2) {
        Some(v) => v,
        None => {
            proof {
                assert(tok@.subrange(0, 2)[0] == tok@[0]);
                assert(tok@.subrange(0, 2)[1] == tok@[1]);
            }
            return None;
        },
    };
    let mi = match parse_digits_u16(tok, 2, 4) {
        Some(v) => v,
        None => {
            proof {
                assert(tok@.subrange(2, 4)[0] == tok@[2]);
                assert(tok@.subrange(2, 4)[1] == tok@[3]);
            }
            return None;
        },
    };
    proof {
        assert forall|k: int| 0 <= k < 4 implies crate::text::is_digit(tok@[k]) by {
            if k < 2 {
                assert(tok@.subrange(0, 2)[k] == tok@[k]);
            } else {
                assert(tok@.subrange(2, 4)[k - 2] == tok@[k]);
            }
        }
    }
    Some((h, mi))
}

} // verus!
