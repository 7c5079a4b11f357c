//! End-to-end tests of the bulletin decoder.

use mos::error::ErrorKind;
use mos::report::MOS;
use mos::time::Timestamp;

/// Minutes since the epoch of 2020-01-02T00:00 UTC.
const BASE: i128 = 18_263 * 1_440;

const EXAMPLE: &str = "KFIT   GFS MOS GUIDANCE    1/02/2020  0000 UTC\n\
                       HR   06 09 12 15 18 21\n\
                       TMP  62 58 55 52 48 45";

#[test]
fn decodes_example_bulletin() {
    let mos = MOS::new(EXAMPLE).expect("example bulletin must decode");
    assert_eq!(mos.meta.icao, "KFIT");
    assert_eq!(mos.meta.timestamp.minutes, BASE);
    assert_eq!(mos.entries.len(), 6);
    let temps: Vec<Option<isize>> = mos.entries.iter().map(|e| e.tmp).collect();
    assert_eq!(
        temps,
        vec![Some(62), Some(58), Some(55), Some(52), Some(48), Some(45)]
    );
    // The last two columns are pushed out by the aggregation-window rule.
    let hours = [6i128, 9, 12, 15, 21, 27];
    for (entry, h) in mos.entries.iter().zip(hours.iter()) {
        assert_eq!(entry.timestamp.minutes, BASE + 60 * h);
    }
}

#[test]
fn timestamps_strictly_increase() {
    let mos = MOS::new(EXAMPLE).unwrap();
    for pair in mos.entries.windows(2) {
        assert!(pair[0].timestamp.minutes < pair[1].timestamp.minutes);
    }
}

#[test]
fn keeps_raw_text_verbatim() {
    let mos = MOS::new(EXAMPLE).unwrap();
    assert_eq!(mos.raw, EXAMPLE);
}

#[test]
fn decoding_twice_is_identical() {
    let a = MOS::new(EXAMPLE).unwrap();
    let b = MOS::new(EXAMPLE).unwrap();
    assert_eq!(a.raw, b.raw);
    assert_eq!(a.meta.icao, b.meta.icao);
    assert_eq!(a.meta.timestamp.minutes, b.meta.timestamp.minutes);
    assert_eq!(a.entries.len(), b.entries.len());
    for (x, y) in a.entries.iter().zip(b.entries.iter()) {
        assert_eq!(x.timestamp.minutes, y.timestamp.minutes);
        assert_eq!(x.tmp, y.tmp);
        assert_eq!(x.dpt, y.dpt);
        assert_eq!(x.cld, y.cld);
    }
}

#[test]
fn short_bulletin_keeps_uncorrected_schedule() {
    let raw = "KFIT   GFS MOS GUIDANCE    1/02/2020  0000 UTC\n\
               HR   06 09\n\
               TMP  62 58";
    let mos = MOS::new(raw).unwrap();
    assert_eq!(mos.entries.len(), 2);
    assert_eq!(mos.entries[0].timestamp.minutes, BASE + 60 * 6);
    assert_eq!(mos.entries[1].timestamp.minutes, BASE + 60 * 9);
}

#[test]
fn three_entry_bulletin_corrects_last_two() {
    let raw = "KFIT   GFS MOS GUIDANCE    1/02/2020  0000 UTC\n\
               HR   06 09 12\n\
               TMP  62 58 55";
    let mos = MOS::new(raw).unwrap();
    assert_eq!(mos.entries.len(), 3);
    // Uncorrected hours would be 6, 9, 12; the last two gain 3 and 6.
    assert_eq!(mos.entries[0].timestamp.minutes, BASE + 60 * 6);
    assert_eq!(mos.entries[1].timestamp.minutes, BASE + 60 * 12);
    assert_eq!(mos.entries[2].timestamp.minutes, BASE + 60 * 18);
}

#[test]
fn header_missing_date_is_malformed() {
    let err = MOS::new("KFIT   GFS MOS GUIDANCE\nHR   06 09").unwrap_err();
    assert_eq!(err.kind, ErrorKind::MalformedHeader);
    let err = MOS::new("\n").unwrap_err();
    assert_eq!(err.kind, ErrorKind::MalformedHeader);
}

#[test]
fn header_invalid_date_is_timestamp_parse() {
    // Well-formed tokens naming no real day.
    let err =
        MOS::new("KFIT   GFS MOS GUIDANCE    2/30/2020  0000 UTC\nHR   06 09").unwrap_err();
    assert_eq!(err.kind, ErrorKind::TimestampParse);
    // A date token that does not match MM/DD/YYYY at all.
    let err =
        MOS::new("KFIT   GFS MOS GUIDANCE    1-02-2020  0000 UTC\nHR   06 09").unwrap_err();
    assert_eq!(err.kind, ErrorKind::TimestampParse);
    // A time token of the wrong width.
    let err =
        MOS::new("KFIT   GFS MOS GUIDANCE    1/02/2020  000  UTC\nHR   06 09").unwrap_err();
    assert_eq!(err.kind, ErrorKind::TimestampParse);
}

#[test]
fn missing_hour_row_is_no_hour_row() {
    let err = MOS::new("KFIT   GFS MOS GUIDANCE    1/02/2020  0000 UTC\n\
                        TMP  62 58")
        .unwrap_err();
    assert_eq!(err.kind, ErrorKind::NoHourRow);
}

#[test]
fn hour_row_without_columns_is_no_columns() {
    let err = MOS::new("KFIT   GFS MOS GUIDANCE    1/02/2020  0000 UTC\n\
                        HR   x y z")
        .unwrap_err();
    assert_eq!(err.kind, ErrorKind::NoColumns);
}

#[test]
fn empty_input_is_empty_input() {
    let err = MOS::new("").unwrap_err();
    assert_eq!(err.kind, ErrorKind::EmptyInput);
}

#[test]
fn bad_cell_degrades_to_absent_field() {
    let raw = "KFIT   GFS MOS GUIDANCE    1/02/2020  0000 UTC\n\
               HR   06 09 12 15 18 21\n\
               TMP  62 xx 55 52 48 45\n\
               DPT  40 38 36 34 32 30";
    let mos = MOS::new(raw).unwrap();
    let temps: Vec<Option<isize>> = mos.entries.iter().map(|e| e.tmp).collect();
    assert_eq!(
        temps,
        vec![Some(62), None, Some(55), Some(52), Some(48), Some(45)]
    );
    let dews: Vec<Option<isize>> = mos.entries.iter().map(|e| e.dpt).collect();
    assert_eq!(
        dews,
        vec![Some(40), Some(38), Some(36), Some(34), Some(32), Some(30)]
    );
}

#[test]
fn first_column_starts_at_each_rows_own_label_end() {
    // The hour row's first span starts inside other rows' labels; the
    // mapper must slice from each row's own label end instead.
    let raw = "KFIT   GFS MOS GUIDANCE    1/02/2020  0000 UTC\n\
               HR      06 09\n\
               N/X     33 44\n\
               TMP     62 72\n\
               WDR     10 20";
    let mos = MOS::new(raw).unwrap();
    assert_eq!(mos.entries.len(), 2);
    assert_eq!(mos.entries[0].nx, Some(33));
    assert_eq!(mos.entries[1].nx, Some(44));
    assert_eq!(mos.entries[0].tmp, Some(62));
    assert_eq!(mos.entries[1].tmp, Some(72));
    assert_eq!(mos.entries[0].wdr, Some(10));
    assert_eq!(mos.entries[1].wdr, Some(20));
}

#[test]
fn signed_cells_parse() {
    let raw = "KFIT   GFS MOS GUIDANCE    1/02/2020  0000 UTC\n\
               HR      06 09\n\
               TMP     -5 +7";
    let mos = MOS::new(raw).unwrap();
    assert_eq!(mos.entries[0].tmp, Some(-5));
    assert_eq!(mos.entries[1].tmp, Some(7));
}

#[test]
fn blank_string_cell_is_present_but_empty() {
    // The second CLD cell is blank; a matched string label still stores
    // the (empty) trimmed cell.
    let raw = "KFIT   GFS MOS GUIDANCE    1/02/2020  0000 UTC\n\
               HR      06 09\n\
               CLD     OV";
    let mos = MOS::new(raw).unwrap();
    assert_eq!(mos.entries[0].cld.as_deref(), Some("OV"));
    assert_eq!(mos.entries[1].cld.as_deref(), Some(""));
    assert_eq!(mos.entries[0].typ, None);
}

#[test]
fn unrecognized_labels_are_ignored() {
    let raw = "KFIT   GFS MOS GUIDANCE    1/02/2020  0000 UTC\n\
               HR   06 09\n\
               ZZZ  11 22\n\
               TMP  62 58";
    let mos = MOS::new(raw).unwrap();
    assert_eq!(mos.entries[0].tmp, Some(62));
    assert_eq!(mos.entries[0].nx, None);
    assert_eq!(mos.entries[0].t06, None);
    assert_eq!(mos.entries[0].t12, None);
}

#[test]
fn later_rows_with_the_same_label_win() {
    let raw = "KFIT   GFS MOS GUIDANCE    1/02/2020  0000 UTC\n\
               HR   06 09\n\
               TMP  62 58\n\
               TMP  10 11";
    let mos = MOS::new(raw).unwrap();
    assert_eq!(mos.entries[0].tmp, Some(10));
    assert_eq!(mos.entries[1].tmp, Some(11));
}

#[test]
fn timestamp_from_civil_exact_values() {
    assert_eq!(Timestamp::from_civil(1970, 1, 1, 0, 0).minutes, 0);
    assert_eq!(Timestamp::from_civil(2020, 1, 2, 0, 0).minutes, BASE);
    // 2020 is a leap year: Feb 29 exists and sits 59 days into the year.
    assert_eq!(
        Timestamp::from_civil(2020, 2, 29, 0, 0).minutes,
        (18_262 + 31 + 28) * 1_440
    );
    assert_eq!(
        Timestamp::from_civil(1969, 12, 31, 23, 59).minutes,
        -1
    );
}

#[test]
fn error_constructors_tag_their_kind() {
    let e = mos::error::new("no pre block");
    assert_eq!(e.kind, ErrorKind::Extraction);
    assert_eq!(e.message(), "no pre block");
    let e = mos::error::with_kind(ErrorKind::Transport, "connection refused");
    assert_eq!(e.kind, ErrorKind::Transport);
    assert_eq!(e.msg, "connection refused");
}

#[test]
fn parse_meta_reads_station_and_instant() {
    let meta = MOS::parse_meta("KBOS   GFS MOS GUIDANCE    2/29/2020  1230 UTC").unwrap();
    assert_eq!(meta.icao, "KBOS");
    assert_eq!(
        meta.timestamp.minutes,
        (18_262 + 31 + 28) * 1_440 + 12 * 60 + 30
    );
}

#[test]
fn carriage_returns_are_trimmed_from_cells() {
    let raw = "KFIT   GFS MOS GUIDANCE    1/02/2020  0000 UTC\r\n\
               HR   06 09\r\n\
               TMP  62 58\r\n";
    let mos = MOS::new(raw).unwrap();
    assert_eq!(mos.entries.len(), 2);
    assert_eq!(mos.entries[0].tmp, Some(62));
    assert_eq!(mos.entries[1].tmp, Some(58));
    assert_eq!(mos.raw, raw);
}

#[test]
fn every_label_maps_to_its_field() {
    let raw = "KFIT   GFS MOS GUIDANCE    1/02/2020  0000 UTC\n\
               HR      06 09\n\
               N/X     10 11\n\
               TMP     12 13\n\
               DPT     14 15\n\
               CLD     OV BK\n\
               WDR     16 17\n\
               WSP     18 19\n\
               P06     20 21\n\
               P12     22 23\n\
               Q06     24 25\n\
               Q12     26 27\n\
               POZ     28 29\n\
               POS     30 31\n\
               TYP     RW SN\n\
               SNW     32 33\n\
               CIG     34 35\n\
               VIS     36 37\n\
               OBV     FG HZ";
    let mos = MOS::new(raw).unwrap();
    assert_eq!(mos.entries.len(), 2);
    let e0 = &mos.entries[0];
    let e1 = &mos.entries[1];
    assert_eq!((e0.nx, e1.nx), (Some(10), Some(11)));
    assert_eq!((e0.tmp, e1.tmp), (Some(12), Some(13)));
    assert_eq!((e0.dpt, e1.dpt), (Some(14), Some(15)));
    assert_eq!((e0.cld.as_deref(), e1.cld.as_deref()), (Some("OV"), Some("BK")));
    assert_eq!((e0.wdr, e1.wdr), (Some(16), Some(17)));
    assert_eq!((e0.wsp, e1.wsp), (Some(18), Some(19)));
    assert_eq!((e0.p06, e1.p06), (Some(20), Some(21)));
    assert_eq!((e0.p12, e1.p12), (Some(22), Some(23)));
    assert_eq!((e0.q06, e1.q06), (Some(24), Some(25)));
    assert_eq!((e0.q12, e1.q12), (Some(26), Some(27)));
    assert_eq!((e0.poz, e1.poz), (Some(28), Some(29)));
    assert_eq!((e0.pos, e1.pos), (Some(30), Some(31)));
    assert_eq!((e0.typ.as_deref(), e1.typ.as_deref()), (Some("RW"), Some("SN")));
    assert_eq!((e0.snw, e1.snw), (Some(32), Some(33)));
    assert_eq!((e0.cig, e1.cig), (Some(34), Some(35)));
    assert_eq!((e0.vis, e1.vis), (Some(36), Some(37)));
    assert_eq!((e0.obv.as_deref(), e1.obv.as_deref()), (Some("FG"), Some("HZ")));
    assert_eq!(e0.t06, None);
    assert_eq!(e0.t12, None);
}

#[test]
fn x_n_label_also_sets_the_extreme_field() {
    let raw = "KFIT   GFS MOS GUIDANCE    1/02/2020  0000 UTC\n\
               HR   06 09\n\
               X/N  71 45";
    let mos = MOS::new(raw).unwrap();
    assert_eq!(mos.entries[0].nx, Some(71));
    assert_eq!(mos.entries[1].nx, Some(45));
}
