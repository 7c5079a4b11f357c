//! One forecast entry per hour column, and the row-label field mapper.
//!
//! Every data line of the bulletin carries a label (`TMP`, `DPT`, ...) and
//! one cell per column. The mapper walks the lines in order and, for a
//! fixed column, writes each recognized label's cell into the matching
//! field of the entry: numeric labels parse or degrade to absence, string
//! labels store the trimmed cell verbatim, unknown labels are ignored.

use vstd::prelude::*;

use crate::text::{
    cell_spec, has_label, label_of, label_span, parse_int_range, parse_int_spec, range_eq_str,
    trim_range, trimmed,
};
use crate::time::Timestamp;
use vstd::string::StrSliceExecFns;

verus! {

/// The decoded fields of one forecast hour. Every field except the
/// timestamp is optional: a blank or unparsable cell leaves it absent.
#[derive(Debug)]
pub struct MOSEntry {
    /// The forecast instant, derived from the header's base time.
    pub timestamp: Timestamp,
    /// Daily extreme temperature (the `N/X` or `X/N` row).
    pub nx: Option<isize>,
    /// Temperature (`TMP`).
    pub tmp: Option<isize>,
    /// Dewpoint (`DPT`).
    pub dpt: Option<isize>,
    /// Cloud cover code (`CLD`).
    pub cld: Option<String>,
    /// Wind direction (`WDR`).
    pub wdr: Option<isize>,
    /// Wind speed (`WSP`).
    pub wsp: Option<isize>,
    /// Six-hour precipitation probability (`P06`).
    pub p06: Option<isize>,
    /// Twelve-hour precipitation probability (`P12`).
    pub p12: Option<isize>,
    /// Six-hour precipitation amount (`Q06`).
    pub q06: Option<isize>,
    /// Twelve-hour precipitation amount (`Q12`).
    pub q12: Option<isize>,
    /// Six-hour thunderstorm probability pair; no observed row label
    /// populates it, the field is reserved by the format.
    pub t06: Option<(isize, isize)>,
    /// Twelve-hour thunderstorm probability pair; reserved likewise.
    pub t12: Option<(isize, isize)>,
    /// Freezing precipitation probability (`POZ`).
    pub poz: Option<isize>,
    /// Sleet probability (`POS`).
    pub pos: Option<isize>,
    /// Precipitation type code (`TYP`).
    pub typ: Option<String>,
    /// Snow amount (`SNW`).
    pub snw: Option<isize>,
    /// Ceiling height (`CIG`).
    pub cig: Option<isize>,
    /// Visibility (`VIS`).
    pub vis: Option<isize>,
    /// Obstruction-to-vision code (`OBV`).
    pub obv: Option<String>,
}

/// The mathematical value of a [`MOSEntry`].
pub ghost struct EntryView {
    /// Minutes since the epoch.
    pub timestamp: int,
    /// Daily extreme temperature.
    pub nx: Option<int>,
    /// Temperature.
    pub tmp: Option<int>,
    /// Dewpoint.
    pub dpt: Option<int>,
    /// Cloud cover code.
    pub cld: Option<Seq<char>>,
    /// Wind direction.
    pub wdr: Option<int>,
    /// Wind speed.
    pub wsp: Option<int>,
    /// Six-hour precipitation probability.
    pub p06: Option<int>,
    /// Twelve-hour precipitation probability.
    pub p12: Option<int>,
    /// Six-hour precipitation amount.
    pub q06: Option<int>,
    /// Twelve-hour precipitation amount.
    pub q12: Option<int>,
    /// Six-hour thunderstorm probability pair.
    pub t06: Option<(int, int)>,
    /// Twelve-hour thunderstorm probability pair.
    pub t12: Option<(int, int)>,
    /// Freezing precipitation probability.
    pub poz: Option<int>,
    /// Sleet probability.
    pub pos: Option<int>,
    /// Precipitation type code.
    pub typ: Option<Seq<char>>,
    /// Snow amount.
    pub snw: Option<int>,
    /// Ceiling height.
    pub cig: Option<int>,
    /// Visibility.
    pub vis: Option<int>,
    /// Obstruction-to-vision code.
    pub obv: Option<Seq<char>>,
}

/// The value of an optional machine integer.
pub open spec fn opt_int(o: Option<isize>) -> Option<int> {
    match o {
        Some(v) => Some(v as int),
        None => None,
    }
}

/// The value of an optional string.
pub open spec fn opt_str(o: Option<String>) -> Option<Seq<char>> {
    match o {
        Some(s) => Some(s@),
        None => None,
    }
}

impl View for MOSEntry {
    type V = EntryView;

    open spec fn view(&self) -> EntryView {
        EntryView {
            timestamp: self.timestamp.minutes as int,
            nx: opt_int(self.nx),
            tmp: opt_int(self.tmp),
            dpt: opt_int(self.dpt),
            cld: opt_str(self.cld),
            wdr: opt_int(self.wdr),
            wsp: opt_int(self.wsp),
            p06: opt_int(self.p06),
            p12: opt_int(self.p12),
            q06: opt_int(self.q06),
            q12: opt_int(self.q12),
            t06: match self.t06 {
                Some(p) => Some((p.0 as int, p.1 as int)),
                None => None,
            },
            t12: match self.t12 {
                Some(p) => Some((p.0 as int, p.1 as int)),
                None => None,
            },
            poz: opt_int(self.poz),
            pos: opt_int(self.pos),
            typ: opt_str(self.typ),
            snw: opt_int(self.snw),
            cig: opt_int(self.cig),
            vis: opt_int(self.vis),
            obv: opt_str(self.obv),
        }
    }
}

/// The entry with every field absent and the timestamp at the epoch.
pub open spec fn empty_entry() -> EntryView {
    EntryView {
        timestamp: 0,
        nx: None,
        tmp: None,
        dpt: None,
        cld: None,
        wdr: None,
        wsp: None,
        p06: None,
        p12: None,
        q06: None,
        q12: None,
        t06: None,
        t12: None,
        poz: None,
        pos: None,
        typ: None,
        snw: None,
        cig: None,
        vis: None,
        obv: None,
    }
}

impl Default for MOSEntry {
    /// The entry with every field absent and the timestamp at the epoch.
    fn default() -> (e: MOSEntry)
        ensures
            e@ == empty_entry(),
    {
        MOSEntry {
            timestamp: Timestamp { minutes: 0 },
            nx: None,
            tmp: None,
            dpt: None,
            cld: None,
            wdr: None,
            wsp: None,
            p06: None,
            p12: None,
            q06: None,
            q12: None,
            t06: None,
            t12: None,
            poz: None,
            pos: None,
            typ: None,
            snw: None,
            cig: None,
            vis: None,
            obv: None,
        }
    }
}

/// How one line updates the entry of the column spanning `[s, e)`. A line
/// without a label, or with an unrecognized one, changes nothing; numeric
/// labels store the parsed cell or absence; string labels always store
/// the trimmed cell, even when it is empty.
pub open spec fn apply_line(ev: EntryView, line: Seq<char>, s: int, e: int, first: bool) -> EntryView {
    if !has_label(line) {
        ev
    } else {
        let lab = label_of(line);
        let d = cell_spec(line, s, e, first);
        if lab == "N/X"@ || lab == "X/N"@ {
            EntryView { nx: parse_int_spec(d), ..ev }
        } else if lab == "TMP"@ {
            EntryView { tmp: parse_int_spec(d), ..ev }
        } else if lab == "DPT"@ {
            EntryView { dpt: parse_int_spec(d), ..ev }
        } else if lab == "CLD"@ {
            EntryView { cld: Some(d), ..ev }
        } else if lab == "WDR"@ {
            EntryView { wdr: parse_int_spec(d), ..ev }
        } else if lab == "WSP"@ {
            EntryView { wsp: parse_int_spec(d), ..ev }
        } else if lab == "P06"@ {
            EntryView { p06: parse_int_spec(d), ..ev }
        } else if lab == "P12"@ {
            EntryView { p12: parse_int_spec(d), ..ev }
        } else if lab == "Q06"@ {
            EntryView { q06: parse_int_spec(d), ..ev }
        } else if lab == "Q12"@ {
            EntryView { q12: parse_int_spec(d), ..ev }
        } else if lab == "POZ"@ {
            EntryView { poz: parse_int_spec(d), ..ev }
        } else if lab == "POS"@ {
            EntryView { pos: parse_int_spec(d), ..ev }
        } else if lab == "TYP"@ {
            EntryView { typ: Some(d), ..ev }
        } else if lab == "SNW"@ {
            EntryView { snw: parse_int_spec(d), ..ev }
        } else if lab == "CIG"@ {
            EntryView { cig: parse_int_spec(d), ..ev }
        } else if lab == "VIS"@ {
            EntryView { vis: parse_int_spec(d), ..ev }
        } else if lab == "OBV"@ {
            EntryView { obv: Some(d), ..ev }
        } else {
            ev
        }
    }
}

/// The fields of the entry for the column spanning `[s, e)`, after every
/// line of the bulletin has been applied in order.
pub open spec fn entry_fields(lines: Seq<Seq<char>>, s: int, e: int, first: bool) -> EntryView
    decreases lines.len(),
{
    if lines.len() == 0 {
        empty_entry()
    } else {
        apply_line(entry_fields(lines.drop_last(), s, e, first), lines.last(), s, e, first)
    }
}

/// Builds the entry for one column by applying every line in order.
/// `chars` must hold the characters of the matching line of `lines`.
pub fn build_entry(
    lines: &Vec<&str>,
    chars: &Vec<Vec<char>>,
    s: usize,
    e: usize,
    first: bool,
) -> (entry: MOSEntry)
    requires
        chars@.len() == lines@.len(),
        forall|i: int| 0 <= i < lines@.len() ==> #[trigger] chars@[i]@ == lines@[i]@,
        s <= e,
    ensures
        entry@ == entry_fields(
            Seq::new(lines@.len(), |i: int| lines@[i]@),
            s as int,
            e as int,
            first,
        ),
{
    let ghost vs = Seq::new(lines@.len(), |i: int| lines@[i]@);
    let mut entry = MOSEntry::default();
    let mut j: usize = 0;
    proof {
        assert(vs.take(0) =~= Seq::<Seq<char>>::empty());
    }
    while j < lines.len()
        invariant
            j <= lines@.len(),
            chars@.len() == lines@.len(),
            forall|i: int| 0 <= i < lines@.len() ==> #[trigger] chars@[i]@ == lines@[i]@,
            s <= e,
            vs == Seq::new(lines@.len(), |i: int| lines@[i]@),
            entry@ == entry_fields(vs.take(j as int), s as int, e as int, first),
        decreases lines@.len() - j,
    {
        let ghost prev = entry@;
        let lj: &str = lines[j];
        let cj: &Vec<char> = &chars[j];
        proof {
            assert(vs.take(j + 1).drop_last() =~= vs.take(j as int));
            assert(vs.take(j + 1).last() == vs[j as int]);
            assert(cj@ == vs[j as int]);
        }
        match label_span(cj) {
            None => {
                proof {
                    assert(entry@ == entry_fields(vs.take(j + 1), s as int, e as int, first));
                }
            },
            Some((la0, lb0)) => {
                let n = cj.len();
                let (la, lb) = trim_range(cj, la0, lb0);
                let lo0: usize = if first {
                    lb0
                } else {
                    s
                };
                let lo: usize = if lo0 < n {
                    lo0
                } else {
                    n
                };
                let hi: usize = if e < n {
                    e
                } else {
                    n
                };
                let ghost d = cell_spec(vs[j as int], s as int, e as int, first);
                let num: Option<isize>;
                let txt: String;
                if lo <= hi {
                    let (clo, chi) = trim_range(cj, lo, hi);
                    num = parse_int_range(cj, clo, chi);
                    txt = lj.substring_char(clo, chi).to_owned();
                    proof {
                        assert(d == trimmed(vs[j as int], lo as int, hi as int));
                        assert(txt@ == d);
                    }
                } else {
                    num = None;
                    txt = String::new();
                    proof {
                        assert(d =~= Seq::<char>::empty());
                        assert(!crate::text::valid_int_str(d));
                        assert(txt@ == d);
                    }
                }
                let ghost lab = label_of(vs[j as int]);
                proof {
                    assert(trimmed(vs[j as int], la0 as int, lb0 as int) == lab);
                }
                if range_eq_str(cj, la, lb, "N/X") || range_eq_str(cj, la, lb, "X/N") {
                    entry.nx = num;
                } else if range_eq_str(cj, la, lb, "TMP") {
                    entry.tmp = num;
                } else if range_eq_str(cj, la, lb, "DPT") {
                    entry.dpt = num;
                } else if range_eq_str(cj, la, lb, "CLD") {
                    entry.cld = Some(txt);
                } else if range_eq_str(cj, la, lb, "WDR") {
                    entry.wdr = num;
                } else if range_eq_str(cj, la, lb, "WSP") {
                    entry.wsp = num;
                } else if range_eq_str(cj, la, lb, "P06") {
                    entry.p06 = num;
                } else if range_eq_str(cj, la, lb, "P12") {
                    entry.p12 = num;
                } else if range_eq_str(cj, la, lb, "Q06") {
                    entry.q06 = num;
                } else if range_eq_str(cj, la, lb, "Q12") {
                    entry.q12 = num;
                } else if range_eq_str(cj, la, lb, "POZ") {
                    entry.poz = num;
                } else if range_eq_str(cj, la, lb, "POS") {
                    entry.pos = num;
                } else if range_eq_str(cj, la, lb, "TYP") {
                    entry.typ = Some(txt);
                } else if range_eq_str(cj, la, lb, "SNW") {
                    entry.snw = num;
                } else if range_eq_str(cj, la, lb, "CIG") {
                    entry.cig = num;
                } else if range_eq_str(cj, la, lb, "VIS") {
                    entry.vis = num;
                } else if range_eq_str(cj, la, lb, "OBV") {
                    entry.obv = Some(txt);
                }
                proof {
                    assert(entry@ == apply_line(prev, vs[j as int], s as int, e as int, first));
                    assert(entry@ == entry_fields(vs.take(j + 1), s as int, e as int, first));
                }
            },
        }
        j = j + 1;
    }
    proof {
        assert(vs.take(lines@.len() as int) =~= vs);
    }
    entry
}

} // verus!
