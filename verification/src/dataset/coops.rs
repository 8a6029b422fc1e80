//! NOAA CO-OPS verified water level, six-minute cadence.
//!
//! A smooth, strongly periodic signal sampled ten times an hour and reported to the
//! millimetre, so values carry three decimal digits. The reader finds the rows and the text
//! of each reading; what a reading's text is worth as a number is left to the caller.
//!
//! <https://api.tidesandcurrents.noaa.gov/api/prod/datagetter>
use vstd::prelude::*;
use vstd::string::StrSliceExecFns;

use super::text::{chars_of, line_bounds, lines, split, split_bounds, trim, trim_bounds, Separator};
use super::{datetime_fits, datetime_in_range, datetime_instant, parse_datetime};

verus! {

/// Name of the archive, as the series report it.
pub const SOURCE: &'static str = "co-ops";

/// Number of variables a CO-OPS row carries.
pub const VARIABLE_COUNT: usize = 2;

/// One of the readings a CO-OPS row carries: its name, its unit and its column.
pub struct Variable {
    pub name: &'static str,
    pub unit: &'static str,
    pub column: usize,
}

/// The column a variable's readings stand in, after the timestamp. The second is the
/// standard deviation of the samples behind the first: small, noisy, and worth measuring
/// separately.
pub open spec fn column_of(variable: int) -> int {
    variable + 1
}

/// The variables of a CO-OPS row, in column order.
pub fn variables() -> (v: Vec<Variable>)
    ensures
        v.len() == VARIABLE_COUNT,
        forall|k: int| 0 <= k < v.len() ==> (#[trigger] v[k]).column == column_of(k),
        v[0].name@ == "water_level"@ && v[0].unit@ == "m"@,
        v[1].name@ == "water_level_sigma"@ && v[1].unit@ == "m"@,
{
    vec![
        Variable { name: "water_level", unit: "m", column: 1 },
        Variable { name: "water_level_sigma", unit: "m", column: 2 },
    ]
}

/// The lines after the header.
pub open spec fn data_lines(text: Seq<char>) -> Seq<Seq<char>> {
    if lines(text).len() == 0 {
        Seq::empty()
    } else {
        lines(text).drop_first()
    }
}

/// What a data line holds, if it has a timestamp and both readings' columns: the instant
/// its first comma-separated field names and the trimmed text of each variable's column.
pub open spec fn record_of(line: Seq<char>) -> Option<(int, Seq<Seq<char>>)> {
    let fields = split(line, Separator::Char(','));
    if fields.len() >= VARIABLE_COUNT + 1 {
        match datetime_instant(fields[0]) {
            Some(t) => Some(
                (t, Seq::new(VARIABLE_COUNT as nat, |v: int| trim(fields[column_of(v)]))),
            ),
            None => None,
        }
    } else {
        None
    }
}

/// The records of every line among `ls` that has one, in order.
pub open spec fn records_in(ls: Seq<Seq<char>>) -> Seq<(int, Seq<Seq<char>>)> {
    ls.filter_map(|line: Seq<char>| record_of(line))
}

proof fn lemma_records_push(ls: Seq<Seq<char>>, line: Seq<char>)
    ensures
        records_in(ls.push(line)) == match record_of(line) {
            Some(rec) => records_in(ls).push(rec),
            None => records_in(ls),
        },
{
    assert(ls.push(line).drop_last() =~= ls);
    match record_of(line) {
        Some(rec) => {
            assert(records_in(ls) + seq![rec] =~= records_in(ls).push(rec));
        },
        None => {},
    }
}

/// The records of every data line that has one, in order.
pub open spec fn records_of(text: Seq<char>) -> Seq<(int, Seq<Seq<char>>)> {
    records_in(data_lines(text))
}

/// A data line whose timestamp, if it is read at all, is computed within 64-bit integers.
pub open spec fn line_in_range(line: Seq<char>) -> bool {
    let fields = split(line, Separator::Char(','));
    fields.len() >= VARIABLE_COUNT + 1 ==> datetime_in_range(fields[0])
}

/// Every timestamp the reader computes for `text` fits in 64-bit integers.
pub open spec fn in_range(text: Seq<char>) -> bool {
    forall|k: int| 0 <= k < data_lines(text).len() ==> line_in_range(#[trigger] data_lines(text)[k])
}

/// The timestamp of a CO-OPS row and the text of each reading, trimmed.
pub struct Record<'a> {
    pub timestamp: i64,
    /// The text in each variable's column, in the order of `variables()`.
    pub cells: Vec<&'a str>,
}

impl<'a> View for Record<'a> {
    type V = (int, Seq<Seq<char>>);

    open spec fn view(&self) -> (int, Seq<Seq<char>>) {
        (self.timestamp as int, self.cells@.map_values(|c: &str| c@))
    }
}

/// The record of the line `v[a..b]`, whose characters are those of `text`, if it has one.
fn record_at<'a>(text: &'a str, v: &Vec<char>, a: usize, b: usize) -> (r: Option<Record<'a>>)
    requires
        v@ == text@,
        a <= b <= v.len(),
        line_in_range(v@.subrange(a as int, b as int)),
    ensures
        match r {
            Some(rec) => record_of(v@.subrange(a as int, b as int)) == Some(rec@),
            None => record_of(v@.subrange(a as int, b as int)) is None,
        },
{
    let ghost fields = split(v@.subrange(a as int, b as int), Separator::Char(','));
    let bounds = split_bounds(v, a, b, Separator::Char(','));
    if bounds.len() < VARIABLE_COUNT + 1 {
        return None;
    }
    let (fa, fe) = bounds[0];
    assert(a <= bounds[0].0 <= bounds[0].1 <= b);
    let field = text.substring_char(fa, fe);
    let timestamp = match parse_datetime(field) {
        Some(t) => t,
        None => {
            return None;
        },
    };
    let mut cells: Vec<&'a str> = Vec::new();
    let mut variable: usize = 0;
    while variable < VARIABLE_COUNT
        invariant
            v@ == text@,
            a <= b <= v.len(),
            bounds.len() == fields.len() >= VARIABLE_COUNT + 1,
            fields == split(v@.subrange(a as int, b as int), Separator::Char(',')),
            forall|j: int|
                0 <= j < bounds.len() ==> a <= (#[trigger] bounds[j]).0 <= bounds[j].1 <= b
                    && v@.subrange(bounds[j].0 as int, bounds[j].1 as int) == fields[j],
            variable <= VARIABLE_COUNT,
            cells.len() == variable,
            forall|j: int|
                0 <= j < variable ==> (#[trigger] cells[j])@ == trim(fields[column_of(j)]),
        decreases VARIABLE_COUNT - variable,
    {
        let (ca, ce) = bounds[variable + 1];
        assert(a <= bounds[variable + 1].0 <= bounds[variable + 1].1 <= b);
        let (ta, te) = trim_bounds(v, ca, ce);
        cells.push(text.substring_char(ta, te));
        variable = variable + 1;
    }
    let rec = Record { timestamp, cells };
    assert(rec@.1 =~= Seq::new(
        VARIABLE_COUNT as nat,
        |j: int| trim(fields[column_of(j)]),
    ));
    Some(rec)
}

/// The records of a CO-OPS text: for every line after the header that has at least the
/// timestamp and both readings' columns, separated by commas, and whose timestamp parses,
/// that timestamp and the trimmed text of each reading.
pub fn parse(text: &str) -> (r: Vec<Record<'_>>)
    requires
        in_range(text@),
    ensures
        r.len() == records_of(text@).len(),
        forall|k: int| 0 <= k < r.len() ==> (#[trigger] r[k])@ == records_of(text@)[k],
{
    let v = chars_of(text);
    let ghost ls = lines(v@);
    let ghost data = data_lines(v@);
    assert(v@.subrange(0, v.len() as int) =~= v@);
    let bounds = line_bounds(&v, 0, v.len());
    let mut r: Vec<Record> = Vec::new();
    if bounds.len() == 0 {
        assert(records_of(text@) =~= Seq::<(int, Seq<Seq<char>>)>::empty());
        return r;
    }
    let mut k: usize = 1;
    assert(data.take(0) =~= Seq::<Seq<char>>::empty());
    while k < bounds.len()
        invariant
            v@ == text@,
            bounds.len() == ls.len() >= 1,
            ls == lines(v@),
            data == data_lines(v@),
            in_range(v@),
            forall|j: int|
                0 <= j < bounds.len() ==> 0 <= (#[trigger] bounds[j]).0 <= bounds[j].1 <= v.len()
                    && v@.subrange(bounds[j].0 as int, bounds[j].1 as int) == ls[j],
            1 <= k <= bounds.len(),
            r.len() == records_in(data.take(k - 1)).len(),
            forall|j: int| 0 <= j < r.len() ==> (#[trigger] r[j])@ == records_in(data.take(k - 1))[j],
        decreases bounds.len() - k,
    {
        let (a, b) = bounds[k];
        assert(0 <= bounds[k as int].0 <= bounds[k as int].1 <= v.len());
        assert(data[k - 1] == ls[k as int]);
        assert(line_in_range(data[k - 1]));
        proof {
            assert(data.take(k as int) =~= data.take(k - 1).push(data[k - 1]));
            lemma_records_push(data.take(k - 1), data[k - 1]);
        }
        match record_at(text, &v, a, b) {
            Some(rec) => {
                r.push(rec);
            },
            None => {},
        }
        k = k + 1;
    }
    assert(data.take(k - 1) =~= data);
    r
}

/// Whether `parse` may be called on `text`: every timestamp it would compute fits in
/// 64-bit integers.
pub fn timestamps_fit(text: &str) -> (b: bool)
    ensures
        b == in_range(text@),
{
    let v = chars_of(text);
    let ghost ls = lines(v@);
    let ghost data = data_lines(v@);
    assert(v@.subrange(0, v.len() as int) =~= v@);
    let bounds = line_bounds(&v, 0, v.len());
    let mut k: usize = 1;
    while k < bounds.len()
        invariant
            v@ == text@,
            bounds.len() == ls.len(),
            ls == lines(v@),
            data == data_lines(v@),
            forall|j: int|
                0 <= j < bounds.len() ==> 0 <= (#[trigger] bounds[j]).0 <= bounds[j].1 <= v.len()
                    && v@.subrange(bounds[j].0 as int, bounds[j].1 as int) == ls[j],
            1 <= k,
            bounds.len() == 0 || k <= bounds.len(),
            forall|j: int| 0 <= j < k - 1 ==> line_in_range(#[trigger] data[j]),
        decreases bounds.len() - k,
    {
        let (a, b) = bounds[k];
        assert(0 <= bounds[k as int].0 <= bounds[k as int].1 <= v.len());
        assert(data[k - 1] == ls[k as int]);
        let ghost fields = split(v@.subrange(a as int, b as int), Separator::Char(','));
        let fb = split_bounds(&v, a, b, Separator::Char(','));
        if fb.len() >= VARIABLE_COUNT + 1 {
            let (fa, fe) = fb[0];
            assert(a <= fb[0].0 <= fb[0].1 <= b);
            if !datetime_fits(text.substring_char(fa, fe)) {
                assert(!line_in_range(data[k - 1]));
                return false;
            }
        }
        k = k + 1;
    }
    true
}

} // verus!
