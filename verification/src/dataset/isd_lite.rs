//! Reader for NOAA ISD-Lite, the hourly surface observation archive used by the benchmark.
//!
//! NOAA stores temperature, dew point, pressure and wind speed as tenths, so the underlying
//! quantities have one decimal digit of precision. The reader hands back those integers as
//! they stand in the file, with the divisor that turns each into its unit.
//!
//! <https://www.ncei.noaa.gov/pub/data/noaa/isd-lite/>
use vstd::prelude::*;

use super::text::{
    chars_of, i64_text, line_bounds, lines, parse_i64, split, split_bounds, words, Separator,
    lemma_nonempty_pieces_push, nonempty_pieces,
};
use super::{epoch_in_range, epoch_seconds, to_epoch};

verus! {

/// Name of the archive, as the series report it.
pub const SOURCE: &'static str = "isd-lite";

/// The reading a row carries where the sensor reported nothing.
pub const MISSING: i64 = -9999;

/// Fields a row needs: year, month, day, hour and the five readings.
pub const ROW_FIELDS: usize = 9;

/// Number of variables an ISD-Lite row carries.
pub const VARIABLE_COUNT: usize = 5;

/// One of the readings an ISD-Lite row carries: its name, its unit, the column it stands in,
/// and what to divide the stored integer by to get the value in that unit.
pub struct Variable {
    pub name: &'static str,
    pub unit: &'static str,
    pub column: usize,
    pub divisor: i64,
}

/// The column a variable's readings stand in: the four date fields come first.
pub open spec fn column_of(variable: int) -> int {
    variable + 4
}

/// Temperature, dew point, pressure and wind speed are stored as tenths; wind direction in
/// whole degrees.
pub open spec fn divisor_of(variable: int) -> int {
    if variable == 3 {
        1
    } else {
        10
    }
}

/// The variables of an ISD-Lite row, in column order.
pub fn variables() -> (v: Vec<Variable>)
    ensures
        v.len() == VARIABLE_COUNT,
        forall|k: int|
            0 <= k < v.len() ==> (#[trigger] v[k]).column == column_of(k) && v[k].divisor
                == divisor_of(k),
        v[0].name@ == "air_temperature"@ && v[0].unit@ == "degC"@,
        v[1].name@ == "dew_point"@ && v[1].unit@ == "degC"@,
        v[2].name@ == "sea_level_pressure"@ && v[2].unit@ == "hPa"@,
        v[3].name@ == "wind_direction"@ && v[3].unit@ == "deg"@,
        v[4].name@ == "wind_speed"@ && v[4].unit@ == "m/s"@,
{
    let v = vec![
        Variable { name: "air_temperature", unit: "degC", column: 4, divisor: 10 },
        Variable { name: "dew_point", unit: "degC", column: 5, divisor: 10 },
        Variable { name: "sea_level_pressure", unit: "hPa", column: 6, divisor: 10 },
        Variable { name: "wind_direction", unit: "deg", column: 7, divisor: 1 },
        Variable { name: "wind_speed", unit: "m/s", column: 8, divisor: 10 },
    ];
    v
}

/// The words among `ws` that read as `i64`, read, in order.
pub open spec fn integers(ws: Seq<Seq<char>>) -> Seq<i64> {
    ws.filter_map(
        |w: Seq<char>|
            match i64_text(w) {
                Some(v) => Some(v as i64),
                None => None,
            },
    )
}

proof fn lemma_integers_push(ws: Seq<Seq<char>>, w: Seq<char>)
    ensures
        integers(ws.push(w)) == match i64_text(w) {
            Some(v) => integers(ws).push(v as i64),
            None => integers(ws),
        },
{
    assert(ws.push(w).drop_last() =~= ws);
    match i64_text(w) {
        Some(v) => {
            assert(integers(ws) + seq![v as i64] =~= integers(ws).push(v as i64));
        },
        None => {},
    }
}

/// The integer fields of a line: its words that read as `i64`, others skipped.
pub open spec fn row_fields(line: Seq<char>) -> Seq<i64> {
    integers(words(line))
}

/// The rows among `fields` that have every field a reading needs.
pub open spec fn full_rows(fields: Seq<Seq<i64>>) -> Seq<Seq<i64>> {
    fields.filter(|f: Seq<i64>| f.len() >= ROW_FIELDS)
}

proof fn lemma_full_rows_push(fields: Seq<Seq<i64>>, f: Seq<i64>)
    ensures
        full_rows(fields.push(f)) == if f.len() >= ROW_FIELDS {
            full_rows(fields).push(f)
        } else {
            full_rows(fields)
        },
{
    reveal(Seq::filter);
    assert(fields.push(f).drop_last() =~= fields);
}

/// The integer fields of every line of `text` that has at least `ROW_FIELDS` of them; other
/// lines are skipped.
pub open spec fn rows_of(text: Seq<char>) -> Seq<Seq<i64>> {
    full_rows(lines(text).map_values(|line: Seq<char>| row_fields(line)))
}

/// The integer fields of `v[lo..hi]`.
fn fields_of_line(v: &Vec<char>, lo: usize, hi: usize) -> (r: Vec<i64>)
    requires
        lo <= hi <= v.len(),
    ensures
        r@ == row_fields(v@.subrange(lo as int, hi as int)),
{
    let ghost pieces = split(v@.subrange(lo as int, hi as int), Separator::WhiteSpace);
    let bounds = split_bounds(v, lo, hi, Separator::WhiteSpace);
    let mut r: Vec<i64> = Vec::new();
    let mut k: usize = 0;
    assert(pieces.take(0) =~= Seq::<Seq<char>>::empty());
    while k < bounds.len()
        invariant
            lo <= hi <= v.len(),
            bounds.len() == pieces.len(),
            pieces == split(v@.subrange(lo as int, hi as int), Separator::WhiteSpace),
            forall|j: int|
                0 <= j < bounds.len() ==> lo <= (#[trigger] bounds[j]).0 <= bounds[j].1 <= hi
                    && v@.subrange(bounds[j].0 as int, bounds[j].1 as int) == pieces[j],
            k <= bounds.len(),
            r@ == integers(nonempty_pieces(pieces.take(k as int))),
        decreases bounds.len() - k,
    {
        let (a, b) = bounds[k];
        assert(lo <= bounds[k as int].0 <= bounds[k as int].1 <= hi);
        let ghost p = pieces[k as int];
        proof {
            assert(pieces.take(k + 1) =~= pieces.take(k as int).push(p));
            lemma_nonempty_pieces_push(pieces.take(k as int), p);
            if p.len() > 0 {
                lemma_integers_push(nonempty_pieces(pieces.take(k as int)), p);
            }
        }
        if a < b {
            match parse_i64(v, a, b) {
                Some(x) => {
                    r.push(x);
                },
                None => {},
            }
        }
        k = k + 1;
    }
    assert(pieces.take(k as int) =~= pieces);
    r
}

/// The rows of an ISD-Lite file: the integer fields of each line that has at least
/// `ROW_FIELDS` of them, in order.
pub fn rows(text: &str) -> (r: Vec<Vec<i64>>)
    ensures
        r.deep_view() == rows_of(text@),
{
    let v = chars_of(text);
    let ghost ls = lines(v@);
    let ghost fields = ls.map_values(|line: Seq<char>| row_fields(line));
    assert(v@.subrange(0, v.len() as int) =~= v@);
    let bounds = line_bounds(&v, 0, v.len());
    let mut r: Vec<Vec<i64>> = Vec::new();
    let mut k: usize = 0;
    assert(fields.take(0) =~= Seq::<Seq<i64>>::empty());
    while k < bounds.len()
        invariant
            bounds.len() == ls.len(),
            ls == lines(v@),
            fields == ls.map_values(|line: Seq<char>| row_fields(line)),
            forall|j: int|
                0 <= j < bounds.len() ==> 0 <= (#[trigger] bounds[j]).0 <= bounds[j].1 <= v.len()
                    && v@.subrange(bounds[j].0 as int, bounds[j].1 as int) == ls[j],
            k <= bounds.len(),
            r.deep_view() == full_rows(fields.take(k as int)),
        decreases bounds.len() - k,
    {
        let (a, b) = bounds[k];
        assert(0 <= bounds[k as int].0 <= bounds[k as int].1 <= v.len());
        let f = fields_of_line(&v, a, b);
        proof {
            assert(fields.take(k + 1) =~= fields.take(k as int).push(f@));
            lemma_full_rows_push(fields.take(k as int), f@);
        }
        if f.len() >= ROW_FIELDS {
            let ghost before = r.deep_view();
            assert(f.deep_view() =~= f@);
            let ghost fv = f.deep_view();
            r.push(f);
            assert(r.deep_view() =~= before.push(fv));
        }
        k = k + 1;
    }
    assert(fields.take(k as int) =~= fields);
    assert(v@ == text@);
    r
}

/// Seconds since the epoch of a row's hour: its year, month, day and hour as `to_epoch`
/// takes them, month and day cut to `u32` as an `as` cast cuts them.
pub open spec fn row_time(f: Seq<i64>) -> int {
    epoch_seconds(f[0] as int, f[1] as u32 as int, f[2] as u32 as int, f[3] as int)
}

/// The row has every field a reading needs, and its timestamp is computed within 64-bit
/// integers.
pub open spec fn row_in_range(f: Seq<i64>) -> bool {
    &&& f.len() >= ROW_FIELDS
    &&& epoch_in_range(f[0] as int, f[1] as u32 as int, f[2] as u32 as int, f[3] as int)
}

/// The rows that report something in `column`.
pub open spec fn reporting(rows: Seq<Seq<i64>>, column: int) -> Seq<Seq<i64>> {
    rows.filter(|f: Seq<i64>| f[column] != MISSING)
}

/// The readings in `column`: the timestamp and the stored integer of every row that reports
/// one, in row order.
pub open spec fn readings(rows: Seq<Seq<i64>>, column: int) -> Seq<(i64, i64)> {
    reporting(rows, column).map_values(|f: Seq<i64>| (row_time(f) as i64, f[column]))
}

proof fn lemma_readings_push(rows: Seq<Seq<i64>>, f: Seq<i64>, column: int)
    ensures
        readings(rows.push(f), column) == if f[column] != MISSING {
            readings(rows, column).push((row_time(f) as i64, f[column]))
        } else {
            readings(rows, column)
        },
{
    reveal(Seq::filter);
    assert(rows.push(f).drop_last() =~= rows);
    if f[column] != MISSING {
        assert(reporting(rows.push(f), column) == reporting(rows, column).push(f));
        assert(readings(rows.push(f), column) =~= readings(rows, column).push(
            (row_time(f) as i64, f[column]),
        ));
    } else {
        assert(reporting(rows.push(f), column) == reporting(rows, column));
    }
}

/// The readings of one variable of an ISD-Lite file.
pub struct Series {
    /// Index of the variable in `variables()`.
    pub variable: usize,
    /// Timestamp and stored integer of each reading, in row order.
    pub readings: Vec<(i64, i64)>,
}

/// The series among `all` that have at least one reading.
pub open spec fn present(all: Seq<(int, Seq<(i64, i64)>)>) -> Seq<(int, Seq<(i64, i64)>)> {
    all.filter(|s: (int, Seq<(i64, i64)>)| s.1.len() > 0)
}

proof fn lemma_present_push(all: Seq<(int, Seq<(i64, i64)>)>, s: (int, Seq<(i64, i64)>))
    ensures
        present(all.push(s)) == if s.1.len() > 0 {
            present(all).push(s)
        } else {
            present(all)
        },
{
    reveal(Seq::filter);
    assert(all.push(s).drop_last() =~= all);
}

/// Each variable, in column order, with its readings; a variable without any is left out.
pub open spec fn series_of(rows: Seq<Seq<i64>>) -> Seq<(int, Seq<(i64, i64)>)> {
    present(
        Seq::new(VARIABLE_COUNT as nat, |v: int| (v, readings(rows, column_of(v)))),
    )
}

/// The readings in `column`, one pass over the rows.
fn column_readings(rows: &Vec<Vec<i64>>, column: usize) -> (r: Vec<(i64, i64)>)
    requires
        column < ROW_FIELDS,
        forall|j: int| 0 <= j < rows.len() ==> row_in_range(#[trigger] rows.deep_view()[j]),
    ensures
        r@ == readings(rows.deep_view(), column as int),
{
    let ghost all = rows.deep_view();
    let mut r: Vec<(i64, i64)> = Vec::new();
    let mut j: usize = 0;
    assert(all.take(0) =~= Seq::<Seq<i64>>::empty());
    while j < rows.len()
        invariant
            column < ROW_FIELDS,
            all == rows.deep_view(),
            forall|i: int| 0 <= i < rows.len() ==> row_in_range(#[trigger] all[i]),
            j <= rows.len(),
            r@ == readings(all.take(j as int), column as int),
        decreases rows.len() - j,
    {
        let f = &rows[j];
        assert(all[j as int] == f@);
        assert(row_in_range(all[j as int]));
        proof {
            assert(all.take(j + 1) =~= all.take(j as int).push(f@));
            lemma_readings_push(all.take(j as int), f@, column as int);
        }
        let raw = f[column];
        if raw != MISSING {
            let t = to_epoch(f[0], f[1] as u32, f[2] as u32, f[3]);
            r.push((t, raw));
        }
        j = j + 1;
    }
    assert(all.take(j as int) =~= all);
    r
}

/// The series of the given rows: each variable, in column order, with its readings, where a
/// reading is the row's timestamp and the integer in the variable's column, and rows holding
/// `MISSING` there are left out rather than interpolated, so the gaps a real station leaves
/// behind survive. A variable without any reading is left out.
pub fn series(rows: &Vec<Vec<i64>>) -> (r: Vec<Series>)
    requires
        forall|j: int| 0 <= j < rows.len() ==> row_in_range(#[trigger] rows.deep_view()[j]),
    ensures
        r.len() == series_of(rows.deep_view()).len(),
        forall|k: int|
            0 <= k < r.len() ==> (#[trigger] r[k]).variable == series_of(rows.deep_view())[k].0
                && r[k].readings@ == series_of(rows.deep_view())[k].1,
{
    let ghost all = Seq::new(
        VARIABLE_COUNT as nat,
        |v: int| (v, readings(rows.deep_view(), column_of(v))),
    );
    let mut r: Vec<Series> = Vec::new();
    let mut variable: usize = 0;
    assert(all.take(0) =~= Seq::<(int, Seq<(i64, i64)>)>::empty());
    while variable < VARIABLE_COUNT
        invariant
            all == Seq::new(
                VARIABLE_COUNT as nat,
                |v: int| (v, readings(rows.deep_view(), column_of(v))),
            ),
            forall|j: int| 0 <= j < rows.len() ==> row_in_range(#[trigger] rows.deep_view()[j]),
            variable <= VARIABLE_COUNT,
            r.len() == present(all.take(variable as int)).len(),
            forall|k: int|
                0 <= k < r.len() ==> (#[trigger] r[k]).variable == present(
                    all.take(variable as int),
                )[k].0 && r[k].readings@ == present(all.take(variable as int))[k].1,
        decreases VARIABLE_COUNT - variable,
    {
        let found = column_readings(rows, variable + 4);
        proof {
            assert(all.take(variable + 1) =~= all.take(variable as int).push(all[variable as int]));
            lemma_present_push(all.take(variable as int), all[variable as int]);
        }
        if found.len() > 0 {
            r.push(Series { variable, readings: found });
        }
        variable = variable + 1;
    }
    assert(all.take(variable as int) =~= all);
    r
}

/// Splits one ISD-Lite file into one series per variable, as `series` does with the file's
/// `rows`.
pub fn parse(text: &str) -> (r: Vec<Series>)
    requires
        forall|j: int|
            0 <= j < rows_of(text@).len() ==> row_in_range(#[trigger] rows_of(text@)[j]),
    ensures
        r.len() == series_of(rows_of(text@)).len(),
        forall|k: int|
            0 <= k < r.len() ==> (#[trigger] r[k]).variable == series_of(rows_of(text@))[k].0
                && r[k].readings@ == series_of(rows_of(text@))[k].1,
{
    let all = rows(text);
    series(&all)
}

} // verus!
