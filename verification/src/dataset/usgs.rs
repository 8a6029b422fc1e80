//! USGS instantaneous river values in RDB format, fifteen-minute cadence.
//!
//! Discharge is reported as whole cubic feet per second and runs into the tens of thousands,
//! while gage height alongside it carries two decimals. The two live in the same file. The
//! reader finds the columns and rows and the text of each reading; what that text is worth as
//! a number is left to the caller.
//!
//! Timestamps are read as the wall clock the gauge reported, without applying the `tz_cd`
//! offset, so the daylight-saving jumps stay in the series where the delta-of-delta encoding
//! has to deal with them.
//!
//! <https://waterservices.usgs.gov/nwis/iv/>
use vstd::prelude::*;
use vstd::string::StrSliceExecFns;

use super::text::{chars_of, line_bounds, lines, split, split_bounds, trim, trim_bounds, Separator};
use super::{datetime_fits, datetime_in_range, datetime_instant, parse_datetime};

verus! {

/// Name of the archive, as the series report it.
pub const SOURCE: &'static str = "usgs-nwis";

/// Number of variables a USGS file may carry.
pub const VARIABLE_COUNT: usize = 2;

/// One of the parameters a USGS file may carry: its name, its unit, and the suffix of the
/// column that holds it.
pub struct Variable {
    pub name: &'static str,
    pub unit: &'static str,
    pub suffix: &'static str,
}

/// The variables a USGS file may carry, in the order their series come out.
pub fn variables() -> (v: Vec<Variable>)
    ensures
        v.len() == VARIABLE_COUNT,
        forall|k: int| 0 <= k < v.len() ==> (#[trigger] v[k]).suffix@ == suffix_of(k),
        v[0].name@ == "discharge"@ && v[0].unit@ == "ft3/s"@,
        v[1].name@ == "gage_height"@ && v[1].unit@ == "ft"@,
{
    proof {
        reveal_strlit("_00060");
        reveal_strlit("_00065");
    }
    let v = vec![
        Variable { name: "discharge", unit: "ft3/s", suffix: "_00060" },
        Variable { name: "gage_height", unit: "ft", suffix: "_00065" },
    ];
    assert(v[0].suffix@ =~= suffix_of(0));
    assert(v[1].suffix@ =~= suffix_of(1));
    v
}

/// The column suffix of each variable's parameter code.
pub open spec fn suffix_of(variable: int) -> Seq<char> {
    if variable == 0 {
        seq!['_', '0', '0', '0', '6', '0']
    } else {
        seq!['_', '0', '0', '0', '6', '5']
    }
}

/// The suffix of a column that holds qualification codes rather than values.
pub open spec fn code_suffix() -> Seq<char> {
    seq!['_', 'c', 'd']
}

/// The name of the timestamp column.
pub open spec fn datetime_name() -> Seq<char> {
    seq!['d', 'a', 't', 'e', 't', 'i', 'm', 'e']
}

pub open spec fn ends_with(s: Seq<char>, suffix: Seq<char>) -> bool {
    s.len() >= suffix.len() && s.subrange(s.len() - suffix.len(), s.len() as int) == suffix
}

/// A comment line: one that starts with `#`.
pub open spec fn is_comment(line: Seq<char>) -> bool {
    line.len() > 0 && line[0] == '#'
}

/// The lines among `ls` that are not comments.
pub open spec fn uncommented(ls: Seq<Seq<char>>) -> Seq<Seq<char>> {
    ls.filter(|line: Seq<char>| !is_comment(line))
}

proof fn lemma_uncommented_push(ls: Seq<Seq<char>>, line: Seq<char>)
    ensures
        uncommented(ls.push(line)) == if !is_comment(line) {
            uncommented(ls).push(line)
        } else {
            uncommented(ls)
        },
{
    reveal(Seq::filter);
    assert(ls.push(line).drop_last() =~= ls);
}

/// The lines of the table: every line that is not a comment. The first names the columns,
/// the second declares their widths, and data follows.
pub open spec fn table_lines(text: Seq<char>) -> Seq<Seq<char>> {
    uncommented(lines(text))
}

/// `k` is the first column named `datetime`.
pub open spec fn is_datetime_column(columns: Seq<Seq<char>>, k: int) -> bool {
    &&& 0 <= k < columns.len()
    &&& columns[k] == datetime_name()
    &&& forall|j: int| 0 <= j < k ==> columns[j] != datetime_name()
}

pub open spec fn datetime_column(columns: Seq<Seq<char>>) -> Option<int> {
    if exists|k: int| is_datetime_column(columns, k) {
        Some(choose|k: int| is_datetime_column(columns, k))
    } else {
        None
    }
}

/// A column that holds the values of a variable: it ends with the variable's suffix and is
/// not a qualification-code column.
pub open spec fn holds_values(column: Seq<char>, variable: int) -> bool {
    ends_with(column, suffix_of(variable)) && !ends_with(column, code_suffix())
}

/// `k` is the first column that holds the values of `variable`.
pub open spec fn is_value_column(columns: Seq<Seq<char>>, variable: int, k: int) -> bool {
    &&& 0 <= k < columns.len()
    &&& holds_values(columns[k], variable)
    &&& forall|j: int| 0 <= j < k ==> !holds_values(columns[j], variable)
}

pub open spec fn value_column(columns: Seq<Seq<char>>, variable: int) -> Option<int> {
    if exists|k: int| is_value_column(columns, variable, k) {
        Some(choose|k: int| is_value_column(columns, variable, k))
    } else {
        None
    }
}

/// The variables among the first `n` that have a column, in order, each with that column.
pub open spec fn found(columns: Seq<Seq<char>>, n: nat) -> Seq<(int, int)>
    decreases n,
{
    if n == 0 {
        Seq::empty()
    } else {
        let before = found(columns, (n - 1) as nat);
        match value_column(columns, n - 1) {
            Some(k) => before.push((n - 1, k)),
            None => before,
        }
    }
}

/// What a data row holds, if it has the timestamp column and its timestamp parses: that
/// instant, and for each found variable the trimmed text of its column where the row has
/// that column.
pub open spec fn record_of(row: Seq<char>, datetime: int, variables: Seq<(int, int)>) -> Option<
    (int, Seq<Option<Seq<char>>>),
> {
    let fields = split(row, Separator::Char('\t'));
    if datetime < fields.len() {
        match datetime_instant(fields[datetime]) {
            Some(t) => Some(
                (
                    t,
                    Seq::new(
                        variables.len(),
                        |i: int|
                            if variables[i].1 < fields.len() {
                                Some(trim(fields[variables[i].1]))
                            } else {
                                None
                            },
                    ),
                ),
            ),
            None => None,
        }
    } else {
        None
    }
}

/// The records of every row among `rows` that has one, in order.
pub open spec fn records_in(rows: Seq<Seq<char>>, datetime: int, variables: Seq<(int, int)>) -> Seq<
    (int, Seq<Option<Seq<char>>>),
> {
    rows.filter_map(|row: Seq<char>| record_of(row, datetime, variables))
}

proof fn lemma_records_push(
    rows: Seq<Seq<char>>,
    row: Seq<char>,
    datetime: int,
    variables: Seq<(int, int)>,
)
    ensures
        records_in(rows.push(row), datetime, variables) == match record_of(
            row,
            datetime,
            variables,
        ) {
            Some(rec) => records_in(rows, datetime, variables).push(rec),
            None => records_in(rows, datetime, variables),
        },
{
    assert(rows.push(row).drop_last() =~= rows);
    match record_of(row, datetime, variables) {
        Some(rec) => {
            assert(records_in(rows, datetime, variables) + seq![rec] =~= records_in(
                rows,
                datetime,
                variables,
            ).push(rec));
        },
        None => {},
    }
}

/// The rows after the header and the width declaration.
pub open spec fn data_rows(text: Seq<char>) -> Seq<Seq<char>> {
    let t = table_lines(text);
    if t.len() >= 2 {
        t.subrange(2, t.len() as int)
    } else {
        Seq::empty()
    }
}

/// The columns the header names, if there is a header.
pub open spec fn header(text: Seq<char>) -> Option<Seq<Seq<char>>> {
    let t = table_lines(text);
    if t.len() > 0 {
        Some(split(t[0], Separator::Char('\t')))
    } else {
        None
    }
}

/// What a USGS text holds: the variables that have a column, each with that column, and the
/// records of the data rows; nothing where there is no header or no timestamp column.
pub open spec fn table_of(text: Seq<char>) -> (Seq<(int, int)>, Seq<(int, Seq<Option<Seq<char>>>)>) {
    match header(text) {
        Some(columns) => match datetime_column(columns) {
            Some(datetime) => {
                let variables = found(columns, VARIABLE_COUNT as nat);
                (variables, records_in(data_rows(text), datetime, variables))
            },
            None => (Seq::empty(), Seq::empty()),
        },
        None => (Seq::empty(), Seq::empty()),
    }
}

/// Every timestamp the reader computes for `text` fits in 64-bit integers.
pub open spec fn in_range(text: Seq<char>) -> bool {
    match header(text) {
        Some(columns) => match datetime_column(columns) {
            Some(datetime) => forall|k: int|
                0 <= k < data_rows(text).len() ==> {
                    let fields = split(#[trigger] data_rows(text)[k], Separator::Char('\t'));
                    datetime < fields.len() ==> datetime_in_range(fields[datetime])
                },
            None => true,
        },
        None => true,
    }
}

/// The timestamp of a USGS row and, for each variable that has a column, the trimmed text
/// of that column where the row has it.
pub struct Record<'a> {
    pub timestamp: i64,
    pub cells: Vec<Option<&'a str>>,
}

impl<'a> View for Record<'a> {
    type V = (int, Seq<Option<Seq<char>>>);

    open spec fn view(&self) -> (int, Seq<Option<Seq<char>>>) {
        (
            self.timestamp as int,
            self.cells@.map_values(
                |c: Option<&str>|
                    match c {
                        Some(s) => Some(s@),
                        None => None,
                    },
            ),
        )
    }
}

/// What a USGS file holds.
pub struct Table<'a> {
    /// Each variable that has a column, as its index in `variables()`, with that column.
    pub variables: Vec<(usize, usize)>,
    /// The records of the data rows, cells in the order of `variables`.
    pub records: Vec<Record<'a>>,
}

/// Whether `v[a..b]` is `name`.
fn equals_at(v: &Vec<char>, a: usize, b: usize, name: &Vec<char>) -> (r: bool)
    requires
        a <= b <= v.len(),
    ensures
        r == (v@.subrange(a as int, b as int) == name@),
{
    if b - a != name.len() {
        return false;
    }
    let mut i: usize = 0;
    while i < name.len()
        invariant
            a <= b <= v.len(),
            b - a == name.len(),
            i <= name.len(),
            forall|j: int| 0 <= j < i ==> v@[a + j] == name@[j],
        decreases name.len() - i,
    {
        if v[a + i] != name[i] {
            assert(v@.subrange(a as int, b as int)[i as int] != name@[i as int]);
            return false;
        }
        i = i + 1;
    }
    assert(v@.subrange(a as int, b as int) =~= name@);
    true
}

/// Whether `v[a..b]` ends with `suffix`.
fn ends_with_at(v: &Vec<char>, a: usize, b: usize, suffix: &Vec<char>) -> (r: bool)
    requires
        a <= b <= v.len(),
    ensures
        r == ends_with(v@.subrange(a as int, b as int), suffix@),
{
    if b - a < suffix.len() {
        return false;
    }
    let r = equals_at(v, b - suffix.len(), b, suffix);
    assert(v@.subrange(a as int, b as int).subrange(b - a - suffix.len(), b - a) =~= v@.subrange(
        b - suffix.len(),
        b as int,
    ));
    r
}

/// Bounds of the lines of `v` that are not comments.
fn table_line_bounds(v: &Vec<char>) -> (r: Vec<(usize, usize)>)
    ensures
        r.len() == table_lines(v@).len(),
        forall|k: int|
            0 <= k < r.len() ==> 0 <= (#[trigger] r[k]).0 <= r[k].1 <= v.len() && v@.subrange(
                r[k].0 as int,
                r[k].1 as int,
            ) == table_lines(v@)[k],
{
    let ghost ls = lines(v@);
    assert(v@.subrange(0, v.len() as int) =~= v@);
    let bounds = line_bounds(v, 0, v.len());
    let mut r: Vec<(usize, usize)> = Vec::new();
    let mut k: usize = 0;
    assert(ls.take(0) =~= Seq::<Seq<char>>::empty());
    while k < bounds.len()
        invariant
            bounds.len() == ls.len(),
            ls == lines(v@),
            forall|j: int|
                0 <= j < bounds.len() ==> 0 <= (#[trigger] bounds[j]).0 <= bounds[j].1 <= v.len()
                    && v@.subrange(bounds[j].0 as int, bounds[j].1 as int) == ls[j],
            k <= bounds.len(),
            r.len() == uncommented(ls.take(k as int)).len(),
            forall|j: int|
                0 <= j < r.len() ==> 0 <= (#[trigger] r[j]).0 <= r[j].1 <= v.len() && v@.subrange(
                    r[j].0 as int,
                    r[j].1 as int,
                ) == uncommented(ls.take(k as int))[j],
        decreases bounds.len() - k,
    {
        let (a, b) = bounds[k];
        assert(0 <= bounds[k as int].0 <= bounds[k as int].1 <= v.len());
        proof {
            assert(ls.take(k + 1) =~= ls.take(k as int).push(ls[k as int]));
            lemma_uncommented_push(ls.take(k as int), ls[k as int]);
        }
        if !(a < b && v[a] == '#') {
            r.push((a, b));
        } else {
            assert(ls[k as int][0] == v@[a as int]);
        }
        k = k + 1;
    }
    assert(ls.take(k as int) =~= ls);
    r
}

/// The first column named `datetime`, among the columns bounded by `cols`.
fn find_datetime(v: &Vec<char>, cols: &Vec<(usize, usize)>, Ghost(columns): Ghost<Seq<Seq<char>>>) -> (r: Option<usize>)
    requires
        cols.len() == columns.len(),
        forall|j: int|
            0 <= j < cols.len() ==> 0 <= (#[trigger] cols[j]).0 <= cols[j].1 <= v.len()
                && v@.subrange(cols[j].0 as int, cols[j].1 as int) == columns[j],
    ensures
        match r {
            Some(k) => datetime_column(columns) == Some(k as int),
            None => datetime_column(columns) is None,
        },
{
    let name = vec!['d', 'a', 't', 'e', 't', 'i', 'm', 'e'];
    assert(name@ =~= datetime_name());
    let mut k: usize = 0;
    while k < cols.len()
        invariant
            name@ == datetime_name(),
            cols.len() == columns.len(),
            forall|j: int|
                0 <= j < cols.len() ==> 0 <= (#[trigger] cols[j]).0 <= cols[j].1 <= v.len()
                    && v@.subrange(cols[j].0 as int, cols[j].1 as int) == columns[j],
            k <= cols.len(),
            forall|j: int| 0 <= j < k ==> columns[j] != datetime_name(),
        decreases cols.len() - k,
    {
        let (a, b) = cols[k];
        assert(0 <= cols[k as int].0 <= cols[k as int].1 <= v.len());
        if equals_at(v, a, b, &name) {
            assert(is_datetime_column(columns, k as int));
            proof {
                let c = choose|c: int| is_datetime_column(columns, c);
                if c < k {
                    assert(columns[c] != datetime_name());
                } else if c > k {
                    assert(columns[k as int] != datetime_name());
                }
            }
            return Some(k);
        }
        k = k + 1;
    }
    None
}

/// The first column that holds the values of `variable`, among the columns bounded by
/// `cols`.
fn find_value_column(
    v: &Vec<char>,
    cols: &Vec<(usize, usize)>,
    variable: usize,
    Ghost(columns): Ghost<Seq<Seq<char>>>,
) -> (r: Option<usize>)
    requires
        variable < VARIABLE_COUNT,
        cols.len() == columns.len(),
        forall|j: int|
            0 <= j < cols.len() ==> 0 <= (#[trigger] cols[j]).0 <= cols[j].1 <= v.len()
                && v@.subrange(cols[j].0 as int, cols[j].1 as int) == columns[j],
    ensures
        match r {
            Some(k) => value_column(columns, variable as int) == Some(k as int),
            None => value_column(columns, variable as int) is None,
        },
{
    let suffix = if variable == 0 {
        vec!['_', '0', '0', '0', '6', '0']
    } else {
        vec!['_', '0', '0', '0', '6', '5']
    };
    let code = vec!['_', 'c', 'd'];
    assert(suffix@ =~= suffix_of(variable as int));
    assert(code@ =~= code_suffix());
    let mut k: usize = 0;
    while k < cols.len()
        invariant
            suffix@ == suffix_of(variable as int),
            code@ == code_suffix(),
            cols.len() == columns.len(),
            forall|j: int|
                0 <= j < cols.len() ==> 0 <= (#[trigger] cols[j]).0 <= cols[j].1 <= v.len()
                    && v@.subrange(cols[j].0 as int, cols[j].1 as int) == columns[j],
            k <= cols.len(),
            forall|j: int| 0 <= j < k ==> !holds_values(columns[j], variable as int),
        decreases cols.len() - k,
    {
        let (a, b) = cols[k];
        assert(0 <= cols[k as int].0 <= cols[k as int].1 <= v.len());
        if ends_with_at(v, a, b, &suffix) && !ends_with_at(v, a, b, &code) {
            assert(is_value_column(columns, variable as int, k as int));
            proof {
                let c = choose|c: int| is_value_column(columns, variable as int, c);
                if c < k {
                    assert(!holds_values(columns[c], variable as int));
                } else if c > k {
                    assert(!holds_values(columns[k as int], variable as int));
                }
            }
            return Some(k);
        }
        k = k + 1;
    }
    None
}

/// Variables and columns as integers.
pub open spec fn as_ints(pairs: Seq<(usize, usize)>) -> Seq<(int, int)> {
    pairs.map_values(|p: (usize, usize)| (p.0 as int, p.1 as int))
}

/// A data row whose timestamp, if it is read at all, is computed within 64-bit integers.
pub open spec fn row_in_range(row: Seq<char>, datetime: int) -> bool {
    let fields = split(row, Separator::Char('\t'));
    datetime < fields.len() ==> datetime_in_range(fields[datetime])
}

/// The record of the row `v[a..b]`, whose characters are those of `text`, if it has one.
fn record_at<'a>(
    text: &'a str,
    v: &Vec<char>,
    a: usize,
    b: usize,
    datetime: usize,
    variables: &Vec<(usize, usize)>,
) -> (r: Option<Record<'a>>)
    requires
        v@ == text@,
        a <= b <= v.len(),
        row_in_range(v@.subrange(a as int, b as int), datetime as int),
    ensures
        match r {
            Some(rec) => record_of(
                v@.subrange(a as int, b as int),
                datetime as int,
                as_ints(variables@),
            ) == Some(rec@),
            None => record_of(
                v@.subrange(a as int, b as int),
                datetime as int,
                as_ints(variables@),
            ) is None,
        },
{
    let ghost fields = split(v@.subrange(a as int, b as int), Separator::Char('\t'));
    let ghost vars = as_ints(variables@);
    let bounds = split_bounds(v, a, b, Separator::Char('\t'));
    if datetime >= bounds.len() {
        return None;
    }
    let (fa, fe) = bounds[datetime];
    assert(a <= bounds[datetime as int].0 <= bounds[datetime as int].1 <= b);
    let timestamp = match parse_datetime(text.substring_char(fa, fe)) {
        Some(t) => t,
        None => {
            return None;
        },
    };
    let mut cells: Vec<Option<&'a str>> = Vec::new();
    let mut i: usize = 0;
    while i < variables.len()
        invariant
            v@ == text@,
            a <= b <= v.len(),
            vars == as_ints(variables@),
            bounds.len() == fields.len(),
            fields == split(v@.subrange(a as int, b as int), Separator::Char('\t')),
            forall|j: int|
                0 <= j < bounds.len() ==> a <= (#[trigger] bounds[j]).0 <= bounds[j].1 <= b
                    && v@.subrange(bounds[j].0 as int, bounds[j].1 as int) == fields[j],
            i <= variables.len(),
            cells.len() == i,
            forall|j: int|
                0 <= j < i ==> (#[trigger] cells[j]) is Some == (vars[j].1 < fields.len()) && (
                cells[j] is Some ==> cells[j]->0@ == trim(fields[vars[j].1])),
        decreases variables.len() - i,
    {
        let column = variables[i].1;
        if column < bounds.len() {
            let (ca, ce) = bounds[column];
            assert(a <= bounds[column as int].0 <= bounds[column as int].1 <= b);
            let (ta, te) = trim_bounds(v, ca, ce);
            cells.push(Some(text.substring_char(ta, te)));
        } else {
            cells.push(None);
        }
        i = i + 1;
    }
    let rec = Record { timestamp, cells };
    assert(rec@.1 =~= Seq::new(
        vars.len(),
        |j: int|
            if vars[j].1 < fields.len() {
                Some(trim(fields[vars[j].1]))
            } else {
                None
            },
    ));
    Some(rec)
}

/// Reads a USGS RDB text. Comment lines (`#` first) are skipped; the first other line names
/// the tab-separated columns and the next declares their widths. Each variable whose column
/// is found (one that ends with its parameter's suffix and not with `_cd`) is reported with
/// that column; each later row whose `datetime` column parses gives a record. Without a
/// header or a `datetime` column, nothing is read.
pub fn parse(text: &str) -> (r: Table<'_>)
    requires
        in_range(text@),
    ensures
        as_ints(r.variables@) == table_of(text@).0,
        r.records.len() == table_of(text@).1.len(),
        forall|k: int|
            0 <= k < r.records.len() ==> (#[trigger] r.records[k])@ == table_of(text@).1[k],
{
    let empty = Table { variables: Vec::new(), records: Vec::new() };
    assert(as_ints(empty.variables@) =~= Seq::<(int, int)>::empty());
    let v = chars_of(text);
    let ghost tl = table_lines(v@);
    let lb = table_line_bounds(&v);
    if lb.len() == 0 {
        return empty;
    }
    let (ha, hb) = lb[0];
    assert(0 <= lb[0].0 <= lb[0].1 <= v.len());
    let ghost columns = split(v@.subrange(ha as int, hb as int), Separator::Char('\t'));
    let cols = split_bounds(&v, ha, hb, Separator::Char('\t'));
    let datetime = match find_datetime(&v, &cols, Ghost(columns)) {
        Some(k) => k,
        None => {
            return empty;
        },
    };
    let mut variables: Vec<(usize, usize)> = Vec::new();
    let mut variable: usize = 0;
    while variable < VARIABLE_COUNT
        invariant
            cols.len() == columns.len(),
            forall|j: int|
                0 <= j < cols.len() ==> 0 <= (#[trigger] cols[j]).0 <= cols[j].1 <= v.len()
                    && v@.subrange(cols[j].0 as int, cols[j].1 as int) == columns[j],
            variable <= VARIABLE_COUNT,
            as_ints(variables@) == found(columns, variable as nat),
        decreases VARIABLE_COUNT - variable,
    {
        let ghost before = variables@;
        match find_value_column(&v, &cols, variable, Ghost(columns)) {
            Some(column) => {
                variables.push((variable, column));
                assert(as_ints(variables@) =~= as_ints(before).push(
                    (variable as int, column as int),
                ));
            },
            None => {},
        }
        variable = variable + 1;
    }
    let ghost vars = as_ints(variables@);
    let ghost data = data_rows(v@);
    let mut records: Vec<Record> = Vec::new();
    let mut k: usize = 2;
    assert(data.take(0) =~= Seq::<Seq<char>>::empty());
    while k < lb.len()
        invariant
            v@ == text@,
            lb.len() == tl.len() >= 1,
            tl == table_lines(v@),
            data == data_rows(v@),
            vars == as_ints(variables@),
            header(v@) == Some(columns),
            datetime_column(columns) == Some(datetime as int),
            in_range(v@),
            forall|j: int|
                0 <= j < lb.len() ==> 0 <= (#[trigger] lb[j]).0 <= lb[j].1 <= v.len()
                    && v@.subrange(lb[j].0 as int, lb[j].1 as int) == tl[j],
            2 <= k,
            k <= lb.len() || k == 2,
            records.len() == records_in(data.take(k - 2), datetime as int, vars).len(),
            forall|j: int|
                0 <= j < records.len() ==> (#[trigger] records[j])@ == records_in(
                    data.take(k - 2),
                    datetime as int,
                    vars,
                )[j],
        decreases lb.len() - k,
    {
        let (a, b) = lb[k];
        assert(0 <= lb[k as int].0 <= lb[k as int].1 <= v.len());
        assert(data[k - 2] == tl[k as int]);
        assert(row_in_range(data[k - 2], datetime as int));
        proof {
            assert(data.take(k - 1) =~= data.take(k - 2).push(data[k - 2]));
            lemma_records_push(data.take(k - 2), data[k - 2], datetime as int, vars);
        }
        match record_at(text, &v, a, b, datetime, &variables) {
            Some(rec) => {
                records.push(rec);
            },
            None => {},
        }
        k = k + 1;
    }
    proof {
        if lb.len() >= 2 {
            assert(k == lb.len());
            assert(data.len() == tl.len() - 2);
            assert(data.take(k - 2) =~= data);
        } else {
            assert(data =~= Seq::<Seq<char>>::empty());
            assert(data.take(k - 2) =~= data);
        }
    }
    Table { variables, records }
}

/// Whether `parse` may be called on `text`: every timestamp it would compute fits in
/// 64-bit integers.
pub fn timestamps_fit(text: &str) -> (b: bool)
    ensures
        b == in_range(text@),
{
    let v = chars_of(text);
    let ghost tl = table_lines(v@);
    let lb = table_line_bounds(&v);
    if lb.len() == 0 {
        return true;
    }
    let (ha, hb) = lb[0];
    assert(0 <= lb[0].0 <= lb[0].1 <= v.len());
    let ghost columns = split(v@.subrange(ha as int, hb as int), Separator::Char('\t'));
    let cols = split_bounds(&v, ha, hb, Separator::Char('\t'));
    let datetime = match find_datetime(&v, &cols, Ghost(columns)) {
        Some(k) => k,
        None => {
            return true;
        },
    };
    let ghost data = data_rows(v@);
    let mut k: usize = 2;
    while k < lb.len()
        invariant
            v@ == text@,
            lb.len() == tl.len() >= 1,
            tl == table_lines(v@),
            data == data_rows(v@),
            header(v@) == Some(columns),
            datetime_column(columns) == Some(datetime as int),
            forall|j: int|
                0 <= j < lb.len() ==> 0 <= (#[trigger] lb[j]).0 <= lb[j].1 <= v.len()
                    && v@.subrange(lb[j].0 as int, lb[j].1 as int) == tl[j],
            2 <= k,
            k <= lb.len() || k == 2,
            forall|j: int| 0 <= j < k - 2 ==> row_in_range(#[trigger] data[j], datetime as int),
        decreases lb.len() - k,
    {
        let (a, b) = lb[k];
        assert(0 <= lb[k as int].0 <= lb[k as int].1 <= v.len());
        assert(data[k - 2] == tl[k as int]);
        let ghost fields = split(v@.subrange(a as int, b as int), Separator::Char('\t'));
        let bounds = split_bounds(&v, a, b, Separator::Char('\t'));
        if datetime < bounds.len() {
            let (fa, fe) = bounds[datetime];
            assert(a <= bounds[datetime as int].0 <= bounds[datetime as int].1 <= b);
            if !datetime_fits(text.substring_char(fa, fe)) {
                assert(!row_in_range(data[k - 2], datetime as int));
                return false;
            }
        }
        k = k + 1;
    }
    assert forall|j: int| 0 <= j < data.len() implies row_in_range(
        #[trigger] data[j],
        datetime as int,
    ) by {}
    true
}

} // verus!
