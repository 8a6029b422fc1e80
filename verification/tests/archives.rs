use graupel::dataset::{coops, isd_lite, usgs};

const ISD_SAMPLE: &str = "\
2023 01 01 00    82    49 10241   150    10 -9999 -9999     0
2023 01 01 01    78    39 10237    80    10 -9999 -9999 -9999
2023 01 01 02 -9999    36 10236    80    15 -9999 -9999 -9999
";

fn isd_series<'a>(series: &'a [isd_lite::Series], name: &str) -> &'a isd_lite::Series {
    let variables = isd_lite::variables();
    series
        .iter()
        .find(|s| variables[s.variable].name == name)
        .unwrap()
}

fn isd_value(series: &isd_lite::Series, index: usize) -> f64 {
    let divisor = isd_lite::variables()[series.variable].divisor;
    series.readings[index].1 as f64 / divisor as f64
}

#[test]
fn tenths_become_the_values_a_station_actually_reports() {
    let series = isd_lite::parse(ISD_SAMPLE);
    let temperature = isd_series(&series, "air_temperature");
    assert_eq!(isd_value(temperature, 0), 8.2);
    assert_eq!(isd_value(temperature, 1), 7.8);
}

#[test]
fn missing_readings_leave_a_gap_instead_of_a_value() {
    let series = isd_lite::parse(ISD_SAMPLE);
    let temperature = isd_series(&series, "air_temperature");
    let pressure = isd_series(&series, "sea_level_pressure");
    assert_eq!(temperature.readings.len(), 2);
    assert_eq!(pressure.readings.len(), 3);
    assert_eq!(pressure.readings[2].0 - pressure.readings[1].0, 3_600);
}

#[test]
fn short_or_junk_lines_are_skipped() {
    assert!(isd_lite::parse("not a row\n\n2023 01\n").is_empty());
}

#[test]
fn isd_rows_keep_integer_words_and_drop_the_rest() {
    let rows = isd_lite::rows("2023 01 x 01 00 1 2 3 4 5\r\n1 2 3\n\n");
    assert_eq!(rows, vec![vec![2023, 1, 1, 0, 1, 2, 3, 4, 5]]);
    let rows = isd_lite::rows("  2023\t01 01 00 +5 -6 7 8 9 99999999999999999999");
    assert_eq!(rows, vec![vec![2023, 1, 1, 0, 5, -6, 7, 8, 9]]);
}

#[test]
fn isd_series_skip_variables_that_never_report() {
    let series = isd_lite::parse("2023 01 01 00 -9999 -9999 5 -9999 -9999\n");
    assert_eq!(series.len(), 1);
    assert_eq!(series[0].variable, 2);
    assert_eq!(series[0].readings, vec![(1_672_531_200, 5)]);
    assert_eq!(isd_lite::variables()[2].column, 6);
    assert_eq!(isd_lite::variables()[3].divisor, 1);
}

const COOPS_SAMPLE: &str = "\
Date Time, Water Level, Sigma, O or I (for verified), F, R, L, Quality
2023-01-01 00:00,0.492,0.006,0,0,0,0,v
2023-01-01 00:06,0.481,0.005,0,0,0,0,v
2023-01-01 00:12,,,0,0,0,0,v
";

fn coops_points(text: &str, variable: usize) -> Vec<(i64, f64)> {
    coops::parse(text)
        .iter()
        .filter_map(|r| {
            r.cells[variable]
                .parse::<f64>()
                .ok()
                .map(|value| (r.timestamp, value))
        })
        .collect()
}

#[test]
fn millimetre_readings_survive_parsing() {
    let variables = coops::variables();
    let level = variables
        .iter()
        .position(|v| v.name == "water_level")
        .unwrap();
    let points = coops_points(COOPS_SAMPLE, level);
    assert_eq!(points[0].1, 0.492);
    assert_eq!(points[1].0 - points[0].0, 360);
}

#[test]
fn blank_readings_are_dropped() {
    for variable in 0..coops::VARIABLE_COUNT {
        assert_eq!(coops_points(COOPS_SAMPLE, variable).len(), 2);
    }
}

#[test]
fn the_header_is_not_read_as_data() {
    assert!(coops::parse("Date Time, Water Level, Sigma\n").is_empty());
}

#[test]
fn coops_cells_are_trimmed_and_short_rows_skipped() {
    let records = coops::parse("header\n2023-01-01 00:06, 1.5 ,x\n2023-01-01 00:12,1\nbad,1,2\n");
    assert_eq!(records.len(), 1);
    assert_eq!(records[0].timestamp, 1_672_531_560);
    assert_eq!(records[0].cells, vec!["1.5", "x"]);
    assert!(coops::timestamps_fit(COOPS_SAMPLE));
    assert!(!coops::timestamps_fit("h\n9223372036854775807-01-01 00:00,1,2\n"));
}

const USGS_SAMPLE: &str = "\
# comment line
# another
agency_cd\tsite_no\tdatetime\ttz_cd\t69928_00060\t69928_00060_cd\t69929_00065\t69929_00065_cd
5s\t15s\t20d\t6s\t14n\t10s\t14n\t10s
USGS\t01646500\t2023-01-01 00:00\tEST\t9760\tA\t3.95\tA
USGS\t01646500\t2023-01-01 00:15\tEST\t9760\tA\t3.95\tA
USGS\t01646500\t2023-01-01 00:30\tEST\t9660\tA\t3.94\tA
";

fn usgs_points(table: &usgs::Table, name: &str) -> Vec<(i64, f64)> {
    let variables = usgs::variables();
    let index = table
        .variables
        .iter()
        .position(|&(v, _)| variables[v].name == name)
        .unwrap();
    table
        .records
        .iter()
        .filter_map(|r| {
            r.cells[index]
                .and_then(|c| c.parse::<f64>().ok())
                .map(|value| (r.timestamp, value))
        })
        .collect()
}

#[test]
fn both_parameters_come_out_of_the_same_file() {
    let table = usgs::parse(USGS_SAMPLE);
    assert_eq!(table.variables.len(), 2);
    let discharge = usgs_points(&table, "discharge");
    let height = usgs_points(&table, "gage_height");
    assert_eq!(discharge[0].1, 9760.0);
    assert_eq!(height[0].1, 3.95);
    assert_eq!(discharge.len(), 3);
}

#[test]
fn the_width_declaration_row_is_not_data() {
    let table = usgs::parse(USGS_SAMPLE);
    let discharge = usgs_points(&table, "discharge");
    assert_eq!(discharge[1].0 - discharge[0].0, 900);
}

#[test]
fn a_file_with_only_comments_yields_nothing() {
    let table = usgs::parse("# just\n# comments\n");
    assert!(table.variables.is_empty() && table.records.is_empty());
    let table = usgs::parse("");
    assert!(table.variables.is_empty() && table.records.is_empty());
}

#[test]
fn usgs_columns_are_found_by_suffix_and_short_rows_leave_gaps() {
    let text = "datetime\ta_00065_cd\tb_00065\nw\n2023-01-01 00:00\nx\n";
    let table = usgs::parse(text);
    assert_eq!(table.variables, vec![(1, 2)]);
    assert_eq!(table.records.len(), 1);
    assert_eq!(table.records[0].timestamp, 1_672_531_200);
    assert_eq!(table.records[0].cells, vec![None]);
    let text = "datetime\tx_00060\nw\n2023-01-01 00:15\t 12 \n";
    let table = usgs::parse(text);
    assert_eq!(table.variables, vec![(0, 1)]);
    assert_eq!(table.records[0].timestamp, 1_672_532_100);
    assert_eq!(table.records[0].cells, vec![Some("12")]);
    assert!(usgs::parse("site\tx_00060\nw\n1\t2\n").records.is_empty());
    assert!(usgs::timestamps_fit(USGS_SAMPLE));
}
