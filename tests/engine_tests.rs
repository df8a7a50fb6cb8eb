use wsa_lib::config::{Column, ColumnPair, ColumnType, OutputFormat, OutputType, ReportCfg, ReportsCfg};
use wsa_lib::engine::{do_reports, CellValue, EngineError, ReportSet};
use wsa_lib::ese::{EseColumnInfo, EseReader};
use wsa_lib::sqlite::{SqlReader, SqlRow, SqlValue};

fn pair(title: &str, kind: ColumnType, sql: &str, constraint: Option<Vec<&str>>) -> ColumnPair {
    let c = constraint.map(|v| v.into_iter().map(|s| s.to_string()).collect::<Vec<String>>());
    ColumnPair {
        title: title.to_string(),
        kind,
        edb: Column { name: String::new(), constraint: None },
        sql: Column { name: sql.to_string(), constraint: c },
    }
}

fn text(work_id: i64, code: &str, v: &str) -> SqlRow {
    SqlRow { work_id, column_id: code.to_string(), value: SqlValue::Text(v.to_string()) }
}

fn cfg(reports: Vec<ReportCfg>) -> ReportsCfg {
    ReportsCfg {
        table_edb: "SystemIndex_PropertyStore".to_string(),
        table_sql: "SystemIndex_1_PropertyStore".to_string(),
        output_format: OutputFormat::Csv,
        output_type: OutputType::ToFile,
        output_dir: ".".to_string(),
        reports,
    }
}

fn report(title: &str, output: &str, constraint: Option<&str>, columns: Vec<ColumnPair>) -> ReportCfg {
    ReportCfg {
        title: title.to_string(),
        output_filename: output.to_string(),
        constraint: constraint.map(|s| s.to_string()),
        columns,
    }
}

fn rows_of(set: &ReportSet, report: usize) -> Vec<Vec<(String, String)>> {
    set.rows
        .iter()
        .filter(|r| r.report == report)
        .map(|r| {
            r.cells
                .iter()
                .map(|(f, v)| {
                    let s = match v {
                        CellValue::Str(s) => s.clone(),
                        CellValue::Int(i) => i.to_string(),
                    };
                    (f.clone(), s)
                })
                .collect()
        })
        .collect()
}

fn cell(f: &str, v: &str) -> (String, String) {
    (f.to_string(), v.to_string())
}

fn routing_rows() -> Vec<SqlRow> {
    vec![
        text(1, "10", "http://a"),
        text(1, "39", "C:\\a"),
        text(1, "99", "PC1"),
        text(2, "39", "C:\\b"),
        text(3, "10", "ftp://c"),
        text(3, "39", "C:\\c"),
    ]
}

fn routing_cfg() -> ReportsCfg {
    cfg(vec![
        report(
            "Internet",
            "Host",
            None,
            vec![
                pair("WorkId", ColumnType::Integer, "WorkId", None),
                pair("Url", ColumnType::String, "10", Some(vec!["str::regex_matches(\"{Value}\", \"^http\")"])),
                pair("Host", ColumnType::String, "99", Some(vec!["hidden"])),
            ],
        ),
        report(
            "Files",
            "Host",
            Some("!Internet"),
            vec![
                pair("WorkId", ColumnType::Integer, "WorkId", None),
                pair("Path", ColumnType::String, "39", None),
                pair("Host", ColumnType::String, "99", Some(vec!["auto_fill"])),
            ],
        ),
    ])
}

#[test]
fn reports_route_records_exclusively() {
    let mut reader = SqlReader::new(routing_rows());
    let set = do_reports(&routing_cfg(), &mut reader).unwrap();
    assert_eq!(set.reports.len(), 2);
    assert_eq!(set.reports[0].title, "Internet");
    assert_eq!(set.reports[0].output_name, "PC1");
    assert_eq!(set.reports[0].fields, vec!["WorkId".to_string(), "Url".to_string()]);
    assert_eq!(
        rows_of(&set, 0),
        vec![vec![cell("WorkId", "1"), cell("Url", "http://a")]]
    );
    // the record that Internet claimed is not also a file row
    let files = rows_of(&set, 1);
    assert_eq!(files.len(), 2);
    assert_eq!(files[0][0], cell("WorkId", "2"));
    assert_eq!(files[1][0], cell("WorkId", "3"));
}

#[test]
fn regex_constraint_rejects_whole_row() {
    let mut reader = SqlReader::new(routing_rows());
    let set = do_reports(&routing_cfg(), &mut reader).unwrap();
    // record 3's Url does not start with http: no Internet row at all
    let internet = rows_of(&set, 0);
    assert!(internet.iter().all(|r| !r.contains(&cell("WorkId", "3"))));
    assert!(internet.iter().all(|r| !r.contains(&cell("WorkId", "2"))));
}

#[test]
fn optional_absent_value_keeps_row() {
    let rows = vec![text(1, "39", "C:\\a"), text(2, "39", "C:\\b"), text(2, "12", "nomatch")];
    let c = cfg(vec![report(
        "Files",
        "Path",
        None,
        vec![
            pair("Path", ColumnType::String, "39", None),
            pair("Title", ColumnType::String, "12", Some(vec!["optional", "str::regex_matches(\"{Value}\", \"^x\")"])),
        ],
    )]);
    let mut reader = SqlReader::new(rows);
    let set = do_reports(&c, &mut reader).unwrap();
    // record 1 lacks the optional Title: kept; record 2's Title fails: dropped
    assert_eq!(rows_of(&set, 0), vec![vec![cell("Path", "C:\\a")]]);
    assert_eq!(set.reports[0].output_name, "C:\\a");
}

#[test]
fn auto_fill_uses_the_one_value_everywhere() {
    let mut reader = SqlReader::new(routing_rows());
    let set = do_reports(&routing_cfg(), &mut reader).unwrap();
    for r in rows_of(&set, 1) {
        assert!(r.contains(&cell("Host", "PC1")));
    }
    // the value may also come after the empty occurrences
    let rows = vec![text(1, "39", "a"), text(2, "39", "b"), text(3, "39", "c"), text(3, "99", "PC9")];
    let c = cfg(vec![report(
        "Files",
        "Path",
        None,
        vec![
            pair("Path", ColumnType::String, "39", None),
            pair("Host", ColumnType::String, "99", Some(vec!["auto_fill"])),
        ],
    )]);
    let mut reader = SqlReader::new(rows);
    let set = do_reports(&c, &mut reader).unwrap();
    let files = rows_of(&set, 0);
    assert_eq!(files.len(), 3);
    for r in files {
        assert_eq!(r[1], cell("Host", "PC9"));
    }
}

#[test]
fn host_name_skips_url_items() {
    let rows = vec![
        text(1, "100", "URLHOST"),
        text(1, "567", ".url"),
        text(2, "100", "REALHOST"),
        text(2, "567", ".txt"),
    ];
    let c = cfg(vec![report(
        "Files",
        "System_ComputerName",
        None,
        vec![pair("System_ComputerName", ColumnType::String, "100", None)],
    )]);
    let mut reader = SqlReader::new(rows);
    let set = do_reports(&c, &mut reader).unwrap();
    assert_eq!(set.reports[0].output_name, "REALHOST");
}

#[test]
fn missing_output_column_is_an_error() {
    let c = cfg(vec![report("Files", "Nope", None, vec![pair("Path", ColumnType::String, "39", None)])]);
    let mut reader = SqlReader::new(vec![text(1, "39", "a")]);
    assert!(matches!(do_reports(&c, &mut reader), Err(EngineError::NoFilenameColumn(_))));
}

#[test]
fn empty_source_is_an_error() {
    let c = cfg(vec![report("Files", "Path", None, vec![pair("Path", ColumnType::String, "39", None)])]);
    let mut reader = SqlReader::new(vec![]);
    assert!(matches!(do_reports(&c, &mut reader), Err(EngineError::EmptySource)));
}

#[test]
fn malformed_constraint_skips_rows() {
    let c = cfg(vec![report(
        "Files",
        "Path",
        Some("((("),
        vec![pair("Path", ColumnType::String, "39", None)],
    )]);
    let mut reader = SqlReader::new(vec![text(1, "39", "a")]);
    let set = do_reports(&c, &mut reader).unwrap();
    assert!(set.rows.is_empty());
}

#[test]
fn date_columns_are_formatted() {
    let ft: u64 = 125911584000000000 + 1234567;
    let rows = vec![
        text(1, "39", "a"),
        SqlRow { work_id: 1, column_id: "15".to_string(), value: SqlValue::Binary(ft.to_le_bytes().to_vec()) },
    ];
    let c = cfg(vec![report(
        "Files",
        "Path",
        None,
        vec![pair("Path", ColumnType::String, "39", None), pair("Modified", ColumnType::DateTime, "15", None)],
    )]);
    let mut reader = SqlReader::new(rows);
    let set = do_reports(&c, &mut reader).unwrap();
    assert_eq!(
        rows_of(&set, 0),
        vec![vec![cell("Path", "a"), cell("Modified", "2000-01-01T00:00:00.1234567Z")]]
    );
}

#[test]
fn unreadable_value_stops_the_run() {
    let rows = vec![SqlRow { work_id: 1, column_id: "39".to_string(), value: SqlValue::Integer(3) }];
    let c = cfg(vec![report("Files", "Path", None, vec![pair("Path", ColumnType::String, "39", None)])]);
    let mut reader = SqlReader::new(rows);
    assert!(matches!(do_reports(&c, &mut reader), Err(EngineError::Field(_))));
}

#[test]
fn missing_ese_column_stops_the_run() {
    let columns = vec![EseColumnInfo { name: "4447-System_ItemPathDisplay".to_string(), id: 1, typ: 12, cbmax: 0 }];
    let mut pairs = vec![pair("Path", ColumnType::String, "", None)];
    pairs[0].edb = Column { name: "System_Missing".to_string(), constraint: None };
    let c = cfg(vec![report("Files", "Path", None, pairs)]);
    let mut reader = EseReader::new("Windows.edb", "T", columns, vec![vec![None]]);
    assert!(matches!(do_reports(&c, &mut reader), Err(EngineError::Schema(_))));
}

#[test]
fn plain_regex_token_tests_the_value() {
    let rows = vec![text(1, "10", "http://a"), text(2, "10", "ftp://b")];
    let c = cfg(vec![report(
        "Internet",
        "Url",
        None,
        vec![pair("Url", ColumnType::String, "10", Some(vec!["regex_matches(\"^http\")"]))],
    )]);
    let mut reader = SqlReader::new(rows);
    let set = do_reports(&c, &mut reader).unwrap();
    assert_eq!(rows_of(&set, 0), vec![vec![cell("Url", "http://a")]]);
}

#[test]
fn expressions_naming_unsafe_builtins_skip_the_row() {
    let rows = vec![text(1, "10", "abc")];
    let c = cfg(vec![report(
        "R",
        "Url",
        Some("shl(1, 70) == 0"),
        vec![pair("Url", ColumnType::String, "10", None)],
    )]);
    let mut reader = SqlReader::new(rows.clone());
    assert!(do_reports(&c, &mut reader).unwrap().rows.is_empty());
    let c = cfg(vec![report(
        "R",
        "Url",
        None,
        vec![pair("Url", ColumnType::String, "10", Some(vec!["str::substring(\"{Value}\", 0, 1) == \"a\""]))],
    )]);
    let mut reader = SqlReader::new(rows);
    assert!(do_reports(&c, &mut reader).unwrap().rows.is_empty());
}
