use std::collections::HashMap;
use wsa_lib::engine::CellValue;
use wsa_lib::ese::{prepare_selected_cols, EseColumnInfo, EseReader, EseValue, HostnameError};
use wsa_lib::report::{ReportFormat, ReportOutput, ReportProducer, ReportSink};
use wsa_lib::sidr::{
    ese_row_record, sidr_sqlite_rows,
    classify_record, ese_IE_history_record, ese_activity_history_record, ese_dump_file_record,
    is_activity_history_record, is_internet_record, write_record_to_report,
};

fn utf16(s: &str) -> Vec<u8> {
    s.encode_utf16().flat_map(|u| u.to_le_bytes()).collect()
}

fn cells(row: &[(String, CellValue)]) -> Vec<(String, String)> {
    row.iter()
        .map(|(f, v)| {
            let s = match v {
                CellValue::Str(s) => s.clone(),
                CellValue::Int(i) => i.to_string(),
            };
            (f.clone(), s)
        })
        .collect()
}

fn cell(f: &str, v: &str) -> (String, String) {
    (f.to_string(), v.to_string())
}

#[test]
fn ie_history_record_by_url() {
    let h = vec![
        ("33-System_ItemUrl".to_string(), utf16("iehistory://{S-1}/http://a")),
        ("15F-System_DateModified".to_string(), 125911584000000000u64.to_le_bytes().to_vec()),
        ("13F-System_Size".to_string(), 4096u64.to_le_bytes().to_vec()),
    ];
    let row = ese_IE_history_record(5, &h).unwrap().unwrap();
    assert_eq!(
        cells(&row),
        vec![
            cell("WorkId", "5"),
            cell("System_ItemUrl", "iehistory://{S-1}/http://a"),
            cell("System_DateModified", "2000-01-01T00:00:00.0000000Z"),
        ]
    );
    let edge = vec![(
        "33-System_ItemUrl".to_string(),
        utf16("winrt://x/LS/Desktop/Microsoft Edge/stable/Default/y"),
    )];
    assert!(ese_IE_history_record(1, &edge).unwrap().is_some());
    let other = vec![("33-System_ItemUrl".to_string(), utf16("winrt://x/other"))];
    assert!(ese_IE_history_record(1, &other).unwrap().is_none());
}

#[test]
fn activity_record_splits_content_uri() {
    let h = vec![
        ("4450-System_ItemType".to_string(), utf16("ActivityHistoryItem")),
        (
            "4112-System_Activity_ContentUri".to_string(),
            utf16("file:///C:/x.docx?VolumeId={AB}&ObjectId={CD}&K=1"),
        ),
    ];
    let row = ese_activity_history_record(9, &h).unwrap().unwrap();
    assert_eq!(
        cells(&row),
        vec![
            cell("WorkId", "9"),
            cell("VolumeId", "{AB}"),
            cell("ObjectId", "{CD}"),
            cell("System_Activity_ContentUri", "file:///C:/x.docx?VolumeId={AB}&ObjectId={CD}&K=1"),
        ]
    );
}

#[test]
fn file_record_when_neither() {
    let h = vec![
        ("4447-System_ItemPathDisplay".to_string(), utf16("C:\\a.txt")),
        ("13F-System_Size".to_string(), vec![0x00, 0x10, 0, 0, 0, 0, 0, 0]),
    ];
    let (file, ie, act) = classify_record(3, &h).unwrap();
    assert!(ie.is_none() && act.is_none());
    assert_eq!(
        cells(&file.unwrap()),
        vec![cell("WorkId", "3"), cell("System_ItemPathDisplay", "C:\\a.txt"), cell("System_Size", "4096")]
    );
    assert_eq!(cells(&ese_dump_file_record(3, &h).unwrap()).len(), 3);
}

fn ese_column(name: &str, id: u32) -> EseColumnInfo {
    EseColumnInfo { name: name.to_string(), id, typ: 12, cbmax: 0 }
}

fn value(s: &str) -> Option<EseValue> {
    Some(EseValue { bytes: utf16(s), variant_time: None })
}

#[test]
fn hostname_skips_url_items_from_the_end() {
    let columns = vec![ese_column("4184-System_ComputerName", 1), ese_column("4450-System_ItemType", 2)];
    let rows = vec![
        vec![value("FIRST"), value(".txt")],
        vec![value("SECOND"), value(".docx")],
        vec![value("URLHOST"), value(".URL")],
    ];
    let r = EseReader::new("Windows.edb", "T", columns.clone(), rows);
    assert_eq!(r.ese_get_hostname().unwrap(), "SECOND");
    let only_url = vec![vec![value("URLHOST"), value(".url")]];
    let r = EseReader::new("Windows.edb", "T", columns, only_url);
    assert!(matches!(r.ese_get_hostname(), Err(HostnameError::NotFound)));
    let r = EseReader::new("Windows.edb", "T", vec![ese_column("X", 1)], vec![vec![value("a")]]);
    assert!(matches!(r.ese_get_hostname(), Err(HostnameError::MissingColumn(_))));
}

#[test]
fn selected_columns_keep_catalog_order() {
    let cols = vec![ese_column("1-A", 1), ese_column("2-B", 2), ese_column("C", 3)];
    let sel = prepare_selected_cols(cols, &vec!["C", "A", "Z"]);
    let names: Vec<String> = sel.iter().map(|c| c.name.clone()).collect();
    assert_eq!(names, vec!["1-A".to_string(), "C".to_string()]);
}

#[test]
fn sqlite_record_classification() {
    let names = vec![("System.Link.TargetUrl".to_string(), 10), ("System.ItemType".to_string(), 11)];
    let web = vec![(10, b"https://example.org".to_vec())];
    assert!(is_internet_record(&web, &names));
    assert!(!is_activity_history_record(&web, &names));
    let act = vec![(11, b"ActivityHistoryItem".to_vec())];
    assert!(is_activity_history_record(&act, &names));
    assert!(!is_internet_record(&act, &names));
    let bad = vec![(10, vec![0xff, 0x68])];
    assert!(!is_internet_record(&bad, &names));
}

#[test]
fn sqlite_record_row() {
    let mut props = HashMap::<i64, (String, i64)>::new();
    props.insert(1, ("System.ItemPathDisplay".to_string(), 11));
    props.insert(2, ("System.DateModified".to_string(), 12));
    props.insert(3, ("System.Size".to_string(), 12));
    props.insert(4, ("System.Other".to_string(), 7));
    let record = vec![
        (1, b"C:\\a.txt".to_vec()),
        (2, 125911584000000000u64.to_le_bytes().to_vec()),
        (3, 4096u64.to_le_bytes().to_vec()),
        (4, vec![1]),
        (5, vec![2]),
    ];
    let row = write_record_to_report(&record, 7, &props);
    assert_eq!(
        cells(&row),
        vec![
            cell("WorkId", "7"),
            cell("System_ItemPathDisplay", "C:\\a.txt"),
            cell("System_DateModified", "2000-01-01T00:00:00.0000000Z"),
            cell("System_Size", "4096"),
        ]
    );
}

#[test]
fn producer_names_reports() {
    let p = ReportProducer::new("out", ReportFormat::Csv, ReportOutput::ToFile);
    let (name, sink) = p.new_report("DESKTOP-1", "File_Report", "20230307_015244");
    assert_eq!(name, "DESKTOP-1_File_Report_20230307_015244.csv");
    assert!(matches!(sink, ReportSink::Csv(_)));
    assert_eq!(p.dir_name(), "out");
    let p = ReportProducer::new("out", ReportFormat::Json, ReportOutput::ToStdout);
    let (name, sink) = p.new_report("H", "Activity_History_Report", "t");
    assert_eq!(name, "H_Activity_History_Report_t.json");
    assert!(matches!(sink, ReportSink::Json(_)));
    assert_eq!(p.get_report_type(), ReportOutput::ToStdout);
}

#[test]
fn hostname_of_empty_table() {
    let r = EseReader::new("Windows.edb", "T", vec![ese_column("4184-System_ComputerName", 1)], vec![]);
    assert!(matches!(r.ese_get_hostname(), Err(HostnameError::EmptyTable)));
}

#[test]
fn sqlite_rows_grouped_sorted_and_routed() {
    let mut props = HashMap::<i64, (String, i64)>::new();
    props.insert(1, ("System.ItemPathDisplay".to_string(), 11));
    props.insert(2, ("System.Link.TargetUrl".to_string(), 11));
    props.insert(3, ("System.ItemType".to_string(), 11));
    let names = vec![
        ("System.ItemPathDisplay".to_string(), 1),
        ("System.Link.TargetUrl".to_string(), 2),
        ("System.ItemType".to_string(), 3),
    ];
    let rows = vec![
        (7, 2, b"https://a".to_vec()),
        (7, 1, b"old".to_vec()),
        (7, 1, b"C:\\new".to_vec()),
        (8, 3, b"ActivityHistoryItem".to_vec()),
        (9, 1, b"C:\\f".to_vec()),
    ];
    let out = sidr_sqlite_rows(&rows, &props, &names);
    assert_eq!(out.len(), 3);
    assert_eq!(out[0].0, 1);
    assert_eq!(
        cells(&out[0].1),
        vec![cell("WorkId", "7"), cell("System_ItemPathDisplay", "C:\\new"), cell("System_Link_TargetUrl", "https://a")]
    );
    assert_eq!(out[1].0, 2);
    assert_eq!(out[2].0, 0);
    assert_eq!(cells(&out[2].1), vec![cell("WorkId", "9"), cell("System_ItemPathDisplay", "C:\\f")]);
}

#[test]
fn ese_row_record_picks_selected_columns() {
    let cols = vec![ese_column("WorkID", 1), ese_column("4447-System_ItemPathDisplay", 2), ese_column("X", 3)];
    let row = vec![
        Some(EseValue { bytes: vec![5, 0, 0, 0], variant_time: None }),
        value("C:\\a"),
        value("skip"),
    ];
    let (w, h) = ese_row_record(&cols, &vec!["WorkID", "System_ItemPathDisplay"], &row);
    assert_eq!(w, 5);
    assert_eq!(h, vec![("4447-System_ItemPathDisplay".to_string(), utf16("C:\\a"))]);
}

#[test]
fn invalid_text_stops_the_record() {
    let h = vec![("33-System_ItemUrl".to_string(), vec![0x00, 0xd8])];
    assert!(ese_IE_history_record(1, &h).is_err());
    assert!(classify_record(1, &h).is_err());
    let short = vec![("13F-System_Size".to_string(), vec![1, 2])];
    assert!(ese_dump_file_record(1, &short).is_err());
    let cols = vec![ese_column("4184-System_ComputerName", 1), ese_column("4450-System_ItemType", 2)];
    let bad = vec![vec![Some(EseValue { bytes: vec![0x00, 0xd8], variant_time: None }), None]];
    let r = EseReader::new("Windows.edb", "T", cols, bad);
    assert!(matches!(r.ese_get_hostname(), Err(HostnameError::Field(_))));
}
