use wsa_lib::report::{csv_quoted, Report, ReportCsv, ReportJson, ReportOutput, ReportSuffix};

#[test]
fn test_report_csv() {
    let report_type = ReportOutput::ToFile;
    let report_suffix = None;
    let mut r = ReportCsv::new(report_type, report_suffix);
    r.set_field("int_field");
    r.set_field("str_field");
    r.int_val("int_field", 0);
    r.str_val("str_field", "string0".into());
    for i in 1..10 {
        r.new_record();
        if i % 2 == 0 {
            r.str_val("str_field", format!("string{}", i));
        } else {
            r.int_val("int_field", i);
        }
    }
    r.footer();
    let data = r.output();
    let expected = r#"int_field,str_field
0,"string0"
1,
,"string2"
3,
,"string4"
5,
,"string6"
7,
,"string8"
9,"#;
    assert_eq!(data, expected);
}

#[test]
fn test_report_jsonl() {
    let report_type = ReportOutput::ToFile;
    let report_suffix = Some(ReportSuffix::FileReport);
    let mut r = ReportJson::new(report_type, report_suffix);
    r.int_val("int_field", 0);
    r.str_val("str_field", "string0_with_escapes_here1\"here2\\".into());
    for i in 1..10 {
        r.new_record();
        if i % 2 == 0 {
            r.str_val("str_field", format!("string{}", i));
        } else {
            r.int_val("int_field", i);
        }
    }
    r.footer();
    let data = r.output();
    let expected = r#"{"int_field":0,"str_field":"string0_with_escapes_here1\"here2\\"}
{"int_field":1}
{"str_field":"string2"}
{"int_field":3}
{"str_field":"string4"}
{"int_field":5}
{"str_field":"string6"}
{"int_field":7}
{"str_field":"string8"}
{"int_field":9}"#;
    assert_eq!(data, expected);
}

#[test]
fn test_report_suffix() {
    let report_suffix = Some(ReportSuffix::FileReport);
    assert_eq!(ReportSuffix::get_match("File_Report"), report_suffix);
    assert_ne!(ReportSuffix::get_match("Activity"), report_suffix);

    assert_eq!(ReportSuffix::message(report_suffix.as_ref().unwrap()), serde_json::to_string("file_report").unwrap());
    assert_eq!(ReportSuffix::message(&ReportSuffix::ActivityHistory), serde_json::to_string("activity_history").unwrap());
    assert_eq!(ReportSuffix::message(&ReportSuffix::InternetHistory), serde_json::to_string("internet_history").unwrap());
    assert_eq!(ReportSuffix::message(&ReportSuffix::Unknown), serde_json::to_string("").unwrap());
}

#[test]
fn csv_doubles_quotes() {
    assert_eq!(csv_quoted("a\"b"), "\"a\"\"b\"");
    assert_eq!(csv_quoted(""), "\"\"");
}

#[test]
fn stdout_reports_carry_their_suffix() {
    let mut r = ReportCsv::new(ReportOutput::ToStdout, Some(ReportSuffix::InternetHistory));
    r.str_val("Url", "http://a".to_string());
    r.footer();
    assert_eq!(r.output(), "ReportSuffix,Url\n\"internet_history\",\"http://a\"");
    let mut j = ReportJson::new(ReportOutput::ToStdout, Some(ReportSuffix::ActivityHistory));
    j.int_val("WorkId", 7);
    j.footer();
    assert_eq!(j.output(), "{\"report_suffix\":\"activity_history\",\"WorkId\":7}");
}

#[test]
fn empty_records_write_nothing() {
    let mut r = ReportCsv::new(ReportOutput::ToFile, None);
    r.set_field("a");
    r.new_record();
    r.footer();
    assert_eq!(r.output(), "");
    assert!(!r.is_some_val_in_record());
}

#[test]
fn json_escapes_control_characters() {
    let mut j = ReportJson::new(ReportOutput::ToFile, None);
    j.str_val("s", "a\nb\u{1}\"\\".to_string());
    j.footer();
    assert_eq!(j.output(), "{\"s\":\"a\\nb\\u0001\\\"\\\\\"}");
}
