use wsa_lib::codec::{FieldError, UtcDateTime};
use wsa_lib::config::{Column, ColumnPair, ColumnType, ConstrainedField};
use wsa_lib::ese::{EseColumnInfo, EseReader, EseValue, SchemaError, SystemTime};
use wsa_lib::props::{populate_property_id_maps, PropertyMeta};
use wsa_lib::sqlite::{SqlReader, SqlRow, SqlValue};
use std::collections::HashMap;

fn pair(title: &str, kind: ColumnType, edb: &str, sql: &str, constraint: Option<Vec<&str>>) -> ColumnPair {
    let c = constraint.map(|v| v.into_iter().map(|s| s.to_string()).collect::<Vec<String>>());
    ColumnPair {
        title: title.to_string(),
        kind,
        edb: Column { name: edb.to_string(), constraint: c.clone() },
        sql: Column { name: sql.to_string(), constraint: c },
    }
}

fn row(work_id: i64, column_id: &str, value: SqlValue) -> SqlRow {
    SqlRow { work_id, column_id: column_id.to_string(), value }
}

fn utf16(s: &str) -> Vec<u8> {
    s.encode_utf16().flat_map(|u| u.to_le_bytes()).collect()
}

#[test]
fn sql_reconstructs_record_by_work_id() {
    let rows = vec![
        row(7, "39", SqlValue::Text("C:\\a.txt".to_string())),
        row(7, "436", SqlValue::Binary(vec![0x00, 0x10, 0, 0, 0, 0, 0, 0])),
        row(8, "39", SqlValue::Text("C:\\b.txt".to_string())),
    ];
    let mut r = SqlReader::new(rows);
    let cols = vec![
        pair("Path", ColumnType::String, "", "39", None),
        pair("Size", ColumnType::Integer, "", "436", None),
    ];
    let used = r.get_used_columns(&cols);
    assert_eq!(used.len(), 2);
    assert!(r.first_row());
    assert!(r.next());
    assert_eq!(r.get_int("WorkId"), Ok(Some(7)));
    assert_eq!(r.get_str("Path"), Ok(Some("C:\\a.txt".to_string())));
    assert_eq!(r.get_int("Size"), Ok(Some(4096)));
    assert!(r.next());
    assert_eq!(r.get_int("WorkId"), Ok(Some(8)));
    assert_eq!(r.get_str("Path"), Ok(Some("C:\\b.txt".to_string())));
    assert_eq!(r.get_int("Size"), Ok(None));
    assert!(!r.next());
}

#[test]
fn sql_rewind_is_not_merged() {
    let rows = vec![
        row(9, "39", SqlValue::Text("late".to_string())),
        row(3, "39", SqlValue::Text("early".to_string())),
    ];
    let mut r = SqlReader::new(rows);
    r.get_used_columns(&vec![pair("Path", ColumnType::String, "", "39", None)]);
    assert!(r.next());
    assert_eq!(r.get_str("Path"), Ok(Some("late".to_string())));
    // WorkId 3 < 9: no record, and the row stays for the next step
    assert!(!r.next());
    assert_eq!(r.get_str("Path"), Ok(None));
    assert!(r.next());
    assert_eq!(r.get_int("WorkId"), Ok(Some(3)));
    assert_eq!(r.get_str("Path"), Ok(Some("early".to_string())));
}

#[test]
fn sql_same_values_whatever_the_number_of_reports() {
    let rows = vec![
        row(1, "39", SqlValue::Text("path1".to_string())),
        row(1, "40", SqlValue::Text("name1".to_string())),
        row(2, "39", SqlValue::Text("path2".to_string())),
    ];
    let mut one = SqlReader::new(rows.clone());
    one.get_used_columns(&vec![pair("Path", ColumnType::String, "", "39", None)]);
    let mut two = SqlReader::new(rows);
    two.get_used_columns(&vec![pair("Path", ColumnType::String, "", "39", None)]);
    two.get_used_columns(&vec![
        pair("Name", ColumnType::String, "", "40", None),
        pair("Path", ColumnType::String, "", "39", None),
    ]);
    loop {
        let a = one.next();
        let b = two.next();
        assert_eq!(a, b);
        if !a {
            break;
        }
        assert_eq!(one.get_str("Path"), two.get_str("Path"));
        assert_eq!(one.get_int("WorkId"), two.get_int("WorkId"));
    }
}

#[test]
fn sql_type_mismatch_is_an_error() {
    let rows = vec![row(1, "39", SqlValue::Integer(5)), row(1, "40", SqlValue::Binary(vec![1, 2]))];
    let mut r = SqlReader::new(rows);
    r.get_used_columns(&vec![
        pair("A", ColumnType::String, "", "39", None),
        pair("B", ColumnType::Integer, "", "40", None),
    ]);
    assert!(r.next());
    assert_eq!(r.get_str("A"), Err(FieldError::TypeMismatch));
    assert_eq!(r.get_int("A"), Ok(Some(5)));
    assert_eq!(r.get_int("B"), Err(FieldError::WidthMismatch { expected: 8, found: 2 }));
    assert_eq!(r.get_datetime("A"), Err(FieldError::TypeMismatch));
}

#[test]
fn sql_date_and_guid() {
    let ft: u64 = 125911584000000000;
    let uri = "x?VolumeId={AB-CD}&y";
    let rows = vec![
        row(1, "10", SqlValue::Binary(ft.to_le_bytes().to_vec())),
        row(1, "11", SqlValue::Text(uri.to_string())),
    ];
    let mut r = SqlReader::new(rows);
    r.get_used_columns(&vec![
        pair("Date", ColumnType::DateTime, "", "10", None),
        pair("VolumeId", ColumnType::GUID, "", "11", None),
    ]);
    assert!(r.next());
    assert_eq!(r.get_datetime("Date"), Ok(Some(UtcDateTime { secs: 946684800, nanos: 0 })));
    assert_eq!(r.get_guid("VolumeId"), Ok(Some("{AB-CD}".to_string())));
}

fn ese_column(name: &str, id: u32, typ: u32) -> EseColumnInfo {
    EseColumnInfo { name: name.to_string(), id, typ, cbmax: 0 }
}

fn value(bytes: Vec<u8>) -> Option<EseValue> {
    Some(EseValue { bytes, variant_time: None })
}

#[test]
fn ese_size_reads_as_integer() {
    let columns = vec![ese_column("13F-System_Size", 1, 15), ese_column("4447-System_ItemPathDisplay", 2, 12)];
    let rows = vec![vec![value(vec![0x00, 0x10, 0, 0, 0, 0, 0, 0]), value(utf16("C:\\a.txt"))]];
    let mut r = EseReader::new("Windows.edb", "SystemIndex_PropertyStore", columns, rows);
    let used = r
        .get_used_columns(&vec![
            pair("Size", ColumnType::Integer, "System_Size", "", None),
            pair("Path", ColumnType::String, "4447-System_ItemPathDisplay", "", None),
        ])
        .unwrap();
    assert_eq!(used.len(), 2);
    assert!(r.init());
    assert!(r.next());
    assert_eq!(r.get_int("Size"), Ok(Some(4096)));
    assert_eq!(r.get_str("Path"), Ok(Some("C:\\a.txt".to_string())));
    assert!(!r.next());
}

#[test]
fn ese_missing_required_column_is_a_schema_error() {
    let columns = vec![ese_column("13F-System_Size", 1, 15)];
    let mut r = EseReader::new("Windows.edb", "T", columns, vec![]);
    let res = r.get_used_columns(&vec![pair("Owner", ColumnType::String, "System_FileOwner", "", None)]);
    assert!(matches!(res, Err(SchemaError::MissingColumn(ref n)) if n == "System_FileOwner"));
    let res = r.get_used_columns(&vec![pair(
        "Owner",
        ColumnType::String,
        "System_FileOwner",
        "",
        Some(vec!["optional"]),
    )]);
    assert_eq!(res.unwrap().len(), 0);
    assert!(!r.init());
}

#[test]
fn ese_unknown_column_type_is_a_schema_error() {
    let columns = vec![ese_column("System_Flag", 1, 1)];
    let mut r = EseReader::new("Windows.edb", "T", columns, vec![]);
    let res = r.get_used_columns(&vec![pair("Flag", ColumnType::Integer, "System_Flag", "", None)]);
    assert!(matches!(res, Err(SchemaError::UnknownColumnType(1))));
}

#[test]
fn ese_date_prefers_variant_time() {
    let columns = vec![ese_column("15F-System_DateModified", 1, 8)];
    let ft: u64 = 125911584000000000;
    let variant = EseValue {
        bytes: vec![0, 0, 0, 0, 0, 0, 0, 0],
        variant_time: Some(SystemTime { year: 2023, month: 3, day: 7, hour: 1, minute: 52, second: 44 }),
    };
    let rows = vec![vec![Some(variant)], vec![value(ft.to_le_bytes().to_vec())], vec![value(vec![1, 2, 3])]];
    let mut r = EseReader::new("Windows.edb", "T", columns, rows);
    r.get_used_columns(&vec![pair("Modified", ColumnType::DateTime, "System_DateModified", "", None)]).unwrap();
    assert!(r.init());
    assert!(r.next());
    assert_eq!(r.get_datetime("Modified"), Ok(Some(UtcDateTime { secs: 1678153964, nanos: 0 })));
    assert!(r.next());
    assert_eq!(r.get_datetime("Modified"), Ok(Some(UtcDateTime { secs: 946684800, nanos: 0 })));
    assert!(r.next());
    assert_eq!(r.get_datetime("Modified"), Err(FieldError::WidthMismatch { expected: 8, found: 3 }));
}

#[test]
fn ese_guid_from_content_uri() {
    let columns = vec![ese_column("4112-System_Activity_ContentUri", 1, 12)];
    let rows = vec![vec![value(utf16("file:///x?ObjectId={5E5E}&z"))]];
    let mut r = EseReader::new("Windows.edb", "T", columns, rows);
    r.get_used_columns(&vec![pair("ObjectId", ColumnType::GUID, "System_Activity_ContentUri", "", None)])
        .unwrap();
    assert!(r.next());
    assert_eq!(r.get_guid("ObjectId"), Ok(Some("{5E5E}".to_string())));
}

#[test]
fn constrained_field_tokens() {
    let tokens = Some(vec!["hidden".to_string(), "auto_fill".to_string(), "optional".to_string()]);
    let f = ConstrainedField::new("Host", &tokens, 3);
    assert!(f.hidden);
    assert!(f.optional);
    assert_eq!(f.constraint, Some("auto_fill".to_string()));
    assert_eq!(f.idx, 3);
    let f = ConstrainedField::new("Host", &None, 0);
    assert!(!f.hidden && !f.optional && f.constraint.is_none());
}

#[test]
fn test_get_property_id_map() {
    let rows: Vec<PropertyMeta> = (0..597)
        .map(|i| PropertyMeta { id: i, name: format!("System.Property{}", i), storage_type: 11 })
        .collect();
    let mut id_to_prop = HashMap::<i64, (String, i64)>::new();
    let mut name_to_id = Vec::<(String, i64)>::new();
    populate_property_id_maps(&rows, &mut id_to_prop, &mut name_to_id);
    assert!(id_to_prop.len() == 597);
    assert!(name_to_id.len() == id_to_prop.len());
    assert_eq!(id_to_prop[&5], ("System.Property5".to_string(), 11));
}

#[test]
fn property_maps_later_rows_replace() {
    let rows = vec![
        PropertyMeta { id: 1, name: "System.ItemType".to_string(), storage_type: 11 },
        PropertyMeta { id: 1, name: "System.Size".to_string(), storage_type: 12 },
        PropertyMeta { id: 2, name: "System.ItemType".to_string(), storage_type: 11 },
    ];
    let mut id_to_prop = HashMap::<i64, (String, i64)>::new();
    let mut name_to_id = Vec::<(String, i64)>::new();
    populate_property_id_maps(&rows, &mut id_to_prop, &mut name_to_id);
    assert_eq!(id_to_prop.len(), 2);
    assert_eq!(id_to_prop[&1], ("System.Size".to_string(), 12));
    assert_eq!(name_to_id.len(), 2);
    assert!(name_to_id.contains(&("System.ItemType".to_string(), 2)));
}

#[test]
fn ese_invalid_variant_date_is_an_error() {
    let columns = vec![ese_column("15F-System_DateModified", 1, 8)];
    let bad = EseValue {
        bytes: vec![0; 8],
        variant_time: Some(SystemTime { year: 2023, month: 13, day: 40, hour: 0, minute: 0, second: 0 }),
    };
    let mut r = EseReader::new("Windows.edb", "T", columns, vec![vec![Some(bad)]]);
    r.get_used_columns(&vec![pair("Modified", ColumnType::DateTime, "System_DateModified", "", None)]).unwrap();
    assert!(r.next());
    assert_eq!(r.get_datetime("Modified"), Err(FieldError::InvalidDate));
}
