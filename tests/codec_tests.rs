use wsa_lib::codec::{
    column_string_part, decimal_string, decode_le_int, filetime_from_date_time, find_guid,
    format_date_time, from_utf16, get_date_time_from_filetime, FieldError, UtcDateTime,
};
use wsa_lib::files::is_valid_file;

const Y2000_FILETIME: u64 = 125911584000000000;

#[test]
fn filetime_decodes_to_unix_seconds() {
    let t = get_date_time_from_filetime(Y2000_FILETIME);
    assert_eq!(t, UtcDateTime { secs: 946684800, nanos: 0 });
    let t = get_date_time_from_filetime(116444736000000001);
    assert_eq!(t, UtcDateTime { secs: 0, nanos: 100 });
    let t = get_date_time_from_filetime(0);
    assert_eq!(t, UtcDateTime { secs: -11644473600, nanos: 0 });
}

#[test]
fn filetime_round_trip_1980_to_2100() {
    // 1980-01-01, 2023-03-07 01:52:44.1234567, 2100-12-31 23:59:59.9999999
    let instants = [
        UtcDateTime { secs: 315532800, nanos: 0 },
        UtcDateTime { secs: 1678153964, nanos: 123456700 },
        UtcDateTime { secs: 4133980799, nanos: 999999900 },
    ];
    for t in instants.iter() {
        let ft = filetime_from_date_time(t).unwrap();
        assert_eq!(get_date_time_from_filetime(ft), *t);
    }
    assert_eq!(
        filetime_from_date_time(&UtcDateTime { secs: 946684800, nanos: 0 }),
        Some(Y2000_FILETIME)
    );
}

#[test]
fn filetime_out_of_range_is_none() {
    assert_eq!(filetime_from_date_time(&UtcDateTime { secs: -11644473601, nanos: 0 }), None);
    assert_eq!(filetime_from_date_time(&UtcDateTime { secs: i64::MAX, nanos: 0 }), None);
}

#[test]
fn format_date_time_seven_digits() {
    let t = get_date_time_from_filetime(Y2000_FILETIME + 1234567);
    assert_eq!(format_date_time(&t), "2000-01-01T00:00:00.1234567Z");
    let t = UtcDateTime { secs: 1678153964, nanos: 0 };
    assert_eq!(format_date_time(&t), "2023-03-07T01:52:44.0000000Z");
}

#[test]
fn format_date_time_nanosecond_fallback() {
    let t = UtcDateTime { secs: 0, nanos: 123456789 };
    assert_eq!(format_date_time(&t), "1970-01-01T00:00:00.123456789Z");
}

#[test]
fn le_int_widths() {
    assert_eq!(decode_le_int(&[0x00, 0x10, 0, 0, 0, 0, 0, 0], 8), Ok(4096));
    assert_eq!(decode_le_int(&[0xff], 1), Ok(-1));
    assert_eq!(decode_le_int(&[0x7f], 1), Ok(127));
    assert_eq!(decode_le_int(&[0x00, 0x80], 2), Ok(-32768));
    assert_eq!(decode_le_int(&[0x01, 0x00, 0x00, 0x00], 4), Ok(1));
    assert_eq!(decode_le_int(&[0xff; 8], 8), Ok(-1));
    assert_eq!(decode_le_int(&[0, 0, 0, 0, 0, 0, 0, 0x80], 8), Ok(i64::MIN));
}

#[test]
fn le_int_width_errors() {
    assert_eq!(
        decode_le_int(&[1, 2, 3], 4),
        Err(FieldError::WidthMismatch { expected: 4, found: 3 })
    );
    assert_eq!(decode_le_int(&[1, 2, 3], 3), Err(FieldError::UnsupportedWidth(3)));
}

#[test]
fn utf16_decoding() {
    assert_eq!(from_utf16(&[0x41, 0x00, 0x62, 0x00]), Ok("Ab".to_string()));
    assert_eq!(from_utf16(&[]), Ok(String::new()));
    assert_eq!(from_utf16(&[0x41, 0x00, 0x62]), Err(FieldError::InvalidText));
    // an unpaired high surrogate
    assert_eq!(from_utf16(&[0x00, 0xd8]), Err(FieldError::InvalidText));
    // a surrogate pair: U+1F600
    assert_eq!(from_utf16(&[0x3d, 0xd8, 0x00, 0xde]), Ok("\u{1F600}".to_string()));
}

#[test]
fn guid_after_marker() {
    let uri = "file:///C:/Users/testuser/Desktop/Test-Word.docx?VolumeId={AC048C6D-1E3C-4B21-B20D-75745DD788B3}&ObjectId={5E5EFB20-A904-11ED-A0EA-DC215CBBECEC}&KnownFolderId=ThisPCDesktopFolder&KnownFolderLength=25";
    assert_eq!(find_guid(uri, "VolumeId="), "{AC048C6D-1E3C-4B21-B20D-75745DD788B3}");
    assert_eq!(find_guid(uri, "ObjectId="), "{5E5EFB20-A904-11ED-A0EA-DC215CBBECEC}");
    assert_eq!(find_guid(uri, "Missing="), "");
    assert_eq!(find_guid("VolumeId={abc", "VolumeId="), "");
}

#[test]
fn column_name_without_prefix() {
    assert_eq!(column_string_part("15F-System_DateModified"), "System_DateModified");
    assert_eq!(column_string_part("System_Size"), "System_Size");
    assert_eq!(column_string_part("4-a-b"), "a-b");
    assert_eq!(column_string_part(""), "");
}

#[test]
fn decimal_text() {
    assert_eq!(decimal_string(0), "0");
    assert_eq!(decimal_string(4096), "4096");
    assert_eq!(decimal_string(u64::MAX), "18446744073709551615");
}

#[test]
fn database_file_names() {
    assert!(is_valid_file("Windows.edb"));
    assert!(is_valid_file("windows.DB"));
    assert!(is_valid_file("S-1-5-21-1000.db"));
    assert!(!is_valid_file("Windows.txt"));
    assert!(!is_valid_file("Windows"));
    assert!(!is_valid_file("other.edb"));
    assert!(!is_valid_file(".edb"));
    assert!(!is_valid_file("Windows.edb.bak"));
}
