//! The fixed three-report layout (file, internet history, activity history)
//! over raw property values: which report a record belongs to, and the
//! fields that each report takes from it.
use vstd::prelude::*;
use crate::codec::{
    chars_of, column_part, column_string_part, contains_seq, contains_str, date_time_text,
    filetime_instant, find_guid, format_date_time, from_utf16, get_date_time_from_filetime,
    guid_after, le_u64, le_value, matches_at, utf16_result,
};
use crate::config::{copy_text, text_eq};
use crate::ese::{is_selected, EseColumnInfo, EseValue};
use crate::codec::{decode_le_int, le_int_result, FieldError};
use crate::engine::{replace_all, replace_from, row_view, CellValue, CellView};
use crate::props::{id_of_name, names_view};
use std::collections::HashMap;

verus! {

/// The three reports of the fixed layout.
#[derive(Clone, Copy, Debug, PartialEq, Eq, Structural)]
pub enum SidrReport {
    File,
    InternetHistory,
    ActivityHistory,
}

/// How a report renders a property.
#[derive(Clone, Copy, Debug, PartialEq, Eq, Structural)]
pub enum SidrField {
    Text,
    Date,
    Int,
    ContentUri,
}

/// The rendering of a property (named without its numeric prefix) in a report.
pub open spec fn sidr_field(report: SidrReport, p: Seq<char>) -> Option<SidrField> {
    match report {
        SidrReport::File => if p == "System_ItemPathDisplay"@ || p == "System_FileOwner"@
            || p == "System_Search_AutoSummary"@ || p == "System_ItemType"@ || p
            == "System_ComputerName"@ {
            Some(SidrField::Text)
        } else if p == "System_DateModified"@ || p == "System_DateCreated"@ || p
            == "System_DateAccessed"@ || p == "System_Search_GatherTime"@ {
            Some(SidrField::Date)
        } else if p == "System_Size"@ {
            Some(SidrField::Int)
        } else {
            None
        },
        SidrReport::InternetHistory => if p == "System_ItemUrl"@ || p == "System_Link_TargetUrl"@
            || p == "System_Title"@ || p == "System_ComputerName"@ {
            Some(SidrField::Text)
        } else if p == "System_DateModified"@ || p == "System_ItemDate"@ || p
            == "System_Search_GatherTime"@ || p == "System_Link_DateVisited"@ {
            Some(SidrField::Date)
        } else {
            None
        },
        SidrReport::ActivityHistory => if p == "System_ItemNameDisplay"@ || p == "System_ItemUrl"@
            || p == "System_Activity_AppDisplayName"@ || p == "System_ActivityHistory_AppId"@ || p
            == "System_Activity_DisplayText"@ || p == "System_ComputerName"@ {
            Some(SidrField::Text)
        } else if p == "System_ActivityHistory_StartTime"@ || p
            == "System_ActivityHistory_EndTime"@ {
            Some(SidrField::Date)
        } else if p == "System_Activity_ContentUri"@ {
            Some(SidrField::ContentUri)
        } else {
            None
        },
    }
}

fn any_of(p: &str, names: &[&str]) -> (r: bool)
    ensures
        r == exists|i: int| 0 <= i < names@.len() && names@[i]@ == p@,
{
    let mut i: usize = 0;
    while i < names.len()
        invariant
            i <= names@.len(),
            forall|k: int| 0 <= k < i ==> names@[k]@ != p@,
        decreases names@.len() - i,
    {
        if text_eq(names[i], p) {
            return true;
        }
        i = i + 1;
    }
    false
}

/// How a report renders the property `p`.
pub fn field_of(report: SidrReport, p: &str) -> (r: Option<SidrField>)
    ensures
        r == sidr_field(report, p@),
{
    match report {
        SidrReport::File => {
            let texts = [
                "System_ItemPathDisplay",
                "System_FileOwner",
                "System_Search_AutoSummary",
                "System_ItemType",
                "System_ComputerName",
            ];
            let dates = [
                "System_DateModified",
                "System_DateCreated",
                "System_DateAccessed",
                "System_Search_GatherTime",
            ];
            let t = any_of(p, &texts);
            let d = any_of(p, &dates);
            let s = text_eq(p, "System_Size");
            proof {
                assert(t == (p@ == "System_ItemPathDisplay"@ || p@ == "System_FileOwner"@ || p@
                    == "System_Search_AutoSummary"@ || p@ == "System_ItemType"@ || p@
                    == "System_ComputerName"@)) by {
                    if p@ == texts@[0]@ || p@ == texts@[1]@ || p@ == texts@[2]@ || p@ == texts@[3]@
                        || p@ == texts@[4]@ {
                    }
                }
                assert(d == (p@ == "System_DateModified"@ || p@ == "System_DateCreated"@ || p@
                    == "System_DateAccessed"@ || p@ == "System_Search_GatherTime"@)) by {
                    if p@ == dates@[0]@ || p@ == dates@[1]@ || p@ == dates@[2]@ || p@ == dates@[3]@ {
                    }
                }
            }
            if t {
                Some(SidrField::Text)
            } else if d {
                Some(SidrField::Date)
            } else if s {
                Some(SidrField::Int)
            } else {
                None
            }
        },
        SidrReport::InternetHistory => {
            let texts = ["System_ItemUrl", "System_Link_TargetUrl", "System_Title", "System_ComputerName"];
            let dates = [
                "System_DateModified",
                "System_ItemDate",
                "System_Search_GatherTime",
                "System_Link_DateVisited",
            ];
            let t = any_of(p, &texts);
            let d = any_of(p, &dates);
            proof {
                assert(t == (p@ == "System_ItemUrl"@ || p@ == "System_Link_TargetUrl"@ || p@
                    == "System_Title"@ || p@ == "System_ComputerName"@)) by {
                    if p@ == texts@[0]@ || p@ == texts@[1]@ || p@ == texts@[2]@ || p@ == texts@[3]@ {
                    }
                }
                assert(d == (p@ == "System_DateModified"@ || p@ == "System_ItemDate"@ || p@
                    == "System_Search_GatherTime"@ || p@ == "System_Link_DateVisited"@)) by {
                    if p@ == dates@[0]@ || p@ == dates@[1]@ || p@ == dates@[2]@ || p@ == dates@[3]@ {
                    }
                }
            }
            if t {
                Some(SidrField::Text)
            } else if d {
                Some(SidrField::Date)
            } else {
                None
            }
        },
        SidrReport::ActivityHistory => {
            let texts = [
                "System_ItemNameDisplay",
                "System_ItemUrl",
                "System_Activity_AppDisplayName",
                "System_ActivityHistory_AppId",
                "System_Activity_DisplayText",
                "System_ComputerName",
            ];
            let dates = ["System_ActivityHistory_StartTime", "System_ActivityHistory_EndTime"];
            let t = any_of(p, &texts);
            let d = any_of(p, &dates);
            let u = text_eq(p, "System_Activity_ContentUri");
            proof {
                assert(t == (p@ == "System_ItemNameDisplay"@ || p@ == "System_ItemUrl"@ || p@
                    == "System_Activity_AppDisplayName"@ || p@ == "System_ActivityHistory_AppId"@
                    || p@ == "System_Activity_DisplayText"@ || p@ == "System_ComputerName"@)) by {
                    if p@ == texts@[0]@ || p@ == texts@[1]@ || p@ == texts@[2]@ || p@ == texts@[3]@
                        || p@ == texts@[4]@ || p@ == texts@[5]@ {
                    }
                }
                assert(d == (p@ == "System_ActivityHistory_StartTime"@ || p@
                    == "System_ActivityHistory_EndTime"@)) by {
                    if p@ == dates@[0]@ || p@ == dates@[1]@ {
                    }
                }
            }
            if t {
                Some(SidrField::Text)
            } else if d {
                Some(SidrField::Date)
            } else if u {
                Some(SidrField::ContentUri)
            } else {
                None
            }
        },
    }
}


/// The view of a raw record: each column's full name and its bytes.
pub open spec fn raw_view(h: Seq<(String, Vec<u8>)>) -> Seq<(Seq<char>, Seq<u8>)> {
    h.map_values(|e: (String, Vec<u8>)| (e.0@, e.1@))
}

/// The cells that a report takes from one column: nothing for a column it
/// does not show; a decoding failure when its value is not valid UTF-16LE
/// text, or not the 8 bytes of a date or size.
pub open spec fn field_cells(report: SidrReport, col: Seq<char>, b: Seq<u8>) -> Result<Seq<(Seq<char>, CellView)>, FieldError> {
    let p = column_part(col);
    match sidr_field(report, p) {
        None => Ok(Seq::empty()),
        Some(SidrField::Text) => match utf16_result(b) {
            Ok(s) => Ok(seq![(p, CellView::Str(s))]),
            Err(e) => Err(e),
        },
        Some(SidrField::Date) => if b.len() == 8 {
            Ok(seq![(p, CellView::Str(date_time_text(filetime_instant(le_value(b) as u64))))])
        } else {
            Err(FieldError::WidthMismatch { expected: 8, found: b.len() as usize })
        },
        Some(SidrField::Int) => if b.len() == 8 {
            Ok(seq![(p, CellView::Int(le_value(b) as u64 as i64))])
        } else {
            Err(FieldError::WidthMismatch { expected: 8, found: b.len() as usize })
        },
        Some(SidrField::ContentUri) => match utf16_result(b) {
            Ok(v) => Ok(
                seq![
                    ("VolumeId"@, CellView::Str(guid_after(v, "VolumeId="@))),
                    ("ObjectId"@, CellView::Str(guid_after(v, "ObjectId="@))),
                    (p, CellView::Str(v)),
                ],
            ),
            Err(e) => Err(e),
        },
    }
}

/// The cells that a report takes from the first `n` columns of a record, or
/// the first decoding failure.
pub open spec fn record_cells(report: SidrReport, h: Seq<(Seq<char>, Seq<u8>)>, n: int) -> Result<Seq<(Seq<char>, CellView)>, FieldError>
    decreases n,
{
    if n <= 0 {
        Ok(Seq::empty())
    } else {
        match record_cells(report, h, n - 1) {
            Err(e) => Err(e),
            Ok(prev) => match field_cells(report, h[n - 1].0, h[n - 1].1) {
                Err(e) => Err(e),
                Ok(c) => Ok(prev + c),
            },
        }
    }
}

proof fn lemma_record_cells_err_stays(report: SidrReport, h: Seq<(Seq<char>, Seq<u8>)>, k: int, m: int)
    requires
        0 <= k <= m,
        record_cells(report, h, k) is Err,
    ensures
        record_cells(report, h, m) == record_cells(report, h, k),
    decreases m - k,
{
    if m > k {
        lemma_record_cells_err_stays(report, h, k, m - 1);
    }
}

/// The row of a record: the WorkId cell followed by its cells.
pub open spec fn sidr_row_of(report: SidrReport, work_id: u32, h: Seq<(Seq<char>, Seq<u8>)>) -> Result<Seq<(Seq<char>, CellView)>, FieldError> {
    match record_cells(report, h, h.len() as int) {
        Ok(c) => Ok(seq![("WorkId"@, CellView::Int(work_id as i64))] + c),
        Err(e) => Err(e),
    }
}

/// The view of a row result.
pub open spec fn row_result(r: Result<Vec<(String, CellValue)>, FieldError>) -> Result<Seq<(Seq<char>, CellView)>, FieldError> {
    match r {
        Ok(row) => Ok(row_view(row@)),
        Err(e) => Err(e),
    }
}

proof fn lemma_filetime_formattable(ft: u64)
    ensures
        crate::codec::formattable(filetime_instant(ft)),
{
    assert(ft / 10_000_000 <= 1844674407370) by (nonlinear_arith)
        requires ft <= u64::MAX;
    assert((ft % 10_000_000) * 100 < 1_000_000_000) by (nonlinear_arith);
}

fn push_cells(out: &mut Vec<(String, CellValue)>, report: SidrReport, col: &str, b: &Vec<u8>) -> (r: Result<(), FieldError>)
    ensures
        match field_cells(report, col@, b@) {
            Ok(c) => r is Ok && row_view(final(out)@) == row_view(old(out)@) + c,
            Err(e) => r == Err::<(), FieldError>(e),
        },
{
    let p = column_string_part(col);
    let ghost before = out@;
    match field_of(report, p) {
        None => {
            assert(row_view(out@) =~= row_view(before) + Seq::<(Seq<char>, CellView)>::empty());
            Ok(())
        },
        Some(SidrField::Text) => match from_utf16(b.as_slice()) {
            Ok(s) => {
                let c = CellValue::Str(s);
                out.push((p.to_string(), c));
                assert(row_view(out@) =~= row_view(before) + field_cells(report, col@, b@)->Ok_0);
                Ok(())
            },
            Err(e) => Err(e),
        },
        Some(SidrField::Date) => {
            if b.len() != 8 {
                return Err(FieldError::WidthMismatch { expected: 8, found: b.len() });
            }
            let ft = le_u64(b.as_slice());
            proof {
                lemma_filetime_formattable(ft);
            }
            let t = get_date_time_from_filetime(ft);
            let c = CellValue::Str(format_date_time(&t));
            out.push((p.to_string(), c));
            assert(row_view(out@) =~= row_view(before) + field_cells(report, col@, b@)->Ok_0);
            Ok(())
        },
        Some(SidrField::Int) => {
            if b.len() != 8 {
                return Err(FieldError::WidthMismatch { expected: 8, found: b.len() });
            }
            let v = le_u64(b.as_slice());
            let c = CellValue::Int(v as i64);
            out.push((p.to_string(), c));
            assert(row_view(out@) =~= row_view(before) + field_cells(report, col@, b@)->Ok_0);
            Ok(())
        },
        Some(SidrField::ContentUri) => match from_utf16(b.as_slice()) {
            Ok(v) => {
                let vk = "VolumeId";
                let ok = "ObjectId";
                let vol = find_guid(v.as_str(), "VolumeId=");
                let obj = find_guid(v.as_str(), "ObjectId=");
                out.push((vk.to_string(), CellValue::Str(vol)));
                out.push((ok.to_string(), CellValue::Str(obj)));
                out.push((p.to_string(), CellValue::Str(v)));
                assert(row_view(out@) =~= row_view(before) + field_cells(report, col@, b@)->Ok_0);
                Ok(())
            },
            Err(e) => Err(e),
        },
    }
}

/// The row a report makes of a record: the WorkId, then the cells of each
/// column in the record's order; the first decoding failure stops it.
pub fn sidr_row(report: SidrReport, work_id: u32, h: &Vec<(String, Vec<u8>)>) -> (r: Result<Vec<(String, CellValue)>, FieldError>)
    ensures
        row_result(r) == sidr_row_of(report, work_id, raw_view(h@)),
{
    let mut out: Vec<(String, CellValue)> = Vec::new();
    out.push(("WorkId".to_string(), CellValue::Int(work_id as i64)));
    let mut i: usize = 0;
    proof {
        assert(row_view(out@) =~= seq![("WorkId"@, CellView::Int(work_id as i64))] + Seq::<(Seq<char>, CellView)>::empty());
    }
    while i < h.len()
        invariant
            i <= h@.len(),
            record_cells(report, raw_view(h@), i as int) matches Ok(c) && row_view(out@) == seq![("WorkId"@, CellView::Int(work_id as i64))] + c,
        decreases h@.len() - i,
    {
        let ghost prev = record_cells(report, raw_view(h@), i as int)->Ok_0;
        proof {
            assert(raw_view(h@)[i as int] == (h@[i as int].0@, h@[i as int].1@));
        }
        match push_cells(&mut out, report, h[i].0.as_str(), &h[i].1) {
            Err(e) => {
                proof {
                    lemma_record_cells_err_stays(report, raw_view(h@), i + 1, h@.len() as int);
                }
                return Err(e);
            },
            Ok(()) => {},
        }
        proof {
            let c = field_cells(report, h@[i as int].0@, h@[i as int].1@)->Ok_0;
            assert(record_cells(report, raw_view(h@), i + 1) == Ok::<Seq<(Seq<char>, CellView)>, FieldError>(prev + c));
            assert(row_view(out@) =~= seq![("WorkId"@, CellView::Int(work_id as i64))] + (prev + c));
        }
        i = i + 1;
    }
    Ok(out)
}

/// The value of the first column named exactly `name`.
pub open spec fn raw_value(h: Seq<(Seq<char>, Seq<u8>)>, name: Seq<char>, i: int) -> Option<Seq<u8>>
    decreases h.len() - i,
{
    if i < 0 || i >= h.len() {
        None
    } else if h[i].0 == name {
        Some(h[i].1)
    } else {
        raw_value(h, name, i + 1)
    }
}

fn find_raw<'a>(h: &'a Vec<(String, Vec<u8>)>, name: &str) -> (r: Option<&'a Vec<u8>>)
    ensures
        match r {
            Some(b) => raw_value(raw_view(h@), name@, 0) == Some(b@),
            None => raw_value(raw_view(h@), name@, 0) is None,
        },
{
    let mut i: usize = 0;
    while i < h.len()
        invariant
            i <= h@.len(),
            raw_value(raw_view(h@), name@, 0) == raw_value(raw_view(h@), name@, i as int),
        decreases h@.len() - i,
    {
        if text_eq(h[i].0.as_str(), name) {
            return Some(&h[i].1);
        }
        i = i + 1;
    }
    None
}

/// Whether a URL is one of a browser history entry.
pub open spec fn is_history_url(v: Seq<char>) -> bool {
    matches_at(v, "iehistory://"@, 0) || (matches_at(v, "winrt://"@, 0) && contains_seq(
        v,
        "/LS/Desktop/Microsoft Edge/stable/Default/"@,
    ))
}

/// Whether `s` starts with `p`.
pub fn starts_with_text(s: &str, p: &str) -> (r: bool)
    ensures
        r == matches_at(s@, p@, 0),
{
    let sv = chars_of(s);
    let pv = chars_of(p);
    if pv.len() > sv.len() {
        return false;
    }
    let mut i: usize = 0;
    while i < pv.len()
        invariant
            sv@ == s@,
            pv@ == p@,
            pv@.len() <= sv@.len(),
            i <= pv@.len(),
            forall|k: int| 0 <= k < i ==> sv@[k] == pv@[k],
        decreases pv@.len() - i,
    {
        if sv[i] != pv[i] {
            proof {
                assert(s@.subrange(0, p@.len() as int)[i as int] != p@[i as int]);
            }
            return false;
        }
        i = i + 1;
    }
    proof {
        assert(s@.subrange(0, p@.len() as int) =~= p@);
    }
    true
}

/// Whether a record is a browser history entry: its item URL decodes to a
/// history URL; a URL that is not valid text is a decoding failure.
pub open spec fn ie_status(h: Seq<(Seq<char>, Seq<u8>)>) -> Result<bool, FieldError> {
    match raw_value(h, "33-System_ItemUrl"@, 0) {
        None => Ok(false),
        Some(b) => match utf16_result(b) {
            Ok(v) => Ok(is_history_url(v)),
            Err(e) => Err(e),
        },
    }
}

/// Whether a record is an activity-history entry; an item type that is not
/// valid text is a decoding failure.
pub open spec fn activity_status(h: Seq<(Seq<char>, Seq<u8>)>) -> Result<bool, FieldError> {
    match raw_value(h, "4450-System_ItemType"@, 0) {
        None => Ok(false),
        Some(b) => match utf16_result(b) {
            Ok(v) => Ok(v == "ActivityHistoryItem"@),
            Err(e) => Err(e),
        },
    }
}

/// The view of an optional row result.
pub open spec fn opt_row_result(r: Result<Option<Vec<(String, CellValue)>>, FieldError>) -> Result<Option<Seq<(Seq<char>, CellView)>>, FieldError> {
    match r {
        Ok(Some(row)) => Ok(Some(row_view(row@))),
        Ok(None) => Ok(None),
        Err(e) => Err(e),
    }
}

/// The row of a record for a report that takes it when `status` holds.
pub open spec fn row_if(status: Result<bool, FieldError>, report: SidrReport, work_id: u32, h: Seq<(Seq<char>, Seq<u8>)>) -> Result<Option<Seq<(Seq<char>, CellView)>>, FieldError> {
    match status {
        Err(e) => Err(e),
        Ok(false) => Ok(None),
        Ok(true) => match sidr_row_of(report, work_id, h) {
            Ok(row) => Ok(Some(row)),
            Err(e) => Err(e),
        },
    }
}

/// The internet-history row of a record, if it is a browser history entry.
pub fn ese_IE_history_record(work_id: u32, h: &Vec<(String, Vec<u8>)>) -> (r: Result<Option<Vec<(String, CellValue)>>, FieldError>)
    ensures
        opt_row_result(r) == row_if(ie_status(raw_view(h@)), SidrReport::InternetHistory, work_id, raw_view(h@)),
{
    let b = match find_raw(h, "33-System_ItemUrl") {
        None => {
            return Ok(None);
        },
        Some(b) => b,
    };
    let v = match from_utf16(b.as_slice()) {
        Err(e) => {
            return Err(e);
        },
        Ok(v) => v,
    };
    let history = starts_with_text(v.as_str(), "iehistory://") || (starts_with_text(
        v.as_str(),
        "winrt://",
    ) && contains_str(v.as_str(), "/LS/Desktop/Microsoft Edge/stable/Default/"));
    if !history {
        return Ok(None);
    }
    match sidr_row(SidrReport::InternetHistory, work_id, h) {
        Ok(row) => Ok(Some(row)),
        Err(e) => Err(e),
    }
}

/// The activity-history row of a record, if its item type says it is one.
pub fn ese_activity_history_record(work_id: u32, h: &Vec<(String, Vec<u8>)>) -> (r: Result<Option<Vec<(String, CellValue)>>, FieldError>)
    ensures
        opt_row_result(r) == row_if(activity_status(raw_view(h@)), SidrReport::ActivityHistory, work_id, raw_view(h@)),
{
    let b = match find_raw(h, "4450-System_ItemType") {
        None => {
            return Ok(None);
        },
        Some(b) => b,
    };
    let v = match from_utf16(b.as_slice()) {
        Err(e) => {
            return Err(e);
        },
        Ok(v) => v,
    };
    if !text_eq(v.as_str(), "ActivityHistoryItem") {
        return Ok(None);
    }
    match sidr_row(SidrReport::ActivityHistory, work_id, h) {
        Ok(row) => Ok(Some(row)),
        Err(e) => Err(e),
    }
}

/// The file row of a record.
pub fn ese_dump_file_record(work_id: u32, h: &Vec<(String, Vec<u8>)>) -> (r: Result<Vec<(String, CellValue)>, FieldError>)
    ensures
        row_result(r) == sidr_row_of(SidrReport::File, work_id, raw_view(h@)),
{
    sidr_row(SidrReport::File, work_id, h)
}

/// The rows a record gives: its internet-history and activity-history rows
/// when it is such an entry, and its file row when it is neither; the first
/// decoding failure stops it.
pub fn classify_record(work_id: u32, h: &Vec<(String, Vec<u8>)>) -> (r: Result<(
    Option<Vec<(String, CellValue)>>,
    Option<Vec<(String, CellValue)>>,
    Option<Vec<(String, CellValue)>>,
), FieldError>)
    ensures
        ({
            let hv = raw_view(h@);
            let ie = row_if(ie_status(hv), SidrReport::InternetHistory, work_id, hv);
            let act = row_if(activity_status(hv), SidrReport::ActivityHistory, work_id, hv);
            let file = row_if(
                match (ie, act) {
                    (Ok(None), Ok(None)) => Ok(true),
                    _ => Ok(false),
                },
                SidrReport::File,
                work_id,
                hv,
            );
            match r {
                Ok((f, i, a)) => ie == opt_row_result(Ok(i)) && act == opt_row_result(Ok(a)) && file
                    == opt_row_result(Ok(f)),
                Err(e) => ie == Err::<Option<Seq<(Seq<char>, CellView)>>, FieldError>(e) || (ie is Ok
                    && act == Err::<Option<Seq<(Seq<char>, CellView)>>, FieldError>(e)) || (ie is Ok
                    && act is Ok && file == Err::<Option<Seq<(Seq<char>, CellView)>>, FieldError>(e)),
            }
        }),
{
    let ie = ese_IE_history_record(work_id, h)?;
    let act = ese_activity_history_record(work_id, h)?;
    let file = if ie.is_none() && act.is_none() {
        Some(ese_dump_file_record(work_id, h)?)
    } else {
        None
    };
    Ok((file, ie, act))
}

broadcast use vstd::std_specs::hash::group_hash_axioms;

/// What `String::from_utf8_lossy` makes of bytes.
pub uninterp spec fn utf8_lossy_of(b: Seq<u8>) -> Seq<char>;

/// Relies on `String::from_utf8_lossy`: the text of the bytes, with invalid
/// sequences replaced; it depends on the bytes alone.
#[verifier::external_body]
fn utf8_lossy(b: &[u8]) -> (r: String)
    ensures
        r@ == utf8_lossy_of(b@),
{
    String::from_utf8_lossy(b).into_owned()
}

/// The view of a SQLite record: property id and raw value.
pub open spec fn sql_raw_view(h: Seq<(i64, Vec<u8>)>) -> Seq<(i64, Seq<u8>)> {
    h.map_values(|e: (i64, Vec<u8>)| (e.0, e.1@))
}

/// The value of the first entry with property id `id`.
pub open spec fn sql_raw_value(h: Seq<(i64, Seq<u8>)>, id: i64, i: int) -> Option<Seq<u8>>
    decreases h.len() - i,
{
    if i < 0 || i >= h.len() {
        None
    } else if h[i].0 == id {
        Some(h[i].1)
    } else {
        sql_raw_value(h, id, i + 1)
    }
}

fn find_sql_raw<'a>(h: &'a Vec<(i64, Vec<u8>)>, id: i64) -> (r: Option<&'a Vec<u8>>)
    ensures
        match r {
            Some(b) => sql_raw_value(sql_raw_view(h@), id, 0) == Some(b@),
            None => sql_raw_value(sql_raw_view(h@), id, 0) is None,
        },
{
    let mut i: usize = 0;
    while i < h.len()
        invariant
            i <= h@.len(),
            sql_raw_value(sql_raw_view(h@), id, 0) == sql_raw_value(sql_raw_view(h@), id, i as int),
        decreases h@.len() - i,
    {
        if h[i].0 == id {
            return Some(&h[i].1);
        }
        i = i + 1;
    }
    None
}

fn name_id(names: &Vec<(String, i64)>, name: &str) -> (r: Option<i64>)
    ensures
        r is Some ==> exists|i: int| 0 <= i < names@.len() && names@[i].0@ == name@ && names@[i].1 == r->0,
        r is None ==> id_of_name(names_view(names@), name@) is None,
        r is Some && crate::props::names_unique(names_view(names@)) ==> id_of_name(names_view(names@), name@) == r,
{
    let mut i: usize = 0;
    while i < names.len()
        invariant
            i <= names@.len(),
            forall|k: int| 0 <= k < i ==> names@[k].0@ != name@,
        decreases names@.len() - i,
    {
        if text_eq(names[i].0.as_str(), name) {
            proof {
                let v = names_view(names@);
                assert(v[i as int].0 == name@);
                if crate::props::names_unique(v) {
                    let k = choose|k: int| 0 <= k < v.len() && v[k].0 == name@;
                    assert(k == i);
                }
            }
            return Some(names[i].1);
        }
        i = i + 1;
    }
    proof {
        let v = names_view(names@);
        assert forall|k: int| 0 <= k < v.len() implies v[k].0 != name@ by {
            assert(v[k].0 == names@[k].0@);
        }
    }
    None
}

/// Whether a SQLite record's property `name` holds text (read as UTF-8)
/// that satisfies `test`.
pub open spec fn sql_text_of(h: Seq<(i64, Seq<u8>)>, names: Seq<(Seq<char>, i64)>, name: Seq<char>) -> Option<Seq<char>> {
    match id_of_name(names, name) {
        Some(id) => match sql_raw_value(h, id, 0) {
            Some(b) => Some(utf8_lossy_of(b)),
            None => None,
        },
        None => None,
    }
}

/// Whether a SQLite record is an internet-history entry: its target URL
/// starts with `http`.
pub fn is_internet_record(record: &Vec<(i64, Vec<u8>)>, prop_name_to_id: &Vec<(String, i64)>) -> (r: bool)
    requires
        crate::props::names_unique(names_view(prop_name_to_id@)),
    ensures
        r == (sql_text_of(sql_raw_view(record@), names_view(prop_name_to_id@), "System.Link.TargetUrl"@) matches Some(t)
            && matches_at(t, "http"@, 0)),
{
    let id = match name_id(prop_name_to_id, "System.Link.TargetUrl") {
        None => {
            return false;
        },
        Some(id) => id,
    };
    let b = match find_sql_raw(record, id) {
        None => {
            return false;
        },
        Some(b) => b,
    };
    let t = utf8_lossy(b.as_slice());
    starts_with_text(t.as_str(), "http")
}

/// Whether a SQLite record is an activity-history entry.
pub fn is_activity_history_record(record: &Vec<(i64, Vec<u8>)>, prop_name_to_id: &Vec<(String, i64)>) -> (r: bool)
    requires
        crate::props::names_unique(names_view(prop_name_to_id@)),
    ensures
        r == (sql_text_of(sql_raw_view(record@), names_view(prop_name_to_id@), "System.ItemType"@) == Some(
            "ActivityHistoryItem"@,
        )),
{
    let id = match name_id(prop_name_to_id, "System.ItemType") {
        None => {
            return false;
        },
        Some(id) => id,
    };
    let b = match find_sql_raw(record, id) {
        None => {
            return false;
        },
        Some(b) => b,
    };
    let t = utf8_lossy(b.as_slice());
    text_eq(t.as_str(), "ActivityHistoryItem")
}

/// The cells of one SQLite property: text for storage type 11; for storage
/// type 12, a date when the name mentions a date or time and an integer
/// otherwise. The property's dots become underscores.
pub open spec fn sql_property_cells(name: Seq<char>, storage_type: i64, b: Seq<u8>) -> Seq<(Seq<char>, CellView)> {
    let p = replace_from(name, "."@, "_"@, 0);
    if storage_type == 11 {
        seq![(p, CellView::Str(utf8_lossy_of(b)))]
    } else if storage_type == 12 && b.len() == 8 {
        if contains_seq(p, "Date"@) || contains_seq(p, "Time"@) {
            seq![(p, CellView::Str(date_time_text(filetime_instant(le_value(b) as u64))))]
        } else {
            seq![(p, CellView::Int(le_value(b) as u64 as i64))]
        }
    } else {
        Seq::empty()
    }
}

/// The cells of the first `n` properties of a record.
pub open spec fn sql_record_cells(h: Seq<(i64, Seq<u8>)>, props: Map<i64, (String, i64)>, n: int) -> Seq<(Seq<char>, CellView)>
    decreases n,
{
    if n <= 0 {
        Seq::empty()
    } else {
        sql_record_cells(h, props, n - 1) + if props.contains_key(h[n - 1].0) {
            sql_property_cells(props[h[n - 1].0].0@, props[h[n - 1].0].1, h[n - 1].1)
        } else {
            Seq::empty()
        }
    }
}

/// The row of a SQLite record: the WorkId, then the cells of each property
/// that the catalog knows, in ascending property id; a later value of a
/// property replaces an earlier one.
pub fn write_record_to_report(
    record: &Vec<(i64, Vec<u8>)>,
    work_id: u32,
    id_to_prop: &HashMap<i64, (String, i64)>,
) -> (r: Vec<(String, CellValue)>)
    ensures
        exists|rec: Seq<(i64, Seq<u8>)>| #[trigger] sorted_form(sql_raw_view(record@), rec)
            && row_view(r@) == seq![("WorkId"@, CellView::Int(work_id as i64))] + sql_record_cells(
            rec,
            id_to_prop@,
            rec.len() as int,
        ),
        sorted_ids(sql_raw_view(record@)) ==> row_view(r@) == seq![("WorkId"@, CellView::Int(work_id as i64))]
            + sql_record_cells(sql_raw_view(record@), id_to_prop@, record@.len() as int),
{
    let sorted = sort_record(record);
    let r = record_row(&sorted, work_id, id_to_prop);
    proof {
        assert(sorted_form(sql_raw_view(record@), sql_raw_view(sorted@)));
    }
    r
}

/// The last value of property `id` among the first `n` entries of a record.
pub open spec fn last_in(rec: Seq<(i64, Seq<u8>)>, id: i64, n: int) -> Option<Seq<u8>>
    decreases n,
{
    if n <= 0 {
        None
    } else if rec[n - 1].0 == id {
        Some(rec[n - 1].1)
    } else {
        last_in(rec, id, n - 1)
    }
}

/// Whether `out` holds the properties of `rec` in ascending id order, each
/// with its last value in `rec`.
pub open spec fn sorted_form(rec: Seq<(i64, Seq<u8>)>, out: Seq<(i64, Seq<u8>)>) -> bool {
    &&& sorted_ids(out)
    &&& forall|k: int| 0 <= k < out.len() ==> last_in(rec, (#[trigger] out[k]).0, rec.len() as int) == Some(out[k].1)
    &&& forall|x: i64| #[trigger] last_in(rec, x, rec.len() as int) is Some ==> exists|k: int| 0 <= k < out.len() && out[k].0 == x
}

/// Whether `out` holds, in ascending id order, the properties of the first
/// `j` entries of `rv`, each with its last value there.
pub open spec fn sort_progress(rv: Seq<(i64, Seq<u8>)>, j: int, out: Seq<(i64, Seq<u8>)>) -> bool {
    &&& sorted_ids(out)
    &&& forall|k: int| 0 <= k < out.len() ==> last_in(rv, (#[trigger] out[k]).0, j) == Some(out[k].1)
    &&& forall|x: i64| #[trigger] last_in(rv, x, j) is Some ==> exists|k: int| 0 <= k < out.len() && out[k].0 == x
}

proof fn lemma_sort_step(rv: Seq<(i64, Seq<u8>)>, j: int, before: Seq<(i64, Seq<u8>)>, f: Seq<(i64, Seq<u8>)>)
    requires
        0 <= j < rv.len(),
        sort_progress(rv, j, before),
        upserted(before, f, rv[j].0, rv[j].1),
    ensures
        sort_progress(rv, j + 1, f),
{
    let id = rv[j].0;
    assert forall|k: int| 0 <= k < f.len() implies last_in(rv, (#[trigger] f[k]).0, j + 1) == Some(f[k].1) by {
        if f[k].0 != id {
            let jj = choose|jj: int| 0 <= jj < before.len() && before[jj] == f[k];
            assert(last_in(rv, before[jj].0, j) == Some(before[jj].1));
        }
    }
    assert forall|x: i64| #[trigger] last_in(rv, x, j + 1) is Some implies exists|k: int|
        0 <= k < f.len() && f[k].0 == x by {
        if x != id {
            assert(last_in(rv, x, j) is Some);
            let jj = choose|jj: int| 0 <= jj < before.len() && before[jj].0 == x;
            assert(before[jj].0 != id);
        }
    }
}

/// A record's properties in ascending id order, later values replacing
/// earlier ones.
fn sort_record(record: &Vec<(i64, Vec<u8>)>) -> (r: Vec<(i64, Vec<u8>)>)
    ensures
        sorted_form(sql_raw_view(record@), sql_raw_view(r@)),
        sorted_ids(sql_raw_view(record@)) ==> sql_raw_view(r@) == sql_raw_view(record@),
{
    let ghost rv = sql_raw_view(record@);
    let mut out: Vec<(i64, Vec<u8>)> = Vec::new();
    let mut j: usize = 0;
    proof {
        assert(sql_raw_view(out@) =~= rv.subrange(0, 0));
    }
    while j < record.len()
        invariant
            j <= record@.len(),
            rv == sql_raw_view(record@),
            sort_progress(rv, j as int, sql_raw_view(out@)),
            sorted_ids(rv) ==> sql_raw_view(out@) == rv.subrange(0, j as int),
        decreases record@.len() - j,
    {
        let ghost before = sql_raw_view(out@);
        let id = record[j].0;
        let v = copy_bytes(&record[j].1);
        proof {
            assert(rv[j as int] == (id, v@));
            if sorted_ids(rv) {
                assert forall|k: int| 0 <= k < before.len() implies (#[trigger] before[k]).0 < id by {
                    assert(before[k] == rv[k]);
                }
            }
        }
        upsert_sorted(&mut out, id, v);
        proof {
            lemma_sort_step(rv, j as int, before, sql_raw_view(out@));
            if sorted_ids(rv) {
                assert(sql_raw_view(out@) =~= rv.subrange(0, j + 1));
            }
        }
        j = j + 1;
    }
    proof {
        assert(rv.subrange(0, rv.len() as int) =~= rv);
    }
    out
}

/// The row of a record: the WorkId, then the cells of each property that the
/// catalog knows, in the record's order.
fn record_row(
    record: &Vec<(i64, Vec<u8>)>,
    work_id: u32,
    id_to_prop: &HashMap<i64, (String, i64)>,
) -> (r: Vec<(String, CellValue)>)
    ensures
        row_view(r@) == seq![("WorkId"@, CellView::Int(work_id as i64))] + sql_record_cells(
            sql_raw_view(record@),
            id_to_prop@,
            record@.len() as int,
        ),
{
    let mut out: Vec<(String, CellValue)> = Vec::new();
    out.push(("WorkId".to_string(), CellValue::Int(work_id as i64)));
    proof {
        reveal_strlit(".");
        assert(row_view(out@) =~= seq![("WorkId"@, CellView::Int(work_id as i64))] + sql_record_cells(
            sql_raw_view(record@),
            id_to_prop@,
            0,
        ));
    }
    let mut i: usize = 0;
    while i < record.len()
        invariant
            i <= record@.len(),
            "."@.len() > 0,
            row_view(out@) == seq![("WorkId"@, CellView::Int(work_id as i64))] + sql_record_cells(
                sql_raw_view(record@),
                id_to_prop@,
                i as int,
            ),
        decreases record@.len() - i,
    {
        let (col, val) = (record[i].0, &record[i].1);
        let ghost before = out@;
        match id_to_prop.get(&col) {
            Some(prop) => {
                proof {
                    assert(id_to_prop@.contains_key(col));
                    assert(id_to_prop@[col] == *prop);
                }
                let p = replace_all(prop.0.as_str(), ".", "_");
                if prop.1 == 11 {
                    let t = utf8_lossy(val.as_slice());
                    out.push((p, CellValue::Str(t)));
                } else if prop.1 == 12 && val.len() == 8 {
                    let ft = le_u64(val.as_slice());
                    if contains_str(p.as_str(), "Date") || contains_str(p.as_str(), "Time") {
                        proof {
                            lemma_filetime_formattable(ft);
                        }
                        let t = get_date_time_from_filetime(ft);
                        let d = format_date_time(&t);
                        out.push((p, CellValue::Str(d)));
                    } else {
                        out.push((p, CellValue::Int(ft as i64)));
                    }
                }
                proof {
                    assert(row_view(out@) =~= row_view(before) + sql_property_cells(prop.0@, prop.1, val@));
                }
            },
            None => {
                proof {
                    assert(!id_to_prop@.contains_key(col));
                    assert(row_view(out@) =~= row_view(before));
                }
            },
        }
        proof {
            assert(sql_raw_view(record@)[i as int] == (col, val@));
            assert(row_view(out@) =~= seq![("WorkId"@, CellView::Int(work_id as i64))]
                + sql_record_cells(sql_raw_view(record@), id_to_prop@, i + 1));
        }
        i = i + 1;
    }
    out
}

/// The columns of an ESE row that the fixed reports read, among the first
/// `n` catalog columns: each selected column with a value, but the WorkID.
pub open spec fn ese_entries(
    cat: Seq<EseColumnInfo>,
    sel: Seq<Seq<char>>,
    row: Seq<Option<EseValue>>,
    n: int,
) -> Seq<(Seq<char>, Seq<u8>)>
    decreases n,
{
    if n <= 0 {
        Seq::empty()
    } else {
        let prev = ese_entries(cat, sel, row, n - 1);
        if is_selected(cat[n - 1], sel) && row[n - 1] is Some && cat[n - 1].name@ != "WorkID"@ {
            prev.push((cat[n - 1].name@, row[n - 1]->0.bytes@))
        } else {
            prev
        }
    }
}

/// The WorkID of an ESE row, read as a 4-byte integer from its last
/// readable selected `WorkID` column among the first `n`; zero when none.
pub open spec fn ese_work_id(
    cat: Seq<EseColumnInfo>,
    sel: Seq<Seq<char>>,
    row: Seq<Option<EseValue>>,
    n: int,
) -> u32
    decreases n,
{
    if n <= 0 {
        0
    } else if is_selected(cat[n - 1], sel) && cat[n - 1].name@ == "WorkID"@ && row[n - 1] is Some
        && le_int_result(row[n - 1]->0.bytes@, 4) is Ok {
        le_int_result(row[n - 1]->0.bytes@, 4)->Ok_0 as u32
    } else {
        ese_work_id(cat, sel, row, n - 1)
    }
}

fn selected_exec(c: &EseColumnInfo, sel_cols: &Vec<&str>) -> (r: bool)
    ensures
        r == is_selected(*c, sel_cols@.map_values(|s: &str| s@)),
{
    let ghost sel = sel_cols@.map_values(|s: &str| s@);
    let part = column_string_part(c.name.as_str());
    let mut j: usize = 0;
    while j < sel_cols.len()
        invariant
            j <= sel_cols@.len(),
            sel == sel_cols@.map_values(|s: &str| s@),
            part@ == column_part(c.name@),
            forall|k: int| 0 <= k < j ==> sel[k] != part@,
        decreases sel_cols@.len() - j,
    {
        proof {
            assert(sel[j as int] == sel_cols@[j as int]@);
        }
        if text_eq(sel_cols[j], part) {
            return true;
        }
        j = j + 1;
    }
    false
}

/// The WorkID and the selected values of one ESE row, for the fixed reports.
pub fn ese_row_record(
    cat: &Vec<EseColumnInfo>,
    sel_cols: &Vec<&str>,
    row: &Vec<Option<EseValue>>,
) -> (r: (u32, Vec<(String, Vec<u8>)>))
    requires
        row@.len() == cat@.len(),
    ensures
        r.0 == ese_work_id(cat@, sel_cols@.map_values(|s: &str| s@), row@, cat@.len() as int),
        raw_view(r.1@) == ese_entries(cat@, sel_cols@.map_values(|s: &str| s@), row@, cat@.len() as int),
{
    let ghost sel = sel_cols@.map_values(|s: &str| s@);
    let mut work_id: u32 = 0;
    let mut h: Vec<(String, Vec<u8>)> = Vec::new();
    let mut k: usize = 0;
    proof {
        assert(raw_view(h@) =~= ese_entries(cat@, sel, row@, 0));
    }
    while k < cat.len()
        invariant
            k <= cat@.len(),
            row@.len() == cat@.len(),
            sel == sel_cols@.map_values(|s: &str| s@),
            work_id == ese_work_id(cat@, sel, row@, k as int),
            raw_view(h@) == ese_entries(cat@, sel, row@, k as int),
        decreases cat@.len() - k,
    {
        let c = &cat[k];
        let ghost before = h@;
        proof {
            reveal_strlit("WorkID");
        }
        if selected_exec(c, sel_cols) {
            match &row[k] {
                Some(v) => {
                    if text_eq(c.name.as_str(), "WorkID") {
                        match decode_le_int(v.bytes.as_slice(), 4) {
                            Ok(w) => {
                                work_id = w as u32;
                            },
                            Err(_) => {},
                        }
                    } else {
                        let name = copy_text(&c.name);
                        let bytes = copy_bytes(&v.bytes);
                        h.push((name, bytes));
                        proof {
                            assert(raw_view(h@) =~= raw_view(before).push((c.name@, v.bytes@)));
                        }
                    }
                },
                None => {},
            }
        }
        proof {
            assert(raw_view(h@) =~= ese_entries(cat@, sel, row@, k + 1));
        }
        k = k + 1;
    }
    (work_id, h)
}

fn copy_bytes(b: &Vec<u8>) -> (r: Vec<u8>)
    ensures
        r@ == b@,
{
    let mut out: Vec<u8> = Vec::new();
    let mut i: usize = 0;
    while i < b.len()
        invariant
            i <= b@.len(),
            out@ == b@.subrange(0, i as int),
        decreases b@.len() - i,
    {
        out.push(b[i]);
        i = i + 1;
        proof {
            assert(out@ =~= b@.subrange(0, i as int));
        }
    }
    proof {
        assert(b@.subrange(0, b@.len() as int) =~= b@);
    }
    out
}

/// The view of the physical SQLite rows: WorkId, property id, value.
pub open spec fn rows_view(rows: Seq<(i64, i64, Vec<u8>)>) -> Seq<(i64, i64, Seq<u8>)> {
    rows.map_values(|e: (i64, i64, Vec<u8>)| (e.0, e.1, e.2@))
}

/// The first index at or after `j` whose row has another WorkId than `w`.
pub open spec fn run_end(rows: Seq<(i64, i64, Seq<u8>)>, w: i64, j: int) -> int
    decreases rows.len() - j,
{
    if j < 0 || j >= rows.len() || rows[j].0 != w {
        j
    } else {
        run_end(rows, w, j + 1)
    }
}

/// The runs of equal WorkIds from index `pos` on, as `[start, end)` pairs.
pub open spec fn runs(rows: Seq<(i64, i64, Seq<u8>)>, pos: int) -> Seq<(int, int)>
    decreases rows.len() - pos,
{
    if pos < 0 || pos >= rows.len() {
        Seq::empty()
    } else {
        let e = run_end(rows, rows[pos].0, pos + 1);
        if pos < e <= rows.len() {
            seq![(pos, e)] + runs(rows, e)
        } else {
            Seq::empty()
        }
    }
}

proof fn lemma_run_end_bounds(rows: Seq<(i64, i64, Seq<u8>)>, w: i64, j: int)
    requires
        0 <= j <= rows.len(),
    ensures
        j <= run_end(rows, w, j) <= rows.len(),
        forall|k: int| j <= k < run_end(rows, w, j) ==> rows[k].0 == w,
    decreases rows.len() - j,
{
    if j < rows.len() && rows[j].0 == w {
        lemma_run_end_bounds(rows, w, j + 1);
    }
}

/// The last value of property `id` among rows `[start, end)`.
pub open spec fn last_value(rows: Seq<(i64, i64, Seq<u8>)>, id: i64, start: int, end: int) -> Option<Seq<u8>>
    decreases end - start,
{
    if end <= start {
        None
    } else if rows[end - 1].1 == id {
        Some(rows[end - 1].2)
    } else {
        last_value(rows, id, start, end - 1)
    }
}

/// Whether property ids strictly increase along a record.
pub open spec fn sorted_ids(rec: Seq<(i64, Seq<u8>)>) -> bool {
    forall|i: int, j: int| 0 <= i < j < rec.len() ==> rec[i].0 < rec[j].0
}

/// Whether `rec` is the record of rows `[start, end)`: its properties in
/// ascending id order, each with its last value in the run.
pub open spec fn record_of_run(rows: Seq<(i64, i64, Seq<u8>)>, start: int, end: int, rec: Seq<(i64, Seq<u8>)>) -> bool {
    &&& sorted_ids(rec)
    &&& forall|k: int| 0 <= k < rec.len() ==> last_value(rows, (#[trigger] rec[k]).0, start, end) == Some(rec[k].1)
    &&& forall|x: i64| #[trigger] last_value(rows, x, start, end) is Some ==> exists|k: int| 0 <= k < rec.len() && rec[k].0 == x
}

/// The report a SQLite record goes to: internet history (1), activity
/// history (2), or the file report (0).
pub open spec fn route_of(rec: Seq<(i64, Seq<u8>)>, names: Seq<(Seq<char>, i64)>) -> usize {
    if sql_text_of(rec, names, "System.Link.TargetUrl"@) matches Some(t) && matches_at(t, "http"@, 0) {
        1
    } else if sql_text_of(rec, names, "System.ItemType"@) == Some("ActivityHistoryItem"@) {
        2
    } else {
        0
    }
}

/// Whether `entry` is the routed row of the run `[start, end)`.
pub open spec fn run_entry(
    rows: Seq<(i64, i64, Seq<u8>)>,
    start: int,
    end: int,
    props: Map<i64, (String, i64)>,
    names: Seq<(Seq<char>, i64)>,
    route: usize,
    cells: Seq<(Seq<char>, CellView)>,
) -> bool {
    exists|rec: Seq<(i64, Seq<u8>)>| #[trigger] record_of_run(rows, start, end, rec) && route == route_of(rec, names)
        && cells == seq![("WorkId"@, CellView::Int(rows[start].0 as u32 as i64))] + sql_record_cells(
        rec,
        props,
        rec.len() as int,
    )
}

/// Whether `f` is the sorted record `o` with property `id` set to `v`.
pub open spec fn upserted(o: Seq<(i64, Seq<u8>)>, f: Seq<(i64, Seq<u8>)>, id: i64, v: Seq<u8>) -> bool {
    &&& sorted_ids(f)
    &&& forall|k: int| 0 <= k < f.len() && (#[trigger] f[k]).0 == id ==> f[k].1 == v
    &&& exists|k: int| 0 <= k < f.len() && f[k].0 == id
    &&& forall|k: int| 0 <= k < f.len() && (#[trigger] f[k]).0 != id ==> exists|j: int| 0 <= j < o.len() && o[j] == f[k]
    &&& forall|j: int| 0 <= j < o.len() && (#[trigger] o[j]).0 != id ==> exists|k: int| 0 <= k < f.len() && f[k] == o[j]
}

proof fn lemma_upsert_update(o: Seq<(i64, Seq<u8>)>, k: int, id: i64, v: Seq<u8>)
    requires
        sorted_ids(o),
        0 <= k < o.len(),
        o[k].0 == id,
    ensures
        upserted(o, o.update(k, (id, v)), id, v),
{
    let f = o.update(k, (id, v));
    assert forall|i: int, j: int| 0 <= i < j < f.len() implies f[i].0 < f[j].0 by {
        assert(o[i].0 < o[j].0);
    }
    assert(f[k].0 == id);
    assert forall|m: int| 0 <= m < f.len() && (#[trigger] f[m]).0 != id implies exists|j: int|
        0 <= j < o.len() && o[j] == f[m] by {
        assert(o[m] == f[m]);
    }
    assert forall|j: int| 0 <= j < o.len() && (#[trigger] o[j]).0 != id implies exists|m: int|
        0 <= m < f.len() && f[m] == o[j] by {
        assert(f[j] == o[j]);
    }
}

proof fn lemma_insert_sorted(o: Seq<(i64, Seq<u8>)>, k: int, id: i64, v: Seq<u8>)
    requires
        sorted_ids(o),
        0 <= k <= o.len(),
        forall|i: int| 0 <= i < k ==> o[i].0 < id,
        k < o.len() ==> o[k].0 > id,
    ensures
        sorted_ids(o.insert(k, (id, v))),
{
    let f = o.insert(k, (id, v));
    o.insert_ensures(k, (id, v));
    assert forall|i: int, j: int| 0 <= i < j < f.len() implies f[i].0 < f[j].0 by {
        let fi = if i < k { o[i].0 } else if i == k { id } else { o[i - 1].0 };
        let fj = if j < k { o[j].0 } else if j == k { id } else { o[j - 1].0 };
        assert(f[i].0 == fi);
        assert(f[j].0 == fj);
        if j > k && i < j - 1 && i != k {
            let ii = if i < k { i } else { i - 1 };
            assert(o[ii].0 < o[j - 1].0);
        }
        if j > k && j - 1 > k {
            assert(o[k].0 < o[j - 1].0);
        }
    }
}

proof fn lemma_upsert_insert(o: Seq<(i64, Seq<u8>)>, k: int, id: i64, v: Seq<u8>)
    requires
        sorted_ids(o),
        0 <= k <= o.len(),
        forall|i: int| 0 <= i < k ==> o[i].0 < id,
        k < o.len() ==> o[k].0 > id,
    ensures
        upserted(o, o.insert(k, (id, v)), id, v),
{
    let f = o.insert(k, (id, v));
    lemma_insert_sorted(o, k, id, v);
    o.insert_ensures(k, (id, v));
    assert(f[k].0 == id);
    assert forall|m: int| 0 <= m < f.len() && (#[trigger] f[m]).0 != id implies exists|j: int|
        0 <= j < o.len() && o[j] == f[m] by {
        if m < k {
            assert(o[m] == f[m]);
        } else {
            assert(o[m - 1] == f[m]);
        }
    }
    assert forall|j: int| 0 <= j < o.len() && (#[trigger] o[j]).0 != id implies exists|m: int|
        0 <= m < f.len() && f[m] == o[j] by {
        if j < k {
            assert(f[j] == o[j]);
        } else {
            assert(f[j + 1] == o[j]);
        }
    }
}

proof fn lemma_insert_at_end(o: Seq<(i64, Seq<u8>)>, k: int, id: i64, v: Seq<u8>)
    requires
        0 <= k <= o.len(),
        k < o.len() ==> o[k].0 >= id,
    ensures
        (forall|m: int| 0 <= m < o.len() ==> (#[trigger] o[m]).0 < id) ==> o.insert(k, (id, v)) == o.push((id, v)),
{
    if forall|m: int| 0 <= m < o.len() ==> (#[trigger] o[m]).0 < id {
        if k < o.len() {
            assert(o[k].0 < id);
        }
        assert(o.insert(k, (id, v)) =~= o.push((id, v)));
    }
}

proof fn lemma_no_larger_id(o: Seq<(i64, Seq<u8>)>, k: int, id: i64)
    requires
        0 <= k < o.len(),
        o[k].0 == id,
    ensures
        !(forall|m: int| 0 <= m < o.len() ==> (#[trigger] o[m]).0 < id),
{
    assert(o[k].0 == id);
}

/// Sets property `id` of a record sorted by id to `v`, keeping the order.
fn upsert_sorted(rec: &mut Vec<(i64, Vec<u8>)>, id: i64, v: Vec<u8>)
    requires
        sorted_ids(sql_raw_view(old(rec)@)),
    ensures
        upserted(sql_raw_view(old(rec)@), sql_raw_view(final(rec)@), id, v@),
        (forall|k: int| 0 <= k < old(rec)@.len() ==> (#[trigger] sql_raw_view(old(rec)@)[k]).0 < id)
            ==> sql_raw_view(final(rec)@) == sql_raw_view(old(rec)@).push((id, v@)),
{
    let ghost o = sql_raw_view(rec@);
    let ghost vv = v@;
    let mut k: usize = 0;
    while k < rec.len() && rec[k].0 < id
        invariant
            k <= rec@.len(),
            rec@ == old(rec)@,
            o == sql_raw_view(rec@),
            forall|i: int| 0 <= i < k ==> o[i].0 < id,
        decreases rec@.len() - k,
    {
        k = k + 1;
    }
    if k < rec.len() && rec[k].0 == id {
        rec.set(k, (id, v));
        proof {
            assert(sql_raw_view(rec@) =~= o.update(k as int, (id, vv)));
            lemma_upsert_update(o, k as int, id, vv);
            lemma_no_larger_id(o, k as int, id);
        }
    } else {
        rec.insert(k, (id, v));
        proof {
            assert(sql_raw_view(rec@) =~= o.insert(k as int, (id, vv)));
            lemma_upsert_insert(o, k as int, id, vv);
            lemma_insert_at_end(o, k as int, id, vv);
        }
    }
}

/// The rows of the fixed reports from the SQLite property store: one row
/// for each run of equal WorkIds, routed to the internet-history report when
/// its target URL starts with `http`, else to the activity-history report for
/// activity items, else to the file report. Its cells are the WorkId and
/// the record's properties in ascending id order, a later value of a
/// property replacing an earlier one.
pub fn sidr_sqlite_rows(
    rows: &Vec<(i64, i64, Vec<u8>)>,
    id_to_prop: &HashMap<i64, (String, i64)>,
    name_to_id: &Vec<(String, i64)>,
) -> (r: Vec<(usize, Vec<(String, CellValue)>)>)
    requires
        crate::props::names_unique(names_view(name_to_id@)),
    ensures
        r@.len() == runs(rows_view(rows@), 0).len(),
        forall|i: int| 0 <= i < r@.len() ==> run_entry(
            rows_view(rows@),
            runs(rows_view(rows@), 0)[i].0,
            runs(rows_view(rows@), 0)[i].1,
            id_to_prop@,
            names_view(name_to_id@),
            (#[trigger] r@[i]).0,
            row_view(r@[i].1@),
        ),
{
    let ghost rv = rows_view(rows@);
    let n = rows.len();
    let mut out: Vec<(usize, Vec<(String, CellValue)>)> = Vec::new();
    let ghost done: Seq<(int, int)> = Seq::empty();
    let mut pos: usize = 0;
    while pos < n
        invariant
            n == rows@.len(),
            rv == rows_view(rows@),
            pos <= n,
            runs(rv, 0) == done + runs(rv, pos as int),
            out@.len() == done.len(),
            crate::props::names_unique(names_view(name_to_id@)),
            forall|i: int| 0 <= i < out@.len() ==> run_entry(
                rv,
                done[i].0,
                done[i].1,
                id_to_prop@,
                names_view(name_to_id@),
                (#[trigger] out@[i]).0,
                row_view(out@[i].1@),
            ),
        decreases n - pos,
    {
        let w = rows[pos].0;
        let start = pos;
        let mut rec: Vec<(i64, Vec<u8>)> = Vec::new();
        let mut j: usize = pos;
        proof {
            lemma_run_end_bounds(rv, w, start + 1);
        }
        while j < n && rows[j].0 == w
            invariant
                n == rows@.len(),
                rv == rows_view(rows@),
                start <= j <= n,
                start < n,
                rv[start as int].0 == w,
                j > start ==> run_end(rv, w, start + 1) == run_end(rv, w, j as int),
                j == start ==> true,
                record_of_run(rv, start as int, j as int, sql_raw_view(rec@)),
            decreases n - j,
        {
            let ghost before = sql_raw_view(rec@);
            let id = rows[j].1;
            let v = copy_bytes(&rows[j].2);
            proof {
                assert(rv[j as int] == (rows@[j as int].0, rows@[j as int].1, rows@[j as int].2@));
            }
            upsert_sorted(&mut rec, id, v);
            proof {
                let f = sql_raw_view(rec@);
                assert forall|k: int| 0 <= k < f.len() implies last_value(rv, (#[trigger] f[k]).0, start as int, j + 1) == Some(f[k].1) by {
                    if f[k].0 != id {
                        let jj = choose|jj: int| 0 <= jj < before.len() && before[jj] == f[k];
                        assert(last_value(rv, before[jj].0, start as int, j as int) == Some(before[jj].1));
                    }
                }
                assert forall|x: i64| #[trigger] last_value(rv, x, start as int, j + 1) is Some implies exists|k: int|
                    0 <= k < f.len() && f[k].0 == x by {
                    if x != id {
                        assert(last_value(rv, x, start as int, j as int) is Some);
                        let jj = choose|jj: int| 0 <= jj < before.len() && before[jj].0 == x;
                        assert(before[jj].0 != id);
                    }
                }
            }
            j = j + 1;
        }
        proof {
            lemma_run_end_bounds(rv, w, start + 1);
            assert(j == run_end(rv, w, start + 1));
            assert(runs(rv, start as int) == seq![(start as int, j as int)] + runs(rv, j as int));
        }
        let route: usize = if is_internet_record(&rec, name_to_id) {
            1
        } else if is_activity_history_record(&rec, name_to_id) {
            2
        } else {
            0
        };
        let wid: u32 = #[verifier::truncate] (w as u32);
        let cells = write_record_to_report(&rec, wid, id_to_prop);
        let ghost ob = out@;
        out.push((route, cells));
        proof {
            let rec_v = sql_raw_view(rec@);
            assert(record_of_run(rv, start as int, j as int, rec_v));
            assert(route == route_of(rec_v, names_view(name_to_id@)));
            assert(row_view(cells@) == seq![("WorkId"@, CellView::Int(rv[start as int].0 as u32 as i64))] + sql_record_cells(
                rec_v,
                id_to_prop@,
                rec_v.len() as int,
            ));
            assert(run_entry(rv, start as int, j as int, id_to_prop@, names_view(name_to_id@), route, row_view(cells@)));
            done = done.push((start as int, j as int));
            assert(runs(rv, 0) =~= done + runs(rv, j as int));
            assert forall|i: int| 0 <= i < out@.len() implies run_entry(
                rv,
                done[i].0,
                done[i].1,
                id_to_prop@,
                names_view(name_to_id@),
                (#[trigger] out@[i]).0,
                row_view(out@[i].1@),
            ) by {
                if i < ob.len() {
                    assert(out@[i] == ob[i]);
                }
            }
        }
        pos = j;
    }
    proof {
        assert(runs(rv, pos as int) =~= Seq::<(int, int)>::empty());
        assert(done + Seq::<(int, int)>::empty() =~= done);
    }
    out
}

} // verus!
