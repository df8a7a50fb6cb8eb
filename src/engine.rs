//! The report engine: binds each report's columns to a reader, drives one
//! shared scan, applies the column and report constraints, fills missing
//! values, and collects the rows of every report.
use vstd::prelude::*;
use crate::codec::{
    chars_of, contains_seq, contains_str, date_time_text, MAX_CALENDAR_SECS, MIN_CALENDAR_SECS, find_chars, find_from, format_date_time, formattable,
    lemma_find_from_found, matches_at, string_of, FieldError,
};
use crate::config::{
    auto_fill_constraint, copy_text, is_auto_fill, is_known_constraint, is_validating, known_constraint,
    text_eq, validating_constraint, Column, ColumnPair, ColumnType, ConstrainedField, ReportCfg,
    ReportsCfg, VALUE_PLACEHOLDER,
};
use crate::ese::SchemaError;
use crate::reader::{fields_at, FieldReader};
use crate::sqlite::guid_result;

verus! {

/// What evalexpr makes of a boolean expression over these named booleans:
/// its value, or `None` when it does not parse or is not boolean.
pub uninterp spec fn eval_boolean_of(expr: Seq<char>, vars: Seq<(Seq<char>, bool)>) -> Option<bool>;

/// The view of a list of named booleans.
pub open spec fn flags_view(v: Seq<(String, bool)>) -> Seq<(Seq<char>, bool)> {
    v.map_values(|e: (String, bool)| (e.0@, e.1))
}

/// Whether an expression names none of evalexpr's builtins that can panic:
/// `str::substring` slices by byte index without a boundary check, and
/// `shl` / `shr` shift by an unchecked amount.
pub open spec fn safe_expression(e: Seq<char>) -> bool {
    &&& !contains_seq(e, "str::substring"@)
    &&& !contains_seq(e, "shl"@)
    &&& !contains_seq(e, "shr"@)
}

/// Whether an expression names none of the builtins that can panic.
pub fn is_safe_expression(e: &str) -> (r: bool)
    ensures
        r == safe_expression(e@),
{
    !contains_str(e, "str::substring") && !contains_str(e, "shl") && !contains_str(e, "shr")
}

/// Relies on `evalexpr::eval_boolean_with_context`, evaluated in a
/// `HashMapContext` that holds each named boolean: a boolean result, or an
/// error for a malformed or non-boolean expression. Expressions that name a
/// builtin that can panic are left out.
#[verifier::external_body]
fn eval_boolean_with(expr: &str, vars: &Vec<(String, bool)>) -> (r: Option<bool>)
    requires
        safe_expression(expr@),
    ensures
        r == eval_boolean_of(expr@, flags_view(vars@)),
{
    let mut ctx = evalexpr::HashMapContext::new();
    for (name, b) in vars.iter() {
        let _ = evalexpr::ContextWithMutableVariables::set_value(
            &mut ctx,
            name.clone(),
            evalexpr::Value::Boolean(*b),
        );
    }
    evalexpr::eval_boolean_with_context(expr, &ctx).ok()
}

/// `s` from index `i` on, with every occurrence of `p` replaced by `r`.
pub open spec fn replace_from(s: Seq<char>, p: Seq<char>, r: Seq<char>, i: int) -> Seq<char>
    recommends
        p.len() > 0,
    decreases s.len() + 1 - i,
{
    if i < 0 || i > s.len() || p.len() == 0 {
        Seq::empty()
    } else {
        match find_from(s, p, i) {
            Some(j) => if i <= j && j + p.len() <= s.len() {
                s.subrange(i, j) + r + replace_from(s, p, r, j + p.len())
            } else {
                Seq::empty()
            },
            None => s.subrange(i, s.len() as int),
        }
    }
}

/// Appends `v[from..to]` to `out`.
fn push_range(out: &mut Vec<char>, v: &Vec<char>, from: usize, to: usize)
    requires
        from <= to <= v@.len(),
    ensures
        final(out)@ == old(out)@ + v@.subrange(from as int, to as int),
{
    let mut k: usize = from;
    while k < to
        invariant
            from <= k <= to <= v@.len(),
            out@ == old(out)@ + v@.subrange(from as int, k as int),
        decreases to - k,
    {
        out.push(v[k]);
        k = k + 1;
        proof {
            assert(out@ =~= old(out)@ + v@.subrange(from as int, k as int));
        }
    }
}

/// Replaces every occurrence of `p` (not empty) in `s` by `r`.
pub fn replace_all(s: &str, p: &str, r: &str) -> (out: String)
    requires
        p@.len() > 0,
    ensures
        out@ == replace_from(s@, p@, r@, 0),
{
    let sv = chars_of(s);
    let pv = chars_of(p);
    let rv = chars_of(r);
    let n = sv.len();
    let rn = rv.len();
    let mut out: Vec<char> = Vec::new();
    let mut i: usize = 0;
    loop
        invariant
            n == sv@.len(),
            rn == rv@.len(),
            sv@ == s@,
            pv@ == p@,
            rv@ == r@,
            p@.len() > 0,
            i <= n,
            out@ + replace_from(s@, p@, r@, i as int) == replace_from(s@, p@, r@, 0),
        decreases n + 1 - i,
    {
        match find_chars(&sv, &pv, i) {
            Some(j) => {
                proof {
                    lemma_find_from_found(sv@, pv@, i as int);
                    assert(matches_at(sv@, pv@, j as int));
                }
                let ghost out0 = out@;
                push_range(&mut out, &sv, i, j);
                push_range(&mut out, &rv, 0, rn);
                proof {
                    assert(rv@.subrange(0, rn as int) =~= rv@);
                    let rest = replace_from(s@, p@, r@, j + p@.len());
                    assert(replace_from(s@, p@, r@, i as int) == s@.subrange(i as int, j as int)
                        + r@ + rest);
                    assert(out@ + rest =~= out0 + replace_from(s@, p@, r@, i as int));
                }
                i = j + pv.len();
            },
            None => {
                let ghost out0 = out@;
                push_range(&mut out, &sv, i, n);
                proof {
                    assert(out@ =~= out0 + replace_from(s@, p@, r@, i as int));
                    assert(out@ =~= replace_from(s@, p@, r@, 0));
                }
                return string_of(out.as_slice());
            },
        }
    }
}


/// A value emitted into a report.
#[derive(Clone, Debug)]
pub enum CellValue {
    Str(String),
    Int(i64),
}

/// The view of an emitted value.
pub enum CellView {
    Str(Seq<char>),
    Int(i64),
}

pub open spec fn cell_view(c: CellValue) -> CellView {
    match c {
        CellValue::Str(s) => CellView::Str(s@),
        CellValue::Int(i) => CellView::Int(i),
    }
}

/// The view of an optional text.
pub open spec fn opt_text(o: Option<String>) -> Option<Seq<char>> {
    match o {
        Some(s) => Some(s@),
        None => None,
    }
}

/// Whether a validated column lets its report emit the record: a present,
/// non-empty value must make the constraint true once it stands in for
/// `{Value}`; an absent value is accepted only for an optional column.
pub open spec fn column_passes(constraint: Seq<char>, value: Option<Seq<char>>, optional: bool) -> bool {
    match value {
        None => optional,
        Some(v) => v.len() > 0 && {
            let e = replace_from(validation_template(constraint), VALUE_PLACEHOLDER@, v, 0);
            safe_expression(e) && eval_boolean_of(e, Seq::empty()) == Some(true)
        },
    }
}

/// The expression a validating constraint stands for: itself when it uses
/// `{Value}`; otherwise each `regex_matches(<pattern>)` becomes the test of
/// `{Value}` against the pattern, `str::regex_matches("{Value}", <pattern>)`.
pub open spec fn validation_template(c: Seq<char>) -> Seq<char> {
    if contains_seq(c, VALUE_PLACEHOLDER@) {
        c
    } else {
        replace_from(c, "regex_matches("@, "str::regex_matches(\"{Value}\", "@, 0)
    }
}

/// What checking one validated column against the current record gives.
pub open spec fn column_check<R: FieldReader>(
    reader: &R,
    title: Seq<char>,
    constraint: Seq<char>,
    optional: bool,
) -> Result<bool, FieldError> {
    match reader.str_value(title) {
        Err(e) => Err(e),
        Ok(v) => Ok(column_passes(constraint, v, optional)),
    }
}

/// Checks one validated column of the current record.
pub fn check_column<R: FieldReader>(
    reader: &R,
    title: &str,
    constraint: &str,
    optional: bool,
) -> (r: Result<bool, FieldError>)
    requires
        reader.inv(),
    ensures
        r == column_check(reader, title@, constraint@, optional),
{
    let no_vars: Vec<(String, bool)> = Vec::new();
    proof {
        assert(flags_view(no_vars@) =~= Seq::<(Seq<char>, bool)>::empty());
        reveal_strlit("{Value}");
    }
    match reader.get_str(title) {
        Err(e) => Err(e),
        Ok(None) => Ok(optional),
        Ok(Some(v)) => {
            if v.as_str().is_empty() {
                return Ok(false);
            }
            let template = if contains_str(constraint, VALUE_PLACEHOLDER) {
                constraint.to_string()
            } else {
                proof {
                    reveal_strlit("regex_matches(");
                }
                replace_all(constraint, "regex_matches(", "str::regex_matches(\"{Value}\", ")
            };
            let expr = replace_all(template.as_str(), VALUE_PLACEHOLDER, v.as_str());
            if !is_safe_expression(expr.as_str()) {
                return Ok(false);
            }
            Ok(eval_boolean_with(expr.as_str(), &no_vars) == Some(true))
        },
    }
}

/// A validated column of a report: its title, its constraint, and whether
/// it is optional.
#[derive(Clone, Debug)]
pub struct Validation {
    pub title: String,
    pub constraint: String,
    pub optional: bool,
}

/// What checking the validated columns from the `i`-th on gives: the first
/// read failure or failing column stops the check.
pub open spec fn validations_from<R: FieldReader>(reader: &R, vs: Seq<Validation>, i: int) -> Result<bool, FieldError>
    decreases vs.len() - i,
{
    if i < 0 || i >= vs.len() {
        Ok(true)
    } else {
        match column_check(reader, vs[i].title@, vs[i].constraint@, vs[i].optional) {
            Err(e) => Err(e),
            Ok(false) => Ok(false),
            Ok(true) => validations_from(reader, vs, i + 1),
        }
    }
}

/// Checks every validated column of a report against the current record.
pub fn record_passes<R: FieldReader>(reader: &R, vs: &Vec<Validation>) -> (r: Result<bool, FieldError>)
    requires
        reader.inv(),
    ensures
        r == validations_from(reader, vs@, 0),
{
    let mut i: usize = 0;
    while i < vs.len()
        invariant
            reader.inv(),
            i <= vs@.len(),
            validations_from(reader, vs@, 0) == validations_from(reader, vs@, i as int),
        decreases vs@.len() - i,
    {
        let v = &vs[i];
        match check_column(reader, v.title.as_str(), v.constraint.as_str(), v.optional) {
            Err(e) => {
                return Err(e);
            },
            Ok(false) => {
                return Ok(false);
            },
            Ok(true) => {},
        }
        i = i + 1;
    }
    Ok(true)
}

/// Whether a report's own constraint lets it emit, given the flags of the
/// reports that already claimed the record.
pub open spec fn report_allows(constraint: Option<Seq<char>>, flags: Seq<(Seq<char>, bool)>) -> bool {
    match constraint {
        None => true,
        Some(c) => safe_expression(c) && eval_boolean_of(c, flags) == Some(true),
    }
}

/// Evaluates a report's constraint over the flags of the other reports.
pub fn check_report_constraint(constraint: &Option<String>, flags: &Vec<(String, bool)>) -> (r: bool)
    ensures
        r == report_allows(opt_text(*constraint), flags_view(flags@)),
{
    match constraint {
        None => true,
        Some(c) => is_safe_expression(c.as_str()) && eval_boolean_with(c.as_str(), flags) == Some(
            true,
        ),
    }
}

/// The text emitted for a string column: the live value when present and
/// not empty, else the fill value when the column is auto-filled and one was
/// found.
pub open spec fn filled(live: Option<Seq<char>>, fill: Option<Seq<char>>) -> Option<Seq<char>> {
    match live {
        Some(s) if s.len() > 0 => Some(s),
        _ => match fill {
            Some(f) if f.len() > 0 => Some(f),
            _ => None,
        },
    }
}

/// What a column of the current record emits.
pub open spec fn cell_of<R: FieldReader>(
    reader: &R,
    kind: ColumnType,
    title: Seq<char>,
    fill: Option<Seq<char>>,
) -> Result<Option<CellView>, FieldError> {
    match kind {
        ColumnType::String => match reader.str_value(title) {
            Err(e) => Err(e),
            Ok(v) => match filled(v, fill) {
                Some(s) => Ok(Some(CellView::Str(s))),
                None => Ok(None),
            },
        },
        ColumnType::Integer => match reader.int_value(title) {
            Err(e) => Err(e),
            Ok(Some(i)) => Ok(Some(CellView::Int(i))),
            Ok(None) => Ok(None),
        },
        ColumnType::DateTime => match reader.date_time_value(title) {
            Err(e) => Err(e),
            Ok(Some(t)) => if formattable(t) {
                Ok(Some(CellView::Str(date_time_text(t))))
            } else {
                Err(FieldError::InvalidDate)
            },
            Ok(None) => Ok(None),
        },
        ColumnType::GUID => match guid_result(reader.str_value(title), title) {
            Err(e) => Err(e),
            Ok(Some(g)) => Ok(Some(CellView::Str(g))),
            Ok(None) => Ok(None),
        },
    }
}

/// The view of a cell result.
pub open spec fn cell_result(r: Result<Option<CellValue>, FieldError>) -> Result<Option<CellView>, FieldError> {
    match r {
        Err(e) => Err(e),
        Ok(Some(c)) => Ok(Some(cell_view(c))),
        Ok(None) => Ok(None),
    }
}

/// Reads what one column of the current record emits.
pub fn column_cell<R: FieldReader>(
    reader: &R,
    kind: ColumnType,
    title: &str,
    fill: Option<&String>,
) -> (r: Result<Option<CellValue>, FieldError>)
    requires
        reader.inv(),
    ensures
        cell_result(r) == cell_of(reader, kind, title@, match fill { Some(f) => Some(f@), None => None }),
{
    match kind {
        ColumnType::String => match reader.get_str(title) {
            Err(e) => Err(e),
            Ok(live) => {
                let live_ok = match &live {
                    Some(s) => !s.as_str().is_empty(),
                    None => false,
                };
                if live_ok {
                    match live {
                        Some(s) => Ok(Some(CellValue::Str(s))),
                        None => Ok(None),
                    }
                } else {
                    match fill {
                        Some(f) => if f.as_str().is_empty() {
                            Ok(None)
                        } else {
                            Ok(Some(CellValue::Str(copy_text(f))))
                        },
                        None => Ok(None),
                    }
                }
            },
        },
        ColumnType::Integer => match reader.get_int(title) {
            Err(e) => Err(e),
            Ok(Some(i)) => Ok(Some(CellValue::Int(i))),
            Ok(None) => Ok(None),
        },
        ColumnType::DateTime => match reader.get_datetime(title) {
            Err(e) => Err(e),
            Ok(Some(t)) => {
                if t.secs < MIN_CALENDAR_SECS || t.secs > MAX_CALENDAR_SECS {
                    Err(FieldError::InvalidDate)
                } else {
                    Ok(Some(CellValue::Str(format_date_time(&t))))
                }
            },
            Ok(None) => Ok(None),
        },
        ColumnType::GUID => match reader.get_guid(title) {
            Err(e) => Err(e),
            Ok(Some(g)) => Ok(Some(CellValue::Str(g))),
            Ok(None) => Ok(None),
        },
    }
}


/// A column of a report as bound to a reader.
#[derive(Clone, Debug)]
pub struct ReportColumn {
    pub title: String,
    pub kind: ColumnType,
    pub hidden: bool,
}

/// Everything the main pass needs of one report.
pub struct ReportPlan {
    pub title: String,
    pub constraint: Option<String>,
    pub columns: Vec<ReportColumn>,
    pub validated: Vec<Validation>,
    pub auto_filled: Vec<(String, String)>,
}

/// A report's header: its title, the value that names its output, and the
/// fields it declares.
pub struct ReportHeader {
    pub title: String,
    pub output_name: String,
    pub fields: Vec<String>,
}

/// A row that a report emitted: the report's position and the row's
/// `(field, value)` pairs.
pub struct EmittedRow {
    pub report: usize,
    pub cells: Vec<(String, CellValue)>,
}

/// What a run of the engine produces: one header per report, the plan each
/// report ran with, and every emitted row in scan order.
pub struct ReportSet {
    pub reports: Vec<ReportHeader>,
    pub plans: Vec<ReportPlan>,
    pub rows: Vec<EmittedRow>,
}

/// Why a run of the engine stopped.
#[derive(Debug)]
pub enum EngineError {
    /// A report's columns do not fit the table.
    Schema(SchemaError),
    /// A stored value could not be read as its column's type.
    Field(FieldError),
    /// No column of the report has the title that names its output.
    NoFilenameColumn(String),
    /// The source holds no record.
    EmptySource,
}

/// The view of a list of fill values.
pub open spec fn fills_view(v: Seq<(String, String)>) -> Seq<(Seq<char>, Seq<char>)> {
    v.map_values(|e: (String, String)| (e.0@, e.1@))
}

/// The fill value of `title`, the first entry winning.
pub open spec fn fill_of(fills: Seq<(Seq<char>, Seq<char>)>, title: Seq<char>, i: int) -> Option<Seq<char>>
    decreases fills.len() - i,
{
    if i < 0 || i >= fills.len() {
        None
    } else if fills[i].0 == title {
        Some(fills[i].1)
    } else {
        fill_of(fills, title, i + 1)
    }
}

fn find_fill<'a>(fills: &'a Vec<(String, String)>, title: &str) -> (r: Option<&'a String>)
    ensures
        match r {
            Some(f) => fill_of(fills_view(fills@), title@, 0) == Some(f@),
            None => fill_of(fills_view(fills@), title@, 0) is None,
        },
{
    let mut i: usize = 0;
    while i < fills.len()
        invariant
            i <= fills@.len(),
            fill_of(fills_view(fills@), title@, 0) == fill_of(fills_view(fills@), title@, i as int),
        decreases fills@.len() - i,
    {
        if text_eq(fills[i].0.as_str(), title) {
            return Some(&fills[i].1);
        }
        i = i + 1;
    }
    None
}

/// The view of an emitted row.
pub open spec fn row_view(r: Seq<(String, CellValue)>) -> Seq<(Seq<char>, CellView)> {
    r.map_values(|e: (String, CellValue)| (e.0@, cell_view(e.1)))
}

/// What the first `n` columns of a report emit for the current record:
/// hidden columns and absent values emit nothing.
pub open spec fn row_cells<R: FieldReader>(
    reader: &R,
    cols: Seq<ReportColumn>,
    fills: Seq<(Seq<char>, Seq<char>)>,
    n: int,
) -> Result<Seq<(Seq<char>, CellView)>, FieldError>
    decreases n,
{
    if n <= 0 {
        Ok(Seq::empty())
    } else {
        match row_cells(reader, cols, fills, n - 1) {
            Err(e) => Err(e),
            Ok(prev) => if cols[n - 1].hidden {
                Ok(prev)
            } else {
                match cell_of(reader, cols[n - 1].kind, cols[n - 1].title@, fill_of(fills, cols[n - 1].title@, 0)) {
                    Err(e) => Err(e),
                    Ok(Some(c)) => Ok(prev.push((cols[n - 1].title@, c))),
                    Ok(None) => Ok(prev),
                }
            },
        }
    }
}

proof fn lemma_row_cells_err_stays<R: FieldReader>(
    reader: &R,
    cols: Seq<ReportColumn>,
    fills: Seq<(Seq<char>, Seq<char>)>,
    k: int,
    m: int,
)
    requires
        0 <= k <= m,
        row_cells(reader, cols, fills, k) is Err,
    ensures
        row_cells(reader, cols, fills, m) == row_cells(reader, cols, fills, k),
    decreases m - k,
{
    if m > k {
        lemma_row_cells_err_stays(reader, cols, fills, k, m - 1);
    }
}

/// The row that a report emits for the current record.
pub fn emit_row<R: FieldReader>(reader: &R, plan: &ReportPlan) -> (r: Result<Vec<(String, CellValue)>, FieldError>)
    requires
        reader.inv(),
    ensures
        match r {
            Ok(row) => row_cells(reader, plan.columns@, fills_view(plan.auto_filled@), plan.columns@.len() as int) == Ok::<Seq<(Seq<char>, CellView)>, FieldError>(row_view(row@)),
            Err(e) => row_cells(reader, plan.columns@, fills_view(plan.auto_filled@), plan.columns@.len() as int) == Err::<Seq<(Seq<char>, CellView)>, FieldError>(e),
        },
{
    let mut row: Vec<(String, CellValue)> = Vec::new();
    let mut i: usize = 0;
    proof {
        assert(row_view(row@) =~= Seq::<(Seq<char>, CellView)>::empty());
    }
    while i < plan.columns.len()
        invariant
            reader.inv(),
            i <= plan.columns@.len(),
            row_cells(reader, plan.columns@, fills_view(plan.auto_filled@), i as int) == Ok::<Seq<(Seq<char>, CellView)>, FieldError>(row_view(row@)),
        decreases plan.columns@.len() - i,
    {
        let col = &plan.columns[i];
        if !col.hidden {
            let fill = find_fill(&plan.auto_filled, col.title.as_str());
            match column_cell(reader, col.kind, col.title.as_str(), fill) {
                Err(e) => {
                    proof {
                        lemma_row_cells_err_stays(
                            reader,
                            plan.columns@,
                            fills_view(plan.auto_filled@),
                            i + 1,
                            plan.columns@.len() as int,
                        );
                    }
                    return Err(e);
                },
                Ok(Some(c)) => {
                    let ghost before = row@;
                    row.push((copy_text(&col.title), c));
                    proof {
                        assert(row_view(row@) =~= row_view(before).push((col.title@, cell_view(c))));
                    }
                },
                Ok(None) => {},
            }
        }
        i = i + 1;
    }
    Ok(row)
}


/// The flags that the expression of each report sees: a report's flag is set
/// when it claimed the current record; reports not yet run have it clear.
pub open spec fn context_of(plans: Seq<ReportPlan>, claims: Seq<bool>) -> Seq<(Seq<char>, bool)> {
    Seq::new(plans.len(), |i: int| (plans[i].title@, i < claims.len() && claims[i]))
}

/// Which of the first `n` reports claim the current record. Each report runs
/// in turn, and its own constraint sees the claims of the reports before it.
pub open spec fn claims_upto<R: FieldReader>(reader: &R, plans: Seq<ReportPlan>, n: int) -> Seq<bool>
    decreases n,
{
    if n <= 0 {
        Seq::empty()
    } else {
        let prev = claims_upto(reader, plans, n - 1);
        prev.push(
            report_allows(opt_text(plans[n - 1].constraint), context_of(plans, prev))
                && validations_from(reader, plans[n - 1].validated@, 0) == Ok::<bool, FieldError>(
                true,
            ),
        )
    }
}

/// The view of emitted rows.
pub open spec fn emitted_view(rows: Seq<EmittedRow>) -> Seq<(int, Seq<(Seq<char>, CellView)>)> {
    rows.map_values(|r: EmittedRow| (r.report as int, row_view(r.cells@)))
}

/// The rows that the first `n` reports emit for the current record.
pub open spec fn emitted_upto<R: FieldReader>(reader: &R, plans: Seq<ReportPlan>, claims: Seq<bool>, n: int) -> Seq<(int, Seq<(Seq<char>, CellView)>)>
    decreases n,
{
    if n <= 0 {
        Seq::empty()
    } else if claims[n - 1] {
        emitted_upto(reader, plans, claims, n - 1).push(
            (n - 1, row_cells(reader, plans[n - 1].columns@, fills_view(plans[n - 1].auto_filled@), plans[n - 1].columns@.len() as int)->Ok_0),
        )
    } else {
        emitted_upto(reader, plans, claims, n - 1)
    }
}

pub proof fn lemma_claims_prefix<R: FieldReader>(reader: &R, plans: Seq<ReportPlan>, i: int, n: int)
    requires
        0 <= i < n,
    ensures
        claims_upto(reader, plans, n).len() == n,
        claims_upto(reader, plans, n)[i] == claims_upto(reader, plans, i + 1)[i],
    decreases n,
{
    lemma_claims_len(reader, plans, n);
    if n > i + 1 {
        lemma_claims_prefix(reader, plans, i, n - 1);
    }
}

pub proof fn lemma_claims_len<R: FieldReader>(reader: &R, plans: Seq<ReportPlan>, n: int)
    requires
        0 <= n,
    ensures
        claims_upto(reader, plans, n).len() == n,
    decreases n,
{
    if n > 0 {
        lemma_claims_len(reader, plans, n - 1);
    }
}

/// Whether running the first `n` reports against the current record reads
/// every value it needs without a failure.
pub open spec fn record_ok<R: FieldReader>(reader: &R, plans: Seq<ReportPlan>, n: int) -> bool
    decreases n,
{
    if n <= 0 {
        true
    } else {
        let prev = claims_upto(reader, plans, n - 1);
        let v = validations_from(reader, plans[n - 1].validated@, 0);
        &&& record_ok(reader, plans, n - 1)
        &&& report_allows(opt_text(plans[n - 1].constraint), context_of(plans, prev)) ==> {
            &&& v is Ok
            &&& v == Ok::<bool, FieldError>(true) ==> row_cells(
                reader,
                plans[n - 1].columns@,
                fills_view(plans[n - 1].auto_filled@),
                plans[n - 1].columns@.len() as int,
            ) is Ok
        }
    }
}

proof fn lemma_record_ok_prefix<R: FieldReader>(reader: &R, plans: Seq<ReportPlan>, k: int, n: int)
    requires
        0 <= k <= n,
        record_ok(reader, plans, n),
    ensures
        record_ok(reader, plans, k),
    decreases n - k,
{
    if n > k {
        lemma_record_ok_prefix(reader, plans, k, n - 1);
    }
}

/// Runs every report against the current record: each report whose own
/// constraint holds (over the flags of the reports before it) and whose
/// validated columns pass claims the record, sets its flag, and emits its row.
pub fn process_record<R: FieldReader>(
    reader: &R,
    plans: &Vec<ReportPlan>,
    rows: &mut Vec<EmittedRow>,
) -> (r: Result<Vec<bool>, EngineError>)
    requires
        reader.inv(),
    ensures
        r is Ok <==> record_ok(reader, plans@, plans@.len() as int),
        r matches Err(e) ==> e is Field,
        r matches Ok(claims) ==> {
            &&& claims@ == claims_upto(reader, plans@, plans@.len() as int)
            &&& emitted_view(final(rows)@) == emitted_view(old(rows)@) + emitted_upto(
                reader,
                plans@,
                claims@,
                plans@.len() as int,
            )
        },
{
    let mut flags: Vec<(String, bool)> = Vec::new();
    let mut k: usize = 0;
    while k < plans.len()
        invariant
            k <= plans@.len(),
            flags_view(flags@) == Seq::new(k as nat, |i: int| (plans@[i].title@, false)),
        decreases plans@.len() - k,
    {
        let ghost before = flags@;
        let t = copy_text(&plans[k].title);
        flags.push((t, false));
        k = k + 1;
        proof {
            assert(flags@ == before.push((t, false)));
            assert(flags_view(flags@) =~= flags_view(before).push((t@, false)));
            assert(flags_view(flags@) =~= Seq::new(k as nat, |i: int| (plans@[i].title@, false)));
        }
    }
    let mut claims: Vec<bool> = Vec::new();
    let ghost rows0 = rows@;
    let mut j: usize = 0;
    proof {
        assert(flags_view(flags@) =~= context_of(plans@, claims@));
        assert(emitted_view(rows@) =~= emitted_view(rows0) + emitted_upto(reader, plans@, claims@, 0));
    }
    while j < plans.len()
        invariant
            reader.inv(),
            j <= plans@.len(),
            claims@ == claims_upto(reader, plans@, j as int),
            flags@.len() == plans@.len(),
            flags_view(flags@) == context_of(plans@, claims@),
            emitted_view(rows@) == emitted_view(rows0) + emitted_upto(reader, plans@, claims@, j as int),
            rows0 == old(rows)@,
            record_ok(reader, plans@, j as int),
        decreases plans@.len() - j,
    {
        let plan = &plans[j];
        proof {
            lemma_claims_len(reader, plans@, j as int);
        }
        let allowed = check_report_constraint(&plan.constraint, &flags);
        let mut claimed = false;
        if allowed {
            match record_passes(reader, &plan.validated) {
                Err(e) => {
                    proof {
                        assert(!record_ok(reader, plans@, j + 1));
                        if record_ok(reader, plans@, plans@.len() as int) {
                            lemma_record_ok_prefix(reader, plans@, j + 1, plans@.len() as int);
                        }
                    }
                    return Err(EngineError::Field(e));
                },
                Ok(pass) => {
                    if pass {
                        match emit_row(reader, plan) {
                            Err(e) => {
                                proof {
                                    assert(!record_ok(reader, plans@, j + 1));
                                    if record_ok(reader, plans@, plans@.len() as int) {
                                        lemma_record_ok_prefix(reader, plans@, j + 1, plans@.len() as int);
                                    }
                                }
                                return Err(EngineError::Field(e));
                            },
                            Ok(cells) => {
                                let ghost before = rows@;
                                rows.push(EmittedRow { report: j, cells });
                                proof {
                                    assert(emitted_view(rows@) =~= emitted_view(before).push(
                                        (j as int, row_view(cells@)),
                                    ));
                                }
                                claimed = true;
                            },
                        }
                    }
                },
            }
        }
        let ghost claims_before = claims@;
        claims.push(claimed);
        proof {
            assert(claims@ == claims_upto(reader, plans@, j + 1));
            assert(emitted_upto(reader, plans@, claims@, j as int) == emitted_upto(
                reader,
                plans@,
                claims_before,
                j as int,
            )) by {
                lemma_emitted_prefix(reader, plans@, claims_before, claims@, j as int);
            }
        }
        let ghost flags_before = flags@;
        proof {
            assert(flags_view(flags_before)[j as int] == context_of(plans@, claims_before)[j as int]);
        }
        if claimed {
            let t = copy_text(&plan.title);
            flags.set(j, (t, true));
            proof {
                assert(flags@ == flags_before.update(j as int, (t, true)));
            }
        }
        proof {
            assert forall|i: int| 0 <= i < plans@.len() implies #[trigger] flags_view(flags@)[i]
                == context_of(plans@, claims@)[i] by {
                if i != j {
                    assert(flags_view(flags_before)[i] == context_of(plans@, claims_before)[i]);
                }
            }
            assert(flags_view(flags@) =~= context_of(plans@, claims@));
        }
        j = j + 1;
    }
    Ok(claims)
}

proof fn lemma_emitted_prefix<R: FieldReader>(
    reader: &R,
    plans: Seq<ReportPlan>,
    c1: Seq<bool>,
    c2: Seq<bool>,
    n: int,
)
    requires
        0 <= n <= c1.len() <= c2.len(),
        forall|i: int| 0 <= i < n ==> c1[i] == c2[i],
    ensures
        emitted_upto(reader, plans, c1, n) == emitted_upto(reader, plans, c2, n),
    decreases n,
{
    if n > 0 {
        lemma_emitted_prefix(reader, plans, c1, c2, n - 1);
    }
}

/// Cross-report exclusivity: when report `a` runs before report `b`, and
/// `b`'s constraint never holds while `a`'s flag is set, `b` does not claim a
/// record that `a` claimed.
pub proof fn lemma_cross_report_exclusive<R: FieldReader>(
    reader: &R,
    plans: Seq<ReportPlan>,
    a: int,
    b: int,
)
    requires
        0 <= a < b < plans.len(),
        forall|ctx: Seq<(Seq<char>, bool)>|
            ctx.len() == plans.len() && #[trigger] ctx[a] == (plans[a].title@, true)
                ==> !report_allows(opt_text(plans[b].constraint), ctx),
    ensures
        claims_upto(reader, plans, plans.len() as int)[a] ==> !claims_upto(
            reader,
            plans,
            plans.len() as int,
        )[b],
{
    let n = plans.len() as int;
    lemma_claims_prefix(reader, plans, a, n);
    lemma_claims_prefix(reader, plans, b, n);
    lemma_claims_len(reader, plans, b);
    let prev = claims_upto(reader, plans, b);
    lemma_claims_prefix(reader, plans, a, b);
    let ctx = context_of(plans, prev);
    if claims_upto(reader, plans, n)[a] {
        assert(ctx[a] == (plans[a].title@, true));
    }
}


/// The title whose output-name value is the host name, and the item type
/// that rules a record out as its source.
pub const HOSTNAME_TITLE: &'static str = "System_ComputerName";
pub const ITEM_TYPE_TITLE: &'static str = "System_ItemType";
pub const ITEM_TYPE_SQL_CODE: &'static str = "567";
pub const URL_ITEM_TYPE: &'static str = ".url";

/// The column that reads the item type of a record in either backend.
pub fn item_type_column() -> (r: ColumnPair)
    ensures
        r.title@ == ITEM_TYPE_TITLE@,
        r.edb.name@ == ITEM_TYPE_TITLE@,
        r.sql.name@ == ITEM_TYPE_SQL_CODE@,
        r.edb.constraint is None,
        r.sql.constraint is None,
{
    ColumnPair {
        title: ITEM_TYPE_TITLE.to_string(),
        kind: ColumnType::String,
        edb: Column { name: ITEM_TYPE_TITLE.to_string(), constraint: None },
        sql: Column { name: ITEM_TYPE_SQL_CODE.to_string(), constraint: None },
    }
}

/// The first configured column titled `title`.
pub fn find_column_pair(cols: &Vec<ColumnPair>, title: &str) -> (r: Option<usize>)
    ensures
        r matches Some(i) ==> i < cols@.len() && cols@[i as int].title@ == title@ && forall|k: int|
            0 <= k < i ==> cols@[k].title@ != title@,
        r is None ==> forall|k: int| 0 <= k < cols@.len() ==> cols@[k].title@ != title@,
{
    let mut i: usize = 0;
    while i < cols.len()
        invariant
            i <= cols@.len(),
            forall|k: int| 0 <= k < i ==> cols@[k].title@ != title@,
        decreases cols@.len() - i,
    {
        if text_eq(cols[i].title.as_str(), title) {
            return Some(i);
        }
        i = i + 1;
    }
    None
}

/// What scanning the records after state `s` for the first non-empty text
/// under `title` gives (passing over `.url` items when `skip_url`): the text,
/// empty when there is none, or the first read failure.
pub open spec fn first_from<R: FieldReader>(s: R, title: Seq<char>, skip_url: bool, fuel: nat) -> Result<Seq<char>, FieldError>
    decreases fuel,
{
    if fuel == 0 {
        Ok(Seq::empty())
    } else {
        let (n, more) = s.after_next();
        if !more {
            Ok(Seq::empty())
        } else {
            match n.str_value(title) {
                Err(e) => Err(e),
                Ok(Some(v)) => if v.len() > 0 {
                    if skip_url {
                        match n.str_value(ITEM_TYPE_TITLE@) {
                            Err(e) => Err(e),
                            Ok(t) => if t == Some(URL_ITEM_TYPE@) {
                                first_from(n, title, skip_url, (fuel - 1) as nat)
                            } else {
                                Ok(v)
                            },
                        }
                    } else {
                        Ok(v)
                    }
                } else {
                    first_from(n, title, skip_url, (fuel - 1) as nat)
                },
                Ok(None) => first_from(n, title, skip_url, (fuel - 1) as nat),
            }
        }
    }
}

/// Any fuel beyond what remains gives the same scan.
pub proof fn lemma_first_from_fuel<R: FieldReader>(s: R, title: Seq<char>, skip_url: bool, f: nat)
    requires
        s.inv(),
        f > s.remaining(),
    ensures
        first_from(s, title, skip_url, f) == first_from(s, title, skip_url, s.remaining() + 1),
    decreases f,
{
    s.lemma_cursor();
    let (n, more) = s.after_next();
    if more {
        lemma_first_from_fuel(n, title, skip_url, (f - 1) as nat);
        lemma_first_from_fuel(n, title, skip_url, s.remaining());
    }
}

/// Scans the records from the first one and returns the first non-empty text
/// under `title` (empty when there is none). With `skip_url`, records whose
/// item type is `.url` are passed over.
pub fn first_value<R: FieldReader>(reader: &mut R, title: &str, skip_url: bool) -> (r: Result<String, EngineError>)
    requires
        old(reader).inv(),
    ensures
        final(reader).inv(),
        final(reader).after_init() == old(reader).after_init(),
        !old(reader).has_records() ==> r matches Err(EngineError::EmptySource),
        old(reader).has_records() ==> match first_from(
            old(reader).after_init(),
            title@,
            skip_url,
            old(reader).after_init().remaining() + 1,
        ) {
            Ok(v) => r matches Ok(s) && s@ == v,
            Err(e) => r matches Err(EngineError::Field(e2)) && e2 == e,
        },
{
    proof {
        old(reader).lemma_cursor();
    }
    if !reader.init() {
        return Err(EngineError::EmptySource);
    }
    let ghost start = *reader;
    proof {
        start.lemma_cursor();
    }
    loop
        invariant
            reader.inv(),
            old(reader).has_records(),
            start == old(reader).after_init(),
            reader.after_init() == start,
            first_from(start, title@, skip_url, start.remaining() + 1) == first_from(
                *reader,
                title@,
                skip_url,
                reader.remaining() + 1,
            ),
        decreases reader.remaining(),
    {
        let ghost cur = *reader;
        proof {
            cur.lemma_cursor();
        }
        if !reader.next() {
            return Ok(String::new());
        }
        proof {
            reader.lemma_cursor();
            lemma_first_from_fuel(*reader, title@, skip_url, cur.remaining());
        }
        match reader.get_str(title) {
            Err(e) => {
                return Err(EngineError::Field(e));
            },
            Ok(Some(v)) => {
                if !v.as_str().is_empty() {
                    if skip_url {
                        match reader.get_str(ITEM_TYPE_TITLE) {
                            Err(e) => {
                                return Err(EngineError::Field(e));
                            },
                            Ok(t) => {
                                let is_url = match &t {
                                    Some(x) => text_eq(x.as_str(), URL_ITEM_TYPE),
                                    None => false,
                                };
                                if !is_url {
                                    return Ok(v);
                                }
                            },
                        }
                    } else {
                        return Ok(v);
                    }
                }
            },
            Ok(None) => {},
        }
    }
}

/// Whether some bound field titled `title` is hidden.
fn hidden_title(fields: &Vec<ConstrainedField>, title: &str) -> (r: bool)
    ensures
        r == exists|i: int| 0 <= i < fields@.len() && fields@[i].name@ == title@ && fields@[i].hidden,
{
    let mut i: usize = 0;
    while i < fields.len()
        invariant
            i <= fields@.len(),
            forall|k: int| 0 <= k < i ==> !(fields@[k].name@ == title@ && fields@[k].hidden),
        decreases fields@.len() - i,
    {
        if fields[i].hidden && text_eq(fields[i].name.as_str(), title) {
            return true;
        }
        i = i + 1;
    }
    false
}

/// The header of a report: the titles of its configured columns that are
/// not hidden, in configuration order.
pub open spec fn header_fields(cols: Seq<ColumnPair>, fields: Seq<ConstrainedField>) -> Seq<Seq<char>>
    decreases cols.len(),
{
    if cols.len() == 0 {
        Seq::empty()
    } else {
        let prev = header_fields(cols.drop_last(), fields);
        let t = cols.last().title@;
        if exists|i: int| 0 <= i < fields.len() && fields[i].name@ == t && fields[i].hidden {
            prev
        } else {
            prev.push(t)
        }
    }
}

/// The header fields of a report.
pub fn header_of(cols: &Vec<ColumnPair>, fields: &Vec<ConstrainedField>) -> (r: Vec<String>)
    ensures
        r@.map_values(|s: String| s@) == header_fields(cols@, fields@),
{
    let mut out: Vec<String> = Vec::new();
    let mut i: usize = 0;
    while i < cols.len()
        invariant
            i <= cols@.len(),
            out@.map_values(|s: String| s@) == header_fields(cols@.subrange(0, i as int), fields@),
        decreases cols@.len() - i,
    {
        let ghost before = out@;
        let hidden = hidden_title(fields, cols[i].title.as_str());
        if !hidden {
            out.push(copy_text(&cols[i].title));
        }
        proof {
            let s1 = cols@.subrange(0, i + 1);
            assert(s1.drop_last() =~= cols@.subrange(0, i as int));
            assert(s1.last() == cols@[i as int]);
            assert(out@.map_values(|s: String| s@) =~= header_fields(s1, fields@));
        }
        i = i + 1;
    }
    proof {
        assert(cols@.subrange(0, cols@.len() as int) =~= cols@);
    }
    out
}


/// The validations that a report's bound fields call for: every field whose
/// constraint is a known one that tests the value.
pub open spec fn validations_of(fields: Seq<ConstrainedField>) -> Seq<(Seq<char>, Seq<char>, bool)>
    decreases fields.len(),
{
    if fields.len() == 0 {
        Seq::empty()
    } else {
        let prev = validations_of(fields.drop_last());
        let f = fields.last();
        match f.constraint {
            Some(c) => if is_known_constraint(c@) && is_validating(c@) {
                prev.push((f.name@, c@, f.optional))
            } else {
                prev
            },
            None => prev,
        }
    }
}

pub open spec fn validation_view(v: Seq<Validation>) -> Seq<(Seq<char>, Seq<char>, bool)> {
    v.map_values(|x: Validation| (x.title@, x.constraint@, x.optional))
}

/// The kind of the first configured column, from the `i`-th on, titled `t`
/// (text when there is none).
pub open spec fn kind_in(cols: Seq<ColumnPair>, t: Seq<char>, i: int) -> ColumnType
    decreases cols.len() - i,
{
    if i < 0 || i >= cols.len() {
        ColumnType::String
    } else if cols[i].title@ == t {
        cols[i].kind
    } else {
        kind_in(cols, t, i + 1)
    }
}

/// The titles of the bound fields whose constraint is a known `auto_fill`.
pub open spec fn fill_titles(fields: Seq<ConstrainedField>) -> Seq<Seq<char>>
    decreases fields.len(),
{
    if fields.len() == 0 {
        Seq::empty()
    } else {
        let prev = fill_titles(fields.drop_last());
        let f = fields.last();
        match f.constraint {
            Some(c) => if is_known_constraint(c@) && is_auto_fill(c@) {
                prev.push(f.name@)
            } else {
                prev
            },
            None => prev,
        }
    }
}

/// Whether the fill scan of every title reads without a failure.
pub open spec fn fills_found<R: FieldReader>(s: R, titles: Seq<Seq<char>>) -> bool {
    forall|k: int| 0 <= k < titles.len() ==> (#[trigger] first_from(s, titles[k], false, s.remaining() + 1)) is Ok
}

proof fn lemma_fill_titles_prefix(fields: Seq<ConstrainedField>, m: int, n: int)
    requires
        0 <= m <= n <= fields.len(),
    ensures
        fill_titles(fields.subrange(0, m)).len() <= fill_titles(fields.subrange(0, n)).len(),
        forall|k: int| 0 <= k < fill_titles(fields.subrange(0, m)).len() ==> #[trigger] fill_titles(fields.subrange(0, m))[k]
            == fill_titles(fields.subrange(0, n))[k],
    decreases n - m,
{
    if n > m {
        lemma_fill_titles_prefix(fields, m, n - 1);
        let s1 = fields.subrange(0, n);
        assert(s1.drop_last() =~= fields.subrange(0, n - 1));
    }
}

fn kind_of(cols: &Vec<ColumnPair>, title: &str) -> (r: ColumnType)
    ensures
        r == kind_in(cols@, title@, 0),
{
    let mut i: usize = 0;
    while i < cols.len()
        invariant
            i <= cols@.len(),
            kind_in(cols@, title@, 0) == kind_in(cols@, title@, i as int),
        decreases cols@.len() - i,
    {
        if text_eq(cols[i].title.as_str(), title) {
            return cols[i].kind;
        }
        i = i + 1;
    }
    ColumnType::String
}

/// Builds what the main pass needs of one report from its bound fields; an
/// auto-filled field gets its fill value from a scan of its own. It fails
/// only when such a scan fails: on an empty source, or on a read failure.
pub fn build_plan<R: FieldReader>(
    reader: &mut R,
    report: &ReportCfg,
    fields: &Vec<ConstrainedField>,
) -> (r: Result<ReportPlan, EngineError>)
    requires
        old(reader).inv(),
    ensures
        final(reader).inv(),
        final(reader).after_init() == old(reader).after_init(),
        r is Ok <==> ((fill_titles(fields@).len() == 0 || old(reader).has_records()) && fills_found(
            old(reader).after_init(),
            fill_titles(fields@),
        )),
        r matches Err(e) ==> (e is EmptySource || e is Field) && (e is EmptySource <==> !old(
            reader,
        ).has_records()),
        r matches Ok(plan) ==> {
            &&& plan.title@ == report.title@
            &&& opt_text(plan.constraint) == opt_text(report.constraint)
            &&& plan.columns@.len() == fields@.len()
            &&& forall|i: int| 0 <= i < fields@.len() ==> (#[trigger] plan.columns@[i]).title@
                == fields@[i].name@ && plan.columns@[i].hidden == fields@[i].hidden
                && plan.columns@[i].kind == kind_in(report.columns@, fields@[i].name@, 0)
            &&& validation_view(plan.validated@) == validations_of(fields@)
            &&& fills_view(plan.auto_filled@).map_values(|e: (Seq<char>, Seq<char>)| e.0)
                == fill_titles(fields@)
            &&& forall|k: int| 0 <= k < plan.auto_filled@.len() ==> first_from(
                old(reader).after_init(),
                (#[trigger] plan.auto_filled@[k]).0@,
                false,
                old(reader).after_init().remaining() + 1,
            ) == Ok::<Seq<char>, FieldError>(plan.auto_filled@[k].1@)
        },
{
    let mut columns: Vec<ReportColumn> = Vec::new();
    let mut validated: Vec<Validation> = Vec::new();
    let mut auto_filled: Vec<(String, String)> = Vec::new();
    let ghost st = old(reader).after_init();
    proof {
        old(reader).lemma_cursor();
        assert(fills_view(auto_filled@).map_values(|e: (Seq<char>, Seq<char>)| e.0) =~= fill_titles(
            fields@.subrange(0, 0),
        ));
    }
    let mut i: usize = 0;
    while i < fields.len()
        invariant
            reader.inv(),
            i <= fields@.len(),
            columns@.len() == i,
            forall|k: int| 0 <= k < i ==> (#[trigger] columns@[k]).title@ == fields@[k].name@
                && columns@[k].hidden == fields@[k].hidden && columns@[k].kind == kind_in(
                report.columns@,
                fields@[k].name@,
                0,
            ),
            validation_view(validated@) == validations_of(fields@.subrange(0, i as int)),
            fills_view(auto_filled@).map_values(|e: (Seq<char>, Seq<char>)| e.0) == fill_titles(
                fields@.subrange(0, i as int),
            ),
            old(reader).inv(),
            st == old(reader).after_init(),
            st.has_records() == old(reader).has_records(),
            reader.after_init() == st,
            reader.has_records() == old(reader).has_records(),
            auto_filled@.len() > 0 ==> old(reader).has_records(),
            forall|k: int| 0 <= k < auto_filled@.len() ==> first_from(
                st,
                (#[trigger] auto_filled@[k]).0@,
                false,
                st.remaining() + 1,
            ) == Ok::<Seq<char>, FieldError>(auto_filled@[k].1@),
        decreases fields@.len() - i,
    {
        let f = &fields[i];
        let kind = kind_of(&report.columns, f.name.as_str());
        let ghost cbefore = columns@;
        columns.push(ReportColumn { title: copy_text(&f.name), kind, hidden: f.hidden });
        proof {
            let s1 = fields@.subrange(0, i + 1);
            assert(s1.drop_last() =~= fields@.subrange(0, i as int));
            assert(s1.last() == fields@[i as int]);
            assert(columns@ == cbefore.push(columns@.last()));
        }
        let ghost fbefore = auto_filled@;
        match &f.constraint {
            Some(c) => {
                if known_constraint(c.as_str()) {
                    if validating_constraint(c.as_str()) {
                        validated.push(
                            Validation {
                                title: copy_text(&f.name),
                                constraint: copy_text(c),
                                optional: f.optional,
                            },
                        );
                    }
                    if auto_fill_constraint(c.as_str()) {
                        proof {
                            reader.lemma_cursor();
                            let s1 = fields@.subrange(0, i + 1);
                            assert(fill_titles(s1) == fill_titles(fields@.subrange(0, i as int)).push(f.name@));
                        }
                        match first_value(reader, f.name.as_str(), false) {
                            Err(e) => {
                                proof {
                                    let ft = fill_titles(fields@);
                                    let s1 = fields@.subrange(0, i + 1);
                                    lemma_fill_titles_prefix(fields@, i + 1, fields@.len() as int);
                                    assert(fields@.subrange(0, fields@.len() as int) =~= fields@);
                                    let j = fill_titles(fields@.subrange(0, i as int)).len() as int;
                                    assert(fill_titles(s1)[j] == f.name@);
                                    assert(ft[j] == f.name@);
                                    if old(reader).has_records() {
                                        assert(first_from(st, ft[j], false, st.remaining() + 1) is Err);
                                        assert(!fills_found(st, ft));
                                    } else {
                                        assert(ft.len() > 0);
                                    }
                                }
                                return Err(e);
                            },
                            Ok(v) => {
                                let t = copy_text(&f.name);
                                auto_filled.push((t, v));
                                proof {
                                    reader.lemma_cursor();
                                    assert(auto_filled@ == fbefore.push((t, v)));
                                    assert(fills_view(auto_filled@).map_values(
                                        |e: (Seq<char>, Seq<char>)| e.0,
                                    ) =~= fills_view(fbefore).map_values(|e: (Seq<char>, Seq<char>)| e.0).push(t@));
                                }
                            },
                        }
                    }
                }
            },
            None => {},
        }
        proof {
            let s1 = fields@.subrange(0, i + 1);
            assert(s1.drop_last() =~= fields@.subrange(0, i as int));
            assert(s1.last() == fields@[i as int]);
            assert(validation_view(validated@) =~= validations_of(s1));
            assert(fills_view(auto_filled@).map_values(|e: (Seq<char>, Seq<char>)| e.0) =~= fill_titles(s1));
        }
        i = i + 1;
    }
    proof {
        assert(fields@.subrange(0, fields@.len() as int) =~= fields@);
        let ft = fill_titles(fields@);
        assert forall|k: int| 0 <= k < ft.len() implies (#[trigger] first_from(st, ft[k], false, st.remaining() + 1)) is Ok by {
            assert(fills_view(auto_filled@).map_values(|e: (Seq<char>, Seq<char>)| e.0)[k] == ft[k]);
            assert(auto_filled@[k].0@ == ft[k]);
        }
        if ft.len() > 0 {
            assert(fills_view(auto_filled@).map_values(|e: (Seq<char>, Seq<char>)| e.0).len() > 0);
        }
    }
    let constraint = match &report.constraint {
        Some(c) => Some(copy_text(c)),
        None => None,
    };
    Ok(ReportPlan { title: copy_text(&report.title), constraint, columns, validated, auto_filled })
}

proof fn lemma_emitted_indices<R: FieldReader>(reader: &R, plans: Seq<ReportPlan>, claims: Seq<bool>, n: int)
    requires
        0 <= n <= claims.len(),
    ensures
        forall|k: int| 0 <= k < emitted_upto(reader, plans, claims, n).len() ==> 0 <= (
        #[trigger] emitted_upto(reader, plans, claims, n)[k]).0 < n,
    decreases n,
{
    if n > 0 {
        lemma_emitted_indices(reader, plans, claims, n - 1);
        let prev = emitted_upto(reader, plans, claims, n - 1);
        let cur = emitted_upto(reader, plans, claims, n);
        assert forall|k: int| 0 <= k < cur.len() implies 0 <= (#[trigger] cur[k]).0 < n by {
            if k < prev.len() {
                assert(cur[k] == prev[k]);
            }
        }
    }
}

/// Whether report `r` names its output from the host-name field.
pub open spec fn host_named(r: ReportCfg) -> bool {
    r.output_filename@ == HOSTNAME_TITLE@
}

/// Whether a configured column titled `t` exists.
pub open spec fn has_title(cols: Seq<ColumnPair>, t: Seq<char>) -> bool {
    exists|k: int| 0 <= k < cols.len() && #[trigger] cols[k].title@ == t
}

/// Whether `c` is the item-type column that the host-name rule binds.
pub open spec fn is_item_type_pair(c: ColumnPair) -> bool {
    &&& c.title@ == ITEM_TYPE_TITLE@
    &&& c.edb.name@ == ITEM_TYPE_TITLE@
    &&& c.sql.name@ == ITEM_TYPE_SQL_CODE@
    &&& c.edb.constraint is None
    &&& c.sql.constraint is None
}

/// Whether `fields` are what reader `s` binds for the columns `cols`.
pub open spec fn bound_fields<R: FieldReader>(s: R, cols: Seq<ColumnPair>, fields: Seq<ConstrainedField>) -> bool {
    fields_at(cols, s.bound_positions(cols), R::numbers_by_position(), R::binding_tokens(cols), fields)
}

/// Whether `plan` is the plan of `report` for its bound `fields`, with fill
/// values from scans of the records of `s`.
pub open spec fn plan_from<R: FieldReader>(s: R, plan: ReportPlan, report: ReportCfg, fields: Seq<ConstrainedField>) -> bool {
    &&& plan.title@ == report.title@
    &&& opt_text(plan.constraint) == opt_text(report.constraint)
    &&& plan.columns@.len() == fields.len()
    &&& forall|i: int| 0 <= i < fields.len() ==> (#[trigger] plan.columns@[i]).title@ == fields[i].name@
        && plan.columns@[i].hidden == fields[i].hidden && plan.columns@[i].kind == kind_in(
        report.columns@,
        fields[i].name@,
        0,
    )
    &&& validation_view(plan.validated@) == validations_of(fields)
    &&& fills_view(plan.auto_filled@).map_values(|e: (Seq<char>, Seq<char>)| e.0) == fill_titles(fields)
    &&& forall|k: int| 0 <= k < plan.auto_filled@.len() ==> first_from(
        s,
        (#[trigger] plan.auto_filled@[k]).0@,
        false,
        s.remaining() + 1,
    ) == Ok::<Seq<char>, FieldError>(plan.auto_filled@[k].1@)
}

/// Whether `plans` are the plans of the configured reports over `s`, for the
/// fields `fs` that `s` binds.
pub open spec fn plans_for<R: FieldReader>(
    s: R,
    cfg: Seq<ReportCfg>,
    plans: Seq<ReportPlan>,
    fs: Seq<Seq<ConstrainedField>>,
) -> bool {
    &&& plans.len() == cfg.len()
    &&& fs.len() == cfg.len()
    &&& forall|k: int| 0 <= k < cfg.len() ==> bound_fields(s, cfg[k].columns@, #[trigger] fs[k])
    &&& forall|k: int| 0 <= k < cfg.len() ==> plan_from(s, #[trigger] plans[k], cfg[k], fs[k])
}

/// Whether `plans` are the plans of the configured reports over `s`.
pub open spec fn plans_from<R: FieldReader>(s: R, cfg: Seq<ReportCfg>, plans: Seq<ReportPlan>) -> bool {
    exists|fs: Seq<Seq<ConstrainedField>>| #[trigger] plans_for(s, cfg, plans, fs)
}

/// Whether each header declares the non-hidden configured columns of its
/// report, for the fields `fs`.
pub open spec fn headers_for(cfg: Seq<ReportCfg>, headers: Seq<ReportHeader>, fs: Seq<Seq<ConstrainedField>>) -> bool {
    forall|k: int| 0 <= k < cfg.len() ==> (#[trigger] headers[k]).fields@.map_values(|x: String| x@)
        == header_fields(cfg[k].columns@, fs[k])
}

/// Whether every scan of a run over `s` reads without a failure: the output
/// names, the fill values, and the main pass.
pub open spec fn reads_ok<R: FieldReader>(s: R, cfg: Seq<ReportCfg>) -> bool {
    &&& forall|i: int| 0 <= i < cfg.len() ==> (#[trigger] first_from(
        s,
        cfg[i].output_filename@,
        host_named(cfg[i]),
        s.remaining() + 1,
    )) is Ok
    &&& forall|i: int, f: Seq<ConstrainedField>| 0 <= i < cfg.len() && #[trigger] bound_fields(s, cfg[i].columns@, f)
        ==> fills_found(s, fill_titles(f))
    &&& forall|plans: Seq<ReportPlan>| #[trigger] plans_from(s, cfg, plans) ==> pass_ok(s, plans, s.remaining() + 1)
}

/// Cross-report exclusivity for configured reports: when report `a` is
/// configured before report `b`, and `b`'s constraint never holds while
/// `a`'s flag is set, then in every record of a run `b` does not claim what
/// `a` claimed.
pub proof fn lemma_cross_report_exclusive_cfg<R: FieldReader>(
    reader: &R,
    s: R,
    cfg: Seq<ReportCfg>,
    plans: Seq<ReportPlan>,
    fs: Seq<Seq<ConstrainedField>>,
    a: int,
    b: int,
)
    requires
        plans_for(s, cfg, plans, fs),
        0 <= a < b < cfg.len(),
        forall|ctx: Seq<(Seq<char>, bool)>|
            ctx.len() == cfg.len() && #[trigger] ctx[a] == (cfg[a].title@, true) ==> !report_allows(
                opt_text(cfg[b].constraint),
                ctx,
            ),
    ensures
        claims_upto(reader, plans, plans.len() as int)[a] ==> !claims_upto(
            reader,
            plans,
            plans.len() as int,
        )[b],
{
    assert(plan_from(s, plans[a], cfg[a], fs[a]));
    assert(plan_from(s, plans[b], cfg[b], fs[b]));
    lemma_cross_report_exclusive(reader, plans, a, b);
}

proof fn lemma_name_scan_fails<R: FieldReader>(s: R, cfg: Seq<ReportCfg>, i: int)
    requires
        0 <= i < cfg.len(),
        first_from(s, cfg[i].output_filename@, host_named(cfg[i]), s.remaining() + 1) is Err,
    ensures
        !reads_ok(s, cfg),
{
}

proof fn lemma_fill_scan_fails<R: FieldReader>(s: R, cfg: Seq<ReportCfg>, i: int, f: Seq<ConstrainedField>)
    requires
        0 <= i < cfg.len(),
        bound_fields(s, cfg[i].columns@, f),
        !fills_found(s, fill_titles(f)),
    ensures
        !reads_ok(s, cfg),
{
}

proof fn lemma_pass_fails<R: FieldReader>(s: R, cfg: Seq<ReportCfg>, plans: Seq<ReportPlan>)
    requires
        plans_from(s, cfg, plans),
        !pass_ok(s, plans, s.remaining() + 1),
    ensures
        !reads_ok(s, cfg),
{
}

/// Runs every configured report over the reader's records. First every
/// report's columns are bound; then each report's output name and fill values
/// are found by scans; then one shared pass over the records lets every
/// report, in turn, claim each record and emit its row.
pub fn do_reports<R: FieldReader>(cfg: &ReportsCfg, reader: &mut R) -> (r: Result<ReportSet, EngineError>)
    requires
        old(reader).inv(),
    ensures
        final(reader).inv(),
        r matches Err(EngineError::NoFilenameColumn(t)) ==> exists|i: int|
            0 <= i < cfg.reports@.len() && t@ == cfg.reports@[i].output_filename@ && !has_title(
                #[trigger] cfg.reports@[i].columns@,
                t@,
            ),
        r matches Err(EngineError::Schema(_)) ==> (exists|i: int|
            0 <= i < cfg.reports@.len() && old(reader).binding_fails(#[trigger] cfg.reports@[i].columns@))
            || (exists|c: ColumnPair| #[trigger] is_item_type_pair(c) && old(reader).binding_fails(seq![c])),
        r matches Err(EngineError::EmptySource) ==> !old(reader).has_records(),
        r matches Err(EngineError::Field(_)) ==> old(reader).has_records() && !reads_ok(
            final(reader).after_init(),
            cfg.reports@,
        ),
        ({
            &&& forall|i: int| 0 <= i < cfg.reports@.len() ==> has_title(
                #[trigger] cfg.reports@[i].columns@,
                cfg.reports@[i].output_filename@,
            )
            &&& forall|i: int| 0 <= i < cfg.reports@.len() ==> !old(reader).binding_fails(
                #[trigger] cfg.reports@[i].columns@,
            )
            &&& forall|c: ColumnPair| #[trigger] is_item_type_pair(c) ==> !old(reader).binding_fails(seq![c])
            &&& old(reader).has_records()
        }) ==> (r is Ok || r matches Err(EngineError::Field(_))),
        r matches Ok(set) ==> set.reports@.len() == cfg.reports@.len(),
        r matches Ok(set) ==> plans_from(final(reader).after_init(), cfg.reports@, set.plans@),
        r matches Ok(set) ==> forall|i: int| 0 <= i < cfg.reports@.len() ==> (#[trigger] set.reports@[i]).title@
            == cfg.reports@[i].title@ && first_from(
            final(reader).after_init(),
            cfg.reports@[i].output_filename@,
            host_named(cfg.reports@[i]),
            final(reader).after_init().remaining() + 1,
        ) == Ok::<Seq<char>, FieldError>(set.reports@[i].output_name@),
        r matches Ok(set) ==> exists|fs: Seq<Seq<ConstrainedField>>| #[trigger] plans_for(
            final(reader).after_init(),
            cfg.reports@,
            set.plans@,
            fs,
        ) && headers_for(cfg.reports@, set.reports@, fs),
        r matches Ok(set) ==> forall|k: int| 0 <= k < set.rows@.len() ==> (#[trigger] set.rows@[k]).report
            < cfg.reports@.len(),
        r matches Ok(set) ==> emitted_view(set.rows@) == pass_rows(
            final(reader).after_init(),
            set.plans@,
            final(reader).after_init().remaining() + 1,
        ),
{
    let n = cfg.reports.len();
    // Bind every report's columns, and the item type when a report is named
    // by the host name.
    let mut all_fields: Vec<Vec<ConstrainedField>> = Vec::new();
    let mut needs_item_type = false;
    let mut i: usize = 0;
    while i < n
        invariant
            reader.inv(),
            n == cfg.reports@.len(),
            i <= n,
            all_fields@.len() == i,
            forall|c: Seq<ColumnPair>| #[trigger] reader.bound_positions(c) == old(reader).bound_positions(c),
            forall|c: Seq<ColumnPair>| #[trigger] reader.binding_fails(c) == old(reader).binding_fails(c),
            reader.has_records() == old(reader).has_records(),
            forall|k: int| 0 <= k < i ==> #[trigger] has_title(
                cfg.reports@[k].columns@,
                cfg.reports@[k].output_filename@,
            ),
            forall|k: int| 0 <= k < i ==> !old(reader).binding_fails(#[trigger] cfg.reports@[k].columns@),
            forall|k: int| 0 <= k < i ==> bound_fields(*reader, cfg.reports@[k].columns@, #[trigger] all_fields@[k]@),
            needs_item_type == exists|k: int| 0 <= k < i && host_named(#[trigger] cfg.reports@[k]),
        decreases n - i,
    {
        let report = &cfg.reports[i];
        let title = report.output_filename.as_str();
        match find_column_pair(&report.columns, title) {
            Some(_) => {},
            None => {
                return Err(EngineError::NoFilenameColumn(copy_text(&report.output_filename)));
            },
        }
        let fields = match reader.get_used_columns(&report.columns) {
            Err(e) => {
                proof {
                    assert(old(reader).binding_fails(cfg.reports@[i as int].columns@));
                }
                return Err(EngineError::Schema(e));
            },
            Ok(f) => f,
        };
        if text_eq(title, HOSTNAME_TITLE) {
            needs_item_type = true;
        }
        let ghost before = all_fields@;
        all_fields.push(fields);
        proof {
            assert(all_fields@ == before.push(fields));
            assert(host_named(cfg.reports@[i as int]) == (title@ == HOSTNAME_TITLE@));
        }
        i = i + 1;
    }
    if needs_item_type {
        let mut bind: Vec<ColumnPair> = Vec::new();
        let c = item_type_column();
        bind.push(c);
        proof {
            assert(bind@ =~= seq![c]);
        }
        match reader.get_used_columns(&bind) {
            Err(e) => {
                proof {
                    assert(is_item_type_pair(c));
                    assert(old(reader).binding_fails(seq![c]));
                }
                return Err(EngineError::Schema(e));
            },
            Ok(_) => {},
        }
    }
    let ghost st = reader.after_init();
    proof {
        reader.lemma_cursor();
    }
    // Find each report's output name and fill values, and build its plan.
    let mut cached: Vec<(String, String)> = Vec::new();
    let mut plans: Vec<ReportPlan> = Vec::new();
    let mut headers: Vec<ReportHeader> = Vec::new();
    let mut i: usize = 0;
    while i < n
        invariant
            reader.inv(),
            n == cfg.reports@.len(),
            i <= n,
            reader.after_init() == st,
            st.inv(),
            st.has_records() == old(reader).has_records(),
            reader.has_records() == old(reader).has_records(),
            all_fields@.len() == n,
            forall|k: int| 0 <= k < n ==> bound_fields(st, cfg.reports@[k].columns@, #[trigger] all_fields@[k]@),
            plans@.len() == i,
            headers@.len() == i,
            forall|k: int| 0 <= k < cached@.len() ==> first_from(
                st,
                (#[trigger] cached@[k]).0@,
                cached@[k].0@ == HOSTNAME_TITLE@,
                st.remaining() + 1,
            ) == Ok::<Seq<char>, FieldError>(cached@[k].1@),
            forall|k: int| 0 <= k < i ==> (#[trigger] headers@[k]).title@ == cfg.reports@[k].title@
                && first_from(
                st,
                cfg.reports@[k].output_filename@,
                host_named(cfg.reports@[k]),
                st.remaining() + 1,
            ) == Ok::<Seq<char>, FieldError>(headers@[k].output_name@)
                && headers@[k].fields@.map_values(|x: String| x@) == header_fields(
                cfg.reports@[k].columns@,
                all_fields@[k]@,
            ),
            forall|k: int| 0 <= k < i ==> plan_from(st, #[trigger] plans@[k], cfg.reports@[k], all_fields@[k]@),
        decreases n - i,
    {
        let report = &cfg.reports[i];
        let title = report.output_filename.as_str();
        let hostname = text_eq(title, HOSTNAME_TITLE);
        proof {
            reveal_strlit("System_ComputerName");
            reader.lemma_cursor();
            assert(hostname == host_named(cfg.reports@[i as int]));
        }
        let output_name = match find_fill(&cached, title) {
            Some(v) => {
                proof {
                    lemma_fill_of_found(fills_view(cached@), title@, 0);
                    let k = choose|k: int| 0 <= k < cached@.len() && fills_view(cached@)[k] == (title@, v@);
                    assert(cached@[k].0@ == title@ && cached@[k].1@ == v@);
                }
                copy_text(v)
            },
            None => {
                match first_value(reader, title, hostname) {
                    Err(e) => {
                        proof {
                            if old(reader).has_records() {
                                assert(first_from(st, title@, hostname, st.remaining() + 1) is Err);
                                assert(title@ == cfg.reports@[i as int].output_filename@);
                                lemma_name_scan_fails(st, cfg.reports@, i as int);
                            }
                        }
                        return Err(e);
                    },
                    Ok(v) => {
                        let t = copy_text(&report.output_filename);
                        let ghost cb = cached@;
                        cached.push((t, copy_text(&v)));
                        proof {
                            reader.lemma_cursor();
                            assert(cached@[cb.len() as int].0@ == title@);
                        }
                        v
                    },
                }
            },
        };
        let fields = &all_fields[i];
        proof {
            reader.lemma_cursor();
        }
        let plan = match build_plan(reader, report, fields) {
            Err(e) => {
                proof {
                    if old(reader).has_records() {
                        assert(*fields == all_fields@[i as int]);
                        assert(bound_fields(st, cfg.reports@[i as int].columns@, all_fields@[i as int]@));
                        assert(!fills_found(st, fill_titles(fields@)));
                        lemma_fill_scan_fails(st, cfg.reports@, i as int, fields@);
                    }
                }
                return Err(e);
            },
            Ok(p) => p,
        };
        proof {
            reader.lemma_cursor();
        }
        let header = ReportHeader {
            title: copy_text(&report.title),
            output_name,
            fields: header_of(&report.columns, fields),
        };
        let ghost pb = plans@;
        let ghost hb = headers@;
        plans.push(plan);
        headers.push(header);
        proof {
            assert(plans@ == pb.push(plan));
            assert(headers@ == hb.push(header));
        }
        i = i + 1;
    }
    let ghost fs = all_fields@.map_values(|v: Vec<ConstrainedField>| v@);
    proof {
        assert forall|k: int| 0 <= k < n implies bound_fields(st, cfg.reports@[k].columns@, #[trigger] fs[k]) by {
            assert(fs[k] == all_fields@[k]@);
        }
        assert forall|k: int| 0 <= k < n implies plan_from(st, #[trigger] plans@[k], cfg.reports@[k], fs[k]) by {
            assert(fs[k] == all_fields@[k]@);
        }
        assert(plans_for(st, cfg.reports@, plans@, fs));
    }
    let rows = match run_pass(reader, &plans) {
        Err(e) => {
            proof {
                if old(reader).has_records() {
                    assert(!pass_ok(st, plans@, st.remaining() + 1));
                    assert(plans_for(st, cfg.reports@, plans@, fs));
                    assert(plans_from(st, cfg.reports@, plans@));
                    lemma_pass_fails(st, cfg.reports@, plans@);
                    assert(!reads_ok(st, cfg.reports@));
                }
                assert(final(reader).after_init() == st);
            }
            return Err(e);
        },
        Ok(rows) => rows,
    };
    proof {
        st.lemma_cursor();
        lemma_pass_rows_indices(st, plans@, st.remaining() + 1);
        assert forall|k: int| 0 <= k < rows@.len() implies (#[trigger] rows@[k]).report < cfg.reports@.len() by {
            assert(emitted_view(rows@)[k].0 == rows@[k].report as int);
        }
        assert forall|k: int| 0 <= k < n implies (#[trigger] headers@[k]).fields@.map_values(|x: String| x@)
            == header_fields(cfg.reports@[k].columns@, fs[k]) by {
            assert(fs[k] == all_fields@[k]@);
        }
        assert(headers_for(cfg.reports@, headers@, fs));
        assert(plans_for(st, cfg.reports@, plans@, fs));
        assert(plans_from(st, cfg.reports@, plans@));
        assert(reader.after_init() == st);
        assert(exists|fs2: Seq<Seq<ConstrainedField>>| #[trigger] plans_for(st, cfg.reports@, plans@, fs2)
            && headers_for(cfg.reports@, headers@, fs2));
        assert(headers@.len() == cfg.reports@.len());
        assert(emitted_view(rows@) == pass_rows(st, plans@, st.remaining() + 1));
        assert(forall|i: int| 0 <= i < cfg.reports@.len() ==> (#[trigger] headers@[i]).title@
                == cfg.reports@[i].title@ && first_from(
                st,
                cfg.reports@[i].output_filename@,
                host_named(cfg.reports@[i]),
                st.remaining() + 1,
            ) == Ok::<Seq<char>, FieldError>(headers@[i].output_name@));
    }
    let set = ReportSet { reports: headers, plans, rows };
    proof {
        assert(set.plans@ == plans@);
        assert(set.reports@ == headers@);
        assert(plans_for(st, cfg.reports@, set.plans@, fs) && headers_for(cfg.reports@, set.reports@, fs));
        assert(forall|k: int| 0 <= k < set.rows@.len() ==> (#[trigger] set.rows@[k]).report < cfg.reports@.len());
    }
    Ok(set)
}

proof fn lemma_fill_of_found(fills: Seq<(Seq<char>, Seq<char>)>, title: Seq<char>, i: int)
    ensures
        fill_of(fills, title, i) matches Some(v) ==> exists|k: int| 0 <= k < fills.len() && fills[k] == (title, v),
    decreases fills.len() - i,
{
    if 0 <= i < fills.len() && fills[i].0 != title {
        lemma_fill_of_found(fills, title, i + 1);
    }
}


/// The first non-empty value of a sequence of occurrences.
pub open spec fn first_non_empty(vs: Seq<Option<Seq<char>>>) -> Option<Seq<char>>
    decreases vs.len(),
{
    if vs.len() == 0 {
        None
    } else {
        match vs[0] {
            Some(s) if s.len() > 0 => Some(s),
            _ => first_non_empty(vs.drop_first()),
        }
    }
}

/// Whether an occurrence holds a non-empty value.
pub open spec fn non_empty(v: Option<Seq<char>>) -> bool {
    v matches Some(s) && s.len() > 0
}

proof fn lemma_first_non_empty_unique(vs: Seq<Option<Seq<char>>>, k: int)
    requires
        0 <= k < vs.len(),
        non_empty(vs[k]),
        forall|i: int| 0 <= i < vs.len() && i != k ==> !non_empty(#[trigger] vs[i]),
    ensures
        first_non_empty(vs) == vs[k],
    decreases vs.len(),
{
    if k > 0 {
        assert(!non_empty(vs[0]));
        let rest = vs.drop_first();
        assert forall|i: int| 0 <= i < rest.len() && i != k - 1 implies !non_empty(
            #[trigger] rest[i],
        ) by {
            assert(rest[i] == vs[i + 1]);
        }
        lemma_first_non_empty_unique(rest, k - 1);
    }
}

/// Auto-fill determinism: when the occurrences of an auto-filled field hold
/// exactly one non-empty value, at position `k`, every occurrence emits that
/// value, whether it comes before or after `k` in scan order.
pub proof fn lemma_auto_fill_determinism(vs: Seq<Option<Seq<char>>>, k: int)
    requires
        0 <= k < vs.len(),
        non_empty(vs[k]),
        forall|i: int| 0 <= i < vs.len() && i != k ==> !non_empty(#[trigger] vs[i]),
    ensures
        forall|i: int| 0 <= i < vs.len() ==> filled(#[trigger] vs[i], first_non_empty(vs)) == vs[k],
{
    lemma_first_non_empty_unique(vs, k);
    assert forall|i: int| 0 <= i < vs.len() implies filled(#[trigger] vs[i], first_non_empty(vs))
        == vs[k] by {
        if i != k {
            assert(!non_empty(vs[i]));
        }
    }
}

/// A validated column whose value is present but fails its constraint keeps
/// the whole row of its report out of the output; an absent value of an
/// optional column does not.
pub proof fn lemma_failed_validation_rejects<R: FieldReader>(
    reader: &R,
    plans: Seq<ReportPlan>,
    j: int,
    m: int,
)
    requires
        0 <= j < plans.len(),
        0 <= m < plans[j].validated@.len(),
        forall|i: int| 0 <= i < m ==> column_check(
            reader,
            #[trigger] plans[j].validated@[i].title@,
            plans[j].validated@[i].constraint@,
            plans[j].validated@[i].optional,
        ) == Ok::<bool, FieldError>(true),
        ({
            let v = plans[j].validated@[m];
            &&& reader.str_value(v.title@) matches Ok(Some(s))
            &&& !column_passes(v.constraint@, Some(s), v.optional)
        }),
    ensures
        !claims_upto(reader, plans, plans.len() as int)[j],
{
    let vs = plans[j].validated@;
    assert(column_check(reader, vs[m].title@, vs[m].constraint@, vs[m].optional) == Ok::<
        bool,
        FieldError,
    >(false));
    lemma_validations_stop(reader, vs, 0, m);
    lemma_claims_prefix(reader, plans, j, plans.len() as int);
    lemma_claims_len(reader, plans, j);
    let prev = claims_upto(reader, plans, j);
    assert(claims_upto(reader, plans, j + 1) == prev.push(
        report_allows(opt_text(plans[j].constraint), context_of(plans, prev))
            && validations_from(reader, vs, 0) == Ok::<bool, FieldError>(true),
    ));
}

proof fn lemma_validations_stop<R: FieldReader>(reader: &R, vs: Seq<Validation>, i: int, m: int)
    requires
        0 <= i <= m < vs.len(),
        forall|k: int| i <= k < m ==> column_check(
            reader,
            #[trigger] vs[k].title@,
            vs[k].constraint@,
            vs[k].optional,
        ) == Ok::<bool, FieldError>(true),
        column_check(reader, vs[m].title@, vs[m].constraint@, vs[m].optional) == Ok::<
            bool,
            FieldError,
        >(false),
    ensures
        validations_from(reader, vs, i) == Ok::<bool, FieldError>(false),
    decreases m - i,
{
    if i < m {
        assert(column_check(reader, vs[i].title@, vs[i].constraint@, vs[i].optional) == Ok::<
            bool,
            FieldError,
        >(true));
        lemma_validations_stop(reader, vs, i + 1, m);
    }
}

/// An absent value passes a validated column exactly when the column is optional.
pub proof fn lemma_absent_value_passes_when_optional(constraint: Seq<char>, optional: bool)
    ensures
        column_passes(constraint, None, optional) == optional,
{
}


/// The texts under `title` of the records after state `s`, in scan order.
pub open spec fn scan_texts<R: FieldReader>(s: R, title: Seq<char>, fuel: nat) -> Seq<Result<Option<Seq<char>>, FieldError>>
    decreases fuel,
{
    if fuel == 0 {
        Seq::empty()
    } else {
        let (n, more) = s.after_next();
        if !more {
            Seq::empty()
        } else {
            seq![n.str_value(title)] + scan_texts(n, title, (fuel - 1) as nat)
        }
    }
}

/// The values of read results that all succeeded.
pub open spec fn ok_values(rs: Seq<Result<Option<Seq<char>>, FieldError>>) -> Seq<Option<Seq<char>>> {
    rs.map_values(|r: Result<Option<Seq<char>>, FieldError>| r->Ok_0)
}

/// When every read succeeds, the fill value that a scan finds is the first
/// non-empty value of the field in scan order (empty when there is none).
pub proof fn lemma_fill_is_first_non_empty<R: FieldReader>(s: R, title: Seq<char>, fuel: nat)
    requires
        forall|i: int| 0 <= i < scan_texts(s, title, fuel).len() ==> #[trigger] scan_texts(s, title, fuel)[i] is Ok,
    ensures
        first_from(s, title, false, fuel) == match first_non_empty(ok_values(scan_texts(s, title, fuel))) {
            Some(v) => Ok::<Seq<char>, FieldError>(v),
            None => Ok(Seq::empty()),
        },
    decreases fuel,
{
    if fuel > 0 {
        let (n, more) = s.after_next();
        if more {
            let all = scan_texts(s, title, fuel);
            let rest = scan_texts(n, title, (fuel - 1) as nat);
            assert(all == seq![n.str_value(title)] + rest);
            assert(all[0] is Ok);
            assert forall|i: int| 0 <= i < rest.len() implies #[trigger] rest[i] is Ok by {
                assert(rest[i] == all[i + 1]);
            }
            lemma_fill_is_first_non_empty(n, title, (fuel - 1) as nat);
            assert(ok_values(all).drop_first() =~= ok_values(rest));
        } else {
            assert(ok_values(scan_texts(s, title, fuel)) =~= Seq::<Option<Seq<char>>>::empty());
        }
    } else {
        assert(ok_values(scan_texts(s, title, fuel)) =~= Seq::<Option<Seq<char>>>::empty());
    }
}

/// The rows that the reports emit over the records after state `s`, in scan
/// order, when every read succeeds.
pub open spec fn pass_rows<R: FieldReader>(s: R, plans: Seq<ReportPlan>, fuel: nat) -> Seq<(int, Seq<(Seq<char>, CellView)>)>
    decreases fuel,
{
    if fuel == 0 {
        Seq::empty()
    } else {
        let (n, more) = s.after_next();
        if !more {
            Seq::empty()
        } else {
            emitted_upto(&n, plans, claims_upto(&n, plans, plans.len() as int), plans.len() as int)
                + pass_rows(n, plans, (fuel - 1) as nat)
        }
    }
}

/// Whether the pass over the records after state `s` reads every value it
/// needs without a failure.
pub open spec fn pass_ok<R: FieldReader>(s: R, plans: Seq<ReportPlan>, fuel: nat) -> bool
    decreases fuel,
{
    if fuel == 0 {
        true
    } else {
        let (n, more) = s.after_next();
        !more || (record_ok(&n, plans, plans.len() as int) && pass_ok(n, plans, (fuel - 1) as nat))
    }
}

pub proof fn lemma_pass_ok_fuel<R: FieldReader>(s: R, plans: Seq<ReportPlan>, f: nat)
    requires
        s.inv(),
        f > s.remaining(),
    ensures
        pass_ok(s, plans, f) == pass_ok(s, plans, s.remaining() + 1),
    decreases f,
{
    s.lemma_cursor();
    let (n, more) = s.after_next();
    if more {
        lemma_pass_ok_fuel(n, plans, (f - 1) as nat);
        lemma_pass_ok_fuel(n, plans, s.remaining());
    }
}

pub proof fn lemma_pass_rows_fuel<R: FieldReader>(s: R, plans: Seq<ReportPlan>, f: nat)
    requires
        s.inv(),
        f > s.remaining(),
    ensures
        pass_rows(s, plans, f) == pass_rows(s, plans, s.remaining() + 1),
    decreases f,
{
    s.lemma_cursor();
    let (n, more) = s.after_next();
    if more {
        lemma_pass_rows_fuel(n, plans, (f - 1) as nat);
        lemma_pass_rows_fuel(n, plans, s.remaining());
    }
}

proof fn lemma_pass_rows_indices<R: FieldReader>(s: R, plans: Seq<ReportPlan>, fuel: nat)
    ensures
        forall|k: int| 0 <= k < pass_rows(s, plans, fuel).len() ==> 0 <= (#[trigger] pass_rows(
            s,
            plans,
            fuel,
        )[k]).0 < plans.len(),
    decreases fuel,
{
    if fuel > 0 {
        let (n, more) = s.after_next();
        if more {
            lemma_pass_rows_indices(n, plans, (fuel - 1) as nat);
            lemma_claims_len(&n, plans, plans.len() as int);
            lemma_emitted_indices(&n, plans, claims_upto(&n, plans, plans.len() as int), plans.len() as int);
            let a = emitted_upto(&n, plans, claims_upto(&n, plans, plans.len() as int), plans.len() as int);
            let b = pass_rows(n, plans, (fuel - 1) as nat);
            assert forall|k: int| 0 <= k < (a + b).len() implies 0 <= (#[trigger] (a + b)[k]).0 < plans.len() by {
                if k < a.len() {
                    assert((a + b)[k] == a[k]);
                } else {
                    assert((a + b)[k] == b[k - a.len()]);
                }
            }
        }
    }
}

/// The main pass: one shared scan of the records, each record run through
/// every report in turn.
pub fn run_pass<R: FieldReader>(reader: &mut R, plans: &Vec<ReportPlan>) -> (r: Result<Vec<EmittedRow>, EngineError>)
    requires
        old(reader).inv(),
    ensures
        final(reader).inv(),
        final(reader).after_init() == old(reader).after_init(),
        (r matches Err(EngineError::EmptySource)) <==> !old(reader).has_records(),
        r is Ok <==> old(reader).has_records() && pass_ok(
            old(reader).after_init(),
            plans@,
            old(reader).after_init().remaining() + 1,
        ),
        r matches Err(e) ==> (e is EmptySource || e is Field),
        r matches Ok(rows) ==> emitted_view(rows@) == pass_rows(
            old(reader).after_init(),
            plans@,
            old(reader).after_init().remaining() + 1,
        ),
{
    proof {
        old(reader).lemma_cursor();
    }
    if !reader.init() {
        return Err(EngineError::EmptySource);
    }
    let ghost start = *reader;
    let mut rows: Vec<EmittedRow> = Vec::new();
    proof {
        assert(emitted_view(rows@) =~= Seq::<(int, Seq<(Seq<char>, CellView)>)>::empty());
    }
    loop
        invariant
            reader.inv(),
            old(reader).has_records(),
            start == old(reader).after_init(),
            reader.after_init() == start,
            pass_ok(start, plans@, start.remaining() + 1) == pass_ok(*reader, plans@, reader.remaining() + 1),
            pass_rows(start, plans@, start.remaining() + 1) == emitted_view(rows@) + pass_rows(
                *reader,
                plans@,
                reader.remaining() + 1,
            ),
        decreases reader.remaining(),
    {
        let ghost cur = *reader;
        proof {
            cur.lemma_cursor();
        }
        if !reader.next() {
            proof {
                assert(emitted_view(rows@) + Seq::<(int, Seq<(Seq<char>, CellView)>)>::empty() =~= emitted_view(rows@));
            }
            return Ok(rows);
        }
        proof {
            reader.lemma_cursor();
            lemma_pass_rows_fuel(*reader, plans@, cur.remaining());
            lemma_pass_ok_fuel(*reader, plans@, cur.remaining());
        }
        let ghost before = emitted_view(rows@);
        match process_record(reader, plans, &mut rows) {
            Err(e) => {
                return Err(e);
            },
            Ok(_) => {},
        }
        proof {
            let added = emitted_upto(reader, plans@, claims_upto(reader, plans@, plans@.len() as int), plans@.len() as int);
            assert(emitted_view(rows@) == before + added);
            assert(pass_rows(cur, plans@, cur.remaining() + 1) == added + pass_rows(*reader, plans@, reader.remaining() + 1));
            assert(before + (added + pass_rows(*reader, plans@, reader.remaining() + 1)) =~= (before + added) + pass_rows(*reader, plans@, reader.remaining() + 1));
        }
    }
}


/// The reader after `i + 1` steps from `s`: the `i`-th record of the scan.
pub open spec fn nth_record<R: FieldReader>(s: R, i: nat) -> R
    decreases i,
{
    if i == 0 {
        s.after_next().0
    } else {
        nth_record(s.after_next().0, (i - 1) as nat)
    }
}

proof fn lemma_scan_texts_nth<R: FieldReader>(s: R, title: Seq<char>, fuel: nat, i: nat)
    requires
        i < scan_texts(s, title, fuel).len(),
    ensures
        scan_texts(s, title, fuel)[i as int] == nth_record(s, i).str_value(title),
    decreases fuel,
{
    let (n, more) = s.after_next();
    if i > 0 {
        lemma_scan_texts_nth(n, title, (fuel - 1) as nat, (i - 1) as nat);
    }
}

/// Auto-fill over a whole run: when the records of a scan hold exactly one
/// non-empty value of field `title`, at record `k`, and every read of it
/// succeeds, the fill value that the scan finds is that value, and every
/// record of the scan emits it for the field, before or after `k`.
pub proof fn lemma_auto_fill_in_run<R: FieldReader>(st: R, title: Seq<char>, fill: Seq<char>, k: int)
    requires
        first_from(st, title, false, st.remaining() + 1) == Ok::<Seq<char>, FieldError>(fill),
        forall|i: int| 0 <= i < scan_texts(st, title, st.remaining() + 1).len()
            ==> #[trigger] scan_texts(st, title, st.remaining() + 1)[i] is Ok,
        0 <= k < scan_texts(st, title, st.remaining() + 1).len(),
        non_empty(ok_values(scan_texts(st, title, st.remaining() + 1))[k]),
        forall|i: int| 0 <= i < scan_texts(st, title, st.remaining() + 1).len() && i != k
            ==> !non_empty(#[trigger] ok_values(scan_texts(st, title, st.remaining() + 1))[i]),
    ensures
        Some(fill) == ok_values(scan_texts(st, title, st.remaining() + 1))[k],
        forall|i: nat| i < scan_texts(st, title, st.remaining() + 1).len() ==> cell_of(
            &#[trigger] nth_record(st, i),
            ColumnType::String,
            title,
            Some(fill),
        ) == Ok::<Option<CellView>, FieldError>(Some(CellView::Str(fill))),
{
    let f = (st.remaining() + 1) as nat;
    let ts = scan_texts(st, title, f);
    let vs = ok_values(ts);
    lemma_fill_is_first_non_empty(st, title, f);
    lemma_first_non_empty_unique(vs, k);
    lemma_auto_fill_determinism(vs, k);
    assert forall|i: nat| i < ts.len() implies cell_of(
        &#[trigger] nth_record(st, i),
        ColumnType::String,
        title,
        Some(fill),
    ) == Ok::<Option<CellView>, FieldError>(Some(CellView::Str(fill))) by {
        lemma_scan_texts_nth(st, title, f, i);
        assert(ts[i as int] is Ok);
        assert(vs[i as int] == ts[i as int]->Ok_0);
        assert(filled(vs[i as int], first_non_empty(vs)) == vs[k]);
    }
}


/// The reader states a scan from `s` visits, one per record, in order.
pub open spec fn record_states<R: FieldReader>(s: R, fuel: nat) -> Seq<R>
    decreases fuel,
{
    if fuel == 0 {
        Seq::empty()
    } else {
        let (n, more) = s.after_next();
        if !more {
            Seq::empty()
        } else {
            seq![n] + record_states(n, (fuel - 1) as nat)
        }
    }
}

/// The rows that the reports emit over the given record states, in order.
pub open spec fn rows_over<R: FieldReader>(states: Seq<R>, plans: Seq<ReportPlan>) -> Seq<(int, Seq<(Seq<char>, CellView)>)>
    decreases states.len(),
{
    if states.len() == 0 {
        Seq::empty()
    } else {
        emitted_upto(&states[0], plans, claims_upto(&states[0], plans, plans.len() as int), plans.len() as int)
            + rows_over(states.drop_first(), plans)
    }
}

/// One shared cursor: a run visits the same sequence of records whatever
/// reports are configured (`record_states` does not depend on them), and
/// every report is run against each visited record in turn.
pub proof fn lemma_pass_shares_records<R: FieldReader>(s: R, plans: Seq<ReportPlan>, fuel: nat)
    ensures
        pass_rows(s, plans, fuel) == rows_over(record_states(s, fuel), plans),
    decreases fuel,
{
    if fuel > 0 {
        let (n, more) = s.after_next();
        if more {
            lemma_pass_shares_records(n, plans, (fuel - 1) as nat);
            let st = record_states(s, fuel);
            assert(st.drop_first() =~= record_states(n, (fuel - 1) as nat));
            assert(st[0] == n);
        }
    }
}

} // verus!
