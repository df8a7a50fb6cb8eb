//! The report sinks: each accumulates the fields of the current record and
//! renders completed records as CSV lines or JSON objects.
use vstd::prelude::*;
use crate::codec::{chars_of, decimal_string, decimal_text, digit_char, string_of};
use crate::config::{copy_text, text_eq};

verus! {

#[derive(Clone, Copy, Debug, PartialEq, Eq, Structural)]
pub enum ReportFormat {
    Json,
    Csv,
}

#[derive(Clone, Copy, Debug, PartialEq, Eq, Structural)]
pub enum ReportOutput {
    ToFile,
    ToStdout,
}

/// The kind of a report, as tagged on rows written to standard output.
#[derive(Clone, Copy, Debug, PartialEq, Eq, Structural)]
pub enum ReportSuffix {
    FileReport,
    ActivityHistory,
    InternetHistory,
    Unknown,
}

/// A lower-case hexadecimal digit.
pub open spec fn lower_hex_digit(d: nat) -> char {
    if d < 10 {
        digit_char(d)
    } else if d == 10 {
        'a'
    } else if d == 11 {
        'b'
    } else if d == 12 {
        'c'
    } else if d == 13 {
        'd'
    } else if d == 14 {
        'e'
    } else {
        'f'
    }
}

/// How a JSON string writes one character: `"` and `\` escaped, the
/// control characters below U+0020 as `\b`, `\t`, `\n`, `\f`, `\r` or
/// `\u00XX`, every other character as it is.
pub open spec fn json_char(c: char) -> Seq<char> {
    let u = c as u32;
    if c == '"' {
        seq!['\\', '"']
    } else if c == '\\' {
        seq!['\\', '\\']
    } else if u == 8 {
        seq!['\\', 'b']
    } else if u == 9 {
        seq!['\\', 't']
    } else if u == 10 {
        seq!['\\', 'n']
    } else if u == 12 {
        seq!['\\', 'f']
    } else if u == 13 {
        seq!['\\', 'r']
    } else if u < 32 {
        seq!['\\', 'u', '0', '0', lower_hex_digit((u / 16) as nat), lower_hex_digit((u % 16) as nat)]
    } else {
        seq![c]
    }
}

/// The characters of a text as a JSON string writes them.
pub open spec fn json_chars(s: Seq<char>) -> Seq<char>
    decreases s.len(),
{
    if s.len() == 0 {
        Seq::empty()
    } else {
        json_chars(s.drop_last()) + json_char(s.last())
    }
}

/// The JSON string literal of a text: quoted, with its characters escaped.
pub open spec fn json_text(s: Seq<char>) -> Seq<char> {
    seq!['"'] + json_chars(s) + seq!['"']
}

/// Relies on `serde_json::to_string` of a `&str`, which cannot fail: the
/// quoted text with `"`, `\` and the control characters escaped by its
/// `ESCAPE` table and `write_char_escape` (lower-case `\u00XX`).
#[verifier::external_body]
fn json_string(s: &str) -> (r: String)
    ensures
        r@ == json_text(s@),
{
    serde_json::to_string(s).unwrap_or_default()
}

impl ReportSuffix {
    /// The kind of report that a report title names.
    pub fn get_match(output_type: &str) -> (r: Option<ReportSuffix>)
        ensures
            r == Some(if output_type@ == "File_Report"@ {
                ReportSuffix::FileReport
            } else if output_type@ == "Activity_History_Report"@ {
                ReportSuffix::ActivityHistory
            } else if output_type@ == "Internet_History_Report"@ {
                ReportSuffix::InternetHistory
            } else {
                ReportSuffix::Unknown
            }),
    {
        if text_eq(output_type, "File_Report") {
            Some(ReportSuffix::FileReport)
        } else if text_eq(output_type, "Activity_History_Report") {
            Some(ReportSuffix::ActivityHistory)
        } else if text_eq(output_type, "Internet_History_Report") {
            Some(ReportSuffix::InternetHistory)
        } else {
            Some(ReportSuffix::Unknown)
        }
    }

    /// The stable name of the kind, as a JSON string.
    pub fn message(&self) -> (r: String)
        ensures
            r@ == json_text(match self {
                ReportSuffix::FileReport => "file_report"@,
                ReportSuffix::ActivityHistory => "activity_history"@,
                ReportSuffix::InternetHistory => "internet_history"@,
                ReportSuffix::Unknown => ""@,
            }),
    {
        match self {
            ReportSuffix::FileReport => json_string("file_report"),
            ReportSuffix::ActivityHistory => json_string("activity_history"),
            ReportSuffix::InternetHistory => json_string("internet_history"),
            ReportSuffix::Unknown => json_string(""),
        }
    }
}

/// Texts joined by commas.
pub open spec fn joined(vals: Seq<Seq<char>>) -> Seq<char>
    decreases vals.len(),
{
    if vals.len() == 0 {
        Seq::empty()
    } else if vals.len() == 1 {
        vals[0]
    } else {
        joined(vals.drop_last()) + seq![','] + vals.last()
    }
}

/// Appends the texts joined by commas.
fn push_joined(out: &mut Vec<char>, vals: &Vec<String>)
    ensures
        final(out)@ == old(out)@ + joined(vals@.map_values(|s: String| s@)),
{
    let ghost view = vals@.map_values(|s: String| s@);
    let mut i: usize = 0;
    proof {
        assert(old(out)@ + joined(view.subrange(0, 0)) =~= old(out)@);
    }
    while i < vals.len()
        invariant
            view == vals@.map_values(|s: String| s@),
            i <= vals@.len(),
            out@ == old(out)@ + joined(view.subrange(0, i as int)),
        decreases vals@.len() - i,
    {
        let ghost before = out@;
        if i > 0 {
            out.push(',');
        }
        let cs = chars_of(vals[i].as_str());
        let mut k: usize = 0;
        let ghost mid = out@;
        while k < cs.len()
            invariant
                k <= cs@.len(),
                out@ == mid + cs@.subrange(0, k as int),
            decreases cs@.len() - k,
        {
            out.push(cs[k]);
            k = k + 1;
            proof {
                assert(out@ =~= mid + cs@.subrange(0, k as int));
            }
        }
        proof {
            let s1 = view.subrange(0, i + 1);
            assert(s1.drop_last() =~= view.subrange(0, i as int));
            assert(cs@.subrange(0, cs@.len() as int) =~= cs@);
            if i == 0 {
                assert(s1.len() == 1);
                assert(out@ =~= old(out)@ + joined(s1));
            } else {
                assert(out@ =~= old(out)@ + joined(s1));
            }
        }
        i = i + 1;
    }
    proof {
        assert(view.subrange(0, vals@.len() as int) =~= view);
    }
}

/// Appends the characters of a text.
fn push_text(out: &mut Vec<char>, s: &str)
    ensures
        final(out)@ == old(out)@ + s@,
{
    let cs = chars_of(s);
    let mut k: usize = 0;
    while k < cs.len()
        invariant
            k <= cs@.len(),
            cs@ == s@,
            out@ == old(out)@ + cs@.subrange(0, k as int),
        decreases cs@.len() - k,
    {
        out.push(cs[k]);
        k = k + 1;
        proof {
            assert(out@ =~= old(out)@ + cs@.subrange(0, k as int));
        }
    }
    proof {
        assert(cs@.subrange(0, cs@.len() as int) =~= cs@);
    }
}

/// `s` with every double quote doubled, as CSV escapes it.
pub open spec fn csv_escaped(s: Seq<char>) -> Seq<char>
    decreases s.len(),
{
    if s.len() == 0 {
        Seq::empty()
    } else if s.last() == '"' {
        csv_escaped(s.drop_last()) + seq!['"', '"']
    } else {
        csv_escaped(s.drop_last()).push(s.last())
    }
}

/// A CSV field holding text: quoted, with inner quotes doubled.
pub fn csv_quoted(s: &str) -> (r: String)
    ensures
        r@ == seq!['"'] + csv_escaped(s@) + seq!['"'],
{
    let cs = chars_of(s);
    let mut out: Vec<char> = Vec::new();
    out.push('"');
    let mut k: usize = 0;
    proof {
        assert(cs@.subrange(0, 0) =~= Seq::<char>::empty());
        assert(out@ =~= seq!['"'] + csv_escaped(cs@.subrange(0, 0)));
    }
    while k < cs.len()
        invariant
            k <= cs@.len(),
            out@ == seq!['"'] + csv_escaped(cs@.subrange(0, k as int)),
        decreases cs@.len() - k,
    {
        let c = cs[k];
        if c == '"' {
            out.push('"');
            out.push('"');
        } else {
            out.push(c);
        }
        proof {
            let s1 = cs@.subrange(0, k + 1);
            assert(s1.drop_last() =~= cs@.subrange(0, k as int));
            assert(out@ =~= seq!['"'] + csv_escaped(s1));
        }
        k = k + 1;
    }
    out.push('"');
    proof {
        assert(cs@.subrange(0, cs@.len() as int) =~= cs@);
        assert(out@ =~= seq!['"'] + csv_escaped(s@) + seq!['"']);
    }
    string_of(out.as_slice())
}


/// A sink for the fields of one record at a time.
pub trait Report {
    /// Declares a field, so that it has a column even when no record fills it.
    fn set_field(&mut self, f: &str);

    /// Completes the pending record and opens a new one.
    fn new_record(&mut self);

    fn str_val(&mut self, f: &str, s: String);

    fn int_val(&mut self, f: &str, n: u64);

    fn is_some_val_in_record(&self) -> bool;

    /// Completes the last record.
    fn footer(&mut self);
}

/// The view of field/value pairs.
pub open spec fn pairs_view(v: Seq<(String, String)>) -> Seq<(Seq<char>, Seq<char>)> {
    v.map_values(|e: (String, String)| (e.0@, e.1@))
}

/// The first index at or after `i` whose field is `f`.
pub open spec fn field_index(vals: Seq<(Seq<char>, Seq<char>)>, f: Seq<char>, i: int) -> Option<int>
    decreases vals.len() - i,
{
    if i < 0 || i >= vals.len() {
        None
    } else if vals[i].0 == f {
        Some(i)
    } else {
        field_index(vals, f, i + 1)
    }
}

/// The field/value pairs after setting field `f` to `v`: the first pair of
/// that field takes the value, or a new pair is added at the end.
pub open spec fn with_value(vals: Seq<(Seq<char>, Seq<char>)>, f: Seq<char>, v: Seq<char>) -> Seq<(Seq<char>, Seq<char>)> {
    match field_index(vals, f, 0) {
        Some(i) => vals.update(i, (f, v)),
        None => vals.push((f, v)),
    }
}

/// The header line of a CSV report.
pub open spec fn csv_header(vals: Seq<(Seq<char>, Seq<char>)>, to_stdout: bool) -> Seq<char> {
    (if to_stdout { "ReportSuffix,"@ } else { Seq::empty() }) + joined(vals.map_values(|e: (Seq<char>, Seq<char>)| e.0))
}

/// The line of one record in a CSV report, after its line break.
pub open spec fn csv_values(vals: Seq<(Seq<char>, Seq<char>)>, prefix: Seq<char>) -> Seq<char> {
    seq!['\n'] + prefix + joined(vals.map_values(|e: (Seq<char>, Seq<char>)| e.1))
}

/// Whether some field holds a value.
pub open spec fn some_value(vals: Seq<(Seq<char>, Seq<char>)>) -> bool {
    exists|i: int| 0 <= i < vals.len() && vals[i].1.len() > 0
}

/// The suffix tag that a stdout report writes before each record's values.
pub open spec fn suffix_tag(s: Option<ReportSuffix>) -> Seq<char> {
    match s {
        Some(x) => json_text(match x {
            ReportSuffix::FileReport => "file_report"@,
            ReportSuffix::ActivityHistory => "activity_history"@,
            ReportSuffix::InternetHistory => "internet_history"@,
            ReportSuffix::Unknown => ""@,
        }),
        None => Seq::empty(),
    }
}

/// A CSV report: one header line of the declared fields, then one line per
/// record with text quoted and missing values left empty.
pub struct ReportCsv {
    report_output: ReportOutput,
    report_suffix: Option<ReportSuffix>,
    first_record: bool,
    values: Vec<(String, String)>,
    out: Vec<char>,
}

impl ReportCsv {
    pub closed spec fn values(&self) -> Seq<(Seq<char>, Seq<char>)> {
        pairs_view(self.values@)
    }

    pub closed spec fn text(&self) -> Seq<char> {
        self.out@
    }

    pub closed spec fn first_record(&self) -> bool {
        self.first_record
    }

    pub closed spec fn to_stdout(&self) -> bool {
        self.report_output == ReportOutput::ToStdout
    }

    pub closed spec fn suffix(&self) -> Option<ReportSuffix> {
        self.report_suffix
    }

    /// An empty CSV report; the suffix tags records only on standard output.
    pub fn new(report_output: ReportOutput, report_suffix: Option<ReportSuffix>) -> (r: Self)
        ensures
            r.values() == Seq::<(Seq<char>, Seq<char>)>::empty(),
            r.text() == Seq::<char>::empty(),
            r.first_record(),
            r.to_stdout() == (report_output == ReportOutput::ToStdout),
            r.suffix() == if report_output == ReportOutput::ToStdout { report_suffix } else { None },
    {
        let report_suffix = match report_output {
            ReportOutput::ToFile => None,
            ReportOutput::ToStdout => report_suffix,
        };
        let r = ReportCsv { report_output, report_suffix, first_record: true, values: Vec::new(), out: Vec::new() };
        proof {
            assert(pairs_view(r.values@) =~= Seq::<(Seq<char>, Seq<char>)>::empty());
        }
        r
    }

    /// The text written so far.
    pub fn output(&self) -> (r: String)
        ensures
            r@ == self.text(),
    {
        string_of(self.out.as_slice())
    }

    /// Sets field `f` of the pending record to the CSV text `v`.
    pub fn update_field_with_value(&mut self, f: &str, v: String)
        ensures
            final(self).values() == with_value(old(self).values(), f@, v@),
            final(self).text() == old(self).text(),
            final(self).first_record() == old(self).first_record(),
            final(self).to_stdout() == old(self).to_stdout(),
            final(self).suffix() == old(self).suffix(),
    {
        let ghost vals = self.values();
        let mut i: usize = 0;
        while i < self.values.len()
            invariant
                vals == pairs_view(self.values@),
                self.values@ == old(self).values@,
                self.out@ == old(self).out@,
                self.first_record == old(self).first_record,
                self.report_output == old(self).report_output,
                self.report_suffix == old(self).report_suffix,
                i <= self.values@.len(),
                field_index(vals, f@, 0) == field_index(vals, f@, i as int),
            decreases self.values@.len() - i,
        {
            if text_eq(self.values[i].0.as_str(), f) {
                let name = copy_text(&self.values[i].0);
                let ghost before = self.values@;
                self.values.set(i, (name, v));
                proof {
                    assert(self.values@ == before.update(i as int, (name, v)));
                    assert(pairs_view(self.values@) =~= vals.update(i as int, (f@, v@)));
                }
                return;
            }
            i = i + 1;
        }
        let ghost before = self.values@;
        let name = f.to_string();
        self.values.push((name, v));
        proof {
            assert(self.values@ == before.push((name, v)));
            assert(pairs_view(self.values@) =~= vals.push((f@, v@)));
        }
    }

    /// Writes the header line of the declared fields.
    pub fn write_header(&mut self)
        ensures
            final(self).text() == old(self).text() + csv_header(old(self).values(), old(self).to_stdout()),
            final(self).values() == old(self).values(),
            final(self).first_record() == old(self).first_record(),
            final(self).to_stdout() == old(self).to_stdout(),
            final(self).suffix() == old(self).suffix(),
    {
        let ghost t0 = self.out@;
        if self.report_output == ReportOutput::ToStdout {
            push_text(&mut self.out, "ReportSuffix,");
        }
        let mut names: Vec<String> = Vec::new();
        let mut i: usize = 0;
        while i < self.values.len()
            invariant
                i <= self.values@.len(),
                names@.map_values(|s: String| s@) == pairs_view(self.values@).subrange(0, i as int).map_values(|e: (Seq<char>, Seq<char>)| e.0),
            decreases self.values@.len() - i,
        {
            let ghost before = names@;
            let nm = copy_text(&self.values[i].0);
            names.push(nm);
            proof {
                assert(names@ == before.push(nm));
                assert(pairs_view(self.values@)[i as int].0 == nm@);
                let pv = pairs_view(self.values@);
                assert(names@.map_values(|s: String| s@) =~= before.map_values(|s: String| s@).push(nm@));
                assert(pv.subrange(0, i + 1).map_values(|e: (Seq<char>, Seq<char>)| e.0) =~= pv.subrange(0, i as int).map_values(|e: (Seq<char>, Seq<char>)| e.0).push(pv[i as int].0));
            }
            i = i + 1;
            proof {
                assert(names@.map_values(|s: String| s@) =~= pairs_view(self.values@).subrange(0, i as int).map_values(|e: (Seq<char>, Seq<char>)| e.0));
            }
        }
        proof {
            assert(pairs_view(self.values@).subrange(0, self.values@.len() as int) =~= pairs_view(self.values@));
        }
        push_joined(&mut self.out, &names);
        proof {
            reveal_strlit("ReportSuffix,");
            assert(self.out@ =~= t0 + csv_header(old(self).values(), old(self).to_stdout()));
        }
    }

    /// Writes the pending record's line and clears its values.
    pub fn write_values(&mut self)
        ensures
            final(self).text() == old(self).text() + csv_values(
                old(self).values(),
                if old(self).to_stdout() { suffix_tag(old(self).suffix()) + seq![','] } else { Seq::empty() },
            ),
            final(self).values() == old(self).values().map_values(|e: (Seq<char>, Seq<char>)| (e.0, Seq::<char>::empty())),
            final(self).first_record() == old(self).first_record(),
            final(self).to_stdout() == old(self).to_stdout(),
            final(self).suffix() == old(self).suffix(),
    {
        let ghost t0 = self.out@;
        let ghost v0 = self.values();
        self.out.push('\n');
        if self.report_output == ReportOutput::ToStdout {
            match self.report_suffix {
                Some(x) => {
                    let m = x.message();
                    push_text(&mut self.out, m.as_str());
                },
                None => {},
            }
            self.out.push(',');
        }
        let mut vals: Vec<String> = Vec::new();
        let mut i: usize = 0;
        while i < self.values.len()
            invariant
                v0 == old(self).values(),
                i <= self.values@.len(),
                self.values@.len() == v0.len(),
                forall|k: int| 0 <= k < i ==> #[trigger] pairs_view(self.values@)[k] == (v0[k].0, Seq::<char>::empty()),
                forall|k: int| i <= k < self.values@.len() ==> #[trigger] pairs_view(self.values@)[k] == v0[k],
                vals@.map_values(|s: String| s@) == v0.subrange(0, i as int).map_values(|e: (Seq<char>, Seq<char>)| e.1),
                self.out@ == old(self).out@.push('\n') + (if old(self).to_stdout() { suffix_tag(old(self).suffix()) + seq![','] } else { Seq::empty() }),
                self.report_output == old(self).report_output,
                self.report_suffix == old(self).report_suffix,
                self.first_record == old(self).first_record,
            decreases self.values@.len() - i,
        {
            let name = copy_text(&self.values[i].0);
            let value = copy_text(&self.values[i].1);
            let ghost vb = vals@;
            vals.push(value);
            let ghost before = self.values@;
            proof {
                assert(pairs_view(before)[i as int] == v0[i as int]);
            }
            let ghost vals_before = vals@;
            let empty = String::new();
            self.values.set(i, (name, empty));
            proof {
                assert(self.values@ == before.update(i as int, (name, empty)));
                assert(pairs_view(self.values@)[i as int] == (v0[i as int].0, Seq::<char>::empty()));
                assert forall|k: int| 0 <= k < self.values@.len() && k != i implies #[trigger] pairs_view(self.values@)[k] == pairs_view(before)[k] by {}
                assert(vals@ == vb.push(value));
                assert(value@ == v0[i as int].1);
                assert(vals@.map_values(|s: String| s@) =~= vb.map_values(|s: String| s@).push(value@));
                assert(v0.subrange(0, i + 1).map_values(|e: (Seq<char>, Seq<char>)| e.1) =~= v0.subrange(0, i as int).map_values(|e: (Seq<char>, Seq<char>)| e.1).push(v0[i as int].1));
                assert(vals@.map_values(|s: String| s@) =~= v0.subrange(0, i + 1).map_values(|e: (Seq<char>, Seq<char>)| e.1));
            }
            i = i + 1;
        }
        proof {
            assert(v0.subrange(0, v0.len() as int) =~= v0);
        }
        push_joined(&mut self.out, &vals);
        proof {
            assert(pairs_view(self.values@) =~= v0.map_values(|e: (Seq<char>, Seq<char>)| (e.0, Seq::<char>::empty())));
            assert(self.out@ =~= t0 + csv_values(
                v0,
                if old(self).to_stdout() { suffix_tag(old(self).suffix()) + seq![','] } else { Seq::empty() },
            ));
        }
    }
}


impl Report for ReportCsv {
    fn set_field(&mut self, f: &str)
        ensures
            final(self).values() == with_value(old(self).values(), f@, Seq::empty()),
            final(self).text() == old(self).text(),
    {
        let empty = String::new();
        self.update_field_with_value(f, empty);
    }

    fn new_record(&mut self)
        ensures
            some_value(old(self).values()) ==> final(self).text() == old(self).text() + (if old(
                self,
            ).first_record() {
                csv_header(old(self).values(), old(self).to_stdout())
            } else {
                Seq::empty()
            }) + csv_values(
                old(self).values(),
                if old(self).to_stdout() { suffix_tag(old(self).suffix()) + seq![','] } else { Seq::empty() },
            ),
            some_value(old(self).values()) ==> final(self).values() == old(self).values().map_values(
                |e: (Seq<char>, Seq<char>)| (e.0, Seq::<char>::empty()),
            ) && !final(self).first_record(),
            !some_value(old(self).values()) ==> final(self).text() == old(self).text()
                && final(self).values() == old(self).values() && final(self).first_record()
                == old(self).first_record(),
    {
        if self.is_some_val_in_record() {
            let ghost t0 = self.text();
            if self.first_record {
                self.write_header();
                self.first_record = false;
            }
            let ghost t1 = self.text();
            self.write_values();
            proof {
                assert(self.text() =~= t0 + (if old(self).first_record() {
                    csv_header(old(self).values(), old(self).to_stdout())
                } else {
                    Seq::empty()
                }) + csv_values(
                    old(self).values(),
                    if old(self).to_stdout() { suffix_tag(old(self).suffix()) + seq![','] } else { Seq::empty() },
                ));
            }
        }
    }

    fn str_val(&mut self, f: &str, s: String)
        ensures
            final(self).values() == with_value(old(self).values(), f@, seq!['"'] + csv_escaped(s@) + seq!['"']),
            final(self).text() == old(self).text(),
    {
        let q = csv_quoted(s.as_str());
        self.update_field_with_value(f, q);
    }

    fn int_val(&mut self, f: &str, n: u64)
        ensures
            final(self).values() == with_value(old(self).values(), f@, decimal_text(n as nat)),
            final(self).text() == old(self).text(),
    {
        let d = decimal_string(n);
        self.update_field_with_value(f, d);
    }

    fn is_some_val_in_record(&self) -> (r: bool)
        ensures
            r == some_value(self.values()),
    {
        let mut i: usize = 0;
        while i < self.values.len()
            invariant
                i <= self.values@.len(),
                forall|k: int| 0 <= k < i ==> pairs_view(self.values@)[k].1.len() == 0,
            decreases self.values@.len() - i,
        {
            if !self.values[i].1.as_str().is_empty() {
                proof {
                    assert(pairs_view(self.values@)[i as int].1.len() > 0);
                }
                return true;
            }
            i = i + 1;
        }
        false
    }

    fn footer(&mut self) {
        self.new_record();
    }
}

/// A JSON report: one object per record, one record per line.
pub struct ReportJson {
    report_output: ReportOutput,
    report_suffix: Option<ReportSuffix>,
    first_record: bool,
    values: Vec<String>,
    out: Vec<char>,
}

/// The object of one record: its `"field":value` members joined by commas,
/// after the suffix tag on standard output.
pub open spec fn json_object(members: Seq<Seq<char>>, prefix: Seq<char>) -> Seq<char> {
    seq!['{'] + prefix + joined(members) + seq!['}']
}

impl ReportJson {
    pub closed spec fn members(&self) -> Seq<Seq<char>> {
        self.values@.map_values(|s: String| s@)
    }

    pub closed spec fn text(&self) -> Seq<char> {
        self.out@
    }

    pub closed spec fn first_record(&self) -> bool {
        self.first_record
    }

    pub closed spec fn prefix(&self) -> Seq<char> {
        if self.report_output == ReportOutput::ToStdout {
            json_text("report_suffix"@) + seq![':'] + suffix_tag(self.report_suffix) + seq![',']
        } else {
            Seq::empty()
        }
    }

    /// An empty JSON report; the suffix tags records only on standard output.
    pub fn new(report_output: ReportOutput, report_suffix: Option<ReportSuffix>) -> (r: Self)
        ensures
            r.members() == Seq::<Seq<char>>::empty(),
            r.text() == Seq::<char>::empty(),
            r.first_record(),
    {
        let report_suffix = match report_output {
            ReportOutput::ToFile => None,
            ReportOutput::ToStdout => report_suffix,
        };
        let r = ReportJson { report_output, report_suffix, first_record: true, values: Vec::new(), out: Vec::new() };
        proof {
            assert(r.members() =~= Seq::<Seq<char>>::empty());
        }
        r
    }

    /// The text written so far.
    pub fn output(&self) -> (r: String)
        ensures
            r@ == self.text(),
    {
        string_of(self.out.as_slice())
    }

    fn push_member(&mut self, f: &str, v: &str)
        ensures
            final(self).members() == old(self).members().push(seq!['"'] + f@ + seq!['"', ':'] + v@),
            final(self).text() == old(self).text(),
            final(self).first_record() == old(self).first_record(),
            final(self).prefix() == old(self).prefix(),
    {
        let mut m: Vec<char> = Vec::new();
        m.push('"');
        push_text(&mut m, f);
        m.push('"');
        m.push(':');
        push_text(&mut m, v);
        let member = string_of(m.as_slice());
        let ghost before = self.values@;
        self.values.push(member);
        proof {
            assert(self.values@ == before.push(member));
            assert(member@ =~= seq!['"'] + f@ + seq!['"', ':'] + v@);
            assert(self.members() =~= old(self).members().push(member@));
        }
    }

    /// Writes the pending record's object and clears its members.
    pub fn write_values(&mut self)
        ensures
            old(self).members().len() > 0 ==> final(self).text() == old(self).text() + json_object(
                old(self).members(),
                old(self).prefix(),
            ),
            old(self).members().len() == 0 ==> final(self).text() == old(self).text(),
            final(self).members() == Seq::<Seq<char>>::empty(),
            final(self).first_record() == old(self).first_record(),
            final(self).prefix() == old(self).prefix(),
    {
        if self.values.len() > 0 {
            let ghost t0 = self.out@;
            self.out.push('{');
            if self.report_output == ReportOutput::ToStdout {
                let key = json_string("report_suffix");
                push_text(&mut self.out, key.as_str());
                self.out.push(':');
                match self.report_suffix {
                    Some(x) => {
                        let m = x.message();
                        push_text(&mut self.out, m.as_str());
                    },
                    None => {},
                }
                self.out.push(',');
            }
            push_joined(&mut self.out, &self.values);
            self.out.push('}');
            proof {
                assert(self.out@ =~= t0 + json_object(old(self).members(), old(self).prefix()));
            }
        }
        self.values.clear();
        proof {
            assert(self.members() =~= Seq::<Seq<char>>::empty());
        }
    }
}

impl Report for ReportJson {
    fn set_field(&mut self, f: &str) {
    }

    fn new_record(&mut self)
        ensures
            old(self).members().len() > 0 ==> final(self).text() == old(self).text() + (if old(
                self,
            ).first_record() {
                Seq::empty()
            } else {
                seq!['\n']
            }) + json_object(old(self).members(), old(self).prefix()) && !final(self).first_record(),
            old(self).members().len() == 0 ==> final(self).text() == old(self).text()
                && final(self).first_record() == old(self).first_record(),
            final(self).members() == if old(self).members().len() > 0 { Seq::<Seq<char>>::empty() } else { old(self).members() },
    {
        if self.values.len() > 0 {
            let ghost t0 = self.out@;
            if !self.first_record {
                self.out.push('\n');
            } else {
                self.first_record = false;
            }
            self.write_values();
        }
    }

    fn str_val(&mut self, f: &str, s: String)
        ensures
            final(self).members() == old(self).members().push(seq!['"'] + f@ + seq!['"', ':'] + json_text(s@)),
            final(self).text() == old(self).text(),
    {
        let j = json_string(s.as_str());
        self.push_member(f, j.as_str());
    }

    fn int_val(&mut self, f: &str, n: u64)
        ensures
            final(self).members() == old(self).members().push(seq!['"'] + f@ + seq!['"', ':'] + decimal_text(n as nat)),
            final(self).text() == old(self).text(),
    {
        let d = decimal_string(n);
        self.push_member(f, d.as_str());
    }

    fn is_some_val_in_record(&self) -> (r: bool)
        ensures
            r == (self.members().len() > 0),
    {
        self.values.len() > 0
    }

    fn footer(&mut self) {
        self.new_record();
    }
}


/// The file extension of a report format.
pub open spec fn format_extension(f: ReportFormat) -> Seq<char> {
    match f {
        ReportFormat::Json => "json"@,
        ReportFormat::Csv => "csv"@,
    }
}

/// The name of a report's output file: `{hostname}_{report}_{timestamp}.{ext}`.
pub fn report_file_name(hostname: &str, report_suffix: &str, timestamp: &str, format: ReportFormat) -> (r: String)
    ensures
        r@ == hostname@ + seq!['_'] + report_suffix@ + seq!['_'] + timestamp@ + seq!['.']
            + format_extension(format),
{
    let mut out: Vec<char> = Vec::new();
    push_text(&mut out, hostname);
    out.push('_');
    push_text(&mut out, report_suffix);
    out.push('_');
    push_text(&mut out, timestamp);
    out.push('.');
    match format {
        ReportFormat::Json => push_text(&mut out, "json"),
        ReportFormat::Csv => push_text(&mut out, "csv"),
    }
    proof {
        assert(out@ =~= hostname@ + seq!['_'] + report_suffix@ + seq!['_'] + timestamp@ + seq!['.']
            + format_extension(format));
    }
    string_of(out.as_slice())
}


/// A report of either format.
pub enum ReportSink {
    Json(ReportJson),
    Csv(ReportCsv),
}

/// Names and creates the reports of one run: their directory, format, and
/// whether they go to files or to standard output.
pub struct ReportProducer {
    dir: String,
    format: ReportFormat,
    report_type: ReportOutput,
}

impl ReportProducer {
    pub closed spec fn dir(&self) -> Seq<char> {
        self.dir@
    }

    pub closed spec fn format(&self) -> ReportFormat {
        self.format
    }

    pub closed spec fn report_type(&self) -> ReportOutput {
        self.report_type
    }

    pub fn new(dir: &str, format: ReportFormat, report_type: ReportOutput) -> (r: Self)
        ensures
            r.dir() == dir@,
            r.format() == format,
            r.report_type() == report_type,
    {
        ReportProducer { dir: dir.to_string(), format, report_type }
    }

    /// The directory the reports are written to.
    pub fn dir_name(&self) -> (r: String)
        ensures
            r@ == self.dir(),
    {
        copy_text(&self.dir)
    }

    pub fn get_report_type(&self) -> (r: ReportOutput)
        ensures
            r == self.report_type(),
    {
        self.report_type
    }

    /// The file name of a new report, `{hostname}_{report}_{timestamp}.{ext}`,
    /// and an empty report of the producer's format, tagged with the kind
    /// that the report title names.
    pub fn new_report(&self, recovered_hostname: &str, report_suffix: &str, timestamp: &str) -> (r: (
        String,
        ReportSink,
    ))
        ensures
            r.0@ == recovered_hostname@ + seq!['_'] + report_suffix@ + seq!['_'] + timestamp@
                + seq!['.'] + format_extension(self.format()),
            (self.format() == ReportFormat::Csv) <==> (r.1 is Csv),
            r.1 matches ReportSink::Csv(c) ==> c.values() == Seq::<(Seq<char>, Seq<char>)>::empty()
                && c.text() == Seq::<char>::empty() && c.to_stdout() == (self.report_type()
                == ReportOutput::ToStdout),
            r.1 matches ReportSink::Json(j) ==> j.members() == Seq::<Seq<char>>::empty()
                && j.text() == Seq::<char>::empty(),
    {
        let name = report_file_name(recovered_hostname, report_suffix, timestamp, self.format);
        let suffix = ReportSuffix::get_match(report_suffix);
        let sink = match self.format {
            ReportFormat::Json => ReportSink::Json(ReportJson::new(self.report_type, suffix)),
            ReportFormat::Csv => ReportSink::Csv(ReportCsv::new(self.report_type, suffix)),
        };
        (name, sink)
    }
}

} // verus!
