//! The report configuration: logical columns with per-backend bindings, and
//! the constraint tokens attached to them.
use vstd::prelude::*;
use crate::codec::{chars_of, contains_seq, contains_str};

verus! {

/// How a logical column's value is typed.
#[derive(Clone, Copy, Debug, PartialEq, Eq, Structural)]
pub enum ColumnType {
    String,
    Integer,
    DateTime,
    GUID,
}

/// A backend binding: the ESE column name or the SQLite property code, and
/// the constraint tokens that apply to it.
#[derive(Clone, Debug)]
pub struct Column {
    pub name: String,
    pub constraint: Option<Vec<String>>,
}

/// One logical column: its title and kind, and its binding in each backend.
#[derive(Clone, Debug)]
pub struct ColumnPair {
    pub title: String,
    pub kind: ColumnType,
    pub edb: Column,
    pub sql: Column,
}

#[derive(Clone, Copy, Debug, PartialEq, Eq, Structural)]
pub enum OutputFormat {
    Csv,
    Json,
}

#[derive(Clone, Copy, Debug, PartialEq, Eq, Structural)]
pub enum OutputType {
    ToFile,
    ToStdout,
}

/// One report: its title, the column whose first value names its output,
/// an optional report-level constraint, and its ordered columns.
#[derive(Clone, Debug)]
pub struct ReportCfg {
    pub title: String,
    pub output_filename: String,
    pub constraint: Option<String>,
    pub columns: Vec<ColumnPair>,
}

/// The whole configuration.
#[derive(Clone, Debug)]
pub struct ReportsCfg {
    pub table_edb: String,
    pub table_sql: String,
    pub output_format: OutputFormat,
    pub output_type: OutputType,
    pub output_dir: String,
    pub reports: Vec<ReportCfg>,
}

pub const CONSTR_AUTO_FILL: &'static str = "auto_fill";
pub const CONSTR_HIDDEN: &'static str = "hidden";
pub const CONSTR_OPTIONAL: &'static str = "optional";
pub const CONSTR_REGEX: &'static str = "regex_matches";
/// The placeholder that a validating expression uses for the field's value.
pub const VALUE_PLACEHOLDER: &'static str = "{Value}";

/// The constraint tokens of a binding, as text.
pub open spec fn tokens_view(c: Option<Vec<String>>) -> Seq<Seq<char>> {
    match c {
        Some(v) => v@.map_values(|s: String| s@),
        None => Seq::empty(),
    }
}

/// Whether some token equals `t`.
pub open spec fn has_token(tokens: Seq<Seq<char>>, t: Seq<char>) -> bool {
    exists|i: int| 0 <= i < tokens.len() && tokens[i] == t
}

/// The last token that is neither `hidden` nor `optional`, searching the
/// first `n` tokens.
pub open spec fn last_other_token(tokens: Seq<Seq<char>>, n: int) -> Option<Seq<char>>
    decreases n,
{
    if n <= 0 {
        None
    } else if tokens[n - 1] != CONSTR_HIDDEN@ && tokens[n - 1] != CONSTR_OPTIONAL@ {
        Some(tokens[n - 1])
    } else {
        last_other_token(tokens, n - 1)
    }
}

/// A logical column resolved against one backend: its title, its validating
/// constraint if any, its visibility and optionality, and its position in the
/// report's column list.
#[derive(Clone, Debug)]
pub struct ConstrainedField {
    pub name: String,
    pub constraint: Option<String>,
    pub hidden: bool,
    pub optional: bool,
    pub idx: usize,
}

/// Whether two texts are equal.
pub fn text_eq(a: &str, b: &str) -> (r: bool)
    ensures
        r == (a@ == b@),
{
    let x = chars_of(a);
    let y = chars_of(b);
    if x.len() != y.len() {
        return false;
    }
    let mut i: usize = 0;
    while i < x.len()
        invariant
            x@ == a@,
            y@ == b@,
            x@.len() == y@.len(),
            i <= x@.len(),
            forall|k: int| 0 <= k < i ==> x@[k] == y@[k],
        decreases x@.len() - i,
    {
        if x[i] != y[i] {
            proof {
                assert(x@[i as int] != y@[i as int]);
            }
            return false;
        }
        i = i + 1;
    }
    proof {
        assert(x@ =~= y@);
    }
    true
}

/// Copies a string, keeping its text.
pub fn copy_text(s: &String) -> (r: String)
    ensures
        r@ == s@,
{
    s.clone()
}

/// Whether `f` is the resolution of a binding with these tokens for the
/// column `title` at position `idx`.
pub open spec fn resolved(f: ConstrainedField, title: Seq<char>, tokens: Seq<Seq<char>>, idx: int) -> bool {
    &&& f.name@ == title
    &&& f.idx == idx
    &&& f.hidden == has_token(tokens, CONSTR_HIDDEN@)
    &&& f.optional == has_token(tokens, CONSTR_OPTIONAL@)
    &&& f.constraint matches Some(c) ==> last_other_token(tokens, tokens.len() as int) == Some(c@)
    &&& f.constraint is None ==> last_other_token(tokens, tokens.len() as int) is None
}

impl ConstrainedField {
    /// Resolves the tokens of a binding: `hidden` and `optional` set their
    /// flags, and the last other token becomes the field's constraint.
    pub fn new(name: &str, constraints: &Option<Vec<String>>, idx: usize) -> (r: Self)
        ensures
            resolved(r, name@, tokens_view(*constraints), idx as int),
    {
        let mut hidden = false;
        let mut optional = false;
        let mut constraint: Option<String> = None;
        let ghost tokens = tokens_view(*constraints);
        match constraints {
            Some(v) => {
                let mut i: usize = 0;
                while i < v.len()
                    invariant
                        tokens == v@.map_values(|s: String| s@),
                        i <= v@.len(),
                        hidden == (exists|k: int| 0 <= k < i && tokens[k] == CONSTR_HIDDEN@),
                        optional == (exists|k: int| 0 <= k < i && tokens[k] == CONSTR_OPTIONAL@),
                        constraint matches Some(c) ==> last_other_token(tokens, i as int) == Some(
                            c@,
                        ),
                        constraint is None ==> last_other_token(tokens, i as int) is None,
                    decreases v@.len() - i,
                {
                    let s = &v[i];
                    let ghost t = tokens[i as int];
                    assert(t == s@);
                    if text_eq(s.as_str(), CONSTR_HIDDEN) {
                        hidden = true;
                    } else if text_eq(s.as_str(), CONSTR_OPTIONAL) {
                        optional = true;
                    } else {
                        constraint = Some(copy_text(s));
                    }
                    proof {
                        reveal_strlit("hidden");
                        reveal_strlit("optional");
                        assert(CONSTR_HIDDEN@[0] != CONSTR_OPTIONAL@[0]);
                        if optional {
                            if t == CONSTR_OPTIONAL@ {
                                assert(tokens[i as int] == CONSTR_OPTIONAL@);
                            }
                        } else {
                            assert forall|k: int| 0 <= k < i + 1 implies tokens[k]
                                != CONSTR_OPTIONAL@ by {
                                if k == i {
                                    assert(t != CONSTR_OPTIONAL@);
                                }
                            }
                        }
                        if !hidden {
                            assert forall|k: int| 0 <= k < i + 1 implies tokens[k]
                                != CONSTR_HIDDEN@ by {
                                if k == i {
                                    assert(t != CONSTR_HIDDEN@);
                                }
                            }
                        }
                    }
                    i = i + 1;
                }
            },
            None => {},
        }
        ConstrainedField { name: name.to_string(), constraint, hidden, optional, idx }
    }
}

/// Whether a constraint is one that the engine acts on.
pub open spec fn is_known_constraint(c: Seq<char>) -> bool {
    ||| contains_seq(c, CONSTR_AUTO_FILL@)
    ||| contains_seq(c, CONSTR_HIDDEN@)
    ||| contains_seq(c, CONSTR_REGEX@)
    ||| contains_seq(c, CONSTR_OPTIONAL@)
    ||| contains_seq(c, VALUE_PLACEHOLDER@)
}

/// Whether a constraint validates the field's value: a `regex_matches`
/// test or an expression over `{Value}`.
pub open spec fn is_validating(c: Seq<char>) -> bool {
    contains_seq(c, CONSTR_REGEX@) || contains_seq(c, VALUE_PLACEHOLDER@)
}

/// Whether a constraint asks for missing values to be filled.
pub open spec fn is_auto_fill(c: Seq<char>) -> bool {
    contains_seq(c, CONSTR_AUTO_FILL@)
}

pub fn known_constraint(c: &str) -> (r: bool)
    ensures
        r == is_known_constraint(c@),
{
    contains_str(c, CONSTR_AUTO_FILL) || contains_str(c, CONSTR_HIDDEN) || contains_str(
        c,
        CONSTR_REGEX,
    ) || contains_str(c, CONSTR_OPTIONAL) || contains_str(c, VALUE_PLACEHOLDER)
}

pub fn validating_constraint(c: &str) -> (r: bool)
    ensures
        r == is_validating(c@),
{
    contains_str(c, CONSTR_REGEX) || contains_str(c, VALUE_PLACEHOLDER)
}

pub fn auto_fill_constraint(c: &str) -> (r: bool)
    ensures
        r == is_auto_fill(c@),
{
    contains_str(c, CONSTR_AUTO_FILL)
}

} // verus!
