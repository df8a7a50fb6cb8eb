//! The SQLite backend: entity-attribute-value rows folded into logical
//! records, one WorkId at a time.
use vstd::prelude::*;
use crate::codec::{
    decode_le_int, find_guid, get_date_time_from_filetime, le_u64, le_value, guid_after,
    filetime_instant, signed_le_value, FieldError, UtcDateTime, };
use crate::config::{copy_text, resolved, text_eq, tokens_view, ColumnPair, ConstrainedField};
use multimap::MultiMap;

verus! {

/// A value as SQLite stores it. Floating-point values are not read by any
/// report, so only their presence is kept.
#[derive(Clone, Debug)]
pub enum SqlValue {
    Null,
    Integer(i64),
    Float,
    Text(String),
    Binary(Vec<u8>),
}

/// One physical row of the property store: `(WorkId, ColumnId, Value)`.
#[derive(Clone, Debug)]
pub struct SqlRow {
    pub work_id: i64,
    pub column_id: String,
    pub value: SqlValue,
}

/// The title under which every reconstructed record carries its WorkId.
pub const WORK_ID_TITLE: &'static str = "WorkId";

/// Whether the map sends property `code` to the column titled `title`.
pub open spec fn maps_to(d: Seq<(Seq<char>, Seq<char>)>, code: Seq<char>, title: Seq<char>) -> bool {
    exists|i: int| 0 <= i < d.len() && d[i] == (code, title)
}

/// The first index at or after `j` whose row has another WorkId than `w`
/// (or the end of the rows): where the group that holds `j - 1` stops.
pub open spec fn group_end(rows: Seq<SqlRow>, w: i64, j: int) -> int
    decreases rows.len() - j,
{
    if j >= rows.len() || rows[j].work_id != w {
        j
    } else {
        group_end(rows, w, j + 1)
    }
}

/// The last row in `[start, end)` whose property the map sends to `title`:
/// the row whose value the reconstructed record holds under that title.
pub open spec fn title_row(
    rows: Seq<SqlRow>,
    d: Seq<(Seq<char>, Seq<char>)>,
    title: Seq<char>,
    start: int,
    end: int,
) -> Option<int>
    decreases end - start,
{
    if end <= start {
        None
    } else if maps_to(d, rows[end - 1].column_id@, title) {
        Some(end - 1)
    } else {
        title_row(rows, d, title, start, end - 1)
    }
}

/// The record that a reader currently exposes: the rows `[start, end)` that
/// share `work_id`.
#[derive(Clone, Copy, Debug)]
pub struct Group {
    pub start: usize,
    pub end: usize,
    pub work_id: i64,
}

#[verifier::external_type_specification]
#[verifier::external_body]
#[verifier::reject_recursive_types(K)]
#[verifier::reject_recursive_types(V)]
#[verifier::reject_recursive_types(S)]
pub struct ExMultiMap<K, V, S>(MultiMap<K, V, S>);

/// The map from property code to the fields that the code feeds.
pub type CodeColDict = MultiMap<String, usize>;

/// What a code-to-column multimap holds: for each property code, the
/// positions of the bound fields it feeds, in insertion order.
pub uninterp spec fn multimap_entries(m: CodeColDict) -> Map<Seq<char>, Seq<usize>>;

/// Relies on `MultiMap::new`: an empty multimap.
#[verifier::external_body]
fn code_map_new() -> (r: CodeColDict)
    ensures
        multimap_entries(r).dom() == Set::<Seq<char>>::empty(),
{
    MultiMap::new()
}

/// Relies on `MultiMap::insert`: the value is appended to the key's list,
/// which starts as that one value when the key is new.
#[verifier::external_body]
fn code_map_insert(m: &mut CodeColDict, k: String, v: usize)
    ensures
        multimap_entries(*final(m)) == multimap_entries(*old(m)).insert(
            k@,
            if multimap_entries(*old(m)).contains_key(k@) {
                multimap_entries(*old(m))[k@].push(v)
            } else {
                seq![v]
            },
        ),
{
    m.insert(k, v)
}

/// Relies on `MultiMap::get_vec`: the key's list, if the key is present.
#[verifier::external_body]
fn code_map_get(m: &CodeColDict, k: &str) -> (r: Option<Vec<usize>>)
    ensures
        match r {
            Some(v) => multimap_entries(*m).contains_key(k@) && v@ == multimap_entries(*m)[k@],
            None => !multimap_entries(*m).contains_key(k@),
        },
{
    m.get_vec(k).cloned()
}

/// Whether the multimap sends `code` to a field titled `title`.
pub open spec fn entry_maps(
    e: Map<Seq<char>, Seq<usize>>,
    fields: Seq<ConstrainedField>,
    code: Seq<char>,
    title: Seq<char>,
) -> bool {
    e.contains_key(code) && exists|j: int|
        0 <= j < e[code].len() && #[trigger] fields[e[code][j] as int].name@ == title
}

/// The SQLite record reader. It walks the physical rows (ordered by WorkId)
/// and exposes one logical record per WorkId.
pub struct SqlReader {
    rows: Vec<SqlRow>,
    pos: usize,
    last_work_id: i64,
    /// Property code to positions in `fields`.
    code_col_dict: CodeColDict,
    /// The bound fields, in the order they were bound.
    fields: Vec<ConstrainedField>,
    /// Every binding made so far, as `(property code, column title)`.
    pairs: Ghost<Seq<(Seq<char>, Seq<char>)>>,
    group: Option<Group>,
}

/// Copies a resolved field, keeping every part of it.
pub fn copy_field(f: &ConstrainedField) -> (r: ConstrainedField)
    ensures
        r.name@ == f.name@,
        r.constraint matches Some(c) ==> f.constraint matches Some(c0) && c@ == c0@,
        r.constraint is None ==> f.constraint is None,
        r.hidden == f.hidden,
        r.optional == f.optional,
        r.idx == f.idx,
{
    let constraint = match &f.constraint {
        Some(c) => Some(copy_text(c)),
        None => None,
    };
    ConstrainedField {
        name: copy_text(&f.name),
        constraint,
        hidden: f.hidden,
        optional: f.optional,
        idx: f.idx,
    }
}

impl SqlReader {
    pub closed spec fn rows(&self) -> Seq<SqlRow> {
        self.rows@
    }

    pub closed spec fn pos(&self) -> int {
        self.pos as int
    }

    pub closed spec fn last_work_id(&self) -> i64 {
        self.last_work_id
    }

    pub closed spec fn dict(&self) -> Seq<(Seq<char>, Seq<char>)> {
        self.pairs@
    }

    pub closed spec fn group(&self) -> Option<Group> {
        self.group
    }

    pub closed spec fn wf(&self) -> bool {
        &&& self.rows@.len() <= usize::MAX
        &&& self.pos <= self.rows@.len()
        &&& self.group matches Some(g) ==> g.start < g.end <= self.rows@.len()
        &&& forall|code: Seq<char>, j: int|
            #![trigger multimap_entries(self.code_col_dict)[code][j]]
            multimap_entries(self.code_col_dict).contains_key(code) && 0 <= j < multimap_entries(
                self.code_col_dict,
            )[code].len() ==> multimap_entries(self.code_col_dict)[code][j] < self.fields@.len()
        &&& forall|code: Seq<char>, title: Seq<char>|
            #[trigger] maps_to(self.pairs@, code, title) <==> entry_maps(
                multimap_entries(self.code_col_dict),
                self.fields@,
                code,
                title,
            )
    }

    /// A reader over the physical rows of the property store, in the order
    /// that the store returns them (by WorkId).
    pub fn new(rows: Vec<SqlRow>) -> (r: Self)
        ensures
            r.wf(),
            r.rows() == rows@,
            r.pos() == 0,
            r.last_work_id() == 0,
            r.dict() == Seq::<(Seq<char>, Seq<char>)>::empty(),
            r.group() is None,
    {
        let _n = rows.len();
        let r = SqlReader {
            rows,
            pos: 0,
            last_work_id: 0,
            code_col_dict: code_map_new(),
            fields: Vec::new(),
            pairs: Ghost(Seq::empty()),
            group: None,
        };
        r
    }

    /// The reader rewound to its first row.
    pub closed spec fn rewound(&self) -> SqlReader {
        SqlReader { pos: 0, last_work_id: 0, group: None, ..*self }
    }

    /// The reader after one step, and whether the step found a record.
    pub closed spec fn stepped(&self) -> (SqlReader, bool) {
        let (p, l, g, r) = next_step(self.rows@, self.pos as int, self.last_work_id);
        (SqlReader { pos: p as usize, last_work_id: l, group: g, ..*self }, r)
    }

    pub proof fn lemma_cursor(&self)
        requires
            self.wf(),
        ensures
            self.rewound().wf(),
            self.stepped().0.wf(),
            self.stepped().1 ==> self.stepped().0.pos() > self.pos(),
            self.stepped().0.pos() <= self.rows().len(),
            self.stepped().0.rows() == self.rows(),
            self.rewound().rows() == self.rows(),
            self.stepped().0.rewound() == self.rewound(),
            self.rewound().rewound() == self.rewound(),
    {
        if self.pos < self.rows@.len() && self.rows@[self.pos as int].work_id >= self.last_work_id {
            lemma_group_end_bounds(self.rows@, self.rows@[self.pos as int].work_id, self.pos + 1);
        }
    }

    /// Rewinds to the first physical row; `false` when there is none.
    pub fn first_row(&mut self) -> (r: bool)
        requires
            old(self).wf(),
        ensures
            final(self).wf(),
            *final(self) == old(self).rewound(),
            r == (old(self).rows().len() > 0),
            final(self).rows() == old(self).rows(),
            final(self).dict() == old(self).dict(),
            final(self).pos() == 0,
            final(self).last_work_id() == 0,
            final(self).group() is None,
    {
        self.pos = 0;
        self.last_work_id = 0;
        self.group = None;
        self.rows.len() > 0
    }
}


/// What one step of the reader does from cursor `pos` with `last` as the
/// WorkId of the previous record: the new cursor, the new last WorkId, the
/// record it exposes, and whether it found one.
///
/// A row whose WorkId is below `last` is a rewind: no record is built, the
/// row stays unread, and `last` goes back to zero so that the next step takes
/// that row.
pub open spec fn next_step(rows: Seq<SqlRow>, pos: int, last: i64) -> (int, i64, Option<Group>, bool) {
    if pos >= rows.len() {
        (pos, last, None, false)
    } else if rows[pos].work_id < last {
        (pos, 0, None, false)
    } else {
        let w = rows[pos].work_id;
        let e = group_end(rows, w, pos + 1);
        (e, w, Some(Group { start: pos as usize, end: e as usize, work_id: w }), true)
    }
}

pub proof fn lemma_group_end_bounds(rows: Seq<SqlRow>, w: i64, j: int)
    requires
        0 <= j <= rows.len(),
    ensures
        j <= group_end(rows, w, j) <= rows.len(),
        forall|k: int| j <= k < group_end(rows, w, j) ==> rows[k].work_id == w,
    decreases rows.len() - j,
{
    if j < rows.len() && rows[j].work_id == w {
        lemma_group_end_bounds(rows, w, j + 1);
    }
}

/// Where the value of a title lives in the current record.
pub enum Located {
    Absent,
    Row(usize),
    WorkId(i64),
}

/// The value that the current record holds under `title`, if any.
pub open spec fn record_value(
    rows: Seq<SqlRow>,
    d: Seq<(Seq<char>, Seq<char>)>,
    group: Option<Group>,
    title: Seq<char>,
) -> Option<SqlValue> {
    match group {
        None => None,
        Some(g) => if title.len() == 0 {
            None
        } else {
            match title_row(rows, d, title, g.start as int, g.end as int) {
                Some(k) => Some(rows[k].value),
                None => if title == WORK_ID_TITLE@ {
                    Some(SqlValue::Integer(g.work_id))
                } else {
                    None
                },
            }
        },
    }
}

/// The integer that a stored value gives: integers as they are, 8-byte
/// binaries as little-endian integers.
pub open spec fn sql_int(v: Option<SqlValue>) -> Result<Option<i64>, FieldError> {
    match v {
        None => Ok(None),
        Some(SqlValue::Null) => Ok(None),
        Some(SqlValue::Integer(x)) => Ok(Some(x)),
        Some(SqlValue::Binary(b)) => if b@.len() == 8 {
            Ok(Some(signed_le_value(b@) as i64))
        } else {
            Err(FieldError::WidthMismatch { expected: 8, found: b@.len() as usize })
        },
        Some(_) => Err(FieldError::TypeMismatch),
    }
}

/// The text that a stored value gives.
pub open spec fn sql_text(v: Option<SqlValue>) -> Result<Option<Seq<char>>, FieldError> {
    match v {
        None => Ok(None),
        Some(SqlValue::Null) => Ok(None),
        Some(SqlValue::Text(s)) => Ok(Some(s@)),
        Some(_) => Err(FieldError::TypeMismatch),
    }
}

/// The instant that a stored value gives: an 8-byte FILETIME.
pub open spec fn sql_date_time(v: Option<SqlValue>) -> Result<Option<UtcDateTime>, FieldError> {
    match v {
        None => Ok(None),
        Some(SqlValue::Null) => Ok(None),
        Some(SqlValue::Binary(b)) => if b@.len() == 8 {
            Ok(Some(filetime_instant(le_value(b@) as u64)))
        } else {
            Err(FieldError::WidthMismatch { expected: 8, found: b@.len() as usize })
        },
        Some(_) => Err(FieldError::TypeMismatch),
    }
}

/// The view of a text result.
pub open spec fn text_result(r: Result<Option<String>, FieldError>) -> Result<Option<Seq<char>>, FieldError> {
    match r {
        Ok(Some(s)) => Ok(Some(s@)),
        Ok(None) => Ok(None),
        Err(e) => Err(e),
    }
}

/// The GUID that a text result gives for the field `title`: the part after
/// `title=` up to the closing brace.
pub open spec fn guid_result(t: Result<Option<Seq<char>>, FieldError>, title: Seq<char>) -> Result<Option<Seq<char>>, FieldError> {
    match t {
        Ok(Some(s)) => Ok(Some(guid_after(s, title + seq!['=']))),
        other => other,
    }
}

/// The text `title=` that marks a GUID inside a composite value.
pub fn guid_key(title: &str) -> (r: String)
    ensures
        r@ == title@ + seq!['='],
{
    let mut s = title.to_string();
    s.append("=");
    proof {
        reveal_strlit("=");
    }
    s
}

impl SqlReader {
    /// The value that the current record holds under `title`.
    pub open spec fn value_of(&self, title: Seq<char>) -> Option<SqlValue> {
        record_value(self.rows(), self.dict(), self.group(), title)
    }

    /// Steps to the next logical record: the rows that follow the cursor and
    /// share its WorkId. Returns whether a record was built.
    pub fn next(&mut self) -> (r: bool)
        requires
            old(self).wf(),
        ensures
            final(self).wf(),
            final(self).rows() == old(self).rows(),
            final(self).dict() == old(self).dict(),
            (final(self).pos(), final(self).last_work_id(), final(self).group(), r) == next_step(
                old(self).rows(),
                old(self).pos(),
                old(self).last_work_id(),
            ),
            r ==> final(self).pos() > old(self).pos(),
            final(self).pos() <= final(self).rows().len(),
            (*final(self), r) == old(self).stepped(),
    {
        self.group = None;
        let n = self.rows.len();
        if self.pos >= n {
            return false;
        }
        let w = self.rows[self.pos].work_id;
        if w < self.last_work_id {
            self.last_work_id = 0;
            return false;
        }
        let start = self.pos;
        let mut j: usize = start + 1;
        while j < n && self.rows[j].work_id == w
            invariant
                n == self.rows@.len(),
                start < j <= n,
                group_end(self.rows@, w, start + 1) == group_end(self.rows@, w, j as int),
            decreases n - j,
        {
            j = j + 1;
        }
        self.pos = j;
        self.last_work_id = w;
        self.group = Some(Group { start, end: j, work_id: w });
        true
    }

    /// Whether the map sends property `code` to the column titled `title`.
    fn code_maps_to(&self, code: &str, title: &str) -> (r: bool)
        requires
            self.wf(),
        ensures
            r == maps_to(self.dict(), code@, title@),
    {
        let ghost e = multimap_entries(self.code_col_dict);
        proof {
            assert(maps_to(self.pairs@, code@, title@) == entry_maps(e, self.fields@, code@, title@));
        }
        match code_map_get(&self.code_col_dict, code) {
            None => false,
            Some(idx) => {
                let mut j: usize = 0;
                while j < idx.len()
                    invariant
                        self.wf(),
                        e == multimap_entries(self.code_col_dict),
                        e.contains_key(code@),
                        idx@ == e[code@],
                        j <= idx@.len(),
                        forall|k: int| 0 <= k < j ==> #[trigger] self.fields@[idx@[k] as int].name@ != title@,
                    decreases idx@.len() - j,
                {
                    let f = idx[j];
                    proof {
                        assert(e[code@][j as int] < self.fields@.len());
                    }
                    if text_eq(self.fields[f].name.as_str(), title) {
                        return true;
                    }
                    j = j + 1;
                }
                proof {
                    assert forall|k: int| 0 <= k < e[code@].len() implies #[trigger] self.fields@[e[code@][k] as int].name@ != title@ by {
                        assert(idx@[k] == e[code@][k]);
                    }
                }
                false
            },
        }
    }

    /// Finds where the current record keeps the value of `title`.
    pub fn locate(&self, title: &str) -> (r: Located)
        requires
            self.wf(),
        ensures
            self.value_of(title@) == match r {
                Located::Absent => None,
                Located::Row(k) => Some(self.rows()[k as int].value),
                Located::WorkId(w) => Some(SqlValue::Integer(w)),
            },
            r matches Located::Row(k) ==> k < self.rows().len(),
    {
        let g = match self.group {
            None => {
                return Located::Absent;
            },
            Some(g) => g,
        };
        if title.is_empty() {
            return Located::Absent;
        }
        let mut k: usize = g.end;
        while k > g.start
            invariant
                self.wf(),
                g.start <= k <= g.end <= self.rows@.len(),
                self.group == Some(g),
                title@.len() > 0,
                title_row(self.rows@, self.dict(), title@, g.start as int, g.end as int)
                    == title_row(self.rows@, self.dict(), title@, g.start as int, k as int),
            decreases k,
        {
            if self.code_maps_to(self.rows[k - 1].column_id.as_str(), title) {
                return Located::Row(k - 1);
            }
            k = k - 1;
        }
        if text_eq(title, WORK_ID_TITLE) {
            Located::WorkId(g.work_id)
        } else {
            Located::Absent
        }
    }

    /// The current record's integer under `title`.
    pub fn get_int(&self, title: &str) -> (r: Result<Option<i64>, FieldError>)
        requires
            self.wf(),
        ensures
            r == sql_int(self.value_of(title@)),
    {
        match self.locate(title) {
            Located::Absent => Ok(None),
            Located::WorkId(w) => Ok(Some(w)),
            Located::Row(k) => match &self.rows[k].value {
                SqlValue::Null => Ok(None),
                SqlValue::Integer(x) => Ok(Some(*x)),
                SqlValue::Binary(b) => match decode_le_int(b.as_slice(), 8) {
                    Ok(v) => Ok(Some(v)),
                    Err(e) => Err(e),
                },
                _ => Err(FieldError::TypeMismatch),
            },
        }
    }

    /// The current record's text under `title`.
    pub fn get_str(&self, title: &str) -> (r: Result<Option<String>, FieldError>)
        requires
            self.wf(),
        ensures
            text_result(r) == sql_text(self.value_of(title@)),
    {
        match self.locate(title) {
            Located::Absent => Ok(None),
            Located::WorkId(_) => Err(FieldError::TypeMismatch),
            Located::Row(k) => match &self.rows[k].value {
                SqlValue::Null => Ok(None),
                SqlValue::Text(s) => Ok(Some(copy_text(s))),
                _ => Err(FieldError::TypeMismatch),
            },
        }
    }

    /// The current record's instant under `title`, stored as a FILETIME.
    pub fn get_datetime(&self, title: &str) -> (r: Result<Option<UtcDateTime>, FieldError>)
        requires
            self.wf(),
        ensures
            r == sql_date_time(self.value_of(title@)),
    {
        match self.locate(title) {
            Located::Absent => Ok(None),
            Located::WorkId(_) => Err(FieldError::TypeMismatch),
            Located::Row(k) => match &self.rows[k].value {
                SqlValue::Null => Ok(None),
                SqlValue::Binary(b) => {
                    if b.len() != 8 {
                        Err(FieldError::WidthMismatch { expected: 8, found: b.len() })
                    } else {
                        Ok(Some(get_date_time_from_filetime(le_u64(b.as_slice()))))
                    }
                },
                _ => Err(FieldError::TypeMismatch),
            },
        }
    }

    /// The GUID held in the current record's text under `title`: the part
    /// after `title=`, up to and including the closing brace.
    pub fn get_guid(&self, title: &str) -> (r: Result<Option<String>, FieldError>)
        requires
            self.wf(),
        ensures
            text_result(r) == guid_result(sql_text(self.value_of(title@)), title@),
    {
        match self.get_str(title) {
            Ok(Some(s)) => {
                let key = guid_key(title);
                Ok(Some(find_guid(s.as_str(), key.as_str())))
            },
            Ok(None) => Ok(None),
            Err(e) => Err(e),
        }
    }
}


/// The positions of the columns that have a SQLite binding, among the first `n`.
pub open spec fn sql_positions(cols: Seq<ColumnPair>, n: int) -> Seq<int>
    decreases n,
{
    if n <= 0 {
        Seq::empty()
    } else if cols[n - 1].sql.name@.len() > 0 {
        sql_positions(cols, n - 1).push(n - 1)
    } else {
        sql_positions(cols, n - 1)
    }
}

pub proof fn lemma_sql_positions_bounds(cols: Seq<ColumnPair>, n: int)
    requires
        0 <= n <= cols.len(),
    ensures
        forall|i: int| 0 <= i < sql_positions(cols, n).len() ==> 0 <= #[trigger] sql_positions(cols, n)[i] < n,
    decreases n,
{
    if n > 0 {
        lemma_sql_positions_bounds(cols, n - 1);
        let prev = sql_positions(cols, n - 1);
        if cols[n - 1].sql.name@.len() > 0 {
            assert forall|i: int| 0 <= i < sql_positions(cols, n).len() implies 0
                <= #[trigger] sql_positions(cols, n)[i] < n by {
                if i < prev.len() {
                    assert(sql_positions(cols, n)[i] == prev[i]);
                }
            }
        }
    }
}

impl SqlReader {
    /// Binds the columns that have a SQLite binding: each one's property code
    /// is added to the code-to-column map, and its resolved field returned,
    /// in column order.
    pub fn get_used_columns(&mut self, columns: &Vec<ColumnPair>) -> (r: Vec<ConstrainedField>)
        requires
            old(self).wf(),
        ensures
            final(self).wf(),
            final(self).rows() == old(self).rows(),
            final(self).pos() == old(self).pos(),
            final(self).last_work_id() == old(self).last_work_id(),
            final(self).group() == old(self).group(),
            ({
                let p = sql_positions(columns@, columns@.len() as int);
                &&& r@.len() == p.len()
                &&& forall|i: int| 0 <= i < p.len() ==> resolved(
                    #[trigger] r@[i],
                    columns@[p[i]].title@,
                    tokens_view(columns@[p[i]].sql.constraint),
                    p[i],
                )
                &&& final(self).dict() == old(self).dict() + Seq::new(
                    p.len(),
                    |i: int| (columns@[p[i]].sql.name@, columns@[p[i]].title@),
                )
            }),
    {
        let mut used: Vec<ConstrainedField> = Vec::new();
        let mut no: usize = 0;
        let ghost d0 = self.dict();
        while no < columns.len()
            invariant
                self.wf(),
                self.rows() == old(self).rows(),
                self.pos() == old(self).pos(),
                self.last_work_id() == old(self).last_work_id(),
                self.group() == old(self).group(),
                d0 == old(self).dict(),
                no <= columns@.len(),
                ({
                    let p = sql_positions(columns@, no as int);
                    &&& used@.len() == p.len()
                    &&& forall|i: int| 0 <= i < p.len() ==> resolved(
                        #[trigger] used@[i],
                        columns@[p[i]].title@,
                        tokens_view(columns@[p[i]].sql.constraint),
                        p[i],
                    )
                    &&& self.dict() == d0 + Seq::new(
                        p.len(),
                        |i: int| (columns@[p[i]].sql.name@, columns@[p[i]].title@),
                    )
                }),
            decreases columns@.len() - no,
        {
            let pair = &columns[no];
            let ghost prev_pos = sql_positions(columns@, no as int);
            if !pair.sql.name.as_str().is_empty() {
                let field = ConstrainedField::new(pair.title.as_str(), &pair.sql.constraint, no);
                let entry = copy_field(&field);
                let code = copy_text(&pair.sql.name);
                let n = self.fields.len();
                let ghost e0 = multimap_entries(self.code_col_dict);
                let ghost f0 = self.fields@;
                let ghost pairs0 = self.pairs@;
                self.fields.push(entry);
                let _grown = self.fields.len();
                code_map_insert(&mut self.code_col_dict, code, n);
                self.pairs = Ghost(self.pairs@.push((pair.sql.name@, pair.title@)));
                used.push(field);
                proof {
                    lemma_link_after_insert(
                        pairs0,
                        e0,
                        f0,
                        entry,
                        pair.sql.name@,
                        pair.title@,
                    );
                    let next_pos = sql_positions(columns@, no + 1);
                    assert(next_pos == prev_pos.push(no as int));
                    assert(used@.last() == field);
                    assert(self.dict() =~= d0 + Seq::new(
                        next_pos.len(),
                        |i: int| (columns@[next_pos[i]].sql.name@, columns@[next_pos[i]].title@),
                    ));
                }
            }
            no = no + 1;
        }
        used
    }
}

proof fn lemma_link_after_insert(
    pairs: Seq<(Seq<char>, Seq<char>)>,
    e: Map<Seq<char>, Seq<usize>>,
    fields: Seq<ConstrainedField>,
    f: ConstrainedField,
    code: Seq<char>,
    title: Seq<char>,
)
    requires
        f.name@ == title,
        fields.len() < usize::MAX,
        forall|c: Seq<char>, j: int|
            #![trigger e[c][j]]
            e.contains_key(c) && 0 <= j < e[c].len() ==> e[c][j] < fields.len(),
        forall|c: Seq<char>, t: Seq<char>| #[trigger] maps_to(pairs, c, t) <==> entry_maps(e, fields, c, t),
    ensures
        ({
            let n = fields.len() as usize;
            let e2 = e.insert(code, if e.contains_key(code) { e[code].push(n) } else { seq![n] });
            let f2 = fields.push(f);
            let p2 = pairs.push((code, title));
            &&& forall|c: Seq<char>, j: int|
                #![trigger e2[c][j]]
                e2.contains_key(c) && 0 <= j < e2[c].len() ==> e2[c][j] < f2.len()
            &&& forall|c: Seq<char>, t: Seq<char>| #[trigger] maps_to(p2, c, t) <==> entry_maps(e2, f2, c, t)
        }),
{
    let n = fields.len() as usize;
    let e2 = e.insert(code, if e.contains_key(code) { e[code].push(n) } else { seq![n] });
    let f2 = fields.push(f);
    let p2 = pairs.push((code, title));
    assert forall|c: Seq<char>, j: int|
        #![trigger e2[c][j]]
        e2.contains_key(c) && 0 <= j < e2[c].len() implies e2[c][j] < f2.len() by {
        if c == code && e.contains_key(code) && j < e[code].len() {
            assert(e2[c][j] == e[code][j]);
        }
    }
    assert forall|c: Seq<char>, t: Seq<char>| #[trigger] maps_to(p2, c, t) <==> entry_maps(e2, f2, c, t) by {
        if maps_to(p2, c, t) {
            let i = choose|i: int| 0 <= i < p2.len() && p2[i] == (c, t);
            if i < pairs.len() {
                assert(pairs[i] == (c, t));
                assert(maps_to(pairs, c, t));
                assert(entry_maps(e, fields, c, t));
                let j = choose|j: int| 0 <= j < e[c].len() && #[trigger] fields[e[c][j] as int].name@ == t;
                assert(e[c][j] < fields.len());
                assert(f2[e[c][j] as int] == fields[e[c][j] as int]);
                if c == code {
                    assert(e2[c][j] == e[c][j]);
                } else {
                    assert(e2[c] == e[c]);
                }
                assert(f2[e2[c][j] as int].name@ == t);
            } else {
                assert(c == code && t == title);
                let j = e2[c].len() - 1;
                assert(e2[c][j] == n);
                assert(f2[n as int] == f);
                assert(f2[e2[c][j] as int].name@ == t);
            }
        }
        if entry_maps(e2, f2, c, t) {
            let j = choose|j: int| 0 <= j < e2[c].len() && #[trigger] f2[e2[c][j] as int].name@ == t;
            if c == code && j == e2[c].len() - 1 {
                assert(e2[c][j] == n);
                assert(t == title);
                assert(p2[pairs.len() as int] == (c, t));
            } else {
                assert(e.contains_key(c));
                assert(e2[c][j] == e[c][j]);
                assert(e[c][j] < fields.len());
                assert(f2[e[c][j] as int] == fields[e[c][j] as int]);
                assert(entry_maps(e, fields, c, t));
                assert(maps_to(pairs, c, t));
                let i = choose|i: int| 0 <= i < pairs.len() && pairs[i] == (c, t);
                assert(p2[i] == (c, t));
            }
        }
    }
}

/// Whether two maps send the same properties to `title`.
pub open spec fn same_sources(
    d1: Seq<(Seq<char>, Seq<char>)>,
    d2: Seq<(Seq<char>, Seq<char>)>,
    title: Seq<char>,
) -> bool {
    forall|code: Seq<char>| maps_to(d1, code, title) <==> maps_to(d2, code, title)
}

/// Reconstruction does not depend on how many reports share the reader: the
/// steps through the rows do not read the code-to-column map at all, and a
/// record's value under a title depends only on which properties are bound
/// to that title, so adding the columns of other reports changes no value.
pub proof fn lemma_reconstruction_independent(
    rows: Seq<SqlRow>,
    d1: Seq<(Seq<char>, Seq<char>)>,
    d2: Seq<(Seq<char>, Seq<char>)>,
    pos: int,
    last: i64,
    title: Seq<char>,
)
    requires
        same_sources(d1, d2, title),
    ensures
        record_value(rows, d1, next_step(rows, pos, last).2, title) == record_value(
            rows,
            d2,
            next_step(rows, pos, last).2,
            title,
        ),
{
    if let Some(g) = next_step(rows, pos, last).2 {
        lemma_title_row_same(rows, d1, d2, title, g.start as int, g.end as int);
    }
}

proof fn lemma_title_row_same(
    rows: Seq<SqlRow>,
    d1: Seq<(Seq<char>, Seq<char>)>,
    d2: Seq<(Seq<char>, Seq<char>)>,
    title: Seq<char>,
    start: int,
    end: int,
)
    requires
        same_sources(d1, d2, title),
    ensures
        title_row(rows, d1, title, start, end) == title_row(rows, d2, title, start, end),
    decreases end - start,
{
    if end > start {
        assert(maps_to(d1, rows[end - 1].column_id@, title) == maps_to(
            d2,
            rows[end - 1].column_id@,
            title,
        ));
        lemma_title_row_same(rows, d1, d2, title, start, end - 1);
    }
}

/// Whether two readers stand at the same place in the same rows.
pub open spec fn same_cursor(a: SqlReader, b: SqlReader) -> bool {
    &&& a.rows() == b.rows()
    &&& a.pos() == b.pos()
    &&& a.last_work_id() == b.last_work_id()
    &&& a.group() == b.group()
}

/// Two readers over the same rows whose bindings send the same properties to
/// `title` (one bound for a single report, the other for several) hold the
/// same value under `title`, step in lockstep, and keep their bindings, so a
/// whole scan yields the same records whatever other reports are bound.
pub proof fn lemma_scan_independent(a: SqlReader, b: SqlReader, title: Seq<char>)
    requires
        same_cursor(a, b),
        same_sources(a.dict(), b.dict(), title),
    ensures
        a.value_of(title) == b.value_of(title),
        same_cursor(a.stepped().0, b.stepped().0),
        a.stepped().1 == b.stepped().1,
        a.stepped().0.dict() == a.dict(),
        b.stepped().0.dict() == b.dict(),
        same_cursor(a.rewound(), b.rewound()),
        a.rewound().dict() == a.dict(),
        b.rewound().dict() == b.dict(),
{
    if let Some(g) = a.group() {
        lemma_title_row_same(a.rows(), a.dict(), b.dict(), title, g.start as int, g.end as int);
    }
}

/// A row whose WorkId is below the last finished record's is never merged
/// into a record: the step builds none and leaves the row unread.
pub proof fn lemma_rewind_not_merged(rows: Seq<SqlRow>, pos: int, last: i64)
    requires
        0 <= pos < rows.len(),
        rows[pos].work_id < last,
    ensures
        next_step(rows, pos, last) == (pos, 0i64, None::<Group>, false),
{
}

/// Every row of a record carries the record's WorkId.
pub proof fn lemma_group_rows_share_work_id(rows: Seq<SqlRow>, pos: int, last: i64)
    requires
        0 <= pos,
        rows.len() <= usize::MAX,
    ensures
        next_step(rows, pos, last).2 matches Some(g) ==> (forall|k: int|
            g.start <= k < g.end ==> rows[k].work_id == g.work_id),
{
    if pos < rows.len() && rows[pos].work_id >= last {
        lemma_group_end_bounds(rows, rows[pos].work_id, pos + 1);
    }
}

} // verus!
