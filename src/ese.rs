//! The ESE backend: one logical record per physical row, with named typed
//! columns resolved once per report.
use vstd::prelude::*;
use crate::codec::{
    calendar_seconds, column_part, column_string_part, decode_le_int, filetime_instant, find_guid,
    from_utf16, get_date_time_from_filetime, le_int_result, le_u64, le_value, utc_from_calendar,
    utf16_result, FieldError, UtcDateTime,
};
use crate::config::{
    copy_text, has_token, resolved, text_eq, tokens_view, ColumnPair, ConstrainedField,
    CONSTR_OPTIONAL,
};
use crate::sqlite::{guid_key, guid_result, text_result};

verus! {

/// Column types of the ESE catalog (`JET_coltyp*`).
pub const ESE_COLTYP_UNSIGNED_BYTE: u32 = 2;
pub const ESE_COLTYP_SHORT: u32 = 3;
pub const ESE_COLTYP_LONG: u32 = 4;
pub const ESE_COLTYP_CURRENCY: u32 = 5;
pub const ESE_COLTYP_IEEE_SINGLE: u32 = 6;
pub const ESE_COLTYP_IEEE_DOUBLE: u32 = 7;
pub const ESE_COLTYP_DATE_TIME: u32 = 8;
pub const ESE_COLTYP_BINARY: u32 = 9;
pub const ESE_COLTYP_TEXT: u32 = 10;
pub const ESE_COLTYP_LONG_BINARY: u32 = 11;
pub const ESE_COLTYP_LONG_TEXT: u32 = 12;
pub const ESE_COLTYP_UNSIGNED_LONG: u32 = 14;
pub const ESE_COLTYP_LONG_LONG: u32 = 15;
pub const ESE_COLTYP_GUID: u32 = 16;
pub const ESE_COLTYP_UNSIGNED_SHORT: u32 = 17;

/// The fixed width of a column type (zero for text), `cbmax` for binaries,
/// and `None` for a type that no report reads.
pub open spec fn field_width(col_type: u32, size: u32) -> Option<u32> {
    if col_type == 2 {
        Some(1)
    } else if col_type == 3 || col_type == 17 {
        Some(2)
    } else if col_type == 4 || col_type == 6 || col_type == 14 {
        Some(4)
    } else if col_type == 5 || col_type == 7 || col_type == 8 || col_type == 15 {
        Some(8)
    } else if col_type == 9 || col_type == 11 {
        Some(size)
    } else if col_type == 10 || col_type == 12 {
        Some(0)
    } else if col_type == 16 {
        Some(16)
    } else {
        None
    }
}

pub fn field_size(col_type: u32, size: u32) -> (r: Option<u32>)
    ensures
        r == field_width(col_type, size),
{
    if col_type == ESE_COLTYP_UNSIGNED_BYTE {
        Some(1)
    } else if col_type == ESE_COLTYP_SHORT || col_type == ESE_COLTYP_UNSIGNED_SHORT {
        Some(2)
    } else if col_type == ESE_COLTYP_LONG || col_type == ESE_COLTYP_IEEE_SINGLE || col_type
        == ESE_COLTYP_UNSIGNED_LONG {
        Some(4)
    } else if col_type == ESE_COLTYP_CURRENCY || col_type == ESE_COLTYP_IEEE_DOUBLE || col_type
        == ESE_COLTYP_DATE_TIME || col_type == ESE_COLTYP_LONG_LONG {
        Some(8)
    } else if col_type == ESE_COLTYP_BINARY || col_type == ESE_COLTYP_LONG_BINARY {
        Some(size)
    } else if col_type == ESE_COLTYP_TEXT || col_type == ESE_COLTYP_LONG_TEXT {
        Some(0)
    } else if col_type == ESE_COLTYP_GUID {
        Some(16)
    } else {
        None
    }
}

/// A column of the ESE table's catalog.
#[derive(Clone, Debug)]
pub struct EseColumnInfo {
    pub name: String,
    pub id: u32,
    pub typ: u32,
    pub cbmax: u32,
}

/// Calendar fields of an OLE Automation (VARIANT) date, as the platform's
/// conversion breaks it down.
#[derive(Clone, Copy, Debug, PartialEq, Eq, Structural)]
pub struct SystemTime {
    pub year: u16,
    pub month: u16,
    pub day: u16,
    pub hour: u16,
    pub minute: u16,
    pub second: u16,
}

/// A stored ESE value: its bytes, and for an 8-byte value that converts as a
/// VARIANT date, the calendar fields of that date.
#[derive(Clone, Debug)]
pub struct EseValue {
    pub bytes: Vec<u8>,
    pub variant_time: Option<SystemTime>,
}

/// Why a report's columns could not be bound to a table.
#[derive(Clone, Debug)]
pub enum SchemaError {
    /// A required column is not in the table.
    MissingColumn(String),
    /// A column has a type that no report can read.
    UnknownColumnType(u32),
}

/// Whether catalog column `c` answers to the configured name `name`: by its
/// full name, or by the part after its numeric prefix.
pub open spec fn column_matches(c: EseColumnInfo, name: Seq<char>) -> bool {
    c.name@ == name || column_part(c.name@) == name
}

/// The first catalog column at or after `k` that answers to `name`.
pub open spec fn first_column(cols: Seq<EseColumnInfo>, name: Seq<char>, k: int) -> Option<int>
    decreases cols.len() - k,
{
    if k < 0 || k >= cols.len() {
        None
    } else if column_matches(cols[k], name) {
        Some(k)
    } else {
        first_column(cols, name, k + 1)
    }
}

pub proof fn lemma_first_column_found(cols: Seq<EseColumnInfo>, name: Seq<char>, k: int)
    ensures
        first_column(cols, name, k) matches Some(j) ==> k <= j < cols.len() && column_matches(
            cols[j],
            name,
        ),
    decreases cols.len() - k,
{
    if 0 <= k < cols.len() && !column_matches(cols[k], name) {
        lemma_first_column_found(cols, name, k + 1);
    }
}

/// What binding the configured column `p` to the catalog gives: nothing for
/// an unbound or absent optional column, the catalog column and its width, or
/// the schema error.
pub open spec fn ese_binding(cols: Seq<EseColumnInfo>, p: ColumnPair) -> Result<Option<(int, u32)>, ()> {
    if p.edb.name@.len() == 0 {
        Ok(None)
    } else {
        match first_column(cols, p.edb.name@, 0) {
            None => if has_token(tokens_view(p.edb.constraint), CONSTR_OPTIONAL@) {
                Ok(None)
            } else {
                Err(())
            },
            Some(k) => match field_width(cols[k].typ, cols[k].cbmax) {
                Some(w) => Ok(Some((k, w))),
                None => Err(()),
            },
        }
    }
}

/// The catalog column that a binding column is bound to.
pub open spec fn bound_column(cols: Seq<EseColumnInfo>, p: ColumnPair) -> int {
    match ese_binding(cols, p) {
        Ok(Some((k, _))) => k,
        _ => 0,
    }
}

/// The width of the catalog column that a binding column is bound to.
pub open spec fn bound_width(cols: Seq<EseColumnInfo>, p: ColumnPair) -> u32 {
    match ese_binding(cols, p) {
        Ok(Some((_, w))) => w,
        _ => 0,
    }
}

/// The positions among the first `n` configured columns that bind.
pub open spec fn ese_positions(cols: Seq<EseColumnInfo>, pairs: Seq<ColumnPair>, n: int) -> Seq<int>
    decreases n,
{
    if n <= 0 {
        Seq::empty()
    } else if ese_binding(cols, pairs[n - 1]) matches Ok(Some(_)) {
        ese_positions(cols, pairs, n - 1).push(n - 1)
    } else {
        ese_positions(cols, pairs, n - 1)
    }
}

/// The column index and width bound to `title`, the latest binding winning.
pub open spec fn info_of(infos: Seq<(Seq<char>, int, u32)>, title: Seq<char>, n: int) -> Option<(int, u32)>
    decreases n,
{
    if n <= 0 {
        None
    } else if infos[n - 1].0 == title {
        Some((infos[n - 1].1, infos[n - 1].2))
    } else {
        info_of(infos, title, n - 1)
    }
}

/// The ESE record reader: a forward-only cursor over the table's rows.
pub struct EseReader {
    filename: String,
    tablename: String,
    columns: Vec<EseColumnInfo>,
    rows: Vec<Vec<Option<EseValue>>>,
    col_infos: Vec<(String, usize, u32)>,
    rec_no: usize,
}

impl EseReader {
    pub closed spec fn catalog(&self) -> Seq<EseColumnInfo> {
        self.columns@
    }

    pub closed spec fn rows(&self) -> Seq<Seq<Option<EseValue>>> {
        self.rows@.map_values(|r: Vec<Option<EseValue>>| r@)
    }

    pub closed spec fn infos(&self) -> Seq<(Seq<char>, int, u32)> {
        self.col_infos@.map_values(|e: (String, usize, u32)| (e.0@, e.1 as int, e.2))
    }

    /// How many rows the cursor has stepped onto; the current row is the one
    /// before that count.
    pub closed spec fn rec_no(&self) -> int {
        self.rec_no as int
    }

    pub closed spec fn wf(&self) -> bool {
        &&& self.rows@.len() <= usize::MAX
        &&& self.rec_no <= self.rows@.len() + 1
        &&& forall|r: int| 0 <= r < self.rows@.len() ==> #[trigger] self.rows@[r]@.len()
            == self.columns@.len()
        &&& forall|i: int| 0 <= i < self.col_infos@.len() ==> #[trigger] self.col_infos@[i].1
            < self.columns@.len()
    }

    /// A reader over a table given by its catalog and its rows; each row holds
    /// one value (or none) per catalog column.
    pub fn new(
        filename: &str,
        tablename: &str,
        columns: Vec<EseColumnInfo>,
        rows: Vec<Vec<Option<EseValue>>>,
    ) -> (r: Self)
        requires
            forall|k: int| 0 <= k < rows@.len() ==> #[trigger] rows@[k]@.len() == columns@.len(),
        ensures
            r.wf(),
            r.catalog() == columns@,
            r.rows() == rows@.map_values(|x: Vec<Option<EseValue>>| x@),
            r.infos() == Seq::<(Seq<char>, int, u32)>::empty(),
            r.rec_no() == 0,
    {
        let _n = rows.len();
        let r = EseReader {
            filename: filename.to_string(),
            tablename: tablename.to_string(),
            columns,
            rows,
            col_infos: Vec::new(),
            rec_no: 0,
        };
        proof {
            assert(r.infos() =~= Seq::<(Seq<char>, int, u32)>::empty());
        }
        r
    }

    /// The reader with its cursor before the first row.
    pub closed spec fn rewound(&self) -> EseReader {
        EseReader { rec_no: 0, ..*self }
    }

    /// The reader after one step, and whether the step found a row.
    pub closed spec fn stepped(&self) -> (EseReader, bool) {
        if self.rec_no < self.rows@.len() {
            (EseReader { rec_no: (self.rec_no + 1) as usize, ..*self }, true)
        } else {
            (*self, false)
        }
    }

    pub proof fn lemma_cursor(&self)
        requires
            self.wf(),
        ensures
            self.rewound().wf(),
            self.stepped().0.wf(),
            self.stepped().1 ==> self.stepped().0.rec_no() == self.rec_no() + 1,
            self.stepped().1 <==> self.rec_no() < self.rows().len(),
            self.stepped().0.rows() == self.rows(),
            self.rewound().rows() == self.rows(),
            self.stepped().0.catalog() == self.catalog(),
            self.rewound().catalog() == self.catalog(),
            self.stepped().0.rewound() == self.rewound(),
            self.rewound().rewound() == self.rewound(),
    {
    }

    /// Puts the cursor before the first row; `false` when the table is empty.
    pub fn init(&mut self) -> (r: bool)
        requires
            old(self).wf(),
        ensures
            final(self).wf(),
            r == (old(self).rows().len() > 0),
            *final(self) == old(self).rewound(),
            final(self).rec_no() == 0,
            final(self).catalog() == old(self).catalog(),
            final(self).rows() == old(self).rows(),
            final(self).infos() == old(self).infos(),
    {
        self.rec_no = 0;
        self.rows.len() > 0
    }

    /// Steps onto the next row; `false` once the rows are exhausted.
    pub fn next(&mut self) -> (r: bool)
        requires
            old(self).wf(),
        ensures
            final(self).wf(),
            r == (old(self).rec_no() < old(self).rows().len()),
            (*final(self), r) == old(self).stepped(),
            final(self).rec_no() == if r { old(self).rec_no() + 1 } else { old(self).rec_no() },
            final(self).catalog() == old(self).catalog(),
            final(self).rows() == old(self).rows(),
            final(self).infos() == old(self).infos(),
    {
        if self.rec_no < self.rows.len() {
            self.rec_no = self.rec_no + 1;
            true
        } else {
            false
        }
    }
}


/// What an ESE value gives as an integer of width `w`.
pub open spec fn ese_int(v: Option<(EseValue, u32)>) -> Result<Option<i64>, FieldError> {
    match v {
        None => Ok(None),
        Some((x, w)) => match le_int_result(x.bytes@, w as usize) {
            Ok(i) => Ok(Some(i)),
            Err(e) => Err(e),
        },
    }
}

/// What an ESE value gives as text.
pub open spec fn ese_text(v: Option<(EseValue, u32)>) -> Result<Option<Seq<char>>, FieldError> {
    match v {
        None => Ok(None),
        Some((x, _)) => match utf16_result(x.bytes@) {
            Ok(s) => Ok(Some(s)),
            Err(e) => Err(e),
        },
    }
}

/// What an ESE value gives as an instant: the VARIANT date when the value
/// converts as one, else the same eight bytes read as a FILETIME.
pub open spec fn ese_date_time(v: Option<(EseValue, u32)>) -> Result<Option<UtcDateTime>, FieldError> {
    match v {
        None => Ok(None),
        Some((x, _)) => if x.bytes@.len() != 8 {
            Err(FieldError::WidthMismatch { expected: 8, found: x.bytes@.len() as usize })
        } else {
            match x.variant_time {
                Some(st) => match calendar_seconds(
                    st.year as int,
                    st.month as int,
                    st.day as int,
                    st.hour as int,
                    st.minute as int,
                    st.second as int,
                ) {
                    Some(secs) => Ok(Some(UtcDateTime { secs: secs as i64, nanos: 0 })),
                    None => Err(FieldError::InvalidDate),
                },
                None => Ok(Some(filetime_instant(le_value(x.bytes@) as u64))),
            }
        },
    }
}

impl EseReader {
    /// The value of `title` in the current row, with the width of its column.
    pub open spec fn value_of(&self, title: Seq<char>) -> Option<(EseValue, u32)> {
        if 1 <= self.rec_no() <= self.rows().len() {
            match info_of(self.infos(), title, self.infos().len() as int) {
                Some((k, w)) => match self.rows()[self.rec_no() - 1][k] {
                    Some(v) => Some((v, w)),
                    None => None,
                },
                None => None,
            }
        } else {
            None
        }
    }

    fn find_column(&self, name: &str) -> (r: Option<usize>)
        ensures
            r matches Some(k) ==> first_column(self.catalog(), name@, 0) == Some(k as int),
            r is None ==> first_column(self.catalog(), name@, 0) is None,
    {
        let mut k: usize = 0;
        while k < self.columns.len()
            invariant
                k <= self.columns@.len(),
                first_column(self.catalog(), name@, 0) == first_column(
                    self.catalog(),
                    name@,
                    k as int,
                ),
            decreases self.columns@.len() - k,
        {
            let c = &self.columns[k];
            if text_eq(c.name.as_str(), name) || text_eq(column_string_part(c.name.as_str()), name) {
                return Some(k);
            }
            k = k + 1;
        }
        None
    }

    fn find_info(&self, title: &str) -> (r: Option<(usize, u32)>)
        requires
            self.wf(),
        ensures
            r matches Some((k, w)) ==> info_of(self.infos(), title@, self.infos().len() as int)
                == Some((k as int, w)) && k < self.catalog().len(),
            r is None ==> info_of(self.infos(), title@, self.infos().len() as int) is None,
    {
        let mut n: usize = self.col_infos.len();
        while n > 0
            invariant
                self.wf(),
                n <= self.col_infos@.len(),
                info_of(self.infos(), title@, self.infos().len() as int) == info_of(
                    self.infos(),
                    title@,
                    n as int,
                ),
            decreases n,
        {
            let e = &self.col_infos[n - 1];
            if text_eq(e.0.as_str(), title) {
                proof {
                    assert(self.col_infos@[n - 1].1 < self.columns@.len());
                }
                return Some((e.1, e.2));
            }
            n = n - 1;
        }
        None
    }

    fn current(&self, title: &str) -> (r: Option<(&EseValue, u32)>)
        requires
            self.wf(),
        ensures
            match r {
                Some((v, w)) => self.value_of(title@) == Some((*v, w)),
                None => self.value_of(title@) is None,
            },
    {
        if self.rec_no == 0 || self.rec_no > self.rows.len() {
            return None;
        }
        match self.find_info(title) {
            None => None,
            Some((k, w)) => {
                let row = &self.rows[self.rec_no - 1];
                proof {
                    assert(self.rows()[self.rec_no() - 1] == row@);
                }
                match &row[k] {
                    Some(v) => Some((v, w)),
                    None => None,
                }
            },
        }
    }

    /// The current row's integer under `title`, read at its column's width.
    pub fn get_int(&self, title: &str) -> (r: Result<Option<i64>, FieldError>)
        requires
            self.wf(),
        ensures
            r == ese_int(self.value_of(title@)),
    {
        match self.current(title) {
            None => Ok(None),
            Some((v, w)) => match decode_le_int(v.bytes.as_slice(), w as usize) {
                Ok(i) => Ok(Some(i)),
                Err(e) => Err(e),
            },
        }
    }

    /// The current row's text under `title`, stored as UTF-16LE.
    pub fn get_str(&self, title: &str) -> (r: Result<Option<String>, FieldError>)
        requires
            self.wf(),
        ensures
            text_result(r) == ese_text(self.value_of(title@)),
    {
        match self.current(title) {
            None => Ok(None),
            Some((v, _)) => match from_utf16(v.bytes.as_slice()) {
                Ok(s) => Ok(Some(s)),
                Err(e) => Err(e),
            },
        }
    }

    /// The GUID held in the current row's text under `title`.
    pub fn get_guid(&self, title: &str) -> (r: Result<Option<String>, FieldError>)
        requires
            self.wf(),
        ensures
            text_result(r) == guid_result(ese_text(self.value_of(title@)), title@),
    {
        match self.get_str(title) {
            Ok(Some(s)) => {
                let key = guid_key(title);
                Ok(Some(find_guid(s.as_str(), key.as_str())))
            },
            Ok(None) => Ok(None),
            Err(e) => Err(e),
        }
    }

    /// The current row's instant under `title`: the VARIANT date when the
    /// value converts as one, else the FILETIME in the same eight bytes.
    pub fn get_datetime(&self, title: &str) -> (r: Result<Option<UtcDateTime>, FieldError>)
        requires
            self.wf(),
        ensures
            r == ese_date_time(self.value_of(title@)),
    {
        match self.current(title) {
            None => Ok(None),
            Some((v, _)) => {
                if v.bytes.len() != 8 {
                    return Err(FieldError::WidthMismatch { expected: 8, found: v.bytes.len() });
                }
                match v.variant_time {
                    Some(st) => match utc_from_calendar(
                        st.year as i32,
                        st.month as u32,
                        st.day as u32,
                        st.hour as u32,
                        st.minute as u32,
                        st.second as u32,
                    ) {
                        Some(secs) => Ok(Some(UtcDateTime { secs, nanos: 0 })),
                        None => Err(FieldError::InvalidDate),
                    },
                    None => Ok(Some(get_date_time_from_filetime(le_u64(v.bytes.as_slice())))),
                }
            },
        }
    }
}


pub proof fn lemma_ese_positions_bounds(cols: Seq<EseColumnInfo>, pairs: Seq<ColumnPair>, n: int)
    requires
        0 <= n <= pairs.len(),
    ensures
        forall|i: int| 0 <= i < ese_positions(cols, pairs, n).len() ==> 0 <= #[trigger] ese_positions(cols, pairs, n)[i] < n,
    decreases n,
{
    if n > 0 {
        lemma_ese_positions_bounds(cols, pairs, n - 1);
        let prev = ese_positions(cols, pairs, n - 1);
        if ese_binding(cols, pairs[n - 1]) matches Ok(Some(_)) {
            assert forall|i: int| 0 <= i < ese_positions(cols, pairs, n).len() implies 0
                <= #[trigger] ese_positions(cols, pairs, n)[i] < n by {
                if i < prev.len() {
                    assert(ese_positions(cols, pairs, n)[i] == prev[i]);
                }
            }
        }
    }
}

/// Whether some configured column among the first `n` cannot be bound.
pub open spec fn some_binding_fails(cols: Seq<EseColumnInfo>, pairs: Seq<ColumnPair>, n: int) -> bool {
    exists|i: int| 0 <= i < n && ese_binding(cols, pairs[i]) is Err
}

/// Whether the configured column `p` carries the `optional` token.
fn is_optional(p: &ColumnPair) -> (r: bool)
    ensures
        r == has_token(tokens_view(p.edb.constraint), CONSTR_OPTIONAL@),
{
    match &p.edb.constraint {
        None => false,
        Some(v) => {
            let ghost tokens = tokens_view(p.edb.constraint);
            let mut i: usize = 0;
            while i < v.len()
                invariant
                    tokens == tokens_view(p.edb.constraint),
                    tokens == v@.map_values(|s: String| s@),
                    i <= v@.len(),
                    forall|k: int| 0 <= k < i ==> tokens[k] != CONSTR_OPTIONAL@,
                decreases v@.len() - i,
            {
                if text_eq(v[i].as_str(), CONSTR_OPTIONAL) {
                    proof {
                        assert(tokens[i as int] == CONSTR_OPTIONAL@);
                        assert(has_token(tokens, CONSTR_OPTIONAL@));
                    }
                    return true;
                }
                i = i + 1;
            }
            false
        },
    }
}

impl EseReader {
    /// Binds the columns that have an ESE binding, by full name or by the
    /// name after the numeric prefix. A required column that the table lacks,
    /// or one of a type that no report reads, is a schema error; a missing
    /// optional column is left out.
    pub fn get_used_columns(&mut self, columns: &Vec<ColumnPair>) -> (r: Result<Vec<ConstrainedField>, SchemaError>)
        requires
            old(self).wf(),
        ensures
            final(self).wf(),
            final(self).catalog() == old(self).catalog(),
            final(self).rows() == old(self).rows(),
            final(self).rec_no() == old(self).rec_no(),
            r is Err <==> some_binding_fails(old(self).catalog(), columns@, columns@.len() as int),
            r matches Ok(v) ==> ({
                let cat = old(self).catalog();
                let p = ese_positions(cat, columns@, columns@.len() as int);
                &&& v@.len() == p.len()
                &&& forall|i: int| 0 <= i < p.len() ==> resolved(
                    #[trigger] v@[i],
                    columns@[p[i]].title@,
                    tokens_view(columns@[p[i]].edb.constraint),
                    i,
                )
                &&& final(self).infos() == old(self).infos() + Seq::new(
                    p.len(),
                    |i: int| (columns@[p[i]].title@, bound_column(cat, columns@[p[i]]),
                        bound_width(cat, columns@[p[i]])),
                )
            }),
    {
        let ghost cat = self.catalog();
        let ghost i0 = self.infos();
        let mut used: Vec<ConstrainedField> = Vec::new();
        let mut no: usize = 0;
        while no < columns.len()
            invariant
                self.wf(),
                self.catalog() == cat,
                self.rows() == old(self).rows(),
                self.rec_no() == old(self).rec_no(),
                i0 == old(self).infos(),
                cat == old(self).catalog(),
                no <= columns@.len(),
                !some_binding_fails(cat, columns@, no as int),
                ({
                    let p = ese_positions(cat, columns@, no as int);
                    &&& used@.len() == p.len()
                    &&& forall|i: int| 0 <= i < p.len() ==> resolved(
                        #[trigger] used@[i],
                        columns@[p[i]].title@,
                        tokens_view(columns@[p[i]].edb.constraint),
                        i,
                    )
                    &&& self.infos() == i0 + Seq::new(
                        p.len(),
                        |i: int| (columns@[p[i]].title@, bound_column(cat, columns@[p[i]]),
                            bound_width(cat, columns@[p[i]])),
                    )
                }),
            decreases columns@.len() - no,
        {
            let pair = &columns[no];
            let ghost prev_pos = ese_positions(cat, columns@, no as int);
            if !pair.edb.name.as_str().is_empty() {
                match self.find_column(pair.edb.name.as_str()) {
                    None => {
                        if !is_optional(pair) {
                            return Err(SchemaError::MissingColumn(copy_text(&pair.edb.name)));
                        }
                    },
                    Some(k) => {
                        proof {
                            lemma_first_column_found(cat, pair.edb.name@, 0);
                        }
                        let typ = self.columns[k].typ;
                        match field_size(typ, self.columns[k].cbmax) {
                            None => {
                                return Err(SchemaError::UnknownColumnType(typ));
                            },
                            Some(w) => {
                                let field = ConstrainedField::new(
                                    pair.title.as_str(),
                                    &pair.edb.constraint,
                                    used.len(),
                                );
                                let ghost before = self.col_infos@;
                                let title = copy_text(&pair.title);
                                self.col_infos.push((title, k, w));
                                used.push(field);
                                proof {
                                    let next_pos = ese_positions(cat, columns@, no + 1);
                                    assert(next_pos == prev_pos.push(no as int));
                                    assert(self.col_infos@ == before.push((title, k, w)));
                                    assert(ese_binding(cat, columns@[no as int]) == Ok::<
                                        Option<(int, u32)>,
                                        (),
                                    >(Some((k as int, w))));
                                    let before_view = before.map_values(
                                        |e: (String, usize, u32)| (e.0@, e.1 as int, e.2),
                                    );
                                    assert(self.infos() =~= before_view.push(
                                        (pair.title@, k as int, w),
                                    ));
                                    assert(self.infos() =~= i0 + Seq::new(
                                        next_pos.len(),
                                        |i: int| (columns@[next_pos[i]].title@,
                                            bound_column(cat, columns@[next_pos[i]]),
                                            bound_width(cat, columns@[next_pos[i]])),
                                    ));
                                    assert(used@.last() == field);
                                }
                            },
                        }
                    },
                }
            }
            no = no + 1;
        }
        Ok(used)
    }
}


/// What `str::to_lowercase` gives for a text.
pub uninterp spec fn lower_of(s: Seq<char>) -> Seq<char>;

/// Relies on `str::to_lowercase`: the Unicode lower case of the text, which
/// depends on the text alone.
#[verifier::external_body]
fn lowercase(s: &str) -> (r: String)
    ensures
        r@ == lower_of(s@),
{
    s.to_lowercase()
}

/// Why no host name could be recovered from the table.
#[derive(Clone, Debug)]
pub enum HostnameError {
    EmptyTable,
    MissingColumn(String),
    NotFound,
    /// A computer name or item type on the way is not valid UTF-16LE text.
    Field(FieldError),
}

/// The first catalog column at or after `k` whose name without prefix is `name`.
pub open spec fn first_part_column(cols: Seq<EseColumnInfo>, name: Seq<char>, k: int) -> Option<int>
    decreases cols.len() - k,
{
    if k < 0 || k >= cols.len() {
        None
    } else if column_part(cols[k].name@) == name {
        Some(k)
    } else {
        first_part_column(cols, name, k + 1)
    }
}

/// The host name that the last `n` rows give, scanning from the last: the
/// first computer name whose record's item type is not `.url`.
pub open spec fn hostname_scan(rows: Seq<Seq<Option<EseValue>>>, ci: int, ti: int, n: int) -> Result<Option<Seq<char>>, FieldError>
    decreases n,
{
    if n <= 0 {
        Ok(None)
    } else {
        let row = rows[n - 1];
        match row[ci] {
            Some(v) => match utf16_result(v.bytes@) {
                Ok(name) => match row[ti] {
                    None => Ok(Some(name)),
                    Some(t) => match utf16_result(t.bytes@) {
                        Ok(item) => if lower_of(item) != ".url"@ {
                            Ok(Some(name))
                        } else {
                            hostname_scan(rows, ci, ti, n - 1)
                        },
                        Err(e) => Err(e),
                    },
                },
                Err(e) => Err(e),
            },
            None => hostname_scan(rows, ci, ti, n - 1),
        }
    }
}

impl EseReader {
    fn find_part_column(&self, name: &str) -> (r: Option<usize>)
        ensures
            r matches Some(k) ==> first_part_column(self.catalog(), name@, 0) == Some(k as int) && k
                < self.catalog().len(),
            r is None ==> first_part_column(self.catalog(), name@, 0) is None,
    {
        let mut k: usize = 0;
        while k < self.columns.len()
            invariant
                k <= self.columns@.len(),
                first_part_column(self.catalog(), name@, 0) == first_part_column(
                    self.catalog(),
                    name@,
                    k as int,
                ),
            decreases self.columns@.len() - k,
        {
            if text_eq(column_string_part(self.columns[k].name.as_str()), name) {
                return Some(k);
            }
            k = k + 1;
        }
        None
    }

    /// Recovers the machine's host name: the computer name of the last record
    /// (scanning backwards) whose item type is not `.url`.
    pub fn ese_get_hostname(&self) -> (r: Result<String, HostnameError>)
        requires
            self.wf(),
        ensures
            (r matches Err(HostnameError::EmptyTable)) <==> self.rows().len() == 0,
            (r matches Err(HostnameError::MissingColumn(_))) <==> (self.rows().len() > 0 && (
            first_part_column(self.catalog(), "System_ComputerName"@, 0) is None
                || first_part_column(self.catalog(), "System_ItemType"@, 0) is None)),
            ({
                let ci = first_part_column(self.catalog(), "System_ComputerName"@, 0);
                let ti = first_part_column(self.catalog(), "System_ItemType"@, 0);
                self.rows().len() > 0 && ci is Some && ti is Some ==> match hostname_scan(
                    self.rows(),
                    ci->0,
                    ti->0,
                    self.rows().len() as int,
                ) {
                    Ok(Some(h)) => r matches Ok(x) && x@ == h,
                    Ok(None) => r matches Err(HostnameError::NotFound),
                    Err(e) => r matches Err(HostnameError::Field(e2)) && e2 == e,
                }
            }),
    {
        if self.rows.len() == 0 {
            return Err(HostnameError::EmptyTable);
        }
        let ci = match self.find_part_column("System_ComputerName") {
            None => {
                return Err(HostnameError::MissingColumn("System_ComputerName".to_string()));
            },
            Some(k) => k,
        };
        let ti = match self.find_part_column("System_ItemType") {
            None => {
                return Err(HostnameError::MissingColumn("System_ItemType".to_string()));
            },
            Some(k) => k,
        };
        let mut n: usize = self.rows.len();
        while n > 0
            invariant
                self.wf(),
                n <= self.rows@.len(),
                first_part_column(self.catalog(), "System_ComputerName"@, 0) == Some(ci as int),
                first_part_column(self.catalog(), "System_ItemType"@, 0) == Some(ti as int),
                ci < self.columns@.len(),
                ti < self.columns@.len(),
                hostname_scan(self.rows(), ci as int, ti as int, self.rows().len() as int)
                    == hostname_scan(self.rows(), ci as int, ti as int, n as int),
            decreases n,
        {
            let row = &self.rows[n - 1];
            proof {
                assert(self.rows()[n - 1] == row@);
            }
            match &row[ci] {
                Some(v) => match from_utf16(v.bytes.as_slice()) {
                    Ok(name) => match &row[ti] {
                        None => {
                            return Ok(name);
                        },
                        Some(t) => match from_utf16(t.bytes.as_slice()) {
                            Ok(item) => {
                                let low = lowercase(item.as_str());
                                if !text_eq(low.as_str(), ".url") {
                                    return Ok(name);
                                }
                            },
                            Err(e) => {
                                return Err(HostnameError::Field(e));
                            },
                        },
                    },
                    Err(e) => {
                        return Err(HostnameError::Field(e));
                    },
                },
                None => {},
            }
            n = n - 1;
        }
        Err(HostnameError::NotFound)
    }
}

/// Whether the catalog column's name without prefix is one of the selected names.
pub open spec fn is_selected(c: EseColumnInfo, sel: Seq<Seq<char>>) -> bool {
    exists|i: int| 0 <= i < sel.len() && sel[i] == column_part(c.name@)
}

/// The catalog columns whose names (without prefix) are selected, in catalog order.
pub open spec fn selected_columns(cols: Seq<EseColumnInfo>, sel: Seq<Seq<char>>, n: int) -> Seq<int>
    decreases n,
{
    if n <= 0 {
        Seq::empty()
    } else if is_selected(cols[n - 1], sel) {
        selected_columns(cols, sel, n - 1).push(n - 1)
    } else {
        selected_columns(cols, sel, n - 1)
    }
}

/// Whether two catalog entries describe the same column.
pub open spec fn same_column(a: EseColumnInfo, b: EseColumnInfo) -> bool {
    a.name@ == b.name@ && a.id == b.id && a.typ == b.typ && a.cbmax == b.cbmax
}

fn copy_column(c: &EseColumnInfo) -> (r: EseColumnInfo)
    ensures
        same_column(r, *c),
{
    EseColumnInfo { name: copy_text(&c.name), id: c.id, typ: c.typ, cbmax: c.cbmax }
}

/// Keeps the catalog columns that one of the selected names picks out.
pub fn prepare_selected_cols(cols: Vec<EseColumnInfo>, sel_cols: &Vec<&str>) -> (r: Vec<EseColumnInfo>)
    ensures
        ({
            let p = selected_columns(cols@, sel_cols@.map_values(|s: &str| s@), cols@.len() as int);
            &&& r@.len() == p.len()
            &&& forall|i: int| 0 <= i < p.len() ==> same_column(#[trigger] r@[i], cols@[p[i]])
        }),
{
    let ghost sel = sel_cols@.map_values(|s: &str| s@);
    let mut only: Vec<EseColumnInfo> = Vec::new();
    let mut k: usize = 0;
    let n = cols.len();
    let mut rest = cols;
    let ghost all = rest@;
    while k < n
        invariant
            n == all.len(),
            rest@ == all,
            k <= n,
            sel == sel_cols@.map_values(|s: &str| s@),
            ({
                let p = selected_columns(all, sel, k as int);
                &&& only@.len() == p.len()
                &&& forall|i: int| 0 <= i < p.len() ==> same_column(#[trigger] only@[i], all[p[i]])
            }),
        decreases n - k,
    {
        let part = column_string_part(rest[k].name.as_str());
        let mut j: usize = 0;
        let mut found = false;
        while j < sel_cols.len()
            invariant
                j <= sel_cols@.len(),
                sel == sel_cols@.map_values(|s: &str| s@),
                found == exists|i: int| 0 <= i < j && sel[i] == part@,
            decreases sel_cols@.len() - j,
        {
            if !found && text_eq(sel_cols[j], part) {
                found = true;
                proof {
                    assert(sel[j as int] == part@);
                }
            }
            proof {
                assert(sel[j as int] == sel_cols@[j as int]@);
            }
            j = j + 1;
        }
        let ghost before = only@;
        if found {
            only.push(copy_column(&rest[k]));
        }
        proof {
            assert(part@ == column_part(all[k as int].name@));
            assert(found == is_selected(all[k as int], sel));
            let next_pos = selected_columns(all, sel, k + 1);
            assert forall|i: int| 0 <= i < next_pos.len() implies same_column(#[trigger] only@[i], all[next_pos[i]]) by {
                if i < before.len() {
                    assert(only@[i] == before[i]);
                }
            }
        }
        k = k + 1;
    }
    only
}

} // verus!
