//! The record-reader capability shared by both backends.
use vstd::prelude::*;
use crate::codec::{FieldError, UtcDateTime};
use crate::config::{resolved, tokens_view, ColumnPair, ConstrainedField};
use crate::ese::{
    ese_date_time, ese_int, ese_positions, ese_text, lemma_ese_positions_bounds, some_binding_fails,
    EseReader, SchemaError,
};
use crate::sqlite::{
    guid_result, lemma_sql_positions_bounds, sql_date_time, sql_int, sql_positions, sql_text,
    text_result, SqlReader,
};

verus! {

/// Whether `fields` are the resolutions of the columns at positions `p`,
/// each under the constraint tokens `tokens` of its backend binding, and
/// numbered by its column's position or, without `by_position`, by its own
/// place among the bound fields.
pub open spec fn fields_at(
    cols: Seq<ColumnPair>,
    p: Seq<int>,
    by_position: bool,
    tokens: Seq<Seq<Seq<char>>>,
    fields: Seq<ConstrainedField>,
) -> bool {
    &&& fields.len() == p.len()
    &&& forall|i: int| 0 <= i < p.len() ==> 0 <= #[trigger] p[i] < cols.len()
    &&& forall|i: int| 0 <= i < p.len() ==> resolved(
        #[trigger] fields[i],
        cols[p[i]].title@,
        tokens[p[i]],
        if by_position { p[i] } else { i },
    )
}

/// A forward-only cursor over logical records with typed field reads.
pub trait FieldReader: Sized {
    /// The reader's internal consistency.
    spec fn inv(&self) -> bool;

    /// How many more steps the cursor can take.
    spec fn remaining(&self) -> nat;

    /// Whether a bound field is numbered by its column's position among all
    /// configured columns, rather than by its place among the bound fields.
    spec fn numbers_by_position() -> bool;

    /// The constraint tokens of each configured column's backend binding.
    spec fn binding_tokens(cols: Seq<ColumnPair>) -> Seq<Seq<Seq<char>>>;

    /// The positions of the configured columns that this reader binds.
    spec fn bound_positions(&self, cols: Seq<ColumnPair>) -> Seq<int>;

    /// Whether binding these columns is a schema error.
    spec fn binding_fails(&self, cols: Seq<ColumnPair>) -> bool;

    /// The reader with its cursor rewound.
    spec fn after_init(&self) -> Self;

    /// The reader after one step, and whether the step found a record.
    spec fn after_next(&self) -> (Self, bool);

    /// Whether the source holds any record.
    spec fn has_records(&self) -> bool;

    /// Rewinding and stepping keep the reader consistent, a step that finds
    /// a record shortens what remains, and rewinding forgets the cursor.
    proof fn lemma_cursor(&self)
        requires
            self.inv(),
        ensures
            self.after_init().inv(),
            self.after_next().0.inv(),
            self.after_next().1 ==> self.after_next().0.remaining() < self.remaining(),
            self.after_next().0.after_init() == self.after_init(),
            self.after_init().after_init() == self.after_init(),
            self.after_init().has_records() == self.has_records(),
            forall|c: Seq<ColumnPair>| #[trigger] self.after_init().bound_positions(c) == self.bound_positions(c),
            forall|c: Seq<ColumnPair>| #[trigger] self.after_init().binding_fails(c) == self.binding_fails(c),
            forall|c: Seq<ColumnPair>| #[trigger] self.after_next().0.bound_positions(c) == self.bound_positions(c),
            forall|c: Seq<ColumnPair>| #[trigger] self.after_next().0.binding_fails(c) == self.binding_fails(c),
    ;

    /// The current record's integer under a title.
    spec fn int_value(&self, id: Seq<char>) -> Result<Option<i64>, FieldError>;

    /// The current record's text under a title.
    spec fn str_value(&self, id: Seq<char>) -> Result<Option<Seq<char>>, FieldError>;

    /// The current record's instant under a title.
    spec fn date_time_value(&self, id: Seq<char>) -> Result<Option<UtcDateTime>, FieldError>;

    /// Binds a report's columns and returns their resolved fields in column order.
    fn get_used_columns(&mut self, columns: &Vec<ColumnPair>) -> (r: Result<
        Vec<ConstrainedField>,
        SchemaError,
    >)
        requires
            old(self).inv(),
        ensures
            final(self).inv(),
            r is Err <==> old(self).binding_fails(columns@),
            r matches Ok(v) ==> fields_at(
                columns@,
                old(self).bound_positions(columns@),
                Self::numbers_by_position(),
                Self::binding_tokens(columns@),
                v@,
            ),
            forall|c: Seq<ColumnPair>| #[trigger] final(self).bound_positions(c) == old(self).bound_positions(c),
            forall|c: Seq<ColumnPair>| #[trigger] final(self).binding_fails(c) == old(self).binding_fails(c),
            final(self).has_records() == old(self).has_records(),
    ;

    /// Rewinds to before the first record; `false` when there is none.
    fn init(&mut self) -> (r: bool)
        requires
            old(self).inv(),
        ensures
            final(self).inv(),
            *final(self) == old(self).after_init(),
            r == old(self).has_records(),
    ;

    /// Steps onto the next record; `false` at the end of the data.
    fn next(&mut self) -> (r: bool)
        requires
            old(self).inv(),
        ensures
            final(self).inv(),
            r ==> final(self).remaining() < old(self).remaining(),
            (*final(self), r) == old(self).after_next(),
    ;

    fn get_int(&self, id: &str) -> (r: Result<Option<i64>, FieldError>)
        requires
            self.inv(),
        ensures
            r == self.int_value(id@),
    ;

    fn get_str(&self, id: &str) -> (r: Result<Option<String>, FieldError>)
        requires
            self.inv(),
        ensures
            text_result(r) == self.str_value(id@),
    ;

    /// The GUID that follows `id=` in the current record's text under `id`.
    fn get_guid(&self, id: &str) -> (r: Result<Option<String>, FieldError>)
        requires
            self.inv(),
        ensures
            text_result(r) == guid_result(self.str_value(id@), id@),
    ;

    fn get_datetime(&self, id: &str) -> (r: Result<Option<UtcDateTime>, FieldError>)
        requires
            self.inv(),
        ensures
            r == self.date_time_value(id@),
            r matches Ok(Some(t)) ==> t.wf(),
    ;
}

impl FieldReader for SqlReader {
    open spec fn inv(&self) -> bool {
        self.wf()
    }

    open spec fn remaining(&self) -> nat {
        (self.rows().len() - self.pos()) as nat
    }

    open spec fn numbers_by_position() -> bool {
        true
    }

    open spec fn binding_tokens(cols: Seq<ColumnPair>) -> Seq<Seq<Seq<char>>> {
        cols.map_values(|c: ColumnPair| tokens_view(c.sql.constraint))
    }

    open spec fn bound_positions(&self, cols: Seq<ColumnPair>) -> Seq<int> {
        sql_positions(cols, cols.len() as int)
    }

    open spec fn binding_fails(&self, cols: Seq<ColumnPair>) -> bool {
        false
    }

    open spec fn after_init(&self) -> Self {
        self.rewound()
    }

    open spec fn after_next(&self) -> (Self, bool) {
        self.stepped()
    }

    open spec fn has_records(&self) -> bool {
        self.rows().len() > 0
    }

    proof fn lemma_cursor(&self) {
        SqlReader::lemma_cursor(self);
    }

    open spec fn int_value(&self, id: Seq<char>) -> Result<Option<i64>, FieldError> {
        sql_int(self.value_of(id))
    }

    open spec fn str_value(&self, id: Seq<char>) -> Result<Option<Seq<char>>, FieldError> {
        sql_text(self.value_of(id))
    }

    open spec fn date_time_value(&self, id: Seq<char>) -> Result<Option<UtcDateTime>, FieldError> {
        sql_date_time(self.value_of(id))
    }

    fn get_used_columns(&mut self, columns: &Vec<ColumnPair>) -> (r: Result<
        Vec<ConstrainedField>,
        SchemaError,
    >) {
        proof {
            lemma_sql_positions_bounds(columns@, columns@.len() as int);
        }
        Ok(SqlReader::get_used_columns(self, columns))
    }

    fn init(&mut self) -> (r: bool) {
        self.first_row()
    }

    fn next(&mut self) -> (r: bool) {
        SqlReader::next(self)
    }

    fn get_int(&self, id: &str) -> (r: Result<Option<i64>, FieldError>) {
        SqlReader::get_int(self, id)
    }

    fn get_str(&self, id: &str) -> (r: Result<Option<String>, FieldError>) {
        SqlReader::get_str(self, id)
    }

    fn get_guid(&self, id: &str) -> (r: Result<Option<String>, FieldError>) {
        SqlReader::get_guid(self, id)
    }

    fn get_datetime(&self, id: &str) -> (r: Result<Option<UtcDateTime>, FieldError>) {
        SqlReader::get_datetime(self, id)
    }
}

impl FieldReader for EseReader {
    open spec fn inv(&self) -> bool {
        self.wf()
    }

    open spec fn remaining(&self) -> nat {
        (self.rows().len() + 1 - self.rec_no()) as nat
    }

    open spec fn numbers_by_position() -> bool {
        false
    }

    open spec fn binding_tokens(cols: Seq<ColumnPair>) -> Seq<Seq<Seq<char>>> {
        cols.map_values(|c: ColumnPair| tokens_view(c.edb.constraint))
    }

    open spec fn bound_positions(&self, cols: Seq<ColumnPair>) -> Seq<int> {
        ese_positions(self.catalog(), cols, cols.len() as int)
    }

    open spec fn binding_fails(&self, cols: Seq<ColumnPair>) -> bool {
        some_binding_fails(self.catalog(), cols, cols.len() as int)
    }

    open spec fn after_init(&self) -> Self {
        self.rewound()
    }

    open spec fn after_next(&self) -> (Self, bool) {
        self.stepped()
    }

    open spec fn has_records(&self) -> bool {
        self.rows().len() > 0
    }

    proof fn lemma_cursor(&self) {
        EseReader::lemma_cursor(self);
    }

    open spec fn int_value(&self, id: Seq<char>) -> Result<Option<i64>, FieldError> {
        ese_int(self.value_of(id))
    }

    open spec fn str_value(&self, id: Seq<char>) -> Result<Option<Seq<char>>, FieldError> {
        ese_text(self.value_of(id))
    }

    open spec fn date_time_value(&self, id: Seq<char>) -> Result<Option<UtcDateTime>, FieldError> {
        ese_date_time(self.value_of(id))
    }

    fn get_used_columns(&mut self, columns: &Vec<ColumnPair>) -> (r: Result<
        Vec<ConstrainedField>,
        SchemaError,
    >) {
        proof {
            lemma_ese_positions_bounds(self.catalog(), columns@, columns@.len() as int);
        }
        EseReader::get_used_columns(self, columns)
    }

    fn init(&mut self) -> (r: bool) {
        EseReader::init(self)
    }

    fn next(&mut self) -> (r: bool) {
        EseReader::next(self)
    }

    fn get_int(&self, id: &str) -> (r: Result<Option<i64>, FieldError>) {
        EseReader::get_int(self, id)
    }

    fn get_str(&self, id: &str) -> (r: Result<Option<String>, FieldError>) {
        EseReader::get_str(self, id)
    }

    fn get_guid(&self, id: &str) -> (r: Result<Option<String>, FieldError>) {
        EseReader::get_guid(self, id)
    }

    fn get_datetime(&self, id: &str) -> (r: Result<Option<UtcDateTime>, FieldError>) {
        EseReader::get_datetime(self, id)
    }
}

} // verus!
