//! The executor that interprets an execution graph against one table.
//!
//! A dataframe owns a table, the names of its fields (from the header of the
//! file last read) and a scalar result register. Each operation of a graph is
//! applied in order to the state the previous ones left; the first one that
//! fails stops the run and leaves the state as that operation found it.
pub mod table;

use vstd::prelude::*;
use crate::dataframe::table::{
    Table, TableModel, TableError, TableState, all_numeric, column_sum, ids_of, numeric_match, pushed_all,
    string_match,
};
use crate::execgraph::{ExecGraph, OpModel, OpNode, OperationType, operator_of};
use crate::partition::{
    boundary, csv_records, find_line_end, header_end, lemma_line_end_facts, partition_bounds,
    read_records,
};
use crate::text::{i64_of, parse_i64};

verus! {

/// Why an operation could not be carried out.
#[derive(Clone, Copy, Debug, PartialEq, Eq, Structural)]
pub enum ExecError {
    /// The operation lacks an argument that its kind needs.
    MissingArgument,
    /// A field name is not in the header.
    UnknownField,
    /// A filter's operator token is not one of `==`, `>`, `>=`, `<`, `<=`.
    BadOperator,
    /// A value that had to be read as an integer is not one.
    NotNumeric,
    /// A result does not fit in a signed 64-bit integer.
    Overflow,
    /// The operation kind is reserved and not carried out.
    Unsupported,
    /// No contents were supplied for the file that a read names.
    FileNotFound,
    /// The file has no header row.
    NoHeader,
    /// The file could not be read as delimited records, or a record's field
    /// count differs from the header's.
    MalformedInput,
    /// A saved state does not describe a well-formed dataframe.
    CorruptCheckpoint,
}

/// The contents of an input file, under its name.
pub struct SourceFile {
    pub name: String,
    pub content: Vec<u8>,
}

/// The names and contents of the input files.
pub open spec fn sources_view(sources: Seq<SourceFile>) -> Seq<(Seq<char>, Seq<u8>)> {
    sources.map_values(|s: SourceFile| (s.name@, s.content@))
}

/// The contents of the first file named `name`.
pub open spec fn source_of(sources: Seq<(Seq<char>, Seq<u8>)>, name: Seq<char>) -> Option<Seq<u8>>
    decreases sources.len(),
{
    if sources.len() == 0 {
        None
    } else if sources[0].0 == name {
        Some(sources[0].1)
    } else {
        source_of(sources.drop_first(), name)
    }
}

/// The column that a field name resolves to: the last header position that
/// carries exactly that name.
pub open spec fn field_index(fields: Seq<Seq<char>>, name: Seq<char>) -> Option<int>
    decreases fields.len(),
{
    if fields.len() == 0 {
        None
    } else if fields.last() == name {
        Some(fields.len() - 1)
    } else {
        field_index(fields.drop_last(), name)
    }
}

/// A resolved field is a position of the header that carries the name.
proof fn lemma_field_index_found(fields: Seq<Seq<char>>, name: Seq<char>)
    ensures
        match field_index(fields, name) {
            Some(i) => 0 <= i < fields.len() && fields[i] == name,
            None => forall|i: int| 0 <= i < fields.len() ==> fields[i] != name,
        },
    decreases fields.len(),
{
    if fields.len() > 0 && fields.last() != name {
        lemma_field_index_found(fields.drop_last(), name);
        assert forall|i: int| 0 <= i < fields.len() - 1 implies fields[i] == fields.drop_last()[i] by {}
    }
}

/// Once a prefix of the operations fails, the whole sequence fails the same way.
proof fn lemma_run_stops(
    m: DataframeModel,
    ops: Seq<OpModel>,
    sources: Seq<(Seq<char>, Seq<u8>)>,
    n_workers: nat,
    rank: nat,
    k: int,
)
    requires
        0 <= k <= ops.len(),
        run(m, ops.take(k), sources, n_workers, rank) is Err,
    ensures
        run(m, ops, sources, n_workers, rank) == run(m, ops.take(k), sources, n_workers, rank),
    decreases ops.len() - k,
{
    if k < ops.len() {
        assert(ops.take(k + 1).drop_last() =~= ops.take(k));
        lemma_run_stops(m, ops, sources, n_workers, rank, k + 1);
    } else {
        assert(ops.take(k) =~= ops);
    }
}

/// Every row has `nf` fields.
fn rows_have_width(rows: &Vec<Vec<String>>, nf: usize) -> (r: bool)
    ensures
        r == forall|i: int| 0 <= i < rows.deep_view().len() ==> (#[trigger] rows.deep_view()[i]).len() == nf,
{
    let ghost rv = rows.deep_view();
    for i in 0..rows.len()
        invariant
            rv == rows.deep_view(),
            forall|k: int| 0 <= k < i ==> (#[trigger] rv[k]).len() == nf,
    {
        if rows[i].len() != nf {
            assert(rv[i as int].len() != nf);
            return false;
        }
    }
    true
}

/// A new table of `nf` fields holding the rows, pushed in order.
fn build_table(rows: &Vec<Vec<String>>, nf: usize) -> (t: Table)
    requires
        forall|i: int| 0 <= i < rows.deep_view().len() ==> (#[trigger] rows.deep_view()[i]).len() == nf,
    ensures
        t.wf(),
        t@ == pushed_all(TableModel::empty(nf as nat), rows.deep_view()),
        t@.nfields == nf,
{
    let ghost rv = rows.deep_view();
    let mut table = Table::new(nf);
    let n = rows.len();
    for i in 0..n
        invariant
            n == rv.len(),
            rv == rows.deep_view(),
            forall|k: int| 0 <= k < n ==> (#[trigger] rv[k]).len() == nf,
            table.wf(),
            table@ == pushed_all(TableModel::empty(nf as nat), rv.take(i as int)),
            table@.next_index == i,
            table@.nfields == nf,
    {
        let row = copy_strings(&rows[i]);
        assert(rv[i as int] == rows@[i as int].deep_view());
        assert(rv.take(i as int + 1).drop_last() =~= rv.take(i as int));
        table.push(row);
    }
    assert(rv.take(n as int) =~= rv);
    table
}

/// A copy of a sequence of strings.
fn copy_strings(v: &Vec<String>) -> (r: Vec<String>)
    ensures
        r.deep_view() == v.deep_view(),
{
    let mut out: Vec<String> = Vec::new();
    for i in 0..v.len()
        invariant
            out@.len() == i,
            forall|k: int| 0 <= k < i ==> (#[trigger] out@[k])@ == v@[k]@,
    {
        out.push(v[i].clone());
    }
    assert(out.deep_view() =~= v.deep_view());
    out
}

/// The position of the first source named `name`.
fn find_source(sources: &Vec<SourceFile>, name: &String) -> (r: Option<usize>)
    ensures
        match r {
            Some(i) => i < sources@.len() && source_of(sources_view(sources@), name@) == Some(
                sources@[i as int].content@,
            ),
            None => source_of(sources_view(sources@), name@) is None,
        },
{
    let ghost sv = sources_view(sources@);
    let mut k: usize = 0;
    assert(sv.subrange(0, sv.len() as int) =~= sv);
    while k < sources.len()
        invariant
            k <= sources@.len(),
            sv == sources_view(sources@),
            source_of(sv, name@) == source_of(sv.subrange(k as int, sv.len() as int), name@),
        decreases sources@.len() - k,
    {
        let ghost rest = sv.subrange(k as int, sv.len() as int);
        assert(rest.drop_first() =~= sv.subrange(k as int + 1, sv.len() as int));
        assert(rest[0] == sv[k as int]);
        if sources[k].name == *name {
            return Some(k);
        }
        k = k + 1;
    }
    None
}

/// The abstract state of a dataframe.
pub struct DataframeModel {
    pub table: TableModel,
    /// The name of each column, in header order.
    pub fields: Seq<Seq<char>>,
    /// The scalar result register.
    pub result: int,
}

impl DataframeModel {
    /// The state has a well-formed table with one name per column.
    pub open spec fn wf(self) -> bool {
        self.table.wf() && self.fields.len() == self.table.nfields
    }
}

/// A new, empty state: no fields, no rows, result 0.
pub open spec fn empty_state() -> DataframeModel {
    DataframeModel { table: TableModel::empty(0), fields: Seq::empty(), result: 0 }
}

/// The header fields and the records of worker `rank`'s range of a file.
pub open spec fn ingest(b: Seq<u8>, n_workers: nat, rank: nat) -> Result<
    (Seq<Seq<char>>, Seq<Seq<Seq<char>>>),
    ExecError,
> {
    match csv_records(b.subrange(0, header_end(b))) {
        None => Err(ExecError::MalformedInput),
        Some(h) => if h.len() == 0 {
            Err(ExecError::NoHeader)
        } else {
            match csv_records(
                b.subrange(boundary(b, n_workers, rank), boundary(b, n_workers, rank + 1)),
            ) {
                None => Err(ExecError::MalformedInput),
                Some(rows) => if forall|i: int| 0 <= i < rows.len() ==> (#[trigger] rows[i]).len() == h[0].len() {
                    Ok((h[0], rows))
                } else {
                    Err(ExecError::MalformedInput)
                },
            }
        },
    }
}

/// Loading a file's contents: the table is replaced by the records of this
/// worker's range, and the field names by the header.
pub open spec fn load_step(m: DataframeModel, b: Seq<u8>, n_workers: nat, rank: nat) -> Result<
    DataframeModel,
    ExecError,
> {
    match ingest(b, n_workers, rank) {
        Err(e) => Err(e),
        Ok((names, rows)) => Ok(
            DataframeModel {
                table: pushed_all(TableModel::empty(names.len()), rows),
                fields: names,
                result: m.result,
            },
        ),
    }
}

/// `Read(file)`: loads this worker's share of the named file.
pub open spec fn read_step(
    m: DataframeModel,
    args: Seq<Seq<char>>,
    sources: Seq<(Seq<char>, Seq<u8>)>,
    n_workers: nat,
    rank: nat,
) -> Result<DataframeModel, ExecError> {
    if args.len() < 1 {
        Err(ExecError::MissingArgument)
    } else {
        match source_of(sources, args[0]) {
            None => Err(ExecError::FileNotFound),
            Some(b) => load_step(m, b, n_workers, rank),
        }
    }
}

/// `Select(fields...)`: every named column is marked for output, none is unmarked.
pub open spec fn select_step(m: DataframeModel, names: Seq<Seq<char>>) -> Result<DataframeModel, ExecError> {
    if forall|i: int| 0 <= i < names.len() ==> (#[trigger] field_index(m.fields, names[i])) is Some {
        Ok(
            DataframeModel {
                table: TableModel {
                    projections: Seq::new(
                        m.table.projections.len(),
                        |j: int|
                            m.table.projections[j] || exists|i: int|
                                0 <= i < names.len() && #[trigger] field_index(m.fields, names[i])
                                    == Some(j),
                    ),
                    ..m.table
                },
                ..m
            },
        )
    } else {
        Err(ExecError::UnknownField)
    }
}

/// `Where(field, operator, operand)`: rows whose entry in the field fails the
/// comparison are dropped from every column. The comparison is numeric where
/// the operand is an integer, and by string order otherwise.
pub open spec fn where_step(m: DataframeModel, args: Seq<Seq<char>>) -> Result<DataframeModel, ExecError> {
    if args.len() < 3 {
        Err(ExecError::MissingArgument)
    } else {
        match operator_of(args[1]) {
            None => Err(ExecError::BadOperator),
            Some(op) => match field_index(m.fields, args[0]) {
                None => Err(ExecError::UnknownField),
                Some(f) => {
                    let col = m.table.columns[f];
                    match i64_of(args[2]) {
                        Some(v) => if all_numeric(col) {
                            Ok(
                                DataframeModel {
                                    table: m.table.retained(ids_of(col.filter(numeric_match(v, op)))),
                                    ..m
                                },
                            )
                        } else {
                            Err(ExecError::NotNumeric)
                        },
                        None => Ok(
                            DataframeModel {
                                table: m.table.retained(ids_of(col.filter(string_match(args[2], op)))),
                                ..m
                            },
                        ),
                    }
                },
            },
        }
    }
}

/// `Sum(field)`: the result becomes the exact sum of the field's integers.
pub open spec fn sum_step(m: DataframeModel, args: Seq<Seq<char>>) -> Result<DataframeModel, ExecError> {
    if args.len() < 1 {
        Err(ExecError::MissingArgument)
    } else {
        match field_index(m.fields, args[0]) {
            None => Err(ExecError::UnknownField),
            Some(f) => if !all_numeric(m.table.columns[f]) {
                Err(ExecError::NotNumeric)
            } else if i64::MIN <= column_sum(m.table.columns[f]) <= i64::MAX {
                Ok(DataframeModel { result: column_sum(m.table.columns[f]), ..m })
            } else {
                Err(ExecError::Overflow)
            },
        }
    }
}

/// `Count`: the result becomes the number of rows.
pub open spec fn count_step(m: DataframeModel) -> Result<DataframeModel, ExecError> {
    if m.table.len() <= i64::MAX {
        Ok(DataframeModel { result: m.table.len() as int, ..m })
    } else {
        Err(ExecError::Overflow)
    }
}

/// The effect of one operation.
pub open spec fn apply_op(
    m: DataframeModel,
    op: OpModel,
    sources: Seq<(Seq<char>, Seq<u8>)>,
    n_workers: nat,
    rank: nat,
) -> Result<DataframeModel, ExecError> {
    match op.optype {
        OperationType::Read => read_step(m, op.args, sources, n_workers, rank),
        OperationType::Select => select_step(m, op.args),
        OperationType::Where => where_step(m, op.args),
        OperationType::Sum => sum_step(m, op.args),
        OperationType::Count => count_step(m),
        OperationType::Fetch => Err(ExecError::Unsupported),
        OperationType::Empty => Ok(m),
    }
}

/// The effect of a sequence of operations, applied in order; the first
/// failure stops it.
pub open spec fn run(
    m: DataframeModel,
    ops: Seq<OpModel>,
    sources: Seq<(Seq<char>, Seq<u8>)>,
    n_workers: nat,
    rank: nat,
) -> Result<DataframeModel, ExecError>
    decreases ops.len(),
{
    if ops.len() == 0 {
        Ok(m)
    } else {
        match run(m, ops.drop_last(), sources, n_workers, rank) {
            Ok(m1) => apply_op(m1, ops.last(), sources, n_workers, rank),
            Err(e) => Err(e),
        }
    }
}

/// The plain contents of a dataframe, for a checkpoint.
pub struct DataframeState {
    pub table: TableState,
    pub field_names: Vec<String>,
    pub result: i64,
}

impl DataframeState {
    /// The dataframe that the state describes.
    pub open spec fn model(&self) -> DataframeModel {
        DataframeModel {
            table: self.table.model(),
            fields: self.field_names.deep_view(),
            result: self.result as int,
        }
    }
}

/// What restoring a saved state gives: the state itself where it is well
/// formed, and a refusal otherwise.
pub open spec fn restored(m: DataframeModel) -> Result<DataframeModel, ExecError> {
    if m.wf() {
        Ok(m)
    } else {
        Err(ExecError::CorruptCheckpoint)
    }
}

/// A checkpoint round trip is faithful: restoring the state saved from a
/// dataframe gives back the same row indices, values, projection flags,
/// field names and result.
pub proof fn lemma_checkpoint_round_trip(m: DataframeModel)
    requires
        m.wf(),
    ensures
        restored(m) == Ok::<DataframeModel, ExecError>(m),
{
}

/// After a table of at least one field is loaded with `records`, `Count`
/// yields the number of records.
pub proof fn lemma_count_after_load(m: DataframeModel, names: Seq<Seq<char>>, records: Seq<Seq<Seq<char>>>)
    requires
        names.len() > 0,
        records.len() <= i64::MAX,
        forall|i: int| 0 <= i < records.len() ==> (#[trigger] records[i]).len() == names.len(),
    ensures
        count_step(
            DataframeModel {
                table: pushed_all(TableModel::empty(names.len()), records),
                fields: names,
                result: m.result,
            },
        ) == Ok::<DataframeModel, ExecError>(
            DataframeModel {
                table: pushed_all(TableModel::empty(names.len()), records),
                fields: names,
                result: records.len() as int,
            },
        ),
{
    lemma_pushed_all_len(names.len(), records);
}

/// Pushing records into a new table of at least one field adds one row each.
proof fn lemma_pushed_all_len(nfields: nat, records: Seq<Seq<Seq<char>>>)
    requires
        nfields > 0,
    ensures
        pushed_all(TableModel::empty(nfields), records).len() == records.len(),
        pushed_all(TableModel::empty(nfields), records).nfields == nfields,
    decreases records.len(),
{
    if records.len() > 0 {
        lemma_pushed_all_len(nfields, records.drop_last());
    }
}

/// The names of the projected fields below column `j`, in column order.
pub open spec fn projected_names_below(m: DataframeModel, j: int) -> Seq<Seq<char>>
    decreases j,
{
    if j <= 0 {
        Seq::empty()
    } else if m.table.projections[j - 1] {
        projected_names_below(m, j - 1).push(m.fields[j - 1])
    } else {
        projected_names_below(m, j - 1)
    }
}

/// The header of the output: the names of the projected fields.
pub open spec fn projected_names(m: DataframeModel) -> Seq<Seq<char>> {
    projected_names_below(m, m.fields.len() as int)
}

/// The state of a worker's executor: a table, its field names and a result.
pub struct Dataframe {
    table: Table,
    field_indexes: Vec<String>,
    result: i64,
}

impl View for Dataframe {
    type V = DataframeModel;

    closed spec fn view(&self) -> DataframeModel {
        DataframeModel {
            table: self.table@,
            fields: self.field_indexes.deep_view(),
            result: self.result as int,
        }
    }
}

impl Dataframe {
    /// The dataframe is well formed.
    pub open spec fn wf(&self) -> bool {
        self@.wf()
    }

    /// An empty dataframe: no fields, no rows, result 0.
    pub fn new_empty() -> (d: Dataframe)
        ensures
            d.wf(),
            d@ == empty_state(),
    {
        let d = Dataframe { table: Table::new(0), field_indexes: Vec::new(), result: 0 };
        assert(d@.fields =~= Seq::<Seq<char>>::empty());
        d
    }

    /// The plain contents of the dataframe, for a checkpoint.
    pub fn to_state(&self) -> (s: DataframeState)
        ensures
            s.model() == self@,
    {
        DataframeState {
            table: self.table.to_state(),
            field_names: copy_strings(&self.field_indexes),
            result: self.result,
        }
    }

    /// The dataframe that a saved state describes; refused where the state is
    /// not well formed.
    pub fn from_state(s: DataframeState) -> (r: Result<Dataframe, ExecError>)
        ensures
            match r {
                Ok(d) => d.wf() && restored(s.model()) == Ok::<DataframeModel, ExecError>(d@),
                Err(e) => restored(s.model()) == Err::<DataframeModel, ExecError>(e),
            },
    {
        let ghost m = s.model();
        if s.field_names.len() != s.table.nfields {
            return Err(ExecError::CorruptCheckpoint);
        }
        match Table::from_state(s.table) {
            Some(table) => Ok(Dataframe { table, field_indexes: s.field_names, result: s.result }),
            None => Err(ExecError::CorruptCheckpoint),
        }
    }

    /// The output of the table: for each row, the values of the projected columns.
    pub fn materialize(&self) -> (r: Vec<Vec<String>>)
        requires
            self.wf(),
        ensures
            r.deep_view() == crate::dataframe::table::output_rows(self@.table),
    {
        self.table.materialize()
    }

    /// The names of the projected fields, in column order.
    pub fn projected_fields(&self) -> (r: Vec<String>)
        requires
            self.wf(),
        ensures
            r.deep_view() == projected_names(self@),
    {
        let mut out: Vec<String> = Vec::new();
        let n = self.field_indexes.len();
        for j in 0..n
            invariant
                self.wf(),
                n == self@.fields.len(),
                out.deep_view() == projected_names_below(self@, j as int),
        {
            if self.table.is_projected(j) {
                let ghost before = out.deep_view();
                out.push(self.field_indexes[j].clone());
                assert(out.deep_view() =~= before.push(self@.fields[j as int]));
            }
        }
        out
    }

    /// The result register.
    pub fn get_result(&self) -> (r: i64)
        ensures
            r as int == self@.result,
    {
        self.result
    }

    /// Does nothing.
    pub fn dummy(&mut self)
        ensures
            *final(self) == *old(self),
    {
    }

    /// The column that `name` resolves to, if any.
    pub fn resolve_field(&self, name: &String) -> (r: Option<usize>)
        requires
            self.wf(),
        ensures
            match r {
                Some(i) => field_index(self@.fields, name@) == Some(i as int),
                None => field_index(self@.fields, name@) is None,
            },
    {
        let ghost fields = self@.fields;
        let mut k = self.field_indexes.len();
        assert(fields.take(k as int) =~= fields);
        while k > 0
            invariant
                k <= fields.len(),
                fields == self.field_indexes.deep_view(),
                field_index(fields, name@) == field_index(fields.take(k as int), name@),
            decreases k,
        {
            let ghost t = fields.take(k as int);
            assert(t.drop_last() =~= fields.take(k - 1));
            if self.field_indexes[k - 1] == *name {
                return Some(k - 1);
            }
            k = k - 1;
        }
        None
    }

    /// `Count`: stores the number of rows in the result.
    pub fn exec_count(&mut self) -> (r: Result<(), ExecError>)
        requires
            old(self).wf(),
        ensures
            final(self).wf(),
            match r {
                Ok(()) => count_step(old(self)@) == Ok::<DataframeModel, ExecError>(final(self)@),
                Err(e) => count_step(old(self)@) == Err::<DataframeModel, ExecError>(e)
                    && *final(self) == *old(self),
            },
    {
        let n = self.table.len();
        let n64 = n as u64;
        if n64 > 0x7fff_ffff_ffff_ffffu64 {
            return Err(ExecError::Overflow);
        }
        self.result = n64 as i64;
        Ok(())
    }

    /// `Where(field, operator, operand)`: drops, from every column, the rows
    /// whose entry in the field fails the comparison.
    pub fn exec_where(&mut self, op: &OpNode) -> (r: Result<(), ExecError>)
        requires
            old(self).wf(),
        ensures
            final(self).wf(),
            match r {
                Ok(()) => where_step(old(self)@, op@.args) == Ok::<DataframeModel, ExecError>(final(self)@),
                Err(e) => where_step(old(self)@, op@.args) == Err::<DataframeModel, ExecError>(e)
                    && *final(self) == *old(self),
            },
    {
        if op.get_projection_fields().len() < 3 {
            return Err(ExecError::MissingArgument);
        }
        let opcode = match op.get_binary_operation_operator() {
            Some(o) => o,
            None => return Err(ExecError::BadOperator),
        };
        let f = match self.resolve_field(op.get_binary_operation_left()) {
            Some(f) => f,
            None => return Err(ExecError::UnknownField),
        };
        proof {
            lemma_field_index_found(self@.fields, op@.args[0]);
        }
        let right = op.get_binary_operation_right();
        let ids = match parse_i64(right.as_str()) {
            Some(v) => match self.table.filter_numerical(v, opcode, f) {
                Ok(ids) => ids,
                Err(_) => return Err(ExecError::NotNumeric),
            },
            None => self.table.filter_string(right, opcode, f),
        };
        let ghost before = self@;
        self.table.apply_intermediate_result(&ids);
        assert(self@.table.nfields == before.table.nfields);
        assert(self@.fields == before.fields);
        Ok(())
    }

    /// `Select(fields...)`: marks every named column for output; when a name
    /// is unknown, marks none.
    pub fn exec_select(&mut self, op: &OpNode) -> (r: Result<(), ExecError>)
        requires
            old(self).wf(),
        ensures
            final(self).wf(),
            match r {
                Ok(()) => select_step(old(self)@, op@.args) == Ok::<DataframeModel, ExecError>(final(self)@),
                Err(e) => select_step(old(self)@, op@.args) == Err::<DataframeModel, ExecError>(e)
                    && *final(self) == *old(self),
            },
    {
        let ghost pre = self@;
        let names = op.get_projection_fields();
        let mut idxs: Vec<usize> = Vec::new();
        for i in 0..names.len()
            invariant
                self.wf(),
                self@ == pre,
                names.deep_view() == op@.args,
                idxs@.len() == i,
                forall|k: int| 0 <= k < i ==> field_index(pre.fields, op@.args[k]) == Some(
                    #[trigger] idxs@[k] as int,
                ),
                forall|k: int| 0 <= k < i ==> #[trigger] idxs@[k] < pre.fields.len(),
        {
            match self.resolve_field(&names[i]) {
                Some(f) => {
                    proof {
                        lemma_field_index_found(pre.fields, op@.args[i as int]);
                    }
                    idxs.push(f);
                },
                None => {
                    assert(field_index(pre.fields, op@.args[i as int]) is None);
                    return Err(ExecError::UnknownField);
                },
            }
        }
        assert forall|i: int| 0 <= i < op@.args.len() implies (#[trigger] field_index(pre.fields, op@.args[i])) is Some by {
            assert(field_index(pre.fields, op@.args[i]) == Some(idxs@[i] as int));
        }
        let n = idxs.len();
        for k in 0..n
            invariant
                n == idxs@.len(),
                n == op@.args.len(),
                self.wf(),
                self@.fields == pre.fields,
                self@.result == pre.result,
                self@.table == (TableModel { projections: self@.table.projections, ..pre.table }),
                self@.table.projections.len() == pre.table.projections.len(),
                forall|k: int| 0 <= k < n ==> field_index(pre.fields, op@.args[k]) == Some(
                    #[trigger] idxs@[k] as int,
                ),
                forall|k: int| 0 <= k < n ==> idxs@[k] < pre.table.nfields,
                forall|j: int| 0 <= j < pre.table.projections.len() ==> #[trigger] self@.table.projections[j]
                    == (pre.table.projections[j] || exists|i: int| 0 <= i < k && idxs@[i] == j),
        {
            let ghost before = self@.table.projections;
            self.table.select_projection(idxs[k]);
            assert forall|j: int| 0 <= j < pre.table.projections.len() implies #[trigger] self@.table.projections[j]
                == (pre.table.projections[j] || exists|i: int| 0 <= i < k + 1 && idxs@[i] == j) by {
                if j == idxs@[k as int] {
                    assert(idxs@[k as int] == j);
                } else {
                    assert(self@.table.projections[j] == before[j]);
                    if exists|i: int| 0 <= i < k + 1 && idxs@[i] == j {
                        let i = choose|i: int| 0 <= i < k + 1 && idxs@[i] == j;
                        assert(i < k);
                    }
                }
            }
        }
        proof {
            let post = select_step(pre, op@.args).unwrap();
            assert forall|j: int| 0 <= j < pre.table.projections.len() implies #[trigger] self@.table.projections[j]
                == post.table.projections[j] by {
                if exists|i: int| 0 <= i < n && idxs@[i] == j {
                    let i = choose|i: int| 0 <= i < n && idxs@[i] == j;
                    assert(field_index(pre.fields, op@.args[i]) == Some(j));
                }
                if exists|i: int| 0 <= i < op@.args.len() && #[trigger] field_index(pre.fields, op@.args[i]) == Some(j) {
                    let i = choose|i: int| 0 <= i < op@.args.len() && #[trigger] field_index(pre.fields, op@.args[i]) == Some(j);
                    assert(idxs@[i] == j);
                }
            }
            assert(self@.table.projections =~= post.table.projections);
        }
        Ok(())
    }

    /// Loads worker `rank`'s share of a delimited text file: the header row
    /// gives the field names, and the records of the worker's line-aligned
    /// byte range become the rows. On failure nothing changes.
    pub fn read_from_csv(&mut self, content: &[u8], n_workers: usize, rank: usize) -> (r: Result<(), ExecError>)
        requires
            old(self).wf(),
            0 < n_workers,
            rank < n_workers,
        ensures
            final(self).wf(),
            match r {
                Ok(()) => load_step(old(self)@, content@, n_workers as nat, rank as nat)
                    == Ok::<DataframeModel, ExecError>(final(self)@),
                Err(e) => load_step(old(self)@, content@, n_workers as nat, rank as nat)
                    == Err::<DataframeModel, ExecError>(e) && *final(self) == *old(self),
            },
    {
        let hdr_end = find_line_end(content, 0);
        proof {
            lemma_line_end_facts(content@, 0);
        }
        let header = match read_records(&content[0..hdr_end]) {
            Ok(h) => h,
            Err(_) => return Err(ExecError::MalformedInput),
        };
        assert(content@.subrange(0, hdr_end as int) == content@.subrange(0, header_end(content@)));
        if header.len() == 0 {
            return Err(ExecError::NoHeader);
        }
        let (begin, end) = partition_bounds(content, n_workers, rank);
        let rows = match read_records(&content[begin..end]) {
            Ok(rows) => rows,
            Err(_) => return Err(ExecError::MalformedInput),
        };
        let nf = header[0].len();
        if !rows_have_width(&rows, nf) {
            return Err(ExecError::MalformedInput);
        }
        let table = build_table(&rows, nf);
        self.table = table;
        self.field_indexes = copy_strings(&header[0]);
        assert(header.deep_view()[0] == header@[0].deep_view());
        Ok(())
    }

    /// `Read(file)`: loads this worker's share of the file of that name among `sources`.
    pub fn exec_read(&mut self, op: &OpNode, sources: &Vec<SourceFile>, n_workers: usize, rank: usize) -> (r: Result<(), ExecError>)
        requires
            old(self).wf(),
            0 < n_workers,
            rank < n_workers,
        ensures
            final(self).wf(),
            match r {
                Ok(()) => read_step(old(self)@, op@.args, sources_view(sources@), n_workers as nat, rank as nat)
                    == Ok::<DataframeModel, ExecError>(final(self)@),
                Err(e) => read_step(old(self)@, op@.args, sources_view(sources@), n_workers as nat, rank as nat)
                    == Err::<DataframeModel, ExecError>(e) && *final(self) == *old(self),
            },
    {
        if op.get_projection_fields().len() < 1 {
            return Err(ExecError::MissingArgument);
        }
        match find_source(sources, op.get_read_op_filename()) {
            Some(i) => self.read_from_csv(sources[i].content.as_slice(), n_workers, rank),
            None => Err(ExecError::FileNotFound),
        }
    }

    /// Runs the operations of `graph` in order against this dataframe, `Read`
    /// loading worker `rank`'s share of the named file among `sources`. The
    /// first failing operation stops the run.
    pub fn play(&mut self, graph: &ExecGraph, sources: &Vec<SourceFile>, n_workers: usize, rank: usize) -> (r: Result<(), ExecError>)
        requires
            old(self).wf(),
            0 < n_workers,
            rank < n_workers,
        ensures
            final(self).wf(),
            match r {
                Ok(()) => run(old(self)@, graph@.operations, sources_view(sources@), n_workers as nat, rank as nat)
                    == Ok::<DataframeModel, ExecError>(final(self)@),
                Err(e) => run(old(self)@, graph@.operations, sources_view(sources@), n_workers as nat, rank as nat)
                    == Err::<DataframeModel, ExecError>(e),
            },
    {
        let ghost pre = self@;
        let ghost sv = sources_view(sources@);
        let ops = graph.operations();
        let ghost opsv = graph@.operations;
        let n = ops.len();
        for k in 0..n
            invariant
                n == opsv.len(),
                opsv == ops@.map_values(|o: OpNode| o@),
                sv == sources_view(sources@),
                pre == old(self)@,
                opsv == graph@.operations,
                0 < n_workers,
                rank < n_workers,
                self.wf(),
                run(pre, opsv.take(k as int), sv, n_workers as nat, rank as nat)
                    == Ok::<DataframeModel, ExecError>(self@),
        {
            let op = &ops[k];
            let ghost cur = self@;
            assert(opsv.take(k as int + 1).drop_last() =~= opsv.take(k as int));
            assert(opsv.take(k as int + 1).last() == op@);
            let step = match op.optype() {
                OperationType::Read => self.exec_read(op, sources, n_workers, rank),
                OperationType::Select => self.exec_select(op),
                OperationType::Where => self.exec_where(op),
                OperationType::Sum => self.exec_sum(op),
                OperationType::Count => self.exec_count(),
                OperationType::Fetch => Err(ExecError::Unsupported),
                OperationType::Empty => {
                    self.dummy();
                    Ok(())
                },
            };
            match step {
                Ok(()) => {},
                Err(e) => {
                    assert(apply_op(cur, op@, sv, n_workers as nat, rank as nat) == Err::<DataframeModel, ExecError>(e));
                    assert(run(pre, opsv.take(k as int + 1), sv, n_workers as nat, rank as nat) == Err::<DataframeModel, ExecError>(e));
                    proof {
                        lemma_run_stops(pre, opsv, sv, n_workers as nat, rank as nat, k as int + 1);
                    }

                    return Err(e);
                },
            }
        }
        assert(opsv.take(n as int) =~= opsv);
        Ok(())
    }

    /// `Sum(field)`: stores the exact sum of the field in the result.
    pub fn exec_sum(&mut self, op: &OpNode) -> (r: Result<(), ExecError>)
        requires
            old(self).wf(),
        ensures
            final(self).wf(),
            match r {
                Ok(()) => sum_step(old(self)@, op@.args) == Ok::<DataframeModel, ExecError>(final(self)@),
                Err(e) => sum_step(old(self)@, op@.args) == Err::<DataframeModel, ExecError>(e)
                    && *final(self) == *old(self),
            },
    {
        if op.get_projection_fields().len() < 1 {
            return Err(ExecError::MissingArgument);
        }
        let f = match self.resolve_field(op.get_read_op_filename()) {
            Some(f) => f,
            None => return Err(ExecError::UnknownField),
        };
        proof {
            lemma_field_index_found(self@.fields, op@.args[0]);
        }
        match self.table.sum_field(f) {
            Ok(s) => {
                self.result = s;
                Ok(())
            },
            Err(TableError::NotNumeric) => Err(ExecError::NotNumeric),
            Err(TableError::Overflow) => Err(ExecError::Overflow),
        }
    }
}

} // verus!
