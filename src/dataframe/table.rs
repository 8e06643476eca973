//! Columnar storage with persistent row identities.
//!
//! Every column is a sequence of `(row index, value)` entries. A row index is
//! handed out once, at insertion, and never reused or renumbered, so the
//! columns stay aligned through any number of filters.
use vstd::prelude::*;
use core::cmp::Ordering;
use crate::text::{compare_i64, compare_str, i64_of, int_order, lex_order, parse_i64};

verus! {

/// A comparison that a filter applies between a column entry and its operand.
#[derive(Clone, Copy, Debug, PartialEq, Eq, Structural)]
pub enum FilterOpcodes {
    Equal,
    Greater,
    GreaterEqual,
    Less,
    LessEqual,
}

/// Whether the outcome of comparing an entry with the operand satisfies `op`.
pub open spec fn satisfies(order: Ordering, op: FilterOpcodes) -> bool {
    match op {
        FilterOpcodes::Equal => order == Ordering::Equal,
        FilterOpcodes::Greater => order == Ordering::Greater,
        FilterOpcodes::GreaterEqual => order != Ordering::Less,
        FilterOpcodes::Less => order == Ordering::Less,
        FilterOpcodes::LessEqual => order != Ordering::Greater,
    }
}

/// Why a table operation refused its input.
#[derive(Clone, Copy, Debug, PartialEq, Eq, Structural)]
pub enum TableError {
    /// An entry that had to be read as an integer is not one.
    NotNumeric,
    /// The exact result does not fit in a signed 64-bit integer.
    Overflow,
}

/// One stored entry: its row index and its value.
pub type Entry = (usize, Seq<char>);

/// The abstract content of a table.
pub struct TableModel {
    /// Column `j` holds the entries of field `j`, in insertion order.
    pub columns: Seq<Seq<Entry>>,
    /// Whether each column is marked for output.
    pub projections: Seq<bool>,
    /// The number of fields, fixed at construction.
    pub nfields: nat,
    /// The row index that the next pushed record receives.
    pub next_index: nat,
}

/// The row indices of a column, in column order.
pub open spec fn ids_of(col: Seq<Entry>) -> Seq<usize> {
    col.map_values(|e: Entry| e.0)
}

/// The indices are strictly increasing and all below `bound`.
pub open spec fn increasing_below(ids: Seq<usize>, bound: nat) -> bool {
    &&& forall|a: int, b: int| 0 <= a < b < ids.len() ==> ids[a] < ids[b]
    &&& forall|a: int| 0 <= a < ids.len() ==> ids[a] < bound
}

/// Keeps the entries whose row index is among `keep`.
pub open spec fn kept_by(keep: Seq<usize>) -> spec_fn(Entry) -> bool {
    |e: Entry| keep.contains(e.0)
}

/// Holds of the entries whose value, compared as a string with `value`, satisfies `op`.
pub open spec fn string_match(value: Seq<char>, op: FilterOpcodes) -> spec_fn(Entry) -> bool {
    |e: Entry| satisfies(lex_order(e.1, value), op)
}

/// Holds of the entries whose value is an integer that, compared with `num`, satisfies `op`.
pub open spec fn numeric_match(num: int, op: FilterOpcodes) -> spec_fn(Entry) -> bool {
    |e: Entry|
        match i64_of(e.1) {
            Some(v) => satisfies(int_order(v, num), op),
            None => false,
        }
}

/// Every entry of the column is a signed 64-bit integer.
pub open spec fn all_numeric(col: Seq<Entry>) -> bool {
    forall|k: int| 0 <= k < col.len() ==> (#[trigger] i64_of(col[k].1)) is Some
}

/// The sum of the integer values of a column (an entry that is not one counts 0).
pub open spec fn column_sum(col: Seq<Entry>) -> int
    decreases col.len(),
{
    if col.len() == 0 {
        0
    } else {
        column_sum(col.drop_last()) + match i64_of(col.last().1) {
            Some(v) => v,
            None => 0,
        }
    }
}

impl TableModel {
    /// A table of `nfields` empty columns, none of them projected.
    pub open spec fn empty(nfields: nat) -> TableModel {
        TableModel {
            columns: Seq::new(nfields, |j: int| Seq::<Entry>::empty()),
            projections: Seq::new(nfields, |j: int| false),
            nfields,
            next_index: 0,
        }
    }

    /// The row indices present, in storage order.
    pub open spec fn ids(self) -> Seq<usize> {
        if self.nfields == 0 {
            Seq::empty()
        } else {
            ids_of(self.columns[0])
        }
    }

    /// The number of rows.
    pub open spec fn len(self) -> nat {
        self.ids().len()
    }

    /// The structural invariant: one column and one flag per field, every
    /// column holding the same row indices in the same order, those indices
    /// increasing and all below the next index to hand out.
    pub open spec fn wf(self) -> bool {
        &&& self.columns.len() == self.nfields
        &&& self.projections.len() == self.nfields
        &&& forall|j: int| 0 <= j < self.nfields ==> ids_of(#[trigger] self.columns[j]) == self.ids()
        &&& increasing_below(self.ids(), self.next_index)
    }

    /// The table after one record is appended under the next row index.
    pub open spec fn pushed(self, row: Seq<Seq<char>>) -> TableModel {
        TableModel {
            columns: Seq::new(
                self.nfields,
                |j: int| self.columns[j].push((self.next_index as usize, row[j])),
            ),
            next_index: self.next_index + 1,
            ..self
        }
    }

    /// The table after every column keeps only the entries whose row index is in `keep`.
    pub open spec fn retained(self, keep: Seq<usize>) -> TableModel {
        TableModel {
            columns: self.columns.map_values(|c: Seq<Entry>| c.filter(kept_by(keep))),
            ..self
        }
    }

    /// The table after column `field` is marked for output.
    pub open spec fn selected(self, field: int) -> TableModel {
        TableModel { projections: self.projections.update(field, true), ..self }
    }
}

/// A table after each record of `records` is pushed in turn.
pub open spec fn pushed_all(m: TableModel, records: Seq<Seq<Seq<char>>>) -> TableModel
    decreases records.len(),
{
    if records.len() == 0 {
        m
    } else {
        pushed_all(m, records.drop_last()).pushed(records.last())
    }
}

/// A table after each membership filter of `keeps` is applied in turn.
pub open spec fn retained_all(m: TableModel, keeps: Seq<Seq<usize>>) -> TableModel
    decreases keeps.len(),
{
    if keeps.len() == 0 {
        m
    } else {
        retained_all(m, keeps.drop_last()).retained(keeps.last())
    }
}

/// Every entry of the table carries the value that the record with its row
/// index had in its field.
pub open spec fn entries_match(m: TableModel, records: Seq<Seq<Seq<char>>>) -> bool {
    forall|j: int, k: int|
        0 <= j < m.columns.len() && 0 <= k < m.columns[j].len() ==> {
            let e = #[trigger] m.columns[j][k];
            e.0 < records.len() && e.1 == records[e.0 as int][j]
        }
}

/// Marking a column for output twice is the same as marking it once.
pub proof fn lemma_select_projection_idempotent(m: TableModel, field: int)
    requires
        m.wf(),
        0 <= field < m.nfields,
    ensures
        m.selected(field).selected(field) == m.selected(field),
{
    assert(m.selected(field).selected(field).projections =~= m.selected(field).projections);
}

/// Row identity survives filtering: after any records are pushed into a new
/// table and any membership filters are applied, the columns still hold the
/// same row indices in the same order, and every entry is the value that the
/// record with its row index had in its field.
pub proof fn lemma_rows_keep_their_records(
    nfields: nat,
    records: Seq<Seq<Seq<char>>>,
    keeps: Seq<Seq<usize>>,
)
    requires
        records.len() <= usize::MAX,
        forall|i: int| 0 <= i < records.len() ==> (#[trigger] records[i]).len() == nfields,
    ensures
        retained_all(pushed_all(TableModel::empty(nfields), records), keeps).wf(),
        entries_match(retained_all(pushed_all(TableModel::empty(nfields), records), keeps), records),
{
    lemma_pushed_all(nfields, records);
    lemma_retained_all(pushed_all(TableModel::empty(nfields), records), records, keeps);
}

proof fn lemma_pushed_all(nfields: nat, records: Seq<Seq<Seq<char>>>)
    requires
        records.len() <= usize::MAX,
        forall|i: int| 0 <= i < records.len() ==> (#[trigger] records[i]).len() == nfields,
    ensures
        pushed_all(TableModel::empty(nfields), records).wf(),
        pushed_all(TableModel::empty(nfields), records).nfields == nfields,
        pushed_all(TableModel::empty(nfields), records).next_index == records.len(),
        entries_match(pushed_all(TableModel::empty(nfields), records), records),
    decreases records.len(),
{
    let m = pushed_all(TableModel::empty(nfields), records);
    if records.len() == 0 {
        let e = TableModel::empty(nfields);
        if nfields > 0 {
            assert(e.ids() =~= Seq::<usize>::empty());
            assert forall|j: int| 0 <= j < nfields implies ids_of(#[trigger] e.columns[j]) == e.ids() by {
                assert(ids_of(e.columns[j]) =~= Seq::<usize>::empty());
            }
        }
    } else {
        let d = records.drop_last();
        assert forall|i: int| 0 <= i < d.len() implies (#[trigger] d[i]).len() == nfields by {
            assert(d[i] == records[i]);
        }
        lemma_pushed_all(nfields, d);
        let m0 = pushed_all(TableModel::empty(nfields), d);
        assert(records.last() == records[records.len() - 1]);
        lemma_pushed_wf(m0, records.last());
        assert forall|j: int, k: int| 0 <= j < m.columns.len() && 0 <= k < m.columns[j].len() implies {
            let e = #[trigger] m.columns[j][k];
            e.0 < records.len() && e.1 == records[e.0 as int][j]
        } by {
            if k < m0.columns[j].len() {
                let e = m0.columns[j][k];
                assert(m.columns[j][k] == e);
                assert(d[e.0 as int] == records[e.0 as int]);
            }
        }
    }
}

proof fn lemma_retained_all(m: TableModel, records: Seq<Seq<Seq<char>>>, keeps: Seq<Seq<usize>>)
    requires
        m.wf(),
        entries_match(m, records),
    ensures
        retained_all(m, keeps).wf(),
        entries_match(retained_all(m, keeps), records),
    decreases keeps.len(),
{
    if keeps.len() > 0 {
        lemma_retained_all(m, records, keeps.drop_last());
        let m1 = retained_all(m, keeps.drop_last());
        let r = m1.retained(keeps.last());
        lemma_retained_wf(m1, keeps.last());
        assert forall|j: int, k: int| 0 <= j < r.columns.len() && 0 <= k < r.columns[j].len() implies {
            let e = #[trigger] r.columns[j][k];
            e.0 < records.len() && e.1 == records[e.0 as int][j]
        } by {
            let c = m1.columns[j];
            lemma_filter_subset(c, kept_by(keeps.last()));
            let e = r.columns[j][k];
            assert(e == c.filter(kept_by(keeps.last()))[k]);
            let k0 = choose|k0: int| 0 <= k0 < c.len() && c[k0] == e;
            assert(m1.columns[j][k0] == e);
        }
    }
}

/// The entries of a stored column.
pub open spec fn column_view(col: Seq<(usize, String)>) -> Seq<Entry> {
    col.map_values(|e: (usize, String)| (e.0, e.1@))
}

/// The values of row position `k` in the projected columns below `j`, in column order.
pub open spec fn projected_values(m: TableModel, k: int, j: int) -> Seq<Seq<char>>
    decreases j,
{
    if j <= 0 {
        Seq::empty()
    } else if m.projections[j - 1] {
        projected_values(m, k, j - 1).push(m.columns[j - 1][k].1)
    } else {
        projected_values(m, k, j - 1)
    }
}

/// The output of a table: one line per row in storage order, holding the
/// values of the projected columns.
pub open spec fn output_rows(m: TableModel) -> Seq<Seq<Seq<char>>> {
    Seq::new(m.len(), |k: int| projected_values(m, k, m.nfields as int))
}

/// The plain contents of a table, for saving it and restoring it.
pub struct TableState {
    pub data: Vec<Vec<(usize, String)>>,
    pub projections: Vec<bool>,
    pub nfields: usize,
    pub new_index: usize,
}

impl TableState {
    /// The table that the state describes.
    pub open spec fn model(&self) -> TableModel {
        TableModel {
            columns: self.data@.map_values(|c: Vec<(usize, String)>| column_view(c@)),
            projections: self.projections@,
            nfields: self.nfields as nat,
            next_index: self.new_index as nat,
        }
    }
}

/// A table of string values in columns, with persistent row indices.
pub struct Table {
    data: Vec<Vec<(usize, String)>>,
    projections: Vec<bool>,
    nfields: usize,
    new_index: usize,
}

impl View for Table {
    type V = TableModel;

    closed spec fn view(&self) -> TableModel {
        TableModel {
            columns: self.data@.map_values(|c: Vec<(usize, String)>| column_view(c@)),
            projections: self.projections@,
            nfields: self.nfields as nat,
            next_index: self.new_index as nat,
        }
    }
}

impl Table {
    /// The table is well formed.
    pub open spec fn wf(&self) -> bool {
        self@.wf()
    }

    /// An empty table with `nfields` columns, none of them projected.
    pub fn new(nfields: usize) -> (tab: Table)
        ensures
            tab.wf(),
            tab@ == TableModel::empty(nfields as nat),
    {
        let mut tab = Table { data: Vec::new(), projections: Vec::new(), nfields, new_index: 0 };
        for i in 0..nfields
            invariant
                tab.nfields == nfields,
                tab.new_index == 0,
                tab.data@.len() == i,
                tab.projections@.len() == i,
                forall|j: int| 0 <= j < i ==> (#[trigger] tab.data@[j])@.len() == 0,
                forall|j: int| 0 <= j < i ==> !(#[trigger] tab.projections@[j]),
        {
            tab.data.push(Vec::new());
            tab.projections.push(false);
        }
        assert forall|j: int| 0 <= j < nfields implies #[trigger] tab@.columns[j] =~= Seq::<Entry>::empty() by {
            assert(tab.data@[j]@.len() == 0);
        }
        assert(tab@.columns =~= TableModel::empty(nfields as nat).columns);
        assert(tab@.projections =~= TableModel::empty(nfields as nat).projections);
        tab
    }

    /// The number of rows.
    pub fn len(&self) -> (n: usize)
        requires
            self.wf(),
        ensures
            n == self@.len(),
    {
        if self.nfields == 0 {
            0
        } else {
            self.data[0].len()
        }
    }

    /// Appends one record under the next row index, one entry per column.
    pub fn push(&mut self, entry: Vec<String>)
        requires
            old(self).wf(),
            entry@.len() == old(self)@.nfields,
            old(self)@.next_index < usize::MAX,
        ensures
            final(self).wf(),
            final(self)@ == old(self)@.pushed(entry.deep_view()),
    {
        let ghost pre = self@;
        let idx = self.new_index;
        let n = self.nfields;
        for i in 0..n
            invariant
                n == pre.nfields,
                pre.wf(),
                self.nfields == pre.nfields,
                self.new_index == idx,
                idx == pre.next_index,
                entry@.len() == pre.nfields,
                self.projections@ == pre.projections,
                self.data@.len() == pre.nfields,
                forall|j: int| 0 <= j < i ==> column_view(#[trigger] self.data@[j]@)
                    == pre.columns[j].push((idx, entry@[j]@)),
                forall|j: int| i <= j < pre.nfields ==> column_view(#[trigger] self.data@[j]@)
                    == pre.columns[j],
        {
            let value = entry[i].clone();
            self.data[i].push((idx, value));
            assert(column_view(self.data@[i as int]@) =~= pre.columns[i as int].push((idx, entry@[i as int]@)));
        }
        self.new_index = idx + 1;
        let ghost post = pre.pushed(entry.deep_view());
        assert(self@.columns =~= post.columns);
        proof {
            lemma_pushed_wf(pre, entry.deep_view());
        }
    }

    /// Marks column `field` for output; marking it again changes nothing.
    pub fn select_projection(&mut self, field: usize)
        requires
            old(self).wf(),
            field < old(self)@.nfields,
        ensures
            final(self).wf(),
            final(self)@ == old(self)@.selected(field as int),
    {
        self.projections.set(field, true);
    }

    /// Whether column `field` is marked for output.
    pub fn is_projected(&self, field: usize) -> (r: bool)
        requires
            self.wf(),
            field < self@.nfields,
        ensures
            r == self@.projections[field as int],
    {
        self.projections[field]
    }

    /// The number of fields.
    pub fn nfields(&self) -> (n: usize)
        ensures
            n == self@.nfields,
    {
        self.nfields
    }

    /// The row indices present, in storage order.
    pub fn row_ids(&self) -> (r: Vec<usize>)
        requires
            self.wf(),
        ensures
            r@ == self@.ids(),
    {
        let mut out: Vec<usize> = Vec::new();
        if self.nfields == 0 {
            assert(out@ =~= self@.ids());
            return out;
        }
        let ghost c = self@.columns[0];
        let n = self.data[0].len();
        for k in 0..n
            invariant
                n == c.len(),
                self.wf(),
                self.nfields > 0,
                c == self@.columns[0],
                c == column_view(self.data@[0]@),
                out@ == ids_of(c).take(k as int),
        {
            out.push(self.data[0][k].0);
            assert(out@ =~= ids_of(c).take(k as int + 1));
        }
        assert(out@ =~= ids_of(c));
        out
    }

    /// The value at storage position `pos` of column `field`.
    pub fn value(&self, field: usize, pos: usize) -> (r: &String)
        requires
            self.wf(),
            field < self@.nfields,
            pos < self@.len(),
        ensures
            r@ == self@.columns[field as int][pos as int].1,
    {
        assert(ids_of(self@.columns[field as int]).len() == self@.columns[field as int].len());
        &self.data[field][pos].1
    }

    /// The output of the table: for each row, in storage order, the values of
    /// the projected columns.
    pub fn materialize(&self) -> (r: Vec<Vec<String>>)
        requires
            self.wf(),
        ensures
            r.deep_view() == output_rows(self@),
    {
        let n = self.len();
        let mut out: Vec<Vec<String>> = Vec::new();
        for k in 0..n
            invariant
                self.wf(),
                n == self@.len(),
                out.deep_view() == output_rows(self@).take(k as int),
        {
            let mut line: Vec<String> = Vec::new();
            let nf = self.nfields;
            for j in 0..nf
                invariant
                    nf == self@.nfields,
                    self.wf(),
                    k < self@.len(),
                    line.deep_view() == projected_values(self@, k as int, j as int),
            {
                assert(ids_of(self@.columns[j as int]).len() == self@.columns[j as int].len());
                if self.projections[j] {
                    let ghost before = line.deep_view();
                    line.push(self.data[j][k].1.clone());
                    assert(line.deep_view() =~= before.push(self@.columns[j as int][k as int].1));
                }
            }
            let ghost before = out.deep_view();
            out.push(line);
            assert(out.deep_view() =~= before.push(line.deep_view()));
            assert(output_rows(self@)[k as int] == projected_values(self@, k as int, self@.nfields as int));
            assert(out.deep_view() =~= output_rows(self@).take(k as int + 1));
        }
        assert(output_rows(self@).take(n as int) =~= output_rows(self@));
        out
    }

    /// The plain contents of the table.
    pub fn to_state(&self) -> (s: TableState)
        ensures
            s.model() == self@,
    {
        let mut data: Vec<Vec<(usize, String)>> = Vec::new();
        let n = self.data.len();
        for j in 0..n
            invariant
                n == self.data@.len(),
                data@.len() == j,
                forall|i: int| 0 <= i < j ==> column_view(#[trigger] data@[i]@) == column_view(self.data@[i]@),
        {
            data.push(copy_column(&self.data[j]));
        }
        let s = TableState {
            data,
            projections: self.projections.clone(),
            nfields: self.nfields,
            new_index: self.new_index,
        };
        assert(s.model().columns =~= self@.columns);
        assert(s.model().projections =~= self@.projections);
        s
    }

    /// The table that `s` describes, where it describes a well-formed one.
    pub fn from_state(s: TableState) -> (r: Option<Table>)
        ensures
            match r {
                Some(t) => s.model().wf() && t@ == s.model(),
                None => !s.model().wf(),
            },
    {
        let ghost m = s.model();
        if s.data.len() != s.nfields || s.projections.len() != s.nfields {
            return None;
        }
        if s.nfields > 0 {
            if !increasing_ids_below(&s.data[0], s.new_index) {
                return None;
            }
            for j in 0..s.nfields
                invariant
                    m == s.model(),
                    s.data@.len() == s.nfields,
                    s.nfields > 0,
                    forall|i: int| 0 <= i < j ==> ids_of(#[trigger] m.columns[i]) == m.ids(),
            {
                if !same_ids(&s.data[j], &s.data[0]) {
                    assert(m.columns[j as int] == column_view(s.data@[j as int]@));
                    assert(m.columns[0] == column_view(s.data@[0]@));
                    return None;
                }
            }
        } else {
            assert(m.ids() =~= Seq::<usize>::empty());
        }
        Some(Table { data: s.data, projections: s.projections, nfields: s.nfields, new_index: s.new_index })
    }

    /// The outcome of a comparison satisfies `opcode`.
    fn compare_with_opcode(order: Ordering, opcode: &FilterOpcodes) -> (r: bool)
        ensures
            r == satisfies(order, *opcode),
    {
        match opcode {
            FilterOpcodes::Equal => matches!(order, Ordering::Equal),
            FilterOpcodes::Greater => matches!(order, Ordering::Greater),
            FilterOpcodes::GreaterEqual => !matches!(order, Ordering::Less),
            FilterOpcodes::Less => matches!(order, Ordering::Less),
            FilterOpcodes::LessEqual => !matches!(order, Ordering::Greater),
        }
    }

    /// The row indices, in storage order, of the rows whose entry in column
    /// `field` satisfies `opcode` against `value` in string order. The table
    /// is left as it is.
    pub fn filter_string(&mut self, value: &String, opcode: FilterOpcodes, field: usize) -> (r: Vec<usize>)
        requires
            old(self).wf(),
            field < old(self)@.nfields,
        ensures
            *final(self) == *old(self),
            r@ == ids_of(old(self)@.columns[field as int].filter(string_match(value@, opcode))),
    {
        let ghost col = self@.columns[field as int];
        let ghost p = string_match(value@, opcode);
        let mut idx_vec: Vec<usize> = Vec::new();
        let n = self.data[field].len();
        for k in 0..n
            invariant
                self.wf(),
                field < self@.nfields,
                col == column_view(self.data@[field as int]@),
                col == self@.columns[field as int],
                p == string_match(value@, opcode),
                n == col.len(),
                idx_vec@ == ids_of(col.take(k as int).filter(p)),
        {
            let e = &self.data[field][k];
            let order = compare_str(e.1.as_str(), value.as_str());
            proof {
                lemma_filter_ids_step(col, k as int, p);
            }
            if Self::compare_with_opcode(order, &opcode) {
                idx_vec.push(e.0);
            }
        }
        assert(col.take(n as int) =~= col);
        idx_vec
    }

    /// The row indices, in storage order, of the rows whose entry in column
    /// `field` satisfies `opcode` against `num` as a signed integer; fails
    /// when some entry of that column is not an integer. The table is left as
    /// it is.
    pub fn filter_numerical(&mut self, num: i64, opcode: FilterOpcodes, field: usize) -> (r: Result<Vec<usize>, TableError>)
        requires
            old(self).wf(),
            field < old(self)@.nfields,
        ensures
            *final(self) == *old(self),
            match r {
                Ok(ids) => all_numeric(old(self)@.columns[field as int])
                    && ids@ == ids_of(old(self)@.columns[field as int].filter(numeric_match(num as int, opcode))),
                Err(e) => !all_numeric(old(self)@.columns[field as int]) && e == TableError::NotNumeric,
            },
    {
        let ghost col = self@.columns[field as int];
        let ghost p = numeric_match(num as int, opcode);
        let mut idx_vec: Vec<usize> = Vec::new();
        let n = self.data[field].len();
        for k in 0..n
            invariant
                self.wf(),
                field < self@.nfields,
                col == column_view(self.data@[field as int]@),
                col == self@.columns[field as int],
                p == numeric_match(num as int, opcode),
                n == col.len(),
                forall|j: int| 0 <= j < k ==> (#[trigger] i64_of(col[j].1)) is Some,
                idx_vec@ == ids_of(col.take(k as int).filter(p)),
        {
            let e = &self.data[field][k];
            match parse_i64(e.1.as_str()) {
                Some(v) => {
                    proof {
                        lemma_filter_ids_step(col, k as int, p);
                    }
                    if Self::compare_with_opcode(compare_i64(v, num), &opcode) {
                        idx_vec.push(e.0);
                    }
                },
                None => {
                    assert(i64_of(col[k as int].1) is None);
                    return Err(TableError::NotNumeric);
                },
            }
        }
        assert(col.take(n as int) =~= col);
        Ok(idx_vec)
    }

    /// The exact sum of column `field_idx` read as signed integers; fails when
    /// an entry is not an integer, or when the sum does not fit in an `i64`.
    pub fn sum_field(&self, field_idx: usize) -> (r: Result<i64, TableError>)
        requires
            self.wf(),
            field_idx < self@.nfields,
        ensures
            match r {
                Ok(s) => all_numeric(self@.columns[field_idx as int])
                    && s as int == column_sum(self@.columns[field_idx as int]),
                Err(TableError::NotNumeric) => !all_numeric(self@.columns[field_idx as int]),
                Err(TableError::Overflow) => all_numeric(self@.columns[field_idx as int])
                    && !(i64::MIN <= column_sum(self@.columns[field_idx as int]) <= i64::MAX),
            },
    {
        let ghost col = self@.columns[field_idx as int];
        let col_ref = &self.data[field_idx];
        let n = col_ref.len();
        let mut acc: i128 = 0;
        for k in 0..n
            invariant
                col == column_view(col_ref@),
                col == self@.columns[field_idx as int],
                n == col.len(),
                forall|j: int| 0 <= j < k ==> (#[trigger] i64_of(col[j].1)) is Some,
                acc == column_sum(col.take(k as int)),
                -(k as int) * 0x8000_0000_0000_0000 <= acc <= (k as int) * 0x8000_0000_0000_0000,
        {
            match parse_i64(col_ref[k].1.as_str()) {
                Some(v) => {
                    proof {
                        let t = col.take(k as int + 1);
                        assert(t.drop_last() =~= col.take(k as int));
                        assert(t.last() == col[k as int]);
                    }
                    acc = acc + v as i128;
                },
                None => {
                    assert(i64_of(col[k as int].1) is None);
                    return Err(TableError::NotNumeric);
                },
            }
        }
        assert(col.take(n as int) =~= col);
        if acc < i64::MIN as i128 || acc > i64::MAX as i128 {
            Err(TableError::Overflow)
        } else {
            Ok(acc as i64)
        }
    }

    /// Keeps, in every column, exactly the entries whose row index occurs in
    /// `idx_vec`, in their order; the indices are row identities, not
    /// positions. All columns change together.
    pub fn apply_intermediate_result(&mut self, idx_vec: &Vec<usize>) -> (r: &Table)
        requires
            old(self).wf(),
        ensures
            final(self).wf(),
            final(self)@ == old(self)@.retained(idx_vec@),
            *r == *final(self),
    {
        let ghost pre = self@;
        let mut new_data: Vec<Vec<(usize, String)>> = Vec::new();
        let n = self.nfields;
        for j in 0..n
            invariant
                n == pre.nfields,
                pre == self@,
                pre.wf(),
                self.data@.len() == n,
                new_data@.len() == j,
                forall|i: int| 0 <= i < j ==> column_view(#[trigger] new_data@[i]@)
                    == pre.columns[i].filter(kept_by(idx_vec@)),
        {
            let col = retain_column(&self.data[j], idx_vec);
            new_data.push(col);
        }
        self.data = new_data;
        proof {
            assert(self@.columns =~= pre.retained(idx_vec@).columns);
            lemma_retained_wf(pre, idx_vec@);
        }
        self
    }
}

/// The entries of `col` whose row index occurs in `keep`, in their order.
pub(crate) fn retain_column(col: &Vec<(usize, String)>, keep: &Vec<usize>) -> (r: Vec<(usize, String)>)
    ensures
        column_view(r@) == column_view(col@).filter(kept_by(keep@)),
{
    let ghost c = column_view(col@);
    let ghost p = kept_by(keep@);
    let mut out: Vec<(usize, String)> = Vec::new();
    let n = col.len();
    for k in 0..n
        invariant
            n == col@.len(),
            c == column_view(col@),
            p == kept_by(keep@),
            column_view(out@) == c.take(k as int).filter(p),
    {
        proof {
            assert(c.take(k as int + 1) =~= c.take(k as int).push(c[k as int]));
            c.take(k as int).lemma_filter_push(c[k as int], p);
        }
        if contains_index(keep, col[k].0) {
            let ghost before = out@;
            out.push((col[k].0, col[k].1.clone()));
            assert(column_view(out@) =~= column_view(before).push(c[k as int]));
        }
    }
    assert(c.take(n as int) =~= c);
    out
}

/// Appending a record preserves the structural invariant.
proof fn lemma_pushed_wf(m: TableModel, row: Seq<Seq<char>>)
    requires
        m.wf(),
        row.len() == m.nfields,
        m.next_index < usize::MAX,
    ensures
        m.pushed(row).wf(),
{
    let post = m.pushed(row);
    let idx = m.next_index as usize;
    if m.nfields > 0 {
        assert(post.ids() =~= m.ids().push(idx));
        assert forall|j: int| 0 <= j < post.nfields implies ids_of(#[trigger] post.columns[j]) == post.ids() by {
            assert(ids_of(post.columns[j]) =~= ids_of(m.columns[j]).push(idx));
        }
    }
}

/// Every entry that a filter keeps is an entry of the sequence filtered.
proof fn lemma_filter_subset<A>(s: Seq<A>, p: spec_fn(A) -> bool)
    ensures
        forall|i: int| 0 <= i < s.filter(p).len() ==> s.contains(#[trigger] s.filter(p)[i]),
    decreases s.len(),
{
    reveal(Seq::filter);
    if s.len() > 0 {
        let d = s.drop_last();
        lemma_filter_subset(d, p);
        assert forall|i: int| 0 <= i < s.filter(p).len() implies s.contains(#[trigger] s.filter(p)[i]) by {
            if i < d.filter(p).len() {
                assert(s.filter(p)[i] == d.filter(p)[i]);
                let k = choose|k: int| 0 <= k < d.len() && d[k] == d.filter(p)[i];
                assert(s[k] == d[k]);
            } else {
                assert(s.filter(p)[i] == s.last());
                assert(s[s.len() - 1] == s.last());
            }
        }
    }
}

/// Two columns with the same row indices keep the same row indices under a
/// membership filter.
proof fn lemma_filter_same_ids(a: Seq<Entry>, b: Seq<Entry>, keep: Seq<usize>)
    requires
        ids_of(a) == ids_of(b),
    ensures
        ids_of(a.filter(kept_by(keep))) == ids_of(b.filter(kept_by(keep))),
    decreases a.len(),
{
    reveal(Seq::filter);
    let p = kept_by(keep);
    assert(a.len() == ids_of(a).len());
    assert(b.len() == ids_of(b).len());
    if a.len() == 0 {
        assert(ids_of(a.filter(p)) =~= ids_of(b.filter(p)));
    } else {
        assert(ids_of(a.drop_last()) =~= ids_of(b.drop_last())) by {
            assert forall|i: int| 0 <= i < a.len() - 1 implies a.drop_last()[i].0 == b.drop_last()[i].0 by {
                assert(ids_of(a)[i] == ids_of(b)[i]);
                assert(ids_of(a)[i] == a[i].0);
                assert(ids_of(b)[i] == b[i].0);
                assert(a.drop_last()[i] == a[i]);
                assert(b.drop_last()[i] == b[i]);
            }
        }
        lemma_filter_same_ids(a.drop_last(), b.drop_last(), keep);
        assert(ids_of(a)[a.len() - 1] == ids_of(b)[b.len() - 1]);
        let fa = a.drop_last().filter(p);
        let fb = b.drop_last().filter(p);
        assert(ids_of(fa.push(a.last())) =~= ids_of(fa).push(a.last().0));
        assert(ids_of(fb.push(b.last())) =~= ids_of(fb).push(b.last().0));
    }
}

/// A filter keeps row indices increasing and below the same bound.
proof fn lemma_filter_increasing(c: Seq<Entry>, p: spec_fn(Entry) -> bool, bound: nat)
    requires
        increasing_below(ids_of(c), bound),
    ensures
        increasing_below(ids_of(c.filter(p)), bound),
    decreases c.len(),
{
    reveal(Seq::filter);
    if c.len() > 0 {
        let d = c.drop_last();
        let last = c.last();
        assert(ids_of(c)[c.len() - 1] == last.0);
        assert(increasing_below(ids_of(d), last.0 as nat)) by {
            assert forall|a: int| 0 <= a < ids_of(d).len() implies ids_of(d)[a] < last.0 by {
                assert(ids_of(c)[a] == ids_of(d)[a]);
            }
            assert forall|a: int, b: int| 0 <= a < b < ids_of(d).len() implies ids_of(d)[a] < ids_of(d)[b] by {
                assert(ids_of(c)[a] == ids_of(d)[a]);
                assert(ids_of(c)[b] == ids_of(d)[b]);
            }
        }
        lemma_filter_increasing(d, p, last.0 as nat);
        let fd = d.filter(p);
        if p(last) {
            assert(ids_of(fd.push(last)) =~= ids_of(fd).push(last.0));
        }
    }
}

/// A membership filter preserves the structural invariant.
pub(crate) proof fn lemma_retained_wf(m: TableModel, keep: Seq<usize>)
    requires
        m.wf(),
    ensures
        m.retained(keep).wf(),
{
    let r = m.retained(keep);
    if m.nfields > 0 {
        assert forall|j: int| 0 <= j < r.nfields implies ids_of(#[trigger] r.columns[j]) == r.ids() by {
            lemma_filter_same_ids(m.columns[j], m.columns[0], keep);
        }
        lemma_filter_increasing(m.columns[0], kept_by(keep), m.next_index);
    }
}

/// A copy of a stored column.
fn copy_column(col: &Vec<(usize, String)>) -> (r: Vec<(usize, String)>)
    ensures
        column_view(r@) == column_view(col@),
{
    let mut out: Vec<(usize, String)> = Vec::new();
    let n = col.len();
    for k in 0..n
        invariant
            n == col@.len(),
            column_view(out@) == column_view(col@).take(k as int),
    {
        let ghost before = out@;
        out.push((col[k].0, col[k].1.clone()));
        assert(column_view(out@) =~= column_view(before).push(column_view(col@)[k as int]));
        assert(column_view(out@) =~= column_view(col@).take(k as int + 1));
    }
    assert(column_view(col@).take(col@.len() as int) =~= column_view(col@));
    out
}

/// The row indices of two stored columns agree.
fn same_ids(a: &Vec<(usize, String)>, b: &Vec<(usize, String)>) -> (r: bool)
    ensures
        r == (ids_of(column_view(a@)) == ids_of(column_view(b@))),
{
    let ghost ia = ids_of(column_view(a@));
    let ghost ib = ids_of(column_view(b@));
    if a.len() != b.len() {
        assert(ia.len() != ib.len());
        return false;
    }
    let n = a.len();
    for k in 0..n
        invariant
            n == a@.len(),
            a@.len() == b@.len(),
            ia == ids_of(column_view(a@)),
            ib == ids_of(column_view(b@)),
            forall|i: int| 0 <= i < k ==> ia[i] == ib[i],
    {
        if a[k].0 != b[k].0 {
            assert(ia[k as int] != ib[k as int]);
            return false;
        }
    }
    assert(ia =~= ib);
    true
}

/// The row indices of a stored column increase and stay below `bound`.
fn increasing_ids_below(a: &Vec<(usize, String)>, bound: usize) -> (r: bool)
    ensures
        r == increasing_below(ids_of(column_view(a@)), bound as nat),
{
    let ghost ia = ids_of(column_view(a@));
    let n = a.len();
    for k in 0..n
        invariant
            n == a@.len(),
            ia == ids_of(column_view(a@)),
            increasing_below(ia.take(k as int), bound as nat),
    {
        if a[k].0 >= bound {
            assert(ia[k as int] >= bound);
            return false;
        }
        if k > 0 && a[k - 1].0 >= a[k].0 {
            assert(ia[k - 1] >= ia[k as int]);
            return false;
        }
        assert(increasing_below(ia.take(k as int + 1), bound as nat)) by {
            let t = ia.take(k as int + 1);
            assert forall|x: int, y: int| 0 <= x < y < t.len() implies t[x] < t[y] by {
                if y == k {
                    if x < k - 1 {
                        assert(ia.take(k as int)[x] < ia.take(k as int)[k - 1]);
                    }
                } else {
                    assert(ia.take(k as int)[x] < ia.take(k as int)[y]);
                }
            }
        }
    }
    assert(ia.take(a@.len() as int) =~= ia);
    true
}

/// Whether `x` occurs in `v`.
fn contains_index(v: &Vec<usize>, x: usize) -> (r: bool)
    ensures
        r == v@.contains(x),
{
    let mut k: usize = 0;
    while k < v.len()
        invariant
            k <= v@.len(),
            forall|j: int| 0 <= j < k ==> v@[j] != x,
        decreases v@.len() - k,
    {
        if v[k] == x {
            return true;
        }
        k = k + 1;
    }
    false
}

/// One step of a filter over a growing prefix of a column, seen through its row indices.
proof fn lemma_filter_ids_step(col: Seq<Entry>, k: int, p: spec_fn(Entry) -> bool)
    requires
        0 <= k < col.len(),
    ensures
        ids_of(col.take(k + 1).filter(p)) == if p(col[k]) {
            ids_of(col.take(k).filter(p)).push(col[k].0)
        } else {
            ids_of(col.take(k).filter(p))
        },
{
    assert(col.take(k + 1) =~= col.take(k).push(col[k]));
    col.take(k).lemma_filter_push(col[k], p);
    assert(ids_of(col.take(k).filter(p).push(col[k])) =~= ids_of(col.take(k).filter(p)).push(col[k].0));
}

} // verus!
