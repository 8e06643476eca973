//! A table of string values in columns, with persistent row indices, filtered
//! by a predicate on one field.
use vstd::prelude::*;
use crate::dataframe::table::{
    Entry, TableModel, column_view, ids_of, kept_by, lemma_retained_wf, retain_column,
};

verus! {

/// A table whose rows are filtered by a caller's predicate.
pub struct Table {
    data: Vec<Vec<(usize, String)>>,
    nfields: usize,
    new_index: usize,
}

impl View for Table {
    type V = TableModel;

    /// Every column takes part in the output.
    closed spec fn view(&self) -> TableModel {
        TableModel {
            columns: self.data@.map_values(|c: Vec<(usize, String)>| column_view(c@)),
            projections: Seq::new(self.nfields as nat, |j: int| true),
            nfields: self.nfields as nat,
            next_index: self.new_index as nat,
        }
    }
}

/// The entries of a column whose value the predicate accepts, judged by the
/// answers it gave: `answers[k]` for the entry at position `k`.
pub open spec fn accepted(col: Seq<Entry>, answers: Seq<bool>) -> Seq<usize>
    decreases col.len(),
{
    if col.len() == 0 || answers.len() != col.len() {
        Seq::empty()
    } else if answers.last() {
        accepted(col.drop_last(), answers.drop_last()).push(col.last().0)
    } else {
        accepted(col.drop_last(), answers.drop_last())
    }
}

/// The predicate, asked about a string whose characters are `v`, answered `b`.
pub open spec fn answered<F: Fn(&String) -> bool>(f: F, v: Seq<char>, b: bool) -> bool {
    exists|s: &String| s@ == v && #[trigger] f.ensures((s,), b)
}

impl Table {
    /// The table is well formed.
    pub open spec fn wf(&self) -> bool {
        self@.wf()
    }

    /// An empty table with `nfields` columns.
    pub fn new(nfields: usize) -> (tab: Table)
        ensures
            tab.wf(),
            tab@.nfields == nfields,
            tab@.next_index == 0,
            tab@.len() == 0,
            forall|j: int| 0 <= j < nfields ==> (#[trigger] tab@.columns[j]).len() == 0,
    {
        let mut tab = Table { data: Vec::new(), nfields, new_index: 0 };
        for i in 0..nfields
            invariant
                tab.nfields == nfields,
                tab.new_index == 0,
                tab.data@.len() == i,
                forall|j: int| 0 <= j < i ==> (#[trigger] tab.data@[j])@.len() == 0,
        {
            tab.data.push(Vec::new());
        }
        proof {
            if nfields > 0 {
                assert(tab@.ids() =~= Seq::<usize>::empty());
                assert forall|j: int| 0 <= j < nfields implies ids_of(#[trigger] tab@.columns[j]) == tab@.ids() by {
                    assert(ids_of(tab@.columns[j]) =~= Seq::<usize>::empty());
                }
            }
        }
        tab
    }

    /// Appends one record under the next row index, one entry per column.
    pub fn push(&mut self, entry: Vec<String>)
        requires
            old(self).wf(),
            entry@.len() == old(self)@.nfields,
            old(self)@.next_index < usize::MAX,
        ensures
            final(self).wf(),
            final(self)@ == old(self)@.pushed(entry.deep_view()),
    {
        let ghost pre = self@;
        let idx = self.new_index;
        let n = self.nfields;
        for i in 0..n
            invariant
                n == pre.nfields,
                pre.wf(),
                self.nfields == pre.nfields,
                self.new_index == idx,
                idx == pre.next_index,
                entry@.len() == pre.nfields,
                self.data@.len() == pre.nfields,
                forall|j: int| 0 <= j < i ==> column_view(#[trigger] self.data@[j]@)
                    == pre.columns[j].push((idx, entry@[j]@)),
                forall|j: int| i <= j < pre.nfields ==> column_view(#[trigger] self.data@[j]@)
                    == pre.columns[j],
        {
            let value = entry[i].clone();
            self.data[i].push((idx, value));
            assert(column_view(self.data@[i as int]@) =~= pre.columns[i as int].push((idx, entry@[i as int]@)));
        }
        self.new_index = idx + 1;
        let ghost post = pre.pushed(entry.deep_view());
        assert(self@.columns =~= post.columns);
        assert(self@.projections =~= post.projections);
        proof {
            if pre.nfields > 0 {
                assert(post.ids() =~= pre.ids().push(idx));
                assert forall|j: int| 0 <= j < post.nfields implies ids_of(#[trigger] post.columns[j]) == post.ids() by {
                    assert(ids_of(post.columns[j]) =~= ids_of(pre.columns[j]).push(idx));
                }
            }
        }
    }

    /// Keeps, in every column, the rows whose entry in column `field` the
    /// predicate accepts; the predicate is asked once per row, in storage order.
    pub fn filter<F: Fn(&String) -> bool>(&mut self, fnct: F, field: usize)
        requires
            old(self).wf(),
            field < old(self)@.nfields,
            forall|s: &String| #[trigger] fnct.requires((s,)),
        ensures
            final(self).wf(),
            exists|answers: Seq<bool>|
                {
                    &&& answers.len() == old(self)@.columns[field as int].len()
                    &&& forall|k: int| 0 <= k < answers.len() ==> answered(fnct, old(self)@.columns[field as int][k].1, #[trigger] answers[k])
                    &&& final(self)@ == old(self)@.retained(accepted(old(self)@.columns[field as int], answers))
                },
    {
        let ghost pre = self@;
        let mut idx_vec: Vec<usize> = Vec::new();
        let ghost mut answers: Seq<bool> = Seq::empty();
        let n = self.data[field].len();
        for i in 0..n
            invariant
                self@ == pre,
                pre.wf(),
                field < pre.nfields,
                n == pre.columns[field as int].len(),
                forall|s: &String| #[trigger] fnct.requires((s,)),
                answers.len() == i,
                forall|k: int| 0 <= k < i ==> answered(fnct, pre.columns[field as int][k].1, #[trigger] answers[k]),
                idx_vec@ == accepted(pre.columns[field as int].take(i as int), answers),
        {
            let v = &self.data[field][i].1;
            let keep = fnct(v);
            proof {
                assert(v@ == pre.columns[field as int][i as int].1);
                assert(answered(fnct, pre.columns[field as int][i as int].1, keep));
                let c = pre.columns[field as int];
                let t = c.take(i as int + 1);
                assert(t.drop_last() =~= c.take(i as int));
                assert(t.last() == c[i as int]);
                assert(self.data@[field as int]@[i as int].0 == c[i as int].0);
                let before = answers;
                answers = answers.push(keep);
                assert(answers.drop_last() =~= before);
            }
            if keep {
                idx_vec.push(self.data[field][i].0);
            }
        }
        proof {
            assert(pre.columns[field as int].take(n as int) =~= pre.columns[field as int]);
        }
        self.retain_rows(&idx_vec);
    }

    /// Keeps, in every column, exactly the entries whose row index occurs in `keep`.
    fn retain_rows(&mut self, keep: &Vec<usize>)
        requires
            old(self).wf(),
        ensures
            final(self).wf(),
            final(self)@ == old(self)@.retained(keep@),
    {
        let ghost pre = self@;
        let mut new_data: Vec<Vec<(usize, String)>> = Vec::new();
        let n = self.nfields;
        for j in 0..n
            invariant
                n == pre.nfields,
                pre == self@,
                pre.wf(),
                self.data@.len() == n,
                new_data@.len() == j,
                forall|i: int| 0 <= i < j ==> column_view(#[trigger] new_data@[i]@)
                    == pre.columns[i].filter(kept_by(keep@)),
        {
            let col = retain_column(&self.data[j], keep);
            new_data.push(col);
        }
        self.data = new_data;
        proof {
            assert(self@.columns =~= pre.retained(keep@).columns);
            lemma_retained_wf(pre, keep@);
        }
    }
}

} // verus!
