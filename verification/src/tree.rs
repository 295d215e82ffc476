//! The visible tree: an ordered, indexable forest of materialized nodes.
//!
//! Rows are stored flat, in pre-order, each with its depth; a node's subtree
//! is the contiguous block of following rows with strictly greater depth.
//! Row positions are stable identifiers for the life of a node but shift on
//! structural edits of earlier nodes, exactly as in the rendered tree view
//! that mirrors this structure.

use vstd::prelude::*;
use vstd::pervasive::VecAdditionalExecFns;
use crate::data::Record;
use crate::data::RecordModel;

verus! {

/// Mathematical content of one visible row.
#[verifier::ext_equal]
pub ghost struct RowModel {
    pub record: RecordModel,
    pub depth: nat,
}

/// Mathematical content of the whole tree: the rows in pre-order and the
/// selected row.
#[verifier::ext_equal]
pub ghost struct TreeModel {
    pub rows: Seq<RowModel>,
    pub sel: nat,
}

/// A row sequence is a well-formed pre-order forest encoding: the first row
/// is a root, a row is at most one level deeper than its predecessor, and no
/// row is deeper than its position.
pub open spec fn wf_rows(rows: Seq<RowModel>) -> bool {
    forall|i: int|
        0 <= i < rows.len() ==> (#[trigger] rows[i]).depth <= i && (i > 0 ==> rows[i].depth
            <= rows[i - 1].depth + 1)
}

/// The selected row points at an existing row, or at 0 in an empty tree.
pub open spec fn wf_sel(t: TreeModel) -> bool {
    if t.rows.len() == 0 {
        t.sel == 0
    } else {
        t.sel < t.rows.len()
    }
}

/// Well-formedness of the whole tree model.
pub open spec fn wf_model(t: TreeModel) -> bool {
    wf_rows(t.rows) && wf_sel(t)
}

/// First position at or after `j` whose depth is at most `d`, or the length
/// if there is none.
pub open spec fn scan_end(rows: Seq<RowModel>, d: nat, j: nat) -> nat
    decreases rows.len() - j,
{
    if j >= rows.len() {
        rows.len()
    } else if rows[j as int].depth <= d {
        j
    } else {
        scan_end(rows, d, (j + 1) as nat)
    }
}

/// One past the last row of the subtree rooted at row `i`: the first later
/// position whose depth does not exceed the depth of `i`.
pub open spec fn subtree_end(rows: Seq<RowModel>, i: int) -> int
    recommends
        0 <= i < rows.len(),
{
    scan_end(rows, rows[i].depth, (i + 1) as nat) as int
}

pub proof fn lemma_scan_end(rows: Seq<RowModel>, d: nat, j: nat)
    requires
        j <= rows.len(),
    ensures
        j <= scan_end(rows, d, j) <= rows.len(),
        forall|k: int| j <= k < scan_end(rows, d, j) ==> (#[trigger] rows[k]).depth > d,
        scan_end(rows, d, j) < rows.len() ==> rows[scan_end(rows, d, j) as int].depth <= d,
    decreases rows.len() - j,
{
    if j >= rows.len() {
    } else if rows[j as int].depth <= d {
    } else {
        lemma_scan_end(rows, d, (j + 1) as nat);
    }
}

/// Depths rise by at most one per step, so a row `m` steps after `start` is
/// at most `m` levels deeper.
pub proof fn lemma_depth_rise(rows: Seq<RowModel>, start: int, j: int)
    requires
        wf_rows(rows),
        0 <= start <= j < rows.len(),
    ensures
        rows[j].depth <= rows[start].depth + (j - start),
    decreases j - start,
{
    if j > start {
        lemma_depth_rise(rows, start, j - 1);
    }
}

/// A row to be shown in the tree, together with its depth.
pub struct VisibleTree {
    records: Vec<Record>,
    depths: Vec<usize>,
    selected: usize,
}

impl View for VisibleTree {
    type V = TreeModel;

    closed spec fn view(&self) -> TreeModel {
        TreeModel {
            rows: Seq::new(
                self.records@.len(),
                |i: int|
                    RowModel { record: self.records@[i]@, depth: self.depths@[i] as nat },
            ),
            sel: self.selected as nat,
        }
    }
}

impl VisibleTree {
    /// The parallel row vectors agree in length and the model is well formed.
    pub closed spec fn inv(&self) -> bool {
        self.records@.len() == self.depths@.len() && wf_model(self@)
    }

    pub proof fn lemma_inv_model(&self)
        requires
            self.inv(),
        ensures
            wf_model(self@),
    {
    }

    /// Creates an empty tree.
    pub fn new() -> (t: VisibleTree)
        ensures
            t.inv(),
            t@.rows.len() == 0,
            t@.sel == 0,
    {
        VisibleTree { records: Vec::new(), depths: Vec::new(), selected: 0 }
    }

    /// Number of visible rows.
    pub fn len(&self) -> (n: usize)
        ensures
            n == self@.rows.len(),
    {
        self.records.len()
    }

    /// The currently selected row, or `None` when the tree is empty.
    pub fn row(&self) -> (r: Option<usize>)
        ensures
            self@.rows.len() == 0 ==> r is None,
            self@.rows.len() > 0 ==> (r matches Some(x) && x == self@.sel),
    {
        if self.records.len() == 0 {
            None
        } else {
            Some(self.selected)
        }
    }

    /// Selects row `row`, clamped so that the selection stays on an existing
    /// row (or 0 in an empty tree).
    pub fn set_selected_row(&mut self, row: usize)
        requires
            old(self).inv(),
        ensures
            final(self).inv(),
            final(self)@.rows == old(self)@.rows,
            final(self)@.sel == clamp_sel(old(self)@.rows.len(), row as nat),
    {
        if self.records.len() == 0 {
            self.selected = 0;
        } else if row < self.records.len() {
            self.selected = row;
        } else {
            self.selected = self.records.len() - 1;
        }
        assert(final(self)@.rows =~= old(self)@.rows);
    }

    /// The record at row `row`, or `None` when the row does not exist.
    pub fn borrow_item(&self, row: usize) -> (r: Option<&Record>)
        ensures
            row < self@.rows.len() ==> (r matches Some(rec) && rec@ == self@.rows[
                row as int].record),
            row >= self@.rows.len() ==> r is None,
    {
        if row < self.records.len() {
            Some(&self.records[row])
        } else {
            None
        }
    }

    /// The depth of row `row`; 0 for a root.
    pub fn depth_of(&self, row: usize) -> (d: usize)
        requires
            self.inv(),
            row < self@.rows.len(),
        ensures
            d == self@.rows[row as int].depth,
    {
        self.depths[row]
    }
}

/// Row at which a child of `parent` is inserted: right after `parent`'s
/// subtree, or 0 into an empty tree.
pub open spec fn spec_insert_pos(t: TreeModel, parent: int) -> int {
    if t.rows.len() == 0 {
        0
    } else {
        subtree_end(t.rows, parent)
    }
}

/// The tree after inserting `rec` as last child of row `parent`; an empty
/// tree receives `rec` as its root and ignores `parent`.
pub open spec fn spec_insert(t: TreeModel, rec: RecordModel, parent: int) -> TreeModel {
    if t.rows.len() == 0 {
        TreeModel { rows: seq![RowModel { record: rec, depth: 0 }], sel: t.sel }
    } else {
        TreeModel {
            rows: t.rows.insert(
                subtree_end(t.rows, parent),
                RowModel { record: rec, depth: (t.rows[parent].depth + 1) as nat },
            ),
            sel: t.sel,
        }
    }
}

impl VisibleTree {
    /// One past the last row of the subtree rooted at `row`.
    fn subtree_end_exec(&self, row: usize) -> (e: usize)
        requires
            self.inv(),
            row < self@.rows.len(),
        ensures
            e == subtree_end(self@.rows, row as int),
            row < e <= self@.rows.len(),
    {
        let ghost rows = self@.rows;
        let n = self.records.len();
        let d = self.depths[row];
        let mut j: usize = row + 1;
        while j < n && self.depths[j] > d
            invariant
                self.inv(),
                row < rows.len(),
                rows == self@.rows,
                n == rows.len(),
                d == rows[row as int].depth,
                row < j <= rows.len(),
                scan_end(rows, d as nat, (row + 1) as nat) == scan_end(rows, d as nat, j as nat),
            decreases rows.len() - j,
        {
            proof {
                assert(scan_end(rows, d as nat, j as nat) == scan_end(
                    rows,
                    d as nat,
                    (j + 1) as nat,
                ));
            }
            j = j + 1;
        }
        proof {
            lemma_scan_end(rows, d as nat, (row + 1) as nat);
        }
        j
    }

    /// Inserts `record` as the last child of row `parent` and returns the new
    /// row; an empty tree receives `record` as its root, whatever `parent`
    /// was given.
    pub fn insert_item(&mut self, record: Record, parent: usize) -> (row: usize)
        requires
            old(self).inv(),
            old(self)@.rows.len() < usize::MAX,
            old(self)@.rows.len() > 0 ==> parent < old(self)@.rows.len(),
        ensures
            final(self).inv(),
            final(self)@ == spec_insert(old(self)@, record@, parent as int),
            row == spec_insert_pos(old(self)@, parent as int),
    {
        let ghost orows = old(self)@.rows;
        if self.records.len() == 0 {
            self.records.push(record);
            self.depths.push(0);
            proof {
                assert(self@.rows =~= spec_insert(old(self)@, record@, parent as int).rows);
            }
            0
        } else {
            let e = self.subtree_end_exec(parent);
            let d = self.depths[parent] + 1;
            self.records.insert(e, record);
            self.depths.insert(e, d);
            proof {
                lemma_insert_rows_wf(old(self)@, record@, parent as int);
                assert(self@.rows =~= spec_insert(old(self)@, record@, parent as int).rows);
            }
            e
        }
    }
}

/// Inserting a last child keeps the row sequence a well-formed pre-order
/// forest.
pub proof fn lemma_insert_rows_wf(t: TreeModel, rec: RecordModel, parent: int)
    requires
        wf_rows(t.rows),
        t.rows.len() > 0 ==> 0 <= parent < t.rows.len(),
    ensures
        wf_rows(spec_insert(t, rec, parent).rows),
{
    let orows = t.rows;
    let nrows = spec_insert(t, rec, parent).rows;
    if orows.len() == 0 {
        assert(nrows =~= seq![RowModel { record: rec, depth: 0 }]);
    } else {
        let d0 = orows[parent].depth;
        let e = subtree_end(orows, parent);
        lemma_scan_end(orows, d0, (parent + 1) as nat);
        assert forall|i: int| 0 <= i < nrows.len() implies (#[trigger] nrows[i]).depth <= i && (i
            > 0 ==> nrows[i].depth <= nrows[i - 1].depth + 1) by {
            if i < e {
                assert(nrows[i] == orows[i]);
                if i > 0 {
                    assert(nrows[i - 1] == orows[i - 1]);
                }
            } else if i == e {
                assert(d0 <= parent < e);
                if e - 1 > parent {
                    assert(orows[e - 1].depth > d0);
                }
            } else if i == e + 1 {
                assert(nrows[i] == orows[e]);
                assert(orows[e].depth <= d0);
            } else {
                assert(nrows[i] == orows[i - 1]);
                assert(nrows[i - 1] == orows[i - 2]);
            }
        }
    }
}

/// Clamping a requested selection to the rows that exist.
pub open spec fn clamp_sel(len: nat, row: nat) -> nat {
    if len == 0 {
        0
    } else if row < len {
        row
    } else {
        (len - 1) as nat
    }
}

/// The rows after extracting row `i`: the row disappears and every row of
/// its subtree moves up one level, keeping the pre-order.
pub open spec fn spec_extract_rows(rows: Seq<RowModel>, i: int) -> Seq<RowModel>
    recommends
        0 <= i < rows.len(),
{
    let e = subtree_end(rows, i);
    Seq::new(
        (rows.len() - 1) as nat,
        |j: int|
            if j < i {
                rows[j]
            } else if j < e - 1 {
                RowModel { record: rows[j + 1].record, depth: (rows[j + 1].depth - 1) as nat }
            } else {
                rows[j + 1]
            },
    )
}

/// The tree after extracting row `i`, with the selection clamped to the rows
/// that remain.
pub open spec fn spec_extract(t: TreeModel, i: int) -> TreeModel {
    TreeModel {
        rows: spec_extract_rows(t.rows, i),
        sel: clamp_sel((t.rows.len() - 1) as nat, t.sel),
    }
}

/// The rows after removing row `i` together with its whole subtree.
pub open spec fn spec_remove_rows(rows: Seq<RowModel>, i: int) -> Seq<RowModel>
    recommends
        0 <= i < rows.len(),
{
    rows.take(i) + rows.skip(subtree_end(rows, i))
}

/// The tree after removing row `i` and its subtree, with the selection
/// clamped to the rows that remain.
pub open spec fn spec_remove(t: TreeModel, i: int) -> TreeModel {
    TreeModel {
        rows: spec_remove_rows(t.rows, i),
        sel: clamp_sel(spec_remove_rows(t.rows, i).len(), t.sel),
    }
}

/// Extracting a row keeps the row sequence a well-formed pre-order forest.
pub proof fn lemma_extract_rows_wf(rows: Seq<RowModel>, i: int)
    requires
        wf_rows(rows),
        0 <= i < rows.len(),
    ensures
        wf_rows(spec_extract_rows(rows, i)),
{
    let e = subtree_end(rows, i);
    let d0 = rows[i].depth;
    lemma_scan_end(rows, d0, (i + 1) as nat);
    let nrows = spec_extract_rows(rows, i);
    assert forall|j: int| 0 <= j < nrows.len() implies (#[trigger] nrows[j]).depth <= j && (j > 0
        ==> nrows[j].depth <= nrows[j - 1].depth + 1) by {
        if j < i {
        } else if j < e - 1 {
            assert(rows[j + 1].depth > d0);
            if j > i {
                assert(rows[j].depth > d0);
            }
        } else {
            assert(nrows[j] == rows[j + 1]);
            if j + 1 > e {
                lemma_depth_rise(rows, e, j + 1);
                assert(rows[e].depth <= d0);
            } else if j + 1 == e {
                if e < rows.len() {
                    assert(rows[e].depth <= d0);
                }
            }
            if j > 0 && j - 1 >= e - 1 {
                assert(nrows[j - 1] == rows[j]);
            }
            if j > 0 && j - 1 < e - 1 && j - 1 >= i {
                assert(rows[j].depth > d0);
                assert(nrows[j - 1].depth == rows[j].depth - 1);
            }
        }
    }
}

/// Removing a whole subtree keeps the row sequence a well-formed pre-order
/// forest.
pub proof fn lemma_remove_rows_wf(rows: Seq<RowModel>, i: int)
    requires
        wf_rows(rows),
        0 <= i < rows.len(),
    ensures
        wf_rows(spec_remove_rows(rows, i)),
{
    let e = subtree_end(rows, i);
    let d0 = rows[i].depth;
    lemma_scan_end(rows, d0, (i + 1) as nat);
    let nrows = spec_remove_rows(rows, i);
    assert forall|j: int| 0 <= j < nrows.len() implies (#[trigger] nrows[j]).depth <= j && (j > 0
        ==> nrows[j].depth <= nrows[j - 1].depth + 1) by {
        if j < i {
        } else {
            assert(nrows[j] == rows[e + (j - i)]);
            if e + (j - i) > e {
                lemma_depth_rise(rows, e, e + (j - i));
            }
            if e < rows.len() {
                assert(rows[e].depth <= d0);
            }
            if j > 0 && j - 1 >= i {
                assert(nrows[j - 1] == rows[e + (j - 1 - i)]);
            }
        }
    }
}

impl VisibleTree {
    /// Clamps the selection after rows were removed.
    fn reclamp_selection(&mut self)
        requires
            old(self).inv() || (old(self).records@.len() == old(self).depths@.len() && wf_rows(
                old(self)@.rows,
            )),
        ensures
            final(self).inv(),
            final(self)@.rows == old(self)@.rows,
            final(self)@.sel == clamp_sel(old(self)@.rows.len(), old(self)@.sel),
    {
        if self.records.len() == 0 {
            self.selected = 0;
        } else if self.selected >= self.records.len() {
            self.selected = self.records.len() - 1;
        }
        proof {
            assert(final(self)@.rows =~= old(self)@.rows);
        }
    }

    /// Extracts the row at `row` from the tree, moving all of its children up
    /// one level; returns its record, or `None` when the row does not exist.
    #[verifier::rlimit(100)]
    pub fn extract_item(&mut self, row: usize) -> (r: Option<Record>)
        requires
            old(self).inv(),
        ensures
            final(self).inv(),
            row >= old(self)@.rows.len() ==> (r is None && final(self)@ == old(self)@),
            row < old(self)@.rows.len() ==> (r matches Some(rec) && rec@ == old(self)@.rows[
                row as int].record && final(self)@ == spec_extract(old(self)@, row as int)),
    {
        if row >= self.records.len() {
            return None;
        }
        let e = self.subtree_end_exec(row);
        let ghost orows = self@.rows;
        let ghost orecs = self.records@;
        let ghost odeps = self.depths@;
        let ghost osel = self.selected as nat;
        let ghost d0 = orows[row as int].depth;
        proof {
            lemma_scan_end(orows, d0, (row + 1) as nat);
        }
        let mut j: usize = row + 1;
        while j < e
            invariant
                self.records@ == orecs,
                self.depths@.len() == odeps.len(),
                self.selected as nat == osel,
                orecs.len() == odeps.len(),
                orows == Seq::new(
                    orecs.len(),
                    |i: int| RowModel { record: orecs[i]@, depth: odeps[i] as nat },
                ),
                wf_rows(orows),
                row < e <= orows.len(),
                d0 == orows[row as int].depth,
                forall|k: int| row < k < e ==> (#[trigger] orows[k]).depth > d0,
                row + 1 <= j <= e,
                forall|k: int|
                    0 <= k < odeps.len() ==> self.depths@[k] == (if row + 1 <= k < j {
                        (odeps[k] - 1) as usize
                    } else {
                        odeps[k]
                    }),
            decreases e - j,
        {
            let dj = self.depths[j];
            proof {
                assert(orows[j as int].depth > d0);
                assert(odeps[j as int] >= 1);
            }
            self.depths.set(j, dj - 1);
            j = j + 1;
        }
        let rec = self.records.remove(row);
        self.depths.remove(row);
        proof {
            lemma_extract_rows_wf(orows, row as int);
            assert(self@.rows =~= spec_extract_rows(orows, row as int));
        }
        self.reclamp_selection();
        Some(rec)
    }

    /// Removes the row at `row` together with its whole subtree; returns the
    /// removed records in top-to-bottom order, or `None` when the row does
    /// not exist.
    #[verifier::rlimit(100)]
    pub fn remove_item(&mut self, row: usize) -> (r: Option<Vec<Record>>)
        requires
            old(self).inv(),
        ensures
            final(self).inv(),
            row >= old(self)@.rows.len() ==> (r is None && final(self)@ == old(self)@),
            row < old(self)@.rows.len() ==> (r matches Some(v) && v@.len() == subtree_end(
                old(self)@.rows,
                row as int,
            ) - row && (forall|k: int|
                0 <= k < v@.len() ==> v@[k]@ == old(self)@.rows[row + k].record) && final(self)@
                == spec_remove(old(self)@, row as int)),
    {
        if row >= self.records.len() {
            return None;
        }
        let e = self.subtree_end_exec(row);
        let ghost orows = self@.rows;
        let ghost orecs = self.records@;
        let ghost odeps = self.depths@;
        let ghost osel = self.selected as nat;
        let ghost d0 = orows[row as int].depth;
        proof {
            lemma_scan_end(orows, d0, (row + 1) as nat);
        }
        let mut out: Vec<Record> = Vec::new();
        let mut k: usize = row;
        while k < e
            invariant
                orecs.len() == odeps.len(),
                orows == Seq::new(
                    orecs.len(),
                    |i: int| RowModel { record: orecs[i]@, depth: odeps[i] as nat },
                ),
                wf_rows(orows),
                row <= k <= e <= orows.len(),
                self.selected as nat == osel,
                self.records@ =~= orecs.take(row as int) + orecs.skip(k as int),
                self.depths@ =~= odeps.take(row as int) + odeps.skip(k as int),
                out@.len() == k - row,
                forall|m: int| 0 <= m < out@.len() ==> out@[m] == orecs[row + m],
            decreases e - k,
        {
            let rec = self.records.remove(row);
            self.depths.remove(row);
            out.push(rec);
            proof {
                assert(self.records@ =~= orecs.take(row as int) + orecs.skip(k + 1));
                assert(self.depths@ =~= odeps.take(row as int) + odeps.skip(k + 1));
            }
            k = k + 1;
        }
        proof {
            lemma_remove_rows_wf(orows, row as int);
            assert(self@.rows =~= spec_remove_rows(orows, row as int));
            assert forall|m: int| 0 <= m < out@.len() implies out@[m]@ == orows[row + m].record by {
                assert(out@[m] == orecs[row + m]);
            }
        }
        self.reclamp_selection();
        Some(out)
    }

    /// The parent row of `row`, or `None` for a root.
    pub fn item_parent(&self, row: usize) -> (r: Option<usize>)
        requires
            self.inv(),
            row < self@.rows.len(),
        ensures
            self@.rows[row as int].depth == 0 ==> r is None,
            self@.rows[row as int].depth > 0 ==> (r matches Some(p) && p < row && self@.rows[
                p as int].depth + 1 == self@.rows[row as int].depth && (forall|j: int|
                p < j <= row ==> (#[trigger] self@.rows[j]).depth >= self@.rows[
                    row as int].depth)),
    {
        let ghost rows = self@.rows;
        let d = self.depths[row];
        if d == 0 {
            return None;
        }
        let mut p = row;
        while p > 0 && self.depths[p - 1] >= d
            invariant
                self.inv(),
                rows == self@.rows,
                row < rows.len(),
                d == rows[row as int].depth,
                0 <= p <= row,
                forall|j: int| p <= j <= row ==> (#[trigger] rows[j]).depth >= d,
            decreases p,
        {
            p = p - 1;
        }
        proof {
            if p == 0 {
                assert(rows[0].depth >= d);
                assert(rows[0].depth <= 0);
                assert(false);
            }
            assert(rows[p - 1].depth < d);
            assert(rows[p as int].depth <= rows[p - 1].depth + 1);
            assert(rows[p as int].depth >= d);
        }
        Some(p - 1)
    }
}

} // verus!
