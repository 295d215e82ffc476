//! Structural edits of the visible tree: the raw-token form of an edit, the
//! exact semantics of applying one edit, and replay of a persisted edit log.

use vstd::prelude::*;
use crate::data::Action as RecordAction;
use crate::data::ActionModel;
use crate::data::action_models;
use crate::data::Record;
use crate::data::RecordModel;
use crate::data::chars_to_string;
use crate::data::find_char;
use crate::data::str_to_chars;
use crate::data::lemma_find_char_at;
use crate::tree::VisibleTree;
use crate::tree::TreeModel;
use crate::tree::RowModel;
use crate::tree::clamp_sel;
use crate::tree::wf_model;
use crate::tree::spec_extract_rows;
use crate::tree::spec_remove_rows;
use crate::tree::subtree_end;
use crate::tree::lemma_scan_end;

verus! {

/// A structural edit tagged with the raw frame token it targets, instead of
/// a parsed record.
pub enum Action {
    Recursive(String),
    Delete(String),
}

/// Cursor adjustment when the single row `i` is deleted: a cursor at or
/// after `i` moves up one row, and never below row 0.
pub open spec fn del_sel_step(sel: nat, i: int) -> nat {
    if i <= sel && sel > 0 {
        (sel - 1) as nat
    } else {
        sel
    }
}

/// Cursor adjustment when the subtree at row `i` is removed: the cursor
/// moves up by the number of removed rows at or before it, and never below
/// row 0.
pub open spec fn rec_sel_step(rows: Seq<RowModel>, sel: nat, i: int) -> nat {
    if i <= sel {
        let size = subtree_end(rows, i) - i;
        let within = if size <= sel - i + 1 {
            size
        } else {
            sel - i + 1
        };
        let cut = if within <= sel {
            within
        } else {
            sel as int
        };
        (sel - cut) as nat
    } else {
        sel
    }
}

/// Repeatedly extracts the row at position `i` while it matches `rec`,
/// promoting its children into that position each time.
pub open spec fn drain_delete(rows: Seq<RowModel>, sel: nat, rec: RecordModel, i: int) -> (
    Seq<RowModel>,
    nat,
)
    decreases rows.len(),
{
    if 0 <= i < rows.len() && rows[i].record == rec {
        drain_delete(spec_extract_rows(rows, i), del_sel_step(sel, i), rec, i)
    } else {
        (rows, sel)
    }
}

/// Scans positions `i..n` in order, draining matches at each position.
pub open spec fn sweep_delete(
    rows: Seq<RowModel>,
    sel: nat,
    rec: RecordModel,
    i: int,
    n: int,
) -> (Seq<RowModel>, nat)
    decreases n - i,
{
    if i >= n {
        (rows, sel)
    } else {
        let d = drain_delete(rows, sel, rec, i);
        sweep_delete(d.0, d.1, rec, i + 1, n)
    }
}

/// Repeatedly removes the whole subtree at position `i` while the row there
/// matches `rec`.
pub open spec fn drain_recursive(rows: Seq<RowModel>, sel: nat, rec: RecordModel, i: int) -> (
    Seq<RowModel>,
    nat,
)
    decreases rows.len() via drain_recursive_dec
{
    if 0 <= i < rows.len() && rows[i].record == rec {
        drain_recursive(spec_remove_rows(rows, i), rec_sel_step(rows, sel, i), rec, i)
    } else {
        (rows, sel)
    }
}

#[via_fn]
proof fn drain_recursive_dec(rows: Seq<RowModel>, sel: nat, rec: RecordModel, i: int) {
    if 0 <= i < rows.len() && rows[i].record == rec {
        lemma_scan_end(rows, rows[i].depth, (i + 1) as nat);
    }
}

/// Scans positions `i..n` in order, removing matching subtrees at each
/// position.
pub open spec fn sweep_recursive(
    rows: Seq<RowModel>,
    sel: nat,
    rec: RecordModel,
    i: int,
    n: int,
) -> (Seq<RowModel>, nat)
    decreases n - i,
{
    if i >= n {
        (rows, sel)
    } else {
        let d = drain_recursive(rows, sel, rec, i);
        sweep_recursive(d.0, d.1, rec, i + 1, n)
    }
}

/// The tree after one structural edit: every currently visible matching node
/// is removed (alone for `Delete`, with its subtree for `Recursive`), and
/// the cursor follows the shifting rows, clamped to the rows that remain. An
/// edit that matches nothing, or one applied to an empty tree, is a no-op.
pub open spec fn spec_perform(act: ActionModel, t: TreeModel) -> TreeModel {
    if t.rows.len() == 0 {
        t
    } else {
        match act {
            ActionModel::Delete(rec) => {
                let d = sweep_delete(t.rows, t.sel, rec, 0, t.rows.len() as int);
                TreeModel { rows: d.0, sel: clamp_sel(d.0.len(), d.1) }
            },
            ActionModel::Recursive(rec) => {
                let d = sweep_recursive(t.rows, t.sel, rec, 0, t.rows.len() as int);
                TreeModel { rows: d.0, sel: clamp_sel(d.0.len(), d.1) }
            },
        }
    }
}

/// Whether the row at position `i` exists and holds exactly `rec`.
fn row_matches(tree: &VisibleTree, i: usize, rec: &Record) -> (b: bool)
    ensures
        b == (i < tree@.rows.len() && tree@.rows[i as int].record == rec@),
{
    match tree.borrow_item(i) {
        Some(x) => *x == *rec,
        None => false,
    }
}

/// Applies one structural edit to the tree: scans all rows in position
/// order, drains every run of matches before moving on, and re-seats the
/// cursor on a surviving row.
pub fn perform_action(act: &RecordAction, tree: &mut VisibleTree)
    requires
        old(tree).inv(),
    ensures
        final(tree).inv(),
        final(tree)@ == spec_perform(act@, old(tree)@),
{
    let ghost t0 = old(tree)@;
    match act {
        RecordAction::Delete(record) => {
            let row_opt = tree.row();
            if let Some(r0) = row_opt {
                proof {
                    tree.lemma_inv_model();
                }
                let ghost rec = record@;
                let mut row = r0;
                let n = tree.len();
                let mut i: usize = 0;
                while i < n
                    invariant
                        tree.inv(),
                        rec == record@,
                        n == t0.rows.len(),
                        i <= n,
                        row < n,
                        sweep_delete(t0.rows, t0.sel, rec, 0, n as int) == sweep_delete(
                            tree@.rows,
                            row as nat,
                            rec,
                            i as int,
                            n as int,
                        ),
                    decreases n - i,
                {
                    while row_matches(tree, i, record)
                        invariant
                            tree.inv(),
                            rec == record@,
                            i < n,
                            row < n,
                            sweep_delete(t0.rows, t0.sel, rec, 0, n as int) == ({
                                let d = drain_delete(tree@.rows, row as nat, rec, i as int);
                                sweep_delete(d.0, d.1, rec, i as int + 1, n as int)
                            }),
                        decreases tree@.rows.len(),
                    {
                        let ghost prows = tree@.rows;
                        let ghost prow = row as nat;
                        if i <= row && row > 0 {
                            row = row - 1;
                        }
                        let _ = tree.extract_item(i);
                        proof {
                            assert(tree@.rows == spec_extract_rows(prows, i as int));
                            assert(row as nat == del_sel_step(prow, i as int));
                            assert(drain_delete(prows, prow, rec, i as int) == drain_delete(
                                tree@.rows,
                                row as nat,
                                rec,
                                i as int,
                            ));
                        }
                    }
                    proof {
                        assert(drain_delete(tree@.rows, row as nat, rec, i as int) == (
                            tree@.rows,
                            row as nat,
                        ));
                    }
                    i = i + 1;
                }
                proof {
                    assert(sweep_delete(tree@.rows, row as nat, rec, n as int, n as int) == (
                        tree@.rows,
                        row as nat,
                    ));
                }
                tree.set_selected_row(row);
            }
        },
        RecordAction::Recursive(record) => {
            let row_opt = tree.row();
            if let Some(r0) = row_opt {
                proof {
                    tree.lemma_inv_model();
                }
                let ghost rec = record@;
                let mut row = r0;
                let n = tree.len();
                let mut i: usize = 0;
                while i < n
                    invariant
                        tree.inv(),
                        rec == record@,
                        n == t0.rows.len(),
                        i <= n,
                        row < n,
                        sweep_recursive(t0.rows, t0.sel, rec, 0, n as int) == sweep_recursive(
                            tree@.rows,
                            row as nat,
                            rec,
                            i as int,
                            n as int,
                        ),
                    decreases n - i,
                {
                    while row_matches(tree, i, record)
                        invariant
                            tree.inv(),
                            rec == record@,
                            i < n,
                            row < n,
                            sweep_recursive(t0.rows, t0.sel, rec, 0, n as int) == ({
                                let d = drain_recursive(tree@.rows, row as nat, rec, i as int);
                                sweep_recursive(d.0, d.1, rec, i as int + 1, n as int)
                            }),
                        decreases tree@.rows.len(),
                    {
                        let ghost prows = tree@.rows;
                        let ghost prow = row as nat;
                        let removed = tree.remove_item(i);
                        if let Some(v) = removed {
                            if i <= row {
                                let sub = v.len();
                                let a = if sub <= row - i + 1 {
                                    sub
                                } else {
                                    row - i + 1
                                };
                                let cut = if a <= row {
                                    a
                                } else {
                                    row
                                };
                                row = row - cut;
                            }
                        }
                        proof {
                            lemma_scan_end(prows, prows[i as int].depth, (i + 1) as nat);
                            assert(tree@.rows == spec_remove_rows(prows, i as int));
                            assert(tree@.rows.len() < prows.len());
                            assert(row as nat == rec_sel_step(prows, prow, i as int));
                            assert(drain_recursive(prows, prow, rec, i as int) == drain_recursive(
                                tree@.rows,
                                row as nat,
                                rec,
                                i as int,
                            ));
                        }
                    }
                    proof {
                        assert(drain_recursive(tree@.rows, row as nat, rec, i as int) == (
                            tree@.rows,
                            row as nat,
                        ));
                    }
                    i = i + 1;
                }
                proof {
                    assert(sweep_recursive(tree@.rows, row as nat, rec, n as int, n as int) == (
                        tree@.rows,
                        row as nat,
                    ));
                }
                tree.set_selected_row(row);
            }
        },
    }
}

proof fn lemma_sweep_delete_no_match(rows: Seq<RowModel>, sel: nat, rec: RecordModel, i: int, n: int)
    requires
        forall|j: int| 0 <= j < rows.len() ==> (#[trigger] rows[j]).record != rec,
    ensures
        sweep_delete(rows, sel, rec, i, n) == (rows, sel),
    decreases n - i,
{
    if i < n {
        assert(drain_delete(rows, sel, rec, i) == (rows, sel));
        lemma_sweep_delete_no_match(rows, sel, rec, i + 1, n);
    }
}

proof fn lemma_sweep_recursive_no_match(
    rows: Seq<RowModel>,
    sel: nat,
    rec: RecordModel,
    i: int,
    n: int,
)
    requires
        forall|j: int| 0 <= j < rows.len() ==> (#[trigger] rows[j]).record != rec,
    ensures
        sweep_recursive(rows, sel, rec, i, n) == (rows, sel),
    decreases n - i,
{
    if i < n {
        assert(drain_recursive(rows, sel, rec, i) == (rows, sel));
        lemma_sweep_recursive_no_match(rows, sel, rec, i + 1, n);
    }
}

/// A `Delete` matching-edit whose record matches no visible node is a
/// silent no-op: the tree and the selected row are unchanged.
pub proof fn lemma_delete_no_match_noop(t: TreeModel, rec: RecordModel)
    requires
        wf_model(t),
        forall|j: int| 0 <= j < t.rows.len() ==> (#[trigger] t.rows[j]).record != rec,
    ensures
        spec_perform(ActionModel::Delete(rec), t) == t,
{
    if t.rows.len() > 0 {
        lemma_sweep_delete_no_match(t.rows, t.sel, rec, 0, t.rows.len() as int);
        assert(spec_perform(ActionModel::Delete(rec), t) =~= t);
    }
}

/// A `Recursive` matching-edit applied to a tree with no node matching its
/// record leaves the tree and the selected row unchanged.
pub proof fn lemma_recursive_no_match_noop(t: TreeModel, rec: RecordModel)
    requires
        wf_model(t),
        forall|j: int| 0 <= j < t.rows.len() ==> (#[trigger] t.rows[j]).record != rec,
    ensures
        spec_perform(ActionModel::Recursive(rec), t) == t,
{
    if t.rows.len() > 0 {
        lemma_sweep_recursive_no_match(t.rows, t.sel, rec, 0, t.rows.len() as int);
        assert(spec_perform(ActionModel::Recursive(rec), t) =~= t);
    }
}

proof fn lemma_drain_delete_clears(rows: Seq<RowModel>, sel: nat, rec: RecordModel, i: int)
    requires
        0 <= i,
    ensures
        ({
            let d = drain_delete(rows, sel, rec, i);
            &&& d.0.len() <= rows.len()
            &&& forall|j: int| 0 <= j < i && j < d.0.len() ==> d.0[j] == rows[j]
            &&& !(i < d.0.len() && d.0[i].record == rec)
        }),
    decreases rows.len(),
{
    if 0 <= i < rows.len() && rows[i].record == rec {
        let e1 = spec_extract_rows(rows, i);
        let s1 = del_sel_step(sel, i);
        lemma_drain_delete_clears(e1, s1, rec, i);
        let d = drain_delete(rows, sel, rec, i);
        assert(d == drain_delete(e1, s1, rec, i));
        assert forall|j: int| 0 <= j < i && j < d.0.len() implies d.0[j] == rows[j] by {
            assert(d.0[j] == e1[j]);
        }
    }
}

proof fn lemma_sweep_delete_clears(rows: Seq<RowModel>, sel: nat, rec: RecordModel, i: int, n: int)
    requires
        0 <= i <= n,
        rows.len() <= n,
        forall|j: int| 0 <= j < i && j < rows.len() ==> (#[trigger] rows[j]).record != rec,
    ensures
        ({
            let s = sweep_delete(rows, sel, rec, i, n);
            s.0.len() <= rows.len() && forall|j: int|
                0 <= j < s.0.len() ==> (#[trigger] s.0[j]).record != rec
        }),
    decreases n - i,
{
    if i < n {
        let d = drain_delete(rows, sel, rec, i);
        lemma_drain_delete_clears(rows, sel, rec, i);
        assert forall|j: int| 0 <= j < i + 1 && j < d.0.len() implies (#[trigger] d.0[j]).record
            != rec by {
            if j < i {
                assert(d.0[j] == rows[j]);
                assert(rows[j].record != rec);
            }
        }
        lemma_sweep_delete_clears(d.0, d.1, rec, i + 1, n);
    }
}

/// Re-applying a `Delete` matching-edit is a no-op: the first application
/// leaves no matching node, so the second finds an empty match set.
pub proof fn lemma_delete_idempotent(t: TreeModel, rec: RecordModel)
    requires
        wf_model(t),
    ensures
        spec_perform(ActionModel::Delete(rec), spec_perform(ActionModel::Delete(rec), t))
            == spec_perform(ActionModel::Delete(rec), t),
{
    let act = ActionModel::Delete(rec);
    if t.rows.len() > 0 {
        let n = t.rows.len() as int;
        let d = sweep_delete(t.rows, t.sel, rec, 0, n);
        lemma_sweep_delete_clears(t.rows, t.sel, rec, 0, n);
        let t1 = spec_perform(act, t);
        if t1.rows.len() > 0 {
            lemma_sweep_delete_no_match(t1.rows, t1.sel, rec, 0, t1.rows.len() as int);
            assert(spec_perform(act, t1) =~= t1);
        }
    }
}

/// The tree after replaying a list of edits in recorded order.
pub open spec fn spec_replay(acts: Seq<ActionModel>, t: TreeModel) -> TreeModel
    decreases acts.len(),
{
    if acts.len() == 0 {
        t
    } else {
        spec_replay(acts.skip(1), spec_perform(acts[0], t))
    }
}

/// Replays a persisted list of edits against the tree, in recorded order.
/// An edit whose record matches nothing in the current tree is silently
/// skipped.
pub fn replay_actions(actions: &Vec<RecordAction>, tree: &mut VisibleTree)
    requires
        old(tree).inv(),
    ensures
        final(tree).inv(),
        final(tree)@ == spec_replay(action_models(actions@), old(tree)@),
{
    let ghost t0 = old(tree)@;
    let ghost models = action_models(actions@);
    proof {
        assert(models.skip(0) =~= models);
    }
    let mut idx: usize = 0;
    while idx < actions.len()
        invariant
            tree.inv(),
            idx <= actions.len(),
            models == action_models(actions@),
            models.len() == actions@.len(),
            spec_replay(models, t0) == spec_replay(models.skip(idx as int), tree@),
        decreases actions.len() - idx,
    {
        let ghost pre = tree@;
        perform_action(&actions[idx], tree);
        proof {
            assert(models.skip(idx as int)[0] == models[idx as int]);
            assert(models.skip(idx as int).skip(1) =~= models.skip(idx as int + 1));
            assert(spec_replay(models.skip(idx as int), pre) == spec_replay(
                models.skip(idx as int + 1),
                spec_perform(models[idx as int], pre),
            ));
        }
        idx = idx + 1;
    }
    proof {
        assert(models.skip(actions@.len() as int) =~= Seq::<ActionModel>::empty());
    }
}

/// The line prefix marking a persisted `Recursive` edit.
pub open spec fn rec_prefix() -> Seq<char> {
    seq!['r', 'e', 'c', 'u', 'r', 's', 'i', 'v', 'e', ' ']
}

/// The line prefix marking a persisted `Delete` edit.
pub open spec fn del_prefix() -> Seq<char> {
    seq!['d', 'e', 'l', 'e', 't', 'e', ' ']
}

/// The escape form of one character of a persisted field: the backslash
/// escapes itself, the two field delimiters, and the line break, so that a
/// field can carry any text.
pub open spec fn esc_char(c: char) -> Seq<char> {
    if c == '\\' {
        seq!['\\', '\\']
    } else if c == '@' {
        seq!['\\', '@']
    } else if c == ':' {
        seq!['\\', ':']
    } else if c == '\n' {
        seq!['\\', 'n']
    } else {
        seq![c]
    }
}

/// A field with every delimiter escaped.
pub open spec fn esc_field(s: Seq<char>) -> Seq<char>
    decreases s.len(),
{
    if s.len() == 0 {
        Seq::empty()
    } else {
        esc_char(s[0]) + esc_field(s.skip(1))
    }
}

/// The character an escape pair `\\c` stands for, or `None` for a pair the
/// format never writes.
pub open spec fn unesc_pair(c: char) -> Option<char> {
    if c == '\\' {
        Some('\\')
    } else if c == '@' {
        Some('@')
    } else if c == ':' {
        Some(':')
    } else if c == 'n' {
        Some('\n')
    } else {
        None
    }
}

/// Reads an escaped field of `s` from position `i` up to the delimiter `d`:
/// the decoded text and the position after the delimiter, or `None` when
/// the delimiter never comes, an escape pair is broken, or a bare delimiter
/// other than `d` appears.
pub open spec fn spec_read_field(s: Seq<char>, i: int, d: char) -> Option<(Seq<char>, int)>
    decreases s.len() - i,
{
    if i < 0 || i >= s.len() {
        None
    } else if s[i] == d {
        Some((Seq::empty(), i + 1))
    } else if s[i] == '\\' {
        if i + 1 >= s.len() {
            None
        } else {
            match unesc_pair(s[i + 1]) {
                None => None,
                Some(ch) => match spec_read_field(s, i + 2, d) {
                    None => None,
                    Some(r) => Some((seq![ch] + r.0, r.1)),
                },
            }
        }
    } else if s[i] == '@' || s[i] == ':' || s[i] == '\n' {
        None
    } else {
        match spec_read_field(s, i + 1, d) {
            None => None,
            Some(r) => Some((seq![s[i]] + r.0, r.1)),
        }
    }
}

/// One persisted line of the edit log: the kind word, a space, the escaped
/// function name, `@`, the escaped file name, `:`, and the decimal line
/// number.
pub open spec fn spec_encode_action(a: ActionModel) -> Seq<char> {
    match a {
        ActionModel::Recursive(r) => rec_prefix() + esc_field(r.function) + seq!['@'] + esc_field(
            r.file,
        ) + seq![':'] + crate::data::spec_digits(r.line),
        ActionModel::Delete(r) => del_prefix() + esc_field(r.function) + seq!['@'] + esc_field(
            r.file,
        ) + seq![':'] + crate::data::spec_digits(r.line),
    }
}

/// The persisted form of a whole edit log: one line per edit, each ended by
/// a line break, in replay order.
pub open spec fn spec_encode_log(acts: Seq<ActionModel>) -> Seq<char>
    decreases acts.len(),
{
    if acts.len() == 0 {
        Seq::empty()
    } else {
        spec_encode_action(acts[0]) + seq!['\n'] + spec_encode_log(acts.skip(1))
    }
}

/// Reading the record of one persisted line back: the escaped function and
/// file fields, then a digit run that must fit a machine word.
pub open spec fn spec_parse_body(body: Seq<char>) -> Option<RecordModel> {
    match spec_read_field(body, 0, '@') {
        None => None,
        Some(f1) => match spec_read_field(body, f1.1, ':') {
            None => None,
            Some(f2) => {
                let digits = body.skip(f2.1);
                if crate::data::all_digits(digits) && crate::data::digits_value(digits)
                    <= usize::MAX {
                    Some(
                        RecordModel {
                            function: f1.0,
                            file: f2.0,
                            line: crate::data::digits_value(digits),
                        },
                    )
                } else {
                    None
                }
            },
        },
    }
}

/// Reading one persisted line back: the kind word picks the edit, and the
/// remainder must read as an escaped record.
pub open spec fn spec_parse_action_line(line: Seq<char>) -> Option<ActionModel> {
    if line.len() >= rec_prefix().len() && line.take(rec_prefix().len() as int) == rec_prefix() {
        match spec_parse_body(line.skip(rec_prefix().len() as int)) {
            Some(r) => Some(ActionModel::Recursive(r)),
            None => None,
        }
    } else if line.len() >= del_prefix().len() && line.take(del_prefix().len() as int)
        == del_prefix() {
        match spec_parse_body(line.skip(del_prefix().len() as int)) {
            Some(r) => Some(ActionModel::Delete(r)),
            None => None,
        }
    } else {
        None
    }
}

/// Reading a whole persisted edit log back, line by line; any malformed
/// line, or trailing text without a line break, refuses the log.
pub open spec fn spec_parse_log(s: Seq<char>) -> Option<Seq<ActionModel>>
    decreases s.len(),
{
    if s.len() == 0 {
        Some(Seq::empty())
    } else {
        let e = find_char(s, '\n', 0);
        if e >= s.len() {
            None
        } else {
            match spec_parse_action_line(s.take(e as int)) {
                None => None,
                Some(a) => match spec_parse_log(s.skip(e as int + 1)) {
                    None => None,
                    Some(rest) => Some(seq![a] + rest),
                },
            }
        }
    }
}

/// The record an action targets.
pub open spec fn action_record(a: ActionModel) -> RecordModel {
    match a {
        ActionModel::Recursive(r) => r,
        ActionModel::Delete(r) => r,
    }
}

/// An escaped field holds no line break.
proof fn lemma_esc_field_clean(s: Seq<char>)
    ensures
        forall|j: int| 0 <= j < esc_field(s).len() ==> (#[trigger] esc_field(s)[j]) != '\n',
    decreases s.len(),
{
    if s.len() > 0 {
        lemma_esc_field_clean(s.skip(1));
        assert forall|j: int| 0 <= j < esc_field(s).len() implies (#[trigger] esc_field(s)[j])
            != '\n' by {
            let k = esc_char(s[0]).len() as int;
            if j >= k {
                assert(esc_field(s)[j] == esc_field(s.skip(1))[j - k]);
            }
        }
    }
}

/// Reading an escaped field back from its position in a line recovers the
/// text exactly and stops right after the delimiter, whatever follows.
proof fn lemma_read_esc_field(s: Seq<char>, i: int, x: Seq<char>, d: char)
    requires
        d == '@' || d == ':',
        0 <= i,
        i + esc_field(x).len() + 1 <= s.len(),
        s.subrange(i, i + esc_field(x).len() as int) == esc_field(x),
        s[i + esc_field(x).len() as int] == d,
    ensures
        spec_read_field(s, i, d) == Some((x, i + esc_field(x).len() + 1)),
    decreases x.len(),
{
    let l = esc_field(x).len() as int;
    if x.len() == 0 {
        assert(x =~= Seq::<char>::empty());
        assert(s[i] == d);
    } else {
        let c = x[0];
        let k = esc_char(c).len() as int;
        assert(esc_field(x) == esc_char(c) + esc_field(x.skip(1)));
        assert(l == k + esc_field(x.skip(1)).len());
        assert(s.subrange(i, i + l)[0] == s[i]);
        assert(s[i] == esc_field(x)[0]);
        assert(esc_field(x)[0] == esc_char(c)[0]);
        assert forall|j: int| 0 <= j < l - k implies s.subrange(i + k, i + l)[j] == esc_field(
            x.skip(1),
        )[j] by {
            assert(s.subrange(i, i + l)[k + j] == s[i + k + j]);
            assert(s.subrange(i + k, i + l)[j] == s[i + k + j]);
            assert(esc_field(x)[k + j] == esc_field(x.skip(1))[j]);
        }
        assert(s.subrange(i + k, i + l) =~= esc_field(x.skip(1)));
        lemma_read_esc_field(s, i + k, x.skip(1), d);
        if c == '\\' || c == '@' || c == ':' || c == '\n' {
            assert(k == 2);
            assert(s[i] == '\\');
            assert(s.subrange(i, i + l)[1] == s[i + 1]);
            assert(s[i + 1] == esc_field(x)[1]);
            assert(esc_field(x)[1] == esc_char(c)[1]);
            assert(unesc_pair(s[i + 1]) == Some(c));
            assert(spec_read_field(s, i, d) == Some((seq![c] + x.skip(1), i + l + 1)));
        } else {
            assert(k == 1);
            assert(s[i] == c);
            assert(s[i] != d && s[i] != '\\' && s[i] != '@' && s[i] != ':' && s[i] != '\n');
            assert(spec_read_field(s, i, d) == Some((seq![c] + x.skip(1), i + l + 1)));
        }
        assert(seq![c] + x.skip(1) =~= x);
    }
}

/// An encoded line holds no line break and parses back to its action,
/// whatever text the record's fields hold.
#[verifier::rlimit(100)]
proof fn lemma_encode_action_line(a: ActionModel)
    requires
        action_record(a).line <= usize::MAX,
    ensures
        forall|j: int|
            0 <= j < spec_encode_action(a).len() ==> (#[trigger] spec_encode_action(a)[j]) != '\n',
        spec_parse_action_line(spec_encode_action(a)) == Some(a),
{
    let r = action_record(a);
    let line = spec_encode_action(a);
    let digits = crate::data::spec_digits(r.line);
    crate::data::lemma_digits_roundtrip(r.line);
    lemma_esc_field_clean(r.function);
    lemma_esc_field_clean(r.file);
    let plen: int = match a {
        ActionModel::Recursive(_) => rec_prefix().len() as int,
        ActionModel::Delete(_) => del_prefix().len() as int,
    };
    let body = esc_field(r.function) + seq!['@'] + esc_field(r.file) + seq![':'] + digits;
    let l1 = esc_field(r.function).len() as int;
    let l2 = esc_field(r.file).len() as int;
    assert(line =~= (match a {
        ActionModel::Recursive(_) => rec_prefix(),
        ActionModel::Delete(_) => del_prefix(),
    }) + body);
    assert forall|j: int| 0 <= j < line.len() implies (#[trigger] line[j]) != '\n' by {
        if j >= plen {
            let b = j - plen;
            if b < l1 {
                assert(body[b] == esc_field(r.function)[b]);
            } else if b == l1 {
            } else if b < l1 + 1 + l2 {
                assert(body[b] == esc_field(r.file)[b - l1 - 1]);
            } else if b == l1 + 1 + l2 {
            } else {
                assert(body[b] == digits[b - l1 - l2 - 2]);
                assert(crate::data::is_digit(digits[b - l1 - l2 - 2]));
            }
        }
    }
    assert(body.subrange(0, l1) =~= esc_field(r.function));
    assert(body[l1] == '@');
    lemma_read_esc_field(body, 0, r.function, '@');
    assert(body.subrange(l1 + 1, l1 + 1 + l2) =~= esc_field(r.file));
    assert(body[l1 + 1 + l2] == ':');
    lemma_read_esc_field(body, l1 + 1, r.file, ':');
    assert(body.skip(l1 + 1 + l2 + 1) =~= digits);
    assert(spec_parse_body(body) == Some(r));
    match a {
        ActionModel::Recursive(_) => {
            assert(line.take(rec_prefix().len() as int) =~= rec_prefix());
            assert(line.skip(rec_prefix().len() as int) =~= body);
        },
        ActionModel::Delete(_) => {
            assert(line.len() < rec_prefix().len() || line.take(rec_prefix().len() as int)
                != rec_prefix()) by {
                assert(line[0] == 'd');
                if line.len() >= rec_prefix().len() {
                    assert(line.take(rec_prefix().len() as int)[0] == 'd');
                    assert(rec_prefix()[0] == 'r');
                }
            }
            assert(line.take(del_prefix().len() as int) =~= del_prefix());
            assert(line.skip(del_prefix().len() as int) =~= body);
        },
    }
}

/// Whether every record an action list targets has a line number that fits
/// a machine word; true of every action built from a [`Record`].
pub open spec fn actions_fit(acts: Seq<ActionModel>) -> bool {
    forall|i: int| 0 <= i < acts.len() ==> action_record(#[trigger] acts[i]).line <= usize::MAX
}

/// Every action list that exists as a value fits: its line numbers are
/// machine words already.
pub proof fn lemma_action_values_fit(log: Seq<RecordAction>)
    ensures
        actions_fit(action_models(log)),
{
    assert forall|i: int|
        0 <= i < action_models(log).len() implies action_record(
        #[trigger] action_models(log)[i],
    ).line <= usize::MAX by {
        assert(action_models(log)[i] == log[i]@);
    }
}

/// Writing an edit log out and reading it back yields the same edits, in
/// the same order — for every record whose line number fits a machine word,
/// which every record held by an [`Action`] does.
#[verifier::rlimit(100)]
pub proof fn lemma_log_roundtrip(acts: Seq<ActionModel>)
    requires
        actions_fit(acts),
    ensures
        spec_parse_log(spec_encode_log(acts)) == Some(acts),
    decreases acts.len(),
{
    if acts.len() == 0 {
        assert(spec_parse_log(spec_encode_log(acts)) == Some(Seq::<ActionModel>::empty()));
        assert(acts =~= Seq::<ActionModel>::empty());
    } else {
        let line = spec_encode_action(acts[0]);
        let s = spec_encode_log(acts);
        lemma_encode_action_line(acts[0]);
        assert(s[line.len() as int] == '\n');
        lemma_find_char_at(s, '\n', 0, line.len() as int);
        assert(s.take(line.len() as int) =~= line);
        assert(s.skip(line.len() as int + 1) =~= spec_encode_log(acts.skip(1)));
        assert(actions_fit(acts.skip(1))) by {
            assert(forall|i: int|
                0 <= i < acts.skip(1).len() ==> acts.skip(1)[i] == acts[i + 1]);
        }
        lemma_log_roundtrip(acts.skip(1));
        assert(seq![acts[0]] + acts.skip(1) =~= acts);
    }
}

/// Replaying a log that was written out and read back gives the same tree
/// as replaying the in-memory log directly.
pub proof fn lemma_log_roundtrip_replay(acts: Seq<ActionModel>, t: TreeModel)
    requires
        actions_fit(acts),
    ensures
        spec_parse_log(spec_encode_log(acts)) matches Some(l) && spec_replay(l, t) == spec_replay(
            acts,
            t,
        ),
{
    lemma_log_roundtrip(acts);
}

/// A field of `esc_field` grows by one escape form per character.
proof fn lemma_esc_field_snoc(s: Seq<char>, i: int)
    requires
        0 <= i < s.len(),
    ensures
        esc_field(s.take(i + 1)) == esc_field(s.take(i)) + esc_char(s[i]),
    decreases i,
{
    if i == 0 {
        assert(s.take(1) =~= seq![s[0]]);
        assert(s.take(1)[0] == s[0]);
        assert(s.take(1).skip(1) =~= Seq::<char>::empty());
        assert(s.take(0) =~= Seq::<char>::empty());
        assert(esc_field(Seq::<char>::empty()) =~= Seq::<char>::empty());
        assert(esc_field(s.take(1)) =~= esc_char(s[0]));
        assert(esc_field(s.take(0)) + esc_char(s[0]) =~= esc_char(s[0]));
    } else {
        let t1 = s.take(i + 1);
        let t0 = s.take(i);
        assert(t1[0] == s[0]);
        assert(t0[0] == s[0]);
        assert(t1.skip(1) =~= s.skip(1).take(i));
        assert(t0.skip(1) =~= s.skip(1).take(i - 1));
        lemma_esc_field_snoc(s.skip(1), i - 1);
        assert(s.skip(1)[i - 1] == s[i]);
        assert(esc_field(t1) =~= esc_field(t0) + esc_char(s[i]));
    }
}

/// Appends the escaped form of `s` to `out`.
fn push_escaped(out: &mut Vec<char>, s: &str)
    ensures
        final(out)@ == old(out)@ + esc_field(s@),
{
    let n = s.unicode_len();
    let mut i: usize = 0;
    while i < n
        invariant
            n == s@.len(),
            i <= n,
            out@ =~= old(out)@ + esc_field(s@.take(i as int)),
        decreases n - i,
    {
        let c = s.get_char(i);
        if c == '\\' {
            out.push('\\');
            out.push('\\');
        } else if c == '@' {
            out.push('\\');
            out.push('@');
        } else if c == ':' {
            out.push('\\');
            out.push(':');
        } else if c == '\n' {
            out.push('\\');
            out.push('n');
        } else {
            out.push(c);
        }
        proof {
            lemma_esc_field_snoc(s@, i as int);
            assert(out@ =~= old(out)@ + esc_field(s@.take(i + 1)));
        }
        i = i + 1;
    }
    proof {
        assert(s@.take(n as int) =~= s@);
    }
}

/// Writes the edit log in its persisted line format.
pub fn encode_action_log(log: &Vec<RecordAction>) -> (s: String)
    ensures
        s@ == spec_encode_log(action_models(log@)),
{
    let ghost models = action_models(log@);
    let mut out: Vec<char> = Vec::new();
    let mut i: usize = 0;
    while i < log.len()
        invariant
            i <= log@.len(),
            models == action_models(log@),
            models.len() == log@.len(),
            out@ =~= spec_encode_log(models.take(i as int)),
        decreases log@.len() - i,
    {
        let ghost pre = out@;
        match &log[i] {
            RecordAction::Recursive(rec) => {
                out.push('r');
                out.push('e');
                out.push('c');
                out.push('u');
                out.push('r');
                out.push('s');
                out.push('i');
                out.push('v');
                out.push('e');
                out.push(' ');
                push_escaped(&mut out, rec.function.as_str());
                out.push('@');
                push_escaped(&mut out, rec.file.as_str());
                out.push(':');
                crate::data::push_digits(&mut out, rec.line);
                out.push('\n');
                proof {
                    assert(out@ =~= pre + spec_encode_action(models[i as int]) + seq!['\n']);
                }
            },
            RecordAction::Delete(rec) => {
                out.push('d');
                out.push('e');
                out.push('l');
                out.push('e');
                out.push('t');
                out.push('e');
                out.push(' ');
                push_escaped(&mut out, rec.function.as_str());
                out.push('@');
                push_escaped(&mut out, rec.file.as_str());
                out.push(':');
                crate::data::push_digits(&mut out, rec.line);
                out.push('\n');
                proof {
                    assert(out@ =~= pre + spec_encode_action(models[i as int]) + seq!['\n']);
                }
            },
        }
        proof {
            lemma_encode_log_step(models, i as int);
        }
        i = i + 1;
    }
    proof {
        assert(models.take(models.len() as int) =~= models);
    }
    chars_to_string(&out)
}

/// Appending one more edit extends the encoded log by that edit's line.
proof fn lemma_encode_log_step(acts: Seq<ActionModel>, i: int)
    requires
        0 <= i < acts.len(),
    ensures
        spec_encode_log(acts.take(i + 1)) == spec_encode_log(acts.take(i)) + spec_encode_action(
            acts[i],
        ) + seq!['\n'],
    decreases i,
{
    if i == 0 {
        assert(acts.take(1) =~= seq![acts[0]]);
        assert(acts.take(1).skip(1) =~= Seq::<ActionModel>::empty());
        assert(spec_encode_log(Seq::<ActionModel>::empty()) == Seq::<char>::empty());
        assert(acts.take(0) =~= Seq::<ActionModel>::empty());
        assert(spec_encode_log(acts.take(1)) =~= spec_encode_action(acts[0]) + seq!['\n']);
        assert(spec_encode_log(acts.take(0)) + spec_encode_action(acts[0]) + seq!['\n']
            =~= spec_encode_action(acts[0]) + seq!['\n']);
    } else {
        let t1 = acts.take(i + 1);
        let t0 = acts.take(i);
        assert(t1[0] == acts[0]);
        assert(t0[0] == acts[0]);
        assert(t1.skip(1) =~= acts.skip(1).take(i));
        assert(t0.skip(1) =~= acts.skip(1).take(i - 1));
        lemma_encode_log_step(acts.skip(1), i - 1);
        assert(acts.skip(1)[i - 1] == acts[i]);
        assert(spec_encode_log(t1) =~= spec_encode_log(t0) + spec_encode_action(acts[i]) + seq![
            '\n',
        ]);
    }
}

/// Reads an edit log back from its persisted line format; `None` when any
/// line is malformed or trailing text lacks a line break.
#[verifier::rlimit(100)]
pub fn parse_action_log(s: &str) -> (r: Option<Vec<RecordAction>>)
    ensures
        r is Some <==> spec_parse_log(s@) is Some,
        r matches Some(v) ==> Some(action_models(v@)) == spec_parse_log(s@),
{
    let v = str_to_chars(s);
    let n = v.len();
    let mut out: Vec<RecordAction> = Vec::new();
    proof {
        assert(v@.skip(0) =~= v@);
    }
    let mut pos: usize = 0;
    while pos < n
        invariant
            pos <= n,
            n == v@.len(),
            v@ == s@,
            ({
                let cont = spec_parse_log(v@.skip(pos as int));
                &&& (spec_parse_log(s@) is Some <==> cont is Some)
                &&& (cont matches Some(rest) ==> spec_parse_log(s@) == Some(
                    action_models(out@) + rest,
                ))
            }),
        decreases n - pos,
    {
        let ghost suffix = v@.skip(pos as int);
        let e = crate::data::find_char_in(&v, '\n', pos);
        proof {
            crate::data::lemma_find_char_shift(v@, '\n', pos as nat, pos as nat);
            assert(find_char(suffix, '\n', 0) == e - pos);
        }
        if e >= n {
            return None;
        }
        let act_opt = parse_action_line(&v, pos, e);
        proof {
            assert(suffix.take((e - pos) as int) =~= v@.subrange(pos as int, e as int));
        }
        match act_opt {
            None => {
                return None;
            },
            Some(act) => {
                let ghost prev_out = out@;
                out.push(act);
                proof {
                    assert(suffix.skip((e - pos) as int + 1) =~= v@.skip(e as int + 1));
                    assert(action_models(out@) =~= action_models(prev_out).push(act@));
                    match spec_parse_log(v@.skip(e as int + 1)) {
                        Some(rest) => {
                            assert(action_models(prev_out) + (seq![act@] + rest) =~= action_models(
                                out@,
                            ) + rest);
                        },
                        None => {},
                    }
                }
                pos = e + 1;
            },
        }
    }
    proof {
        assert(v@.skip(n as int) =~= Seq::<char>::empty());
        assert(spec_parse_log(Seq::<char>::empty()) == Some(Seq::<ActionModel>::empty()));
        assert(action_models(out@) + Seq::<ActionModel>::empty() =~= action_models(out@));
    }
    Some(out)
}

/// The character an escape pair stands for.
fn unesc_pair_char(c: char) -> (r: Option<char>)
    ensures
        r == unesc_pair(c),
{
    if c == '\\' {
        Some('\\')
    } else if c == '@' {
        Some('@')
    } else if c == ':' {
        Some(':')
    } else if c == 'n' {
        Some('\n')
    } else {
        None
    }
}

/// Reads an escaped field of the line `v[body_start..to]` from the absolute
/// position `start` up to the delimiter `d`: the decoded text and the
/// absolute position after the delimiter.
fn read_field(v: &Vec<char>, body_start: usize, start: usize, to: usize, d: char) -> (r: Option<
    (Vec<char>, usize),
>)
    requires
        body_start <= start <= to <= v@.len(),
    ensures
        ({
            let body = v@.subrange(body_start as int, to as int);
            let res = spec_read_field(body, start - body_start, d);
            &&& (r is Some <==> res is Some)
            &&& (r matches Some(p) ==> (res matches Some(q) && p.0@ == q.0 && p.1 - body_start
                == q.1 && body_start <= p.1 <= to))
        }),
{
    let ghost body = v@.subrange(body_start as int, to as int);
    let mut out: Vec<char> = Vec::new();
    let mut i = start;
    loop
        invariant
            body_start <= start <= i <= to <= v@.len(),
            body == v@.subrange(body_start as int, to as int),
            ({
                let full = spec_read_field(body, start - body_start, d);
                let rest = spec_read_field(body, i - body_start, d);
                &&& (full is Some <==> rest is Some)
                &&& (rest matches Some(q) ==> full == Some((out@ + q.0, q.1)))
            }),
        decreases to - i,
    {
        proof {
            if i < to {
                assert(body[i - body_start] == v@[i as int]);
            }
        }
        if i >= to {
            return None;
        }
        let c = v[i];
        if c == d {
            proof {
                assert(spec_read_field(body, i - body_start, d) == Some((
                    Seq::<char>::empty(),
                    i - body_start + 1,
                )));
                assert(out@ + Seq::<char>::empty() =~= out@);
            }
            return Some((out, i + 1));
        }
        if c == '\\' {
            if i + 1 >= to {
                proof {
                    if i + 1 < body.len() + body_start {
                    }
                }
                return None;
            }
            proof {
                assert(body[i + 1 - body_start] == v@[i as int + 1]);
            }
            match unesc_pair_char(v[i + 1]) {
                None => {
                    return None;
                },
                Some(ch) => {
                    out.push(ch);
                    proof {
                        match spec_read_field(body, i + 2 - body_start, d) {
                            Some(q) => {
                                assert(out@ + q.0 =~= out@.drop_last() + (seq![ch] + q.0));
                            },
                            None => {},
                        }
                    }
                    i = i + 2;
                },
            }
        } else if c == '@' || c == ':' || c == '\n' {
            return None;
        } else {
            out.push(c);
            proof {
                match spec_read_field(body, i + 1 - body_start, d) {
                    Some(q) => {
                        assert(out@ + q.0 =~= out@.drop_last() + (seq![c] + q.0));
                    },
                    None => {},
                }
            }
            i = i + 1;
        }
    }
}

/// Reads the record of one persisted line from `v[from..to]`.
fn parse_body(v: &Vec<char>, from: usize, to: usize) -> (r: Option<Record>)
    requires
        from <= to <= v@.len(),
    ensures
        ({
            let body = v@.subrange(from as int, to as int);
            &&& (r is Some <==> spec_parse_body(body) is Some)
            &&& (r matches Some(rec) ==> Some(rec@) == spec_parse_body(body))
        }),
{
    let ghost body = v@.subrange(from as int, to as int);
    match read_field(v, from, from, to, '@') {
        None => None,
        Some((fun_chars, j)) => match read_field(v, from, j, to, ':') {
            None => None,
            Some((file_chars, k)) => {
                proof {
                    assert(body.skip(k - from) =~= v@.subrange(k as int, to as int));
                }
                match crate::data::parse_usize(v, k, to) {
                    None => None,
                    Some(line) => {
                        let function = chars_to_string(&fun_chars);
                        let file = chars_to_string(&file_chars);
                        Some(Record { function, file, line })
                    },
                }
            },
        },
    }
}

/// Reads one persisted line `v[from..to]` as an edit.
fn parse_action_line(v: &Vec<char>, from: usize, to: usize) -> (r: Option<RecordAction>)
    requires
        from <= to <= v@.len(),
    ensures
        ({
            let line = v@.subrange(from as int, to as int);
            &&& (r is Some <==> spec_parse_action_line(line) is Some)
            &&& (r matches Some(a) ==> Some(a@) == spec_parse_action_line(line))
        }),
{
    let ghost line = v@.subrange(from as int, to as int);
    let rec_len: usize = 10;
    let del_len: usize = 7;
    if to - from >= rec_len && check_prefix_rec(v, from) {
        proof {
            assert(line.take(rec_len as int) =~= rec_prefix());
            assert(line.skip(rec_len as int) =~= v@.subrange(from as int + 10, to as int));
        }
        match parse_body(v, from + rec_len, to) {
            Some(rec) => Some(RecordAction::Recursive(rec)),
            None => None,
        }
    } else if to - from >= del_len && check_prefix_del(v, from) {
        proof {
            assert(line.len() < rec_prefix().len() || line.take(rec_prefix().len() as int)
                != rec_prefix());
            assert(line.take(del_len as int) =~= del_prefix());
            assert(line.skip(del_len as int) =~= v@.subrange(from as int + 7, to as int));
        }
        match parse_body(v, from + del_len, to) {
            Some(rec) => Some(RecordAction::Delete(rec)),
            None => None,
        }
    } else {
        proof {
            lemma_line_no_prefix(line, v@, from as int, to as int);
        }
        None
    }
}

/// When neither prefix check succeeded, the spec refuses the line too.
proof fn lemma_line_no_prefix(line: Seq<char>, v: Seq<char>, from: int, to: int)
    requires
        0 <= from <= to <= v.len(),
        line == v.subrange(from, to),
        !(to - from >= 10 && (forall|j: int|
            0 <= j < 10 ==> v[from + j] == rec_prefix()[j])),
        !(to - from >= 7 && (forall|j: int| 0 <= j < 7 ==> v[from + j] == del_prefix()[j])),
    ensures
        spec_parse_action_line(line) is None,
{
    if line.len() >= 10 && line.take(10) == rec_prefix() {
        assert(forall|j: int| 0 <= j < 10 ==> v[from + j] == line.take(10)[j]);
        assert(false);
    }
    if line.len() >= 7 && line.take(7) == del_prefix() {
        assert(forall|j: int| 0 <= j < 7 ==> v[from + j] == line.take(7)[j]);
        assert(false);
    }
}

/// The character at position `j` of the `Recursive` line prefix.
fn rec_prefix_char(j: usize) -> (c: char)
    requires
        j < 10,
    ensures
        c == rec_prefix()[j as int],
{
    match j {
        0 => 'r',
        1 => 'e',
        2 => 'c',
        3 => 'u',
        4 => 'r',
        5 => 's',
        6 => 'i',
        7 => 'v',
        8 => 'e',
        _ => ' ',
    }
}

/// Whether the ten characters at `from` spell the `Recursive` line prefix.
fn check_prefix_rec(v: &Vec<char>, from: usize) -> (b: bool)
    requires
        from + 10 <= v@.len(),
    ensures
        b == (forall|j: int| 0 <= j < 10 ==> v@[from + j] == rec_prefix()[j]),
{
    let _n = v.len();
    let mut j: usize = 0;
    while j < 10
        invariant
            j <= 10,
            from + 10 <= v@.len(),
            v@.len() <= usize::MAX,
            forall|k: int| 0 <= k < j ==> v@[from + k] == rec_prefix()[k],
        decreases 10 - j,
    {
        if v[from + j] != rec_prefix_char(j) {
            proof {
                assert(v@[from + j as int] != rec_prefix()[j as int]);
            }
            return false;
        }
        j = j + 1;
    }
    true
}

/// The character at position `j` of the `Delete` line prefix.
fn del_prefix_char(j: usize) -> (c: char)
    requires
        j < 7,
    ensures
        c == del_prefix()[j as int],
{
    match j {
        0 => 'd',
        1 => 'e',
        2 => 'l',
        3 => 'e',
        4 => 't',
        5 => 'e',
        _ => ' ',
    }
}

/// Whether the seven characters at `from` spell the `Delete` line prefix.
fn check_prefix_del(v: &Vec<char>, from: usize) -> (b: bool)
    requires
        from + 7 <= v@.len(),
    ensures
        b == (forall|j: int| 0 <= j < 7 ==> v@[from + j] == del_prefix()[j]),
{
    let _n = v.len();
    let mut j: usize = 0;
    while j < 7
        invariant
            j <= 7,
            from + 7 <= v@.len(),
            v@.len() <= usize::MAX,
            forall|k: int| 0 <= k < j ==> v@[from + k] == del_prefix()[k],
        decreases 7 - j,
    {
        if v[from + j] != del_prefix_char(j) {
            proof {
                assert(v@[from + j as int] != del_prefix()[j as int]);
            }
            return false;
        }
        j = j + 1;
    }
    true
}

} // verus!
