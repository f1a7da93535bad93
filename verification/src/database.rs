//! The statement executor: one mutable database, one parsed statement at a
//! time. Mutating statements leave notifications in an outbox that the
//! caller drains and fans out to subscribers; only select returns a view.

use vstd::prelude::*;

use crate::casing::{eq_fold, to_upper, upper_of};
use crate::error::Error;
use crate::evaluator::{
    err_abs, eval_matches, eval_s, lemma_outs_abs, outs_abs, CellsView, ErrAbs, EvalOut,
    Evaluator, OutAbs, OutColumn,
};
use crate::expression::Expression;
use crate::rowmap::seq_retain;
use crate::table::{
    cc_retain, defs_abs, defs_have_pk, next_rid, rows_abs, table_deleted,
    table_inserted, table_updated, true_keys, cols_truncated, ColumnDef, Literal,
    Table, TableAbs, UpdErr,
};
use crate::view::{out_names, view_rows, ResultView, ViewAbs};

verus! {

/// A parsed select statement: an optional source table, the projection
/// list, and the selection (filter) list.
#[derive(Debug)]
pub struct Select {
    pub from: Option<String>,
    pub projection: Vec<Expression>,
    pub selection: Vec<Expression>,
}

/// A parsed statement in the closed representation the executor consumes.
#[derive(Debug)]
pub enum Query {
    Select(Select),
    CreateTable { name: String, columns: Vec<ColumnDef> },
    Insert { table: String, columns: Vec<String>, sources: Vec<Vec<Literal>> },
    Update { table: String, assignments: Vec<(String, Literal)>, selection: Option<Expression> },
    Delete { table: String, selection: Option<Expression> },
    Truncate(String),
    Drop(String),
}

/// A post-mutation message for the caller to offer to subscribers of the
/// named table.
#[derive(Debug)]
pub enum Notification {
    Truncated { table: String },
    Updated { table: String, view: ResultView },
    Deleted { table: String, view: ResultView },
}

/// A notification, as the contracts speak of it.
pub enum NoteAbs {
    Truncated(Seq<char>),
    Updated(Seq<char>, ViewAbs),
    Deleted(Seq<char>, ViewAbs),
}

pub open spec fn note_abs(n: Notification) -> NoteAbs {
    match n {
        Notification::Truncated { table } => NoteAbs::Truncated(table@),
        Notification::Updated { table, view } => NoteAbs::Updated(table@, view.abs()),
        Notification::Deleted { table, view } => NoteAbs::Deleted(table@, view.abs()),
    }
}

pub open spec fn notes_abs(ns: Seq<Notification>) -> Seq<NoteAbs> {
    Seq::new(ns.len(), |i: int| note_abs(ns[i]))
}

/// The tables of a database, as the contracts speak of them.
pub open spec fn tbls_abs(ts: Seq<Table>) -> Seq<TableAbs>
    decreases ts.len(),
{
    if ts.len() == 0 {
        Seq::empty()
    } else {
        tbls_abs(ts.drop_last()).push(ts.last().abs())
    }
}

/// Length and elements of `tbls_abs`.
pub proof fn lemma_tbls_abs(ts: Seq<Table>)
    ensures
        tbls_abs(ts).len() == ts.len(),
        forall|l: int| 0 <= l < ts.len() ==> #[trigger] tbls_abs(ts)[l] == ts[l].abs(),
    decreases ts.len(),
{
    if ts.len() > 0 {
        lemma_tbls_abs(ts.drop_last());
        assert forall|l: int| 0 <= l < ts.len() implies #[trigger] tbls_abs(ts)[l] == ts[l].abs()
            by {
            if l < ts.len() - 1 {
                assert(ts.drop_last()[l] == ts[l]);
            }
        }
    }
}

/// The index of the first table whose name matches `name` up to case, or
/// -1 when none does.
pub open spec fn find_tbl(ts: Seq<TableAbs>, name: Seq<char>) -> int
    decreases ts.len(),
{
    if ts.len() == 0 {
        -1
    } else if eq_fold(ts[0].name, name) {
        0
    } else {
        let r = find_tbl(ts.drop_first(), name);
        if r == -1 {
            -1
        } else {
            r + 1
        }
    }
}

/// When the first `i` tables miss and table `i` matches, the find lands on
/// `i`.
pub proof fn lemma_find_tbl_found(ts: Seq<TableAbs>, name: Seq<char>, i: int)
    requires
        0 <= i < ts.len(),
        forall|j: int| 0 <= j < i ==> !eq_fold((#[trigger] ts[j]).name, name),
        eq_fold(ts[i].name, name),
    ensures
        find_tbl(ts, name) == i,
    decreases i,
{
    if i > 0 {
        assert forall|j: int| 0 <= j < i - 1 implies !eq_fold(
            (#[trigger] ts.drop_first()[j]).name,
            name,
        ) by {
            assert(ts.drop_first()[j] == ts[j + 1]);
        }
        assert(ts.drop_first()[i - 1] == ts[i]);
        lemma_find_tbl_found(ts.drop_first(), name, i - 1);
    }
}

/// When no table matches, the find reports -1.
pub proof fn lemma_find_tbl_missing(ts: Seq<TableAbs>, name: Seq<char>)
    requires
        forall|j: int| 0 <= j < ts.len() ==> !eq_fold((#[trigger] ts[j]).name, name),
    ensures
        find_tbl(ts, name) == -1,
    decreases ts.len(),
{
    if ts.len() > 0 {
        assert forall|j: int| 0 <= j < ts.drop_first().len() implies !eq_fold(
            (#[trigger] ts.drop_first()[j]).name,
            name,
        ) by {
            assert(ts.drop_first()[j] == ts[j + 1]);
        }
        lemma_find_tbl_missing(ts.drop_first(), name);
    }
}

/// A found index is in range and matches.
pub proof fn lemma_find_tbl_props(ts: Seq<TableAbs>, name: Seq<char>)
    ensures
        -1 <= find_tbl(ts, name) < ts.len(),
        find_tbl(ts, name) >= 0 ==> eq_fold(ts[find_tbl(ts, name)].name, name),
    decreases ts.len(),
{
    if ts.len() > 0 && !eq_fold(ts[0].name, name) {
        lemma_find_tbl_props(ts.drop_first(), name);
        let r = find_tbl(ts.drop_first(), name);
        if r >= 0 {
            assert(ts.drop_first()[r] == ts[r + 1]);
        }
    }
}

/// The tables kept by a drop statement: every table whose name does not
/// match.
pub open spec fn tbls_drop(ts: Seq<TableAbs>, name: Seq<char>) -> Seq<TableAbs>
    decreases ts.len(),
{
    if ts.len() == 0 {
        Seq::empty()
    } else {
        let rest = tbls_drop(ts.drop_last(), name);
        if eq_fold(ts.last().name, name) {
            rest
        } else {
            rest.push(ts.last())
        }
    }
}

/// Evaluating a list of expressions in order, concatenating their output
/// columns; with `skip_sentinel`, no-predicate sentinels are passed over.
pub open spec fn eval_list(t: Option<TableAbs>, exprs: Seq<Expression>, skip_sentinel: bool)
    -> EvalOut
    decreases exprs.len(),
{
    if exprs.len() == 0 {
        EvalOut::Cols(Seq::empty())
    } else {
        match eval_list(t, exprs.drop_last(), skip_sentinel) {
            EvalOut::Fail(f) => EvalOut::Fail(f),
            EvalOut::Cols(acc) => if skip_sentinel && exprs.last() is NoPredicate {
                EvalOut::Cols(acc)
            } else {
                match eval_s(t, exprs.last()) {
                    EvalOut::Fail(f) => EvalOut::Fail(f),
                    EvalOut::Cols(cs) => EvalOut::Cols(acc + cs),
                }
            },
        }
    }
}

/// Contents restricted to the given row ids.
pub open spec fn cv_retain(c: CellsView, keys: Seq<usize>) -> CellsView {
    match c {
        CellsView::Int(s) => CellsView::Int(seq_retain(s, keys)),
        CellsView::Str(s) => CellsView::Str(seq_retain(s, keys)),
        CellsView::Bool(s) => CellsView::Bool(seq_retain(s, keys)),
    }
}

/// One projected column filtered through each selection column in turn:
/// for every boolean selection column, a copy of the projected column
/// restricted to the row ids where the selection is true. A non-boolean
/// selection column is refused.
pub open spec fn cross_one(p: OutAbs, sels: Seq<OutAbs>) -> EvalOut
    decreases sels.len(),
{
    if sels.len() == 0 {
        EvalOut::Cols(Seq::empty())
    } else {
        match cross_one(p, sels.drop_last()) {
            EvalOut::Fail(f) => EvalOut::Fail(f),
            EvalOut::Cols(acc) => match sels.last().cells {
                CellsView::Bool(sb) => EvalOut::Cols(
                    acc.push(
                        OutAbs { name: p.name, cells: cv_retain(p.cells, true_keys(sb)) },
                    ),
                ),
                _ => EvalOut::Fail(ErrAbs::InvalidOperation),
            },
        }
    }
}

/// The cross product of projected columns and selection columns.
pub open spec fn cross_all(projs: Seq<OutAbs>, sels: Seq<OutAbs>) -> EvalOut
    decreases projs.len(),
{
    if projs.len() == 0 {
        EvalOut::Cols(Seq::empty())
    } else {
        match cross_all(projs.drop_last(), sels) {
            EvalOut::Fail(f) => EvalOut::Fail(f),
            EvalOut::Cols(acc) => match cross_one(projs.last(), sels) {
                EvalOut::Fail(f) => EvalOut::Fail(f),
                EvalOut::Cols(cs) => EvalOut::Cols(acc + cs),
            },
        }
    }
}

/// The columns a select statement yields: the projected columns as they
/// are when no selection column resulted, else the cross product.
pub open spec fn select_cols(t: Option<TableAbs>, sel: Seq<Expression>, proj: Seq<Expression>)
    -> EvalOut {
    match eval_list(t, sel, true) {
        EvalOut::Fail(f) => EvalOut::Fail(f),
        EvalOut::Cols(selcols) => match eval_list(t, proj, false) {
            EvalOut::Fail(f) => EvalOut::Fail(f),
            EvalOut::Cols(projcols) => if selcols.len() == 0 {
                EvalOut::Cols(projcols)
            } else {
                cross_all(projcols, selcols)
            },
        },
    }
}

/// The row-major view of a whole table.
pub open spec fn tbl_view(t: TableAbs) -> ViewAbs {
    ViewAbs {
        headers: out_names(crate::evaluator::cols_out(t.cols)),
        rows: view_rows(crate::evaluator::cols_out(t.cols)),
    }
}

/// What executing a statement yields: a view for select, appended
/// notifications, and the resulting tables — or a failure kind with the
/// tables as the failure left them.
pub enum ExecRes {
    Done(Option<ViewAbs>, Seq<NoteAbs>, Seq<TableAbs>),
    Fail(ErrAbs, Seq<TableAbs>),
}

/// What creating a table means: refused when the name is taken or no
/// definition marks a primary key; otherwise the new table, upper-cased
/// name, is appended.
pub open spec fn create_s(ts: Seq<TableAbs>, name: String, columns: Vec<ColumnDef>) -> ExecRes {
    if find_tbl(ts, name@) != -1 {
        ExecRes::Fail(ErrAbs::TableAlreadyExists(name@), ts)
    } else if !defs_have_pk(columns@) {
        ExecRes::Fail(ErrAbs::InvalidOperation, ts)
    } else {
        ExecRes::Done(
            None,
            Seq::empty(),
            ts.push(
                TableAbs { name: upper_of(name@), cols: defs_abs(columns@), pk: Seq::empty() },
            ),
        )
    }
}

/// What truncating a table means: its cells are dropped, its watermark and
/// primary-key index stay, and a truncation notice is emitted.
pub open spec fn truncate_s(ts: Seq<TableAbs>, name: String) -> ExecRes {
    let idx = find_tbl(ts, name@);
    if idx == -1 {
        ExecRes::Fail(ErrAbs::TableNotFound(name@), ts)
    } else {
        let t = ts[idx];
        let t2 = TableAbs { name: t.name, cols: cols_truncated(t.cols), pk: t.pk };
        ExecRes::Done(None, seq![NoteAbs::Truncated(name@)], ts.update(idx, t2))
    }
}

/// What a select means: the source table is resolved case-insensitively
/// (an unknown name simply binds no table), selections and projections are
/// evaluated, and the resulting columns are rendered into a view.
pub open spec fn select_statement_s(
    ts: Seq<TableAbs>,
    from: Option<String>,
    projection: Vec<Expression>,
    selection: Vec<Expression>,
) -> ExecRes {
    let bound = match from {
        None => None,
        Some(nm) => {
            let idx = find_tbl(ts, nm@);
            if idx == -1 {
                None
            } else {
                Some(ts[idx])
            }
        },
    };
    match select_cols(bound, selection@, projection@) {
        EvalOut::Fail(f) => ExecRes::Fail(f, ts),
        EvalOut::Cols(cols) => ExecRes::Done(
            Some(ViewAbs { headers: out_names(cols), rows: view_rows(cols) }),
            Seq::empty(),
            ts,
        ),
    }
}

/// What an insert means: rows go to the named table at fresh row ids, and
/// on success a view of the whole table is emitted. A failed insert keeps
/// what was already written.
pub open spec fn insert_s(
    ts: Seq<TableAbs>,
    table: String,
    columns: Vec<String>,
    sources: Vec<Vec<Literal>>,
) -> ExecRes {
    let idx = find_tbl(ts, table@);
    if idx == -1 {
        ExecRes::Fail(ErrAbs::TableNotFound(table@), ts)
    } else {
        let t = ts[idx];
        if sources@.len() + next_rid(t.cols) > usize::MAX {
            ExecRes::Fail(ErrAbs::InvalidOperation, ts)
        } else {
            let ins = table_inserted(t.cols, columns@, rows_abs(sources@));
            let t2 = TableAbs { name: t.name, cols: ins.0, pk: t.pk };
            if ins.1 {
                ExecRes::Done(
                    None,
                    seq![NoteAbs::Updated(t.name, tbl_view(t2))],
                    ts.update(idx, t2),
                )
            } else {
                ExecRes::Fail(ErrAbs::InvalidQuery, ts.update(idx, t2))
            }
        }
    }
}

/// What a drop means: every table of that name is removed; dropping an
/// unknown name is a silent no-op.
pub open spec fn drop_s(ts: Seq<TableAbs>, name: String) -> ExecRes {
    ExecRes::Done(None, Seq::empty(), tbls_drop(ts, name@))
}

/// What an update means: the filter must be present and evaluate to one
/// boolean column; its true rows are overwritten with the assigned
/// literals, and a view of the whole table is emitted.
pub open spec fn update_statement_s(
    ts: Seq<TableAbs>,
    table: String,
    assignments: Vec<(String, Literal)>,
    selection: Option<Expression>,
) -> ExecRes {
    let idx = find_tbl(ts, table@);
    if idx == -1 {
        ExecRes::Fail(ErrAbs::TableNotFound(table@), ts)
    } else {
        match selection {
            None => ExecRes::Fail(ErrAbs::Unsupported, ts),
            Some(filter) => {
                let t = ts[idx];
                match eval_s(Some(t), filter) {
                    EvalOut::Fail(f) => ExecRes::Fail(f, ts),
                    EvalOut::Cols(cols) => if cols.len() != 1 {
                        ExecRes::Fail(ErrAbs::InvalidOperation, ts)
                    } else {
                        match cols[0].cells {
                            CellsView::Bool(sb) => {
                                let upd = table_updated(t.cols, assignments@, true_keys(sb));
                                let t2 = TableAbs { name: t.name, cols: upd.0, pk: t.pk };
                                match upd.1 {
                                    None => ExecRes::Done(
                                        None,
                                        seq![NoteAbs::Updated(t.name, tbl_view(t2))],
                                        ts.update(idx, t2),
                                    ),
                                    Some(UpdErr::Pk) => ExecRes::Fail(
                                        ErrAbs::InvalidOperation,
                                        ts.update(idx, t2),
                                    ),
                                    Some(UpdErr::Type) => ExecRes::Fail(
                                        ErrAbs::InvalidOperation,
                                        ts.update(idx, t2),
                                    ),
                                }
                            },
                            _ => ExecRes::Fail(ErrAbs::InvalidOperation, ts),
                        }
                    },
                }
            },
        }
    }
}

/// What a delete means: with a filter, the rows where it is true leave
/// every column and the primary-key index, and a view is emitted; without
/// one, the table is truncated silently.
pub open spec fn delete_statement_s(
    ts: Seq<TableAbs>,
    table: String,
    selection: Option<Expression>,
) -> ExecRes {
    let idx = find_tbl(ts, table@);
    if idx == -1 {
        ExecRes::Fail(ErrAbs::TableNotFound(table@), ts)
    } else {
        let t = ts[idx];
        match selection {
            None => {
                let t2 = TableAbs { name: t.name, cols: cols_truncated(t.cols), pk: t.pk };
                ExecRes::Done(None, Seq::empty(), ts.update(idx, t2))
            },
            Some(filter) => match eval_s(Some(t), filter) {
                EvalOut::Fail(f) => ExecRes::Fail(f, ts),
                EvalOut::Cols(cols) => if cols.len() != 1 {
                    ExecRes::Fail(ErrAbs::InvalidOperation, ts)
                } else {
                    match cols[0].cells {
                        CellsView::Bool(sb) => {
                            let del = table_deleted(t.cols, t.pk, true_keys(sb));
                            let t2 = TableAbs { name: t.name, cols: del.0, pk: del.1 };
                            ExecRes::Done(
                                None,
                                seq![NoteAbs::Deleted(t.name, tbl_view(t2))],
                                ts.update(idx, t2),
                            )
                        },
                        _ => ExecRes::Fail(ErrAbs::InvalidOperation, ts),
                    }
                },
            },
        }
    }
}

/// What executing each statement kind means. This is the reference
/// semantics every run of the executor is held to.
pub open spec fn execute_s(ts: Seq<TableAbs>, q: Query) -> ExecRes {
    match q {
        Query::CreateTable { name, columns } => create_s(ts, name, columns),
        Query::Truncate(name) => truncate_s(ts, name),
        Query::Select(sel) => select_statement_s(ts, sel.from, sel.projection, sel.selection),
        Query::Insert { table, columns, sources } => insert_s(ts, table, columns, sources),
        Query::Drop(name) => drop_s(ts, name),
        Query::Update { table, assignments, selection } => update_statement_s(
            ts,
            table,
            assignments,
            selection,
        ),
        Query::Delete { table, selection } => delete_statement_s(ts, table, selection),
    }
}

/// The relation every run of the executor maintains between the state
/// before, the state after, the returned value, and the statement's
/// meaning.
pub open spec fn exec_post(
    pre: Database,
    post: Database,
    r: Result<Option<ResultView>, Error>,
    res: ExecRes,
) -> bool {
    post.wf() && match r {
        Ok(v) => res matches ExecRes::Done(vabs, notes, tbls) && post.tables_abs() == tbls && (
        match (v, vabs) {
            (Some(view), Some(va)) => view.abs() == va,
            (None, None) => true,
            _ => false,
        }) && post.outbox_abs() == pre.outbox_abs() + notes,
        Err(e) => res matches ExecRes::Fail(k, tbls) && k == err_abs(e) && post.tables_abs()
            == tbls && post.outbox_abs() == pre.outbox_abs(),
    }
}

/// The first table whose name matches, case-insensitively.
fn find_tbl_exec(tables: &Vec<Table>, name: &str) -> (r: Option<usize>)
    ensures
        match r {
            Some(i) => i < tables@.len() && find_tbl(tbls_abs(tables@), name@) == i,
            None => find_tbl(tbls_abs(tables@), name@) == -1,
        },
{
    let ghost ta = tbls_abs(tables@);
    proof {
        lemma_tbls_abs(tables@);
    }
    let n = tables.len();
    let mut i: usize = 0;
    while i < n
        invariant
            ta == tbls_abs(tables@),
            ta.len() == tables@.len(),
            forall|l: int| 0 <= l < tables@.len() ==> #[trigger] ta[l] == tables@[l].abs(),
            n == tables@.len(),
            0 <= i <= n,
            forall|j: int| 0 <= j < i ==> !eq_fold((#[trigger] ta[j]).name, name@),
        decreases n - i,
    {
        let hit = crate::casing::eq_ignore_case(tables[i].name.as_str(), name);
        if hit {
            proof {
                lemma_find_tbl_found(ta, name@, i as int);
            }
            return Some(i);
        }
        i += 1;
    }
    proof {
        lemma_find_tbl_missing(ta, name@);
    }
    None
}

/// Output abstraction distributes over concatenation.
proof fn lemma_outs_abs_concat(a: Seq<OutColumn>, b: Seq<OutColumn>)
    ensures
        outs_abs(a + b) == outs_abs(a) + outs_abs(b),
{
    lemma_outs_abs(a);
    lemma_outs_abs(b);
    lemma_outs_abs(a + b);
    assert(outs_abs(a + b) =~= outs_abs(a) + outs_abs(b));
}

/// A failed prefix decides the whole list evaluation.
proof fn lemma_eval_list_fail_persists(
    t: Option<TableAbs>,
    es: Seq<Expression>,
    skip: bool,
    i0: int,
    i1: int,
)
    requires
        0 <= i0 <= i1 <= es.len(),
        eval_list(t, es.take(i0), skip) is Fail,
    ensures
        eval_list(t, es.take(i1), skip) == eval_list(t, es.take(i0), skip),
    decreases i1 - i0,
{
    if i1 > i0 {
        lemma_eval_list_fail_persists(t, es, skip, i0, i1 - 1);
        assert(es.take(i1).drop_last() =~= es.take(i1 - 1));
    }
}

/// Evaluate a list of expressions in order, concatenating the outputs.
fn eval_list_exec(table: Option<&Table>, exprs: Vec<Expression>, skip_sentinel: bool) -> (r:
    Result<Vec<OutColumn>, Error>)
    requires
        crate::evaluator::opt_wf(table),
    ensures
        eval_matches(eval_list(crate::evaluator::opt_abs(table), exprs@, skip_sentinel), r),
{
    let ghost t = crate::evaluator::opt_abs(table);
    let ghost es = exprs@;
    let mut rem = exprs;
    let mut out: Vec<OutColumn> = Vec::new();
    let ghost mut i: int = 0;
    while rem.len() > 0
        invariant
            crate::evaluator::opt_wf(table),
            t == crate::evaluator::opt_abs(table),
            es == exprs@,
            0 <= i <= es.len(),
            rem@ == es.skip(i),
            eval_list(t, es.take(i), skip_sentinel) == EvalOut::Cols(outs_abs(out@)),
            forall|l: int| 0 <= l < out@.len() ==> (#[trigger] out@[l]).wf(),
        decreases rem@.len(),
    {
        let e = rem.remove(0);
        proof {
            assert(e == es.skip(i)[0]);
            assert(e == es[i]);
            assert(rem@ =~= es.skip(i + 1));
            assert(es.take(i + 1).drop_last() =~= es.take(i));
            assert(es.take(i + 1).last() == es[i]);
        }
        let is_sentinel = match &e {
            Expression::NoPredicate => true,
            _ => false,
        };
        if skip_sentinel && is_sentinel {
            proof {
                i = i + 1;
            }
        } else {
            let eres = Evaluator::eval(table, e);
            match eres {
                Err(er) => {
                    proof {
                        lemma_eval_list_fail_persists(t, es, skip_sentinel, i + 1, es.len() as int);
                        assert(es.take(es.len() as int) =~= es);
                    }
                    return Err(er);
                },
                Ok(mut cs) => {
                    let ghost prev = out@;
                    let ghost csg = cs@;
                    out.append(&mut cs);
                    proof {
                        assert(out@ == prev + csg);
                        lemma_outs_abs_concat(prev, csg);
                        lemma_outs_abs(prev);
                        lemma_outs_abs(csg);
                        assert forall|l: int| 0 <= l < out@.len() implies (#[trigger] out@[
                            l]).wf() by {
                            if l < prev.len() {
                                assert(out@[l] == prev[l]);
                            } else {
                                assert(out@[l] == csg[l - prev.len()]);
                            }
                        }
                        i = i + 1;
                    }
                },
            }
        }
    }
    proof {
        assert(es.take(i) =~= es);
    }
    Ok(out)
}

/// String views commute with key retention.
proof fn lemma_str_views_retain(s: Seq<(usize, String)>, keys: Seq<usize>)
    ensures
        crate::evaluator::str_views(seq_retain(s, keys)) == seq_retain(
            crate::evaluator::str_views(s),
            keys,
        ),
    decreases s.len(),
{
    let sv = crate::evaluator::str_views(s);
    if s.len() == 0 {
        assert(crate::evaluator::str_views(seq_retain(s, keys)) =~= seq_retain(sv, keys));
    } else {
        lemma_str_views_retain(s.drop_first(), keys);
        assert(sv[0] == (s[0].0, s[0].1@));
        assert(sv.drop_first() =~= crate::evaluator::str_views(s.drop_first()));
        if keys.contains(s[0].0) {
            assert(crate::evaluator::str_views(seq_retain(s, keys)) =~= seq_retain(sv, keys)) by {
                assert(seq_retain(s, keys) =~= seq![s[0]] + seq_retain(s.drop_first(), keys));
                assert(seq_retain(sv, keys) =~= seq![sv[0]] + seq_retain(sv.drop_first(), keys));
            }
        } else {
            assert(crate::evaluator::str_views(seq_retain(s, keys)) =~= seq_retain(sv, keys)) by {
                assert(seq_retain(sv, keys) =~= seq_retain(sv.drop_first(), keys));
            }
        }
    }
}

/// Stored retention equals view-level retention.
proof fn lemma_view_retain(c: crate::table::ColCells, keys: Seq<usize>)
    ensures
        crate::evaluator::cc_view(cc_retain(c, keys)) == cv_retain(
            crate::evaluator::cc_view(c),
            keys,
        ),
{
    match c {
        crate::table::ColCells::Str(s) => lemma_str_views_retain(s, keys),
        _ => (),
    }
}

/// A failed prefix decides the whole cross product of one column.
proof fn lemma_cross_one_fail_persists(p: OutAbs, sels: Seq<OutAbs>, i0: int, i1: int)
    requires
        0 <= i0 <= i1 <= sels.len(),
        cross_one(p, sels.take(i0)) is Fail,
    ensures
        cross_one(p, sels.take(i1)) == cross_one(p, sels.take(i0)),
    decreases i1 - i0,
{
    if i1 > i0 {
        lemma_cross_one_fail_persists(p, sels, i0, i1 - 1);
        assert(sels.take(i1).drop_last() =~= sels.take(i1 - 1));
    }
}

/// A failed prefix decides the whole cross product.
proof fn lemma_cross_all_fail_persists(projs: Seq<OutAbs>, sels: Seq<OutAbs>, i0: int, i1: int)
    requires
        0 <= i0 <= i1 <= projs.len(),
        cross_all(projs.take(i0), sels) is Fail,
    ensures
        cross_all(projs.take(i1), sels) == cross_all(projs.take(i0), sels),
    decreases i1 - i0,
{
    if i1 > i0 {
        lemma_cross_all_fail_persists(projs, sels, i0, i1 - 1);
        assert(projs.take(i1).drop_last() =~= projs.take(i1 - 1));
    }
}

/// For every pair of a projected and a selection column, the projected
/// column restricted to the rows where the selection is true.
fn cross_exec(projected: Vec<OutColumn>, selected: &Vec<OutColumn>) -> (r: Result<
    Vec<OutColumn>,
    Error,
>)
    requires
        forall|l: int| 0 <= l < projected@.len() ==> (#[trigger] projected@[l]).wf(),
        forall|l: int| 0 <= l < selected@.len() ==> (#[trigger] selected@[l]).wf(),
    ensures
        eval_matches(cross_all(outs_abs(projected@), outs_abs(selected@)), r),
{
    let ghost pa = outs_abs(projected@);
    let ghost sa = outs_abs(selected@);
    proof {
        lemma_outs_abs(projected@);
        lemma_outs_abs(selected@);
    }
    let mut rem = projected;
    let mut out: Vec<OutColumn> = Vec::new();
    let ghost mut pi: int = 0;
    let nsel = selected.len();
    while rem.len() > 0
        invariant
            forall|l: int| 0 <= l < projected@.len() ==> (#[trigger] projected@[l]).wf(),
            forall|l: int| 0 <= l < selected@.len() ==> (#[trigger] selected@[l]).wf(),
            pa == outs_abs(projected@),
            sa == outs_abs(selected@),
            pa.len() == projected@.len(),
            sa.len() == selected@.len(),
            forall|l: int| 0 <= l < projected@.len() ==> #[trigger] pa[l] == projected@[l].abs(),
            forall|l: int| 0 <= l < selected@.len() ==> #[trigger] sa[l] == selected@[l].abs(),
            nsel == selected@.len(),
            0 <= pi <= pa.len(),
            rem@ == projected@.skip(pi),
            cross_all(pa.take(pi), sa) == EvalOut::Cols(outs_abs(out@)),
            forall|l: int| 0 <= l < out@.len() ==> (#[trigger] out@[l]).wf(),
        decreases rem@.len(),
    {
        let p = rem.remove(0);
        proof {
            assert(p == projected@.skip(pi)[0]);
            assert(p == projected@[pi]);
            assert(rem@ =~= projected@.skip(pi + 1));
            assert(pa.take(pi + 1).drop_last() =~= pa.take(pi));
            assert(pa.take(pi + 1).last() == pa[pi]);
        }
        let ghost pabs = p.abs();
        let mut j: usize = 0;
        let mut mine: Vec<OutColumn> = Vec::new();
        while j < nsel
            invariant
                forall|l: int| 0 <= l < selected@.len() ==> (#[trigger] selected@[l]).wf(),
                sa == outs_abs(selected@),
                sa.len() == selected@.len(),
                forall|l: int| 0 <= l < selected@.len() ==> #[trigger] sa[l] == selected@[
                    l].abs(),
                nsel == selected@.len(),
                0 <= j <= nsel,
                pabs == p.abs(),
                p.wf(),
                pa == outs_abs(projected@),
                0 <= pi < pa.len(),
                pa[pi] == pabs,
                cross_all(pa.take(pi), sa) is Cols,
                cross_one(pabs, sa.take(j as int)) == EvalOut::Cols(outs_abs(mine@)),
                forall|l: int| 0 <= l < mine@.len() ==> (#[trigger] mine@[l]).wf(),
            decreases nsel - j,
        {
            proof {
                assert(sa.take(j + 1).drop_last() =~= sa.take(j as int));
                assert(sa.take(j + 1).last() == sa[j as int]);
            }
            let keys = selected[j].data.keys_where_true();
            match keys {
                Err(e) => {
                    proof {
                        assert(cross_one(pabs, sa.take(j + 1)) == EvalOut::Fail(
                            ErrAbs::InvalidOperation,
                        ));
                        lemma_cross_one_fail_persists(pabs, sa, j + 1, sa.len() as int);
                        assert(sa.take(sa.len() as int) =~= sa);
                        assert(pa.take(pi + 1).drop_last() =~= pa.take(pi));
                        assert(pa.take(pi + 1).last() == pa[pi]);
                        assert(cross_all(pa.take(pi + 1), sa) == EvalOut::Fail(
                            ErrAbs::InvalidOperation,
                        ));
                        lemma_cross_all_fail_persists(pa, sa, pi + 1, pa.len() as int);
                        assert(pa.take(pa.len() as int) =~= pa);
                    }
                    return Err(e);
                },
                Ok(ks) => {
                    let mut d = p.data.clone();
                    d.retain_keys(&ks);
                    proof {
                        lemma_view_retain(p.data.cells(), ks@);
                    }
                    let ghost prevm = mine@;
                    mine.push(OutColumn { name: p.name.clone(), data: d });
                    proof {
                        lemma_outs_abs(prevm);
                        lemma_outs_abs(mine@);
                        assert(mine@.drop_last() =~= prevm);
                        assert(outs_abs(mine@) =~= outs_abs(prevm).push(
                            mine@.last().abs(),
                        ));
                    }
                    j += 1;
                },
            }
        }
        proof {
            assert(sa.take(nsel as int) =~= sa);
        }
        let ghost prev = out@;
        let ghost mg = mine@;
        out.append(&mut mine);
        proof {
            assert(out@ == prev + mg);
            lemma_outs_abs_concat(prev, mg);
            lemma_outs_abs(prev);
            lemma_outs_abs(mg);
            assert forall|l: int| 0 <= l < out@.len() implies (#[trigger] out@[l]).wf() by {
                if l < prev.len() {
                    assert(out@[l] == prev[l]);
                } else {
                    assert(out@[l] == mg[l - prev.len()]);
                }
            }
            pi = pi + 1;
        }
    }
    proof {
        assert(pa.take(pi) =~= pa);
    }
    Ok(out)
}

/// The row-major view of a whole table.
fn view_of_table(t: &Table) -> (r: ResultView)
    requires
        t.wf(),
    ensures
        r.abs() == tbl_view(t.abs()),
{
    let cols = crate::evaluator::all_out_columns(t);
    ResultView::new(cols)
}

/// The in-memory database: an ordered list of tables, and an outbox of
/// notifications for the caller to drain after each mutating statement.
#[derive(Debug)]
pub struct Database {
    tables: Vec<Table>,
    outbox: Vec<Notification>,
}

impl Database {
    /// The tables, as the contracts speak of them.
    pub closed spec fn tables_abs(&self) -> Seq<TableAbs> {
        tbls_abs(self.tables@)
    }

    /// The pending notifications, as the contracts speak of them.
    pub closed spec fn outbox_abs(&self) -> Seq<NoteAbs> {
        notes_abs(self.outbox@)
    }

    /// Every table is well formed.
    pub closed spec fn wf(&self) -> bool {
        forall|i: int| 0 <= i < self.tables@.len() ==> (#[trigger] self.tables@[i]).wf()
    }

    /// An empty database.
    pub fn new() -> (r: Database)
        ensures
            r.wf(),
            r.tables_abs() == Seq::<TableAbs>::empty(),
            r.outbox_abs() == Seq::<NoteAbs>::empty(),
    {
        let r = Database { tables: Vec::new(), outbox: Vec::new() };
        proof {
            assert(r.outbox_abs() =~= Seq::<NoteAbs>::empty());
        }
        r
    }

    /// The tables, oldest first.
    pub fn tables(&self) -> (r: &Vec<Table>)
        ensures
            tbls_abs(r@) == self.tables_abs(),
    {
        &self.tables
    }

    /// A database holding exactly the given tables, with an empty outbox.
    pub fn from_tables(tables: Vec<Table>) -> (r: Database)
        requires
            forall|i: int| 0 <= i < tables@.len() ==> (#[trigger] tables@[i]).wf(),
        ensures
            r.wf(),
            r.tables_abs() == tbls_abs(tables@),
            r.outbox_abs() == Seq::<NoteAbs>::empty(),
    {
        let r = Database { tables, outbox: Vec::new() };
        proof {
            assert(r.outbox_abs() =~= Seq::<NoteAbs>::empty());
        }
        r
    }

    /// Drain the outbox: the caller takes the pending notifications, in
    /// the order the statements produced them.
    pub fn take_notifications(&mut self) -> (r: Vec<Notification>)
        ensures
            notes_abs(r@) == old(self).outbox_abs(),
            final(self).outbox_abs() == Seq::<NoteAbs>::empty(),
            final(self).tables_abs() == old(self).tables_abs(),
            final(self).wf() == old(self).wf(),
    {
        let ghost orig = self.outbox@;
        let mut out: Vec<Notification> = Vec::new();
        let ghost mut i: int = 0;
        while self.outbox.len() > 0
            invariant
                orig == old(self).outbox@,
                self.tables@ == old(self).tables@,
                0 <= i <= orig.len(),
                self.outbox@ == orig.skip(i),
                out@ == orig.take(i),
            decreases self.outbox@.len(),
        {
            let n = self.outbox.remove(0);
            proof {
                assert(n == orig.skip(i)[0]);
                assert(n == orig[i]);
                assert(self.outbox@ =~= orig.skip(i + 1));
            }
            out.push(n);
            proof {
                assert(out@ =~= orig.take(i + 1));
                i = i + 1;
            }
        }
        proof {
            assert(orig.take(i) =~= orig);
            assert(notes_abs(self.outbox@) =~= Seq::<NoteAbs>::empty());
        }
        out
    }

    /// Execute one parsed statement against the database: resolve the
    /// target tables, evaluate filters and projections, mutate or read the
    /// column store, and leave post-mutation notifications in the outbox.
    /// Only a select yields a view.
    pub fn execute(&mut self, query: Query) -> (r: Result<Option<ResultView>, Error>)
        requires
            old(self).wf(),
        ensures
            final(self).wf(),
            exec_post(*old(self), *final(self), r, execute_s(old(self).tables_abs(), query)),
    {
        match query {
            Query::CreateTable { name, columns } => self.exec_create(name, columns),
            Query::Truncate(name) => self.exec_truncate(name),
            Query::Select(sel) => {
                let Select { from, projection, selection } = sel;
                self.exec_select(from, projection, selection)
            },
            Query::Insert { table, columns, sources } => self.exec_insert(table, columns, sources),
            Query::Drop(name) => self.exec_drop(name),
            Query::Update { table, assignments, selection } => self.exec_update(
                table,
                assignments,
                selection,
            ),
            Query::Delete { table, selection } => self.exec_delete(table, selection),
        }
    }

    #[verifier::rlimit(50)]
    fn exec_create(&mut self, name: String, columns: Vec<ColumnDef>) -> (r: Result<Option<ResultView>, Error>)
        requires
            old(self).wf(),
        ensures
            exec_post(*old(self), *final(self), r, create_s(old(self).tables_abs(), name, columns)),
    {
        let ghost ts0 = self.tables_abs();
        proof {
            lemma_tbls_abs(self.tables@);
        }
        let found = find_tbl_exec(&self.tables, name.as_str());
        match found {
            Some(_) => Err(Error::TableAlreadyExists(name)),
            None => {
                let upper = to_upper(name.as_str());
                let created = Table::new(upper, columns);
                match created {
                    Err(e) => Err(e),
                    Ok(t) => {
                        let ghost prev = self.tables@;
                        self.tables.push(t);
                        proof {
                            lemma_tbls_abs(prev);
                            lemma_tbls_abs(self.tables@);
                            assert(self.tables@.drop_last() =~= prev);
                            assert(tbls_abs(self.tables@) =~= ts0.push(
                                TableAbs {
                                    name: upper_of(name@),
                                    cols: defs_abs(columns@),
                                    pk: Seq::empty(),
                                },
                            ));
                            assert forall|l: int|
                                0 <= l < self.tables@.len() implies (#[trigger]
                            self.tables@[l]).wf() by {
                                if l < prev.len() {
                                    assert(self.tables@[l] == prev[l]);
                                }
                            }
                            assert(notes_abs(self.outbox@) =~= notes_abs(self.outbox@)
                                + Seq::<NoteAbs>::empty());
                        }
                        Ok(None)
                    },
                }
            },
        }
    }

    #[verifier::rlimit(50)]
    fn exec_truncate(&mut self, name: String) -> (r: Result<Option<ResultView>, Error>)
        requires
            old(self).wf(),
        ensures
            exec_post(*old(self), *final(self), r, truncate_s(old(self).tables_abs(), name)),
    {
        let ghost ts0 = self.tables_abs();
        proof {
            lemma_tbls_abs(self.tables@);
        }
        let found = find_tbl_exec(&self.tables, name.as_str());
        match found {
            None => Err(Error::TableNotFound(name)),
            Some(i) => {
                let ghost prev = self.tables@;
                let mut t = self.tables.remove(i);
                proof {
                    assert(t == prev[i as int]);
                    assert(t.wf());
                }
                t.truncate();
                self.tables.insert(i, t);
                proof {
                    lemma_tbls_abs(prev);
                    lemma_tbls_abs(self.tables@);
                    assert(self.tables@ =~= prev.update(i as int, t));
                    assert(tbls_abs(self.tables@) =~= ts0.update(
                        i as int,
                        TableAbs {
                            name: ts0[i as int].name,
                            cols: cols_truncated(ts0[i as int].cols),
                            pk: ts0[i as int].pk,
                        },
                    ));
                    assert forall|l: int| 0 <= l < self.tables@.len() implies (#[trigger]
                    self.tables@[l]).wf() by {
                        if l != i as int {
                            assert(self.tables@[l] == prev[l]);
                        }
                    }
                }
                let ghost ob_prev = self.outbox@;
                self.outbox.push(Notification::Truncated { table: name });
                proof {
                    assert(notes_abs(self.outbox@) =~= notes_abs(ob_prev) + seq![
                        NoteAbs::Truncated(name@),
                    ]);
                }
                Ok(None)
            },
        }
    }

    #[verifier::rlimit(50)]
    fn exec_insert(&mut self, table: String, columns: Vec<String>, sources: Vec<Vec<Literal>>) -> (r: Result<Option<ResultView>, Error>)
        requires
            old(self).wf(),
        ensures
            exec_post(*old(self), *final(self), r, insert_s(old(self).tables_abs(), table, columns, sources)),
    {
        let ghost ts0 = self.tables_abs();
        proof {
            lemma_tbls_abs(self.tables@);
        }
        let found = find_tbl_exec(&self.tables, table.as_str());
        match found {
            None => Err(Error::TableNotFound(table)),
            Some(i) => {
                let ghost prev = self.tables@;
                let mut t = self.tables.remove(i);
                proof {
                    assert(t == prev[i as int]);
                    assert(t.wf());
                }
                let ghost t0abs = t.abs();
                let res = t.insert(columns, sources);
                match res {
                    Ok(()) => {
                        let view = view_of_table(&t);
                        let stored = t.name.clone();
                        let ghost t2abs = t.abs();
                        self.tables.insert(i, t);
                        proof {
                            lemma_tbls_abs(prev);
                            lemma_tbls_abs(self.tables@);
                            assert(self.tables@ =~= prev.update(i as int, t));
                            assert(tbls_abs(self.tables@) =~= ts0.update(
                                i as int,
                                t2abs,
                            ));
                            assert forall|l: int|
                                0 <= l < self.tables@.len() implies (#[trigger]
                            self.tables@[l]).wf() by {
                                if l != i as int {
                                    assert(self.tables@[l] == prev[l]);
                                }
                            }
                        }
                        let ghost ob_prev = self.outbox@;
                        self.outbox.push(
                            Notification::Updated { table: stored, view },
                        );
                        proof {
                            assert(notes_abs(self.outbox@) =~= notes_abs(ob_prev) + seq![
                                NoteAbs::Updated(t2abs.name, tbl_view(t2abs)),
                            ]);
                        }
                        Ok(None)
                    },
                    Err(e) => {
                        let ghost t2abs = t.abs();
                        self.tables.insert(i, t);
                        proof {
                            lemma_tbls_abs(prev);
                            lemma_tbls_abs(self.tables@);
                            assert(self.tables@ =~= prev.update(i as int, t));
                            assert(tbls_abs(self.tables@) =~= ts0.update(
                                i as int,
                                t2abs,
                            ));
                            if e is InvalidOperation {
                                assert(t2abs == t0abs);
                                assert(tbls_abs(self.tables@) =~= ts0);
                            }
                            assert forall|l: int|
                                0 <= l < self.tables@.len() implies (#[trigger]
                            self.tables@[l]).wf() by {
                                if l != i as int {
                                    assert(self.tables@[l] == prev[l]);
                                }
                            }
                        }
                        Err(e)
                    },
                }
            },
        }
    }

    #[verifier::rlimit(50)]
    fn exec_drop(&mut self, name: String) -> (r: Result<Option<ResultView>, Error>)
        requires
            old(self).wf(),
        ensures
            exec_post(*old(self), *final(self), r, drop_s(old(self).tables_abs(), name)),
    {
        let ghost ts0 = self.tables_abs();
        proof {
            lemma_tbls_abs(self.tables@);
        }
        let ghost orig = self.tables@;
        let mut kept: Vec<Table> = Vec::new();
        let ghost mut i: int = 0;
        while self.tables.len() > 0
            invariant
                orig == old(self).tables@,
                self.outbox@ == old(self).outbox@,
                forall|l: int| 0 <= l < orig.len() ==> (#[trigger] orig[l]).wf(),
                0 <= i <= orig.len(),
                self.tables@ == orig.skip(i),
                tbls_abs(kept@) == tbls_drop(tbls_abs(orig).take(i), name@),
                forall|l: int| 0 <= l < kept@.len() ==> (#[trigger] kept@[l]).wf(),
            decreases self.tables@.len(),
        {
            let t = self.tables.remove(0);
            proof {
                lemma_tbls_abs(orig);
                assert(t == orig.skip(i)[0]);
                assert(t == orig[i]);
                assert(self.tables@ =~= orig.skip(i + 1));
                assert(tbls_abs(orig).take(i + 1).drop_last() =~= tbls_abs(orig).take(
                    i,
                ));
                assert(tbls_abs(orig).take(i + 1).last() == tbls_abs(orig)[i]);
            }
            let keep_it = !crate::casing::eq_ignore_case(t.name.as_str(), name.as_str());
            if keep_it {
                let ghost kp = kept@;
                kept.push(t);
                proof {
                    lemma_tbls_abs(kp);
                    lemma_tbls_abs(kept@);
                    assert(kept@.drop_last() =~= kp);
                    assert(tbls_abs(kept@) =~= tbls_abs(kp).push(kept@.last().abs()));
                    assert forall|l: int| 0 <= l < kept@.len() implies (#[trigger] kept@[
                        l]).wf() by {
                        if l < kp.len() {
                            assert(kept@[l] == kp[l]);
                        }
                    }
                }
            }
            proof {
                i = i + 1;
            }
        }
        proof {
            assert(tbls_abs(orig).take(i) =~= tbls_abs(orig));
            lemma_tbls_abs(orig);
        }
        self.tables = kept;
        proof {
            assert(notes_abs(self.outbox@) =~= notes_abs(self.outbox@)
                + Seq::<NoteAbs>::empty());
        }
        Ok(None)
    }

    #[verifier::rlimit(50)]
    fn exec_update(&mut self, table: String, assignments: Vec<(String, Literal)>, selection: Option<Expression>) -> (r: Result<Option<ResultView>, Error>)
        requires
            old(self).wf(),
        ensures
            exec_post(*old(self), *final(self), r, update_statement_s(old(self).tables_abs(), table, assignments, selection)),
    {
        let ghost ts0 = self.tables_abs();
        proof {
            lemma_tbls_abs(self.tables@);
        }
        let found = find_tbl_exec(&self.tables, table.as_str());
        match found {
            None => Err(Error::TableNotFound(table)),
            Some(i) => {
                let filter = match selection {
                    Some(f) => f,
                    None => {
                        return Err(
                            Error::Unsupported("update without selection (where)".to_owned()),
                        );
                    },
                };
                let ghost prev = self.tables@;
                let mut t = self.tables.remove(i);
                proof {
                    assert(t == prev[i as int]);
                    assert(t.wf());
                }
                let ghost t0abs = t.abs();
                let eres = Evaluator::eval(Some(&t), filter);
                let cols = match eres {
                    Err(e) => {
                        self.tables.insert(i, t);
                        proof {
                            assert(self.tables@ =~= prev);
                        }
                        return Err(e);
                    },
                    Ok(c) => c,
                };
                proof {
                    lemma_outs_abs(cols@);
                }
                if cols.len() != 1 {
                    self.tables.insert(i, t);
                    proof {
                        assert(self.tables@ =~= prev);
                    }
                    return Err(
                        Error::InvalidOperation(
                            "more than one column found in selection".to_owned(),
                        ),
                    );
                }
                let keysres = cols[0].data.keys_where_true();
                let keys = match keysres {
                    Err(e) => {
                        self.tables.insert(i, t);
                        proof {
                            assert(self.tables@ =~= prev);
                        }
                        return Err(e);
                    },
                    Ok(k) => k,
                };
                let ures = t.update(assignments, keys);
                let ghost t2abs = t.abs();
                match ures {
                    Ok(()) => {
                        let view = view_of_table(&t);
                        let stored = t.name.clone();
                        self.tables.insert(i, t);
                        proof {
                            lemma_tbls_abs(prev);
                            lemma_tbls_abs(self.tables@);
                            assert(self.tables@ =~= prev.update(i as int, t));
                            assert(tbls_abs(self.tables@) =~= ts0.update(
                                i as int,
                                t2abs,
                            ));
                            assert forall|l: int|
                                0 <= l < self.tables@.len() implies (#[trigger]
                            self.tables@[l]).wf() by {
                                if l != i as int {
                                    assert(self.tables@[l] == prev[l]);
                                }
                            }
                        }
                        let ghost ob_prev = self.outbox@;
                        self.outbox.push(
                            Notification::Updated { table: stored, view },
                        );
                        proof {
                            assert(notes_abs(self.outbox@) =~= notes_abs(ob_prev) + seq![
                                NoteAbs::Updated(t2abs.name, tbl_view(t2abs)),
                            ]);
                        }
                        Ok(None)
                    },
                    Err(e) => {
                        self.tables.insert(i, t);
                        proof {
                            lemma_tbls_abs(prev);
                            lemma_tbls_abs(self.tables@);
                            assert(self.tables@ =~= prev.update(i as int, t));
                            assert(tbls_abs(self.tables@) =~= ts0.update(
                                i as int,
                                t2abs,
                            ));
                            assert forall|l: int|
                                0 <= l < self.tables@.len() implies (#[trigger]
                            self.tables@[l]).wf() by {
                                if l != i as int {
                                    assert(self.tables@[l] == prev[l]);
                                }
                            }
                        }
                        Err(e)
                    },
                }
            },
        }
    }

    #[verifier::rlimit(50)]
    fn exec_delete(&mut self, table: String, selection: Option<Expression>) -> (r: Result<Option<ResultView>, Error>)
        requires
            old(self).wf(),
        ensures
            exec_post(*old(self), *final(self), r, delete_statement_s(old(self).tables_abs(), table, selection)),
    {
        let ghost ts0 = self.tables_abs();
        proof {
            lemma_tbls_abs(self.tables@);
        }
        let found = find_tbl_exec(&self.tables, table.as_str());
        match found {
            None => Err(Error::TableNotFound(table)),
            Some(i) => {
                let ghost prev = self.tables@;
                match selection {
                    None => {
                        let mut t = self.tables.remove(i);
                        proof {
                            assert(t == prev[i as int]);
                            assert(t.wf());
                        }
                        t.truncate();
                        self.tables.insert(i, t);
                        proof {
                            lemma_tbls_abs(prev);
                            lemma_tbls_abs(self.tables@);
                            assert(self.tables@ =~= prev.update(i as int, t));
                            assert(tbls_abs(self.tables@) =~= ts0.update(
                                i as int,
                                TableAbs {
                                    name: ts0[i as int].name,
                                    cols: cols_truncated(ts0[i as int].cols),
                                    pk: ts0[i as int].pk,
                                },
                            ));
                            assert forall|l: int|
                                0 <= l < self.tables@.len() implies (#[trigger]
                            self.tables@[l]).wf() by {
                                if l != i as int {
                                    assert(self.tables@[l] == prev[l]);
                                }
                            }
                            assert(notes_abs(self.outbox@) =~= notes_abs(self.outbox@)
                                + Seq::<NoteAbs>::empty());
                        }
                        Ok(None)
                    },
                    Some(filter) => {
                        let mut t = self.tables.remove(i);
                        proof {
                            assert(t == prev[i as int]);
                            assert(t.wf());
                        }
                        let eres = Evaluator::eval(Some(&t), filter);
                        let cols = match eres {
                            Err(e) => {
                                self.tables.insert(i, t);
                                proof {
                                    assert(self.tables@ =~= prev);
                                }
                                return Err(e);
                            },
                            Ok(c) => c,
                        };
                        proof {
                            lemma_outs_abs(cols@);
                        }
                        if cols.len() != 1 {
                            self.tables.insert(i, t);
                            proof {
                                assert(self.tables@ =~= prev);
                            }
                            return Err(
                                Error::InvalidOperation(
                                    "more than one column found in selection".to_owned(),
                                ),
                            );
                        }
                        let keysres = cols[0].data.keys_where_true();
                        let keys = match keysres {
                            Err(e) => {
                                self.tables.insert(i, t);
                                proof {
                                    assert(self.tables@ =~= prev);
                                }
                                return Err(e);
                            },
                            Ok(k) => k,
                        };
                        let dres = t.delete(keys);
                        let ghost t2abs = t.abs();
                        match dres {
                            Ok(()) => {
                                let view = view_of_table(&t);
                                let stored = t.name.clone();
                                self.tables.insert(i, t);
                                proof {
                                    lemma_tbls_abs(prev);
                                    lemma_tbls_abs(self.tables@);
                                    assert(self.tables@ =~= prev.update(i as int, t));
                                    assert(tbls_abs(self.tables@) =~= ts0.update(
                                        i as int,
                                        t2abs,
                                    ));
                                    assert forall|l: int|
                                        0 <= l < self.tables@.len() implies (#[trigger]
                                    self.tables@[l]).wf() by {
                                        if l != i as int {
                                            assert(self.tables@[l] == prev[l]);
                                        }
                                    }
                                }
                                let ghost ob_prev = self.outbox@;
                                self.outbox.push(
                                    Notification::Deleted { table: stored, view },
                                );
                                proof {
                                    assert(notes_abs(self.outbox@) =~= notes_abs(ob_prev)
                                        + seq![
                                        NoteAbs::Deleted(t2abs.name, tbl_view(t2abs)),
                                    ]);
                                }
                                Ok(None)
                            },
                            Err(e) => {
                                self.tables.insert(i, t);
                                Err(e)
                            },
                        }
                    },
                }
            },
        }
    }

    #[verifier::rlimit(50)]
    fn exec_select(&mut self, from: Option<String>, projection: Vec<Expression>, selection: Vec<Expression>) -> (r: Result<Option<ResultView>, Error>)
        requires
            old(self).wf(),
        ensures
            exec_post(*old(self), *final(self), r, select_statement_s(old(self).tables_abs(), from, projection, selection)),
    {
        let ghost ts0 = self.tables_abs();
        proof {
            lemma_tbls_abs(self.tables@);
        }
        let tidx: Option<usize> = match &from {
            Some(nm) => find_tbl_exec(&self.tables, nm.as_str()),
            None => None,
        };
        let bound: Option<&Table> = match tidx {
            Some(i) => Some(&self.tables[i]),
            None => None,
        };
        proof {
            match tidx {
                Some(i) => {
                    assert(crate::evaluator::opt_abs(bound) == Some(ts0[i as int]));
                },
                None => (),
            }
        }
        let selres = eval_list_exec(bound, selection, true);
        let selected = match selres {
            Ok(c) => c,
            Err(e) => {
                return Err(e);
            },
        };
        let projres = eval_list_exec(bound, projection, false);
        let projected = match projres {
            Ok(c) => c,
            Err(e) => {
                return Err(e);
            },
        };
        proof {
            lemma_outs_abs(selected@);
        }
        let result_cols = if selected.len() == 0 {
            projected
        } else {
            let crossed = cross_exec(projected, &selected);
            match crossed {
                Ok(c) => c,
                Err(e) => {
                    return Err(e);
                },
            }
        };
        let view = ResultView::new(result_cols);
        proof {
            assert(view.abs() =~= (ViewAbs {
                headers: out_names(outs_abs(result_cols@)),
                rows: view_rows(outs_abs(result_cols@)),
            }));
            assert(notes_abs(self.outbox@) =~= notes_abs(self.outbox@)
                + Seq::<NoteAbs>::empty());
        }
        Ok(Some(view))
    }
}

} // verus!
