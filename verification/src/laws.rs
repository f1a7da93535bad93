//! The engine's cross-cutting guarantees, stated and proved over the same
//! specifications that the executable functions are held to.

use vstd::prelude::*;

use crate::evaluator::{cc_view, cols_out, cv_max_key, lemma_cols_out, str_views};
use crate::render::{bool_str, dec_int};
use crate::rowmap::{entries_sorted, lemma_lookup_is_index, lemma_sorted_lookup_at,
    lemma_upsert_at_end};
use crate::table::{
    all_names, cc_empty, cc_has_key, cc_remove, cc_tag, cc_upsert_lit, cc_wf,
    cols_truncated, cols_wf, defs_have_pk, hdr_keeps, insert_datum_upto,
    insert_rows_upto, last_rid, lemma_all_names, lemma_cols_truncated, lemma_cols_without_id,
    lemma_each_le_last_rid, lemma_last_rid_none, lemma_last_rid_same_headers, lit_matches,
    names_contain, next_rid, pair_count, rid_le, sel_indices, table_deleted,
    table_deleted_upto, table_inserted, table_updated_upto, wm_ok, ColAbs,
    ColCells, ColumnDef, ColumnHeader, DataType, Literal, PKType, TableAbs,
};
use crate::database::{create_s, ExecRes};
use crate::view::{max_rid_of, out_names, render_cell, row_at, row_visible, rows_upto, view_rows};

verus! {

/// Is `a` at least `b`, where an absent row id counts as smallest?
pub open spec fn rid_ge(a: Option<usize>, b: Option<usize>) -> bool {
    match b {
        None => true,
        Some(y) => a matches Some(x) && x >= y,
    }
}

/// Column-wise watermark growth bounds the table watermark from below.
proof fn lemma_last_rid_ge(c1: Seq<ColAbs>, c2: Seq<ColAbs>)
    requires
        c1.len() == c2.len(),
        forall|i: int|
            0 <= i < c1.len() ==> rid_ge(
                (#[trigger] c1[i]).header.last_row_id,
                c2[i].header.last_row_id,
            ),
    ensures
        rid_ge(last_rid(c1), last_rid(c2)),
    decreases c1.len(),
{
    if c1.len() > 0 {
        assert forall|i: int| 0 <= i < c1.drop_last().len() implies rid_ge(
            (#[trigger] c1.drop_last()[i]).header.last_row_id,
            c2.drop_last()[i].header.last_row_id,
        ) by {
            assert(c1.drop_last()[i] == c1[i]);
            assert(c2.drop_last()[i] == c2[i]);
        }
        lemma_last_rid_ge(c1.drop_last(), c2.drop_last());
        assert(c1.last() == c1[c1.len() - 1]);
        assert(c2.last() == c2[c1.len() - 1]);
    }
}

/// Within one inserted row, every column keeps its header fields apart
/// from the last-assigned row id, which either stays or moves to the row's
/// id.
proof fn lemma_insert_datum_headers(
    cols: Seq<ColAbs>,
    sel: Seq<usize>,
    row: Seq<Literal>,
    rid: usize,
    j: int,
)
    requires
        j <= sel.len(),
        forall|l: int| 0 <= l < sel.len() ==> (#[trigger] sel[l]) < cols.len(),
    ensures
        insert_datum_upto(cols, sel, row, rid, j).0.len() == cols.len(),
        forall|l: int|
            0 <= l < cols.len() ==> hdr_keeps(
                (#[trigger] insert_datum_upto(cols, sel, row, rid, j).0[l]).header,
                cols[l].header,
            ) && (insert_datum_upto(cols, sel, row, rid, j).0[l].header.last_row_id
                == cols[l].header.last_row_id || insert_datum_upto(
                cols,
                sel,
                row,
                rid,
                j,
            ).0[l].header.last_row_id == Some(rid)),
    decreases j,
{
    if j > 0 {
        lemma_insert_datum_headers(cols, sel, row, rid, j - 1);
    }
}

/// Across inserted rows, every column keeps its header fields apart from
/// the last-assigned row id, which either stays or moves to one of the
/// newly assigned ids.
proof fn lemma_insert_rows_headers(
    cols: Seq<ColAbs>,
    sel: Seq<usize>,
    rows: Seq<Seq<Literal>>,
    start: int,
    r: int,
)
    requires
        0 <= r,
        0 <= start,
        start + r <= usize::MAX,
        forall|l: int| 0 <= l < sel.len() ==> (#[trigger] sel[l]) < cols.len(),
    ensures
        insert_rows_upto(cols, sel, rows, start, r).0.len() == cols.len(),
        forall|l: int|
            0 <= l < cols.len() ==> hdr_keeps(
                (#[trigger] insert_rows_upto(cols, sel, rows, start, r).0[l]).header,
                cols[l].header,
            ) && (insert_rows_upto(cols, sel, rows, start, r).0[l].header.last_row_id
                == cols[l].header.last_row_id || (insert_rows_upto(
                cols,
                sel,
                rows,
                start,
                r,
            ).0[l].header.last_row_id matches Some(x) && start <= x < start + r)),
    decreases r,
{
    if r > 0 {
        lemma_insert_rows_headers(cols, sel, rows, start, r - 1);
        let prev = insert_rows_upto(cols, sel, rows, start, r - 1);
        if prev.1 {
            lemma_insert_datum_headers(
                prev.0,
                sel,
                rows[r - 1],
                (start + r - 1) as usize,
                pair_count(sel, rows[r - 1]),
            );
        }
    }
}

/// Row ids are allocated monotonically: an insert never lowers the
/// table's watermark, and the ids it assigns all lie at or above the old
/// next fresh id. Together with the watermark-preservation laws below,
/// this means a row id is never reused by any sequence of operations.
pub proof fn law_insert_watermark(
    cols: Seq<ColAbs>,
    sel: Seq<usize>,
    rows: Seq<Seq<Literal>>,
    start: int,
    r: int,
)
    requires
        wm_ok(cols),
        start == next_rid(cols),
        0 <= r,
        start + r <= usize::MAX,
        forall|l: int| 0 <= l < sel.len() ==> (#[trigger] sel[l]) < cols.len(),
    ensures
        rid_ge(last_rid(insert_rows_upto(cols, sel, rows, start, r).0), last_rid(cols)),
        rid_le(last_rid(insert_rows_upto(cols, sel, rows, start, r).0), start + r - 1),
{
    lemma_insert_rows_headers(cols, sel, rows, start, r);
    let nc = insert_rows_upto(cols, sel, rows, start, r).0;
    assert(rid_le(last_rid(cols), start - 1));
    lemma_each_le_last_rid(cols, start - 1);
    assert forall|l: int| 0 <= l < nc.len() implies rid_ge(
        (#[trigger] nc[l]).header.last_row_id,
        cols[l].header.last_row_id,
    ) by {}
    lemma_last_rid_ge(nc, cols);
    assert forall|l: int| 0 <= l < nc.len() implies rid_le(
        (#[trigger] nc[l]).header.last_row_id,
        start + r - 1,
    ) by {
        assert(rid_le(cols[l].header.last_row_id, start - 1));
    }
    crate::table::lemma_last_rid_le(nc, start + r - 1);
}

/// Truncation keeps the watermark: clearing every cell does not reset the
/// row-id allocator, so later inserts still use fresh ids.
pub proof fn law_truncate_watermark(cols: Seq<ColAbs>)
    ensures
        last_rid(cols_truncated(cols)) == last_rid(cols),
{
    lemma_cols_truncated(cols);
    assert forall|i: int| 0 <= i < cols_truncated(cols).len() implies (#[trigger] cols_truncated(
        cols,
    )[i]).header.last_row_id == cols[i].header.last_row_id by {}
    lemma_last_rid_same_headers(cols_truncated(cols), cols);
}

/// A delete keeps every header, so it keeps the watermark.
pub proof fn law_delete_watermark(
    cols: Seq<ColAbs>,
    pk: Seq<(PKType, usize)>,
    ids: Seq<usize>,
    n: int,
)
    requires
        0 <= n,
    ensures
        table_deleted_upto(cols, pk, ids, n).0.len() == cols.len(),
        forall|l: int|
            0 <= l < cols.len() ==> (#[trigger] table_deleted_upto(cols, pk, ids, n).0[l]).header
                == cols[l].header,
        last_rid(table_deleted_upto(cols, pk, ids, n).0) == last_rid(cols),
    decreases n,
{
    if n > 0 {
        law_delete_watermark(cols, pk, ids, n - 1);
        lemma_cols_without_id(table_deleted_upto(cols, pk, ids, n - 1).0, ids[n - 1]);
    }
    lemma_last_rid_same_headers(table_deleted_upto(cols, pk, ids, n).0, cols);
}

/// An update keeps every header, so it keeps the watermark.
pub proof fn law_update_watermark(
    cols: Seq<ColAbs>,
    assigns: Seq<(String, Literal)>,
    ids: Seq<usize>,
    i: int,
)
    requires
        0 <= i <= cols.len(),
    ensures
        table_updated_upto(cols, assigns, ids, i).0.len() == cols.len(),
        forall|l: int|
            0 <= l < cols.len() ==> (#[trigger] table_updated_upto(
                cols,
                assigns,
                ids,
                i,
            ).0[l]).header == cols[l].header,
        last_rid(table_updated_upto(cols, assigns, ids, i).0) == last_rid(cols),
    decreases i,
{
    if i > 0 {
        law_update_watermark(cols, assigns, ids, i - 1);
    }
    lemma_last_rid_same_headers(table_updated_upto(cols, assigns, ids, i).0, cols);
}

/// A table is created only with a primary-key column among its
/// definitions; otherwise creation fails and the database is unchanged.
pub proof fn law_create_needs_pk(ts: Seq<TableAbs>, name: String, columns: Vec<ColumnDef>)
    ensures
        create_s(ts, name, columns) is Done ==> defs_have_pk(columns@),
        !defs_have_pk(columns@) ==> (create_s(ts, name, columns) matches ExecRes::Fail(k, ts2)
            && ts2 == ts),
{
}

/// Removing the cell at `id` from every column, id by id, leaves exactly
/// the cells whose id was never selected.
proof fn lemma_delete_cells(cols: Seq<ColAbs>, pk: Seq<(PKType, usize)>, ids: Seq<usize>, n: int)
    requires
        0 <= n <= ids.len(),
        cols_wf(cols),
    ensures
        table_deleted_upto(cols, pk, ids, n).0.len() == cols.len(),
        forall|l: int|
            0 <= l < cols.len() ==> cc_wf(
                (#[trigger] table_deleted_upto(cols, pk, ids, n).0[l]).cells,
            ) && cc_tag(table_deleted_upto(cols, pk, ids, n).0[l].cells) == cc_tag(cols[l].cells),
        forall|l: int, k: usize|
            0 <= l < cols.len() ==> (#[trigger] cc_has_key(
                table_deleted_upto(cols, pk, ids, n).0[l].cells,
                k,
            ) <==> cc_has_key(cols[l].cells, k) && !ids.take(n).contains(k)),
    decreases n,
{
    if n == 0 {
        assert(ids.take(0) =~= Seq::<usize>::empty());
    } else {
        lemma_delete_cells(cols, pk, ids, n - 1);
        let prev = table_deleted_upto(cols, pk, ids, n - 1).0;
        let cur = table_deleted_upto(cols, pk, ids, n).0;
        lemma_cols_without_id(prev, ids[n - 1]);
        assert forall|l: int, k: usize| 0 <= l < cols.len() implies (#[trigger] cc_has_key(
            cur[l].cells,
            k,
        ) <==> cc_has_key(cols[l].cells, k) && !ids.take(n).contains(k)) by {
            assert(cur[l].cells == cc_remove(prev[l].cells, ids[n - 1]));
            crate::table::lemma_cc_remove_keeps_wf(prev[l].cells, ids[n - 1]);
            lemma_cc_remove_lookup(prev[l].cells, ids[n - 1], k);
            assert(ids.take(n).drop_last() =~= ids.take(n - 1));
            if ids.take(n).contains(k) {
                let w = choose|w: int| 0 <= w < n && #[trigger] ids.take(n)[w] == k;
                if w < n - 1 {
                    assert(ids.take(n - 1)[w] == k);
                    assert(ids.take(n - 1).contains(k));
                }
            }
            if ids.take(n - 1).contains(k) {
                let w = choose|w: int| 0 <= w < n - 1 && #[trigger] ids.take(n - 1)[w] == k;
                assert(ids.take(n)[w] == k);
                assert(ids.take(n).contains(k));
            }
            if k == ids[n - 1] {
                assert(ids.take(n)[n - 1] == k);
                assert(ids.take(n).contains(k));
            }
        }
        assert forall|l: int| 0 <= l < cols.len() implies cc_wf((#[trigger] cur[l]).cells)
            && cc_tag(cur[l].cells) == cc_tag(cols[l].cells) by {
            assert(cur[l].cells == cc_remove(prev[l].cells, ids[n - 1]));
            crate::table::lemma_cc_remove_keeps_wf(prev[l].cells, ids[n - 1]);
        }
    }
}

/// What removing one id does to each key.
proof fn lemma_cc_remove_lookup(c: crate::table::ColCells, id: usize, k: usize)
    requires
        cc_wf(c),
    ensures
        cc_has_key(cc_remove(c, id), k) <==> cc_has_key(c, k) && k != id,
{
    match c {
        crate::table::ColCells::Int(s) => crate::rowmap::lemma_remove(s, id),
        crate::table::ColCells::Str(s) => crate::rowmap::lemma_remove(s, id),
        crate::table::ColCells::Bool(s) => crate::rowmap::lemma_remove(s, id),
    }
}

/// Sorted contents with no stored key are empty.
proof fn lemma_no_keys_empty(c: crate::table::ColCells)
    requires
        cc_wf(c),
        forall|k: usize| !#[trigger] cc_has_key(c, k),
    ensures
        c == cc_empty(cc_tag(c)),
{
    match c {
        crate::table::ColCells::Int(s) => {
            if s.len() > 0 {
                lemma_lookup_is_index(s, s[0].0);
                assert(cc_has_key(c, s[0].0));
            }
            assert(s =~= Seq::<(usize, i32)>::empty());
        },
        crate::table::ColCells::Str(s) => {
            if s.len() > 0 {
                lemma_lookup_is_index(s, s[0].0);
                assert(cc_has_key(c, s[0].0));
            }
            assert(s =~= Seq::<(usize, String)>::empty());
        },
        crate::table::ColCells::Bool(s) => {
            if s.len() > 0 {
                lemma_lookup_is_index(s, s[0].0);
                assert(cc_has_key(c, s[0].0));
            }
            assert(s =~= Seq::<(usize, bool)>::empty());
        },
    }
}

/// Deleting every stored row id leaves the same table as truncation:
/// every column empty with its header — watermark included — kept, so a
/// subsequent select shows no rows and the next insert still allocates a
/// fresh row id either way.
pub proof fn law_delete_all_is_truncate(
    cols: Seq<ColAbs>,
    pk: Seq<(PKType, usize)>,
    ids: Seq<usize>,
)
    requires
        cols_wf(cols),
        forall|l: int, k: usize|
            0 <= l < cols.len() && #[trigger] cc_has_key(cols[l].cells, k) ==> ids.contains(k),
    ensures
        table_deleted(cols, pk, ids).0 == cols_truncated(cols),
{
    let n = ids.len() as int;
    lemma_delete_cells(cols, pk, ids, n);
    law_delete_watermark(cols, pk, ids, n);
    lemma_cols_truncated(cols);
    let cur = table_deleted(cols, pk, ids).0;
    assert forall|l: int| 0 <= l < cols.len() implies #[trigger] cur[l] == cols_truncated(cols)[l]
        by {
        assert forall|k: usize| !#[trigger] cc_has_key(cur[l].cells, k) by {
            if cc_has_key(cols[l].cells, k) {
                assert(ids.contains(k));
                assert(ids.take(n) =~= ids);
            }
        }
        lemma_no_keys_empty(cur[l].cells);
        assert(cur[l].cells == cc_empty(cc_tag(cols[l].cells)));
        assert(cur[l].header == cols[l].header);
    }
    assert(cur =~= cols_truncated(cols));
}


// ---------------------------------------------------------------------------
// Inserting rows into a fresh table and selecting everything unfiltered
// returns exactly those rows, stringified, in ascending row-id order.
// ---------------------------------------------------------------------------

/// The display rendering of a literal.
pub open spec fn lit_render(l: Literal) -> Seq<char> {
    match l {
        Literal::Int(x) => dec_int(x as int),
        Literal::Str(s) => s@,
        Literal::Bool(b) => bool_str(b),
        Literal::Null => Seq::empty(),
    }
}

pub open spec fn get_int(l: Literal) -> i32 {
    match l {
        Literal::Int(x) => x,
        _ => 0,
    }
}

pub open spec fn get_str(l: Literal) -> String
    recommends
        l is Str,
{
    match l {
        Literal::Str(s) => s,
        _ => arbitrary(),
    }
}

pub open spec fn get_bool(l: Literal) -> bool {
    match l {
        Literal::Bool(b) => b,
        _ => false,
    }
}

/// The contents of column `j` after the first `r` rows were written into a
/// fresh table: one cell per row, at the row's id.
pub open spec fn exp_cells(dt: DataType, rows: Seq<Seq<Literal>>, j: int, r: int) -> ColCells {
    match dt {
        DataType::Int => ColCells::Int(
            Seq::new(r as nat, |i: int| (i as usize, get_int(rows[i][j]))),
        ),
        DataType::Str => ColCells::Str(
            Seq::new(r as nat, |i: int| (i as usize, get_str(rows[i][j]))),
        ),
        DataType::Bool => ColCells::Bool(
            Seq::new(r as nat, |i: int| (i as usize, get_bool(rows[i][j]))),
        ),
    }
}

/// When every column name occurs in the name list, the insert selects
/// every column, in definition order.
proof fn lemma_sel_identity(cols: Seq<ColAbs>, names: Seq<String>)
    requires
        forall|j: int|
            0 <= j < cols.len() ==> names_contain(names, (#[trigger] cols[j]).header.name),
    ensures
        sel_indices(cols, names) == Seq::new(cols.len(), |i: int| i as usize),
    decreases cols.len(),
{
    if cols.len() > 0 {
        assert forall|j: int| 0 <= j < cols.drop_last().len() implies names_contain(
            names,
            (#[trigger] cols.drop_last()[j]).header.name,
        ) by {
            assert(cols.drop_last()[j] == cols[j]);
        }
        lemma_sel_identity(cols.drop_last(), names);
        assert(cols.last() == cols[cols.len() - 1]);
        assert(sel_indices(cols, names) =~= Seq::new(cols.len(), |i: int| i as usize));
    }
}

/// Writing a matching literal at the next fresh row id appends one cell.
proof fn lemma_exp_step(dt: DataType, rows: Seq<Seq<Literal>>, j: int, r: int)
    requires
        0 <= r < rows.len(),
        r < usize::MAX,
        lit_matches(dt, rows[r][j]),
    ensures
        cc_wf(exp_cells(dt, rows, j, r)),
        cc_tag(exp_cells(dt, rows, j, r)) == dt,
        cc_upsert_lit(exp_cells(dt, rows, j, r), r as usize, rows[r][j]) == exp_cells(
            dt,
            rows,
            j,
            r + 1,
        ),
{
    match dt {
        DataType::Int => {
            let s = Seq::new(r as nat, |i: int| (i as usize, get_int(rows[i][j])));
            assert(entries_sorted(s));
            lemma_upsert_at_end(s, r as usize, get_int(rows[r][j]));
            assert(s.push((r as usize, get_int(rows[r][j]))) =~= Seq::new(
                (r + 1) as nat,
                |i: int| (i as usize, get_int(rows[i][j])),
            ));
        },
        DataType::Str => {
            let s = Seq::new(r as nat, |i: int| (i as usize, get_str(rows[i][j])));
            assert(entries_sorted(s));
            lemma_upsert_at_end(s, r as usize, get_str(rows[r][j]));
            assert(s.push((r as usize, get_str(rows[r][j]))) =~= Seq::new(
                (r + 1) as nat,
                |i: int| (i as usize, get_str(rows[i][j])),
            ));
        },
        DataType::Bool => {
            let s = Seq::new(r as nat, |i: int| (i as usize, get_bool(rows[i][j])));
            assert(entries_sorted(s));
            lemma_upsert_at_end(s, r as usize, get_bool(rows[r][j]));
            assert(s.push((r as usize, get_bool(rows[r][j]))) =~= Seq::new(
                (r + 1) as nat,
                |i: int| (i as usize, get_bool(rows[i][j])),
            ));
        },
    }
}

/// One row written into a fresh table extends each selected column by one
/// cell at the row's id, and never mismatches.
proof fn lemma_datum_identity(
    cols0: Seq<ColAbs>,
    cur: Seq<ColAbs>,
    rows: Seq<Seq<Literal>>,
    sel: Seq<usize>,
    r: int,
    k: int,
)
    requires
        cols0.len() <= usize::MAX,
        sel == Seq::new(cols0.len(), |i: int| i as usize),
        0 <= r < rows.len(),
        r < usize::MAX,
        rows[r].len() == cols0.len(),
        cur.len() == cols0.len(),
        forall|l: int|
            0 <= l < cols0.len() ==> (#[trigger] cur[l]).header.datatype
                == cols0[l].header.datatype && cur[l].cells == exp_cells(
                cols0[l].header.datatype,
                rows,
                l,
                r,
            ),
        forall|i: int, jx: int|
            0 <= i < rows.len() && 0 <= jx < cols0.len() ==> lit_matches(
                cols0[jx].header.datatype,
                #[trigger] rows[i][jx],
            ),
        0 <= k <= cols0.len(),
    ensures
        insert_datum_upto(cur, sel, rows[r], r as usize, k).1,
        insert_datum_upto(cur, sel, rows[r], r as usize, k).0.len() == cols0.len(),
        forall|l: int|
            0 <= l < cols0.len() ==> (#[trigger] insert_datum_upto(
                cur,
                sel,
                rows[r],
                r as usize,
                k,
            ).0[l]).header.datatype == cols0[l].header.datatype && insert_datum_upto(
                cur,
                sel,
                rows[r],
                r as usize,
                k,
            ).0[l].cells == exp_cells(
                cols0[l].header.datatype,
                rows,
                l,
                if l < k {
                    r + 1
                } else {
                    r
                },
            ),
    decreases k,
{
    if k > 0 {
        lemma_datum_identity(cols0, cur, rows, sel, r, k - 1);
        lemma_exp_step(cols0[k - 1].header.datatype, rows, k - 1, r);
        let prev = insert_datum_upto(cur, sel, rows[r], r as usize, k - 1);
        let res = insert_datum_upto(cur, sel, rows[r], r as usize, k);
        assert(prev.1);
        assert(prev.0.len() == cols0.len());
        assert(sel[k - 1] == (k - 1) as usize);
        let c = prev.0[k - 1];
        assert(c.cells == exp_cells(cols0[k - 1].header.datatype, rows, k - 1, r));
        assert(c.header.datatype == cols0[k - 1].header.datatype);
        assert(lit_matches(c.header.datatype, rows[r][k - 1]));
        assert((rows[r])[k - 1] == rows[r][k - 1]);
        assert(sel[k - 1] as int == k - 1);
        assert(prev.0[sel[k - 1] as int] == c);
        let lit = rows[r][k - 1];
        let ok = lit_matches(c.header.datatype, lit);
        let c2 = ColAbs {
            header: ColumnHeader { last_row_id: Some(r as usize), ..c.header },
            cells: if ok {
                cc_upsert_lit(c.cells, r as usize, lit)
            } else {
                c.cells
            },
        };
        assert(res == (prev.0.update(k - 1, c2), ok));
        assert(res.1);
        assert forall|l: int| 0 <= l < cols0.len() implies ((#[trigger] res.0[l]).header.datatype
            == cols0[l].header.datatype && res.0[l].cells == exp_cells(
            cols0[l].header.datatype,
            rows,
            l,
            if l < k {
                r + 1
            } else {
                r
            },
        )) by {
            if l != k - 1 {
                assert(res.0[l] == prev.0[l]);
            }
        }
    }
}

/// Consecutive rows written into a fresh table lay each row's cells at
/// consecutive row ids from zero.
proof fn lemma_rows_identity(cols0: Seq<ColAbs>, rows: Seq<Seq<Literal>>, sel: Seq<usize>, r: int)
    requires
        cols0.len() <= usize::MAX,
        sel == Seq::new(cols0.len(), |i: int| i as usize),
        0 <= r <= rows.len(),
        rows.len() < usize::MAX,
        forall|i: int| 0 <= i < rows.len() ==> (#[trigger] rows[i]).len() == cols0.len(),
        forall|l: int|
            0 <= l < cols0.len() ==> (#[trigger] cols0[l]).cells == cc_empty(
                cols0[l].header.datatype,
            ),
        forall|i: int, jx: int|
            0 <= i < rows.len() && 0 <= jx < cols0.len() ==> lit_matches(
                cols0[jx].header.datatype,
                #[trigger] rows[i][jx],
            ),
    ensures
        insert_rows_upto(cols0, sel, rows, 0, r).1,
        insert_rows_upto(cols0, sel, rows, 0, r).0.len() == cols0.len(),
        forall|l: int|
            0 <= l < cols0.len() ==> (#[trigger] insert_rows_upto(
                cols0,
                sel,
                rows,
                0,
                r,
            ).0[l]).header.datatype == cols0[l].header.datatype && insert_rows_upto(
                cols0,
                sel,
                rows,
                0,
                r,
            ).0[l].cells == exp_cells(cols0[l].header.datatype, rows, l, r),
    decreases r,
{
    if r == 0 {
        assert forall|l: int| 0 <= l < cols0.len() implies (#[trigger] cols0[l]).cells
            == exp_cells(cols0[l].header.datatype, rows, l, 0) by {
            match cols0[l].header.datatype {
                DataType::Int => {
                    assert(Seq::new(0nat, |i: int| (i as usize, get_int(rows[i][l])))
                        =~= Seq::<(usize, i32)>::empty());
                },
                DataType::Str => {
                    assert(Seq::new(0nat, |i: int| (i as usize, get_str(rows[i][l])))
                        =~= Seq::<(usize, String)>::empty());
                },
                DataType::Bool => {
                    assert(Seq::new(0nat, |i: int| (i as usize, get_bool(rows[i][l])))
                        =~= Seq::<(usize, bool)>::empty());
                },
            }
        }
    } else {
        lemma_rows_identity(cols0, rows, sel, r - 1);
        let prev = insert_rows_upto(cols0, sel, rows, 0, r - 1);
        lemma_datum_identity(cols0, prev.0, rows, sel, r - 1, cols0.len() as int);
        assert(pair_count(sel, rows[r - 1]) == cols0.len() as int);
    }
}

/// When every column holds the same largest row id, so does the whole set.
proof fn lemma_max_rid_const(cs: Seq<crate::evaluator::OutAbs>, m: usize)
    requires
        cs.len() > 0,
        forall|l: int| 0 <= l < cs.len() ==> cv_max_key((#[trigger] cs[l]).cells) == m,
    ensures
        max_rid_of(cs) == m,
    decreases cs.len(),
{
    if cs.len() > 1 {
        assert forall|l: int| 0 <= l < cs.drop_last().len() implies cv_max_key(
            (#[trigger] cs.drop_last()[l]).cells,
        ) == m by {
            assert(cs.drop_last()[l] == cs[l]);
        }
        lemma_max_rid_const(cs.drop_last(), m);
    } else {
        assert(cs.drop_last().len() == 0);
        assert(max_rid_of(cs.drop_last()) == 0);
    }
    assert(cs.last() == cs[cs.len() - 1]);
}

/// The rendered cell of column `j` at row id `r` is the rendering of the
/// literal the row carried.
proof fn lemma_exp_render(dt: DataType, rows: Seq<Seq<Literal>>, j: int, nr: int, r: int)
    requires
        0 <= r < nr <= rows.len(),
        nr < usize::MAX,
        lit_matches(dt, rows[r][j]),
    ensures
        render_cell(cc_view(exp_cells(dt, rows, j, nr)), r as usize) == lit_render(rows[r][j]),
        cv_max_key(cc_view(exp_cells(dt, rows, j, nr))) == nr - 1,
{
    match dt {
        DataType::Int => {
            let s = Seq::new(nr as nat, |i: int| (i as usize, get_int(rows[i][j])));
            assert(entries_sorted(s));
            lemma_sorted_lookup_at(s, r);
        },
        DataType::Str => {
            let s = Seq::new(nr as nat, |i: int| (i as usize, get_str(rows[i][j])));
            assert(entries_sorted(s));
            crate::evaluator::lemma_str_views_sorted(s);
            assert(str_views(s)[r] == (s[r].0, s[r].1@));
            lemma_sorted_lookup_at(str_views(s), r);
            assert(str_views(s).last() == (s.last().0, s.last().1@));
        },
        DataType::Bool => {
            let s = Seq::new(nr as nat, |i: int| (i as usize, get_bool(rows[i][j])));
            assert(entries_sorted(s));
            lemma_sorted_lookup_at(s, r);
        },
    }
}

/// Every visible prefix of rendered rows is exactly the rendered inserted
/// rows.
proof fn lemma_rows_upto_dense(
    cs: Seq<crate::evaluator::OutAbs>,
    expected: Seq<Seq<Seq<char>>>,
    n: int,
)
    requires
        0 <= n <= expected.len(),
        forall|r: int| 0 <= r < expected.len() ==> row_at(cs, r as usize) == expected[r],
        forall|r: int| 0 <= r < expected.len() ==> row_visible(#[trigger] expected[r]),
    ensures
        rows_upto(cs, n) == expected.take(n),
    decreases n,
{
    if n > 0 {
        lemma_rows_upto_dense(cs, expected, n - 1);
        assert(row_at(cs, (n - 1) as usize) == expected[n - 1]);
        assert(rows_upto(cs, n) =~= expected.take(n));
    } else {
        assert(rows_upto(cs, 0) =~= expected.take(0));
    }
}

/// Inserting rows into a fresh, empty table and then selecting everything
/// with no filter shows exactly those rows, stringified, in ascending
/// row-id order, under the tables' declared column names. Rows whose every
/// cell renders empty are outside this statement, since the view drops
/// them.
#[verifier::rlimit(100)]
pub proof fn law_insert_then_select_all(cols: Seq<ColAbs>, rows: Seq<Seq<Literal>>)
    requires
        cols.len() <= usize::MAX,
        rows.len() < usize::MAX,
        forall|l: int|
            0 <= l < cols.len() ==> (#[trigger] cols[l]).cells == cc_empty(
                cols[l].header.datatype,
            ) && cols[l].header.last_row_id is None,
        forall|r: int| 0 <= r < rows.len() ==> (#[trigger] rows[r]).len() == cols.len(),
        forall|r: int, j: int|
            0 <= r < rows.len() && 0 <= j < cols.len() ==> lit_matches(
                cols[j].header.datatype,
                #[trigger] rows[r][j],
            ),
        forall|r: int|
            0 <= r < rows.len() ==> exists|j: int|
                0 <= j < cols.len() && lit_render(#[trigger] (#[trigger] rows[r])[j]).len() > 0,
    ensures
        table_inserted(cols, Seq::empty(), rows).1,
        out_names(cols_out(table_inserted(cols, Seq::empty(), rows).0)) == Seq::new(
            cols.len(),
            |j: int| cols[j].header.name@,
        ),
        view_rows(cols_out(table_inserted(cols, Seq::empty(), rows).0)) == Seq::new(
            rows.len(),
            |r: int| Seq::new(cols.len(), |j: int| lit_render(rows[r][j])),
        ),
{
    let n = cols.len() as int;
    let nr = rows.len() as int;
    let sel = Seq::new(n as nat, |i: int| i as usize);
    // the insert names no columns, so it selects all of them in order
    lemma_all_names(cols);
    assert forall|j: int| 0 <= j < n implies names_contain(
        all_names(cols),
        (#[trigger] cols[j]).header.name,
    ) by {
        assert(all_names(cols)[j] == cols[j].header.name);
    }
    lemma_sel_identity(cols, all_names(cols));
    lemma_last_rid_none(cols);
    lemma_rows_identity(cols, rows, sel, nr);
    let nc = table_inserted(cols, Seq::empty(), rows).0;
    assert(nc == insert_rows_upto(cols, sel, rows, 0, nr).0);
    // the headers keep the declared column names
    lemma_insert_rows_headers(cols, sel, rows, 0, nr);
    lemma_cols_out(nc);
    assert forall|j: int| 0 <= j < n implies out_names(cols_out(nc))[j] == cols[j].header.name@
        by {
        assert(cols_out(nc)[j].name == nc[j].header.name@);
        assert(hdr_keeps(nc[j].header, cols[j].header));
    }
    assert(out_names(cols_out(nc)) =~= Seq::new(n as nat, |j: int| cols[j].header.name@));
    // the rendered rows are the inserted rows, stringified
    let expected = Seq::new(nr as nat, |r: int| Seq::new(n as nat, |j: int| lit_render(rows[r][j])));
    if nr == 0 {
        if n > 0 {
            assert forall|j: int| 0 <= j < n implies cv_max_key(
                (#[trigger] cols_out(nc)[j]).cells,
            ) == 0 && render_cell(cols_out(nc)[j].cells, 0usize) == Seq::<char>::empty() by {
                assert(nc[j].cells == exp_cells(cols[j].header.datatype, rows, j, 0));
                match cols[j].header.datatype {
                    DataType::Int => {
                        assert(Seq::new(0nat, |i: int| (i as usize, get_int(rows[i][j])))
                            =~= Seq::<(usize, i32)>::empty());
                    },
                    DataType::Str => {
                        assert(Seq::new(0nat, |i: int| (i as usize, get_str(rows[i][j])))
                            =~= Seq::<(usize, String)>::empty());
                        assert(str_views(Seq::<(usize, String)>::empty()) =~= Seq::<
                            (usize, Seq<char>),
                        >::empty());
                    },
                    DataType::Bool => {
                        assert(Seq::new(0nat, |i: int| (i as usize, get_bool(rows[i][j])))
                            =~= Seq::<(usize, bool)>::empty());
                    },
                }
            }
            lemma_max_rid_const(cols_out(nc), 0);
        } else {
            assert(cols_out(nc).len() == 0);
            assert(max_rid_of(cols_out(nc)) == 0);
        }
        assert(!row_visible(row_at(cols_out(nc), 0usize))) by {
            if row_visible(row_at(cols_out(nc), 0usize)) {
                let w = choose|j: int|
                    0 <= j < row_at(cols_out(nc), 0usize).len() && (#[trigger] row_at(
                        cols_out(nc),
                        0usize,
                    )[j]).len() > 0;
                assert(render_cell(cols_out(nc)[w].cells, 0usize).len() > 0);
            }
        }
        assert(rows_upto(cols_out(nc), 0) =~= Seq::<Seq<Seq<char>>>::empty());
        assert(rows_upto(cols_out(nc), 1) =~= Seq::<Seq<Seq<char>>>::empty());
        assert(view_rows(cols_out(nc)) =~= expected);
    } else {
        assert(n > 0) by {
            let w = choose|j: int| 0 <= j < n && lit_render(rows[0][j]).len() > 0;
        }
        assert forall|r: int, j: int| 0 <= r < nr && 0 <= j < n implies render_cell(
            (#[trigger] cols_out(nc)[j]).cells,
            r as usize,
        ) == lit_render(#[trigger] rows[r][j]) && cv_max_key(cols_out(nc)[j].cells) == nr - 1
            by {
            assert(nc[j].cells == exp_cells(cols[j].header.datatype, rows, j, nr));
            lemma_exp_render(cols[j].header.datatype, rows, j, nr, r);
        }
        assert forall|l: int| 0 <= l < n implies cv_max_key((#[trigger] cols_out(nc)[l]).cells)
            == (nr - 1) as usize by {
            lemma_exp_render(cols[l].header.datatype, rows, l, nr, 0);
            assert(nc[l].cells == exp_cells(cols[l].header.datatype, rows, l, nr));
        }
        lemma_max_rid_const(cols_out(nc), (nr - 1) as usize);
        assert forall|r: int| 0 <= r < nr implies row_at(cols_out(nc), r as usize)
            == #[trigger] expected[r] by {
            assert(row_at(cols_out(nc), r as usize) =~= expected[r]);
        }
        assert forall|r: int| 0 <= r < nr implies row_visible(#[trigger] expected[r]) by {
            let w = choose|j: int| 0 <= j < n && lit_render(rows[r][j]).len() > 0;
            assert(expected[r][w].len() > 0);
        }
        lemma_rows_upto_dense(cols_out(nc), expected, nr);
        assert(expected.take(nr) =~= expected);
        assert(view_rows(cols_out(nc)) == rows_upto(cols_out(nc), nr));
    }
}

} // verus!
