//! The view materializer: turns evaluated output columns into a row-major
//! display structure. Every row id from 0 through the largest stored key is
//! rendered; a row whose every cell renders empty is dropped.

use vstd::prelude::*;

use crate::evaluator::{
    cc_view, cv_max_key, lemma_str_views_lookup, str_views, CellsView, OutAbs, OutColumn,
};
use crate::render::{bool_str, dec_int};
use crate::rowmap::slookup;
use crate::table::{cc_max_key, cc_rendered, cc_wf, ColCells};

verus! {

/// The stored maximum key equals the view-level maximum key.
proof fn lemma_view_max(c: ColCells)
    ensures
        cv_max_key(cc_view(c)) == cc_max_key(c),
{
    match c {
        ColCells::Str(s) => {
            if s.len() > 0 {
                assert(str_views(s).last() == (s.last().0, s.last().1@));
            }
        },
        _ => (),
    }
}

/// The stored rendering equals the view-level rendering.
proof fn lemma_view_rendered(c: ColCells, k: usize)
    requires
        cc_wf(c),
    ensures
        cv_rendered(cc_view(c), k) == cc_rendered(c, k),
{
    match c {
        ColCells::Str(s) => {
            lemma_str_views_lookup(s, k);
        },
        _ => (),
    }
}

/// A rendered view, as the contracts speak of it.
#[verifier::ext_equal]
pub struct ViewAbs {
    pub headers: Seq<Seq<char>>,
    pub rows: Seq<Seq<Seq<char>>>,
}

/// The header names of a column list.
pub open spec fn out_names(cols: Seq<OutAbs>) -> Seq<Seq<char>> {
    Seq::new(cols.len(), |j: int| cols[j].name)
}

/// The rendering of the cell at `k`, if one is stored.
pub open spec fn cv_rendered(c: CellsView, k: usize) -> Option<Seq<char>> {
    match c {
        CellsView::Int(s) => match slookup(s, k) {
            Some(v) => Some(dec_int(v as int)),
            None => None,
        },
        CellsView::Str(s) => match slookup(s, k) {
            Some(v) => Some(v),
            None => None,
        },
        CellsView::Bool(s) => match slookup(s, k) {
            Some(v) => Some(bool_str(v)),
            None => None,
        },
    }
}

/// The rendering of the cell at `k`; an absent cell renders empty.
pub open spec fn render_cell(c: CellsView, k: usize) -> Seq<char> {
    match cv_rendered(c, k) {
        Some(s) => s,
        None => Seq::empty(),
    }
}

/// The rendered row at row id `k`, one cell per column.
pub open spec fn row_at(cols: Seq<OutAbs>, k: usize) -> Seq<Seq<char>> {
    Seq::new(cols.len(), |j: int| render_cell(cols[j].cells, k))
}

/// Does some cell of the row render non-empty?
pub open spec fn row_visible(row: Seq<Seq<char>>) -> bool {
    exists|j: int| 0 <= j < row.len() && (#[trigger] row[j]).len() > 0
}

/// The largest stored row id across the columns, or 0.
pub open spec fn max_rid_of(cols: Seq<OutAbs>) -> usize
    decreases cols.len(),
{
    if cols.len() == 0 {
        0
    } else {
        let rest = max_rid_of(cols.drop_last());
        if cv_max_key(cols.last().cells) >= rest {
            cv_max_key(cols.last().cells)
        } else {
            rest
        }
    }
}

/// The visible rows among the first `n` row ids, in ascending order.
pub open spec fn rows_upto(cols: Seq<OutAbs>, n: int) -> Seq<Seq<Seq<char>>>
    decreases n,
{
    if n <= 0 {
        Seq::empty()
    } else {
        let rest = rows_upto(cols, n - 1);
        if row_visible(row_at(cols, (n - 1) as usize)) {
            rest.push(row_at(cols, (n - 1) as usize))
        } else {
            rest
        }
    }
}

/// Every visible row of the columns, in ascending row-id order.
pub open spec fn view_rows(cols: Seq<OutAbs>) -> Seq<Seq<Seq<char>>> {
    rows_upto(cols, max_rid_of(cols) + 1)
}

/// The character views of a string list.
pub open spec fn strs_abs(items: Seq<String>) -> Seq<Seq<char>> {
    Seq::new(items.len(), |j: int| items[j]@)
}

/// One rendered display row.
#[derive(Debug, PartialEq)]
pub struct Row {
    items: Vec<String>,
}

impl Row {
    pub closed spec fn abs(&self) -> Seq<Seq<char>> {
        strs_abs(self.items@)
    }

    /// Does the row hold no cells at all?
    pub fn is_empty(&self) -> (r: bool)
        ensures
            r == (self.abs().len() == 0),
    {
        self.items.is_empty()
    }

    /// The rendered cells, in column order.
    pub fn items(&self) -> (r: &Vec<String>)
        ensures
            strs_abs(r@) == self.abs(),
    {
        &self.items
    }
}

/// The rendered rows, as the contracts speak of them.
pub open spec fn view_rows_abs(rows: Seq<Row>) -> Seq<Seq<Seq<char>>> {
    Seq::new(rows.len(), |j: int| rows[j].abs())
}

/// A transient row-major rendering of output columns.
#[derive(Debug, PartialEq)]
pub struct ResultView {
    columns: Vec<String>,
    rows: Vec<Row>,
}

impl ResultView {
    pub closed spec fn abs(&self) -> ViewAbs {
        ViewAbs { headers: strs_abs(self.columns@), rows: view_rows_abs(self.rows@) }
    }

    /// The header names, in column order.
    pub fn headers(&self) -> (r: &Vec<String>)
        ensures
            strs_abs(r@) == self.abs().headers,
    {
        &self.columns
    }

    /// The visible rows, in ascending row-id order.
    pub fn rows(&self) -> (r: &Vec<Row>)
        ensures
            view_rows_abs(r@) == self.abs().rows,
    {
        &self.rows
    }

    /// Materialize output columns into a row-major view: the column names
    /// become the headers, every row id from 0 through the largest stored
    /// key is rendered, and rows whose every cell renders empty are
    /// dropped.
    pub fn new(cols: Vec<OutColumn>) -> (r: ResultView)
        requires
            forall|i: int| 0 <= i < cols@.len() ==> (#[trigger] cols@[i]).wf(),
        ensures
            r.abs().headers == out_names(crate::evaluator::outs_abs(cols@)),
            r.abs().rows == view_rows(crate::evaluator::outs_abs(cols@)),
    {
        let ghost ca = crate::evaluator::outs_abs(cols@);
        proof {
            crate::evaluator::lemma_outs_abs(cols@);
        }
        let ncols = cols.len();
        let mut headers: Vec<String> = Vec::new();
        let mut i: usize = 0;
        while i < ncols
            invariant
                ca == crate::evaluator::outs_abs(cols@),
                ca.len() == cols@.len(),
                forall|l: int| 0 <= l < cols@.len() ==> #[trigger] ca[l] == cols@[l].abs(),
                ncols == cols@.len(),
                0 <= i <= ncols,
                headers@.len() == i,
                forall|l: int| 0 <= l < i ==> (#[trigger] headers@[l])@ == ca[l].name,
            decreases ncols - i,
        {
            headers.push(cols[i].name.clone());
            i += 1;
        }
        proof {
            assert(strs_abs(headers@) =~= out_names(ca));
        }
        // the largest stored row id across the inputs
        let mut max_rid: usize = 0;
        let mut j: usize = 0;
        while j < ncols
            invariant
                ca == crate::evaluator::outs_abs(cols@),
                ca.len() == cols@.len(),
                forall|l: int| 0 <= l < cols@.len() ==> #[trigger] ca[l] == cols@[l].abs(),
                forall|l: int| 0 <= l < cols@.len() ==> (#[trigger] cols@[l]).wf(),
                ncols == cols@.len(),
                0 <= j <= ncols,
                max_rid == max_rid_of(ca.take(j as int)),
            decreases ncols - j,
        {
            proof {
                assert(ca.take(j + 1).drop_last() =~= ca.take(j as int));
                assert(ca.take(j + 1).last() == ca[j as int]);
                lemma_view_max(cols@[j as int].data.cells());
            }
            let len_j = cols[j].data.len();
            if len_j >= max_rid {
                max_rid = len_j;
            }
            j += 1;
        }
        proof {
            assert(ca.take(ncols as int) =~= ca);
        }
        // render the rows
        let mut rows: Vec<Row> = Vec::new();
        let mut rid: usize = 0;
        let mut done = false;
        let ghost mut n_done: int = 0;
        while !done
            invariant
                ca == crate::evaluator::outs_abs(cols@),
                ca.len() == cols@.len(),
                forall|l: int| 0 <= l < cols@.len() ==> #[trigger] ca[l] == cols@[l].abs(),
                forall|l: int| 0 <= l < cols@.len() ==> (#[trigger] cols@[l]).wf(),
                ncols == cols@.len(),
                max_rid == max_rid_of(ca),
                n_done == (if done {
                    max_rid + 1
                } else {
                    rid as int
                }),
                0 <= rid <= max_rid,
                view_rows_abs(rows@) == rows_upto(ca, n_done),
            decreases (if done {
                0int
            } else {
                max_rid - rid + 1
            }),
        {
            let mut cells: Vec<String> = Vec::new();
            let mut visible = false;
            let mut c: usize = 0;
            while c < ncols
                invariant
                    ca == crate::evaluator::outs_abs(cols@),
                    ca.len() == cols@.len(),
                    forall|l: int| 0 <= l < cols@.len() ==> #[trigger] ca[l] == cols@[l].abs(),
                    forall|l: int| 0 <= l < cols@.len() ==> (#[trigger] cols@[l]).wf(),
                    ncols == cols@.len(),
                    0 <= c <= ncols,
                    cells@.len() == c,
                    forall|l: int|
                        0 <= l < c ==> (#[trigger] cells@[l])@ == render_cell(
                            ca[l].cells,
                            rid,
                        ),
                    visible == exists|l: int|
                        0 <= l < c && (#[trigger] cells@[l])@.len() > 0,
                decreases ncols - c,
            {
                proof {
                    lemma_view_rendered(cols@[c as int].data.cells(), rid);
                }
                let got = cols[c].data.get_as_string(rid);
                let cell = match got {
                    Some(s) => s,
                    None => String::new(),
                };
                let nonempty = !cell.as_str().is_empty();
                let ghost was_visible = visible;
                if nonempty {
                    visible = true;
                }
                let ghost prev_cells = cells@;
                cells.push(cell);
                proof {
                    assert(cells@ == prev_cells.push(cell));
                    assert forall|l: int| 0 <= l < c implies #[trigger] cells@[l] == prev_cells[l]
                        by {}
                    if was_visible {
                        let l0 = choose|l0: int|
                            0 <= l0 < c && (#[trigger] prev_cells[l0])@.len() > 0;
                        assert(cells@[l0]@.len() > 0);
                    } else if nonempty {
                        assert(cells@[c as int]@.len() > 0);
                    } else {
                        assert forall|l: int| 0 <= l < c + 1 implies !((#[trigger] cells@[l])@.len()
                            > 0) by {
                            if l < c {
                                assert(cells@[l] == prev_cells[l]);
                            }
                        }
                    }
                }
                c += 1;
            }
            proof {
                assert(strs_abs(cells@) =~= row_at(ca, rid));
                if visible {
                    let l = choose|l: int| 0 <= l < cells@.len() && (#[trigger] cells@[l])@.len()
                        > 0;
                    assert(row_at(ca, rid)[l].len() > 0);
                }
                if row_visible(row_at(ca, rid)) {
                    let l = choose|l: int|
                        0 <= l < row_at(ca, rid).len() && (#[trigger] row_at(ca, rid)[l]).len()
                            > 0;
                    assert(cells@[l]@.len() > 0);
                }
            }
            if visible {
                let ghost prev = rows@;
                rows.push(Row { items: cells });
                proof {
                    assert(view_rows_abs(rows@) =~= rows_upto(ca, n_done + 1));
                }
            } else {
                proof {
                    assert(view_rows_abs(rows@) =~= rows_upto(ca, n_done + 1));
                }
            }
            proof {
                n_done = n_done + 1;
            }
            if rid == max_rid {
                done = true;
            } else {
                rid += 1;
            }
        }
        ResultView { columns: headers, rows }
    }
}

} // verus!
