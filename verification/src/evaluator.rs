//! The expression evaluator: a pure function from an optional bound table
//! and an expression tree to a sequence of output columns. Binary operators
//! combine two columns by intersecting their row-id key sets in ascending
//! order; a bare literal on the right of a comparison is first broadcast
//! over the left column's key range.

use vstd::prelude::*;
use vstd::string::StringExecFns;

use crate::error::Error;
use crate::expression::{is_arith, Binary, Expression, Ident, Unary};
use crate::rowmap::{
    entries_sorted, has_key, lemma_lookup_is_index, lemma_sorted_lookup_at, max_key_of, slookup,
    RowMap,
};
use crate::table::{
    cc_wf, col_wf, lemma_cols_abs, ColAbs, ColCells, Column, ColumnData, Literal, Table,
    TableAbs,
};

verus! {

/// Column contents at evaluation level: strings by their characters.
pub enum CellsView {
    Int(Seq<(usize, i32)>),
    Str(Seq<(usize, Seq<char>)>),
    Bool(Seq<(usize, bool)>),
}

/// The character views of string-valued entries.
pub open spec fn str_views(s: Seq<(usize, String)>) -> Seq<(usize, Seq<char>)> {
    Seq::new(s.len(), |i: int| (s[i].0, s[i].1@))
}

/// String views keep keys, so they keep sortedness.
pub proof fn lemma_str_views_sorted(s: Seq<(usize, String)>)
    ensures
        entries_sorted(str_views(s)) == entries_sorted(s),
{
    if entries_sorted(s) {
        assert forall|i: int, j: int| 0 <= i < j < str_views(s).len() implies str_views(s)[i].0
            < str_views(s)[j].0 by {
            assert(s[i].0 < s[j].0);
        }
    }
    if entries_sorted(str_views(s)) {
        assert forall|i: int, j: int| 0 <= i < j < s.len() implies s[i].0 < s[j].0 by {
            assert(str_views(s)[i].0 < str_views(s)[j].0);
        }
    }
}

/// Looking up in the views finds the view of what the lookup in the values
/// finds.
pub proof fn lemma_str_views_lookup(s: Seq<(usize, String)>, k: usize)
    requires
        entries_sorted(s),
    ensures
        slookup(str_views(s), k) == match slookup(s, k) {
            Some(v) => Some(v@),
            None => None::<Seq<char>>,
        },
{
    lemma_str_views_sorted(s);
    lemma_lookup_is_index(s, k);
    lemma_lookup_is_index(str_views(s), k);
    if has_key(s, k) {
        let i = choose|i: int| 0 <= i < s.len() && s[i].0 == k;
        lemma_sorted_lookup_at(s, i);
        assert(str_views(s)[i].0 == k);
        lemma_sorted_lookup_at(str_views(s), i);
    } else {
        if has_key(str_views(s), k) {
            let i = choose|i: int| 0 <= i < str_views(s).len() && str_views(s)[i].0 == k;
            assert(s[i].0 == k);
        }
    }
}

/// The evaluation view of stored column contents.
pub open spec fn cc_view(c: ColCells) -> CellsView {
    match c {
        ColCells::Int(s) => CellsView::Int(s),
        ColCells::Str(s) => CellsView::Str(str_views(s)),
        ColCells::Bool(s) => CellsView::Bool(s),
    }
}

/// The largest key of `c`, or 0 when `c` is empty.
pub open spec fn cv_max_key(c: CellsView) -> usize {
    match c {
        CellsView::Int(s) => max_key_of(s),
        CellsView::Str(s) => max_key_of(s),
        CellsView::Bool(s) => max_key_of(s),
    }
}

/// The name that literal-born and anonymous result columns carry.
pub open spec fn anon_name() -> Seq<char> {
    seq!['?', 'c', 'o', 'l', 'u', 'm', 'n', '?']
}

/// One evaluated output column, as the contracts speak of it.
pub struct OutAbs {
    pub name: Seq<char>,
    pub cells: CellsView,
}

/// A transient named column produced by expression evaluation.
#[derive(Debug)]
pub struct OutColumn {
    pub name: String,
    pub data: ColumnData,
}

impl OutColumn {
    pub open spec fn abs(&self) -> OutAbs {
        OutAbs { name: self.name@, cells: cc_view(self.data.cells()) }
    }

    pub open spec fn wf(&self) -> bool {
        self.data.wf()
    }
}

impl Clone for OutColumn {
    /// A copy with the same name and contents.
    fn clone(&self) -> (r: Self)
        ensures
            r.abs() == self.abs(),
            r.data.cells() == self.data.cells(),
            r.wf() == self.wf(),
    {
        OutColumn { name: self.name.clone(), data: self.data.clone() }
    }
}

/// The outputs of evaluation, as the contracts speak of them.
pub open spec fn outs_abs(cols: Seq<OutColumn>) -> Seq<OutAbs>
    decreases cols.len(),
{
    if cols.len() == 0 {
        Seq::empty()
    } else {
        outs_abs(cols.drop_last()).push(cols.last().abs())
    }
}

/// Length and elements of `outs_abs`.
pub proof fn lemma_outs_abs(cols: Seq<OutColumn>)
    ensures
        outs_abs(cols).len() == cols.len(),
        forall|l: int| 0 <= l < cols.len() ==> #[trigger] outs_abs(cols)[l] == cols[l].abs(),
    decreases cols.len(),
{
    if cols.len() > 0 {
        lemma_outs_abs(cols.drop_last());
        assert forall|l: int| 0 <= l < cols.len() implies #[trigger] outs_abs(cols)[l] == cols[l]
            .abs() by {
            if l < cols.len() - 1 {
                assert(cols.drop_last()[l] == cols[l]);
            }
        }
    }
}

/// A whole table expanded to output columns, one per column, names kept.
pub open spec fn cols_out(cols: Seq<ColAbs>) -> Seq<OutAbs>
    decreases cols.len(),
{
    if cols.len() == 0 {
        Seq::empty()
    } else {
        cols_out(cols.drop_last()).push(
            OutAbs { name: cols.last().header.name@, cells: cc_view(cols.last().cells) },
        )
    }
}

/// Length and elements of `cols_out`.
pub proof fn lemma_cols_out(cols: Seq<ColAbs>)
    ensures
        cols_out(cols).len() == cols.len(),
        forall|l: int|
            0 <= l < cols.len() ==> #[trigger] cols_out(cols)[l] == (OutAbs {
                name: cols[l].header.name@,
                cells: cc_view(cols[l].cells),
            }),
    decreases cols.len(),
{
    if cols.len() > 0 {
        lemma_cols_out(cols.drop_last());
        assert forall|l: int| 0 <= l < cols.len() implies #[trigger] cols_out(cols)[l] == (OutAbs {
            name: cols[l].header.name@,
            cells: cc_view(cols[l].cells),
        }) by {
            if l < cols.len() - 1 {
                assert(cols.drop_last()[l] == cols[l]);
            }
        }
    }
}

// ---------------------------------------------------------------------------
// Key-set intersection, filtering, and cell-wise maps, generically.
// ---------------------------------------------------------------------------

/// Combine two entry sequences on the keys they share, in the left
/// sequence's order, cell by cell through `f`.
pub open spec fn join_cells<A, B, C>(
    l: Seq<(usize, A)>,
    r: Seq<(usize, B)>,
    f: spec_fn(A, B) -> C,
) -> Seq<(usize, C)>
    decreases l.len(),
{
    if l.len() == 0 {
        Seq::empty()
    } else {
        let rest = join_cells(l.drop_last(), r, f);
        match slookup(r, l.last().0) {
            None => rest,
            Some(b) => rest.push((l.last().0, f(l.last().1, b))),
        }
    }
}

/// Does `ok` hold of every pair of cells that share a key?
pub open spec fn join_ok<A, B>(
    l: Seq<(usize, A)>,
    r: Seq<(usize, B)>,
    ok: spec_fn(A, B) -> bool,
) -> bool
    decreases l.len(),
{
    if l.len() == 0 {
        true
    } else {
        join_ok(l.drop_last(), r, ok) && match slookup(r, l.last().0) {
            None => true,
            Some(b) => ok(l.last().1, b),
        }
    }
}

/// A join of sorted entries is sorted, and stays within the left keys.
pub proof fn lemma_join_sorted<A, B, C>(l: Seq<(usize, A)>, r: Seq<(usize, B)>, f: spec_fn(A, B) -> C)
    requires
        entries_sorted(l),
    ensures
        entries_sorted(join_cells(l, r, f)),
        join_cells(l, r, f).len() > 0 ==> l.len() > 0 && join_cells(l, r, f).last().0 <= l.last().0,
    decreases l.len(),
{
    if l.len() > 0 {
        assert forall|i: int, j: int| 0 <= i < j < l.drop_last().len() implies l.drop_last()[i].0
            < l.drop_last()[j].0 by {
            assert(l.drop_last()[i] == l[i]);
            assert(l.drop_last()[j] == l[j]);
        }
        lemma_join_sorted(l.drop_last(), r, f);
        let rest = join_cells(l.drop_last(), r, f);
        if rest.len() > 0 {
            assert(l.drop_last().last() == l[l.len() - 2]);
            assert(l[l.len() - 2].0 < l[l.len() - 1].0);
        }
    }
}

/// Each value mapped through `f`, keys kept.
pub open spec fn map_cells<A, C>(s: Seq<(usize, A)>, f: spec_fn(A) -> C) -> Seq<(usize, C)> {
    Seq::new(s.len(), |i: int| (s[i].0, f(s[i].1)))
}

/// A cell-wise map keeps the keys, so it keeps sortedness.
pub proof fn lemma_map_cells_sorted<A, C>(s: Seq<(usize, A)>, f: spec_fn(A) -> C)
    requires
        entries_sorted(s),
    ensures
        entries_sorted(map_cells(s, f)),
{
    assert forall|i: int, j: int| 0 <= i < j < map_cells(s, f).len() implies map_cells(s, f)[i].0
        < map_cells(s, f)[j].0 by {
        assert(s[i].0 < s[j].0);
    }
}

// ---------------------------------------------------------------------------
// Cell-level arithmetic and comparison.
// ---------------------------------------------------------------------------

pub open spec fn abs_int(a: int) -> int {
    if a >= 0 {
        a
    } else {
        -a
    }
}

/// Division truncated toward zero, as machine division computes it.
pub open spec fn tdiv(a: int, b: int) -> int
    recommends
        b != 0,
{
    if (a >= 0) == (b >= 0) {
        abs_int(a) / abs_int(b)
    } else {
        -(abs_int(a) / abs_int(b))
    }
}

/// The remainder that matches truncated division.
pub open spec fn tmod(a: int, b: int) -> int
    recommends
        b != 0,
{
    a - b * tdiv(a, b)
}

/// Can the arithmetic operator be applied to these operands without leaving
/// the 32-bit range or dividing by zero?
pub open spec fn int_op_ok(op: Binary, a: int, b: int) -> bool {
    match op {
        Binary::Plus => i32::MIN <= a + b <= i32::MAX,
        Binary::Minus => i32::MIN <= a - b <= i32::MAX,
        Binary::Mul => i32::MIN <= a * b <= i32::MAX,
        Binary::Div => b != 0 && i32::MIN <= tdiv(a, b) <= i32::MAX,
        Binary::Rem => b != 0 && i32::MIN <= tdiv(a, b) <= i32::MAX,
        _ => true,
    }
}

pub open spec fn int_op_val(op: Binary, a: int, b: int) -> int {
    match op {
        Binary::Plus => a + b,
        Binary::Minus => a - b,
        Binary::Mul => a * b,
        Binary::Div => tdiv(a, b),
        Binary::Rem => tmod(a, b),
        _ => 0,
    }
}

pub open spec fn int_cmp_val(op: Binary, a: int, b: int) -> bool {
    match op {
        Binary::Eq => a == b,
        Binary::Lt => a < b,
        Binary::Gt => a > b,
        Binary::LtEq => a <= b,
        Binary::GtEq => a >= b,
        Binary::NotEq => a != b,
        _ => false,
    }
}

/// Boolean comparison, with false ordered before true.
pub open spec fn bool_cmp_val(op: Binary, a: bool, b: bool) -> bool {
    match op {
        Binary::Eq => a == b,
        Binary::Lt => !a && b,
        Binary::Gt => a && !b,
        Binary::LtEq => !a || b,
        Binary::GtEq => a || !b,
        Binary::NotEq => a != b,
        _ => false,
    }
}

pub open spec fn str_cmp_val(op: Binary, a: Seq<char>, b: Seq<char>) -> bool {
    match op {
        Binary::Eq => a == b,
        Binary::NotEq => a != b,
        _ => false,
    }
}

// ---------------------------------------------------------------------------
// The combined columns each operator category produces.
// ---------------------------------------------------------------------------

pub open spec fn int_arith_cells(op: Binary, l: Seq<(usize, i32)>, r: Seq<(usize, i32)>) -> Seq<
    (usize, i32),
> {
    join_cells(l, r, |a: i32, b: i32| int_op_val(op, a as int, b as int) as i32)
}

pub open spec fn int_arith_ok(op: Binary, l: Seq<(usize, i32)>, r: Seq<(usize, i32)>) -> bool {
    join_ok(l, r, |a: i32, b: i32| int_op_ok(op, a as int, b as int))
}

pub open spec fn int_cmp_cells(op: Binary, l: Seq<(usize, i32)>, r: Seq<(usize, i32)>) -> Seq<
    (usize, bool),
> {
    join_cells(l, r, |a: i32, b: i32| int_cmp_val(op, a as int, b as int))
}

pub open spec fn bool_cmp_cells(op: Binary, l: Seq<(usize, bool)>, r: Seq<(usize, bool)>) -> Seq<
    (usize, bool),
> {
    join_cells(l, r, |a: bool, b: bool| bool_cmp_val(op, a, b))
}

pub open spec fn str_cmp_cells(
    op: Binary,
    l: Seq<(usize, Seq<char>)>,
    r: Seq<(usize, Seq<char>)>,
) -> Seq<(usize, bool)> {
    join_cells(l, r, |a: Seq<char>, b: Seq<char>| str_cmp_val(op, a, b))
}

pub open spec fn str_concat_cells(l: Seq<(usize, Seq<char>)>, r: Seq<(usize, Seq<char>)>) -> Seq<
    (usize, Seq<char>),
> {
    join_cells(l, r, |a: Seq<char>, b: Seq<char>| a + b)
}

/// A negated integer column, cell by cell.
pub open spec fn neg_int_cells(s: Seq<(usize, i32)>) -> Seq<(usize, i32)> {
    map_cells(s, |a: i32| (-(a as int)) as i32)
}

/// Can every cell be negated without leaving the 32-bit range?
pub open spec fn neg_int_ok(s: Seq<(usize, i32)>) -> bool {
    forall|i: int| 0 <= i < s.len() ==> (#[trigger] s[i]).1 != i32::MIN
}

/// A negated boolean column, cell by cell.
pub open spec fn not_bool_cells(s: Seq<(usize, bool)>) -> Seq<(usize, bool)> {
    map_cells(s, |a: bool| !a)
}

/// The cells storing exactly `want`, in order.
pub open spec fn filter_bool_cells(s: Seq<(usize, bool)>, want: bool) -> Seq<(usize, bool)>
    decreases s.len(),
{
    if s.len() == 0 {
        Seq::empty()
    } else {
        let rest = filter_bool_cells(s.drop_last(), want);
        if s.last().1 == want {
            rest.push(s.last())
        } else {
            rest
        }
    }
}

/// A filter of sorted entries is sorted, and stays within the old keys.
pub proof fn lemma_filter_bool_sorted(s: Seq<(usize, bool)>, want: bool)
    requires
        entries_sorted(s),
    ensures
        entries_sorted(filter_bool_cells(s, want)),
        filter_bool_cells(s, want).len() > 0 ==> s.len() > 0 && filter_bool_cells(
            s,
            want,
        ).last().0 <= s.last().0,
    decreases s.len(),
{
    if s.len() > 0 {
        assert forall|i: int, j: int| 0 <= i < j < s.drop_last().len() implies s.drop_last()[i].0
            < s.drop_last()[j].0 by {
            assert(s.drop_last()[i] == s[i]);
            assert(s.drop_last()[j] == s[j]);
        }
        lemma_filter_bool_sorted(s.drop_last(), want);
        let rest = filter_bool_cells(s.drop_last(), want);
        if rest.len() > 0 {
            assert(s.drop_last().last() == s[s.len() - 2]);
            assert(s[s.len() - 2].0 < s[s.len() - 1].0);
        }
    }
}

// ---------------------------------------------------------------------------
// The meaning of expression evaluation.
// ---------------------------------------------------------------------------

/// The kind of failure an evaluation reports; the column-not-found kind
/// carries the column and table names it names.
pub enum ErrAbs {
    InvalidQuery,
    ColumnNotFound(Seq<char>, Seq<char>),
    InvalidOperation,
    Unsupported,
    EvaluationError,
    TableNotFound(Seq<char>),
    TableAlreadyExists(Seq<char>),
    Other,
}

/// The kind of an error value.
pub open spec fn err_abs(e: Error) -> ErrAbs {
    match e {
        Error::InvalidQuery(_) => ErrAbs::InvalidQuery,
        Error::ColumnNotFound { col, table } => ErrAbs::ColumnNotFound(col@, table@),
        Error::InvalidOperation(_) => ErrAbs::InvalidOperation,
        Error::Unsupported(_) => ErrAbs::Unsupported,
        Error::EvaluationError(_) => ErrAbs::EvaluationError,
        Error::TableNotFound(t) => ErrAbs::TableNotFound(t@),
        Error::TableAlreadyExists(t) => ErrAbs::TableAlreadyExists(t@),
        _ => ErrAbs::Other,
    }
}

/// What an evaluation yields: output columns, or a failure kind.
pub enum EvalOut {
    Cols(Seq<OutAbs>),
    Fail(ErrAbs),
}

/// The single-row column a non-null literal evaluates to, at row id 0.
pub open spec fn lit_cells_view(l: Literal) -> CellsView
    recommends
        !(l is Null),
{
    match l {
        Literal::Int(x) => CellsView::Int(seq![(0usize, x)]),
        Literal::Str(s) => CellsView::Str(seq![(0usize, s@)]),
        Literal::Bool(b) => CellsView::Bool(seq![(0usize, b)]),
        Literal::Null => CellsView::Int(Seq::empty()),
    }
}

/// A literal broadcast over every row id from 0 through `till`.
pub open spec fn fill_view(l: Literal, till: usize) -> CellsView
    recommends
        !(l is Null),
{
    match l {
        Literal::Int(x) => CellsView::Int(Seq::new((till + 1) as nat, |i: int| (i as usize, x))),
        Literal::Str(s) => CellsView::Str(Seq::new((till + 1) as nat, |i: int| (i as usize, s@))),
        Literal::Bool(b) => CellsView::Bool(Seq::new((till + 1) as nat, |i: int| (i as usize, b))),
        Literal::Null => CellsView::Int(Seq::empty()),
    }
}

/// The broadcast column's view is the view of the filled storage.
pub proof fn lemma_fill_view(l: Literal, till: usize)
    ensures
        cc_view(crate::table::cc_filled(l, till)) == fill_view(l, till),
{
    match l {
        Literal::Str(s) => {
            assert(cc_view(crate::table::cc_filled(l, till)) =~= fill_view(l, till)) by {
                assert(str_views(Seq::new((till + 1) as nat, |i: int| (i as usize, s)))
                    =~= Seq::new((till + 1) as nat, |i: int| (i as usize, s@)));
            }
        },
        _ => (),
    }
}

/// What a column reference evaluates to under an optionally bound table.
pub open spec fn ident_eval_s(t: Option<TableAbs>, id: Ident) -> EvalOut {
    match t {
        None => EvalOut::Fail(ErrAbs::EvaluationError),
        Some(tb) => match id {
            Ident::Wildcard => EvalOut::Cols(cols_out(tb.cols)),
            Ident::Named(nm) => {
                let idx = crate::table::find_col_idx(tb.cols, nm@);
                if idx == -1 {
                    EvalOut::Fail(ErrAbs::ColumnNotFound(nm@, tb.name))
                } else {
                    EvalOut::Cols(
                        seq![
                            OutAbs {
                                name: tb.cols[idx].header.name@,
                                cells: cc_view(tb.cols[idx].cells),
                            },
                        ],
                    )
                }
            },
        },
    }
}

/// What a truth test (`IS TRUE` / `IS FALSE`) evaluates to. On a named
/// boolean column it keeps the rows storing exactly `want`. On a bare
/// boolean literal it yields the whole table for a false literal and
/// nothing otherwise, for either polarity of the test.
pub open spec fn is_test_s(t: Option<TableAbs>, inner: Expression, want: bool) -> EvalOut {
    match inner {
        Expression::Literal(l) => match l {
            Literal::Bool(b) => if !b {
                match t {
                    Some(tb) => EvalOut::Cols(cols_out(tb.cols)),
                    None => EvalOut::Cols(Seq::empty()),
                }
            } else {
                EvalOut::Cols(Seq::empty())
            },
            _ => EvalOut::Fail(ErrAbs::InvalidOperation),
        },
        Expression::Ident(id) => match id {
            Ident::Wildcard => EvalOut::Fail(ErrAbs::InvalidOperation),
            Ident::Named(nm) => match t {
                None => EvalOut::Fail(ErrAbs::InvalidOperation),
                Some(tb) => {
                    let idx = crate::table::find_col_idx(tb.cols, nm@);
                    if idx == -1 {
                        EvalOut::Fail(ErrAbs::ColumnNotFound(nm@, tb.name))
                    } else {
                        match tb.cols[idx].cells {
                            ColCells::Bool(s) => EvalOut::Cols(
                                seq![
                                    OutAbs {
                                        name: anon_name(),
                                        cells: CellsView::Bool(filter_bool_cells(s, want)),
                                    },
                                ],
                            ),
                            _ => EvalOut::Fail(ErrAbs::InvalidOperation),
                        }
                    }
                },
            },
        },
        _ => EvalOut::Fail(ErrAbs::Unsupported),
    }
}

/// What boolean negation evaluates to: a negated boolean literal or a
/// cell-wise negated boolean column.
pub open spec fn not_s(t: Option<TableAbs>, inner: Expression) -> EvalOut {
    match inner {
        Expression::Literal(l) => match l {
            Literal::Bool(b) => EvalOut::Cols(
                seq![OutAbs { name: anon_name(), cells: CellsView::Bool(seq![(0usize, !b)]) }],
            ),
            _ => EvalOut::Fail(ErrAbs::Unsupported),
        },
        Expression::Ident(id) => match id {
            Ident::Named(nm) => match t {
                None => EvalOut::Fail(ErrAbs::Unsupported),
                Some(tb) => {
                    let idx = crate::table::find_col_idx(tb.cols, nm@);
                    if idx == -1 {
                        EvalOut::Fail(ErrAbs::ColumnNotFound(nm@, tb.name))
                    } else {
                        match tb.cols[idx].cells {
                            ColCells::Bool(s) => EvalOut::Cols(
                                seq![
                                    OutAbs {
                                        name: anon_name(),
                                        cells: CellsView::Bool(not_bool_cells(s)),
                                    },
                                ],
                            ),
                            _ => EvalOut::Fail(ErrAbs::Unsupported),
                        }
                    }
                },
            },
            Ident::Wildcard => EvalOut::Fail(ErrAbs::Unsupported),
        },
        _ => EvalOut::Fail(ErrAbs::Unsupported),
    }
}

/// Numeric negation of evaluated columns, column by column and cell by
/// cell; non-numeric columns are refused, as is a cell that cannot be
/// negated in 32 bits.
pub open spec fn neg_cols_s(cols: Seq<OutAbs>) -> EvalOut
    decreases cols.len(),
{
    if cols.len() == 0 {
        EvalOut::Cols(Seq::empty())
    } else {
        match neg_cols_s(cols.drop_last()) {
            EvalOut::Fail(f) => EvalOut::Fail(f),
            EvalOut::Cols(rest) => match cols.last().cells {
                CellsView::Int(s) => if neg_int_ok(s) {
                    EvalOut::Cols(
                        rest.push(
                            OutAbs {
                                name: cols.last().name,
                                cells: CellsView::Int(neg_int_cells(s)),
                            },
                        ),
                    )
                } else {
                    EvalOut::Fail(ErrAbs::InvalidOperation)
                },
                _ => EvalOut::Fail(ErrAbs::Unsupported),
            },
        }
    }
}

/// What an arithmetic operator yields on two single columns: matching
/// numeric columns combine cell-wise over shared row ids; string columns
/// concatenate under plus; anything else is a type mismatch.
pub open spec fn arith_result_s(op: Binary, lc: OutAbs, rc: OutAbs) -> EvalOut {
    match (lc.cells, rc.cells) {
        (CellsView::Int(a), CellsView::Int(b)) => if int_arith_ok(op, a, b) {
            EvalOut::Cols(
                seq![OutAbs { name: lc.name, cells: CellsView::Int(int_arith_cells(op, a, b)) }],
            )
        } else {
            EvalOut::Fail(ErrAbs::InvalidOperation)
        },
        (CellsView::Str(a), CellsView::Str(b)) => if op is Plus {
            EvalOut::Cols(
                seq![OutAbs { name: lc.name, cells: CellsView::Str(str_concat_cells(a, b)) }],
            )
        } else {
            EvalOut::Fail(ErrAbs::InvalidQuery)
        },
        _ => EvalOut::Fail(ErrAbs::InvalidQuery),
    }
}

/// What a comparison operator yields on a left column and right contents:
/// a boolean column over the shared row ids, named after the left operand.
pub open spec fn cmp_result_s(op: Binary, lc: OutAbs, rcells: CellsView) -> EvalOut {
    match (lc.cells, rcells) {
        (CellsView::Int(a), CellsView::Int(b)) => EvalOut::Cols(
            seq![OutAbs { name: lc.name, cells: CellsView::Bool(int_cmp_cells(op, a, b)) }],
        ),
        (CellsView::Bool(a), CellsView::Bool(b)) => EvalOut::Cols(
            seq![OutAbs { name: lc.name, cells: CellsView::Bool(bool_cmp_cells(op, a, b)) }],
        ),
        (CellsView::Str(a), CellsView::Str(b)) => if op is Eq || op is NotEq {
            EvalOut::Cols(
                seq![OutAbs { name: lc.name, cells: CellsView::Bool(str_cmp_cells(op, a, b)) }],
            )
        } else {
            EvalOut::Fail(ErrAbs::InvalidQuery)
        },
        _ => EvalOut::Fail(ErrAbs::InvalidQuery),
    }
}

/// What evaluating an expression against an optionally bound table means.
/// This is the reference semantics every evaluation result is held to.
pub open spec fn eval_s(t: Option<TableAbs>, e: Expression) -> EvalOut
    decreases e,
{
    match e {
        Expression::Literal(l) => match l {
            Literal::Null => EvalOut::Cols(Seq::empty()),
            _ => EvalOut::Cols(seq![OutAbs { name: anon_name(), cells: lit_cells_view(l) }]),
        },
        Expression::Ident(id) => ident_eval_s(t, id),
        Expression::IsFalse(inner) => is_test_s(t, *inner, false),
        Expression::IsTrue(inner) => is_test_s(t, *inner, true),
        Expression::Unary { operator, expression } => match operator {
            Unary::Not => not_s(t, *expression),
            Unary::Plus => match *expression {
                Expression::Literal(l) => match l {
                    Literal::Null => EvalOut::Fail(ErrAbs::InvalidOperation),
                    _ => EvalOut::Cols(
                        seq![OutAbs { name: anon_name(), cells: lit_cells_view(l) }],
                    ),
                },
                Expression::Ident(id) => ident_eval_s(t, id),
                _ => EvalOut::Fail(ErrAbs::Unsupported),
            },
            Unary::Minus => match *expression {
                Expression::Literal(l) => match l {
                    Literal::Int(x) => if x == i32::MIN {
                        EvalOut::Fail(ErrAbs::InvalidOperation)
                    } else {
                        EvalOut::Cols(
                            seq![
                                OutAbs {
                                    name: anon_name(),
                                    cells: CellsView::Int(seq![(0usize, (-(x as int)) as i32)]),
                                },
                            ],
                        )
                    },
                    _ => EvalOut::Fail(ErrAbs::Unsupported),
                },
                Expression::Ident(id) => match ident_eval_s(t, id) {
                    EvalOut::Fail(f) => EvalOut::Fail(f),
                    EvalOut::Cols(cols) => neg_cols_s(cols),
                },
                _ => EvalOut::Fail(ErrAbs::Unsupported),
            },
        },
        Expression::Binary { operator, left, right } => match eval_s(t, *left) {
            EvalOut::Fail(f) => EvalOut::Fail(f),
            EvalOut::Cols(ls) => match eval_s(t, *right) {
                EvalOut::Fail(f) => EvalOut::Fail(f),
                EvalOut::Cols(rs) => if ls.len() != 1 || rs.len() != 1 {
                    EvalOut::Fail(ErrAbs::InvalidQuery)
                } else if is_arith(operator) {
                    arith_result_s(operator, ls[0], rs[0])
                } else {
                    match *right {
                        Expression::Literal(rl) => if rl is Null {
                            EvalOut::Fail(ErrAbs::InvalidOperation)
                        } else if cv_max_key(ls[0].cells) == usize::MAX {
                            EvalOut::Fail(ErrAbs::InvalidOperation)
                        } else {
                            cmp_result_s(operator, ls[0], fill_view(rl, cv_max_key(ls[0].cells)))
                        },
                        _ => cmp_result_s(operator, ls[0], rs[0].cells),
                    }
                },
            },
        },
        Expression::NoPredicate => EvalOut::Fail(ErrAbs::InvalidOperation),
        _ => EvalOut::Fail(ErrAbs::Unsupported),
    }
}

/// The abstraction of an optionally bound table.
pub open spec fn opt_abs(t: Option<&Table>) -> Option<TableAbs> {
    match t {
        Some(tb) => Some(tb.abs()),
        None => None,
    }
}

/// When every shared cell pair is arithmetically feasible, so is the pair
/// at each index.
proof fn lemma_int_arith_ok_each(op: Binary, l: Seq<(usize, i32)>, r: Seq<(usize, i32)>, i: int)
    requires
        int_arith_ok(op, l, r),
        0 <= i < l.len(),
    ensures
        match slookup(r, l[i].0) {
            None => true,
            Some(b) => int_op_ok(op, l[i].1 as int, b as int),
        },
    decreases l.len(),
{
    if i < l.len() - 1 {
        assert(l.drop_last()[i] == l[i]);
        lemma_int_arith_ok_each(op, l.drop_last(), r, i);
    } else {
        assert(l.last() == l[i]);
    }
}

/// One arithmetic step on two cells; `None` when the result would leave the
/// 32-bit range or divide by zero.
fn int_bin_exec(op: Binary, a: i32, b: i32) -> (r: Option<i32>)
    requires
        is_arith(op),
    ensures
        match r {
            Some(v) => int_op_ok(op, a as int, b as int) && v as int == int_op_val(
                op,
                a as int,
                b as int,
            ),
            None => !int_op_ok(op, a as int, b as int),
        },
{
    match op {
        Binary::Plus => {
            let s: i64 = a as i64 + b as i64;
            if s >= -2147483648i64 && s <= 2147483647i64 {
                Some(s as i32)
            } else {
                None
            }
        },
        Binary::Minus => {
            let s: i64 = a as i64 - b as i64;
            if s >= -2147483648i64 && s <= 2147483647i64 {
                Some(s as i32)
            } else {
                None
            }
        },
        Binary::Mul => {
            proof {
                assert(-0x4000000000000000 <= (a as int) * (b as int)
                    <= 0x4000000000000000) by (nonlinear_arith)
                    requires
                        -0x80000000 <= a as int <= 0x7fffffff,
                        -0x80000000 <= b as int <= 0x7fffffff,
                ;
            }
            let s: i64 = a as i64 * b as i64;
            if s >= -2147483648i64 && s <= 2147483647i64 {
                Some(s as i32)
            } else {
                None
            }
        },
        Binary::Div => div_rem_exec(a, b, true),
        Binary::Rem => div_rem_exec(a, b, false),
        _ => None,
    }
}

/// Truncated division or its remainder, computed through unsigned 64-bit
/// arithmetic; `None` on a zero divisor or an out-of-range quotient.
fn div_rem_exec(a: i32, b: i32, want_div: bool) -> (r: Option<i32>)
    ensures
        match r {
            Some(v) => b != 0 && i32::MIN <= tdiv(a as int, b as int) <= i32::MAX && v as int == (
            if want_div {
                tdiv(a as int, b as int)
            } else {
                tmod(a as int, b as int)
            }),
            None => !(b != 0 && i32::MIN <= tdiv(a as int, b as int) <= i32::MAX),
        },
{
    if b == 0 {
        return None;
    }
    let aa: i64 = a as i64;
    let bb: i64 = b as i64;
    let ua: u64 = if aa < 0 {
        (-aa) as u64
    } else {
        aa as u64
    };
    let ub: u64 = if bb < 0 {
        (-bb) as u64
    } else {
        bb as u64
    };
    let uq: u64 = ua / ub;
    proof {
        assert(ua == abs_int(a as int));
        assert(ub == abs_int(b as int));
        assert(uq == abs_int(a as int) / abs_int(b as int));
    }
    let neg = (a < 0) != (b < 0);
    let q: i64 = if neg {
        -(uq as i64)
    } else {
        uq as i64
    };
    proof {
        assert(uq <= ua);
        assert(q == tdiv(a as int, b as int));
    }
    if q < -2147483648i64 || q > 2147483647i64 {
        return None;
    }
    if want_div {
        Some(q as i32)
    } else {
        proof {
            assert(-0x4000000000000000 <= (bb as int) * (q as int)
                <= 0x4000000000000000) by (nonlinear_arith)
                requires
                    -0x80000000 <= bb as int <= 0x80000000,
                    -0x80000000 <= q as int <= 0x80000000,
            ;
        }
        let rem: i64 = aa - bb * q;
        proof {
            assert(rem == tmod(a as int, b as int));
            lemma_tmod_range(a as int, b as int);
        }
        Some(rem as i32)
    }
}

/// The truncated remainder is smaller than the divisor in magnitude and
/// carries the dividend's sign.
proof fn lemma_tmod_range(a: int, b: int)
    requires
        b != 0,
    ensures
        abs_int(tmod(a, b)) < abs_int(b),
        abs_int(tmod(a, b)) <= abs_int(a),
{
    let ua = abs_int(a);
    let ub = abs_int(b);
    let uq = ua / ub;
    assert(ua == ub * uq + ua % ub) by (nonlinear_arith)
        requires
            ub > 0,
            uq == ua / ub,
    ;
    assert(0 <= ua % ub < ub);
    if (a >= 0) == (b >= 0) {
        assert(tmod(a, b) == a - b * uq);
        if a >= 0 {
            assert(a - b * uq == ua - ub * uq == ua % ub) by (nonlinear_arith)
                requires
                    a == ua,
                    b == ub,
                    ua == ub * uq + ua % ub,
            ;
        } else {
            assert(a - b * uq == -(ua - ub * uq)) by (nonlinear_arith)
                requires
                    a == -ua,
                    b == -ub,
            ;
            assert(ua - ub * uq == ua % ub);
        }
    } else {
        assert(tmod(a, b) == a - b * (-uq));
        if a >= 0 {
            assert(a - b * (-uq) == ua - ub * uq) by (nonlinear_arith)
                requires
                    a == ua,
                    b == -ub,
            ;
            assert(ua - ub * uq == ua % ub);
        } else {
            assert(a - b * (-uq) == -(ua - ub * uq)) by (nonlinear_arith)
                requires
                    a == -ua,
                    b == ub,
            ;
            assert(ua - ub * uq == ua % ub);
        }
    }
}

/// Combine two integer columns with an arithmetic operator over the shared
/// row ids; refused when any shared cell pair is infeasible.
fn merge_int_arith(op: Binary, l: &RowMap<i32>, r: &RowMap<i32>) -> (res: Result<
    RowMap<i32>,
    Error,
>)
    requires
        is_arith(op),
        l.wf(),
        r.wf(),
    ensures
        match res {
            Ok(m) => int_arith_ok(op, l@, r@) && m.wf() && m@ == int_arith_cells(op, l@, r@),
            Err(e) => e is InvalidOperation && !int_arith_ok(op, l@, r@),
        },
{
    let n = l.num_entries();
    let mut out: Vec<(usize, i32)> = Vec::new();
    let mut i: usize = 0;
    while i < n
        invariant
            is_arith(op),
            l.wf(),
            r.wf(),
            n == l@.len(),
            0 <= i <= n,
            out@ == int_arith_cells(op, l@.take(i as int), r@),
            int_arith_ok(op, l@.take(i as int), r@),
        decreases n - i,
    {
        proof {
            assert(l@.take(i + 1).drop_last() =~= l@.take(i as int));
            assert(l@.take(i + 1).last() == l@[i as int]);
        }
        let k = l.key_at(i);
        let a = *l.val_at(i);
        let got = r.get(k);
        match got {
            None => {
            },
            Some(bref) => {
                let b = *bref;
                let stepped = int_bin_exec(op, a, b);
                match stepped {
                    Some(v) => {
                        out.push((k, v));
                    },
                    None => {
                        proof {
                            if int_arith_ok(op, l@, r@) {
                                lemma_int_arith_ok_each(op, l@, r@, i as int);
                            }
                        }
                        return Err(
                            Error::InvalidOperation("arithmetic result out of range".to_owned()),
                        );
                    },
                }
            },
        }
        i += 1;
    }
    proof {
        assert(l@.take(n as int) =~= l@);
        lemma_join_sorted(l@, r@, |a2: i32, b2: i32| int_op_val(op, a2 as int, b2 as int) as i32);
    }
    Ok(RowMap::from_entries(out))
}

/// Compare two integer columns over the shared row ids.
fn merge_int_cmp(op: Binary, l: &RowMap<i32>, r: &RowMap<i32>) -> (m: RowMap<bool>)
    requires
        l.wf(),
        r.wf(),
    ensures
        m.wf(),
        m@ == int_cmp_cells(op, l@, r@),
{
    let n = l.num_entries();
    let mut out: Vec<(usize, bool)> = Vec::new();
    let mut i: usize = 0;
    while i < n
        invariant
            l.wf(),
            r.wf(),
            n == l@.len(),
            0 <= i <= n,
            out@ == int_cmp_cells(op, l@.take(i as int), r@),
        decreases n - i,
    {
        proof {
            assert(l@.take(i + 1).drop_last() =~= l@.take(i as int));
            assert(l@.take(i + 1).last() == l@[i as int]);
        }
        let k = l.key_at(i);
        let a = *l.val_at(i);
        let got = r.get(k);
        match got {
            None => {
            },
            Some(bref) => {
                let b = *bref;
                let cell = match op {
                    Binary::Eq => a == b,
                    Binary::Lt => a < b,
                    Binary::Gt => a > b,
                    Binary::LtEq => a <= b,
                    Binary::GtEq => a >= b,
                    Binary::NotEq => a != b,
                    _ => false,
                };
                out.push((k, cell));
            },
        }
        i += 1;
    }
    proof {
        assert(l@.take(n as int) =~= l@);
        lemma_join_sorted(l@, r@, |a2: i32, b2: i32| int_cmp_val(op, a2 as int, b2 as int));
    }
    RowMap::from_entries(out)
}

/// Compare two boolean columns over the shared row ids, false before true.
fn merge_bool_cmp(op: Binary, l: &RowMap<bool>, r: &RowMap<bool>) -> (m: RowMap<bool>)
    requires
        l.wf(),
        r.wf(),
    ensures
        m.wf(),
        m@ == bool_cmp_cells(op, l@, r@),
{
    let n = l.num_entries();
    let mut out: Vec<(usize, bool)> = Vec::new();
    let mut i: usize = 0;
    while i < n
        invariant
            l.wf(),
            r.wf(),
            n == l@.len(),
            0 <= i <= n,
            out@ == bool_cmp_cells(op, l@.take(i as int), r@),
        decreases n - i,
    {
        proof {
            assert(l@.take(i + 1).drop_last() =~= l@.take(i as int));
            assert(l@.take(i + 1).last() == l@[i as int]);
        }
        let k = l.key_at(i);
        let a = *l.val_at(i);
        let got = r.get(k);
        match got {
            None => {
            },
            Some(bref) => {
                let b = *bref;
                let cell = match op {
                    Binary::Eq => a == b,
                    Binary::Lt => !a && b,
                    Binary::Gt => a && !b,
                    Binary::LtEq => !a || b,
                    Binary::GtEq => a || !b,
                    Binary::NotEq => a != b,
                    _ => false,
                };
                out.push((k, cell));
            },
        }
        i += 1;
    }
    proof {
        assert(l@.take(n as int) =~= l@);
        lemma_join_sorted(l@, r@, |a2: bool, b2: bool| bool_cmp_val(op, a2, b2));
    }
    RowMap::from_entries(out)
}

/// Compare two string columns for equality over the shared row ids.
fn merge_str_cmp(op: Binary, l: &RowMap<String>, r: &RowMap<String>) -> (m: RowMap<bool>)
    requires
        l.wf(),
        r.wf(),
    ensures
        m.wf(),
        m@ == str_cmp_cells(op, str_views(l@), str_views(r@)),
{
    let ghost lv = str_views(l@);
    let ghost rv = str_views(r@);
    proof {
        lemma_str_views_sorted(l@);
    }
    let n = l.num_entries();
    let mut out: Vec<(usize, bool)> = Vec::new();
    let mut i: usize = 0;
    while i < n
        invariant
            l.wf(),
            r.wf(),
            lv == str_views(l@),
            rv == str_views(r@),
            entries_sorted(lv),
            n == l@.len(),
            n == lv.len(),
            0 <= i <= n,
            out@ == str_cmp_cells(op, lv.take(i as int), rv),
        decreases n - i,
    {
        proof {
            assert(lv.take(i + 1).drop_last() =~= lv.take(i as int));
            assert(lv.take(i + 1).last() == lv[i as int]);
            assert(lv[i as int] == (l@[i as int].0, l@[i as int].1@));
        }
        let k = l.key_at(i);
        let aref = l.val_at(i);
        let got = r.get(k);
        proof {
            lemma_str_views_lookup(r@, k);
        }
        match got {
            None => {
            },
            Some(bref) => {
                let eq_v = *aref == *bref;
                let cell = match op {
                    Binary::Eq => eq_v,
                    Binary::NotEq => !eq_v,
                    _ => false,
                };
                out.push((k, cell));
            },
        }
        i += 1;
    }
    proof {
        assert(lv.take(n as int) =~= lv);
        lemma_join_sorted(lv, rv, |a2: Seq<char>, b2: Seq<char>| str_cmp_val(op, a2, b2));
    }
    RowMap::from_entries(out)
}

/// Concatenate two string columns over the shared row ids.
fn merge_str_concat(l: &RowMap<String>, r: &RowMap<String>) -> (m: RowMap<String>)
    requires
        l.wf(),
        r.wf(),
    ensures
        m.wf(),
        str_views(m@) == str_concat_cells(str_views(l@), str_views(r@)),
{
    let ghost lv = str_views(l@);
    let ghost rv = str_views(r@);
    proof {
        lemma_str_views_sorted(l@);
    }
    let n = l.num_entries();
    let mut out: Vec<(usize, String)> = Vec::new();
    let mut i: usize = 0;
    while i < n
        invariant
            l.wf(),
            r.wf(),
            lv == str_views(l@),
            rv == str_views(r@),
            entries_sorted(lv),
            n == l@.len(),
            n == lv.len(),
            0 <= i <= n,
            str_views(out@) == str_concat_cells(lv.take(i as int), rv),
        decreases n - i,
    {
        proof {
            assert(lv.take(i + 1).drop_last() =~= lv.take(i as int));
            assert(lv.take(i + 1).last() == lv[i as int]);
            assert(lv[i as int] == (l@[i as int].0, l@[i as int].1@));
        }
        let k = l.key_at(i);
        let aref = l.val_at(i);
        let got = r.get(k);
        proof {
            lemma_str_views_lookup(r@, k);
        }
        match got {
            None => {
            },
            Some(bref) => {
                let joined = aref.clone().concat(bref.as_str());
                out.push((k, joined));
                proof {
                    assert(str_views(out@) =~= str_concat_cells(lv.take(i + 1), rv));
                }
            },
        }
        i += 1;
    }
    proof {
        assert(lv.take(n as int) =~= lv);
        lemma_join_sorted(lv, rv, |a2: Seq<char>, b2: Seq<char>| a2 + b2);
        lemma_str_views_sorted(out@);
    }
    RowMap::from_entries(out)
}

/// Negate an integer column cell by cell; refused when a cell holds the
/// smallest 32-bit value.
fn neg_int_col(l: &RowMap<i32>) -> (res: Result<RowMap<i32>, Error>)
    requires
        l.wf(),
    ensures
        match res {
            Ok(m) => neg_int_ok(l@) && m.wf() && m@ == neg_int_cells(l@),
            Err(e) => e is InvalidOperation && !neg_int_ok(l@),
        },
{
    let n = l.num_entries();
    let mut out: Vec<(usize, i32)> = Vec::new();
    let mut i: usize = 0;
    while i < n
        invariant
            l.wf(),
            n == l@.len(),
            0 <= i <= n,
            out@ == neg_int_cells(l@.take(i as int)),
            forall|j: int| 0 <= j < i ==> (#[trigger] l@[j]).1 != i32::MIN,
        decreases n - i,
    {
        let k = l.key_at(i);
        let a = *l.val_at(i);
        if a == -2147483648i32 {
            return Err(Error::InvalidOperation("negation out of range".to_owned()));
        }
        out.push((k, -a));
        proof {
            assert(out@ =~= neg_int_cells(l@.take(i + 1)));
        }
        i += 1;
    }
    proof {
        assert(l@.take(n as int) =~= l@);
        lemma_map_cells_sorted(l@, |a2: i32| (-(a2 as int)) as i32);
    }
    Ok(RowMap::from_entries(out))
}

/// Negate a boolean column cell by cell.
fn not_bool_col(l: &RowMap<bool>) -> (m: RowMap<bool>)
    requires
        l.wf(),
    ensures
        m.wf(),
        m@ == not_bool_cells(l@),
{
    let n = l.num_entries();
    let mut out: Vec<(usize, bool)> = Vec::new();
    let mut i: usize = 0;
    while i < n
        invariant
            l.wf(),
            n == l@.len(),
            0 <= i <= n,
            out@ == not_bool_cells(l@.take(i as int)),
        decreases n - i,
    {
        let k = l.key_at(i);
        let a = *l.val_at(i);
        out.push((k, !a));
        proof {
            assert(out@ =~= not_bool_cells(l@.take(i + 1)));
        }
        i += 1;
    }
    proof {
        assert(l@.take(n as int) =~= l@);
        lemma_map_cells_sorted(l@, |a2: bool| !a2);
    }
    RowMap::from_entries(out)
}

/// Keep only the cells storing exactly `want`.
fn filter_bool_col(l: &RowMap<bool>, want: bool) -> (m: RowMap<bool>)
    requires
        l.wf(),
    ensures
        m.wf(),
        m@ == filter_bool_cells(l@, want),
{
    let n = l.num_entries();
    let mut out: Vec<(usize, bool)> = Vec::new();
    let mut i: usize = 0;
    while i < n
        invariant
            l.wf(),
            n == l@.len(),
            0 <= i <= n,
            out@ == filter_bool_cells(l@.take(i as int), want),
        decreases n - i,
    {
        proof {
            assert(l@.take(i + 1).drop_last() =~= l@.take(i as int));
            assert(l@.take(i + 1).last() == l@[i as int]);
        }
        let k = l.key_at(i);
        let a = *l.val_at(i);
        if a == want {
            out.push((k, a));
        }
        i += 1;
    }
    proof {
        assert(l@.take(n as int) =~= l@);
        lemma_filter_bool_sorted(l@, want);
    }
    RowMap::from_entries(out)
}

// ---------------------------------------------------------------------------
// Building output columns.
// ---------------------------------------------------------------------------

/// The display name of columns that are born from literals or operators.
fn anon_string() -> (r: String)
    ensures
        r@ == anon_name(),
{
    proof {
        reveal_strlit("?column?");
    }
    let r = "?column?".to_owned();
    assert(r@ =~= anon_name());
    r
}

/// The stored maximum key equals the view-level maximum key.
proof fn lemma_cv_max(c: ColCells)
    ensures
        cv_max_key(cc_view(c)) == crate::table::cc_max_key(c),
{
    match c {
        ColCells::Str(s) => {
            if s.len() > 0 {
                assert(str_views(s).last() == (s.last().0, s.last().1@));
            }
        },
        _ => (),
    }
}

impl OutColumn {
    /// The single-row column a non-null literal evaluates to.
    pub fn from_literal(lit: Literal) -> (r: OutColumn)
        requires
            !(lit is Null),
        ensures
            r.wf(),
            r.abs() == (OutAbs { name: anon_name(), cells: lit_cells_view(lit) }),
    {
        let name = anon_string();
        match lit {
            Literal::Int(x) => {
                let mut v: Vec<(usize, i32)> = Vec::new();
                v.push((0, x));
                OutColumn { name, data: ColumnData::Int(RowMap::from_entries(v)) }
            },
            Literal::Str(s) => {
                let mut v: Vec<(usize, String)> = Vec::new();
                v.push((0, s));
                let r = OutColumn { name, data: ColumnData::Str(RowMap::from_entries(v)) };
                proof {
                    assert(cc_view(r.data.cells()) =~= lit_cells_view(lit)) by {
                        assert(str_views(v@) =~= seq![(0usize, v@[0].1@)]);
                    }
                }
                r
            },
            Literal::Bool(b) => {
                let mut v: Vec<(usize, bool)> = Vec::new();
                v.push((0, b));
                OutColumn { name, data: ColumnData::Bool(RowMap::from_entries(v)) }
            },
            Literal::Null => {
                OutColumn { name, data: ColumnData::Int(RowMap::new()) }
            },
        }
    }

    /// A table column copied out under its own name.
    pub fn from_column(c: &Column) -> (r: OutColumn)
        requires
            crate::table::cc_wf(c.data.cells()),
        ensures
            r.wf(),
            r.abs() == (OutAbs {
                name: c.header.name@,
                cells: cc_view(c.data.cells()),
            }),
    {
        OutColumn { name: c.header.name.clone(), data: c.data.clone() }
    }

    /// Evaluation output carried under the anonymous column name.
    pub fn from_data(data: ColumnData) -> (r: OutColumn)
        requires
            crate::table::cc_wf(data.cells()),
        ensures
            r.wf(),
            r.abs() == (OutAbs { name: anon_name(), cells: cc_view(data.cells()) }),
    {
        OutColumn { name: anon_string(), data }
    }
}

/// A one-column result.
fn single(col: OutColumn) -> (r: Vec<OutColumn>)
    ensures
        r@.len() == 1,
        r@[0] == col,
        outs_abs(r@) == seq![col.abs()],
{
    let mut v: Vec<OutColumn> = Vec::new();
    v.push(col);
    proof {
        lemma_outs_abs(v@);
        assert(outs_abs(v@) =~= seq![col.abs()]);
    }
    v
}

/// Every column of the table as an output column, names kept.
pub(crate) fn all_out_columns(t: &Table) -> (r: Vec<OutColumn>)
    requires
        t.wf(),
    ensures
        outs_abs(r@) == cols_out(t.abs().cols),
        forall|i: int| 0 <= i < r@.len() ==> (#[trigger] r@[i]).wf(),
{
    let ghost cols0 = t.abs().cols;
    proof {
        lemma_cols_abs(t.columns@);
        lemma_cols_out(cols0);
    }
    let n = t.columns.len();
    let mut out: Vec<OutColumn> = Vec::new();
    let mut i: usize = 0;
    while i < n
        invariant
            t.wf(),
            cols0 == t.abs().cols,
            n == t.columns@.len(),
            n == cols0.len(),
            0 <= i <= n,
            outs_abs(out@) == cols_out(cols0).take(i as int),
            out@.len() == i,
            forall|l: int| 0 <= l < out@.len() ==> (#[trigger] out@[l]).wf(),
        decreases n - i,
    {
        proof {
            lemma_cols_abs(t.columns@);
            lemma_cols_out(cols0);
            assert(cols0[i as int] == t.columns@[i as int].abs());
            assert(col_wf(cols0[i as int]));
        }
        let c = OutColumn::from_column(&t.columns[i]);
        let ghost prev = out@;
        out.push(c);
        proof {
            lemma_outs_abs(prev);
            lemma_outs_abs(out@);
            assert forall|l: int| 0 <= l < i + 1 implies outs_abs(out@)[l] == cols_out(
                cols0,
            ).take(i + 1)[l] by {
                if l < i {
                    assert(out@[l] == prev[l]);
                    assert(outs_abs(prev)[l] == cols_out(cols0).take(i as int)[l]);
                } else {
                    assert(out@[l] == c);
                }
            }
            assert(outs_abs(out@) =~= cols_out(cols0).take(i + 1));
        }
        i += 1;
    }
    proof {
        assert(cols_out(cols0).take(n as int) =~= cols_out(cols0));
    }
    out
}

/// Do the table's well-formedness assumptions hold, if one is bound?
pub open spec fn opt_wf(t: Option<&Table>) -> bool {
    match t {
        Some(tb) => tb.wf(),
        None => true,
    }
}

/// What a run of the evaluator must report for `eo`.
pub open spec fn eval_matches(eo: EvalOut, r: Result<Vec<OutColumn>, Error>) -> bool {
    match r {
        Ok(cols) => eo == EvalOut::Cols(outs_abs(cols@)) && (forall|i: int|
            0 <= i < cols@.len() ==> (#[trigger] cols@[i]).wf()),
        Err(e) => eo == EvalOut::Fail(err_abs(e)),
    }
}

/// Resolve a column reference.
fn ident_eval(table: Option<&Table>, id: Ident) -> (r: Result<Vec<OutColumn>, Error>)
    requires
        opt_wf(table),
    ensures
        eval_matches(ident_eval_s(opt_abs(table), id), r),
{
    let tb = match table {
        Some(tb) => tb,
        None => {
            return Err(
                Error::EvaluationError("cannot evaluate identifier without table".to_owned()),
            );
        },
    };
    match id {
        Ident::Wildcard => Ok(all_out_columns(tb)),
        Ident::Named(nm) => {
            let got = tb.col_from_name(nm.as_str());
            match got {
                None => Err(Error::ColumnNotFound { col: nm, table: tb.name.clone() }),
                Some(c) => {
                    let ghost idx = crate::table::find_col_idx(tb.abs().cols, nm@);
                    proof {
                        crate::table::lemma_find_col_props(tb.abs().cols, nm@);
                        lemma_cols_abs(tb.columns@);
                        assert(tb.abs().cols[idx] == tb.columns@[idx].abs());
                        assert(col_wf(tb.abs().cols[idx]));
                    }
                    let out = single(OutColumn::from_column(c));
                    proof {
                        assert(outs_abs(out@) =~= seq![
                            OutAbs {
                                name: tb.abs().cols[idx].header.name@,
                                cells: cc_view(tb.abs().cols[idx].cells),
                            },
                        ]);
                    }
                    Ok(out)
                },
            }
        },
    }
}

/// Evaluate a truth test (`IS TRUE` / `IS FALSE`).
fn is_test_eval(table: Option<&Table>, inner: Expression, want: bool) -> (r: Result<
    Vec<OutColumn>,
    Error,
>)
    requires
        opt_wf(table),
    ensures
        eval_matches(is_test_s(opt_abs(table), inner, want), r),
{
    match inner {
        Expression::Literal(l) => match l {
            Literal::Bool(b) => {
                if !b {
                    match table {
                        Some(tb) => Ok(all_out_columns(tb)),
                        None => Ok(Vec::new()),
                    }
                } else {
                    Ok(Vec::new())
                }
            },
            _ => Err(Error::InvalidOperation("truth test on non boolean literal".to_owned())),
        },
        Expression::Ident(id) => match id {
            Ident::Wildcard => Err(
                Error::InvalidOperation("truth test with wildcard (*) operator".to_owned()),
            ),
            Ident::Named(nm) => {
                let tb = match table {
                    Some(tb) => tb,
                    None => {
                        return Err(
                            Error::InvalidOperation(
                                "truth test on identifier with no table".to_owned(),
                            ),
                        );
                    },
                };
                let got = tb.col_from_name(nm.as_str());
                match got {
                    None => Err(Error::ColumnNotFound { col: nm, table: tb.name.clone() }),
                    Some(c) => {
                        let ghost idx = crate::table::find_col_idx(tb.abs().cols, nm@);
                        proof {
                            crate::table::lemma_find_col_props(tb.abs().cols, nm@);
                            lemma_cols_abs(tb.columns@);
                            assert(tb.abs().cols[idx] == tb.columns@[idx].abs());
                            assert(col_wf(tb.abs().cols[idx]));
                        }
                        match &c.data {
                            ColumnData::Bool(m) => {
                                let filtered = filter_bool_col(m, want);
                                let out = single(
                                    OutColumn::from_data(ColumnData::Bool(filtered)),
                                );
                                Ok(out)
                            },
                            _ => Err(
                                Error::InvalidOperation(
                                    "cannot apply a truth test to a column whose datatype is not bool".to_owned(),
                                ),
                            ),
                        }
                    },
                }
            },
        },
        _ => Err(
            Error::Unsupported("truth test with other than literal or identifier".to_owned()),
        ),
    }
}

/// Evaluate boolean negation.
fn not_eval(table: Option<&Table>, inner: Expression) -> (r: Result<Vec<OutColumn>, Error>)
    requires
        opt_wf(table),
    ensures
        eval_matches(not_s(opt_abs(table), inner), r),
{
    match inner {
        Expression::Literal(l) => match l {
            Literal::Bool(b) => {
                let mut v: Vec<(usize, bool)> = Vec::new();
                v.push((0, !b));
                Ok(single(OutColumn::from_data(ColumnData::Bool(RowMap::from_entries(v)))))
            },
            _ => Err(Error::Unsupported("not operator on non boolean literal".to_owned())),
        },
        Expression::Ident(id) => match id {
            Ident::Named(nm) => {
                let tb = match table {
                    Some(tb) => tb,
                    None => {
                        return Err(
                            Error::Unsupported(
                                "identifier without column name to apply unary operator".to_owned(),
                            ),
                        );
                    },
                };
                let got = tb.col_from_name(nm.as_str());
                match got {
                    None => Err(Error::ColumnNotFound { col: nm, table: tb.name.clone() }),
                    Some(c) => {
                        let ghost idx = crate::table::find_col_idx(tb.abs().cols, nm@);
                        proof {
                            crate::table::lemma_find_col_props(tb.abs().cols, nm@);
                            lemma_cols_abs(tb.columns@);
                            assert(tb.abs().cols[idx] == tb.columns@[idx].abs());
                            assert(col_wf(tb.abs().cols[idx]));
                        }
                        match &c.data {
                            ColumnData::Bool(m) => {
                                let negated = not_bool_col(m);
                                Ok(single(OutColumn::from_data(ColumnData::Bool(negated))))
                            },
                            _ => Err(
                                Error::Unsupported("not operator on non boolean column".to_owned()),
                            ),
                        }
                    },
                }
            },
            Ident::Wildcard => Err(
                Error::Unsupported("not operator with wildcard (*) operator".to_owned()),
            ),
        },
        _ => Err(Error::Unsupported("not operator on non literal or non column".to_owned())),
    }
}

/// A failed prefix decides the whole negation.
proof fn lemma_neg_fail_persists(cols: Seq<OutAbs>, i0: int, i1: int)
    requires
        0 <= i0 <= i1 <= cols.len(),
        neg_cols_s(cols.take(i0)) is Fail,
    ensures
        neg_cols_s(cols.take(i1)) == neg_cols_s(cols.take(i0)),
    decreases i1 - i0,
{
    if i1 > i0 {
        lemma_neg_fail_persists(cols, i0, i1 - 1);
        assert(cols.take(i1).drop_last() =~= cols.take(i1 - 1));
    }
}

/// Negate every evaluated column.
fn neg_cols_eval(cols: Vec<OutColumn>) -> (r: Result<Vec<OutColumn>, Error>)
    requires
        forall|i: int| 0 <= i < cols@.len() ==> (#[trigger] cols@[i]).wf(),
    ensures
        eval_matches(neg_cols_s(outs_abs(cols@)), r),
{
    let ghost cs = outs_abs(cols@);
    proof {
        lemma_outs_abs(cols@);
    }
    let mut rem = cols;
    let mut out: Vec<OutColumn> = Vec::new();
    let ghost mut i: int = 0;
    while rem.len() > 0
        invariant
            cs.len() == cols@.len(),
            forall|l: int| 0 <= l < cols@.len() ==> (#[trigger] cols@[l]).wf(),
            forall|l: int| 0 <= l < cols@.len() ==> #[trigger] outs_abs(cols@)[l] == cols@[l].abs(),
            cs == outs_abs(cols@),
            0 <= i <= cs.len(),
            rem@ == cols@.skip(i),
            neg_cols_s(cs.take(i)) == EvalOut::Cols(outs_abs(out@)),
            forall|l: int| 0 <= l < out@.len() ==> (#[trigger] out@[l]).wf(),
        decreases rem@.len(),
    {
        let c = rem.remove(0);
        proof {
            assert(c == cols@.skip(i)[0]);
            assert(c == cols@[i]);
            assert(rem@ =~= cols@.skip(i + 1));
            assert(cs.take(i + 1).drop_last() =~= cs.take(i));
            assert(cs.take(i + 1).last() == cs[i]);
            assert(cs[i] == c.abs());
        }
        match c.data {
            ColumnData::Int(m) => {
                let negated = neg_int_col(&m);
                match negated {
                    Ok(nm) => {
                        let ghost prev = out@;
                        out.push(OutColumn { name: c.name, data: ColumnData::Int(nm) });
                        proof {
                            lemma_outs_abs(prev);
                            lemma_outs_abs(out@);
                            assert(out@.drop_last() =~= prev);
                        }
                    },
                    Err(e) => {
                        proof {
                            assert(neg_cols_s(cs.take(i + 1)) == EvalOut::Fail(
                                ErrAbs::InvalidOperation,
                            ));
                            lemma_neg_fail_persists(cs, i + 1, cs.len() as int);
                            assert(cs.take(cs.len() as int) =~= cs);
                        }
                        return Err(e);
                    },
                }
            },
            _ => {
                proof {
                    assert(neg_cols_s(cs.take(i + 1)) == EvalOut::Fail(ErrAbs::Unsupported));
                    lemma_neg_fail_persists(cs, i + 1, cs.len() as int);
                    assert(cs.take(cs.len() as int) =~= cs);
                }
                return Err(
                    Error::Unsupported("unary operator minus on non numeric type column".to_owned()),
                );
            },
        }
        proof {
            i = i + 1;
        }
    }
    proof {
        assert(cs.take(i) =~= cs);
    }
    Ok(out)
}

/// Is the operator arithmetic?
fn is_arith_op(op: Binary) -> (r: bool)
    ensures
        r == is_arith(op),
{
    match op {
        Binary::Plus | Binary::Minus | Binary::Mul | Binary::Div | Binary::Rem => true,
        _ => false,
    }
}

/// The statement dispatcher's window onto expression evaluation.
pub struct Evaluator;

impl Evaluator {
    /// Evaluate `expr` against the optionally bound table. The result is
    /// exactly what the reference semantics `eval_s` gives.
    pub fn eval(table: Option<&Table>, expr: Expression) -> (r: Result<Vec<OutColumn>, Error>)
        requires
            opt_wf(table),
        ensures
            eval_matches(eval_s(opt_abs(table), expr), r),
        decreases expr,
    {
        match expr {
            Expression::Literal(l) => match l {
                Literal::Null => Ok(Vec::new()),
                _ => Ok(single(OutColumn::from_literal(l))),
            },
            Expression::Ident(id) => ident_eval(table, id),
            Expression::IsFalse(inner) => is_test_eval(table, *inner, false),
            Expression::IsTrue(inner) => is_test_eval(table, *inner, true),
            Expression::Unary { operator, expression } => match operator {
                Unary::Not => not_eval(table, *expression),
                Unary::Plus => match *expression {
                    Expression::Literal(l) => match l {
                        Literal::Null => Err(
                            Error::InvalidOperation("unary operator plus on null".to_owned()),
                        ),
                        _ => Ok(single(OutColumn::from_literal(l))),
                    },
                    Expression::Ident(id) => ident_eval(table, id),
                    _ => Err(
                        Error::Unsupported(
                            "unary operator plus on non literal or non column".to_owned(),
                        ),
                    ),
                },
                Unary::Minus => match *expression {
                    Expression::Literal(l) => match l {
                        Literal::Int(x) => {
                            if x == -2147483648i32 {
                                Err(Error::InvalidOperation("negation out of range".to_owned()))
                            } else {
                                let mut v: Vec<(usize, i32)> = Vec::new();
                                v.push((0, -x));
                                Ok(
                                    single(
                                        OutColumn::from_data(
                                            ColumnData::Int(RowMap::from_entries(v)),
                                        ),
                                    ),
                                )
                            }
                        },
                        _ => Err(
                            Error::Unsupported("unary operator minus on non numeric type".to_owned()),
                        ),
                    },
                    Expression::Ident(id) => {
                        let inner_res = ident_eval(table, id);
                        match inner_res {
                            Err(e) => Err(e),
                            Ok(cols) => neg_cols_eval(cols),
                        }
                    },
                    _ => Err(
                        Error::Unsupported("unary operator on non literal or column".to_owned()),
                    ),
                },
            },
            Expression::Binary { operator, left, right } => {
                let rlit: Option<Literal> = match &*right {
                    Expression::Literal(l) => Some(l.clone()),
                    _ => None,
                };
                let ghost right0 = *right;
                let lres = Self::eval(table, *left);
                let left_cols = match lres {
                    Ok(c) => c,
                    Err(e) => {
                        return Err(e);
                    },
                };
                let rres = Self::eval(table, *right);
                let right_cols = match rres {
                    Ok(c) => c,
                    Err(e) => {
                        return Err(e);
                    },
                };
                proof {
                    lemma_outs_abs(left_cols@);
                    lemma_outs_abs(right_cols@);
                }
                if left_cols.len() != 1 || right_cols.len() != 1 {
                    return Err(
                        Error::InvalidQuery("binary operator with more than one column".to_owned()),
                    );
                }
                let lc = &left_cols[0];
                let rc = &right_cols[0];
                if is_arith_op(operator) {
                    Self::arith_eval(operator, lc, rc)
                } else {
                    let rdata: ColumnData = match rlit {
                        Some(rl) => {
                            if let Literal::Null = rl {
                                return Err(
                                    Error::InvalidOperation(
                                        "cannot broadcast a null literal".to_owned(),
                                    ),
                                );
                            }
                            let till = lc.data.len();
                            proof {
                                lemma_cv_max(lc.data.cells());
                            }
                            if till == usize::MAX {
                                return Err(
                                    Error::InvalidOperation("row id range exhausted".to_owned()),
                                );
                            }
                            let filled = ColumnData::fill_with_literal(rl, till);
                            match filled {
                                Ok(d) => d,
                                Err(e) => {
                                    return Err(e);
                                },
                            }
                        },
                        None => rc.data.clone(),
                    };
                    proof {
                        match right0 {
                            Expression::Literal(rl2) => lemma_fill_view(
                                rl2,
                                cv_max_key(outs_abs(left_cols@)[0].cells),
                            ),
                            _ => (),
                        }
                    }
                    Self::cmp_eval(operator, lc, rdata)
                }
            },
            Expression::NoPredicate => Err(Error::InvalidOperation("none operation".to_owned())),
            _ => Err(Error::Unsupported("unsupported query".to_owned())),
        }
    }

    /// Apply an arithmetic operator to two single columns.
    fn arith_eval(op: Binary, lc: &OutColumn, rc: &OutColumn) -> (r: Result<Vec<OutColumn>, Error>)
        requires
            is_arith(op),
            lc.wf(),
            rc.wf(),
        ensures
            eval_matches(arith_result_s(op, lc.abs(), rc.abs()), r),
    {
        match (&lc.data, &rc.data) {
            (ColumnData::Int(a), ColumnData::Int(b)) => {
                let merged = merge_int_arith(op, a, b);
                match merged {
                    Ok(m) => Ok(
                        single(OutColumn { name: lc.name.clone(), data: ColumnData::Int(m) }),
                    ),
                    Err(e) => Err(e),
                }
            },
            (ColumnData::Str(a), ColumnData::Str(b)) => {
                if let Binary::Plus = op {
                    let m = merge_str_concat(a, b);
                    Ok(single(OutColumn { name: lc.name.clone(), data: ColumnData::Str(m) }))
                } else {
                    Err(Error::InvalidQuery("binary arithmetic on string columns".to_owned()))
                }
            },
            _ => Err(Error::InvalidQuery("binary arithmetic between two different types".to_owned())),
        }
    }

    /// Apply a comparison operator to a single column and right contents.
    fn cmp_eval(op: Binary, lc: &OutColumn, rdata: ColumnData) -> (r: Result<Vec<OutColumn>, Error>)
        requires
            !is_arith(op),
            lc.wf(),
            rdata.wf(),
        ensures
            eval_matches(cmp_result_s(op, lc.abs(), cc_view(rdata.cells())), r),
    {
        match (&lc.data, &rdata) {
            (ColumnData::Int(a), ColumnData::Int(b)) => {
                let m = merge_int_cmp(op, a, b);
                Ok(single(OutColumn { name: lc.name.clone(), data: ColumnData::Bool(m) }))
            },
            (ColumnData::Bool(a), ColumnData::Bool(b)) => {
                let m = merge_bool_cmp(op, a, b);
                Ok(single(OutColumn { name: lc.name.clone(), data: ColumnData::Bool(m) }))
            },
            (ColumnData::Str(a), ColumnData::Str(b)) => {
                let is_eqish = match op {
                    Binary::Eq | Binary::NotEq => true,
                    _ => false,
                };
                if is_eqish {
                    let m = merge_str_cmp(op, a, b);
                    Ok(single(OutColumn { name: lc.name.clone(), data: ColumnData::Bool(m) }))
                } else {
                    Err(Error::InvalidQuery("binary comparison on string columns".to_owned()))
                }
            },
            _ => Err(Error::InvalidQuery("binary comparison on mismatched types".to_owned())),
        }
    }
}

} // verus!
