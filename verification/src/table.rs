//! The column store: tables of sparse, typed columns keyed by row id, with a
//! primary-key index. Row ids are allocated monotonically per table and are
//! never reused, even across deletes and truncates.

use vstd::prelude::*;

use crate::casing::{eq_fold, eq_ignore_case, lower_of};
use crate::error::Error;
use crate::render::{bool_str, dec_int};
use crate::rowmap::{
    entries_sorted, has_key, keys_of, max_key_of, seq_remove, seq_retain, seq_upsert, slookup,
    RowMap,
};

verus! {

/// A row identifier within one table.
pub type RowId = usize;

/// The declared type of a column.
#[derive(Debug, Clone, Copy, PartialEq, Eq, Structural)]
pub enum DataType {
    Int,
    Str,
    Bool,
}

/// A literal value as a statement carries it.
#[derive(Debug, PartialEq)]
pub enum Literal {
    Int(i32),
    Str(String),
    Bool(bool),
    Null,
}

impl Clone for Literal {
    fn clone(&self) -> (r: Self)
        ensures
            r == *self,
    {
        match self {
            Literal::Int(x) => Literal::Int(*x),
            Literal::Str(s) => Literal::Str(s.clone()),
            Literal::Bool(b) => Literal::Bool(*b),
            Literal::Null => Literal::Null,
        }
    }
}

/// Does the literal's runtime type agree with the declared column type?
/// A null literal matches no column type.
pub open spec fn lit_matches(dt: DataType, l: Literal) -> bool {
    match (dt, l) {
        (DataType::Int, Literal::Int(_)) => true,
        (DataType::Str, Literal::Str(_)) => true,
        (DataType::Bool, Literal::Bool(_)) => true,
        _ => false,
    }
}

/// The contents of one column, as the contracts speak of them: the sparse
/// ordered entry sequence behind each typed variant.
pub enum ColCells {
    Int(Seq<(usize, i32)>),
    Str(Seq<(usize, String)>),
    Bool(Seq<(usize, bool)>),
}

/// The declared type that tags `c`.
pub open spec fn cc_tag(c: ColCells) -> DataType {
    match c {
        ColCells::Int(_) => DataType::Int,
        ColCells::Str(_) => DataType::Str,
        ColCells::Bool(_) => DataType::Bool,
    }
}

/// Are the entries of `c` sorted by strictly increasing key?
pub open spec fn cc_wf(c: ColCells) -> bool {
    match c {
        ColCells::Int(s) => entries_sorted(s),
        ColCells::Str(s) => entries_sorted(s),
        ColCells::Bool(s) => entries_sorted(s),
    }
}

/// The empty contents of declared type `dt`.
pub open spec fn cc_empty(dt: DataType) -> ColCells {
    match dt {
        DataType::Int => ColCells::Int(Seq::empty()),
        DataType::Str => ColCells::Str(Seq::empty()),
        DataType::Bool => ColCells::Bool(Seq::empty()),
    }
}

/// The keys of `c`, in entry order.
pub open spec fn cc_keys(c: ColCells) -> Seq<usize> {
    match c {
        ColCells::Int(s) => keys_of(s),
        ColCells::Str(s) => keys_of(s),
        ColCells::Bool(s) => keys_of(s),
    }
}

/// How many entries `c` holds.
pub open spec fn cc_num(c: ColCells) -> nat {
    match c {
        ColCells::Int(s) => s.len(),
        ColCells::Str(s) => s.len(),
        ColCells::Bool(s) => s.len(),
    }
}

/// The largest key of `c`, or 0 when `c` is empty.
pub open spec fn cc_max_key(c: ColCells) -> usize {
    match c {
        ColCells::Int(s) => max_key_of(s),
        ColCells::Str(s) => max_key_of(s),
        ColCells::Bool(s) => max_key_of(s),
    }
}

/// `c` with the matching literal stored at key `k`; contents of another type
/// are left unchanged.
pub open spec fn cc_upsert_lit(c: ColCells, k: usize, l: Literal) -> ColCells {
    match (c, l) {
        (ColCells::Int(s), Literal::Int(x)) => ColCells::Int(seq_upsert(s, k, x)),
        (ColCells::Str(s), Literal::Str(x)) => ColCells::Str(seq_upsert(s, k, x)),
        (ColCells::Bool(s), Literal::Bool(x)) => ColCells::Bool(seq_upsert(s, k, x)),
        (c2, _) => c2,
    }
}

/// `c` without the entry at key `k`.
pub open spec fn cc_remove(c: ColCells, k: usize) -> ColCells {
    match c {
        ColCells::Int(s) => ColCells::Int(seq_remove(s, k)),
        ColCells::Str(s) => ColCells::Str(seq_remove(s, k)),
        ColCells::Bool(s) => ColCells::Bool(seq_remove(s, k)),
    }
}

/// `c` restricted to the keys in `keep`.
pub open spec fn cc_retain(c: ColCells, keep: Seq<usize>) -> ColCells {
    match c {
        ColCells::Int(s) => ColCells::Int(seq_retain(s, keep)),
        ColCells::Str(s) => ColCells::Str(seq_retain(s, keep)),
        ColCells::Bool(s) => ColCells::Bool(seq_retain(s, keep)),
    }
}

/// Does `c` hold a value at key `k`?
pub open spec fn cc_has_key(c: ColCells, k: usize) -> bool {
    match c {
        ColCells::Int(s) => has_key(s, k),
        ColCells::Str(s) => has_key(s, k),
        ColCells::Bool(s) => has_key(s, k),
    }
}

/// The display rendering of the cell of `c` at key `k`: decimal for
/// integers, the stored text for strings, `true`/`false` for booleans;
/// `None` when the cell is absent.
pub open spec fn cc_rendered(c: ColCells, k: usize) -> Option<Seq<char>> {
    match c {
        ColCells::Int(s) => match slookup(s, k) {
            Some(v) => Some(dec_int(v as int)),
            None => None,
        },
        ColCells::Str(s) => match slookup(s, k) {
            Some(v) => Some(v@),
            None => None,
        },
        ColCells::Bool(s) => match slookup(s, k) {
            Some(v) => Some(bool_str(v)),
            None => None,
        },
    }
}

/// The keys of `s` whose stored boolean is true, in ascending order.
pub open spec fn true_keys(s: Seq<(usize, bool)>) -> Seq<usize>
    decreases s.len(),
{
    if s.len() == 0 {
        Seq::empty()
    } else {
        let rest = true_keys(s.drop_last());
        if s.last().1 {
            rest.push(s.last().0)
        } else {
            rest
        }
    }
}

/// The contents holding `l` at every key from 0 through `till`, inclusive.
pub open spec fn cc_filled(l: Literal, till: usize) -> ColCells
    recommends
        !(l is Null),
{
    match l {
        Literal::Int(x) => ColCells::Int(Seq::new((till + 1) as nat, |i: int| (i as usize, x))),
        Literal::Str(x) => ColCells::Str(Seq::new((till + 1) as nat, |i: int| (i as usize, x))),
        Literal::Bool(x) => ColCells::Bool(Seq::new((till + 1) as nat, |i: int| (i as usize, x))),
        Literal::Null => ColCells::Int(Seq::empty()),
    }
}

/// The physical storage of one column.
#[derive(Debug)]
pub enum ColumnData {
    Int(RowMap<i32>),
    Str(RowMap<String>),
    Bool(RowMap<bool>),
}

impl ColumnData {
    /// The contents this storage holds.
    pub open spec fn cells(&self) -> ColCells {
        match self {
            ColumnData::Int(m) => ColCells::Int(m@),
            ColumnData::Str(m) => ColCells::Str(m@),
            ColumnData::Bool(m) => ColCells::Bool(m@),
        }
    }

    pub open spec fn wf(&self) -> bool {
        cc_wf(self.cells())
    }

    /// Empty storage of declared type `dt`.
    pub fn empty(dt: DataType) -> (r: Self)
        ensures
            r.cells() == cc_empty(dt),
            r.wf(),
    {
        match dt {
            DataType::Int => ColumnData::Int(RowMap::new()),
            DataType::Str => ColumnData::Str(RowMap::new()),
            DataType::Bool => ColumnData::Bool(RowMap::new()),
        }
    }

    /// Overwrite the value at `row_id` with `lit`; refused when the
    /// literal's type disagrees with the column's.
    pub fn update(&mut self, row_id: RowId, lit: Literal) -> (r: Result<(), Error>)
        requires
            old(self).wf(),
        ensures
            final(self).wf(),
            match r {
                Ok(()) => lit_matches(cc_tag(old(self).cells()), lit) && final(self).cells()
                    == cc_upsert_lit(old(self).cells(), row_id, lit),
                Err(e) => e is InvalidOperation && !lit_matches(cc_tag(old(self).cells()), lit)
                    && *final(self) == *old(self),
            },
    {
        match self {
            ColumnData::Int(m) => match lit {
                Literal::Int(x) => {
                    m.upsert(row_id, x);
                    Ok(())
                },
                _ => Err(Error::InvalidOperation("invalid data type on update".to_owned())),
            },
            ColumnData::Str(m) => match lit {
                Literal::Str(x) => {
                    m.upsert(row_id, x);
                    Ok(())
                },
                _ => Err(Error::InvalidOperation("invalid data type on update".to_owned())),
            },
            ColumnData::Bool(m) => match lit {
                Literal::Bool(x) => {
                    m.upsert(row_id, x);
                    Ok(())
                },
                _ => Err(Error::InvalidOperation("invalid data type on update".to_owned())),
            },
        }
    }

    /// Remove the cell at `row_id`, if present.
    pub fn delete(&mut self, row_id: RowId)
        requires
            old(self).wf(),
        ensures
            final(self).wf(),
            final(self).cells() == cc_remove(old(self).cells(), row_id),
    {
        match self {
            ColumnData::Int(m) => m.remove(row_id),
            ColumnData::Str(m) => m.remove(row_id),
            ColumnData::Bool(m) => m.remove(row_id),
        }
    }

    /// Drop every cell, keeping the declared type.
    pub(crate) fn truncate(&mut self)
        ensures
            final(self).wf(),
            final(self).cells() == cc_empty(cc_tag(old(self).cells())),
    {
        match self {
            ColumnData::Int(m) => m.clear(),
            ColumnData::Str(m) => m.clear(),
            ColumnData::Bool(m) => m.clear(),
        }
    }

    /// All row ids with a stored cell, in ascending order.
    pub fn keys(&self) -> (r: Vec<RowId>)
        ensures
            r@ == cc_keys(self.cells()),
    {
        match self {
            ColumnData::Int(m) => m.keys(),
            ColumnData::Str(m) => m.keys(),
            ColumnData::Bool(m) => m.keys(),
        }
    }

    /// The row ids whose stored boolean is true; refused on a non-boolean
    /// column.
    pub fn keys_where_true(&self) -> (r: Result<Vec<RowId>, Error>)
        requires
            self.wf(),
        ensures
            match r {
                Ok(v) => self.cells() matches ColCells::Bool(s) && v@ == true_keys(s),
                Err(e) => e is InvalidOperation && !(self.cells() is Bool),
            },
    {
        match self {
            ColumnData::Bool(m) => {
                let n = m.num_entries();
                let mut out: Vec<usize> = Vec::new();
                let mut i: usize = 0;
                while i < n
                    invariant
                        n == m@.len(),
                        0 <= i <= n,
                        out@ == true_keys(m@.take(i as int)),
                    decreases n - i,
                {
                    proof {
                        assert(m@.take(i + 1).drop_last() =~= m@.take(i as int));
                    }
                    if *m.val_at(i) {
                        out.push(m.key_at(i));
                    }
                    i += 1;
                }
                proof {
                    assert(m@.take(n as int) =~= m@);
                }
                Ok(out)
            },
            _ => Err(
                Error::InvalidOperation(
                    "cannot select true only keys for non boolean".to_owned(),
                ),
            ),
        }
    }

    /// Keep only the cells whose row id occurs in `keep`.
    pub fn retain_keys(&mut self, keep: &Vec<RowId>)
        requires
            old(self).wf(),
        ensures
            final(self).wf(),
            final(self).cells() == cc_retain(old(self).cells(), keep@),
    {
        match self {
            ColumnData::Int(m) => m.retain_keys(keep),
            ColumnData::Str(m) => m.retain_keys(keep),
            ColumnData::Bool(m) => m.retain_keys(keep),
        }
    }

    /// The column's largest stored row id, or 0 when it is empty.
    pub fn len(&self) -> (r: RowId)
        requires
            self.wf(),
        ensures
            r == cc_max_key(self.cells()),
    {
        match self {
            ColumnData::Int(m) => m.max_key(),
            ColumnData::Str(m) => m.max_key(),
            ColumnData::Bool(m) => m.max_key(),
        }
    }

    pub fn is_empty(&self) -> (r: bool)
        ensures
            r == (cc_num(self.cells()) == 0),
    {
        match self {
            ColumnData::Int(m) => m.is_empty(),
            ColumnData::Str(m) => m.is_empty(),
            ColumnData::Bool(m) => m.is_empty(),
        }
    }

    /// The display rendering of the cell at `id`, if present.
    pub fn get_as_string(&self, id: RowId) -> (r: Option<String>)
        requires
            self.wf(),
        ensures
            match r {
                Some(s) => cc_rendered(self.cells(), id) == Some(s@),
                None => cc_rendered(self.cells(), id) is None,
            },
    {
        match self {
            ColumnData::Int(m) => match m.get(id) {
                Some(v) => Some(crate::render::i32_to_string(*v)),
                None => None,
            },
            ColumnData::Str(m) => match m.get(id) {
                Some(v) => Some(v.clone()),
                None => None,
            },
            ColumnData::Bool(m) => match m.get(id) {
                Some(v) => Some(crate::render::bool_to_string(*v)),
                None => None,
            },
        }
    }

    /// A column holding `lit` at every row id from 0 through `till`; refused
    /// for a null literal.
    pub fn fill_with_literal(lit: Literal, till: RowId) -> (r: Result<Self, Error>)
        requires
            till < usize::MAX,
        ensures
            match r {
                Ok(c) => !(lit is Null) && c.wf() && c.cells() == cc_filled(lit, till),
                Err(e) => e is InvalidOperation && lit is Null,
            },
    {
        match lit {
            Literal::Int(x) => {
                let mut m: RowMap<i32> = RowMap::new();
                let mut i: usize = 0;
                while i <= till
                    invariant
                        till < usize::MAX,
                        0 <= i <= till + 1,
                        m.wf(),
                        m@ == Seq::new(i as nat, |j: int| (j as usize, x)),
                    decreases till + 1 - i,
                {
                    proof {
                        if m@.len() > 0 {
                            assert(m@.last().0 == i - 1);
                        }
                        crate::rowmap::lemma_upsert_at_end(m@, i, x);
                    }
                    m.upsert(i, x);
                    proof {
                        assert(m@ =~= Seq::new((i + 1) as nat, |j: int| (j as usize, x)));
                    }
                    i += 1;
                }
                Ok(ColumnData::Int(m))
            },
            Literal::Str(x) => {
                let mut m: RowMap<String> = RowMap::new();
                let mut i: usize = 0;
                while i <= till
                    invariant
                        till < usize::MAX,
                        0 <= i <= till + 1,
                        m.wf(),
                        m@ == Seq::new(i as nat, |j: int| (j as usize, x)),
                    decreases till + 1 - i,
                {
                    proof {
                        if m@.len() > 0 {
                            assert(m@.last().0 == i - 1);
                        }
                        crate::rowmap::lemma_upsert_at_end(m@, i, x);
                    }
                    m.upsert(i, x.clone());
                    proof {
                        assert(m@ =~= Seq::new((i + 1) as nat, |j: int| (j as usize, x)));
                    }
                    i += 1;
                }
                Ok(ColumnData::Str(m))
            },
            Literal::Bool(x) => {
                let mut m: RowMap<bool> = RowMap::new();
                let mut i: usize = 0;
                while i <= till
                    invariant
                        till < usize::MAX,
                        0 <= i <= till + 1,
                        m.wf(),
                        m@ == Seq::new(i as nat, |j: int| (j as usize, x)),
                    decreases till + 1 - i,
                {
                    proof {
                        if m@.len() > 0 {
                            assert(m@.last().0 == i - 1);
                        }
                        crate::rowmap::lemma_upsert_at_end(m@, i, x);
                    }
                    m.upsert(i, x);
                    proof {
                        assert(m@ =~= Seq::new((i + 1) as nat, |j: int| (j as usize, x)));
                    }
                    i += 1;
                }
                Ok(ColumnData::Bool(m))
            },
            Literal::Null => Err(
                Error::InvalidOperation("cannot create a column data from null literal".to_owned()),
            ),
        }
    }

    /// The declared type that tags this storage.
    pub fn datatype(&self) -> (r: DataType)
        ensures
            r == cc_tag(self.cells()),
    {
        match self {
            ColumnData::Int(_) => DataType::Int,
            ColumnData::Str(_) => DataType::Str,
            ColumnData::Bool(_) => DataType::Bool,
        }
    }
}

impl Clone for ColumnData {
    /// A copy with the same contents.
    fn clone(&self) -> (r: Self)
        ensures
            r.cells() == self.cells(),
    {
        match self {
            ColumnData::Int(m) => ColumnData::Int(m.duplicate_copy()),
            ColumnData::Str(m) => ColumnData::Str(m.duplicate_str()),
            ColumnData::Bool(m) => ColumnData::Bool(m.duplicate_copy()),
        }
    }
}

/// The descriptive part of a column: its name, declared type, flags, and the
/// last row id an insert assigned to it.
#[derive(Debug, PartialEq)]
pub struct ColumnHeader {
    pub name: String,
    pub hidden: bool,
    pub datatype: DataType,
    pub nullable: bool,
    pub is_pk: bool,
    pub last_row_id: Option<RowId>,
}

/// One column: header and storage.
#[derive(Debug)]
pub struct Column {
    pub header: ColumnHeader,
    pub data: ColumnData,
}

/// A column as the contracts speak of it.
pub struct ColAbs {
    pub header: ColumnHeader,
    pub cells: ColCells,
}

/// A column is well formed when its entries are sorted and its header's
/// declared type tags its storage.
pub open spec fn col_wf(c: ColAbs) -> bool {
    cc_wf(c.cells) && c.header.datatype == cc_tag(c.cells)
}

impl Column {
    pub open spec fn abs(&self) -> ColAbs {
        ColAbs { header: self.header, cells: self.data.cells() }
    }

    pub open spec fn wf(&self) -> bool {
        col_wf(self.abs())
    }

    /// Write `data` at `row_id`. The header's last-assigned row id is set
    /// first, so it moves even when the write is then refused for a type
    /// mismatch.
    pub fn insert(&mut self, row_id: RowId, data: Literal) -> (r: Result<(), Error>)
        requires
            old(self).wf(),
        ensures
            final(self).wf(),
            final(self).header == (ColumnHeader {
                last_row_id: Some(row_id),
                ..old(self).header
            }),
            match r {
                Ok(()) => lit_matches(old(self).header.datatype, data) && final(self).data.cells()
                    == cc_upsert_lit(old(self).data.cells(), row_id, data),
                Err(e) => e is InvalidQuery && !lit_matches(old(self).header.datatype, data)
                    && final(self).data.cells() == old(self).data.cells(),
            },
    {
        self.header.last_row_id = Some(row_id);
        match &mut self.data {
            ColumnData::Int(m) => match data {
                Literal::Int(x) => {
                    m.upsert(row_id, x);
                    Ok(())
                },
                _ => Err(Error::InvalidQuery("invalid data type".to_owned())),
            },
            ColumnData::Str(m) => match data {
                Literal::Str(x) => {
                    m.upsert(row_id, x);
                    Ok(())
                },
                _ => Err(Error::InvalidQuery("invalid data type".to_owned())),
            },
            ColumnData::Bool(m) => match data {
                Literal::Bool(x) => {
                    m.upsert(row_id, x);
                    Ok(())
                },
                _ => Err(Error::InvalidQuery("invalid data type".to_owned())),
            },
        }
    }
}

/// A primary-key value.
#[derive(Debug, PartialEq)]
pub enum PKType {
    Int(i32),
    Str(String),
}

impl Clone for PKType {
    fn clone(&self) -> (r: Self)
        ensures
            r == *self,
    {
        match self {
            PKType::Int(x) => PKType::Int(*x),
            PKType::Str(s) => PKType::Str(s.clone()),
        }
    }
}

/// Do two primary-key values denote the same key?
pub open spec fn pk_same(a: PKType, b: PKType) -> bool {
    match (a, b) {
        (PKType::Int(x), PKType::Int(y)) => x == y,
        (PKType::Str(x), PKType::Str(y)) => x@ == y@,
        _ => false,
    }
}

/// A primary-key index is well formed when it is a bijection: no key and no
/// row id occurs twice.
pub open spec fn pk_index_wf(s: Seq<(PKType, usize)>) -> bool {
    forall|i: int, j: int|
        0 <= i < j < s.len() ==> !pk_same(s[i].0, s[j].0) && s[i].1 != s[j].1
}

/// The index without every pair mapped to `row`, in order.
pub open spec fn pk_remove_row(s: Seq<(PKType, usize)>, row: usize) -> Seq<(PKType, usize)>
    decreases s.len(),
{
    if s.len() == 0 {
        s
    } else {
        let rest = pk_remove_row(s.drop_last(), row);
        if s.last().1 == row {
            rest
        } else {
            rest.push(s.last())
        }
    }
}

/// Removal keeps the index a bijection, and keeps exactly the pairs of other
/// rows.
pub proof fn lemma_pk_remove_row(s: Seq<(PKType, usize)>, row: usize)
    requires
        pk_index_wf(s),
    ensures
        pk_index_wf(pk_remove_row(s, row)),
        forall|p: (PKType, usize)|
            #[trigger] pk_remove_row(s, row).contains(p) ==> s.contains(p) && p.1 != row,
    decreases s.len(),
{
    if s.len() > 0 {
        assert forall|i: int, j: int| 0 <= i < j < s.drop_last().len() implies !pk_same(
            s.drop_last()[i].0,
            s.drop_last()[j].0,
        ) && s.drop_last()[i].1 != s.drop_last()[j].1 by {
            assert(s.drop_last()[i] == s[i]);
            assert(s.drop_last()[j] == s[j]);
        }
        lemma_pk_remove_row(s.drop_last(), row);
        let rest = pk_remove_row(s.drop_last(), row);
        assert(pk_remove_row(s, row) == if s.last().1 == row {
            rest
        } else {
            rest.push(s.last())
        });
        assert forall|p: (PKType, usize)| #[trigger]
            rest.contains(p) implies s.contains(p) && p.1 != row by {
            assert(s.drop_last().contains(p));
            let i = choose|i: int| 0 <= i < s.drop_last().len() && s.drop_last()[i] == p;
            assert(s[i] == p);
        }
        if s.last().1 != row {
            let r = rest.push(s.last());
            assert forall|i: int, j: int| 0 <= i < j < r.len() implies !pk_same(r[i].0, r[j].0)
                && r[i].1 != r[j].1 by {
                if j < rest.len() {
                    assert(r[i] == rest[i]);
                    assert(r[j] == rest[j]);
                    assert(!pk_same(rest[i].0, rest[j].0) && rest[i].1 != rest[j].1);
                } else {
                    assert(r[j] == s.last());
                    assert(rest.contains(rest[i]));
                    let l = choose|l: int|
                        0 <= l < s.drop_last().len() && s.drop_last()[l] == rest[i];
                    assert(s[l] == rest[i]);
                    assert(!pk_same(s[l].0, s[s.len() - 1].0) && s[l].1 != s[s.len() - 1].1);
                }
            }
            assert forall|p: (PKType, usize)| #[trigger]
                r.contains(p) implies s.contains(p) && p.1 != row by {
                let i = choose|i: int| 0 <= i < r.len() && r[i] == p;
                if i < rest.len() {
                    assert(rest.contains(p));
                } else {
                    assert(p == s.last());
                    assert(s[s.len() - 1] == p);
                }
            }
        }
    }
}

/// The bijective mapping between primary-key values and row ids.
#[derive(Debug)]
pub struct PkIndex {
    pairs: Vec<(PKType, usize)>,
}

impl View for PkIndex {
    type V = Seq<(PKType, usize)>;

    closed spec fn view(&self) -> Seq<(PKType, usize)> {
        self.pairs@
    }
}

impl PkIndex {
    pub open spec fn wf(&self) -> bool {
        pk_index_wf(self@)
    }

    pub fn new() -> (r: Self)
        ensures
            r@ == Seq::<(PKType, usize)>::empty(),
            r.wf(),
    {
        PkIndex { pairs: Vec::new() }
    }

    pub fn from_pairs(pairs: Vec<(PKType, usize)>) -> (r: Self)
        requires
            pk_index_wf(pairs@),
        ensures
            r@ == pairs@,
            r.wf(),
    {
        PkIndex { pairs }
    }

    pub fn num_pairs(&self) -> (n: usize)
        ensures
            n == self@.len(),
    {
        self.pairs.len()
    }

    pub fn pair_at(&self, i: usize) -> (p: &(PKType, usize))
        requires
            i < self@.len(),
        ensures
            *p == self@[i as int],
    {
        &self.pairs[i]
    }

    /// Drop the pair mapped to `row`, if there is one.
    pub fn remove_by_row(&mut self, row: usize)
        requires
            old(self).wf(),
        ensures
            final(self)@ == pk_remove_row(old(self)@, row),
            final(self).wf(),
    {
        let ghost orig = self@;
        let ghost mut i: int = 0;
        let mut out: Vec<(PKType, usize)> = Vec::new();
        while self.pairs.len() > 0
            invariant
                orig == old(self)@,
                0 <= i <= orig.len(),
                self@ == orig.skip(i),
                out@ == pk_remove_row(orig.take(i), row),
            decreases self@.len(),
        {
            let e = self.pairs.remove(0);
            proof {
                assert(e == orig.skip(i)[0]);
                assert(e == orig[i]);
                assert(orig.take(i + 1).drop_last() =~= orig.take(i));
                assert(orig.take(i + 1).last() == orig[i]);
                assert(self@ =~= orig.skip(i + 1));
                i = i + 1;
            }
            if e.1 != row {
                out.push(e);
            }
        }
        proof {
            assert(orig.take(i) =~= orig);
            lemma_pk_remove_row(old(self)@, row);
        }
        self.pairs = out;
    }
}

/// One column option in a definition, processed in order at table creation.
#[derive(Debug, Clone, Copy, PartialEq, Eq, Structural)]
pub enum ColOption {
    Null,
    NotNull,
    Unique { is_primary: bool },
}

/// The definition of one column, as a create-table statement carries it.
#[derive(Debug, PartialEq)]
pub struct ColumnDef {
    pub name: String,
    pub datatype: DataType,
    pub options: Vec<ColOption>,
}

/// The (nullable, is-primary-key) flags that a definition's options fold to:
/// columns start nullable; a unique option also makes them not nullable.
pub open spec fn def_flags(opts: Seq<ColOption>) -> (bool, bool)
    decreases opts.len(),
{
    if opts.len() == 0 {
        (true, false)
    } else {
        let prev = def_flags(opts.drop_last());
        match opts.last() {
            ColOption::Null => (true, prev.1),
            ColOption::NotNull => (false, prev.1),
            ColOption::Unique { is_primary } => (false, is_primary),
        }
    }
}

/// The freshly created column a definition describes.
pub open spec fn col_of_def(d: ColumnDef) -> ColAbs {
    ColAbs {
        header: ColumnHeader {
            name: d.name,
            hidden: false,
            datatype: d.datatype,
            nullable: def_flags(d.options@).0,
            is_pk: def_flags(d.options@).1,
            last_row_id: None,
        },
        cells: cc_empty(d.datatype),
    }
}

/// Does some definition mark its column as the primary key?
pub open spec fn defs_have_pk(defs: Seq<ColumnDef>) -> bool {
    exists|i: int| 0 <= i < defs.len() && def_flags(defs[i].options@).1
}

/// The larger of two optional row ids; an absent one counts as smallest.
pub open spec fn opt_max_rid(a: Option<usize>, b: Option<usize>) -> Option<usize> {
    match (a, b) {
        (None, b2) => b2,
        (a2, None) => a2,
        (Some(x), Some(y)) => if y >= x {
            Some(y)
        } else {
            Some(x)
        },
    }
}

/// The largest row id any column of the table was ever assigned: the
/// table's allocation watermark.
pub open spec fn last_rid(cols: Seq<ColAbs>) -> Option<usize>
    decreases cols.len(),
{
    if cols.len() == 0 {
        None
    } else {
        opt_max_rid(last_rid(cols.drop_last()), cols.last().header.last_row_id)
    }
}

/// The row id the next insert will assign first.
pub open spec fn next_rid(cols: Seq<ColAbs>) -> int {
    match last_rid(cols) {
        None => 0,
        Some(l) => l + 1,
    }
}

/// The watermark leaves room for at least one more row id.
pub open spec fn wm_ok(cols: Seq<ColAbs>) -> bool {
    last_rid(cols) matches Some(l) ==> l < usize::MAX
}

/// A table as the contracts speak of it.
pub struct TableAbs {
    pub name: Seq<char>,
    pub cols: Seq<ColAbs>,
    pub pk: Seq<(PKType, usize)>,
}

/// The columns of a table, as the contracts speak of them.
pub open spec fn cols_abs(cols: Seq<Column>) -> Seq<ColAbs>
    decreases cols.len(),
{
    if cols.len() == 0 {
        Seq::empty()
    } else {
        cols_abs(cols.drop_last()).push(cols.last().abs())
    }
}

/// Length and elements of `cols_abs`.
pub proof fn lemma_cols_abs(cols: Seq<Column>)
    ensures
        cols_abs(cols).len() == cols.len(),
        forall|l: int| 0 <= l < cols.len() ==> #[trigger] cols_abs(cols)[l] == cols[l].abs(),
    decreases cols.len(),
{
    if cols.len() > 0 {
        lemma_cols_abs(cols.drop_last());
        assert forall|l: int| 0 <= l < cols.len() implies #[trigger] cols_abs(cols)[l] == cols[l]
            .abs() by {
            if l < cols.len() - 1 {
                assert(cols.drop_last()[l] == cols[l]);
            }
        }
    }
}

/// The freshly created columns a definition list describes.
pub open spec fn defs_abs(defs: Seq<ColumnDef>) -> Seq<ColAbs>
    decreases defs.len(),
{
    if defs.len() == 0 {
        Seq::empty()
    } else {
        defs_abs(defs.drop_last()).push(col_of_def(defs.last()))
    }
}

/// Length and elements of `defs_abs`.
pub proof fn lemma_defs_abs(defs: Seq<ColumnDef>)
    ensures
        defs_abs(defs).len() == defs.len(),
        forall|l: int|
            0 <= l < defs.len() ==> #[trigger] defs_abs(defs)[l] == col_of_def(defs[l]),
    decreases defs.len(),
{
    if defs.len() > 0 {
        lemma_defs_abs(defs.drop_last());
        assert forall|l: int| 0 <= l < defs.len() implies #[trigger] defs_abs(defs)[l]
            == col_of_def(defs[l]) by {
            if l < defs.len() - 1 {
                assert(defs.drop_last()[l] == defs[l]);
            }
        }
    }
}

pub open spec fn cols_wf(cols: Seq<ColAbs>) -> bool {
    forall|i: int| 0 <= i < cols.len() ==> col_wf(#[trigger] cols[i])
}

pub open spec fn cols_have_pk(cols: Seq<ColAbs>) -> bool {
    exists|i: int| 0 <= i < cols.len() && (#[trigger] cols[i]).header.is_pk
}

/// A table is well formed when its columns are, one of them is the primary
/// key, the primary-key index is a bijection, and the watermark has room.
pub open spec fn tbl_wf(t: TableAbs) -> bool {
    cols_wf(t.cols) && cols_have_pk(t.cols) && pk_index_wf(t.pk) && wm_ok(t.cols)
}

/// The watermark only depends on the headers' last-assigned row ids.
pub proof fn lemma_last_rid_same_headers(c1: Seq<ColAbs>, c2: Seq<ColAbs>)
    requires
        c1.len() == c2.len(),
        forall|i: int|
            0 <= i < c1.len() ==> (#[trigger] c1[i]).header.last_row_id
                == c2[i].header.last_row_id,
    ensures
        last_rid(c1) == last_rid(c2),
    decreases c1.len(),
{
    if c1.len() > 0 {
        assert forall|i: int| 0 <= i < c1.drop_last().len() implies (#[trigger] c1.drop_last()[i])
            .header.last_row_id == c2.drop_last()[i].header.last_row_id by {
            assert(c1.drop_last()[i] == c1[i]);
            assert(c2.drop_last()[i] == c2[i]);
        }
        lemma_last_rid_same_headers(c1.drop_last(), c2.drop_last());
        assert(c1.last() == c1[c1.len() - 1]);
        assert(c2.last() == c2[c1.len() - 1]);
    }
}

/// Freshly created columns have no watermark.
pub proof fn lemma_last_rid_none(cols: Seq<ColAbs>)
    requires
        forall|i: int| 0 <= i < cols.len() ==> (#[trigger] cols[i]).header.last_row_id is None,
    ensures
        last_rid(cols) is None,
    decreases cols.len(),
{
    if cols.len() > 0 {
        assert forall|i: int| 0 <= i < cols.drop_last().len() implies (#[trigger] cols.drop_last()[i])
            .header.last_row_id is None by {
            assert(cols.drop_last()[i] == cols[i]);
        }
        lemma_last_rid_none(cols.drop_last());
        assert(cols.last() == cols[cols.len() - 1]);
    }
}

/// The index of the first column whose name matches `name` up to case, or
/// -1 when none does.
pub open spec fn find_col_idx(cols: Seq<ColAbs>, name: Seq<char>) -> int
    decreases cols.len(),
{
    if cols.len() == 0 {
        -1
    } else if eq_fold(cols[0].header.name@, name) {
        0
    } else {
        let r = find_col_idx(cols.drop_first(), name);
        if r == -1 {
            -1
        } else {
            r + 1
        }
    }
}

/// When the first `i` columns miss and column `i` matches, the find lands
/// on `i`.
pub proof fn lemma_find_col_found(cols: Seq<ColAbs>, name: Seq<char>, i: int)
    requires
        0 <= i < cols.len(),
        forall|j: int| 0 <= j < i ==> !eq_fold((#[trigger] cols[j]).header.name@, name),
        eq_fold(cols[i].header.name@, name),
    ensures
        find_col_idx(cols, name) == i,
    decreases i,
{
    if i > 0 {
        assert forall|j: int| 0 <= j < i - 1 implies !eq_fold(
            (#[trigger] cols.drop_first()[j]).header.name@,
            name,
        ) by {
            assert(cols.drop_first()[j] == cols[j + 1]);
        }
        assert(cols.drop_first()[i - 1] == cols[i]);
        lemma_find_col_found(cols.drop_first(), name, i - 1);
    }
}

/// When no column matches, the find reports -1.
pub proof fn lemma_find_col_missing(cols: Seq<ColAbs>, name: Seq<char>)
    requires
        forall|j: int| 0 <= j < cols.len() ==> !eq_fold((#[trigger] cols[j]).header.name@, name),
    ensures
        find_col_idx(cols, name) == -1,
    decreases cols.len(),
{
    if cols.len() > 0 {
        assert forall|j: int| 0 <= j < cols.drop_first().len() implies !eq_fold(
            (#[trigger] cols.drop_first()[j]).header.name@,
            name,
        ) by {
            assert(cols.drop_first()[j] == cols[j + 1]);
        }
        lemma_find_col_missing(cols.drop_first(), name);
    }
}

/// A found index is in range, matches, and nothing before it matches.
pub proof fn lemma_find_col_props(cols: Seq<ColAbs>, name: Seq<char>)
    ensures
        -1 <= find_col_idx(cols, name) < cols.len(),
        find_col_idx(cols, name) >= 0 ==> eq_fold(
            cols[find_col_idx(cols, name)].header.name@,
            name,
        ),
    decreases cols.len(),
{
    if cols.len() > 0 && !eq_fold(cols[0].header.name@, name) {
        lemma_find_col_props(cols.drop_first(), name);
        let r = find_col_idx(cols.drop_first(), name);
        if r >= 0 {
            assert(cols.drop_first()[r] == cols[r + 1]);
        }
    }
}

/// One table of the database: a name, ordered columns, and the primary-key
/// index.
#[derive(Debug)]
pub struct Table {
    pub name: String,
    pub columns: Vec<Column>,
    pub pk_map: PkIndex,
}

impl Table {
    pub open spec fn abs(&self) -> TableAbs {
        TableAbs { name: self.name@, cols: cols_abs(self.columns@), pk: self.pk_map@ }
    }

    pub open spec fn wf(&self) -> bool {
        tbl_wf(self.abs())
    }

    /// Build a table from column definitions. Construction is refused when
    /// no definition marks a primary-key column.
    pub fn new(name: String, columns: Vec<ColumnDef>) -> (r: Result<Table, Error>)
        ensures
            match r {
                Ok(t) => defs_have_pk(columns@) && t.wf() && t.name == name && t.abs().cols
                    == defs_abs(columns@) && t.abs().pk == Seq::<(PKType, usize)>::empty(),
                Err(e) => e is InvalidOperation && !defs_have_pk(columns@),
            },
    {
        let ghost defs0 = columns@;
        let mut rem = columns;
        let mut cols: Vec<Column> = Vec::new();
        let mut has_pk = false;
        let ghost mut i: int = 0;
        while rem.len() > 0
            invariant
                defs0 == columns@,
                0 <= i <= defs0.len(),
                rem@ == defs0.skip(i),
                cols_abs(cols@) == defs_abs(defs0.take(i)),
                has_pk == defs_have_pk(defs0.take(i)),
            decreases rem@.len(),
        {
            let d = rem.remove(0);
            proof {
                assert(d == defs0.skip(i)[0]);
                assert(d == defs0[i]);
                assert(rem@ =~= defs0.skip(i + 1));
            }
            let n = d.options.len();
            let mut nullable = true;
            let mut is_pk = false;
            let mut j: usize = 0;
            while j < n
                invariant
                    n == d.options@.len(),
                    0 <= j <= n,
                    (nullable, is_pk) == def_flags(d.options@.take(j as int)),
                decreases n - j,
            {
                proof {
                    assert(d.options@.take(j + 1).drop_last() =~= d.options@.take(j as int));
                    assert(d.options@.take(j + 1).last() == d.options@[j as int]);
                }
                match d.options[j] {
                    ColOption::Null => {
                        nullable = true;
                    },
                    ColOption::NotNull => {
                        nullable = false;
                    },
                    ColOption::Unique { is_primary } => {
                        is_pk = is_primary;
                        nullable = false;
                    },
                }
                j += 1;
            }
            proof {
                assert(d.options@.take(n as int) =~= d.options@);
            }
            let data = ColumnData::empty(d.datatype);
            let col = Column {
                header: ColumnHeader {
                    name: d.name,
                    hidden: false,
                    datatype: d.datatype,
                    nullable,
                    is_pk,
                    last_row_id: None,
                },
                data,
            };
            proof {
                assert(col.abs() == col_of_def(defs0[i]));
            }
            if is_pk {
                has_pk = true;
            }
            let ghost cols_prev = cols@;
            cols.push(col);
            proof {
                lemma_cols_abs(cols_prev);
                lemma_cols_abs(cols@);
                lemma_defs_abs(defs0.take(i));
                lemma_defs_abs(defs0.take(i + 1));
                assert(cols@ == cols_prev.push(col));
                assert(cols_prev.len() == i);
                assert forall|l: int| 0 <= l < i + 1 implies cols_abs(cols@)[l] == defs_abs(
                    defs0.take(i + 1),
                )[l] by {
                    assert(defs0.take(i + 1)[l] == defs0[l]);
                    if l < i {
                        assert(cols@[l] == cols_prev[l]);
                        assert(cols_abs(cols_prev)[l] == defs_abs(defs0.take(i))[l]);
                        assert(defs0.take(i)[l] == defs0[l]);
                    } else {
                        assert(cols@[l] == col);
                    }
                }
                assert(cols_abs(cols@) =~= defs_abs(defs0.take(i + 1)));
                if has_pk {
                    if is_pk {
                        assert(defs0.take(i + 1)[i] == defs0[i]);
                        assert(def_flags((defs0.take(i + 1))[i].options@).1);
                        assert(defs_have_pk(defs0.take(i + 1)));
                    } else {
                        let w = choose|w: int|
                            0 <= w < defs0.take(i).len() && def_flags(
                                (#[trigger] defs0.take(i)[w]).options@,
                            ).1;
                        assert(defs0.take(i + 1)[w] == defs0.take(i)[w]);
                        assert(defs_have_pk(defs0.take(i + 1)));
                    }
                } else {
                    if defs_have_pk(defs0.take(i + 1)) {
                        let w = choose|w: int|
                            0 <= w < defs0.take(i + 1).len() && def_flags(
                                (#[trigger] defs0.take(i + 1)[w]).options@,
                            ).1;
                        if w < i {
                            assert(defs0.take(i)[w] == defs0.take(i + 1)[w]);
                            assert(defs_have_pk(defs0.take(i)));
                        } else {
                            assert(defs0.take(i + 1)[w] == defs0[i]);
                        }
                        assert(false);
                    }
                }
                i = i + 1;
            }
        }
        proof {
            assert(defs0.take(i) =~= defs0);
        }
        if !has_pk {
            return Err(
                Error::InvalidOperation("cannot create table with no primary key".to_owned()),
            );
        }
        let t = Table { name, columns: cols, pk_map: PkIndex::new() };
        proof {
            let tc = t.abs().cols;
            assert(tc == defs_abs(defs0));
            lemma_defs_abs(defs0);
            assert forall|l: int| 0 <= l < tc.len() implies col_wf(#[trigger] tc[l]) by {
                assert(tc[l] == col_of_def(defs0[l]));
            }
            let w = choose|w: int|
                0 <= w < defs0.len() && def_flags((#[trigger] defs0[w]).options@).1;
            assert(tc[w] == col_of_def(defs0[w]));
            assert(tc[w].header.is_pk);
            assert forall|l: int| 0 <= l < tc.len() implies (#[trigger] tc[l]).header.last_row_id
                is None by {
                assert(tc[l] == col_of_def(defs0[l]));
            }
            lemma_last_rid_none(tc);
        }
        Ok(t)
    }

    /// The largest row id any insert has assigned, if any.
    pub fn last_row_id(&self) -> (r: Option<RowId>)
        ensures
            r == last_rid(self.abs().cols),
    {
        let n = self.columns.len();
        let mut cur: Option<usize> = None;
        let mut i: usize = 0;
        while i < n
            invariant
                n == self.columns@.len(),
                0 <= i <= n,
                cur == last_rid(self.abs().cols.take(i as int)),
            decreases n - i,
        {
            proof {
                lemma_cols_abs(self.columns@);
                assert(self.abs().cols.take(i + 1).drop_last() =~= self.abs().cols.take(
                    i as int,
                ));
                assert(self.abs().cols.take(i + 1).last() == self.abs().cols[i as int]);
                assert(self.abs().cols[i as int] == self.columns@[i as int].abs());
            }
            let h = self.columns[i].header.last_row_id;
            cur = match (cur, h) {
                (None, b) => b,
                (a, None) => a,
                (Some(x), Some(y)) => if y >= x {
                    Some(y)
                } else {
                    Some(x)
                },
            };
            i += 1;
        }
        proof {
            lemma_cols_abs(self.columns@);
            assert(self.abs().cols.take(n as int) =~= self.abs().cols);
        }
        cur
    }

    /// The row id the next insert will assign first: one past the
    /// watermark, or 0 for a table that never held a row.
    pub fn next_row_id(&self) -> (r: RowId)
        requires
            self.wf(),
        ensures
            r as int == next_rid(self.abs().cols),
    {
        match self.last_row_id() {
            Some(l) => l + 1,
            None => 0,
        }
    }

    /// Drop every stored cell of every column. The watermark is kept, so
    /// later inserts still allocate fresh row ids.
    pub fn truncate(&mut self)
        requires
            old(self).wf(),
        ensures
            final(self).wf(),
            final(self).name == old(self).name,
            final(self).pk_map == old(self).pk_map,
            final(self).abs().cols == cols_truncated(old(self).abs().cols),
    {
        let n = self.columns.len();
        let mut i: usize = 0;
        while i < n
            invariant
                n == self.columns@.len(),
                n == old(self).columns@.len(),
                0 <= i <= n,
                self.name == old(self).name,
                self.pk_map == old(self).pk_map,
                forall|l: int|
                    0 <= l < i ==> (#[trigger] self.columns@[l]).abs() == cols_truncated(
                        old(self).abs().cols,
                    )[l],
                forall|l: int| i <= l < n ==> #[trigger] self.columns@[l] == old(self).columns@[l],
            decreases n - i,
        {
            let ghost snap = self.columns@;
            let mut c = self.columns.remove(i);
            c.data.truncate();
            self.columns.insert(i, c);
            proof {
                lemma_cols_abs(old(self).columns@);
                lemma_cols_truncated(old(self).abs().cols);
                assert(self.columns@ =~= snap.update(i as int, c));
                assert(snap[i as int] == old(self).columns@[i as int]);
                assert(c.header == old(self).columns@[i as int].header);
                assert(old(self).abs().cols[i as int] == old(self).columns@[i as int].abs());
                assert(cols_truncated(old(self).abs().cols)[i as int] == (ColAbs {
                    header: old(self).abs().cols[i as int].header,
                    cells: cc_empty(cc_tag(old(self).abs().cols[i as int].cells)),
                }));
                assert(self.columns@[i as int].abs() == cols_truncated(old(self).abs().cols)[
                    i as int]);
            }
            i += 1;
        }
        proof {
            lemma_cols_abs(old(self).columns@);
            lemma_cols_abs(self.columns@);
            lemma_cols_truncated(old(self).abs().cols);
            assert forall|l: int| 0 <= l < n implies self.abs().cols[l] == cols_truncated(
                old(self).abs().cols,
            )[l] by {
                assert(self.abs().cols[l] == self.columns@[l].abs());
            }
            assert(self.abs().cols =~= cols_truncated(old(self).abs().cols));
            let tc = self.abs().cols;
            let oc = old(self).abs().cols;
            assert forall|l: int| 0 <= l < tc.len() implies col_wf(#[trigger] tc[l]) by {
                assert(oc[l] == old(self).columns@[l].abs());
                assert(tc[l] == cols_truncated(oc)[l]);
            }
            assert forall|l: int| 0 <= l < tc.len() implies (#[trigger] tc[l]).header == oc[l].header
                by {
                assert(tc[l] == cols_truncated(oc)[l]);
            }
            let w = choose|w: int| 0 <= w < oc.len() && (#[trigger] oc[w]).header.is_pk;
            assert(tc[w].header.is_pk);
            lemma_last_rid_same_headers(tc, oc);
        }
    }

    /// The first column whose name matches `name` case-insensitively.
    pub fn col_from_name(&self, name: &str) -> (r: Option<&Column>)
        ensures
            match r {
                Some(c) => find_col_idx(self.abs().cols, name@) >= 0 && *c == self.columns@[
                    find_col_idx(self.abs().cols, name@)],
                None => find_col_idx(self.abs().cols, name@) == -1,
            },
    {
        let n = self.columns.len();
        let mut i: usize = 0;
        while i < n
            invariant
                n == self.columns@.len(),
                0 <= i <= n,
                forall|j: int|
                    0 <= j < i ==> !eq_fold(
                        (#[trigger] self.abs().cols[j]).header.name@,
                        name@,
                    ),
            decreases n - i,
        {
            let hit = eq_ignore_case(self.columns[i].header.name.as_str(), name);
            proof {
                lemma_cols_abs(self.columns@);
                assert(self.abs().cols[i as int] == self.columns@[i as int].abs());
            }
            if hit {
                proof {
                    lemma_find_col_found(self.abs().cols, name@, i as int);
                }
                return Some(&self.columns[i]);
            }
            i += 1;
        }
        proof {
            lemma_cols_abs(self.columns@);
            lemma_find_col_missing(self.abs().cols, name@);
        }
        None
    }

    /// Write the literal rows into the named columns — all columns, in
    /// definition order, when `columns` is empty — at consecutive fresh row
    /// ids. A literal whose type disagrees with its column stops the insert
    /// there; what was already written stays written.
    pub fn insert(&mut self, columns: Vec<String>, data: Vec<Vec<Literal>>) -> (r: Result<
        (),
        Error,
    >)
        requires
            old(self).wf(),
        ensures
            final(self).wf(),
            final(self).name == old(self).name,
            final(self).pk_map == old(self).pk_map,
            ({
                let res = table_inserted(old(self).abs().cols, columns@, rows_abs(data@));
                match r {
                    Ok(()) => res.1 && final(self).abs().cols == res.0 && data@.len() + next_rid(
                        old(self).abs().cols,
                    ) <= usize::MAX,
                    Err(e) => (e is InvalidOperation && data@.len() + next_rid(
                        old(self).abs().cols,
                    ) > usize::MAX && final(self).abs().cols == old(self).abs().cols) || (
                    e is InvalidQuery && data@.len() + next_rid(old(self).abs().cols) <= usize::MAX
                        && !res.1 && final(self).abs().cols == res.0),
                }
            }),
    {
        let ghost cols0 = self.abs().cols;
        let ghost eff = if columns@.len() == 0 {
            all_names(cols0)
        } else {
            columns@
        };
        let mut names = columns;
        if names.is_empty() {
            let ncols = self.columns.len();
            let mut k: usize = 0;
            while k < ncols
                invariant
                    cols0 == old(self).abs().cols,
                    self.columns@ == old(self).columns@,
                    self.name == old(self).name,
                    self.pk_map == old(self).pk_map,
                    ncols == self.columns@.len(),
                    0 <= k <= ncols,
                    names@ == all_names(cols0).take(k as int),
                decreases ncols - k,
            {
                proof {
                    lemma_cols_abs(self.columns@);
                    lemma_all_names(cols0);
                    assert(all_names(cols0)[k as int] == cols0[k as int].header.name);
                    assert(cols0[k as int] == self.columns@[k as int].abs());
                }
                names.push(self.columns[k].header.name.clone());
                proof {
                    assert(names@ =~= all_names(cols0).take(k + 1));
                }
                k += 1;
            }
            proof {
                lemma_all_names(cols0);
                lemma_cols_abs(self.columns@);
                assert(all_names(cols0).take(ncols as int) =~= all_names(cols0));
            }
        }
        assert(names@ == eff);
        let next0 = self.next_row_id();
        if data.len() > usize::MAX - next0 {
            return Err(Error::InvalidOperation("row id space exhausted".to_owned()));
        }
        proof {
            lemma_cols_abs(self.columns@);
            lemma_rows_abs(data@);
        }
        let ncols = self.columns.len();
        let mut sel: Vec<usize> = Vec::new();
        let mut ci: usize = 0;
        while ci < ncols
            invariant
                cols0 == old(self).abs().cols,
                self.columns@ == old(self).columns@,
                self.name == old(self).name,
                self.pk_map == old(self).pk_map,
                names@ == eff,
                ncols == self.columns@.len(),
                ncols == cols0.len(),
                0 <= ci <= ncols,
                sel@ == sel_indices(cols0.take(ci as int), eff),
                forall|l: int| 0 <= l < sel@.len() ==> (#[trigger] sel@[l]) < ci,
            decreases ncols - ci,
        {
            proof {
                lemma_cols_abs(self.columns@);
                assert(cols0.take(ci + 1).drop_last() =~= cols0.take(ci as int));
                assert(cols0.take(ci + 1).last() == cols0[ci as int]);
                assert(cols0[ci as int] == self.columns@[ci as int].abs());
            }
            let hit = vec_contains_string(&names, &self.columns[ci].header.name);
            if hit {
                sel.push(ci);
            }
            ci += 1;
        }
        proof {
            assert(cols0.take(ncols as int) =~= cols0);
        }
        let ghost sel_s = sel@;
        let ghost rows0 = rows_abs(data@);
        proof {
            lemma_cols_abs(self.columns@);
            lemma_rows_abs(data@);
            assert(rid_le(last_rid(cols0), next0 - 1));
            lemma_each_le_last_rid(cols0, next0 - 1);
            assert forall|l: int| 0 <= l < cols0.len() implies hdr_keeps(
                (#[trigger] self.columns@[l]).header,
                old(self).columns@[l].header,
            ) && rid_le(self.columns@[l].header.last_row_id, next0 - 1) && col_wf(
                self.columns@[l].abs(),
            ) by {
                assert(cols0[l] == self.columns@[l].abs());
                assert(col_wf(cols0[l]));
                assert(rid_le(cols0[l].header.last_row_id, next0 - 1));
            }
        }
        let mut rdata = data;
        let mut rid = next0;
        let ghost mut r: int = 0;
        while rdata.len() > 0
            invariant
                old(self).wf(),
                cols0 == old(self).abs().cols,
                self.name == old(self).name,
                self.pk_map == old(self).pk_map,
                self.columns@.len() == cols0.len(),
                rows0 == rows_abs(data@),
                rows0.len() == data@.len(),
                eff == (if columns@.len() == 0 {
                    all_names(cols0)
                } else {
                    columns@
                }),
                sel_s == sel_indices(cols0, eff),
                sel@ == sel_s,
                forall|l: int| 0 <= l < sel_s.len() ==> (#[trigger] sel_s[l]) < cols0.len(),
                next0 as int == next_rid(cols0),
                data@.len() + next0 <= usize::MAX,
                0 <= r <= rows0.len(),
                rdata@ == data@.skip(r),
                rid == next0 + r,
                cols_abs(self.columns@) == insert_rows_upto(cols0, sel_s, rows0, next0 as int, r).0,
                insert_rows_upto(cols0, sel_s, rows0, next0 as int, r).1,
                forall|l: int|
                    0 <= l < cols0.len() ==> hdr_keeps(
                        (#[trigger] self.columns@[l]).header,
                        old(self).columns@[l].header,
                    ) && rid_le(self.columns@[l].header.last_row_id, next0 + r - 1) && col_wf(
                        self.columns@[l].abs(),
                    ),
            decreases rdata@.len(),
        {
            proof {
                lemma_rows_abs(data@);
            }
            let datum = rdata.remove(0);
            proof {
                assert(datum == data@.skip(r)[0]);
                assert(datum == data@[r]);
                assert(rdata@ =~= data@.skip(r + 1));
                assert(rows0[r] == datum@);
            }
            let ghost row_cols = cols_abs(self.columns@);
            let mut dat = datum;
            let nsel = sel.len();
            let mut jj: usize = 0;
            let ghost mut j: int = 0;
            while jj < nsel && dat.len() > 0
                invariant
                    old(self).wf(),
                    cols0 == old(self).abs().cols,
                    self.name == old(self).name,
                    self.pk_map == old(self).pk_map,
                    self.columns@.len() == cols0.len(),
                    rows0 == rows_abs(data@),
                    rows0.len() == data@.len(),
                    eff == (if columns@.len() == 0 {
                        all_names(cols0)
                    } else {
                        columns@
                    }),
                    sel_s == sel_indices(cols0, eff),
                    sel@ == sel_s,
                    nsel == sel_s.len(),
                    forall|l: int| 0 <= l < sel_s.len() ==> (#[trigger] sel_s[l]) < cols0.len(),
                    next0 as int == next_rid(cols0),
                    data@.len() + next0 <= usize::MAX,
                    0 <= r < rows0.len(),
                    rdata@ == data@.skip(r + 1),
                    rid == next0 + r,
                    rows0[r] == datum@,
                    row_cols == insert_rows_upto(cols0, sel_s, rows0, next0 as int, r).0,
                    insert_rows_upto(cols0, sel_s, rows0, next0 as int, r).1,
                    jj == j,
                    0 <= j <= nsel,
                    j <= datum@.len(),
                    dat@ == datum@.skip(j),
                    cols_abs(self.columns@) == insert_datum_upto(
                        row_cols,
                        sel_s,
                        datum@,
                        rid,
                        j,
                    ).0,
                    insert_datum_upto(row_cols, sel_s, datum@, rid, j).1,
                    forall|l: int|
                        0 <= l < cols0.len() ==> hdr_keeps(
                            (#[trigger] self.columns@[l]).header,
                            old(self).columns@[l].header,
                        ) && rid_le(self.columns@[l].header.last_row_id, next0 + r) && col_wf(
                            self.columns@[l].abs(),
                        ),
                decreases dat@.len(),
            {
                let lit = dat.remove(0);
                proof {
                    assert(lit == datum@.skip(j)[0]);
                    assert(lit == datum@[j]);
                    assert(dat@ =~= datum@.skip(j + 1));
                }
                let cidx = sel[jj];
                let ghost snap = self.columns@;
                let mut colv = self.columns.remove(cidx);
                let res = colv.insert(rid, lit);
                self.columns.insert(cidx, colv);
                proof {
                    lemma_cols_abs(snap);
                    lemma_cols_abs(self.columns@);
                    assert(self.columns@ =~= snap.update(cidx as int, colv));
                    assert(cols_abs(snap)[cidx as int] == snap[cidx as int].abs());
                    assert forall|l: int| 0 <= l < cols0.len() implies #[trigger] cols_abs(
                        self.columns@,
                    )[l] == insert_datum_upto(row_cols, sel_s, datum@, rid, j + 1).0[l] by {
                        if l != cidx as int {
                            assert(self.columns@[l] == snap[l]);
                        }
                    }
                    assert(cols_abs(self.columns@) =~= insert_datum_upto(
                        row_cols,
                        sel_s,
                        datum@,
                        rid,
                        j + 1,
                    ).0);
                    assert forall|l: int| 0 <= l < cols0.len() implies hdr_keeps(
                        (#[trigger] self.columns@[l]).header,
                        old(self).columns@[l].header,
                    ) && rid_le(self.columns@[l].header.last_row_id, next0 + r) && col_wf(
                        self.columns@[l].abs(),
                    ) by {
                        if l == cidx as int {
                            assert(self.columns@[l] == colv);
                        } else {
                            assert(self.columns@[l] == snap[l]);
                        }
                    }
                }
                match res {
                    Err(e) => {
                        proof {
                            assert(!insert_datum_upto(row_cols, sel_s, datum@, rid, j + 1).1);
                            lemma_datum_fold_stuck(
                                row_cols,
                                sel_s,
                                datum@,
                                rid,
                                j + 1,
                                pair_count(sel_s, datum@),
                            );
                            assert(insert_datum(row_cols, sel_s, rows0[r], rid)
                                == (cols_abs(self.columns@), false));
                            assert(insert_rows_upto(cols0, sel_s, rows0, next0 as int, r + 1)
                                == (cols_abs(self.columns@), false));
                            lemma_rows_fold_stuck(
                                cols0,
                                sel_s,
                                rows0,
                                next0 as int,
                                r + 1,
                                rows0.len() as int,
                            );
                            assert forall|l: int| 0 <= l < cols0.len() implies col_wf(
                                (#[trigger] cols_abs(self.columns@)[l]),
                            ) by {
                                assert(cols_abs(self.columns@)[l] == self.columns@[l].abs());
                            }
                            lemma_finish_insert_wf(*self, *old(self), cols0, next0 as int + r + 1);
                        }
                        return Err(e);
                    },
                    Ok(()) => {
                    },
                }
                jj += 1;
                proof {
                    j = j + 1;
                }
            }
            proof {
                assert(j == pair_count(sel_s, datum@));
                assert(insert_datum(row_cols, sel_s, rows0[r], rid) == (
                    cols_abs(self.columns@),
                    true,
                ));
                assert(insert_rows_upto(cols0, sel_s, rows0, next0 as int, r + 1) == (
                    cols_abs(self.columns@),
                    true,
                ));
                r = r + 1;
            }
            rid += 1;
        }
        proof {
            assert(data@.skip(r).len() == 0);
            assert(r == rows0.len());
            lemma_finish_insert_wf(*self, *old(self), cols0, next0 as int + r);
        }
        Ok(())
    }

    /// Overwrite the assigned columns at every selected row id. Assigning
    /// the primary key is refused; a literal of the wrong type is refused
    /// once some row is selected. Columns before the refusal stay updated.
    pub fn update(&mut self, assignments: Vec<(String, Literal)>, selected: Vec<RowId>) -> (r:
        Result<(), Error>)
        requires
            old(self).wf(),
        ensures
            final(self).wf(),
            final(self).name == old(self).name,
            final(self).pk_map == old(self).pk_map,
            ({
                let res = table_updated(old(self).abs().cols, assignments@, selected@);
                final(self).abs().cols == res.0 && match r {
                    Ok(()) => res.1 is None,
                    Err(e) => match res.1 {
                        Some(UpdErr::Pk) => e is InvalidOperation,
                        Some(UpdErr::Type) => e is InvalidOperation,
                        None => false,
                    },
                }
            }),
    {
        let ghost cols0 = self.abs().cols;
        proof {
            lemma_cols_abs(self.columns@);
            assert forall|l: int| 0 <= l < cols0.len() implies (#[trigger] self.columns@[l]).header
                == old(self).columns@[l].header && col_wf(self.columns@[l].abs()) by {
                assert(cols0[l] == self.columns@[l].abs());
                assert(col_wf(cols0[l]));
            }
        }
        let ncols = self.columns.len();
        let mut i: usize = 0;
        while i < ncols
            invariant
                old(self).wf(),
                cols0 == old(self).abs().cols,
                self.name == old(self).name,
                self.pk_map == old(self).pk_map,
                ncols == cols0.len(),
                ncols == self.columns@.len(),
                0 <= i <= ncols,
                cols_abs(self.columns@) == table_updated_upto(
                    cols0,
                    assignments@,
                    selected@,
                    i as int,
                ).0,
                table_updated_upto(cols0, assignments@, selected@, i as int).1 is None,
                forall|l: int|
                    0 <= l < ncols ==> (#[trigger] self.columns@[l]).header == old(
                        self,
                    ).columns@[l].header && col_wf(self.columns@[l].abs()),
            decreases ncols - i,
        {
            proof {
                lemma_cols_abs(self.columns@);
            }
            let lname = crate::casing::to_lower(self.columns[i].header.name.as_str());
            let found = find_assign(&assignments, &lname);
            let ghost stepped = table_updated_upto(cols0, assignments@, selected@, i + 1);
            proof {
                assert(cols_abs(self.columns@)[i as int] == self.columns@[i as int].abs());
            }
            match found {
                None => {
                    proof {
                        assert(stepped == table_updated_upto(
                            cols0,
                            assignments@,
                            selected@,
                            i as int,
                        ));
                    }
                },
                Some(lit) => {
                    if self.columns[i].header.is_pk {
                        proof {
                            assert(stepped.1 == Some(UpdErr::Pk));
                            lemma_update_fold_stuck(
                                cols0,
                                assignments@,
                                selected@,
                                i + 1,
                                ncols as int,
                            );
                            assert(pk_index_wf(self.pk_map@));
                            lemma_update_finish_wf(*self, *old(self), cols0);
                        }
                        return Err(
                            Error::InvalidOperation("updating the primary is not allowed".to_owned()),
                        );
                    }
                    if selected.len() > 0 {
                        let ghost snap = self.columns@;
                        let mut colv = self.columns.remove(i);
                        let ghost colv0 = colv;
                        let ghost c0 = colv.abs();
                        let nids = selected.len();
                        let mut k: usize = 0;
                        let mut err: Option<Error> = None;
                        while k < nids && err.is_none()
                            invariant
                                0 <= k <= nids,
                                nids == selected@.len(),
                                colv.header == c0.header,
                                colv.data.wf(),
                                c0 == colv0.abs(),
                                match err {
                                    None => colv.data.cells() == cc_upsert_many(
                                        c0.cells,
                                        lit,
                                        selected@,
                                        k as int,
                                    ) && (k > 0 ==> lit_matches(cc_tag(c0.cells), lit)) && (k == 0
                                        ==> colv == colv0),
                                    Some(e) => e is InvalidOperation && !lit_matches(
                                        cc_tag(c0.cells),
                                        lit,
                                    ) && colv == colv0,
                                },
                            decreases nids - k + (if err is None {
                                1int
                            } else {
                                0int
                            }),
                        {
                            let ghost colv_pre = colv;
                            let res = colv.data.update(selected[k], lit.clone());
                            match res {
                                Err(e) => {
                                    proof {
                                        lemma_upsert_many_tag(c0.cells, lit, selected@, k as int);
                                        if k > 0 {
                                            assert(false);
                                        }
                                        assert(colv == colv_pre);
                                        assert(colv == colv0);
                                    }
                                    err = Some(e);
                                },
                                Ok(()) => {
                                    proof {
                                        lemma_upsert_many_tag(c0.cells, lit, selected@, k as int);
                                    }
                                    k += 1;
                                },
                            }
                        }
                        self.columns.insert(i, colv);
                        proof {
                            assert(self.columns@ =~= snap.update(i as int, colv));
                        }
                        match err {
                            Some(e) => {
                                proof {
                                    assert(colv == snap[i as int]);
                                    assert(self.columns@ =~= snap);
                                    assert(!lit_matches(c0.header.datatype, lit));
                                    assert(stepped.1 == Some(UpdErr::Type));
                                    lemma_update_fold_stuck(
                                        cols0,
                                        assignments@,
                                        selected@,
                                        i + 1,
                                        ncols as int,
                                    );
                                    assert(pk_index_wf(self.pk_map@));
                                    lemma_update_finish_wf(*self, *old(self), cols0);
                                }
                                return Err(e);
                            },
                            None => {
                                proof {
                                    lemma_cols_abs(snap);
                                    lemma_cols_abs(self.columns@);
                                    assert forall|l: int| 0 <= l < ncols implies #[trigger]
                                        cols_abs(self.columns@)[l] == stepped.0[l] by {
                                        if l != i as int {
                                            assert(self.columns@[l] == snap[l]);
                                        } else {
                                            assert(self.columns@[l] == colv);
                                        }
                                    }
                                    assert(cols_abs(self.columns@) =~= stepped.0);
                                    lemma_upsert_many_tag(
                                        c0.cells,
                                        lit,
                                        selected@,
                                        selected@.len() as int,
                                    );
                                    assert forall|l: int| 0 <= l < ncols implies (#[trigger]
                                    self.columns@[l]).header == old(self).columns@[l].header
                                        && col_wf(self.columns@[l].abs()) by {
                                        if l != i as int {
                                            assert(self.columns@[l] == snap[l]);
                                        } else {
                                            assert(self.columns@[l] == colv);
                                            assert(colv.header == c0.header);
                                            assert(c0 == snap[i as int].abs());
                                        }
                                    }
                                }
                            },
                        }
                    } else {
                        proof {
                            assert(stepped == table_updated_upto(
                                cols0,
                                assignments@,
                                selected@,
                                i as int,
                            ));
                        }
                    }
                },
            }
            i += 1;
        }
        proof {
            lemma_cols_abs(self.columns@);
            assert(pk_index_wf(self.pk_map@));
            lemma_update_finish_wf(*self, *old(self), cols0);
        }
        Ok(())
    }

    /// Remove every selected row id from every column and from the
    /// primary-key index.
    pub fn delete(&mut self, selected: Vec<RowId>) -> (r: Result<(), Error>)
        requires
            old(self).wf(),
        ensures
            final(self).wf(),
            final(self).name == old(self).name,
            r is Ok,
            ({
                let res = table_deleted(old(self).abs().cols, old(self).abs().pk, selected@);
                final(self).abs().cols == res.0 && final(self).abs().pk == res.1
            }),
    {
        let ghost cols0 = self.abs().cols;
        let ghost pk0 = self.abs().pk;
        proof {
            lemma_cols_abs(self.columns@);
            assert forall|l: int| 0 <= l < cols0.len() implies (#[trigger] self.columns@[l]).header
                == old(self).columns@[l].header && col_wf(self.columns@[l].abs()) by {
                assert(cols0[l] == self.columns@[l].abs());
                assert(col_wf(cols0[l]));
            }
        }
        let nids = selected.len();
        let ncols = self.columns.len();
        let mut k: usize = 0;
        while k < nids
            invariant
                old(self).wf(),
                cols0 == old(self).abs().cols,
                pk0 == old(self).abs().pk,
                self.name == old(self).name,
                nids == selected@.len(),
                ncols == cols0.len(),
                ncols == self.columns@.len(),
                0 <= k <= nids,
                cols_abs(self.columns@) == table_deleted_upto(cols0, pk0, selected@, k as int).0,
                self.pk_map@ == table_deleted_upto(cols0, pk0, selected@, k as int).1,
                self.pk_map.wf(),
                forall|l: int|
                    0 <= l < ncols ==> (#[trigger] self.columns@[l]).header == old(
                        self,
                    ).columns@[l].header && col_wf(self.columns@[l].abs()),
            decreases nids - k,
        {
            let id = selected[k];
            let ghost colsnap = self.columns@;
            let ghost row_cols = cols_abs(self.columns@);
            let ghost pkv = self.pk_map@;
            proof {
                lemma_cols_abs(colsnap);
            }
            let mut ci: usize = 0;
            while ci < ncols
                invariant
                    0 <= ci <= ncols,
                    ncols == self.columns@.len(),
                    ncols == colsnap.len(),
                    self.name == old(self).name,
                    row_cols == cols_abs(colsnap),
                    row_cols.len() == ncols,
                    self.pk_map@ == pkv,
                    self.pk_map.wf(),
                    forall|l: int|
                        0 <= l < ci ==> (#[trigger] self.columns@[l]).abs() == cols_without_id(
                            row_cols,
                            id,
                        )[l] && self.columns@[l].header == colsnap[l].header && col_wf(
                            self.columns@[l].abs(),
                        ),
                    forall|l: int| ci <= l < ncols ==> #[trigger] self.columns@[l] == colsnap[l],
                    forall|l: int|
                        0 <= l < ncols ==> col_wf((#[trigger] colsnap[l]).abs()),
                decreases ncols - ci,
            {
                let ghost snap = self.columns@;
                let mut c = self.columns.remove(ci);
                proof {
                    assert(c == colsnap[ci as int]);
                    assert(col_wf(c.abs()));
                }
                c.data.delete(id);
                self.columns.insert(ci, c);
                proof {
                    lemma_cols_without_id(row_cols, id);
                    lemma_cols_abs(colsnap);
                    assert(self.columns@ =~= snap.update(ci as int, c));
                    assert(row_cols[ci as int] == colsnap[ci as int].abs());
                    lemma_cc_remove_keeps_wf(colsnap[ci as int].abs().cells, id);
                    assert(self.columns@[ci as int].abs() == cols_without_id(row_cols, id)[
                        ci as int]);
                }
                ci += 1;
            }
            self.pk_map.remove_by_row(id);
            proof {
                lemma_cols_abs(self.columns@);
                lemma_cols_without_id(row_cols, id);
                assert forall|l: int| 0 <= l < ncols implies #[trigger] cols_abs(self.columns@)[l]
                    == cols_without_id(row_cols, id)[l] by {
                    assert(cols_abs(self.columns@)[l] == self.columns@[l].abs());
                }
                assert(cols_abs(self.columns@) =~= cols_without_id(row_cols, id));
                assert(table_deleted_upto(cols0, pk0, selected@, k + 1) == (
                    cols_without_id(row_cols, id),
                    pk_remove_row(pkv, id),
                ));
            }
            k += 1;
        }
        proof {
            lemma_cols_abs(self.columns@);
            assert(pk_index_wf(self.pk_map@));
            lemma_update_finish_wf(*self, *old(self), cols0);
        }
        Ok(())
    }
}

/// Removing a cell keeps a column's entries sorted and its type.
pub proof fn lemma_cc_remove_keeps_wf(c: ColCells, id: usize)
    requires
        cc_wf(c),
    ensures
        cc_wf(cc_remove(c, id)),
        cc_tag(cc_remove(c, id)) == cc_tag(c),
{
    match c {
        ColCells::Int(s) => crate::rowmap::lemma_remove(s, id),
        ColCells::Str(s) => crate::rowmap::lemma_remove(s, id),
        ColCells::Bool(s) => crate::rowmap::lemma_remove(s, id),
    }
}

/// A table whose columns kept their headers, with a well-formed index, is
/// still well formed.
pub proof fn lemma_update_finish_wf(cur: Table, orig: Table, cols0: Seq<ColAbs>)
    requires
        tbl_wf(orig.abs()),
        cols0 == orig.abs().cols,
        pk_index_wf(cur.pk_map@),
        cur.columns@.len() == cols0.len(),
        forall|l: int|
            0 <= l < cols0.len() ==> (#[trigger] cur.columns@[l]).header == orig.columns@[l].header
                && col_wf(cur.columns@[l].abs()),
    ensures
        tbl_wf(cur.abs()),
{
    lemma_cols_abs(cur.columns@);
    lemma_cols_abs(orig.columns@);
    let tc = cur.abs().cols;
    assert forall|l: int| 0 <= l < tc.len() implies col_wf(#[trigger] tc[l]) by {
        assert(tc[l] == cur.columns@[l].abs());
    }
    let w = choose|w: int| 0 <= w < cols0.len() && (#[trigger] cols0[w]).header.is_pk;
    assert(cols0[w] == orig.columns@[w].abs());
    assert(tc[w] == cur.columns@[w].abs());
    assert(tc[w].header.is_pk);
    assert forall|l: int| 0 <= l < tc.len() implies (#[trigger] tc[l]).header.last_row_id
        == cols0[l].header.last_row_id by {
        assert(tc[l] == cur.columns@[l].abs());
        assert(cols0[l] == orig.columns@[l].abs());
    }
    lemma_last_rid_same_headers(tc, cols0);
}

/// The first assignment for `key`, cloned out; the clone keeps the value.
fn find_assign(assigns: &Vec<(String, Literal)>, key: &String) -> (r: Option<Literal>)
    ensures
        match r {
            Some(l) => lookup_assign(assigns@, key@) == Some(l),
            None => lookup_assign(assigns@, key@) is None,
        },
{
    let n = assigns.len();
    let mut i: usize = 0;
    while i < n
        invariant
            n == assigns@.len(),
            0 <= i <= n,
            forall|j: int| 0 <= j < i ==> (#[trigger] assigns@[j]).0@ != key@,
        decreases n - i,
    {
        if assigns[i].0 == *key {
            proof {
                lemma_lookup_assign_found(assigns@, key@, i as int);
            }
            return Some(assigns[i].1.clone());
        }
        i += 1;
    }
    proof {
        lemma_lookup_assign_missing(assigns@, key@);
    }
    None
}

/// When the first `i` assignments miss and assignment `i` matches, the
/// lookup finds it.
proof fn lemma_lookup_assign_found(assigns: Seq<(String, Literal)>, key: Seq<char>, i: int)
    requires
        0 <= i < assigns.len(),
        forall|j: int| 0 <= j < i ==> (#[trigger] assigns[j]).0@ != key,
        assigns[i].0@ == key,
    ensures
        lookup_assign(assigns, key) == Some(assigns[i].1),
    decreases i,
{
    if i > 0 {
        assert forall|j: int| 0 <= j < i - 1 implies (#[trigger] assigns.drop_first()[j]).0@ != key
            by {
            assert(assigns.drop_first()[j] == assigns[j + 1]);
        }
        assert(assigns.drop_first()[i - 1] == assigns[i]);
        lemma_lookup_assign_found(assigns.drop_first(), key, i - 1);
    }
}

/// When no assignment matches, the lookup reports none.
proof fn lemma_lookup_assign_missing(assigns: Seq<(String, Literal)>, key: Seq<char>)
    requires
        forall|j: int| 0 <= j < assigns.len() ==> (#[trigger] assigns[j]).0@ != key,
    ensures
        lookup_assign(assigns, key) is None,
    decreases assigns.len(),
{
    if assigns.len() > 0 {
        assert forall|j: int| 0 <= j < assigns.drop_first().len() implies (#[trigger]
        assigns.drop_first()[j]).0@ != key by {
            assert(assigns.drop_first()[j] == assigns[j + 1]);
        }
        lemma_lookup_assign_missing(assigns.drop_first(), key);
    }
}

/// The literal rows of an insert, as the contracts speak of them.
pub open spec fn rows_abs(rows: Seq<Vec<Literal>>) -> Seq<Seq<Literal>>
    decreases rows.len(),
{
    if rows.len() == 0 {
        Seq::empty()
    } else {
        rows_abs(rows.drop_last()).push(rows.last()@)
    }
}

/// Length and elements of `rows_abs`.
pub proof fn lemma_rows_abs(rows: Seq<Vec<Literal>>)
    ensures
        rows_abs(rows).len() == rows.len(),
        forall|l: int| 0 <= l < rows.len() ==> #[trigger] rows_abs(rows)[l] == rows[l]@,
    decreases rows.len(),
{
    if rows.len() > 0 {
        lemma_rows_abs(rows.drop_last());
        assert forall|l: int| 0 <= l < rows.len() implies #[trigger] rows_abs(rows)[l] == rows[l]@
            by {
            if l < rows.len() - 1 {
                assert(rows.drop_last()[l] == rows[l]);
            }
        }
    }
}

/// The names of all columns, in definition order.
pub open spec fn all_names(cols: Seq<ColAbs>) -> Seq<String>
    decreases cols.len(),
{
    if cols.len() == 0 {
        Seq::empty()
    } else {
        all_names(cols.drop_last()).push(cols.last().header.name)
    }
}

/// Length and elements of `all_names`.
pub proof fn lemma_all_names(cols: Seq<ColAbs>)
    ensures
        all_names(cols).len() == cols.len(),
        forall|l: int| 0 <= l < cols.len() ==> #[trigger] all_names(cols)[l] == cols[l].header.name,
    decreases cols.len(),
{
    if cols.len() > 0 {
        lemma_all_names(cols.drop_last());
        assert forall|l: int| 0 <= l < cols.len() implies #[trigger] all_names(cols)[l] == cols[l]
            .header.name by {
            if l < cols.len() - 1 {
                assert(cols.drop_last()[l] == cols[l]);
            }
        }
    }
}

/// Does some name in `names` spell `n`, character for character?
pub open spec fn names_contain(names: Seq<String>, n: String) -> bool {
    exists|i: int| 0 <= i < names.len() && (#[trigger] names[i])@ == n@
}

/// The indices of the columns whose name occurs in `names`, ascending.
pub open spec fn sel_indices(cols: Seq<ColAbs>, names: Seq<String>) -> Seq<usize>
    decreases cols.len(),
{
    if cols.len() == 0 {
        Seq::empty()
    } else {
        let rest = sel_indices(cols.drop_last(), names);
        if names_contain(names, cols.last().header.name) {
            rest.push((cols.len() - 1) as usize)
        } else {
            rest
        }
    }
}

/// How many (column, literal) pairs one inserted row yields: positional
/// pairing stops at the shorter of the two lists.
pub open spec fn pair_count(sel: Seq<usize>, row: Seq<Literal>) -> int {
    if sel.len() <= row.len() {
        sel.len() as int
    } else {
        row.len() as int
    }
}

/// The columns after the first `j` pairs of one row were written at row id
/// `rid`, with a flag that is false once a literal mismatched its column.
/// Each touched column's last-assigned row id moves to `rid` even when the
/// write itself is then refused.
pub open spec fn insert_datum_upto(
    cols: Seq<ColAbs>,
    sel: Seq<usize>,
    row: Seq<Literal>,
    rid: usize,
    j: int,
) -> (Seq<ColAbs>, bool)
    decreases j,
{
    if j <= 0 {
        (cols, true)
    } else {
        let prev = insert_datum_upto(cols, sel, row, rid, j - 1);
        if !prev.1 {
            prev
        } else {
            let ci = sel[j - 1] as int;
            let lit = row[j - 1];
            let c = prev.0[ci];
            let ok = lit_matches(c.header.datatype, lit);
            let c2 = ColAbs {
                header: ColumnHeader { last_row_id: Some(rid), ..c.header },
                cells: if ok {
                    cc_upsert_lit(c.cells, rid, lit)
                } else {
                    c.cells
                },
            };
            (prev.0.update(ci, c2), ok)
        }
    }
}

/// The columns after one full row was written at row id `rid`.
pub open spec fn insert_datum(
    cols: Seq<ColAbs>,
    sel: Seq<usize>,
    row: Seq<Literal>,
    rid: usize,
) -> (Seq<ColAbs>, bool) {
    insert_datum_upto(cols, sel, row, rid, pair_count(sel, row))
}

/// The columns after the first `r` rows were written at consecutive row ids
/// from `start`; a mismatch stops the fold, leaving the partial state.
pub open spec fn insert_rows_upto(
    cols: Seq<ColAbs>,
    sel: Seq<usize>,
    rows: Seq<Seq<Literal>>,
    start: int,
    r: int,
) -> (Seq<ColAbs>, bool)
    decreases r,
{
    if r <= 0 {
        (cols, true)
    } else {
        let prev = insert_rows_upto(cols, sel, rows, start, r - 1);
        if !prev.1 {
            prev
        } else {
            insert_datum(prev.0, sel, rows[r - 1], (start + r - 1) as usize)
        }
    }
}

/// What an insert does: empty `names` selects every column in definition
/// order; each row is written at the next fresh row id.
pub open spec fn table_inserted(
    cols: Seq<ColAbs>,
    names: Seq<String>,
    rows: Seq<Seq<Literal>>,
) -> (Seq<ColAbs>, bool) {
    let eff = if names.len() == 0 {
        all_names(cols)
    } else {
        names
    };
    insert_rows_upto(cols, sel_indices(cols, eff), rows, next_rid(cols), rows.len() as int)
}

/// A stuck row fold stays stuck and keeps its state.
pub proof fn lemma_rows_fold_stuck(
    cols: Seq<ColAbs>,
    sel: Seq<usize>,
    rows: Seq<Seq<Literal>>,
    start: int,
    r0: int,
    r1: int,
)
    requires
        0 <= r0 <= r1,
        !insert_rows_upto(cols, sel, rows, start, r0).1,
    ensures
        insert_rows_upto(cols, sel, rows, start, r1) == insert_rows_upto(
            cols,
            sel,
            rows,
            start,
            r0,
        ),
    decreases r1 - r0,
{
    if r1 > r0 {
        lemma_rows_fold_stuck(cols, sel, rows, start, r0, r1 - 1);
    }
}

/// A stuck pair fold stays stuck and keeps its state.
pub proof fn lemma_datum_fold_stuck(
    cols: Seq<ColAbs>,
    sel: Seq<usize>,
    row: Seq<Literal>,
    rid: usize,
    j0: int,
    j1: int,
)
    requires
        0 <= j0 <= j1,
        !insert_datum_upto(cols, sel, row, rid, j0).1,
    ensures
        insert_datum_upto(cols, sel, row, rid, j1) == insert_datum_upto(cols, sel, row, rid, j0),
    decreases j1 - j0,
{
    if j1 > j0 {
        lemma_datum_fold_stuck(cols, sel, row, rid, j0, j1 - 1);
    }
}

/// Is the optional row id at most `b`?
pub open spec fn rid_le(a: Option<usize>, b: int) -> bool {
    match a {
        None => true,
        Some(x) => x <= b,
    }
}

/// A bound on every column's last-assigned row id bounds the watermark.
pub proof fn lemma_last_rid_le(cols: Seq<ColAbs>, b: int)
    requires
        forall|i: int| 0 <= i < cols.len() ==> rid_le((#[trigger] cols[i]).header.last_row_id, b),
    ensures
        rid_le(last_rid(cols), b),
    decreases cols.len(),
{
    if cols.len() > 0 {
        assert forall|i: int| 0 <= i < cols.drop_last().len() implies rid_le(
            (#[trigger] cols.drop_last()[i]).header.last_row_id,
            b,
        ) by {
            assert(cols.drop_last()[i] == cols[i]);
        }
        lemma_last_rid_le(cols.drop_last(), b);
        assert(cols.last() == cols[cols.len() - 1]);
    }
}

/// Every column's last-assigned row id is at most the watermark.
pub proof fn lemma_each_le_last_rid(cols: Seq<ColAbs>, b: int)
    requires
        rid_le(last_rid(cols), b),
    ensures
        forall|i: int| 0 <= i < cols.len() ==> rid_le((#[trigger] cols[i]).header.last_row_id, b),
    decreases cols.len(),
{
    if cols.len() > 0 {
        lemma_each_le_last_rid(cols.drop_last(), b);
        assert forall|i: int| 0 <= i < cols.len() implies rid_le(
            (#[trigger] cols[i]).header.last_row_id,
            b,
        ) by {
            if i < cols.len() - 1 {
                assert(cols.drop_last()[i] == cols[i]);
            } else {
                assert(cols.last() == cols[i]);
            }
        }
    }
}

/// A table whose columns changed only cell-wise and watermark-wise, within
/// bound `b`, is still well formed.
pub proof fn lemma_finish_insert_wf(cur: Table, orig: Table, cols0: Seq<ColAbs>, b: int)
    requires
        tbl_wf(orig.abs()),
        cols0 == orig.abs().cols,
        cur.pk_map@ == orig.pk_map@,
        cur.columns@.len() == cols0.len(),
        b <= usize::MAX,
        forall|l: int|
            0 <= l < cols0.len() ==> hdr_keeps(
                (#[trigger] cur.columns@[l]).header,
                orig.columns@[l].header,
            ) && rid_le(cur.columns@[l].header.last_row_id, b - 1) && col_wf(
                cur.columns@[l].abs(),
            ),
    ensures
        tbl_wf(cur.abs()),
{
    lemma_cols_abs(cur.columns@);
    lemma_cols_abs(orig.columns@);
    let tc = cur.abs().cols;
    assert forall|l: int| 0 <= l < tc.len() implies col_wf(#[trigger] tc[l]) by {
        assert(tc[l] == cur.columns@[l].abs());
    }
    let w = choose|w: int| 0 <= w < cols0.len() && (#[trigger] cols0[w]).header.is_pk;
    assert(cols0[w] == orig.columns@[w].abs());
    assert(hdr_keeps(cur.columns@[w].header, orig.columns@[w].header));
    assert(tc[w] == cur.columns@[w].abs());
    assert(tc[w].header.is_pk);
    assert forall|l: int| 0 <= l < tc.len() implies rid_le(
        (#[trigger] tc[l]).header.last_row_id,
        b - 1,
    ) by {
        assert(tc[l] == cur.columns@[l].abs());
    }
    lemma_last_rid_le(tc, b - 1);
}

/// Do two headers agree on everything but the last-assigned row id?
pub open spec fn hdr_keeps(a: ColumnHeader, b: ColumnHeader) -> bool {
    a.name == b.name && a.hidden == b.hidden && a.datatype == b.datatype && a.nullable
        == b.nullable && a.is_pk == b.is_pk
}

/// Does `v` hold a string spelling `s`?
fn vec_contains_string(v: &Vec<String>, s: &String) -> (r: bool)
    ensures
        r == names_contain(v@, *s),
{
    let n = v.len();
    let mut i: usize = 0;
    while i < n
        invariant
            n == v@.len(),
            0 <= i <= n,
            forall|j: int| 0 <= j < i ==> (#[trigger] v@[j])@ != s@,
        decreases n - i,
    {
        if v[i] == *s {
            return true;
        }
        i += 1;
    }
    false
}

/// The first assignment whose column name spells `key`, if any.
pub open spec fn lookup_assign(assigns: Seq<(String, Literal)>, key: Seq<char>) -> Option<Literal>
    decreases assigns.len(),
{
    if assigns.len() == 0 {
        None
    } else if assigns[0].0@ == key {
        Some(assigns[0].1)
    } else {
        lookup_assign(assigns.drop_first(), key)
    }
}

/// Why an update stopped.
pub enum UpdErr {
    Pk,
    Type,
}

/// `c` with `lit` stored at each of the first `n` row ids of `ids`.
pub open spec fn cc_upsert_many(c: ColCells, lit: Literal, ids: Seq<usize>, n: int) -> ColCells
    decreases n,
{
    if n <= 0 {
        c
    } else {
        cc_upsert_lit(cc_upsert_many(c, lit, ids, n - 1), ids[n - 1], lit)
    }
}

/// Upserting keeps the column's declared type.
pub proof fn lemma_upsert_many_tag(c: ColCells, lit: Literal, ids: Seq<usize>, n: int)
    ensures
        cc_tag(cc_upsert_many(c, lit, ids, n)) == cc_tag(c),
    decreases n,
{
    if n > 0 {
        lemma_upsert_many_tag(c, lit, ids, n - 1);
    }
}

/// A literal of the wrong type changes nothing, however often it is
/// applied.
pub proof fn lemma_upsert_many_mismatch(c: ColCells, lit: Literal, ids: Seq<usize>, n: int)
    requires
        !lit_matches(cc_tag(c), lit),
    ensures
        cc_upsert_many(c, lit, ids, n) == c,
    decreases n,
{
    if n > 0 {
        lemma_upsert_many_mismatch(c, lit, ids, n - 1);
    }
}

/// What an update does to the first `i` columns: each column with an
/// assignment gets the literal at every selected row id; assigning the
/// primary key, or a literal of the wrong type to a nonempty selection,
/// stops the fold there.
pub open spec fn table_updated_upto(
    cols: Seq<ColAbs>,
    assigns: Seq<(String, Literal)>,
    ids: Seq<usize>,
    i: int,
) -> (Seq<ColAbs>, Option<UpdErr>)
    decreases i,
{
    if i <= 0 {
        (cols, None)
    } else {
        let prev = table_updated_upto(cols, assigns, ids, i - 1);
        if prev.1 is Some {
            prev
        } else {
            let c = prev.0[i - 1];
            match lookup_assign(assigns, lower_of(c.header.name@)) {
                None => prev,
                Some(lit) => if c.header.is_pk {
                    (prev.0, Some(UpdErr::Pk))
                } else if ids.len() == 0 {
                    prev
                } else if !lit_matches(c.header.datatype, lit) {
                    (prev.0, Some(UpdErr::Type))
                } else {
                    (
                        prev.0.update(
                            i - 1,
                            ColAbs {
                                header: c.header,
                                cells: cc_upsert_many(c.cells, lit, ids, ids.len() as int),
                            },
                        ),
                        None,
                    )
                },
            }
        }
    }
}

/// What an update does to a table's columns.
pub open spec fn table_updated(
    cols: Seq<ColAbs>,
    assigns: Seq<(String, Literal)>,
    ids: Seq<usize>,
) -> (Seq<ColAbs>, Option<UpdErr>) {
    table_updated_upto(cols, assigns, ids, cols.len() as int)
}

/// A stuck update fold stays stuck and keeps its state.
pub proof fn lemma_update_fold_stuck(
    cols: Seq<ColAbs>,
    assigns: Seq<(String, Literal)>,
    ids: Seq<usize>,
    i0: int,
    i1: int,
)
    requires
        0 <= i0 <= i1,
        table_updated_upto(cols, assigns, ids, i0).1 is Some,
    ensures
        table_updated_upto(cols, assigns, ids, i1) == table_updated_upto(cols, assigns, ids, i0),
    decreases i1 - i0,
{
    if i1 > i0 {
        lemma_update_fold_stuck(cols, assigns, ids, i0, i1 - 1);
    }
}

/// Every column with the cell at `id` removed.
pub open spec fn cols_without_id(cols: Seq<ColAbs>, id: usize) -> Seq<ColAbs>
    decreases cols.len(),
{
    if cols.len() == 0 {
        Seq::empty()
    } else {
        cols_without_id(cols.drop_last(), id).push(
            ColAbs { header: cols.last().header, cells: cc_remove(cols.last().cells, id) },
        )
    }
}

/// Length and elements of `cols_without_id`.
pub proof fn lemma_cols_without_id(cols: Seq<ColAbs>, id: usize)
    ensures
        cols_without_id(cols, id).len() == cols.len(),
        forall|l: int|
            0 <= l < cols.len() ==> #[trigger] cols_without_id(cols, id)[l] == (ColAbs {
                header: cols[l].header,
                cells: cc_remove(cols[l].cells, id),
            }),
    decreases cols.len(),
{
    if cols.len() > 0 {
        lemma_cols_without_id(cols.drop_last(), id);
        assert forall|l: int| 0 <= l < cols.len() implies #[trigger] cols_without_id(cols, id)[l]
            == (ColAbs {
            header: cols[l].header,
            cells: cc_remove(cols[l].cells, id),
        }) by {
            if l < cols.len() - 1 {
                assert(cols.drop_last()[l] == cols[l]);
            }
        }
    }
}

/// What a delete does with the first `n` selected row ids: each is removed
/// from every column and from the primary-key index.
pub open spec fn table_deleted_upto(
    cols: Seq<ColAbs>,
    pk: Seq<(PKType, usize)>,
    ids: Seq<usize>,
    n: int,
) -> (Seq<ColAbs>, Seq<(PKType, usize)>)
    decreases n,
{
    if n <= 0 {
        (cols, pk)
    } else {
        let prev = table_deleted_upto(cols, pk, ids, n - 1);
        (cols_without_id(prev.0, ids[n - 1]), pk_remove_row(prev.1, ids[n - 1]))
    }
}

/// What a delete does to a table.
pub open spec fn table_deleted(
    cols: Seq<ColAbs>,
    pk: Seq<(PKType, usize)>,
    ids: Seq<usize>,
) -> (Seq<ColAbs>, Seq<(PKType, usize)>) {
    table_deleted_upto(cols, pk, ids, ids.len() as int)
}

/// Every column with its cells dropped and its header kept.
pub open spec fn cols_truncated(cols: Seq<ColAbs>) -> Seq<ColAbs>
    decreases cols.len(),
{
    if cols.len() == 0 {
        Seq::empty()
    } else {
        cols_truncated(cols.drop_last()).push(
            ColAbs {
                header: cols.last().header,
                cells: cc_empty(cc_tag(cols.last().cells)),
            },
        )
    }
}

/// Length and elements of `cols_truncated`.
pub proof fn lemma_cols_truncated(cols: Seq<ColAbs>)
    ensures
        cols_truncated(cols).len() == cols.len(),
        forall|l: int|
            0 <= l < cols.len() ==> #[trigger] cols_truncated(cols)[l] == (ColAbs {
                header: cols[l].header,
                cells: cc_empty(cc_tag(cols[l].cells)),
            }),
    decreases cols.len(),
{
    if cols.len() > 0 {
        lemma_cols_truncated(cols.drop_last());
        assert forall|l: int| 0 <= l < cols.len() implies #[trigger] cols_truncated(cols)[l]
            == (ColAbs {
            header: cols[l].header,
            cells: cc_empty(cc_tag(cols[l].cells)),
        }) by {
            if l < cols.len() - 1 {
                assert(cols.drop_last()[l] == cols[l]);
            }
        }
    }
}

} // verus!
