//! The snapshot boundary: a self-describing byte encoding of the whole
//! table set, compressed for the persist and restore meta commands. The
//! encoder is specified byte for byte; the decoder accepts only snapshots
//! that reconstruct a well-formed database.

use vstd::prelude::*;
use vstd::utf8::{encode_utf8, decode_utf8, valid_utf8};

use crate::database::{tbls_abs, Database};
use crate::error::Error;
use crate::rowmap::{entries_sorted, RowMap};
use crate::table::{
    cc_tag, cc_wf, col_wf, rid_le, ColAbs, ColCells, Column, ColumnData, ColumnHeader,
    DataType, PKType, PkIndex, Table, TableAbs,
};

verus! {

// ---------------------------------------------------------------------------
// The encoding, byte for byte.
// ---------------------------------------------------------------------------

/// A 64-bit value, little endian.
pub open spec fn u64le(v: u64) -> Seq<u8> {
    seq![
        (v & 0xff) as u8,
        ((v >> 8) & 0xff) as u8,
        ((v >> 16) & 0xff) as u8,
        ((v >> 24) & 0xff) as u8,
        ((v >> 32) & 0xff) as u8,
        ((v >> 40) & 0xff) as u8,
        ((v >> 48) & 0xff) as u8,
        ((v >> 56) & 0xff) as u8,
    ]
}

/// A character sequence: its UTF-8 byte length, then its UTF-8 bytes.
pub open spec fn enc_str(sv: Seq<char>) -> Seq<u8> {
    u64le(encode_utf8(sv).len() as u64) + encode_utf8(sv)
}

pub open spec fn enc_bool(b: bool) -> Seq<u8> {
    seq![
        if b {
            1u8
        } else {
            0u8
        },
    ]
}

pub open spec fn enc_dt(d: DataType) -> Seq<u8> {
    match d {
        DataType::Int => seq![0u8],
        DataType::Str => seq![1u8],
        DataType::Bool => seq![2u8],
    }
}

/// A 32-bit integer: a sign byte, then its magnitude.
pub open spec fn enc_i32(x: i32) -> Seq<u8> {
    if x >= 0 {
        seq![0u8] + u64le(x as u64)
    } else {
        seq![1u8] + u64le((-(x as int)) as u64)
    }
}

/// An optional row id: a presence byte, then the id if present.
pub open spec fn enc_opt_rid(o: Option<usize>) -> Seq<u8> {
    match o {
        None => seq![0u8],
        Some(x) => seq![1u8] + u64le(x as u64),
    }
}

pub open spec fn enc_int_entries(s: Seq<(usize, i32)>) -> Seq<u8>
    decreases s.len(),
{
    if s.len() == 0 {
        Seq::empty()
    } else {
        enc_int_entries(s.drop_last()) + u64le(s.last().0 as u64) + enc_i32(s.last().1)
    }
}

pub open spec fn enc_str_entries(s: Seq<(usize, String)>) -> Seq<u8>
    decreases s.len(),
{
    if s.len() == 0 {
        Seq::empty()
    } else {
        enc_str_entries(s.drop_last()) + u64le(s.last().0 as u64) + enc_str(s.last().1@)
    }
}

pub open spec fn enc_bool_entries(s: Seq<(usize, bool)>) -> Seq<u8>
    decreases s.len(),
{
    if s.len() == 0 {
        Seq::empty()
    } else {
        enc_bool_entries(s.drop_last()) + u64le(s.last().0 as u64) + enc_bool(s.last().1)
    }
}

/// Column contents: a type tag, the entry count, then the entries in
/// ascending key order.
pub open spec fn enc_cells(c: ColCells) -> Seq<u8> {
    match c {
        ColCells::Int(s) => seq![0u8] + u64le(s.len() as u64) + enc_int_entries(s),
        ColCells::Str(s) => seq![1u8] + u64le(s.len() as u64) + enc_str_entries(s),
        ColCells::Bool(s) => seq![2u8] + u64le(s.len() as u64) + enc_bool_entries(s),
    }
}

/// A column header's name and flags.
pub open spec fn enc_hdr5(nm: Seq<char>, hid: bool, dt: DataType, nl: bool, pk: bool) -> Seq<
    u8,
> {
    enc_str(nm) + enc_bool(hid) + enc_dt(dt) + enc_bool(nl) + enc_bool(pk)
}

/// A column header: its name, flags, declared type and last-assigned row
/// id.
pub open spec fn enc_hdr(h: ColumnHeader) -> Seq<u8> {
    enc_hdr5(h.name@, h.hidden, h.datatype, h.nullable, h.is_pk) + enc_opt_rid(h.last_row_id)
}

/// One column: its header fields, then its contents.
pub open spec fn enc_col(c: ColAbs) -> Seq<u8> {
    enc_hdr(c.header) + enc_cells(c.cells)
}

pub open spec fn enc_cols(cs: Seq<ColAbs>) -> Seq<u8>
    decreases cs.len(),
{
    if cs.len() == 0 {
        Seq::empty()
    } else {
        enc_cols(cs.drop_last()) + enc_col(cs.last())
    }
}

/// One primary-key pair: a key-kind tag, the key, then the row id.
pub open spec fn enc_pk_pair(p: (PKType, usize)) -> Seq<u8> {
    (match p.0 {
        PKType::Int(x) => seq![0u8] + enc_i32(x),
        PKType::Str(s) => seq![1u8] + enc_str(s@),
    }) + u64le(p.1 as u64)
}

pub open spec fn enc_pks(ps: Seq<(PKType, usize)>) -> Seq<u8>
    decreases ps.len(),
{
    if ps.len() == 0 {
        Seq::empty()
    } else {
        enc_pks(ps.drop_last()) + enc_pk_pair(ps.last())
    }
}

/// One table: its name, its column count and columns, then its
/// primary-key index.
pub open spec fn enc_tbl(t: TableAbs) -> Seq<u8> {
    enc_str(t.name) + u64le(t.cols.len() as u64) + enc_cols(t.cols) + u64le(t.pk.len() as u64)
        + enc_pks(t.pk)
}

pub open spec fn enc_tbls(ts: Seq<TableAbs>) -> Seq<u8>
    decreases ts.len(),
{
    if ts.len() == 0 {
        Seq::empty()
    } else {
        enc_tbls(ts.drop_last()) + enc_tbl(ts.last())
    }
}

/// The uncompressed snapshot of a table set: the table count, then each
/// table in order.
pub open spec fn snapshot_bytes(ts: Seq<TableAbs>) -> Seq<u8> {
    u64le(ts.len() as u64) + enc_tbls(ts)
}

// ---------------------------------------------------------------------------
// The trusted boundary.
// ---------------------------------------------------------------------------

/// The compressed frame that the fixed-level compressor produces for the
/// given bytes; its content depends on those bytes alone.
pub uninterp spec fn zstd_frame(data: Seq<u8>) -> Seq<u8>;

/// Relies on zstd::stream::encode_all at a fixed compression level: the
/// produced frame is a function of the input bytes alone.
#[verifier::external_body]
fn zstd_compress(data: &Vec<u8>) -> (r: Result<Vec<u8>, Error>)
    ensures
        r matches Ok(v) ==> v@ == zstd_frame(data@),
{
    match zstd::stream::encode_all(data.as_slice(), 3) {
        Ok(v) => Ok(v),
        Err(e) => Err(Error::IOError(e.to_string())),
    }
}

/// Relies on zstd::stream::decode_all: decompression is lossless, so a
/// frame decompresses back to exactly the bytes it was made from.
#[verifier::external_body]
fn zstd_decompress(data: &Vec<u8>) -> (r: Result<Vec<u8>, Error>)
    ensures
        match r {
            Ok(v) => forall|d: Seq<u8>| data@ == zstd_frame(d) ==> v@ == d,
            Err(_) => forall|d: Seq<u8>| data@ != zstd_frame(d),
        },
{
    match zstd::stream::decode_all(data.as_slice()) {
        Ok(v) => Ok(v),
        Err(e) => Err(Error::DeserializingError(e.to_string())),
    }
}

/// Relies on String::from_utf8: it accepts exactly valid UTF-8 and decodes
/// it to the characters the bytes encode.
#[verifier::external_body]
fn string_from_utf8(bytes: Vec<u8>) -> (r: Option<String>)
    ensures
        match r {
            Some(s) => valid_utf8(bytes@) && s@ == decode_utf8(bytes@),
            None => !valid_utf8(bytes@),
        },
{
    match String::from_utf8(bytes) {
        Ok(s) => Some(s),
        Err(_) => None,
    }
}

// ---------------------------------------------------------------------------
// The encoder.
// ---------------------------------------------------------------------------

fn push_u64le(out: &mut Vec<u8>, v: u64)
    ensures
        final(out)@ == old(out)@ + u64le(v),
{
    out.push((v & 0xff) as u8);
    out.push(((v >> 8) & 0xff) as u8);
    out.push(((v >> 16) & 0xff) as u8);
    out.push(((v >> 24) & 0xff) as u8);
    out.push(((v >> 32) & 0xff) as u8);
    out.push(((v >> 40) & 0xff) as u8);
    out.push(((v >> 48) & 0xff) as u8);
    out.push(((v >> 56) & 0xff) as u8);
    proof {
        assert(out@ =~= old(out)@ + u64le(v));
    }
}

fn push_str(out: &mut Vec<u8>, s: &str)
    ensures
        final(out)@ == old(out)@ + enc_str(s@),
{
    let bytes = s.as_bytes();
    push_u64le(out, bytes.len() as u64);
    out.extend_from_slice(bytes);
    proof {
        assert(out@ =~= old(out)@ + enc_str(s@));
    }
}

fn push_bool(out: &mut Vec<u8>, b: bool)
    ensures
        final(out)@ == old(out)@ + enc_bool(b),
{
    if b {
        out.push(1);
    } else {
        out.push(0);
    }
    proof {
        assert(out@ =~= old(out)@ + enc_bool(b));
    }
}

fn push_i32(out: &mut Vec<u8>, x: i32)
    ensures
        final(out)@ == old(out)@ + enc_i32(x),
{
    if x >= 0 {
        out.push(0);
        push_u64le(out, x as u64);
    } else {
        out.push(1);
        let m: i64 = -(x as i64);
        push_u64le(out, m as u64);
    }
    proof {
        assert(out@ =~= old(out)@ + enc_i32(x));
    }
}

fn push_cells(out: &mut Vec<u8>, data: &ColumnData)
    ensures
        final(out)@ == old(out)@ + enc_cells(data.cells()),
{
    match data {
        ColumnData::Int(m) => {
            out.push(0);
            push_u64le(out, m.num_entries() as u64);
            let n = m.num_entries();
            let mut i: usize = 0;
            while i < n
                invariant
                    n == m@.len(),
                    0 <= i <= n,
                    out@ == old(out)@ + seq![0u8] + u64le(m@.len() as u64) + enc_int_entries(
                        m@.take(i as int),
                    ),
                decreases n - i,
            {
                proof {
                    assert(m@.take(i + 1).drop_last() =~= m@.take(i as int));
                    assert(m@.take(i + 1).last() == m@[i as int]);
                }
                push_u64le(out, m.key_at(i) as u64);
                push_i32(out, *m.val_at(i));
                proof {
                    assert(out@ =~= old(out)@ + seq![0u8] + u64le(m@.len() as u64)
                        + enc_int_entries(m@.take(i + 1)));
                }
                i += 1;
            }
            proof {
                assert(m@.take(n as int) =~= m@);
                assert(out@ =~= old(out)@ + enc_cells(data.cells()));
            }
        },
        ColumnData::Str(m) => {
            out.push(1);
            push_u64le(out, m.num_entries() as u64);
            let n = m.num_entries();
            let mut i: usize = 0;
            while i < n
                invariant
                    n == m@.len(),
                    0 <= i <= n,
                    out@ == old(out)@ + seq![1u8] + u64le(m@.len() as u64) + enc_str_entries(
                        m@.take(i as int),
                    ),
                decreases n - i,
            {
                proof {
                    assert(m@.take(i + 1).drop_last() =~= m@.take(i as int));
                    assert(m@.take(i + 1).last() == m@[i as int]);
                }
                push_u64le(out, m.key_at(i) as u64);
                push_str(out, m.val_at(i).as_str());
                proof {
                    assert(out@ =~= old(out)@ + seq![1u8] + u64le(m@.len() as u64)
                        + enc_str_entries(m@.take(i + 1)));
                }
                i += 1;
            }
            proof {
                assert(m@.take(n as int) =~= m@);
                assert(out@ =~= old(out)@ + enc_cells(data.cells()));
            }
        },
        ColumnData::Bool(m) => {
            out.push(2);
            push_u64le(out, m.num_entries() as u64);
            let n = m.num_entries();
            let mut i: usize = 0;
            while i < n
                invariant
                    n == m@.len(),
                    0 <= i <= n,
                    out@ == old(out)@ + seq![2u8] + u64le(m@.len() as u64) + enc_bool_entries(
                        m@.take(i as int),
                    ),
                decreases n - i,
            {
                proof {
                    assert(m@.take(i + 1).drop_last() =~= m@.take(i as int));
                    assert(m@.take(i + 1).last() == m@[i as int]);
                }
                push_u64le(out, m.key_at(i) as u64);
                push_bool(out, *m.val_at(i));
                proof {
                    assert(out@ =~= old(out)@ + seq![2u8] + u64le(m@.len() as u64)
                        + enc_bool_entries(m@.take(i + 1)));
                }
                i += 1;
            }
            proof {
                assert(m@.take(n as int) =~= m@);
                assert(out@ =~= old(out)@ + enc_cells(data.cells()));
            }
        },
    }
}

#[verifier::spinoff_prover]
#[verifier::rlimit(100)]
fn push_col(out: &mut Vec<u8>, c: &Column)
    ensures
        final(out)@ == old(out)@ + enc_col(c.abs()),
{
    push_str(out, c.header.name.as_str());
    push_bool(out, c.header.hidden);
    match c.header.datatype {
        DataType::Int => out.push(0),
        DataType::Str => out.push(1),
        DataType::Bool => out.push(2),
    }
    push_bool(out, c.header.nullable);
    push_bool(out, c.header.is_pk);
    match c.header.last_row_id {
        None => out.push(0),
        Some(x) => {
            out.push(1);
            push_u64le(out, x as u64);
        },
    }
    push_cells(out, &c.data);
    proof {
        assert(out@ =~= old(out)@ + enc_col(c.abs()));
    }
}

fn push_tbl(out: &mut Vec<u8>, t: &Table)
    ensures
        final(out)@ == old(out)@ + enc_tbl(t.abs()),
{
    proof {
        crate::table::lemma_cols_abs(t.columns@);
    }
    push_str(out, t.name.as_str());
    push_u64le(out, t.columns.len() as u64);
    let n = t.columns.len();
    let ghost ca = t.abs().cols;
    let ghost mark = out@;
    let mut i: usize = 0;
    while i < n
        invariant
            ca == t.abs().cols,
            n == t.columns@.len(),
            n == ca.len(),
            forall|l: int| 0 <= l < t.columns@.len() ==> #[trigger] ca[l] == t.columns@[l].abs(),
            0 <= i <= n,
            out@ == mark + enc_cols(ca.take(i as int)),
        decreases n - i,
    {
        proof {
            assert(ca.take(i + 1).drop_last() =~= ca.take(i as int));
            assert(ca.take(i + 1).last() == ca[i as int]);
        }
        push_col(out, &t.columns[i]);
        proof {
            assert(out@ =~= mark + enc_cols(ca.take(i + 1)));
        }
        i += 1;
    }
    proof {
        assert(ca.take(n as int) =~= ca);
    }
    push_u64le(out, t.pk_map.num_pairs() as u64);
    let np = t.pk_map.num_pairs();
    let ghost mark2 = out@;
    let mut j: usize = 0;
    while j < np
        invariant
            np == t.pk_map@.len(),
            0 <= j <= np,
            out@ == mark2 + enc_pks(t.pk_map@.take(j as int)),
        decreases np - j,
    {
        proof {
            assert(t.pk_map@.take(j + 1).drop_last() =~= t.pk_map@.take(j as int));
            assert(t.pk_map@.take(j + 1).last() == t.pk_map@[j as int]);
        }
        let pair = t.pk_map.pair_at(j);
        match &pair.0 {
            PKType::Int(x) => {
                out.push(0);
                push_i32(out, *x);
            },
            PKType::Str(s) => {
                out.push(1);
                push_str(out, s.as_str());
            },
        }
        push_u64le(out, pair.1 as u64);
        proof {
            assert(out@ =~= mark2 + enc_pks(t.pk_map@.take(j + 1)));
        }
        j += 1;
    }
    proof {
        assert(t.pk_map@.take(np as int) =~= t.pk_map@);
        assert(out@ =~= old(out)@ + enc_tbl(t.abs()));
    }
}

/// The uncompressed snapshot of the database's tables, encoded exactly as
/// `snapshot_bytes` describes.
pub fn encode_snapshot(db: &Database) -> (r: Vec<u8>)
    ensures
        r@ == snapshot_bytes(db.tables_abs()),
{
    let tables = db.tables();
    let ghost ta = tbls_abs(tables@);
    proof {
        crate::database::lemma_tbls_abs(tables@);
    }
    let mut out: Vec<u8> = Vec::new();
    push_u64le(&mut out, tables.len() as u64);
    let ghost mark = out@;
    let n = tables.len();
    let mut i: usize = 0;
    while i < n
        invariant
            ta == tbls_abs(tables@),
            n == tables@.len(),
            n == ta.len(),
            forall|l: int| 0 <= l < tables@.len() ==> #[trigger] ta[l] == tables@[l].abs(),
            0 <= i <= n,
            out@ == mark + enc_tbls(ta.take(i as int)),
        decreases n - i,
    {
        proof {
            assert(ta.take(i + 1).drop_last() =~= ta.take(i as int));
            assert(ta.take(i + 1).last() == ta[i as int]);
        }
        push_tbl(&mut out, &tables[i]);
        proof {
            assert(out@ =~= mark + enc_tbls(ta.take(i + 1)));
        }
        i += 1;
    }
    proof {
        assert(ta.take(n as int) =~= ta);
        assert(out@ =~= snapshot_bytes(db.tables_abs()));
    }
    out
}

/// The compressed snapshot the persist meta command writes to disk.
pub fn persist_bytes(db: &Database) -> (r: Result<Vec<u8>, Error>)
    ensures
        r matches Ok(v) ==> v@ == zstd_frame(snapshot_bytes(db.tables_abs())),
{
    let plain = encode_snapshot(db);
    zstd_compress(&plain)
}

// ---------------------------------------------------------------------------
// The decoder. Every reader carries a two-direction contract: what it
// returns re-encodes to exactly the bytes it consumed, and it refuses only
// inputs on which no encoding of a well-formed value lies.
// ---------------------------------------------------------------------------

/// Does the byte sequence `e` lie at position `pos` of `b`?
spec fn swa(b: Seq<u8>, pos: int, e: Seq<u8>) -> bool {
    0 <= pos && pos + e.len() <= b.len() && b.subrange(pos, pos + e.len()) == e
}

/// A concatenation lies at `pos` exactly when its parts lie end to end.
proof fn lemma_swa_split(b: Seq<u8>, pos: int, e1: Seq<u8>, e2: Seq<u8>)
    ensures
        swa(b, pos, e1 + e2) <==> (swa(b, pos, e1) && swa(b, pos + e1.len(), e2)),
{
    if swa(b, pos, e1 + e2) {
        let whole = b.subrange(pos, pos + e1.len() + e2.len());
        assert(whole == e1 + e2);
        assert forall|i: int| 0 <= i < e1.len() implies b.subrange(pos, pos + e1.len())[i]
            == e1[i] by {
            assert(whole[i] == (e1 + e2)[i]);
        }
        assert(b.subrange(pos, pos + e1.len()) =~= e1);
        assert forall|i: int| 0 <= i < e2.len() implies b.subrange(
            pos + e1.len(),
            pos + e1.len() + e2.len(),
        )[i] == e2[i] by {
            assert(whole[e1.len() + i] == (e1 + e2)[e1.len() + i]);
        }
        assert(b.subrange(pos + e1.len(), pos + e1.len() + e2.len()) =~= e2);
    }
    if swa(b, pos, e1) && swa(b, pos + e1.len(), e2) {
        assert(b.subrange(pos, pos + (e1 + e2).len()) =~= e1 + e2);
    }
}

/// A one-byte encoding at `pos` pins the byte there.
proof fn lemma_swa_byte(b: Seq<u8>, pos: int, x: u8)
    requires
        swa(b, pos, seq![x]),
    ensures
        b[pos] == x,
{
    assert(b.subrange(pos, pos + 1)[0] == x);
}

/// The little-endian encoding determines the value.
proof fn lemma_u64le_inj(v1: u64, v2: u64)
    requires
        u64le(v1) == u64le(v2),
    ensures
        v1 == v2,
{
    assert(u64le(v1)[0] == u64le(v2)[0]);
    assert(u64le(v1)[1] == u64le(v2)[1]);
    assert(u64le(v1)[2] == u64le(v2)[2]);
    assert(u64le(v1)[3] == u64le(v2)[3]);
    assert(u64le(v1)[4] == u64le(v2)[4]);
    assert(u64le(v1)[5] == u64le(v2)[5]);
    assert(u64le(v1)[6] == u64le(v2)[6]);
    assert(u64le(v1)[7] == u64le(v2)[7]);
    assert(v1 == v2) by (bit_vector)
        requires
            (v1 & 0xff) as u8 == (v2 & 0xff) as u8,
            ((v1 >> 8) & 0xff) as u8 == ((v2 >> 8) & 0xff) as u8,
            ((v1 >> 16) & 0xff) as u8 == ((v2 >> 16) & 0xff) as u8,
            ((v1 >> 24) & 0xff) as u8 == ((v2 >> 24) & 0xff) as u8,
            ((v1 >> 32) & 0xff) as u8 == ((v2 >> 32) & 0xff) as u8,
            ((v1 >> 40) & 0xff) as u8 == ((v2 >> 40) & 0xff) as u8,
            ((v1 >> 48) & 0xff) as u8 == ((v2 >> 48) & 0xff) as u8,
            ((v1 >> 56) & 0xff) as u8 == ((v2 >> 56) & 0xff) as u8,
    ;
}

/// The sign-and-magnitude encoding determines the value.
proof fn lemma_enc_i32_inj(x: i32, y: i32)
    requires
        enc_i32(x) == enc_i32(y),
    ensures
        x == y,
{
    assert(enc_i32(x)[0] == enc_i32(y)[0]);
    if x >= 0 && y >= 0 {
        assert(enc_i32(x).subrange(1, 9) =~= u64le(x as u64));
        assert(enc_i32(y).subrange(1, 9) =~= u64le(y as u64));
        lemma_u64le_inj(x as u64, y as u64);
    } else if x < 0 && y < 0 {
        assert(enc_i32(x).subrange(1, 9) =~= u64le((-(x as int)) as u64));
        assert(enc_i32(y).subrange(1, 9) =~= u64le((-(y as int)) as u64));
        lemma_u64le_inj((-(x as int)) as u64, (-(y as int)) as u64);
    } else if x >= 0 {
        assert(enc_i32(x)[0] == 0);
        assert(enc_i32(y)[0] == 1);
    } else {
        assert(enc_i32(x)[0] == 1);
        assert(enc_i32(y)[0] == 0);
    }
}

/// The byte encoding of a character sequence determines its characters.
proof fn lemma_encode_utf8_inj(a: Seq<char>, c: Seq<char>)
    requires
        encode_utf8(a) == encode_utf8(c),
    ensures
        a == c,
{
    vstd::utf8::encode_utf8_decode_utf8(a);
    vstd::utf8::encode_utf8_decode_utf8(c);
}

/// Two string encodings at the same place of the same bytes carry the same
/// characters and the same bytes.
proof fn lemma_enc_str_same_pos(b: Seq<u8>, pos: int, a: Seq<char>, c: Seq<char>)
    requires
        swa(b, pos, enc_str(a)),
        swa(b, pos, enc_str(c)),
        b.len() <= usize::MAX,
    ensures
        a == c,
        enc_str(a) == enc_str(c),
{
    lemma_swa_split(b, pos, u64le(encode_utf8(a).len() as u64), encode_utf8(a));
    lemma_swa_split(b, pos, u64le(encode_utf8(c).len() as u64), encode_utf8(c));
    assert(b.subrange(pos, pos + 8) == u64le(encode_utf8(a).len() as u64));
    assert(b.subrange(pos, pos + 8) == u64le(encode_utf8(c).len() as u64));
    lemma_u64le_inj(encode_utf8(a).len() as u64, encode_utf8(c).len() as u64);
    assert(encode_utf8(a).len() == encode_utf8(c).len());
    assert(encode_utf8(a) == b.subrange(pos + 8, pos + 8 + encode_utf8(a).len()));
    lemma_encode_utf8_inj(a, c);
}

fn rd_u8(b: &Vec<u8>, pos: usize) -> (r: Option<(u8, usize)>)
    ensures
        match r {
            Some(p) => p.1 == pos + 1 && pos < b@.len() && b@[pos as int] == p.0,
            None => pos >= b@.len(),
        },
{
    if pos < b.len() {
        Some((b[pos], pos + 1))
    } else {
        None
    }
}

fn rd_u64(b: &Vec<u8>, pos: usize) -> (r: Option<(u64, usize)>)
    ensures
        match r {
            Some(p) => p.1 == pos + 8 && pos + 8 <= b@.len() && b@.subrange(
                pos as int,
                p.1 as int,
            ) == u64le(p.0),
            None => pos + 8 > b@.len(),
        },
{
    if b.len() >= 8 && pos <= b.len() - 8 {
        let x0 = b[pos];
        let x1 = b[pos + 1];
        let x2 = b[pos + 2];
        let x3 = b[pos + 3];
        let x4 = b[pos + 4];
        let x5 = b[pos + 5];
        let x6 = b[pos + 6];
        let x7 = b[pos + 7];
        let v: u64 = (x0 as u64) | ((x1 as u64) << 8) | ((x2 as u64) << 16) | ((x3 as u64) << 24)
            | ((x4 as u64) << 32) | ((x5 as u64) << 40) | ((x6 as u64) << 48) | ((x7 as u64)
            << 56);
        proof {
            assert((v & 0xff) as u8 == x0 && ((v >> 8) & 0xff) as u8 == x1 && ((v >> 16)
                & 0xff) as u8 == x2 && ((v >> 24) & 0xff) as u8 == x3 && ((v >> 32) & 0xff) as u8
                == x4 && ((v >> 40) & 0xff) as u8 == x5 && ((v >> 48) & 0xff) as u8 == x6 && ((v
                >> 56) & 0xff) as u8 == x7) by (bit_vector)
                requires
                    v == (x0 as u64) | ((x1 as u64) << 8) | ((x2 as u64) << 16) | ((x3
                        as u64) << 24) | ((x4 as u64) << 32) | ((x5 as u64) << 40) | ((x6
                        as u64) << 48) | ((x7 as u64) << 56),
            ;
            assert(b@.subrange(pos as int, (pos + 8) as int) =~= u64le(v));
        }
        Some((v, pos + 8))
    } else {
        None
    }
}

fn rd_usize(b: &Vec<u8>, pos: usize) -> (r: Option<(usize, usize)>)
    ensures
        match r {
            Some(p) => p.1 == pos + 8 && pos + 8 <= b@.len() && b@.subrange(
                pos as int,
                p.1 as int,
            ) == u64le(p.0 as u64),
            None => pos + 8 > b@.len() || (forall|x: usize|
                b@.subrange(pos as int, pos + 8) != #[trigger] u64le(x as u64)),
        },
{
    let got = rd_u64(b, pos)?;
    if got.0 > usize::MAX as u64 {
        proof {
            assert forall|x: usize| b@.subrange(pos as int, pos + 8) != #[trigger] u64le(
                x as u64,
            ) by {
                if b@.subrange(pos as int, pos + 8) == u64le(x as u64) {
                    lemma_u64le_inj(got.0, x as u64);
                }
            }
        }
        return None;
    }
    Some((got.0 as usize, got.1))
}

fn rd_bool(b: &Vec<u8>, pos: usize) -> (r: Option<(bool, usize)>)
    ensures
        match r {
            Some(p) => p.1 == pos + 1 && pos + 1 <= b@.len() && b@.subrange(
                pos as int,
                p.1 as int,
            ) == enc_bool(p.0),
            None => pos >= b@.len() || (b@[pos as int] != 0 && b@[pos as int] != 1),
        },
{
    let got = rd_u8(b, pos)?;
    if got.0 == 0 {
        proof {
            assert(b@.subrange(pos as int, pos + 1) =~= enc_bool(false));
        }
        Some((false, got.1))
    } else if got.0 == 1 {
        proof {
            assert(b@.subrange(pos as int, pos + 1) =~= enc_bool(true));
        }
        Some((true, got.1))
    } else {
        None
    }
}

fn rd_i32(b: &Vec<u8>, pos: usize) -> (r: Option<(i32, usize)>)
    ensures
        match r {
            Some(p) => p.1 == pos + 9 && pos + 9 <= b@.len() && b@.subrange(
                pos as int,
                p.1 as int,
            ) == enc_i32(p.0),
            None => forall|x: i32| !swa(b@, pos as int, enc_i32(x)),
        },
{
    let sign = match rd_u8(b, pos) {
        Some(s) => s,
        None => {
            proof {
                assert forall|x: i32| !swa(b@, pos as int, enc_i32(x)) by {
                    assert(enc_i32(x).len() == 9);
                }
            }
            return None;
        },
    };
    let mag = match rd_u64(b, sign.1) {
        Some(m) => m,
        None => {
            proof {
                assert forall|x: i32| !swa(b@, pos as int, enc_i32(x)) by {
                    assert(enc_i32(x).len() == 9);
                }
            }
            return None;
        },
    };
    proof {
        assert forall|x: i32| swa(b@, pos as int, enc_i32(x)) implies b@[pos as int] == enc_i32(
            x,
        )[0] && u64le(mag.0) == (if x >= 0 {
            u64le(x as u64)
        } else {
            u64le((-(x as int)) as u64)
        }) by {
            assert(b@.subrange(pos as int, pos + 9) == enc_i32(x));
            assert(enc_i32(x)[0] == b@.subrange(pos as int, pos + 9)[0]);
            assert(enc_i32(x).subrange(1, 9) =~= (if x >= 0 {
                u64le(x as u64)
            } else {
                u64le((-(x as int)) as u64)
            }));
            assert(b@.subrange(pos + 1, pos + 9) =~= enc_i32(x).subrange(1, 9));
        }
    }
    if sign.0 == 0 {
        if mag.0 <= 2147483647u64 {
            let v = mag.0 as i32;
            proof {
                assert(b@.subrange(pos as int, pos + 9) =~= enc_i32(v));
            }
            Some((v, mag.1))
        } else {
            proof {
                assert forall|x: i32| !swa(b@, pos as int, enc_i32(x)) by {
                    if swa(b@, pos as int, enc_i32(x)) {
                        if x >= 0 {
                            lemma_u64le_inj(mag.0, x as u64);
                        } else {
                            assert(enc_i32(x)[0] == 1);
                        }
                    }
                }
            }
            None
        }
    } else if sign.0 == 1 {
        if mag.0 >= 1 && mag.0 <= 2147483648u64 {
            let m: i64 = mag.0 as i64;
            let v = (-m) as i32;
            proof {
                assert(b@.subrange(pos as int, pos + 9) =~= enc_i32(v));
            }
            Some((v, mag.1))
        } else {
            proof {
                assert forall|x: i32| !swa(b@, pos as int, enc_i32(x)) by {
                    if swa(b@, pos as int, enc_i32(x)) {
                        if x >= 0 {
                            assert(enc_i32(x)[0] == 0);
                        } else {
                            lemma_u64le_inj(mag.0, (-(x as int)) as u64);
                        }
                    }
                }
            }
            None
        }
    } else {
        proof {
            assert forall|x: i32| !swa(b@, pos as int, enc_i32(x)) by {
                if swa(b@, pos as int, enc_i32(x)) {
                    if x >= 0 {
                        assert(enc_i32(x)[0] == 0);
                    } else {
                        assert(enc_i32(x)[0] == 1);
                    }
                }
            }
        }
        None
    }
}

fn rd_str(b: &Vec<u8>, pos: usize) -> (r: Option<(String, usize)>)
    ensures
        match r {
            Some(p) => pos <= p.1 <= b@.len() && b@.subrange(pos as int, p.1 as int) == enc_str(
                p.0@,
            ),
            None => forall|cs: Seq<char>| !swa(b@, pos as int, enc_str(cs)),
        },
{
    let blen = b.len();
    proof {
        assert(b@.len() <= usize::MAX);
    }
    let len = match rd_usize(b, pos) {
        Some(l) => l,
        None => {
            proof {
                assert forall|cs: Seq<char>| !swa(b@, pos as int, enc_str(cs)) by {
                    if swa(b@, pos as int, enc_str(cs)) {
                        lemma_swa_split(
                            b@,
                            pos as int,
                            u64le(encode_utf8(cs).len() as u64),
                            encode_utf8(cs),
                        );
                        assert(encode_utf8(cs).len() <= b@.len());
                        let x = encode_utf8(cs).len() as usize;
                        assert(x as u64 == encode_utf8(cs).len() as u64);
                        assert(b@.subrange(pos as int, pos + 8) == u64le(x as u64));
                    }
                }
            }
            return None;
        },
    };
    let n = len.0;
    let start = len.1;
    if n > b.len() || start > b.len() - n {
        proof {
            assert forall|cs: Seq<char>| !swa(b@, pos as int, enc_str(cs)) by {
                if swa(b@, pos as int, enc_str(cs)) {
                    lemma_swa_split(
                        b@,
                        pos as int,
                        u64le(encode_utf8(cs).len() as u64),
                        encode_utf8(cs),
                    );
                    assert(encode_utf8(cs).len() <= b@.len());
                    let x = encode_utf8(cs).len() as usize;
                    assert(x as u64 == encode_utf8(cs).len() as u64);
                    assert(b@.subrange(pos as int, pos + 8) == u64le(x as u64));
                    lemma_u64le_inj(n as u64, x as u64);
                }
            }
        }
        return None;
    }
    let mut bytes: Vec<u8> = Vec::new();
    let mut i: usize = 0;
    while i < n
        invariant
            start + n <= b@.len(),
            b@.len() <= usize::MAX,
            0 <= i <= n,
            bytes@ == b@.subrange(start as int, start + i),
        decreases n - i,
    {
        bytes.push(b[start + i]);
        proof {
            assert(bytes@ =~= b@.subrange(start as int, start + i + 1));
        }
        i += 1;
    }
    let s = match string_from_utf8(bytes) {
        Some(s) => s,
        None => {
            proof {
                assert forall|cs: Seq<char>| !swa(b@, pos as int, enc_str(cs)) by {
                    if swa(b@, pos as int, enc_str(cs)) {
                        lemma_swa_split(
                            b@,
                            pos as int,
                            u64le(encode_utf8(cs).len() as u64),
                            encode_utf8(cs),
                        );
                        assert(encode_utf8(cs).len() <= b@.len());
                        let x = encode_utf8(cs).len() as usize;
                        assert(x as u64 == encode_utf8(cs).len() as u64);
                        assert(b@.subrange(pos as int, pos + 8) == u64le(x as u64));
                        lemma_u64le_inj(n as u64, x as u64);
                        assert(b@.subrange(start as int, start + n as int) == encode_utf8(cs));
                        vstd::utf8::encode_utf8_valid_utf8(cs);
                    }
                }
            }
            return None;
        },
    };
    proof {
        vstd::utf8::decode_utf8_encode_utf8(b@.subrange(start as int, start + n as int));
        assert(encode_utf8(s@) == b@.subrange(start as int, start + n as int));
        assert(b@.subrange(pos as int, start + n as int) =~= enc_str(s@));
    }
    Some((s, start + n))
}

/// Entry encodings concatenate over any split of the entries.
proof fn lemma_int_entries_split(s: Seq<(usize, i32)>, m: int)
    requires
        0 <= m <= s.len(),
    ensures
        enc_int_entries(s) == enc_int_entries(s.take(m)) + enc_int_entries(s.skip(m)),
    decreases s.len(),
{
    if s.len() == m {
        assert(s.take(m) =~= s);
        assert(s.skip(m) =~= Seq::<(usize, i32)>::empty());
        assert(enc_int_entries(s) =~= enc_int_entries(s.take(m)) + enc_int_entries(s.skip(m)));
    } else {
        lemma_int_entries_split(s.drop_last(), m);
        assert(s.drop_last().take(m) =~= s.take(m));
        assert(s.skip(m).drop_last() =~= s.drop_last().skip(m));
        assert(s.skip(m).last() == s.last());
        assert(enc_int_entries(s) =~= enc_int_entries(s.take(m)) + enc_int_entries(s.skip(m)));
    }
}

proof fn lemma_str_entries_split(s: Seq<(usize, String)>, m: int)
    requires
        0 <= m <= s.len(),
    ensures
        enc_str_entries(s) == enc_str_entries(s.take(m)) + enc_str_entries(s.skip(m)),
    decreases s.len(),
{
    if s.len() == m {
        assert(s.take(m) =~= s);
        assert(s.skip(m) =~= Seq::<(usize, String)>::empty());
        assert(enc_str_entries(s) =~= enc_str_entries(s.take(m)) + enc_str_entries(s.skip(m)));
    } else {
        lemma_str_entries_split(s.drop_last(), m);
        assert(s.drop_last().take(m) =~= s.take(m));
        assert(s.skip(m).drop_last() =~= s.drop_last().skip(m));
        assert(s.skip(m).last() == s.last());
        assert(enc_str_entries(s) =~= enc_str_entries(s.take(m)) + enc_str_entries(s.skip(m)));
    }
}

proof fn lemma_bool_entries_split(s: Seq<(usize, bool)>, m: int)
    requires
        0 <= m <= s.len(),
    ensures
        enc_bool_entries(s) == enc_bool_entries(s.take(m)) + enc_bool_entries(s.skip(m)),
    decreases s.len(),
{
    if s.len() == m {
        assert(s.take(m) =~= s);
        assert(s.skip(m) =~= Seq::<(usize, bool)>::empty());
        assert(enc_bool_entries(s) =~= enc_bool_entries(s.take(m)) + enc_bool_entries(
            s.skip(m),
        ));
    } else {
        lemma_bool_entries_split(s.drop_last(), m);
        assert(s.drop_last().take(m) =~= s.take(m));
        assert(s.skip(m).drop_last() =~= s.drop_last().skip(m));
        assert(s.skip(m).last() == s.last());
        assert(enc_bool_entries(s) =~= enc_bool_entries(s.take(m)) + enc_bool_entries(
            s.skip(m),
        ));
    }
}

/// A single entry's encoding.
proof fn lemma_int_entries_single(e: (usize, i32))
    ensures
        enc_int_entries(seq![e]) == u64le(e.0 as u64) + enc_i32(e.1),
{
    assert(seq![e].drop_last() =~= Seq::<(usize, i32)>::empty());
    assert(enc_int_entries(Seq::<(usize, i32)>::empty()) =~= Seq::<u8>::empty());
    assert(enc_int_entries(seq![e]) =~= u64le(e.0 as u64) + enc_i32(e.1));
}

proof fn lemma_str_entries_single(e: (usize, String))
    ensures
        enc_str_entries(seq![e]) == u64le(e.0 as u64) + enc_str(e.1@),
{
    assert(seq![e].drop_last() =~= Seq::<(usize, String)>::empty());
    assert(enc_str_entries(Seq::<(usize, String)>::empty()) =~= Seq::<u8>::empty());
    assert(enc_str_entries(seq![e]) =~= u64le(e.0 as u64) + enc_str(e.1@));
}

proof fn lemma_bool_entries_single(e: (usize, bool))
    ensures
        enc_bool_entries(seq![e]) == u64le(e.0 as u64) + enc_bool(e.1),
{
    assert(seq![e].drop_last() =~= Seq::<(usize, bool)>::empty());
    assert(enc_bool_entries(Seq::<(usize, bool)>::empty()) =~= Seq::<u8>::empty());
    assert(enc_bool_entries(seq![e]) =~= u64le(e.0 as u64) + enc_bool(e.1));
}

/// An entry sequence's encoding holds at least one byte per entry.
proof fn lemma_int_entries_len(s: Seq<(usize, i32)>)
    ensures
        enc_int_entries(s).len() >= s.len(),
    decreases s.len(),
{
    if s.len() > 0 {
        lemma_int_entries_len(s.drop_last());
    }
}

proof fn lemma_str_entries_len(s: Seq<(usize, String)>)
    ensures
        enc_str_entries(s).len() >= s.len(),
    decreases s.len(),
{
    if s.len() > 0 {
        lemma_str_entries_len(s.drop_last());
    }
}

proof fn lemma_bool_entries_len(s: Seq<(usize, bool)>)
    ensures
        enc_bool_entries(s).len() >= s.len(),
    decreases s.len(),
{
    if s.len() > 0 {
        lemma_bool_entries_len(s.drop_last());
    }
}

/// Read `n` integer entries with strictly increasing keys.
#[verifier::spinoff_prover]
#[verifier::rlimit(100)]
fn rd_int_entries(b: &Vec<u8>, pos: usize, n: usize) -> (r: Option<(Vec<(usize, i32)>, usize)>)
    ensures
        match r {
            Some(p) => pos <= p.1 <= b@.len() && entries_sorted(p.0@) && p.0@.len() == n
                && b@.subrange(pos as int, p.1 as int) == enc_int_entries(p.0@),
            None => forall|es: Seq<(usize, i32)>|
                (es.len() == n && entries_sorted(es)) ==> !#[trigger] swa(
                    b@,
                    pos as int,
                    enc_int_entries(es),
                ),
        },
{
    let blen = b.len();
    if pos > blen {
        return None;
    }
    let mut out: Vec<(usize, i32)> = Vec::new();
    let mut at = pos;
    let mut i: usize = 0;
    while i < n
        invariant
            b@.len() <= usize::MAX,
            0 <= i <= n,
            pos <= at <= b@.len(),
            out@.len() == i,
            entries_sorted(out@),
            b@.subrange(pos as int, at as int) == enc_int_entries(out@),
            forall|es: Seq<(usize, i32)>|
                (es.len() == n && entries_sorted(es) && #[trigger] swa(
                    b@,
                    pos as int,
                    enc_int_entries(es),
                )) ==> es.take(i as int) == out@,
        decreases n - i,
    {
        proof {
            assert forall|es: Seq<(usize, i32)>|
                (es.len() == n && entries_sorted(es) && #[trigger] swa(
                    b@,
                    pos as int,
                    enc_int_entries(es),
                )) implies (swa(b@, at as int, u64le(es[i as int].0 as u64)) && swa(
                b@,
                at + 8,
                enc_i32(es[i as int].1),
            )) by {
                assert(es.take(i as int) == out@);
                lemma_int_entries_split(es, i as int);
                lemma_swa_split(
                    b@,
                    pos as int,
                    enc_int_entries(es.take(i as int)),
                    enc_int_entries(es.skip(i as int)),
                );
                assert(at == pos + enc_int_entries(out@).len());
                let sk = es.skip(i as int);
                lemma_int_entries_split(sk, 1);
                assert(sk.take(1) =~= seq![es[i as int]]);
                lemma_int_entries_single(es[i as int]);
                lemma_swa_split(
                    b@,
                    at as int,
                    enc_int_entries(sk.take(1)),
                    enc_int_entries(sk.skip(1)),
                );
                lemma_swa_split(
                    b@,
                    at as int,
                    u64le(es[i as int].0 as u64),
                    enc_i32(es[i as int].1),
                );
            }
        }
        let k = match rd_usize(b, at) {
            Some(k) => k,
            None => {
                proof {
                    assert forall|es: Seq<(usize, i32)>|
                        (es.len() == n && entries_sorted(es)) implies !#[trigger] swa(
                        b@,
                        pos as int,
                        enc_int_entries(es),
                    ) by {
                        if swa(b@, pos as int, enc_int_entries(es)) {
                            assert(swa(b@, at as int, u64le(es[i as int].0 as u64)));
                            assert(b@.subrange(at as int, at + 8) == u64le(
                                es[i as int].0 as u64,
                            ));
                        }
                    }
                }
                return None;
            },
        };
        let v = match rd_i32(b, k.1) {
            Some(v) => v,
            None => {
                proof {
                    assert forall|es: Seq<(usize, i32)>|
                        (es.len() == n && entries_sorted(es)) implies !#[trigger] swa(
                        b@,
                        pos as int,
                        enc_int_entries(es),
                    ) by {
                        if swa(b@, pos as int, enc_int_entries(es)) {
                            assert(swa(b@, at + 8, enc_i32(es[i as int].1)));
                        }
                    }
                }
                return None;
            },
        };
        if out.len() > 0 {
            let lastk = out[out.len() - 1].0;
            if k.0 <= lastk {
                proof {
                    assert forall|es: Seq<(usize, i32)>|
                        (es.len() == n && entries_sorted(es)) implies !#[trigger] swa(
                        b@,
                        pos as int,
                        enc_int_entries(es),
                    ) by {
                        if swa(b@, pos as int, enc_int_entries(es)) {
                            assert(b@.subrange(at as int, at + 8) == u64le(
                                es[i as int].0 as u64,
                            ));
                            lemma_u64le_inj(k.0 as u64, es[i as int].0 as u64);
                            assert(es.take(i as int) == out@);
                            assert(es[i - 1].0 == out@[i - 1].0);
                            assert(es[i - 1].0 < es[i as int].0);
                        }
                    }
                }
                return None;
            }
        }
        let ghost prev = out@;
        out.push((k.0, v.0));
        proof {
            assert(out@.drop_last() =~= prev);
            assert forall|x: int, y: int| 0 <= x < y < out@.len() implies out@[x].0 < out@[y].0
                by {
                if y < prev.len() {
                    assert(out@[x] == prev[x]);
                    assert(out@[y] == prev[y]);
                } else {
                    assert(out@[x] == prev[x]);
                    assert(prev[x].0 <= prev[prev.len() - 1].0);
                }
            }
            assert(b@.subrange(pos as int, v.1 as int) =~= enc_int_entries(prev) + u64le(
                k.0 as u64,
            ) + enc_i32(v.0)) by {
                assert(b@.subrange(pos as int, at as int) == enc_int_entries(prev));
                assert(b@.subrange(at as int, (at + 8) as int) == u64le(k.0 as u64));
                assert(b@.subrange(k.1 as int, v.1 as int) == enc_i32(v.0));
            }
            assert(enc_int_entries(out@) == enc_int_entries(prev) + u64le(k.0 as u64)
                + enc_i32(v.0));
            assert forall|es: Seq<(usize, i32)>|
                (es.len() == n && entries_sorted(es) && #[trigger] swa(
                    b@,
                    pos as int,
                    enc_int_entries(es),
                )) implies es.take(i + 1) == out@ by {
                assert(es.take(i as int) == prev);
                assert(b@.subrange(at as int, at + 8) == u64le(es[i as int].0 as u64));
                lemma_u64le_inj(k.0 as u64, es[i as int].0 as u64);
                assert(b@.subrange(k.1 as int, v.1 as int) == enc_i32(es[i as int].1));
                lemma_enc_i32_inj(v.0, es[i as int].1);
                assert(es.take(i + 1) =~= out@);
            }
        }
        at = v.1;
        i += 1;
    }
    Some((out, at))
}

/// Do two string entry lists agree in keys and character content?
spec fn str_like(a: Seq<(usize, String)>, c: Seq<(usize, String)>) -> bool {
    a.len() == c.len() && (forall|l: int|
        0 <= l < a.len() ==> (#[trigger] a[l]).0 == c[l].0 && a[l].1@ == c[l].1@)
}

/// Equal keys and characters give equal encodings.
proof fn lemma_str_like_enc(a: Seq<(usize, String)>, c: Seq<(usize, String)>)
    requires
        str_like(a, c),
    ensures
        enc_str_entries(a) == enc_str_entries(c),
    decreases a.len(),
{
    if a.len() > 0 {
        assert forall|l: int| 0 <= l < a.drop_last().len() implies (#[trigger] a.drop_last()[
            l]).0 == c.drop_last()[l].0 && a.drop_last()[l].1@ == c.drop_last()[l].1@ by {
            assert(a.drop_last()[l] == a[l]);
            assert(c.drop_last()[l] == c[l]);
        }
        lemma_str_like_enc(a.drop_last(), c.drop_last());
        assert(a.last() == a[a.len() - 1]);
        assert(c.last() == c[a.len() - 1]);
        assert(enc_str_entries(a) =~= enc_str_entries(c));
    }
}

/// Read `n` string entries with strictly increasing keys.
#[verifier::spinoff_prover]
#[verifier::rlimit(100)]
fn rd_str_entries(b: &Vec<u8>, pos: usize, n: usize) -> (r: Option<(Vec<(usize, String)>, usize)>)
    ensures
        match r {
            Some(p) => pos <= p.1 <= b@.len() && entries_sorted(p.0@) && p.0@.len() == n
                && b@.subrange(pos as int, p.1 as int) == enc_str_entries(p.0@),
            None => forall|es: Seq<(usize, String)>|
                (es.len() == n && entries_sorted(es)) ==> !#[trigger] swa(
                    b@,
                    pos as int,
                    enc_str_entries(es),
                ),
        },
{
    let blen = b.len();
    if pos > blen {
        return None;
    }
    let mut out: Vec<(usize, String)> = Vec::new();
    let mut at = pos;
    let mut i: usize = 0;
    while i < n
        invariant
            b@.len() <= usize::MAX,
            0 <= i <= n,
            pos <= at <= b@.len(),
            out@.len() == i,
            entries_sorted(out@),
            b@.subrange(pos as int, at as int) == enc_str_entries(out@),
            forall|es: Seq<(usize, String)>|
                (es.len() == n && entries_sorted(es) && #[trigger] swa(
                    b@,
                    pos as int,
                    enc_str_entries(es),
                )) ==> str_like(es.take(i as int), out@),
        decreases n - i,
    {
        proof {
            assert forall|es: Seq<(usize, String)>|
                (es.len() == n && entries_sorted(es) && #[trigger] swa(
                    b@,
                    pos as int,
                    enc_str_entries(es),
                )) implies (swa(b@, at as int, u64le(es[i as int].0 as u64)) && swa(
                b@,
                at + 8,
                enc_str(es[i as int].1@),
            )) by {
                assert(str_like(es.take(i as int), out@));
                lemma_str_like_enc(es.take(i as int), out@);
                lemma_str_entries_split(es, i as int);
                lemma_swa_split(
                    b@,
                    pos as int,
                    enc_str_entries(es.take(i as int)),
                    enc_str_entries(es.skip(i as int)),
                );
                assert(at == pos + enc_str_entries(out@).len());
                let sk = es.skip(i as int);
                lemma_str_entries_split(sk, 1);
                assert(sk.take(1) =~= seq![es[i as int]]);
                lemma_str_entries_single(es[i as int]);
                lemma_swa_split(
                    b@,
                    at as int,
                    enc_str_entries(sk.take(1)),
                    enc_str_entries(sk.skip(1)),
                );
                lemma_swa_split(
                    b@,
                    at as int,
                    u64le(es[i as int].0 as u64),
                    enc_str(es[i as int].1@),
                );
            }
        }
        let k = match rd_usize(b, at) {
            Some(k) => k,
            None => {
                proof {
                    assert forall|es: Seq<(usize, String)>|
                        (es.len() == n && entries_sorted(es)) implies !#[trigger] swa(
                        b@,
                        pos as int,
                        enc_str_entries(es),
                    ) by {
                        if swa(b@, pos as int, enc_str_entries(es)) {
                            assert(swa(b@, at as int, u64le(es[i as int].0 as u64)));
                            assert(b@.subrange(at as int, at + 8) == u64le(
                                es[i as int].0 as u64,
                            ));
                        }
                    }
                }
                return None;
            },
        };
        let v = match rd_str(b, k.1) {
            Some(v) => v,
            None => {
                proof {
                    assert forall|es: Seq<(usize, String)>|
                        (es.len() == n && entries_sorted(es)) implies !#[trigger] swa(
                        b@,
                        pos as int,
                        enc_str_entries(es),
                    ) by {
                        if swa(b@, pos as int, enc_str_entries(es)) {
                            assert(swa(b@, at + 8, enc_str(es[i as int].1@)));
                        }
                    }
                }
                return None;
            },
        };
        if out.len() > 0 {
            let lastk = out[out.len() - 1].0;
            if k.0 <= lastk {
                proof {
                    assert forall|es: Seq<(usize, String)>|
                        (es.len() == n && entries_sorted(es)) implies !#[trigger] swa(
                        b@,
                        pos as int,
                        enc_str_entries(es),
                    ) by {
                        if swa(b@, pos as int, enc_str_entries(es)) {
                            assert(b@.subrange(at as int, at + 8) == u64le(
                                es[i as int].0 as u64,
                            ));
                            lemma_u64le_inj(k.0 as u64, es[i as int].0 as u64);
                            assert(str_like(es.take(i as int), out@));
                            assert(es.take(i as int)[i - 1] == es[i - 1]);
                            assert(es.take(i as int)[i - 1].0 == out@[i - 1].0);
                            assert(es[i - 1].0 < es[i as int].0);
                        }
                    }
                }
                return None;
            }
        }
        let ghost prev = out@;
        let ghost vv = v.0;
        out.push((k.0, v.0));
        proof {
            assert(out@.drop_last() =~= prev);
            assert forall|x: int, y: int| 0 <= x < y < out@.len() implies out@[x].0 < out@[y].0
                by {
                if y < prev.len() {
                    assert(out@[x] == prev[x]);
                    assert(out@[y] == prev[y]);
                } else {
                    assert(out@[x] == prev[x]);
                    assert(prev[x].0 <= prev[prev.len() - 1].0);
                }
            }
            assert(b@.subrange(pos as int, v.1 as int) =~= enc_str_entries(prev) + u64le(
                k.0 as u64,
            ) + enc_str(vv@)) by {
                assert(b@.subrange(pos as int, at as int) == enc_str_entries(prev));
                assert(b@.subrange(at as int, (at + 8) as int) == u64le(k.0 as u64));
                assert(b@.subrange(k.1 as int, v.1 as int) == enc_str(vv@));
            }
            assert(enc_str_entries(out@) == enc_str_entries(prev) + u64le(k.0 as u64) + enc_str(
                vv@,
            ));
            assert forall|es: Seq<(usize, String)>|
                (es.len() == n && entries_sorted(es) && #[trigger] swa(
                    b@,
                    pos as int,
                    enc_str_entries(es),
                )) implies str_like(es.take(i + 1), out@) by {
                assert(str_like(es.take(i as int), prev));
                assert(b@.subrange(at as int, at + 8) == u64le(es[i as int].0 as u64));
                lemma_u64le_inj(k.0 as u64, es[i as int].0 as u64);
                assert(swa(b@, at + 8, enc_str(es[i as int].1@)));
                assert(swa(b@, at + 8, enc_str(vv@)));
                lemma_enc_str_same_pos(b@, at + 8, vv@, es[i as int].1@);
                assert forall|l: int| 0 <= l < i + 1 implies (#[trigger] es.take(i + 1)[l]).0
                    == out@[l].0 && es.take(i + 1)[l].1@ == out@[l].1@ by {
                    if l < i {
                        assert(es.take(i as int)[l] == es.take(i + 1)[l]);
                        assert(out@[l] == prev[l]);
                    }
                }
            }
        }
        at = v.1;
        i += 1;
    }
    Some((out, at))
}

/// Read `n` boolean entries with strictly increasing keys.
#[verifier::spinoff_prover]
#[verifier::rlimit(100)]
fn rd_bool_entries(b: &Vec<u8>, pos: usize, n: usize) -> (r: Option<(Vec<(usize, bool)>, usize)>)
    ensures
        match r {
            Some(p) => pos <= p.1 <= b@.len() && entries_sorted(p.0@) && p.0@.len() == n
                && b@.subrange(pos as int, p.1 as int) == enc_bool_entries(p.0@),
            None => forall|es: Seq<(usize, bool)>|
                (es.len() == n && entries_sorted(es)) ==> !#[trigger] swa(
                    b@,
                    pos as int,
                    enc_bool_entries(es),
                ),
        },
{
    let blen = b.len();
    if pos > blen {
        return None;
    }
    let mut out: Vec<(usize, bool)> = Vec::new();
    let mut at = pos;
    let mut i: usize = 0;
    while i < n
        invariant
            b@.len() <= usize::MAX,
            0 <= i <= n,
            pos <= at <= b@.len(),
            out@.len() == i,
            entries_sorted(out@),
            b@.subrange(pos as int, at as int) == enc_bool_entries(out@),
            forall|es: Seq<(usize, bool)>|
                (es.len() == n && entries_sorted(es) && #[trigger] swa(
                    b@,
                    pos as int,
                    enc_bool_entries(es),
                )) ==> es.take(i as int) == out@,
        decreases n - i,
    {
        proof {
            assert forall|es: Seq<(usize, bool)>|
                (es.len() == n && entries_sorted(es) && #[trigger] swa(
                    b@,
                    pos as int,
                    enc_bool_entries(es),
                )) implies (swa(b@, at as int, u64le(es[i as int].0 as u64)) && swa(
                b@,
                at + 8,
                enc_bool(es[i as int].1),
            )) by {
                assert(es.take(i as int) == out@);
                lemma_bool_entries_split(es, i as int);
                lemma_swa_split(
                    b@,
                    pos as int,
                    enc_bool_entries(es.take(i as int)),
                    enc_bool_entries(es.skip(i as int)),
                );
                assert(at == pos + enc_bool_entries(out@).len());
                let sk = es.skip(i as int);
                lemma_bool_entries_split(sk, 1);
                assert(sk.take(1) =~= seq![es[i as int]]);
                lemma_bool_entries_single(es[i as int]);
                lemma_swa_split(
                    b@,
                    at as int,
                    enc_bool_entries(sk.take(1)),
                    enc_bool_entries(sk.skip(1)),
                );
                lemma_swa_split(
                    b@,
                    at as int,
                    u64le(es[i as int].0 as u64),
                    enc_bool(es[i as int].1),
                );
            }
        }
        let k = match rd_usize(b, at) {
            Some(k) => k,
            None => {
                proof {
                    assert forall|es: Seq<(usize, bool)>|
                        (es.len() == n && entries_sorted(es)) implies !#[trigger] swa(
                        b@,
                        pos as int,
                        enc_bool_entries(es),
                    ) by {
                        if swa(b@, pos as int, enc_bool_entries(es)) {
                            assert(swa(b@, at as int, u64le(es[i as int].0 as u64)));
                            assert(b@.subrange(at as int, at + 8) == u64le(
                                es[i as int].0 as u64,
                            ));
                        }
                    }
                }
                return None;
            },
        };
        let v = match rd_bool(b, k.1) {
            Some(v) => v,
            None => {
                proof {
                    assert forall|es: Seq<(usize, bool)>|
                        (es.len() == n && entries_sorted(es)) implies !#[trigger] swa(
                        b@,
                        pos as int,
                        enc_bool_entries(es),
                    ) by {
                        if swa(b@, pos as int, enc_bool_entries(es)) {
                            assert(swa(b@, at + 8, enc_bool(es[i as int].1)));
                            assert(b@[(at + 8) as int] == enc_bool(es[i as int].1)[0]);
                        }
                    }
                }
                return None;
            },
        };
        if out.len() > 0 {
            let lastk = out[out.len() - 1].0;
            if k.0 <= lastk {
                proof {
                    assert forall|es: Seq<(usize, bool)>|
                        (es.len() == n && entries_sorted(es)) implies !#[trigger] swa(
                        b@,
                        pos as int,
                        enc_bool_entries(es),
                    ) by {
                        if swa(b@, pos as int, enc_bool_entries(es)) {
                            assert(b@.subrange(at as int, at + 8) == u64le(
                                es[i as int].0 as u64,
                            ));
                            lemma_u64le_inj(k.0 as u64, es[i as int].0 as u64);
                            assert(es.take(i as int) == out@);
                            assert(es[i - 1].0 == out@[i - 1].0);
                            assert(es[i - 1].0 < es[i as int].0);
                        }
                    }
                }
                return None;
            }
        }
        let ghost prev = out@;
        out.push((k.0, v.0));
        proof {
            assert(out@.drop_last() =~= prev);
            assert forall|x: int, y: int| 0 <= x < y < out@.len() implies out@[x].0 < out@[y].0
                by {
                if y < prev.len() {
                    assert(out@[x] == prev[x]);
                    assert(out@[y] == prev[y]);
                } else {
                    assert(out@[x] == prev[x]);
                    assert(prev[x].0 <= prev[prev.len() - 1].0);
                }
            }
            assert(b@.subrange(pos as int, v.1 as int) =~= enc_bool_entries(prev) + u64le(
                k.0 as u64,
            ) + enc_bool(v.0)) by {
                assert(b@.subrange(pos as int, at as int) == enc_bool_entries(prev));
                assert(b@.subrange(at as int, (at + 8) as int) == u64le(k.0 as u64));
                assert(b@.subrange(k.1 as int, v.1 as int) == enc_bool(v.0));
            }
            assert(enc_bool_entries(out@) == enc_bool_entries(prev) + u64le(k.0 as u64)
                + enc_bool(v.0));
            assert forall|es: Seq<(usize, bool)>|
                (es.len() == n && entries_sorted(es) && #[trigger] swa(
                    b@,
                    pos as int,
                    enc_bool_entries(es),
                )) implies es.take(i + 1) == out@ by {
                assert(es.take(i as int) == prev);
                assert(b@.subrange(at as int, at + 8) == u64le(es[i as int].0 as u64));
                lemma_u64le_inj(k.0 as u64, es[i as int].0 as u64);
                assert(b@.subrange(k.1 as int, v.1 as int) == enc_bool(es[i as int].1));
                assert(enc_bool(v.0)[0] == enc_bool(es[i as int].1)[0]);
                assert(v.0 == es[i as int].1);
                assert(es.take(i + 1) =~= out@);
            }
        }
        at = v.1;
        i += 1;
    }
    Some((out, at))
}

/// Read one column's contents: tag, count, then the entries.
#[verifier::spinoff_prover]
#[verifier::rlimit(100)]
fn rd_cells(b: &Vec<u8>, pos: usize) -> (r: Option<(ColumnData, usize)>)
    ensures
        match r {
            Some(p) => p.0.wf() && pos <= p.1 <= b@.len() && b@.subrange(
                pos as int,
                p.1 as int,
            ) == enc_cells(p.0.cells()),
            None => forall|c: ColCells| cc_wf(c) ==> !#[trigger] swa(
                b@,
                pos as int,
                enc_cells(c),
            ),
        },
{
    let blen = b.len();
    proof {
        assert forall|c: ColCells| cc_wf(c) && #[trigger] swa(b@, pos as int, enc_cells(c))
            implies (b@[pos as int] == enc_cells(c)[0] && swa(
            b@,
            pos + 1,
            match c {
                ColCells::Int(s) => u64le(s.len() as u64),
                ColCells::Str(s) => u64le(s.len() as u64),
                ColCells::Bool(s) => u64le(s.len() as u64),
            },
        )) by {
            match c {
                ColCells::Int(s) => {
                    lemma_int_entries_len(s);
                    assert(enc_cells(c) =~= seq![0u8] + (u64le(s.len() as u64)
                        + enc_int_entries(s)));
                    lemma_swa_split(
                        b@,
                        pos as int,
                        seq![0u8],
                        u64le(s.len() as u64) + enc_int_entries(s),
                    );
                    lemma_swa_split(b@, pos + 1, u64le(s.len() as u64), enc_int_entries(s));
                    assert(b@.subrange(pos as int, pos + 1)[0] == enc_cells(c)[0]);
                },
                ColCells::Str(s) => {
                    lemma_str_entries_len(s);
                    assert(enc_cells(c) =~= seq![1u8] + (u64le(s.len() as u64)
                        + enc_str_entries(s)));
                    lemma_swa_split(
                        b@,
                        pos as int,
                        seq![1u8],
                        u64le(s.len() as u64) + enc_str_entries(s),
                    );
                    lemma_swa_split(b@, pos + 1, u64le(s.len() as u64), enc_str_entries(s));
                    assert(b@.subrange(pos as int, pos + 1)[0] == enc_cells(c)[0]);
                },
                ColCells::Bool(s) => {
                    lemma_bool_entries_len(s);
                    assert(enc_cells(c) =~= seq![2u8] + (u64le(s.len() as u64)
                        + enc_bool_entries(s)));
                    lemma_swa_split(
                        b@,
                        pos as int,
                        seq![2u8],
                        u64le(s.len() as u64) + enc_bool_entries(s),
                    );
                    lemma_swa_split(b@, pos + 1, u64le(s.len() as u64), enc_bool_entries(s));
                    assert(b@.subrange(pos as int, pos + 1)[0] == enc_cells(c)[0]);
                },
            }
        }
    }
    let tag = match rd_u8(b, pos) {
        Some(t) => t,
        None => {
            return None;
        },
    };
    let count = match rd_usize(b, pos + 1) {
        Some(cnt) => cnt,
        None => {
            proof {
                assert forall|c: ColCells| cc_wf(c) implies !#[trigger] swa(
                    b@,
                    pos as int,
                    enc_cells(c),
                ) by {
                    if swa(b@, pos as int, enc_cells(c)) {
                        match c {
                            ColCells::Int(s) => {
                                lemma_int_entries_len(s);
                                assert(s.len() <= b@.len());
                                let x = s.len() as usize;
                                assert(x as u64 == s.len() as u64);
                                assert(b@.subrange((pos + 1) as int, pos + 9) == u64le(
                                    x as u64,
                                ));
                            },
                            ColCells::Str(s) => {
                                lemma_str_entries_len(s);
                                assert(s.len() <= b@.len());
                                let x = s.len() as usize;
                                assert(x as u64 == s.len() as u64);
                                assert(b@.subrange((pos + 1) as int, pos + 9) == u64le(
                                    x as u64,
                                ));
                            },
                            ColCells::Bool(s) => {
                                lemma_bool_entries_len(s);
                                assert(s.len() <= b@.len());
                                let x = s.len() as usize;
                                assert(x as u64 == s.len() as u64);
                                assert(b@.subrange((pos + 1) as int, pos + 9) == u64le(
                                    x as u64,
                                ));
                            },
                        }
                    }
                }
            }
            return None;
        },
    };
    let n = count.0;
    if tag.0 == 0 {
        let got = match rd_int_entries(b, count.1, n) {
            Some(g) => g,
            None => {
                proof {
                    assert forall|c: ColCells| cc_wf(c) implies !#[trigger] swa(
                        b@,
                        pos as int,
                        enc_cells(c),
                    ) by {
                        if swa(b@, pos as int, enc_cells(c)) {
                            match c {
                                ColCells::Int(s) => {
                                    lemma_int_entries_len(s);
                                    assert(enc_cells(c) =~= seq![0u8] + (u64le(
                                        s.len() as u64,
                                    ) + enc_int_entries(s)));
                                    lemma_swa_split(
                                        b@,
                                        pos as int,
                                        seq![0u8],
                                        u64le(s.len() as u64) + enc_int_entries(s),
                                    );
                                    lemma_swa_split(
                                        b@,
                                        pos + 1,
                                        u64le(s.len() as u64),
                                        enc_int_entries(s),
                                    );
                                    assert(s.len() <= b@.len());
                                    assert(b@.subrange((pos + 1) as int, pos + 9) == u64le(
                                        s.len() as u64,
                                    ));
                                    lemma_u64le_inj(n as u64, s.len() as u64);
                                    assert(s.len() == n);
                                    assert(swa(b@, pos + 9, enc_int_entries(s)));
                                },
                                ColCells::Str(_) => {
                                    assert(enc_cells(c)[0] == 1);
                                },
                                ColCells::Bool(_) => {
                                    assert(enc_cells(c)[0] == 2);
                                },
                            }
                        }
                    }
                }
                return None;
            },
        };
        let d = ColumnData::Int(RowMap::from_entries(got.0));
        proof {
            assert(b@.subrange(pos as int, got.1 as int) =~= enc_cells(d.cells()));
        }
        Some((d, got.1))
    } else if tag.0 == 1 {
        let got = match rd_str_entries(b, count.1, n) {
            Some(g) => g,
            None => {
                proof {
                    assert forall|c: ColCells| cc_wf(c) implies !#[trigger] swa(
                        b@,
                        pos as int,
                        enc_cells(c),
                    ) by {
                        if swa(b@, pos as int, enc_cells(c)) {
                            match c {
                                ColCells::Str(s) => {
                                    lemma_str_entries_len(s);
                                    assert(enc_cells(c) =~= seq![1u8] + (u64le(
                                        s.len() as u64,
                                    ) + enc_str_entries(s)));
                                    lemma_swa_split(
                                        b@,
                                        pos as int,
                                        seq![1u8],
                                        u64le(s.len() as u64) + enc_str_entries(s),
                                    );
                                    lemma_swa_split(
                                        b@,
                                        pos + 1,
                                        u64le(s.len() as u64),
                                        enc_str_entries(s),
                                    );
                                    assert(s.len() <= b@.len());
                                    assert(b@.subrange((pos + 1) as int, pos + 9) == u64le(
                                        s.len() as u64,
                                    ));
                                    lemma_u64le_inj(n as u64, s.len() as u64);
                                    assert(s.len() == n);
                                    assert(swa(b@, pos + 9, enc_str_entries(s)));
                                },
                                ColCells::Int(_) => {
                                    assert(enc_cells(c)[0] == 0);
                                },
                                ColCells::Bool(_) => {
                                    assert(enc_cells(c)[0] == 2);
                                },
                            }
                        }
                    }
                }
                return None;
            },
        };
        let d = ColumnData::Str(RowMap::from_entries(got.0));
        proof {
            assert(b@.subrange(pos as int, got.1 as int) =~= enc_cells(d.cells()));
        }
        Some((d, got.1))
    } else if tag.0 == 2 {
        let got = match rd_bool_entries(b, count.1, n) {
            Some(g) => g,
            None => {
                proof {
                    assert forall|c: ColCells| cc_wf(c) implies !#[trigger] swa(
                        b@,
                        pos as int,
                        enc_cells(c),
                    ) by {
                        if swa(b@, pos as int, enc_cells(c)) {
                            match c {
                                ColCells::Bool(s) => {
                                    lemma_bool_entries_len(s);
                                    assert(enc_cells(c) =~= seq![2u8] + (u64le(
                                        s.len() as u64,
                                    ) + enc_bool_entries(s)));
                                    lemma_swa_split(
                                        b@,
                                        pos as int,
                                        seq![2u8],
                                        u64le(s.len() as u64) + enc_bool_entries(s),
                                    );
                                    lemma_swa_split(
                                        b@,
                                        pos + 1,
                                        u64le(s.len() as u64),
                                        enc_bool_entries(s),
                                    );
                                    assert(s.len() <= b@.len());
                                    assert(b@.subrange((pos + 1) as int, pos + 9) == u64le(
                                        s.len() as u64,
                                    ));
                                    lemma_u64le_inj(n as u64, s.len() as u64);
                                    assert(s.len() == n);
                                    assert(swa(b@, pos + 9, enc_bool_entries(s)));
                                },
                                ColCells::Int(_) => {
                                    assert(enc_cells(c)[0] == 0);
                                },
                                ColCells::Str(_) => {
                                    assert(enc_cells(c)[0] == 1);
                                },
                            }
                        }
                    }
                }
                return None;
            },
        };
        let d = ColumnData::Bool(RowMap::from_entries(got.0));
        proof {
            assert(b@.subrange(pos as int, got.1 as int) =~= enc_cells(d.cells()));
        }
        Some((d, got.1))
    } else {
        proof {
            assert forall|c: ColCells| cc_wf(c) implies !#[trigger] swa(
                b@,
                pos as int,
                enc_cells(c),
            ) by {
                if swa(b@, pos as int, enc_cells(c)) {
                    match c {
                        ColCells::Int(_) => {
                            assert(enc_cells(c)[0] == 0);
                        },
                        ColCells::Str(_) => {
                            assert(enc_cells(c)[0] == 1);
                        },
                        ColCells::Bool(_) => {
                            assert(enc_cells(c)[0] == 2);
                        },
                    }
                }
            }
        }
        None
    }
}

/// What a name-and-flags encoding decomposes into from `pos`.
proof fn lemma_hdr5_components(
    b: Seq<u8>,
    pos: int,
    nm: Seq<char>,
    hid: bool,
    dt: DataType,
    nl: bool,
    pk: bool,
)
    requires
        swa(b, pos, enc_hdr5(nm, hid, dt, nl, pk)),
    ensures
        swa(b, pos, enc_str(nm)),
        swa(b, pos + enc_str(nm).len(), enc_bool(hid)),
        swa(b, pos + enc_str(nm).len() + 1, enc_dt(dt)),
        swa(b, pos + enc_str(nm).len() + 2, enc_bool(nl)),
        swa(b, pos + enc_str(nm).len() + 3, enc_bool(pk)),
        enc_hdr5(nm, hid, dt, nl, pk).len() == enc_str(nm).len() + 4,
{
    let e1 = enc_str(nm);
    let e2 = enc_bool(hid);
    let e3 = enc_dt(dt);
    let e4 = enc_bool(nl);
    let e5 = enc_bool(pk);
    lemma_swa_split(b, pos, e1 + e2 + e3 + e4, e5);
    lemma_swa_split(b, pos, e1 + e2 + e3, e4);
    lemma_swa_split(b, pos, e1 + e2, e3);
    lemma_swa_split(b, pos, e1, e2);
    assert(e2.len() == 1 && e3.len() == 1 && e4.len() == 1 && e5.len() == 1);
}

/// Read a header's name and flags.
#[verifier::spinoff_prover]
#[verifier::rlimit(100)]
fn rd_hdr5(b: &Vec<u8>, pos: usize) -> (r: Option<((String, bool, DataType, bool, bool), usize)>)
    ensures
        match r {
            Some(p) => pos <= p.1 <= b@.len() && b@.subrange(pos as int, p.1 as int)
                == enc_hdr5(p.0.0@, p.0.1, p.0.2, p.0.3, p.0.4),
            None => forall|nm: Seq<char>, hid: bool, dt: DataType, nl: bool, pk: bool|
                !#[trigger] swa(b@, pos as int, enc_hdr5(nm, hid, dt, nl, pk)),
        },
{
    let blen = b.len();
    proof {
        assert(b@.len() <= usize::MAX);
    }
    let name = match rd_str(b, pos) {
        Some(nm) => nm,
        None => {
            proof {
                assert forall|nm: Seq<char>, hid: bool, dt: DataType, nl: bool, pk: bool|
                    !#[trigger] swa(b@, pos as int, enc_hdr5(nm, hid, dt, nl, pk)) by {
                    if swa(b@, pos as int, enc_hdr5(nm, hid, dt, nl, pk)) {
                        lemma_hdr5_components(b@, pos as int, nm, hid, dt, nl, pk);
                    }
                }
            }
            return None;
        },
    };
    proof {
        assert forall|nm: Seq<char>, hid: bool, dt: DataType, nl: bool, pk: bool|
            #[trigger] swa(b@, pos as int, enc_hdr5(nm, hid, dt, nl, pk)) implies (nm
            == name.0@ && pos + enc_str(nm).len() == name.1) by {
            lemma_hdr5_components(b@, pos as int, nm, hid, dt, nl, pk);
            assert(swa(b@, pos as int, enc_str(name.0@)));
            lemma_enc_str_same_pos(b@, pos as int, nm, name.0@);
        }
    }
    let hidden = match rd_bool(b, name.1) {
        Some(h) => h,
        None => {
            proof {
                assert forall|nm: Seq<char>, hid: bool, dt: DataType, nl: bool, pk: bool|
                    !#[trigger] swa(b@, pos as int, enc_hdr5(nm, hid, dt, nl, pk)) by {
                    if swa(b@, pos as int, enc_hdr5(nm, hid, dt, nl, pk)) {
                        lemma_hdr5_components(b@, pos as int, nm, hid, dt, nl, pk);
                        assert(b@[name.1 as int] == enc_bool(hid)[0]);
                    }
                }
            }
            return None;
        },
    };
    let dtag = match rd_u8(b, hidden.1) {
        Some(d) => d,
        None => {
            proof {
                assert forall|nm: Seq<char>, hid: bool, dt: DataType, nl: bool, pk: bool|
                    !#[trigger] swa(b@, pos as int, enc_hdr5(nm, hid, dt, nl, pk)) by {
                    if swa(b@, pos as int, enc_hdr5(nm, hid, dt, nl, pk)) {
                        lemma_hdr5_components(b@, pos as int, nm, hid, dt, nl, pk);
                        assert(swa(b@, hidden.1 as int, enc_dt(dt)));
                    }
                }
            }
            return None;
        },
    };
    let datatype = if dtag.0 == 0 {
        DataType::Int
    } else if dtag.0 == 1 {
        DataType::Str
    } else if dtag.0 == 2 {
        DataType::Bool
    } else {
        proof {
            assert forall|nm: Seq<char>, hid: bool, dt: DataType, nl: bool, pk: bool|
                !#[trigger] swa(b@, pos as int, enc_hdr5(nm, hid, dt, nl, pk)) by {
                if swa(b@, pos as int, enc_hdr5(nm, hid, dt, nl, pk)) {
                    lemma_hdr5_components(b@, pos as int, nm, hid, dt, nl, pk);
                    assert(b@[hidden.1 as int] == enc_dt(dt)[0]);
                    match dt {
                        DataType::Int => assert(enc_dt(dt)[0] == 0),
                        DataType::Str => assert(enc_dt(dt)[0] == 1),
                        DataType::Bool => assert(enc_dt(dt)[0] == 2),
                    }
                }
            }
        }
        return None;
    };
    let nullable = match rd_bool(b, dtag.1) {
        Some(x) => x,
        None => {
            proof {
                assert forall|nm: Seq<char>, hid: bool, dt: DataType, nl: bool, pk: bool|
                    !#[trigger] swa(b@, pos as int, enc_hdr5(nm, hid, dt, nl, pk)) by {
                    if swa(b@, pos as int, enc_hdr5(nm, hid, dt, nl, pk)) {
                        lemma_hdr5_components(b@, pos as int, nm, hid, dt, nl, pk);
                        assert(b@[dtag.1 as int] == enc_bool(nl)[0]);
                    }
                }
            }
            return None;
        },
    };
    let is_pk = match rd_bool(b, nullable.1) {
        Some(x) => x,
        None => {
            proof {
                assert forall|nm: Seq<char>, hid: bool, dt: DataType, nl: bool, pk: bool|
                    !#[trigger] swa(b@, pos as int, enc_hdr5(nm, hid, dt, nl, pk)) by {
                    if swa(b@, pos as int, enc_hdr5(nm, hid, dt, nl, pk)) {
                        lemma_hdr5_components(b@, pos as int, nm, hid, dt, nl, pk);
                        assert(b@[nullable.1 as int] == enc_bool(pk)[0]);
                    }
                }
            }
            return None;
        },
    };
    proof {
        assert(b@.subrange(pos as int, is_pk.1 as int) =~= enc_hdr5(
            name.0@,
            hidden.0,
            datatype,
            nullable.0,
            is_pk.0,
        ));
    }
    Some(((name.0, hidden.0, datatype, nullable.0, is_pk.0), is_pk.1))
}

/// Read an optional row id, refusing one at the very top of the id space.
#[verifier::spinoff_prover]
fn rd_opt_rid(b: &Vec<u8>, pos: usize) -> (r: Option<(Option<usize>, usize)>)
    ensures
        match r {
            Some(p) => rid_le(p.0, usize::MAX - 1) && pos <= p.1 <= b@.len() && b@.subrange(
                pos as int,
                p.1 as int,
            ) == enc_opt_rid(p.0),
            None => forall|o: Option<usize>|
                rid_le(o, usize::MAX - 1) ==> !#[trigger] swa(b@, pos as int, enc_opt_rid(o)),
        },
{
    let ltag = match rd_u8(b, pos) {
        Some(x) => x,
        None => {
            proof {
                assert forall|o: Option<usize>| rid_le(o, usize::MAX - 1)
                    implies !#[trigger] swa(b@, pos as int, enc_opt_rid(o)) by {
                    assert(enc_opt_rid(o).len() >= 1);
                }
            }
            return None;
        },
    };
    if ltag.0 == 0 {
        proof {
            assert(b@.subrange(pos as int, (pos + 1) as int) =~= enc_opt_rid(
                None::<usize>,
            ));
        }
        Some((None, ltag.1))
    } else if ltag.0 == 1 {
        let x = match rd_usize(b, ltag.1) {
            Some(x) => x,
            None => {
                proof {
                    assert forall|o: Option<usize>| rid_le(o, usize::MAX - 1)
                        implies !#[trigger] swa(b@, pos as int, enc_opt_rid(o)) by {
                        if swa(b@, pos as int, enc_opt_rid(o)) {
                            match o {
                                Some(w) => {
                                    lemma_swa_split(
                                        b@,
                                        pos as int,
                                        seq![1u8],
                                        u64le(w as u64),
                                    );
                                    assert(b@.subrange((pos + 1) as int, pos + 9) == u64le(
                                        w as u64,
                                    ));
                                },
                                None => {
                                    assert(b@[pos as int] == enc_opt_rid(o)[0]);
                                },
                            }
                        }
                    }
                }
                return None;
            },
        };
        if x.0 == usize::MAX {
            proof {
                assert forall|o: Option<usize>| rid_le(o, usize::MAX - 1)
                    implies !#[trigger] swa(b@, pos as int, enc_opt_rid(o)) by {
                    if swa(b@, pos as int, enc_opt_rid(o)) {
                        match o {
                            Some(w) => {
                                lemma_swa_split(b@, pos as int, seq![1u8], u64le(w as u64));
                                assert(b@.subrange((pos + 1) as int, pos + 9) == u64le(
                                    w as u64,
                                ));
                                lemma_u64le_inj(x.0 as u64, w as u64);
                            },
                            None => {
                                assert(b@[pos as int] == enc_opt_rid(o)[0]);
                            },
                        }
                    }
                }
            }
            return None;
        }
        proof {
            assert(b@.subrange(pos as int, x.1 as int) =~= enc_opt_rid(Some(x.0)));
        }
        Some((Some(x.0), x.1))
    } else {
        proof {
            assert forall|o: Option<usize>| rid_le(o, usize::MAX - 1) implies !#[trigger] swa(
                b@,
                pos as int,
                enc_opt_rid(o),
            ) by {
                if swa(b@, pos as int, enc_opt_rid(o)) {
                    assert(b@[pos as int] == enc_opt_rid(o)[0]);
                    match o {
                        Some(_) => (),
                        None => (),
                    }
                }
            }
        }
        return None;
    }
}

/// Read one column header.
#[verifier::spinoff_prover]
#[verifier::rlimit(100)]
fn rd_hdr(b: &Vec<u8>, pos: usize) -> (r: Option<(ColumnHeader, usize)>)
    ensures
        match r {
            Some(p) => rid_le(p.0.last_row_id, usize::MAX - 1) && pos <= p.1 <= b@.len()
                && b@.subrange(pos as int, p.1 as int) == enc_hdr(p.0),
            None => forall|h: ColumnHeader|
                rid_le(h.last_row_id, usize::MAX - 1) ==> !#[trigger] swa(
                    b@,
                    pos as int,
                    enc_hdr(h),
                ),
        },
{
    let blen = b.len();
    proof {
        assert(b@.len() <= usize::MAX);
    }
    let five = match rd_hdr5(b, pos) {
        Some(f) => f,
        None => {
            proof {
                assert forall|h: ColumnHeader| rid_le(h.last_row_id, usize::MAX - 1)
                    implies !#[trigger] swa(b@, pos as int, enc_hdr(h)) by {
                    if swa(b@, pos as int, enc_hdr(h)) {
                        lemma_swa_split(
                            b@,
                            pos as int,
                            enc_hdr5(h.name@, h.hidden, h.datatype, h.nullable, h.is_pk),
                            enc_opt_rid(h.last_row_id),
                        );
                    }
                }
            }
            return None;
        },
    };
    proof {
        assert forall|h: ColumnHeader|
            (rid_le(h.last_row_id, usize::MAX - 1) && #[trigger] swa(
                b@,
                pos as int,
                enc_hdr(h),
            )) implies swa(b@, five.1 as int, enc_opt_rid(h.last_row_id)) by {
            lemma_swa_split(
                b@,
                pos as int,
                enc_hdr5(h.name@, h.hidden, h.datatype, h.nullable, h.is_pk),
                enc_opt_rid(h.last_row_id),
            );
            assert(swa(b@, pos as int, enc_hdr5(h.name@, h.hidden, h.datatype, h.nullable,
                h.is_pk)));
            assert(swa(b@, pos as int, enc_hdr5(five.0.0@, five.0.1, five.0.2, five.0.3,
                five.0.4)));
            lemma_hdr5_components(b@, pos as int, h.name@, h.hidden, h.datatype, h.nullable,
                h.is_pk);
            lemma_hdr5_components(b@, pos as int, five.0.0@, five.0.1, five.0.2, five.0.3,
                five.0.4);
            lemma_enc_str_same_pos(b@, pos as int, h.name@, five.0.0@);
        }
    }
    let rid = match rd_opt_rid(b, five.1) {
        Some(x) => x,
        None => {
            proof {
                assert forall|h: ColumnHeader| rid_le(h.last_row_id, usize::MAX - 1)
                    implies !#[trigger] swa(b@, pos as int, enc_hdr(h)) by {
                    if swa(b@, pos as int, enc_hdr(h)) {
                        assert(swa(b@, five.1 as int, enc_opt_rid(h.last_row_id)));
                    }
                }
            }
            return None;
        },
    };
    let hdr = ColumnHeader {
        name: five.0.0,
        hidden: five.0.1,
        datatype: five.0.2,
        nullable: five.0.3,
        is_pk: five.0.4,
        last_row_id: rid.0,
    };
    proof {
        assert(b@.subrange(pos as int, rid.1 as int) =~= enc_hdr(hdr));
    }
    Some((hdr, rid.1))
}

/// Two header encodings at the same place carry the same fields, up to the
/// name's characters.
proof fn lemma_enc_hdr_same_pos(b: Seq<u8>, pos: int, h1: ColumnHeader, h2: ColumnHeader)
    requires
        swa(b, pos, enc_hdr(h1)),
        swa(b, pos, enc_hdr(h2)),
        b.len() <= usize::MAX,
    ensures
        h1.name@ == h2.name@,
        h1.hidden == h2.hidden,
        h1.datatype == h2.datatype,
        h1.nullable == h2.nullable,
        h1.is_pk == h2.is_pk,
        h1.last_row_id == h2.last_row_id,
        enc_hdr(h1) == enc_hdr(h2),
{
    lemma_swa_split(
        b,
        pos,
        enc_hdr5(h1.name@, h1.hidden, h1.datatype, h1.nullable, h1.is_pk),
        enc_opt_rid(h1.last_row_id),
    );
    lemma_swa_split(
        b,
        pos,
        enc_hdr5(h2.name@, h2.hidden, h2.datatype, h2.nullable, h2.is_pk),
        enc_opt_rid(h2.last_row_id),
    );
    lemma_hdr5_components(b, pos, h1.name@, h1.hidden, h1.datatype, h1.nullable, h1.is_pk);
    lemma_hdr5_components(b, pos, h2.name@, h2.hidden, h2.datatype, h2.nullable, h2.is_pk);
    lemma_enc_str_same_pos(b, pos, h1.name@, h2.name@);
    let q = pos + enc_str(h1.name@).len();
    assert(b[q] == enc_bool(h1.hidden)[0]);
    assert(b[q] == enc_bool(h2.hidden)[0]);
    assert(b[q + 1] == enc_dt(h1.datatype)[0]);
    assert(b[q + 1] == enc_dt(h2.datatype)[0]);
    match (h1.datatype, h2.datatype) {
        (DataType::Int, DataType::Int) => (),
        (DataType::Str, DataType::Str) => (),
        (DataType::Bool, DataType::Bool) => (),
        _ => {
            assert(false);
        },
    }
    assert(b[q + 2] == enc_bool(h1.nullable)[0]);
    assert(b[q + 2] == enc_bool(h2.nullable)[0]);
    assert(b[q + 3] == enc_bool(h1.is_pk)[0]);
    assert(b[q + 3] == enc_bool(h2.is_pk)[0]);
    assert(b[q + 4] == enc_opt_rid(h1.last_row_id)[0]);
    assert(b[q + 4] == enc_opt_rid(h2.last_row_id)[0]);
    match (h1.last_row_id, h2.last_row_id) {
        (Some(x), Some(y)) => {
            lemma_swa_split(b, q + 4, seq![1u8], u64le(x as u64));
            lemma_swa_split(b, q + 4, seq![1u8], u64le(y as u64));
            assert(b.subrange(q + 5, q + 13) == u64le(x as u64));
            assert(b.subrange(q + 5, q + 13) == u64le(y as u64));
            lemma_u64le_inj(x as u64, y as u64);
        },
        (None, None) => (),
        _ => {
            assert(false);
        },
    }
    assert(enc_hdr(h1) =~= enc_hdr(h2));
}

/// Read one column: its header, then its contents, refusing a contents tag
/// that disagrees with the declared type.
#[verifier::spinoff_prover]
#[verifier::rlimit(100)]
fn rd_col(b: &Vec<u8>, pos: usize) -> (r: Option<(Column, usize)>)
    ensures
        match r {
            Some(p) => p.0.wf() && rid_le(p.0.header.last_row_id, usize::MAX - 1) && pos <= p.1
                <= b@.len() && b@.subrange(pos as int, p.1 as int) == enc_col(p.0.abs()),
            None => forall|c: ColAbs|
                (col_wf(c) && rid_le(c.header.last_row_id, usize::MAX - 1)) ==> !#[trigger] swa(
                    b@,
                    pos as int,
                    enc_col(c),
                ),
        },
{
    let blen = b.len();
    proof {
        assert(b@.len() <= usize::MAX);
    }
    let hdr = match rd_hdr(b, pos) {
        Some(h) => h,
        None => {
            proof {
                assert forall|c: ColAbs|
                    (col_wf(c) && rid_le(c.header.last_row_id, usize::MAX - 1))
                    implies !#[trigger] swa(b@, pos as int, enc_col(c)) by {
                    if swa(b@, pos as int, enc_col(c)) {
                        lemma_swa_split(b@, pos as int, enc_hdr(c.header), enc_cells(c.cells));
                    }
                }
            }
            return None;
        },
    };
    proof {
        assert forall|c: ColAbs|
            (col_wf(c) && rid_le(c.header.last_row_id, usize::MAX - 1) && #[trigger] swa(
                b@,
                pos as int,
                enc_col(c),
            )) implies (c.header.name@ == hdr.0.name@ && c.header.hidden == hdr.0.hidden
            && c.header.datatype == hdr.0.datatype && c.header.nullable == hdr.0.nullable
            && c.header.is_pk == hdr.0.is_pk && c.header.last_row_id == hdr.0.last_row_id
            && swa(b@, hdr.1 as int, enc_cells(c.cells)) && enc_hdr(c.header) == enc_hdr(
            hdr.0,
        )) by {
            lemma_swa_split(b@, pos as int, enc_hdr(c.header), enc_cells(c.cells));
            assert(swa(b@, pos as int, enc_hdr(hdr.0)));
            lemma_enc_hdr_same_pos(b@, pos as int, c.header, hdr.0);
        }
    }
    let cells = match rd_cells(b, hdr.1) {
        Some(cl) => cl,
        None => {
            proof {
                assert forall|c: ColAbs|
                    (col_wf(c) && rid_le(c.header.last_row_id, usize::MAX - 1))
                    implies !#[trigger] swa(b@, pos as int, enc_col(c)) by {
                    if swa(b@, pos as int, enc_col(c)) {
                        assert(swa(b@, hdr.1 as int, enc_cells(c.cells)));
                        assert(cc_wf(c.cells));
                    }
                }
            }
            return None;
        },
    };
    let tag_matches = match (&hdr.0.datatype, &cells.0) {
        (DataType::Int, ColumnData::Int(_)) => true,
        (DataType::Str, ColumnData::Str(_)) => true,
        (DataType::Bool, ColumnData::Bool(_)) => true,
        _ => false,
    };
    if !tag_matches {
        proof {
            assert forall|c: ColAbs|
                (col_wf(c) && rid_le(c.header.last_row_id, usize::MAX - 1))
                implies !#[trigger] swa(b@, pos as int, enc_col(c)) by {
                if swa(b@, pos as int, enc_col(c)) {
                    assert(swa(b@, hdr.1 as int, enc_cells(c.cells)));
                    match c.cells {
                        ColCells::Int(_) => {
                            assert(enc_cells(c.cells).len() >= 9);
                        },
                        ColCells::Str(_) => {
                            assert(enc_cells(c.cells).len() >= 9);
                        },
                        ColCells::Bool(_) => {
                            assert(enc_cells(c.cells).len() >= 9);
                        },
                    }
                    assert(b@.subrange(
                        hdr.1 as int,
                        hdr.1 + enc_cells(c.cells).len(),
                    )[0] == enc_cells(c.cells)[0]);
                    assert(b@[hdr.1 as int] == enc_cells(c.cells)[0]);
                    match cells.0.cells() {
                        ColCells::Int(_) => {
                            assert(enc_cells(cells.0.cells()).len() >= 9);
                        },
                        ColCells::Str(_) => {
                            assert(enc_cells(cells.0.cells()).len() >= 9);
                        },
                        ColCells::Bool(_) => {
                            assert(enc_cells(cells.0.cells()).len() >= 9);
                        },
                    }
                    assert(b@.subrange(hdr.1 as int, cells.1 as int) == enc_cells(
                        cells.0.cells(),
                    ));
                    assert(cells.1 - hdr.1 == enc_cells(cells.0.cells()).len());
                    assert(b@.subrange(hdr.1 as int, cells.1 as int)[0] == enc_cells(
                        cells.0.cells(),
                    )[0]);
                    assert(b@[hdr.1 as int] == enc_cells(cells.0.cells())[0]);
                    assert(cc_tag(c.cells) == c.header.datatype);
                    match c.cells {
                        ColCells::Int(_) => {
                            assert(enc_cells(c.cells)[0] == 0);
                        },
                        ColCells::Str(_) => {
                            assert(enc_cells(c.cells)[0] == 1);
                        },
                        ColCells::Bool(_) => {
                            assert(enc_cells(c.cells)[0] == 2);
                        },
                    }
                    match cells.0.cells() {
                        ColCells::Int(_) => {
                            assert(enc_cells(cells.0.cells())[0] == 0);
                        },
                        ColCells::Str(_) => {
                            assert(enc_cells(cells.0.cells())[0] == 1);
                        },
                        ColCells::Bool(_) => {
                            assert(enc_cells(cells.0.cells())[0] == 2);
                        },
                    }
                }
            }
        }
        return None;
    }
    let col = Column { header: hdr.0, data: cells.0 };
    proof {
        assert(b@.subrange(pos as int, cells.1 as int) =~= enc_col(col.abs()));
    }
    Some((col, cells.1))
}

/// Do two primary-key values denote the same key?
fn pk_same_exec(a: &PKType, b: &PKType) -> (r: bool)
    ensures
        r == crate::table::pk_same(*a, *b),
{
    match (a, b) {
        (PKType::Int(x), PKType::Int(y)) => *x == *y,
        (PKType::Str(x), PKType::Str(y)) => *x == *y,
        _ => false,
    }
}

/// Is the pair list a bijection?
fn pk_pairs_wf(pairs: &Vec<(PKType, usize)>) -> (r: bool)
    ensures
        r == crate::table::pk_index_wf(pairs@),
{
    let n = pairs.len();
    let mut i: usize = 0;
    while i < n
        invariant
            n == pairs@.len(),
            0 <= i <= n,
            forall|x: int, y: int|
                0 <= x < y < n && x < i ==> !crate::table::pk_same(
                    (#[trigger] pairs@[x]).0,
                    (#[trigger] pairs@[y]).0,
                ) && pairs@[x].1 != pairs@[y].1,
        decreases n - i,
    {
        let mut j: usize = i + 1;
        while j < n
            invariant
                n == pairs@.len(),
                0 <= i < n,
                i < j <= n,
                forall|y: int|
                    i < y < j ==> !crate::table::pk_same(
                        pairs@[i as int].0,
                        (#[trigger] pairs@[y]).0,
                    ) && pairs@[i as int].1 != pairs@[y].1,
            decreases n - j,
        {
            let same = pk_same_exec(&pairs[i].0, &pairs[j].0);
            if same || pairs[i].1 == pairs[j].1 {
                return false;
            }
            j += 1;
        }
        i += 1;
    }
    true
}

/// Two encodings at the same place with the same length are the same
/// bytes.
proof fn lemma_swa_same_len(b: Seq<u8>, pos: int, e1: Seq<u8>, e2: Seq<u8>)
    requires
        swa(b, pos, e1),
        swa(b, pos, e2),
        e1.len() == e2.len(),
    ensures
        e1 == e2,
{
}

/// Integer entries have a fixed width.
proof fn lemma_int_entries_len_exact(s: Seq<(usize, i32)>)
    ensures
        enc_int_entries(s).len() == 17 * s.len(),
    decreases s.len(),
{
    if s.len() > 0 {
        lemma_int_entries_len_exact(s.drop_last());
    }
}

/// Boolean entries have a fixed width.
proof fn lemma_bool_entries_len_exact(s: Seq<(usize, bool)>)
    ensures
        enc_bool_entries(s).len() == 9 * s.len(),
    decreases s.len(),
{
    if s.len() > 0 {
        lemma_bool_entries_len_exact(s.drop_last());
    }
}

/// Two string entry lists of the same count at the same place encode the
/// same bytes.
#[verifier::spinoff_prover]
#[verifier::rlimit(100)]
proof fn lemma_str_entries_same_pos(
    b: Seq<u8>,
    pos: int,
    s1: Seq<(usize, String)>,
    s2: Seq<(usize, String)>,
)
    requires
        s1.len() == s2.len(),
        swa(b, pos, enc_str_entries(s1)),
        swa(b, pos, enc_str_entries(s2)),
        b.len() <= usize::MAX,
    ensures
        enc_str_entries(s1) == enc_str_entries(s2),
    decreases s1.len(),
{
    if s1.len() > 0 {
        lemma_str_entries_split(s1, 1);
        lemma_str_entries_split(s2, 1);
        assert(s1.take(1) =~= seq![s1[0]]);
        assert(s2.take(1) =~= seq![s2[0]]);
        lemma_str_entries_single(s1[0]);
        lemma_str_entries_single(s2[0]);
        lemma_swa_split(b, pos, enc_str_entries(s1.take(1)), enc_str_entries(s1.skip(1)));
        lemma_swa_split(b, pos, enc_str_entries(s2.take(1)), enc_str_entries(s2.skip(1)));
        lemma_swa_split(b, pos, u64le(s1[0].0 as u64), enc_str(s1[0].1@));
        lemma_swa_split(b, pos, u64le(s2[0].0 as u64), enc_str(s2[0].1@));
        assert(b.subrange(pos, pos + 8) == u64le(s1[0].0 as u64));
        assert(b.subrange(pos, pos + 8) == u64le(s2[0].0 as u64));
        lemma_u64le_inj(s1[0].0 as u64, s2[0].0 as u64);
        lemma_enc_str_same_pos(b, pos + 8, s1[0].1@, s2[0].1@);
        let w = 8 + enc_str(s1[0].1@).len();
        assert(swa(b, pos + w, enc_str_entries(s1.skip(1))));
        assert(swa(b, pos + w, enc_str_entries(s2.skip(1))));
        lemma_str_entries_same_pos(b, pos + w, s1.skip(1), s2.skip(1));
        assert(enc_str_entries(s1) =~= enc_str_entries(s2));
    }
}

/// Two cell encodings at the same place are the same bytes.
#[verifier::spinoff_prover]
#[verifier::rlimit(100)]
proof fn lemma_enc_cells_same_pos(b: Seq<u8>, pos: int, c1: ColCells, c2: ColCells)
    requires
        swa(b, pos, enc_cells(c1)),
        swa(b, pos, enc_cells(c2)),
        b.len() <= usize::MAX,
    ensures
        enc_cells(c1) == enc_cells(c2),
        cc_tag(c1) == cc_tag(c2),
{
    let t1: u8 = match c1 {
        ColCells::Int(_) => 0,
        ColCells::Str(_) => 1,
        ColCells::Bool(_) => 2,
    };
    let t2: u8 = match c2 {
        ColCells::Int(_) => 0,
        ColCells::Str(_) => 1,
        ColCells::Bool(_) => 2,
    };
    match c1 {
        ColCells::Int(s) => {
            lemma_int_entries_len(s);
            assert(enc_cells(c1) =~= seq![t1] + (u64le(s.len() as u64) + enc_int_entries(s)));
            lemma_swa_split(b, pos, seq![t1], u64le(s.len() as u64) + enc_int_entries(s));
            lemma_swa_split(b, pos + 1, u64le(s.len() as u64), enc_int_entries(s));
        },
        ColCells::Str(s) => {
            lemma_str_entries_len(s);
            assert(enc_cells(c1) =~= seq![t1] + (u64le(s.len() as u64) + enc_str_entries(s)));
            lemma_swa_split(b, pos, seq![t1], u64le(s.len() as u64) + enc_str_entries(s));
            lemma_swa_split(b, pos + 1, u64le(s.len() as u64), enc_str_entries(s));
        },
        ColCells::Bool(s) => {
            lemma_bool_entries_len(s);
            assert(enc_cells(c1) =~= seq![t1] + (u64le(s.len() as u64) + enc_bool_entries(
                s,
            )));
            lemma_swa_split(b, pos, seq![t1], u64le(s.len() as u64) + enc_bool_entries(s));
            lemma_swa_split(b, pos + 1, u64le(s.len() as u64), enc_bool_entries(s));
        },
    }
    match c2 {
        ColCells::Int(s) => {
            lemma_int_entries_len(s);
            assert(enc_cells(c2) =~= seq![t2] + (u64le(s.len() as u64) + enc_int_entries(s)));
            lemma_swa_split(b, pos, seq![t2], u64le(s.len() as u64) + enc_int_entries(s));
            lemma_swa_split(b, pos + 1, u64le(s.len() as u64), enc_int_entries(s));
        },
        ColCells::Str(s) => {
            lemma_str_entries_len(s);
            assert(enc_cells(c2) =~= seq![t2] + (u64le(s.len() as u64) + enc_str_entries(s)));
            lemma_swa_split(b, pos, seq![t2], u64le(s.len() as u64) + enc_str_entries(s));
            lemma_swa_split(b, pos + 1, u64le(s.len() as u64), enc_str_entries(s));
        },
        ColCells::Bool(s) => {
            lemma_bool_entries_len(s);
            assert(enc_cells(c2) =~= seq![t2] + (u64le(s.len() as u64) + enc_bool_entries(
                s,
            )));
            lemma_swa_split(b, pos, seq![t2], u64le(s.len() as u64) + enc_bool_entries(s));
            lemma_swa_split(b, pos + 1, u64le(s.len() as u64), enc_bool_entries(s));
        },
    }
    lemma_swa_byte(b, pos, t1);
    lemma_swa_byte(b, pos, t2);
    match (c1, c2) {
        (ColCells::Int(s1), ColCells::Int(s2)) => {
            assert(b.subrange(pos + 1, pos + 9) == u64le(s1.len() as u64));
            assert(b.subrange(pos + 1, pos + 9) == u64le(s2.len() as u64));
            lemma_u64le_inj(s1.len() as u64, s2.len() as u64);
            lemma_int_entries_len_exact(s1);
            lemma_int_entries_len_exact(s2);
            lemma_swa_same_len(b, pos + 9, enc_int_entries(s1), enc_int_entries(s2));
            assert(enc_cells(c1) =~= enc_cells(c2));
        },
        (ColCells::Str(s1), ColCells::Str(s2)) => {
            assert(b.subrange(pos + 1, pos + 9) == u64le(s1.len() as u64));
            assert(b.subrange(pos + 1, pos + 9) == u64le(s2.len() as u64));
            lemma_u64le_inj(s1.len() as u64, s2.len() as u64);
            lemma_str_entries_same_pos(b, pos + 9, s1, s2);
            assert(enc_cells(c1) =~= enc_cells(c2));
        },
        (ColCells::Bool(s1), ColCells::Bool(s2)) => {
            assert(b.subrange(pos + 1, pos + 9) == u64le(s1.len() as u64));
            assert(b.subrange(pos + 1, pos + 9) == u64le(s2.len() as u64));
            lemma_u64le_inj(s1.len() as u64, s2.len() as u64);
            lemma_bool_entries_len_exact(s1);
            lemma_bool_entries_len_exact(s2);
            lemma_swa_same_len(b, pos + 9, enc_bool_entries(s1), enc_bool_entries(s2));
            assert(enc_cells(c1) =~= enc_cells(c2));
        },
        _ => {
            assert(false);
        },
    }
}

/// Two column encodings at the same place are the same bytes, and carry
/// the same header fields.
proof fn lemma_enc_col_same_pos(b: Seq<u8>, pos: int, c1: ColAbs, c2: ColAbs)
    requires
        swa(b, pos, enc_col(c1)),
        swa(b, pos, enc_col(c2)),
        b.len() <= usize::MAX,
    ensures
        enc_col(c1) == enc_col(c2),
        c1.header.is_pk == c2.header.is_pk,
{
    lemma_swa_split(b, pos, enc_hdr(c1.header), enc_cells(c1.cells));
    lemma_swa_split(b, pos, enc_hdr(c2.header), enc_cells(c2.cells));
    lemma_enc_hdr_same_pos(b, pos, c1.header, c2.header);
    lemma_enc_cells_same_pos(b, pos + enc_hdr(c1.header).len(), c1.cells, c2.cells);
    assert(enc_col(c1) =~= enc_col(c2));
}

/// Column list encodings hold at least one byte per column.
proof fn lemma_cols_len(cs: Seq<ColAbs>)
    ensures
        enc_cols(cs).len() >= cs.len(),
    decreases cs.len(),
{
    if cs.len() > 0 {
        lemma_cols_len(cs.drop_last());
        assert(enc_str(cs.last().header.name@).len() >= 8);
    }
}

/// Column list encodings concatenate over any split.
#[verifier::spinoff_prover]
#[verifier::rlimit(100)]
proof fn lemma_cols_split(cs: Seq<ColAbs>, m: int)
    requires
        0 <= m <= cs.len(),
    ensures
        enc_cols(cs) == enc_cols(cs.take(m)) + enc_cols(cs.skip(m)),
    decreases cs.len(),
{
    if cs.len() == m {
        assert(cs.take(m) =~= cs);
        assert(cs.skip(m) =~= Seq::<ColAbs>::empty());
        assert(enc_cols(cs) =~= enc_cols(cs.take(m)) + enc_cols(cs.skip(m)));
    } else {
        lemma_cols_split(cs.drop_last(), m);
        assert(cs.drop_last().take(m) =~= cs.take(m));
        assert(cs.skip(m).drop_last() =~= cs.drop_last().skip(m));
        assert(cs.skip(m).last() == cs.last());
        assert(enc_cols(cs) =~= enc_cols(cs.take(m)) + enc_cols(cs.skip(m)));
    }
}

proof fn lemma_cols_single(c: ColAbs)
    ensures
        enc_cols(seq![c]) == enc_col(c),
{
    assert(seq![c].drop_last() =~= Seq::<ColAbs>::empty());
    assert(enc_cols(Seq::<ColAbs>::empty()) =~= Seq::<u8>::empty());
    assert(enc_cols(seq![c]) =~= enc_col(c));
}

/// Primary-key pair list encodings hold at least one byte per pair.
proof fn lemma_pks_len(ps: Seq<(PKType, usize)>)
    ensures
        enc_pks(ps).len() >= ps.len(),
    decreases ps.len(),
{
    if ps.len() > 0 {
        lemma_pks_len(ps.drop_last());
        match ps.last().0 {
            PKType::Int(_) => (),
            PKType::Str(_) => (),
        }
    }
}

/// Primary-key pair list encodings concatenate over any split.
#[verifier::spinoff_prover]
#[verifier::rlimit(100)]
proof fn lemma_pks_split(ps: Seq<(PKType, usize)>, m: int)
    requires
        0 <= m <= ps.len(),
    ensures
        enc_pks(ps) == enc_pks(ps.take(m)) + enc_pks(ps.skip(m)),
    decreases ps.len(),
{
    if ps.len() == m {
        assert(ps.take(m) =~= ps);
        assert(ps.skip(m) =~= Seq::<(PKType, usize)>::empty());
        assert(enc_pks(ps) =~= enc_pks(ps.take(m)) + enc_pks(ps.skip(m)));
    } else {
        lemma_pks_split(ps.drop_last(), m);
        assert(ps.drop_last().take(m) =~= ps.take(m));
        assert(ps.skip(m).drop_last() =~= ps.drop_last().skip(m));
        assert(ps.skip(m).last() == ps.last());
        assert(enc_pks(ps) =~= enc_pks(ps.take(m)) + enc_pks(ps.skip(m)));
    }
}

proof fn lemma_pks_single(p: (PKType, usize))
    ensures
        enc_pks(seq![p]) == enc_pk_pair(p),
{
    assert(seq![p].drop_last() =~= Seq::<(PKType, usize)>::empty());
    assert(enc_pks(Seq::<(PKType, usize)>::empty()) =~= Seq::<u8>::empty());
    assert(enc_pks(seq![p]) =~= enc_pk_pair(p));
}

/// Two primary-key pair encodings at the same place are the same bytes and
/// denote the same key and row.
#[verifier::spinoff_prover]
#[verifier::rlimit(100)]
proof fn lemma_enc_pk_pair_same_pos(b: Seq<u8>, pos: int, p1: (PKType, usize), p2: (PKType, usize))
    requires
        swa(b, pos, enc_pk_pair(p1)),
        swa(b, pos, enc_pk_pair(p2)),
        b.len() <= usize::MAX,
    ensures
        enc_pk_pair(p1) == enc_pk_pair(p2),
        crate::table::pk_same(p1.0, p2.0),
        p1.1 == p2.1,
{
    match p1.0 {
        PKType::Int(x) => {
            assert(enc_pk_pair(p1) =~= seq![0u8] + (enc_i32(x) + u64le(p1.1 as u64)));
            lemma_swa_split(b, pos, seq![0u8], enc_i32(x) + u64le(p1.1 as u64));
            lemma_swa_split(b, pos + 1, enc_i32(x), u64le(p1.1 as u64));
            lemma_swa_byte(b, pos, 0);
        },
        PKType::Str(sv) => {
            assert(enc_pk_pair(p1) =~= seq![1u8] + (enc_str(sv@) + u64le(p1.1 as u64)));
            lemma_swa_split(b, pos, seq![1u8], enc_str(sv@) + u64le(p1.1 as u64));
            lemma_swa_split(b, pos + 1, enc_str(sv@), u64le(p1.1 as u64));
            lemma_swa_byte(b, pos, 1);
        },
    }
    match p2.0 {
        PKType::Int(x) => {
            assert(enc_pk_pair(p2) =~= seq![0u8] + (enc_i32(x) + u64le(p2.1 as u64)));
            lemma_swa_split(b, pos, seq![0u8], enc_i32(x) + u64le(p2.1 as u64));
            lemma_swa_split(b, pos + 1, enc_i32(x), u64le(p2.1 as u64));
            lemma_swa_byte(b, pos, 0);
        },
        PKType::Str(sv) => {
            assert(enc_pk_pair(p2) =~= seq![1u8] + (enc_str(sv@) + u64le(p2.1 as u64)));
            lemma_swa_split(b, pos, seq![1u8], enc_str(sv@) + u64le(p2.1 as u64));
            lemma_swa_split(b, pos + 1, enc_str(sv@), u64le(p2.1 as u64));
            lemma_swa_byte(b, pos, 1);
        },
    }
    match (p1.0, p2.0) {
        (PKType::Int(x), PKType::Int(y)) => {
            assert(b.subrange(pos + 1, pos + 10) == enc_i32(x));
            assert(b.subrange(pos + 1, pos + 10) == enc_i32(y));
            lemma_enc_i32_inj(x, y);
            assert(b.subrange(pos + 10, pos + 18) == u64le(p1.1 as u64));
            assert(b.subrange(pos + 10, pos + 18) == u64le(p2.1 as u64));
            lemma_u64le_inj(p1.1 as u64, p2.1 as u64);
            assert(enc_pk_pair(p1) =~= enc_pk_pair(p2));
        },
        (PKType::Str(x), PKType::Str(y)) => {
            lemma_enc_str_same_pos(b, pos + 1, x@, y@);
            let w = 1 + enc_str(x@).len();
            assert(b.subrange(pos + w, pos + w + 8) == u64le(p1.1 as u64));
            assert(b.subrange(pos + w, pos + w + 8) == u64le(p2.1 as u64));
            lemma_u64le_inj(p1.1 as u64, p2.1 as u64);
            assert(enc_pk_pair(p1) =~= enc_pk_pair(p2));
        },
        _ => {
            assert(false);
        },
    }
}

/// The same key relation carries across equal-keyed pairs.
proof fn lemma_pk_same_trans(a: PKType, m: PKType, c: PKType)
    requires
        crate::table::pk_same(a, m),
        crate::table::pk_same(m, c),
    ensures
        crate::table::pk_same(a, c),
{
}

/// Read one primary-key pair: a key-kind tag, the key, then the row id.
#[verifier::spinoff_prover]
#[verifier::rlimit(100)]
fn rd_pk_pair(b: &Vec<u8>, pos: usize) -> (r: Option<((PKType, usize), usize)>)
    ensures
        match r {
            Some(p) => pos <= p.1 <= b@.len() && b@.subrange(pos as int, p.1 as int)
                == enc_pk_pair(p.0),
            None => forall|q: (PKType, usize)| !#[trigger] swa(b@, pos as int, enc_pk_pair(q)),
        },
{
    let blen = b.len();
    proof {
        assert(b@.len() <= usize::MAX);
        assert forall|q: (PKType, usize)| #[trigger] swa(b@, pos as int, enc_pk_pair(q))
            implies (b@[pos as int] == (match q.0 {
            PKType::Int(_) => 0u8,
            PKType::Str(_) => 1u8,
        }) && (match q.0 {
            PKType::Int(w) => swa(b@, pos + 1, enc_i32(w)) && swa(
                b@,
                pos + 10,
                u64le(q.1 as u64),
            ),
            PKType::Str(sv) => swa(b@, pos + 1, enc_str(sv@)) && swa(
                b@,
                pos + 1 + enc_str(sv@).len(),
                u64le(q.1 as u64),
            ),
        })) by {
            match q.0 {
                PKType::Int(w) => {
                    assert(enc_pk_pair(q) =~= seq![0u8] + (enc_i32(w) + u64le(q.1 as u64)));
                    lemma_swa_split(b@, pos as int, seq![0u8], enc_i32(w) + u64le(q.1 as u64));
                    lemma_swa_split(b@, pos + 1, enc_i32(w), u64le(q.1 as u64));
                    lemma_swa_byte(b@, pos as int, 0);
                },
                PKType::Str(sv) => {
                    assert(enc_pk_pair(q) =~= seq![1u8] + (enc_str(sv@) + u64le(q.1 as u64)));
                    lemma_swa_split(b@, pos as int, seq![1u8], enc_str(sv@) + u64le(
                        q.1 as u64,
                    ));
                    lemma_swa_split(b@, pos + 1, enc_str(sv@), u64le(q.1 as u64));
                    lemma_swa_byte(b@, pos as int, 1);
                },
            }
        }
    }
    let ktag = match rd_u8(b, pos) {
        Some(x) => x,
        None => {
            proof {
                assert forall|q: (PKType, usize)| !#[trigger] swa(
                    b@,
                    pos as int,
                    enc_pk_pair(q),
                ) by {
                    if swa(b@, pos as int, enc_pk_pair(q)) {
                        match q.0 {
                            PKType::Int(_) => (),
                            PKType::Str(_) => (),
                        }
                    }
                }
            }
            return None;
        },
    };
    let mut at = ktag.1;
    let key: PKType = if ktag.0 == 0 {
        let x = match rd_i32(b, at) {
            Some(x) => x,
            None => {
                proof {
                    assert forall|q: (PKType, usize)| !#[trigger] swa(
                        b@,
                        pos as int,
                        enc_pk_pair(q),
                    ) by {
                        if swa(b@, pos as int, enc_pk_pair(q)) {
                            match q.0 {
                                PKType::Int(w) => {
                                    assert(swa(b@, at as int, enc_i32(w)));
                                },
                                PKType::Str(_) => {
                                    assert(b@[pos as int] == 1);
                                },
                            }
                        }
                    }
                }
                return None;
            },
        };
        at = x.1;
        PKType::Int(x.0)
    } else if ktag.0 == 1 {
        let sv = match rd_str(b, at) {
            Some(x) => x,
            None => {
                proof {
                    assert forall|q: (PKType, usize)| !#[trigger] swa(
                        b@,
                        pos as int,
                        enc_pk_pair(q),
                    ) by {
                        if swa(b@, pos as int, enc_pk_pair(q)) {
                            match q.0 {
                                PKType::Str(sv2) => {
                                    assert(swa(b@, at as int, enc_str(sv2@)));
                                },
                                PKType::Int(_) => {
                                    assert(b@[pos as int] == 0);
                                },
                            }
                        }
                    }
                }
                return None;
            },
        };
        at = sv.1;
        PKType::Str(sv.0)
    } else {
        proof {
            assert forall|q: (PKType, usize)| !#[trigger] swa(b@, pos as int, enc_pk_pair(q))
                by {
                if swa(b@, pos as int, enc_pk_pair(q)) {
                    match q.0 {
                        PKType::Int(_) => {
                            assert(b@[pos as int] == 0);
                        },
                        PKType::Str(_) => {
                            assert(b@[pos as int] == 1);
                        },
                    }
                }
            }
        }
        return None;
    };
    let row = match rd_usize(b, at) {
        Some(x) => x,
        None => {
            proof {
                assert forall|q: (PKType, usize)| !#[trigger] swa(
                    b@,
                    pos as int,
                    enc_pk_pair(q),
                ) by {
                    if swa(b@, pos as int, enc_pk_pair(q)) {
                        match q.0 {
                            PKType::Int(w) => {
                                match key {
                                    PKType::Int(kv) => {
                                        assert(b@.subrange((pos + 1) as int, pos + 10)
                                            == enc_i32(kv));
                                        assert(b@.subrange((pos + 1) as int, pos + 10)
                                            == enc_i32(w));
                                        assert(at == pos + 10);
                                        assert(b@.subrange(at as int, at + 8) == u64le(
                                            q.1 as u64,
                                        ));
                                    },
                                    PKType::Str(_) => {
                                        assert(b@[pos as int] == 0);
                                    },
                                }
                            },
                            PKType::Str(sv) => {
                                match key {
                                    PKType::Str(ref kv) => {
                                        assert(swa(b@, (pos + 1) as int, enc_str(kv@))) by {
                                            assert(b@.subrange((pos + 1) as int, at as int)
                                                == enc_str(kv@));
                                        }
                                        lemma_enc_str_same_pos(b@, pos + 1, sv@, kv@);
                                        assert(at == pos + 1 + enc_str(sv@).len());
                                        assert(b@.subrange(at as int, at + 8) == u64le(
                                            q.1 as u64,
                                        ));
                                    },
                                    PKType::Int(_) => {
                                        assert(b@[pos as int] == 1);
                                    },
                                }
                            },
                        }
                    }
                }
            }
            return None;
        },
    };
    let pair = (key, row.0);
    proof {
        match pair.0 {
            PKType::Int(x) => {
                assert(b@.subrange(pos as int, row.1 as int) =~= enc_pk_pair(pair));
            },
            PKType::Str(ref sv) => {
                assert(b@.subrange(pos as int, row.1 as int) =~= enc_pk_pair(pair));
            },
        }
    }
    Some((pair, row.1))
}

/// What a table encoding decomposes into: its name, its column count, and
/// the columns region starting right after.
proof fn lemma_tbl_components(b: Seq<u8>, pos: int, t: TableAbs)
    requires
        swa(b, pos, enc_tbl(t)),
    ensures
        swa(b, pos, enc_str(t.name)),
        swa(b, pos + enc_str(t.name).len(), u64le(t.cols.len() as u64)),
        swa(b, pos + enc_str(t.name).len() + 8, enc_cols(t.cols)),
        swa(
            b,
            pos + enc_str(t.name).len() + 8 + enc_cols(t.cols).len(),
            u64le(t.pk.len() as u64),
        ),
        swa(
            b,
            pos + enc_str(t.name).len() + 16 + enc_cols(t.cols).len(),
            enc_pks(t.pk),
        ),
        enc_tbl(t).len() == enc_str(t.name).len() + 16 + enc_cols(t.cols).len() + enc_pks(
            t.pk,
        ).len(),
{
    let e1 = enc_str(t.name);
    let e2 = u64le(t.cols.len() as u64);
    let e3 = enc_cols(t.cols);
    let e4 = u64le(t.pk.len() as u64);
    let e5 = enc_pks(t.pk);
    lemma_swa_split(b, pos, e1 + e2 + e3 + e4, e5);
    lemma_swa_split(b, pos, e1 + e2 + e3, e4);
    lemma_swa_split(b, pos, e1 + e2, e3);
    lemma_swa_split(b, pos, e1, e2);
}

/// Are all columns of the list well formed with in-range watermarks?
spec fn cols_ok(cs: Seq<ColAbs>) -> bool {
    forall|l: int|
        0 <= l < cs.len() ==> crate::table::col_wf(#[trigger] cs[l]) && rid_le(
            cs[l].header.last_row_id,
            usize::MAX - 1,
        )
}

/// Read `n` columns.
#[verifier::spinoff_prover]
#[verifier::rlimit(100)]
fn rd_tbl_cols(b: &Vec<u8>, pos: usize, n: usize) -> (r: Option<(Vec<Column>, usize)>)
    ensures
        match r {
            Some(p) => pos <= p.1 <= b@.len() && p.0@.len() == n && (forall|l: int|
                0 <= l < p.0@.len() ==> (#[trigger] p.0@[l]).wf() && rid_le(
                    p.0@[l].header.last_row_id,
                    usize::MAX - 1,
                )) && b@.subrange(pos as int, p.1 as int) == enc_cols(
                crate::table::cols_abs(p.0@),
            ),
            None => forall|cs: Seq<ColAbs>|
                (cs.len() == n && cols_ok(cs)) ==> !#[trigger] swa(
                    b@,
                    pos as int,
                    enc_cols(cs),
                ),
        },
{
    let blen = b.len();
    if pos > blen {
        return None;
    }
    let mut cols: Vec<Column> = Vec::new();
    let mut at = pos;
    let mut i: usize = 0;
    while i < n
        invariant
            b@.len() <= usize::MAX,
            0 <= i <= n,
            pos <= at <= b@.len(),
            cols@.len() == i,
            forall|l: int|
                0 <= l < cols@.len() ==> (#[trigger] cols@[l]).wf() && rid_le(
                    cols@[l].header.last_row_id,
                    usize::MAX - 1,
                ),
            b@.subrange(pos as int, at as int) == enc_cols(crate::table::cols_abs(cols@)),
            crate::table::cols_abs(cols@).len() == i,
            forall|cs: Seq<ColAbs>|
                (cs.len() == n && cols_ok(cs) && #[trigger] swa(
                    b@,
                    pos as int,
                    enc_cols(cs),
                )) ==> enc_cols(cs.take(i as int)) == b@.subrange(pos as int, at as int),
        decreases n - i,
    {
        proof {
            crate::table::lemma_cols_abs(cols@);
            assert forall|cs: Seq<ColAbs>|
                (cs.len() == n && cols_ok(cs) && #[trigger] swa(
                    b@,
                    pos as int,
                    enc_cols(cs),
                )) implies (swa(b@, at as int, enc_col(cs[i as int]))
                && crate::table::col_wf(cs[i as int]) && rid_le(
                cs[i as int].header.last_row_id,
                usize::MAX - 1,
            )) by {
                lemma_cols_split(cs, i as int);
                lemma_swa_split(
                    b@,
                    pos as int,
                    enc_cols(cs.take(i as int)),
                    enc_cols(cs.skip(i as int)),
                );
                let sk = cs.skip(i as int);
                lemma_cols_split(sk, 1);
                assert(sk.take(1) =~= seq![cs[i as int]]);
                lemma_cols_single(cs[i as int]);
                lemma_swa_split(b@, at as int, enc_cols(sk.take(1)), enc_cols(sk.skip(1)));
            }
        }
        let c = match rd_col(b, at) {
            Some(c) => c,
            None => {
                proof {
                    assert forall|cs: Seq<ColAbs>| (cs.len() == n && cols_ok(cs))
                        implies !#[trigger] swa(b@, pos as int, enc_cols(cs)) by {
                        if swa(b@, pos as int, enc_cols(cs)) {
                            assert(swa(b@, at as int, enc_col(cs[i as int])));
                        }
                    }
                }
                return None;
            },
        };
        let ghost prev = cols@;
        cols.push(c.0);
        proof {
            crate::table::lemma_cols_abs(prev);
            crate::table::lemma_cols_abs(cols@);
            assert(cols@.drop_last() =~= prev);
            assert forall|l: int| 0 <= l < cols@.len() implies ((#[trigger] cols@[l]).wf()
                && rid_le(cols@[l].header.last_row_id, usize::MAX - 1)) by {
                if l < prev.len() {
                    assert(cols@[l] == prev[l]);
                }
            }
            assert(crate::table::cols_abs(cols@) =~= crate::table::cols_abs(prev).push(
                c.0.abs(),
            )) by {
                assert forall|l: int| 0 <= l < cols@.len() implies #[trigger] crate::table::cols_abs(
                    cols@,
                )[l] == crate::table::cols_abs(prev).push(c.0.abs())[l] by {
                    if l < prev.len() {
                        assert(cols@[l] == prev[l]);
                        assert(crate::table::cols_abs(cols@)[l] == cols@[l].abs());
                        assert(crate::table::cols_abs(prev)[l] == prev[l].abs());
                    } else {
                        assert(crate::table::cols_abs(cols@)[l] == cols@[l].abs());
                    }
                }
            }
            assert(enc_cols(crate::table::cols_abs(cols@)) == enc_cols(
                crate::table::cols_abs(prev),
            ) + enc_col(c.0.abs())) by {
                assert(crate::table::cols_abs(cols@).drop_last() =~= crate::table::cols_abs(
                    prev,
                ));
                assert(crate::table::cols_abs(cols@).last() == c.0.abs());
            }
            assert(b@.subrange(pos as int, c.1 as int) =~= enc_cols(
                crate::table::cols_abs(cols@),
            ));
            assert forall|cs: Seq<ColAbs>|
                (cs.len() == n && cols_ok(cs) && #[trigger] swa(
                    b@,
                    pos as int,
                    enc_cols(cs),
                )) implies enc_cols(cs.take(i + 1)) == b@.subrange(pos as int, c.1 as int) by {
                assert(swa(b@, at as int, enc_col(cs[i as int])));
                assert(swa(b@, at as int, enc_col(c.0.abs()))) by {
                    assert(b@.subrange(at as int, c.1 as int) == enc_col(c.0.abs()));
                }
                lemma_enc_col_same_pos(b@, at as int, cs[i as int], c.0.abs());
                assert(cs.take(i + 1).drop_last() =~= cs.take(i as int));
                assert(cs.take(i + 1).last() == cs[i as int]);
                assert(enc_cols(cs.take(i + 1)) == enc_cols(cs.take(i as int)) + enc_col(
                    cs[i as int],
                ));
                assert(enc_cols(cs.take(i + 1)) =~= b@.subrange(pos as int, c.1 as int));
            }
        }
        at = c.1;
        i += 1;
    }
    Some((cols, at))
}

/// Read a table's name and columns, carrying what any well-formed table
/// encoded here must agree on.
#[verifier::spinoff_prover]
#[verifier::rlimit(100)]
fn rd_tbl_head(b: &Vec<u8>, pos: usize) -> (r: Option<((String, Vec<Column>), usize)>)
    ensures
        match r {
            Some(p) => pos <= p.1 <= b@.len() && (forall|l: int|
                0 <= l < p.0.1@.len() ==> (#[trigger] p.0.1@[l]).wf() && rid_le(
                    p.0.1@[l].header.last_row_id,
                    usize::MAX - 1,
                )) && b@.subrange(pos as int, p.1 as int) == enc_str(p.0.0@) + u64le(
                p.0.1@.len() as u64,
            ) + enc_cols(crate::table::cols_abs(p.0.1@)) && (forall|t: TableAbs|
                (crate::table::tbl_wf(t) && #[trigger] swa(b@, pos as int, enc_tbl(t))) ==> (
                t.name == p.0.0@ && t.cols.len() == p.0.1@.len() && (forall|l: int|
                    0 <= l < t.cols.len() ==> (#[trigger] t.cols[l]).header.is_pk
                        == crate::table::cols_abs(p.0.1@)[l].header.is_pk) && swa(
                    b@,
                    p.1 as int,
                    u64le(t.pk.len() as u64),
                ) && t.pk.len() <= b@.len() && swa(b@, p.1 + 8, enc_pks(t.pk)))),
            None => forall|t: TableAbs| crate::table::tbl_wf(t) ==> !#[trigger] swa(
                b@,
                pos as int,
                enc_tbl(t),
            ),
        },
{
    let blen = b.len();
    proof {
        assert(b@.len() <= usize::MAX);
    }
    let name = match rd_str(b, pos) {
        Some(nm) => nm,
        None => {
            proof {
                assert forall|t: TableAbs| crate::table::tbl_wf(t) implies !#[trigger] swa(
                    b@,
                    pos as int,
                    enc_tbl(t),
                ) by {
                    if swa(b@, pos as int, enc_tbl(t)) {
                        lemma_tbl_components(b@, pos as int, t);
                    }
                }
            }
            return None;
        },
    };
    proof {
        assert forall|t: TableAbs|
            (crate::table::tbl_wf(t) && #[trigger] swa(b@, pos as int, enc_tbl(t))) implies (
        t.name == name.0@ && pos + enc_str(t.name).len() == name.1 && swa(
            b@,
            name.1 as int,
            u64le(t.cols.len() as u64),
        ) && t.cols.len() <= b@.len()) by {
            lemma_tbl_components(b@, pos as int, t);
            assert(swa(b@, pos as int, enc_str(name.0@)));
            lemma_enc_str_same_pos(b@, pos as int, t.name, name.0@);
            lemma_cols_len(t.cols);
        }
    }
    let ncols = match rd_usize(b, name.1) {
        Some(x) => x,
        None => {
            proof {
                assert forall|t: TableAbs| crate::table::tbl_wf(t) implies !#[trigger] swa(
                    b@,
                    pos as int,
                    enc_tbl(t),
                ) by {
                    if swa(b@, pos as int, enc_tbl(t)) {
                        let x = t.cols.len() as usize;
                        assert(x as u64 == t.cols.len() as u64);
                        assert(b@.subrange(name.1 as int, name.1 + 8) == u64le(x as u64));
                    }
                }
            }
            return None;
        },
    };
    let n = ncols.0;
    proof {
        assert forall|t: TableAbs|
            (crate::table::tbl_wf(t) && #[trigger] swa(b@, pos as int, enc_tbl(t)))
            implies (t.cols.len() == n && swa(b@, ncols.1 as int, enc_cols(t.cols)) && cols_ok(
            t.cols,
        )) by {
            lemma_tbl_components(b@, pos as int, t);
            let x = t.cols.len() as usize;
            assert(x as u64 == t.cols.len() as u64);
            assert(b@.subrange(name.1 as int, name.1 + 8) == u64le(x as u64));
            lemma_u64le_inj(n as u64, x as u64);
            assert(crate::table::cols_wf(t.cols));
            assert(crate::table::wm_ok(t.cols));
            crate::table::lemma_each_le_last_rid(t.cols, crate::table::next_rid(t.cols) - 1);
            assert forall|l: int| 0 <= l < t.cols.len() implies (crate::table::col_wf(
                #[trigger] t.cols[l],
            ) && rid_le(t.cols[l].header.last_row_id, usize::MAX - 1)) by {}
        }
    }
    let cs0 = ncols.1;
    let got_cols = match rd_tbl_cols(b, cs0, n) {
        Some(x) => x,
        None => {
            proof {
                assert forall|t: TableAbs| crate::table::tbl_wf(t) implies !#[trigger] swa(
                    b@,
                    pos as int,
                    enc_tbl(t),
                ) by {
                    if swa(b@, pos as int, enc_tbl(t)) {
                        assert(swa(b@, cs0 as int, enc_cols(t.cols)));
                    }
                }
            }
            return None;
        },
    };
    let cols = got_cols.0;
    let at = got_cols.1;
    proof {
        assert forall|t: TableAbs|
            (crate::table::tbl_wf(t) && #[trigger] swa(b@, pos as int, enc_tbl(t))) implies (
        enc_cols(t.cols) == enc_cols(crate::table::cols_abs(cols@)) && (forall|l: int|
            0 <= l < t.cols.len() ==> (#[trigger] t.cols[l]).header.is_pk
                == crate::table::cols_abs(cols@)[l].header.is_pk) && swa(
            b@,
            at as int,
            u64le(t.pk.len() as u64),
        ) && t.pk.len() <= b@.len() && swa(b@, at + 8, enc_pks(t.pk))) by {
            lemma_tbl_components(b@, pos as int, t);
            assert(swa(b@, cs0 as int, enc_cols(crate::table::cols_abs(cols@)))) by {
                assert(b@.subrange(cs0 as int, at as int) == enc_cols(
                    crate::table::cols_abs(cols@),
                ));
            }
            crate::table::lemma_cols_abs(cols@);
            assert(crate::table::cols_abs(cols@).len() == n);
            lemma_enc_cols_same_pos(
                b@,
                cs0 as int,
                t.cols,
                crate::table::cols_abs(cols@),
            );
            assert(enc_cols(t.cols).len() == at - cs0);
            lemma_pks_len(t.pk);
        }
    }
    proof {
        assert(b@.subrange(pos as int, at as int) =~= enc_str(name.0@) + u64le(
            cols@.len() as u64,
        ) + enc_cols(crate::table::cols_abs(cols@)));
    }
    Some(((name.0, cols), at))
}

/// Read one table: name, columns, then the primary-key index, refusing a
/// table with no primary-key column or a non-bijective index.
#[verifier::spinoff_prover]
#[verifier::rlimit(100)]
fn rd_tbl(b: &Vec<u8>, pos: usize) -> (r: Option<(Table, usize)>)
    ensures
        match r {
            Some(p) => p.0.wf() && pos <= p.1 <= b@.len() && b@.subrange(
                pos as int,
                p.1 as int,
            ) == enc_tbl(p.0.abs()),
            None => forall|t: TableAbs| crate::table::tbl_wf(t) ==> !#[trigger] swa(
                b@,
                pos as int,
                enc_tbl(t),
            ),
        },
{
    let blen = b.len();
    proof {
        assert(b@.len() <= usize::MAX);
    }
    let head = match rd_tbl_head(b, pos) {
        Some(h) => h,
        None => {
            return None;
        },
    };
    let nm = head.0.0;
    let cols = head.0.1;
    let at = head.1;
    let mut has_pk = false;
    let nn = cols.len();
    let mut ci: usize = 0;
    while ci < nn
        invariant
            nn == cols@.len(),
            0 <= ci <= nn,
            has_pk == exists|l: int| 0 <= l < ci && (#[trigger] cols@[l]).header.is_pk,
        decreases nn - ci,
    {
        if cols[ci].header.is_pk {
            has_pk = true;
            proof {
                assert(cols@[ci as int].header.is_pk);
            }
        }
        ci += 1;
    }
    if !has_pk {
        proof {
            assert forall|t: TableAbs| crate::table::tbl_wf(t) implies !#[trigger] swa(
                b@,
                pos as int,
                enc_tbl(t),
            ) by {
                if swa(b@, pos as int, enc_tbl(t)) {
                    let w = choose|w: int| 0 <= w < t.cols.len() && (#[trigger] t.cols[w]).header.is_pk;
                    crate::table::lemma_cols_abs(cols@);
                    assert(crate::table::cols_abs(cols@)[w].header.is_pk);
                    assert(cols@[w].header.is_pk);
                }
            }
        }
        return None;
    }
    let npk = match rd_usize(b, at) {
        Some(x) => x,
        None => {
            proof {
                assert forall|t: TableAbs| crate::table::tbl_wf(t) implies !#[trigger] swa(
                    b@,
                    pos as int,
                    enc_tbl(t),
                ) by {
                    if swa(b@, pos as int, enc_tbl(t)) {
                        let x = t.pk.len() as usize;
                        assert(x as u64 == t.pk.len() as u64);
                        assert(b@.subrange(at as int, at + 8) == u64le(x as u64));
                    }
                }
            }
            return None;
        },
    };
    let m = npk.0;
    proof {
        assert forall|t: TableAbs|
            (crate::table::tbl_wf(t) && #[trigger] swa(b@, pos as int, enc_tbl(t)))
            implies (t.pk.len() == m && swa(b@, npk.1 as int, enc_pks(t.pk))) by {
            let x = t.pk.len() as usize;
            assert(x as u64 == t.pk.len() as u64);
            assert(b@.subrange(at as int, at + 8) == u64le(x as u64));
            lemma_u64le_inj(m as u64, x as u64);
        }
    }
    let ps0 = npk.1;
    let got_pks = match rd_tbl_pks(b, ps0, m) {
        Some(x) => x,
        None => {
            proof {
                assert forall|t: TableAbs| crate::table::tbl_wf(t) implies !#[trigger] swa(
                    b@,
                    pos as int,
                    enc_tbl(t),
                ) by {
                    if swa(b@, pos as int, enc_tbl(t)) {
                        assert(swa(b@, ps0 as int, enc_pks(t.pk)));
                    }
                }
            }
            return None;
        },
    };
    let pairs = got_pks.0;
    let pat = got_pks.1;
    proof {
        assert forall|t: TableAbs|
            (crate::table::tbl_wf(t) && #[trigger] swa(b@, pos as int, enc_tbl(t))) implies (
        enc_pks(t.pk) == enc_pks(pairs@) && (forall|l: int|
            0 <= l < t.pk.len() ==> crate::table::pk_same(
                (#[trigger] t.pk[l]).0,
                pairs@[l].0,
            ) && t.pk[l].1 == pairs@[l].1)) by {
            assert(swa(b@, ps0 as int, enc_pks(pairs@))) by {
                assert(b@.subrange(ps0 as int, pat as int) == enc_pks(pairs@));
            }
            lemma_enc_pks_same_pos(b@, ps0 as int, t.pk, pairs@);
        }
    }
    if !pk_pairs_wf(&pairs) {
        proof {
            assert forall|t: TableAbs| crate::table::tbl_wf(t) implies !#[trigger] swa(
                b@,
                pos as int,
                enc_tbl(t),
            ) by {
                if swa(b@, pos as int, enc_tbl(t)) {
                    assert(crate::table::pk_index_wf(t.pk));
                    assert forall|x: int, y: int| 0 <= x < y < pairs@.len()
                        implies !crate::table::pk_same(
                        (#[trigger] pairs@[x]).0,
                        (#[trigger] pairs@[y]).0,
                    ) && pairs@[x].1 != pairs@[y].1 by {
                        assert(crate::table::pk_same(t.pk[x].0, pairs@[x].0));
                        assert(crate::table::pk_same(t.pk[y].0, pairs@[y].0));
                        assert(!crate::table::pk_same(t.pk[x].0, t.pk[y].0));
                        if crate::table::pk_same(pairs@[x].0, pairs@[y].0) {
                            lemma_pk_same_trans(t.pk[x].0, pairs@[x].0, pairs@[y].0);
                            lemma_pk_same_sym(t.pk[y].0, pairs@[y].0);
                            lemma_pk_same_trans(t.pk[x].0, pairs@[y].0, t.pk[y].0);
                        }
                    }
                    assert(crate::table::pk_index_wf(pairs@));
                }
            }
        }
        return None;
    }
    let pk_map = PkIndex::from_pairs(pairs);
    let t = Table { name: nm, columns: cols, pk_map };
    proof {
        crate::table::lemma_cols_abs(t.columns@);
        let tc = t.abs().cols;
        assert forall|l: int| 0 <= l < tc.len() implies crate::table::col_wf(#[trigger] tc[l]) by {
            assert(tc[l] == t.columns@[l].abs());
        }
        let w = choose|w: int| 0 <= w < t.columns@.len() && (#[trigger] t.columns@[w]).header.is_pk;
        assert(tc[w] == t.columns@[w].abs());
        assert(tc[w].header.is_pk);
        assert forall|l: int| 0 <= l < tc.len() implies rid_le(
            (#[trigger] tc[l]).header.last_row_id,
            usize::MAX - 1,
        ) by {
            assert(tc[l] == t.columns@[l].abs());
        }
        crate::table::lemma_last_rid_le(tc, usize::MAX - 1);
        assert(b@.subrange(pos as int, pat as int) =~= enc_tbl(t.abs()));
    }
    Some((t, pat))
}

/// Read `m` primary-key pairs.
#[verifier::spinoff_prover]
#[verifier::rlimit(100)]
fn rd_tbl_pks(b: &Vec<u8>, pos: usize, m: usize) -> (r: Option<(Vec<(PKType, usize)>, usize)>)
    ensures
        match r {
            Some(p) => pos <= p.1 <= b@.len() && p.0@.len() == m && b@.subrange(
                pos as int,
                p.1 as int,
            ) == enc_pks(p.0@),
            None => forall|ps: Seq<(PKType, usize)>|
                ps.len() == m ==> !#[trigger] swa(b@, pos as int, enc_pks(ps)),
        },
{
    let blen = b.len();
    if pos > blen {
        return None;
    }
    let mut pairs: Vec<(PKType, usize)> = Vec::new();
    let mut at = pos;
    let mut j: usize = 0;
    while j < m
        invariant
            b@.len() <= usize::MAX,
            0 <= j <= m,
            pos <= at <= b@.len(),
            pairs@.len() == j,
            b@.subrange(pos as int, at as int) == enc_pks(pairs@),
            forall|ps: Seq<(PKType, usize)>|
                (ps.len() == m && #[trigger] swa(b@, pos as int, enc_pks(ps))) ==> enc_pks(
                    ps.take(j as int),
                ) == b@.subrange(pos as int, at as int),
        decreases m - j,
    {
        proof {
            assert forall|ps: Seq<(PKType, usize)>|
                (ps.len() == m && #[trigger] swa(b@, pos as int, enc_pks(ps))) implies swa(
                b@,
                at as int,
                enc_pk_pair(ps[j as int]),
            ) by {
                lemma_pks_split(ps, j as int);
                lemma_swa_split(
                    b@,
                    pos as int,
                    enc_pks(ps.take(j as int)),
                    enc_pks(ps.skip(j as int)),
                );
                let sk = ps.skip(j as int);
                lemma_pks_split(sk, 1);
                assert(sk.take(1) =~= seq![ps[j as int]]);
                lemma_pks_single(ps[j as int]);
                lemma_swa_split(b@, at as int, enc_pks(sk.take(1)), enc_pks(sk.skip(1)));
            }
        }
        let got = match rd_pk_pair(b, at) {
            Some(x) => x,
            None => {
                proof {
                    assert forall|ps: Seq<(PKType, usize)>| ps.len() == m
                        implies !#[trigger] swa(b@, pos as int, enc_pks(ps)) by {
                        if swa(b@, pos as int, enc_pks(ps)) {
                            assert(swa(b@, at as int, enc_pk_pair(ps[j as int])));
                        }
                    }
                }
                return None;
            },
        };
        let ghost prevp = pairs@;
        pairs.push(got.0);
        proof {
            assert(pairs@.drop_last() =~= prevp);
            assert(b@.subrange(pos as int, got.1 as int) =~= enc_pks(prevp) + enc_pk_pair(
                got.0,
            )) by {
                assert(b@.subrange(pos as int, at as int) == enc_pks(prevp));
                assert(b@.subrange(at as int, got.1 as int) == enc_pk_pair(got.0));
            }
            assert(enc_pks(pairs@) == enc_pks(prevp) + enc_pk_pair(pairs@.last()));
            assert forall|ps: Seq<(PKType, usize)>|
                (ps.len() == m && #[trigger] swa(b@, pos as int, enc_pks(ps)))
                implies enc_pks(ps.take(j + 1)) == b@.subrange(pos as int, got.1 as int) by {
                assert(swa(b@, at as int, enc_pk_pair(ps[j as int])));
                assert(swa(b@, at as int, enc_pk_pair(got.0))) by {
                    assert(b@.subrange(at as int, got.1 as int) == enc_pk_pair(got.0));
                }
                lemma_enc_pk_pair_same_pos(b@, at as int, ps[j as int], got.0);
                assert(ps.take(j + 1).drop_last() =~= ps.take(j as int));
                assert(ps.take(j + 1).last() == ps[j as int]);
                assert(enc_pks(ps.take(j + 1)) == enc_pks(ps.take(j as int)) + enc_pk_pair(
                    ps[j as int],
                ));
                assert(enc_pks(ps.take(j + 1)) =~= b@.subrange(pos as int, got.1 as int));
            }
        }
        at = got.1;
        j += 1;
    }
    Some((pairs, at))
}

/// Symmetry of the same-key relation.
proof fn lemma_pk_same_sym(a: PKType, c: PKType)
    requires
        crate::table::pk_same(a, c),
    ensures
        crate::table::pk_same(c, a),
{
}

/// Are all tables of the set well formed?
pub open spec fn tbls_wf(ts: Seq<TableAbs>) -> bool {
    forall|i: int| 0 <= i < ts.len() ==> crate::table::tbl_wf(#[trigger] ts[i])
}

/// Table list encodings hold at least one byte per table.
proof fn lemma_tbls_len(ts: Seq<TableAbs>)
    ensures
        enc_tbls(ts).len() >= ts.len(),
    decreases ts.len(),
{
    if ts.len() > 0 {
        lemma_tbls_len(ts.drop_last());
        assert(enc_str(ts.last().name).len() >= 8);
    }
}

/// Table list encodings concatenate over any split.
#[verifier::spinoff_prover]
#[verifier::rlimit(100)]
proof fn lemma_tbls_split(ts: Seq<TableAbs>, m: int)
    requires
        0 <= m <= ts.len(),
    ensures
        enc_tbls(ts) == enc_tbls(ts.take(m)) + enc_tbls(ts.skip(m)),
    decreases ts.len(),
{
    if ts.len() == m {
        assert(ts.take(m) =~= ts);
        assert(ts.skip(m) =~= Seq::<TableAbs>::empty());
        assert(enc_tbls(ts) =~= enc_tbls(ts.take(m)) + enc_tbls(ts.skip(m)));
    } else {
        lemma_tbls_split(ts.drop_last(), m);
        assert(ts.drop_last().take(m) =~= ts.take(m));
        assert(ts.skip(m).drop_last() =~= ts.drop_last().skip(m));
        assert(ts.skip(m).last() == ts.last());
        assert(enc_tbls(ts) =~= enc_tbls(ts.take(m)) + enc_tbls(ts.skip(m)));
    }
}

proof fn lemma_tbls_single(t: TableAbs)
    ensures
        enc_tbls(seq![t]) == enc_tbl(t),
{
    assert(seq![t].drop_last() =~= Seq::<TableAbs>::empty());
    assert(enc_tbls(Seq::<TableAbs>::empty()) =~= Seq::<u8>::empty());
    assert(enc_tbls(seq![t]) =~= enc_tbl(t));
}

/// Decode an uncompressed snapshot back into a database. Only a snapshot
/// that rebuilds a well-formed database is accepted; what is accepted
/// re-encodes to exactly the input, and every snapshot the encoder makes
/// of well-formed tables is accepted.
#[verifier::spinoff_prover]
#[verifier::rlimit(100)]
pub fn decode_snapshot(b: &Vec<u8>) -> (r: Result<Database, Error>)
    ensures
        match r {
            Ok(db) => db.wf() && db.outbox_abs() == Seq::<crate::database::NoteAbs>::empty()
                && snapshot_bytes(db.tables_abs()) == b@,
            Err(_) => forall|ts: Seq<TableAbs>| tbls_wf(ts) ==> b@ != #[trigger] snapshot_bytes(
                ts,
            ),
        },
{
    let blen = b.len();
    proof {
        assert(b@.len() <= usize::MAX);
        assert forall|ts: Seq<TableAbs>|
            (tbls_wf(ts) && b@ == #[trigger] snapshot_bytes(ts)) implies (swa(
            b@,
            0,
            u64le(ts.len() as u64),
        ) && swa(b@, 8, enc_tbls(ts)) && ts.len() <= b@.len()) by {
            assert(b@.subrange(0, b@.len() as int) =~= b@);
            assert(swa(b@, 0, snapshot_bytes(ts)));
            lemma_swa_split(b@, 0, u64le(ts.len() as u64), enc_tbls(ts));
            lemma_tbls_len(ts);
        }
    }
    let count = match rd_usize(b, 0) {
        Some(c) => c,
        None => {
            proof {
                assert forall|ts: Seq<TableAbs>| tbls_wf(ts) implies b@ != #[trigger] snapshot_bytes(
                    ts,
                ) by {
                    if b@ == snapshot_bytes(ts) {
                        let x = ts.len() as usize;
                        assert(x as u64 == ts.len() as u64);
                        assert(b@.subrange(0, 8) == u64le(x as u64));
                    }
                }
            }
            return Err(Error::DeserializingError("snapshot header truncated".to_owned()));
        },
    };
    let n = count.0;
    proof {
        assert forall|ts: Seq<TableAbs>|
            (tbls_wf(ts) && b@ == #[trigger] snapshot_bytes(ts)) implies ts.len() == n by {
            let x = ts.len() as usize;
            assert(x as u64 == ts.len() as u64);
            assert(b@.subrange(0, 8) == u64le(x as u64));
            lemma_u64le_inj(n as u64, x as u64);
        }
    }
    let mut tables: Vec<Table> = Vec::new();
    let mut at = count.1;
    let mut i: usize = 0;
    while i < n
        invariant
            b@.len() <= usize::MAX,
            0 <= i <= n,
            8 <= at <= b@.len(),
            tables@.len() == i,
            forall|l: int| 0 <= l < tables@.len() ==> (#[trigger] tables@[l]).wf(),
            b@.subrange(8, at as int) == enc_tbls(tbls_abs(tables@)),
            tbls_abs(tables@).len() == i,
            forall|ts: Seq<TableAbs>|
                (tbls_wf(ts) && b@ == #[trigger] snapshot_bytes(ts)) ==> (ts.len() == n && swa(
                    b@,
                    8,
                    enc_tbls(ts),
                ) && enc_tbls(ts.take(i as int)) == b@.subrange(8, at as int)),
        decreases n - i,
    {
        proof {
            assert forall|ts: Seq<TableAbs>|
                (tbls_wf(ts) && b@ == #[trigger] snapshot_bytes(ts)) implies (swa(
                b@,
                at as int,
                enc_tbl(ts[i as int]),
            ) && crate::table::tbl_wf(ts[i as int])) by {
                lemma_tbls_split(ts, i as int);
                lemma_swa_split(b@, 8, enc_tbls(ts.take(i as int)), enc_tbls(ts.skip(i as int)));
                let sk = ts.skip(i as int);
                lemma_tbls_split(sk, 1);
                assert(sk.take(1) =~= seq![ts[i as int]]);
                lemma_tbls_single(ts[i as int]);
                lemma_swa_split(b@, at as int, enc_tbls(sk.take(1)), enc_tbls(sk.skip(1)));
            }
        }
        let t = match rd_tbl(b, at) {
            Some(t) => t,
            None => {
                proof {
                    assert forall|ts: Seq<TableAbs>| tbls_wf(ts)
                        implies b@ != #[trigger] snapshot_bytes(ts) by {
                        if b@ == snapshot_bytes(ts) {
                            assert(swa(b@, at as int, enc_tbl(ts[i as int])));
                        }
                    }
                }
                return Err(Error::DeserializingError("snapshot table malformed".to_owned()));
            },
        };
        let ghost prev = tables@;
        tables.push(t.0);
        proof {
            crate::database::lemma_tbls_abs(prev);
            crate::database::lemma_tbls_abs(tables@);
            assert(tables@.drop_last() =~= prev);
            assert forall|l: int| 0 <= l < tables@.len() implies (#[trigger] tables@[l]).wf() by {
                if l < prev.len() {
                    assert(tables@[l] == prev[l]);
                }
            }
            assert(tbls_abs(tables@) =~= tbls_abs(prev).push(t.0.abs())) by {
                assert forall|l: int| 0 <= l < tables@.len() implies #[trigger] tbls_abs(
                    tables@,
                )[l] == tbls_abs(prev).push(t.0.abs())[l] by {
                    if l < prev.len() {
                        assert(tables@[l] == prev[l]);
                        assert(tbls_abs(tables@)[l] == tables@[l].abs());
                        assert(tbls_abs(prev)[l] == prev[l].abs());
                    } else {
                        assert(tbls_abs(tables@)[l] == tables@[l].abs());
                    }
                }
            }
            assert(enc_tbls(tbls_abs(tables@)) == enc_tbls(tbls_abs(prev)) + enc_tbl(
                t.0.abs(),
            )) by {
                assert(tbls_abs(tables@).drop_last() =~= tbls_abs(prev));
                assert(tbls_abs(tables@).last() == t.0.abs());
            }
            assert(b@.subrange(8, t.1 as int) =~= enc_tbls(tbls_abs(tables@)));
            assert forall|ts: Seq<TableAbs>|
                (tbls_wf(ts) && b@ == #[trigger] snapshot_bytes(ts)) implies enc_tbls(
                ts.take(i + 1),
            ) == b@.subrange(8, t.1 as int) by {
                assert(swa(b@, at as int, enc_tbl(ts[i as int])));
                assert(swa(b@, at as int, enc_tbl(t.0.abs()))) by {
                    assert(b@.subrange(at as int, t.1 as int) == enc_tbl(t.0.abs()));
                }
                lemma_enc_tbl_same_pos(b@, at as int, ts[i as int], t.0.abs());
                assert(ts.take(i + 1).drop_last() =~= ts.take(i as int));
                assert(ts.take(i + 1).last() == ts[i as int]);
                assert(enc_tbls(ts.take(i + 1)) == enc_tbls(ts.take(i as int)) + enc_tbl(
                    ts[i as int],
                ));
                assert(enc_tbls(ts.take(i + 1)) =~= b@.subrange(8, t.1 as int));
            }
        }
        at = t.1;
        i += 1;
    }
    if at != blen {
        proof {
            assert forall|ts: Seq<TableAbs>| tbls_wf(ts) implies b@ != #[trigger] snapshot_bytes(
                ts,
            ) by {
                if b@ == snapshot_bytes(ts) {
                    assert(ts.take(n as int) =~= ts);
                    assert(enc_tbls(ts).len() == at - 8);
                    assert(snapshot_bytes(ts).len() == 8 + enc_tbls(ts).len());
                }
            }
        }
        return Err(Error::DeserializingError("snapshot has trailing bytes".to_owned()));
    }
    let db = Database::from_tables(tables);
    proof {
        assert(snapshot_bytes(db.tables_abs()) =~= b@);
    }
    Ok(db)
}

/// Two table encodings at the same place are the same bytes.
#[verifier::spinoff_prover]
#[verifier::rlimit(100)]
proof fn lemma_enc_tbl_same_pos(b: Seq<u8>, pos: int, t1: TableAbs, t2: TableAbs)
    requires
        swa(b, pos, enc_tbl(t1)),
        swa(b, pos, enc_tbl(t2)),
        b.len() <= usize::MAX,
    ensures
        enc_tbl(t1) == enc_tbl(t2),
    decreases 1int,
{
    lemma_tbl_components(b, pos, t1);
    lemma_tbl_components(b, pos, t2);
    lemma_enc_str_same_pos(b, pos, t1.name, t2.name);
    let q = pos + enc_str(t1.name).len();
    assert(b.subrange(q, q + 8) == u64le(t1.cols.len() as u64));
    assert(b.subrange(q, q + 8) == u64le(t2.cols.len() as u64));
    lemma_cols_len(t1.cols);
    lemma_cols_len(t2.cols);
    let x1 = t1.cols.len() as usize;
    let x2 = t2.cols.len() as usize;
    assert(x1 as u64 == t1.cols.len() as u64);
    assert(x2 as u64 == t2.cols.len() as u64);
    lemma_u64le_inj(x1 as u64, x2 as u64);
    assert(t1.cols.len() == t2.cols.len());
    lemma_enc_cols_same_pos(b, q + 8, t1.cols, t2.cols);
    let q2 = q + 8 + enc_cols(t1.cols).len();
    assert(b.subrange(q2, q2 + 8) == u64le(t1.pk.len() as u64));
    assert(b.subrange(q2, q2 + 8) == u64le(t2.pk.len() as u64));
    lemma_pks_len(t1.pk);
    lemma_pks_len(t2.pk);
    let y1 = t1.pk.len() as usize;
    let y2 = t2.pk.len() as usize;
    assert(y1 as u64 == t1.pk.len() as u64);
    assert(y2 as u64 == t2.pk.len() as u64);
    lemma_u64le_inj(y1 as u64, y2 as u64);
    assert(t1.pk.len() == t2.pk.len());
    lemma_enc_pks_same_pos(b, q2 + 8, t1.pk, t2.pk);
    assert(enc_tbl(t1) =~= enc_tbl(t2));
}

/// Two column-list encodings of the same count at the same place are the
/// same bytes.
#[verifier::spinoff_prover]
#[verifier::rlimit(100)]
proof fn lemma_enc_cols_same_pos(b: Seq<u8>, pos: int, cs1: Seq<ColAbs>, cs2: Seq<ColAbs>)
    requires
        cs1.len() == cs2.len(),
        swa(b, pos, enc_cols(cs1)),
        swa(b, pos, enc_cols(cs2)),
        b.len() <= usize::MAX,
    ensures
        enc_cols(cs1) == enc_cols(cs2),
        forall|l: int|
            0 <= l < cs1.len() ==> (#[trigger] cs1[l]).header.is_pk == cs2[l].header.is_pk,
    decreases cs1.len(),
{
    if cs1.len() > 0 {
        lemma_cols_split(cs1, 1);
        lemma_cols_split(cs2, 1);
        assert(cs1.take(1) =~= seq![cs1[0]]);
        assert(cs2.take(1) =~= seq![cs2[0]]);
        lemma_cols_single(cs1[0]);
        lemma_cols_single(cs2[0]);
        lemma_swa_split(b, pos, enc_cols(cs1.take(1)), enc_cols(cs1.skip(1)));
        lemma_swa_split(b, pos, enc_cols(cs2.take(1)), enc_cols(cs2.skip(1)));
        lemma_enc_col_same_pos(b, pos, cs1[0], cs2[0]);
        lemma_enc_cols_same_pos(
            b,
            pos + enc_col(cs1[0]).len(),
            cs1.skip(1),
            cs2.skip(1),
        );
        assert(enc_cols(cs1) =~= enc_cols(cs2));
        assert forall|l: int| 0 <= l < cs1.len() implies (#[trigger] cs1[l]).header.is_pk
            == cs2[l].header.is_pk by {
            if l > 0 {
                assert(cs1.skip(1)[l - 1] == cs1[l]);
                assert(cs2.skip(1)[l - 1] == cs2[l]);
            }
        }
    }
}

/// Two pair-list encodings of the same count at the same place are the
/// same bytes.
#[verifier::spinoff_prover]
#[verifier::rlimit(100)]
proof fn lemma_enc_pks_same_pos(
    b: Seq<u8>,
    pos: int,
    ps1: Seq<(PKType, usize)>,
    ps2: Seq<(PKType, usize)>,
)
    requires
        ps1.len() == ps2.len(),
        swa(b, pos, enc_pks(ps1)),
        swa(b, pos, enc_pks(ps2)),
        b.len() <= usize::MAX,
    ensures
        enc_pks(ps1) == enc_pks(ps2),
        forall|l: int|
            0 <= l < ps1.len() ==> crate::table::pk_same(
                (#[trigger] ps1[l]).0,
                ps2[l].0,
            ) && ps1[l].1 == ps2[l].1,
    decreases ps1.len(),
{
    if ps1.len() > 0 {
        lemma_pks_split(ps1, 1);
        lemma_pks_split(ps2, 1);
        assert(ps1.take(1) =~= seq![ps1[0]]);
        assert(ps2.take(1) =~= seq![ps2[0]]);
        lemma_pks_single(ps1[0]);
        lemma_pks_single(ps2[0]);
        lemma_swa_split(b, pos, enc_pks(ps1.take(1)), enc_pks(ps1.skip(1)));
        lemma_swa_split(b, pos, enc_pks(ps2.take(1)), enc_pks(ps2.skip(1)));
        lemma_enc_pk_pair_same_pos(b, pos, ps1[0], ps2[0]);
        lemma_enc_pks_same_pos(
            b,
            pos + enc_pk_pair(ps1[0]).len(),
            ps1.skip(1),
            ps2.skip(1),
        );
        assert(enc_pks(ps1) =~= enc_pks(ps2));
        assert forall|l: int| 0 <= l < ps1.len() implies (crate::table::pk_same(
            (#[trigger] ps1[l]).0,
            ps2[l].0,
        ) && ps1[l].1 == ps2[l].1) by {
            if l > 0 {
                assert(ps1.skip(1)[l - 1] == ps1[l]);
                assert(ps2.skip(1)[l - 1] == ps2[l]);
            }
        }
    }
}

/// Restore a database from a compressed snapshot, as the restore meta
/// command reads it from disk. What is accepted re-encodes to the frame's
/// exact content, and every frame the persist side writes is accepted.
pub fn restore_bytes(b: &Vec<u8>) -> (r: Result<Database, Error>)
    ensures
        match r {
            Ok(db) => db.wf() && db.outbox_abs() == Seq::<crate::database::NoteAbs>::empty()
                && (forall|d: Seq<u8>|
                    b@ == zstd_frame(d) ==> snapshot_bytes(db.tables_abs()) == d),
            Err(_) => forall|ts: Seq<TableAbs>|
                tbls_wf(ts) ==> b@ != zstd_frame(#[trigger] snapshot_bytes(ts)),
        },
{
    let plain = match zstd_decompress(b) {
        Ok(v) => v,
        Err(e) => {
            return Err(e);
        },
    };
    match decode_snapshot(&plain) {
        Ok(db) => Ok(db),
        Err(e) => {
            proof {
                assert forall|ts: Seq<TableAbs>| tbls_wf(ts) implies b@ != zstd_frame(
                    #[trigger] snapshot_bytes(ts),
                ) by {
                    if b@ == zstd_frame(snapshot_bytes(ts)) {
                        assert(plain@ == snapshot_bytes(ts));
                    }
                }
            }
            Err(e)
        },
    }
}

} // verus!
