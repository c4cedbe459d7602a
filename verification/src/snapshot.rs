//! The snapshot codec: the whole store serialized to one byte buffer and
//! restored from it.
//!
//! The format is length-prefixed and little-endian: counts and lengths are
//! 64-bit, strings are a byte length followed by UTF-8 bytes, values are a
//! one-byte tag followed by their payload. Decoding an encoding is proved to
//! reproduce the encoded store exactly.

use vstd::prelude::*;
use vstd::string::StrSliceExecFns;
use vstd::utf8::{
    decode_utf8, encode_utf8, encode_utf8_decode_utf8, encode_utf8_valid_utf8, valid_utf8,
};
use crate::value::{ColumnKind, SpecValue, Value, entries_view};
use crate::table::{Column, Row, SpecColumn, SpecTable, Table, columns_view, rows_view};
use crate::store::{Store, names_unique, tables_view};

verus! {

// ---------------------------------------------------------------------------
// Encoding, as a mathematical function of the store's model.
// ---------------------------------------------------------------------------

/// A 64-bit number as eight little-endian bytes.
pub open spec fn enc_u64(n: u64) -> Seq<u8> {
    seq![
        n as u8,
        (n >> 8) as u8,
        (n >> 16) as u8,
        (n >> 24) as u8,
        (n >> 32) as u8,
        (n >> 40) as u8,
        (n >> 48) as u8,
        (n >> 56) as u8,
    ]
}

/// A string as its UTF-8 byte length followed by its UTF-8 bytes.
pub open spec fn enc_str(s: Seq<char>) -> Seq<u8> {
    enc_u64(encode_utf8(s).len() as u64) + encode_utf8(s)
}

/// The tag byte of a column kind.
pub open spec fn kind_tag(kind: ColumnKind) -> u8 {
    match kind {
        ColumnKind::Text => 0,
        ColumnKind::Integer => 1,
        ColumnKind::Float => 2,
        ColumnKind::Boolean => 3,
        ColumnKind::Object => 4,
    }
}

/// A value as a tag byte followed by its payload.
pub open spec fn enc_value(v: SpecValue) -> Seq<u8>
    decreases v,
{
    match v {
        SpecValue::Text(s) => seq![0u8] + enc_str(s),
        SpecValue::Integer(i) => seq![1u8] + enc_u64(i as u64),
        SpecValue::Float(bits) => seq![2u8] + enc_u64(bits),
        SpecValue::Boolean(b) => seq![3u8] + seq![if b { 1u8 } else { 0u8 }],
        SpecValue::Object(es) => seq![4u8] + enc_u64(es.len() as u64) + enc_entry_list(es),
    }
}

/// Key/value entries, one after the other.
pub open spec fn enc_entry_list(es: Seq<(Seq<char>, SpecValue)>) -> Seq<u8>
    decreases es,
{
    if es.len() == 0 {
        Seq::empty()
    } else {
        enc_str(es[0].0) + enc_value(es[0].1) + enc_entry_list(es.drop_first())
    }
}

/// A row: its entry count, then its entries.
pub open spec fn enc_row(r: Seq<(Seq<char>, SpecValue)>) -> Seq<u8> {
    enc_u64(r.len() as u64) + enc_entry_list(r)
}

/// Rows, one after the other.
pub open spec fn enc_row_list(rs: Seq<Seq<(Seq<char>, SpecValue)>>) -> Seq<u8>
    decreases rs,
{
    if rs.len() == 0 {
        Seq::empty()
    } else {
        enc_row(rs[0]) + enc_row_list(rs.drop_first())
    }
}

/// A column: its name, then its kind tag.
pub open spec fn enc_column(c: SpecColumn) -> Seq<u8> {
    enc_str(c.name) + seq![kind_tag(c.kind)]
}

/// Columns, one after the other.
pub open spec fn enc_column_list(cs: Seq<SpecColumn>) -> Seq<u8>
    decreases cs,
{
    if cs.len() == 0 {
        Seq::empty()
    } else {
        enc_column(cs[0]) + enc_column_list(cs.drop_first())
    }
}

/// A table: identity, name, column count and columns, row count and rows.
pub open spec fn enc_table(t: SpecTable) -> Seq<u8> {
    enc_str(t.id) + enc_str(t.name) + enc_u64(t.columns.len() as u64) + enc_column_list(t.columns)
        + enc_u64(t.rows.len() as u64) + enc_row_list(t.rows)
}

/// Tables, one after the other.
pub open spec fn enc_table_list(ts: Seq<SpecTable>) -> Seq<u8>
    decreases ts,
{
    if ts.len() == 0 {
        Seq::empty()
    } else {
        enc_table(ts[0]) + enc_table_list(ts.drop_first())
    }
}

/// The whole store: its table count, then its tables.
pub open spec fn enc_store(ts: Seq<SpecTable>) -> Seq<u8> {
    enc_u64(ts.len() as u64) + enc_table_list(ts)
}

// ---------------------------------------------------------------------------
// The machine bounds under which every count fits its 64-bit prefix. Values
// held in memory always satisfy them; the encoder reestablishes them.
// ---------------------------------------------------------------------------

/// Every string and object inside the value fits its length prefix.
pub open spec fn wf_value(v: SpecValue) -> bool
    decreases v,
{
    match v {
        SpecValue::Text(s) => encode_utf8(s).len() <= u64::MAX,
        SpecValue::Integer(_) => true,
        SpecValue::Float(_) => true,
        SpecValue::Boolean(_) => true,
        SpecValue::Object(es) => es.len() <= u64::MAX && wf_entry_list(es),
    }
}

/// Every key and value of the entries fits its length prefixes.
pub open spec fn wf_entry_list(es: Seq<(Seq<char>, SpecValue)>) -> bool
    decreases es,
{
    if es.len() == 0 {
        true
    } else {
        encode_utf8(es[0].0).len() <= u64::MAX && wf_value(es[0].1) && wf_entry_list(
            es.drop_first(),
        )
    }
}

/// A row and everything in it fits its length prefixes.
pub open spec fn wf_row(r: Seq<(Seq<char>, SpecValue)>) -> bool {
    r.len() <= u64::MAX && wf_entry_list(r)
}

pub open spec fn wf_row_list(rs: Seq<Seq<(Seq<char>, SpecValue)>>) -> bool {
    forall|i: int| 0 <= i < rs.len() ==> wf_row(#[trigger] rs[i])
}

pub open spec fn wf_column(c: SpecColumn) -> bool {
    encode_utf8(c.name).len() <= u64::MAX
}

pub open spec fn wf_column_list(cs: Seq<SpecColumn>) -> bool {
    forall|i: int| 0 <= i < cs.len() ==> wf_column(#[trigger] cs[i])
}

/// A table and everything in it fits its length prefixes.
pub open spec fn wf_table(t: SpecTable) -> bool {
    &&& encode_utf8(t.id).len() <= u64::MAX
    &&& encode_utf8(t.name).len() <= u64::MAX
    &&& t.columns.len() <= u64::MAX
    &&& wf_column_list(t.columns)
    &&& t.rows.len() <= u64::MAX
    &&& wf_row_list(t.rows)
}

/// The whole store fits its length prefixes.
pub open spec fn wf_tables(ts: Seq<SpecTable>) -> bool {
    ts.len() <= u64::MAX && forall|i: int| 0 <= i < ts.len() ==> wf_table(#[trigger] ts[i])
}

// ---------------------------------------------------------------------------
// Decoding, as a mathematical function of the bytes. Each step yields the
// decoded piece and the remaining bytes. The recursion through nested values
// is measured by a fuel that one byte of input per step is enough for.
// ---------------------------------------------------------------------------

/// The first eight bytes as a little-endian 64-bit number.
pub open spec fn u64_of(b: Seq<u8>) -> u64 {
    (b[0] as u64) | ((b[1] as u64) << 8) | ((b[2] as u64) << 16) | ((b[3] as u64) << 24) | (
    (b[4] as u64) << 32) | ((b[5] as u64) << 40) | ((b[6] as u64) << 48) | ((b[7] as u64) << 56)
}

pub open spec fn dec_u64(b: Seq<u8>) -> Option<(u64, Seq<u8>)> {
    if b.len() >= 8 {
        Some((u64_of(b), b.skip(8)))
    } else {
        None
    }
}

pub open spec fn dec_str(b: Seq<u8>) -> Option<(Seq<char>, Seq<u8>)> {
    match dec_u64(b) {
        None => None,
        Some((len, r)) => if r.len() >= len && valid_utf8(r.take(len as int)) {
            Some((decode_utf8(r.take(len as int)), r.skip(len as int)))
        } else {
            None
        },
    }
}

pub open spec fn dec_kind(tag: u8) -> Option<ColumnKind> {
    if tag == 0 {
        Some(ColumnKind::Text)
    } else if tag == 1 {
        Some(ColumnKind::Integer)
    } else if tag == 2 {
        Some(ColumnKind::Float)
    } else if tag == 3 {
        Some(ColumnKind::Boolean)
    } else if tag == 4 {
        Some(ColumnKind::Object)
    } else {
        None
    }
}

pub open spec fn dec_value(b: Seq<u8>, fuel: nat) -> Option<(SpecValue, Seq<u8>)>
    decreases fuel,
{
    if fuel == 0 || b.len() == 0 {
        None
    } else {
        let tag = b[0];
        let r = b.drop_first();
        if tag == 0 {
            match dec_str(r) {
                Some((s, r2)) => Some((SpecValue::Text(s), r2)),
                None => None,
            }
        } else if tag == 1 {
            match dec_u64(r) {
                Some((n, r2)) => Some((SpecValue::Integer(n as i64), r2)),
                None => None,
            }
        } else if tag == 2 {
            match dec_u64(r) {
                Some((n, r2)) => Some((SpecValue::Float(n), r2)),
                None => None,
            }
        } else if tag == 3 {
            if r.len() >= 1 && (r[0] == 0 || r[0] == 1) {
                Some((SpecValue::Boolean(r[0] == 1), r.drop_first()))
            } else {
                None
            }
        } else if tag == 4 {
            match dec_u64(r) {
                Some((n, r2)) => match dec_entry_list(r2, n as int, (fuel - 1) as nat) {
                    Some((es, r3)) => Some((SpecValue::Object(es), r3)),
                    None => None,
                },
                None => None,
            }
        } else {
            None
        }
    }
}

pub open spec fn dec_entry_list(b: Seq<u8>, count: int, fuel: nat) -> Option<
    (Seq<(Seq<char>, SpecValue)>, Seq<u8>),
>
    decreases fuel,
{
    if fuel == 0 {
        None
    } else if count <= 0 {
        Some((Seq::empty(), b))
    } else {
        match dec_str(b) {
            None => None,
            Some((k, r)) => match dec_value(r, (fuel - 1) as nat) {
                None => None,
                Some((v, r2)) => match dec_entry_list(r2, count - 1, (fuel - 1) as nat) {
                    None => None,
                    Some((es, r3)) => Some((seq![(k, v)] + es, r3)),
                },
            },
        }
    }
}

pub open spec fn dec_row(b: Seq<u8>, fuel: nat) -> Option<
    (Seq<(Seq<char>, SpecValue)>, Seq<u8>),
> {
    match dec_u64(b) {
        None => None,
        Some((n, r)) => dec_entry_list(r, n as int, fuel),
    }
}

pub open spec fn dec_row_list(b: Seq<u8>, count: int, fuel: nat) -> Option<
    (Seq<Seq<(Seq<char>, SpecValue)>>, Seq<u8>),
>
    decreases count,
{
    if count <= 0 {
        Some((Seq::empty(), b))
    } else {
        match dec_row(b, fuel) {
            None => None,
            Some((r0, r)) => match dec_row_list(r, count - 1, fuel) {
                None => None,
                Some((rs, r2)) => Some((seq![r0] + rs, r2)),
            },
        }
    }
}

pub open spec fn dec_column(b: Seq<u8>) -> Option<(SpecColumn, Seq<u8>)> {
    match dec_str(b) {
        None => None,
        Some((name, r)) => if r.len() >= 1 {
            match dec_kind(r[0]) {
                None => None,
                Some(kind) => Some((SpecColumn { name, kind }, r.drop_first())),
            }
        } else {
            None
        },
    }
}

pub open spec fn dec_column_list(b: Seq<u8>, count: int) -> Option<(Seq<SpecColumn>, Seq<u8>)>
    decreases count,
{
    if count <= 0 {
        Some((Seq::empty(), b))
    } else {
        match dec_column(b) {
            None => None,
            Some((c, r)) => match dec_column_list(r, count - 1) {
                None => None,
                Some((cs, r2)) => Some((seq![c] + cs, r2)),
            },
        }
    }
}

pub open spec fn dec_table(b: Seq<u8>, fuel: nat) -> Option<(SpecTable, Seq<u8>)> {
    match dec_str(b) {
        None => None,
        Some((id, r1)) => match dec_str(r1) {
            None => None,
            Some((name, r2)) => match dec_u64(r2) {
                None => None,
                Some((ncols, r3)) => match dec_column_list(r3, ncols as int) {
                    None => None,
                    Some((columns, r4)) => match dec_u64(r4) {
                        None => None,
                        Some((nrows, r5)) => match dec_row_list(r5, nrows as int, fuel) {
                            None => None,
                            Some((rows, r6)) => Some(
                                (SpecTable { id, name, columns, rows }, r6),
                            ),
                        },
                    },
                },
            },
        },
    }
}

pub open spec fn dec_table_list(b: Seq<u8>, count: int, fuel: nat) -> Option<
    (Seq<SpecTable>, Seq<u8>),
>
    decreases count,
{
    if count <= 0 {
        Some((Seq::empty(), b))
    } else {
        match dec_table(b, fuel) {
            None => None,
            Some((t, r)) => match dec_table_list(r, count - 1, fuel) {
                None => None,
                Some((ts, r2)) => Some((seq![t] + ts, r2)),
            },
        }
    }
}

/// What the snapshot bytes mean: the decoded tables, provided the whole
/// buffer is consumed; the fuel one byte of input per nesting step suffices
/// for.
pub open spec fn dec_store(b: Seq<u8>) -> Option<Seq<SpecTable>> {
    match dec_u64(b) {
        None => None,
        Some((n, r)) => match dec_table_list(r, n as int, b.len()) {
            None => None,
            Some((ts, rest)) => if rest.len() == 0 {
                Some(ts)
            } else {
                None
            },
        },
    }
}

// ---------------------------------------------------------------------------
// Round trip: decoding an encoding yields the encoded model and the untouched
// remainder.
// ---------------------------------------------------------------------------

proof fn lemma_dec_u64(n: u64, rest: Seq<u8>)
    ensures
        dec_u64(enc_u64(n) + rest) == Some((n, rest)),
{
    let b = enc_u64(n) + rest;
    assert(b.skip(8) =~= rest);
    assert(b[0] == n as u8);
    assert(b[1] == (n >> 8) as u8);
    assert(b[2] == (n >> 16) as u8);
    assert(b[3] == (n >> 24) as u8);
    assert(b[4] == (n >> 32) as u8);
    assert(b[5] == (n >> 40) as u8);
    assert(b[6] == (n >> 48) as u8);
    assert(b[7] == (n >> 56) as u8);
    assert(((n as u8) as u64) | (((n >> 8) as u8 as u64) << 8) | (((n >> 16) as u8 as u64) << 16)
        | (((n >> 24) as u8 as u64) << 24) | (((n >> 32) as u8 as u64) << 32) | (((n
        >> 40) as u8 as u64) << 40) | (((n >> 48) as u8 as u64) << 48) | (((n
        >> 56) as u8 as u64) << 56) == n) by (bit_vector);
}

proof fn lemma_dec_str(s: Seq<char>, rest: Seq<u8>)
    requires
        encode_utf8(s).len() <= u64::MAX,
    ensures
        dec_str(enc_str(s) + rest) == Some((s, rest)),
{
    let u = encode_utf8(s);
    let l = u.len() as u64;
    let b = enc_str(s) + rest;
    assert(b =~= enc_u64(l) + (u + rest));
    lemma_dec_u64(l, u + rest);
    let r = u + rest;
    assert(r.take(l as int) =~= u);
    assert(r.skip(l as int) =~= rest);
    encode_utf8_valid_utf8(s);
    encode_utf8_decode_utf8(s);
}

proof fn lemma_dec_value(v: SpecValue, rest: Seq<u8>, fuel: nat)
    requires
        wf_value(v),
        fuel >= enc_value(v).len(),
    ensures
        dec_value(enc_value(v) + rest, fuel) == Some((v, rest)),
    decreases v,
{
    let b = enc_value(v) + rest;
    match v {
        SpecValue::Text(s) => {
            assert(b.drop_first() =~= enc_str(s) + rest);
            lemma_dec_str(s, rest);
        },
        SpecValue::Integer(i) => {
            assert(b.drop_first() =~= enc_u64(i as u64) + rest);
            lemma_dec_u64(i as u64, rest);
            assert(((i as u64) as i64) == i) by (bit_vector);
        },
        SpecValue::Float(bits) => {
            assert(b.drop_first() =~= enc_u64(bits) + rest);
            lemma_dec_u64(bits, rest);
        },
        SpecValue::Boolean(x) => {
            let payload = seq![if x { 1u8 } else { 0u8 }];
            assert(b.drop_first() =~= payload + rest);
            assert((payload + rest)[0] == payload[0]);
            assert((payload + rest).drop_first() =~= rest);
        },
        SpecValue::Object(es) => {
            let n = es.len() as u64;
            assert(b.drop_first() =~= enc_u64(n) + (enc_entry_list(es) + rest));
            lemma_dec_u64(n, enc_entry_list(es) + rest);
            assert(n as int == es.len());
            lemma_dec_entry_list(es, rest, (fuel - 1) as nat);
        },
    }
}

proof fn lemma_dec_entry_list(es: Seq<(Seq<char>, SpecValue)>, rest: Seq<u8>, fuel: nat)
    requires
        wf_entry_list(es),
        fuel >= enc_entry_list(es).len() + 1,
    ensures
        dec_entry_list(enc_entry_list(es) + rest, es.len() as int, fuel) == Some((es, rest)),
    decreases es,
{
    let b = enc_entry_list(es) + rest;
    if es.len() == 0 {
        assert(b =~= rest);
        assert(es =~= Seq::<(Seq<char>, SpecValue)>::empty());
    } else {
        let k0 = es[0].0;
        let v0 = es[0].1;
        let tail = es.drop_first();
        assert(b =~= enc_str(k0) + (enc_value(v0) + (enc_entry_list(tail) + rest)));
        lemma_dec_str(k0, enc_value(v0) + (enc_entry_list(tail) + rest));
        lemma_dec_value(v0, enc_entry_list(tail) + rest, (fuel - 1) as nat);
        lemma_dec_entry_list(tail, rest, (fuel - 1) as nat);
        assert(seq![(k0, v0)] + tail =~= es);
    }
}

proof fn lemma_dec_row(r: Seq<(Seq<char>, SpecValue)>, rest: Seq<u8>, fuel: nat)
    requires
        wf_row(r),
        fuel >= enc_row(r).len(),
    ensures
        dec_row(enc_row(r) + rest, fuel) == Some((r, rest)),
{
    let b = enc_row(r) + rest;
    let n = r.len() as u64;
    assert(b =~= enc_u64(n) + (enc_entry_list(r) + rest));
    lemma_dec_u64(n, enc_entry_list(r) + rest);
    assert(n as int == r.len());
    lemma_dec_entry_list(r, rest, fuel);
}

proof fn lemma_dec_row_list(rs: Seq<Seq<(Seq<char>, SpecValue)>>, rest: Seq<u8>, fuel: nat)
    requires
        wf_row_list(rs),
        fuel >= enc_row_list(rs).len() + 1,
    ensures
        dec_row_list(enc_row_list(rs) + rest, rs.len() as int, fuel) == Some((rs, rest)),
    decreases rs.len(),
{
    let b = enc_row_list(rs) + rest;
    if rs.len() == 0 {
        assert(b =~= rest);
        assert(rs =~= Seq::<Seq<(Seq<char>, SpecValue)>>::empty());
    } else {
        let tail = rs.drop_first();
        assert(wf_row_list(tail)) by {
            assert(forall|i: int| 0 <= i < tail.len() ==> tail[i] == rs[i + 1]);
        }
        assert(b =~= enc_row(rs[0]) + (enc_row_list(tail) + rest));
        lemma_dec_row(rs[0], enc_row_list(tail) + rest, fuel);
        lemma_dec_row_list(tail, rest, fuel);
        assert(seq![rs[0]] + tail =~= rs);
    }
}

proof fn lemma_dec_column(c: SpecColumn, rest: Seq<u8>)
    requires
        wf_column(c),
    ensures
        dec_column(enc_column(c) + rest) == Some((c, rest)),
{
    let b = enc_column(c) + rest;
    let payload = seq![kind_tag(c.kind)];
    assert(b =~= enc_str(c.name) + (payload + rest));
    lemma_dec_str(c.name, payload + rest);
    assert((payload + rest)[0] == payload[0]);
    assert((payload + rest).drop_first() =~= rest);
    assert(dec_kind(kind_tag(c.kind)) == Some(c.kind));
}

proof fn lemma_dec_column_list(cs: Seq<SpecColumn>, rest: Seq<u8>)
    requires
        wf_column_list(cs),
    ensures
        dec_column_list(enc_column_list(cs) + rest, cs.len() as int) == Some((cs, rest)),
    decreases cs.len(),
{
    let b = enc_column_list(cs) + rest;
    if cs.len() == 0 {
        assert(b =~= rest);
        assert(cs =~= Seq::<SpecColumn>::empty());
    } else {
        let tail = cs.drop_first();
        assert(wf_column_list(tail)) by {
            assert(forall|i: int| 0 <= i < tail.len() ==> tail[i] == cs[i + 1]);
        }
        assert(b =~= enc_column(cs[0]) + (enc_column_list(tail) + rest));
        lemma_dec_column(cs[0], enc_column_list(tail) + rest);
        lemma_dec_column_list(tail, rest);
        assert(seq![cs[0]] + tail =~= cs);
    }
}

proof fn lemma_concat_assoc(a: Seq<u8>, b: Seq<u8>, c: Seq<u8>)
    ensures
        (a + b) + c == a + (b + c),
{
    assert((a + b) + c =~= a + (b + c));
}

#[verifier::rlimit(100)]
proof fn lemma_dec_table(t: SpecTable, rest: Seq<u8>, fuel: nat)
    requires
        wf_table(t),
        fuel >= enc_table(t).len(),
    ensures
        dec_table(enc_table(t) + rest, fuel) == Some((t, rest)),
{
    let b = enc_table(t) + rest;
    let ncols = t.columns.len() as u64;
    let nrows = t.rows.len() as u64;
    let r5 = enc_row_list(t.rows) + rest;
    let r4 = enc_u64(nrows) + r5;
    let r3 = enc_column_list(t.columns) + r4;
    let r2 = enc_u64(ncols) + r3;
    let r1 = enc_str(t.name) + r2;
    let two = enc_str(t.id) + enc_str(t.name);
    let three = two + enc_u64(ncols);
    let four = three + enc_column_list(t.columns);
    let five = four + enc_u64(nrows);
    lemma_concat_assoc(five, enc_row_list(t.rows), rest);
    lemma_concat_assoc(four, enc_u64(nrows), r5);
    lemma_concat_assoc(three, enc_column_list(t.columns), r4);
    lemma_concat_assoc(two, enc_u64(ncols), r3);
    lemma_concat_assoc(enc_str(t.id), enc_str(t.name), r2);
    assert(b == enc_str(t.id) + r1);
    lemma_dec_str(t.id, r1);
    assert(dec_str(b) == Some((t.id, r1)));
    lemma_dec_str(t.name, r2);
    assert(dec_str(r1) == Some((t.name, r2)));
    lemma_dec_u64(ncols, r3);
    assert(ncols as int == t.columns.len());
    lemma_dec_column_list(t.columns, r4);
    assert(dec_column_list(r3, ncols as int) == Some((t.columns, r4)));
    lemma_dec_u64(nrows, r5);
    assert(nrows as int == t.rows.len());
    assert(fuel >= enc_row_list(t.rows).len() + 1);
    lemma_dec_row_list(t.rows, rest, fuel);
    assert(dec_row_list(r5, nrows as int, fuel) == Some((t.rows, rest)));
}

proof fn lemma_dec_table_list(ts: Seq<SpecTable>, rest: Seq<u8>, fuel: nat)
    requires
        forall|i: int| 0 <= i < ts.len() ==> wf_table(#[trigger] ts[i]),
        fuel >= enc_table_list(ts).len() + 1,
    ensures
        dec_table_list(enc_table_list(ts) + rest, ts.len() as int, fuel) == Some((ts, rest)),
    decreases ts.len(),
{
    let b = enc_table_list(ts) + rest;
    if ts.len() == 0 {
        assert(b =~= rest);
        assert(ts =~= Seq::<SpecTable>::empty());
    } else {
        let tail = ts.drop_first();
        assert(forall|i: int| 0 <= i < tail.len() ==> tail[i] == ts[i + 1]);
        assert(b =~= enc_table(ts[0]) + (enc_table_list(tail) + rest));
        lemma_dec_table(ts[0], enc_table_list(tail) + rest, fuel);
        lemma_dec_table_list(tail, rest, fuel);
        assert(seq![ts[0]] + tail =~= ts);
    }
}

// ---------------------------------------------------------------------------
// Appending one more element to an encoded list extends the encoding at the
// end; these let the encoder fill buffers front to back.
// ---------------------------------------------------------------------------

proof fn lemma_enc_entry_list_snoc(es: Seq<(Seq<char>, SpecValue)>, i: int)
    requires
        0 <= i < es.len(),
    ensures
        enc_entry_list(es.take(i + 1)) == enc_entry_list(es.take(i)) + (enc_str(es[i].0)
            + enc_value(es[i].1)),
        wf_entry_list(es.take(i)) && encode_utf8(es[i].0).len() <= u64::MAX && wf_value(es[i].1)
            ==> wf_entry_list(es.take(i + 1)),
    decreases i,
{
    if i == 0 {
        assert(es.take(1).drop_first() =~= es.take(0));
        assert(es.take(0) =~= Seq::<(Seq<char>, SpecValue)>::empty());
        assert(enc_entry_list(es.take(1)) =~= enc_entry_list(es.take(0)) + (enc_str(es[0].0)
            + enc_value(es[0].1)));
    } else {
        let tail = es.drop_first();
        lemma_enc_entry_list_snoc(tail, i - 1);
        assert(es.take(i + 1).drop_first() =~= tail.take(i));
        assert(es.take(i).drop_first() =~= tail.take(i - 1));
        assert(es.take(i + 1)[0] == es[0]);
        assert(es.take(i)[0] == es[0]);
        assert(tail[i - 1] == es[i]);
        assert(enc_entry_list(es.take(i + 1)) =~= enc_entry_list(es.take(i)) + (enc_str(es[i].0)
            + enc_value(es[i].1)));
    }
}

proof fn lemma_enc_row_list_snoc(rs: Seq<Seq<(Seq<char>, SpecValue)>>, i: int)
    requires
        0 <= i < rs.len(),
    ensures
        enc_row_list(rs.take(i + 1)) == enc_row_list(rs.take(i)) + enc_row(rs[i]),
    decreases i,
{
    if i == 0 {
        assert(rs.take(1).drop_first() =~= rs.take(0));
        assert(rs.take(0) =~= Seq::<Seq<(Seq<char>, SpecValue)>>::empty());
        assert(enc_row_list(rs.take(1)) =~= enc_row_list(rs.take(0)) + enc_row(rs[0]));
    } else {
        let tail = rs.drop_first();
        lemma_enc_row_list_snoc(tail, i - 1);
        assert(rs.take(i + 1).drop_first() =~= tail.take(i));
        assert(rs.take(i).drop_first() =~= tail.take(i - 1));
        assert(rs.take(i + 1)[0] == rs[0]);
        assert(rs.take(i)[0] == rs[0]);
        assert(tail[i - 1] == rs[i]);
        assert(enc_row_list(rs.take(i + 1)) =~= enc_row_list(rs.take(i)) + enc_row(rs[i]));
    }
}

proof fn lemma_enc_column_list_snoc(cs: Seq<SpecColumn>, i: int)
    requires
        0 <= i < cs.len(),
    ensures
        enc_column_list(cs.take(i + 1)) == enc_column_list(cs.take(i)) + enc_column(cs[i]),
    decreases i,
{
    if i == 0 {
        assert(cs.take(1).drop_first() =~= cs.take(0));
        assert(cs.take(0) =~= Seq::<SpecColumn>::empty());
        assert(enc_column_list(cs.take(1)) =~= enc_column_list(cs.take(0)) + enc_column(cs[0]));
    } else {
        let tail = cs.drop_first();
        lemma_enc_column_list_snoc(tail, i - 1);
        assert(cs.take(i + 1).drop_first() =~= tail.take(i));
        assert(cs.take(i).drop_first() =~= tail.take(i - 1));
        assert(cs.take(i + 1)[0] == cs[0]);
        assert(cs.take(i)[0] == cs[0]);
        assert(tail[i - 1] == cs[i]);
        assert(enc_column_list(cs.take(i + 1)) =~= enc_column_list(cs.take(i)) + enc_column(
            cs[i],
        ));
    }
}

proof fn lemma_enc_table_list_snoc(ts: Seq<SpecTable>, i: int)
    requires
        0 <= i < ts.len(),
    ensures
        enc_table_list(ts.take(i + 1)) == enc_table_list(ts.take(i)) + enc_table(ts[i]),
    decreases i,
{
    if i == 0 {
        assert(ts.take(1).drop_first() =~= ts.take(0));
        assert(ts.take(0) =~= Seq::<SpecTable>::empty());
        assert(enc_table_list(ts.take(1)) =~= enc_table_list(ts.take(0)) + enc_table(ts[0]));
    } else {
        let tail = ts.drop_first();
        lemma_enc_table_list_snoc(tail, i - 1);
        assert(ts.take(i + 1).drop_first() =~= tail.take(i));
        assert(ts.take(i).drop_first() =~= tail.take(i - 1));
        assert(ts.take(i + 1)[0] == ts[0]);
        assert(ts.take(i)[0] == ts[0]);
        assert(tail[i - 1] == ts[i]);
        assert(enc_table_list(ts.take(i + 1)) =~= enc_table_list(ts.take(i)) + enc_table(ts[i]));
    }
}

// ---------------------------------------------------------------------------
// The encoder.
// ---------------------------------------------------------------------------

fn push_u64(out: &mut Vec<u8>, n: u64)
    ensures
        final(out)@ == old(out)@ + enc_u64(n),
{
    out.push(#[verifier::truncate] (n as u8));
    out.push(#[verifier::truncate] ((n >> 8) as u8));
    out.push(#[verifier::truncate] ((n >> 16) as u8));
    out.push(#[verifier::truncate] ((n >> 24) as u8));
    out.push(#[verifier::truncate] ((n >> 32) as u8));
    out.push(#[verifier::truncate] ((n >> 40) as u8));
    out.push(#[verifier::truncate] ((n >> 48) as u8));
    out.push(#[verifier::truncate] ((n >> 56) as u8));
    proof {
        assert(out@ =~= old(out)@ + enc_u64(n));
    }
}

fn push_str(out: &mut Vec<u8>, s: &String)
    ensures
        final(out)@ == old(out)@ + enc_str(s@),
        encode_utf8(s@).len() <= u64::MAX,
{
    let mut bytes = s.as_str().as_bytes_vec();
    let len = bytes.len() as u64;
    push_u64(out, len);
    out.append(&mut bytes);
    proof {
        assert(out@ =~= old(out)@ + enc_str(s@));
    }
}

fn kind_byte(kind: ColumnKind) -> (r: u8)
    ensures
        r == kind_tag(kind),
{
    match kind {
        ColumnKind::Text => 0,
        ColumnKind::Integer => 1,
        ColumnKind::Float => 2,
        ColumnKind::Boolean => 3,
        ColumnKind::Object => 4,
    }
}

/// Writes an entry count and the entries, as they stand in a row and in a
/// nested object.
#[verifier::loop_isolation(false)]
fn push_entries(out: &mut Vec<u8>, entries: &Vec<(String, Value)>)
    ensures
        final(out)@ == old(out)@ + enc_u64(entries@.len() as u64) + enc_entry_list(
            entries_view(entries@),
        ),
        entries_view(entries@).len() <= u64::MAX,
        wf_entry_list(entries_view(entries@)),
    decreases entries@,
{
    let ghost es = entries_view(entries@);
    push_u64(out, entries.len() as u64);
    let ghost base = out@;
    let n = entries.len();
    proof {
        assert(es.take(0) =~= Seq::<(Seq<char>, SpecValue)>::empty());
        assert(base + enc_entry_list(es.take(0)) =~= base);
    }
    for i in 0..n
        invariant
            out@ == base + enc_entry_list(es.take(i as int)),
            wf_entry_list(es.take(i as int)),
    {
        push_str(out, &entries[i].0);
        push_value(out, &entries[i].1);
        proof {
            lemma_enc_entry_list_snoc(es, i as int);
            assert(out@ =~= base + enc_entry_list(es.take(i + 1)));
        }
    }
    proof {
        assert(es.take(n as int) =~= es);
    }
}

/// Writes one value: its tag byte, then its payload.
fn push_value(out: &mut Vec<u8>, v: &Value)
    ensures
        final(out)@ == old(out)@ + enc_value(v@),
        wf_value(v@),
    decreases v,
{
    match v {
        Value::Text(s) => {
            out.push(0u8);
            push_str(out, s);
            proof {
                assert(out@ =~= old(out)@ + enc_value(v@));
            }
        },
        Value::Integer(i) => {
            out.push(1u8);
            push_u64(out, #[verifier::truncate] (*i as u64));
            proof {
                assert(out@ =~= old(out)@ + enc_value(v@));
            }
        },
        Value::Float(bits) => {
            out.push(2u8);
            push_u64(out, *bits);
            proof {
                assert(out@ =~= old(out)@ + enc_value(v@));
            }
        },
        Value::Boolean(b) => {
            out.push(3u8);
            out.push(if *b {
                1u8
            } else {
                0u8
            });
            proof {
                assert(out@ =~= old(out)@ + enc_value(v@));
            }
        },
        Value::Object(fields) => {
            out.push(4u8);
            push_entries(out, fields);
            proof {
                assert(out@ =~= old(out)@ + enc_value(v@));
            }
        },
    }
}

/// Writes one column: its name, then its kind tag.
fn push_column(out: &mut Vec<u8>, c: &Column)
    ensures
        final(out)@ == old(out)@ + enc_column(c@),
        wf_column(c@),
{
    push_str(out, &c.name);
    out.push(kind_byte(c.kind));
    proof {
        assert(out@ =~= old(out)@ + enc_column(c@));
    }
}

/// Writes one table: identity, name, columns and rows, each list behind its
/// count.
#[verifier::loop_isolation(false)]
#[verifier::rlimit(60)]
fn push_table(out: &mut Vec<u8>, t: &Table)
    ensures
        final(out)@ == old(out)@ + enc_table(t@),
        wf_table(t@),
{
    push_str(out, &t.id);
    push_str(out, &t.name);
    push_u64(out, t.columns.len() as u64);
    let ghost cs = columns_view(t.columns@);
    let ghost base_cols = out@;
    let ncols = t.columns.len();
    proof {
        assert(cs.take(0) =~= Seq::<SpecColumn>::empty());
        assert(base_cols + enc_column_list(cs.take(0)) =~= base_cols);
    }
    for i in 0..ncols
        invariant
            out@ == base_cols + enc_column_list(cs.take(i as int)),
            forall|j: int| 0 <= j < i ==> wf_column(#[trigger] cs[j]),
    {
        push_column(out, &t.columns[i]);
        proof {
            lemma_enc_column_list_snoc(cs, i as int);
            assert(out@ =~= base_cols + enc_column_list(cs.take(i + 1)));
        }
    }
    proof {
        assert(cs.take(ncols as int) =~= cs);
    }
    push_u64(out, t.rows.len() as u64);
    let ghost rs = rows_view(t.rows@);
    let ghost base_rows = out@;
    let nrows = t.rows.len();
    proof {
        assert(rs.take(0) =~= Seq::<Seq<(Seq<char>, SpecValue)>>::empty());
        assert(base_rows + enc_row_list(rs.take(0)) =~= base_rows);
    }
    for i in 0..nrows
        invariant
            out@ == base_rows + enc_row_list(rs.take(i as int)),
            forall|j: int| 0 <= j < i ==> wf_row(#[trigger] rs[j]),
    {
        push_entries(out, &t.rows[i].entries);
        proof {
            lemma_enc_row_list_snoc(rs, i as int);
            assert(rs[i as int] == t.rows@[i as int]@);
            assert(enc_row(rs[i as int]) == enc_u64(t.rows@[i as int].entries@.len() as u64)
                + enc_entry_list(entries_view(t.rows@[i as int].entries@)));
            assert(out@ =~= base_rows + enc_row_list(rs.take(i + 1)));
        }
    }
    proof {
        assert(rs.take(nrows as int) =~= rs);
        assert(out@ =~= old(out)@ + enc_table(t@));
    }
}

/// Serializes the whole store to one byte buffer, exactly as [`enc_store`]
/// describes; every store held in memory satisfies the bounds it
/// reestablishes.
#[verifier::loop_isolation(false)]
pub fn encode_store(s: &Store) -> (out: Vec<u8>)
    ensures
        out@ == enc_store(s@),
        wf_tables(s@),
{
    let mut out: Vec<u8> = Vec::new();
    push_u64(&mut out, s.tables.len() as u64);
    let ghost ts = s@;
    let ghost base = out@;
    let n = s.tables.len();
    proof {
        assert(ts.take(0) =~= Seq::<SpecTable>::empty());
        assert(base + enc_table_list(ts.take(0)) =~= base);
    }
    for i in 0..n
        invariant
            out@ == base + enc_table_list(ts.take(i as int)),
            forall|j: int| 0 <= j < i ==> wf_table(#[trigger] ts[j]),
    {
        push_table(&mut out, &s.tables[i]);
        proof {
            lemma_enc_table_list_snoc(ts, i as int);
            assert(ts[i as int] == s.tables@[i as int]@);
            assert(out@ =~= base + enc_table_list(ts.take(i + 1)));
        }
    }
    proof {
        assert(ts.take(n as int) =~= ts);
        assert(out@ =~= enc_store(s@));
    }
    out
}

// ---------------------------------------------------------------------------
// The decoder.
// ---------------------------------------------------------------------------

/// Relies on `String::from_utf8`: it succeeds exactly on valid UTF-8 input,
/// and the returned string's characters are that input's UTF-8 decoding.
#[verifier::external_body]
fn string_from_utf8(bytes: Vec<u8>) -> (r: Option<String>)
    ensures
        r is Some <==> valid_utf8(bytes@),
        r matches Some(s) ==> s@ == decode_utf8(bytes@),
{
    String::from_utf8(bytes).ok()
}

fn read_u64(bytes: &Vec<u8>, pos: usize) -> (r: Option<(u64, usize)>)
    requires
        pos <= bytes@.len(),
    ensures
        match r {
            Some((n, p)) => pos <= p <= bytes@.len() && dec_u64(bytes@.skip(pos as int)) == Some(
                (n, bytes@.skip(p as int)),
            ),
            None => dec_u64(bytes@.skip(pos as int)) is None,
        },
{
    if bytes.len() - pos >= 8 {
        let n = (bytes[pos] as u64) | ((bytes[pos + 1] as u64) << 8u64) | ((bytes[pos
            + 2] as u64) << 16u64) | ((bytes[pos + 3] as u64) << 24u64) | ((bytes[pos
            + 4] as u64) << 32u64) | ((bytes[pos + 5] as u64) << 40u64) | ((bytes[pos
            + 6] as u64) << 48u64) | ((bytes[pos + 7] as u64) << 56u64);
        proof {
            let b = bytes@.skip(pos as int);
            assert forall|k: int| 0 <= k < 8 implies b[k] == bytes@[pos + k] by {}
            assert(n == u64_of(b));
            assert(b.skip(8) =~= bytes@.skip(pos + 8));
        }
        Some((n, pos + 8))
    } else {
        None
    }
}

#[verifier::loop_isolation(false)]
fn read_str(bytes: &Vec<u8>, pos: usize) -> (r: Option<(String, usize)>)
    requires
        pos <= bytes@.len(),
    ensures
        match r {
            Some((s, p)) => pos <= p <= bytes@.len() && dec_str(bytes@.skip(pos as int)) == Some(
                (s@, bytes@.skip(p as int)),
            ),
            None => dec_str(bytes@.skip(pos as int)) is None,
        },
{
    match read_u64(bytes, pos) {
        None => None,
        Some((len, p)) => {
            if len <= (bytes.len() - p) as u64 {
                let l = len as usize;
                let mut buf: Vec<u8> = Vec::new();
                for k in 0..l
                    invariant
                        p + l <= bytes@.len(),
                        l == len,
                        buf@.len() == k,
                        forall|j: int| 0 <= j < k ==> buf@[j] == bytes@[p + j],
                {
                    buf.push(bytes[p + k]);
                }
                proof {
                    assert(buf@ =~= bytes@.skip(p as int).take(len as int));
                    assert(bytes@.skip(p as int).skip(len as int) =~= bytes@.skip(p + l));
                }
                match string_from_utf8(buf) {
                    None => None,
                    Some(s) => Some((s, p + l)),
                }
            } else {
                None
            }
        },
    }
}

fn byte_kind(tag: u8) -> (r: Option<ColumnKind>)
    ensures
        r == dec_kind(tag),
{
    if tag == 0 {
        Some(ColumnKind::Text)
    } else if tag == 1 {
        Some(ColumnKind::Integer)
    } else if tag == 2 {
        Some(ColumnKind::Float)
    } else if tag == 3 {
        Some(ColumnKind::Boolean)
    } else if tag == 4 {
        Some(ColumnKind::Object)
    } else {
        None
    }
}

/// Reads one value, exactly as [`dec_value`] describes.
fn decode_value(bytes: &Vec<u8>, pos: usize, fuel: usize) -> (r: Option<(Value, usize)>)
    requires
        pos <= bytes@.len(),
    ensures
        match r {
            Some((v, p)) => pos <= p <= bytes@.len() && dec_value(
                bytes@.skip(pos as int),
                fuel as nat,
            ) == Some((v@, bytes@.skip(p as int))),
            None => dec_value(bytes@.skip(pos as int), fuel as nat) is None,
        },
    decreases fuel,
{
    if fuel == 0 || pos == bytes.len() {
        return None;
    }
    let tag = bytes[pos];
    let q = pos + 1;
    proof {
        assert(bytes@.skip(pos as int)[0] == bytes@[pos as int]);
        assert(bytes@.skip(pos as int).drop_first() =~= bytes@.skip(q as int));
    }
    if tag == 0 {
        match read_str(bytes, q) {
            Some((s, p)) => Some((Value::Text(s), p)),
            None => None,
        }
    } else if tag == 1 {
        match read_u64(bytes, q) {
            Some((n, p)) => Some((Value::Integer(#[verifier::truncate] (n as i64)), p)),
            None => None,
        }
    } else if tag == 2 {
        match read_u64(bytes, q) {
            Some((n, p)) => Some((Value::Float(n), p)),
            None => None,
        }
    } else if tag == 3 {
        if q < bytes.len() && (bytes[q] == 0 || bytes[q] == 1) {
            proof {
                assert(bytes@.skip(q as int)[0] == bytes@[q as int]);
                assert(bytes@.skip(q as int).drop_first() =~= bytes@.skip(q + 1));
            }
            Some((Value::Boolean(bytes[q] == 1), q + 1))
        } else {
            None
        }
    } else if tag == 4 {
        match read_u64(bytes, q) {
            None => None,
            Some((n, p)) => match decode_entry_list(bytes, p, n, fuel - 1) {
                None => None,
                Some((fields, p2)) => Some((Value::Object(fields), p2)),
            },
        }
    } else {
        None
    }
}

/// Reads `count` key/value entries, exactly as [`dec_entry_list`] describes.
fn decode_entry_list(bytes: &Vec<u8>, pos: usize, count: u64, fuel: usize) -> (r: Option<
    (Vec<(String, Value)>, usize),
>)
    requires
        pos <= bytes@.len(),
    ensures
        match r {
            Some((es, p)) => pos <= p <= bytes@.len() && dec_entry_list(
                bytes@.skip(pos as int),
                count as int,
                fuel as nat,
            ) == Some((entries_view(es@), bytes@.skip(p as int))),
            None => dec_entry_list(bytes@.skip(pos as int), count as int, fuel as nat) is None,
        },
    decreases fuel,
{
    if fuel == 0 {
        return None;
    }
    if count == 0 {
        let es: Vec<(String, Value)> = Vec::new();
        proof {
            assert(entries_view(es@) =~= Seq::<(Seq<char>, SpecValue)>::empty());
        }
        return Some((es, pos));
    }
    match read_str(bytes, pos) {
        None => None,
        Some((k, p1)) => match decode_value(bytes, p1, fuel - 1) {
            None => None,
            Some((v, p2)) => match decode_entry_list(bytes, p2, count - 1, fuel - 1) {
                None => None,
                Some((es, p3)) => {
                    let ghost tail = entries_view(es@);
                    let mut es = es;
                    es.insert(0, (k, v));
                    proof {
                        assert(entries_view(es@) =~= seq![(k@, v@)] + tail);
                    }
                    Some((es, p3))
                },
            },
        },
    }
}

/// Reads one column, exactly as [`dec_column`] describes.
fn decode_column(bytes: &Vec<u8>, pos: usize) -> (r: Option<(Column, usize)>)
    requires
        pos <= bytes@.len(),
    ensures
        match r {
            Some((c, p)) => pos <= p <= bytes@.len() && dec_column(bytes@.skip(pos as int))
                == Some((c@, bytes@.skip(p as int))),
            None => dec_column(bytes@.skip(pos as int)) is None,
        },
{
    match read_str(bytes, pos) {
        None => None,
        Some((name, p)) => {
            if p < bytes.len() {
                proof {
                    assert(bytes@.skip(p as int)[0] == bytes@[p as int]);
                    assert(bytes@.skip(p as int).drop_first() =~= bytes@.skip(p + 1));
                }
                match byte_kind(bytes[p]) {
                    None => None,
                    Some(kind) => Some((Column { name, kind }, p + 1)),
                }
            } else {
                None
            }
        },
    }
}

/// Reads `count` columns, exactly as [`dec_column_list`] describes.
fn decode_column_list(bytes: &Vec<u8>, pos: usize, count: u64) -> (r: Option<(Vec<Column>, usize)>)
    requires
        pos <= bytes@.len(),
    ensures
        match r {
            Some((cs, p)) => pos <= p <= bytes@.len() && dec_column_list(
                bytes@.skip(pos as int),
                count as int,
            ) == Some((columns_view(cs@), bytes@.skip(p as int))),
            None => dec_column_list(bytes@.skip(pos as int), count as int) is None,
        },
    decreases count,
{
    if count == 0 {
        let cs: Vec<Column> = Vec::new();
        proof {
            assert(columns_view(cs@) =~= Seq::<SpecColumn>::empty());
        }
        return Some((cs, pos));
    }
    match decode_column(bytes, pos) {
        None => None,
        Some((c, p)) => match decode_column_list(bytes, p, count - 1) {
            None => None,
            Some((cs, p2)) => {
                let ghost tail = columns_view(cs@);
                let mut cs = cs;
                cs.insert(0, c);
                proof {
                    assert(columns_view(cs@) =~= seq![c@] + tail);
                }
                Some((cs, p2))
            },
        },
    }
}

/// Reads one row, exactly as [`dec_row`] describes.
fn decode_row(bytes: &Vec<u8>, pos: usize, fuel: usize) -> (r: Option<(Row, usize)>)
    requires
        pos <= bytes@.len(),
    ensures
        match r {
            Some((row, p)) => pos <= p <= bytes@.len() && dec_row(
                bytes@.skip(pos as int),
                fuel as nat,
            ) == Some((row@, bytes@.skip(p as int))),
            None => dec_row(bytes@.skip(pos as int), fuel as nat) is None,
        },
{
    match read_u64(bytes, pos) {
        None => None,
        Some((n, p)) => match decode_entry_list(bytes, p, n, fuel) {
            None => None,
            Some((entries, p2)) => Some((Row { entries }, p2)),
        },
    }
}

/// Reads `count` rows, exactly as [`dec_row_list`] describes.
fn decode_row_list(bytes: &Vec<u8>, pos: usize, count: u64, fuel: usize) -> (r: Option<
    (Vec<Row>, usize),
>)
    requires
        pos <= bytes@.len(),
    ensures
        match r {
            Some((rs, p)) => pos <= p <= bytes@.len() && dec_row_list(
                bytes@.skip(pos as int),
                count as int,
                fuel as nat,
            ) == Some((rows_view(rs@), bytes@.skip(p as int))),
            None => dec_row_list(bytes@.skip(pos as int), count as int, fuel as nat) is None,
        },
    decreases count,
{
    if count == 0 {
        let rs: Vec<Row> = Vec::new();
        proof {
            assert(rows_view(rs@) =~= Seq::<Seq<(Seq<char>, SpecValue)>>::empty());
        }
        return Some((rs, pos));
    }
    match decode_row(bytes, pos, fuel) {
        None => None,
        Some((row, p)) => match decode_row_list(bytes, p, count - 1, fuel) {
            None => None,
            Some((rs, p2)) => {
                let ghost tail = rows_view(rs@);
                let mut rs = rs;
                rs.insert(0, row);
                proof {
                    assert(rows_view(rs@) =~= seq![row@] + tail);
                }
                Some((rs, p2))
            },
        },
    }
}

/// Reads one table, exactly as [`dec_table`] describes.
fn decode_table(bytes: &Vec<u8>, pos: usize, fuel: usize) -> (r: Option<(Table, usize)>)
    requires
        pos <= bytes@.len(),
    ensures
        match r {
            Some((t, p)) => pos <= p <= bytes@.len() && dec_table(
                bytes@.skip(pos as int),
                fuel as nat,
            ) == Some((t@, bytes@.skip(p as int))),
            None => dec_table(bytes@.skip(pos as int), fuel as nat) is None,
        },
{
    match read_str(bytes, pos) {
        None => None,
        Some((id, p1)) => match read_str(bytes, p1) {
            None => None,
            Some((name, p2)) => match read_u64(bytes, p2) {
                None => None,
                Some((ncols, p3)) => match decode_column_list(bytes, p3, ncols) {
                    None => None,
                    Some((columns, p4)) => match read_u64(bytes, p4) {
                        None => None,
                        Some((nrows, p5)) => match decode_row_list(bytes, p5, nrows, fuel) {
                            None => None,
                            Some((rows, p6)) => Some((Table { id, name, columns, rows }, p6)),
                        },
                    },
                },
            },
        },
    }
}

/// Reads `count` tables, exactly as [`dec_table_list`] describes.
#[verifier::rlimit(100)]
fn decode_table_list(bytes: &Vec<u8>, pos: usize, count: u64, fuel: usize) -> (r: Option<
    (Vec<Table>, usize),
>)
    requires
        pos <= bytes@.len(),
    ensures
        match r {
            Some((ts, p)) => pos <= p <= bytes@.len() && dec_table_list(
                bytes@.skip(pos as int),
                count as int,
                fuel as nat,
            ) == Some((tables_view(ts@), bytes@.skip(p as int))),
            None => dec_table_list(bytes@.skip(pos as int), count as int, fuel as nat) is None,
        },
    decreases count,
{
    if count == 0 {
        let ts: Vec<Table> = Vec::new();
        proof {
            assert(tables_view(ts@) =~= Seq::<SpecTable>::empty());
        }
        return Some((ts, pos));
    }
    match decode_table(bytes, pos, fuel) {
        None => None,
        Some((t, p)) => match decode_table_list(bytes, p, count - 1, fuel) {
            None => None,
            Some((ts, p2)) => {
                let ghost tail = tables_view(ts@);
                let mut ts = ts;
                ts.insert(0, t);
                proof {
                    assert(tables_view(ts@) =~= seq![t@] + tail);
                }
                Some((ts, p2))
            },
        },
    }
}

/// Restores a store from snapshot bytes: yields the store whose tables the
/// bytes encode, exactly as [`dec_store`] describes, and refuses bytes that
/// do not decode in full or would break the unique-name invariant.
pub fn decode_store(bytes: &Vec<u8>) -> (r: Option<Store>)
    ensures
        match dec_store(bytes@) {
            Some(ts) => if names_unique(ts) {
                r matches Some(s) && s@ == ts && s.wf()
            } else {
                r is None
            },
            None => r is None,
        },
{
    let fuel = bytes.len();
    proof {
        assert(bytes@.skip(0) =~= bytes@);
    }
    match read_u64(bytes, 0) {
        None => None,
        Some((n, p)) => match decode_table_list(bytes, p, n, fuel) {
            None => None,
            Some((tables, p2)) => {
                if p2 == bytes.len() {
                    proof {
                        assert(bytes@.skip(p2 as int).len() == 0);
                    }
                    Store::from_tables(tables)
                } else {
                    None
                }
            },
        },
    }
}

/// The round-trip law: decoding the encoding of any store (whose counts fit
/// their 64-bit length prefixes, as every store held in memory does)
/// reproduces exactly the encoded tables, columns and rows.
pub proof fn lemma_store_round_trip(ts: Seq<SpecTable>)
    requires
        wf_tables(ts),
    ensures
        dec_store(enc_store(ts)) == Some(ts),
{
    let b = enc_store(ts);
    let n = ts.len() as u64;
    assert(b =~= enc_u64(n) + enc_table_list(ts));
    lemma_dec_u64(n, enc_table_list(ts));
    assert(n as int == ts.len());
    assert(enc_table_list(ts) =~= enc_table_list(ts) + Seq::<u8>::empty());
    lemma_dec_table_list(ts, Seq::empty(), b.len());
}

} // verus!
