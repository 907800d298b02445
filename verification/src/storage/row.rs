//! Rows on disk: a header of transaction id and tombstone, then the
//! columns in schema order.
//!
//! An integer column is 8 bytes, little-endian and signed. A text column
//! is a 4-byte little-endian count of bytes followed by that many bytes of
//! UTF-8. A boolean column is one byte: the encoder writes 1 or 0, the
//! decoder takes any byte but 0 for true.

use super::error::StorageError;
use super::layout::{
    get_i64, get_u32, get_u64, i64_at, i64_le, lemma_i64_u64_round_trip, lemma_le_len, u32_at,
    u32_le, u64_at, u64_le,
};
use vstd::bytes::*;
use vstd::prelude::*;
use vstd::slice::{slice_subrange, slice_to_vec};
use vstd::utf8::{decode_utf8, encode_utf8, valid_utf8};

verus! {

/// The length of a row's header: transaction id (8) and tombstone (1).
pub const ROW_HEADER_LEN: usize = 9;

/// A column value.
#[derive(Debug, Clone, PartialEq)]
pub enum Value {
    Int(i64),
    Text(String),
    Bool(bool),
}

/// The kind of a column.
#[derive(Debug, Clone, Copy, PartialEq, Eq)]
pub enum ColumnType {
    Int,
    Text,
    Bool,
}

/// A column value as contracts see it: a text is the sequence of its
/// characters.
pub enum ValueView {
    Int(i64),
    Text(Seq<char>),
    Bool(bool),
}

impl View for Value {
    type V = ValueView;

    open spec fn view(&self) -> ValueView {
        match self {
            Value::Int(n) => ValueView::Int(*n),
            Value::Text(s) => ValueView::Text(s@),
            Value::Bool(b) => ValueView::Bool(*b),
        }
    }
}

/// The values as contracts see them.
pub open spec fn views(values: Seq<Value>) -> Seq<ValueView> {
    Seq::new(values.len(), |i: int| values[i]@)
}

/// The kind of column that a value belongs in.
pub open spec fn kind_of(v: ValueView) -> ColumnType {
    match v {
        ValueView::Int(_) => ColumnType::Int,
        ValueView::Text(_) => ColumnType::Text,
        ValueView::Bool(_) => ColumnType::Bool,
    }
}

/// There is one value for each column, of the column's kind.
pub open spec fn conforms(schema: Seq<ColumnType>, values: Seq<ValueView>) -> bool {
    &&& schema.len() == values.len()
    &&& forall|i: int| 0 <= i < values.len() ==> kind_of(#[trigger] values[i]) == schema[i]
}

/// The value's length fits the row format: a text has fewer than 2^32
/// bytes of UTF-8.
pub open spec fn fits(v: ValueView) -> bool {
    v matches ValueView::Text(s) ==> encode_utf8(s).len() <= u32::MAX
}

/// Every value's length fits the row format.
pub open spec fn all_fit(values: Seq<ValueView>) -> bool {
    forall|i: int| 0 <= i < values.len() ==> fits(#[trigger] values[i])
}

/// The bytes of one column.
pub open spec fn value_bytes(v: ValueView) -> Seq<u8> {
    match v {
        ValueView::Int(n) => i64_le(n),
        ValueView::Text(s) => u32_le(encode_utf8(s).len() as u32) + encode_utf8(s),
        ValueView::Bool(b) => seq![if b { 1u8 } else { 0u8 }],
    }
}

/// The bytes of the columns, one after another.
pub open spec fn values_bytes(values: Seq<ValueView>) -> Seq<u8>
    decreases values.len(),
{
    if values.len() == 0 {
        Seq::empty()
    } else {
        values_bytes(values.drop_last()) + value_bytes(values.last())
    }
}

/// The bytes of a row: the header, then the columns.
pub open spec fn row_bytes(values: Seq<ValueView>, txn_id: u64, tombstone: u8) -> Seq<u8> {
    u64_le(txn_id) + seq![tombstone] + values_bytes(values)
}

/// What reading one column of kind `ty` at offset `pos` gives: the value
/// and the offset behind it, or why there is none.
pub open spec fn parse_value(ty: ColumnType, bytes: Seq<u8>, pos: int) -> Result<
    (ValueView, int),
    StorageError,
> {
    match ty {
        ColumnType::Int => if pos + 8 > bytes.len() {
            Err(StorageError::TruncatedField)
        } else {
            Ok((ValueView::Int(i64_at(bytes, pos)), pos + 8))
        },
        ColumnType::Text => if pos + 4 > bytes.len() {
            Err(StorageError::TruncatedField)
        } else if pos + 4 + u32_at(bytes, pos) > bytes.len() {
            Err(StorageError::TruncatedField)
        } else if !valid_utf8(bytes.subrange(pos + 4, pos + 4 + u32_at(bytes, pos))) {
            Err(StorageError::BadUtf8)
        } else {
            Ok(
                (
                    ValueView::Text(
                        decode_utf8(bytes.subrange(pos + 4, pos + 4 + u32_at(bytes, pos))),
                    ),
                    pos + 4 + u32_at(bytes, pos),
                ),
            )
        },
        ColumnType::Bool => if pos + 1 > bytes.len() {
            Err(StorageError::TruncatedField)
        } else {
            Ok((ValueView::Bool(bytes[pos] != 0), pos + 1))
        },
    }
}

/// What reading the columns of a schema from offset `pos` on gives: the
/// values and the offset behind them, or the failure of the first column
/// that cannot be read.
pub open spec fn parse_values(schema: Seq<ColumnType>, bytes: Seq<u8>, pos: int) -> Result<
    (Seq<ValueView>, int),
    StorageError,
>
    decreases schema.len(),
{
    if schema.len() == 0 {
        Ok((Seq::empty(), pos))
    } else {
        match parse_values(schema.drop_last(), bytes, pos) {
            Err(e) => Err(e),
            Ok((values, mid)) => match parse_value(schema.last(), bytes, mid) {
                Err(e) => Err(e),
                Ok((v, end)) => Ok((values.push(v), end)),
            },
        }
    }
}

/// What decoding a row gives: transaction id, tombstone and values, or
/// why the bytes are no row of the schema. Bytes behind the last column
/// are not looked at.
pub open spec fn parse_row(schema: Seq<ColumnType>, bytes: Seq<u8>) -> Result<
    (u64, u8, Seq<ValueView>),
    StorageError,
> {
    if bytes.len() < ROW_HEADER_LEN {
        Err(StorageError::ShortRow)
    } else {
        match parse_values(schema, bytes, ROW_HEADER_LEN as int) {
            Err(e) => Err(e),
            Ok((values, _)) => Ok((u64_at(bytes, 0), bytes[8], values)),
        }
    }
}

/// Encodes a row: the header of transaction id and tombstone, then the
/// values in the order of the schema. Values that do not conform to the
/// schema are refused.
pub fn encode(schema: &[ColumnType], values: &[Value], txn_id: u64, tombstone: u8) -> (res: Result<
    Vec<u8>,
    StorageError,
>)
    requires
        all_fit(views(values@)),
    ensures
        res is Ok <==> conforms(schema@, views(values@)),
        res matches Ok(b) ==> b@ == row_bytes(views(values@), txn_id, tombstone),
        res matches Err(e) ==> e == StorageError::SchemaMismatch,
{
    if schema.len() != values.len() {
        return Err(StorageError::SchemaMismatch);
    }
    let mut buf: Vec<u8> = Vec::new();
    let txn = u64_to_le_bytes(txn_id);
    buf.extend_from_slice(txn.as_slice());
    buf.push(tombstone);
    let ghost header = buf@;
    let n = values.len();
    let mut i: usize = 0;
    assert(views(values@).subrange(0, 0) =~= Seq::<ValueView>::empty());
    while i < n
        invariant
            n == values@.len(),
            n == schema@.len(),
            i <= n,
            all_fit(views(values@)),
            header == u64_le(txn_id) + seq![tombstone],
            buf@ == header + values_bytes(views(values@).subrange(0, i as int)),
            forall|j: int| 0 <= j < i ==> kind_of(#[trigger] views(values@)[j]) == schema@[j],
        decreases n - i,
    {
        let ghost before = buf@;
        let ghost done = views(values@).subrange(0, i as int);
        assert(fits(views(values@)[i as int]));
        match encode_value(&mut buf, &schema[i], &values[i]) {
            Ok(_) => {},
            Err(e) => {
                assert(kind_of(views(values@)[i as int]) != schema@[i as int]);
                return Err(e);
            },
        }
        proof {
            let next = views(values@).subrange(0, i + 1);
            assert(next.drop_last() =~= done);
            assert(next.last() == values@[i as int]@);
            assert(buf@ =~= header + values_bytes(next));
        }
        i = i + 1;
    }
    assert(views(values@).subrange(0, n as int) =~= views(values@));
    Ok(buf)
}

/// Decodes a row of the given schema into transaction id, tombstone and
/// values.
pub fn decode(schema: &[ColumnType], bytes: &[u8]) -> (res: Result<
    (u64, u8, Vec<Value>),
    StorageError,
>)
    ensures
        match res {
            Ok((txn_id, tombstone, values)) => parse_row(schema@, bytes@) == Ok::<
                (u64, u8, Seq<ValueView>),
                StorageError,
            >((txn_id, tombstone, views(values@))),
            Err(e) => parse_row(schema@, bytes@) == Err::<(u64, u8, Seq<ValueView>), StorageError>(e),
        },
{
    if bytes.len() < ROW_HEADER_LEN {
        return Err(StorageError::ShortRow);
    }
    let txn_id = get_u64(bytes, 0);
    let tombstone = bytes[8];
    let mut values: Vec<Value> = Vec::new();
    let mut pos: usize = ROW_HEADER_LEN;
    let n = schema.len();
    let mut i: usize = 0;
    assert(schema@.subrange(0, 0) =~= Seq::<ColumnType>::empty());
    assert(views(values@) =~= Seq::<ValueView>::empty());
    while i < n
        invariant
            n == schema@.len(),
            i <= n,
            ROW_HEADER_LEN <= bytes@.len(),
            pos <= bytes@.len(),
            parse_values(schema@.subrange(0, i as int), bytes@, ROW_HEADER_LEN as int) == Ok::<
                (Seq<ValueView>, int),
                StorageError,
            >((views(values@), pos as int)),
        decreases n - i,
    {
        let ghost done = schema@.subrange(0, i as int);
        let ghost next = schema@.subrange(0, i + 1);
        let ghost before = views(values@);
        proof {
            assert(next.drop_last() =~= done);
            assert(next.last() == schema@[i as int]);
        }
        match decode_value(bytes, pos, &schema[i]) {
            Ok((v, end)) => {
                values.push(v);
                pos = end;
                assert(views(values@) =~= before.push(v@));
            },
            Err(e) => {
                proof {
                    lemma_parse_fails_on(schema@, bytes@, ROW_HEADER_LEN as int, i + 1, e);
                }
                return Err(e);
            },
        }
        i = i + 1;
    }
    assert(schema@.subrange(0, n as int) =~= schema@);
    Ok((txn_id, tombstone, values))
}

/// Where the first `n` columns cannot be read, neither can all of them,
/// for the same reason.
pub proof fn lemma_parse_fails_on(
    schema: Seq<ColumnType>,
    bytes: Seq<u8>,
    pos: int,
    n: int,
    e: StorageError,
)
    requires
        0 <= n <= schema.len(),
        parse_values(schema.subrange(0, n), bytes, pos) == Err::<(Seq<ValueView>, int), StorageError>(
            e,
        ),
    ensures
        parse_values(schema, bytes, pos) == Err::<(Seq<ValueView>, int), StorageError>(e),
    decreases schema.len(),
{
    if n == schema.len() {
        assert(schema.subrange(0, n) =~= schema);
    } else {
        assert(schema.drop_last().subrange(0, n) =~= schema.subrange(0, n));
        lemma_parse_fails_on(schema.drop_last(), bytes, pos, n, e);
    }
}

/// Appends the bytes of one column to `buf`. A value of another kind than
/// the column's is refused.
pub fn encode_value(buf: &mut Vec<u8>, ty: &ColumnType, v: &Value) -> (res: Result<(), StorageError>)
    requires
        fits(v@),
    ensures
        res is Ok <==> kind_of(v@) == *ty,
        res is Ok ==> final(buf)@ == old(buf)@ + value_bytes(v@),
        res matches Err(e) ==> e == StorageError::SchemaMismatch && final(buf)@ == old(buf)@,
{
    match (ty, v) {
        (ColumnType::Int, Value::Int(n)) => {
            let b = u64_to_le_bytes(*n as u64);
            buf.extend_from_slice(b.as_slice());
        },
        (ColumnType::Text, Value::Text(s)) => {
            let b = s.as_str().as_bytes();
            let len = u32_to_le_bytes(b.len() as u32);
            let ghost before = buf@;
            buf.extend_from_slice(len.as_slice());
            buf.extend_from_slice(b);
            assert(buf@ =~= before + value_bytes(v@));
        },
        (ColumnType::Bool, Value::Bool(b)) => {
            let ghost before = buf@;
            buf.push(if *b { 1 } else { 0 });
            assert(buf@ =~= before + value_bytes(v@));
        },
        _ => {
            return Err(StorageError::SchemaMismatch);
        },
    }
    Ok(())
}

/// The error of `String::from_utf8`; nothing is said of what it holds.
#[verifier::external_type_specification]
#[verifier::external_body]
pub struct ExFromUtf8Error(std::string::FromUtf8Error);

/// `String::from_utf8` of the standard library: it makes a string of the
/// bytes where they are UTF-8, and fails where they are not. The string
/// it makes is the one whose UTF-8 encoding the bytes are.
#[verifier::external_body]
fn string_from_utf8(bytes: Vec<u8>) -> (res: Result<String, std::string::FromUtf8Error>)
    ensures
        res is Ok <==> valid_utf8(bytes@),
        res matches Ok(s) ==> encode_utf8(s@) == bytes@,
{
    String::from_utf8(bytes)
}

/// Reads one column of kind `ty` at offset `pos`. Returns the value and
/// the offset behind it.
pub fn decode_value(bytes: &[u8], pos: usize, ty: &ColumnType) -> (res: Result<
    (Value, usize),
    StorageError,
>)
    requires
        pos <= bytes@.len(),
    ensures
        match res {
            Ok((v, end)) => parse_value(*ty, bytes@, pos as int) == Ok::<
                (ValueView, int),
                StorageError,
            >((v@, end as int)) && end <= bytes@.len(),
            Err(e) => parse_value(*ty, bytes@, pos as int) == Err::<(ValueView, int), StorageError>(
                e,
            ),
        },
{
    let len = bytes.len();
    match ty {
        ColumnType::Int => {
            if len - pos < 8 {
                return Err(StorageError::TruncatedField);
            }
            Ok((Value::Int(get_i64(bytes, pos)), pos + 8))
        },
        ColumnType::Text => {
            if len - pos < 4 {
                return Err(StorageError::TruncatedField);
            }
            let n = get_u32(bytes, pos) as usize;
            if len - pos - 4 < n {
                return Err(StorageError::TruncatedField);
            }
            let raw = slice_to_vec(slice_subrange(bytes, pos + 4, pos + 4 + n));
            match string_from_utf8(raw) {
                Ok(s) => {
                    proof {
                        vstd::utf8::encode_utf8_decode_utf8(s@);
                    }
                    Ok((Value::Text(s), pos + 4 + n))
                },
                Err(_) => Err(StorageError::BadUtf8),
            }
        },
        ColumnType::Bool => {
            if len - pos < 1 {
                return Err(StorageError::TruncatedField);
            }
            Ok((Value::Bool(bytes[pos] != 0), pos + 1))
        },
    }
}

/// A column that holds the bytes of a value reads as that value.
pub proof fn lemma_parse_value_of(ty: ColumnType, v: ValueView, bytes: Seq<u8>, pos: int)
    requires
        kind_of(v) == ty,
        fits(v),
        0 <= pos,
        pos + value_bytes(v).len() <= bytes.len(),
        bytes.subrange(pos, pos + value_bytes(v).len()) == value_bytes(v),
    ensures
        parse_value(ty, bytes, pos) == Ok::<(ValueView, int), StorageError>(
            (v, pos + value_bytes(v).len()),
        ),
{
    lemma_le_len();
    lemma_auto_spec_u32_to_from_le_bytes();
    lemma_auto_spec_u64_to_from_le_bytes();
    let field = value_bytes(v);
    match v {
        ValueView::Int(n) => {
            lemma_i64_u64_round_trip(n);
        },
        ValueView::Text(s) => {
            let text = encode_utf8(s);
            let n = text.len() as u32;
            assert(bytes.subrange(pos, pos + 4) =~= field.subrange(0, 4));
            assert(field.subrange(0, 4) =~= u32_le(n));
            assert(bytes.subrange(pos + 4, pos + 4 + n) =~= field.subrange(4, 4 + n));
            assert(field.subrange(4, 4 + n) =~= text);
            vstd::utf8::encode_utf8_valid_utf8(s);
            vstd::utf8::encode_utf8_decode_utf8(s);
        },
        ValueView::Bool(b) => {
            assert(bytes[pos] == field[0]);
        },
    }
}

/// Columns that hold the bytes of conforming values read as those
/// values.
pub proof fn lemma_parse_values_of(
    schema: Seq<ColumnType>,
    values: Seq<ValueView>,
    bytes: Seq<u8>,
    pos: int,
)
    requires
        conforms(schema, values),
        all_fit(values),
        0 <= pos,
        pos + values_bytes(values).len() <= bytes.len(),
        bytes.subrange(pos, pos + values_bytes(values).len()) == values_bytes(values),
    ensures
        parse_values(schema, bytes, pos) == Ok::<(Seq<ValueView>, int), StorageError>(
            (values, pos + values_bytes(values).len()),
        ),
    decreases values.len(),
{
    if values.len() == 0 {
        assert(values =~= Seq::<ValueView>::empty());
    } else {
        let front = values.drop_last();
        let last = values.last();
        let front_len = values_bytes(front).len() as int;
        let all = values_bytes(values);
        assert(all == values_bytes(front) + value_bytes(last));
        assert(bytes.subrange(pos, pos + front_len) =~= all.subrange(0, front_len));
        assert(all.subrange(0, front_len) =~= values_bytes(front));
        assert(conforms(schema.drop_last(), front)) by {
            assert forall|i: int| 0 <= i < front.len() implies kind_of(#[trigger] front[i])
                == schema.drop_last()[i] by {
                assert(front[i] == values[i]);
            }
        }
        assert(all_fit(front)) by {
            assert forall|i: int| 0 <= i < front.len() implies fits(#[trigger] front[i]) by {
                assert(front[i] == values[i]);
            }
        }
        lemma_parse_values_of(schema.drop_last(), front, bytes, pos);
        assert(bytes.subrange(pos + front_len, pos + all.len()) =~= all.subrange(
            front_len,
            all.len() as int,
        ));
        assert(all.subrange(front_len, all.len() as int) =~= value_bytes(last));
        assert(kind_of(values[values.len() - 1]) == schema[values.len() - 1]);
        assert(fits(values[values.len() - 1]));
        lemma_parse_value_of(schema.last(), last, bytes, pos + front_len);
        assert(front.push(last) =~= values);
    }
}

/// Decoding the bytes of a row gives back the transaction id, the
/// tombstone and the values that were encoded, whatever they are, as long
/// as the values conform to the schema.
pub proof fn lemma_round_trip(
    schema: Seq<ColumnType>,
    values: Seq<ValueView>,
    txn_id: u64,
    tombstone: u8,
)
    requires
        conforms(schema, values),
        all_fit(values),
    ensures
        parse_row(schema, row_bytes(values, txn_id, tombstone)) == Ok::<
            (u64, u8, Seq<ValueView>),
            StorageError,
        >((txn_id, tombstone, values)),
{
    lemma_le_len();
    lemma_auto_spec_u64_to_from_le_bytes();
    let bytes = row_bytes(values, txn_id, tombstone);
    let body = values_bytes(values);
    assert(bytes.len() == ROW_HEADER_LEN + body.len());
    assert(bytes.subrange(0, 8) =~= u64_le(txn_id));
    assert(bytes[8] == tombstone);
    assert(bytes.subrange(ROW_HEADER_LEN as int, ROW_HEADER_LEN + body.len()) =~= body);
    lemma_parse_values_of(schema, values, bytes, ROW_HEADER_LEN as int);
}

} // verus!
