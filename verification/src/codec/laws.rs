//! Laws of the codec, proved over the byte-exact specification: the two
//! directions are mutually inverse on canonical messages, encoding is
//! deterministic, the checksum detects any single-byte change, and array
//! encodings grow linearly with the element count.

use vstd::prelude::*;

use crate::codec::model::{
    model_find, model_store, spec_count_val, spec_decode_array, spec_decode_ext_fields,
    spec_decode_field, spec_decode_fields, spec_decode_msg, spec_decode_row, spec_decode_rows,
    spec_decode_scalar, spec_encode_array, spec_encode_ext_fields, spec_encode_extension,
    spec_encode_field, spec_encode_fields, spec_encode_msg, spec_encode_row, spec_encode_row_from,
    spec_encode_rows, spec_encode_scalar, spec_header_bytes, spec_value_for, tdiv100,
    type_matches, MsgModel,
};
use crate::codec::types::{
    spec_validate_amount, spec_validate_date, spec_validate_ntime, spec_validate_price,
    spec_validate_quantity,
};
use crate::codec::wire::{
    is_unicode_ws, lemma_leading_ws_exact, lemma_leading_ws_exact_end, lemma_trailing_ws_exact,
    pad_trunc, spec_u32_from_be_bytes, spec_u32_to_be_bytes, sum8, trim_chars,
};
use crate::config::manager::ConfigManager;
use crate::config::types::{BaseFieldDef, FieldDef, FieldType};
use crate::message::{Message, Val};
use crate::util::MessageError;
use vstd::utf8::{decode_utf8, encode_utf8, valid_utf8};

verus! {

broadcast use vstd::seq_lib::group_seq_properties;

/// The wire width in bytes of a scalar field.
pub open spec fn scalar_width(def: BaseFieldDef) -> int {
    match def.ftype {
        FieldType::U8 => 1,
        FieldType::U16 => 2,
        FieldType::U32 => 4,
        FieldType::U64 => 8,
        FieldType::I64 => 8,
        FieldType::Char => def.length->Some_0 as int,
        FieldType::Price => 8,
        FieldType::Quantity => 8,
        FieldType::Amount => 8,
        FieldType::Date => 4,
        FieldType::NTime => 8,
        FieldType::Array => 0,
    }
}

/// A scalar value that survives the wire unchanged: its tag matches the
/// declared type, it passes the type's validation, text carries no
/// surrounding whitespace and its encoding fits the declared width, and a
/// Quantity carries no finer precision than the wire keeps.
pub open spec fn scalar_canonical(def: BaseFieldDef, v: Val) -> bool {
    &&& type_matches(def.ftype, v)
    &&& match def.ftype {
        FieldType::U8 => true,
        FieldType::U16 => true,
        FieldType::U32 => true,
        FieldType::U64 => true,
        FieldType::I64 => true,
        FieldType::Char => {
            let s = v->Str_0;
            &&& def.length is Some
            &&& encode_utf8(s).len() <= def.length->Some_0
            &&& s.len() > 0 ==> !is_unicode_ws(s.first()) && !is_unicode_ws(s.last())
        },
        FieldType::Price => spec_validate_price(v->Float_0),
        FieldType::Quantity => v->Float_0 % 100 == 0 && spec_validate_quantity(
            tdiv100(v->Float_0 as int) as i64,
        ),
        FieldType::Amount => spec_validate_amount(v->Float_0),
        FieldType::Date => spec_validate_date(v->U32_0),
        FieldType::NTime => spec_validate_ntime(v->U64_0),
        FieldType::Array => false,
    }
}

/// A canonical scalar encodes successfully, to exactly its wire width.
pub proof fn lemma_scalar_encodes(def: BaseFieldDef, v: Val)
    requires
        scalar_canonical(def, v),
    ensures
        spec_encode_scalar(def, v) is Ok,
        spec_encode_scalar(def, v)->Ok_0.len() == scalar_width(def),
{
    broadcast use crate::codec::wire::lemma_be_bytes_roundtrip;

    match def.ftype {
        FieldType::Char => {
            let s = v->Str_0;
            let len = def.length->Some_0 as int;
            assert(pad_trunc(encode_utf8(s), len).len() == len);
        },
        _ => {},
    }
}

/// Round-trip of one scalar: decoding, at `pos`, bytes that hold the
/// encoding of a canonical scalar yields that scalar back and leaves the
/// cursor after it.
pub proof fn lemma_scalar_roundtrip(def: BaseFieldDef, v: Val, buf: Seq<u8>, pos: int)
    requires
        scalar_canonical(def, v),
        0 <= pos,
        pos + scalar_width(def) <= buf.len(),
        buf.subrange(pos, pos + scalar_width(def)) == spec_encode_scalar(def, v)->Ok_0,
    ensures
        spec_decode_scalar(def, buf, pos) == Ok::<_, MessageError>((v, pos + scalar_width(def))),
{
    broadcast use crate::codec::wire::lemma_be_bytes_roundtrip;

    lemma_scalar_encodes(def, v);
    let b = spec_encode_scalar(def, v)->Ok_0;
    match def.ftype {
        FieldType::U8 => {
            assert(buf[pos] == b[0]);
        },
        FieldType::Char => {
            let s = v->Str_0;
            let len = def.length->Some_0 as int;
            let sb = encode_utf8(s);
            vstd::utf8::encode_utf8_valid_utf8(s);
            vstd::utf8::encode_utf8_decode_utf8(s);
            let k = (len - sb.len()) as nat;
            let spaces = Seq::new(k, |i: int| ' ');
            let spaces_b = Seq::new(k, |i: int| 32u8);
            assert(vstd::utf8::is_ascii_chars(spaces));
            vstd::utf8::is_ascii_chars_encode_utf8(spaces);
            assert(encode_utf8(spaces) =~= spaces_b);
            vstd::utf8::encode_utf8_valid_utf8(spaces);
            vstd::utf8::encode_utf8_decode_utf8(spaces);
            let field = buf.subrange(pos, pos + len);
            assert(field == pad_trunc(sb, len));
            assert(field =~= sb + spaces_b);
            vstd::utf8::valid_utf8_concat(sb, spaces_b);
            assert(valid_utf8(field));
            // The padded field decodes to the text followed by the padding.
            if k == 0 {
                assert(field =~= sb);
                assert(decode_utf8(field) == s);
            } else {
                assert(field[sb.len() as int] == 32u8);
                assert(!vstd::utf8::is_continuation_byte(field[sb.len() as int]));
                vstd::utf8::is_char_boundary_iff_not_is_continuation_byte(field, sb.len() as int);
                vstd::utf8::decode_utf8_split(field, sb.len() as int);
                assert(field.subrange(0, sb.len() as int) =~= sb);
                assert(field.subrange(sb.len() as int, field.len() as int) =~= spaces_b);
                assert(decode_utf8(field) == s + spaces);
            }
            // Trimming strips exactly the padding: the text's own ends are
            // not whitespace.
            let d = decode_utf8(field);
            if s.len() == 0 {
                assert(d =~= spaces);
                assert(forall|i: int| 0 <= i < d.len() ==> is_unicode_ws(#[trigger] d[i]));
                lemma_leading_ws_exact_end(d);
                assert(trim_chars(d) =~= s);
            } else {
                assert(d =~= s + spaces);
                assert(d[0] == s.first());
                assert(!is_unicode_ws(d[0]));
                lemma_leading_ws_exact(d, 0);
                assert(forall|i: int|
                    s.len() <= i < d.len() ==> #[trigger] d[i] == ' ' && is_unicode_ws(d[i]));
                assert(d[s.len() - 1] == s.last());
                assert(!is_unicode_ws(d[d.len() - (d.len() - s.len()) - 1]));
                if d.len() > s.len() {
                    lemma_trailing_ws_exact(d, d.len() - s.len());
                } else {
                    assert(d =~= s);
                    lemma_trailing_ws_exact(d, 0);
                }
                assert(trim_chars(d) =~= s);
            }
            assert(spec_decode_scalar(def, buf, pos) == Ok::<_, MessageError>(
                (Val::Str(trim_chars(decode_utf8(field))), pos + len),
            ));
        },
        FieldType::Quantity => {
            let u = v->Float_0;
            let w = tdiv100(u as int) as i64;
            assert(buf.subrange(pos, pos + 8) == b);
            assert(u as int == w * 100) by {
                assert(u % 100 == 0);
                assert(u == 100 * (u / 100)) by {
                    vstd::arithmetic::div_mod::lemma_fundamental_div_mod(u as int, 100);
                }
                if u >= 0 {
                    assert(tdiv100(u as int) == u / 100);
                } else {
                    assert((-u) % 100 == 0 && -u == 100 * ((-u) / 100)) by {
                        vstd::arithmetic::div_mod::lemma_fundamental_div_mod(-u as int, 100);
                        assert((-u) % 100 == 0) by (nonlinear_arith)
                            requires
                                u % 100 == 0,
                                u < 0,
                        ;
                    }
                    assert(tdiv100(u as int) == -((-u) / 100));
                    assert(100 * -((-u) / 100) == -(100 * ((-u) / 100))) by (nonlinear_arith);
                }
            }
        },
        _ => {},
    }
}

/// Determinism: a successful encoding is a function of the registry and
/// the message alone, so two successful encodings of the same message under
/// the same registry are byte-identical.
pub proof fn lemma_encode_deterministic(cm: ConfigManager, m: Message, b1: Seq<u8>, b2: Seq<u8>)
    requires
        spec_encode_msg(cm, m) == Ok::<_, MessageError>(b1),
        spec_encode_msg(cm, m) == Ok::<_, MessageError>(b2),
    ensures
        b1 == b2,
{
}

/// The plain integer sum of a byte sequence.
pub open spec fn byte_total(s: Seq<u8>) -> int
    decreases s.len(),
{
    if s.len() == 0 {
        0
    } else {
        byte_total(s.drop_last()) + s.last()
    }
}

/// The wraparound sum is the plain sum reduced modulo 256.
pub proof fn lemma_sum8_total(s: Seq<u8>)
    ensures
        sum8(s) as int == byte_total(s) % 256,
    decreases s.len(),
{
    if s.len() == 0 {
    } else {
        lemma_sum8_total(s.drop_last());
        let t = byte_total(s.drop_last());
        let x = s.last() as int;
        assert((t % 256 + x) % 256 == (t + x) % 256) by (nonlinear_arith);
    }
}

proof fn lemma_byte_total_update(s: Seq<u8>, i: int, b: u8)
    requires
        0 <= i < s.len(),
    ensures
        byte_total(s.update(i, b)) == byte_total(s) - s[i] + b,
    decreases s.len(),
{
    if i == s.len() - 1 {
        assert(s.update(i, b).drop_last() =~= s.drop_last());
    } else {
        lemma_byte_total_update(s.drop_last(), i, b);
        assert(s.update(i, b).drop_last() =~= s.drop_last().update(i, b));
        assert(s.update(i, b).last() == s.last());
    }
}

/// Changing one byte changes the 8-bit wraparound sum.
pub proof fn lemma_sum8_update(s: Seq<u8>, i: int, b: u8)
    requires
        0 <= i < s.len(),
        b != s[i],
    ensures
        sum8(s.update(i, b)) != sum8(s),
{
    lemma_sum8_total(s);
    lemma_sum8_total(s.update(i, b));
    lemma_byte_total_update(s, i, b);
    let t = byte_total(s);
    let d = b - s[i];
    assert(-256 < d < 256 && d != 0);
    assert((t + d) % 256 != t % 256) by (nonlinear_arith)
        requires
            -256 < d < 256,
            d != 0,
    ;
}

/// Checksum sensitivity: changing any single byte of a previously valid
/// encoded buffer — other than a byte of the body-length word, whose change
/// reframes the buffer, or a byte past the checksum, which no check reads —
/// makes decoding fail with a checksum error.
pub proof fn lemma_checksum_sensitivity(cm: ConfigManager, buf: Seq<u8>, i: int, b: u8)
    requires
        spec_decode_msg(cm, buf) is Ok,
        0 <= i < buf.len(),
        b != buf[i],
        !(8 <= i < 12),
        i < 12 + spec_u32_from_be_bytes(buf.subrange(8, 12)) + 4,
    ensures
        spec_decode_msg(cm, buf.update(i, b)) == Err::<MsgModel, _>(MessageError::ChecksumError),
{
    let buf2 = buf.update(i, b);
    let body_length = spec_u32_from_be_bytes(buf.subrange(8, 12));
    let body_end = 12 + body_length as int;
    assert(buf.len() >= body_end + 4);
    assert(buf2.subrange(8, 12) =~= buf.subrange(8, 12));
    assert(buf2.len() == buf.len());
    let stored = spec_u32_from_be_bytes(buf.subrange(body_end, body_end + 4));
    assert((sum8(buf.take(body_end)) as u32) == stored);
    if i < body_end {
        assert(buf2.take(body_end) =~= buf.take(body_end).update(i, b));
        lemma_sum8_update(buf.take(body_end), i, b);
        assert(buf2.subrange(body_end, body_end + 4) =~= buf.subrange(body_end, body_end + 4));
        assert((sum8(buf2.take(body_end)) as u32) != spec_u32_from_be_bytes(
            buf2.subrange(body_end, body_end + 4),
        ));
    } else {
        assert(body_end <= i < body_end + 4);
        assert(buf2.take(body_end) =~= buf.take(body_end));
        let w = buf.subrange(body_end, body_end + 4);
        let w2 = buf2.subrange(body_end, body_end + 4);
        assert(w2[i - body_end] == b && w[i - body_end] == buf[i]);
        assert(spec_u32_from_be_bytes(w2) != spec_u32_from_be_bytes(w)) by {
            vstd::bytes::lemma_auto_spec_u32_to_from_le_bytes();
            if spec_u32_from_be_bytes(w2) == spec_u32_from_be_bytes(w) {
                assert(vstd::bytes::spec_u32_to_le_bytes(
                    vstd::bytes::spec_u32_from_le_bytes(w.reverse()),
                ) =~= w.reverse());
                assert(vstd::bytes::spec_u32_to_le_bytes(
                    vstd::bytes::spec_u32_from_le_bytes(w2.reverse()),
                ) =~= w2.reverse());
                assert(w.reverse() == w2.reverse());
                assert(w.reverse().reverse() =~= w);
                assert(w2.reverse().reverse() =~= w2);
                assert(w == w2);
                assert(w[i - body_end] == w2[i - body_end]);
                assert(false);
            }
        }
    }
}


/// A window of `buf` holding a concatenation splits into windows holding
/// the parts.
pub proof fn lemma_subrange_split(buf: Seq<u8>, pos: int, b: Seq<u8>, rest: Seq<u8>)
    requires
        0 <= pos,
        pos + b.len() + rest.len() <= buf.len(),
        buf.subrange(pos, pos + b.len() + rest.len()) == b + rest,
    ensures
        buf.subrange(pos, pos + b.len()) == b,
        buf.subrange(pos + b.len(), pos + b.len() + rest.len()) == rest,
{
    assert forall|t: int| 0 <= t < b.len() implies buf[pos + t] == b[t] by {
        assert(buf.subrange(pos, pos + b.len() + rest.len())[t] == buf[pos + t]);
    }
    assert forall|t: int| 0 <= t < rest.len() implies buf[pos + b.len() + t] == rest[t] by {
        assert(buf.subrange(pos, pos + b.len() + rest.len())[b.len() + t] == buf[pos + b.len()
            + t]);
    }
    assert(buf.subrange(pos, pos + b.len()) =~= b);
    assert(buf.subrange(pos + b.len(), pos + b.len() + rest.len()) =~= rest);
}

/// The wire width of one array element from struct field `k` on.
pub open spec fn row_width_from(fields: Seq<BaseFieldDef>, k: int) -> int
    decreases fields.len() - k,
{
    if k >= fields.len() {
        0
    } else {
        scalar_width(fields[k]) + row_width_from(fields, k + 1)
    }
}

/// The wire width of one whole array element.
pub open spec fn row_width(fields: Seq<BaseFieldDef>) -> int {
    row_width_from(fields, 0)
}

/// A row that survives the wire: exactly one canonical scalar per struct
/// field.
pub open spec fn row_canonical(fields: Seq<BaseFieldDef>, row: Seq<Val>) -> bool {
    &&& row.len() == fields.len()
    &&& forall|j: int| 0 <= j < fields.len() ==> scalar_canonical(#[trigger] fields[j], row[j])
}

/// A canonical row encodes successfully, to exactly its wire width.
pub proof fn lemma_row_encodes(fields: Seq<BaseFieldDef>, row: Seq<Val>, k: int)
    requires
        row_canonical(fields, row),
        0 <= k <= fields.len(),
    ensures
        spec_encode_row_from(fields, row, k) is Ok,
        spec_encode_row_from(fields, row, k)->Ok_0.len() == row_width_from(fields, k),
        row_width_from(fields, k) >= 0,
    decreases fields.len() - k,
{
    if k >= fields.len() {
    } else {
        lemma_scalar_encodes(fields[k], row[k]);
        lemma_row_encodes(fields, row, k + 1);
    }
}

/// Round-trip of one array element, from struct field `k` on.
pub proof fn lemma_row_roundtrip(fields: Seq<BaseFieldDef>, row: Seq<Val>, buf: Seq<u8>, pos: int, k: int)
    requires
        row_canonical(fields, row),
        0 <= k <= fields.len(),
        0 <= pos,
        pos + row_width_from(fields, k) <= buf.len(),
        buf.subrange(pos, pos + row_width_from(fields, k)) == spec_encode_row_from(
            fields,
            row,
            k,
        )->Ok_0,
    ensures
        spec_decode_row(fields.skip(k), buf, pos) == Ok::<_, MessageError>(
            (row.skip(k), pos + row_width_from(fields, k)),
        ),
    decreases fields.len() - k,
{
    lemma_row_encodes(fields, row, k);
    if k >= fields.len() {
        assert(fields.skip(k) =~= Seq::<BaseFieldDef>::empty());
        assert(row.skip(k) =~= Seq::<Val>::empty());
    } else {
        lemma_scalar_encodes(fields[k], row[k]);
        lemma_row_encodes(fields, row, k + 1);
        let w = scalar_width(fields[k]);
        let b = spec_encode_scalar(fields[k], row[k])->Ok_0;
        let rest = spec_encode_row_from(fields, row, k + 1)->Ok_0;
        assert(spec_encode_row_from(fields, row, k)->Ok_0 == b + rest);
        lemma_subrange_split(buf, pos, b, rest);
        lemma_scalar_roundtrip(fields[k], row[k], buf, pos);
        lemma_row_roundtrip(fields, row, buf, pos + w, k + 1);
        assert(fields.skip(k)[0] == fields[k]);
        assert(fields.skip(k).drop_first() =~= fields.skip(k + 1));
        assert(seq![row[k]] + row.skip(k + 1) =~= row.skip(k));
    }
}

/// Canonical rows encode successfully, each to the fixed element width.
pub proof fn lemma_rows_encodes(fields: Seq<BaseFieldDef>, rows: Seq<Seq<Val>>)
    requires
        forall|a: int| 0 <= a < rows.len() ==> row_canonical(fields, #[trigger] rows[a]),
    ensures
        spec_encode_rows(fields, rows) is Ok,
        spec_encode_rows(fields, rows)->Ok_0.len() == rows.len() * row_width(fields),
    decreases rows.len(),
{
    if rows.len() == 0 {
    } else {
        lemma_row_encodes(fields, rows[0], 0);
        lemma_rows_encodes(fields, rows.drop_first());
        assert(rows.drop_first().len() == rows.len() - 1);
        assert((rows.len() - 1) * row_width(fields) + row_width(fields) == rows.len()
            * row_width(fields)) by (nonlinear_arith);
    }
}

/// Round-trip of a whole element list.
pub proof fn lemma_rows_roundtrip(fields: Seq<BaseFieldDef>, rows: Seq<Seq<Val>>, buf: Seq<u8>, pos: int)
    requires
        forall|a: int| 0 <= a < rows.len() ==> row_canonical(fields, #[trigger] rows[a]),
        0 <= pos,
        pos + spec_encode_rows(fields, rows)->Ok_0.len() <= buf.len(),
        spec_encode_rows(fields, rows) is Ok,
        buf.subrange(pos, pos + spec_encode_rows(fields, rows)->Ok_0.len()) == spec_encode_rows(
            fields,
            rows,
        )->Ok_0,
    ensures
        spec_decode_rows(fields, buf, pos, rows.len() as int) == Ok::<_, MessageError>(
            (rows, pos + spec_encode_rows(fields, rows)->Ok_0.len()),
        ),
    decreases rows.len(),
{
    lemma_rows_encodes(fields, rows);
    if rows.len() == 0 {
    } else {
        lemma_row_encodes(fields, rows[0], 0);
        lemma_rows_encodes(fields, rows.drop_first());
        let b = spec_encode_row(fields, rows[0])->Ok_0;
        let rest = spec_encode_rows(fields, rows.drop_first())->Ok_0;
        assert(spec_encode_rows(fields, rows)->Ok_0 == b + rest);
        lemma_subrange_split(buf, pos, b, rest);
        lemma_row_roundtrip(fields, rows[0], buf, pos, 0);
        assert(fields.skip(0) =~= fields);
        assert(rows[0].skip(0) =~= rows[0]);
        lemma_rows_roundtrip(fields, rows.drop_first(), buf, pos + b.len());
        assert(seq![rows[0]] + rows.drop_first() =~= rows);
    }
}

/// An array value that survives the wire: a full array definition with a
/// U8, U16 or U32 count field, canonical rows, and a count that fits the
/// count field's width.
pub open spec fn array_canonical(fd: FieldDef, rows: Seq<Seq<Val>>) -> bool {
    &&& fd.base.ftype is Array
    &&& fd.length_field is Some
    &&& fd.struct_def is Some
    &&& {
        let lf = fd.length_field->Some_0;
        let sd = fd.struct_def->Some_0;
        &&& (lf.ftype is U8 || lf.ftype is U16 || lf.ftype is U32)
        &&& rows.len() < (if lf.ftype is U8 {
            0x100int
        } else if lf.ftype is U16 {
            0x10000int
        } else {
            0x1_0000_0000int
        })
        &&& forall|a: int| 0 <= a < rows.len() ==> row_canonical(sd.fields@, #[trigger] rows[a])
    }
}

/// A canonical array encodes successfully, and its size is linear in the
/// element count: the count field's width plus count times the element
/// width.
pub proof fn lemma_array_encodes(fd: FieldDef, rows: Seq<Seq<Val>>)
    requires
        array_canonical(fd, rows),
    ensures
        spec_encode_array(fd, rows) is Ok,
        spec_encode_array(fd, rows)->Ok_0.len() == scalar_width(fd.length_field->Some_0)
            + rows.len() * row_width(fd.struct_def->Some_0.fields@),
{
    let lf = fd.length_field->Some_0;
    let sd = fd.struct_def->Some_0;
    let cv = spec_count_val(lf.ftype, rows.len() as int);
    assert(scalar_canonical(lf, cv));
    lemma_scalar_encodes(lf, cv);
    lemma_rows_encodes(sd.fields@, rows);
}

/// Round-trip of an array field: the count comes back exactly (it fits its
/// width), then every element.
pub proof fn lemma_array_roundtrip(fd: FieldDef, rows: Seq<Seq<Val>>, buf: Seq<u8>, pos: int)
    requires
        array_canonical(fd, rows),
        0 <= pos,
        pos + spec_encode_array(fd, rows)->Ok_0.len() <= buf.len(),
        buf.subrange(pos, pos + spec_encode_array(fd, rows)->Ok_0.len()) == spec_encode_array(
            fd,
            rows,
        )->Ok_0,
    ensures
        spec_decode_array(fd, buf, pos) == Ok::<_, MessageError>(
            (Val::Rows(rows), pos + spec_encode_array(fd, rows)->Ok_0.len()),
        ),
{
    lemma_array_encodes(fd, rows);
    let lf = fd.length_field->Some_0;
    let sd = fd.struct_def->Some_0;
    let cv = spec_count_val(lf.ftype, rows.len() as int);
    assert(scalar_canonical(lf, cv));
    lemma_scalar_encodes(lf, cv);
    lemma_rows_encodes(sd.fields@, rows);
    let cb = spec_encode_scalar(lf, cv)->Ok_0;
    let rb = spec_encode_rows(sd.fields@, rows)->Ok_0;
    assert(spec_encode_array(fd, rows)->Ok_0 == cb + rb);
    lemma_subrange_split(buf, pos, cb, rb);
    lemma_scalar_roundtrip(lf, cv, buf, pos);
    let p1 = pos + cb.len();
    lemma_rows_roundtrip(sd.fields@, rows, buf, p1);
    match cv {
        Val::U8(c) => {
            assert(c as int == rows.len() as int);
        },
        Val::U16(c) => {
            assert(c as int == rows.len() as int);
        },
        Val::U32(c) => {
            assert(c as int == rows.len() as int);
        },
        _ => {
            assert(false);
        },
    }
}


/// One whole body field that survives the wire.
pub open spec fn field_canonical(fd: FieldDef, v: Val) -> bool {
    if fd.base.ftype is Array {
        v is Rows && array_canonical(fd, v->Rows_0)
    } else {
        scalar_canonical(fd.base, v)
    }
}

/// A canonical body field encodes successfully.
pub proof fn lemma_field_encodes(fd: FieldDef, v: Val)
    requires
        field_canonical(fd, v),
    ensures
        spec_encode_field(fd, v) is Ok,
{
    if fd.base.ftype is Array {
        lemma_array_encodes(fd, v->Rows_0);
    } else {
        lemma_scalar_encodes(fd.base, v);
    }
}

/// Round-trip of one body field.
pub proof fn lemma_field_roundtrip(fd: FieldDef, v: Val, buf: Seq<u8>, pos: int)
    requires
        field_canonical(fd, v),
        0 <= pos,
        pos + spec_encode_field(fd, v)->Ok_0.len() <= buf.len(),
        buf.subrange(pos, pos + spec_encode_field(fd, v)->Ok_0.len()) == spec_encode_field(
            fd,
            v,
        )->Ok_0,
    ensures
        spec_decode_field(fd, buf, pos) == Ok::<_, MessageError>(
            (v, pos + spec_encode_field(fd, v)->Ok_0.len()),
        ),
{
    lemma_field_encodes(fd, v);
    if fd.base.ftype is Array {
        lemma_array_roundtrip(fd, v->Rows_0, buf, pos);
    } else {
        lemma_scalar_encodes(fd.base, v);
        lemma_scalar_roundtrip(fd.base, v, buf, pos);
    }
}

/// No two fields of the message share a name.
pub open spec fn msg_names_unique(m: Message) -> bool {
    forall|a: int, b: int|
        0 <= a < b < m.fields@.len() ==> (#[trigger] m.fields@[a]).0@ != (
        #[trigger] m.fields@[b]).0@
}

/// With unique names, looking up the j-th field's name finds the j-th value.
pub proof fn lemma_spec_find_at(s: Seq<(String, crate::message::FieldValue)>, j: int)
    requires
        0 <= j < s.len(),
        forall|t: int| 0 <= t < j ==> (#[trigger] s[t]).0@ != s[j].0@,
    ensures
        crate::message::message::spec_find(s, s[j].0@) == Some(s[j].1),
    decreases j,
{
    if j == 0 {
    } else {
        lemma_spec_find_at(s.drop_first(), j - 1);
        assert(s.drop_first()[j - 1] == s[j]);
        assert(forall|t: int| 0 <= t < j - 1 ==> (#[trigger] s.drop_first()[t]).0@ != s[j].0@);
    }
}

/// A name no field carries is not found.
pub proof fn lemma_spec_find_absent(s: Seq<(String, crate::message::FieldValue)>, nm: Seq<char>)
    requires
        crate::message::message::spec_find(s, nm) is None,
    ensures
        forall|t: int| 0 <= t < s.len() ==> (#[trigger] s[t]).0@ != nm,
    decreases s.len(),
{
    if s.len() == 0 {
    } else {
        lemma_spec_find_absent(s.drop_first(), nm);
        assert(forall|t: int| 1 <= t < s.len() ==> s[t] == s.drop_first()[t - 1]);
    }
}

/// Storing a fresh name appends.
pub proof fn lemma_model_store_fresh(acc: Seq<(Seq<char>, Val)>, nm: Seq<char>, v: Val)
    requires
        forall|t: int| 0 <= t < acc.len() ==> (#[trigger] acc[t]).0 != nm,
    ensures
        model_store(acc, nm, v) == acc.push((nm, v)),
    decreases acc.len(),
{
    if acc.len() == 0 {
        assert(model_store(acc, nm, v) =~= acc.push((nm, v)));
    } else {
        lemma_model_store_fresh(acc.drop_first(), nm, v);
        assert(forall|t: int| 0 <= t < acc.drop_first().len() ==> (#[trigger] acc.drop_first()[t]).0
            != nm);
        assert(model_store(acc, nm, v) =~= acc.push((nm, v)));
    }
}

/// With unique names, a model lookup of the j-th name yields the j-th value.
pub proof fn lemma_model_find_at(acc: Seq<(Seq<char>, Val)>, j: int)
    requires
        0 <= j < acc.len(),
        forall|t: int| 0 <= t < j ==> (#[trigger] acc[t]).0 != acc[j].0,
    ensures
        model_find(acc, acc[j].0) == Some(acc[j].1),
    decreases j,
{
    if j == 0 {
    } else {
        lemma_model_find_at(acc.drop_first(), j - 1);
        assert(acc.drop_first()[j - 1] == acc[j]);
        assert(forall|t: int| 0 <= t < j - 1 ==> (#[trigger] acc.drop_first()[t]).0 != acc[j].0);
    }
}

/// A name no entry carries is not found in the model either.
pub proof fn lemma_model_find_absent(acc: Seq<(Seq<char>, Val)>, nm: Seq<char>)
    requires
        forall|t: int| 0 <= t < acc.len() ==> (#[trigger] acc[t]).0 != nm,
    ensures
        model_find(acc, nm) is None,
    decreases acc.len(),
{
    if acc.len() == 0 {
    } else {
        lemma_model_find_absent(acc.drop_first(), nm);
        assert(forall|t: int| 0 <= t < acc.drop_first().len() ==> (#[trigger] acc.drop_first()[t]).0
            != nm);
    }
}

/// The message holds, at offset `j`, exactly the schema's field `j`, with
/// a canonical value.
pub open spec fn base_fields_canonical(fields: Seq<FieldDef>, m: Message) -> bool {
    &&& fields.len() <= m.fields@.len()
    &&& forall|j: int|
        0 <= j < fields.len() ==> (#[trigger] m.fields@[j]).0@ == fields[j].base.name@
    &&& forall|j: int|
        0 <= j < fields.len() ==> field_canonical(#[trigger] fields[j], m.fields@[j].1@)
}

/// The encoder reads the j-th schema field's value straight from the j-th
/// message field.
pub proof fn lemma_value_for_at(fields: Seq<FieldDef>, m: Message, j: int)
    requires
        base_fields_canonical(fields, m),
        msg_names_unique(m),
        0 <= j < fields.len(),
    ensures
        spec_value_for(m, fields[j].base) == m.fields@[j].1@,
{
    lemma_spec_find_at(m.fields@, j);
}

/// Canonical base fields encode successfully.
pub proof fn lemma_fields_encodes(fields: Seq<FieldDef>, m: Message, k: int)
    requires
        base_fields_canonical(fields, m),
        msg_names_unique(m),
        0 <= k <= fields.len(),
    ensures
        spec_encode_fields(fields.skip(k), m) is Ok,
    decreases fields.len() - k,
{
    if k == fields.len() {
        assert(fields.skip(k) =~= Seq::<FieldDef>::empty());
    } else {
        assert(fields.skip(k)[0] == fields[k]);
        assert(fields.skip(k).drop_first() =~= fields.skip(k + 1));
        lemma_value_for_at(fields, m, k);
        lemma_field_encodes(fields[k], m.fields@[k].1@);
        lemma_fields_encodes(fields, m, k + 1);
    }
}

/// Round-trip of the base fields: decoding them from their own encoding
/// extends the accumulated entries by exactly the message's fields, in
/// order.
pub proof fn lemma_fields_roundtrip(
    fields: Seq<FieldDef>,
    m: Message,
    buf: Seq<u8>,
    pos: int,
    k: int,
)
    requires
        base_fields_canonical(fields, m),
        msg_names_unique(m),
        0 <= k <= fields.len(),
        0 <= pos,
        pos + spec_encode_fields(fields.skip(k), m)->Ok_0.len() <= buf.len(),
        buf.subrange(pos, pos + spec_encode_fields(fields.skip(k), m)->Ok_0.len())
            == spec_encode_fields(fields.skip(k), m)->Ok_0,
    ensures
        spec_decode_fields(
            fields.skip(k),
            buf,
            pos,
            crate::codec::model::entries_view(m.fields@).take(k),
        ) == Ok::<_, MessageError>(
            (
                crate::codec::model::entries_view(m.fields@).take(fields.len() as int),
                pos + spec_encode_fields(fields.skip(k), m)->Ok_0.len(),
            ),
        ),
    decreases fields.len() - k,
{
    let eview = crate::codec::model::entries_view(m.fields@);
    lemma_fields_encodes(fields, m, k);
    if k == fields.len() {
        assert(fields.skip(k) =~= Seq::<FieldDef>::empty());
    } else {
        assert(fields.skip(k)[0] == fields[k]);
        assert(fields.skip(k).drop_first() =~= fields.skip(k + 1));
        lemma_value_for_at(fields, m, k);
        let v = m.fields@[k].1@;
        lemma_field_encodes(fields[k], v);
        lemma_fields_encodes(fields, m, k + 1);
        let b = spec_encode_field(fields[k], v)->Ok_0;
        let rest = spec_encode_fields(fields.skip(k + 1), m)->Ok_0;
        assert(spec_encode_fields(fields.skip(k), m)->Ok_0 == b + rest);
        lemma_subrange_split(buf, pos, b, rest);
        lemma_field_roundtrip(fields[k], v, buf, pos);
        assert(forall|t: int| 0 <= t < k ==> (#[trigger] eview.take(k)[t]).0 == m.fields@[t].0@);
        assert(forall|t: int| 0 <= t < k ==> (#[trigger] eview.take(k)[t]).0
            != fields[k].base.name@);
        lemma_model_store_fresh(eview.take(k), fields[k].base.name@, v);
        assert(eview.take(k).push((fields[k].base.name@, v)) =~= eview.take(k + 1));
        lemma_fields_roundtrip(fields, m, buf, pos + b.len(), k + 1);
    }
}

/// The message holds, at offset `off + j`, exactly the extension's field
/// `j`, with a canonical value.
pub open spec fn ext_fields_canonical(fields: Seq<BaseFieldDef>, m: Message, off: int) -> bool {
    &&& 0 <= off
    &&& off + fields.len() <= m.fields@.len()
    &&& forall|j: int|
        0 <= j < fields.len() ==> (#[trigger] m.fields@[off + j]).0@ == fields[j].name@
    &&& forall|j: int|
        0 <= j < fields.len() ==> scalar_canonical(#[trigger] fields[j], m.fields@[off + j].1@)
}

/// Canonical extension fields encode successfully.
pub proof fn lemma_ext_fields_encodes(fields: Seq<BaseFieldDef>, m: Message, off: int, k: int)
    requires
        ext_fields_canonical(fields, m, off),
        msg_names_unique(m),
        0 <= k <= fields.len(),
    ensures
        spec_encode_ext_fields(fields.skip(k), m) is Ok,
    decreases fields.len() - k,
{
    if k == fields.len() {
        assert(fields.skip(k) =~= Seq::<BaseFieldDef>::empty());
    } else {
        assert(fields.skip(k)[0] == fields[k]);
        assert(fields.skip(k).drop_first() =~= fields.skip(k + 1));
        lemma_spec_find_at(m.fields@, off + k);
        assert(spec_value_for(m, fields[k]) == m.fields@[off + k].1@);
        lemma_scalar_encodes(fields[k], m.fields@[off + k].1@);
        lemma_ext_fields_encodes(fields, m, off, k + 1);
    }
}

/// Round-trip of the extension fields, appended after the base entries.
pub proof fn lemma_ext_fields_roundtrip(
    fields: Seq<BaseFieldDef>,
    m: Message,
    off: int,
    buf: Seq<u8>,
    pos: int,
    k: int,
)
    requires
        ext_fields_canonical(fields, m, off),
        msg_names_unique(m),
        0 <= k <= fields.len(),
        0 <= pos,
        pos + spec_encode_ext_fields(fields.skip(k), m)->Ok_0.len() <= buf.len(),
        buf.subrange(pos, pos + spec_encode_ext_fields(fields.skip(k), m)->Ok_0.len())
            == spec_encode_ext_fields(fields.skip(k), m)->Ok_0,
    ensures
        spec_decode_ext_fields(
            fields.skip(k),
            buf,
            pos,
            crate::codec::model::entries_view(m.fields@).take(off + k),
        ) == Ok::<_, MessageError>(
            (
                crate::codec::model::entries_view(m.fields@).take(off + fields.len()),
                pos + spec_encode_ext_fields(fields.skip(k), m)->Ok_0.len(),
            ),
        ),
    decreases fields.len() - k,
{
    let eview = crate::codec::model::entries_view(m.fields@);
    lemma_ext_fields_encodes(fields, m, off, k);
    if k == fields.len() {
        assert(fields.skip(k) =~= Seq::<BaseFieldDef>::empty());
    } else {
        assert(fields.skip(k)[0] == fields[k]);
        assert(fields.skip(k).drop_first() =~= fields.skip(k + 1));
        lemma_spec_find_at(m.fields@, off + k);
        assert(spec_value_for(m, fields[k]) == m.fields@[off + k].1@);
        let v = m.fields@[off + k].1@;
        lemma_scalar_encodes(fields[k], v);
        lemma_ext_fields_encodes(fields, m, off, k + 1);
        let b = spec_encode_scalar(fields[k], v)->Ok_0;
        let rest = spec_encode_ext_fields(fields.skip(k + 1), m)->Ok_0;
        assert(spec_encode_ext_fields(fields.skip(k), m)->Ok_0 == b + rest);
        lemma_subrange_split(buf, pos, b, rest);
        lemma_scalar_roundtrip(fields[k], v, buf, pos);
        assert(forall|t: int| 0 <= t < off + k ==> (#[trigger] eview.take(off + k)[t]).0
            == m.fields@[t].0@);
        assert(forall|t: int| 0 <= t < off + k ==> (#[trigger] eview.take(off + k)[t]).0
            != fields[k].name@);
        lemma_model_store_fresh(eview.take(off + k), fields[k].name@, v);
        assert(eview.take(off + k).push((fields[k].name@, v)) =~= eview.take(off + k + 1));
        lemma_ext_fields_roundtrip(fields, m, off, buf, pos + b.len(), k + 1);
    }
}


/// A message that survives the wire: its type is registered, field names
/// are unique, its leading fields are exactly the schema's base fields with
/// canonical values, and — when extension dispatch applies — `BizID` is a
/// U32-tagged base field and the trailing fields are exactly the selected
/// extension's fields with canonical values.
pub open spec fn msg_canonical(cm: ConfigManager, m: Message) -> bool {
    &&& cm.msg_defs().contains_key(m.msg_type)
    &&& msg_names_unique(m)
    &&& base_fields_canonical(cm.msg_defs()[m.msg_type].fields@, m)
    &&& ({
        let def = cm.msg_defs()[m.msg_type];
        let nf = def.fields@.len() as int;
        if m.spec_has("BizID"@) && def.extensions@.len() > 0 {
            &&& (exists|j: int|
                0 <= j < nf && (#[trigger] def.fields@[j]).base.name@ == "BizID"@)
            &&& m.spec_get("BizID"@)->Some_0@ is U32
            &&& match cm.spec_extension(m.msg_type, m.spec_get("BizID"@)->Some_0@->U32_0) {
                Some(ext) => m.fields@.len() == nf + ext.1.len() && ext_fields_canonical(
                    ext.1,
                    m,
                    nf,
                ),
                None => m.fields@.len() == nf,
            }
        } else {
            m.fields@.len() == nf
        }
    })
}

/// A canonical message encodes successfully.
pub proof fn lemma_msg_encodes(cm: ConfigManager, m: Message)
    requires
        msg_canonical(cm, m),
    ensures
        spec_encode_msg(cm, m) is Ok,
{
    let def = cm.msg_defs()[m.msg_type];
    let nf = def.fields@.len() as int;
    assert(def.fields@.skip(0) =~= def.fields@);
    lemma_fields_encodes(def.fields@, m, 0);
    if crate::codec::model::spec_wants_extension(def, m) {
        let biz = m.spec_get("BizID"@)->Some_0@->U32_0;
        match cm.spec_extension(m.msg_type, biz) {
            Some(ext) => {
                assert(ext.1.skip(0) =~= ext.1);
                lemma_ext_fields_encodes(ext.1, m, nf, 0);
            },
            None => {},
        }
    }
}

/// Round-trip: decoding the encoding of a canonical message (whose body
/// fits the length word) yields the same header words and exactly the same
/// named field values, in order.
#[verifier::rlimit(100)]
pub proof fn lemma_roundtrip(cm: ConfigManager, m: Message)
    requires
        msg_canonical(cm, m),
        spec_encode_msg(cm, m)->Ok_0.len() < 0x1_0000_0000,
    ensures
        spec_encode_msg(cm, m) is Ok,
        spec_decode_msg(cm, spec_encode_msg(cm, m)->Ok_0) == Ok::<_, MessageError>(
            MsgModel {
                msg_type: m.msg_type,
                seq_num: m.seq_num,
                fields: crate::codec::model::entries_view(m.fields@),
            },
        ),
{
    broadcast use crate::codec::wire::lemma_be_bytes_roundtrip;

    let eview = crate::codec::model::entries_view(m.fields@);
    let def = cm.msg_defs()[m.msg_type];
    let nf = def.fields@.len() as int;
    assert(def.fields@.skip(0) =~= def.fields@);
    lemma_msg_encodes(cm, m);
    lemma_fields_encodes(def.fields@, m, 0);
    let base = spec_encode_fields(def.fields@, m)->Ok_0;
    if crate::codec::model::spec_wants_extension(def, m) {
        let biz = m.spec_get("BizID"@)->Some_0@->U32_0;
        match cm.spec_extension(m.msg_type, biz) {
            Some(ext) => {
                assert(ext.1.skip(0) =~= ext.1);
                lemma_ext_fields_encodes(ext.1, m, nf, 0);
            },
            None => {},
        }
    }
    let extb = spec_encode_extension(cm, def, m)->Ok_0;
    let body = base + extb;
    let bl = (body.len() % 0x1_0000_0000) as u32;
    let header = spec_header_bytes(m.msg_type, m.seq_num, bl);
    let framed = header + body;
    let cksum = spec_u32_to_be_bytes(sum8(framed) as u32);
    let out = framed + cksum;
    assert(spec_encode_msg(cm, m) == Ok::<_, MessageError>(out));
    assert(out.len() == 16 + body.len());
    assert(bl as int == body.len());

    // Header words come back.
    assert(out.subrange(0, 4) =~= spec_u32_to_be_bytes(m.msg_type));
    assert(out.subrange(4, 8) =~= spec_u32_to_be_bytes(m.seq_num));
    assert(out.subrange(8, 12) =~= spec_u32_to_be_bytes(bl));
    assert(spec_u32_from_be_bytes(out.subrange(0, 4)) == m.msg_type);
    assert(spec_u32_from_be_bytes(out.subrange(4, 8)) == m.seq_num);
    assert(spec_u32_from_be_bytes(out.subrange(8, 12)) == bl);

    // Framing and checksum pass.
    let body_end = 12 + bl as int;
    assert(out.len() >= body_end + 4);
    assert(out.take(body_end) =~= framed);
    assert(out.subrange(body_end, body_end + 4) =~= cksum);
    assert(spec_u32_from_be_bytes(out.subrange(body_end, body_end + 4)) == sum8(
        out.take(body_end),
    ) as u32);

    // The base fields decode back to the message's leading entries.
    assert(out.subrange(12, out.len() as int) =~= base + (extb + cksum));
    lemma_subrange_split(out, 12, base, extb + cksum);
    let p1 = 12 + base.len() as int;
    lemma_subrange_split(out, p1, extb, cksum);
    assert(eview.take(0) =~= Seq::<(Seq<char>, Val)>::empty());
    lemma_fields_roundtrip(def.fields@, m, out, 12, 0);
    assert(spec_decode_fields(def.fields@, out, 12, Seq::empty()) == Ok::<_, MessageError>(
        (eview.take(nf), p1),
    ));
    let entries = eview.take(nf);
    assert(forall|t: int| 0 <= t < m.fields@.len() ==> (#[trigger] eview[t]) == (
        m.fields@[t].0@,
        m.fields@[t].1@,
    ));

    // Extension dispatch agrees between the two directions.
    if def.extensions@.len() > 0 && m.spec_has("BizID"@) {
        let j = choose|j: int| 0 <= j < nf && (#[trigger] def.fields@[j]).base.name@ == "BizID"@;
        assert(m.fields@[j].0@ == "BizID"@);
        assert(forall|t: int| 0 <= t < j ==> (#[trigger] m.fields@[t]).0@ != m.fields@[j].0@);
        lemma_spec_find_at(m.fields@, j);
        assert(m.spec_get("BizID"@) == Some(m.fields@[j].1));
        let biz = m.spec_get("BizID"@)->Some_0@->U32_0;
        assert(forall|t: int| 0 <= t < j ==> (#[trigger] entries[t]).0 != entries[j].0);
        lemma_model_find_at(entries, j);
        assert(model_find(entries, "BizID"@) == Some(m.fields@[j].1@));
        assert(model_find(entries, "BizID"@)->Some_0 is U32);
        assert(model_find(entries, "BizID"@)->Some_0->U32_0 == biz);
        match cm.spec_extension(m.msg_type, biz) {
            Some(ext) => {
                assert(ext.1.skip(0) =~= ext.1);
                lemma_ext_fields_roundtrip(ext.1, m, nf, out, p1, 0);
                assert(spec_decode_ext_fields(ext.1, out, p1, entries) == Ok::<_, MessageError>(
                    (eview.take(nf + ext.1.len()), p1 + extb.len() as int),
                ));
                assert(eview.take(nf + ext.1.len()) =~= eview);
            },
            None => {
                assert(entries =~= eview);
            },
        }
    } else {
        if def.extensions@.len() > 0 {
            lemma_spec_find_absent(m.fields@, "BizID"@);
            assert(forall|t: int| 0 <= t < entries.len() ==> (#[trigger] entries[t]).0
                != "BizID"@);
            lemma_model_find_absent(entries, "BizID"@);
        }
        assert(entries =~= eview);
    }
}

} // verus!
