//! The byte-exact specification of the protocol.
//!
//! These spec functions define, for every schema and every value, exactly
//! which bytes an encoded message consists of and exactly what a buffer
//! decodes to — including which error each malformed input produces. The
//! encoder and decoder are verified against them clause by clause.

use vstd::prelude::*;

use crate::codec::types::{
    spec_validate_amount, spec_validate_date, spec_validate_ntime, spec_validate_price,
    spec_validate_quantity,
};
use crate::codec::wire::{
    pad_trunc, spec_i64_from_be_bytes, spec_i64_to_be_bytes, spec_u16_from_be_bytes,
    spec_u16_to_be_bytes, spec_u32_from_be_bytes, spec_u32_to_be_bytes, spec_u64_from_be_bytes,
    spec_u64_to_be_bytes, sum8, trim_chars,
};
use crate::config::manager::ConfigManager;
use crate::config::types::{BaseFieldDef, FieldDef, FieldType};
use crate::message::{Message, Val};
use crate::util::MessageError;
use vstd::utf8::{decode_utf8, encode_utf8, valid_utf8};

verus! {

/// The runtime tag a value must carry to be encoded under the given
/// declared type.
pub open spec fn type_matches(t: FieldType, v: Val) -> bool {
    match t {
        FieldType::U8 => v is U8,
        FieldType::U16 => v is U16,
        FieldType::U32 => v is U32,
        FieldType::U64 => v is U64,
        FieldType::I64 => v is I64,
        FieldType::Char => v is Str,
        FieldType::Price => v is Float,
        FieldType::Quantity => v is Float,
        FieldType::Amount => v is Float,
        FieldType::Date => v is U32,
        FieldType::NTime => v is U64,
        FieldType::Array => v is Rows,
    }
}

/// Integer division truncating toward zero, as the scaling step uses it.
pub open spec fn tdiv100(x: int) -> int {
    if x >= 0 {
        x / 100
    } else {
        -((-x) / 100)
    }
}

/// The wire form of a scalar field value under `def`, or the error that
/// encoding it produces.
///
/// A `Rows` value is only acceptable where a full array definition is at
/// hand, which a bare `BaseFieldDef` never is; so in scalar position it
/// fails once the tag check has passed.
pub open spec fn spec_encode_scalar(def: BaseFieldDef, v: Val) -> Result<Seq<u8>, MessageError> {
    if !type_matches(def.ftype, v) {
        Err(MessageError::InvalidFieldValue(def.name))
    } else {
        match def.ftype {
            FieldType::U8 => Ok(seq![v->U8_0]),
            FieldType::U16 => Ok(spec_u16_to_be_bytes(v->U16_0)),
            FieldType::U32 => Ok(spec_u32_to_be_bytes(v->U32_0)),
            FieldType::U64 => Ok(spec_u64_to_be_bytes(v->U64_0)),
            FieldType::I64 => Ok(spec_i64_to_be_bytes(v->I64_0)),
            FieldType::Char => match def.length {
                None => Err(MessageError::FieldEncodeError(def.name)),
                Some(len) => Ok(pad_trunc(encode_utf8(v->Str_0), len as int)),
            },
            FieldType::Price => {
                let w = v->Float_0;
                if spec_validate_price(w) {
                    Ok(spec_i64_to_be_bytes(w))
                } else {
                    Err(MessageError::ValueExceedsRange(def.name))
                }
            },
            FieldType::Quantity => {
                let w = tdiv100(v->Float_0 as int) as i64;
                if spec_validate_quantity(w) {
                    Ok(spec_i64_to_be_bytes(w))
                } else {
                    Err(MessageError::ValueExceedsRange(def.name))
                }
            },
            FieldType::Amount => {
                let w = v->Float_0;
                if spec_validate_amount(w) {
                    Ok(spec_i64_to_be_bytes(w))
                } else {
                    Err(MessageError::ValueExceedsRange(def.name))
                }
            },
            FieldType::Date => {
                if spec_validate_date(v->U32_0) {
                    Ok(spec_u32_to_be_bytes(v->U32_0))
                } else {
                    Err(MessageError::InvalidFieldValue(def.name))
                }
            },
            FieldType::NTime => {
                if spec_validate_ntime(v->U64_0) {
                    Ok(spec_u64_to_be_bytes(v->U64_0))
                } else {
                    Err(MessageError::InvalidFieldValue(def.name))
                }
            },
            FieldType::Array => Err(MessageError::ArrayElementEncodeError(def.name)),
        }
    }
}

/// The value substituted for a field the message does not carry: numeric
/// zero, a space-filled string of the declared length, or an empty array.
pub open spec fn spec_default(def: BaseFieldDef) -> Val {
    match def.ftype {
        FieldType::U8 => Val::U8(0),
        FieldType::U16 => Val::U16(0),
        FieldType::U32 => Val::U32(0),
        FieldType::U64 => Val::U64(0),
        FieldType::I64 => Val::I64(0),
        FieldType::Char => Val::Str(
            Seq::new(
                (match def.length {
                    Some(l) => l as int,
                    None => 1,
                }) as nat,
                |i: int| ' ',
            ),
        ),
        FieldType::Price => Val::Float(0),
        FieldType::Quantity => Val::Float(0),
        FieldType::Amount => Val::Float(0),
        FieldType::Date => Val::U32(0),
        FieldType::NTime => Val::U64(0),
        FieldType::Array => Val::Rows(Seq::empty()),
    }
}

/// The wire form of one array element from struct field `k` on: each field
/// in order, a missing trailing value replaced by its default.
pub open spec fn spec_encode_row_from(fields: Seq<BaseFieldDef>, row: Seq<Val>, k: int) -> Result<
    Seq<u8>,
    MessageError,
>
    decreases fields.len() - k,
{
    if k >= fields.len() {
        Ok(Seq::empty())
    } else {
        let v = if k < row.len() {
            row[k]
        } else {
            spec_default(fields[k])
        };
        match spec_encode_scalar(fields[k], v) {
            Err(e) => Err(e),
            Ok(b) => match spec_encode_row_from(fields, row, k + 1) {
                Err(e) => Err(e),
                Ok(rest) => Ok(b + rest),
            },
        }
    }
}

/// The wire form of one whole array element.
pub open spec fn spec_encode_row(fields: Seq<BaseFieldDef>, row: Seq<Val>) -> Result<
    Seq<u8>,
    MessageError,
> {
    spec_encode_row_from(fields, row, 0)
}

/// The wire form of all array elements, one after the other.
pub open spec fn spec_encode_rows(fields: Seq<BaseFieldDef>, rows: Seq<Seq<Val>>) -> Result<
    Seq<u8>,
    MessageError,
>
    decreases rows.len(),
{
    if rows.len() == 0 {
        Ok(Seq::empty())
    } else {
        match spec_encode_row(fields, rows[0]) {
            Err(e) => Err(e),
            Ok(b) => match spec_encode_rows(fields, rows.drop_first()) {
                Err(e) => Err(e),
                Ok(rest) => Ok(b + rest),
            },
        }
    }
}

/// The element count as it is written into a count field of the given
/// width: the count reduced to that width.
pub open spec fn spec_count_val(t: FieldType, n: int) -> Val {
    match t {
        FieldType::U8 => Val::U8((n % 0x100) as u8),
        FieldType::U16 => Val::U16((n % 0x10000) as u16),
        _ => Val::U32((n % 0x1_0000_0000) as u32),
    }
}

/// The wire form of an array field: the element count in the declared
/// count-field type, then each element's struct fields in order.
pub open spec fn spec_encode_array(fd: FieldDef, rows: Seq<Seq<Val>>) -> Result<
    Seq<u8>,
    MessageError,
> {
    match fd.length_field {
        None => Err(MessageError::ArrayCountEncodeError(fd.base.name)),
        Some(lf) => match fd.struct_def {
            None => Err(MessageError::ArrayElementEncodeError(fd.base.name)),
            Some(sd) => {
                if !(lf.ftype is U8 || lf.ftype is U16 || lf.ftype is U32) {
                    Err(MessageError::InvalidArrayCountType)
                } else {
                    match spec_encode_scalar(lf, spec_count_val(lf.ftype, rows.len() as int)) {
                        Err(e) => Err(e),
                        Ok(cb) => match spec_encode_rows(sd.fields@, rows) {
                            Err(e) => Err(e),
                            Ok(rb) => Ok(cb + rb),
                        },
                    }
                }
            },
        },
    }
}

/// The wire form of one message-body field under its full definition.
pub open spec fn spec_encode_field(fd: FieldDef, v: Val) -> Result<Seq<u8>, MessageError> {
    if !type_matches(fd.base.ftype, v) {
        Err(MessageError::InvalidFieldValue(fd.base.name))
    } else if fd.base.ftype is Array {
        spec_encode_array(fd, v->Rows_0)
    } else {
        spec_encode_scalar(fd.base, v)
    }
}

/// The value the encoder uses for `def`: the message's value of that name,
/// or the type's default.
pub open spec fn spec_value_for(m: Message, def: BaseFieldDef) -> Val {
    match m.spec_get(def.name@) {
        Some(fv) => fv@,
        None => spec_default(def),
    }
}

/// The wire form of the message's base fields, in schema order.
pub open spec fn spec_encode_fields(fields: Seq<FieldDef>, m: Message) -> Result<
    Seq<u8>,
    MessageError,
>
    decreases fields.len(),
{
    if fields.len() == 0 {
        Ok(Seq::empty())
    } else {
        match spec_encode_field(fields[0], spec_value_for(m, fields[0].base)) {
            Err(e) => Err(e),
            Ok(b) => match spec_encode_fields(fields.drop_first(), m) {
                Err(e) => Err(e),
                Ok(rest) => Ok(b + rest),
            },
        }
    }
}

/// The wire form of an extension's fields, in declared order.
pub open spec fn spec_encode_ext_fields(fields: Seq<BaseFieldDef>, m: Message) -> Result<
    Seq<u8>,
    MessageError,
>
    decreases fields.len(),
{
    if fields.len() == 0 {
        Ok(Seq::empty())
    } else {
        match spec_encode_scalar(fields[0], spec_value_for(m, fields[0])) {
            Err(e) => Err(e),
            Ok(b) => match spec_encode_ext_fields(fields.drop_first(), m) {
                Err(e) => Err(e),
                Ok(rest) => Ok(b + rest),
            },
        }
    }
}

/// Whether the encoder consults the extension table for `m`: the message
/// carries a `BizID` field and the schema declares extensions for its type.
pub open spec fn spec_wants_extension(def: crate::config::types::MessageDef, m: Message) -> bool {
    m.spec_has("BizID"@) && def.extensions@.len() > 0
}

/// The extension field bytes appended after the base fields, if any: those
/// of the extension selected by the message's `BizID` value. No match, or
/// no extension lookup at all, appends nothing.
pub open spec fn spec_encode_extension(
    cm: ConfigManager,
    def: crate::config::types::MessageDef,
    m: Message,
) -> Result<Seq<u8>, MessageError> {
    if spec_wants_extension(def, m) {
        let biz_id = m.spec_get("BizID"@)->Some_0@->U32_0;
        match cm.spec_extension(m.msg_type, biz_id) {
            Some(ext) => spec_encode_ext_fields(ext.1, m),
            None => Ok(Seq::empty()),
        }
    } else {
        Ok(Seq::empty())
    }
}

/// The 12 header bytes for the given words.
pub open spec fn spec_header_bytes(msg_type: u32, seq_num: u32, body_length: u32) -> Seq<u8> {
    spec_u32_to_be_bytes(msg_type) + spec_u32_to_be_bytes(seq_num) + spec_u32_to_be_bytes(
        body_length,
    )
}

/// The complete wire form of `m` under the loaded schema `cm`, or the error
/// encoding stops with: header, body (base fields then extension fields),
/// and the 8-bit wraparound checksum of both, widened to four bytes.
pub open spec fn spec_encode_msg(cm: ConfigManager, m: Message) -> Result<Seq<u8>, MessageError> {
    if !cm.msg_defs().contains_key(m.msg_type) {
        Err(MessageError::UnknownMessageType(m.msg_type))
    } else {
        let def = cm.msg_defs()[m.msg_type];
        match spec_encode_fields(def.fields@, m) {
            Err(e) => Err(e),
            Ok(base) => match spec_encode_extension(cm, def, m) {
                Err(e) => Err(e),
                Ok(ext) => {
                    let body = base + ext;
                    let body_length = (body.len() % 0x1_0000_0000) as u32;
                    let framed = spec_header_bytes(m.msg_type, m.seq_num, body_length) + body;
                    Ok(framed + spec_u32_to_be_bytes(sum8(framed) as u32))
                },
            },
        }
    }
}

/// A scalar encoding looks only at what the scalar model keeps of a value:
/// encoding under a value's full model and under its scalar model agree.
pub proof fn lemma_encode_scalar_view(def: BaseFieldDef, v: crate::message::FieldValue)
    ensures
        spec_encode_scalar(def, v@) == spec_encode_scalar(def, crate::message::scalar_val(v)),
{
    match v {
        crate::message::FieldValue::Array(_) => {
            assert(v@ is Rows);
            assert(crate::message::scalar_val(v) is Rows);
        },
        _ => {
            assert(v@ == crate::message::scalar_val(v));
        },
    }
}

/// A decoded message, in model form: header words and named field values
/// in decode order.
pub struct MsgModel {
    pub msg_type: u32,
    pub seq_num: u32,
    pub fields: Seq<(Seq<char>, Val)>,
}

/// The model view of a message's field list.
pub open spec fn entries_view(s: Seq<(String, crate::message::FieldValue)>) -> Seq<
    (Seq<char>, Val),
> {
    s.map_values(|p: (String, crate::message::FieldValue)| (p.0@, p.1@))
}

/// Stores `(name, v)` in a model field list: replaces the first entry of
/// that name in place, or appends.
pub open spec fn model_store(s: Seq<(Seq<char>, Val)>, name: Seq<char>, v: Val) -> Seq<
    (Seq<char>, Val),
>
    decreases s.len(),
{
    if s.len() == 0 {
        seq![(name, v)]
    } else if s[0].0 == name {
        seq![(s[0].0, v)] + s.drop_first()
    } else {
        seq![s[0]] + model_store(s.drop_first(), name, v)
    }
}

/// The first value stored under `name` in a model field list.
pub open spec fn model_find(s: Seq<(Seq<char>, Val)>, name: Seq<char>) -> Option<Val>
    decreases s.len(),
{
    if s.len() == 0 {
        None
    } else if s[0].0 == name {
        Some(s[0].1)
    } else {
        model_find(s.drop_first(), name)
    }
}

/// Storing into a field list and then taking the model view is storing into
/// the model view.
pub proof fn lemma_entries_view_store(
    s: Seq<(String, crate::message::FieldValue)>,
    name: String,
    value: crate::message::FieldValue,
)
    ensures
        entries_view(crate::message::message::spec_store(s, name, value)) == model_store(
            entries_view(s),
            name@,
            value@,
        ),
    decreases s.len(),
{
    if s.len() == 0 {
        assert(entries_view(crate::message::message::spec_store(s, name, value)) =~= model_store(
            entries_view(s),
            name@,
            value@,
        ));
    } else if s[0].0@ == name@ {
        assert(entries_view(crate::message::message::spec_store(s, name, value)) =~= model_store(
            entries_view(s),
            name@,
            value@,
        ));
    } else {
        lemma_entries_view_store(s.drop_first(), name, value);
        assert(entries_view(s).drop_first() =~= entries_view(s.drop_first()));
        assert(entries_view(crate::message::message::spec_store(s, name, value)) =~= seq![
            entries_view(s)[0],
        ] + model_store(entries_view(s.drop_first()), name@, value@));
        assert(model_store(entries_view(s), name@, value@) =~= seq![entries_view(s)[0]]
            + model_store(entries_view(s).drop_first(), name@, value@));
    }
}

/// Looking a name up in the model view finds the view of what the field
/// list holds.
pub proof fn lemma_model_find_view(s: Seq<(String, crate::message::FieldValue)>, name: Seq<char>)
    ensures
        model_find(entries_view(s), name) == (match crate::message::message::spec_find(s, name) {
            Some(fv) => Some(fv@),
            None => None::<Val>,
        }),
    decreases s.len(),
{
    if s.len() == 0 {
    } else if s[0].0@ == name {
        assert(entries_view(s)[0] == (s[0].0@, s[0].1@));
    } else {
        lemma_model_find_view(s.drop_first(), name);
        assert(entries_view(s).drop_first() =~= entries_view(s.drop_first()));
        assert(entries_view(s)[0] == (s[0].0@, s[0].1@));
    }
}

/// Decodes one scalar field at `pos`: the value, and the cursor after it.
pub open spec fn spec_decode_scalar(def: BaseFieldDef, buf: Seq<u8>, pos: int) -> Result<
    (Val, int),
    MessageError,
> {
    match def.ftype {
        FieldType::U8 => {
            if pos + 1 <= buf.len() {
                Ok((Val::U8(buf[pos]), pos + 1))
            } else {
                Err(MessageError::BodyTooShort)
            }
        },
        FieldType::U16 => {
            if pos + 2 <= buf.len() {
                Ok((Val::U16(spec_u16_from_be_bytes(buf.subrange(pos, pos + 2))), pos + 2))
            } else {
                Err(MessageError::BodyTooShort)
            }
        },
        FieldType::U32 => {
            if pos + 4 <= buf.len() {
                Ok((Val::U32(spec_u32_from_be_bytes(buf.subrange(pos, pos + 4))), pos + 4))
            } else {
                Err(MessageError::BodyTooShort)
            }
        },
        FieldType::U64 => {
            if pos + 8 <= buf.len() {
                Ok((Val::U64(spec_u64_from_be_bytes(buf.subrange(pos, pos + 8))), pos + 8))
            } else {
                Err(MessageError::BodyTooShort)
            }
        },
        FieldType::I64 => {
            if pos + 8 <= buf.len() {
                Ok((Val::I64(spec_i64_from_be_bytes(buf.subrange(pos, pos + 8))), pos + 8))
            } else {
                Err(MessageError::BodyTooShort)
            }
        },
        FieldType::Char => match def.length {
            None => Err(MessageError::FieldDecodeError(def.name)),
            Some(len) => {
                if pos + len <= buf.len() {
                    let t = buf.subrange(pos, pos + len);
                    if valid_utf8(t) {
                        Ok((Val::Str(trim_chars(decode_utf8(t))), pos + len))
                    } else {
                        Err(MessageError::FieldDecodeError(def.name))
                    }
                } else {
                    Err(MessageError::BodyTooShort)
                }
            },
        },
        FieldType::Price => {
            if pos + 8 <= buf.len() {
                let w = spec_i64_from_be_bytes(buf.subrange(pos, pos + 8));
                if spec_validate_price(w) {
                    Ok((Val::Float(w), pos + 8))
                } else {
                    Err(MessageError::ValueExceedsRange(def.name))
                }
            } else {
                Err(MessageError::BodyTooShort)
            }
        },
        FieldType::Quantity => {
            if pos + 8 <= buf.len() {
                let w = spec_i64_from_be_bytes(buf.subrange(pos, pos + 8));
                if spec_validate_quantity(w) {
                    Ok((Val::Float((w * 100) as i64), pos + 8))
                } else {
                    Err(MessageError::ValueExceedsRange(def.name))
                }
            } else {
                Err(MessageError::BodyTooShort)
            }
        },
        FieldType::Amount => {
            if pos + 8 <= buf.len() {
                let w = spec_i64_from_be_bytes(buf.subrange(pos, pos + 8));
                if spec_validate_amount(w) {
                    Ok((Val::Float(w), pos + 8))
                } else {
                    Err(MessageError::ValueExceedsRange(def.name))
                }
            } else {
                Err(MessageError::BodyTooShort)
            }
        },
        FieldType::Date => {
            if pos + 4 <= buf.len() {
                let w = spec_u32_from_be_bytes(buf.subrange(pos, pos + 4));
                if spec_validate_date(w) {
                    Ok((Val::U32(w), pos + 4))
                } else {
                    Err(MessageError::InvalidFieldValue(def.name))
                }
            } else {
                Err(MessageError::BodyTooShort)
            }
        },
        FieldType::NTime => {
            if pos + 8 <= buf.len() {
                let w = spec_u64_from_be_bytes(buf.subrange(pos, pos + 8));
                if spec_validate_ntime(w) {
                    Ok((Val::U64(w), pos + 8))
                } else {
                    Err(MessageError::InvalidFieldValue(def.name))
                }
            } else {
                Err(MessageError::BodyTooShort)
            }
        },
        FieldType::Array => Err(MessageError::ArrayElementDecodeError(def.name)),
    }
}

/// Decodes one array element: every struct field in order.
pub open spec fn spec_decode_row(fields: Seq<BaseFieldDef>, buf: Seq<u8>, pos: int) -> Result<
    (Seq<Val>, int),
    MessageError,
>
    decreases fields.len(),
{
    if fields.len() == 0 {
        Ok((Seq::empty(), pos))
    } else {
        match spec_decode_scalar(fields[0], buf, pos) {
            Err(e) => Err(e),
            Ok((v, p1)) => match spec_decode_row(fields.drop_first(), buf, p1) {
                Err(e) => Err(e),
                Ok((vs, p2)) => Ok((seq![v] + vs, p2)),
            },
        }
    }
}

/// Decodes `n` array elements one after the other.
pub open spec fn spec_decode_rows(
    fields: Seq<BaseFieldDef>,
    buf: Seq<u8>,
    pos: int,
    n: int,
) -> Result<(Seq<Seq<Val>>, int), MessageError>
    decreases n,
{
    if n <= 0 {
        Ok((Seq::empty(), pos))
    } else {
        match spec_decode_row(fields, buf, pos) {
            Err(e) => Err(e),
            Ok((row, p1)) => match spec_decode_rows(fields, buf, p1, n - 1) {
                Err(e) => Err(e),
                Ok((rows, p2)) => Ok((seq![row] + rows, p2)),
            },
        }
    }
}

/// Decodes an array field: the count field first, whose decoded tag must be
/// U8, U16 or U32, then that many elements.
pub open spec fn spec_decode_array(fd: FieldDef, buf: Seq<u8>, pos: int) -> Result<
    (Val, int),
    MessageError,
> {
    match fd.length_field {
        None => Err(MessageError::ArrayCountDecodeError(fd.base.name)),
        Some(lf) => match spec_decode_scalar(lf, buf, pos) {
            Err(e) => Err(e),
            Ok((cv, p1)) => {
                let n: int = match cv {
                    Val::U8(c) => c as int,
                    Val::U16(c) => c as int,
                    Val::U32(c) => c as int,
                    _ => -1,
                };
                if n < 0 {
                    Err(MessageError::InvalidArrayCountType)
                } else {
                    match fd.struct_def {
                        None => Err(MessageError::ArrayElementDecodeError(fd.base.name)),
                        Some(sd) => match spec_decode_rows(sd.fields@, buf, p1, n) {
                            Err(e) => Err(e),
                            Ok((rows, p2)) => Ok((Val::Rows(rows), p2)),
                        },
                    }
                }
            },
        },
    }
}

/// Decodes one message-body field under its full definition.
pub open spec fn spec_decode_field(fd: FieldDef, buf: Seq<u8>, pos: int) -> Result<
    (Val, int),
    MessageError,
> {
    if fd.base.ftype is Array {
        spec_decode_array(fd, buf, pos)
    } else {
        spec_decode_scalar(fd.base, buf, pos)
    }
}

/// Decodes the base fields in schema order, storing each under its name.
pub open spec fn spec_decode_fields(
    fields: Seq<FieldDef>,
    buf: Seq<u8>,
    pos: int,
    acc: Seq<(Seq<char>, Val)>,
) -> Result<(Seq<(Seq<char>, Val)>, int), MessageError>
    decreases fields.len(),
{
    if fields.len() == 0 {
        Ok((acc, pos))
    } else {
        match spec_decode_field(fields[0], buf, pos) {
            Err(e) => Err(e),
            Ok((v, p1)) => spec_decode_fields(
                fields.drop_first(),
                buf,
                p1,
                model_store(acc, fields[0].base.name@, v),
            ),
        }
    }
}

/// Decodes an extension's fields in declared order, storing each under its
/// name.
pub open spec fn spec_decode_ext_fields(
    fields: Seq<BaseFieldDef>,
    buf: Seq<u8>,
    pos: int,
    acc: Seq<(Seq<char>, Val)>,
) -> Result<(Seq<(Seq<char>, Val)>, int), MessageError>
    decreases fields.len(),
{
    if fields.len() == 0 {
        Ok((acc, pos))
    } else {
        match spec_decode_scalar(fields[0], buf, pos) {
            Err(e) => Err(e),
            Ok((v, p1)) => spec_decode_ext_fields(
                fields.drop_first(),
                buf,
                p1,
                model_store(acc, fields[0].name@, v),
            ),
        }
    }
}

/// The complete decoding of `buf` under the loaded schema `cm`: header
/// checks, checksum verification, schema lookup, base fields, and the
/// extension selected by the decoded `BizID` value, if one matches.
/// Bytes between the last decoded field and the checksum are not inspected.
pub open spec fn spec_decode_msg(cm: ConfigManager, buf: Seq<u8>) -> Result<
    MsgModel,
    MessageError,
> {
    if buf.len() < 12 {
        Err(MessageError::HeaderTooShort)
    } else {
        let msg_type = spec_u32_from_be_bytes(buf.subrange(0, 4));
        let seq_num = spec_u32_from_be_bytes(buf.subrange(4, 8));
        let body_length = spec_u32_from_be_bytes(buf.subrange(8, 12));
        let body_end = 12 + body_length as int;
        if buf.len() < body_end + 4 {
            Err(MessageError::BodyTooShort)
        } else if (sum8(buf.take(body_end)) as u32) != spec_u32_from_be_bytes(
            buf.subrange(body_end, body_end + 4),
        ) {
            Err(MessageError::ChecksumError)
        } else if !cm.msg_defs().contains_key(msg_type) {
            Err(MessageError::UnknownMessageType(msg_type))
        } else {
            let def = cm.msg_defs()[msg_type];
            match spec_decode_fields(def.fields@, buf, 12, Seq::empty()) {
                Err(e) => Err(e),
                Ok((entries, p1)) => {
                    if def.extensions@.len() > 0 && model_find(entries, "BizID"@) is Some
                        && model_find(entries, "BizID"@)->Some_0 is U32 {
                        let biz_id = model_find(entries, "BizID"@)->Some_0->U32_0;
                        match cm.spec_extension(msg_type, biz_id) {
                            Some(ext) => match spec_decode_ext_fields(ext.1, buf, p1, entries) {
                                Err(e) => Err(e),
                                Ok((entries2, _p2)) => Ok(
                                    MsgModel { msg_type, seq_num, fields: entries2 },
                                ),
                            },
                            None => Ok(MsgModel { msg_type, seq_num, fields: entries }),
                        }
                    } else {
                        Ok(MsgModel { msg_type, seq_num, fields: entries })
                    }
                },
            }
        }
    }
}

} // verus!
