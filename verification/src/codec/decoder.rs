//! The message decoder: parses one framed byte buffer back into a
//! structured message, verified byte-exactly against
//! [`crate::codec::model::spec_decode_msg`].

use vstd::prelude::*;

use crate::codec::model::{
    entries_view, lemma_entries_view_store, lemma_model_find_view, model_find, spec_decode_array,
    spec_decode_ext_fields, spec_decode_field, spec_decode_fields, spec_decode_msg,
    spec_decode_row, spec_decode_rows, spec_decode_scalar,
};
use crate::codec::types::{
    validate_amount, validate_date_format, validate_ntime_format, validate_price,
    validate_quantity,
};
use crate::codec::wire::{
    bytes_to_string, checksum_prefix, read_i64_be, read_u16_be, read_u32_be, read_u64_be,
    spec_u32_from_be_bytes, sum8, trim_text,
};
use crate::config::manager::ConfigManager;
use crate::config::types::{BaseFieldDef, FieldDef, FieldType, MessageDef, StructDef};
use crate::message::{FieldValue, Message, Val};
use crate::util::{MessageError, MessageResult};

verus! {

/// Decodes one framed byte buffer against a loaded schema.
pub struct MessageDecoder<'a> {
    config_manager: &'a ConfigManager,
    buffer: &'a [u8],
    position: usize,
}

impl<'a> MessageDecoder<'a> {
    /// The buffer under decode.
    pub closed spec fn buf(self) -> Seq<u8> {
        self.buffer@
    }

    /// The registry the decoder works against.
    pub closed spec fn cfg(self) -> ConfigManager {
        *self.config_manager
    }

    /// The read cursor.
    pub closed spec fn pos(self) -> usize {
        self.position
    }

    /// A fresh decoder over `config_manager` and `buffer`, at offset zero.
    pub fn new(config_manager: &'a ConfigManager, buffer: &'a [u8]) -> (r: Self)
        ensures
            r.pos() == 0,
            r.buf() == buffer@,
            r.cfg() == *config_manager,
    {
        Self { config_manager, buffer, position: 0 }
    }

    /// Decodes the buffer: header checks, checksum verification, schema
    /// lookup, schema-ordered fields, and the extension selected by the
    /// decoded `BizID` value, if one matches. Returns exactly the message
    /// [`spec_decode_msg`] prescribes, or its error; bytes between the last
    /// decoded field and the checksum are not inspected.
    #[verifier::loop_isolation(false)]
    #[verifier::rlimit(100)]
    pub fn decode(&mut self) -> (r: MessageResult<Message>)
        ensures
            final(self).buf() == old(self).buf(),
            final(self).cfg() == old(self).cfg(),
            match (r, spec_decode_msg(old(self).cfg(), old(self).buf())) {
                (Ok(msg), Ok(model)) => msg.msg_type == model.msg_type && msg.seq_num
                    == model.seq_num && entries_view(msg.fields@) == model.fields,
                (Err(e1), Err(e2)) => e1 == e2,
                _ => false,
            },
    {
        let ghost cm_view = *self.config_manager;
        let ghost whole = self.buffer@;
        if self.buffer.len() < 12 {
            return Err(MessageError::HeaderTooShort);
        }
        let msg_type = read_u32_be(self.buffer, 0);
        let seq_num = read_u32_be(self.buffer, 4);
        let body_length = read_u32_be(self.buffer, 8);
        self.position = 12;

        match self.verify_checksum(body_length) {
            Ok(()) => (),
            Err(e) => {
                return Err(e);
            },
        }

        let cm: &'a ConfigManager = self.config_manager;
        let def: &MessageDef = match cm.get_message_def(msg_type) {
            Some(d) => d,
            None => {
                return Err(MessageError::UnknownMessageType(msg_type));
            },
        };

        let mut message = Message::new(msg_type, seq_num);
        proof {
            assert(def.fields@.skip(0) =~= def.fields@);
            assert(entries_view(message.fields@) =~= Seq::<(Seq<char>, Val)>::empty());
        }
        let nf = def.fields.len();
        let mut i: usize = 0;
        while i < nf
            invariant
                i <= nf,
                self.position <= self.buffer@.len(),
                *self.config_manager == cm_view,
                self.buffer@ == whole,
                message.msg_type == msg_type,
                message.seq_num == seq_num,
                spec_decode_fields(def.fields@, whole, 12, Seq::empty()) == spec_decode_fields(
                    def.fields@.skip(i as int),
                    whole,
                    self.position as int,
                    entries_view(message.fields@),
                ),
            decreases nf - i,
        {
            let fd: &FieldDef = &def.fields[i];
            let ghost tail = def.fields@.skip(i as int);
            proof {
                assert(tail[0] == def.fields@[i as int]);
                assert(tail.drop_first() =~= def.fields@.skip(i + 1));
            }
            let field_value = match self.decode_field(&fd.base, Some(fd)) {
                Ok(v) => v,
                Err(e) => {
                    return Err(e);
                },
            };
            let ghost pre_fields = message.fields@;
            message.add_field(fd.base.name.clone(), field_value);
            proof {
                lemma_entries_view_store(pre_fields, fd.base.name, field_value);
            }
            i = i + 1;
        }
        proof {
            assert(def.fields@.skip(nf as int) =~= Seq::<FieldDef>::empty());
        }
        let ghost base_entries = entries_view(message.fields@);
        let ghost base_pos = self.position as int;

        // Extension dispatch: only when the schema declares extensions and
        // the decoded fields carry a U32-tagged `BizID`.
        if def.extensions.len() > 0 && message.has_field("BizID") {
            proof {
                lemma_model_find_view(message.fields@, "BizID"@);
            }
            let biz_id_opt: Option<u32> = match message.get_field("BizID") {
                Some(fv) => match fv {
                    FieldValue::U32(b) => Some(*b),
                    _ => None,
                },
                None => {
                    proof {
                        assert(false);
                    }
                    None
                },
            };
            if let Some(biz_id) = biz_id_opt {
                proof {
                    assert(model_find(base_entries, "BizID"@) == Some(Val::U32(biz_id)));
                }
                match cm.get_extension(msg_type, biz_id) {
                    Some(ext) => {
                        proof {
                            assert(ext.fields@.skip(0) =~= ext.fields@);
                        }
                        let ne = ext.fields.len();
                        let mut j: usize = 0;
                        while j < ne
                            invariant
                                j <= ne,
                                ne == ext.fields@.len(),
                                self.position <= self.buffer@.len(),
                                *self.config_manager == cm_view,
                                self.buffer@ == whole,
                                message.msg_type == msg_type,
                                message.seq_num == seq_num,
                                spec_decode_ext_fields(ext.fields@, whole, base_pos, base_entries)
                                    == spec_decode_ext_fields(
                                    ext.fields@.skip(j as int),
                                    whole,
                                    self.position as int,
                                    entries_view(message.fields@),
                                ),
                            decreases ne - j,
                        {
                            let field: &BaseFieldDef = &ext.fields[j];
                            let ghost tail = ext.fields@.skip(j as int);
                            proof {
                                assert(tail[0] == ext.fields@[j as int]);
                                assert(tail.drop_first() =~= ext.fields@.skip(j + 1));
                            }
                            let field_value = match self.decode_scalar(field) {
                                Ok(v) => v,
                                Err(e) => {
                                    return Err(e);
                                },
                            };
                            let ghost pre_fields = message.fields@;
                            message.add_field(field.name.clone(), field_value);
                            proof {
                                lemma_entries_view_store(pre_fields, field.name, field_value);
                            }
                            j = j + 1;
                        }
                        proof {
                            assert(ext.fields@.skip(ne as int) =~= Seq::<BaseFieldDef>::empty());
                        }
                    },
                    None => (),
                }
            }
        } else {
            proof {
                if def.extensions@.len() > 0 {
                    lemma_model_find_view(message.fields@, "BizID"@);
                }
            }
        }
        Ok(message)
    }

    /// Verifies framing and checksum for the declared body length: the
    /// buffer must hold body and checksum, and the 8-bit wraparound sum of
    /// header and body must equal the stored checksum word.
    fn verify_checksum(&self, body_length: u32) -> (r: MessageResult<()>)
        ensures
            ({
                let body_end = 12 + body_length as int;
                match r {
                    Ok(u) => self.buf().len() >= body_end + 4 && (sum8(
                        self.buf().take(body_end),
                    ) as u32) == spec_u32_from_be_bytes(
                        self.buf().subrange(body_end, body_end + 4),
                    ),
                    Err(e) => (e == MessageError::BodyTooShort && self.buf().len() < body_end + 4)
                        || (e == MessageError::ChecksumError && self.buf().len() >= body_end + 4
                        && (sum8(self.buf().take(body_end)) as u32) != spec_u32_from_be_bytes(
                        self.buf().subrange(body_end, body_end + 4),
                    )),
                }
            }),
    {
        if (self.buffer.len() as u64) < (body_length as u64) + 16 {
            return Err(MessageError::BodyTooShort);
        }
        let body_end: usize = 12 + body_length as usize;
        let checksum = checksum_prefix(self.buffer, body_end);
        let message_checksum = read_u32_be(self.buffer, body_end);
        if (checksum as u32) != message_checksum {
            return Err(MessageError::ChecksumError);
        }
        Ok(())
    }

    /// Decodes one scalar field at the cursor, advancing it; produces
    /// exactly what [`spec_decode_scalar`] prescribes or fails with its
    /// error, leaving the cursor in place.
    fn decode_scalar(&mut self, def: &BaseFieldDef) -> (r: MessageResult<FieldValue>)
        requires
            old(self).pos() <= old(self).buf().len(),
        ensures
            final(self).buf() == old(self).buf(),
            final(self).cfg() == old(self).cfg(),
            final(self).pos() <= final(self).buf().len(),
            r is Err ==> final(self).pos() == old(self).pos(),
            match (r, spec_decode_scalar(*def, old(self).buf(), old(self).pos() as int)) {
                (Ok(fv), Ok((v, p))) => fv@ == v && !(v is Rows) && final(self).pos() == p,
                (Err(e1), Err(e2)) => e1 == e2,
                _ => false,
            },
    {
        let remaining = self.buffer.len() - self.position;
        match def.ftype {
            FieldType::U8 => {
                if remaining < 1 {
                    return Err(MessageError::BodyTooShort);
                }
                let value = self.buffer[self.position];
                proof {
                    assert(seq![value] =~= self.buffer@.subrange(
                        self.position as int,
                        self.position + 1,
                    ));
                }
                self.position = self.position + 1;
                Ok(FieldValue::U8(value))
            },
            FieldType::U16 => {
                if remaining < 2 {
                    return Err(MessageError::BodyTooShort);
                }
                let value = read_u16_be(self.buffer, self.position);
                self.position = self.position + 2;
                Ok(FieldValue::U16(value))
            },
            FieldType::U32 => {
                if remaining < 4 {
                    return Err(MessageError::BodyTooShort);
                }
                let value = read_u32_be(self.buffer, self.position);
                self.position = self.position + 4;
                Ok(FieldValue::U32(value))
            },
            FieldType::U64 => {
                if remaining < 8 {
                    return Err(MessageError::BodyTooShort);
                }
                let value = read_u64_be(self.buffer, self.position);
                self.position = self.position + 8;
                Ok(FieldValue::U64(value))
            },
            FieldType::I64 => {
                if remaining < 8 {
                    return Err(MessageError::BodyTooShort);
                }
                let value = read_i64_be(self.buffer, self.position);
                self.position = self.position + 8;
                Ok(FieldValue::I64(value))
            },
            FieldType::Char => {
                let length = match def.length {
                    Some(l) => l,
                    None => {
                        return Err(MessageError::FieldDecodeError(def.name.clone()));
                    },
                };
                if remaining < length {
                    return Err(MessageError::BodyTooShort);
                }
                let start = self.position;
                let end = self.position + length;
                let sub = vstd::slice::slice_subrange(self.buffer, start, end);
                let field_bytes = vstd::slice::slice_to_vec(sub);
                match bytes_to_string(field_bytes) {
                    Some(s) => {
                        let trimmed = trim_text(s.as_str());
                        self.position = end;
                        Ok(FieldValue::Str(trimmed))
                    },
                    None => Err(MessageError::FieldDecodeError(def.name.clone())),
                }
            },
            FieldType::Price => {
                if remaining < 8 {
                    return Err(MessageError::BodyTooShort);
                }
                let value = read_i64_be(self.buffer, self.position);
                if !validate_price(value) {
                    return Err(MessageError::ValueExceedsRange(def.name.clone()));
                }
                self.position = self.position + 8;
                Ok(FieldValue::Float(value))
            },
            FieldType::Quantity => {
                if remaining < 8 {
                    return Err(MessageError::BodyTooShort);
                }
                let value = read_i64_be(self.buffer, self.position);
                if !validate_quantity(value) {
                    return Err(MessageError::ValueExceedsRange(def.name.clone()));
                }
                self.position = self.position + 8;
                Ok(FieldValue::Float(value * 100))
            },
            FieldType::Amount => {
                if remaining < 8 {
                    return Err(MessageError::BodyTooShort);
                }
                let value = read_i64_be(self.buffer, self.position);
                if !validate_amount(value) {
                    return Err(MessageError::ValueExceedsRange(def.name.clone()));
                }
                self.position = self.position + 8;
                Ok(FieldValue::Float(value))
            },
            FieldType::Date => {
                if remaining < 4 {
                    return Err(MessageError::BodyTooShort);
                }
                let value = read_u32_be(self.buffer, self.position);
                if !validate_date_format(value) {
                    return Err(MessageError::InvalidFieldValue(def.name.clone()));
                }
                self.position = self.position + 4;
                Ok(FieldValue::U32(value))
            },
            FieldType::NTime => {
                if remaining < 8 {
                    return Err(MessageError::BodyTooShort);
                }
                let value = read_u64_be(self.buffer, self.position);
                if !validate_ntime_format(value) {
                    return Err(MessageError::InvalidFieldValue(def.name.clone()));
                }
                self.position = self.position + 8;
                Ok(FieldValue::U64(value))
            },
            FieldType::Array => Err(MessageError::ArrayElementDecodeError(def.name.clone())),
        }
    }

    /// Decodes one field at the cursor; an array field needs its full
    /// definition, any other type decodes as a scalar.
    fn decode_field(&mut self, base_field_def: &BaseFieldDef, field_def: Option<&FieldDef>) -> (r:
        MessageResult<FieldValue>)
        requires
            old(self).pos() <= old(self).buf().len(),
            field_def matches Some(fd) ==> fd.base == *base_field_def,
        ensures
            final(self).buf() == old(self).buf(),
            final(self).cfg() == old(self).cfg(),
            final(self).pos() <= final(self).buf().len(),
            (r is Err && !(base_field_def.ftype is Array && field_def is Some))
                ==> final(self).pos() == old(self).pos(),
            ({
                let sp = match field_def {
                    Some(fd) => spec_decode_field(*fd, old(self).buf(), old(self).pos() as int),
                    None => spec_decode_scalar(
                        *base_field_def,
                        old(self).buf(),
                        old(self).pos() as int,
                    ),
                };
                match (r, sp) {
                    (Ok(fv), Ok((v, p))) => fv@ == v && final(self).pos() == p,
                    (Err(e1), Err(e2)) => e1 == e2,
                    _ => false,
                }
            }),
    {
        if matches!(base_field_def.ftype, FieldType::Array) {
            match field_def {
                None => Err(MessageError::ArrayElementDecodeError(base_field_def.name.clone())),
                Some(fd) => self.decode_array(fd),
            }
        } else {
            self.decode_scalar(base_field_def)
        }
    }

    /// Decodes an array field: the count field first, which must decode to
    /// a U8, U16 or U32 value, then that many elements.
    #[verifier::loop_isolation(false)]
    #[verifier::rlimit(50)]
    fn decode_array(&mut self, field_def: &FieldDef) -> (r: MessageResult<FieldValue>)
        requires
            old(self).pos() <= old(self).buf().len(),
        ensures
            final(self).buf() == old(self).buf(),
            final(self).cfg() == old(self).cfg(),
            final(self).pos() <= final(self).buf().len(),
            match (r, spec_decode_array(*field_def, old(self).buf(), old(self).pos() as int)) {
                (Ok(fv), Ok((v, p))) => fv@ == v && final(self).pos() == p,
                (Err(e1), Err(e2)) => e1 == e2,
                _ => false,
            },
    {
        let length_field_def: &BaseFieldDef = match &field_def.length_field {
            Some(lf) => lf,
            None => {
                return Err(MessageError::ArrayCountDecodeError(field_def.base.name.clone()));
            },
        };
        let length_value = match self.decode_scalar(length_field_def) {
            Ok(v) => v,
            Err(e) => {
                return Err(e);
            },
        };
        let length: usize = match &length_value {
            FieldValue::U8(v) => *v as usize,
            FieldValue::U16(v) => *v as usize,
            FieldValue::U32(v) => *v as usize,
            _ => {
                return Err(MessageError::InvalidArrayCountType);
            },
        };
        let struct_def: &StructDef = match &field_def.struct_def {
            Some(sd) => sd,
            None => {
                return Err(MessageError::ArrayElementDecodeError(field_def.base.name.clone()));
            },
        };
        let ghost p1 = self.position as int;
        let ghost whole = self.buffer@;
        let mut array_elements: Vec<Vec<FieldValue>> = Vec::new();
        let mut k: usize = 0;
        while k < length
            invariant
                k <= length,
                self.position <= self.buffer@.len(),
                self.buffer@ == whole,
                *self.config_manager == old(self).config_manager,
                array_elements@.len() == k,
                forall|a: int, b: int|
                    0 <= a < k && 0 <= b < array_elements@[a]@.len() ==> !((
                    #[trigger] array_elements@[a]@[b]) is Array),
                spec_decode_rows(struct_def.fields@, whole, p1, length as int) == (match
                    spec_decode_rows(
                    struct_def.fields@,
                    whole,
                    self.position as int,
                    length - k,
                ) {
                    Err(e) => Err::<(Seq<Seq<Val>>, int), MessageError>(e),
                    Ok((rs, p)) => Ok(
                        (
                            Seq::new(
                                array_elements@.len(),
                                |a: int|
                                    Seq::new(
                                        array_elements@[a]@.len(),
                                        |b: int| crate::message::scalar_val(
                                            array_elements@[a]@[b],
                                        ),
                                    ),
                            ) + rs,
                            p,
                        ),
                    ),
                }),
            decreases length - k,
        {
            let ghost pre_elems = array_elements@;
            let element = match self.decode_row(struct_def) {
                Ok(e) => e,
                Err(e) => {
                    return Err(e);
                },
            };
            array_elements.push(element);
            proof {
                let rows_pre = Seq::new(
                    pre_elems.len(),
                    |a: int|
                        Seq::new(
                            pre_elems[a]@.len(),
                            |b: int| crate::message::scalar_val(pre_elems[a]@[b]),
                        ),
                );
                let rows_post = Seq::new(
                    array_elements@.len(),
                    |a: int|
                        Seq::new(
                            array_elements@[a]@.len(),
                            |b: int| crate::message::scalar_val(array_elements@[a]@[b]),
                        ),
                );
                let erow = Seq::new(
                    element@.len(),
                    |b: int| crate::message::scalar_val(element@[b]),
                );
                assert(rows_post =~= rows_pre.push(erow));
                if spec_decode_rows(struct_def.fields@, whole, self.position as int, length - k - 1)
                    is Ok {
                    let rs = spec_decode_rows(
                        struct_def.fields@,
                        whole,
                        self.position as int,
                        length - k - 1,
                    )->Ok_0.0;
                    assert(rows_pre + (seq![erow] + rs) =~= rows_post + rs);
                }
            }
            k = k + 1;
        }
        proof {
            assert(spec_decode_rows(struct_def.fields@, whole, self.position as int, 0) == Ok::<
                _,
                MessageError,
            >((Seq::<Seq<Val>>::empty(), self.position as int)));
        }
        let result = FieldValue::Array(array_elements);
        proof {
            let rows_final = Seq::new(
                array_elements@.len(),
                |a: int|
                    Seq::new(
                        array_elements@[a]@.len(),
                        |b: int| crate::message::scalar_val(array_elements@[a]@[b]),
                    ),
            );
            assert(result@->Rows_0 =~= rows_final);
            if spec_decode_rows(struct_def.fields@, whole, p1, length as int) is Ok {
                let rs = spec_decode_rows(struct_def.fields@, whole, p1, length as int)->Ok_0.0;
                assert(rows_final + Seq::<Seq<Val>>::empty() =~= rows_final);
            }
        }
        Ok(result)
    }

    /// Decodes one array element: every struct field in order.
    #[verifier::loop_isolation(false)]
    fn decode_row(&mut self, struct_def: &StructDef) -> (r: MessageResult<Vec<FieldValue>>)
        requires
            old(self).pos() <= old(self).buf().len(),
        ensures
            final(self).buf() == old(self).buf(),
            final(self).cfg() == old(self).cfg(),
            final(self).pos() <= final(self).buf().len(),
            match (r, spec_decode_row(struct_def.fields@, old(self).buf(), old(self).pos() as int)) {
                (Ok(vs), Ok((row, p))) => row =~= Seq::new(
                    vs@.len(),
                    |b: int| crate::message::scalar_val(vs@[b]),
                ) && final(self).pos() == p && (forall|b: int|
                    0 <= b < vs@.len() ==> !((#[trigger] vs@[b]) is Array)),
                (Err(e1), Err(e2)) => e1 == e2,
                _ => false,
            },
    {
        let ghost whole = self.buffer@;
        let ghost pos0 = self.position as int;
        let mut out: Vec<FieldValue> = Vec::new();
        let nf = struct_def.fields.len();
        let mut j: usize = 0;
        proof {
            assert(struct_def.fields@.skip(0) =~= struct_def.fields@);
        }
        while j < nf
            invariant
                j <= nf,
                nf == struct_def.fields@.len(),
                self.position <= self.buffer@.len(),
                self.buffer@ == whole,
                *self.config_manager == old(self).config_manager,
                out@.len() == j,
                forall|b: int| 0 <= b < j ==> !((#[trigger] out@[b]) is Array),
                spec_decode_row(struct_def.fields@, whole, pos0) == (match spec_decode_row(
                    struct_def.fields@.skip(j as int),
                    whole,
                    self.position as int,
                ) {
                    Err(e) => Err::<(Seq<Val>, int), MessageError>(e),
                    Ok((vs, p)) => Ok(
                        (
                            Seq::new(
                                out@.len(),
                                |b: int| crate::message::scalar_val(out@[b]),
                            ) + vs,
                            p,
                        ),
                    ),
                }),
            decreases nf - j,
        {
            let field: &BaseFieldDef = &struct_def.fields[j];
            let ghost tail = struct_def.fields@.skip(j as int);
            let ghost pre_out = out@;
            proof {
                assert(tail[0] == struct_def.fields@[j as int]);
                assert(tail.drop_first() =~= struct_def.fields@.skip(j + 1));
            }
            let field_value = match self.decode_scalar(field) {
                Ok(v) => v,
                Err(e) => {
                    return Err(e);
                },
            };
            out.push(field_value);
            proof {
                let done_pre = Seq::new(
                    pre_out.len(),
                    |b: int| crate::message::scalar_val(pre_out[b]),
                );
                let done_post = Seq::new(
                    out@.len(),
                    |b: int| crate::message::scalar_val(out@[b]),
                );
                assert(done_post =~= done_pre.push(crate::message::scalar_val(field_value)));
                if spec_decode_row(struct_def.fields@.skip(j + 1), whole, self.position as int)
                    is Ok {
                    let vs = spec_decode_row(
                        struct_def.fields@.skip(j + 1),
                        whole,
                        self.position as int,
                    )->Ok_0.0;
                    assert(done_pre + (seq![crate::message::scalar_val(field_value)] + vs)
                        =~= done_post + vs);
                }
            }
            j = j + 1;
        }
        proof {
            assert(struct_def.fields@.skip(nf as int) =~= Seq::<BaseFieldDef>::empty());
            let done = Seq::new(out@.len(), |b: int| crate::message::scalar_val(out@[b]));
            assert(done + Seq::<Val>::empty() =~= done);
        }
        Ok(out)
    }
}

} // verus!
