//! The message encoder: turns a structured message into one framed,
//! checksummed byte buffer, verified byte-exactly against
//! [`crate::codec::model::spec_encode_msg`].

use vstd::prelude::*;
use vstd::string::StrSliceExecFns;

use crate::codec::model::{
    lemma_encode_scalar_view, spec_count_val, spec_default, spec_encode_array,
    spec_encode_ext_fields, spec_encode_extension, spec_encode_field, spec_encode_fields,
    spec_encode_msg, spec_encode_row_from, spec_encode_rows, spec_encode_scalar,
    spec_header_bytes, spec_value_for, tdiv100, type_matches,
};
use crate::codec::types::{
    validate_amount, validate_date_format, validate_ntime_format, validate_price,
    validate_quantity,
};
use crate::codec::wire::{
    checksum_prefix, fit_to_width, push_i64_be, push_u16_be, push_u32_be, push_u64_be, set_u32_be,
    spec_u32_to_be_bytes, sum8,
};
use crate::config::manager::ConfigManager;
use crate::config::types::{BaseFieldDef, FieldDef, FieldType, MessageDef, StructDef};
use crate::message::{scalar_val, FieldValue, Message, Val};
use crate::util::{MessageError, MessageResult};

verus! {

/// Builds a string of `n` spaces.
fn make_spaces(n: usize) -> (r: String)
    ensures
        r@ == Seq::new(n as nat, |i: int| ' '),
{
    let bytes: Vec<u8> = vec![32u8; n];
    let ghost spaces = Seq::new(n as nat, |i: int| ' ');
    proof {
        assert(vstd::utf8::is_ascii_chars(spaces));
        vstd::utf8::is_ascii_chars_encode_utf8(spaces);
        assert(vstd::utf8::encode_utf8(spaces) =~= bytes@);
        vstd::utf8::encode_utf8_valid_utf8(spaces);
        vstd::utf8::encode_utf8_decode_utf8(spaces);
    }
    match crate::codec::wire::bytes_to_string(bytes) {
        Some(s) => s,
        None => {
            proof {
                assert(false);
            }
            String::new()
        },
    }
}

/// Division by 100 truncating toward zero, as the Quantity scaling uses.
fn div100_trunc(x: i64) -> (w: i64)
    ensures
        w as int == tdiv100(x as int),
{
    if x >= 0 {
        ((x as u64) / 100) as i64
    } else {
        let mag: u64 = ((-(x + 1)) as u64) + 1;
        let q = mag / 100;
        -(q as i64)
    }
}

/// Encodes structured messages against a loaded schema.
pub struct MessageEncoder<'a> {
    config_manager: &'a ConfigManager,
    buffer: Vec<u8>,
}

impl<'a> MessageEncoder<'a> {
    /// The encoder's internal buffer.
    pub closed spec fn buf(self) -> Seq<u8> {
        self.buffer@
    }

    /// The registry the encoder works against.
    pub closed spec fn cfg(self) -> ConfigManager {
        *self.config_manager
    }

    /// A fresh encoder over `config_manager`, with an empty buffer.
    pub fn new(config_manager: &'a ConfigManager) -> (r: Self)
        ensures
            r.buf().len() == 0,
            r.cfg() == *config_manager,
    {
        Self { config_manager, buffer: Vec::new() }
    }

    /// Encodes `message` under the loaded schema: a 12-byte header, the
    /// schema-ordered body (with defaults for absent fields and the active
    /// extension's fields appended), and a 4-byte checksum. Returns exactly
    /// the bytes [`spec_encode_msg`] prescribes, or its error, with no
    /// partial output.
    ///
    /// When the message carries a `BizID` field, the schema declares
    /// extensions for this type, and extension dispatch is therefore
    /// attempted, the `BizID` value must be tagged `U32`.
    #[verifier::loop_isolation(false)]
    #[verifier::rlimit(100)]
    pub fn encode(&mut self, message: &Message) -> (r: MessageResult<Vec<u8>>)
        requires
            ({
                let defs = old(self).cfg().msg_defs();
                (defs.contains_key(message.msg_type)
                    && defs[message.msg_type].extensions@.len() > 0 && message.spec_has("BizID"@))
                    ==> message.spec_get("BizID"@)->Some_0@ is U32
            }),
        ensures
            final(self).cfg() == old(self).cfg(),
            match r {
                Ok(v) => spec_encode_msg(old(self).cfg(), *message) == Ok::<_, MessageError>(v@)
                    && final(self).buf() == v@,
                Err(e) => spec_encode_msg(old(self).cfg(), *message) == Err::<Seq<u8>, _>(e),
            },
    {
        let ghost cm_view = *self.config_manager;
        let ghost m = *message;
        self.buffer.clear();
        let cm: &'a ConfigManager = self.config_manager;
        let def: &MessageDef = match cm.get_message_def(message.msg_type) {
            Some(d) => d,
            None => {
                return Err(MessageError::UnknownMessageType(message.msg_type));
            },
        };
        self.buffer.resize(12, 0u8);
        let ghost zero12 = Seq::new(12 as nat, |i: int| 0u8);
        proof {
            assert(self.buffer@ =~= zero12);
        }

        let nf = def.fields.len();
        let mut i: usize = 0;
        proof {
            assert(def.fields@.skip(0) =~= def.fields@);
            assert(self.buffer@.skip(12) =~= Seq::<u8>::empty());
        }
        while i < nf
            invariant
                self.config_manager == old(self).config_manager,
                *def == cm_view.msg_defs()[m.msg_type],
                cm_view.msg_defs().contains_key(m.msg_type),
                cm_view == *self.config_manager,
                nf == def.fields@.len(),
                i <= nf,
                self.buffer@.len() >= 12,
                self.buffer@.subrange(0, 12) == zero12,
                spec_encode_fields(def.fields@, m) == (match spec_encode_fields(
                    def.fields@.skip(i as int),
                    m,
                ) {
                    Err(e) => Err::<Seq<u8>, MessageError>(e),
                    Ok(rest) => Ok(self.buffer@.skip(12) + rest),
                }),
            decreases nf - i,
        {
            let fd: &FieldDef = &def.fields[i];
            let ghost pre = self.buffer@;
            let ghost tail = def.fields@.skip(i as int);
            proof {
                assert(tail[0] == def.fields@[i as int]);
                assert(tail.drop_first() =~= def.fields@.skip(i + 1));
            }
            let res = match message.get_field(fd.base.name.as_str()) {
                Some(v) => {
                    proof {
                        assert(spec_value_for(m, tail[0].base) == (*v)@);
                    }
                    self.encode_field(&fd.base, Some(fd), v)
                },
                None => {
                    let d = self.get_default_value(&fd.base, Some(fd));
                    proof {
                        assert(spec_value_for(m, tail[0].base) == d@);
                    }
                    self.encode_field(&fd.base, Some(fd), &d)
                },
            };
            match res {
                Ok(()) => {
                    proof {
                        assert(self.buffer@.skip(12) =~= pre.skip(12) + self.buffer@.subrange(
                            pre.len() as int,
                            self.buffer@.len() as int,
                        ));
                        assert(self.buffer@.subrange(0, 12) =~= pre.subrange(0, 12));
                        if spec_encode_field(tail[0], spec_value_for(m, tail[0].base)) is Ok {
                            let b = spec_encode_field(
                                tail[0],
                                spec_value_for(m, tail[0].base),
                            )->Ok_0;
                            assert(b =~= self.buffer@.subrange(
                                pre.len() as int,
                                self.buffer@.len() as int,
                            ));
                        }
                        if spec_encode_fields(def.fields@.skip(i + 1), m) is Ok {
                            let rest = spec_encode_fields(def.fields@.skip(i + 1), m)->Ok_0;
                            assert(pre.skip(12) + (self.buffer@.subrange(
                                pre.len() as int,
                                self.buffer@.len() as int,
                            ) + rest) =~= self.buffer@.skip(12) + rest);
                        }
                    }
                },
                Err(e) => {
                    proof {
                        assert(spec_encode_fields(def.fields@, m) == Err::<Seq<u8>, MessageError>(
                            e,
                        ));
                        assert(spec_encode_msg(cm_view, m) == Err::<Seq<u8>, MessageError>(e));
                    }
                    return Err(e);
                },
            }
            i = i + 1;
        }
        proof {
            assert(def.fields@.skip(nf as int) =~= Seq::<FieldDef>::empty());
        }
        let ghost base_done = self.buffer@.skip(12);
        proof {
            assert(spec_encode_fields(def.fields@, m) == Ok::<_, MessageError>(base_done));
        }

        // Extension dispatch: only when the message carries `BizID` and the
        // schema declares extensions for this message type.
        if def.extensions.len() > 0 && message.has_field("BizID") {
            let biz_value: &FieldValue = match message.get_field("BizID") {
                Some(v) => v,
                None => {
                    proof {
                        assert(false);
                    }
                    return Err(MessageError::UnknownMessageType(message.msg_type));
                },
            };
            let biz_id: u32 = match biz_value {
                FieldValue::U32(b) => *b,
                _ => {
                    proof {
                        assert(false);
                    }
                    0
                },
            };
            proof {
                assert(biz_id == m.spec_get("BizID"@)->Some_0@->U32_0);
            }
            match cm.get_extension(message.msg_type, biz_id) {
                Some(ext) => {
                    let ne = ext.fields.len();
                    let mut j: usize = 0;
                    proof {
                        assert(ext.fields@.skip(0) =~= ext.fields@);
                        assert(self.buffer@.skip(12).skip(base_done.len() as int) =~= Seq::<
                            u8,
                        >::empty());
                    }
                    while j < ne
                        invariant
                            self.config_manager == old(self).config_manager,
                            cm_view == *self.config_manager,
                            ne == ext.fields@.len(),
                            j <= ne,
                            self.buffer@.len() >= 12,
                            self.buffer@.subrange(0, 12) == zero12,
                            self.buffer@.skip(12).len() >= base_done.len(),
                            self.buffer@.skip(12).subrange(0, base_done.len() as int)
                                == base_done,
                            spec_encode_ext_fields(ext.fields@, m) == (match spec_encode_ext_fields(
                                ext.fields@.skip(j as int),
                                m,
                            ) {
                                Err(e) => Err::<Seq<u8>, MessageError>(e),
                                Ok(rest) => Ok(
                                    self.buffer@.skip(12).skip(base_done.len() as int) + rest,
                                ),
                            }),
                        decreases ne - j,
                    {
                        let field: &BaseFieldDef = &ext.fields[j];
                        let ghost pre = self.buffer@;
                        let ghost tail = ext.fields@.skip(j as int);
                        proof {
                            assert(tail[0] == ext.fields@[j as int]);
                            assert(tail.drop_first() =~= ext.fields@.skip(j + 1));
                        }
                        let res = match message.get_field(field.name.as_str()) {
                            Some(v) => {
                                proof {
                                    assert(spec_value_for(m, tail[0]) == (*v)@);
                                }
                                self.encode_field(field, None, v)
                            },
                            None => {
                                let d = self.get_default_value(field, None);
                                proof {
                                    assert(spec_value_for(m, tail[0]) == d@);
                                }
                                self.encode_field(field, None, &d)
                            },
                        };
                        match res {
                            Ok(()) => {
                                proof {
                                    assert(self.buffer@.subrange(0, 12) =~= pre.subrange(0, 12));
                                    assert(self.buffer@.skip(12).subrange(
                                        0,
                                        base_done.len() as int,
                                    ) =~= pre.skip(12).subrange(0, base_done.len() as int));
                                    assert(self.buffer@.skip(12).skip(base_done.len() as int)
                                        =~= pre.skip(12).skip(base_done.len() as int)
                                        + self.buffer@.subrange(
                                        pre.len() as int,
                                        self.buffer@.len() as int,
                                    ));
                                    if spec_encode_scalar(tail[0], spec_value_for(m, tail[0]))
                                        is Ok {
                                        let b = spec_encode_scalar(
                                            tail[0],
                                            spec_value_for(m, tail[0]),
                                        )->Ok_0;
                                        assert(b =~= self.buffer@.subrange(
                                            pre.len() as int,
                                            self.buffer@.len() as int,
                                        ));
                                    }
                                    if spec_encode_ext_fields(ext.fields@.skip(j + 1), m) is Ok {
                                        let rest = spec_encode_ext_fields(
                                            ext.fields@.skip(j + 1),
                                            m,
                                        )->Ok_0;
                                        assert(pre.skip(12).skip(base_done.len() as int)
                                            + (self.buffer@.subrange(
                                            pre.len() as int,
                                            self.buffer@.len() as int,
                                        ) + rest) =~= self.buffer@.skip(12).skip(
                                            base_done.len() as int,
                                        ) + rest);
                                    }
                                }
                            },
                            Err(e) => {
                                proof {
                                    assert(spec_encode_ext_fields(ext.fields@, m) == Err::<
                                        Seq<u8>,
                                        MessageError,
                                    >(e));
                                    assert(spec_encode_extension(cm_view, *def, m) == Err::<
                                        Seq<u8>,
                                        MessageError,
                                    >(e));
                                    assert(spec_encode_msg(cm_view, m) == Err::<
                                        Seq<u8>,
                                        MessageError,
                                    >(e));
                                }
                                return Err(e);
                            },
                        }
                        j = j + 1;
                    }
                    proof {
                        assert(ext.fields@.skip(ne as int) =~= Seq::<BaseFieldDef>::empty());
                        assert(spec_encode_extension(cm_view, *def, m) == Ok::<_, MessageError>(
                            self.buffer@.skip(12).skip(base_done.len() as int),
                        ));
                    }
                },
                None => {
                    proof {
                        assert(self.buffer@.skip(12).skip(base_done.len() as int) =~= Seq::<
                            u8,
                        >::empty());
                        assert(spec_encode_extension(cm_view, *def, m) == Ok::<_, MessageError>(
                            self.buffer@.skip(12).skip(base_done.len() as int),
                        ));
                    }
                },
            }
        } else {
            proof {
                assert(self.buffer@.skip(12).skip(base_done.len() as int) =~= Seq::<u8>::empty());
                assert(spec_encode_extension(cm_view, *def, m) == Ok::<_, MessageError>(
                    self.buffer@.skip(12).skip(base_done.len() as int),
                ));
            }
        }
        proof {
            assert(self.buffer@.skip(12) =~= base_done + self.buffer@.skip(12).skip(
                base_done.len() as int,
            ));
        }

        let ghost body = self.buffer@.skip(12);
        let body_length: u32 = ((((self.buffer.len() - 12) as u64)) % 0x1_0000_0000) as u32;
        proof {
            assert(body_length == (body.len() % 0x1_0000_0000) as u32);
        }
        set_u32_be(&mut self.buffer, 0, message.msg_type);
        set_u32_be(&mut self.buffer, 4, message.seq_num);
        set_u32_be(&mut self.buffer, 8, body_length);
        proof {
            assert(self.buffer@ =~= spec_header_bytes(m.msg_type, m.seq_num, body_length) + body);
        }
        self.append_checksum();
        let out = self.buffer.clone();
        proof {
            assert(out@ =~= self.buffer@);
            assert(spec_encode_msg(cm_view, m) == Ok::<_, MessageError>(out@));
        }
        Ok(out)
    }

    /// The substitute for a field the message does not carry: numeric zero,
    /// a space-filled string of the declared length, or an empty array.
    fn get_default_value(&self, base_field_def: &BaseFieldDef, _field_def: Option<&FieldDef>) -> (r:
        FieldValue)
        ensures
            r@ == spec_default(*base_field_def),
    {
        match base_field_def.ftype {
            FieldType::U8 => FieldValue::U8(0),
            FieldType::U16 => FieldValue::U16(0),
            FieldType::U32 => FieldValue::U32(0),
            FieldType::U64 => FieldValue::U64(0),
            FieldType::I64 => FieldValue::I64(0),
            FieldType::Price => FieldValue::Float(0),
            FieldType::Quantity => FieldValue::Float(0),
            FieldType::Amount => FieldValue::Float(0),
            FieldType::Date => FieldValue::U32(0),
            FieldType::NTime => FieldValue::U64(0),
            FieldType::Char => {
                let length = match base_field_def.length {
                    Some(l) => l,
                    None => 1,
                };
                FieldValue::Str(make_spaces(length))
            },
            FieldType::Array => {
                let r = FieldValue::Array(Vec::new());
                proof {
                    assert(r@->Rows_0 =~= Seq::<Seq<Val>>::empty());
                }
                r
            },
        }
    }

    /// The runtime tag of `value` is the one `field_type` calls for.
    fn validate_field_type_match(field_type: &FieldType, value: &FieldValue) -> (r: bool)
        ensures
            r == type_matches(*field_type, value@),
    {
        match (field_type, value) {
            (FieldType::U8, FieldValue::U8(_)) => true,
            (FieldType::U16, FieldValue::U16(_)) => true,
            (FieldType::U32, FieldValue::U32(_)) => true,
            (FieldType::U64, FieldValue::U64(_)) => true,
            (FieldType::I64, FieldValue::I64(_)) => true,
            (FieldType::Char, FieldValue::Str(_)) => true,
            (FieldType::Price, FieldValue::Float(_)) => true,
            (FieldType::Quantity, FieldValue::Float(_)) => true,
            (FieldType::Amount, FieldValue::Float(_)) => true,
            (FieldType::Date, FieldValue::U32(_)) => true,
            (FieldType::NTime, FieldValue::U64(_)) => true,
            (FieldType::Array, FieldValue::Array(_)) => true,
            _ => false,
        }
    }

    /// Encodes one scalar field value, appending exactly the bytes
    /// [`spec_encode_scalar`] prescribes or failing with its error and
    /// leaving the buffer untouched: validation precedes writing.
    fn encode_scalar(&mut self, def: &BaseFieldDef, value: &FieldValue) -> (r: MessageResult<()>)
        ensures
            final(self).config_manager == old(self).config_manager,
            r is Err ==> final(self).buffer@ == old(self).buffer@,
            match (r, spec_encode_scalar(*def, value@)) {
                (Ok(u), Ok(b)) => final(self).buffer@ == old(self).buffer@ + b,
                (Err(e1), Err(e2)) => e1 == e2,
                _ => false,
            },
    {
        if !Self::validate_field_type_match(&def.ftype, value) {
            return Err(MessageError::InvalidFieldValue(def.name.clone()));
        }
        match def.ftype {
            FieldType::U8 => {
                let v: u8 = match value {
                    FieldValue::U8(v) => *v,
                    _ => {
                        proof {
                            assert(false);
                        }
                        0
                    },
                };
                self.buffer.push(v);
                proof {
                    assert(self.buffer@ =~= old(self).buffer@ + seq![v]);
                }
                Ok(())
            },
            FieldType::U16 => {
                let v: u16 = match value {
                    FieldValue::U16(v) => *v,
                    _ => {
                        proof {
                            assert(false);
                        }
                        0
                    },
                };
                push_u16_be(&mut self.buffer, v);
                Ok(())
            },
            FieldType::U32 => {
                let v: u32 = match value {
                    FieldValue::U32(v) => *v,
                    _ => {
                        proof {
                            assert(false);
                        }
                        0
                    },
                };
                push_u32_be(&mut self.buffer, v);
                Ok(())
            },
            FieldType::U64 => {
                let v: u64 = match value {
                    FieldValue::U64(v) => *v,
                    _ => {
                        proof {
                            assert(false);
                        }
                        0
                    },
                };
                push_u64_be(&mut self.buffer, v);
                Ok(())
            },
            FieldType::I64 => {
                let v: i64 = match value {
                    FieldValue::I64(v) => *v,
                    _ => {
                        proof {
                            assert(false);
                        }
                        0
                    },
                };
                push_i64_be(&mut self.buffer, v);
                Ok(())
            },
            FieldType::Char => {
                let length = match def.length {
                    Some(l) => l,
                    None => {
                        return Err(MessageError::FieldEncodeError(def.name.clone()));
                    },
                };
                let s: &String = match value {
                    FieldValue::Str(s) => s,
                    _ => {
                        proof {
                            assert(false);
                        }
                        return Err(MessageError::FieldEncodeError(def.name.clone()));
                    },
                };
                let mut bytes = s.as_str().as_bytes_vec();
                fit_to_width(&mut bytes, length);
                let ghost fitted = bytes@;
                self.buffer.append(&mut bytes);
                proof {
                    assert(self.buffer@ == old(self).buffer@ + fitted);
                }
                Ok(())
            },
            FieldType::Price => {
                let units: i64 = match value {
                    FieldValue::Float(u) => *u,
                    _ => {
                        proof {
                            assert(false);
                        }
                        0
                    },
                };
                if !validate_price(units) {
                    return Err(MessageError::ValueExceedsRange(def.name.clone()));
                }
                push_i64_be(&mut self.buffer, units);
                Ok(())
            },
            FieldType::Quantity => {
                let units: i64 = match value {
                    FieldValue::Float(u) => *u,
                    _ => {
                        proof {
                            assert(false);
                        }
                        0
                    },
                };
                let w = div100_trunc(units);
                if !validate_quantity(w) {
                    return Err(MessageError::ValueExceedsRange(def.name.clone()));
                }
                push_i64_be(&mut self.buffer, w);
                Ok(())
            },
            FieldType::Amount => {
                let units: i64 = match value {
                    FieldValue::Float(u) => *u,
                    _ => {
                        proof {
                            assert(false);
                        }
                        0
                    },
                };
                if !validate_amount(units) {
                    return Err(MessageError::ValueExceedsRange(def.name.clone()));
                }
                push_i64_be(&mut self.buffer, units);
                Ok(())
            },
            FieldType::Date => {
                let v: u32 = match value {
                    FieldValue::U32(v) => *v,
                    _ => {
                        proof {
                            assert(false);
                        }
                        0
                    },
                };
                if !validate_date_format(v) {
                    return Err(MessageError::InvalidFieldValue(def.name.clone()));
                }
                push_u32_be(&mut self.buffer, v);
                Ok(())
            },
            FieldType::NTime => {
                let v: u64 = match value {
                    FieldValue::U64(v) => *v,
                    _ => {
                        proof {
                            assert(false);
                        }
                        0
                    },
                };
                if !validate_ntime_format(v) {
                    return Err(MessageError::InvalidFieldValue(def.name.clone()));
                }
                push_u64_be(&mut self.buffer, v);
                Ok(())
            },
            FieldType::Array => Err(MessageError::ArrayElementEncodeError(def.name.clone())),
        }
    }

    /// Encodes one field; an array field needs its full definition, any
    /// other type encodes as a scalar.
    fn encode_field(
        &mut self,
        base_field_def: &BaseFieldDef,
        field_def: Option<&FieldDef>,
        value: &FieldValue,
    ) -> (r: MessageResult<()>)
        requires
            field_def matches Some(fd) ==> fd.base == *base_field_def,
        ensures
            final(self).config_manager == old(self).config_manager,
            (r is Err && !(base_field_def.ftype is Array && field_def is Some))
                ==> final(self).buffer@ == old(self).buffer@,
            ({
                let sp = match field_def {
                    Some(fd) => spec_encode_field(*fd, value@),
                    None => spec_encode_scalar(*base_field_def, value@),
                };
                match (r, sp) {
                    (Ok(u), Ok(b)) => final(self).buffer@ == old(self).buffer@ + b,
                    (Err(e1), Err(e2)) => e1 == e2,
                    _ => false,
                }
            }),
        decreases (match field_def {
            Some(_) => 3int,
            None => 0int,
        }),
    {
        if !Self::validate_field_type_match(&base_field_def.ftype, value) {
            return Err(MessageError::InvalidFieldValue(base_field_def.name.clone()));
        }
        if matches!(base_field_def.ftype, FieldType::Array) {
            match field_def {
                None => Err(MessageError::ArrayElementEncodeError(base_field_def.name.clone())),
                Some(fd) => self.encode_array(fd, value),
            }
        } else {
            self.encode_scalar(base_field_def, value)
        }
    }

    /// Encodes an array field: the element count in the declared count
    /// field's type, then each element's struct fields in order, absent
    /// trailing values replaced by defaults.
    #[verifier::loop_isolation(false)]
    #[verifier::rlimit(50)]
    fn encode_array(&mut self, field_def: &FieldDef, value: &FieldValue) -> (r: MessageResult<()>)
        requires
            value@ is Rows,
        ensures
            final(self).config_manager == old(self).config_manager,
            match (r, spec_encode_array(*field_def, value@->Rows_0)) {
                (Ok(u), Ok(b)) => final(self).buffer@ == old(self).buffer@ + b,
                (Err(e1), Err(e2)) => e1 == e2,
                _ => false,
            },
        decreases 2int,
    {
        let length_field_def: &BaseFieldDef = match &field_def.length_field {
            Some(lf) => lf,
            None => {
                return Err(MessageError::ArrayCountEncodeError(field_def.base.name.clone()));
            },
        };
        let struct_def: &StructDef = match &field_def.struct_def {
            Some(sd) => sd,
            None => {
                return Err(MessageError::ArrayElementEncodeError(field_def.base.name.clone()));
            },
        };
        let array_elements: &Vec<Vec<FieldValue>> = match value {
            FieldValue::Array(elements) => elements,
            _ => {
                proof {
                    assert(false);
                }
                return Err(MessageError::InvalidArrayCountType);
            },
        };
        let ghost rows = value@->Rows_0;
        proof {
            assert(rows.len() == array_elements@.len());
            assert forall|a: int| 0 <= a < rows.len() implies (#[trigger] rows[a]).len()
                == array_elements@[a]@.len() by {}
            assert forall|a: int, b: int|
                0 <= a < rows.len() && 0 <= b < rows[a].len() implies rows[a][b] == scalar_val(
                array_elements@[a]@[b],
            ) by {}
        }
        let length = array_elements.len();
        let length_value: FieldValue = match length_field_def.ftype {
            FieldType::U8 => FieldValue::U8((length % 0x100) as u8),
            FieldType::U16 => FieldValue::U16((length % 0x10000) as u16),
            FieldType::U32 => FieldValue::U32(((length as u64) % 0x1_0000_0000) as u32),
            _ => {
                return Err(MessageError::InvalidArrayCountType);
            },
        };
        proof {
            assert(length_value@ == spec_count_val(length_field_def.ftype, rows.len() as int));
        }
        match self.encode_scalar(length_field_def, &length_value) {
            Ok(()) => (),
            Err(e) => {
                return Err(e);
            },
        }
        let ghost count_done = self.buffer@;
        let nrows = array_elements.len();
        let mut i: usize = 0;
        proof {
            assert(rows.skip(0) =~= rows);
            assert(self.buffer@.skip(count_done.len() as int) =~= Seq::<u8>::empty());
        }
        while i < nrows
            invariant
                self.config_manager == old(self).config_manager,
                nrows == array_elements@.len(),
                nrows == rows.len(),
                i <= nrows,
                forall|a: int|
                    0 <= a < rows.len() ==> (#[trigger] rows[a]).len()
                        == array_elements@[a]@.len(),
                forall|a: int, b: int|
                    0 <= a < rows.len() && 0 <= b < rows[a].len() ==> rows[a][b] == scalar_val(
                        array_elements@[a]@[b],
                    ),
                self.buffer@.len() >= count_done.len(),
                self.buffer@.subrange(0, count_done.len() as int) == count_done,
                spec_encode_rows(struct_def.fields@, rows) == (match spec_encode_rows(
                    struct_def.fields@,
                    rows.skip(i as int),
                ) {
                    Err(e) => Err::<Seq<u8>, MessageError>(e),
                    Ok(rest) => Ok(self.buffer@.skip(count_done.len() as int) + rest),
                }),
            decreases nrows - i,
        {
            let element: &Vec<FieldValue> = &array_elements[i];
            let ghost pre = self.buffer@;
            let ghost rtail = rows.skip(i as int);
            proof {
                assert(rtail[0] == rows[i as int]);
                assert(rtail.drop_first() =~= rows.skip(i + 1));
                assert(rows[i as int] =~= Seq::new(
                    element@.len(),
                    |b: int| scalar_val(element@[b]),
                ));
            }
            match self.encode_one_row(struct_def, element) {
                Ok(()) => {
                    proof {
                        assert(self.buffer@.subrange(0, count_done.len() as int) =~= pre.subrange(
                            0,
                            count_done.len() as int,
                        ));
                        assert(self.buffer@.skip(count_done.len() as int) =~= pre.skip(
                            count_done.len() as int,
                        ) + self.buffer@.subrange(pre.len() as int, self.buffer@.len() as int));
                        if spec_encode_row_from(struct_def.fields@, rows[i as int], 0) is Ok {
                            let b = spec_encode_row_from(
                                struct_def.fields@,
                                rows[i as int],
                                0,
                            )->Ok_0;
                            assert(b =~= self.buffer@.subrange(
                                pre.len() as int,
                                self.buffer@.len() as int,
                            ));
                        }
                        if spec_encode_rows(struct_def.fields@, rows.skip(i + 1)) is Ok {
                            let rest = spec_encode_rows(
                                struct_def.fields@,
                                rows.skip(i + 1),
                            )->Ok_0;
                            assert(pre.skip(count_done.len() as int) + (self.buffer@.subrange(
                                pre.len() as int,
                                self.buffer@.len() as int,
                            ) + rest) =~= self.buffer@.skip(count_done.len() as int) + rest);
                        }
                    }
                },
                Err(e) => {
                    return Err(e);
                },
            }
            i = i + 1;
        }
        proof {
            assert(rows.skip(nrows as int) =~= Seq::<Seq<Val>>::empty());
            assert(self.buffer@ =~= count_done + self.buffer@.skip(count_done.len() as int));
        }
        Ok(())
    }

    /// Encodes one array element: every struct field in order, a missing
    /// trailing value replaced by its default.
    #[verifier::loop_isolation(false)]
    fn encode_one_row(&mut self, struct_def: &StructDef, element: &Vec<FieldValue>) -> (r:
        MessageResult<()>)
        ensures
            final(self).config_manager == old(self).config_manager,
            ({
                let row = Seq::new(element@.len(), |b: int| scalar_val(element@[b]));
                match (r, spec_encode_row_from(struct_def.fields@, row, 0)) {
                    (Ok(u), Ok(b)) => final(self).buffer@ == old(self).buffer@ + b,
                    (Err(e1), Err(e2)) => e1 == e2,
                    _ => false,
                }
            }),
        decreases 1int,
    {
        let ghost row = Seq::new(element@.len(), |b: int| scalar_val(element@[b]));
        let nf = struct_def.fields.len();
        let mut j: usize = 0;
        proof {
            assert(self.buffer@.skip(old(self).buffer@.len() as int) =~= Seq::<u8>::empty());
        }
        while j < nf
            invariant
                self.config_manager == old(self).config_manager,
                nf == struct_def.fields@.len(),
                j <= nf,
                row == Seq::new(element@.len(), |b: int| scalar_val(element@[b])),
                self.buffer@.len() >= old(self).buffer@.len(),
                self.buffer@.subrange(0, old(self).buffer@.len() as int) == old(self).buffer@,
                spec_encode_row_from(struct_def.fields@, row, 0) == (match spec_encode_row_from(
                    struct_def.fields@,
                    row,
                    j as int,
                ) {
                    Err(e) => Err::<Seq<u8>, MessageError>(e),
                    Ok(rest) => Ok(self.buffer@.skip(old(self).buffer@.len() as int) + rest),
                }),
            decreases nf - j,
        {
            let field: &BaseFieldDef = &struct_def.fields[j];
            let ghost pre = self.buffer@;
            let res = if j < element.len() {
                proof {
                    lemma_encode_scalar_view(struct_def.fields@[j as int], element@[j as int]);
                    assert(row[j as int] == scalar_val(element@[j as int]));
                }
                self.encode_field(field, None, &element[j])
            } else {
                proof {
                    assert(j >= row.len());
                }
                let d = self.get_default_value(field, None);
                self.encode_field(field, None, &d)
            };
            match res {
                Ok(()) => {
                    proof {
                        assert(self.buffer@.subrange(0, old(self).buffer@.len() as int)
                            =~= pre.subrange(0, old(self).buffer@.len() as int));
                        assert(self.buffer@.skip(old(self).buffer@.len() as int) =~= pre.skip(
                            old(self).buffer@.len() as int,
                        ) + self.buffer@.subrange(pre.len() as int, self.buffer@.len() as int));
                        ({
                            let vspec = if j < row.len() {
                                row[j as int]
                            } else {
                                spec_default(struct_def.fields@[j as int])
                            };
                            if spec_encode_scalar(struct_def.fields@[j as int], vspec) is Ok {
                                let b = spec_encode_scalar(
                                    struct_def.fields@[j as int],
                                    vspec,
                                )->Ok_0;
                                assert(b =~= self.buffer@.subrange(
                                    pre.len() as int,
                                    self.buffer@.len() as int,
                                ));
                            }
                        });
                        if spec_encode_row_from(struct_def.fields@, row, j + 1) is Ok {
                            let rest = spec_encode_row_from(struct_def.fields@, row, j + 1)->Ok_0;
                            assert(pre.skip(old(self).buffer@.len() as int) + (self.buffer@.subrange(
                                pre.len() as int,
                                self.buffer@.len() as int,
                            ) + rest) =~= self.buffer@.skip(old(self).buffer@.len() as int) + rest);
                        }
                    }
                },
                Err(e) => {
                    return Err(e);
                },
            }
            j = j + 1;
        }
        Ok(())
    }

    /// Appends the 8-bit wraparound checksum of the whole buffer, widened
    /// to four big-endian bytes.
    fn append_checksum(&mut self)
        ensures
            final(self).config_manager == old(self).config_manager,
            final(self).buffer@ == old(self).buffer@ + spec_u32_to_be_bytes(
                sum8(old(self).buffer@) as u32,
            ),
    {
        let l = self.buffer.len();
        let c = checksum_prefix(self.buffer.as_slice(), l);
        proof {
            assert(self.buffer@.take(l as int) =~= self.buffer@);
        }
        push_u32_be(&mut self.buffer, c as u32);
    }

    /// How many bytes the last encoding left in the buffer.
    pub fn len(&self) -> (r: usize)
        ensures
            r == self.buf().len(),
    {
        self.buffer.len()
    }

    /// Whether the buffer is empty.
    pub fn is_empty(&self) -> (r: bool)
        ensures
            r == (self.buf().len() == 0),
    {
        self.buffer.is_empty()
    }

    /// Empties the buffer.
    pub fn clear(&mut self)
        ensures
            final(self).buf().len() == 0,
            final(self).cfg() == old(self).cfg(),
    {
        self.buffer.clear();
    }
}

} // verus!
