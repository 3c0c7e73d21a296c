//! Structural validation of a parsed schema.
//!
//! Reading the schema's textual form is a collaborator's job; this module
//! checks the parsed structure before it is loaded.

use vstd::prelude::*;

use super::types::{FieldType, MessageConfig};
use crate::util::ConfigError;

verus! {

/// Validates parsed schema structures.
pub struct XmlConfigParser;

/// A message definition is structurally sound: nonzero type, nonempty
/// names, and each array field fully declared.
pub open spec fn spec_message_ok(m: super::types::MessageDef) -> bool {
    &&& m.msg_type != 0
    &&& m.name@.len() != 0
    &&& forall|i: int|
        0 <= i < m.fields@.len() ==> spec_field_ok(#[trigger] m.fields@[i])
    &&& forall|i: int|
        0 <= i < m.extensions@.len() ==> spec_extension_ok(#[trigger] m.extensions@[i])
}

pub open spec fn spec_field_ok(f: super::types::FieldDef) -> bool {
    &&& f.base.name@.len() != 0
    &&& f.base.ftype is Array ==> {
        &&& f.length_field is Some
        &&& f.struct_def is Some
        &&& f.struct_def->Some_0.fields@.len() != 0
        &&& forall|j: int|
            0 <= j < f.struct_def->Some_0.fields@.len()
                ==> (#[trigger] f.struct_def->Some_0.fields@[j]).name@.len() != 0
    }
}

pub open spec fn spec_extension_ok(e: super::types::BizExtension) -> bool {
    &&& e.biz_id != 0
    &&& forall|j: int| 0 <= j < e.fields@.len() ==> (#[trigger] e.fields@[j]).name@.len() != 0
}

/// The whole parsed schema is structurally sound.
pub open spec fn spec_config_ok(config: MessageConfig) -> bool {
    forall|i: int| 0 <= i < config.messages@.len() ==> spec_message_ok(#[trigger] config.messages@[i])
}

impl XmlConfigParser {
    /// Checks a parsed schema: message types and business IDs are nonzero,
    /// names are nonempty, and every array field declares a count field and
    /// a nonempty element struct. Returns the first violation found, walking
    /// messages in order and, within one, fields before extensions.
    pub fn validate_config(config: &MessageConfig) -> (r: Result<(), ConfigError>)
        ensures
            r is Ok <==> spec_config_ok(*config),
    {
        let nm = config.messages.len();
        let mut mi: usize = 0;
        while mi < nm
            invariant
                nm == config.messages.len(),
                mi <= nm,
                forall|i: int| 0 <= i < mi ==> spec_message_ok(#[trigger] config.messages@[i]),
            decreases nm - mi,
        {
            let message = &config.messages[mi];
            if message.msg_type == 0 {
                proof {
                    assert(!spec_message_ok(config.messages@[mi as int]));
                }
                return Err(ConfigError::InvalidMessageType);
            }
            if message.name.as_str().is_empty() {
                proof {
                    assert(!spec_message_ok(config.messages@[mi as int]));
                }
                return Err(ConfigError::InvalidMessageName);
            }
            let nf = message.fields.len();
            let mut fi: usize = 0;
            while fi < nf
                invariant
                    nm == config.messages.len(),
                    mi < nm,
                    *message == config.messages@[mi as int],
                    nf == message.fields.len(),
                    fi <= nf,
                    forall|i: int| 0 <= i < fi ==> spec_field_ok(#[trigger] message.fields@[i]),
                decreases nf - fi,
            {
                let field = &message.fields[fi];
                if field.base.name.as_str().is_empty() {
                    proof {
                        assert(*message == config.messages@[mi as int]);
                        assert(!spec_field_ok(message.fields@[fi as int]));
                        assert(!spec_message_ok(config.messages@[mi as int]));
                    }
                    return Err(ConfigError::InvalidFieldName);
                }
                if matches!(field.base.ftype, FieldType::Array) {
                    if field.length_field.is_none() || field.struct_def.is_none() {
                        proof {
                            assert(!spec_field_ok(message.fields@[fi as int]));
                            assert(!spec_message_ok(config.messages@[mi as int]));
                        }
                        return Err(ConfigError::InvalidArrayDefinition);
                    }
                    let struct_def = field.struct_def.as_ref().unwrap();
                    if struct_def.fields.is_empty() {
                        proof {
                            assert(!spec_field_ok(message.fields@[fi as int]));
                            assert(!spec_message_ok(config.messages@[mi as int]));
                        }
                        return Err(ConfigError::InvalidArrayStructure);
                    }
                    let ns = struct_def.fields.len();
                    let mut si: usize = 0;
                    while si < ns
                        invariant
                            nm == config.messages.len(),
                            mi < nm,
                            *message == config.messages@[mi as int],
                            nf == message.fields.len(),
                            fi < nf,
                            *field == message.fields@[fi as int],
                            field.base.ftype is Array,
                            field.struct_def is Some,
                            *struct_def == field.struct_def->Some_0,
                            ns == struct_def.fields.len(),
                            si <= ns,
                            forall|j: int|
                                0 <= j < si ==> (#[trigger] struct_def.fields@[j]).name@.len()
                                    != 0,
                        decreases ns - si,
                    {
                        if struct_def.fields[si].name.as_str().is_empty() {
                            proof {
                                assert(*message == config.messages@[mi as int]);
                                let f = message.fields@[fi as int];
                                assert(f == *field);
                                assert(*struct_def == f.struct_def->Some_0);
                                assert(f.struct_def->Some_0.fields@[si as int].name@.len() == 0);
                                assert(!spec_field_ok(f));
                                assert(!spec_message_ok(config.messages@[mi as int]));
                            }
                            return Err(ConfigError::InvalidFieldName);
                        }
                        si = si + 1;
                    }
                }
                fi = fi + 1;
            }
            let ne = message.extensions.len();
            let mut ei: usize = 0;
            while ei < ne
                invariant
                    nm == config.messages.len(),
                    mi < nm,
                    *message == config.messages@[mi as int],
                    ne == message.extensions.len(),
                    ei <= ne,
                    forall|i: int|
                        0 <= i < ei ==> spec_extension_ok(#[trigger] message.extensions@[i]),
                decreases ne - ei,
            {
                let extension = &message.extensions[ei];
                if extension.biz_id == 0 {
                    proof {
                        assert(*message == config.messages@[mi as int]);
                        assert(*extension == message.extensions@[ei as int]);
                        assert(!spec_extension_ok(message.extensions@[ei as int]));
                        assert(!spec_message_ok(config.messages@[mi as int]));
                    }
                    return Err(ConfigError::InvalidBizId);
                }
                let nx = extension.fields.len();
                let mut xi: usize = 0;
                while xi < nx
                    invariant
                        nm == config.messages.len(),
                        mi < nm,
                        *message == config.messages@[mi as int],
                        ne == message.extensions.len(),
                        ei < ne,
                        *extension == message.extensions@[ei as int],
                        nx == extension.fields.len(),
                        xi <= nx,
                        forall|j: int|
                            0 <= j < xi ==> (#[trigger] extension.fields@[j]).name@.len() != 0,
                    decreases nx - xi,
                {
                    if extension.fields[xi].name.as_str().is_empty() {
                        proof {
                            assert(*message == config.messages@[mi as int]);
                            assert(*extension == message.extensions@[ei as int]);
                            assert(extension.fields@[xi as int].name@.len() == 0);
                            assert(!spec_extension_ok(message.extensions@[ei as int]));
                            assert(!spec_message_ok(config.messages@[mi as int]));
                        }
                        return Err(ConfigError::InvalidFieldName);
                    }
                    xi = xi + 1;
                }
                ei = ei + 1;
            }
            mi = mi + 1;
        }
        Ok(())
    }
}

} // verus!
