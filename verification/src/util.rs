//! Error taxonomy of the codec.
//!
//! Every failure of encoding, decoding or schema handling is surfaced to the
//! caller as one of these variants; the codec never recovers internally.

use vstd::prelude::*;
use vstd::string::StringSliceAdditionalSpecFns;

verus! {

/// Low-level codec failure conditions.
#[derive(Debug, Clone, PartialEq, Eq)]
pub enum CodecError {
    InvalidFieldType,
    BufferTooSmall,
    ChecksumError,
}

/// Failure conditions of schema validation.
#[derive(Debug, Clone, PartialEq, Eq)]
pub enum ConfigError {
    MessageNotFound(u32),
    InvalidMessageType,
    InvalidMessageName,
    InvalidFieldName,
    InvalidArrayDefinition,
    InvalidArrayLengthField,
    InvalidArrayStructure,
    InvalidBizId,
}

/// Failure conditions of message encoding and decoding.
///
/// Variants carrying a `String` name the field on which the failure arose.
#[derive(Debug, Clone, PartialEq, Eq)]
pub enum MessageError {
    HeaderTooShort,
    BodyTooShort,
    UnknownMessageType(u32),
    FieldDecodeError(String),
    ArrayCountDecodeError(String),
    InvalidArrayCountType,
    ArrayElementDecodeError(String),
    FieldEncodeError(String),
    ArrayCountEncodeError(String),
    ArrayElementEncodeError(String),
    InvalidFieldValue(String),
    CodecError(CodecError),
    ConfigError(ConfigError),
    ChecksumError,
    ValueExceedsRange(String),
    UnknownBizExtension(u32),
}

pub type CodecResult<T> = Result<T, CodecError>;

pub type ConfigResult<T> = Result<T, ConfigError>;

pub type MessageResult<T> = Result<T, MessageError>;

/// Decides equality of two strings by their character sequences.
pub fn str_eq(a: &str, b: &str) -> (r: bool)
    ensures
        r == (a@ == b@),
{
    broadcast use vstd::utf8::encode_utf8_decode_utf8;

    let ab = a.as_bytes();
    let bb = b.as_bytes();
    if ab.len() != bb.len() {
        proof {
            assert(a@ != b@) by {
                if a@ == b@ {
                    assert(ab@ == bb@);
                }
            }
        }
        return false;
    }
    let n = ab.len();
    let mut i: usize = 0;
    while i < n
        invariant
            n == ab.len() == bb.len(),
            ab@ == a.spec_bytes(),
            bb@ == b.spec_bytes(),
            i <= n,
            forall|k: int| 0 <= k < i ==> ab@[k] == bb@[k],
        decreases n - i,
    {
        if ab[i] != bb[i] {
            proof {
                assert(a@ != b@) by {
                    if a@ == b@ {
                        assert(ab@ == bb@);
                    }
                }
            }
            return false;
        }
        i = i + 1;
    }
    proof {
        assert(ab@ =~= bb@);
        assert(vstd::utf8::decode_utf8(a.spec_bytes()) == vstd::utf8::decode_utf8(b.spec_bytes()));
        assert(a@ == b@);
    }
    true
}

} // verus!
