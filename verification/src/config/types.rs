//! Declarative schema types: message, field, struct and extension
//! definitions.

use vstd::prelude::*;

verus! {

/// The closed set of wire field types.
#[derive(Debug, Clone, Copy, PartialEq, Eq, Structural)]
pub enum FieldType {
    U8,
    U16,
    U32,
    U64,
    I64,
    /// Fixed-length text; the declared length gives the wire width.
    Char,
    /// Scaled decimal, five decimal places, 13 significant digits.
    Price,
    /// Scaled decimal, three decimal places, 15 significant digits.
    Quantity,
    /// Scaled decimal, five decimal places, 18 significant digits.
    Amount,
    /// Packed calendar date, YYYYMMDD.
    Date,
    /// Packed clock time, HHMMSSsssnnnn.
    NTime,
    /// Length-prefixed repetition of a struct of scalar fields.
    Array,
}

/// A field as declared by the schema: its name, wire type, and, for `Char`
/// fields, its fixed byte length.
#[derive(Debug)]
pub struct BaseFieldDef {
    pub name: String,
    pub ftype: FieldType,
    /// Wire width in bytes; required by (and only meaningful for) `Char`.
    pub length: Option<usize>,
    pub desc: Option<String>,
}

impl Clone for BaseFieldDef {
    fn clone(&self) -> (res: Self)
        ensures
            res == *self,
    {
        BaseFieldDef {
            name: self.name.clone(),
            ftype: self.ftype,
            length: self.length,
            desc: match &self.desc {
                Some(d) => Some(d.clone()),
                None => None,
            },
        }
    }
}

/// The ordered fields of one array element.
#[derive(Debug, Clone)]
pub struct StructDef {
    pub fields: Vec<BaseFieldDef>,
}

/// A field as it appears directly in a message body; for `Array` fields it
/// additionally carries the count field and the element struct.
#[derive(Debug, Clone)]
pub struct FieldDef {
    pub base: BaseFieldDef,
    /// The count field written before the elements; must be U8, U16 or U32.
    pub length_field: Option<BaseFieldDef>,
    /// The fields of each repeated element.
    pub struct_def: Option<StructDef>,
}

/// An alternate field set appended to a message body when the message's
/// `BizID` field equals `biz_id`.
#[derive(Debug)]
pub struct BizExtension {
    pub biz_id: u32,
    pub fields: Vec<BaseFieldDef>,
}

impl Clone for BizExtension {
    fn clone(&self) -> (res: Self)
        ensures
            res.biz_id == self.biz_id,
            res.fields@ == self.fields@,
    {
        let fields = self.fields.clone();
        proof {
            assert(fields@ =~= self.fields@);
        }
        BizExtension { biz_id: self.biz_id, fields }
    }
}

/// One message type's definition: its ordered body fields and its
/// business-ID-keyed extensions.
#[derive(Debug, Clone)]
pub struct MessageDef {
    pub msg_type: u32,
    pub name: String,
    pub fields: Vec<FieldDef>,
    pub extensions: Vec<BizExtension>,
}

/// A whole schema: the collection of message definitions to load.
#[derive(Debug, Clone)]
pub struct MessageConfig {
    pub messages: Vec<MessageDef>,
}

} // verus!
