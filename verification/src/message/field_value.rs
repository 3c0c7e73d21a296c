//! Runtime-tagged field values and their mathematical model.

use vstd::prelude::*;

verus! {

/// A field value as it travels through the codec.
///
/// The tag must match the schema's declared [`crate::config::types::FieldType`]
/// for the field (`U8`↔`U8`, …, `Str`↔`Char`, `Float`↔`Price`/`Quantity`/
/// `Amount`, `U32`↔`Date`, `U64`↔`NTime`, `Array`↔`Array`); the encoder
/// rejects any mismatch.
#[derive(Debug, PartialEq)]
pub enum FieldValue {
    U8(u8),
    U16(u16),
    U32(u32),
    U64(u64),
    I64(i64),
    /// A decimal number in fixed point: the value is `units / 100000`,
    /// where `units` is the payload (five decimal places).
    Float(i64),
    Str(String),
    /// Array elements: the outer list holds one entry per element, the inner
    /// list that element's scalar field values in struct-definition order.
    Array(Vec<Vec<FieldValue>>),
}

/// The mathematical model of a [`FieldValue`]: strings become character
/// sequences and array rows become sequences of scalar models.
///
/// Array values nested inside rows cannot be encoded or decoded (the schema
/// allows scalars only there), so the model collapses them to empty `Rows`;
/// the codec's contracts reject them before their contents could matter.
pub enum Val {
    U8(u8),
    U16(u16),
    U32(u32),
    U64(u64),
    I64(i64),
    Float(i64),
    Str(Seq<char>),
    Rows(Seq<Seq<Val>>),
}

/// Model of a value in a position where the schema expects a scalar.
pub open spec fn scalar_val(v: FieldValue) -> Val {
    match v {
        FieldValue::U8(x) => Val::U8(x),
        FieldValue::U16(x) => Val::U16(x),
        FieldValue::U32(x) => Val::U32(x),
        FieldValue::U64(x) => Val::U64(x),
        FieldValue::I64(x) => Val::I64(x),
        FieldValue::Float(x) => Val::Float(x),
        FieldValue::Str(s) => Val::Str(s@),
        FieldValue::Array(_) => Val::Rows(Seq::empty()),
    }
}

impl View for FieldValue {
    type V = Val;

    open spec fn view(&self) -> Val {
        match *self {
            FieldValue::Array(rows) => Val::Rows(
                Seq::new(
                    rows@.len(),
                    |i: int| Seq::new(rows@[i]@.len(), |j: int| scalar_val(rows@[i]@[j])),
                ),
            ),
            _ => scalar_val(*self),
        }
    }
}

impl Clone for FieldValue {
    /// A clone carries the same model; in particular every scalar payload
    /// and the shape of every array row is kept.
    fn clone(&self) -> (res: Self)
        ensures
            res@ == self@,
        decreases *self,
    {
        broadcast use vstd::std_specs::vec::group_vec_axioms;

        match self {
            FieldValue::U8(x) => FieldValue::U8(*x),
            FieldValue::U16(x) => FieldValue::U16(*x),
            FieldValue::U32(x) => FieldValue::U32(*x),
            FieldValue::U64(x) => FieldValue::U64(*x),
            FieldValue::I64(x) => FieldValue::I64(*x),
            FieldValue::Float(x) => FieldValue::Float(*x),
            FieldValue::Str(s) => FieldValue::Str(s.clone()),
            FieldValue::Array(rows) => {
                let mut out: Vec<Vec<FieldValue>> = Vec::new();
                let n = rows.len();
                let mut i: usize = 0;
                while i < n
                    invariant
                        n == rows@.len(),
                        i <= n,
                        *self is Array,
                        rows == self->Array_0,
                        out@.len() == i,
                        forall|a: int|
                            0 <= a < i ==> (#[trigger] out@[a])@.len() == rows@[a]@.len(),
                        forall|a: int, b: int|
                            0 <= a < i && 0 <= b < rows@[a]@.len() ==> scalar_val(
                                #[trigger] out@[a]@[b],
                            ) == scalar_val(rows@[a]@[b]),
                    decreases n - i,
                {
                    let row = &rows[i];
                    let m = row.len();
                    let mut orow: Vec<FieldValue> = Vec::new();
                    let mut j: usize = 0;
                    while j < m
                        invariant
                            n == rows@.len(),
                            i < n,
                            *self is Array,
                            rows == self->Array_0,
                            row == &rows@[i as int],
                            m == row@.len(),
                            j <= m,
                            orow@.len() == j,
                            forall|b: int|
                                0 <= b < j ==> scalar_val(#[trigger] orow@[b]) == scalar_val(
                                    row@[b],
                                ),
                        decreases m - j,
                    {
                        proof {
                            assert(decreases_to!(*self => *rows));
                            assert(decreases_to!(*rows => rows@[i as int]));
                            assert(decreases_to!(rows@[i as int] => rows@[i as int]@[j as int]));
                        }
                        let element = row[j].clone();
                        proof {
                            lemma_view_eq_scalar_val(row@[j as int], element);
                        }
                        orow.push(element);
                        j = j + 1;
                    }
                    out.push(orow);
                    i = i + 1;
                }
                let res = FieldValue::Array(out);
                proof {
                    let r = res@->Rows_0;
                    let s = self@->Rows_0;
                    assert(r.len() == s.len());
                    assert forall|a: int| 0 <= a < r.len() implies r[a] =~= s[a] by {
                        assert(out@[a]@.len() == rows@[a]@.len());
                    }
                    assert(r =~~= s);
                    assert(res@ == self@);
                }
                res
            },
        }
    }
}

/// Values with equal models agree on their scalar model.
proof fn lemma_view_eq_scalar_val(a: FieldValue, b: FieldValue)
    requires
        b@ == a@,
    ensures
        scalar_val(b) == scalar_val(a),
{
    match a {
        FieldValue::Array(_) => {
            match b {
                FieldValue::Array(_) => {
                    assert(scalar_val(a) == Val::Rows(Seq::<Seq<Val>>::empty()));
                    assert(scalar_val(b) == Val::Rows(Seq::<Seq<Val>>::empty()));
                },
                _ => {
                    assert(b@ == scalar_val(b));
                    assert(a@ is Rows);
                    assert(false);
                },
            }
        },
        _ => {
            assert(a@ == scalar_val(a));
            match b {
                FieldValue::Array(_) => {
                    assert(b@ is Rows);
                    assert(false);
                },
                _ => {
                    assert(b@ == scalar_val(b));
                },
            }
        },
    }
}

impl FieldValue {
    pub fn as_u8(&self) -> (r: Option<u8>)
        ensures
            r == (match *self {
                FieldValue::U8(x) => Some(x),
                _ => None::<u8>,
            }),
    {
        match self {
            FieldValue::U8(v) => Some(*v),
            _ => None,
        }
    }

    pub fn as_u16(&self) -> (r: Option<u16>)
        ensures
            r == (match *self {
                FieldValue::U16(x) => Some(x),
                _ => None::<u16>,
            }),
    {
        match self {
            FieldValue::U16(v) => Some(*v),
            _ => None,
        }
    }

    pub fn as_u32(&self) -> (r: Option<u32>)
        ensures
            r == (match *self {
                FieldValue::U32(x) => Some(x),
                _ => None::<u32>,
            }),
    {
        match self {
            FieldValue::U32(v) => Some(*v),
            _ => None,
        }
    }

    pub fn as_u64(&self) -> (r: Option<u64>)
        ensures
            r == (match *self {
                FieldValue::U64(x) => Some(x),
                _ => None::<u64>,
            }),
    {
        match self {
            FieldValue::U64(v) => Some(*v),
            _ => None,
        }
    }

    pub fn as_i64(&self) -> (r: Option<i64>)
        ensures
            r == (match *self {
                FieldValue::I64(x) => Some(x),
                _ => None::<i64>,
            }),
    {
        match self {
            FieldValue::I64(v) => Some(*v),
            _ => None,
        }
    }

    /// The fixed-point payload of a `Float` value: the represented decimal
    /// number times 100000.
    pub fn as_float_units(&self) -> (r: Option<i64>)
        ensures
            r == (match *self {
                FieldValue::Float(x) => Some(x),
                _ => None::<i64>,
            }),
    {
        match self {
            FieldValue::Float(v) => Some(*v),
            _ => None,
        }
    }

    pub fn as_str(&self) -> (r: Option<&str>)
        ensures
            (r is Some) == (*self is Str),
            r matches Some(s) ==> s@ == self->Str_0@,
    {
        match self {
            FieldValue::Str(v) => Some(v.as_str()),
            _ => None,
        }
    }

    pub fn as_array(&self) -> (r: Option<&Vec<Vec<FieldValue>>>)
        ensures
            (r is Some) == (*self is Array),
            r matches Some(a) ==> *a == self->Array_0,
    {
        match self {
            FieldValue::Array(v) => Some(v),
            _ => None,
        }
    }
}

} // verus!
