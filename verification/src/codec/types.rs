//! Wire limits of the scaled numeric types, the packed date/time validators,
//! and small codec-internal types.

use vstd::prelude::*;

verus! {

pub type Result<T> = crate::util::CodecResult<T>;

/// Largest wire value of a Price: 13 significant decimal digits.
pub const TYPE_PRICE_MAX: i64 = 9_999_999_999_999;

pub const TYPE_PRICE_MIN: i64 = -9_999_999_999_999;

/// Largest wire value of a Quantity: 15 significant decimal digits.
pub const TYPE_QUANTITY_MAX: i64 = 999_999_999_999_999;

pub const TYPE_QUANTITY_MIN: i64 = -999_999_999_999_999;

/// Largest wire value of an Amount: 18 significant decimal digits.
pub const TYPE_AMOUNT_MAX: i64 = 999_999_999_999_999_999;

pub const TYPE_AMOUNT_MIN: i64 = -999_999_999_999_999_999;

pub open spec fn spec_validate_price(value: i64) -> bool {
    TYPE_PRICE_MIN <= value <= TYPE_PRICE_MAX
}

pub open spec fn spec_validate_quantity(value: i64) -> bool {
    TYPE_QUANTITY_MIN <= value <= TYPE_QUANTITY_MAX
}

pub open spec fn spec_validate_amount(value: i64) -> bool {
    TYPE_AMOUNT_MIN <= value <= TYPE_AMOUNT_MAX
}

/// A scaled Price wire value lies within its 13-digit range.
pub fn validate_price(value: i64) -> (r: bool)
    ensures
        r == spec_validate_price(value),
{
    value >= TYPE_PRICE_MIN && value <= TYPE_PRICE_MAX
}

/// A scaled Quantity wire value lies within its 15-digit range.
pub fn validate_quantity(value: i64) -> (r: bool)
    ensures
        r == spec_validate_quantity(value),
{
    value >= TYPE_QUANTITY_MIN && value <= TYPE_QUANTITY_MAX
}

/// A scaled Amount wire value lies within its 18-digit range.
pub fn validate_amount(value: i64) -> (r: bool)
    ensures
        r == spec_validate_amount(value),
{
    value >= TYPE_AMOUNT_MIN && value <= TYPE_AMOUNT_MAX
}

/// A packed HHMMSSsssnnnn value is structurally valid: hour at most 23,
/// minute and second at most 59, millisecond at most 999, hundreds of
/// nanoseconds at most 9999.
pub open spec fn spec_validate_ntime(t: u64) -> bool {
    &&& (t / 100000000000) % 100 <= 23
    &&& (t / 1000000000) % 100 <= 59
    &&& (t / 10000000) % 100 <= 59
    &&& (t / 10000) % 1000 <= 999
    &&& t % 10000 <= 9999
}

/// Validates a packed HHMMSSsssnnnn clock time digit group by digit group.
pub fn validate_ntime_format(ntime_value: u64) -> (r: bool)
    ensures
        r == spec_validate_ntime(ntime_value),
{
    let hour = (ntime_value / 100000000000) % 100;
    let minute = (ntime_value / 1000000000) % 100;
    let second = (ntime_value / 10000000) % 100;
    let millisecond = (ntime_value / 10000) % 1000;
    let hundred_nanosecond = ntime_value % 10000;
    if hour > 23 {
        return false;
    }
    if minute > 59 {
        return false;
    }
    if second > 59 {
        return false;
    }
    if millisecond > 999 {
        return false;
    }
    if hundred_nanosecond > 9999 {
        return false;
    }
    true
}

/// The year `y` has a 29th of February under the proleptic Gregorian rule.
pub open spec fn spec_is_leap_year(y: u32) -> bool {
    (y % 4 == 0 && y % 100 != 0) || y % 400 == 0
}

/// A packed YYYYMMDD value names a real calendar date: month 1 to 12 and a
/// day that exists in that month of that year.
pub open spec fn spec_validate_date(d: u32) -> bool {
    let year = d / 10000;
    let month = (d % 10000) / 100;
    let day = d % 100;
    &&& year <= 9999
    &&& 1 <= month <= 12
    &&& 1 <= day
    &&& if month == 2 {
        day <= if spec_is_leap_year(year) {
            29int
        } else {
            28int
        }
    } else if month == 4 || month == 6 || month == 9 || month == 11 {
        day <= 30
    } else {
        day <= 31
    }
}

/// Validates a packed YYYYMMDD calendar date, applying the proleptic
/// Gregorian leap-year rule for February.
pub fn validate_date_format(date_value: u32) -> (r: bool)
    ensures
        r == spec_validate_date(date_value),
{
    let year = date_value / 10000;
    let month = (date_value % 10000) / 100;
    let day = date_value % 100;
    if year > 9999 {
        return false;
    }
    if month < 1 || month > 12 {
        return false;
    }
    if day < 1 || day > 31 {
        return false;
    }
    match month {
        2 => {
            let is_leap_year = (year % 4 == 0 && year % 100 != 0) || (year % 400 == 0);
            if is_leap_year {
                day <= 29
            } else {
                day <= 28
            }
        },
        4 | 6 | 9 | 11 => day <= 30,
        _ => day <= 31,
    }
}

/// The fixed 12-byte message header, as the codec sees it.
#[derive(Debug, Clone)]
pub struct MessageHeader {
    pub msg_type: u32,
    pub seq_num: u32,
    pub body_length: u32,
}

impl MessageHeader {
    /// Wire width of the header in bytes.
    pub const SIZE: usize = 12;

    pub fn new(msg_type: u32, seq_num: u32, body_length: u32) -> (r: Self)
        ensures
            r.msg_type == msg_type,
            r.seq_num == seq_num,
            r.body_length == body_length,
    {
        Self { msg_type, seq_num, body_length }
    }
}

/// Field types as the codec dispatches on them, with the `Char` width inline.
#[derive(Debug, Clone, PartialEq)]
pub enum FieldTypeCode {
    U8,
    U16,
    U32,
    U64,
    I64,
    Char(usize),
    Price,
    Quantity,
    Amount,
    Date,
    NTime,
    Array,
}

/// Field values as the codec carries them internally.
#[derive(Debug)]
pub enum FieldValueData {
    U8(u8),
    U16(u16),
    U32(u32),
    U64(u64),
    I64(i64),
    Str(String),
    Array(Vec<FieldValueData>),
}

} // verus!
