//! Reading one value of a Rust type from text, and the pattern such a value
//! is matched with by default.
use vstd::prelude::*;
use crate::rules::{IntKind, Radix, ValueType, default_pattern, default_pattern_of};
use crate::values::{ParseValueError, Value, ValueView, int_outcome, parse_int, parse_value, value_outcome};

verus! {

/// Reading a value from the exact text a capture matched.
pub trait Scan: Sized {
    /// Whether `r` is what reading `text` gives.
    spec fn scans_as(text: Seq<char>, r: Result<Self, ParseValueError>) -> bool;

    fn scan(text: &str) -> (r: Result<Self, ParseValueError>)
        ensures
            Self::scans_as(text@, r),
    ;
}

/// A type that captures can name without a pattern: the registry gives one.
pub trait DefaultScan: Scan {
    spec fn spec_value_type() -> ValueType;

    fn value_type() -> (t: ValueType)
        ensures
            t == Self::spec_value_type(),
    ;
}

/// The pattern a rule naming only the type `T` is matched with.
pub fn default_regex<T: DefaultScan>() -> (r: &'static str)
    ensures
        r@ == default_pattern_of(T::spec_value_type()),
{
    default_pattern(T::value_type())
}

fn scan_signed(text: &str, k: IntKind) -> (r: Result<i128, ParseValueError>)
    requires
        crate::rules::is_signed(k),
    ensures
        match int_outcome(text@, k, Radix::Decimal) {
            Ok(v) => r == Ok::<i128, ParseValueError>(v as i128),
            Err(e) => r == Err::<i128, ParseValueError>(e),
        },
{
    match parse_int(text, k, Radix::Decimal) {
        Ok(Value::Signed(_, v)) => Ok(v),
        Ok(_) => Err(ParseValueError::Empty),
        Err(e) => Err(e),
    }
}

fn scan_unsigned(text: &str, k: IntKind) -> (r: Result<u128, ParseValueError>)
    requires
        !crate::rules::is_signed(k),
    ensures
        match int_outcome(text@, k, Radix::Decimal) {
            Ok(v) => r == Ok::<u128, ParseValueError>(v as u128),
            Err(e) => r == Err::<u128, ParseValueError>(e),
        },
{
    match parse_int(text, k, Radix::Decimal) {
        Ok(Value::Unsigned(_, v)) => Ok(v),
        Ok(_) => Err(ParseValueError::Empty),
        Err(e) => Err(e),
    }
}

impl Scan for i8 {
    open spec fn scans_as(text: Seq<char>, r: Result<i8, ParseValueError>) -> bool {
        r == match int_outcome(text, IntKind::I8, Radix::Decimal) {
            Ok(v) => Ok(v as i8),
            Err(e) => Err(e),
        }
    }

    fn scan(text: &str) -> (r: Result<i8, ParseValueError>) {
        match scan_signed(text, IntKind::I8) {
            Ok(v) => Ok(v as i8),
            Err(e) => Err(e),
        }
    }
}

impl DefaultScan for i8 {
    open spec fn spec_value_type() -> ValueType {
        ValueType::Int(IntKind::I8, Radix::Decimal)
    }

    fn value_type() -> (t: ValueType) {
        ValueType::Int(IntKind::I8, Radix::Decimal)
    }
}

impl Scan for i16 {
    open spec fn scans_as(text: Seq<char>, r: Result<i16, ParseValueError>) -> bool {
        r == match int_outcome(text, IntKind::I16, Radix::Decimal) {
            Ok(v) => Ok(v as i16),
            Err(e) => Err(e),
        }
    }

    fn scan(text: &str) -> (r: Result<i16, ParseValueError>) {
        match scan_signed(text, IntKind::I16) {
            Ok(v) => Ok(v as i16),
            Err(e) => Err(e),
        }
    }
}

impl DefaultScan for i16 {
    open spec fn spec_value_type() -> ValueType {
        ValueType::Int(IntKind::I16, Radix::Decimal)
    }

    fn value_type() -> (t: ValueType) {
        ValueType::Int(IntKind::I16, Radix::Decimal)
    }
}

impl Scan for i32 {
    open spec fn scans_as(text: Seq<char>, r: Result<i32, ParseValueError>) -> bool {
        r == match int_outcome(text, IntKind::I32, Radix::Decimal) {
            Ok(v) => Ok(v as i32),
            Err(e) => Err(e),
        }
    }

    fn scan(text: &str) -> (r: Result<i32, ParseValueError>) {
        match scan_signed(text, IntKind::I32) {
            Ok(v) => Ok(v as i32),
            Err(e) => Err(e),
        }
    }
}

impl DefaultScan for i32 {
    open spec fn spec_value_type() -> ValueType {
        ValueType::Int(IntKind::I32, Radix::Decimal)
    }

    fn value_type() -> (t: ValueType) {
        ValueType::Int(IntKind::I32, Radix::Decimal)
    }
}

impl Scan for i64 {
    open spec fn scans_as(text: Seq<char>, r: Result<i64, ParseValueError>) -> bool {
        r == match int_outcome(text, IntKind::I64, Radix::Decimal) {
            Ok(v) => Ok(v as i64),
            Err(e) => Err(e),
        }
    }

    fn scan(text: &str) -> (r: Result<i64, ParseValueError>) {
        match scan_signed(text, IntKind::I64) {
            Ok(v) => Ok(v as i64),
            Err(e) => Err(e),
        }
    }
}

impl DefaultScan for i64 {
    open spec fn spec_value_type() -> ValueType {
        ValueType::Int(IntKind::I64, Radix::Decimal)
    }

    fn value_type() -> (t: ValueType) {
        ValueType::Int(IntKind::I64, Radix::Decimal)
    }
}

impl Scan for i128 {
    open spec fn scans_as(text: Seq<char>, r: Result<i128, ParseValueError>) -> bool {
        r == match int_outcome(text, IntKind::I128, Radix::Decimal) {
            Ok(v) => Ok(v as i128),
            Err(e) => Err(e),
        }
    }

    fn scan(text: &str) -> (r: Result<i128, ParseValueError>) {
        match scan_signed(text, IntKind::I128) {
            Ok(v) => Ok(v as i128),
            Err(e) => Err(e),
        }
    }
}

impl DefaultScan for i128 {
    open spec fn spec_value_type() -> ValueType {
        ValueType::Int(IntKind::I128, Radix::Decimal)
    }

    fn value_type() -> (t: ValueType) {
        ValueType::Int(IntKind::I128, Radix::Decimal)
    }
}

impl Scan for isize {
    open spec fn scans_as(text: Seq<char>, r: Result<isize, ParseValueError>) -> bool {
        r == match int_outcome(text, IntKind::Isize, Radix::Decimal) {
            Ok(v) => Ok(v as isize),
            Err(e) => Err(e),
        }
    }

    fn scan(text: &str) -> (r: Result<isize, ParseValueError>) {
        match scan_signed(text, IntKind::Isize) {
            Ok(v) => Ok(v as isize),
            Err(e) => Err(e),
        }
    }
}

impl DefaultScan for isize {
    open spec fn spec_value_type() -> ValueType {
        ValueType::Int(IntKind::Isize, Radix::Decimal)
    }

    fn value_type() -> (t: ValueType) {
        ValueType::Int(IntKind::Isize, Radix::Decimal)
    }
}

impl Scan for u8 {
    open spec fn scans_as(text: Seq<char>, r: Result<u8, ParseValueError>) -> bool {
        r == match int_outcome(text, IntKind::U8, Radix::Decimal) {
            Ok(v) => Ok(v as u8),
            Err(e) => Err(e),
        }
    }

    fn scan(text: &str) -> (r: Result<u8, ParseValueError>) {
        match scan_unsigned(text, IntKind::U8) {
            Ok(v) => Ok(v as u8),
            Err(e) => Err(e),
        }
    }
}

impl DefaultScan for u8 {
    open spec fn spec_value_type() -> ValueType {
        ValueType::Int(IntKind::U8, Radix::Decimal)
    }

    fn value_type() -> (t: ValueType) {
        ValueType::Int(IntKind::U8, Radix::Decimal)
    }
}

impl Scan for u16 {
    open spec fn scans_as(text: Seq<char>, r: Result<u16, ParseValueError>) -> bool {
        r == match int_outcome(text, IntKind::U16, Radix::Decimal) {
            Ok(v) => Ok(v as u16),
            Err(e) => Err(e),
        }
    }

    fn scan(text: &str) -> (r: Result<u16, ParseValueError>) {
        match scan_unsigned(text, IntKind::U16) {
            Ok(v) => Ok(v as u16),
            Err(e) => Err(e),
        }
    }
}

impl DefaultScan for u16 {
    open spec fn spec_value_type() -> ValueType {
        ValueType::Int(IntKind::U16, Radix::Decimal)
    }

    fn value_type() -> (t: ValueType) {
        ValueType::Int(IntKind::U16, Radix::Decimal)
    }
}

impl Scan for u32 {
    open spec fn scans_as(text: Seq<char>, r: Result<u32, ParseValueError>) -> bool {
        r == match int_outcome(text, IntKind::U32, Radix::Decimal) {
            Ok(v) => Ok(v as u32),
            Err(e) => Err(e),
        }
    }

    fn scan(text: &str) -> (r: Result<u32, ParseValueError>) {
        match scan_unsigned(text, IntKind::U32) {
            Ok(v) => Ok(v as u32),
            Err(e) => Err(e),
        }
    }
}

impl DefaultScan for u32 {
    open spec fn spec_value_type() -> ValueType {
        ValueType::Int(IntKind::U32, Radix::Decimal)
    }

    fn value_type() -> (t: ValueType) {
        ValueType::Int(IntKind::U32, Radix::Decimal)
    }
}

impl Scan for u64 {
    open spec fn scans_as(text: Seq<char>, r: Result<u64, ParseValueError>) -> bool {
        r == match int_outcome(text, IntKind::U64, Radix::Decimal) {
            Ok(v) => Ok(v as u64),
            Err(e) => Err(e),
        }
    }

    fn scan(text: &str) -> (r: Result<u64, ParseValueError>) {
        match scan_unsigned(text, IntKind::U64) {
            Ok(v) => Ok(v as u64),
            Err(e) => Err(e),
        }
    }
}

impl DefaultScan for u64 {
    open spec fn spec_value_type() -> ValueType {
        ValueType::Int(IntKind::U64, Radix::Decimal)
    }

    fn value_type() -> (t: ValueType) {
        ValueType::Int(IntKind::U64, Radix::Decimal)
    }
}

impl Scan for u128 {
    open spec fn scans_as(text: Seq<char>, r: Result<u128, ParseValueError>) -> bool {
        r == match int_outcome(text, IntKind::U128, Radix::Decimal) {
            Ok(v) => Ok(v as u128),
            Err(e) => Err(e),
        }
    }

    fn scan(text: &str) -> (r: Result<u128, ParseValueError>) {
        match scan_unsigned(text, IntKind::U128) {
            Ok(v) => Ok(v as u128),
            Err(e) => Err(e),
        }
    }
}

impl DefaultScan for u128 {
    open spec fn spec_value_type() -> ValueType {
        ValueType::Int(IntKind::U128, Radix::Decimal)
    }

    fn value_type() -> (t: ValueType) {
        ValueType::Int(IntKind::U128, Radix::Decimal)
    }
}

impl Scan for usize {
    open spec fn scans_as(text: Seq<char>, r: Result<usize, ParseValueError>) -> bool {
        r == match int_outcome(text, IntKind::Usize, Radix::Decimal) {
            Ok(v) => Ok(v as usize),
            Err(e) => Err(e),
        }
    }

    fn scan(text: &str) -> (r: Result<usize, ParseValueError>) {
        match scan_unsigned(text, IntKind::Usize) {
            Ok(v) => Ok(v as usize),
            Err(e) => Err(e),
        }
    }
}

impl DefaultScan for usize {
    open spec fn spec_value_type() -> ValueType {
        ValueType::Int(IntKind::Usize, Radix::Decimal)
    }

    fn value_type() -> (t: ValueType) {
        ValueType::Int(IntKind::Usize, Radix::Decimal)
    }
}

impl Scan for bool {
    open spec fn scans_as(text: Seq<char>, r: Result<bool, ParseValueError>) -> bool {
        r == match value_outcome(text, ValueType::Bool) {
            Ok(ValueView::Bool(b)) => Ok(b),
            Ok(_) => Err(ParseValueError::InvalidBool),
            Err(e) => Err(e),
        }
    }

    fn scan(text: &str) -> (r: Result<bool, ParseValueError>) {
        match parse_value(text, ValueType::Bool) {
            Ok(Value::Bool(b)) => Ok(b),
            Ok(_) => Err(ParseValueError::InvalidBool),
            Err(e) => Err(e),
        }
    }
}

impl DefaultScan for bool {
    open spec fn spec_value_type() -> ValueType {
        ValueType::Bool
    }

    fn value_type() -> (t: ValueType) {
        ValueType::Bool
    }
}

impl Scan for char {
    open spec fn scans_as(text: Seq<char>, r: Result<char, ParseValueError>) -> bool {
        r == match value_outcome(text, ValueType::Char) {
            Ok(ValueView::Char(c)) => Ok(c),
            Ok(_) => Err(ParseValueError::InvalidChar),
            Err(e) => Err(e),
        }
    }

    fn scan(text: &str) -> (r: Result<char, ParseValueError>) {
        match parse_value(text, ValueType::Char) {
            Ok(Value::Char(c)) => Ok(c),
            Ok(_) => Err(ParseValueError::InvalidChar),
            Err(e) => Err(e),
        }
    }
}

impl DefaultScan for char {
    open spec fn spec_value_type() -> ValueType {
        ValueType::Char
    }

    fn value_type() -> (t: ValueType) {
        ValueType::Char
    }
}

impl DefaultScan for String {
    open spec fn spec_value_type() -> ValueType {
        ValueType::Str
    }

    fn value_type() -> (t: ValueType) {
        ValueType::Str
    }
}

impl Scan for String {
    open spec fn scans_as(text: Seq<char>, r: Result<String, ParseValueError>) -> bool {
        r matches Ok(s) && s@ == text
    }

    fn scan(text: &str) -> (r: Result<String, ParseValueError>) {
        Ok(text.to_owned())
    }
}

} // verus!
