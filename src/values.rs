//! Reading the text a capture matched as a value of the capture's type.
use vstd::prelude::*;
use vstd::string::StrSliceExecFns;
use crate::rules::{IntKind, Radix, ValueType, is_signed};
use crate::template::chars_of;

verus! {

/// A value read from the input.
#[derive(Debug, PartialEq, Eq)]
pub enum Value {
    Bool(bool),
    Char(char),
    Str(String),
    /// A value of a signed integer kind.
    Signed(IntKind, i128),
    /// A value of an unsigned integer kind.
    Unsigned(IntKind, u128),
}

impl Value {
    /// The text of a string value.
    pub fn as_str(&self) -> (r: Option<&str>)
        ensures
            r matches Some(s) ==> self@ == ValueView::Str(s@),
            r is None <==> !(self is Str),
    {
        match self {
            Value::Str(s) => Some(s.as_str()),
            _ => None,
        }
    }
}

/// Why the matched text could not be read as the capture's type.
#[derive(Clone, Copy, Debug, PartialEq, Eq, Structural)]
pub enum ParseValueError {
    /// An integer with no characters.
    Empty,
    /// A character that is not a digit of the radix, or a sign with no digits.
    InvalidDigit,
    /// An integer above the largest value of its kind.
    PosOverflow,
    /// An integer below the smallest value of its kind.
    NegOverflow,
    /// Text other than `true` or `false` read as a boolean.
    InvalidBool,
    /// Text that is not exactly one character read as a character.
    InvalidChar,
}

/// A value as the contracts see it.
pub enum ValueView {
    Bool(bool),
    Char(char),
    Str(Seq<char>),
    Int(IntKind, int),
}

impl View for Value {
    type V = ValueView;

    open spec fn view(&self) -> ValueView {
        match self {
            Value::Bool(b) => ValueView::Bool(*b),
            Value::Char(c) => ValueView::Char(*c),
            Value::Str(s) => ValueView::Str(s@),
            Value::Signed(k, v) => ValueView::Int(*k, *v as int),
            Value::Unsigned(k, v) => ValueView::Int(*k, *v as int),
        }
    }
}

pub open spec fn radix_base(r: Radix) -> nat {
    match r {
        Radix::Decimal => 10,
        Radix::Binary => 2,
        Radix::Octal => 8,
        Radix::Hex => 16,
    }
}

pub open spec fn kind_min(k: IntKind) -> int {
    match k {
        IntKind::I8 => i8::MIN as int,
        IntKind::I16 => i16::MIN as int,
        IntKind::I32 => i32::MIN as int,
        IntKind::I64 => i64::MIN as int,
        IntKind::I128 => i128::MIN as int,
        IntKind::Isize => isize::MIN as int,
        _ => 0,
    }
}

pub open spec fn kind_max(k: IntKind) -> int {
    match k {
        IntKind::I8 => i8::MAX as int,
        IntKind::I16 => i16::MAX as int,
        IntKind::I32 => i32::MAX as int,
        IntKind::I64 => i64::MAX as int,
        IntKind::I128 => i128::MAX as int,
        IntKind::Isize => isize::MAX as int,
        IntKind::U8 => u8::MAX as int,
        IntKind::U16 => u16::MAX as int,
        IntKind::U32 => u32::MAX as int,
        IntKind::U64 => u64::MAX as int,
        IntKind::U128 => u128::MAX as int,
        IntKind::Usize => usize::MAX as int,
    }
}

/// The value of `c` as a digit, whatever the radix (letters count from 10).
pub open spec fn digit_of(c: char) -> int {
    if '0' <= c <= '9' {
        (c as u32 - '0' as u32) as int
    } else if 'a' <= c <= 'z' {
        (c as u32 - 'a' as u32) as int + 10
    } else if 'A' <= c <= 'Z' {
        (c as u32 - 'A' as u32) as int + 10
    } else {
        99
    }
}

pub open spec fn all_radix_digits(s: Seq<char>, base: nat) -> bool {
    forall|k: int| 0 <= k < s.len() ==> digit_of(#[trigger] s[k]) < base
}

/// The number the digits `s` denote in `base`.
pub open spec fn radix_value(s: Seq<char>, base: nat) -> int
    decreases s.len(),
{
    if s.len() == 0 {
        0
    } else {
        radix_value(s.drop_last(), base) * base + digit_of(s.last())
    }
}

/// Whether `t` starts with a minus sign that kind `k` accepts.
pub open spec fn int_negative(t: Seq<char>, k: IntKind) -> bool {
    t.len() > 0 && t[0] == '-' && is_signed(k)
}

/// The digits of `t`, after its sign if it has one.
pub open spec fn int_body(t: Seq<char>, k: IntKind) -> Seq<char> {
    if t.len() > 0 && (t[0] == '+' || int_negative(t, k)) {
        t.drop_first()
    } else {
        t
    }
}

/// Reading `t` as an integer of kind `k` written in radix `r`: an optional
/// `+` (or `-` for signed kinds) and at least one digit.
pub open spec fn int_outcome(t: Seq<char>, k: IntKind, r: Radix) -> Result<int, ParseValueError> {
    let neg = int_negative(t, k);
    let body = int_body(t, k);
    let mag = radix_value(body, radix_base(r));
    let v = if neg {
        -mag
    } else {
        mag
    };
    if t.len() == 0 {
        Err(ParseValueError::Empty)
    } else if body.len() == 0 || !all_radix_digits(body, radix_base(r)) {
        Err(ParseValueError::InvalidDigit)
    } else if v > kind_max(k) {
        Err(ParseValueError::PosOverflow)
    } else if v < kind_min(k) {
        Err(ParseValueError::NegOverflow)
    } else {
        Ok(v)
    }
}

/// Reading the text `t` as a value of type `ty`.
pub open spec fn value_outcome(t: Seq<char>, ty: ValueType) -> Result<ValueView, ParseValueError> {
    match ty {
        ValueType::Bool => if t == "true"@ {
            Ok(ValueView::Bool(true))
        } else if t == "false"@ {
            Ok(ValueView::Bool(false))
        } else {
            Err(ParseValueError::InvalidBool)
        },
        ValueType::Char => if t.len() == 1 {
            Ok(ValueView::Char(t[0]))
        } else {
            Err(ParseValueError::InvalidChar)
        },
        ValueType::Str => Ok(ValueView::Str(t)),
        ValueType::Int(k, r) => match int_outcome(t, k, r) {
            Ok(v) => Ok(ValueView::Int(k, v)),
            Err(e) => Err(e),
        },
    }
}

proof fn lemma_digits_drop_last(s: Seq<char>, base: nat)
    requires
        s.len() > 0,
        all_radix_digits(s, base),
    ensures
        all_radix_digits(s.drop_last(), base),
{
    assert forall|k: int| 0 <= k < s.drop_last().len() implies digit_of(
        #[trigger] s.drop_last()[k],
    ) < base by {
        assert(s.drop_last()[k] == s[k]);
    }
}

proof fn lemma_radix_nonneg(s: Seq<char>, base: nat)
    requires
        base >= 1,
        all_radix_digits(s, base),
    ensures
        radix_value(s, base) >= 0,
    decreases s.len(),
{
    if s.len() > 0 {
        lemma_digits_drop_last(s, base);
        lemma_radix_nonneg(s.drop_last(), base);
        assert(digit_of(s.last()) >= 0);
        assert(radix_value(s.drop_last(), base) * base >= 0) by (nonlinear_arith)
            requires
                base >= 1,
                radix_value(s.drop_last(), base) >= 0,
        ;
    }
}

proof fn lemma_radix_prefix(s: Seq<char>, base: nat, j: int)
    requires
        0 <= j <= s.len(),
        base >= 1,
        all_radix_digits(s, base),
    ensures
        0 <= radix_value(s.take(j), base) <= radix_value(s, base),
    decreases s.len(),
{
    if j < s.len() {
        assert(s.drop_last().take(j) =~= s.take(j));
        lemma_digits_drop_last(s, base);
        lemma_radix_prefix(s.drop_last(), base, j);
        assert(digit_of(s.last()) >= 0);
        assert(radix_value(s.drop_last(), base) * base >= radix_value(s.drop_last(), base)) by (nonlinear_arith)
            requires
                base >= 1,
                radix_value(s.drop_last(), base) >= 0,
        ;
    } else {
        assert(s.take(j) =~= s);
        lemma_radix_nonneg(s, base);
    }
}

fn digit_value(c: char) -> (d: u32)
    ensures
        d == digit_of(c),
{
    if '0' <= c && c <= '9' {
        c as u32 - '0' as u32
    } else if 'a' <= c && c <= 'z' {
        c as u32 - 'a' as u32 + 10
    } else if 'A' <= c && c <= 'Z' {
        c as u32 - 'A' as u32 + 10
    } else {
        99
    }
}

fn base_of(r: Radix) -> (b: u32)
    ensures
        b == radix_base(r),
{
    match r {
        Radix::Decimal => 10,
        Radix::Binary => 2,
        Radix::Octal => 8,
        Radix::Hex => 16,
    }
}

/// The magnitude of the digits `t[from..]` in base `base`, if it is at most
/// `limit`; `None` when it is larger. Requires every character to be a digit.
fn magnitude(t: &Vec<char>, from: usize, base: u32, limit: u128) -> (r: Option<u128>)
    requires
        from <= t@.len(),
        2 <= base <= 16,
        all_radix_digits(t@.skip(from as int), base as nat),
    ensures
        match r {
            Some(m) => m == radix_value(t@.skip(from as int), base as nat) && m <= limit,
            None => radix_value(t@.skip(from as int), base as nat) > limit,
        },
{
    let ghost body = t@.skip(from as int);
    let mut acc: u128 = 0;
    let mut i = from;
    assert(body.take(0) =~= Seq::<char>::empty());
    while i < t.len()
        invariant
            from <= i <= t@.len(),
            body == t@.skip(from as int),
            2 <= base <= 16,
            all_radix_digits(body, base as nat),
            acc == radix_value(body.take(i - from), base as nat),
            acc <= limit,
        decreases t@.len() - i,
    {
        let ghost pre = body.take(i - from);
        let ghost next = body.take(i + 1 - from);
        assert(next.drop_last() =~= pre);
        assert(next.last() == t@[i as int]);
        assert(body[i - from] == t@[i as int]);
        let d = digit_value(t[i]) as u128;
        assert(d < base);
        if d > limit {
            proof {
                lemma_radix_prefix(body, base as nat, i + 1 - from);
                assert(acc * base >= 0) by (nonlinear_arith)
                    requires
                        acc >= 0,
                        base >= 2,
                ;
            }
            return None;
        }
        if acc > (limit - d) / (base as u128) {
            proof {
                assert(acc * base + d > limit) by (nonlinear_arith)
                    requires
                        acc > (limit - d) / (base as int),
                        d <= limit,
                        base >= 2,
                ;
                lemma_radix_prefix(body, base as nat, i + 1 - from);
            }
            return None;
        }
        assert(acc * base + d <= limit) by (nonlinear_arith)
            requires
                acc <= (limit - d) / (base as int),
                d <= limit,
                base >= 2,
        ;
        acc = acc * (base as u128) + d;
        i = i + 1;
    }
    assert(body.take(t@.len() - from) =~= body);
    Some(acc)
}

/// The largest value of kind `k`, and whether it is signed.
fn kind_bounds(k: IntKind) -> (r: (u128, bool))
    ensures
        r.0 == kind_max(k),
        r.1 == is_signed(k),
        r.1 ==> kind_min(k) == -(kind_max(k) + 1),
        !r.1 ==> kind_min(k) == 0,
{
    match k {
        IntKind::I8 => (i8::MAX as u128, true),
        IntKind::I16 => (i16::MAX as u128, true),
        IntKind::I32 => (i32::MAX as u128, true),
        IntKind::I64 => (i64::MAX as u128, true),
        IntKind::I128 => (i128::MAX as u128, true),
        IntKind::Isize => (isize::MAX as u128, true),
        IntKind::U8 => (u8::MAX as u128, false),
        IntKind::U16 => (u16::MAX as u128, false),
        IntKind::U32 => (u32::MAX as u128, false),
        IntKind::U64 => (u64::MAX as u128, false),
        IntKind::U128 => (u128::MAX, false),
        IntKind::Usize => (usize::MAX as u128, false),
    }
}

/// Reads `text` as an integer of kind `k` written in radix `r`.
pub fn parse_int(text: &str, k: IntKind, r: Radix) -> (res: Result<Value, ParseValueError>)
    ensures
        match int_outcome(text@, k, r) {
            Ok(v) => res matches Ok(x) && x@ == ValueView::Int(k, v) && (x is Signed <==> is_signed(k)),
            Err(e) => res == Err::<Value, ParseValueError>(e),
        },
{
    let t = chars_of(text);
    let ghost tv = t@;
    let base = base_of(r);
    let (max, signed) = kind_bounds(k);
    if t.len() == 0 {
        return Err(ParseValueError::Empty);
    }
    let neg = t[0] == '-' && signed;
    let from: usize = if t[0] == '+' || neg {
        1
    } else {
        0
    };
    assert(from == 1 ==> tv.skip(1) =~= tv.drop_first());
    assert(from == 0 ==> tv.skip(0) =~= tv);
    if from == t.len() {
        return Err(ParseValueError::InvalidDigit);
    }
    assert(tv.skip(from as int) == int_body(tv, k));
    let mut i = from;
    while i < t.len()
        invariant
            from <= i <= t@.len(),
            t@ == tv,
            tv == text@,
            base == radix_base(r),
            tv.skip(from as int) == int_body(tv, k),
            from <= 1,
            forall|j: int| from <= j < i ==> digit_of(#[trigger] tv[j]) < base,
        decreases t@.len() - i,
    {
        if digit_value(t[i]) >= base {
            assert(tv.skip(from as int)[i - from] == tv[i as int]);
            return Err(ParseValueError::InvalidDigit);
        }
        i = i + 1;
    }
    assert(all_radix_digits(tv.skip(from as int), base as nat)) by {
        assert forall|j: int| 0 <= j < tv.skip(from as int).len() implies digit_of(
            #[trigger] tv.skip(from as int)[j],
        ) < base by {
            assert(tv.skip(from as int)[j] == tv[from + j]);
        }
    }
    let limit: u128 = if neg {
        max + 1
    } else {
        max
    };
    match magnitude(&t, from, base, limit) {
        None => {
            if neg {
                Err(ParseValueError::NegOverflow)
            } else {
                Err(ParseValueError::PosOverflow)
            }
        },
        Some(m) => {
            if signed {
                let v: i128 = if neg {
                    if m == max + 1 {
                        proof {
                            assert(kind_min(k) >= i128::MIN);
                        }
                        (0i128 - (max as i128)) - 1
                    } else {
                        0i128 - (m as i128)
                    }
                } else {
                    m as i128
                };
                Ok(Value::Signed(k, v))
            } else {
                Ok(Value::Unsigned(k, m))
            }
        },
    }
}

/// Reads `text` as a value of type `ty`.
pub fn parse_value(text: &str, ty: ValueType) -> (res: Result<Value, ParseValueError>)
    ensures
        match value_outcome(text@, ty) {
            Ok(v) => res matches Ok(x) && x@ == v,
            Err(e) => res == Err::<Value, ParseValueError>(e),
        },
{
    match ty {
        ValueType::Bool => {
            let t = chars_of(text);
            proof {
                reveal_strlit("true");
                reveal_strlit("false");
            }
            if t.len() == 4 && t[0] == 't' && t[1] == 'r' && t[2] == 'u' && t[3] == 'e' {
                assert(text@ =~= "true"@);
                Ok(Value::Bool(true))
            } else if t.len() == 5 && t[0] == 'f' && t[1] == 'a' && t[2] == 'l' && t[3] == 's' && t[4]
                == 'e' {
                assert(text@ =~= "false"@);
                Ok(Value::Bool(false))
            } else {
                assert(text@ != "true"@) by {
                    if text@ == "true"@ {
                        assert(t@.len() == 4 && t@[0] == 't' && t@[1] == 'r' && t@[2] == 'u' && t@[3] == 'e');
                    }
                }
                assert(text@ != "false"@) by {
                    if text@ == "false"@ {
                        assert(t@.len() == 5 && t@[0] == 'f');
                        assert(t@[1] == 'a' && t@[2] == 'l' && t@[3] == 's' && t@[4] == 'e');
                    }
                }
                Err(ParseValueError::InvalidBool)
            }
        },
        ValueType::Char => {
            let n = text.unicode_len();
            if n == 1 {
                Ok(Value::Char(text.get_char(0)))
            } else {
                Err(ParseValueError::InvalidChar)
            }
        },
        ValueType::Str => Ok(Value::Str(text.to_owned())),
        ValueType::Int(k, r) => parse_int(text, k, r),
    }
}

} // verus!
