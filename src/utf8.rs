//! Finding the longest well-formed UTF-8 prefix of a buffer whose end may cut
//! a character in two.
use vstd::prelude::*;
use vstd::string::StringSliceAdditionalSpecFns;
use vstd::utf8::*;

verus! {

/// Width of the well-formed sequences that start with `b`; 0 when none does.
pub open spec fn lead_width(b: u8) -> nat {
    if b <= 0x7f {
        1
    } else if 0xc2 <= b <= 0xdf {
        2
    } else if 0xe0 <= b <= 0xef {
        3
    } else if 0xf0 <= b <= 0xf4 {
        4
    } else {
        0
    }
}

/// Whether `b` may follow `lead` as the second byte of a well-formed sequence.
pub open spec fn second_ok(lead: u8, b: u8) -> bool {
    if lead == 0xe0 {
        0xa0 <= b <= 0xbf
    } else if lead == 0xed {
        0x80 <= b <= 0x9f
    } else if lead == 0xf0 {
        0x90 <= b <= 0xbf
    } else if lead == 0xf4 {
        0x80 <= b <= 0x8f
    } else {
        0x80 <= b <= 0xbf
    }
}

/// Number of leading bytes of `t` that agree with some well-formed sequence
/// (never more than that sequence's width).
pub open spec fn agreeing_len(t: Seq<u8>) -> nat {
    if t.len() == 0 || lead_width(t[0]) == 0 {
        0
    } else if lead_width(t[0]) == 1 || t.len() == 1 || !second_ok(t[0], t[1]) {
        1
    } else if lead_width(t[0]) == 2 || t.len() == 2 || !is_continuation_byte(t[2]) {
        2
    } else if lead_width(t[0]) == 3 || t.len() == 3 || !is_continuation_byte(t[3]) {
        3
    } else {
        4
    }
}

/// `t` starts a well-formed sequence that the bytes so far leave unfinished.
pub open spec fn is_truncated(t: Seq<u8>) -> bool {
    0 < t.len() < lead_width(t[0]) && agreeing_len(t) == t.len()
}

/// Length of the ill-formed sequence that starts `t`: at least one byte.
pub open spec fn invalid_len(t: Seq<u8>) -> nat {
    if agreeing_len(t) == 0 {
        1
    } else {
        agreeing_len(t)
    }
}

/// Length of the prefix of `b` made of whole well-formed characters, read
/// from the start until the first one that is not.
pub open spec fn valid_prefix_len(b: Seq<u8>) -> nat
    decreases b.len(),
{
    if b.len() == 0 || !valid_first_scalar(b) {
        0
    } else {
        (length_of_first_scalar(b) + valid_prefix_len(pop_first_scalar(b))) as nat
    }
}

/// What the longest-prefix routine gives for `b`: the length of the usable
/// prefix, or the length of the ill-formed sequence found at its start.
pub open spec fn utf8_prefix_outcome(b: Seq<u8>) -> Result<nat, nat> {
    if valid_prefix_len(b) == 0 && b.len() > 0 && !is_truncated(b) {
        Err(invalid_len(b))
    } else {
        Ok(valid_prefix_len(b))
    }
}

proof fn lemma_first_scalar_len(b: Seq<u8>)
    requires
        valid_first_scalar(b),
    ensures
        1 <= length_of_first_scalar(b) <= b.len(),
{
}

pub proof fn lemma_valid_prefix(b: Seq<u8>)
    ensures
        valid_prefix_len(b) <= b.len(),
        valid_utf8(b.take(valid_prefix_len(b) as int)),
    decreases b.len(),
{
    if b.len() == 0 || !valid_first_scalar(b) {
        assert(b.take(0) =~= Seq::<u8>::empty());
    } else {
        lemma_first_scalar_len(b);
        let w = length_of_first_scalar(b);
        let rest = pop_first_scalar(b);
        lemma_valid_prefix(rest);
        let p = b.take(valid_prefix_len(b) as int);
        assert(p.take(w) =~= b.take(w));
        assert(pop_first_scalar(p) =~= rest.take(valid_prefix_len(rest) as int));
    }
}

/// A well-formed prefix `l` of `b` lies within the prefix of `b` that the
/// routine below keeps.
pub proof fn lemma_valid_prefix_covers(b: Seq<u8>, l: Seq<u8>)
    requires
        valid_utf8(l),
        l.len() <= b.len(),
        b.take(l.len() as int) == l,
    ensures
        valid_prefix_len(b) >= l.len(),
    decreases l.len(),
{
    if l.len() > 0 {
        assert forall|i: int| 0 <= i < l.len() implies b[i] == l[i] by {
            assert(b.take(l.len() as int)[i] == b[i]);
        }
        assert(valid_first_scalar(b));
        let w = length_of_first_scalar(l);
        assert(length_of_first_scalar(b) == w);
        let lr = pop_first_scalar(l);
        let br = pop_first_scalar(b);
        assert(br.take(lr.len() as int) =~= lr);
        lemma_valid_prefix_covers(br, lr);
    }
}

/// Well-formed bytes after a well-formed prefix are well-formed.
pub proof fn lemma_valid_suffix(a: Seq<u8>, b: Seq<u8>)
    requires
        valid_utf8(a),
        valid_utf8(a + b),
    ensures
        valid_utf8(b),
    decreases a.len(),
{
    if a.len() == 0 {
        assert(a + b =~= b);
    } else {
        let ab = a + b;
        assert forall|i: int| 0 <= i < a.len() implies ab[i] == a[i] by {}
        assert(length_of_first_scalar(ab) == length_of_first_scalar(a));
        assert(pop_first_scalar(ab) =~= pop_first_scalar(a) + b);
        lemma_valid_suffix(pop_first_scalar(a), b);
    }
}

proof fn lemma_lead_two(b0: u8, b1: u8)
    requires
        0xc0 <= b0 <= 0xdf,
        ((((b0 & 0x1f) as u32) << 6u32) | ((b1 & 0x3f) as u32)) >= 0x80,
    ensures
        b0 >= 0xc2,
{
    assert(0xc0 <= b0 <= 0xdf && ((((b0 & 0x1f) as u32) << 6u32) | ((b1 & 0x3f) as u32)) >= 0x80
        ==> b0 >= 0xc2) by (bit_vector);
}

proof fn lemma_lead_three(b0: u8, b1: u8, b2: u8)
    requires
        0xe0 <= b0 <= 0xef,
        0x80 <= b1 <= 0xbf,
        ((((b0 & 0x0f) as u32) << 12u32) | (((b1 & 0x3f) as u32) << 6u32) | ((b2 & 0x3f) as u32))
            >= 0x800,
        !(0xd800 <= ((((b0 & 0x0f) as u32) << 12u32) | (((b1 & 0x3f) as u32) << 6u32) | ((b2
            & 0x3f) as u32)) <= 0xdfff),
    ensures
        second_ok(b0, b1),
{
    assert(0xe0 <= b0 <= 0xef && 0x80 <= b1 <= 0xbf && ((((b0 & 0x0f) as u32) << 12u32) | (((b1
        & 0x3f) as u32) << 6u32) | ((b2 & 0x3f) as u32)) >= 0x800 && b0 == 0xe0 ==> b1 >= 0xa0)
        by (bit_vector);
    assert(0xe0 <= b0 <= 0xef && 0x80 <= b1 <= 0xbf && !(0xd800 <= ((((b0 & 0x0f) as u32)
        << 12u32) | (((b1 & 0x3f) as u32) << 6u32) | ((b2 & 0x3f) as u32)) <= 0xdfff) && b0 == 0xed
        ==> b1 <= 0x9f) by (bit_vector);
}

proof fn lemma_lead_four(b0: u8, b1: u8, b2: u8, b3: u8)
    requires
        0xf0 <= b0 <= 0xf7,
        0x80 <= b1 <= 0xbf,
        0x10000 <= ((((b0 & 0x07) as u32) << 18u32) | (((b1 & 0x3f) as u32) << 12u32) | (((b2
            & 0x3f) as u32) << 6u32) | ((b3 & 0x3f) as u32)) <= 0x10ffff,
    ensures
        b0 <= 0xf4,
        second_ok(b0, b1),
{
    assert(0xf0 <= b0 <= 0xf7 && 0x80 <= b1 <= 0xbf && ((((b0 & 0x07) as u32) << 18u32) | (((b1
        & 0x3f) as u32) << 12u32) | (((b2 & 0x3f) as u32) << 6u32) | ((b3 & 0x3f) as u32))
        <= 0x10ffff ==> b0 <= 0xf4) by (bit_vector);
    assert(0xf0 <= b0 <= 0xf7 && 0x80 <= b1 <= 0xbf && ((((b0 & 0x07) as u32) << 18u32) | (((b1
        & 0x3f) as u32) << 12u32) | (((b2 & 0x3f) as u32) << 6u32) | ((b3 & 0x3f) as u32))
        >= 0x10000 && b0 == 0xf0 ==> b1 >= 0x90) by (bit_vector);
    assert(0xf0 <= b0 <= 0xf7 && 0x80 <= b1 <= 0xbf && ((((b0 & 0x07) as u32) << 18u32) | (((b1
        & 0x3f) as u32) << 12u32) | (((b2 & 0x3f) as u32) << 6u32) | ((b3 & 0x3f) as u32))
        <= 0x10ffff && b0 == 0xf4 ==> b1 <= 0x8f) by (bit_vector);
}

/// A non-empty prefix of well-formed bytes is never an ill-formed start: the
/// routine below keeps some of it, or sees an unfinished character.
pub proof fn lemma_prefix_of_valid(l: Seq<u8>, b: int)
    requires
        valid_utf8(l),
        0 < b <= l.len(),
    ensures
        utf8_prefix_outcome(l.take(b)) is Ok,
{
    let t = l.take(b);
    assert forall|i: int| 0 <= i < b implies t[i] == l[i] by {}
    if !valid_first_scalar(t) {
        let b0 = l[0];
        assert(valid_first_scalar(l));
        let w = length_of_first_scalar(l);
        assert(b < w) by {
            if b >= w {
                assert(valid_first_scalar(t));
            }
        }
        if w == 2 {
            lemma_lead_two(l[0], l[1]);
        } else if w == 3 {
            lemma_lead_three(l[0], l[1], l[2]);
        } else {
            lemma_lead_four(l[0], l[1], l[2], l[3]);
        }
        assert(is_truncated(t));
    }
}

/// Relies on std::str::from_utf8: well-formed UTF-8 is accepted, and the
/// string it gives holds exactly those bytes.
#[verifier::external_body]
fn str_of_utf8(b: &[u8]) -> (r: Option<&str>)
    ensures
        r.is_some() <==> valid_utf8(b@),
        r matches Some(s) ==> s.spec_bytes() == b@,
{
    std::str::from_utf8(b).ok()
}

/// Width of the well-formed character that starts at `b[i]`, or 0 when the
/// bytes there do not form one.
fn scalar_width(b: &[u8], i: usize) -> (w: usize)
    requires
        i < b@.len(),
    ensures
        w > 0 <==> valid_first_scalar(b@.skip(i as int)),
        w > 0 ==> w == length_of_first_scalar(b@.skip(i as int)),
{
    let t = Ghost(b@.skip(i as int));
    let n = b.len() - i;
    let b0 = b[i];
    assert(t@[0] == b0);
    if b0 <= 0x7f {
        1
    } else if 0xc0 <= b0 && b0 <= 0xdf {
        if n < 2 {
            return 0;
        }
        let b1 = b[i + 1];
        assert(t@[1] == b1);
        if !(0x80 <= b1 && b1 <= 0xbf) {
            return 0;
        }
        let cp: u32 = (((b0 & 0x1f) as u32) << 6) | ((b1 & 0x3f) as u32);
        assert(cp == decode_first_codepoint(t@));
        if 0x80 <= cp && !(0xd800 <= cp && cp <= 0xdfff) {
            2
        } else {
            0
        }
    } else if 0xe0 <= b0 && b0 <= 0xef {
        if n < 3 {
            return 0;
        }
        let b1 = b[i + 1];
        let b2 = b[i + 2];
        assert(t@[1] == b1 && t@[2] == b2);
        if !(0x80 <= b1 && b1 <= 0xbf && 0x80 <= b2 && b2 <= 0xbf) {
            return 0;
        }
        let cp: u32 = (((b0 & 0x0f) as u32) << 12) | (((b1 & 0x3f) as u32) << 6) | ((b2
            & 0x3f) as u32);
        assert(cp == decode_first_codepoint(t@));
        if 0x800 <= cp && !(0xd800 <= cp && cp <= 0xdfff) {
            3
        } else {
            0
        }
    } else if 0xf0 <= b0 && b0 <= 0xf7 {
        if n < 4 {
            return 0;
        }
        let b1 = b[i + 1];
        let b2 = b[i + 2];
        let b3 = b[i + 3];
        assert(t@[1] == b1 && t@[2] == b2 && t@[3] == b3);
        if !(0x80 <= b1 && b1 <= 0xbf && 0x80 <= b2 && b2 <= 0xbf && 0x80 <= b3 && b3 <= 0xbf) {
            return 0;
        }
        let cp: u32 = (((b0 & 0x07) as u32) << 18) | (((b1 & 0x3f) as u32) << 12) | (((b2
            & 0x3f) as u32) << 6) | ((b3 & 0x3f) as u32);
        assert(cp == decode_first_codepoint(t@));
        if 0x10000 <= cp && cp <= 0x10ffff && !(0xd800 <= cp && cp <= 0xdfff) {
            4
        } else {
            0
        }
    } else {
        0
    }
}

/// Width of the well-formed sequences that start with `t[0]`, and how many
/// leading bytes of `t` agree with one of them.
fn agreeing_prefix(t: &[u8]) -> (r: (usize, usize))
    requires
        t@.len() > 0,
    ensures
        r.0 == agreeing_len(t@),
        r.1 == lead_width(t@[0]),
{
    let b0 = t[0];
    let width: usize = if b0 <= 0x7f {
        1
    } else if 0xc2 <= b0 && b0 <= 0xdf {
        2
    } else if 0xe0 <= b0 && b0 <= 0xef {
        3
    } else if 0xf0 <= b0 && b0 <= 0xf4 {
        4
    } else {
        0
    };
    if width == 0 {
        return (0, 0);
    }
    if width == 1 || t.len() == 1 {
        return (1, width);
    }
    let b1 = t[1];
    let second = if b0 == 0xe0 {
        0xa0 <= b1 && b1 <= 0xbf
    } else if b0 == 0xed {
        0x80 <= b1 && b1 <= 0x9f
    } else if b0 == 0xf0 {
        0x90 <= b1 && b1 <= 0xbf
    } else if b0 == 0xf4 {
        0x80 <= b1 && b1 <= 0x8f
    } else {
        0x80 <= b1 && b1 <= 0xbf
    };
    if !second {
        return (1, width);
    }
    if width == 2 || t.len() == 2 || !(0x80 <= t[2] && t[2] <= 0xbf) {
        return (2, width);
    }
    if width == 3 || t.len() == 3 || !(0x80 <= t[3] && t[3] <= 0xbf) {
        return (3, width);
    }
    (4, width)
}

/// Converts as much of `bytes` to a string as forms whole, well-formed
/// characters.
///
/// A trailing sequence that is well-formed so far but unfinished is left out,
/// as are the bytes after the first ill-formed sequence. When the ill-formed
/// sequence stands at the very start, its bytes (one to three) are the error.
pub fn longest_utf8_prefix(bytes: &[u8]) -> (r: Result<&str, &[u8]>)
    ensures
        match utf8_prefix_outcome(bytes@) {
            Ok(n) => r matches Ok(s) && s.spec_bytes() == bytes@.take(n as int),
            Err(k) => r matches Err(e) && e@ == bytes@.take(k as int),
        },
{
    let mut i: usize = 0;
    assert(bytes@.skip(0) =~= bytes@);
    while i < bytes.len()
        invariant
            0 <= i <= bytes@.len(),
            valid_prefix_len(bytes@) == i + valid_prefix_len(bytes@.skip(i as int)),
        ensures
            0 <= i <= bytes@.len(),
            valid_prefix_len(bytes@) == i + valid_prefix_len(bytes@.skip(i as int)),
            i == bytes@.len() || !valid_first_scalar(bytes@.skip(i as int)),
        decreases bytes@.len() - i,
    {
        let w = scalar_width(bytes, i);
        if w == 0 {
            break;
        }
        proof {
            let t = bytes@.skip(i as int);
            assert(pop_first_scalar(t) =~= bytes@.skip(i + w));
        }
        i = i + w;
    }
    proof {
        assert(bytes@.skip(bytes@.len() as int) =~= Seq::<u8>::empty());
        lemma_valid_prefix(bytes@);
        assert(valid_prefix_len(bytes@) == i);
    }
    if i == 0 && bytes.len() > 0 {
        let (agree, width) = agreeing_prefix(bytes);
        if !(agree == bytes.len() && bytes.len() < width) {
            let k = if agree == 0 {
                1
            } else {
                agree
            };
            return Err(&bytes[0..k]);
        }
    }
    let head = &bytes[0..i];
    assert(head@ =~= bytes@.take(i as int));
    match str_of_utf8(head) {
        Some(s) => Ok(s),
        None => Err(head),
    }
}

} // verus!
