//! The template grammar: literal text interleaved with captures.
//!
//! A template is literal text in which `{{` and `}}` stand for single braces,
//! and captures `{` [position] [`:` [rule]] `}` (or the shorthand `{}`). A
//! position is empty (the next implicit output slot), `_` (match but keep
//! nothing) or digits (an explicit slot). A rule reference is empty (the next
//! declared rule), digits (a positional rule) or an identifier (a named rule).
use vstd::prelude::*;
use vstd::string::StrSliceExecFns;

verus! {

/// Where the value of a capture goes.
#[derive(Clone, Copy, Debug, PartialEq, Eq, Structural)]
pub enum CapturePos {
    /// The text is matched and nothing is kept.
    Null,
    /// The next output slot not yet given to an implicit capture.
    Implicit,
    /// The given output slot.
    Explicit(usize),
}

/// Which rule a capture is matched with.
#[derive(Clone, Debug, PartialEq, Eq)]
pub enum CaptureRule {
    /// The next rule in declaration order.
    Implicit,
    /// The positional rule with this index.
    Positional(usize),
    /// The rule declared under this name.
    Named(String),
}

/// A capture as written in a template.
#[derive(Clone, Debug, PartialEq, Eq)]
pub struct Capture {
    pub pos: CapturePos,
    pub rule: CaptureRule,
}

/// One parsed unit of a template.
#[derive(Clone, Debug, PartialEq, Eq)]
pub enum Segment {
    /// Text that must appear verbatim (braces already unescaped).
    Literal(String),
    Capture(Capture),
}

/// Why a template was rejected.
#[derive(Clone, Debug, PartialEq, Eq)]
pub enum TemplateError {
    /// A `}` that is neither doubled nor closes a capture.
    UnmatchedClose,
    /// A capture that the template never closes.
    UnmatchedOpen,
    /// A position field that is neither empty, `_`, nor a number that fits.
    InvalidPosition(String),
    /// A rule field that starts with a digit but is not a number that fits.
    InvalidRule(String),
    /// A character that cannot stand where it was found inside a capture.
    UnexpectedChar(char),
}

/// A rule reference as the contracts see it.
pub enum RuleRef {
    Implicit,
    Positional(usize),
    Named(Seq<char>),
}

/// A segment as the contracts see it.
pub enum SegmentView {
    Literal(Seq<char>),
    Capture(CapturePos, RuleRef),
}

/// A template error as the contracts see it.
pub enum TemplateFault {
    UnmatchedClose,
    UnmatchedOpen,
    InvalidPosition(Seq<char>),
    InvalidRule(Seq<char>),
    UnexpectedChar(char),
}

impl View for CaptureRule {
    type V = RuleRef;

    open spec fn view(&self) -> RuleRef {
        match self {
            CaptureRule::Implicit => RuleRef::Implicit,
            CaptureRule::Positional(n) => RuleRef::Positional(*n),
            CaptureRule::Named(s) => RuleRef::Named(s@),
        }
    }
}

impl View for Segment {
    type V = SegmentView;

    open spec fn view(&self) -> SegmentView {
        match self {
            Segment::Literal(s) => SegmentView::Literal(s@),
            Segment::Capture(c) => SegmentView::Capture(c.pos, c.rule@),
        }
    }
}

impl View for TemplateError {
    type V = TemplateFault;

    open spec fn view(&self) -> TemplateFault {
        match self {
            TemplateError::UnmatchedClose => TemplateFault::UnmatchedClose,
            TemplateError::UnmatchedOpen => TemplateFault::UnmatchedOpen,
            TemplateError::InvalidPosition(s) => TemplateFault::InvalidPosition(s@),
            TemplateError::InvalidRule(s) => TemplateFault::InvalidRule(s@),
            TemplateError::UnexpectedChar(c) => TemplateFault::UnexpectedChar(*c),
        }
    }
}

pub open spec fn segments_view(v: Seq<Segment>) -> Seq<SegmentView> {
    v.map_values(|s: Segment| s@)
}

pub open spec fn is_digit(c: char) -> bool {
    '0' <= c <= '9'
}

pub open spec fn is_alpha(c: char) -> bool {
    ('a' <= c <= 'z') || ('A' <= c <= 'Z')
}

/// Characters of a position field (`rule == false`) or a rule field.
pub open spec fn field_char(c: char, rule: bool) -> bool {
    c == '_' || is_digit(c) || (rule && is_alpha(c))
}

/// Index of the first character at or after `i` that cannot continue the
/// field; `t.len()` when the template ends first.
pub open spec fn field_end(t: Seq<char>, i: int, rule: bool) -> int
    decreases t.len() - i,
{
    if i < 0 || i >= t.len() || !field_char(t[i], rule) {
        i
    } else {
        field_end(t, i + 1, rule)
    }
}

pub open spec fn all_digits(s: Seq<char>) -> bool {
    forall|k: int| 0 <= k < s.len() ==> is_digit(#[trigger] s[k])
}

/// The number that a string of decimal digits denotes.
pub open spec fn digits_value(s: Seq<char>) -> nat
    decreases s.len(),
{
    if s.len() == 0 {
        0
    } else {
        digits_value(s.drop_last()) * 10 + ((s.last() as u32) - ('0' as u32)) as nat
    }
}

/// Whether `s` is a number that fits in `usize`.
pub open spec fn is_index(s: Seq<char>) -> bool {
    s.len() > 0 && all_digits(s) && digits_value(s) <= usize::MAX
}

/// What a position field denotes, if anything.
pub open spec fn position_of(f: Seq<char>) -> Option<CapturePos> {
    if f == seq!['_'] {
        Some(CapturePos::Null)
    } else if f.len() == 0 {
        Some(CapturePos::Implicit)
    } else if is_index(f) {
        Some(CapturePos::Explicit(digits_value(f) as usize))
    } else {
        None
    }
}

/// What a rule field denotes, if anything.
pub open spec fn rule_of(f: Seq<char>) -> Option<RuleRef> {
    if f.len() > 0 && (f[0] == '_' || is_alpha(f[0])) {
        Some(RuleRef::Named(f))
    } else if f.len() == 0 {
        Some(RuleRef::Implicit)
    } else if is_index(f) {
        Some(RuleRef::Positional(digits_value(f) as usize))
    } else {
        None
    }
}

/// The literal text that starts at `i`, unescaped, and where it ends.
pub open spec fn scan_literal(t: Seq<char>, i: int) -> Result<(Seq<char>, int), TemplateFault>
    decreases t.len() - i,
{
    if i < 0 || i >= t.len() {
        Ok((Seq::empty(), i))
    } else if (t[i] == '{' || t[i] == '}') && i + 1 < t.len() && t[i + 1] == t[i] {
        match scan_literal(t, i + 2) {
            Ok((s, j)) => Ok((seq![t[i]] + s, j)),
            Err(e) => Err(e),
        }
    } else if t[i] == '{' {
        Ok((Seq::empty(), i))
    } else if t[i] == '}' {
        Err(TemplateFault::UnmatchedClose)
    } else {
        match scan_literal(t, i + 1) {
            Ok((s, j)) => Ok((seq![t[i]] + s, j)),
            Err(e) => Err(e),
        }
    }
}

/// The capture whose `{` stands at `i`, and the index just past its `}`.
pub open spec fn scan_capture(t: Seq<char>, i: int) -> Result<(SegmentView, int), TemplateFault> {
    if i + 1 < t.len() && t[i + 1] == '}' {
        Ok((SegmentView::Capture(CapturePos::Implicit, RuleRef::Implicit), i + 2))
    } else {
        let e = field_end(t, i + 1, false);
        if e >= t.len() {
            Err(TemplateFault::UnmatchedOpen)
        } else if position_of(t.subrange(i + 1, e)) is None {
            Err(TemplateFault::InvalidPosition(t.subrange(i + 1, e)))
        } else if t[e] == '}' {
            Ok(
                (
                    SegmentView::Capture(
                        position_of(t.subrange(i + 1, e))->0,
                        RuleRef::Implicit,
                    ),
                    e + 1,
                ),
            )
        } else if t[e] != ':' {
            Err(TemplateFault::UnexpectedChar(t[e]))
        } else {
            let f = field_end(t, e + 1, true);
            if f >= t.len() {
                Err(TemplateFault::UnmatchedOpen)
            } else if rule_of(t.subrange(e + 1, f)) is None {
                Err(TemplateFault::InvalidRule(t.subrange(e + 1, f)))
            } else if t[f] == '}' {
                Ok(
                    (
                        SegmentView::Capture(
                            position_of(t.subrange(i + 1, e))->0,
                            rule_of(t.subrange(e + 1, f))->0,
                        ),
                        f + 1,
                    ),
                )
            } else {
                Err(TemplateFault::UnexpectedChar(t[f]))
            }
        }
    }
}

pub proof fn lemma_field_end(t: Seq<char>, i: int, rule: bool)
    requires
        0 <= i,
    ensures
        i <= field_end(t, i, rule),
        i <= t.len() ==> field_end(t, i, rule) <= t.len(),
        forall|k: int| i <= k < field_end(t, i, rule) ==> field_char(#[trigger] t[k], rule),
        field_end(t, i, rule) < t.len() ==> !field_char(t[field_end(t, i, rule)], rule),
    decreases t.len() - i,
{
    if i < t.len() && field_char(t[i], rule) {
        lemma_field_end(t, i + 1, rule);
    }
}

pub proof fn lemma_literal_advances(t: Seq<char>, i: int)
    requires
        0 <= i <= t.len(),
    ensures
        scan_literal(t, i) matches Ok((_, j)) ==> i <= j <= t.len() && (j < t.len() ==> t[j]
            == '{'),
    decreases t.len() - i,
{
    if i < t.len() {
        if (t[i] == '{' || t[i] == '}') && i + 1 < t.len() && t[i + 1] == t[i] {
            lemma_literal_advances(t, i + 2);
        } else if t[i] != '{' && t[i] != '}' {
            lemma_literal_advances(t, i + 1);
        }
    }
}

pub proof fn lemma_capture_advances(t: Seq<char>, i: int)
    requires
        0 <= i,
    ensures
        scan_capture(t, i) matches Ok((_, k)) ==> i < k <= t.len(),
{
    lemma_field_end(t, i + 1, false);
    let e = field_end(t, i + 1, false);
    if e < t.len() {
        lemma_field_end(t, e + 1, true);
    }
}

pub open spec fn literal_segments(text: Seq<char>) -> Seq<SegmentView> {
    if text.len() > 0 {
        seq![SegmentView::Literal(text)]
    } else {
        Seq::empty()
    }
}

/// The segments of `t` from index `i` on.
pub open spec fn parse_from(t: Seq<char>, i: int) -> Result<Seq<SegmentView>, TemplateFault>
    decreases t.len() - i,
{
    if i < 0 || i >= t.len() {
        Ok(Seq::empty())
    } else {
        match scan_literal(t, i) {
            Err(e) => Err(e),
            Ok((text, j)) => {
                proof {
                    lemma_literal_advances(t, i);
                }
                if j >= t.len() {
                    Ok(literal_segments(text))
                } else {
                    match scan_capture(t, j) {
                        Err(e) => Err(e),
                        Ok((c, k)) => {
                            proof {
                                lemma_capture_advances(t, j);
                            }
                            match parse_from(t, k) {
                                Err(e) => Err(e),
                                Ok(rest) => Ok(literal_segments(text) + seq![c] + rest),
                            }
                        },
                    }
                }
            },
        }
    }
}

/// The segments of template `t`, or why it is rejected.
pub open spec fn parse_template(t: Seq<char>) -> Result<Seq<SegmentView>, TemplateFault> {
    parse_from(t, 0)
}

pub open spec fn prepend(p: Seq<SegmentView>, r: Result<Seq<SegmentView>, TemplateFault>) -> Result<
    Seq<SegmentView>,
    TemplateFault,
> {
    match r {
        Ok(s) => Ok(p + s),
        Err(e) => Err(e),
    }
}

pub open spec fn prefix_text(p: Seq<char>, r: Result<(Seq<char>, int), TemplateFault>) -> Result<
    (Seq<char>, int),
    TemplateFault,
> {
    match r {
        Ok((s, j)) => Ok((p + s, j)),
        Err(e) => Err(e),
    }
}

/// A template whose only braces are the two characters of `{}` captures:
/// no escaped braces and no capture with fields.
pub open spec fn is_plain_template(t: Seq<char>) -> bool {
    forall|k: int|
        0 <= k < t.len() ==> (#[trigger] t[k] == '{' ==> k + 1 < t.len() && t[k + 1] == '}') && (
        t[k] == '}' ==> k > 0 && t[k - 1] == '{')
}

/// The text that segments spell out with each literal written as it reads
/// and each capture written as `{}`.
pub open spec fn replay(segs: Seq<SegmentView>) -> Seq<char>
    decreases segs.len(),
{
    if segs.len() == 0 {
        Seq::empty()
    } else {
        let head = match segs[0] {
            SegmentView::Literal(s) => s,
            SegmentView::Capture(_, _) => seq!['{', '}'],
        };
        head + replay(segs.drop_first())
    }
}

/// Every capture among `segs` is the shorthand `{}`.
pub open spec fn only_shorthand_captures(segs: Seq<SegmentView>) -> bool {
    forall|k: int|
        0 <= k < segs.len() ==> (#[trigger] segs[k] is Capture ==> segs[k] == SegmentView::Capture(
            CapturePos::Implicit,
            RuleRef::Implicit,
        ))
}

/// Index of the first `{` at or after `i`, or the length of `t`.
pub open spec fn next_open(t: Seq<char>, i: int) -> int
    decreases t.len() - i,
{
    if i < 0 || i >= t.len() || t[i] == '{' {
        i
    } else {
        next_open(t, i + 1)
    }
}

proof fn lemma_replay_concat(a: Seq<SegmentView>, b: Seq<SegmentView>)
    ensures
        replay(a + b) == replay(a) + replay(b),
    decreases a.len(),
{
    if a.len() == 0 {
        assert(a + b =~= b);
        assert(replay(a) + replay(b) =~= replay(b));
    } else {
        assert((a + b).drop_first() =~= a.drop_first() + b);
        lemma_replay_concat(a.drop_first(), b);
        assert((a + b)[0] == a[0]);
        let head = match a[0] {
            SegmentView::Literal(s) => s,
            SegmentView::Capture(_, _) => seq!['{', '}'],
        };
        assert(head + (replay(a.drop_first()) + replay(b)) =~= (head + replay(a.drop_first()))
            + replay(b));
    }
}

proof fn lemma_plain_literal(t: Seq<char>, i: int)
    requires
        is_plain_template(t),
        0 <= i <= t.len(),
        i == 0 || t[i - 1] != '{',
    ensures
        i <= next_open(t, i) <= t.len(),
        next_open(t, i) < t.len() ==> t[next_open(t, i)] == '{',
        scan_literal(t, i) == Ok::<(Seq<char>, int), TemplateFault>(
            (t.subrange(i, next_open(t, i)), next_open(t, i)),
        ),
    decreases t.len() - i,
{
    if i == t.len() {
        assert(t.subrange(i, i) =~= Seq::<char>::empty());
    } else if t[i] == '{' {
        assert(t[i + 1] == '}');
        assert(t.subrange(i, i) =~= Seq::<char>::empty());
    } else {
        assert(t[i] != '}') by {
            if t[i] == '}' {
                assert(t[i - 1] == '{');
            }
        }
        lemma_plain_literal(t, i + 1);
        assert(seq![t[i]] + t.subrange(i + 1, next_open(t, i)) =~= t.subrange(i, next_open(t, i)));
    }
}

proof fn lemma_plain_from(t: Seq<char>, i: int)
    requires
        is_plain_template(t),
        0 <= i <= t.len(),
        i == 0 || t[i - 1] != '{',
    ensures
        parse_from(t, i) matches Ok(segs) && replay(segs) == t.subrange(i, t.len() as int)
            && only_shorthand_captures(segs),
    decreases t.len() - i,
{
    if i == t.len() {
        assert(t.subrange(i, i) =~= Seq::<char>::empty());
        assert(replay(Seq::<SegmentView>::empty()) == Seq::<char>::empty());
    } else {
        lemma_plain_literal(t, i);
        let j = next_open(t, i);
        let text = t.subrange(i, j);
        let lit = literal_segments(text);
        assert(replay(Seq::<SegmentView>::empty()) == Seq::<char>::empty());
        assert(replay(lit) == text) by {
            if text.len() > 0 {
                assert(lit[0] == SegmentView::Literal(text));
                assert(lit.drop_first() =~= Seq::<SegmentView>::empty());
                assert(text + Seq::<char>::empty() =~= text);
            } else {
                assert(text =~= Seq::<char>::empty());
                assert(lit =~= Seq::<SegmentView>::empty());
            }
        }
        if j == t.len() {
            assert(only_shorthand_captures(lit));
        } else {
            assert(t[j + 1] == '}');
            let c = SegmentView::Capture(CapturePos::Implicit, RuleRef::Implicit);
            assert(scan_capture(t, j) == Ok::<(SegmentView, int), TemplateFault>((c, j + 2)));
            lemma_plain_from(t, j + 2);
            let rest = parse_from(t, j + 2)->Ok_0;
            let segs = lit + seq![c] + rest;
            assert(replay(seq![c]) == seq!['{', '}']) by {
                assert(seq![c][0] == c);
                assert(seq![c].drop_first() =~= Seq::<SegmentView>::empty());
                assert(seq!['{', '}'] + Seq::<char>::empty() =~= seq!['{', '}']);
            }
            lemma_replay_concat(lit, seq![c]);
            lemma_replay_concat(lit + seq![c], rest);
            assert(t.subrange(j, j + 2) =~= seq!['{', '}']);
            assert(text + seq!['{', '}'] + t.subrange(j + 2, t.len() as int) =~= t.subrange(
                i,
                t.len() as int,
            ));
            assert forall|k: int|
                0 <= k < segs.len() && #[trigger] segs[k] is Capture implies segs[k]
                == SegmentView::Capture(CapturePos::Implicit, RuleRef::Implicit) by {
                if k >= lit.len() + 1 {
                    assert(segs[k] == rest[k - lit.len() - 1]);
                }
            }
        }
    }
}

/// Round trip: a template whose only braces are `{}` captures parses, and
/// replaying its segments (literals as they read, captures as `{}`) gives the
/// template back.
pub proof fn lemma_plain_template_round_trip(t: Seq<char>)
    requires
        is_plain_template(t),
    ensures
        parse_template(t) matches Ok(segs) && replay(segs) == t && only_shorthand_captures(segs),
{
    lemma_plain_from(t, 0);
    assert(t.subrange(0, t.len() as int) =~= t);
}

/// Relies on String::push: the character is appended at the end.
#[verifier::external_body]
pub(crate) fn push_char(s: &mut String, c: char)
    ensures
        final(s)@ == old(s)@.push(c),
{
    s.push(c)
}

/// The characters of `s`, one by one.
pub(crate) fn chars_of(s: &str) -> (r: Vec<char>)
    ensures
        r@ == s@,
{
    let n = s.unicode_len();
    let mut v: Vec<char> = Vec::new();
    let mut i: usize = 0;
    while i < n
        invariant
            n == s@.len(),
            i <= n,
            v@ == s@.take(i as int),
        decreases n - i,
    {
        v.push(s.get_char(i));
        i = i + 1;
        assert(v@ =~= s@.take(i as int));
    }
    assert(v@ =~= s@);
    v
}

pub(crate) fn string_of(src: &Vec<char>, from: usize, to: usize) -> (r: String)
    requires
        from <= to <= src@.len(),
    ensures
        r@ == src@.subrange(from as int, to as int),
{
    let mut s = String::new();
    let mut i = from;
    while i < to
        invariant
            from <= i <= to <= src@.len(),
            s@ == src@.subrange(from as int, i as int),
        decreases to - i,
    {
        push_char(&mut s, src[i]);
        i = i + 1;
        assert(s@ =~= src@.subrange(from as int, i as int));
    }
    s
}

proof fn lemma_prefix_push(text: Seq<char>, c: char, r: Result<(Seq<char>, int), TemplateFault>)
    ensures
        prefix_text(text, prefix_text(seq![c], r)) == prefix_text(text.push(c), r),
{
    if let Ok((s, j)) = r {
        assert(text + (seq![c] + s) =~= text.push(c) + s);
    }
}

proof fn lemma_digits_prefix(s: Seq<char>, k: int)
    requires
        0 <= k <= s.len(),
    ensures
        digits_value(s.take(k)) <= digits_value(s),
    decreases s.len(),
{
    if k < s.len() {
        assert(s.drop_last().take(k) =~= s.take(k));
        lemma_digits_prefix(s.drop_last(), k);
    } else {
        assert(s.take(k) =~= s);
    }
}

pub(crate) fn is_digit_char(c: char) -> (r: bool)
    ensures
        r == is_digit(c),
{
    '0' <= c && c <= '9'
}

pub(crate) fn is_alpha_char(c: char) -> (r: bool)
    ensures
        r == is_alpha(c),
{
    ('a' <= c && c <= 'z') || ('A' <= c && c <= 'Z')
}

fn find_field_end(src: &Vec<char>, from: usize, rule: bool) -> (r: usize)
    requires
        from <= src@.len(),
    ensures
        r == field_end(src@, from as int, rule),
{
    let mut i = from;
    while i < src.len() && (src[i] == '_' || is_digit_char(src[i]) || (rule && is_alpha_char(
        src[i],
    )))
        invariant
            from <= i <= src@.len(),
            field_end(src@, from as int, rule) == field_end(src@, i as int, rule),
        decreases src@.len() - i,
    {
        i = i + 1;
    }
    i
}

fn digits_only(src: &Vec<char>, from: usize, to: usize) -> (r: bool)
    requires
        from <= to <= src@.len(),
    ensures
        r == all_digits(src@.subrange(from as int, to as int)),
{
    let mut i = from;
    while i < to
        invariant
            from <= i <= to <= src@.len(),
            forall|k: int| from <= k < i ==> is_digit(#[trigger] src@[k]),
        decreases to - i,
    {
        if !is_digit_char(src[i]) {
            assert(src@.subrange(from as int, to as int)[i - from] == src@[i as int]);
            return false;
        }
        i = i + 1;
    }
    assert forall|k: int| 0 <= k < to - from implies is_digit(
        #[trigger] src@.subrange(from as int, to as int)[k],
    ) by {
        assert(src@.subrange(from as int, to as int)[k] == src@[from + k]);
    }
    true
}

/// The number written in `src[from..to]`, when it fits in `usize`.
fn parse_index(src: &Vec<char>, from: usize, to: usize) -> (r: Option<usize>)
    requires
        from <= to <= src@.len(),
        all_digits(src@.subrange(from as int, to as int)),
    ensures
        r == (if digits_value(src@.subrange(from as int, to as int)) <= usize::MAX {
            Some(digits_value(src@.subrange(from as int, to as int)) as usize)
        } else {
            None
        }),
{
    let ghost whole = src@.subrange(from as int, to as int);
    let mut acc: usize = 0;
    let mut i = from;
    assert(src@.subrange(from as int, from as int) =~= Seq::<char>::empty());
    while i < to
        invariant
            from <= i <= to <= src@.len(),
            whole == src@.subrange(from as int, to as int),
            all_digits(whole),
            acc == digits_value(src@.subrange(from as int, i as int)),
        decreases to - i,
    {
        let ghost next = src@.subrange(from as int, i + 1);
        assert(next.drop_last() =~= src@.subrange(from as int, i as int));
        assert(next.last() == src@[i as int]);
        assert(is_digit(whole[i - from]));
        assert(whole[i - from] == src@[i as int]);
        let d = (src[i] as u32 - '0' as u32) as usize;
        assert(d <= 9);
        if acc > (usize::MAX - d) / 10 {
            proof {
                assert(acc * 10 + d > usize::MAX) by (nonlinear_arith)
                    requires
                        acc > (usize::MAX - d) / 10,
                        d <= 9,
                ;
                assert(whole.take(i + 1 - from) =~= next);
                lemma_digits_prefix(whole, i + 1 - from);
            }
            return None;
        }
        assert(acc * 10 + d <= usize::MAX) by (nonlinear_arith)
            requires
                acc <= (usize::MAX - d) / 10,
                d <= 9,
        ;
        acc = acc * 10 + d;
        i = i + 1;
    }
    Some(acc)
}

fn position_field(src: &Vec<char>, from: usize, to: usize) -> (r: Option<CapturePos>)
    requires
        from <= to <= src@.len(),
    ensures
        r == position_of(src@.subrange(from as int, to as int)),
{
    let ghost f = src@.subrange(from as int, to as int);
    if to - from == 1 && src[from] == '_' {
        assert(f =~= seq!['_']);
        return Some(CapturePos::Null);
    }
    assert(f != seq!['_']) by {
        if f == seq!['_'] {
            assert(f[0] == src@[from as int]);
        }
    }
    if to == from {
        return Some(CapturePos::Implicit);
    }
    if !digits_only(src, from, to) {
        return None;
    }
    match parse_index(src, from, to) {
        Some(n) => Some(CapturePos::Explicit(n)),
        None => None,
    }
}

fn rule_field(src: &Vec<char>, from: usize, to: usize) -> (r: Option<CaptureRule>)
    requires
        from <= to <= src@.len(),
    ensures
        r matches Some(x) ==> rule_of(src@.subrange(from as int, to as int)) == Some(x@),
        r is None ==> rule_of(src@.subrange(from as int, to as int)) is None,
{
    let ghost f = src@.subrange(from as int, to as int);
    if to > from && (src[from] == '_' || is_alpha_char(src[from])) {
        assert(f[0] == src@[from as int]);
        return Some(CaptureRule::Named(string_of(src, from, to)));
    }
    if to == from {
        return Some(CaptureRule::Implicit);
    }
    assert(f[0] == src@[from as int]);
    if !digits_only(src, from, to) {
        return None;
    }
    match parse_index(src, from, to) {
        Some(n) => Some(CaptureRule::Positional(n)),
        None => None,
    }
}

/// The state of one pass over a template.
struct FormatStringParser {
    source: Vec<char>,
    pos: usize,
    output: Vec<Segment>,
}

impl FormatStringParser {
    fn new(source: &str) -> (r: Self)
        ensures
            r.source@ == source@,
            r.pos == 0,
            r.output@.len() == 0,
    {
        FormatStringParser { source: chars_of(source), pos: 0, output: Vec::new() }
    }

    fn push_segment(&mut self, seg: Segment)
        ensures
            final(self).source == old(self).source,
            final(self).pos == old(self).pos,
            segments_view(final(self).output@) == segments_view(old(self).output@).push(seg@),
    {
        self.output.push(seg);
        assert(segments_view(self.output@) =~= segments_view(old(self).output@).push(seg@));
    }

    /// Reads the literal text that starts at the current position.
    fn parse_literal(&mut self) -> (r: Result<(), TemplateError>)
        requires
            old(self).pos <= old(self).source@.len(),
        ensures
            final(self).source == old(self).source,
            match scan_literal(old(self).source@, old(self).pos as int) {
                Ok((text, j)) => r is Ok && final(self).pos == j && segments_view(
                    final(self).output@,
                ) == segments_view(old(self).output@) + literal_segments(text),
                Err(e) => r matches Err(x) && x@ == e,
            },
    {
        let ghost src = self.source@;
        let start = self.pos;
        let n = self.source.len();
        let mut pos = start;
        let mut text = String::new();
        assert(prefix_text(text@, scan_literal(src, pos as int)) =~= scan_literal(src, pos as int))
            by {
            if let Ok((s, j)) = scan_literal(src, pos as int) {
                assert(text@ + s =~= s);
            }
        }
        loop
            invariant
                self.source@ == src,
                old(self).source@ == src,
                old(self).pos == start,
                n == src.len(),
                start <= pos <= n,
                (pos == start) == (text@.len() == 0),
                scan_literal(src, start as int) == prefix_text(text@, scan_literal(src, pos as int)),
            ensures
                self.source@ == src,
                start <= pos <= n,
                (pos == start) == (text@.len() == 0),
                scan_literal(src, start as int) == Ok::<(Seq<char>, int), TemplateFault>(
                    (text@, pos as int),
                ),
            decreases n - pos,
        {
            if pos >= n {
                assert(text@ + Seq::<char>::empty() =~= text@);
                break;
            }
            let c = self.source[pos];
            if (c == '{' || c == '}') && pos + 1 < n && self.source[pos + 1] == c {
                proof {
                    lemma_prefix_push(text@, c, scan_literal(src, pos + 2));
                }
                push_char(&mut text, c);
                pos = pos + 2;
            } else if c == '{' {
                assert(text@ + Seq::<char>::empty() =~= text@);
                break;
            } else if c == '}' {
                return Err(TemplateError::UnmatchedClose);
            } else {
                proof {
                    lemma_prefix_push(text@, c, scan_literal(src, pos + 1));
                }
                push_char(&mut text, c);
                pos = pos + 1;
            }
        }
        self.pos = pos;
        if pos > start {
            self.push_segment(Segment::Literal(text));
        } else {
            assert(segments_view(self.output@) + Seq::<SegmentView>::empty() =~= segments_view(
                self.output@,
            ));
        }
        Ok(())
    }

    /// Reads the capture whose `{` is at the current position.
    fn parse_capture(&mut self) -> (r: Result<(), TemplateError>)
        requires
            old(self).pos < old(self).source@.len(),
        ensures
            final(self).source == old(self).source,
            match scan_capture(old(self).source@, old(self).pos as int) {
                Ok((c, k)) => r is Ok && final(self).pos == k && segments_view(final(self).output@)
                    == segments_view(old(self).output@).push(c),
                Err(e) => r matches Err(x) && x@ == e,
            },
            r is Err ==> segments_view(final(self).output@) == segments_view(old(self).output@),
    {
        let ghost src = self.source@;
        let n = self.source.len();
        let i = self.pos;
        if i + 1 < n && self.source[i + 1] == '}' {
            self.pos = i + 2;
            self.push_segment(
                Segment::Capture(Capture { pos: CapturePos::Implicit, rule: CaptureRule::Implicit }),
            );
            return Ok(());
        }
        let e = find_field_end(&self.source, i + 1, false);
        proof {
            lemma_field_end(src, i + 1, false);
        }
        if e >= n {
            return Err(TemplateError::UnmatchedOpen);
        }
        let pos = match position_field(&self.source, i + 1, e) {
            Some(p) => p,
            None => {
                return Err(TemplateError::InvalidPosition(string_of(&self.source, i + 1, e)));
            },
        };
        let c = self.source[e];
        if c == '}' {
            self.pos = e + 1;
            self.push_segment(Segment::Capture(Capture { pos, rule: CaptureRule::Implicit }));
            return Ok(());
        }
        if c != ':' {
            return Err(TemplateError::UnexpectedChar(c));
        }
        let f = find_field_end(&self.source, e + 1, true);
        proof {
            lemma_field_end(src, e + 1, true);
        }
        if f >= n {
            return Err(TemplateError::UnmatchedOpen);
        }
        let rule = match rule_field(&self.source, e + 1, f) {
            Some(r) => r,
            None => {
                return Err(TemplateError::InvalidRule(string_of(&self.source, e + 1, f)));
            },
        };
        let d = self.source[f];
        if d == '}' {
            self.pos = f + 1;
            self.push_segment(Segment::Capture(Capture { pos, rule }));
            Ok(())
        } else {
            Err(TemplateError::UnexpectedChar(d))
        }
    }

    /// Reads the whole template.
    fn parse(self) -> (r: Result<Vec<Segment>, TemplateError>)
        requires
            self.pos == 0,
            self.output@.len() == 0,
        ensures
            match parse_template(self.source@) {
                Ok(s) => r matches Ok(v) && segments_view(v@) == s,
                Err(e) => r matches Err(x) && x@ == e,
            },
    {
        let ghost src = self.source@;
        let mut p = self;
        let n = p.source.len();
        assert(segments_view(p.output@) =~= Seq::<SegmentView>::empty());
        assert(prepend(Seq::empty(), parse_from(src, 0)) =~= parse_from(src, 0)) by {
            if let Ok(s) = parse_from(src, 0) {
                assert(Seq::<SegmentView>::empty() + s =~= s);
            }
        }
        loop
            invariant
                p.source@ == src,
                self.source@ == src,
                n == src.len(),
                p.pos <= n,
                parse_template(src) == prepend(segments_view(p.output@), parse_from(src, p.pos as int)),
            decreases n - p.pos,
        {
            let ghost out0 = segments_view(p.output@);
            let ghost start = p.pos as int;
            if p.pos >= n {
                assert(out0 + Seq::<SegmentView>::empty() =~= out0);
                return Ok(p.output);
            }
            proof {
                lemma_literal_advances(src, start);
            }
            match p.parse_literal() {
                Err(e) => {
                    return Err(e);
                },
                Ok(()) => {},
            }
            if p.pos >= n {
                return Ok(p.output);
            }
            let ghost out1 = segments_view(p.output@);
            let ghost j = p.pos as int;
            proof {
                lemma_capture_advances(src, j);
            }
            match p.parse_capture() {
                Err(e) => {
                    return Err(e);
                },
                Ok(()) => {},
            }
            proof {
                let text = scan_literal(src, start)->Ok_0.0;
                let c = scan_capture(src, j)->Ok_0.0;
                if let Ok(rest) = parse_from(src, p.pos as int) {
                    assert(out0 + (literal_segments(text) + seq![c] + rest) =~= out1.push(c)
                        + rest);
                }
            }
        }
    }
}

/// Parses a template into its literal and capture segments.
///
/// The template is rejected as a whole at the first error.
pub fn parse_format_string(template: &str) -> (r: Result<Vec<Segment>, TemplateError>)
    ensures
        match parse_template(template@) {
            Ok(s) => r matches Ok(v) && segments_view(v@) == s,
            Err(e) => r matches Err(x) && x@ == e,
        },
{
    FormatStringParser::new(template).parse()
}

} // verus!
