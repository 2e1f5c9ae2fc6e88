//! The textual form of a rule list.
//!
//! Entries are separated by commas (a trailing comma is allowed) and may be
//! surrounded by whitespace. Each entry is optionally prefixed `name =` and is
//! either a bare type name, which takes the registry's pattern, or a pattern
//! followed by `as` and a type name, or by `as _` for a rule without a type.
//! A pattern is written `"..."` (with the escapes `\\`, `\"`, `\n` and `\t`)
//! or raw as `r"..."`. Type names are `bool`, `char`, `String`, the integer
//! types `i8` to `usize`, and `Binary<K>`, `Octal<K>`, `Hex<K>` for an
//! integer type `K`.
use vstd::prelude::*;
use vstd::string::StrSliceExecFns;
use crate::rules::{Arg, ArgError, IntKind, Radix, Rule, RuleList, ValueType, first_misplaced, sorted_args};
use crate::template::{chars_of, is_alpha, is_alpha_char, is_digit, is_digit_char, push_char, string_of};

verus! {

/// Why a textual rule list was rejected.
#[derive(Clone, Copy, Debug, PartialEq, Eq, Structural)]
pub enum RuleListError {
    /// The text cannot be read at this character index.
    Syntax { at: usize },
    /// The entry at this index is positional but follows a named one.
    PositionalAfterNamed { index: usize },
}

/// A rule as the contracts see it.
pub enum RuleView {
    Null(Seq<char>),
    Default(ValueType),
    Custom(Seq<char>, ValueType),
}

/// An entry as the contracts see it: its name, if any, and its rule.
pub struct ArgView {
    pub name: Option<Seq<char>>,
    pub rule: RuleView,
}

pub open spec fn rule_view(r: Rule) -> RuleView {
    match r {
        Rule::Null { pattern } => RuleView::Null(pattern@),
        Rule::Default { typ } => RuleView::Default(typ),
        Rule::Custom { pattern, typ } => RuleView::Custom(pattern@, typ),
    }
}

pub open spec fn arg_view(a: Arg) -> ArgView {
    ArgView {
        name: match a.name {
            Some(n) => Some(n@),
            None => None,
        },
        rule: rule_view(a.rule),
    }
}

pub open spec fn is_space(c: char) -> bool {
    c == ' ' || c == '\t' || c == '\n' || c == '\r'
}

pub open spec fn is_ident_char(c: char) -> bool {
    c == '_' || is_alpha(c) || is_digit(c)
}

/// The first index at or after `i` that is not whitespace.
pub open spec fn skip_ws(t: Seq<char>, i: int) -> int
    decreases t.len() - i,
{
    if i < 0 || i >= t.len() || !is_space(t[i]) {
        i
    } else {
        skip_ws(t, i + 1)
    }
}

/// The first index at or after `i` that cannot continue an identifier.
pub open spec fn ident_run(t: Seq<char>, i: int) -> int
    decreases t.len() - i,
{
    if i < 0 || i >= t.len() || !is_ident_char(t[i]) {
        i
    } else {
        ident_run(t, i + 1)
    }
}

/// The end of the identifier starting at `i`, or `i` when none starts there.
pub open spec fn ident_end(t: Seq<char>, i: int) -> int {
    if 0 <= i < t.len() && (t[i] == '_' || is_alpha(t[i])) {
        ident_run(t, i)
    } else {
        i
    }
}

pub open spec fn int_kind_named(w: Seq<char>) -> Option<IntKind> {
    if w == "i8"@ {
        Some(IntKind::I8)
    } else if w == "i16"@ {
        Some(IntKind::I16)
    } else if w == "i32"@ {
        Some(IntKind::I32)
    } else if w == "i64"@ {
        Some(IntKind::I64)
    } else if w == "i128"@ {
        Some(IntKind::I128)
    } else if w == "isize"@ {
        Some(IntKind::Isize)
    } else if w == "u8"@ {
        Some(IntKind::U8)
    } else if w == "u16"@ {
        Some(IntKind::U16)
    } else if w == "u32"@ {
        Some(IntKind::U32)
    } else if w == "u64"@ {
        Some(IntKind::U64)
    } else if w == "u128"@ {
        Some(IntKind::U128)
    } else if w == "usize"@ {
        Some(IntKind::Usize)
    } else {
        None
    }
}

pub open spec fn radix_named(w: Seq<char>) -> Option<Radix> {
    if w == "Binary"@ {
        Some(Radix::Binary)
    } else if w == "Octal"@ {
        Some(Radix::Octal)
    } else if w == "Hex"@ {
        Some(Radix::Hex)
    } else {
        None
    }
}

/// The type named at `i` and the index just past it.
pub open spec fn type_at(t: Seq<char>, i: int) -> Option<(ValueType, int)> {
    let e = ident_end(t, i);
    let w = t.subrange(i, e);
    if e == i {
        None
    } else if w == "bool"@ {
        Some((ValueType::Bool, e))
    } else if w == "char"@ {
        Some((ValueType::Char, e))
    } else if w == "String"@ {
        Some((ValueType::Str, e))
    } else if int_kind_named(w) is Some {
        Some((ValueType::Int(int_kind_named(w)->0, Radix::Decimal), e))
    } else if radix_named(w) is Some {
        let j = skip_ws(t, e);
        let k = skip_ws(t, j + 1);
        let m = ident_end(t, k);
        let n = skip_ws(t, m);
        if j < t.len() && t[j] == '<' && int_kind_named(t.subrange(k, m)) is Some && n < t.len()
            && t[n] == '>' {
            Some((ValueType::Int(int_kind_named(t.subrange(k, m))->0, radix_named(w)->0), n + 1))
        } else {
            None
        }
    } else {
        None
    }
}

/// The body of a quoted pattern from `i` on, unescaped, and the index just
/// past its closing quote.
pub open spec fn quoted_from(t: Seq<char>, i: int) -> Option<(Seq<char>, int)>
    decreases t.len() - i,
{
    if i < 0 || i >= t.len() {
        None
    } else if t[i] == '"' {
        Some((Seq::empty(), i + 1))
    } else if t[i] == '\\' {
        if i + 1 >= t.len() {
            None
        } else {
            let c = t[i + 1];
            let u = if c == 'n' {
                '\n'
            } else if c == 't' {
                '\t'
            } else {
                c
            };
            if c == '\\' || c == '"' || c == 'n' || c == 't' {
                match quoted_from(t, i + 2) {
                    Some((s, j)) => Some((seq![u] + s, j)),
                    None => None,
                }
            } else {
                None
            }
        }
    } else {
        match quoted_from(t, i + 1) {
            Some((s, j)) => Some((seq![t[i]] + s, j)),
            None => None,
        }
    }
}

/// The index of the first `"` at or after `i`, if any.
pub open spec fn raw_close(t: Seq<char>, i: int) -> Option<int>
    decreases t.len() - i,
{
    if i < 0 || i >= t.len() {
        None
    } else if t[i] == '"' {
        Some(i)
    } else {
        raw_close(t, i + 1)
    }
}

/// The pattern written at `i` and the index just past it.
pub open spec fn pattern_at(t: Seq<char>, i: int) -> Option<(Seq<char>, int)> {
    if 0 <= i && i + 1 < t.len() && t[i] == 'r' && t[i + 1] == '"' {
        match raw_close(t, i + 2) {
            Some(c) => Some((t.subrange(i + 2, c), c + 1)),
            None => None,
        }
    } else if 0 <= i < t.len() && t[i] == '"' {
        quoted_from(t, i + 1)
    } else {
        None
    }
}

/// The rule written at `i` (after any name) and the index just past it, or
/// the index at which it cannot be read.
pub open spec fn rule_at(t: Seq<char>, i: int) -> Result<(RuleView, int), int> {
    match type_at(t, i) {
        Some((ty, e)) => Ok((RuleView::Default(ty), e)),
        None => match pattern_at(t, i) {
            None => Err(i),
            Some((p, e)) => {
                let j = skip_ws(t, e);
                let k = skip_ws(t, j + 2);
                if !(j + 2 <= t.len() && t.subrange(j, j + 2) == "as"@ && (j + 2 == t.len()
                    || !is_ident_char(t[j + 2]))) {
                    Err(j)
                } else if k < t.len() && t[k] == '_' && (k + 1 == t.len() || !is_ident_char(
                    t[k + 1],
                )) {
                    Ok((RuleView::Null(p), k + 1))
                } else {
                    match type_at(t, k) {
                        Some((ty, e2)) => Ok((RuleView::Custom(p, ty), e2)),
                        None => Err(k),
                    }
                }
            },
        },
    }
}

/// The entry written at `i` and the index just past it, or the index at
/// which it cannot be read.
pub open spec fn entry_at(t: Seq<char>, i: int) -> Result<(ArgView, int), int> {
    let e = ident_end(t, i);
    let j = skip_ws(t, e);
    if e > i && j < t.len() && t[j] == '=' {
        match rule_at(t, skip_ws(t, j + 1)) {
            Ok((r, k)) => Ok((ArgView { name: Some(t.subrange(i, e)), rule: r }, k)),
            Err(p) => Err(p),
        }
    } else {
        match rule_at(t, i) {
            Ok((r, k)) => Ok((ArgView { name: None, rule: r }, k)),
            Err(p) => Err(p),
        }
    }
}

/// The entries written from index `i` on, or the index at which the text
/// cannot be read.
pub open spec fn list_from(t: Seq<char>, i: int) -> Result<Seq<ArgView>, int>
    decreases t.len() - i,
{
    let s = skip_ws(t, i);
    if i < 0 || s >= t.len() {
        Ok(Seq::empty())
    } else {
        match entry_at(t, s) {
            Err(p) => Err(p),
            Ok((a, e)) => {
                proof {
                    lemma_skip_ws(t, i);
                    lemma_entry_at(t, s);
                }
                let j = skip_ws(t, e);
                if j >= t.len() {
                    Ok(seq![a])
                } else if t[j] == ',' {
                    proof {
                        lemma_skip_ws(t, e);
                    }
                    match list_from(t, j + 1) {
                        Ok(rest) => Ok(seq![a] + rest),
                        Err(p) => Err(p),
                    }
                } else {
                    Err(j)
                }
            },
        }
    }
}

pub proof fn lemma_skip_ws(t: Seq<char>, i: int)
    requires
        0 <= i,
    ensures
        i <= skip_ws(t, i),
        i <= t.len() ==> skip_ws(t, i) <= t.len(),
    decreases t.len() - i,
{
    if i < t.len() && is_space(t[i]) {
        lemma_skip_ws(t, i + 1);
    }
}

pub proof fn lemma_ident_run(t: Seq<char>, i: int)
    requires
        0 <= i,
    ensures
        i <= ident_run(t, i),
        i <= t.len() ==> ident_run(t, i) <= t.len(),
    decreases t.len() - i,
{
    if i < t.len() && is_ident_char(t[i]) {
        lemma_ident_run(t, i + 1);
    }
}

pub proof fn lemma_ident_end(t: Seq<char>, i: int)
    requires
        0 <= i <= t.len(),
    ensures
        i <= ident_end(t, i) <= t.len(),
        ident_end(t, i) > i <==> (i < t.len() && (t[i] == '_' || is_alpha(t[i]))),
{
    if i < t.len() && (t[i] == '_' || is_alpha(t[i])) {
        lemma_ident_run(t, i + 1);
    }
}

pub proof fn lemma_type_at(t: Seq<char>, i: int)
    requires
        0 <= i <= t.len(),
    ensures
        type_at(t, i) matches Some((_, e)) ==> i < e <= t.len(),
{
    lemma_ident_end(t, i);
    let e = ident_end(t, i);
    lemma_skip_ws(t, e);
    let j = skip_ws(t, e);
    if j < t.len() {
        lemma_skip_ws(t, j + 1);
        let k = skip_ws(t, j + 1);
        lemma_ident_end(t, k);
        lemma_skip_ws(t, ident_end(t, k));
    }
}

pub proof fn lemma_quoted(t: Seq<char>, i: int)
    requires
        0 <= i,
    ensures
        quoted_from(t, i) matches Some((_, j)) ==> i < j <= t.len(),
    decreases t.len() - i,
{
    if i < t.len() && t[i] != '"' {
        if t[i] == '\\' {
            if i + 1 < t.len() {
                lemma_quoted(t, i + 2);
            }
        } else {
            lemma_quoted(t, i + 1);
        }
    }
}

pub proof fn lemma_raw_close(t: Seq<char>, i: int)
    requires
        0 <= i,
    ensures
        raw_close(t, i) matches Some(c) ==> i <= c < t.len() && t[c] == '"',
        raw_close(t, i) is None ==> forall|k: int| i <= k < t.len() ==> t[k] != '"',
        raw_close(t, i) matches Some(c) ==> forall|k: int| i <= k < c ==> t[k] != '"',
    decreases t.len() - i,
{
    if i < t.len() && t[i] != '"' {
        lemma_raw_close(t, i + 1);
    }
}

pub proof fn lemma_rule_at(t: Seq<char>, i: int)
    requires
        0 <= i <= t.len(),
    ensures
        rule_at(t, i) matches Ok((_, e)) ==> i < e <= t.len(),
        rule_at(t, i) matches Err(p) ==> 0 <= p <= t.len(),
{
    lemma_type_at(t, i);
    if i + 1 < t.len() && t[i] == 'r' && t[i + 1] == '"' {
        lemma_raw_close(t, i + 2);
    } else if i < t.len() {
        lemma_quoted(t, i + 1);
    }
    if let Some((p, e)) = pattern_at(t, i) {
        lemma_skip_ws(t, e);
        let j = skip_ws(t, e);
        if j + 2 <= t.len() {
            lemma_skip_ws(t, j + 2);
            lemma_type_at(t, skip_ws(t, j + 2));
        }
    }
}

pub proof fn lemma_entry_at(t: Seq<char>, i: int)
    requires
        0 <= i <= t.len(),
    ensures
        entry_at(t, i) matches Ok((_, e)) ==> i < e <= t.len(),
        entry_at(t, i) matches Err(p) ==> 0 <= p <= t.len(),
{
    lemma_ident_end(t, i);
    let e = ident_end(t, i);
    lemma_skip_ws(t, e);
    let j = skip_ws(t, e);
    lemma_rule_at(t, i);
    if j < t.len() {
        lemma_skip_ws(t, j + 1);
        lemma_rule_at(t, skip_ws(t, j + 1));
    }
}

pub open spec fn arg_views(v: Seq<Arg>) -> Seq<ArgView> {
    v.map_values(|a: Arg| arg_view(a))
}

pub open spec fn prefix_text(p: Seq<char>, r: Option<(Seq<char>, int)>) -> Option<(Seq<char>, int)> {
    match r {
        Some((s, j)) => Some((p + s, j)),
        None => None,
    }
}

pub open spec fn prepend_args(p: Seq<ArgView>, r: Result<Seq<ArgView>, int>) -> Result<
    Seq<ArgView>,
    int,
> {
    match r {
        Ok(s) => Ok(p + s),
        Err(e) => Err(e),
    }
}

proof fn lemma_prefix_push(p: Seq<char>, c: char, r: Option<(Seq<char>, int)>)
    ensures
        prefix_text(p, prefix_text(seq![c], r)) == prefix_text(p.push(c), r),
{
    if let Some((s, j)) = r {
        assert(p + (seq![c] + s) =~= p.push(c) + s);
    }
}

fn is_space_char(c: char) -> (r: bool)
    ensures
        r == is_space(c),
{
    c == ' ' || c == '\t' || c == '\n' || c == '\r'
}

fn is_ident_char_exec(c: char) -> (r: bool)
    ensures
        r == is_ident_char(c),
{
    c == '_' || is_alpha_char(c) || is_digit_char(c)
}

fn skip_spaces(src: &Vec<char>, from: usize) -> (r: usize)
    requires
        from <= src@.len(),
    ensures
        r == skip_ws(src@, from as int),
        from <= r <= src@.len(),
{
    let mut i = from;
    while i < src.len() && is_space_char(src[i])
        invariant
            from <= i <= src@.len(),
            skip_ws(src@, from as int) == skip_ws(src@, i as int),
        decreases src@.len() - i,
    {
        i = i + 1;
    }
    i
}

fn ident_end_at(src: &Vec<char>, from: usize) -> (r: usize)
    requires
        from <= src@.len(),
    ensures
        r == ident_end(src@, from as int),
        from <= r <= src@.len(),
{
    proof {
        lemma_ident_end(src@, from as int);
    }
    if from < src.len() && (src[from] == '_' || is_alpha_char(src[from])) {
        let mut i = from;
        while i < src.len() && is_ident_char_exec(src[i])
            invariant
                from <= i <= src@.len(),
                ident_run(src@, from as int) == ident_run(src@, i as int),
            decreases src@.len() - i,
        {
            i = i + 1;
        }
        i
    } else {
        from
    }
}

/// Whether `src[from..to]` is the word `w`.
fn word_is(src: &Vec<char>, from: usize, to: usize, w: &str) -> (r: bool)
    requires
        from <= to <= src@.len(),
    ensures
        r == (src@.subrange(from as int, to as int) == w@),
{
    let n = w.unicode_len();
    if to - from != n {
        return false;
    }
    let mut i: usize = 0;
    while i < n
        invariant
            n == w@.len(),
            to - from == n,
            from <= to <= src@.len(),
            i <= n,
            forall|j: int| 0 <= j < i ==> src@[from + j] == w@[j],
        decreases n - i,
    {
        if src[from + i] != w.get_char(i) {
            assert(src@.subrange(from as int, to as int)[i as int] != w@[i as int]);
            return false;
        }
        i = i + 1;
    }
    assert(src@.subrange(from as int, to as int) =~= w@);
    true
}

fn int_kind_word(src: &Vec<char>, from: usize, to: usize) -> (r: Option<IntKind>)
    requires
        from <= to <= src@.len(),
    ensures
        r == int_kind_named(src@.subrange(from as int, to as int)),
{
    if word_is(src, from, to, "i8") {
        Some(IntKind::I8)
    } else if word_is(src, from, to, "i16") {
        Some(IntKind::I16)
    } else if word_is(src, from, to, "i32") {
        Some(IntKind::I32)
    } else if word_is(src, from, to, "i64") {
        Some(IntKind::I64)
    } else if word_is(src, from, to, "i128") {
        Some(IntKind::I128)
    } else if word_is(src, from, to, "isize") {
        Some(IntKind::Isize)
    } else if word_is(src, from, to, "u8") {
        Some(IntKind::U8)
    } else if word_is(src, from, to, "u16") {
        Some(IntKind::U16)
    } else if word_is(src, from, to, "u32") {
        Some(IntKind::U32)
    } else if word_is(src, from, to, "u64") {
        Some(IntKind::U64)
    } else if word_is(src, from, to, "u128") {
        Some(IntKind::U128)
    } else if word_is(src, from, to, "usize") {
        Some(IntKind::Usize)
    } else {
        None
    }
}

fn radix_word(src: &Vec<char>, from: usize, to: usize) -> (r: Option<Radix>)
    requires
        from <= to <= src@.len(),
    ensures
        r == radix_named(src@.subrange(from as int, to as int)),
{
    if word_is(src, from, to, "Binary") {
        Some(Radix::Binary)
    } else if word_is(src, from, to, "Octal") {
        Some(Radix::Octal)
    } else if word_is(src, from, to, "Hex") {
        Some(Radix::Hex)
    } else {
        None
    }
}

fn read_type(src: &Vec<char>, i: usize) -> (r: Option<(ValueType, usize)>)
    requires
        i <= src@.len(),
    ensures
        match type_at(src@, i as int) {
            Some((ty, e)) => r == Some((ty, e as usize)),
            None => r is None,
        },
        r matches Some((_, e)) ==> i < e <= src@.len(),
{
    proof {
        lemma_type_at(src@, i as int);
    }
    let n = src.len();
    let e = ident_end_at(src, i);
    if e == i {
        return None;
    }
    if word_is(src, i, e, "bool") {
        return Some((ValueType::Bool, e));
    }
    if word_is(src, i, e, "char") {
        return Some((ValueType::Char, e));
    }
    if word_is(src, i, e, "String") {
        return Some((ValueType::Str, e));
    }
    if let Some(k) = int_kind_word(src, i, e) {
        return Some((ValueType::Int(k, Radix::Decimal), e));
    }
    let radix = match radix_word(src, i, e) {
        Some(r) => r,
        None => {
            return None;
        },
    };
    let j = skip_spaces(src, e);
    if !(j < n && src[j] == '<') {
        return None;
    }
    let k = skip_spaces(src, j + 1);
    let m = ident_end_at(src, k);
    let kind = match int_kind_word(src, k, m) {
        Some(kind) => kind,
        None => {
            return None;
        },
    };
    let close = skip_spaces(src, m);
    if close < n && src[close] == '>' {
        Some((ValueType::Int(kind, radix), close + 1))
    } else {
        None
    }
}

fn read_quoted(src: &Vec<char>, from: usize) -> (r: Option<(String, usize)>)
    requires
        from <= src@.len(),
    ensures
        match quoted_from(src@, from as int) {
            Some((s, j)) => r matches Some((x, e)) && x@ == s && e == j,
            None => r is None,
        },
{
    let ghost t = src@;
    let n = src.len();
    let mut acc = String::new();
    let mut i = from;
    assert(prefix_text(acc@, quoted_from(t, i as int)) == quoted_from(t, i as int)) by {
        if let Some((s, j)) = quoted_from(t, i as int) {
            assert(acc@ + s =~= s);
        }
    }
    loop
        invariant
            t == src@,
            n == t.len(),
            from <= i <= n,
            quoted_from(t, from as int) == prefix_text(acc@, quoted_from(t, i as int)),
        decreases n - i,
    {
        if i >= n {
            return None;
        }
        let c = src[i];
        if c == '"' {
            assert(acc@ + Seq::<char>::empty() =~= acc@);
            return Some((acc, i + 1));
        }
        if c == '\\' {
            if i + 1 >= n {
                return None;
            }
            let d = src[i + 1];
            if !(d == '\\' || d == '"' || d == 'n' || d == 't') {
                return None;
            }
            let u = if d == 'n' {
                '\n'
            } else if d == 't' {
                '\t'
            } else {
                d
            };
            proof {
                lemma_prefix_push(acc@, u, quoted_from(t, i + 2));
            }
            push_char(&mut acc, u);
            i = i + 2;
        } else {
            proof {
                lemma_prefix_push(acc@, c, quoted_from(t, i + 1));
            }
            push_char(&mut acc, c);
            i = i + 1;
        }
    }
}

fn read_pattern(src: &Vec<char>, i: usize) -> (r: Option<(String, usize)>)
    requires
        i <= src@.len(),
    ensures
        match pattern_at(src@, i as int) {
            Some((s, j)) => r matches Some((x, e)) && x@ == s && e == j,
            None => r is None,
        },
{
    let n = src.len();
    if i < n && n - i > 1 && src[i] == 'r' && src[i + 1] == '"' {
        let mut c = i + 2;
        while c < n && src[c] != '"'
            invariant
                i + 2 <= c <= n == src@.len(),
                raw_close(src@, (i + 2) as int) == raw_close(src@, c as int),
            decreases n - c,
        {
            c = c + 1;
        }
        if c >= n {
            return None;
        }
        Some((string_of(src, i + 2, c), c + 1))
    } else if i < n && src[i] == '"' {
        read_quoted(src, i + 1)
    } else {
        None
    }
}

fn read_rule(src: &Vec<char>, i: usize) -> (r: Result<(Rule, usize), usize>)
    requires
        i <= src@.len(),
    ensures
        match rule_at(src@, i as int) {
            Ok((v, e)) => r matches Ok((x, f)) && rule_view(x) == v && f == e,
            Err(p) => r == Err::<(Rule, usize), usize>(p as usize),
        },
{
    proof {
        lemma_rule_at(src@, i as int);
    }
    let n = src.len();
    if let Some((ty, e)) = read_type(src, i) {
        return Ok((Rule::Default { typ: ty }, e));
    }
    let (p, e) = match read_pattern(src, i) {
        Some(x) => x,
        None => {
            return Err(i);
        },
    };
    proof {
        if i + 1 < n && src@[i as int] == 'r' && src@[i + 1] == '"' {
            lemma_raw_close(src@, i + 2);
        } else {
            lemma_quoted(src@, i + 1);
        }
    }
    let j = skip_spaces(src, e);
    let as_ok = j < n && n - j >= 2 && word_is(src, j, j + 2, "as") && (j + 2 == n
        || !is_ident_char_exec(src[j + 2]));
    if !as_ok {
        return Err(j);
    }
    let k = skip_spaces(src, j + 2);
    if k < n && src[k] == '_' && (k + 1 == n || !is_ident_char_exec(src[k + 1])) {
        return Ok((Rule::Null { pattern: p }, k + 1));
    }
    match read_type(src, k) {
        Some((ty, e2)) => Ok((Rule::Custom { pattern: p, typ: ty }, e2)),
        None => Err(k),
    }
}

fn read_entry(src: &Vec<char>, i: usize) -> (r: Result<(Arg, usize), usize>)
    requires
        i <= src@.len(),
    ensures
        match entry_at(src@, i as int) {
            Ok((v, e)) => r matches Ok((x, f)) && arg_view(x) == v && f == e,
            Err(p) => r == Err::<(Arg, usize), usize>(p as usize),
        },
{
    let n = src.len();
    let e = ident_end_at(src, i);
    let j = skip_spaces(src, e);
    if e > i && j < n && src[j] == '=' {
        let start = skip_spaces(src, j + 1);
        match read_rule(src, start) {
            Ok((rule, k)) => Ok((Arg { name: Some(string_of(src, i, e)), rule }, k)),
            Err(p) => Err(p),
        }
    } else {
        match read_rule(src, i) {
            Ok((rule, k)) => Ok((Arg { name: None, rule }, k)),
            Err(p) => Err(p),
        }
    }
}

/// Reads the entries of a rule list written as text, in order, or the
/// character index at which the text cannot be read.
pub fn parse_args(text: &str) -> (r: Result<Vec<Arg>, usize>)
    ensures
        match list_from(text@, 0) {
            Ok(v) => r matches Ok(args) && arg_views(args@) == v,
            Err(p) => r == Err::<Vec<Arg>, usize>(p as usize),
        },
{
    let src = chars_of(text);
    let ghost t = src@;
    let n = src.len();
    let mut out: Vec<Arg> = Vec::new();
    let mut i: usize = 0;
    assert(prepend_args(arg_views(out@), list_from(t, 0)) == list_from(t, 0)) by {
        if let Ok(s) = list_from(t, 0) {
            assert(arg_views(out@) + s =~= s);
        }
    }
    loop
        invariant
            t == src@,
            t == text@,
            n == t.len(),
            i <= n,
            list_from(t, 0) == prepend_args(arg_views(out@), list_from(t, i as int)),
        decreases n - i,
    {
        let ghost before = arg_views(out@);
        let s = skip_spaces(&src, i);
        if s >= n {
            assert(before + Seq::<ArgView>::empty() =~= before);
            return Ok(out);
        }
        proof {
            lemma_entry_at(t, s as int);
        }
        match read_entry(&src, s) {
            Err(p) => {
                return Err(p);
            },
            Ok((a, e)) => {
                let ghost av = arg_view(a);
                out.push(a);
                assert(arg_views(out@) =~= before.push(av));
                let j = skip_spaces(&src, e);
                if j >= n {
                    assert(before + seq![av] =~= before.push(av));
                    return Ok(out);
                }
                if src[j] == ',' {
                    proof {
                        if let Ok(rest) = list_from(t, j + 1) {
                            assert(before + (seq![av] + rest) =~= before.push(av) + rest);
                        }
                    }
                    i = j + 1;
                } else {
                    return Err(j);
                }
            },
        }
    }
}

/// `r` is what sorting the entries `args` into a rule list gives.
pub open spec fn sorted_outcome(args: Seq<Arg>, r: Result<RuleList, RuleListError>) -> bool {
    match r {
        Ok(list) => first_misplaced(args) is None && sorted_args(args, list),
        Err(RuleListError::PositionalAfterNamed { index }) => first_misplaced(args) == Some(
            index as int,
        ),
        Err(RuleListError::Syntax { .. }) => false,
    }
}

/// Reads a rule list written as text and sorts its entries into positional
/// and named rules; a positional entry after a named one is an error.
pub fn parse_rule_list(text: &str) -> (r: Result<RuleList, RuleListError>)
    ensures
        list_from(text@, 0) matches Err(p) ==> r == Err::<RuleList, RuleListError>(
            RuleListError::Syntax { at: p as usize },
        ),
        list_from(text@, 0) matches Ok(v) ==> exists|args: Seq<Arg>|
            arg_views(args) == v && #[trigger] sorted_outcome(args, r),
        r matches Ok(list) ==> list.len() <= usize::MAX,
{
    let args = match parse_args(text) {
        Ok(a) => a,
        Err(p) => {
            return Err(RuleListError::Syntax { at: p });
        },
    };
    let ghost seen = args@;
    let count = args.len();
    assert(seen.len() == count);
    let r = match RuleList::from_args(args) {
        Ok(list) => Ok(list),
        Err(ArgError::PositionalAfterNamed { index }) => Err(
            RuleListError::PositionalAfterNamed { index },
        ),
    };
    assert(sorted_outcome(seen, r));
    r
}

} // verus!
