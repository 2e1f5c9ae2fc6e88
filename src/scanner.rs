//! The scanner: a plan whose patterns are compiled once, executed against
//! input as often as wanted.
use vstd::prelude::*;
use vstd::string::StringSliceAdditionalSpecFns;
use vstd::utf8::*;
use crate::bind::{
    BindFault,
    ResolvedSegment,
    ResolvedView,
    ScanPlan,
    bind,
    faults_view,
    is_bind_fault,
    opt_int,
    output_count,
    resolves_to,
    rule_at,
    slot_at,
    slot_filled,
};
use crate::engine::{
    CompiledPattern,
    advance_from_regex,
    lemma_available_prefix,
    match_literal,
    match_end,
    match_regex,
    regex_compiles,
    regex_find,
};
use crate::error::{Error, PatternError, ScanError};
use crate::partial_result::PartialResult;
use crate::reader::{ByteReader, line_of, line_taken, read_line};
use crate::rulelist::{RuleListError, arg_views, list_from, parse_rule_list, sorted_outcome};
use crate::rules::{Arg, Rule, RuleList, ValueType, first_misplaced, rule_pattern, sorted_args};
use crate::template::{TemplateError, parse_format_string, parse_template};
use crate::utf8::{lemma_valid_prefix, utf8_prefix_outcome, valid_prefix_len};
use crate::values::{Value, ValueView, parse_value, value_outcome};

verus! {

/// The type a rule's text is read as (rules without a type have none; the
/// boolean stands in for it).
pub open spec fn rule_type(r: Rule) -> ValueType {
    match r {
        Rule::Default { typ } => typ,
        Rule::Custom { typ, .. } => typ,
        Rule::Null { .. } => ValueType::Bool,
    }
}

fn rule_value_type(r: &Rule) -> (t: ValueType)
    ensures
        t == rule_type(*r),
{
    match r {
        Rule::Default { typ } => *typ,
        Rule::Custom { typ, .. } => *typ,
        Rule::Null { .. } => ValueType::Bool,
    }
}

/// Whether every rule's pattern compiles.
pub open spec fn all_compile(rules: Seq<Rule>) -> bool {
    forall|r: int| 0 <= r < rules.len() ==> regex_compiles(#[trigger] rule_pattern(rules[r]))
}

/// The pieces of input, one after the other.
pub open spec fn spelled(pieces: Seq<Seq<u8>>) -> Seq<u8>
    decreases pieces.len(),
{
    if pieces.len() == 0 {
        Seq::empty()
    } else {
        spelled(pieces.drop_last()) + pieces.last()
    }
}

/// `piece` is what `pattern` matched at the very start of a well-formed
/// window `w` at the start of `input`.
pub open spec fn matched_at_start(pattern: Seq<char>, piece: Seq<u8>, input: Seq<u8>) -> bool {
    exists|w: Seq<u8>|
        valid_utf8(w) && w.is_prefix_of(input) && piece.is_prefix_of(w) && #[trigger] regex_find(
            pattern,
            decode_utf8(w),
        ) == Some((0int, piece.len() as int))
}

/// Segment `k` of the plan consumed `pieces[k]` of `input`: its literal's
/// bytes, or what its pattern matched; a capture that keeps a value put the
/// reading of its text in `values` at its slot.
pub open spec fn piece_ok(
    plan: ScanPlan,
    input: Seq<u8>,
    pieces: Seq<Seq<u8>>,
    values: Seq<Option<ValueView>>,
    k: int,
) -> bool {
    match plan.segs()[k] {
        ResolvedView::Literal(t) => pieces[k] == encode_utf8(t),
        ResolvedView::Capture(slot, r) => matched_at_start(
            rule_pattern(plan.rules@[r as int]),
            pieces[k],
            input.skip(spelled(pieces.take(k)).len() as int),
        ) && (slot matches Some(s) ==> value_outcome(
            decode_utf8(pieces[k]),
            rule_type(plan.rules@[r as int]),
        ) == Ok::<ValueView, crate::values::ParseValueError>(values[s as int]->0)),
    }
}

/// A successful run of `plan` over `input`: one piece per segment, each as
/// `piece_ok` says, every slot filled.
pub open spec fn scan_trace(
    plan: ScanPlan,
    input: Seq<u8>,
    pieces: Seq<Seq<u8>>,
    values: Seq<Option<ValueView>>,
) -> bool {
    &&& pieces.len() == plan.segs().len()
    &&& values.len() == plan.outputs
    &&& forall|s: int| 0 <= s < values.len() ==> #[trigger] values[s] is Some
    &&& forall|k: int| 0 <= k < pieces.len() ==> #[trigger] piece_ok(plan, input, pieces, values, k)
}

/// `values` are what a run of `plan` yields when it turns the input `before`
/// into `after`: the input consumed splits into pieces as `scan_trace` says.
pub open spec fn scan_succeeded(
    plan: ScanPlan,
    before: Seq<u8>,
    after: Seq<u8>,
    values: Seq<Option<ValueView>>,
) -> bool {
    exists|pieces: Seq<Seq<u8>>|
        #[trigger] scan_trace(plan, before, pieces, values) && before == spelled(pieces) + after
}

/// `values` are what some successful run of `plan` yields.
pub open spec fn is_scan_result(plan: ScanPlan, values: Seq<Value>) -> bool {
    exists|before: Seq<u8>, after: Seq<u8>|
        #[trigger] scan_succeeded(plan, before, after, some_views(values))
}

pub open spec fn some_views(v: Seq<Value>) -> Seq<Option<ValueView>> {
    v.map_values(|x: Value| Some(x@))
}

/// Where a match found by `regex_find` starts.
pub open spec fn match_start(found: Option<(int, int)>) -> int {
    match found {
        Some((b, _)) => b,
        None => -1,
    }
}

/// The run of segments `k..` of `plan` over input `rest` that the whole input
/// is buffered for, with `vals` the slots filled so far: literals must follow
/// byte for byte; a capture's pattern is searched in the longest well-formed
/// prefix of the rest and must match at its start, and a kept text must read
/// as its rule's type. `None` when a segment fails.
pub open spec fn run_from(
    plan: ScanPlan,
    k: int,
    rest: Seq<u8>,
    vals: Seq<Option<ValueView>>,
) -> Option<(Seq<Option<ValueView>>, Seq<u8>)>
    decreases plan.segs().len() - k,
{
    if k < 0 || k >= plan.segs().len() {
        Some((vals, rest))
    } else {
        match plan.segs()[k] {
            ResolvedView::Literal(t) => if encode_utf8(t).is_prefix_of(rest) {
                run_from(plan, k + 1, rest.skip(encode_utf8(t).len() as int), vals)
            } else {
                None
            },
            ResolvedView::Capture(slot, r) => match utf8_prefix_outcome(rest) {
                Err(_) => None,
                Ok(n) => {
                    let window = rest.take(n as int);
                    let found = regex_find(rule_pattern(plan.rules@[r as int]), decode_utf8(window));
                    let e = match_end(found);
                    if found is Some && match_start(found) == 0 && 0 <= e <= n {
                        match slot {
                            Some(s) => match value_outcome(
                                decode_utf8(window.take(e)),
                                rule_type(plan.rules@[r as int]),
                            ) {
                                Ok(v) => run_from(plan, k + 1, rest.skip(e), vals.update(s as int, Some(v))),
                                Err(_) => None,
                            },
                            None => run_from(plan, k + 1, rest.skip(e), vals),
                        }
                    } else {
                        None
                    }
                },
            },
        }
    }
}

/// The run of the whole plan over `input`: the values and what is left.
pub open spec fn run_scan(plan: ScanPlan, input: Seq<u8>) -> Option<(Seq<Option<ValueView>>, Seq<u8>)> {
    run_from(plan, 0, input, Seq::new(plan.outputs as nat, |i: int| None::<ValueView>))
}

/// `res` is what scanning `input` (all of it buffered) with `plan` gives:
/// an error for a pattern that does not compile, else the run's values or,
/// when the run fails, an error.
pub open spec fn scan_result_for(plan: ScanPlan, input: Seq<u8>, res: Result<Vec<Value>, Error>) -> bool {
    if !all_compile(plan.rules@) {
        res matches Err(Error::RegexError(_))
    } else {
        match run_scan(plan, input) {
            Some((vals, _)) => res matches Ok(v) && some_views(v@) == vals,
            None => res is Err,
        }
    }
}

/// The rest of `input` after a successful run, or `input` itself.
pub open spec fn run_rest(plan: ScanPlan, input: Seq<u8>) -> Seq<u8> {
    match run_scan(plan, input) {
        Some((_, rest)) => rest,
        None => input,
    }
}

/// The lines of `s`, as `read_line` reads them one after the other.
pub open spec fn lines(s: Seq<u8>) -> Seq<Seq<u8>>
    decreases s.len(),
{
    if s.len() == 0 {
        Seq::empty()
    } else {
        proof {
            crate::reader::lemma_line_taken(s);
        }
        seq![line_of(s)] + lines(s.skip(line_taken(s)))
    }
}

/// The values of repeated runs over fully buffered `input`, with `sep`
/// expected before every run but the first: repetition stops when the
/// separator or a run fails, or after a run that consumes nothing.
pub open spec fn repeat_from(plan: ScanPlan, sep: Option<Seq<u8>>, first: bool, input: Seq<u8>) -> Seq<
    Seq<Option<ValueView>>,
>
    decreases input.len(),
{
    let start = if !first && sep is Some {
        if sep->0.is_prefix_of(input) {
            Some(input.skip(sep->0.len() as int))
        } else {
            None
        }
    } else {
        Some(input)
    };
    match start {
        None => Seq::empty(),
        Some(x) => match run_scan(plan, x) {
            None => Seq::empty(),
            Some((vals, rest)) => if rest.len() >= input.len() {
                seq![vals]
            } else {
                seq![vals] + repeat_from(plan, sep, false, rest)
            },
        },
    }
}

/// `r` is what building a scanner from template `t` and the rules `rules`
/// gives: the template's error, the binding errors, or a scanner for the
/// plan that binding produces.
pub open spec fn built_from(t: Seq<char>, rules: RuleList, r: Result<Scanner, BuildError>) -> bool {
    match parse_template(t) {
        Err(e) => r matches Err(BuildError::Template(x)) && x@ == e,
        Ok(sv) => {
            &&& (r is Ok <==> forall|f: BindFault| !is_bind_fault(f, sv, rules))
            &&& (r matches Err(x) ==> x is Bind)
            &&& (r matches Ok(s) ==> s.spec_plan().wf() && s.spec_plan().rules@ == rules.flat()
                && s.spec_plan().outputs == output_count(sv) && s.spec_plan().segs().len()
                == sv.len() && forall|k: int|
                0 <= k < sv.len() ==> resolves_to(
                    #[trigger] s.spec_plan().segs()[k],
                    sv,
                    rules.positional@.len() as int,
                    rules.names(),
                    k,
                ))
        },
    }
}

/// `r` is what building from template `t` and the entries `args` gives: a
/// positional entry after a named one is an error, else the entries sorted
/// into `list` are built from as `built_from` says.
pub open spec fn text_outcome(
    t: Seq<char>,
    args: Seq<Arg>,
    list: RuleList,
    r: Result<Scanner, BuildError>,
) -> bool {
    match first_misplaced(args) {
        Some(i) => r == Err::<Scanner, BuildError>(
            BuildError::Rules(RuleListError::PositionalAfterNamed { index: i as usize }),
        ),
        None => sorted_args(args, list) && built_from(t, list, r),
    }
}

/// The bytes of a separator, if there is one.
pub open spec fn sep_bytes(sep: Option<&str>) -> Option<Seq<u8>> {
    match sep {
        Some(x) => Some(x.spec_bytes()),
        None => None,
    }
}

pub open spec fn result_views(v: Seq<Vec<Value>>) -> Seq<Seq<Option<ValueView>>> {
    v.map_values(|x: Vec<Value>| some_views(x@))
}

proof fn lemma_spelled_push(p: Seq<Seq<u8>>, x: Seq<u8>)
    ensures
        spelled(p.push(x)) == spelled(p) + x,
{
    assert(p.push(x).drop_last() =~= p);
}

/// Why a scanner could not be built from a template and rules.
#[derive(Debug, PartialEq, Eq)]
pub enum BuildError {
    Rules(RuleListError),
    Template(TemplateError),
    Bind(Vec<crate::bind::BindError>),
}

/// A valid plan with its patterns compiled, once.
pub struct Scanner {
    plan: ScanPlan,
    compiled: Result<Vec<CompiledPattern>, PatternError>,
}

impl Scanner {
    #[verifier::type_invariant]
    spec fn inv(&self) -> bool {
        &&& self.plan.wf()
        &&& match self.compiled {
            Ok(ps) => ps@.len() == self.plan.rules@.len() && all_compile(self.plan.rules@) && forall|
                r: int,
            | 0 <= r < ps@.len() ==> (#[trigger] ps@[r]).source_chars() == rule_pattern(
                self.plan.rules@[r],
            ),
            Err(e) => !all_compile(self.plan.rules@) && e.rule < self.plan.rules@.len()
                && !regex_compiles(rule_pattern(self.plan.rules@[e.rule as int])),
        }
    }

    /// The plan this scanner executes.
    pub closed spec fn spec_plan(&self) -> ScanPlan {
        self.plan
    }

    /// Compiles the patterns of a valid plan.
    pub fn new(plan: ScanPlan) -> (r: Scanner)
        requires
            plan.wf(),
        ensures
            r.spec_plan() == plan,
    {
        let compiled = compile_all(&plan.rules);
        Scanner { plan, compiled }
    }

    /// Parses `template`, binds it to `rules` and compiles the patterns.
    pub fn from_template(template: &str, rules: RuleList) -> (r: Result<Scanner, BuildError>)
        requires
            rules.len() <= usize::MAX,
        ensures
            parse_template(template@) matches Err(e) ==> (r matches Err(BuildError::Template(x))
                && x@ == e),
            parse_template(template@) matches Ok(sv) ==> ((r is Ok <==> forall|f: BindFault|
                !is_bind_fault(f, sv, rules)) && (r matches Err(x) ==> x is Bind)),
            r matches Ok(s) ==> parse_template(template@) matches Ok(sv) && s.spec_plan().wf()
                && s.spec_plan().rules@ == rules.flat() && s.spec_plan().outputs == output_count(sv)
                && s.spec_plan().segs().len() == sv.len() && forall|k: int|
                0 <= k < sv.len() ==> resolves_to(
                    #[trigger] s.spec_plan().segs()[k],
                    sv,
                    rules.positional@.len() as int,
                    rules.names(),
                    k,
                ),
            built_from(template@, rules, r),
    {
        let segments = match parse_format_string(template) {
            Ok(s) => s,
            Err(e) => {
                return Err(BuildError::Template(e));
            },
        };
        match bind(segments, rules) {
            Ok(plan) => Ok(Scanner::new(plan)),
            Err(errs) => {
                proof {
                    assert(faults_view(errs@).contains(faults_view(errs@)[0]));
                }
                Err(BuildError::Bind(errs))
            },
        }
    }

    /// Like `from_template`, with the rules written as text (see `rulelist`).
    pub fn from_text(template: &str, rules: &str) -> (r: Result<Scanner, BuildError>)
        ensures
            list_from(rules@, 0) matches Err(p) ==> (r matches Err(BuildError::Rules(e)) && e
                == (RuleListError::Syntax { at: p as usize })),
            r is Ok ==> (list_from(rules@, 0) is Ok && parse_template(template@) is Ok),
            list_from(rules@, 0) matches Ok(v) ==> exists|args: Seq<Arg>, list: RuleList|
                arg_views(args) == v && #[trigger] text_outcome(template@, args, list, r),
    {
        let parsed = parse_rule_list(rules);
        let ghost args = if list_from(rules@, 0) is Ok {
            choose|args: Seq<Arg>|
                arg_views(args) == list_from(rules@, 0)->Ok_0 && #[trigger] sorted_outcome(
                    args,
                    parsed,
                )
        } else {
            Seq::empty()
        };
        match parsed {
            Ok(list) => {
                let r = Scanner::from_template(template, list);
                assert(list_from(rules@, 0) is Ok ==> text_outcome(template@, args, list, r));
                r
            },
            Err(e) => {
                let r = Err(BuildError::Rules(e));
                assert(list_from(rules@, 0) is Ok ==> text_outcome(
                    template@,
                    args,
                    vstd::pervasive::arbitrary(),
                    r,
                ));
                r
            },
        }
    }

    /// The plan this scanner executes.
    pub fn plan(&self) -> (r: &ScanPlan)
        ensures
            *r == self.spec_plan(),
    {
        &self.plan
    }

    /// Reads the values the plan describes from `reader`.
    ///
    /// Segments are matched in order: literals exactly, captures by their
    /// pattern at the current position, each capture's text read as its
    /// rule's type. Either every slot is filled or the scan fails as a whole;
    /// on failure the reader has advanced by an unspecified amount.
    pub fn scan(&self, reader: &mut ByteReader) -> (r: Result<Vec<Value>, Error>)
        requires
            old(reader).wf(),
        ensures
            final(reader).wf(),
            final(reader).data == old(reader).data,
            final(reader).cap == old(reader).cap,
            !all_compile(self.spec_plan().rules@) ==> (r matches Err(Error::RegexError(e))
                && e.rule < self.spec_plan().rules@.len() && !regex_compiles(
                rule_pattern(self.spec_plan().rules@[e.rule as int]),
            )),
            r is Ok ==> all_compile(self.spec_plan().rules@),
            r matches Err(e) ==> (e is RegexError <==> !all_compile(self.spec_plan().rules@)),
            r matches Ok(values) ==> scan_succeeded(
                self.spec_plan(),
                old(reader).remaining(),
                final(reader).remaining(),
                some_views(values@),
            ),
            !all_compile(self.spec_plan().rules@) ==> *final(reader) == *old(reader),
            old(reader).available() == old(reader).remaining() ==> scan_result_for(
                self.spec_plan(),
                old(reader).remaining(),
                r,
            ),
            old(reader).available() == old(reader).remaining() && r is Ok ==> final(reader).remaining()
                == run_rest(self.spec_plan(), old(reader).remaining()),
            old(reader).available() == old(reader).remaining() ==> final(reader).available()
                == final(reader).remaining(),
    {
        proof {
            use_type_invariant(self);
        }
        let patterns = match &self.compiled {
            Ok(ps) => ps,
            Err(e) => {
                return Err(Error::RegexError(PatternError { rule: e.rule, pattern: e.pattern.clone() }));
            },
        };
        let plan = &self.plan;
        let ghost segs = plan.segs();
        let ghost input = reader.remaining();
        let ghost mut pieces: Seq<Seq<u8>> = Seq::empty();
        let mut partial = PartialResult::empty(plan.outputs);
        let mut k: usize = 0;
        let ghost vis = old(reader).available() == old(reader).remaining();
        assert(input == spelled(pieces) + reader.remaining());
        assert(slot_views(partial.slots@) =~= Seq::new(plan.outputs as nat, |i: int| None::<ValueView>));
        while k < plan.segments.len()
            invariant
                vis == (old(reader).available() == old(reader).remaining()),
                vis ==> reader.available() == reader.remaining(),
                vis ==> run_scan(*plan, input) == run_from(
                    *plan,
                    k as int,
                    reader.remaining(),
                    slot_views(partial.slots@),
                ),
                plan.wf(),
                *plan == self.spec_plan(),
                segs == plan.segs(),
                segs.len() == plan.segments@.len(),
                patterns@.len() == plan.rules@.len(),
                all_compile(plan.rules@),
                forall|r: int|
                    0 <= r < patterns@.len() ==> (#[trigger] patterns@[r]).source_chars() == rule_pattern(
                        plan.rules@[r],
                    ),
                reader.wf(),
                reader.data == old(reader).data,
                reader.cap == old(reader).cap,
                input == old(reader).remaining(),
                k <= segs.len(),
                pieces.len() == k,
                input == spelled(pieces) + reader.remaining(),
                partial.slots@.len() == plan.outputs,
                forall|s: int|
                    0 <= s < plan.outputs && #[trigger] partial.slots@[s] is Some ==> exists|j: int|
                        0 <= j < k && opt_int(#[trigger] slot_at(segs, j)) == Some(s),
                forall|j: int|
                    0 <= j < k ==> #[trigger] piece_ok(
                        *plan,
                        input,
                        pieces,
                        slot_views(partial.slots@),
                        j,
                    ),
                forall|j: int|
                    0 <= j < k && #[trigger] slot_at(segs, j) is Some ==> partial.slots@[slot_at(
                        segs,
                        j,
                    )->0 as int] is Some,
            decreases segs.len() - k,
        {
            let ghost kk = k as int;
            let ghost before = *reader;
            let ghost views0 = slot_views(partial.slots@);
            let ghost pieces0 = pieces;
            proof {
                lemma_available_prefix(reader);
            }
            assert(segs[kk] == plan.segments@[kk]@);
            match &plan.segments[k] {
                ResolvedSegment::Literal(t) => {
                    match match_literal(reader, t.as_str()) {
                        Ok(()) => {},
                        Err(e) => {
                            return Err(Error::ScanError(e));
                        },
                    }
                    proof {
                        lemma_spelled_push(pieces, encode_utf8(t@));
                        pieces = pieces.push(encode_utf8(t@));
                        assert(before.remaining().skip(encode_utf8(t@).len() as int) =~= reader.remaining());
                        assert(encode_utf8(t@).is_prefix_of(before.remaining())) by {
                            assert(before.remaining().take(encode_utf8(t@).len() as int) =~= encode_utf8(t@));
                        }
                    }
                },
                ResolvedSegment::Capture { slot, rule } => {
                    assert(rule_at(segs, kk) == Some(*rule));
                    let p = &patterns[*rule];
                    let (text, len) = match match_regex(reader, p) {
                        Ok(x) => x,
                        Err(e) => {
                            return Err(Error::ScanError(e));
                        },
                    };
                    let ghost avail = before.available();
                    let ghost n = valid_prefix_len(avail);
                    let ghost window = avail.take(n as int);
                    proof {
                        lemma_valid_prefix(avail);
                        vstd::utf8::encode_utf8_valid_utf8(text@);
                        vstd::utf8::encode_utf8_decode_utf8(text@);
                        assert(decode_utf8(window.take(len as int)) == text@);
                    }
                    match slot {
                        Some(s) => {
                            assert(slot_at(segs, kk) == Some(*s));
                            let ty = rule_value_type(&plan.rules[*rule]);
                            match parse_value(text.as_str(), ty) {
                                Ok(v) => {
                                    let ghost vv = v@;
                                    partial.set(*s, v);
                                    assert(slot_views(partial.slots@) =~= views0.update(*s as int, Some(vv)));
                                },
                                Err(e) => {
                                    return Err(Error::ParseError(e));
                                },
                            }
                        },
                        None => {},
                    }
                    advance_from_regex(reader, len);
                    proof {
                        let piece = window.take(len as int);
                        lemma_spelled_push(pieces, piece);
                        pieces = pieces.push(piece);
                        assert(pieces.take(kk) =~= pieces0);
                        assert(input.skip(spelled(pieces0).len() as int) =~= before.remaining());
                        assert(window.is_prefix_of(before.remaining()));
                        assert(piece.is_prefix_of(window));
                        assert(regex_find(rule_pattern(plan.rules@[*rule as int]), decode_utf8(window))
                            == Some((0int, piece.len() as int)));
                        assert(matched_at_start(
                            rule_pattern(plan.rules@[*rule as int]),
                            piece,
                            input.skip(spelled(pieces.take(kk)).len() as int),
                        ));
                        vstd::utf8::encode_utf8_valid_utf8(text@);
                        assert(decode_utf8(piece) == text@) by {
                            vstd::utf8::encode_utf8_decode_utf8(text@);
                        }
                        assert(window.take(len as int) == piece);
                        assert(reader.remaining() =~= before.remaining().skip(len as int));
                        if vis {
                            assert(reader.buffered() =~= reader.remaining());
                            assert(reader.available() =~= reader.remaining());
                        }
                    }
                },
            }
            proof {
                let views = slot_views(partial.slots@);
                assert(piece_ok(*plan, input, pieces, views, kk));
                assert forall|j: int| 0 <= j < kk implies #[trigger] piece_ok(
                    *plan,
                    input,
                    pieces,
                    views,
                    j,
                ) by {
                    assert(piece_ok(*plan, input, pieces0, views0, j));
                    assert(pieces.take(j) =~= pieces0.take(j));
                    assert(pieces[j] == pieces0[j]);
                    if slot_at(segs, j) is Some {
                        let sj = slot_at(segs, j)->0 as int;
                        if slot_at(segs, kk) is Some {
                            assert(slot_at(segs, j) != slot_at(segs, kk));
                        }
                        assert(views[sj] == views0[sj]);
                    }
                }
            }
            k = k + 1;
        }
        let ghost full_slots = partial.slots@;
        proof {
            assert forall|s: int| 0 <= s < partial.slots@.len() implies #[trigger] partial.slots@[s] is Some by {
                assert(slot_filled(segs, s));
                let j = choose|j: int| 0 <= j < segs.len() && opt_int(#[trigger] slot_at(segs, j)) == Some(s);
                assert(slot_at(segs, j) is Some);
            }
        }
        let values = match partial.take() {
            Some(v) => v,
            None => {
                proof {
                    assert(false);
                }
                return Err(Error::ScanError(ScanError::ScanIoError(String::new())));
            },
        };
        proof {
            assert(some_views(values@) =~= slot_views(full_slots));
            assert(scan_trace(self.spec_plan(), old(reader).remaining(), pieces, some_views(values@)));
            assert(old(reader).remaining() == spelled(pieces) + reader.remaining());
            assert(all_compile(self.spec_plan().rules@));
            assert(scan_succeeded(
                self.spec_plan(),
                old(reader).remaining(),
                reader.remaining(),
                some_views(values@),
            ));
        }
        Ok(values)
    }
}

impl Scanner {
    /// Reads one line (see `read_line`) and scans it on its own; `None` at
    /// the end of the input.
    pub fn scan_line(&self, reader: &mut ByteReader) -> (r: Option<Result<Vec<Value>, Error>>)
        requires
            old(reader).wf(),
        ensures
            final(reader).wf(),
            final(reader).data == old(reader).data,
            final(reader).cap == old(reader).cap,
            old(reader).remaining().len() == 0 <==> r is None,
            r is None ==> final(reader).remaining() == old(reader).remaining(),
            old(reader).remaining().len() > 0 ==> final(reader).remaining() == old(
                reader,
            ).remaining().skip(line_taken(old(reader).remaining())),
            r matches Some(Ok(values)) ==> exists|after: Seq<u8>|
                #[trigger] scan_succeeded(
                    self.spec_plan(),
                    line_of(old(reader).remaining()),
                    after,
                    some_views(values@),
                ),
            r matches Some(res) ==> scan_result_for(
                self.spec_plan(),
                line_of(old(reader).remaining()),
                res,
            ),
    {
        match read_line(reader) {
            None => None,
            Some(line) => {
                let mut line_reader = ByteReader::new(line);
                assert(line_reader.available() =~= line_reader.remaining());
                let r = self.scan(&mut line_reader);
                assert(r matches Ok(values) ==> scan_succeeded(
                    self.spec_plan(),
                    line_of(old(reader).remaining()),
                    line_reader.remaining(),
                    some_views(values@),
                ));
                Some(r)
            },
        }
    }

    /// Scans every line of the input in turn, until the input ends.
    pub fn scan_lines(&self, reader: &mut ByteReader) -> (r: Vec<Result<Vec<Value>, Error>>)
        requires
            old(reader).wf(),
        ensures
            final(reader).wf(),
            final(reader).remaining().len() == 0,
            r@.len() <= old(reader).remaining().len(),
            old(reader).remaining().len() > 0 ==> r@.len() > 0,
            forall|i: int|
                0 <= i < r@.len() ==> (#[trigger] r@[i] matches Ok(v) ==> is_scan_result(
                    self.spec_plan(),
                    v@,
                )),
            r@.len() == lines(old(reader).remaining()).len(),
            forall|i: int|
                0 <= i < r@.len() ==> scan_result_for(
                    self.spec_plan(),
                    lines(old(reader).remaining())[i],
                    #[trigger] r@[i],
                ),
    {
        let mut out: Vec<Result<Vec<Value>, Error>> = Vec::new();
        let ghost start = reader.remaining().len();
        let ghost all = reader.remaining();
        let ghost mut done: Seq<Seq<u8>> = Seq::empty();
        assert(done + lines(all) =~= lines(all));
        loop
            invariant
                lines(all) == done + lines(reader.remaining()),
                out@.len() == done.len(),
                forall|i: int|
                    0 <= i < out@.len() ==> scan_result_for(self.spec_plan(), done[i], #[trigger] out@[i]),
                all == old(reader).remaining(),
                reader.wf(),
                out@.len() + reader.remaining().len() <= start,
                start > 0 && reader.remaining().len() == start ==> out@.len() == 0,
                start > 0 ==> out@.len() > 0 || reader.remaining().len() == start,
                forall|i: int|
                    0 <= i < out@.len() ==> (#[trigger] out@[i] matches Ok(v) ==> is_scan_result(
                        self.spec_plan(),
                        v@,
                    )),
            ensures
                lines(all) == done,
                out@.len() == done.len(),
                forall|i: int|
                    0 <= i < out@.len() ==> scan_result_for(self.spec_plan(), done[i], #[trigger] out@[i]),
                reader.wf(),
                reader.remaining().len() == 0,
                out@.len() <= start,
                start > 0 ==> out@.len() > 0,
                forall|i: int|
                    0 <= i < out@.len() ==> (#[trigger] out@[i] matches Ok(v) ==> is_scan_result(
                        self.spec_plan(),
                        v@,
                    )),
            decreases reader.remaining().len(),
        {
            let ghost before = reader.remaining();
            match self.scan_line(reader) {
                None => {
                    assert(done + lines(reader.remaining()) =~= done);
                    break;
                },
                Some(res) => {
                    proof {
                        crate::reader::lemma_line_taken(before);
                        assert(lines(before) == seq![line_of(before)] + lines(reader.remaining()));
                        assert(done + (seq![line_of(before)] + lines(reader.remaining())) =~= done.push(
                            line_of(before),
                        ) + lines(reader.remaining()));
                        done = done.push(line_of(before));
                    }
                    out.push(res);
                    assert(out@.last() == res);
                },
            }
        }
        out
    }

    /// Scans repeatedly until a scan fails, or succeeds without consuming
    /// anything (it would then succeed the same way forever).
    pub fn scan_multiple(&self, reader: &mut ByteReader) -> (r: Vec<Vec<Value>>)
        requires
            old(reader).wf(),
        ensures
            final(reader).wf(),
            forall|i: int| 0 <= i < r@.len() ==> is_scan_result(self.spec_plan(), #[trigger] r@[i]@),
            old(reader).available() == old(reader).remaining() && all_compile(self.spec_plan().rules@)
                ==> result_views(r@) == repeat_from(self.spec_plan(), None, true, old(reader).remaining()),
    {
        self.scan_repeatedly(reader, None)
    }

    /// Scans repeatedly, expecting the literal `sep` between successive
    /// scans, until a scan or a separator fails to match, or a round consumes
    /// nothing.
    pub fn scan_multiple_with_separator(&self, reader: &mut ByteReader, sep: &str) -> (r: Vec<
        Vec<Value>,
    >)
        requires
            old(reader).wf(),
        ensures
            final(reader).wf(),
            forall|i: int| 0 <= i < r@.len() ==> is_scan_result(self.spec_plan(), #[trigger] r@[i]@),
            old(reader).available() == old(reader).remaining() && all_compile(self.spec_plan().rules@)
                ==> result_views(r@) == repeat_from(
                self.spec_plan(),
                Some(sep.spec_bytes()),
                true,
                old(reader).remaining(),
            ),
    {
        self.scan_repeatedly(reader, Some(sep))
    }

    fn scan_repeatedly(&self, reader: &mut ByteReader, sep: Option<&str>) -> (r: Vec<Vec<Value>>)
        requires
            old(reader).wf(),
        ensures
            final(reader).wf(),
            forall|i: int| 0 <= i < r@.len() ==> is_scan_result(self.spec_plan(), #[trigger] r@[i]@),
            old(reader).available() == old(reader).remaining() && all_compile(self.spec_plan().rules@)
                ==> result_views(r@) == repeat_from(
                self.spec_plan(),
                sep_bytes(sep),
                true,
                old(reader).remaining(),
            ),
    {
        let mut out: Vec<Vec<Value>> = Vec::new();
        let mut first = true;
        let ghost input = reader.remaining();
        let ghost exact = old(reader).available() == old(reader).remaining() && all_compile(
            self.spec_plan().rules@,
        );
        let ghost sb = sep_bytes(sep);
        assert(result_views(out@) + repeat_from(self.spec_plan(), sb, true, input) =~= repeat_from(
            self.spec_plan(),
            sb,
            true,
            input,
        ));
        loop
            invariant_except_break
                exact ==> repeat_from(self.spec_plan(), sb, true, input) == result_views(out@)
                    + repeat_from(self.spec_plan(), sb, first, reader.remaining()),
            invariant
                reader.wf(),
                input == old(reader).remaining(),
                sb == sep_bytes(sep),
                exact == (old(reader).available() == old(reader).remaining() && all_compile(
                    self.spec_plan().rules@,
                )),
                exact ==> reader.available() == reader.remaining(),
                forall|i: int|
                    0 <= i < out@.len() ==> is_scan_result(self.spec_plan(), #[trigger] out@[i]@),
            ensures
                exact ==> repeat_from(self.spec_plan(), sb, true, input) == result_views(out@),
            decreases reader.remaining().len(),
        {
            let start = reader.remaining_len();
            let ghost top = reader.remaining();
            let ghost views0 = result_views(out@);
            if !first {
                if let Some(s) = sep {
                    if match_literal(reader, s).is_err() {
                        assert(views0 + Seq::<Seq<Option<ValueView>>>::empty() =~= views0);
                        break;
                    }
                    proof {
                        assert(s.spec_bytes().is_prefix_of(top)) by {
                            assert(top.take(s.spec_bytes().len() as int) =~= s.spec_bytes());
                        }
                        assert(top.skip(s.spec_bytes().len() as int) =~= reader.remaining());
                    }
                }
            }
            first = false;
            let ghost mid = reader.remaining();
            match self.scan(reader) {
                Ok(values) => {
                    assert(scan_succeeded(self.spec_plan(), mid, reader.remaining(), some_views(values@)));
                    out.push(values);
                    assert(out@.last() == values);
                    assert(result_views(out@) =~= views0.push(some_views(values@)));
                },
                Err(_) => {
                    assert(views0 + Seq::<Seq<Option<ValueView>>>::empty() =~= views0);
                    break;
                },
            }
            if reader.remaining_len() >= start {
                assert(views0 + seq![some_views(out@.last()@)] =~= result_views(out@));
                break;
            }
            proof {
                assert(views0 + (seq![some_views(out@.last()@)] + repeat_from(
                    self.spec_plan(),
                    sb,
                    false,
                    reader.remaining(),
                )) =~= result_views(out@) + repeat_from(self.spec_plan(), sb, false, reader.remaining()));
            }
        }
        out
    }
}

pub open spec fn slot_views(slots: Seq<Option<Value>>) -> Seq<Option<ValueView>> {
    slots.map_values(|o: Option<Value>| opt_view(o))
}

pub open spec fn opt_view(o: Option<Value>) -> Option<ValueView> {
    match o {
        Some(v) => Some(v@),
        None => None,
    }
}

/// Compiles every rule's pattern, stopping at the first that does not compile.
fn compile_all(rules: &Vec<Rule>) -> (r: Result<Vec<CompiledPattern>, PatternError>)
    ensures
        match r {
            Ok(ps) => ps@.len() == rules@.len() && all_compile(rules@) && forall|i: int|
                0 <= i < ps@.len() ==> (#[trigger] ps@[i]).source_chars() == rule_pattern(rules@[i]),
            Err(e) => e.rule < rules@.len() && !regex_compiles(rule_pattern(rules@[e.rule as int]))
                && e.pattern@ == rule_pattern(rules@[e.rule as int]) && !all_compile(rules@),
        },
{
    let mut ps: Vec<CompiledPattern> = Vec::new();
    let mut i: usize = 0;
    while i < rules.len()
        invariant
            i <= rules@.len(),
            ps@.len() == i,
            forall|j: int| 0 <= j < i ==> regex_compiles(#[trigger] rule_pattern(rules@[j])),
            forall|j: int| 0 <= j < i ==> (#[trigger] ps@[j]).source_chars() == rule_pattern(rules@[j]),
        decreases rules@.len() - i,
    {
        let pattern = rules[i].pattern();
        match CompiledPattern::compile(pattern) {
            Some(p) => ps.push(p),
            None => {
                return Err(PatternError { rule: i, pattern: pattern.to_owned() });
            },
        }
        i = i + 1;
    }
    Ok(ps)
}

} // verus!
