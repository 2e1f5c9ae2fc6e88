//! Binding a parsed template to its rules: resolving references and checking
//! that the combination is valid, with every problem reported at once.
use vstd::prelude::*;
use crate::rules::{Rule, RuleList};
use crate::template::{CapturePos, CaptureRule, RuleRef, Segment, SegmentView, segments_view};

verus! {

/// A segment of a bound plan.
#[derive(Debug, PartialEq, Eq)]
pub enum ResolvedSegment {
    Literal(String),
    /// A capture: its output slot (none for a capture that keeps nothing) and
    /// the index of its rule among all rules, positional ones first.
    Capture { slot: Option<usize>, rule: usize },
}

/// A resolved segment as the contracts see it.
pub enum ResolvedView {
    Literal(Seq<char>),
    Capture(Option<usize>, usize),
}

impl View for ResolvedSegment {
    type V = ResolvedView;

    open spec fn view(&self) -> ResolvedView {
        match self {
            ResolvedSegment::Literal(s) => ResolvedView::Literal(s@),
            ResolvedSegment::Capture { slot, rule } => ResolvedView::Capture(*slot, *rule),
        }
    }
}

/// One problem found while binding.
#[derive(Debug, PartialEq, Eq)]
pub enum BindError {
    /// The capture at `segment` refers to positional rule `index`, but only
    /// `available` positional rules exist.
    InvalidPositional { segment: usize, index: usize, available: usize },
    /// The capture at `segment` names a rule that is not declared.
    UnknownName { segment: usize, name: String },
    /// The capture at `dup` uses output slot `slot`, first used at `first`.
    DuplicateOutput { slot: usize, first: usize, dup: usize },
    /// No capture fills output slot `slot`.
    MissingOutput { slot: usize },
    /// Named rule `dup` repeats the name of named rule `first`.
    DuplicateName { name: String, first: usize, dup: usize },
    /// No capture uses rule `index`.
    UnusedRule { index: usize },
    /// The capture at `segment` keeps a value but uses rule `rule`, which has no type.
    UntypedCaptureUsed { segment: usize, rule: usize },
}

/// A binding problem as the contracts see it.
pub enum BindFault {
    InvalidPositional { segment: int, index: int, available: int },
    UnknownName { segment: int, name: Seq<char> },
    DuplicateOutput { slot: int, first: int, dup: int },
    MissingOutput { slot: int },
    DuplicateName { name: Seq<char>, first: int, dup: int },
    UnusedRule { index: int },
    UntypedCaptureUsed { segment: int, rule: int },
}

impl View for BindError {
    type V = BindFault;

    open spec fn view(&self) -> BindFault {
        match self {
            BindError::InvalidPositional { segment, index, available } => BindFault::InvalidPositional {
                segment: *segment as int,
                index: *index as int,
                available: *available as int,
            },
            BindError::UnknownName { segment, name } => BindFault::UnknownName {
                segment: *segment as int,
                name: name@,
            },
            BindError::DuplicateOutput { slot, first, dup } => BindFault::DuplicateOutput {
                slot: *slot as int,
                first: *first as int,
                dup: *dup as int,
            },
            BindError::MissingOutput { slot } => BindFault::MissingOutput { slot: *slot as int },
            BindError::DuplicateName { name, first, dup } => BindFault::DuplicateName {
                name: name@,
                first: *first as int,
                dup: *dup as int,
            },
            BindError::UnusedRule { index } => BindFault::UnusedRule { index: *index as int },
            BindError::UntypedCaptureUsed { segment, rule } => BindFault::UntypedCaptureUsed {
                segment: *segment as int,
                rule: *rule as int,
            },
        }
    }
}

pub open spec fn faults_view(v: Seq<BindError>) -> Seq<BindFault> {
    v.map_values(|e: BindError| e@)
}

/// The position of a capture segment.
pub open spec fn capture_pos(s: SegmentView) -> CapturePos {
    match s {
        SegmentView::Capture(p, _) => p,
        _ => CapturePos::Null,
    }
}

/// Number of captures before segment `k` whose position is implicit.
pub open spec fn implicit_positions_before(segs: Seq<SegmentView>, k: int) -> nat
    decreases k,
{
    if k <= 0 {
        0
    } else {
        implicit_positions_before(segs, k - 1) + if segs[k - 1] matches SegmentView::Capture(
            CapturePos::Implicit,
            _,
        ) {
            1nat
        } else {
            0nat
        }
    }
}

/// Number of captures before segment `k` whose rule reference is implicit.
pub open spec fn implicit_rules_before(segs: Seq<SegmentView>, k: int) -> nat
    decreases k,
{
    if k <= 0 {
        0
    } else {
        implicit_rules_before(segs, k - 1) + if segs[k - 1] matches SegmentView::Capture(
            _,
            RuleRef::Implicit,
        ) {
            1nat
        } else {
            0nat
        }
    }
}

/// The output slot of segment `k`: none for literals and for captures that
/// keep nothing.
pub open spec fn slot_of(segs: Seq<SegmentView>, k: int) -> Option<int> {
    match segs[k] {
        SegmentView::Capture(CapturePos::Explicit(n), _) => Some(n as int),
        SegmentView::Capture(CapturePos::Implicit, _) => Some(
            implicit_positions_before(segs, k) as int,
        ),
        _ => None,
    }
}

/// The positional rule index that segment `k` asks for, if it asks for one.
pub open spec fn requested_positional(segs: Seq<SegmentView>, k: int) -> Option<int> {
    match segs[k] {
        SegmentView::Capture(_, RuleRef::Implicit) => Some(implicit_rules_before(segs, k) as int),
        SegmentView::Capture(_, RuleRef::Positional(n)) => Some(n as int),
        _ => None,
    }
}

/// The first index at or after `i` at which `names` holds `name`.
pub open spec fn find_name(names: Seq<Seq<char>>, name: Seq<char>, i: int) -> Option<int>
    decreases names.len() - i,
{
    if i < 0 || i >= names.len() {
        None
    } else if names[i] == name {
        Some(i)
    } else {
        find_name(names, name, i + 1)
    }
}

/// The rule (index among all rules) that segment `k` resolves to, if any.
pub open spec fn rule_index_of(segs: Seq<SegmentView>, npos: int, names: Seq<Seq<char>>, k: int) -> Option<
    int,
> {
    match segs[k] {
        SegmentView::Capture(_, RuleRef::Named(name)) => match find_name(names, name, 0) {
            Some(i) => Some(npos + i),
            None => None,
        },
        SegmentView::Capture(_, _) => if requested_positional(segs, k)->0 < npos {
            requested_positional(segs, k)
        } else {
            None
        },
        _ => None,
    }
}

/// Number of segments before `k` that fill an output slot.
pub open spec fn outputs_before(segs: Seq<SegmentView>, k: int) -> nat
    decreases k,
{
    if k <= 0 {
        0
    } else {
        outputs_before(segs, k - 1) + if slot_of(segs, k - 1) is Some {
            1nat
        } else {
            0nat
        }
    }
}

/// The largest slot filled by a segment before `k`, or -1 when none is.
pub open spec fn slot_max(segs: Seq<SegmentView>, k: int) -> int
    decreases k,
{
    if k <= 0 {
        -1
    } else {
        let m = slot_max(segs, k - 1);
        match slot_of(segs, k - 1) {
            Some(x) => if x > m {
                x
            } else {
                m
            },
            None => m,
        }
    }
}

/// Number of captures that fill an output slot.
pub open spec fn output_count(segs: Seq<SegmentView>) -> nat {
    outputs_before(segs, segs.len() as int)
}

/// Whether `f` is a problem of binding `segs` to the rules `flat`, of which the
/// first `npos` are positional and the others are named by `names`.
pub open spec fn is_fault(
    f: BindFault,
    segs: Seq<SegmentView>,
    flat: Seq<Rule>,
    npos: int,
    names: Seq<Seq<char>>,
) -> bool {
    match f {
        BindFault::InvalidPositional { segment, index, available } => 0 <= segment < segs.len()
            && requested_positional(segs, segment) == Some(index) && index >= npos && available
            == npos,
        BindFault::UnknownName { segment, name } => 0 <= segment < segs.len() && segs[segment]
            == SegmentView::Capture(capture_pos(segs[segment]), RuleRef::Named(name)) && find_name(
            names,
            name,
            0,
        ) is None,
        BindFault::DuplicateOutput { slot, first, dup } => 0 <= first < dup < segs.len()
            && slot_of(segs, first) == Some(slot) && slot_of(segs, dup) == Some(slot) && forall|
            k: int,
        | 0 <= k < first ==> slot_of(segs, k) != Some(slot),
        BindFault::MissingOutput { slot } => 0 <= slot < slot_max(segs, segs.len() as int)
            && forall|k: int| 0 <= k < segs.len() ==> slot_of(segs, k) != Some(slot),
        BindFault::DuplicateName { name, first, dup } => 0 <= first < dup < names.len()
            && names[first] == name && names[dup] == name && forall|k: int|
            0 <= k < first ==> names[k] != name,
        BindFault::UnusedRule { index } => 0 <= index < flat.len() && forall|k: int|
            0 <= k < segs.len() ==> rule_index_of(segs, npos, names, k) != Some(index),
        BindFault::UntypedCaptureUsed { segment, rule } => 0 <= segment < segs.len() && slot_of(
            segs,
            segment,
        ) is Some && rule_index_of(segs, npos, names, segment) == Some(rule) && flat[rule] is Null,
    }
}

/// Which check reports `f`.
pub open spec fn fault_kind(f: BindFault) -> int {
    match f {
        BindFault::InvalidPositional { .. } => 1,
        BindFault::UnknownName { .. } => 1,
        BindFault::DuplicateOutput { .. } => 2,
        BindFault::MissingOutput { .. } => 3,
        BindFault::DuplicateName { .. } => 4,
        BindFault::UnusedRule { .. } => 5,
        BindFault::UntypedCaptureUsed { .. } => 6,
    }
}

pub open spec fn opt_int(o: Option<usize>) -> Option<int> {
    match o {
        Some(x) => Some(x as int),
        None => None,
    }
}

/// The output slots of the segments before `k` that fill one, in order.
pub open spec fn slot_seq(segs: Seq<SegmentView>, k: int) -> Seq<int>
    decreases k,
{
    if k <= 0 {
        Seq::empty()
    } else if slot_of(segs, k - 1) is Some {
        slot_seq(segs, k - 1).push(slot_of(segs, k - 1)->0)
    } else {
        slot_seq(segs, k - 1)
    }
}

/// The output slot of plan segment `k`, if it fills one.
pub open spec fn slot_at(segs: Seq<ResolvedView>, k: int) -> Option<usize> {
    match segs[k] {
        ResolvedView::Capture(slot, _) => slot,
        _ => None,
    }
}

/// The rule of plan segment `k`, if it is a capture.
pub open spec fn rule_at(segs: Seq<ResolvedView>, k: int) -> Option<usize> {
    match segs[k] {
        ResolvedView::Capture(_, r) => Some(r),
        _ => None,
    }
}

/// Some segment of the plan fills slot `s`.
pub open spec fn slot_filled(segs: Seq<ResolvedView>, s: int) -> bool {
    exists|k: int| 0 <= k < segs.len() && opt_int(#[trigger] slot_at(segs, k)) == Some(s)
}

/// Some capture of the plan uses rule `r`.
pub open spec fn rule_used(segs: Seq<ResolvedView>, r: int) -> bool {
    exists|k: int| 0 <= k < segs.len() && opt_int(#[trigger] rule_at(segs, k)) == Some(r)
}

/// A valid plan: every capture's rule exists, the slots filled are exactly
/// `0..outputs` with none filled twice, no capture that keeps a value uses a
/// rule without a type, and every rule is used.
pub open spec fn plan_wf(segs: Seq<ResolvedView>, rules: Seq<Rule>, outputs: int) -> bool {
    &&& forall|k: int|
        0 <= k < segs.len() && #[trigger] rule_at(segs, k) is Some ==> rule_at(segs, k)->0
            < rules.len()
    &&& forall|k: int|
        0 <= k < segs.len() && #[trigger] slot_at(segs, k) is Some ==> slot_at(segs, k)->0
            < outputs && rule_at(segs, k) is Some && !(rules[rule_at(segs, k)->0 as int] is Null)
    &&& forall|s: int| 0 <= s < outputs ==> #[trigger] slot_filled(segs, s)
    &&& forall|k1: int, k2: int|
        0 <= k1 < k2 < segs.len() && #[trigger] slot_at(segs, k1) is Some ==> slot_at(segs, k1)
            != #[trigger] slot_at(segs, k2)
    &&& forall|r: int| 0 <= r < rules.len() ==> #[trigger] rule_used(segs, r)
}

/// Segment `r` of a plan is what segment `k` of `segs` resolves to.
pub open spec fn resolves_to(
    r: ResolvedView,
    segs: Seq<SegmentView>,
    npos: int,
    names: Seq<Seq<char>>,
    k: int,
) -> bool {
    match segs[k] {
        SegmentView::Literal(t) => r == ResolvedView::Literal(t),
        SegmentView::Capture(_, _) => r matches ResolvedView::Capture(slot, rule) && opt_int(slot)
            == slot_of(segs, k) && rule_index_of(segs, npos, names, k) == Some(rule as int),
    }
}

/// Whether `f` is one of the problems of binding `segs` to `rules`.
pub open spec fn is_bind_fault(f: BindFault, segs: Seq<SegmentView>, rules: RuleList) -> bool {
    is_fault(f, segs, rules.flat(), rules.positional@.len() as int, rules.names())
}

/// A template bound to its rules, ready to be executed.
#[derive(Debug, PartialEq, Eq)]
pub struct ScanPlan {
    pub segments: Vec<ResolvedSegment>,
    /// All rules: positional ones first, then named ones.
    pub rules: Vec<Rule>,
    /// Number of values a successful scan produces.
    pub outputs: usize,
}

impl ScanPlan {
    pub open spec fn segs(&self) -> Seq<ResolvedView> {
        self.segments@.map_values(|s: ResolvedSegment| s@)
    }

    pub open spec fn wf(&self) -> bool {
        plan_wf(self.segs(), self.rules@, self.outputs as int)
    }
}

/// The slots that the plan's captures fill, in segment order.
pub open spec fn plan_slots(segs: Seq<ResolvedView>, k: int) -> Seq<int>
    decreases k,
{
    if k <= 0 {
        Seq::empty()
    } else if slot_at(segs, k - 1) is Some {
        plan_slots(segs, k - 1).push(slot_at(segs, k - 1)->0 as int)
    } else {
        plan_slots(segs, k - 1)
    }
}

proof fn lemma_plan_slots(segs: Seq<ResolvedView>, k: int)
    requires
        0 <= k <= segs.len(),
        forall|k1: int, k2: int|
            0 <= k1 < k2 < segs.len() && #[trigger] slot_at(segs, k1) is Some ==> slot_at(segs, k1)
                != #[trigger] slot_at(segs, k2),
    ensures
        plan_slots(segs, k).no_duplicates(),
        forall|x: int|
            plan_slots(segs, k).contains(x) <==> exists|j: int|
                0 <= j < k && opt_int(#[trigger] slot_at(segs, j)) == Some(x),
    decreases k,
{
    broadcast use vstd::seq_lib::group_seq_properties;

    if k > 0 {
        lemma_plan_slots(segs, k - 1);
        let prev = plan_slots(segs, k - 1);
        if slot_at(segs, k - 1) is Some {
            let x = slot_at(segs, k - 1)->0 as int;
            assert(!prev.contains(x)) by {
                if prev.contains(x) {
                    let j = choose|j: int|
                        0 <= j < k - 1 && opt_int(#[trigger] slot_at(segs, j)) == Some(x);
                    assert(slot_at(segs, j) != slot_at(segs, k - 1));
                }
            }
            assert forall|a: int, b: int|
                0 <= a < b < prev.push(x).len() implies prev.push(x)[a] != prev.push(x)[b] by {
                if b == prev.len() {
                    assert(prev.contains(prev[a]));
                }
            }
        }
        assert forall|y: int|
            (exists|j: int| 0 <= j < k && opt_int(#[trigger] slot_at(segs, j)) == Some(y)) implies plan_slots(
                segs,
                k,
            ).contains(y) by {
            let j = choose|j: int| 0 <= j < k && opt_int(#[trigger] slot_at(segs, j)) == Some(y);
            if j < k - 1 {
            } else {
                assert(opt_int(slot_at(segs, k - 1)) == Some(y));
                assert(y == slot_at(segs, k - 1)->0 as int);
            }
        }
    }
}

/// In a valid plan the slots that captures fill, in order, are exactly
/// `0..outputs`, each once.
pub proof fn lemma_output_slots_cover(plan: &ScanPlan)
    requires
        plan.wf(),
    ensures
        plan_slots(plan.segs(), plan.segs().len() as int).no_duplicates(),
        plan_slots(plan.segs(), plan.segs().len() as int).to_set() == vstd::set_lib::set_int_range(
            0,
            plan.outputs as int,
        ),
        plan_slots(plan.segs(), plan.segs().len() as int).len() == plan.outputs,
{
    let segs = plan.segs();
    let n = segs.len() as int;
    lemma_plan_slots(segs, n);
    let sl = plan_slots(segs, n);
    assert forall|x: int| sl.to_set().contains(x) <==> vstd::set_lib::set_int_range(
        0,
        plan.outputs as int,
    ).contains(x) by {
        if 0 <= x < plan.outputs {
            assert(slot_filled(segs, x));
            let k = choose|k: int| 0 <= k < segs.len() && opt_int(#[trigger] slot_at(segs, k)) == Some(x);
            assert(sl.contains(x));
        }
        if sl.contains(x) {
            let j = choose|j: int| 0 <= j < n && opt_int(#[trigger] slot_at(segs, j)) == Some(x);
            assert(slot_at(segs, j) is Some);
        }
    }
    assert(sl.to_set() =~= vstd::set_lib::set_int_range(0, plan.outputs as int));
    sl.unique_seq_to_set();
    vstd::set_lib::lemma_int_range(0, plan.outputs as int);
}

proof fn lemma_find_name(names: Seq<Seq<char>>, name: Seq<char>, i: int)
    requires
        0 <= i <= names.len(),
    ensures
        match find_name(names, name, i) {
            Some(j) => i <= j < names.len() && names[j] == name && forall|k: int|
                i <= k < j ==> names[k] != name,
            None => forall|k: int| i <= k < names.len() ==> names[k] != name,
        },
    decreases names.len() - i,
{
    if i < names.len() && names[i] != name {
        lemma_find_name(names, name, i + 1);
    }
}

proof fn lemma_slot_seq(segs: Seq<SegmentView>, k: int)
    requires
        0 <= k <= segs.len(),
    ensures
        slot_seq(segs, k).len() == outputs_before(segs, k),
        forall|x: int|
            slot_seq(segs, k).contains(x) <==> exists|j: int|
                0 <= j < k && #[trigger] slot_of(segs, j) == Some(x),
    decreases k,
{
    broadcast use vstd::seq_lib::group_seq_properties;

    if k > 0 {
        lemma_slot_seq(segs, k - 1);
        assert forall|x: int|
            (exists|j: int| 0 <= j < k && #[trigger] slot_of(segs, j) == Some(x)) implies slot_seq(
                segs,
                k,
            ).contains(x) by {
            let j = choose|j: int| 0 <= j < k && #[trigger] slot_of(segs, j) == Some(x);
            if j == k - 1 {
            }
        }
    }
}

fn first_with(v: &Vec<Option<usize>>, target: usize, upto: usize) -> (r: Option<usize>)
    requires
        upto <= v@.len(),
    ensures
        match r {
            Some(j) => j < upto && v@[j as int] == Some(target) && forall|k: int|
                0 <= k < j ==> v@[k] != Some(target),
            None => forall|k: int| 0 <= k < upto ==> v@[k] != Some(target),
        },
{
    let mut j: usize = 0;
    while j < upto
        invariant
            j <= upto <= v@.len(),
            forall|k: int| 0 <= k < j ==> v@[k] != Some(target),
        decreases upto - j,
    {
        if let Some(x) = v[j] {
            if x == target {
                return Some(j);
            }
        }
        j = j + 1;
    }
    None
}

fn find_named(named: &Vec<(String, Rule)>, name: &String, upto: usize) -> (r: Option<usize>)
    requires
        upto <= named@.len(),
    ensures
        match r {
            Some(j) => j < upto && named@[j as int].0@ == name@ && forall|k: int|
                0 <= k < j ==> named@[k].0@ != name@,
            None => forall|k: int| 0 <= k < upto ==> named@[k].0@ != name@,
        },
{
    let mut j: usize = 0;
    while j < upto
        invariant
            j <= upto <= named@.len(),
            forall|k: int| 0 <= k < j ==> named@[k].0@ != name@,
        decreases upto - j,
    {
        if named[j].0 == *name {
            return Some(j);
        }
        j = j + 1;
    }
    None
}

fn push_fault(errs: &mut Vec<BindError>, e: BindError)
    ensures
        faults_view(final(errs)@) == faults_view(old(errs)@).push(e@),
{
    errs.push(e);
    assert(faults_view(errs@) =~= faults_view(old(errs)@).push(e@));
}

/// The index that the check reporting `f` was at when it found it.
pub open spec fn fault_index(f: BindFault) -> int {
    match f {
        BindFault::InvalidPositional { segment, .. } => segment,
        BindFault::UnknownName { segment, .. } => segment,
        BindFault::DuplicateOutput { dup, .. } => dup,
        BindFault::MissingOutput { slot } => slot,
        BindFault::DuplicateName { dup, .. } => dup,
        BindFault::UnusedRule { index } => index,
        BindFault::UntypedCaptureUsed { segment, .. } => segment,
    }
}

proof fn lemma_contains_push(s: Seq<BindFault>, e: BindFault, f: BindFault)
    ensures
        s.push(e).contains(f) <==> (s.contains(f) || f == e),
{
    if s.contains(f) {
        let i = choose|i: int| 0 <= i < s.len() && s[i] == f;
        assert(s.push(e)[i] == f);
    }
    if f == e {
        assert(s.push(e)[s.len() as int] == f);
    }
    if s.push(e).contains(f) {
        let i = choose|i: int| 0 <= i < s.len() + 1 && s.push(e)[i] == f;
        if i < s.len() {
            assert(s[i] == f);
        }
    }
}

/// The faults of kind `kind` found by a check that has looked at the
/// indices below `i` are exactly those in `found`.
pub open spec fn reported_upto(
    found: Seq<BindFault>,
    kind: int,
    i: int,
    segs: Seq<SegmentView>,
    rules: RuleList,
) -> bool {
    &&& forall|f: BindFault|
        fault_kind(f) == kind ==> ((is_bind_fault(f, segs, rules) && fault_index(f) < i)
            <==> #[trigger] found.contains(f))
    &&& forall|j: int| 0 <= j < found.len() ==> fault_kind(#[trigger] found[j]) == kind
}

/// One step of a check at index `i`: `found` grows by `pushed`, which is the
/// only fault at `i`, or by nothing when there is none.
proof fn lemma_check_step(
    found0: Seq<BindFault>,
    found: Seq<BindFault>,
    pushed: Option<BindFault>,
    kind: int,
    i: int,
    segs: Seq<SegmentView>,
    rules: RuleList,
)
    requires
        reported_upto(found0, kind, i, segs, rules),
        pushed is None ==> found == found0,
        pushed matches Some(e) ==> found == found0.push(e) && fault_kind(e) == kind
            && is_bind_fault(e, segs, rules) && fault_index(e) == i,
        forall|f: BindFault|
            fault_kind(f) == kind && fault_index(f) == i && #[trigger] is_bind_fault(f, segs, rules)
                ==> pushed == Some(f),
    ensures
        reported_upto(found, kind, i + 1, segs, rules),
{
    assert forall|f: BindFault|
        fault_kind(f) == kind implies ((is_bind_fault(f, segs, rules) && fault_index(f) < i + 1)
        <==> #[trigger] found.contains(f)) by {
        assert((is_bind_fault(f, segs, rules) && fault_index(f) < i) <==> found0.contains(f));
        if let Some(e) = pushed {
            lemma_contains_push(found0, e, f);
        }
    }
    assert forall|j: int| 0 <= j < found.len() implies fault_kind(#[trigger] found[j]) == kind by {
        if j < found0.len() {
            assert(found[j] == found0[j]);
        }
    }
}

/// Resolves every capture's slot and rule, reporting references to rules
/// that do not exist.
fn resolve_captures(segs: &Vec<Segment>, rules: &RuleList) -> (r: (
    Vec<Option<usize>>,
    Vec<Option<usize>>,
    Vec<BindError>,
))
    requires
        rules.len() <= usize::MAX,
    ensures
        r.0@.len() == segs@.len(),
        r.1@.len() == segs@.len(),
        forall|k: int|
            0 <= k < segs@.len() ==> opt_int(#[trigger] r.0@[k]) == slot_of(segments_view(segs@), k),
        forall|k: int|
            0 <= k < segs@.len() ==> opt_int(#[trigger] r.1@[k]) == rule_index_of(
                segments_view(segs@),
                rules.positional@.len() as int,
                rules.names(),
                k,
            ),
        forall|f: BindFault|
            fault_kind(f) == 1 ==> (is_bind_fault(f, segments_view(segs@), *rules) <==> faults_view(
                r.2@,
            ).contains(f)),
        forall|i: int| 0 <= i < r.2@.len() ==> fault_kind(#[trigger] faults_view(r.2@)[i]) == 1,
{
    broadcast use vstd::seq_lib::group_seq_properties;

    let ghost v = segments_view(segs@);
    let ghost names = rules.names();
    let npos = rules.positional.len();
    let mut slots: Vec<Option<usize>> = Vec::new();
    let mut rix: Vec<Option<usize>> = Vec::new();
    let mut errs: Vec<BindError> = Vec::new();
    let mut pos_ctr: usize = 0;
    let mut rule_ctr: usize = 0;
    let mut k: usize = 0;
    while k < segs.len()
        invariant
            v == segments_view(segs@),
            names == rules.names(),
            npos == rules.positional@.len(),
            rules.len() <= usize::MAX,
            k <= segs@.len(),
            slots@.len() == k,
            rix@.len() == k,
            pos_ctr <= k,
            rule_ctr <= k,
            pos_ctr == implicit_positions_before(v, k as int),
            rule_ctr == implicit_rules_before(v, k as int),
            forall|j: int| 0 <= j < k ==> opt_int(#[trigger] slots@[j]) == slot_of(v, j),
            forall|j: int|
                0 <= j < k ==> opt_int(#[trigger] rix@[j]) == rule_index_of(v, npos as int, names, j),
            forall|f: BindFault|
                fault_kind(f) == 1 ==> ((is_bind_fault(f, v, *rules) && fault_index(f) < k)
                    <==> faults_view(errs@).contains(f)),
            forall|i: int| 0 <= i < errs@.len() ==> fault_kind(#[trigger] faults_view(errs@)[i]) == 1,
        decreases segs@.len() - k,
    {
        let ghost kk = k as int;
        assert(v[kk] == segs@[kk]@);
        let ghost errs0 = faults_view(errs@);
        assert(forall|f: BindFault|
            fault_kind(f) == 1 ==> ((is_bind_fault(f, v, *rules) && fault_index(f) < kk)
                <==> #[trigger] errs0.contains(f)));
        let ghost mut pushed: Option<BindFault> = None;
        match &segs[k] {
            Segment::Literal(_) => {
                slots.push(None);
                rix.push(None);
            },
            Segment::Capture(c) => {
                let slot = match c.pos {
                    CapturePos::Null => None,
                    CapturePos::Explicit(n) => Some(n),
                    CapturePos::Implicit => {
                        let s = pos_ctr;
                        pos_ctr = pos_ctr + 1;
                        Some(s)
                    },
                };
                let requested = match &c.rule {
                    CaptureRule::Implicit => {
                        let idx = rule_ctr;
                        rule_ctr = rule_ctr + 1;
                        Some(idx)
                    },
                    CaptureRule::Positional(n) => Some(*n),
                    CaptureRule::Named(_) => None,
                };
                assert(opt_int(requested) == requested_positional(v, kk));
                let resolved = match requested {
                    Some(idx) => {
                        if idx < npos {
                            Some(idx)
                        } else {
                            let e = BindError::InvalidPositional {
                                segment: k,
                                index: idx,
                                available: npos,
                            };
                            proof {
                                pushed = Some(e@);
                            }
                            push_fault(&mut errs, e);
                            None
                        }
                    },
                    None => {
                        let name = match &c.rule {
                            CaptureRule::Named(name) => name,
                            _ => {
                                proof {
                                    assert(false);
                                }
                                return (slots, rix, errs);
                            },
                        };
                        let found = find_named(&rules.named, name, rules.named.len());
                        proof {
                            lemma_find_name(names, name@, 0);
                        }
                        match found {
                            Some(i) => {
                                assert(names[i as int] == name@);
                                Some(npos + i)
                            },
                            None => {
                                let e = BindError::UnknownName { segment: k, name: name.clone() };
                                proof {
                                    pushed = Some(e@);
                                }
                                push_fault(&mut errs, e);
                                None
                            },
                        }
                    },
                };
                slots.push(slot);
                rix.push(resolved);
            },
        }
        proof {
            if pushed is None {
                assert(faults_view(errs@) == errs0);
            } else {
                assert(faults_view(errs@) == errs0.push(pushed->0));
                assert(is_bind_fault(pushed->0, v, *rules));
            }
            assert forall|f: BindFault|
                fault_kind(f) == 1 implies ((is_bind_fault(f, v, *rules) && fault_index(f) < kk + 1)
                <==> faults_view(errs@).contains(f)) by {
                assert((is_bind_fault(f, v, *rules) && fault_index(f) < kk) <==> errs0.contains(f));
                if fault_index(f) == kk && is_bind_fault(f, v, *rules) {
                    match f {
                        BindFault::InvalidPositional { segment, index, available } => {
                            assert(requested_positional(v, kk) == Some(index));
                        },
                        BindFault::UnknownName { segment, name } => {
                            assert(find_name(names, name, 0) is None);
                            assert(v[kk] == SegmentView::Capture(capture_pos(v[kk]), RuleRef::Named(name)));
                        },
                        _ => {},
                    }
                    assert(pushed == Some(f));
                    assert(errs0.push(f).contains(f)) by {
                        assert(errs0.push(f)[errs0.len() as int] == f);
                    }
                }
                if pushed is Some {
                    let e = pushed->0;
                    assert(fault_index(e) == kk && fault_kind(e) == 1);
                    assert(errs0.push(e).contains(f) ==> (errs0.contains(f) || f == e));
                    if errs0.contains(f) {
                        let i = choose|i: int| 0 <= i < errs0.len() && errs0[i] == f;
                        assert(errs0.push(e)[i] == f);
                    }
                } else {
                    assert(faults_view(errs@) == errs0);
                }
                assert(is_bind_fault(f, v, *rules) && fault_index(f) < kk + 1 ==> faults_view(errs@).contains(f));
                assert(faults_view(errs@).contains(f) ==> is_bind_fault(f, v, *rules) && fault_index(f) < kk + 1);
            }
        }
        k = k + 1;
    }
    (slots, rix, errs)
}

/// Reports each capture that fills a slot an earlier capture already fills.
fn check_duplicate_outputs(
    slots: &Vec<Option<usize>>,
    Ghost(v): Ghost<Seq<SegmentView>>,
    Ghost(rules): Ghost<RuleList>,
) -> (errs: Vec<BindError>)
    requires
        slots@.len() == v.len(),
        forall|k: int| 0 <= k < v.len() ==> opt_int(#[trigger] slots@[k]) == slot_of(v, k),
    ensures
        reported_upto(faults_view(errs@), 2, v.len() as int, v, rules),
{
    let mut errs: Vec<BindError> = Vec::new();
    let mut d: usize = 0;
    assert(reported_upto(faults_view(errs@), 2, 0, v, rules));
    while d < slots.len()
        invariant
            d <= slots@.len() == v.len(),
            forall|k: int| 0 <= k < v.len() ==> opt_int(#[trigger] slots@[k]) == slot_of(v, k),
            reported_upto(faults_view(errs@), 2, d as int, v, rules),
        decreases slots@.len() - d,
    {
        let ghost found0 = faults_view(errs@);
        let ghost mut pushed: Option<BindFault> = None;
        let ghost dd = d as int;
        if let Some(s) = slots[d] {
            assert(slot_of(v, dd) == Some(s as int));
            if let Some(j) = first_with(slots, s, d) {
                assert(slot_of(v, j as int) == Some(s as int));
                assert forall|k: int| 0 <= k < j implies slot_of(v, k) != Some(s as int) by {
                    assert(slots@[k] != Some(s));
                }
                let e = BindError::DuplicateOutput { slot: s, first: j, dup: d };
                proof {
                    pushed = Some(e@);
                }
                push_fault(&mut errs, e);
            }
        }
        proof {
            assert forall|f: BindFault|
                fault_kind(f) == 2 && fault_index(f) == dd && #[trigger] is_bind_fault(f, v, rules)
                    implies pushed == Some(f) by {
                if let BindFault::DuplicateOutput { slot, first, dup } = f {
                    assert(slots@[first] == Some(slot as usize));
                    assert(slots@[dd] == Some(slot as usize));
                    assert forall|k: int| 0 <= k < first implies slots@[k] != Some(slot as usize) by {
                        assert(slot_of(v, k) != Some(slot));
                    }
                }
            }
            lemma_check_step(found0, faults_view(errs@), pushed, 2, dd, v, rules);
        }
        d = d + 1;
    }
    errs
}

/// Number of segments that fill a slot.
fn count_outputs(slots: &Vec<Option<usize>>, Ghost(v): Ghost<Seq<SegmentView>>) -> (n: usize)
    requires
        slots@.len() == v.len(),
        forall|k: int| 0 <= k < v.len() ==> opt_int(#[trigger] slots@[k]) == slot_of(v, k),
    ensures
        n == output_count(v),
{
    let mut n: usize = 0;
    let mut k: usize = 0;
    while k < slots.len()
        invariant
            k <= slots@.len() == v.len(),
            n <= k,
            forall|j: int| 0 <= j < v.len() ==> opt_int(#[trigger] slots@[j]) == slot_of(v, j),
            n == outputs_before(v, k as int),
        decreases slots@.len() - k,
    {
        assert(opt_int(slots@[k as int]) == slot_of(v, k as int));
        if slots[k].is_some() {
            n = n + 1;
        }
        k = k + 1;
    }
    n
}

/// The largest slot that a segment fills, if any.
fn largest_slot(slots: &Vec<Option<usize>>, Ghost(v): Ghost<Seq<SegmentView>>) -> (m: Option<usize>)
    requires
        slots@.len() == v.len(),
        forall|k: int| 0 <= k < v.len() ==> opt_int(#[trigger] slots@[k]) == slot_of(v, k),
    ensures
        match m {
            Some(x) => x as int == slot_max(v, v.len() as int),
            None => slot_max(v, v.len() as int) == -1,
        },
{
    let mut m: Option<usize> = None;
    let mut k: usize = 0;
    while k < slots.len()
        invariant
            k <= slots@.len() == v.len(),
            forall|j: int| 0 <= j < v.len() ==> opt_int(#[trigger] slots@[j]) == slot_of(v, j),
            match m {
                Some(x) => x as int == slot_max(v, k as int),
                None => slot_max(v, k as int) == -1,
            },
        decreases slots@.len() - k,
    {
        assert(opt_int(slots@[k as int]) == slot_of(v, k as int));
        if let Some(x) = slots[k] {
            m = match m {
                Some(y) => if x > y {
                    Some(x)
                } else {
                    Some(y)
                },
                None => Some(x),
            };
        }
        k = k + 1;
    }
    m
}

/// Reports each slot below the largest filled one that no segment fills.
fn check_missing_outputs(
    slots: &Vec<Option<usize>>,
    bound: usize,
    Ghost(v): Ghost<Seq<SegmentView>>,
    Ghost(rules): Ghost<RuleList>,
) -> (errs: Vec<BindError>)
    requires
        slots@.len() == v.len(),
        forall|k: int| 0 <= k < v.len() ==> opt_int(#[trigger] slots@[k]) == slot_of(v, k),
        bound as int == (if slot_max(v, v.len() as int) >= 0 {
            slot_max(v, v.len() as int)
        } else {
            0
        }),
    ensures
        reported_upto(faults_view(errs@), 3, bound as int, v, rules),
        forall|f: BindFault| fault_kind(f) == 3 && is_bind_fault(f, v, rules) ==> fault_index(f) < bound,
{
    let mut errs: Vec<BindError> = Vec::new();
    let mut s: usize = 0;
    assert(reported_upto(faults_view(errs@), 3, 0, v, rules));
    while s < bound
        invariant
            s <= bound,
            bound as int == (if slot_max(v, v.len() as int) >= 0 {
                slot_max(v, v.len() as int)
            } else {
                0
            }),
            slots@.len() == v.len(),
            forall|k: int| 0 <= k < v.len() ==> opt_int(#[trigger] slots@[k]) == slot_of(v, k),
            reported_upto(faults_view(errs@), 3, s as int, v, rules),
        decreases bound - s,
    {
        let ghost found0 = faults_view(errs@);
        let ghost mut pushed: Option<BindFault> = None;
        let ghost ss = s as int;
        let found = first_with(slots, s, slots.len());
        if found.is_none() {
            assert forall|k: int| 0 <= k < v.len() implies slot_of(v, k) != Some(ss) by {
                assert(slots@[k] != Some(s));
            }
            let e = BindError::MissingOutput { slot: s };
            proof {
                pushed = Some(e@);
            }
            push_fault(&mut errs, e);
        }
        proof {
            assert forall|f: BindFault|
                fault_kind(f) == 3 && fault_index(f) == ss && #[trigger] is_bind_fault(f, v, rules)
                    implies pushed == Some(f) by {
                if found is Some {
                    let j = found->0 as int;
                    assert(slot_of(v, j) == Some(ss));
                }
            }
            lemma_check_step(found0, faults_view(errs@), pushed, 3, ss, v, rules);
        }
        s = s + 1;
    }
    errs
}

/// Reports each named rule whose name an earlier named rule already has.
fn check_duplicate_names(
    named: &Vec<(String, Rule)>,
    Ghost(v): Ghost<Seq<SegmentView>>,
    Ghost(rules): Ghost<RuleList>,
) -> (errs: Vec<BindError>)
    requires
        rules.named@ == named@,
    ensures
        reported_upto(faults_view(errs@), 4, named@.len() as int, v, rules),
{
    let mut errs: Vec<BindError> = Vec::new();
    let mut d: usize = 0;
    assert(reported_upto(faults_view(errs@), 4, 0, v, rules));
    while d < named.len()
        invariant
            d <= named@.len(),
            rules.named@ == named@,
            reported_upto(faults_view(errs@), 4, d as int, v, rules),
        decreases named@.len() - d,
    {
        let ghost found0 = faults_view(errs@);
        let ghost mut pushed: Option<BindFault> = None;
        let ghost dd = d as int;
        let ghost names = rules.names();
        assert(names[dd] == named@[dd].0@);
        if let Some(j) = find_named(named, &named[d].0, d) {
            assert(names[j as int] == named@[j as int].0@);
            assert forall|k: int| 0 <= k < j implies names[k] != names[dd] by {
                assert(names[k] == named@[k].0@);
            }
            let e = BindError::DuplicateName { name: named[d].0.clone(), first: j, dup: d };
            proof {
                pushed = Some(e@);
            }
            push_fault(&mut errs, e);
        }
        proof {
            assert forall|f: BindFault|
                fault_kind(f) == 4 && fault_index(f) == dd && #[trigger] is_bind_fault(f, v, rules)
                    implies pushed == Some(f) by {
                if let BindFault::DuplicateName { name, first, dup } = f {
                    assert(named@[first].0@ == name);
                    assert forall|k: int| 0 <= k < first implies named@[k].0@ != name by {
                        assert(names[k] == named@[k].0@);
                    }
                }
            }
            lemma_check_step(found0, faults_view(errs@), pushed, 4, dd, v, rules);
        }
        d = d + 1;
    }
    errs
}

/// Reports each rule that no capture uses.
fn check_unused_rules(
    rix: &Vec<Option<usize>>,
    total: usize,
    Ghost(v): Ghost<Seq<SegmentView>>,
    Ghost(rules): Ghost<RuleList>,
) -> (errs: Vec<BindError>)
    requires
        rix@.len() == v.len(),
        total == rules.len(),
        forall|k: int|
            0 <= k < v.len() ==> opt_int(#[trigger] rix@[k]) == rule_index_of(
                v,
                rules.positional@.len() as int,
                rules.names(),
                k,
            ),
    ensures
        reported_upto(faults_view(errs@), 5, total as int, v, rules),
{
    let mut errs: Vec<BindError> = Vec::new();
    let mut r: usize = 0;
    assert(reported_upto(faults_view(errs@), 5, 0, v, rules));
    while r < total
        invariant
            r <= total == rules.len(),
            rix@.len() == v.len(),
            forall|k: int|
                0 <= k < v.len() ==> opt_int(#[trigger] rix@[k]) == rule_index_of(
                    v,
                    rules.positional@.len() as int,
                    rules.names(),
                    k,
                ),
            reported_upto(faults_view(errs@), 5, r as int, v, rules),
        decreases total - r,
    {
        let ghost found0 = faults_view(errs@);
        let ghost mut pushed: Option<BindFault> = None;
        let ghost rr = r as int;
        let found = first_with(rix, r, rix.len());
        if found.is_none() {
            assert forall|k: int| 0 <= k < v.len() implies rule_index_of(
                v,
                rules.positional@.len() as int,
                rules.names(),
                k,
            ) != Some(rr) by {
                assert(rix@[k] != Some(r));
            }
            let e = BindError::UnusedRule { index: r };
            proof {
                pushed = Some(e@);
            }
            push_fault(&mut errs, e);
        }
        proof {
            assert forall|f: BindFault|
                fault_kind(f) == 5 && fault_index(f) == rr && #[trigger] is_bind_fault(f, v, rules)
                    implies pushed == Some(f) by {
                if found is Some {
                    let j = found->0 as int;
                    assert(opt_int(rix@[j]) == Some(rr));
                }
            }
            lemma_check_step(found0, faults_view(errs@), pushed, 5, rr, v, rules);
        }
        r = r + 1;
    }
    errs
}

/// Whether rule `r` (positional ones first) has no type.
fn rule_is_null(rules: &RuleList, r: usize) -> (b: bool)
    requires
        r < rules.len(),
    ensures
        b == (rules.flat()[r as int] is Null),
{
    let npos = rules.positional.len();
    let rule = if r < npos {
        &rules.positional[r]
    } else {
        assert(rules.flat()[r as int] == rules.named@[r - npos].1);
        &rules.named[r - npos].1
    };
    match rule {
        Rule::Null { .. } => true,
        _ => false,
    }
}

/// Reports each capture that keeps a value but uses a rule without a type.
fn check_untyped(
    slots: &Vec<Option<usize>>,
    rix: &Vec<Option<usize>>,
    rules: &RuleList,
    Ghost(v): Ghost<Seq<SegmentView>>,
) -> (errs: Vec<BindError>)
    requires
        slots@.len() == v.len(),
        rix@.len() == v.len(),
        forall|k: int| 0 <= k < v.len() ==> opt_int(#[trigger] slots@[k]) == slot_of(v, k),
        forall|k: int|
            0 <= k < v.len() ==> opt_int(#[trigger] rix@[k]) == rule_index_of(
                v,
                rules.positional@.len() as int,
                rules.names(),
                k,
            ),
        forall|k: int| 0 <= k < v.len() && #[trigger] rix@[k] is Some ==> rix@[k]->0 < rules.len(),
    ensures
        reported_upto(faults_view(errs@), 6, v.len() as int, v, *rules),
{
    let mut errs: Vec<BindError> = Vec::new();
    let mut k: usize = 0;
    assert(reported_upto(faults_view(errs@), 6, 0, v, *rules));
    while k < slots.len()
        invariant
            k <= slots@.len() == v.len(),
            rix@.len() == v.len(),
            forall|j: int| 0 <= j < v.len() ==> opt_int(#[trigger] slots@[j]) == slot_of(v, j),
            forall|j: int|
                0 <= j < v.len() ==> opt_int(#[trigger] rix@[j]) == rule_index_of(
                    v,
                    rules.positional@.len() as int,
                    rules.names(),
                    j,
                ),
            forall|j: int| 0 <= j < v.len() && #[trigger] rix@[j] is Some ==> rix@[j]->0 < rules.len(),
            reported_upto(faults_view(errs@), 6, k as int, v, *rules),
        decreases slots@.len() - k,
    {
        let ghost found0 = faults_view(errs@);
        let ghost mut pushed: Option<BindFault> = None;
        let ghost kk = k as int;
        assert(opt_int(slots@[kk]) == slot_of(v, kk));
        assert(opt_int(rix@[kk]) == rule_index_of(v, rules.positional@.len() as int, rules.names(), kk));
        if slots[k].is_some() {
            if let Some(r) = rix[k] {
                if rule_is_null(rules, r) {
                    let e = BindError::UntypedCaptureUsed { segment: k, rule: r };
                    proof {
                        pushed = Some(e@);
                    }
                    push_fault(&mut errs, e);
                }
            }
        }
        proof {
            lemma_check_step(found0, faults_view(errs@), pushed, 6, kk, v, *rules);
        }
        k = k + 1;
    }
    errs
}

proof fn lemma_rule_index_bound(v: Seq<SegmentView>, npos: int, names: Seq<Seq<char>>, k: int)
    requires
        0 <= npos,
        0 <= k < v.len(),
    ensures
        rule_index_of(v, npos, names, k) matches Some(x) ==> 0 <= x < npos + names.len(),
{
    if let SegmentView::Capture(_, RuleRef::Named(name)) = v[k] {
        lemma_find_name(names, name, 0);
    }
}

proof fn lemma_first_slot(v: Seq<SegmentView>, s: int, k: int)
    requires
        0 <= k < v.len(),
        slot_of(v, k) == Some(s),
    ensures
        exists|j: int|
            0 <= j <= k && #[trigger] slot_of(v, j) == Some(s) && forall|i: int|
                0 <= i < j ==> slot_of(v, i) != Some(s),
    decreases k,
{
    if exists|i: int| 0 <= i < k && #[trigger] slot_of(v, i) == Some(s) {
        let i = choose|i: int| 0 <= i < k && #[trigger] slot_of(v, i) == Some(s);
        lemma_first_slot(v, s, i);
    } else {
        assert(forall|i: int| 0 <= i < k ==> slot_of(v, i) != Some(s));
    }
}

/// Some segment of `v` fills slot `s`.
pub open spec fn slot_used(v: Seq<SegmentView>, s: int) -> bool {
    exists|k: int| 0 <= k < v.len() && #[trigger] slot_of(v, k) == Some(s)
}

proof fn lemma_slot_max(v: Seq<SegmentView>, k: int)
    requires
        0 <= k <= v.len(),
    ensures
        slot_max(v, k) >= -1,
        forall|j: int| 0 <= j < k && #[trigger] slot_of(v, j) is Some ==> slot_of(v, j)->0 <= slot_max(v, k),
        slot_max(v, k) >= 0 ==> exists|j: int| 0 <= j < k && #[trigger] slot_of(v, j) == Some(slot_max(v, k)),
    decreases k,
{
    if k > 0 {
        lemma_slot_max(v, k - 1);
        if slot_max(v, k) >= 0 && slot_max(v, k) != slot_max(v, k - 1) {
            assert(slot_of(v, k - 1) == Some(slot_max(v, k)));
        }
    }
}

/// No two segments fill the same slot.
pub open spec fn slots_distinct(v: Seq<SegmentView>) -> bool {
    forall|k1: int, k2: int|
        0 <= k1 < k2 < v.len() && #[trigger] slot_of(v, k1) is Some ==> slot_of(v, k1)
            != #[trigger] slot_of(v, k2)
}

proof fn lemma_slot_seq_distinct(v: Seq<SegmentView>, k: int)
    requires
        0 <= k <= v.len(),
        slots_distinct(v),
    ensures
        slot_seq(v, k).no_duplicates(),
    decreases k,
{
    broadcast use vstd::seq_lib::group_seq_properties;

    if k > 0 {
        lemma_slot_seq_distinct(v, k - 1);
        lemma_slot_seq(v, k - 1);
        let prev = slot_seq(v, k - 1);
        if slot_of(v, k - 1) is Some {
            let x = slot_of(v, k - 1)->0;
            assert(!prev.contains(x)) by {
                if prev.contains(x) {
                    let j = choose|j: int| 0 <= j < k - 1 && #[trigger] slot_of(v, j) == Some(x);
                    assert(slot_of(v, j) != slot_of(v, k - 1));
                }
            }
            assert forall|a: int, b: int|
                0 <= a < b < prev.push(x).len() implies prev.push(x)[a] != prev.push(x)[b] by {
                if b == prev.len() {
                    assert(prev.contains(prev[a]));
                }
            }
        }
    }
}

/// With distinct slots and none missing below the largest, the slots filled
/// are exactly `0..output_count(v)`.
proof fn lemma_slots_cover_count(v: Seq<SegmentView>)
    requires
        slots_distinct(v),
        forall|s: int| 0 <= s < slot_max(v, v.len() as int) ==> #[trigger] slot_used(v, s),
    ensures
        forall|k: int|
            0 <= k < v.len() && #[trigger] slot_of(v, k) is Some ==> slot_of(v, k)->0 < output_count(
                v,
            ),
        forall|s: int| 0 <= s < output_count(v) ==> #[trigger] slot_used(v, s),
{
    broadcast use vstd::seq_lib::group_seq_properties;
    broadcast use vstd::seq_lib::seq_to_set_is_finite;

    let n = v.len() as int;
    let m = slot_max(v, n);
    lemma_slot_seq(v, n);
    lemma_slot_seq_distinct(v, n);
    lemma_slot_max(v, n);
    let sq = slot_seq(v, n);
    if m < 0 {
        assert forall|k: int| 0 <= k < v.len() implies !(#[trigger] slot_of(v, k) is Some) by {
            if slot_of(v, k) is Some {
                assert(slot_of(v, k)->0 >= 0) by {
                    if slot_of(v, k) is Some {
                        match v[k] {
                            SegmentView::Capture(CapturePos::Explicit(_), _) => {},
                            _ => {},
                        }
                    }
                }
            }
        }
        if sq.len() > 0 {
            assert(sq.contains(sq[0]));
        }
    } else {
        let range = vstd::set_lib::set_int_range(0, m + 1);
        vstd::set_lib::lemma_int_range(0, m + 1);
        assert forall|x: int| sq.to_set().contains(x) <==> range.contains(x) by {
            if sq.contains(x) {
                let j = choose|j: int| 0 <= j < n && #[trigger] slot_of(v, j) == Some(x);
                assert(x >= 0) by {
                    match v[j] {
                        SegmentView::Capture(CapturePos::Explicit(_), _) => {},
                        _ => {},
                    }
                }
            }
            if 0 <= x <= m {
                if x < m {
                    assert(slot_used(v, x));
                    let j = choose|j: int| 0 <= j < n && #[trigger] slot_of(v, j) == Some(x);
                } else {
                    let j = choose|j: int| 0 <= j < n && #[trigger] slot_of(v, j) == Some(m);
                }
                assert(sq.contains(x));
            }
        }
        assert(sq.to_set() =~= range);
        sq.unique_seq_to_set();
        assert forall|s: int| 0 <= s < output_count(v) implies #[trigger] slot_used(v, s) by {
            if s < m {
            } else {
                let j = choose|j: int| 0 <= j < n && #[trigger] slot_of(v, j) == Some(m);
            }
        }
    }
}

/// Binds parsed template segments to declared rules.
///
/// Every capture's slot and rule are resolved; then the combination is
/// checked, and every problem found is reported together rather than only
/// the first. Without problems the result is a valid plan.
pub fn bind(segments: Vec<Segment>, rules: RuleList) -> (r: Result<ScanPlan, Vec<BindError>>)
    requires
        rules.len() <= usize::MAX,
    ensures
        match r {
            Ok(plan) => {
                &&& forall|f: BindFault| !is_bind_fault(f, segments_view(segments@), rules)
                &&& plan.wf()
                &&& plan.rules@ == rules.flat()
                &&& plan.outputs == output_count(segments_view(segments@))
                &&& plan.segs().len() == segments@.len()
                &&& forall|k: int|
                    0 <= k < segments@.len() ==> resolves_to(
                        #[trigger] plan.segs()[k],
                        segments_view(segments@),
                        rules.positional@.len() as int,
                        rules.names(),
                        k,
                    )
            },
            Err(errs) => errs@.len() > 0 && forall|f: BindFault|
                is_bind_fault(f, segments_view(segments@), rules) <==> faults_view(errs@).contains(f),
        },
{
    broadcast use vstd::seq_lib::group_seq_properties;

    let ghost v = segments_view(segments@);
    let ghost names = rules.names();
    let npos = rules.positional.len();
    let total = rules.positional.len() + rules.named.len();
    let (slots, rix, mut errs) = resolve_captures(&segments, &rules);
    proof {
        assert forall|k: int| 0 <= k < v.len() && #[trigger] rix@[k] is Some implies rix@[k]->0
            < rules.len() by {
            assert(opt_int(rix@[k]) == rule_index_of(v, npos as int, names, k));
            lemma_rule_index_bound(v, npos as int, names, k);
        }
    }
    let mut e2 = check_duplicate_outputs(&slots, Ghost(v), Ghost(rules));
    let n_out = count_outputs(&slots, Ghost(v));
    let bound = match largest_slot(&slots, Ghost(v)) {
        Some(m) => m,
        None => 0,
    };
    let mut e3 = check_missing_outputs(&slots, bound, Ghost(v), Ghost(rules));
    let mut e4 = check_duplicate_names(&rules.named, Ghost(v), Ghost(rules));
    let mut e5 = check_unused_rules(&rix, total, Ghost(v), Ghost(rules));
    let mut e6 = check_untyped(&slots, &rix, &rules, Ghost(v));
    let ghost f1 = faults_view(errs@);
    let ghost f2 = faults_view(e2@);
    let ghost f3 = faults_view(e3@);
    let ghost f4 = faults_view(e4@);
    let ghost f5 = faults_view(e5@);
    let ghost f6 = faults_view(e6@);
    let ghost e1s = errs@;
    let ghost e2s = e2@;
    let ghost e3s = e3@;
    let ghost e4s = e4@;
    let ghost e5s = e5@;
    let ghost e6s = e6@;
    errs.append(&mut e2);
    errs.append(&mut e3);
    errs.append(&mut e4);
    errs.append(&mut e5);
    errs.append(&mut e6);
    proof {
        assert(faults_view(errs@) =~= f1 + f2 + f3 + f4 + f5 + f6);
        let all = faults_view(errs@);
        assert forall|f: BindFault| is_bind_fault(f, v, rules) <==> all.contains(f) by {
            assert(all.contains(f) <==> (f1.contains(f) || f2.contains(f) || f3.contains(f)
                || f4.contains(f) || f5.contains(f) || f6.contains(f)));
            if f1.contains(f) {
                let i = choose|i: int| 0 <= i < f1.len() && f1[i] == f;
            }
            if f2.contains(f) {
                let i = choose|i: int| 0 <= i < f2.len() && f2[i] == f;
            }
            if f3.contains(f) {
                let i = choose|i: int| 0 <= i < f3.len() && f3[i] == f;
            }
            if f4.contains(f) {
                let i = choose|i: int| 0 <= i < f4.len() && f4[i] == f;
            }
            if f5.contains(f) {
                let i = choose|i: int| 0 <= i < f5.len() && f5[i] == f;
            }
            if f6.contains(f) {
                let i = choose|i: int| 0 <= i < f6.len() && f6[i] == f;
            }
            if is_bind_fault(f, v, rules) {
                assert(fault_index(f) < v.len() || fault_kind(f) == 3 || fault_kind(f) == 4
                    || fault_kind(f) == 5);
            }
        }
    }
    if errs.len() > 0 {
        return Err(errs);
    }
    proof {
        assert forall|f: BindFault| !is_bind_fault(f, v, rules) by {
            if is_bind_fault(f, v, rules) {
                assert(faults_view(errs@).contains(f));
            }
        }
    }
    // Flatten the rules: positional ones first, then named ones.
    let mut flat: Vec<Rule> = Vec::new();
    let mut i: usize = 0;
    while i < rules.positional.len()
        invariant
            i <= rules.positional@.len(),
            flat@ == rules.positional@.take(i as int),
        decreases rules.positional@.len() - i,
    {
        flat.push(rules.positional[i].duplicate());
        i = i + 1;
        assert(flat@ =~= rules.positional@.take(i as int));
    }
    let mut j: usize = 0;
    assert(rules.positional@.take(npos as int) =~= rules.positional@);
    while j < rules.named.len()
        invariant
            j <= rules.named@.len(),
            flat@ == rules.positional@ + rules.named@.map_values(|e: (String, Rule)| e.1).take(
                j as int,
            ),
        decreases rules.named@.len() - j,
    {
        flat.push(rules.named[j].1.duplicate());
        j = j + 1;
        assert(flat@ =~= rules.positional@ + rules.named@.map_values(|e: (String, Rule)| e.1).take(
            j as int,
        ));
    }
    assert(rules.named@.map_values(|e: (String, Rule)| e.1).take(rules.named@.len() as int)
        =~= rules.named@.map_values(|e: (String, Rule)| e.1));
    // Resolve each segment.
    let mut out: Vec<ResolvedSegment> = Vec::new();
    let mut k: usize = 0;
    while k < segments.len()
        invariant
            k <= segments@.len() == v.len(),
            v == segments_view(segments@),
            names == rules.names(),
            npos == rules.positional@.len(),
            slots@.len() == v.len(),
            rix@.len() == v.len(),
            forall|j: int| 0 <= j < v.len() ==> opt_int(#[trigger] slots@[j]) == slot_of(v, j),
            forall|j: int|
                0 <= j < v.len() ==> opt_int(#[trigger] rix@[j]) == rule_index_of(v, npos as int, names, j),
            forall|f: BindFault| !is_bind_fault(f, v, rules),
            out@.len() == k,
            forall|j: int| 0 <= j < k ==> resolves_to(#[trigger] out@[j]@, v, npos as int, names, j),
        decreases segments@.len() - k,
    {
        let ghost kk = k as int;
        assert(v[kk] == segments@[kk]@);
        assert(opt_int(rix@[kk]) == rule_index_of(v, npos as int, names, kk));
        assert(opt_int(slots@[kk]) == slot_of(v, kk));
        match &segments[k] {
            Segment::Literal(t) => {
                out.push(ResolvedSegment::Literal(t.clone()));
            },
            Segment::Capture(c) => {
                let rule = match rix[k] {
                    Some(r) => r,
                    None => {
                        proof {
                            match v[kk] {
                                SegmentView::Capture(p, RuleRef::Named(name)) => {
                                    assert(is_bind_fault(
                                        BindFault::UnknownName { segment: kk, name },
                                        v,
                                        rules,
                                    ));
                                },
                                _ => {
                                    let idx = requested_positional(v, kk)->0;
                                    assert(is_bind_fault(
                                        BindFault::InvalidPositional {
                                            segment: kk,
                                            index: idx,
                                            available: npos as int,
                                        },
                                        v,
                                        rules,
                                    ));
                                },
                            }
                        }
                        return Err(errs);
                    },
                };
                out.push(ResolvedSegment::Capture { slot: slots[k], rule });
            },
        }
        k = k + 1;
    }
    let plan = ScanPlan { segments: out, rules: flat, outputs: n_out };
    proof {
        let ps = plan.segs();
        assert(ps.len() == v.len());
        assert forall|k: int| 0 <= k < v.len() implies #[trigger] ps[k] == out@[k]@ by {}
        // No slot missing below the largest, and no slot filled twice.
        assert forall|s: int| 0 <= s < slot_max(v, v.len() as int) implies #[trigger] slot_used(
            v,
            s,
        ) by {
            if !slot_used(v, s) {
                assert(is_bind_fault(BindFault::MissingOutput { slot: s }, v, rules));
            }
        }
        assert forall|k1: int, k2: int|
            0 <= k1 < k2 < v.len() && #[trigger] slot_of(v, k1) is Some implies slot_of(v, k1)
            != #[trigger] slot_of(v, k2) by {
            if slot_of(v, k1) == slot_of(v, k2) {
                let s = slot_of(v, k1)->0;
                lemma_first_slot(v, s, k1);
                let j = choose|j: int|
                    0 <= j <= k1 && #[trigger] slot_of(v, j) == Some(s) && forall|i: int|
                        0 <= i < j ==> slot_of(v, i) != Some(s);
                assert(is_bind_fault(BindFault::DuplicateOutput { slot: s, first: j, dup: k2 }, v, rules));
            }
        }
        lemma_slots_cover_count(v);
        assert forall|k: int| 0 <= k < ps.len() && #[trigger] rule_at(ps, k) is Some implies rule_at(
            ps,
            k,
        )->0 < plan.rules@.len() by {
            lemma_rule_index_bound(v, npos as int, names, k);
        }
        assert forall|k: int| 0 <= k < ps.len() && #[trigger] slot_at(ps, k) is Some implies slot_at(
            ps,
            k,
        )->0 < plan.outputs && rule_at(ps, k) is Some && !(plan.rules@[rule_at(ps, k)->0 as int] is Null) by {
            assert(slot_of(v, k) is Some);
            let r = rule_at(ps, k)->0 as int;
            if plan.rules@[r] is Null {
                assert(is_bind_fault(BindFault::UntypedCaptureUsed { segment: k, rule: r }, v, rules));
            }
        }
        assert forall|s: int| 0 <= s < plan.outputs implies #[trigger] slot_filled(ps, s) by {
            assert(slot_used(v, s));
            let k = choose|k: int| 0 <= k < v.len() && #[trigger] slot_of(v, k) == Some(s);
            assert(opt_int(slot_at(ps, k)) == Some(s));
        }
        assert forall|k1: int, k2: int|
            0 <= k1 < k2 < ps.len() && #[trigger] slot_at(ps, k1) is Some implies slot_at(ps, k1)
            != #[trigger] slot_at(ps, k2) by {
            if slot_at(ps, k1) == slot_at(ps, k2) {
                let s = slot_of(v, k1)->0;
                lemma_first_slot(v, s, k1);
                let j = choose|j: int|
                    0 <= j <= k1 && #[trigger] slot_of(v, j) == Some(s) && forall|i: int|
                        0 <= i < j ==> slot_of(v, i) != Some(s);
                assert(is_bind_fault(BindFault::DuplicateOutput { slot: s, first: j, dup: k2 }, v, rules));
            }
        }
        assert forall|r: int| 0 <= r < plan.rules@.len() implies #[trigger] rule_used(ps, r) by {
            if !exists|k: int| 0 <= k < v.len() && rule_index_of(v, npos as int, names, k) == Some(r) {
                assert(is_bind_fault(BindFault::UnusedRule { index: r }, v, rules));
            }
            let k = choose|k: int| 0 <= k < v.len() && rule_index_of(v, npos as int, names, k) == Some(r);
            assert(opt_int(rule_at(ps, k)) == Some(r));
        }
    }
    Ok(plan)
}

} // verus!
