//! Rules: what a capture must match and the type its text is read as.
use vstd::prelude::*;

verus! {

/// The integer types a capture can be read as.
#[derive(Clone, Copy, Debug, PartialEq, Eq, Structural)]
pub enum IntKind {
    I8,
    I16,
    I32,
    I64,
    I128,
    Isize,
    U8,
    U16,
    U32,
    U64,
    U128,
    Usize,
}

/// The base an integer is written in.
#[derive(Clone, Copy, Debug, PartialEq, Eq, Structural)]
pub enum Radix {
    Decimal,
    Binary,
    Octal,
    Hex,
}

/// The type of value a capture produces.
#[derive(Clone, Copy, Debug, PartialEq, Eq, Structural)]
pub enum ValueType {
    Bool,
    Char,
    Str,
    Int(IntKind, Radix),
}

/// Integers of the given kind written in binary.
#[derive(Clone, Copy, Debug, PartialEq, Eq, Structural)]
pub struct Binary(pub IntKind);

/// Integers of the given kind written in octal.
#[derive(Clone, Copy, Debug, PartialEq, Eq, Structural)]
pub struct Octal(pub IntKind);

/// Integers of the given kind written in hexadecimal.
#[derive(Clone, Copy, Debug, PartialEq, Eq, Structural)]
pub struct Hex(pub IntKind);

impl Binary {
    pub fn value_type(self) -> (r: ValueType)
        ensures
            r == ValueType::Int(self.0, Radix::Binary),
    {
        ValueType::Int(self.0, Radix::Binary)
    }
}

impl Octal {
    pub fn value_type(self) -> (r: ValueType)
        ensures
            r == ValueType::Int(self.0, Radix::Octal),
    {
        ValueType::Int(self.0, Radix::Octal)
    }
}

impl Hex {
    pub fn value_type(self) -> (r: ValueType)
        ensures
            r == ValueType::Int(self.0, Radix::Hex),
    {
        ValueType::Int(self.0, Radix::Hex)
    }
}

pub open spec fn is_signed(k: IntKind) -> bool {
    match k {
        IntKind::I8 | IntKind::I16 | IntKind::I32 | IntKind::I64 | IntKind::I128
        | IntKind::Isize => true,
        _ => false,
    }
}

/// The pattern a rule that names only a type is matched with.
pub open spec fn default_pattern_of(t: ValueType) -> Seq<char> {
    match t {
        ValueType::Bool => "true|false"@,
        ValueType::Char => "."@,
        ValueType::Str => "\\w+"@,
        ValueType::Int(k, Radix::Decimal) => if is_signed(k) {
            "[+-]?[0-9]+"@
        } else {
            "\\+?[0-9]+"@
        },
        ValueType::Int(k, Radix::Binary) => if is_signed(k) {
            "[+-]?[01]+"@
        } else {
            "\\+?[01]+"@
        },
        ValueType::Int(k, Radix::Octal) => if is_signed(k) {
            "[+-]?[0-7]+"@
        } else {
            "\\+?[0-7]+"@
        },
        ValueType::Int(k, Radix::Hex) => if is_signed(k) {
            "[+-]?[0-9A-Za-z]+"@
        } else {
            "\\+?[0-9A-Za-z]+"@
        },
    }
}

pub fn int_is_signed(k: IntKind) -> (r: bool)
    ensures
        r == is_signed(k),
{
    match k {
        IntKind::I8 | IntKind::I16 | IntKind::I32 | IntKind::I64 | IntKind::I128
        | IntKind::Isize => true,
        _ => false,
    }
}

/// The pattern that a rule naming only the type `t` is matched with.
pub fn default_pattern(t: ValueType) -> (r: &'static str)
    ensures
        r@ == default_pattern_of(t),
{
    match t {
        ValueType::Bool => "true|false",
        ValueType::Char => ".",
        ValueType::Str => "\\w+",
        ValueType::Int(k, Radix::Decimal) => if int_is_signed(k) {
            "[+-]?[0-9]+"
        } else {
            "\\+?[0-9]+"
        },
        ValueType::Int(k, Radix::Binary) => if int_is_signed(k) {
            "[+-]?[01]+"
        } else {
            "\\+?[01]+"
        },
        ValueType::Int(k, Radix::Octal) => if int_is_signed(k) {
            "[+-]?[0-7]+"
        } else {
            "\\+?[0-7]+"
        },
        ValueType::Int(k, Radix::Hex) => if int_is_signed(k) {
            "[+-]?[0-9A-Za-z]+"
        } else {
            "\\+?[0-9A-Za-z]+"
        },
    }
}

/// One declared rule.
#[derive(Debug, PartialEq, Eq)]
pub enum Rule {
    /// Match the pattern and produce nothing; only for captures that keep nothing.
    Null { pattern: String },
    /// Match the registry's pattern for the type and read the text as that type.
    Default { typ: ValueType },
    /// Match the given pattern and read the text as the type.
    Custom { pattern: String, typ: ValueType },
}

/// The pattern text that rule `r` is matched with.
pub open spec fn rule_pattern(r: Rule) -> Seq<char> {
    match r {
        Rule::Null { pattern } => pattern@,
        Rule::Default { typ } => default_pattern_of(typ),
        Rule::Custom { pattern, .. } => pattern@,
    }
}

impl Rule {
    /// An identical copy of the rule.
    pub fn duplicate(&self) -> (r: Rule)
        ensures
            r == *self,
    {
        match self {
            Rule::Null { pattern } => Rule::Null { pattern: pattern.clone() },
            Rule::Default { typ } => Rule::Default { typ: *typ },
            Rule::Custom { pattern, typ } => Rule::Custom { pattern: pattern.clone(), typ: *typ },
        }
    }

    /// The pattern text this rule is matched with.
    pub fn pattern(&self) -> (r: &str)
        ensures
            r@ == rule_pattern(*self),
    {
        match self {
            Rule::Null { pattern } => pattern.as_str(),
            Rule::Default { typ } => default_pattern(*typ),
            Rule::Custom { pattern, .. } => pattern.as_str(),
        }
    }
}

/// One entry of a rule list: a rule, declared under a name or by position.
#[derive(Debug, PartialEq, Eq)]
pub struct Arg {
    pub name: Option<String>,
    pub rule: Rule,
}

/// Why a rule list was rejected.
#[derive(Clone, Copy, Debug, PartialEq, Eq, Structural)]
pub enum ArgError {
    /// The entry at this index is positional but follows a named one.
    PositionalAfterNamed { index: usize },
}

/// Declared rules: positional ones first, then named ones, each in order.
#[derive(Debug, PartialEq, Eq)]
pub struct RuleList {
    pub positional: Vec<Rule>,
    pub named: Vec<(String, Rule)>,
}

/// The first index of a positional entry that follows a named one.
pub open spec fn first_misplaced(args: Seq<Arg>) -> Option<int> {
    if exists|j: int|
        0 <= j < args.len() && args[j].name is None && exists|i: int|
            0 <= i < j && #[trigger] args[i].name is Some {
        Some(
            choose|j: int|
                0 <= j < args.len() && args[j].name is None && (exists|i: int|
                    0 <= i < j && #[trigger] args[i].name is Some) && forall|k: int|
                    0 <= k < j ==> !(args[k].name is None && exists|i: int|
                        0 <= i < k && #[trigger] args[i].name is Some),
        )
    } else {
        None
    }
}

/// `list` holds the rules of `args` sorted: the unnamed ones as positional
/// rules and the named ones under their names, each in order.
pub open spec fn sorted_args(args: Seq<Arg>, list: RuleList) -> bool {
    &&& list.positional@ == args.filter(|a: Arg| a.name is None).map_values(|a: Arg| a.rule)
    &&& list.names() == args.filter(|a: Arg| a.name is Some).map_values(|a: Arg| a.name->0@)
    &&& list.named@.map_values(|e: (String, Rule)| e.1) == args.filter(|a: Arg| a.name is Some).map_values(
        |a: Arg| a.rule,
    )
}

impl RuleList {
    pub fn new() -> (r: RuleList)
        ensures
            r.positional@.len() == 0,
            r.named@.len() == 0,
    {
        RuleList { positional: Vec::new(), named: Vec::new() }
    }

    /// Number of rules, positional and named.
    pub open spec fn len(&self) -> nat {
        self.positional@.len() + self.named@.len()
    }

    /// The declared names, in order.
    pub open spec fn names(&self) -> Seq<Seq<char>> {
        self.named@.map_values(|e: (String, Rule)| e.0@)
    }

    /// All rules in one sequence: positional ones, then named ones.
    pub open spec fn flat(&self) -> Seq<Rule> {
        self.positional@ + self.named@.map_values(|e: (String, Rule)| e.1)
    }

    /// Declares a rule by position; refused once a named rule is declared.
    pub fn push_positional(&mut self, rule: Rule) -> (r: bool)
        ensures
            r == (old(self).named@.len() == 0),
            r ==> final(self).positional@ == old(self).positional@.push(rule),
            !r ==> final(self).positional@ == old(self).positional@,
            final(self).named@ == old(self).named@,
    {
        if self.named.len() == 0 {
            self.positional.push(rule);
            true
        } else {
            false
        }
    }

    /// Declares a rule under a name.
    pub fn push_named(&mut self, name: String, rule: Rule)
        ensures
            final(self).positional@ == old(self).positional@,
            final(self).named@ == old(self).named@.push((name, rule)),
    {
        self.named.push((name, rule));
    }

    /// Sorts a list of entries into positional and named rules.
    ///
    /// A positional entry after a named one is an error, reported at the
    /// first such entry.
    pub fn from_args(args: Vec<Arg>) -> (r: Result<RuleList, ArgError>)
        ensures
            match r {
                Ok(list) => first_misplaced(args@) is None && sorted_args(args@, list) && list.len()
                    == args@.len(),
                Err(ArgError::PositionalAfterNamed { index }) => first_misplaced(args@) == Some(
                    index as int,
                ),
            },
    {
        let mut list = RuleList::new();
        let mut i: usize = 0;
        while i < args.len()
            invariant
                0 <= i <= args@.len(),
                list.len() == i,
                forall|j: int|
                    0 <= j < i ==> !(args@[j].name is None && exists|k: int|
                        0 <= k < j && #[trigger] args@[k].name is Some),
                (list.named@.len() > 0) == (exists|k: int| 0 <= k < i && #[trigger] args@[k].name is Some),
                list.positional@ == args@.take(i as int).filter(|a: Arg| a.name is None).map_values(
                    |a: Arg| a.rule,
                ),
                list.names() == args@.take(i as int).filter(|a: Arg| a.name is Some).map_values(
                    |a: Arg| a.name->0@,
                ),
                list.named@.map_values(|e: (String, Rule)| e.1) == args@.take(i as int).filter(
                    |a: Arg| a.name is Some,
                ).map_values(|a: Arg| a.rule),
            decreases args@.len() - i,
        {
            let ghost before = list;
            let ghost prefix = args@.take(i as int);
            assert(args@.take(i + 1) =~= prefix.push(args@[i as int]));
            let rule = args[i].rule.duplicate();
            match &args[i].name {
                Some(name) => {
                    list.push_named(name.clone(), rule);
                    proof {
                        prefix.lemma_filter_push(args@[i as int], |a: Arg| a.name is Some);
                        prefix.lemma_filter_push(args@[i as int], |a: Arg| a.name is None);
                        assert(list.names() =~= before.names().push(name@));
                        assert(list.named@.map_values(|e: (String, Rule)| e.1) =~= before.named@.map_values(|e: (String, Rule)| e.1).push(rule));
                    }
                },
                None => {
                    if list.named.len() > 0 {
                        proof {
                            let w = i as int;
                            assert(args@[w].name is None && exists|k: int|
                                0 <= k < w && #[trigger] args@[k].name is Some);
                            let c = first_misplaced(args@)->0;
                            assert(first_misplaced(args@) is Some);
                            assert(c == w) by {
                                if c < w {
                                } else if c > w {
                                }
                            }
                        }
                        return Err(ArgError::PositionalAfterNamed { index: i });
                    }
                    list.positional.push(rule);
                    proof {
                        prefix.lemma_filter_push(args@[i as int], |a: Arg| a.name is Some);
                        prefix.lemma_filter_push(args@[i as int], |a: Arg| a.name is None);
                        assert(list.positional@ =~= before.positional@.push(rule));
                    }
                },
            }
            i = i + 1;
        }
        proof {
            assert(args@.take(args@.len() as int) =~= args@);
            assert(first_misplaced(args@) is None);
        }
        Ok(list)
    }
}

} // verus!
