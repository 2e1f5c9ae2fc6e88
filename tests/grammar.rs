use rescan::{
    bind, default_pattern, default_regex, Scan, longest_utf8_prefix, parse_format_string, parse_int, parse_value, Arg, ArgError,
    BindError, Capture, CapturePos, CaptureRule, IntKind, ParseValueError, Radix, Rule, RuleList,
    Segment, TemplateError, Value, ValueType,
};

fn lit(s: &str) -> Segment {
    Segment::Literal(String::from(s))
}

fn cap(pos: CapturePos, rule: CaptureRule) -> Segment {
    Segment::Capture(Capture { pos, rule })
}

#[test]
fn parses_shorthand_and_fields() {
    assert_eq!(
        Ok(vec![
            lit("x"),
            cap(CapturePos::Null, CaptureRule::Named(String::from("re"))),
            lit("y"),
            cap(CapturePos::Explicit(2), CaptureRule::Named(String::from("name"))),
            cap(CapturePos::Explicit(0), CaptureRule::Positional(1)),
            cap(CapturePos::Implicit, CaptureRule::Implicit),
            cap(CapturePos::Implicit, CaptureRule::Implicit),
            cap(CapturePos::Null, CaptureRule::Implicit),
        ]),
        parse_format_string("x{_:re}y{2:name}{0:1}{}{:}{_}")
    );
}

#[test]
fn doubled_braces_are_literal() {
    assert_eq!(Ok(vec![lit("{a} and }")]), parse_format_string("{{a}} and }}"));
    assert_eq!(Ok(vec![]), parse_format_string(""));
}

#[test]
fn non_ascii_literal_text_is_kept() {
    assert_eq!(
        Ok(vec![lit("ăѣ "), cap(CapturePos::Implicit, CaptureRule::Implicit), lit(" 𝔠")]),
        parse_format_string("ăѣ {} 𝔠")
    );
}

#[test]
fn plain_template_round_trip() {
    let template = "One might expect {} to have at least {}.";
    let segments = parse_format_string(template).unwrap();
    let mut replayed = String::new();
    for s in &segments {
        match s {
            Segment::Literal(t) => replayed.push_str(t),
            Segment::Capture(c) => {
                assert_eq!(CapturePos::Implicit, c.pos);
                assert_eq!(CaptureRule::Implicit, c.rule);
                replayed.push_str("{}");
            }
        }
    }
    assert_eq!(template, replayed);
    assert_eq!(5, segments.len());
}

#[test]
fn template_errors() {
    assert_eq!(Err(TemplateError::UnmatchedClose), parse_format_string("a}b"));
    assert_eq!(Err(TemplateError::UnmatchedOpen), parse_format_string("{"));
    assert_eq!(Err(TemplateError::UnmatchedOpen), parse_format_string("{12"));
    assert_eq!(Err(TemplateError::UnmatchedOpen), parse_format_string("{1:ab"));
    assert_eq!(
        Err(TemplateError::InvalidPosition(String::from("1_2"))),
        parse_format_string("{1_2}")
    );
    assert_eq!(
        Err(TemplateError::InvalidPosition(String::from("99999999999999999999999"))),
        parse_format_string("{99999999999999999999999}")
    );
    assert_eq!(Err(TemplateError::InvalidRule(String::from("1a"))), parse_format_string("{:1a}"));
    assert_eq!(Err(TemplateError::UnexpectedChar('x')), parse_format_string("{x}"));
    assert_eq!(Err(TemplateError::UnexpectedChar('-')), parse_format_string("{:a-}"));
}

fn str_rule() -> Rule {
    Rule::Default { typ: ValueType::Str }
}

fn positional(n: usize) -> RuleList {
    let mut rules = RuleList::new();
    for _ in 0..n {
        assert!(rules.push_positional(str_rule()));
    }
    rules
}

#[test]
fn binding_reports_every_problem() {
    let segments = parse_format_string("{0:0} {0:0}").unwrap();
    let errs = bind(segments, positional(2)).unwrap_err();
    assert!(errs.contains(&BindError::DuplicateOutput { slot: 0, first: 0, dup: 2 }));
    assert!(errs.contains(&BindError::UnusedRule { index: 1 }));
    assert_eq!(
        vec![
            BindError::DuplicateOutput { slot: 0, first: 0, dup: 2 },
            BindError::UnusedRule { index: 1 },
        ],
        errs
    );
}

#[test]
fn binding_error_kinds() {
    let errs = bind(parse_format_string("{} {}").unwrap(), positional(1)).unwrap_err();
    assert_eq!(vec![BindError::InvalidPositional { segment: 2, index: 1, available: 1 }], errs);

    let errs = bind(parse_format_string("{:foo}").unwrap(), positional(0)).unwrap_err();
    assert_eq!(vec![BindError::UnknownName { segment: 0, name: String::from("foo") }], errs);

    let mut rules = RuleList::new();
    rules.push_named(String::from("a"), str_rule());
    rules.push_named(String::from("a"), str_rule());
    let errs = bind(parse_format_string("{:a}").unwrap(), rules).unwrap_err();
    assert_eq!(
        vec![
            BindError::DuplicateName { name: String::from("a"), first: 0, dup: 1 },
            BindError::UnusedRule { index: 1 },
        ],
        errs
    );

    let mut rules = RuleList::new();
    assert!(rules.push_positional(Rule::Null { pattern: String::from("x") }));
    let errs = bind(parse_format_string("{}").unwrap(), rules).unwrap_err();
    assert_eq!(vec![BindError::UntypedCaptureUsed { segment: 0, rule: 0 }], errs);

    let errs = bind(parse_format_string("{3}").unwrap(), positional(1)).unwrap_err();
    assert_eq!(
        vec![
            BindError::MissingOutput { slot: 0 },
            BindError::MissingOutput { slot: 1 },
            BindError::MissingOutput { slot: 2 },
        ],
        errs
    );

    let errs = bind(parse_format_string("{1}{1}{0}").unwrap(), positional(3)).unwrap_err();
    assert_eq!(vec![BindError::DuplicateOutput { slot: 1, first: 0, dup: 1 }], errs);
}

#[test]
fn bound_plan_covers_its_slots() {
    let plan = bind(parse_format_string("a{2}b{0}{1:}").unwrap(), positional(3)).unwrap();
    assert_eq!(3, plan.outputs);
    let mut slots: Vec<usize> = plan
        .segments
        .iter()
        .filter_map(|s| match s {
            rescan::ResolvedSegment::Capture { slot, .. } => *slot,
            _ => None,
        })
        .collect();
    slots.sort();
    assert_eq!(vec![0, 1, 2], slots);
    assert_eq!(
        rescan::ResolvedSegment::Capture { slot: Some(2), rule: 0 },
        plan.segments[1]
    );
    assert_eq!(
        rescan::ResolvedSegment::Capture { slot: Some(1), rule: 2 },
        plan.segments[4]
    );
}

#[test]
fn named_rules_follow_positional_ones() {
    let mut rules = positional(1);
    rules.push_named(String::from("n"), Rule::Default { typ: ValueType::Bool });
    let plan = bind(parse_format_string("{:n}{}").unwrap(), rules).unwrap();
    assert_eq!(
        vec![
            rescan::ResolvedSegment::Capture { slot: Some(0), rule: 1 },
            rescan::ResolvedSegment::Capture { slot: Some(1), rule: 0 },
        ],
        plan.segments
    );
}

#[test]
fn positional_after_named_is_refused() {
    let args = vec![
        Arg { name: None, rule: str_rule() },
        Arg { name: Some(String::from("a")), rule: str_rule() },
        Arg { name: None, rule: str_rule() },
    ];
    assert_eq!(Err(ArgError::PositionalAfterNamed { index: 2 }), RuleList::from_args(args));
    let args = vec![
        Arg { name: None, rule: str_rule() },
        Arg { name: Some(String::from("a")), rule: Rule::Null { pattern: String::from("x") } },
    ];
    let list = RuleList::from_args(args).unwrap();
    assert_eq!(vec![str_rule()], list.positional);
    assert_eq!(vec![(String::from("a"), Rule::Null { pattern: String::from("x") })], list.named);
}

#[test]
fn longest_utf8_prefix_test() {
    let full = "ăѣ𝔠";
    assert_eq!(Ok(""), longest_utf8_prefix(&full.as_bytes()[..1]));
    assert_eq!(Ok("ă"), longest_utf8_prefix(&full.as_bytes()[..2]));
    assert_eq!(Ok("ă"), longest_utf8_prefix(&full.as_bytes()[..3]));
    assert_eq!(Ok("ăѣ"), longest_utf8_prefix(&full.as_bytes()[..4]));
    assert_eq!(Ok("ăѣ"), longest_utf8_prefix(&full.as_bytes()[..5]));
    assert_eq!(Ok("ăѣ"), longest_utf8_prefix(&full.as_bytes()[..6]));
    assert_eq!(Ok("ăѣ"), longest_utf8_prefix(&full.as_bytes()[..7]));
    assert_eq!(Ok("ăѣ𝔠"), longest_utf8_prefix(&full.as_bytes()[..8]));
}

#[test]
fn utf8_prefix_errors() {
    assert_eq!(Err(&[0xffu8][..]), longest_utf8_prefix(&[0xff, 0x41]));
    assert_eq!(Err(&[0xe0u8][..]), longest_utf8_prefix(&[0xe0, 0x80]));
    assert_eq!(Err(&[0xe0u8, 0xa0][..]), longest_utf8_prefix(&[0xe0, 0xa0, 0x41]));
    assert_eq!(Ok(""), longest_utf8_prefix(&[0xe0, 0xa0]));
    assert_eq!(Ok("a"), longest_utf8_prefix(&[0x61, 0xff]));
    assert_eq!(Ok(""), longest_utf8_prefix(&[]));
}

#[test]
fn integers_in_each_radix() {
    assert_eq!(Ok(Value::Signed(IntKind::I8, -4)), parse_int("-4", IntKind::I8, Radix::Decimal));
    assert_eq!(Ok(Value::Unsigned(IntKind::U8, 7)), parse_int("+7", IntKind::U8, Radix::Decimal));
    assert_eq!(Ok(Value::Signed(IntKind::I8, -128)), parse_int("-128", IntKind::I8, Radix::Decimal));
    assert_eq!(Err(ParseValueError::NegOverflow), parse_int("-129", IntKind::I8, Radix::Decimal));
    assert_eq!(Err(ParseValueError::PosOverflow), parse_int("128", IntKind::I8, Radix::Decimal));
    assert_eq!(Err(ParseValueError::InvalidDigit), parse_int("-1", IntKind::U8, Radix::Decimal));
    assert_eq!(Err(ParseValueError::InvalidDigit), parse_int("+", IntKind::U8, Radix::Decimal));
    assert_eq!(Err(ParseValueError::Empty), parse_int("", IntKind::U8, Radix::Decimal));
    assert_eq!(Err(ParseValueError::InvalidDigit), parse_int("12a", IntKind::U8, Radix::Decimal));
    assert_eq!(Ok(Value::Unsigned(IntKind::U16, 0x1ba7)), parse_int("1ba7", IntKind::U16, Radix::Hex));
    assert_eq!(Ok(Value::Unsigned(IntKind::U8, 0b1010)), parse_int("1010", IntKind::U8, Radix::Binary));
    assert_eq!(Err(ParseValueError::InvalidDigit), parse_int("12", IntKind::U8, Radix::Binary));
    assert_eq!(Ok(Value::Signed(IntKind::I32, -0o17)), parse_int("-17", IntKind::I32, Radix::Octal));
    assert_eq!(
        Ok(Value::Unsigned(IntKind::U128, u128::MAX)),
        parse_int("340282366920938463463374607431768211455", IntKind::U128, Radix::Decimal)
    );
    assert_eq!(
        Ok(Value::Signed(IntKind::I128, i128::MIN)),
        parse_int("-170141183460469231731687303715884105728", IntKind::I128, Radix::Decimal)
    );
}

#[test]
fn other_values() {
    assert_eq!(Ok(Value::Bool(false)), parse_value("false", ValueType::Bool));
    assert_eq!(Err(ParseValueError::InvalidBool), parse_value("yes", ValueType::Bool));
    assert_eq!(Ok(Value::Char('ѣ')), parse_value("ѣ", ValueType::Char));
    assert_eq!(Err(ParseValueError::InvalidChar), parse_value("ab", ValueType::Char));
    assert_eq!(Err(ParseValueError::InvalidChar), parse_value("", ValueType::Char));
    assert_eq!(Ok(Value::Str(String::from("a b"))), parse_value("a b", ValueType::Str));
}

#[test]
fn default_patterns() {
    assert_eq!("true|false", default_pattern(ValueType::Bool));
    assert_eq!(".", default_pattern(ValueType::Char));
    assert_eq!(r"\w+", default_pattern(ValueType::Str));
    assert_eq!(r"\+?[0-9]+", default_pattern(ValueType::Int(IntKind::U32, Radix::Decimal)));
    assert_eq!(r"[+-]?[0-9]+", default_pattern(ValueType::Int(IntKind::I32, Radix::Decimal)));
    assert_eq!(r"\+?[0-9A-Za-z]+", default_pattern(ValueType::Int(IntKind::U16, Radix::Hex)));
    assert_eq!(r"[+-]?[01]+", default_pattern(ValueType::Int(IntKind::I8, Radix::Binary)));
    assert_eq!(r"\+?[0-7]+", default_pattern(ValueType::Int(IntKind::Usize, Radix::Octal)));
}

#[test]
fn partial_result_slots() {
    let mut p = rescan::PartialResult::empty(2);
    assert!(!p.is_initialized(0));
    assert!(!p.is_fully_initialized());
    assert_eq!(None, p.take());
    p.set(1, Value::Bool(true));
    p.set(0, Value::Char('c'));
    assert!(p.is_initialized(1));
    assert!(p.is_fully_initialized());
    p.set_uninitialized(1);
    assert!(!p.is_fully_initialized());
    p.set(1, Value::Bool(false));
    assert_eq!(Some(vec![Value::Char('c'), Value::Bool(false)]), p.take());
    assert!(!p.is_initialized(0));
}

#[test]
fn primitive_ints() {
    assert_eq!(Ok(-4_i8), Scan::scan("-4"));
    assert_eq!(Ok(400_i16), Scan::scan("400"));
    assert_eq!(Ok(-42_i32), Scan::scan("-42"));
    assert_eq!(Ok(429300_i64), Scan::scan("429300"));
    assert_eq!(Ok(-950_143_268_751_i128), Scan::scan("-950143268751"));
    assert_eq!(Ok(-50_143_268_isize), Scan::scan("-0050143268"));
    assert_eq!(Ok(0_u8), Scan::scan("0"));
    assert_eq!(Ok(519_u16), Scan::scan("0519"));
    assert_eq!(Ok(4_293_000_000_u32), Scan::scan("4293000000"));
    assert_eq!(Ok(950_143_268_751_u64), Scan::scan("0000950143268751"));
    assert_eq!(Ok(18_446_744_073_709_551_616_u128), Scan::scan("18446744073709551616"));
    assert_eq!(Ok(68_751_usize), Scan::scan("000068751"));
}

#[test]
fn scan_other_types() {
    assert_eq!(Ok(true), <bool as Scan>::scan("true"));
    assert_eq!(Err(ParseValueError::InvalidBool), <bool as Scan>::scan("True"));
    assert_eq!(Ok('z'), <char as Scan>::scan("z"));
    assert_eq!(Ok(String::from("text")), <String as Scan>::scan("text"));
    assert_eq!(Err(ParseValueError::PosOverflow), <u8 as Scan>::scan("256"));
    assert_eq!(r"[+-]?[0-9]+", default_regex::<i16>());
    assert_eq!(r"\w+", default_regex::<String>());
    assert_eq!("true|false", default_regex::<bool>());
}
