use rescan::{
    parse_args, parse_rule_list, Arg, ByteReader, IntKind, Radix, Rule, RuleListError, Scanner,
    Value, ValueType,
};

#[test]
fn rule_list_text_positional_and_named() {
    let list = parse_rule_list(r#" u8, name = bool , sep= "-+" as _, h = Hex<u16>, b = Binary < i8 >,"#).unwrap();
    assert_eq!(vec![Rule::Default { typ: ValueType::Int(IntKind::U8, Radix::Decimal) }], list.positional);
    assert_eq!(
        vec![
            (String::from("name"), Rule::Default { typ: ValueType::Bool }),
            (String::from("sep"), Rule::Null { pattern: String::from("-+") }),
            (String::from("h"), Rule::Default { typ: ValueType::Int(IntKind::U16, Radix::Hex) }),
            (String::from("b"), Rule::Default { typ: ValueType::Int(IntKind::I8, Radix::Binary) }),
        ],
        list.named
    );
}

#[test]
fn rule_list_text_patterns() {
    let args = parse_args(r#"r"[[:alpha:]]+\s" as String, "a\"b\\c\n\t" as char"#).unwrap();
    assert_eq!(
        vec![
            Arg { name: None, rule: Rule::Custom { pattern: String::from(r"[[:alpha:]]+\s"), typ: ValueType::Str } },
            Arg { name: None, rule: Rule::Custom { pattern: String::from("a\"b\\c\n\t"), typ: ValueType::Char } },
        ],
        args
    );
    assert_eq!(Ok(vec![]), parse_args(""));
    assert_eq!(Ok(vec![]), parse_args("  \n"));
}

#[test]
fn rule_list_text_errors() {
    assert_eq!(Err(RuleListError::PositionalAfterNamed { index: 1 }), parse_rule_list("a = bool, u8"));
    assert_eq!(Err(RuleListError::Syntax { at: 3 }), parse_rule_list(r#""x""#));
    assert_eq!(Err(RuleListError::Syntax { at: 0 }), parse_rule_list("Foo"));
    assert_eq!(Err(RuleListError::Syntax { at: 7 }), parse_rule_list(r#""x" as Foo"#));
    assert_eq!(Err(RuleListError::Syntax { at: 0 }), parse_rule_list(r#""a\q" as String"#));
    assert_eq!(Err(RuleListError::Syntax { at: 3 }), parse_rule_list("u8 u8"));
    assert_eq!(Err(RuleListError::Syntax { at: 1 }), parse_rule_list(" , "));
    assert_eq!(Err(RuleListError::Syntax { at: 4 }), parse_rule_list(r#""x" ask String"#));
}

#[test]
fn scanner_from_text_rules() {
    let scanner = Scanner::from_text(
        "One might expect {} to have at least {}.",
        r#"r"[[:alpha:]]+\s[[:alpha:]]+" as String, r"[[:digit:]]+\s[[:alpha:]]+" as String"#,
    )
    .unwrap();
    let values = scanner
        .scan(&mut ByteReader::new(b"One might expect most people to have at least 4 fingers.".to_vec()))
        .unwrap();
    assert_eq!(vec![Value::Str("most people".into()), Value::Str("4 fingers".into())], values);
}

#[test]
fn scanner_from_text_named_and_null() {
    let scanner = Scanner::from_text("{n}{_:sep}{v:val}", r#"n = u32, sep = r"\s*=\s*" as _, val = bool"#);
    assert!(scanner.is_err());
    let scanner = Scanner::from_text("{:n}{_:sep}{:val}", r#"n = u32, sep = r"\s*=\s*" as _, val = bool"#).unwrap();
    let values = scanner.scan(&mut ByteReader::new(b"42 = true".to_vec())).unwrap();
    assert_eq!(vec![Value::Unsigned(IntKind::U32, 42), Value::Bool(true)], values);
}
