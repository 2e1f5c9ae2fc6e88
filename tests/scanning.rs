use rescan::{
    read_line, Binary, ByteReader, Error, Hex, IntKind, Octal, Radix, Rule, RuleList, ScanError,
    Scanner, Value, ValueType,
};

fn custom(pattern: &str, typ: ValueType) -> Rule {
    Rule::Custom { pattern: String::from(pattern), typ }
}

fn people_scanner() -> Scanner {
    let mut rules = RuleList::new();
    assert!(rules.push_positional(custom(r"[[:alpha:]]+\s[[:alpha:]]+", ValueType::Str)));
    assert!(rules.push_positional(custom(r"[[:digit:]]+\s[[:alpha:]]+", ValueType::Str)));
    Scanner::from_template("One might expect {} to have at least {}.", rules).unwrap()
}

#[test]
fn test() {
    let _scanner: Scanner = people_scanner();
}

#[test]
fn string_buf() {
    let reader = &mut ByteReader::new(
        "One might expect most people to have at least 4 fingers.".as_bytes().to_vec(),
    );
    let scanner = people_scanner();
    let values = scanner.scan(reader).unwrap();
    assert_eq!(2, values.len());
    let (subject, object) = (values[0].as_str().unwrap(), values[1].as_str().unwrap());
    assert_eq!("most people", subject);
    assert_eq!("4 fingers", object);
}

#[test]
fn test_scanner() {
    let s = String::from("One might expect most people to have at least 4 fingers.");
    let scanner = people_scanner();
    let values = scanner.scan(&mut ByteReader::new(s.as_bytes().to_vec())).unwrap();
    assert_eq!("most people", values[0].as_str().unwrap());
    assert_eq!("4 fingers", values[1].as_str().unwrap());
}

#[test]
fn line_buf() {
    let string = "One might expect most people to have at least 4 fingers.\n\
                  One might expect few pirates to have at least 2 eyes.";
    let reader = &mut ByteReader::new(string.as_bytes().to_vec());
    let scanner = people_scanner();

    let values = scanner.scan_line(reader).unwrap().unwrap();
    assert_eq!("most people", values[0].as_str().unwrap());
    assert_eq!("4 fingers", values[1].as_str().unwrap());
    let values = scanner.scan_line(reader).unwrap().unwrap();
    assert_eq!("few pirates", values[0].as_str().unwrap());
    assert_eq!("2 eyes", values[1].as_str().unwrap());

    assert!(scanner.scan_line(reader).is_none());
}

#[test]
fn line_iter() {
    let string = "One might expect most people to have at least 4 fingers.\n\
                  One might expect few pirates to have at least 2 eyes.";
    let reader = &mut ByteReader::new(string.as_bytes().to_vec());
    let scanner = people_scanner();

    let result: Vec<Vec<Value>> = scanner.scan_lines(reader).into_iter().map(Result::unwrap).collect();
    assert_eq!(
        result,
        vec![
            vec![Value::Str("most people".into()), Value::Str("4 fingers".into())],
            vec![Value::Str("few pirates".into()), Value::Str("2 eyes".into())],
        ]
    );
}

#[test]
fn line_reader() {
    let mut reader = ByteReader::new("A\nBC\nD".as_bytes().to_vec());
    assert_eq!(Some(b"A".to_vec()), read_line(&mut reader));
    assert_eq!(Some(b"BC"[..].to_vec()), read_line(&mut reader));
    assert_eq!(Some(b"D"[..].to_vec()), read_line(&mut reader));
    assert_eq!(None, read_line(&mut reader).as_ref());
}

#[test]
fn line_reader_strips_carriage_return() {
    let mut reader = ByteReader::new(b"ab\r\n\ncd\r".to_vec());
    assert_eq!(Some(b"ab".to_vec()), read_line(&mut reader));
    assert_eq!(Some(Vec::new()), read_line(&mut reader));
    assert_eq!(Some(b"cd\r".to_vec()), read_line(&mut reader));
    assert_eq!(None, read_line(&mut reader));
}

#[test]
fn literal_across_two_fills() {
    let mut reader = ByteReader::with_capacity(b"to have at least 4".to_vec(), 9);
    assert_eq!(Ok(()), rescan::match_literal(&mut reader, "to have at least "));
    assert_eq!(1, reader.remaining_len());
}

#[test]
fn literal_split_inside_a_character() {
    let mut reader = ByteReader::with_capacity("é!x".as_bytes().to_vec(), 1);
    assert_eq!(Ok(()), rescan::match_literal(&mut reader, "é!"));
    assert_eq!(1, reader.remaining_len());
}

#[test]
fn empty_literal_leaves_the_reader() {
    let mut reader = ByteReader::with_capacity(b"abc".to_vec(), 2);
    assert_eq!(Ok(()), rescan::match_literal(&mut reader, ""));
    assert_eq!(3, reader.remaining_len());
    assert_eq!(0, reader.end);
}

#[test]
fn scan_across_small_buffers() {
    let reader = &mut ByteReader::with_capacity(b"One might expect 42 to have".to_vec(), 5);
    let mut rules = RuleList::new();
    assert!(rules.push_positional(custom("[0-9]+", ValueType::Int(IntKind::U8, Radix::Decimal))));
    let scanner = Scanner::from_template("One might expect {} to", rules).unwrap();
    let values = scanner.scan(reader).unwrap();
    assert_eq!(vec![Value::Unsigned(IntKind::U8, 42)], values);
    assert_eq!(5, reader.remaining_len());
}

#[test]
fn separator_failure_stops_repetition() {
    let scanner = single("{}", custom("[0-9]+", ValueType::Int(IntKind::U32, Radix::Decimal)));
    let out = scanner.scan_multiple_with_separator(&mut ByteReader::new(b"1,2;3".to_vec()), ",");
    assert_eq!(
        vec![vec![Value::Unsigned(IntKind::U32, 1)], vec![Value::Unsigned(IntKind::U32, 2)]],
        out
    );
}

#[test]
fn literal_mismatch_names_the_literal() {
    let mut reader = ByteReader::new(b"abc".to_vec());
    assert_eq!(
        Err(ScanError::ScanLiteralError(String::from("abd"))),
        rescan::match_literal(&mut reader, "abd")
    );
}

#[test]
fn literal_at_end_of_input_fails() {
    let mut reader = ByteReader::new(b"ab".to_vec());
    assert_eq!(
        Err(ScanError::ScanLiteralError(String::from("abc"))),
        rescan::match_literal(&mut reader, "abc")
    );
}

#[test]
fn invalid_utf8_is_a_decode_error() {
    let mut reader = ByteReader::new(vec![0xff, b'a']);
    match rescan::match_literal(&mut reader, "x") {
        Err(ScanError::ScanDecodeError(e)) => assert_eq!(&[0xffu8][..], e.error_bytes()),
        other => panic!("unexpected result {:?}", other),
    }
}

fn single(template: &str, rule: Rule) -> Scanner {
    let mut rules = RuleList::new();
    assert!(rules.push_positional(rule));
    Scanner::from_template(template, rules).unwrap()
}

#[test]
fn pattern_mismatch_names_the_pattern() {
    let scanner = single("{}", custom("[0-9]+", ValueType::Str));
    let r = scanner.scan(&mut ByteReader::new(b"abc".to_vec()));
    assert_eq!(Err(Error::ScanError(ScanError::ScanRegexError(String::from("[0-9]+")))), r);
}

#[test]
fn pattern_must_match_at_current_position() {
    let scanner = single("{}", custom("[0-9]+", ValueType::Str));
    let r = scanner.scan(&mut ByteReader::new(b"a1".to_vec()));
    assert_eq!(Err(Error::ScanError(ScanError::ScanRegexError(String::from("[0-9]+")))), r);
}

#[test]
fn capture_consumes_exactly_its_match() {
    let scanner = single("{}", custom("[0-9]+", ValueType::Str));
    let mut reader = ByteReader::new(b"123abc".to_vec());
    let values = scanner.scan(&mut reader).unwrap();
    assert_eq!(vec![Value::Str(String::from("123"))], values);
    assert_eq!(3, reader.remaining_len());
}

#[test]
fn value_parse_failure_is_a_parse_error() {
    let scanner = single("{}", Rule::Default { typ: ValueType::Int(rescan::IntKind::U8, rescan::Radix::Decimal) });
    let r = scanner.scan(&mut ByteReader::new(b"300".to_vec()));
    assert_eq!(Err(Error::ParseError(rescan::ParseValueError::PosOverflow)), r);
}

#[test]
fn malformed_pattern_is_a_regex_error() {
    let scanner = single("{}", custom("(", ValueType::Str));
    let r = scanner.scan(&mut ByteReader::new(b"x".to_vec()));
    assert_eq!(
        Err(Error::RegexError(rescan::PatternError { rule: 0, pattern: String::from("(") })),
        r
    );
}

#[test]
fn null_capture_keeps_nothing() {
    let mut rules = RuleList::new();
    rules.push_named(String::from("re"), Rule::Null { pattern: String::from("a+") });
    let scanner = Scanner::from_template("{_:re}", rules).unwrap();
    assert_eq!(0, scanner.plan().outputs);
    let mut reader = ByteReader::new(b"aaab".to_vec());
    assert_eq!(Ok(vec![]), scanner.scan(&mut reader));
    assert_eq!(1, reader.remaining_len());
}

#[test]
fn null_capture_beside_real_ones() {
    let mut rules = RuleList::new();
    assert!(rules.push_positional(Rule::Default { typ: ValueType::Str }));
    assert!(rules.push_positional(Rule::Default { typ: ValueType::Str }));
    rules.push_named(String::from("sep"), Rule::Null { pattern: String::from("[-:]+") });
    assert!(!rules.push_positional(Rule::Default { typ: ValueType::Bool }));
    let scanner = Scanner::from_template("{}{_:sep}{}", rules).unwrap();
    assert_eq!(2, scanner.plan().outputs);
    let values = scanner.scan(&mut ByteReader::new(b"ab--cd".to_vec())).unwrap();
    assert_eq!(vec![Value::Str("ab".into()), Value::Str("cd".into())], values);
}

#[test]
fn explicit_slots_order_the_output() {
    let mut rules = RuleList::new();
    assert!(rules.push_positional(Rule::Default { typ: ValueType::Str }));
    assert!(rules.push_positional(Rule::Default { typ: ValueType::Str }));
    let scanner = Scanner::from_template("{1} {0}", rules).unwrap();
    let values = scanner.scan(&mut ByteReader::new(b"first second".to_vec())).unwrap();
    assert_eq!(vec![Value::Str("second".into()), Value::Str("first".into())], values);
}

#[test]
fn typed_values() {
    let mut rules = RuleList::new();
    assert!(rules.push_positional(Rule::Default { typ: ValueType::Bool }));
    assert!(rules.push_positional(Rule::Default { typ: ValueType::Char }));
    assert!(rules.push_positional(Rule::Default { typ: Hex(IntKind::U16).value_type() }));
    assert!(rules.push_positional(Rule::Default { typ: Binary(IntKind::U8).value_type() }));
    assert!(rules.push_positional(Rule::Default { typ: Octal(IntKind::I32).value_type() }));
    assert!(rules.push_positional(Rule::Default { typ: ValueType::Int(IntKind::I64, Radix::Decimal) }));
    let scanner = Scanner::from_template("{} {} {} {} {} {}", rules).unwrap();
    let values = scanner.scan(&mut ByteReader::new(b"true x 1ba7 01101010 644 -42".to_vec())).unwrap();
    assert_eq!(
        vec![
            Value::Bool(true),
            Value::Char('x'),
            Value::Unsigned(IntKind::U16, 0x1ba7),
            Value::Unsigned(IntKind::U8, 0b01101010),
            Value::Signed(IntKind::I32, 0o644),
            Value::Signed(IntKind::I64, -42),
        ],
        values
    );
}

#[test]
fn scan_multiple_until_failure() {
    let scanner = single("{};", custom("[0-9]+", ValueType::Int(rescan::IntKind::U32, rescan::Radix::Decimal)));
    let out = scanner.scan_multiple(&mut ByteReader::new(b"1;22;333;x".to_vec()));
    assert_eq!(
        vec![
            vec![Value::Unsigned(rescan::IntKind::U32, 1)],
            vec![Value::Unsigned(rescan::IntKind::U32, 22)],
            vec![Value::Unsigned(rescan::IntKind::U32, 333)],
        ],
        out
    );
}

#[test]
fn scan_multiple_with_separator_between_items() {
    let scanner = single("{}", custom("[0-9]+", ValueType::Int(rescan::IntKind::U32, rescan::Radix::Decimal)));
    let out = scanner.scan_multiple_with_separator(&mut ByteReader::new(b"1, 22, 333.".to_vec()), ", ");
    assert_eq!(
        vec![
            vec![Value::Unsigned(rescan::IntKind::U32, 1)],
            vec![Value::Unsigned(rescan::IntKind::U32, 22)],
            vec![Value::Unsigned(rescan::IntKind::U32, 333)],
        ],
        out
    );
}

#[test]
fn scan_multiple_stops_without_progress() {
    let scanner = single("{}", custom("a*", ValueType::Str));
    let out = scanner.scan_multiple(&mut ByteReader::new(b"b".to_vec()));
    assert_eq!(vec![vec![Value::Str(String::new())]], out);
}
