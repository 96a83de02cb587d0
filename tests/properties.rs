use type_inference::{Expected, Expr, ParseError, Parser, Type, Value};

fn parse(input: &str) -> Result<Vec<Expr>, ParseError> {
    let mut parser = Parser::new(input);
    parser.parse()
}

fn types_of(input: &str) -> Vec<Type> {
    parse(input)
        .unwrap()
        .into_iter()
        .flat_map(|x| x.type_of())
        .collect::<Vec<Type>>()
}

fn parsed_value(input: &str) -> Value {
    match parse(input).unwrap().remove(0) {
        Expr::Value(v) => v,
        other => panic!("not a value: {:?}", other),
    }
}

#[test]
fn repeated_inference_is_identical() {
    let v = parsed_value("[3, [1], 2, [1]]");
    assert_eq!(v.type_of(), v.type_of());
}

#[test]
fn list_type_ignores_order_and_repeats() {
    assert_eq!(types_of("[1,2,2,3]"), vec![Type::List(vec![Type::Integer])]);
    assert_eq!(types_of("[3,2,1]"), vec![Type::List(vec![Type::Integer])]);
    assert_eq!(types_of("[\"a\", 1, true]"), types_of("[true, \"b\", 2, 3]"));
}

#[test]
fn union_order_does_not_matter() {
    let a = parse("let x: i64 | bool | str = 1;").unwrap();
    let b = parse("let x: bool | str | i64 = 1;").unwrap();
    assert_eq!(a, b);
    assert_eq!(a[0].type_of(), vec![Type::Bool, Type::Integer, Type::String]);
}

#[test]
fn duplicate_union_members_collapse() {
    assert_eq!(
        types_of("let y: str | i64 | str = \"s\";"),
        vec![Type::Integer, Type::String]
    );
}

#[test]
fn maps_built_in_any_order_are_equal_and_hash_alike() {
    let a = Value::from_pairs(vec![
        (Value::Integer(1), Value::from("one".to_string())),
        (Value::Integer(2), Value::Bool(true)),
        (Value::from(vec![Value::Integer(3)]), Value::Integer(4)),
    ]);
    let b = Value::from_pairs(vec![
        (Value::from(vec![Value::Integer(3)]), Value::Integer(4)),
        (Value::Integer(2), Value::Bool(true)),
        (Value::Integer(1), Value::from("one".to_string())),
    ]);
    assert_eq!(a, b);
    assert_eq!(a.hash_code(), b.hash_code());
    assert_eq!(parsed_value("{1: \"one\", 2: true, [3]: 4}"), a);
    assert_eq!(parsed_value("{[3]: 4, 2: true, 1: \"one\"}"), b);
}

#[test]
fn maps_as_keys_compare_by_entries() {
    let a = parsed_value("{ {1: 2, 3: 4}: true }");
    let b = parsed_value("{ {3: 4, 1: 2}: true }");
    assert_eq!(a, b);
    assert_eq!(a.hash_code(), b.hash_code());
}

#[test]
fn last_write_wins_for_duplicate_keys() {
    let v = parsed_value("{1: 2, 1: 3}");
    assert_eq!(v, Value::from_pairs(vec![(Value::Integer(1), Value::Integer(3))]));
    assert_ne!(v, Value::from_pairs(vec![(Value::Integer(1), Value::Integer(2))]));
}

#[test]
fn var_equality_ignores_value() {
    let a = Expr::Var("x".to_string(), vec![Type::Integer], Box::new(Expr::from(5)));
    let b = Expr::Var("x".to_string(), vec![Type::Integer], Box::new(Expr::from(999)));
    let c = Expr::Var("y".to_string(), vec![Type::Integer], Box::new(Expr::from(5)));
    let d = Expr::Var("x".to_string(), vec![Type::Bool], Box::new(Expr::from(5)));
    assert_eq!(a, b);
    assert_ne!(a, c);
    assert_ne!(a, d);
}

#[test]
fn conditionals_concatenate_types() {
    let e = Expr::If(Box::new(Expr::from(1)), Box::new(Expr::from(true)));
    assert_eq!(e.type_of(), vec![Type::Integer, Type::Bool]);
    assert_ne!(e.clone(), e);
}

#[test]
fn annotation_is_kept_unchecked() {
    assert_eq!(
        parse("let x: bool | str = false;"),
        Ok(vec![Expr::Var(
            "x".to_string(),
            vec![Type::Bool, Type::String],
            Box::new(Expr::from(false)),
        )])
    );
    assert_eq!(
        parse("let x: bool = 10;").unwrap()[0].type_of(),
        vec![Type::Bool]
    );
}

#[test]
fn map_value_type() {
    assert_eq!(
        types_of("{ \"key\": 2, [1]: 3 }"),
        vec![Type::Mapping(
            vec![Type::String, Type::List(vec![Type::Integer])],
            vec![Type::Integer],
        )]
    );
}

#[test]
fn empty_collections() {
    assert_eq!(types_of("[ ]"), vec![Type::List(vec![])]);
    assert_eq!(types_of("{}"), vec![Type::Mapping(vec![], vec![])]);
}

#[test]
fn empty_and_blank_inputs() {
    assert_eq!(parse(""), Ok(vec![]));
    assert_eq!(parse("  \n\t "), Ok(vec![]));
}

#[test]
fn several_statements() {
    assert_eq!(
        parse("1; \"a\" true;; let z = [];"),
        Err(ParseError::TrailingInput { position: 12 })
    );
    assert_eq!(
        parse("1; \"a\" true; let z = [];"),
        Ok(vec![
            Expr::from(1),
            Expr::from("a".to_string()),
            Expr::from(true),
            Expr::Var(
                "z".to_string(),
                vec![Type::List(vec![])],
                Box::new(Expr::from(Value::from(vec![]))),
            ),
        ])
    );
}

#[test]
fn keyword_at_end_of_input() {
    assert_eq!(parse("true"), Ok(vec![Expr::from(true)]));
    assert_eq!(parse("false"), Ok(vec![Expr::from(false)]));
}

#[test]
fn largest_integer() {
    assert_eq!(parse("9223372036854775807"), Ok(vec![Expr::from(i64::MAX)]));
    assert_eq!(
        parse("9223372036854775808"),
        Err(ParseError::IntegerOverflow { position: 0 })
    );
    assert_eq!(
        parse("[1, 99999999999999999999]"),
        Err(ParseError::IntegerOverflow { position: 4 })
    );
    assert_eq!(parse("007"), Ok(vec![Expr::from(7)]));
}

#[test]
fn string_is_copied_verbatim() {
    assert_eq!(
        parse("\"a b\\n\"").unwrap()[0],
        Expr::from("a b\\n".to_string())
    );
}

#[test]
fn unterminated_string() {
    assert_eq!(parse("\"abc"), Err(ParseError::UnexpectedEndOfInput));
    assert_eq!(parse("[1, 2"), Err(ParseError::UnexpectedEndOfInput));
}

#[test]
fn missing_equals() {
    assert_eq!(
        parse("let x 5;"),
        Err(ParseError::UnexpectedCharacter { expected: Expected::Char('='), found: '5', position: 6 })
    );
}

#[test]
fn missing_name() {
    assert_eq!(
        parse("let = 5;"),
        Err(ParseError::UnexpectedCharacter { expected: Expected::Name, found: '=', position: 4 })
    );
}

#[test]
fn value_expected() {
    assert_eq!(
        parse("[1, x]"),
        Err(ParseError::UnexpectedCharacter { expected: Expected::Value, found: 'x', position: 4 })
    );
}

#[test]
fn missing_colon_in_map() {
    assert_eq!(
        parse("{1 2}"),
        Err(ParseError::UnexpectedCharacter { expected: Expected::Char(':'), found: '2', position: 3 })
    );
}

#[test]
fn missing_bracket_in_type() {
    assert_eq!(
        parse("let x: list[i64 = 1;"),
        Err(ParseError::UnexpectedCharacter { expected: Expected::Char(']'), found: '=', position: 16 })
    );
}

#[test]
fn unknown_type_name() {
    assert_eq!(parse("let x: foo = 1;"), Err(ParseError::UnknownTypeName { position: 7 }));
}

#[test]
fn annotation_needs_an_atom() {
    assert_eq!(parse("let x: = 5;"), Err(ParseError::UnknownTypeName { position: 7 }));
    assert_eq!(parse("let e: list[] = [];"), Err(ParseError::UnknownTypeName { position: 12 }));
    assert_eq!(
        parse("let m: map[i64, ] = {};"),
        Err(ParseError::UnknownTypeName { position: 16 })
    );
    assert_eq!(parse("let x:"), Err(ParseError::UnexpectedEndOfInput));
    assert_eq!(types_of("let x: i64 | = 5;"), vec![Type::Integer]);
}

#[test]
fn cloned_parser_parses_alike() {
    let mut a = Parser::new("let x = [1, \"a\"];");
    let mut b = a.clone();
    assert_eq!(a.parse(), b.parse());
}

#[test]
fn hash_values() {
    assert_eq!(Value::Bool(true).hash_code(), 32);
    assert_eq!(Value::Integer(5).hash_code(), 67);
    assert_eq!(Value::from("a".to_string()).hash_code(), 190);
    assert_eq!(Value::from(vec![]).hash_code(), 124);
    assert_eq!(Value::from_pairs(vec![]).hash_code(), 155);
}

#[test]
fn copies_are_equal() {
    let v = parsed_value("{ [1, \"x\"]: {true: 2} }");
    assert_eq!(v.clone(), v);
    let t = types_of("[[1], {1: \"a\"}]");
    assert_eq!(t.clone(), t);
}
