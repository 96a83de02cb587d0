use type_inference::Expr;
use type_inference::ParseError;
use type_inference::Parser;
use type_inference::Type;
use type_inference::Value;

fn test(input: &str, expected: Vec<Expr>) {
    let mut parser = Parser::new(input);
    assert_eq!(parser.parse(), Ok(expected));
}

fn test_types(input: &str, expected: Vec<Type>) {
    let mut parser = Parser::new(input);
    assert_eq!(
        parser
            .parse()
            .unwrap()
            .into_iter()
            .flat_map(|x| x.type_of())
            .collect::<Vec<Type>>(),
        expected
    );
}

#[test]
fn parse_int_var() {
    let input = "let x = 10;";
    test(
        input,
        vec![Expr::Var(
            "x".to_string(),
            vec![Type::Integer],
            Box::new(Expr::from(10)),
        )],
    );
}

#[test]
fn parse_string_var() {
    let input = "let x = \"xd\";";
    test(
        input,
        vec![Expr::Var(
            "x".to_string(),
            vec![Type::String],
            Box::new(Expr::from("xd".to_string())),
        )],
    );
}

#[test]
fn parse_true_var() {
    let input = "let x = true;";
    test(
        input,
        vec![Expr::Var(
            "x".to_string(),
            vec![Type::Bool],
            Box::new(Expr::from(true)),
        )],
    );
}

#[test]
fn parse_false_var() {
    let input = "let x = false;";
    test(
        input,
        vec![Expr::Var(
            "x".to_string(),
            vec![Type::Bool],
            Box::new(Expr::from(false)),
        )],
    );
}

#[test]
fn parse_var_with_type_annotation() {
    let input = "let x: i64 | bool | str = false;";
    test(
        input,
        vec![Expr::Var(
            "x".to_string(),
            vec![Type::Bool, Type::Integer, Type::String],
            Box::new(Expr::from(false)),
        )],
    );
}

#[test]
fn parse_list_with_type_annotation() {
    let input = "let x: list[i64 | str | bool] = [false];";
    test(
        input,
        vec![Expr::Var(
            "x".to_string(),
            vec![Type::List(vec![Type::Bool, Type::Integer, Type::String])],
            Box::new(Expr::from(Value::from(vec![false.into()]))),
        )],
    );
}

#[test]
fn parse_map_with_type_annotation() {
    let input = "let x: map[i64 | str | bool,i64 | str | bool] = {10: false};";
    test(
        input,
        vec![Expr::Var(
            "x".to_string(),
            vec![Type::Mapping(
                vec![Type::Bool, Type::Integer, Type::String],
                vec![Type::Bool, Type::Integer, Type::String],
            )],
            Box::new(Expr::from(Value::from_pairs(vec![(
                Value::Integer(10),
                Value::Bool(false),
            )]))),
        )],
    );
}

#[test]
fn parse_list() {
    let input = "[1,2,3]";
    test(
        input,
        vec![Expr::from(Value::from(vec![1.into(), 2.into(), 3.into()]))],
    );
}

#[test]
fn parse_map() {
    let input = "{ \"key\" : 2, [1] : 3 }";
    test(
        input,
        vec![Expr::Value(Value::from_pairs(vec![
            ("key".to_string().into(), 2.into()),
            (vec![1.into()].into(), 3.into()),
        ]))],
    );
}

#[test]
fn parse_map_type() {
    let input = "{ \"key\" : 2, [1] : false }";
    test_types(
        input,
        vec![Type::Mapping(
            vec![Type::String, Type::List(vec![Type::Integer])],
            vec![Type::Bool, Type::Integer],
        )],
    );
}

#[test]
fn parse_sublist() {
    let input = "[[1],2,3]";
    test(
        input,
        vec![Expr::from(Value::from(vec![
            Value::from(vec![1.into()]),
            2.into(),
            3.into(),
        ]))],
    );
}

#[test]
fn sublist_type() {
    let input = "[[1],2,3]";
    test_types(
        input,
        vec![Type::List(vec![
            Type::Integer,
            Type::List(vec![Type::Integer]),
        ])],
    );
}

#[test]
fn mixed_type_list() {
    let input = "[true, false, \"hello\", 1, { 1: 2, true: [1, true , \"str\"] }, [3]];";
    test_types(
        input,
        vec![Type::List(vec![
            Type::Bool,
            Type::Integer,
            Type::String,
            Type::List(vec![Type::Integer]),
            Type::Mapping(
                vec![Type::Bool, Type::Integer],
                vec![
                    Type::Integer,
                    Type::List(vec![Type::Bool, Type::Integer, Type::String]),
                ],
            ),
        ])],
    );
}

#[test]
fn trailing_input_is_rejected() {
    let mut parser = Parser::new("10; garbage");
    assert_eq!(parser.parse(), Err(ParseError::TrailingInput { position: 4 }));
}
