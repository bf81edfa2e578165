use call_api_check::binder::ParameterBinder;
use call_api_check::lexer::{Lexer, Token};
use call_api_check::number::Number;
use call_api_check::parser::{from_str, CliArgument, Parser};

fn json_of(arg: &CliArgument) -> serde_json::Value {
    match arg {
        CliArgument::Array(items) => serde_json::Value::Array(items.iter().map(json_of).collect()),
        CliArgument::Bool(b) => serde_json::Value::Bool(*b),
        CliArgument::Number(Number::PosInt(u)) => serde_json::Value::from(*u),
        CliArgument::Number(Number::NegInt(i)) => serde_json::Value::from(*i),
        CliArgument::Number(Number::Float(lexeme)) => {
            serde_json::Value::from(lexeme.parse::<f64>().unwrap())
        }
        CliArgument::String(s) => serde_json::Value::String(s.clone()),
    }
}

fn float_value(n: Option<Number>) -> Option<f64> {
    match n {
        Some(Number::Float(lexeme)) => Some(lexeme.parse::<f64>().unwrap()),
        _ => None,
    }
}

#[test]
fn test_number() {
    assert!(Number::parse("123") == Some(Number::PosInt(123)));
    assert!(Number::parse("-123") == Some(Number::NegInt(-123)));
    assert!(float_value(Number::parse("123.456")) == Some(123.456));
    assert!(float_value(Number::parse("-123.456")) == Some(-123.456));
    assert!(Number::parse("-+1") == None);
}

#[test]
fn test_lexer() {
    let input = "[]";
    let lexer = Lexer::from_str(input);
    assert!(lexer.lex().unwrap() == vec![Token::ArrayBegin, Token::ArrayEnd]);
    let input = "@()";
    let lexer = Lexer::from_str(input);
    assert!(lexer.lex().unwrap() == vec![Token::ArrayOpBegin, Token::ArrayOpEnd]);
    let input = "abc";
    let lexer = Lexer::from_str(input);
    assert!(lexer.lex().unwrap() == vec![Token::String("abc".to_owned())]);
    let input = "abc,123";
    let lexer = Lexer::from_str(input);
    assert!(
        lexer.lex().unwrap()
            == vec![
                Token::String("abc".to_owned()),
                Token::Comma,
                Token::Number("123".to_owned())
            ]
    );
    let input = "$False,$True";
    let lexer = Lexer::from_str(input);
    assert!(lexer.lex().unwrap() == vec![Token::Bool(false), Token::Comma, Token::Bool(true)]);
    let input = "[foo,123]";
    let lexer = Lexer::from_str(input);
    assert!(
        lexer.lex().unwrap()
            == vec![
                Token::ArrayBegin,
                Token::String("foo".to_owned()),
                Token::Comma,
                Token::Number("123".to_owned()),
                Token::ArrayEnd
            ]
    );
    let input = r#"@("foo",123)"#;
    let lexer = Lexer::from_str(input);
    assert!(
        lexer.lex().unwrap()
            == vec![
                Token::ArrayOpBegin,
                Token::String("foo".to_owned()),
                Token::Comma,
                Token::Number("123".to_owned()),
                Token::ArrayOpEnd
            ]
    );
    let input = r#""abc,123" , 'def,456'"#;
    let lexer = Lexer::from_str(input);
    assert!(
        lexer.lex().unwrap()
            == vec![
                Token::String("abc,123".to_owned()),
                Token::Comma,
                Token::String("def,456".to_owned())
            ]
    );
    let input = r#"`"`'```[`]"#;
    let lexer = Lexer::from_str(input);
    assert!(lexer.lex().unwrap() == vec![Token::String(r#""'`[]"#.to_owned())]);
}

#[test]
fn test_skalars() {
    let tokens = vec![Token::Bool(true)];
    let mut parser = Parser::new(&tokens);
    let result = parser.parse_argument().unwrap();
    let expected = CliArgument::Bool(true);
    assert!(result == expected);

    let tokens = vec![Token::Number("123".to_owned())];
    let mut parser = Parser::new(&tokens);
    let result = parser.parse_argument().unwrap();
    let expected = CliArgument::Number(Number::PosInt(123));
    assert!(result == expected);

    let tokens = vec![Token::String("Hello World".to_owned())];
    let mut parser = Parser::new(&tokens);
    let result = parser.parse_argument().unwrap();
    let expected = CliArgument::String("Hello World".to_owned());
    assert!(result == expected);
}

#[test]
fn test_array_by_comma_op() {
    let tokens = vec![
        Token::Bool(true),
        Token::Comma,
        Token::String("Hello World".to_owned()),
        Token::Comma,
        Token::Number("123".to_owned()),
    ];
    let mut parser = Parser::new(&tokens);
    let result = parser.parse_argument().unwrap();
    let expected = CliArgument::Array(vec![
        CliArgument::Bool(true),
        CliArgument::String("Hello World".to_owned()),
        CliArgument::Number(Number::PosInt(123)),
    ]);
    assert!(result == expected);
}

#[test]
fn test_array_1bool() {
    let tokens = vec![Token::ArrayBegin, Token::Bool(true), Token::ArrayEnd];
    let mut parser = Parser::new(&tokens);
    let result = parser.parse_array().unwrap();
    let expected = CliArgument::Array(vec![CliArgument::Bool(true)]);
    assert!(result == expected);
}

#[test]
fn test_bool_array_of_array_1bool() {
    let tokens = vec![
        Token::ArrayBegin,
        Token::ArrayBegin,
        Token::Bool(true),
        Token::ArrayEnd,
        Token::ArrayEnd,
    ];
    let mut parser = Parser::new(&tokens);
    let result = parser.parse_array().unwrap();
    let expected = CliArgument::Array(vec![CliArgument::Array(vec![CliArgument::Bool(true)])]);
    assert!(result == expected);
}

#[test]
fn test_example1() {
    let input = r#"foo"#;
    let result = from_str(input).unwrap();
    let expected = CliArgument::String("foo".to_owned());
    assert!(result == expected);
    assert!(serde_json::to_string(&json_of(&result)).unwrap() == r#""foo""#);
}

#[test]
fn test_example2() {
    let input = r#""foo""#;
    let result = from_str(input).unwrap();
    let expected = CliArgument::String("foo".to_owned());
    assert!(result == expected);
    assert!(serde_json::to_string(&json_of(&result)).unwrap() == r#""foo""#);
}

#[test]
fn test_example3() {
    let input = r#"123"#;
    let result = from_str(input).unwrap();
    let expected = CliArgument::Number(Number::PosInt(123));
    assert!(result == expected);
    assert!(serde_json::to_string(&json_of(&result)).unwrap() == r#"123"#);
}

#[test]
fn test_example4() {
    let input = r#"foo,123"#;
    let result = from_str(input).unwrap();
    let expected = CliArgument::Array(vec![
        CliArgument::String("foo".to_owned()),
        CliArgument::Number(Number::PosInt(123)),
    ]);
    assert!(result == expected);
    assert!(serde_json::to_string(&json_of(&result)).unwrap() == r#"["foo",123]"#);
}

#[test]
fn test_example5() {
    let input = r#""foo,123""#;
    let result = from_str(input).unwrap();
    let expected = CliArgument::String("foo,123".to_owned());
    assert!(result == expected);
    assert!(serde_json::to_string(&json_of(&result)).unwrap() == r#""foo,123""#);
}

#[test]
fn test_example6() {
    let input = r#"["foo",123]"#;
    let result = from_str(input).unwrap();
    let expected = CliArgument::Array(vec![
        CliArgument::String("foo".to_owned()),
        CliArgument::Number(Number::PosInt(123)),
    ]);
    assert!(result == expected);
    assert!(serde_json::to_string(&json_of(&result)).unwrap() == r#"["foo",123]"#);
}

#[test]
fn test_example7() {
    let input = r#"@("foo",123)"#;
    let result = from_str(input).unwrap();
    let expected = CliArgument::Array(vec![
        CliArgument::String("foo".to_owned()),
        CliArgument::Number(Number::PosInt(123)),
    ]);
    assert!(result == expected);
    assert!(serde_json::to_string(&json_of(&result)).unwrap() == r#"["foo",123]"#);
}

#[test]
fn test_example8() {
    let input = r#"[ foo , [ 123 , 456 ] ]"#;
    let result = from_str(input).unwrap();
    let expected = CliArgument::Array(vec![
        CliArgument::String("foo".to_owned()),
        CliArgument::Array(vec![
            CliArgument::Number(Number::PosInt(123)),
            CliArgument::Number(Number::PosInt(456)),
        ]),
    ]);
    assert!(result == expected);
    assert!(serde_json::to_string(&json_of(&result)).unwrap() == r#"["foo",[123,456]]"#);
}

#[test]
fn test_example9() {
    let input = r#"$False,$True"#;
    let result = from_str(input).unwrap();
    let expected = CliArgument::Array(vec![CliArgument::Bool(false), CliArgument::Bool(true)]);
    assert!(result == expected);
    assert!(serde_json::to_string(&json_of(&result)).unwrap() == r#"[false,true]"#);
}

#[test]
fn test_example10() {
    let input = r#"'"hello, world"'"#;
    let result = from_str(input).unwrap();
    let expected = CliArgument::String("\"hello, world\"".to_owned());
    assert!(result == expected);
    assert!(serde_json::to_string(&json_of(&result)).unwrap() == r#""\"hello, world\"""#);
}

#[test]
fn test_example11() {
    let input = r#""literal `" doublequote""#;
    let result = from_str(input).unwrap();
    let expected = CliArgument::String("literal \" doublequote".to_owned());
    assert!(result == expected);
    assert!(serde_json::to_string(&json_of(&result)).unwrap() == r#""literal \" doublequote""#);
}

#[test]
fn test_example12() {
    let input = r#"(ConvertTo-IcingaSecureString 'my string')"#;
    let result = from_str(input).unwrap();
    let expected = CliArgument::String("(ConvertTo-IcingaSecureString 'my string')".to_owned());
    assert!(result == expected);
    assert!(
        serde_json::to_string(&json_of(&result)).unwrap()
            == r#""(ConvertTo-IcingaSecureString 'my string')""#
    );
}

#[test]
fn test_parameter_binder() {
    let input_args = vec![
        "-Parameter1".to_owned(),
        "123".to_owned(),
        "-Parameter2".to_owned(),
        "-Parameter3".to_owned(),
        "-123".to_owned(),
        "-Parameter4".to_owned(),
        "-10:20".to_owned(),
        "-Parameter5".to_owned(),
        "'@:20".to_owned(),
    ];
    let mut pb = ParameterBinder::new(&input_args);
    let prm1 = pb.next_parameter_pair().unwrap();
    let prm2 = pb.next_parameter_pair().unwrap();
    let prm3 = pb.next_parameter_pair().unwrap();
    let prm4 = pb.next_parameter_pair().unwrap();
    let prm5 = pb.next_parameter_pair().unwrap();
    assert_eq!(
        prm1,
        (
            "Parameter1".to_owned(),
            CliArgument::Number(Number::PosInt(123))
        )
    );
    assert_eq!(prm2, ("Parameter2".to_owned(), CliArgument::Bool(true)));
    assert_eq!(
        prm3,
        (
            "Parameter3".to_owned(),
            CliArgument::Number(Number::NegInt(-123))
        )
    );
    assert_eq!(
        prm4,
        (
            "Parameter4".to_owned(),
            CliArgument::String("-10:20".to_owned())
        )
    );
    assert_eq!(
        prm5,
        (
            "Parameter5".to_owned(),
            CliArgument::String("@:20".to_owned())
        )
    );
}
