use std::convert::TryFrom;

use call_api_check::binder::{ParameterBinder, ParameterBinderToken};
use call_api_check::cli::Cli;
use call_api_check::client::IcingaPsRestApiClient;
use call_api_check::icinga::{ExitCode, IcingaTermination};
use call_api_check::lexer::{Error, Lexer, Token};
use call_api_check::number::Number;
use call_api_check::parser::{from_str, CliArgument};
use call_api_check::restapiv1::{CheckerResult, CommandArguments, Exitcode, Perfdata};

fn json_of(arg: &CliArgument) -> serde_json::Value {
    match arg {
        CliArgument::Array(items) => serde_json::Value::Array(items.iter().map(json_of).collect()),
        CliArgument::Bool(b) => serde_json::Value::Bool(*b),
        CliArgument::Number(Number::PosInt(u)) => serde_json::Value::from(*u),
        CliArgument::Number(Number::NegInt(i)) => serde_json::Value::from(*i),
        CliArgument::Number(Number::Float(lexeme)) => {
            serde_json::Value::from(lexeme.parse::<f64>().unwrap())
        }
        CliArgument::String(s) => serde_json::Value::String(s.clone()),
    }
}

/// The request body, with the keys in the map's own order.
fn body_of(args: &[&str]) -> String {
    let owned: Vec<String> = args.iter().map(|s| s.to_string()).collect();
    let map = CommandArguments::try_from(owned.as_slice()).unwrap().into_inner();
    let fields: Vec<String> = map
        .iter()
        .map(|(k, v)| {
            format!(
                "{}:{}",
                serde_json::to_string(k).unwrap(),
                serde_json::to_string(&json_of(v)).unwrap()
            )
        })
        .collect();
    format!("{{{}}}", fields.join(","))
}

fn lex(s: &str) -> Vec<Token> {
    Lexer::from_str(s).lex().unwrap()
}

#[test]
fn scenario_warning_critical() {
    assert_eq!(body_of(&["-Warning", "0", "-Critical", "1"]), r#"{"Warning":0,"Critical":1}"#);
}

#[test]
fn scenario_interleaved_switch() {
    assert_eq!(
        body_of(&["-Warning", "0", "-switch", "-Critical", "1"]),
        r#"{"Warning":0,"switch":true,"Critical":1}"#
    );
}

#[test]
fn scenario_quoted_comma() {
    assert_eq!(body_of(&["-Name", "\"foo,123\""]), r#"{"Name":"foo,123"}"#);
}

#[test]
fn scenario_array_operator() {
    assert_eq!(body_of(&["-Arr", "@(\"foo\",123)"]), r#"{"Arr":["foo",123]}"#);
}

#[test]
fn scenario_nested_brackets() {
    assert_eq!(body_of(&["-Arr", "[ foo , [ 123 , 456 ] ]"]), r#"{"Arr":["foo",[123,456]]}"#);
}

#[test]
fn scenario_range_value() {
    assert_eq!(body_of(&["-Range", "-10:20"]), r#"{"Range":"-10:20"}"#);
}

#[test]
fn scenario_sub_expression() {
    assert_eq!(
        body_of(&["-Secret", "(ConvertTo-IcingaSecureString 'my string')"]),
        r#"{"Secret":"(ConvertTo-IcingaSecureString 'my string')"}"#
    );
}

#[test]
fn scenario_positional_only() {
    let args = vec!["foo".to_owned(), "bar".to_owned(), "baz".to_owned()];
    let err = CommandArguments::try_from(args.as_slice()).unwrap_err();
    assert_eq!(err.reason, Error::ParameterBinder);
    assert_eq!(err.failed_arg, Some("foo".to_owned()));
    assert_eq!(err.to_string(), "invalid value for argument 'foo' (failed to bind arguments as parameters)");
    assert_eq!(err.exitcode(), ExitCode::Unknown);
}

#[test]
fn lexer_vectors() {
    assert_eq!(lex("[]"), vec![Token::ArrayBegin, Token::ArrayEnd]);
    assert_eq!(lex("@()"), vec![Token::ArrayOpBegin, Token::ArrayOpEnd]);
    assert_eq!(lex("$False,$True"), vec![Token::Bool(false), Token::Comma, Token::Bool(true)]);
    assert_eq!(lex(r#"`"`'```[`]"#), vec![Token::String("\"'`[]".to_owned())]);
}

#[test]
fn lexer_flushes_before_bracket() {
    assert_eq!(
        lex("abc[1]"),
        vec![
            Token::String("abc".to_owned()),
            Token::ArrayBegin,
            Token::Number("1".to_owned()),
            Token::ArrayEnd
        ]
    );
}

#[test]
fn lexer_blanks_do_not_split() {
    assert_eq!(lex("foo bar"), vec![Token::String("foobar".to_owned())]);
    assert_eq!(lex(" \t\r"), vec![]);
    assert_eq!(lex(""), vec![]);
}

#[test]
fn lexer_unterminated_quote_yields_text() {
    assert_eq!(lex("'abc"), vec![Token::String("abc".to_owned())]);
    assert_eq!(lex("\"a`"), vec![Token::String("a".to_owned())]);
    assert_eq!(lex("(abc"), vec![Token::String("(abc".to_owned())]);
}

#[test]
fn lexer_quoted_numbers_are_numbers() {
    assert_eq!(lex("'123'"), vec![Token::Number("123".to_owned())]);
    assert_eq!(lex("\"$True\""), vec![Token::Bool(true)]);
    assert_eq!(lex("@x"), vec![Token::String("@x".to_owned())]);
}

#[test]
fn relexing_written_tokens_gives_them_back() {
    let tokens = lex(r#"foo,"a`"b",[1,$True]"#);
    assert_eq!(
        tokens,
        vec![
            Token::String("foo".to_owned()),
            Token::Comma,
            Token::String("a\"b".to_owned()),
            Token::Comma,
            Token::ArrayBegin,
            Token::Number("1".to_owned()),
            Token::Comma,
            Token::Bool(true),
            Token::ArrayEnd
        ]
    );
    assert_eq!(lex(r#""foo","a`"b",["1","$True"]"#), tokens);
}

#[test]
fn parsed_values_have_no_empty_text() {
    assert_eq!(from_str("''"), Err(Error::Parser));
    assert_eq!(from_str("'',x"), Err(Error::Parser));
    assert_eq!(from_str("x,''"), Ok(CliArgument::Array(vec![CliArgument::String("x".to_owned())])));
    assert_eq!(from_str("'12'"), Ok(CliArgument::Number(Number::PosInt(12))));
}

#[test]
fn numbers_are_classified_in_order() {
    assert_eq!(Number::parse("5"), Some(Number::PosInt(5)));
    assert_eq!(Number::parse("-5"), Some(Number::NegInt(-5)));
    assert_eq!(Number::parse("-0"), Some(Number::NegInt(0)));
    assert_eq!(Number::parse("0"), Some(Number::PosInt(0)));
    assert_eq!(Number::parse("18446744073709551615"), Some(Number::PosInt(u64::MAX)));
    assert_eq!(Number::parse("18446744073709551616"), Some(Number::Float("18446744073709551616".to_owned())));
    assert_eq!(Number::parse("-9223372036854775808"), Some(Number::NegInt(i64::MIN)));
    assert_eq!(Number::parse("-9223372036854775809"), Some(Number::Float("-9223372036854775809".to_owned())));
    assert_eq!(Number::parse("+1"), Some(Number::Float("+1".to_owned())));
    assert_eq!(Number::parse("+1.0"), Some(Number::Float("+1.0".to_owned())));
    assert_eq!(Number::parse("1e3"), Some(Number::Float("1e3".to_owned())));
    assert_eq!(Number::parse(".5"), Some(Number::Float(".5".to_owned())));
    assert_eq!(Number::parse("5."), Some(Number::Float("5.".to_owned())));
    assert_eq!(Number::parse("-Infinity"), Some(Number::Float("-Infinity".to_owned())));
    assert_eq!(Number::parse("NaN"), Some(Number::Float("NaN".to_owned())));
    assert_eq!(Number::parse("-"), None);
    assert_eq!(Number::parse("."), None);
    assert_eq!(Number::parse("1e"), None);
    assert_eq!(Number::parse("1.2.3"), None);
    assert_eq!(Number::parse("abc"), None);
    assert_eq!(Number::parse(""), None);
}

#[test]
fn binding_written_parameters_gives_them_back() {
    let args = vec![
        "-Warning".to_owned(),
        "\"0\"".to_owned(),
        "-Name".to_owned(),
        "\"foo,123\"".to_owned(),
        "-Arr".to_owned(),
        "[\"foo\",[\"-1\",\"$False\"]]".to_owned(),
    ];
    let map = CommandArguments::try_from(args.as_slice()).unwrap().into_inner();
    let entries: Vec<(String, CliArgument)> = map.into_iter().collect();
    assert_eq!(
        entries,
        vec![
            ("Warning".to_owned(), CliArgument::Number(Number::PosInt(0))),
            ("Name".to_owned(), CliArgument::String("foo,123".to_owned())),
            (
                "Arr".to_owned(),
                CliArgument::Array(vec![
                    CliArgument::String("foo".to_owned()),
                    CliArgument::Array(vec![
                        CliArgument::Number(Number::NegInt(-1)),
                        CliArgument::Bool(false)
                    ])
                ])
            ),
        ]
    );
}

#[test]
fn parameter_names() {
    assert!("-Warning".is_parameter_name());
    assert!("-a".to_owned().is_parameter_name());
    assert!(!"-10".is_parameter_name());
    assert!(!"-10:20".is_parameter_name());
    assert!(!"-".is_parameter_name());
    assert!(!"-$True".is_parameter_name());
    assert!(!"--x".is_parameter_name());
    assert!(!"-\u{e9}".is_parameter_name());
    assert!(!"Warning".is_parameter_name());
    assert_eq!("-Warning".as_parameter_name(), "Warning");
}

#[test]
fn repeated_key_keeps_place_and_last_value() {
    let args: Vec<String> = ["-a", "1", "-b", "2", "-a", "3"].iter().map(|s| s.to_string()).collect();
    let cmdargs = CommandArguments::try_from(args.as_slice()).unwrap();
    assert_eq!(cmdargs.len(), 2);
    assert_eq!(cmdargs.get("a"), Some(&CliArgument::Number(Number::PosInt(3))));
    assert_eq!(cmdargs.get("c"), None);
    let keys: Vec<String> = cmdargs.into_inner().keys().cloned().collect();
    assert_eq!(keys, vec!["a".to_owned(), "b".to_owned()]);
}

#[test]
fn empty_argument_list_gives_empty_map() {
    let args: Vec<String> = vec![];
    assert_eq!(CommandArguments::try_from(args.as_slice()).unwrap().len(), 0);
}

#[test]
fn parse_errors_name_the_parameter() {
    let args = vec!["-X".to_owned(), "[1".to_owned()];
    let err = CommandArguments::try_from(args.as_slice()).unwrap_err();
    assert_eq!(err.reason, Error::Parser);
    assert_eq!(err.failed_arg, Some("-X".to_owned()));
    assert_eq!(err.to_string(), "invalid value for argument '-X' (failed to parse PowerShell syntax)");
}

#[test]
fn binder_steps_and_end() {
    let args = vec!["-a".to_owned()];
    let mut pb = ParameterBinder::new(&args);
    assert!(pb.has_next());
    assert_eq!(pb.next().unwrap().unwrap(), ("a".to_owned(), CliArgument::Bool(true)));
    assert!(!pb.has_next());
    assert!(pb.next().is_none());
    let err = pb.next_parameter_pair().unwrap_err();
    assert_eq!(err.failed_arg, None);
    assert_eq!(err.to_string(), "no more arguments for parameter binder (failed to bind arguments as parameters)");
}

#[test]
fn parser_forms() {
    assert_eq!(from_str("a,"), Ok(CliArgument::Array(vec![CliArgument::String("a".to_owned())])));
    assert_eq!(from_str("[1,]"), Ok(CliArgument::Array(vec![CliArgument::Number(Number::PosInt(1))])));
    assert_eq!(from_str("@()"), Ok(CliArgument::Array(vec![])));
    assert_eq!(from_str("[]"), Ok(CliArgument::Array(vec![])));
    assert_eq!(from_str(""), Err(Error::Parser));
    assert_eq!(from_str("]"), Err(Error::Parser));
    assert_eq!(from_str("[1)"), Err(Error::Parser));
    assert_eq!(Error::Lexer.to_string(), "failed to lex PowerShell syntax");
    assert_eq!(Error::Parser.to_string(), "failed to parse PowerShell syntax");
}

#[test]
fn exit_codes() {
    assert_eq!(ExitCode::from_i32(0), ExitCode::OK);
    assert_eq!(ExitCode::from_i32(1), ExitCode::Warning);
    assert_eq!(ExitCode::from_i32(2), ExitCode::Critical);
    assert_eq!(ExitCode::from_i32(3), ExitCode::Unknown);
    assert_eq!(ExitCode::from_i32(4), ExitCode::Unknown);
    assert_eq!(ExitCode::from_i32(-1), ExitCode::Unknown);
    assert_eq!(ExitCode::Critical.code(), 2);
}

#[test]
fn verdict_lines() {
    let result = CheckerResult {
        exitcode: Exitcode::Executed(1),
        checkresult: "line one\r\nline two".to_owned(),
        perfdata: Perfdata::Single("'a'=1;;".to_owned()),
    };
    assert_eq!(result.to_string(), "line one\nline two | 'a'=1;;");
    assert_eq!(result.report_text(), "line one\nline two | 'a'=1;;");
    assert_eq!(result.exitcode(), ExitCode::Warning);
    let result = CheckerResult {
        exitcode: Exitcode::NotExecuted,
        checkresult: "[UNKNOWN]".to_owned(),
        perfdata: Perfdata::Absent,
    };
    assert_eq!(result.to_string(), "[UNKNOWN]");
    assert_eq!(result.exitcode(), ExitCode::Unknown);
    let result = CheckerResult {
        exitcode: Exitcode::Executed(7),
        checkresult: "x".to_owned(),
        perfdata: Perfdata::Multiple(vec![]),
    };
    assert_eq!(result.to_string(), "x");
    assert_eq!(result.exitcode(), ExitCode::Unknown);
    assert!(!Perfdata::Single(String::new()).valid());
    assert!(Perfdata::Multiple(vec![String::new()]).valid());
    assert_eq!(Perfdata::Absent.to_string(), "");
}

#[test]
fn checker_url_and_settings() {
    let client = IcingaPsRestApiClient::new("host.example", 5668, true);
    assert_eq!(client.checker_url("Invoke-Foo"), "https://host.example:5668/v1/checker?command=Invoke-Foo");
    assert!(client.allow_invalid_certs());
    assert_eq!(client.timeout(), 60);
    let client = IcingaPsRestApiClient::new("h", 0, false).with_timeout(30);
    assert_eq!(client.checker_url("c"), "https://h:0/v1/checker?command=c");
    assert_eq!(client.timeout(), 30);
}

#[test]
fn cli_defaults() {
    let cli = Cli::default();
    assert_eq!(cli.host, "localhost");
    assert_eq!(cli.port, 5668);
    assert_eq!(cli.command, "");
    assert!(!cli.insecure);
    assert_eq!(cli.timeout, 60);
    assert!(cli.forward_args.is_empty());
}

#[test]
fn non_finite_literals_are_text() {
    assert_eq!(lex("inf"), vec![Token::String("inf".to_owned())]);
    assert_eq!(lex("-Infinity"), vec![Token::String("-Infinity".to_owned())]);
    assert_eq!(from_str("NaN"), Ok(CliArgument::String("NaN".to_owned())));
    assert_eq!(lex("1e309"), vec![Token::String("1e309".to_owned())]);
    assert_eq!(lex("-1e309"), vec![Token::String("-1e309".to_owned())]);
    assert_eq!(lex("1.7976931348623159e308"), vec![Token::String("1.7976931348623159e308".to_owned())]);
    assert_eq!(lex("179769313486231580793728971405303415079934132710037826936173778980444968292764750946649017977587207096330286416692887910946555547851940402630657488671505820681908902000708383676273854845817711531764475730270069855571366959622842914819860834936475292719074168444365510704342711559699508093042880177904174497792"), vec![Token::String("179769313486231580793728971405303415079934132710037826936173778980444968292764750946649017977587207096330286416692887910946555547851940402630657488671505820681908902000708383676273854845817711531764475730270069855571366959622842914819860834936475292719074168444365510704342711559699508093042880177904174497792".to_owned())]);
}

#[test]
fn finite_literals_are_numbers() {
    assert_eq!(lex("1e308"), vec![Token::Number("1e308".to_owned())]);
    assert_eq!(lex("1.7976931348623158e308"), vec![Token::Number("1.7976931348623158e308".to_owned())]);
    assert_eq!(lex("179769313486231580793728971405303415079934132710037826936173778980444968292764750946649017977587207096330286416692887910946555547851940402630657488671505820681908902000708383676273854845817711531764475730270069855571366959622842914819860834936475292719074168444365510704342711559699508093042880177904174497791"), vec![Token::Number("179769313486231580793728971405303415079934132710037826936173778980444968292764750946649017977587207096330286416692887910946555547851940402630657488671505820681908902000708383676273854845817711531764475730270069855571366959622842914819860834936475292719074168444365510704342711559699508093042880177904174497791".to_owned())]);
    assert_eq!(lex("0e99999999999999999999999999"), vec![Token::Number("0e99999999999999999999999999".to_owned())]);
    assert_eq!(lex("1e-99999999999999999999999999"), vec![Token::Number("1e-99999999999999999999999999".to_owned())]);
    assert_eq!(lex("0.000"), vec![Token::Number("0.000".to_owned())]);
    for lexeme in ["1e308", "1.7976931348623158e308", "179769313486231580793728971405303415079934132710037826936173778980444968292764750946649017977587207096330286416692887910946555547851940402630657488671505820681908902000708383676273854845817711531764475730270069855571366959622842914819860834936475292719074168444365510704342711559699508093042880177904174497791", "1e-99999999999999999999999999"] {
        assert!(lexeme.parse::<f64>().unwrap().is_finite());
    }
    for lexeme in ["1e309", "1.7976931348623159e308", "179769313486231580793728971405303415079934132710037826936173778980444968292764750946649017977587207096330286416692887910946555547851940402630657488671505820681908902000708383676273854845817711531764475730270069855571366959622842914819860834936475292719074168444365510704342711559699508093042880177904174497792"] {
        assert!(lexeme.parse::<f64>().unwrap().is_infinite());
    }
}

#[test]
fn leftover_tokens_are_errors() {
    assert_eq!(from_str("1]"), Err(Error::Parser));
    assert_eq!(from_str("'a' 'b'"), Err(Error::Parser));
    assert_eq!(from_str("[1]]"), Err(Error::Parser));
    assert_eq!(from_str("@(1))"), Err(Error::Parser));
    let args = vec!["-X".to_owned(), "1]".to_owned()];
    let err = CommandArguments::try_from(args.as_slice()).unwrap_err();
    assert_eq!(err.reason, Error::Parser);
}

#[test]
fn relexing_spaced_tokens_gives_them_back() {
    let tokens = lex(r#"foo,"a`"b",[1,$True]"#);
    assert_eq!(lex(r#""foo" , "a`"b" , [ "1" , "$True" ]"#), tokens);
}

#[test]
fn binding_written_switches_and_values_in_order() {
    let args: Vec<String> = ["-a", "-b", "1", "-c", "x,y", "-a"].iter().map(|s| s.to_string()).collect();
    let mut pb = ParameterBinder::new(&args);
    assert_eq!(pb.next().unwrap().unwrap(), ("a".to_owned(), CliArgument::Bool(true)));
    assert_eq!(pb.next().unwrap().unwrap(), ("b".to_owned(), CliArgument::Number(Number::PosInt(1))));
    assert_eq!(
        pb.next().unwrap().unwrap(),
        (
            "c".to_owned(),
            CliArgument::Array(vec![
                CliArgument::String("x".to_owned()),
                CliArgument::String("y".to_owned())
            ])
        )
    );
    assert_eq!(pb.next().unwrap().unwrap(), ("a".to_owned(), CliArgument::Bool(true)));
    assert!(pb.next().is_none());
}
