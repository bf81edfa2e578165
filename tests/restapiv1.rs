use std::collections::HashMap;
use std::convert::{TryFrom, TryInto};

use call_api_check::lexer::Error;
use call_api_check::number::Number;
use call_api_check::parser::CliArgument;
use call_api_check::restapiv1::{Argument, CommandArguments, Perfdata};

fn json_of_argument(arg: &Argument) -> serde_json::Value {
    match arg {
        Argument::RealArgument(s) => serde_json::Value::String(s.clone()),
        Argument::DummyArgument(b) => serde_json::Value::Bool(*b),
    }
}

#[test]
fn test_commandarguments_from_into() {
    let args = vec![String::from("-foo"), String::from("bar")];
    let cmdargs = CommandArguments::try_from(&*args).unwrap();
    assert_eq!(
        cmdargs.get("foo").unwrap(),
        &CliArgument::String("bar".to_owned())
    );

    let cmdargs: CommandArguments = args.as_slice().try_into().unwrap();
    assert_eq!(
        cmdargs.get("foo").unwrap(),
        &CliArgument::String("bar".to_owned())
    );
}

#[test]
fn test_serialize_commandarguments() {
    // positional arguments are not supported
    let args = vec![
        String::from("foo"),
        String::from("bar"),
        String::from("baz"),
    ];
    let err = CommandArguments::try_from(args.as_slice()).unwrap_err();
    assert_eq!(err.reason, Error::ParameterBinder);

    // parameters with arguments are inserted as key value pairs
    let args = vec![
        String::from("-Warning"),
        String::from("0"),
        String::from("-Critical"),
        String::from("1"),
    ];
    let cmdargs = CommandArguments::try_from(args.as_slice()).unwrap();
    assert_eq!(cmdargs.len(), 2);
    assert_eq!(
        cmdargs.get("Warning").unwrap(),
        &CliArgument::Number(Number::PosInt(0))
    );
    assert_eq!(
        cmdargs.get("Critical").unwrap(),
        &CliArgument::Number(Number::PosInt(1))
    );

    // switch arguments can be interleaved anywhere, fake value True is inserted
    let args = vec![
        String::from("-Warning"),
        String::from("0"),
        String::from("-switch"),
        String::from("-Critical"),
        String::from("1"),
    ];
    let cmdargs = CommandArguments::try_from(args.as_slice()).unwrap();
    assert_eq!(cmdargs.len(), 3);
    assert_eq!(
        cmdargs.get("Warning").unwrap(),
        &CliArgument::Number(Number::PosInt(0))
    );
    assert_eq!(
        cmdargs.get("Critical").unwrap(),
        &CliArgument::Number(Number::PosInt(1))
    );
    assert_eq!(cmdargs.get("switch").unwrap(), &CliArgument::Bool(true));
}

#[test]
fn test_serialize_arglist() {
    let mut outer = HashMap::new();
    outer.insert("arg1", Argument::RealArgument(String::from("bla")));
    outer.insert("arg2", Argument::DummyArgument(true));
    let encoded: serde_json::Map<String, serde_json::Value> = outer
        .iter()
        .map(|(k, v)| (k.to_string(), json_of_argument(v)))
        .collect();
    println!("{}", serde_json::to_string(&encoded).unwrap());
}

#[test]
fn test_format_perfdata() {
    assert_eq!(
        Perfdata::Multiple(vec![
            String::from("'baz'=158;;"),
            String::from("'qux'=158;;")
        ])
        .to_string(),
        "'baz'=158;; 'qux'=158;;"
    );
}
