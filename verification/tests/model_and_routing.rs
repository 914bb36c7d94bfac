use cliparse::dispatch::{dispatch, Route};
use cliparse::invoke::parse;
use cliparse::model::{ArgSpec, Arity, CommandSpec, ModelError, ValueType};
use cliparse::token::{tokenize, Token};

fn flag(name: &str, short: Option<char>, long: Option<&str>, arity: Arity) -> ArgSpec {
    ArgSpec {
        name: name.to_string(),
        short,
        long: long.map(|l| l.to_string()),
        arity,
        vtype: ValueType::Text,
        default: None,
        required: false,
        help: String::new(),
    }
}

fn args(raw: &[&str]) -> Vec<String> {
    raw.iter().map(|a| a.to_string()).collect()
}

#[test]
fn define_accepts_distinct_aliases() {
    let r = CommandSpec::define(
        "app".to_string(),
        vec![
            flag("config", Some('c'), Some("config"), Arity::OneValue),
            flag("verbose", Some('v'), Some("verbose"), Arity::Counted),
        ],
        Vec::new(),
        Vec::new(),
    );
    assert!(r.is_ok());
}

#[test]
fn define_rejects_duplicate_short_alias() {
    let r = CommandSpec::define(
        "app".to_string(),
        vec![
            flag("config", Some('c'), Some("config"), Arity::OneValue),
            flag("count", Some('c'), Some("count"), Arity::OneValue),
        ],
        Vec::new(),
        Vec::new(),
    );
    assert!(matches!(r, Err(ModelError::DuplicateAlias { .. })));
}

#[test]
fn define_rejects_duplicate_long_alias() {
    let r = CommandSpec::define(
        "app".to_string(),
        vec![
            flag("one", None, Some("out"), Arity::OneValue),
            flag("two", None, Some("out"), Arity::OneValue),
        ],
        Vec::new(),
        Vec::new(),
    );
    assert!(matches!(r, Err(ModelError::DuplicateAlias { alias }) if alias == "out"));
}

#[test]
fn define_rejects_duplicate_subcommand_name() {
    let a = CommandSpec::define("list".to_string(), Vec::new(), Vec::new(), Vec::new()).unwrap();
    let b = CommandSpec::define("list".to_string(), Vec::new(), Vec::new(), Vec::new()).unwrap();
    let r = CommandSpec::define("app".to_string(), Vec::new(), Vec::new(), vec![a, b]);
    assert!(matches!(r, Err(ModelError::DuplicateSubcommandName { name }) if name == "list"));
}

#[test]
fn retokenizing_yields_identical_stream() {
    let raw = args(&["add", "--count=5", "-vv", "--", "-x"]);
    let first = tokenize(&raw);
    let second = tokenize(&raw);
    assert_eq!(first, second);
}

#[test]
fn tokens_classify_by_shape() {
    let raw = args(&["--count=5", "-vv", "plain", "-", "--", "--count=5"]);
    let toks = tokenize(&raw);
    assert_eq!(toks.len(), 6);
    assert_eq!(
        toks[0],
        Token::LongFlag { name: "count".to_string(), inline: Some("5".to_string()) }
    );
    assert_eq!(toks[1], Token::ShortCluster { chars: "vv".to_string() });
    assert_eq!(toks[2], Token::Positional { text: "plain".to_string() });
    assert_eq!(toks[3], Token::Positional { text: "-".to_string() });
    assert_eq!(toks[4], Token::Separator);
    assert_eq!(toks[5], Token::Positional { text: "--count=5".to_string() });
}

#[test]
fn long_flag_without_inline_value_has_none() {
    let toks = tokenize(&args(&["--debug"]));
    assert_eq!(toks, vec![Token::LongFlag { name: "debug".to_string(), inline: None }]);
}

#[test]
fn dispatch_picks_the_matching_route() {
    let child = CommandSpec::define("list".to_string(), Vec::new(), Vec::new(), Vec::new())
        .unwrap();
    let root =
        CommandSpec::define("app".to_string(), Vec::new(), Vec::new(), vec![child]).unwrap();
    let inv = parse(&root, &args(&["list"])).unwrap();
    let routes = vec![
        Route { chain: vec!["app".to_string()], handler: 0 },
        Route { chain: vec!["app".to_string(), "list".to_string()], handler: 7 },
    ];
    assert_eq!(dispatch(&routes, &inv), Some(7));
}

#[test]
fn dispatch_finds_no_route_for_an_unregistered_chain() {
    let root = CommandSpec::define("app".to_string(), Vec::new(), Vec::new(), Vec::new()).unwrap();
    let inv = parse(&root, &args(&[])).unwrap();
    let routes = vec![Route { chain: vec!["other".to_string()], handler: 0 }];
    assert_eq!(dispatch(&routes, &inv), None);
}
