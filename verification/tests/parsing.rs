use cliparse::invoke::{parse, Invocation};
use cliparse::model::{ArgSpec, Arity, CommandSpec, ValueType};
use cliparse::resolve::DiagKind;
use cliparse::validate::TypedValue;

fn flag(
    name: &str,
    short: Option<char>,
    long: Option<&str>,
    arity: Arity,
    vtype: ValueType,
    default: Option<&str>,
    required: bool,
) -> ArgSpec {
    ArgSpec {
        name: name.to_string(),
        short,
        long: long.map(|l| l.to_string()),
        arity,
        vtype,
        default: default.map(|d| d.to_string()),
        required,
        help: String::new(),
    }
}

fn positional(name: &str, vtype: ValueType, required: bool) -> ArgSpec {
    flag(name, None, None, Arity::OneValue, vtype, None, required)
}

fn leaf(name: &str, flags: Vec<ArgSpec>, positionals: Vec<ArgSpec>) -> CommandSpec {
    CommandSpec::define(name.to_string(), flags, positionals, Vec::new()).unwrap()
}

fn args(raw: &[&str]) -> Vec<String> {
    raw.iter().map(|a| a.to_string()).collect()
}

fn value_of<'a>(inv: &'a Invocation, name: &str) -> Option<&'a TypedValue> {
    inv.value_of(&name.to_string())
}

#[test]
fn double_dash_escapes_flags() {
    let root = leaf("cmd", Vec::new(), vec![positional("target", ValueType::Text, true)]);
    let inv = parse(&root, &args(&["--", "-x"])).unwrap();
    assert_eq!(value_of(&inv, "target"), Some(&TypedValue::Text("-x".to_string())));
}

#[test]
fn short_cluster_counts_occurrences() {
    let root = leaf(
        "cmd",
        vec![flag("verbose", Some('v'), Some("verbose"), Arity::Counted, ValueType::Integer, None, false)],
        Vec::new(),
    );
    let inv = parse(&root, &args(&["-vvv"])).unwrap();
    assert_eq!(value_of(&inv, "verbose"), Some(&TypedValue::Count(3)));
}

#[test]
fn missing_required_positional_is_one_diagnostic() {
    let root = leaf("cmd", Vec::new(), vec![positional("target", ValueType::Text, true)]);
    let diags = parse(&root, &args(&[])).unwrap_err();
    assert_eq!(diags.len(), 1);
    assert_eq!(diags[0].kind, DiagKind::MissingRequired);
    assert_eq!(diags[0].subject, "target");
}

#[test]
fn independent_problems_are_aggregated() {
    let root = leaf("cmd", Vec::new(), vec![positional("target", ValueType::Text, true)]);
    let diags = parse(&root, &args(&["--bogus"])).unwrap_err();
    assert!(diags.len() >= 2);
    assert!(diags.iter().any(|d| d.kind == DiagKind::UnknownFlag && d.subject == "bogus"));
    assert!(diags.iter().any(|d| d.kind == DiagKind::MissingRequired && d.subject == "target"));
}

#[test]
fn subcommand_takes_precedence_over_positional() {
    let child = leaf("list", Vec::new(), Vec::new());
    let root = CommandSpec::define(
        "app".to_string(),
        Vec::new(),
        vec![positional("target", ValueType::Text, false)],
        vec![child],
    )
    .unwrap();
    let inv = parse(&root, &args(&["list"])).unwrap();
    assert_eq!(inv.chain, vec!["app".to_string(), "list".to_string()]);
    assert_eq!(value_of(&inv, "target"), None);
}

#[test]
fn default_applies_when_nothing_is_supplied() {
    let root = leaf(
        "cmd",
        vec![flag("format", Some('f'), Some("format"), Arity::OneValue, ValueType::Text, Some("text"), false)],
        Vec::new(),
    );
    let inv = parse(&root, &args(&[])).unwrap();
    assert_eq!(value_of(&inv, "format"), Some(&TypedValue::Text("text".to_string())));
}

#[test]
fn supplied_value_overrides_default() {
    let root = leaf(
        "cmd",
        vec![flag("format", Some('f'), Some("format"), Arity::OneValue, ValueType::Text, Some("text"), false)],
        Vec::new(),
    );
    let inv = parse(&root, &args(&["--format", "json"])).unwrap();
    assert_eq!(value_of(&inv, "format"), Some(&TypedValue::Text("json".to_string())));
}

#[test]
fn inline_value_binds() {
    let root = leaf(
        "cmd",
        vec![flag("config", Some('c'), Some("config"), Arity::OneValue, ValueType::Text, None, false)],
        Vec::new(),
    );
    let inv = parse(&root, &args(&["--config=settings.toml"])).unwrap();
    assert_eq!(value_of(&inv, "config"), Some(&TypedValue::Text("settings.toml".to_string())));
}

#[test]
fn short_flag_consumes_following_value() {
    let root = leaf(
        "cmd",
        vec![flag("config", Some('c'), Some("config"), Arity::OneValue, ValueType::Text, None, false)],
        Vec::new(),
    );
    let inv = parse(&root, &args(&["-c", "cfg"])).unwrap();
    assert_eq!(value_of(&inv, "config"), Some(&TypedValue::Text("cfg".to_string())));
}

#[test]
fn repeated_long_counted_flag_accumulates() {
    let root = leaf(
        "cmd",
        vec![flag("verbose", Some('v'), Some("verbose"), Arity::Counted, ValueType::Integer, None, false)],
        Vec::new(),
    );
    let inv = parse(&root, &args(&["--verbose", "--verbose"])).unwrap();
    assert_eq!(value_of(&inv, "verbose"), Some(&TypedValue::Count(2)));
}

#[test]
fn boolean_flag_presence_binds_true() {
    let root = leaf(
        "cmd",
        vec![flag("debug", None, Some("debug"), Arity::NoValue, ValueType::Truth, None, false)],
        Vec::new(),
    );
    let inv = parse(&root, &args(&["--debug"])).unwrap();
    assert_eq!(value_of(&inv, "debug"), Some(&TypedValue::Truth(true)));
}

#[test]
fn integer_values_parse_exactly() {
    let root = leaf(
        "cmd",
        vec![flag("count", Some('n'), Some("count"), Arity::OneValue, ValueType::Integer, None, false)],
        Vec::new(),
    );
    let inv = parse(&root, &args(&["--count=42"])).unwrap();
    assert_eq!(value_of(&inv, "count"), Some(&TypedValue::Integer(42)));
    let inv = parse(&root, &args(&["--count=-7"])).unwrap();
    assert_eq!(value_of(&inv, "count"), Some(&TypedValue::Integer(-7)));
    let inv = parse(&root, &args(&["--count=9223372036854775807"])).unwrap();
    assert_eq!(value_of(&inv, "count"), Some(&TypedValue::Integer(i64::MAX)));
    let inv = parse(&root, &args(&["--count=-9223372036854775808"])).unwrap();
    assert_eq!(value_of(&inv, "count"), Some(&TypedValue::Integer(i64::MIN)));
}

#[test]
fn integer_overflow_is_a_type_mismatch() {
    let root = leaf(
        "cmd",
        vec![flag("count", Some('n'), Some("count"), Arity::OneValue, ValueType::Integer, None, false)],
        Vec::new(),
    );
    let diags = parse(&root, &args(&["--count=9223372036854775808"])).unwrap_err();
    assert_eq!(diags.len(), 1);
    assert_eq!(diags[0].kind, DiagKind::TypeMismatch);
    assert_eq!(diags[0].subject, "count");
}

#[test]
fn non_numeric_integer_is_a_type_mismatch() {
    let root = leaf(
        "cmd",
        vec![flag("count", Some('n'), Some("count"), Arity::OneValue, ValueType::Integer, None, false)],
        Vec::new(),
    );
    let diags = parse(&root, &args(&["--count", "abc"])).unwrap_err();
    assert_eq!(diags.len(), 1);
    assert_eq!(diags[0].kind, DiagKind::TypeMismatch);
}

#[test]
fn truth_values_parse_exactly() {
    let root = leaf(
        "cmd",
        vec![flag("active", Some('a'), Some("active"), Arity::OneValue, ValueType::Truth, None, false)],
        Vec::new(),
    );
    let inv = parse(&root, &args(&["--active=true"])).unwrap();
    assert_eq!(value_of(&inv, "active"), Some(&TypedValue::Truth(true)));
    let inv = parse(&root, &args(&["--active=false"])).unwrap();
    assert_eq!(value_of(&inv, "active"), Some(&TypedValue::Truth(false)));
    let diags = parse(&root, &args(&["--active=maybe"])).unwrap_err();
    assert_eq!(diags[0].kind, DiagKind::TypeMismatch);
}

#[test]
fn missing_value_halts_resolution() {
    let root = leaf(
        "cmd",
        vec![flag("config", Some('c'), Some("config"), Arity::OneValue, ValueType::Text, None, false)],
        Vec::new(),
    );
    let diags = parse(&root, &args(&["--config"])).unwrap_err();
    assert_eq!(diags.len(), 1);
    assert_eq!(diags[0].kind, DiagKind::MissingValue);
    assert_eq!(diags[0].subject, "config");
}

#[test]
fn value_taking_flag_mid_cluster_is_ambiguous() {
    let root = leaf(
        "cmd",
        vec![
            flag("config", Some('c'), Some("config"), Arity::OneValue, ValueType::Text, None, false),
            flag("verbose", Some('v'), Some("verbose"), Arity::NoValue, ValueType::Truth, None, false),
        ],
        Vec::new(),
    );
    let diags = parse(&root, &args(&["-cv"])).unwrap_err();
    assert!(diags.iter().any(|d| d.kind == DiagKind::AmbiguousShortFlag && d.subject == "c"));
}

#[test]
fn unexpected_positional_is_diagnosed() {
    let root = leaf("cmd", Vec::new(), Vec::new());
    let diags = parse(&root, &args(&["stray"])).unwrap_err();
    assert_eq!(diags.len(), 1);
    assert_eq!(diags[0].kind, DiagKind::UnexpectedPositional);
    assert_eq!(diags[0].subject, "stray");
}

#[test]
fn unknown_subcommand_is_diagnosed() {
    let child = leaf("list", Vec::new(), Vec::new());
    let root =
        CommandSpec::define("app".to_string(), Vec::new(), Vec::new(), vec![child]).unwrap();
    let diags = parse(&root, &args(&["nope"])).unwrap_err();
    assert_eq!(diags.len(), 1);
    assert_eq!(diags[0].kind, DiagKind::UnknownSubcommand);
    assert_eq!(diags[0].subject, "nope");
}

#[test]
fn root_flags_survive_subcommand_descent() {
    let child = leaf("add", Vec::new(), vec![positional("name", ValueType::Text, true)]);
    let root = CommandSpec::define(
        "app".to_string(),
        vec![
            flag("debug", None, Some("debug"), Arity::NoValue, ValueType::Truth, None, false),
            flag("verbose", Some('v'), Some("verbose"), Arity::Counted, ValueType::Integer, None, false),
        ],
        Vec::new(),
        vec![child],
    )
    .unwrap();
    let inv = parse(&root, &args(&["--debug", "-vv", "add", "thing"])).unwrap();
    assert_eq!(inv.chain, vec!["app".to_string(), "add".to_string()]);
    assert_eq!(value_of(&inv, "debug"), Some(&TypedValue::Truth(true)));
    assert_eq!(value_of(&inv, "verbose"), Some(&TypedValue::Count(2)));
    assert_eq!(value_of(&inv, "name"), Some(&TypedValue::Text("thing".to_string())));
}

#[test]
fn root_defaults_apply_under_a_subcommand() {
    let child = leaf("list", Vec::new(), Vec::new());
    let root = CommandSpec::define(
        "app".to_string(),
        vec![flag("format", Some('f'), Some("format"), Arity::OneValue, ValueType::Text, Some("text"), false)],
        Vec::new(),
        vec![child],
    )
    .unwrap();
    let inv = parse(&root, &args(&["list"])).unwrap();
    assert_eq!(value_of(&inv, "format"), Some(&TypedValue::Text("text".to_string())));
}

#[test]
fn ill_typed_root_value_is_diagnosed_under_a_subcommand() {
    let child = leaf("list", Vec::new(), Vec::new());
    let root = CommandSpec::define(
        "app".to_string(),
        vec![flag("count", Some('n'), Some("count"), Arity::OneValue, ValueType::Integer, None, false)],
        Vec::new(),
        vec![child],
    )
    .unwrap();
    let diags = parse(&root, &args(&["--count=abc", "list"])).unwrap_err();
    assert_eq!(diags.len(), 1);
    assert_eq!(diags[0].kind, DiagKind::TypeMismatch);
    assert_eq!(diags[0].subject, "count");
}

#[test]
fn missing_required_root_positional_is_diagnosed_under_a_subcommand() {
    let child = leaf("list", Vec::new(), Vec::new());
    let root = CommandSpec::define(
        "app".to_string(),
        Vec::new(),
        vec![positional("target", ValueType::Text, true)],
        vec![child],
    )
    .unwrap();
    let diags = parse(&root, &args(&["list"])).unwrap_err();
    assert_eq!(diags.len(), 1);
    assert_eq!(diags[0].kind, DiagKind::MissingRequired);
    assert_eq!(diags[0].subject, "target");
}

#[test]
fn integer_accepts_a_leading_plus() {
    let root = leaf(
        "cmd",
        vec![flag("count", Some('n'), Some("count"), Arity::OneValue, ValueType::Integer, None, false)],
        Vec::new(),
    );
    let inv = parse(&root, &args(&["--count=+42"])).unwrap();
    assert_eq!(value_of(&inv, "count"), Some(&TypedValue::Integer(42)));
    let diags = parse(&root, &args(&["--count=+"])).unwrap_err();
    assert_eq!(diags[0].kind, DiagKind::TypeMismatch);
}

#[test]
fn lone_dash_and_empty_string_are_positionals() {
    let root = leaf(
        "cmd",
        Vec::new(),
        vec![positional("first", ValueType::Text, true), positional("second", ValueType::Text, true)],
    );
    let inv = parse(&root, &args(&["-", ""])).unwrap();
    assert_eq!(value_of(&inv, "first"), Some(&TypedValue::Text("-".to_string())));
    assert_eq!(value_of(&inv, "second"), Some(&TypedValue::Text("".to_string())));
}

#[test]
fn cluster_mixes_counted_and_boolean_flags() {
    let root = leaf(
        "cmd",
        vec![
            flag("verbose", Some('v'), Some("verbose"), Arity::Counted, ValueType::Integer, None, false),
            flag("debug", Some('d'), Some("debug"), Arity::NoValue, ValueType::Truth, None, false),
        ],
        Vec::new(),
    );
    let inv = parse(&root, &args(&["-vvd"])).unwrap();
    assert_eq!(value_of(&inv, "verbose"), Some(&TypedValue::Count(2)));
    assert_eq!(value_of(&inv, "debug"), Some(&TypedValue::Truth(true)));
}

#[test]
fn positional_consumption_blocks_later_descent() {
    let child = leaf("list", Vec::new(), Vec::new());
    let root = CommandSpec::define(
        "app".to_string(),
        Vec::new(),
        vec![positional("target", ValueType::Text, false)],
        vec![child],
    )
    .unwrap();
    let diags = parse(&root, &args(&["x", "list"])).unwrap_err();
    assert_eq!(inv_chain_err(&root, &args(&["x", "list"])), vec!["app".to_string()]);
    assert_eq!(diags.len(), 1);
    assert_eq!(diags[0].kind, DiagKind::UnexpectedPositional);
    assert_eq!(diags[0].subject, "list");
}

fn inv_chain_err(root: &CommandSpec, raw: &Vec<String>) -> Vec<String> {
    let tokens = cliparse::token::tokenize(raw);
    let (resolution, _path) = cliparse::resolve::resolve(root, &tokens);
    resolution.chain
}

#[test]
fn nested_subcommands_descend_twice() {
    let grandchild = leaf("all", Vec::new(), Vec::new());
    let child = CommandSpec::define(
        "list".to_string(),
        Vec::new(),
        Vec::new(),
        vec![grandchild],
    )
    .unwrap();
    let root =
        CommandSpec::define("app".to_string(), Vec::new(), Vec::new(), vec![child]).unwrap();
    let inv = parse(&root, &args(&["list", "all"])).unwrap();
    assert_eq!(inv.chain, vec!["app".to_string(), "list".to_string(), "all".to_string()]);
}

#[test]
fn flags_of_the_active_subcommand_bind() {
    let child = leaf(
        "add",
        vec![flag("count", Some('n'), Some("count"), Arity::OneValue, ValueType::Integer, Some("1"), false)],
        vec![positional("name", ValueType::Text, true)],
    );
    let root =
        CommandSpec::define("app".to_string(), Vec::new(), Vec::new(), vec![child]).unwrap();
    let inv = parse(&root, &args(&["add", "My Item", "--count", "5"])).unwrap();
    assert_eq!(inv.chain, vec!["app".to_string(), "add".to_string()]);
    assert_eq!(value_of(&inv, "name"), Some(&TypedValue::Text("My Item".to_string())));
    assert_eq!(value_of(&inv, "count"), Some(&TypedValue::Integer(5)));
}
