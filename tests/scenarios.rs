use argmap::OptionMap;
use std::collections::HashMap;

fn toks(v: &[&str]) -> Vec<String> {
    v.iter().map(|s| s.to_string()).collect()
}

fn opts(m: &OptionMap) -> HashMap<String, Vec<String>> {
    let mut h = HashMap::new();
    for k in m.keys() {
        h.insert(k.clone(), m.get(k).unwrap().clone());
    }
    h
}

fn expect(pairs: &[(&str, &[&str])]) -> HashMap<String, Vec<String>> {
    pairs
        .iter()
        .map(|(k, v)| (k.to_string(), v.iter().map(|s| s.to_string()).collect()))
        .collect()
}

fn run(bools: &[&str], input: &[&str]) -> (Vec<String>, HashMap<String, Vec<String>>) {
    let (args, argv) = argmap::new().booleans(bools).parse(&toks(input));
    (args, opts(&argv))
}

#[test]
fn long_short_and_attached_values() {
    let (args, argv) = run(&[], &["--long", "5", "-x", "6", "-n3", "hello"]);
    assert_eq!(args, vec!["hello"]);
    assert_eq!(argv, expect(&[("long", &["5"]), ("x", &["6"]), ("n", &["3"])]));
}

#[test]
fn cluster_last_letter_takes_next_token() {
    let (args, argv) = run(&[], &["-xvf", "file.tgz"]);
    assert!(args.is_empty());
    assert_eq!(argv, expect(&[("x", &[]), ("v", &[]), ("f", &["file.tgz"])]));
}

#[test]
fn terminator_alone() {
    let (args, argv) = run(&[], &["--"]);
    assert!(args.is_empty());
    assert!(argv.is_empty());
}

#[test]
fn declared_boolean_and_undeclared_short() {
    let (args, argv) = run(&["q"], &["-q", "x", "-z", "y"]);
    assert_eq!(args, vec!["x"]);
    assert_eq!(argv, expect(&[("q", &[]), ("z", &["y"])]));
}

#[test]
fn positionals_keep_input_order() {
    let (args, argv) = run(&[], &["a", "-x", "b", "c", "-", "d", "c"]);
    assert_eq!(args, vec!["a", "c", "-", "d", "c"]);
    assert_eq!(argv, expect(&[("x", &["b"])]));
}

#[test]
fn everything_after_terminator_is_positional() {
    let (args, argv) = run(&[], &["-a", "--", "-b", "--", "--c=d", "x"]);
    assert_eq!(args, vec!["-b", "--", "--c=d", "x"]);
    assert_eq!(argv, expect(&[("a", &[])]));
}

#[test]
fn lone_dash_is_positional_and_keeps_pending_option() {
    let (args, argv) = run(&[], &["-n", "-", "5"]);
    assert_eq!(args, vec!["-"]);
    assert_eq!(argv, expect(&[("n", &["5"])]));
}

#[test]
fn long_inline_value_splits_at_first_equals() {
    let (args, argv) = run(&["a"], &["--name=value", "x", "--a=b=c", "--=e"]);
    assert_eq!(args, vec!["x"]);
    assert_eq!(argv, expect(&[("name", &["value"]), ("a", &["b=c"]), ("", &["e"])]));
}

#[test]
fn long_inline_value_resolves_pending_option() {
    let (args, argv) = run(&[], &["-p", "--k=v", "w"]);
    assert_eq!(args, vec!["w"]);
    assert_eq!(argv, expect(&[("p", &[]), ("k", &["v"])]));
}

#[test]
fn declared_boolean_long_takes_no_value() {
    let (args, argv) = run(&["flag"], &["--flag", "x"]);
    assert_eq!(args, vec!["x"]);
    assert_eq!(argv, expect(&[("flag", &[])]));
}

#[test]
fn undeclared_long_takes_next_plain_token() {
    let (args, argv) = run(&[], &["--flag", "x"]);
    assert!(args.is_empty());
    assert_eq!(argv, expect(&[("flag", &["x"])]));
}

#[test]
fn cluster_without_next_token() {
    let (args, argv) = run(&[], &["-abc"]);
    assert!(args.is_empty());
    assert_eq!(argv, expect(&[("a", &[]), ("b", &[]), ("c", &[])]));
}

#[test]
fn cluster_followed_by_option() {
    let (args, argv) = run(&[], &["-abc", "-d", "x"]);
    assert!(args.is_empty());
    assert_eq!(argv, expect(&[("a", &[]), ("b", &[]), ("c", &[]), ("d", &["x"])]));
}

#[test]
fn digit_lead_token_is_value_of_short_option() {
    let (args, argv) = run(&[], &["-n", "-555"]);
    assert!(args.is_empty());
    assert_eq!(argv, expect(&[("n", &["-555"])]));
}

#[test]
fn digit_lead_token_is_value_of_long_option() {
    let (args, argv) = run(&[], &["--n", "-5x", "--m", "-x5"]);
    assert!(args.is_empty());
    assert_eq!(argv, expect(&[("n", &["-5x"]), ("m", &[]), ("x", &["5"])]));
}

#[test]
fn cluster_ending_in_boolean_leaves_nothing_pending() {
    let (args, argv) = run(&["q"], &["-rq", "x"]);
    assert_eq!(args, vec!["x"]);
    assert_eq!(argv, expect(&[("r", &[]), ("q", &[])]));
}

#[test]
fn resolving_pending_option_keeps_earlier_values() {
    let (args, argv) = run(&[], &["-x", "1", "-x", "--y"]);
    assert!(args.is_empty());
    assert_eq!(argv, expect(&[("x", &["1"]), ("y", &[])]));
    let (args, argv) = run(&[], &["-x", "1", "-x", "-y"]);
    assert!(args.is_empty());
    assert_eq!(argv, expect(&[("x", &["1"]), ("y", &[])]));
}

#[test]
fn non_letter_breaks_cluster() {
    let (args, argv) = run(&[], &["-ab@1", "-c+5"]);
    assert!(args.is_empty());
    assert_eq!(argv, expect(&[("a", &[]), ("b", &["@1"]), ("c", &["+5"])]));
}

#[test]
fn non_ascii_letters_and_values() {
    let (args, argv) = run(&[], &["-aé", "-ü5", "wert"]);
    assert_eq!(args, vec!["wert"]);
    assert_eq!(argv, expect(&[("a", &[]), ("é", &[]), ("ü", &["5"])]));
}

#[test]
fn short_inline_value() {
    let (args, argv) = run(&[], &["-=x", "-qrs=1234"]);
    assert!(args.is_empty());
    assert_eq!(argv, expect(&[("", &["x"]), ("qrs", &["1234"])]));
}

#[test]
fn empty_token_is_plain() {
    let (args, argv) = run(&[], &["", "-k", ""]);
    assert_eq!(args, vec![""]);
    assert_eq!(argv, expect(&[("k", &[""])]));
}

#[test]
fn pending_option_resolved_at_end_after_terminator() {
    let (args, argv) = run(&[], &["--q", "--", "x"]);
    assert_eq!(args, vec!["x"]);
    assert_eq!(argv, expect(&[("q", &[])]));
}

#[test]
fn boolean_registration_is_idempotent() {
    let m = argmap::new().boolean("q").boolean("q").booleans(&["q", "r"]);
    assert_eq!(m.boolean, vec!["q".to_string(), "r".to_string()]);
    let m = argmap::ArgMap::new();
    assert!(m.boolean.is_empty());
}

#[test]
fn option_map_lookups() {
    let (_, argv) = argmap::parse(&toks(&["-x", "1", "--x=2", "-y"]));
    assert!(argv.contains_key(&"x".to_string()));
    assert!(argv.contains_key(&"y".to_string()));
    assert!(!argv.contains_key(&"z".to_string()));
    assert_eq!(argv.get(&"x".to_string()), Some(&vec!["1".to_string(), "2".to_string()]));
    assert_eq!(argv.get(&"z".to_string()), None);
    assert_eq!(argv.keys().to_vec(), vec!["x".to_string(), "y".to_string()]);
    assert_eq!(argv.len(), 2);
}
