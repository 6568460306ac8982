use argmap::OptionMap;
use std::collections::HashMap;

fn toks(v: &[&str]) -> Vec<String> {
    v.iter().map(|s| s.to_string()).collect()
}

fn as_hash(m: &OptionMap) -> HashMap<String, Vec<String>> {
    let mut h = HashMap::new();
    for k in m.keys() {
        h.insert(k.clone(), m.get(k).unwrap().clone());
    }
    h
}

fn hash(pairs: &[(&str, Vec<&str>)]) -> HashMap<String, Vec<String>> {
    pairs
        .iter()
        .map(|(k, v)| (k.to_string(), v.iter().map(|s| s.to_string()).collect()))
        .collect()
}

#[test]
fn parse_junk0() {
    let (args, argv) = argmap::parse(&toks(&[
        "--long", "5",
        "-x", "6",
        "-n3",
        "hello",
        "-xvf", "whatever.tgz",
        "-y=cool",
        "-x7",
        "world",
        "--z=13",
        "-z", "12",
        "--",
        "hmm",
    ]));
    assert_eq!(args, vec!["hello", "world", "hmm"]);
    assert_eq!(as_hash(&argv), hash(&[
        ("long", vec!["5"]),
        ("x", vec!["6", "7"]),
        ("n", vec!["3"]),
        ("v", vec![]),
        ("f", vec!["whatever.tgz"]),
        ("y", vec!["cool"]),
        ("z", vec!["13", "12"]),
    ]));
}

#[test]
fn parse_junk1() {
    let (args, argv) = argmap::parse(&toks(&[
        "--hey=what",
        "-x", "5",
        "-x", "6",
        "hi",
        "-zn9",
        "-j", "3",
        "-i", "q",
        "-5",
        "--n", "-1312",
        "-xvf", "payload.tgz",
        "-j=zzz",
        "-",
        "whatever",
        "-w3",
        "--",
        "-cool",
        "--yes=xyz",
    ]));
    assert_eq!(args, vec!["hi", "-", "whatever", "-cool", "--yes=xyz"]);
    assert_eq!(as_hash(&argv), hash(&[
        ("hey", vec!["what"]),
        ("x", vec!["5", "6"]),
        ("z", vec![]),
        ("j", vec!["3", "zzz"]),
        ("i", vec!["q"]),
        ("5", vec![]),
        ("n", vec!["9", "-1312"]),
        ("v", vec![]),
        ("f", vec!["payload.tgz"]),
        ("w", vec!["3"]),
    ]));
}

#[test]
fn parse_empty() {
    let empty: Vec<String> = vec![];
    let (args, argv) = argmap::parse(&empty);
    assert_eq!(args, empty);
    assert_eq!(as_hash(&argv), hash(&[]));
}

#[test]
fn parse_one_long_bool() {
    let empty: Vec<String> = vec![];
    let (args, argv) = argmap::parse(&toks(&["--one"]));
    assert_eq!(args, empty);
    assert_eq!(as_hash(&argv), hash(&[("one", vec![])]));
}

#[test]
fn parse_one_short_bool() {
    let empty: Vec<String> = vec![];
    let (args, argv) = argmap::parse(&toks(&["-z"]));
    assert_eq!(args, empty);
    assert_eq!(as_hash(&argv), hash(&[("z", vec![])]));
}

#[test]
fn parse_bool_at_dashdash() {
    let empty: Vec<String> = vec![];
    let (args, argv) = argmap::parse(&toks(&["--q", "--"]));
    assert_eq!(args, empty);
    assert_eq!(as_hash(&argv), hash(&[("q", vec![])]));
}

#[test]
fn parse_negative_number_value() {
    let empty: Vec<String> = vec![];
    let (args, argv) = argmap::parse(&toks(&["--n", "-555"]));
    assert_eq!(args, empty);
    assert_eq!(as_hash(&argv), hash(&[("n", vec!["-555"])]));
}

#[test]
fn parse_cluster_number() {
    let empty: Vec<String> = vec![];
    let (args, argv) = argmap::parse(&toks(&["-abcdef123456"]));
    assert_eq!(args, empty);
    assert_eq!(as_hash(&argv), hash(&[
        ("a", vec![]),
        ("b", vec![]),
        ("c", vec![]),
        ("d", vec![]),
        ("e", vec![]),
        ("f", vec!["123456"]),
    ]));
}

#[test]
fn parse_single_boolean() {
    let (args, argv) = argmap::new().boolean("q").parse(&toks(&[
        "-x", "5",
        "-q", "1234",
        "--z=789",
    ]));
    assert_eq!(args, vec!["1234"]);
    assert_eq!(as_hash(&argv), hash(&[
        ("x", vec!["5"]),
        ("q", vec![]),
        ("z", vec!["789"]),
    ]));
}

#[test]
fn parse_boolean_nonalpha_break() {
    let empty: Vec<String> = vec![];
    let (args, argv) = argmap::new().boolean("q").parse(&toks(&["-w-5", "-qrs@4"]));
    assert_eq!(args, empty);
    assert_eq!(as_hash(&argv), hash(&[
        ("w", vec!["-5"]),
        ("q", vec![]),
        ("r", vec![]),
        ("s", vec!["@4"]),
    ]));
}

#[test]
fn parse_booleans_slice() {
    let (args, argv) = argmap::new().booleans(&["q", "z"]).parse(&toks(&["-q", "x", "-z", "y"]));
    assert_eq!(args, vec!["x", "y"]);
    assert_eq!(as_hash(&argv), hash(&[("q", vec![]), ("z", vec![])]));
}

#[test]
fn parse_boolean_vec_ref() {
    let (args, argv) = argmap::new()
        .booleans(&vec!["q", "z"])
        .parse(&toks(&["-q", "x", "-z", "y"]));
    assert_eq!(args, vec!["x", "y"]);
    assert_eq!(as_hash(&argv), hash(&[("q", vec![]), ("z", vec![])]));
}
