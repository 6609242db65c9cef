use cliparser::CLIError;
use cliparser::CLIParser;

fn parse(tokens: &[&str]) -> Result<CLIParser, CLIError> {
    let owned: Vec<String> = tokens.iter().map(|t| t.to_string()).collect();
    CLIParser::new().init(owned)
}

fn strings(items: &[&str]) -> Vec<String> {
    items.iter().map(|t| t.to_string()).collect()
}

#[test]
fn empty_input_gives_empty_containers() {
    let p = parse(&[]).unwrap();
    assert!(p.posits.is_empty());
    assert!(p.flags.is_empty());
    assert!(p.pairs.is_empty());
}

#[test]
fn lone_positional_is_kept_verbatim() {
    let p = parse(&["file.txt"]).unwrap();
    assert_eq!(p.posits, strings(&["file.txt"]));
    assert!(p.flags.is_empty());
    assert!(p.pairs.is_empty());
}

#[test]
fn positional_may_contain_equals_and_inner_dashes() {
    let p = parse(&["a=b", "file-name", "x--y"]).unwrap();
    assert_eq!(p.posits, strings(&["a=b", "file-name", "x--y"]));
    assert!(p.flags.is_empty());
    assert!(p.pairs.is_empty());
}

#[test]
fn repeated_flag_is_recorded_once() {
    let p = parse(&["-a", "-b", "-a", "-a"]).unwrap();
    assert_eq!(p.flags, strings(&["a", "b"]));
    assert!(p.posits.is_empty());
    assert!(p.pairs.is_empty());
}

#[test]
fn pair_splits_at_first_equal_sign() {
    let p = parse(&["--key=a=b"]).unwrap();
    assert_eq!(p.pairs, vec![("key".to_string(), "a=b".to_string())]);
}

#[test]
fn later_pair_value_overwrites_earlier() {
    let p = parse(&["--k=v1", "--k=v2"]).unwrap();
    assert_eq!(p.pairs, vec![("k".to_string(), "v2".to_string())]);
}

#[test]
fn reparsing_serialized_output_reproduces_it() {
    let first = parse(&["prog", "-v", "-color", "--level=3", "--name=x=y", "in.txt"]).unwrap();
    let mut tokens: Vec<String> = Vec::new();
    for t in &first.posits {
        tokens.push(t.clone());
    }
    for f in &first.flags {
        tokens.push(format!("-{}", f));
    }
    for (k, v) in &first.pairs {
        tokens.push(format!("--{}={}", k, v));
    }
    let second = CLIParser::new().init(tokens).unwrap();
    assert_eq!(first, second);
}

#[test]
fn lone_dash_is_flag_with_sign() {
    assert_eq!(parse(&["-"]), Err(CLIError::FlagWithSign("-".to_string())));
}

#[test]
fn double_dash_is_pair_missing_sign() {
    assert_eq!(parse(&["--"]), Err(CLIError::PairMissingSign("--".to_string())));
}

#[test]
fn triple_dash_is_dashes_malformed() {
    assert_eq!(parse(&["---"]), Err(CLIError::DashesMalformed("---".to_string())));
}

#[test]
fn short_pair_with_empty_key_is_pair_malformed() {
    // `--=x` is only four characters, so the length check fires before
    // the empty-key check ever runs.
    assert_eq!(parse(&["--=x"]), Err(CLIError::PairMalformed("--=x".to_string())));
}

#[test]
fn short_pair_with_empty_value_is_pair_malformed() {
    // `--k=` is only four characters, so the length check fires before
    // the empty-value check ever runs.
    assert_eq!(parse(&["--k="]), Err(CLIError::PairMalformed("--k=".to_string())));
}

#[test]
fn empty_key_is_pair_bad_sign() {
    assert_eq!(parse(&["--=xx"]), Err(CLIError::PairBadSign("--=xx".to_string())));
}

#[test]
fn empty_value_is_pair_bad_sign() {
    assert_eq!(parse(&["--kk="]), Err(CLIError::PairBadSign("--kk=".to_string())));
}

#[test]
fn flag_with_equal_sign_is_rejected() {
    assert_eq!(parse(&["-bad=flag"]), Err(CLIError::FlagWithSign("-bad=flag".to_string())));
}

#[test]
fn pair_value_may_hold_spaces() {
    let p = parse(&["--name=John Smith"]).unwrap();
    assert_eq!(p.pairs, vec![("name".to_string(), "John Smith".to_string())]);
}

#[test]
fn mixed_input_routes_every_token() {
    let p = parse(&["prog", "-verbose", "--level=3", "file.txt"]).unwrap();
    assert_eq!(p.posits, strings(&["prog", "file.txt"]));
    assert_eq!(p.flags, strings(&["verbose"]));
    assert_eq!(p.pairs, vec![("level".to_string(), "3".to_string())]);
}

#[test]
fn first_error_wins_and_nothing_is_returned() {
    assert_eq!(parse(&["-ok", "---bad"]), Err(CLIError::DashesMalformed("---bad".to_string())));
}

#[test]
fn error_is_reported_before_later_tokens_are_read() {
    assert_eq!(
        parse(&["good", "--broken", "---worse"]),
        Err(CLIError::PairMissingSign("--broken".to_string()))
    );
}

#[test]
fn flag_with_sign_message() {
    let e = CLIError::FlagWithSign("-x=1".to_string());
    assert_eq!(
        e.message(),
        "Equal signs not allowed in flags: `-x=1`\nProper syntax: `./my_program -flag`"
    );
}

#[test]
fn flag_malformed_message() {
    let e = CLIError::FlagMalformed("-".to_string());
    assert_eq!(e.message(), "Malformed flag: `-`\nProper syntax: `./my_program -flag`");
}

#[test]
fn pair_missing_sign_message() {
    let e = CLIError::PairMissingSign("--x".to_string());
    assert_eq!(
        e.message(),
        "Key-value pair arguments need an equal sign: `--x`\nProper syntax: `./my_program --key=value`"
    );
}

#[test]
fn pair_bad_sign_message() {
    let e = CLIError::PairBadSign("--=xx".to_string());
    assert_eq!(
        e.message(),
        "Improper use of equal sign in key-value pair: `--=xx`\nProper syntax: `./my_program --key=value`"
    );
}

#[test]
fn pair_malformed_message() {
    let e = CLIError::PairMalformed("--k=".to_string());
    assert_eq!(
        e.message(),
        "Malformed key-value pair: `--k=`\nProper syntax: `./my_program --key=value`"
    );
}

#[test]
fn dashes_malformed_message() {
    let e = CLIError::DashesMalformed("---a".to_string());
    assert_eq!(e.message(), "Arguments cannot start with 3 or more dash lines: `---a`");
}

#[test]
fn parsing_appends_to_existing_containers() {
    let first = parse(&["one", "-f"]).unwrap();
    let second = first.init(strings(&["two", "--k=v"])).unwrap();
    assert_eq!(second.posits, strings(&["one", "two"]));
    assert_eq!(second.flags, strings(&["f"]));
    assert_eq!(second.pairs, vec![("k".to_string(), "v".to_string())]);
}
