use rags::{Error, Parser};
use std::fmt::Display;
use std::str::FromStr;

fn strings(items: &[&str]) -> Vec<String> {
    items.iter().map(|s| s.to_string()).collect()
}

fn parsed<T: FromStr>(s: &str) -> Result<T, String>
where
    T::Err: Display,
{
    s.parse::<T>().map_err(|e| e.to_string())
}

fn plus(a: &usize, b: &usize) -> usize {
    *a + *b
}

#[test]
fn as_string_vec() {
    let mut verbosity = 0;
    let test_args = strings(&["a", "b", "c"]);
    assert!(test_args.len() == 3);
    Parser::from_strings(test_args)
        .arg('v', "verbose", "increase verbosity with each given", &mut verbosity, None, false, parsed::<i32>)
        .expect("failed to handle verbose argument(s)");
}

#[test]
fn test_args_basic() {
    let mut file: String = "default.file".to_string();
    let mut short: String = "".to_string();
    let mut long: String = "".to_string();

    let args = strings(&["argv[0]", "-f", "foo.bar", "-s", "foo", "--long", "bar"]);
    Parser::from_strings(args)
        .arg('f', "file", "file to handle", &mut file, None, false, parsed::<String>)
        .expect("failed to parse file argument")
        .short_arg('s', "a short arg", &mut short, None, false, parsed::<String>)
        .expect("failed to parse short arg")
        .long_arg("long", "a long arg", &mut long, None, false, parsed::<String>)
        .expect("failed to parse short arg");

    assert!(file == "foo.bar", "got unexpected 'file' value: {}", file);
    assert!(short == "foo", "got unexpected 'short' value: {}", short);
    assert!(long == "bar", "got unexpected 'long' value: {}", long);
}

#[test]
fn with_eq() {
    let mut file: String = "default.file".to_string();
    let mut short: u16 = 50;
    let mut long: usize = 100;

    let args = strings(&["argv[0]", "-f=foo.bar", "-s=17", "--long", "10"]);
    Parser::from_strings(args)
        .arg('f', "file", "file to handle", &mut file, None, false, parsed::<String>)
        .expect("failed to parse file argument")
        .short_arg('s', "a short arg", &mut short, None, false, parsed::<u16>)
        .expect("failed to parse short arg")
        .long_arg("long", "a long arg", &mut long, None, false, parsed::<usize>)
        .expect("failed to parse short arg");

    assert!(file == "foo.bar", "got unexpected 'file' value: {}", file);
    assert!(short == 17, "got unexpected 'short' value: {}", short);
    assert!(long == 10, "got unexpected 'long' value: {}", long);
}

#[test]
fn test_args_runs_at_end() {
    let expect_count: usize = 8;
    let mut count: usize = 0;
    let mut other: usize = 0;
    let mut file: String = "".to_string();
    Parser::from_strings(strings(&["argv[0]", "-vxvxvxvxf", "foo.file", "-vxvxvxvx"]))
        .count('v', "verbose", "increase verbosity", &mut count, 1, plus)
        .expect("bad count parse")
        .count('x', "extreme", "do something different", &mut other, 1, plus)
        .expect("bad count parse")
        .short_arg('f', "file to consider", &mut file, None, false, parsed::<String>)
        .expect("bad arg parse");

    assert!(count == expect_count, "unexpected count value {}, wanted {}", count, expect_count);
    assert!(other == expect_count, "unexpected other value {}, wanted {}", other, expect_count);
    assert!(file == "foo.file", "expected file to be 'foo.file' but got {}", file);
}

#[test]
fn test_args_runs_must_be_at_end() {
    let mut count: usize = 0;
    let mut other: usize = 0;
    let mut file: String = "".to_string();
    let args = strings(&["argv[0]", "-vxvxvfxvx", "foo.file", "-vxvxvxvx"]);
    let mut parser = Parser::from_strings(args);
    let result = parser
        .count('v', "verbose", "increase verbosity", &mut count, 1, plus)
        .expect("bad count parse")
        .count('x', "extreme", "do something different", &mut other, 1, plus)
        .expect("bad count parse")
        .short_arg('f', "file to consider", &mut file, None, false, parsed::<String>);

    match result {
        Ok(_) => {
            assert!(false, "expected error about args being at end of runs");
        }
        Err(e) => match e {
            Error::ValuedArgInRun(_, _) => { /* did what we expect */ }
            _ => {
                assert!(false, "unexpected error: {:?}", e);
            }
        },
    }
}

#[test]
fn valued_short_in_the_middle_of_a_cluster_is_ambiguous() {
    let mut verbose = false;
    let mut file: String = String::new();
    let mut parser = Parser::from_strings(strings(&["argv[0]", "-vfx", "value"]));
    let result = parser.short_arg('f', "file", &mut file, None, false, parsed::<String>);
    match result {
        Err(Error::ValuedArgInRun('f', run)) => assert_eq!(run, "-vfx"),
        other => panic!("unexpected result: {:?}", other.map(|_| ())),
    }
    assert_eq!(file, "");
    match parser.short_flag('v', "verbose", &mut verbose, false) {
        Err(Error::ValuedArgInRun('f', _)) => {}
        other => panic!("the failure was not kept: {:?}", other.map(|_| ())),
    }
    assert!(!verbose);
}

#[test]
fn valued_short_at_the_end_of_a_cluster_takes_the_next_token() {
    let mut v: usize = 0;
    let mut x: usize = 0;
    let mut file: String = String::new();
    let mut parser = Parser::from_strings(strings(&["argv[0]", "-vxf", "value"]));
    parser
        .short_count('v', "verbose", &mut v, 1, plus)
        .expect("count v")
        .short_count('x', "extreme", &mut x, 1, plus)
        .expect("count x")
        .short_arg('f', "file", &mut file, None, false, parsed::<String>)
        .expect("arg f");
    assert_eq!((v, x), (1, 1));
    assert_eq!(file, "value");
    assert!(parser.unused().is_empty());
}

#[test]
fn equals_form_and_next_token_form_bind_the_same_value() {
    let mut a: String = String::new();
    let mut b: String = String::new();
    Parser::from_strings(strings(&["argv[0]", "--file=a.txt"]))
        .arg('f', "file", "", &mut a, None, true, parsed::<String>)
        .expect("equals form");
    Parser::from_strings(strings(&["argv[0]", "--file", "a.txt"]))
        .arg('f', "file", "", &mut b, None, true, parsed::<String>)
        .expect("next token form");
    assert_eq!(a, "a.txt");
    assert_eq!(a, b);
}

#[test]
fn required_option_that_is_absent_fails() {
    let mut n: u32 = 7;
    let mut parser = Parser::from_strings(strings(&["argv[0]", "other"]));
    match parser.arg('n', "num", "", &mut n, None, true, parsed::<u32>) {
        Err(Error::MissingArgument(name)) => assert_eq!(name, "-n, --num"),
        other => panic!("unexpected result: {:?}", other.map(|_| ())),
    }
    assert_eq!(n, 7);
}

#[test]
fn option_without_a_value_fails() {
    let mut n: u32 = 7;
    let mut parser = Parser::from_strings(strings(&["argv[0]", "-n"]));
    match parser.arg('n', "num", "", &mut n, None, false, parsed::<u32>) {
        Err(Error::MissingArgValue('n', "num")) => {}
        other => panic!("unexpected result: {:?}", other.map(|_| ())),
    }
    assert_eq!(n, 7);
    assert!(parser.unused().is_empty());
}

#[test]
fn value_that_does_not_convert_fails_with_the_message_of_the_conversion() {
    let mut n: u32 = 7;
    let mut parser = Parser::from_strings(strings(&["argv[0]", "--num=abc"]));
    match parser.arg('n', "num", "", &mut n, None, false, parsed::<u32>) {
        Err(Error::ConstructionError('n', "num", message)) => {
            assert_eq!(message, "abc".parse::<u32>().unwrap_err().to_string());
        }
        other => panic!("unexpected result: {:?}", other.map(|_| ())),
    }
    assert_eq!(n, 7);
}

#[test]
fn help_flag_with_a_value_is_the_first_failure() {
    let mut flag = false;
    let mut parser = Parser::from_strings(strings(&["argv[0]", "--help=yes", "-x"]));
    assert!(!parser.wants_help());
    match parser.flag('x', "", "", &mut flag, false) {
        Err(Error::InvalidInput('h', "help", "flag should not have a value")) => {}
        other => panic!("unexpected result: {:?}", other.map(|_| ())),
    }
    assert!(!flag);
}
