use rags::{Error, Parser};
use std::fmt::Display;
use std::str::FromStr;

fn strings(items: &[&str]) -> Vec<String> {
    items.iter().map(|s| s.to_string()).collect()
}

fn parsed<T: FromStr>(s: &str) -> Result<T, String>
where
    T::Err: Display,
{
    s.parse::<T>().map_err(|e| e.to_string())
}

fn plus(a: &usize, b: &usize) -> usize {
    *a + *b
}

#[test]
fn test_positionals_basic() {
    let mut flags: bool = false;
    let mut file: String = "".to_string();

    Parser::from_strings(strings(&["argv[0]", "-s", "--long", "my_file"]))
        .short_flag('s', "check short only", &mut flags, false)
        .expect("bad short mode")
        .long_flag("long", "check long only", &mut flags, false)
        .expect("bad long mode")
        .positional("file", "", &mut file, false, parsed::<String>)
        .expect("could not crete positional");

    assert!(file == "my_file", "did not pick up positional");
}

#[test]
fn interleaved() {
    let mut flags: bool = false;
    let mut args: String = "".to_string();
    let mut count: usize = 0;
    let mut file: String = "".to_string();

    let argv = strings(&["argv[0]", "-s", "--long", "my_file", "-f=foo", "-o", "other", "-v"]);
    Parser::from_strings(argv)
        .short_flag('s', "check short only", &mut flags, false)
        .expect("bad short mode")
        .long_flag("long", "check long only", &mut flags, false)
        .expect("bad long mode")
        .short_arg('f', "just need an arg", &mut args, None, false, parsed::<String>)
        .expect("arg")
        .short_arg('o', "just need another arg", &mut args, None, false, parsed::<String>)
        .expect("arg")
        .short_count('v', "just need a count", &mut count, 1, plus)
        .expect("count")
        .positional("file", "", &mut file, false, parsed::<String>)
        .expect("could not crete positional");

    assert!(file == "my_file", "did not pick up positional");
}

#[test]
fn missing() {
    let mut flags: bool = false;
    let mut file: String = "".to_string();

    let mut parse = Parser::from_strings(strings(&["argv[0]", "-s", "--long"]));
    let result = parse
        .short_flag('s', "check short only", &mut flags, false)
        .expect("bad short mode")
        .long_flag("long", "check long only", &mut flags, false)
        .expect("bad long mode")
        .positional("file", "", &mut file, true, parsed::<String>);

    match &result {
        Ok(_) => {
            assert!(false, "did not receive missing positional error");
        }
        Err(e) => match e {
            Error::MissingPositional(_) => {}
            _ => {
                assert!(false, "got wrong error: {}", e.message());
            }
        },
    }
    assert!(file.is_empty(), "did not pick up positional");
}

#[test]
fn variadic() {
    let mut flags: bool = false;
    let mut files: Vec<String> = vec![];

    let argv = strings(&["argv[0]", "file1", "-s", "file2", "--long", "file3"]);
    Parser::from_strings(argv)
        .short_flag('s', "check short only", &mut flags, false)
        .expect("bad short mode")
        .long_flag("long", "check long only", &mut flags, false)
        .expect("bad long mode")
        .positional_list("file", "", &mut files, false, parsed::<String>)
        .expect("could not crete positional");

    assert!(files.len() == 3, "expected 3 files, got {}", files.len());
    assert!(files[0] == "file1");
    assert!(files[1] == "file2");
    assert!(files[2] == "file3");
}

#[test]
fn multi_variadic() {
    let mut flags: bool = false;
    let mut files: Vec<String> = vec![];

    let argv = strings(&["argv[0]", "file1", "-s", "file2", "--long", "file3"]);
    let mut parser = Parser::from_strings(argv);
    let result = parser
        .short_flag('s', "check short only", &mut flags, false)
        .expect("bad short mode")
        .long_flag("long", "check long only", &mut flags, false)
        .expect("bad long mode")
        .positional_list("file", "", &mut files, false, parsed::<String>)
        .expect("could not create first positional list")
        .positional_list("should_error", "", &mut files, false, parsed::<String>);

    match result {
        Ok(_) => {
            assert!(false, "did not receive errror");
        }
        Err(e) => match e {
            Error::MultipleVariadic(_) => {}
            _ => {
                assert!(false, "received incorrect error: {}", e.message());
            }
        },
    }
}

#[test]
fn collects_after_argstop() {
    let mut flags: bool = false;
    let mut name: String = String::new();
    let mut subbies: Vec<String> = vec![];
    let mut post_stop: Vec<String> = vec![];

    let argv = strings(&["argv[0]", "foo", "-s", "-n=argstop", "--", "--long", "foo"]);
    let mut parser = Parser::from_strings(argv);
    parser
        .short_flag('s', "check short", &mut flags, false)
        .expect("bad short mode")
        .subcommand("foo", "blah", &mut subbies, None, parsed::<String>)
        .expect("could not create positional")
        .arg('n', "name", "test stuff", &mut name, None, true, parsed::<String>)
        .expect("failed to parse name")
        .positional_list("file", "", &mut post_stop, false, parsed::<String>)
        .expect("could not create positional list")
        .done()
        .expect("failed to close subcommand scope");

    assert!(flags, "did not set short flag");
    assert_eq!(name, "argstop", "did not set name");
    assert_eq!(subbies.len(), 1, "incorrect subcommands length");
    assert_eq!(subbies[0], "foo", "incorrect subcommand");
    assert_eq!(post_stop.len(), 2, "incorrect post-argstop length");
    assert_eq!(post_stop[0], "--long", "incorrect first post-stop arg");
    assert_eq!(post_stop[1], "foo", "incorrect second post-stop arg");
}

#[test]
fn positional_after_the_variadic_is_out_of_order() {
    let mut files: Vec<String> = vec![];
    let mut file: String = String::new();
    let mut parser = Parser::from_strings(strings(&["argv[0]", "a", "b"]));
    let result = parser
        .positional_list("files", "", &mut files, false, parsed::<String>)
        .expect("variadic")
        .positional("file", "", &mut file, false, parsed::<String>);
    match result {
        Err(Error::UnorderedPositionals("file")) => {}
        other => panic!("unexpected result: {:?}", other.map(|_| ())),
    }
    assert_eq!(files, vec!["a".to_string(), "b".to_string()]);
    assert_eq!(file, "");
}

#[test]
fn tokens_behind_the_stop_match_no_option() {
    let mut verbose: usize = 0;
    let mut long = false;
    let mut name: String = "unset".to_string();
    let mut rest: Vec<String> = vec![];
    let argv = strings(&["argv[0]", "-v", "--", "-v", "--long", "--name=x", "-vv"]);
    let mut parser = Parser::from_strings(argv);
    parser
        .short_count('v', "", &mut verbose, 1, plus)
        .expect("count")
        .long_flag("long", "", &mut long, false)
        .expect("flag")
        .long_arg("name", "", &mut name, None, false, parsed::<String>)
        .expect("arg");
    assert_eq!(verbose, 1);
    assert!(!long);
    assert_eq!(name, "unset");
    assert!(parser.unused().is_empty());
    parser
        .positional_list("rest", "", &mut rest, true, parsed::<String>)
        .expect("variadic");
    assert_eq!(
        rest,
        vec!["-v".to_string(), "--long".to_string(), "--name=x".to_string(), "-vv".to_string()]
    );
}

#[test]
fn positionals_take_the_lowest_token_first() {
    let mut first: u8 = 0;
    let mut second: u8 = 0;
    let mut third: u8 = 9;
    Parser::from_strings(strings(&["argv[0]", "1", "2"]))
        .positional("first", "", &mut first, true, parsed::<u8>)
        .expect("first")
        .positional("second", "", &mut second, true, parsed::<u8>)
        .expect("second")
        .positional("third", "", &mut third, false, parsed::<u8>)
        .expect("third");
    assert_eq!((first, second, third), (1, 2, 9));
}

#[test]
fn positional_that_does_not_convert_stays_unclaimed() {
    let mut n: u8 = 3;
    let mut parser = Parser::from_strings(strings(&["argv[0]", "many"]));
    match parser.positional("n", "", &mut n, true, parsed::<u8>) {
        Err(Error::PositionalConstructionError("n", message)) => {
            assert_eq!(message, "many".parse::<u8>().unwrap_err().to_string());
        }
        other => panic!("unexpected result: {:?}", other.map(|_| ())),
    }
    assert_eq!(n, 3);
    let unused = parser.unused();
    assert_eq!(unused.len(), 1);
    assert_eq!(unused[0].arg, "many");
}

#[test]
fn required_variadic_that_collects_nothing_fails() {
    let mut flag = false;
    let mut files: Vec<String> = vec![];
    let mut parser = Parser::from_strings(strings(&["argv[0]", "-s", "--"]));
    parser.short_flag('s', "", &mut flag, false).expect("flag");
    match parser.positional_list("files", "", &mut files, true, parsed::<String>) {
        Err(Error::MissingPositional(name)) => assert_eq!(name, "files..."),
        other => panic!("unexpected result: {:?}", other.map(|_| ())),
    }
    assert!(files.is_empty());
}

#[test]
fn variadic_keeps_the_items_before_the_one_that_does_not_convert() {
    let mut numbers: Vec<u8> = vec![];
    let mut parser = Parser::from_strings(strings(&["argv[0]", "1", "2", "--", "3", "x", "5"]));
    match parser.positional_list("n", "", &mut numbers, false, parsed::<u8>) {
        Err(Error::PositionalConstructionError("n", _)) => {}
        other => panic!("unexpected result: {:?}", other.map(|_| ())),
    }
    assert_eq!(numbers, vec![1, 2, 3]);
    assert!(parser.unused().is_empty());
}
