use rags::{Error, Parser};
use std::fmt::Display;
use std::str::FromStr;

fn strings(items: &[&str]) -> Vec<String> {
    items.iter().map(|s| s.to_string()).collect()
}

fn parsed<T: FromStr>(s: &str) -> Result<T, String>
where
    T::Err: Display,
{
    s.parse::<T>().map_err(|e| e.to_string())
}

fn plus(a: &usize, b: &usize) -> usize {
    *a + *b
}

#[test]
fn test_lists_basic() {
    let mut test_list: Vec<String> = vec![];

    let args = strings(&["argv[0]", "-f", "foo.bar", "--file", "bar.baz", "-f", "last"]);
    Parser::from_strings(args)
        .list('f', "file", "add file to list", &mut test_list, None, false, parsed::<String>)
        .expect("bad list");

    assert!(test_list.len() == 3, "incorrect vector len {}", test_list.len());
    assert!(test_list[0] == "foo.bar", "incorrect vector value[0] {}", test_list[0]);
    assert!(test_list[1] == "bar.baz", "incorrect vector value[1] {}", test_list[1]);
    assert!(test_list[2] == "last", "incorrect vector value[2] {}", test_list[2]);
}

#[test]
fn inline_eq() {
    let mut test_list: Vec<String> = vec![];

    Parser::from_strings(strings(&["argv[0]", "-f=foo.bar", "--file=bar.baz", "-f=last"]))
        .list('f', "file", "add file to list", &mut test_list, None, false, parsed::<String>)
        .expect("bad list");

    assert!(test_list.len() == 3, "incorrect vector len {}", test_list.len());
    assert!(test_list[0] == "foo.bar", "incorrect vector value[0] {}", test_list[0]);
    assert!(test_list[1] == "bar.baz", "incorrect vector value[1] {}", test_list[1]);
    assert!(test_list[2] == "last", "incorrect vector value[2] {}", test_list[2]);
}

#[test]
fn test_lists_runs_at_end() {
    let expect_count: usize = 8;
    let mut count: usize = 0;
    let mut other: usize = 0;
    let mut files: Vec<String> = vec![];
    let args = strings(&["argv[0]", "-vxvxvxvxf", "foo.file", "-vxvxvxvxf", "other.file"]);
    Parser::from_strings(args)
        .count('v', "verbose", "increase verbosity", &mut count, 1, plus)
        .expect("bad count parse")
        .count('x', "extreme", "do something different", &mut other, 1, plus)
        .expect("bad count parse")
        .short_list('f', "file to consider", &mut files, None, false, parsed::<String>)
        .expect("bad list parse");

    assert!(count == expect_count, "unexpected count value {}, wanted {}", count, expect_count);
    assert!(other == expect_count, "unexpected other value {}, wanted {}", other, expect_count);

    assert!(files.len() == 2, "expected 2 files, got: {}", files.len());
    assert!(files[0] == "foo.file", "expected files[0] to be 'foo.file' but got {}", files[0]);
    assert!(files[1] == "other.file", "expected files[1] to be 'other.file' but got {}", files[1]);
}

#[test]
fn test_lists_runs_must_be_at_end() {
    let mut count: usize = 0;
    let mut other: usize = 0;
    let mut files: Vec<String> = vec![];
    let args = strings(&["argv[0]", "-vxvxvxvxf", "foo.file", "-vxvxfvxvx", "other.file"]);
    let mut parser = Parser::from_strings(args);
    let result = parser
        .count('v', "verbose", "increase verbosity", &mut count, 1, plus)
        .expect("bad count parse")
        .count('x', "extreme", "do something different", &mut other, 1, plus)
        .expect("bad count parse")
        .short_list('f', "file to consider", &mut files, None, false, parsed::<String>);

    match result {
        Ok(_) => {
            assert!(false, "expected error about args being at end of runs");
        }
        Err(e) => match e {
            Error::ValuedArgInRun(_, _) => { /* did what we expect */ }
            _ => {
                assert!(false, "unexpected error: {:?}", e);
            }
        },
    }
}

#[test]
fn long_list_converts_each_value() {
    let mut sizes: Vec<u16> = vec![1];
    Parser::from_strings(strings(&["argv[0]", "--size", "80", "x", "--size=443"]))
        .long_list("size", "sizes", &mut sizes, Some("SIZE"), true, parsed::<u16>)
        .expect("long list");
    assert_eq!(sizes, vec![1, 80, 443]);
}

#[test]
fn required_list_without_a_value_fails() {
    let mut sizes: Vec<u16> = vec![];
    let mut parser = Parser::from_strings(strings(&["argv[0]", "x"]));
    match parser.list('s', "size", "", &mut sizes, None, true, parsed::<u16>) {
        Err(Error::MissingArgument(name)) => assert_eq!(name, "-s, --size"),
        other => panic!("unexpected result: {:?}", other.map(|_| ())),
    }
    assert!(sizes.is_empty());
}

#[test]
fn list_keeps_the_values_before_the_one_that_does_not_convert() {
    let mut sizes: Vec<u16> = vec![];
    let mut parser =
        Parser::from_strings(strings(&["argv[0]", "-s", "80", "-s=http", "-s", "443"]));
    match parser.list('s', "size", "", &mut sizes, None, false, parsed::<u16>) {
        Err(Error::ConstructionError('s', "size", message)) => {
            assert_eq!(message, "http".parse::<u16>().unwrap_err().to_string());
        }
        other => panic!("unexpected result: {:?}", other.map(|_| ())),
    }
    assert_eq!(sizes, vec![80]);
    let unused = parser.unused();
    assert_eq!(unused.len(), 2);
    assert_eq!(unused[0].arg, "-s");
    assert_eq!(unused[1].arg, "443");
}

#[test]
fn list_item_without_a_value_fails() {
    let mut files: Vec<String> = vec![];
    let mut parser = Parser::from_strings(strings(&["argv[0]", "-f", "a", "-f"]));
    match parser.list('f', "file", "", &mut files, None, false, parsed::<String>) {
        Err(Error::MissingArgValue('f', "file")) => {}
        other => panic!("unexpected result: {:?}", other.map(|_| ())),
    }
    assert_eq!(files, vec!["a".to_string()]);
}

#[test]
fn list_item_at_the_end_of_the_last_cluster_has_no_value() {
    let mut v: usize = 0;
    let mut files: Vec<String> = vec![];
    let mut parser = Parser::from_strings(strings(&["argv[0]", "-vf"]));
    parser.short_count('v', "", &mut v, 1, plus).expect("count");
    match parser.short_list('f', "", &mut files, None, false, parsed::<String>) {
        Err(Error::MissingArgValue('f', "")) => {}
        other => panic!("unexpected result: {:?}", other.map(|_| ())),
    }
    assert!(files.is_empty());
}
