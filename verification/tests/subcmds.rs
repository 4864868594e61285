use rags::{Error, Parser};
use std::fmt::Display;
use std::str::FromStr;

fn strings(items: &[&str]) -> Vec<String> {
    items.iter().map(|s| s.to_string()).collect()
}

fn parsed<T: FromStr>(s: &str) -> Result<T, String>
where
    T::Err: Display,
{
    s.parse::<T>().map_err(|e| e.to_string())
}

fn plus(a: &usize, b: &usize) -> usize {
    *a + *b
}

#[test]
fn test_subcmds_basic() {
    let mut subs: Vec<String> = vec![];

    Parser::from_strings(strings(&["argv[0]", "run", "until", "midnight", "-vvvvv"]))
        .subcommand("build", "do a build", &mut subs, None, parsed::<String>)
        .expect("bad sub(build)")
        .done()
        .expect("no done on build")
        .subcommand("run", "run a target", &mut subs, None, parsed::<String>)
        .expect("bad sub(run)")
        .subcommand("until", "run a target until a time", &mut subs, None, parsed::<String>)
        .expect("bad sub-sub(until)")
        .subcommand("midnight", "alias for passing in midnnight", &mut subs, None, parsed::<String>)
        .expect("bad sub-sub-sub(midnight)")
        .done()
        .expect("no done on run-until-midnight")
        .done()
        .expect("no done on run-until")
        .done()
        .expect("no done on run")
        .subcommand("test", "test a target", &mut subs, None, parsed::<String>)
        .expect("bad sub(test)")
        .done()
        .expect("no done on test");

    assert!(subs.len() == 3, "incorrect vector len {}", subs.len());
    assert!(subs[0] == "run", "incorrect vector value[0] {}", subs[0]);
    assert!(subs[1] == "until", "incorrect vector value[1] {}", subs[1]);
    assert!(subs[2] == "midnight", "incorrect vector value[2] {}", subs[2]);
}

#[test]
fn hygiene() {
    let mut subs: Vec<String> = vec![];
    let mut build_file: String = "build".to_string();
    let mut test_file: String = "test".to_string();

    Parser::from_strings(strings(&["argv[0]", "build", "-f=hahaha.txt"]))
        .subcommand("build", "do a build", &mut subs, None, parsed::<String>)
        .expect("bad sub(build)")
        .arg('f', "file", "file to build", &mut build_file, None, false, parsed::<String>)
        .expect("bad build-file")
        .done()
        .expect("no done on build")
        .subcommand("test", "test a target", &mut subs, None, parsed::<String>)
        .expect("bad sub(test)")
        .arg('f', "file", "file to test", &mut test_file, None, false, parsed::<String>)
        .expect("bad test-file")
        .done()
        .expect("no done on test");

    assert!(subs.len() == 1, "wrong sub count: {}", subs.len());
    assert!(subs[0] == "build", "did not take build path: {}", subs[0]);

    assert!(build_file == "hahaha.txt", "did not set build-file: {}", build_file);
    assert!(test_file == "test", "overwrote test-file: {}", test_file);
}

#[test]
fn branches_not_taken_see_nothing_of_the_branch_taken() {
    let mut subs: Vec<String> = vec![];
    let mut build_verbose: usize = 0;
    let mut run_verbose: usize = 0;
    let mut test_verbose: usize = 0;
    let mut parser =
        Parser::from_strings(strings(&["argv[0]", "run", "until", "midnight", "-vvvvv"]));
    parser
        .subcommand("build", "", &mut subs, None, parsed::<String>)
        .expect("build")
        .short_count('v', "", &mut build_verbose, 1, plus)
        .expect("build -v")
        .done()
        .expect("done build")
        .subcommand("run", "", &mut subs, None, parsed::<String>)
        .expect("run")
        .subcommand("until", "", &mut subs, None, parsed::<String>)
        .expect("until")
        .subcommand("midnight", "", &mut subs, None, parsed::<String>)
        .expect("midnight")
        .short_count('v', "", &mut run_verbose, 1, plus)
        .expect("midnight -v")
        .done()
        .expect("done midnight")
        .done()
        .expect("done until")
        .done()
        .expect("done run")
        .subcommand("test", "", &mut subs, None, parsed::<String>)
        .expect("test")
        .short_count('v', "", &mut test_verbose, 1, plus)
        .expect("test -v")
        .done()
        .expect("done test");
    assert_eq!(subs, vec!["run".to_string(), "until".to_string(), "midnight".to_string()]);
    assert_eq!(build_verbose, 0);
    assert_eq!(run_verbose, 5);
    assert_eq!(test_verbose, 0);
    assert!(parser.unused().is_empty());
    assert_eq!(parser.depth(), 0);
}

#[test]
fn done_at_the_top_level_fails() {
    let mut parser = Parser::from_strings(strings(&["argv[0]"]));
    match parser.done() {
        Err(Error::InvalidState("call to done() at top-level")) => {}
        other => panic!("unexpected result: {:?}", other.map(|_| ())),
    }
}

#[test]
fn subcommand_without_a_name_fails() {
    let mut subs: Vec<String> = vec![];
    let mut parser = Parser::from_strings(strings(&["argv[0]", "x"]));
    match parser.subcommand("", "", &mut subs, None, parsed::<String>) {
        Err(Error::InvalidState("subcommand(...) given empty name")) => {}
        other => panic!("unexpected result: {:?}", other.map(|_| ())),
    }
    assert!(subs.is_empty());
}

#[test]
fn group_in_a_group_fails() {
    let mut parser = Parser::from_strings(strings(&["argv[0]"]));
    let result = parser.group("outer", "").expect("outer").group("inner", "");
    match result {
        Err(Error::NestedGroup("outer", "inner")) => {}
        other => panic!("unexpected result: {:?}", other.map(|_| ())),
    }
}

#[test]
fn group_is_closed_by_done_without_a_change_of_depth() {
    let mut debug = false;
    let mut parser = Parser::from_strings(strings(&["argv[0]", "-D"]));
    parser
        .group("logging", "adjust logging output")
        .expect("group")
        .flag('D', "debug", "enter debug mode", &mut debug, false)
        .expect("flag")
        .done()
        .expect("done");
    assert!(debug);
    assert_eq!(parser.depth(), 0);
    assert!(parser.done().is_err());
}

#[test]
fn subcommand_that_does_not_convert_is_not_committed() {
    let mut subs: Vec<u8> = vec![];
    let mut inner = false;
    let mut parser = Parser::from_strings(strings(&["argv[0]", "build", "-i"]));
    match parser.subcommand("build", "", &mut subs, None, parsed::<u8>) {
        Err(Error::SubConstructionError("build", _)) => {}
        other => panic!("unexpected result: {:?}", other.map(|_| ())),
    }
    assert!(subs.is_empty());
    assert!(parser.short_flag('i', "", &mut inner, false).is_err());
    assert!(!inner);
}

#[test]
fn after_a_failure_every_declaration_returns_it() {
    let mut subs: Vec<String> = vec![];
    let mut flag = false;
    let mut n: u8 = 1;
    let mut items: Vec<u8> = vec![];
    let mut parser = Parser::from_strings(strings(&["argv[0]", "-f", "7", "8"]));
    assert!(parser.done().is_err());
    let same = |r: Result<&mut Parser, Error>| match r {
        Err(Error::InvalidState("call to done() at top-level")) => true,
        _ => false,
    };
    assert!(same(parser.flag('f', "", "", &mut flag, false)));
    assert!(same(parser.arg('f', "", "", &mut n, None, false, parsed::<u8>)));
    assert!(same(parser.count('f', "", "", &mut n, 1, |a: &u8, b: &u8| *a + *b)));
    assert!(same(parser.list('f', "", "", &mut items, None, false, parsed::<u8>)));
    assert!(same(parser.positional("p", "", &mut n, false, parsed::<u8>)));
    assert!(same(parser.positional_list("p", "", &mut items, false, parsed::<u8>)));
    assert!(same(parser.subcommand("7", "", &mut subs, None, parsed::<String>)));
    assert!(same(parser.group("g", "")));
    assert!(same(parser.done()));
    assert!(!flag);
    assert_eq!(n, 1);
    assert!(items.is_empty());
    assert!(subs.is_empty());
    assert_eq!(parser.depth(), 0);
    assert_eq!(parser.unused().len(), 3);
}

#[test]
fn group_in_a_scope_that_is_not_read_is_closed_by_its_own_done() {
    let mut subs: Vec<String> = vec![];
    let mut debug = false;
    let mut dry = false;
    let mut parser = Parser::from_strings(strings(&["argv[0]", "clean", "-D", "-n"]));
    parser
        .subcommand("build", "", &mut subs, None, parsed::<String>)
        .expect("build")
        .group("logging", "")
        .expect("group")
        .flag('D', "debug", "", &mut debug, false)
        .expect("flag")
        .done()
        .expect("done of the group");
    assert_eq!(parser.depth(), 1);
    parser.done().expect("done of build");
    assert_eq!(parser.depth(), 0);
    assert!(subs.is_empty());
    assert!(!debug);
    parser
        .subcommand("clean", "", &mut subs, None, parsed::<String>)
        .expect("clean")
        .group("what", "")
        .expect("group in clean")
        .flag('n', "dry", "", &mut dry, false)
        .expect("flag in clean")
        .done()
        .expect("done of the group in clean")
        .done()
        .expect("done of clean");
    assert_eq!(subs, vec!["clean".to_string()]);
    assert!(dry);
    assert!(!debug);
    assert_eq!(parser.depth(), 0);
}

#[test]
fn group_in_a_group_fails_in_a_scope_that_is_not_read_too() {
    let mut subs: Vec<String> = vec![];
    let mut parser = Parser::from_strings(strings(&["argv[0]", "clean"]));
    let result = parser
        .subcommand("build", "", &mut subs, None, parsed::<String>)
        .expect("build")
        .group("outer", "")
        .expect("outer")
        .group("inner", "");
    match result {
        Err(Error::NestedGroup("outer", "inner")) => {}
        other => panic!("unexpected result: {:?}", other.map(|_| ())),
    }
}

#[test]
fn group_of_a_branch_not_taken_is_not_in_the_help() {
    let mut subs: Vec<String> = vec![];
    let mut a = false;
    let mut b = false;
    let mut parser = Parser::from_strings(strings(&["tool", "clean", "--help"]));
    parser
        .app_name("tool")
        .subcommand("build", "build it", &mut subs, None, parsed::<String>)
        .expect("build")
        .group("shared", "of build")
        .expect("group in build")
        .flag('a', "", "in build", &mut a, false)
        .expect("flag a")
        .done()
        .expect("done group")
        .done()
        .expect("done build")
        .subcommand("clean", "clean it", &mut subs, None, parsed::<String>)
        .expect("clean")
        .group("shared", "of clean")
        .expect("group in clean")
        .flag('b', "", "in clean", &mut b, false)
        .expect("flag b")
        .done()
        .expect("done group")
        .done()
        .expect("done clean");
    assert_eq!(
        parser.help_text(),
        "tool clean\n\nusage: tool clean [-b]\n\nshared:           of clean\n    -b           in clean [default: false]\n\n\n"
    );
}
