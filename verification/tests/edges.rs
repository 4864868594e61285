use rags::found::{FoundMatch, ValueLocation};
use rags::text::{chars_of, str_before, str_equals};
use rags::{Error, LooksLike, Parser};
use std::fmt::Display;
use std::str::FromStr;

fn strings(items: &[&str]) -> Vec<String> {
    items.iter().map(|s| s.to_string()).collect()
}

fn parsed<T: FromStr>(s: &str) -> Result<T, String>
where
    T::Err: Display,
{
    s.parse::<T>().map_err(|e| e.to_string())
}

fn plus(a: &usize, b: &usize) -> usize {
    *a + *b
}

#[test]
fn no_tokens_at_all() {
    let mut flag = false;
    let mut files: Vec<String> = vec![];
    let mut parser = Parser::from_strings(vec![]);
    assert!(!parser.wants_help());
    parser
        .flag('f', "flag", "", &mut flag, false)
        .expect("flag")
        .positional_list("files", "", &mut files, false, parsed::<String>)
        .expect("variadic");
    assert!(!flag);
    assert!(files.is_empty());
    assert!(parser.unused().is_empty());
}

#[test]
fn the_name_of_the_program_is_never_matched() {
    let mut flag = false;
    let mut name = String::new();
    let mut parser = Parser::from_strings(strings(&["-f"]));
    parser
        .short_flag('f', "", &mut flag, false)
        .expect("flag")
        .positional("name", "", &mut name, false, parsed::<String>)
        .expect("positional");
    assert!(!flag);
    assert_eq!(name, "");
    assert!(parser.unused().is_empty());

    let parser = Parser::from_strings(strings(&["--help"]));
    assert!(!parser.wants_help());
}

#[test]
fn stop_in_the_place_of_the_name_hides_everything_from_matching() {
    let mut flag = false;
    let mut rest: Vec<String> = vec![];
    let mut parser = Parser::from_strings(strings(&["--", "-f", "x"]));
    parser.short_flag('f', "", &mut flag, false).expect("flag");
    assert!(!flag);
    assert!(parser.unused().is_empty());
    parser.positional_list("rest", "", &mut rest, false, parsed::<String>).expect("variadic");
    assert_eq!(rest, strings(&["-f", "x"]));
}

#[test]
fn only_the_first_stop_counts() {
    let mut rest: Vec<String> = vec![];
    let mut parser = Parser::from_strings(strings(&["p", "a", "--", "b", "--", "c"]));
    parser.positional_list("rest", "", &mut rest, false, parsed::<String>).expect("variadic");
    assert_eq!(rest, strings(&["a", "b", "--", "c"]));
}

#[test]
fn long_name_must_match_to_its_end() {
    let mut file = String::new();
    let mut parser = Parser::from_strings(strings(&["p", "--filex", "--fil", "--file=", "--file"]));
    parser.long_arg("file", "", &mut file, None, false, parsed::<String>).expect("arg");
    assert_eq!(file, "");
    let unused = parser.unused();
    let seen: Vec<&str> = unused.iter().map(|u| u.arg.as_str()).collect();
    assert_eq!(seen, vec!["--filex", "--fil", "--file"]);
}

#[test]
fn leftmost_match_wins() {
    let mut n: u8 = 0;
    let mut parser = Parser::from_strings(strings(&["p", "--num=1", "-n", "2", "-n=3"]));
    parser.arg('n', "num", "", &mut n, None, false, parsed::<u8>).expect("first");
    assert_eq!(n, 1);
    parser.arg('n', "num", "", &mut n, None, false, parsed::<u8>).expect("second");
    assert_eq!(n, 2);
    parser.arg('n', "num", "", &mut n, None, false, parsed::<u8>).expect("third");
    assert_eq!(n, 3);
    parser.arg('n', "num", "", &mut n, None, false, parsed::<u8>).expect("none left");
    assert_eq!(n, 3);
    assert!(parser.unused().is_empty());
}

#[test]
fn value_is_not_taken_from_a_claimed_token() {
    let mut flag = false;
    let mut n: u8 = 0;
    let mut parser = Parser::from_strings(strings(&["p", "-n", "-f"]));
    parser.short_flag('f', "", &mut flag, false).expect("flag");
    assert!(flag);
    match parser.short_arg('n', "", &mut n, None, false, parsed::<u8>) {
        Err(Error::MissingArgValue('n', "")) => {}
        other => panic!("unexpected result: {:?}", other.map(|_| ())),
    }
}

#[test]
fn flag_found_in_a_cluster_claims_its_character_alone() {
    let mut debug = false;
    let mut v: usize = 0;
    let mut parser = Parser::from_strings(strings(&["argv[0]", "-vDv"]));
    parser.short_flag('D', "", &mut debug, false).expect("flag");
    assert!(debug);
    let open: Vec<String> = parser.unused().into_iter().map(|u| u.arg).collect();
    assert_eq!(open, strings(&["-v", "-v"]));
    parser.short_count('v', "", &mut v, 1, plus).expect("count");
    assert_eq!(v, 2);
    assert!(parser.unused().is_empty());
}

#[test]
fn option_found_at_the_end_of_a_cluster_leaves_the_other_characters() {
    let mut file = String::new();
    let mut v: usize = 0;
    let mut x: usize = 0;
    let mut parser = Parser::from_strings(strings(&["argv[0]", "-vxf", "value", "rest"]));
    parser.short_arg('f', "", &mut file, None, true, parsed::<String>).expect("arg");
    assert_eq!(file, "value");
    let open: Vec<String> = parser.unused().into_iter().map(|u| u.arg).collect();
    assert_eq!(open, strings(&["-v", "-x", "rest"]));
    parser
        .short_count('v', "", &mut v, 1, plus)
        .expect("count v")
        .short_count('x', "", &mut x, 1, plus)
        .expect("count x");
    assert_eq!((v, x), (1, 1));
    let open: Vec<String> = parser.unused().into_iter().map(|u| u.arg).collect();
    assert_eq!(open, strings(&["rest"]));
}

#[test]
fn cluster_that_does_not_hold_a_valued_code_is_passed_over() {
    let mut file = String::new();
    let mut v: usize = 0;
    let mut x: usize = 0;
    let mut parser = Parser::from_strings(strings(&["argv[0]", "-vx", "-f", "a.txt"]));
    parser.arg('f', "file", "", &mut file, None, false, parsed::<String>).expect("arg");
    assert_eq!(file, "a.txt");
    let open: Vec<String> = parser.unused().into_iter().map(|u| u.arg).collect();
    assert_eq!(open, strings(&["-vx"]));
    parser
        .short_count('v', "", &mut v, 1, plus)
        .expect("count v")
        .short_count('x', "", &mut x, 1, plus)
        .expect("count x");
    assert_eq!((v, x), (1, 1));
    assert!(parser.unused().is_empty());
}

#[test]
fn list_passes_over_clusters_that_do_not_hold_its_code() {
    let mut files: Vec<String> = vec![];
    let mut parser =
        Parser::from_strings(strings(&["argv[0]", "-ab", "-f", "one", "-cd", "--file=two"]));
    parser.list('f', "file", "", &mut files, None, true, parsed::<String>).expect("list");
    assert_eq!(files, strings(&["one", "two"]));
    let open: Vec<String> = parser.unused().into_iter().map(|u| u.arg).collect();
    assert_eq!(open, strings(&["-ab", "-cd"]));
}

#[test]
fn valued_code_twice_in_a_cluster_is_ambiguous() {
    let mut file = String::new();
    let mut parser = Parser::from_strings(strings(&["argv[0]", "-fvf", "value"]));
    match parser.short_arg('f', "", &mut file, None, false, parsed::<String>) {
        Err(Error::ValuedArgInRun('f', run)) => assert_eq!(run, "-fvf"),
        other => panic!("unexpected result: {:?}", other.map(|_| ())),
    }
    assert_eq!(file, "");
}

#[test]
fn characters_count_not_bytes() {
    let mut u = false;
    let mut v: usize = 0;
    let mut name = String::new();
    let mut parser = Parser::from_strings(strings(&["p", "-ü", "-vüv", "--näme=wörld"]));
    parser
        .short_flag('ü', "", &mut u, false)
        .expect("flag")
        .short_count('v', "", &mut v, 1, plus)
        .expect("count")
        .long_arg("näme", "", &mut name, None, false, parsed::<String>)
        .expect("arg");
    assert!(u);
    assert_eq!(v, 2);
    assert_eq!(name, "wörld");
    let unused = parser.unused();
    assert_eq!(unused.len(), 1);
    assert_eq!(unused[0].arg, "-ü");
    assert_eq!(unused[0].looks_like, LooksLike::ShortArg);
}

#[test]
fn empty_short_code_and_empty_long_name_match_nothing() {
    let mut flag = false;
    let mut parser = Parser::from_strings(strings(&["p", "-", "--", "x"]));
    parser.flag('\0', "", "", &mut flag, false).expect("flag");
    assert!(!flag);
    let mut parser = Parser::from_strings(strings(&["p", "-\0", "--=x"]));
    parser.flag('\0', "", "", &mut flag, false).expect("flag");
    assert!(!flag);
    assert_eq!(parser.unused().len(), 2);
}

#[test]
fn match_results() {
    let m = FoundMatch::new(3, 2, ValueLocation::HasEqual(5));
    assert_eq!(m.index, 3);
    assert_eq!(m.run_count, 2);
    assert!(matches!(m.value, ValueLocation::HasEqual(5)));
    let m = FoundMatch::new(0, 0, ValueLocation::TakesNext);
    assert!(matches!(m.value, ValueLocation::TakesNext));
    let m = FoundMatch::new(0, 0, ValueLocation::Unknown);
    assert!(matches!(m.value, ValueLocation::Unknown));
}

#[test]
fn texts_compare_by_their_characters() {
    assert_eq!(chars_of("aé-"), vec!['a', 'é', '-']);
    assert!(chars_of("").is_empty());
    assert!(str_equals("abc", "abc"));
    assert!(str_equals("", ""));
    assert!(!str_equals("abc", "abd"));
    assert!(!str_equals("abc", "ab"));
    assert!(str_before("", "a"));
    assert!(!str_before("", ""));
    assert!(!str_before("a", ""));
    assert!(str_before("ab", "abc"));
    assert!(!str_before("abc", "ab"));
    assert!(str_before("abc", "abd"));
    assert!(!str_before("abd", "abc"));
    assert!(!str_before("abc", "abc"));
    assert!(str_before("Z", "a"));
    assert!(str_before("z", "é"));
}

#[test]
fn depth_follows_the_scopes() {
    let mut subs: Vec<String> = vec![];
    let mut parser = Parser::from_strings(strings(&["p", "a", "b"]));
    assert_eq!(parser.depth(), 0);
    parser.subcommand("a", "", &mut subs, Some("long"), parsed::<String>).expect("a");
    assert_eq!(parser.depth(), 1);
    parser.subcommand("x", "", &mut subs, None, parsed::<String>).expect("x");
    assert_eq!(parser.depth(), 2);
    parser.done().expect("done x");
    assert_eq!(parser.depth(), 1);
    parser.subcommand("b", "", &mut subs, None, parsed::<String>).expect("b");
    assert_eq!(parser.depth(), 2);
    parser.done().expect("done b").done().expect("done a");
    assert_eq!(parser.depth(), 0);
    assert_eq!(subs, strings(&["a", "b"]));
}
