use rags::{Error, Parser};

fn strings(items: &[&str]) -> Vec<String> {
    items.iter().map(|s| s.to_string()).collect()
}

fn plus(a: &usize, b: &usize) -> usize {
    *a + *b
}

#[test]
fn test_flags_basic() {
    let mut debug_mode_short: bool = false;
    let mut debug_mode_long: bool = false;

    Parser::from_strings(strings(&["argv[0]", "-s", "--long"]))
        .short_flag('s', "check short only", &mut debug_mode_short, false)
        .expect("bad short mode")
        .long_flag("long", "check long only", &mut debug_mode_long, false)
        .expect("bad long mode");

    assert!(debug_mode_short, "did not set with short flag");
    assert!(debug_mode_long, "did not set with long flag");
}

#[test]
fn inverted() {
    let mut debug_mode_short: bool = true;
    let mut debug_mode_long: bool = true;

    Parser::from_strings(strings(&["argv[0]", "-s", "--long"]))
        .short_flag('s', "check short only", &mut debug_mode_short, true)
        .expect("bad short mode")
        .long_flag("long", "check long only", &mut debug_mode_long, true)
        .expect("bad long mode");

    assert!(debug_mode_short == false, "did not invert with short flag");
    assert!(debug_mode_long == false, "did not invert with long flag");
}

#[test]
fn within_run() {
    let expect_count: usize = 8;
    let mut count: usize = 0;
    let mut other: usize = 0;
    let mut debug: bool = false;
    Parser::from_strings(strings(&["argv[0]", "-vxvxvDxvx", "-vxvxvxvx"]))
        .count('v', "verbose", "increase verbosity", &mut count, 1, plus)
        .expect("bad count parse")
        .count('x', "extreme", "do something different", &mut other, 1, plus)
        .expect("bad count parse")
        .short_flag('D', "flag something as true", &mut debug, false)
        .expect("bad flag parse");

    assert!(count == expect_count, "unexpected count value {}, wanted {}", count, expect_count);
    assert!(other == expect_count, "unexpected other value {}, wanted {}", other, expect_count);
    assert!(debug, "expected flag to be caugh within the run, got {}", debug);
}

#[test]
fn flag_that_is_absent_leaves_the_target() {
    let mut on = true;
    let mut off = false;
    Parser::from_strings(strings(&["argv[0]", "file"]))
        .flag('a', "all", "", &mut on, false)
        .expect("flag a")
        .flag('b', "both", "", &mut off, false)
        .expect("flag b");
    assert!(on);
    assert!(!off);
}

#[test]
fn flag_with_a_value_fails() {
    let mut on = false;
    let mut parser = Parser::from_strings(strings(&["argv[0]", "--all=yes"]));
    match parser.flag('a', "all", "", &mut on, false) {
        Err(Error::InvalidInput('a', "all", "flag should not have a value")) => {}
        other => panic!("unexpected result: {:?}", other.map(|_| ())),
    }
    assert!(!on);
}

#[test]
fn help_flag_is_found_at_the_start() {
    let parser = Parser::from_strings(strings(&["argv[0]", "build", "--help"]));
    assert!(parser.wants_help());
    let unused = parser.unused();
    assert_eq!(unused.len(), 1);
    assert_eq!(unused[0].arg, "build");

    let parser = Parser::from_strings(strings(&["argv[0]", "-h"]));
    assert!(parser.wants_help());

    let parser = Parser::from_strings(strings(&["argv[0]", "build"]));
    assert!(!parser.wants_help());

    let parser = Parser::from_strings(strings(&["argv[0]", "--", "--help"]));
    assert!(!parser.wants_help());
}

#[test]
fn help_flag_in_a_cluster_claims_its_character_alone() {
    let mut v: usize = 0;
    let mut parser = Parser::from_strings(strings(&["argv[0]", "-vhv"]));
    assert!(parser.wants_help());
    let open: Vec<String> = parser.unused().into_iter().map(|u| u.arg).collect();
    assert_eq!(open, strings(&["-v", "-v"]));
    parser.short_count('v', "", &mut v, 1, plus).expect("count registers");
    assert_eq!(v, 0);
}

#[test]
fn first_help_flag_from_the_left_decides() {
    let parser = Parser::from_strings(strings(&["argv[0]", "-h", "-h=1"]));
    assert!(parser.wants_help());
    let open: Vec<String> = parser.unused().into_iter().map(|u| u.arg).collect();
    assert_eq!(open, strings(&["-h=1"]));

    let mut flag = false;
    let mut parser = Parser::from_strings(strings(&["argv[0]", "-h=1", "-h"]));
    assert!(!parser.wants_help());
    match parser.short_flag('x', "", &mut flag, false) {
        Err(Error::InvalidInput('h', "help", "flag should not have a value")) => {}
        other => panic!("unexpected result: {:?}", other.map(|_| ())),
    }
    let open: Vec<String> = parser.unused().into_iter().map(|u| u.arg).collect();
    assert_eq!(open, strings(&["-h"]));
}

#[test]
fn search_that_finds_nothing_leaves_clusters_whole() {
    let mut x = false;
    let mut dash = false;
    let mut parser = Parser::from_strings(strings(&["argv[0]", "-abc"]));
    parser
        .short_flag('x', "", &mut x, false)
        .expect("flag x")
        .short_flag('-', "", &mut dash, false)
        .expect("flag -");
    assert!(!x && !dash);
    let open: Vec<String> = parser.unused().into_iter().map(|u| u.arg).collect();
    assert_eq!(open, strings(&["-abc"]));
}
