use rags::{LooksLike, Parser, Unused};

fn strings(items: &[&str]) -> Vec<String> {
    items.iter().map(|s| s.to_string()).collect()
}

fn plus(a: &usize, b: &usize) -> usize {
    *a + *b
}

#[test]
fn unknown_arg() {
    let mut flag: bool = false;
    let mut count: usize = 0;

    let args = strings(&["argv[0]", "-f", "-cccc", "--file", "boo.berry"]);
    let mut parser = Parser::from_strings(args);
    parser
        .short_flag('f', "flag that does something", &mut flag, false)
        .expect("flag parse error")
        .short_count('c', "count that does something", &mut count, 1, plus)
        .expect("count parse error");

    assert!(flag == true, "expected flag to be true");
    assert!(count == 4, "expected count to be 4 but got {}", count);

    let unused = parser.unused();
    assert!(unused.len() == 2, "expected 2 unused, got {}", unused.len());

    assert!(
        unused[0].arg == "--file",
        "exepcted unused[0] to be '--file', got '{}'",
        unused[0].arg
    );
    assert!(
        unused[0].looks_like == LooksLike::LongArg,
        "exepcted unused[0] to look like long arg, got '{}'",
        unused[0].looks_like.label()
    );

    assert!(
        unused[1].arg == "boo.berry",
        "exepcted unused[1] to be 'boo.berry', got '{}'",
        unused[1].arg
    );
    assert!(
        unused[1].looks_like == LooksLike::Positional,
        "exepcted unused[1] to look like positional, got '{}'",
        unused[1].looks_like.label()
    );
}

#[test]
fn unhandled_positional() {
    let mut flag: bool = false;
    let mut count: usize = 0;

    let args = strings(&["argv[0]", "-f", "-cccc", "boo.berry"]);
    let mut parser = Parser::from_strings(args);
    parser
        .short_flag('f', "flag that does something", &mut flag, false)
        .expect("flag parse error")
        .short_count('c', "count that does something", &mut count, 1, plus)
        .expect("count parse error");

    assert!(flag == true, "expected flag to be true");
    assert!(count == 4, "expected count to be 4 but got {}", count);

    let unused = parser.unused();
    assert!(unused.len() == 1, "expected only 1 unused, got {}", unused.len());
    assert!(unused[0].arg == "boo.berry", "got unexpected unused: {}", unused[0].arg);
}

#[test]
fn tokens_that_nothing_refers_to_are_reported_once_each() {
    let mut flag = false;
    let argv = strings(&["argv[0]", "-x", "--long", "plain", "-", "--", "hidden"]);
    let mut parser = Parser::from_strings(argv);
    parser.short_flag('f', "", &mut flag, false).expect("flag");
    let unused = parser.unused();
    let seen: Vec<(&str, LooksLike)> =
        unused.iter().map(|u| (u.arg.as_str(), u.looks_like)).collect();
    assert_eq!(
        seen,
        vec![
            ("-x", LooksLike::ShortArg),
            ("--long", LooksLike::LongArg),
            ("plain", LooksLike::Positional),
            ("-", LooksLike::ShortArg),
        ]
    );
}

#[test]
fn open_characters_of_a_cluster_are_reported_one_by_one() {
    let mut b: usize = 0;
    let mut parser = Parser::from_strings(strings(&["argv[0]", "-abcbd"]));
    parser.short_count('b', "", &mut b, 1, plus).expect("count");
    assert_eq!(b, 2);
    let unused = parser.unused();
    let seen: Vec<(&str, LooksLike)> =
        unused.iter().map(|u| (u.arg.as_str(), u.looks_like)).collect();
    assert_eq!(
        seen,
        vec![
            ("-a", LooksLike::ShortArg),
            ("-c", LooksLike::ShortArg),
            ("-d", LooksLike::ShortArg),
        ]
    );
}

#[test]
fn unused_entries_are_classified_by_their_first_characters() {
    assert_eq!(Unused::new("--".to_string()).looks_like, LooksLike::LongArg);
    assert_eq!(Unused::new("--x".to_string()).looks_like, LooksLike::LongArg);
    assert_eq!(Unused::new("-".to_string()).looks_like, LooksLike::ShortArg);
    assert_eq!(Unused::new("-x".to_string()).looks_like, LooksLike::ShortArg);
    assert_eq!(Unused::new("".to_string()).looks_like, LooksLike::Positional);
    assert_eq!(Unused::new("x-".to_string()).looks_like, LooksLike::Positional);
    assert_eq!(Unused::new("x".to_string()).arg, "x");
}

#[test]
fn unused_entries_say_what_they_are() {
    assert_eq!(Unused::new("--x".to_string()).message(), "unused or unknown argument: --x");
    assert_eq!(Unused::new("-x".to_string()).message(), "unused or unknown argument: -x");
    assert_eq!(Unused::new("x".to_string()).message(), "unused positional or arg-value: x");
    assert_eq!(LooksLike::ShortArg.label(), "short-arg");
    assert_eq!(LooksLike::LongArg.label(), "long-arg");
    assert_eq!(LooksLike::Positional.label(), "positional");
}
