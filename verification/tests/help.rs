use rags::printer::{
    arg_string, arg_string_len, option_label, App, Argument, Group, Positional, Printer,
    Subcommand,
};
use rags::{Error, Parser};
use std::fmt::Display;
use std::str::FromStr;

fn strings(items: &[&str]) -> Vec<String> {
    items.iter().map(|s| s.to_string()).collect()
}

fn parsed<T: FromStr>(s: &str) -> Result<T, String>
where
    T::Err: Display,
{
    s.parse::<T>().map_err(|e| e.to_string())
}

fn plus(a: &usize, b: &usize) -> usize {
    *a + *b
}

#[derive(Debug, PartialEq)]
struct Options {
    debug: bool,
    verbosity: usize,
    subcmds: Vec<String>,
    build_release: bool,
    build_link: Vec<String>,
    package: String,
    dry_run: bool,
    initial_file: String,
    additional_files: Vec<String>,
}

fn defaults() -> Options {
    Options {
        debug: false,
        verbosity: 0,
        subcmds: vec![],
        build_release: false,
        build_link: vec![],
        package: "main".to_string(),
        dry_run: false,
        initial_file: "".to_string(),
        additional_files: vec![],
    }
}

fn declare(parser: &mut Parser, opts: &mut Options) -> Result<(), Error> {
    parser
        .app_name("rags")
        .app_version("0.1.0")
        .app_desc("example using most rags features")
        .app_long_desc("A long description.")
        .group("logging", "adjust logging output")?
        .flag('D', "debug", "enter debug mode", &mut opts.debug, false)?
        .count('v', "verbose", "increase vebosity", &mut opts.verbosity, 1, plus)?
        .done()?
        .subcommand("build", "build a target", &mut opts.subcmds, None, parsed::<String>)?
        .arg('p', "package", "rename the package", &mut opts.package, Some("PKG"), true, parsed::<String>)?
        .list('l', "lib", "libraries to link", &mut opts.build_link, Some("LIB"), false, parsed::<String>)?
        .long_flag("release", "do a release build", &mut opts.build_release, false)?
        .positional("file", "file to build", &mut opts.initial_file, true, parsed::<String>)?
        .positional_list("files", "additional files to build", &mut opts.additional_files, false, parsed::<String>)?
        .done()?
        .subcommand("clean", "clean all build artifacts", &mut opts.subcmds, None, parsed::<String>)?
        .flag('p', "print-only", "print what files would be cleaned", &mut opts.dry_run, false)?
        .done()?;
    Ok(())
}

#[test]
fn help_of_the_root_command() {
    let mut opts = defaults();
    let mut parser = Parser::from_strings(strings(&["rags", "--help"]));
    assert!(parser.wants_help());
    declare(&mut parser, &mut opts).expect("declarations");
    assert_eq!(opts, defaults());
    assert_eq!(parser.usage(), "{subcommand} [-Dv]");
    let expected = "\
rags 0.1.0 - example using most rags features

usage: rags {subcommand} [-Dv]

A long description.

subcommands:
    build                build a target
    clean                clean all build artifacts

logging:                 adjust logging output
    -D, --debug          enter debug mode [default: false]
    -v, --verbose        increase vebosity [default: 0]


";
    assert_eq!(parser.help_text(), expected);
}

#[test]
fn help_of_a_subcommand() {
    let mut opts = defaults();
    let mut parser = Parser::from_strings(strings(&["rags", "build", "--help"]));
    declare(&mut parser, &mut opts).expect("declarations");
    assert_eq!(opts.subcmds, vec!["build".to_string()]);
    assert_eq!(parser.usage(), "[-Dv -l LIB --release] -p PKG file [files...]");
    let expected = "\
rags build 0.1.0 - build a target

usage: rags build [-Dv -l LIB --release] -p PKG file [files...]

logging:                     adjust logging output
    -D, --debug              enter debug mode [default: false]
    -v, --verbose            increase vebosity [default: 0]

options:
    -p, --package PKG        rename the package [required, default: main]
    -l, --lib LIB            libraries to link
        --release            do a release build [default: false]

positionals:
    file                     file to build [required]
    files...                 additional files to build

";
    assert_eq!(parser.help_text(), expected);
}

#[test]
fn usage_line_parses_as_a_command_line() {
    let mut shown = defaults();
    let mut helper = Parser::from_strings(strings(&["rags", "build", "--help"]));
    declare(&mut helper, &mut shown).expect("declarations for the help");
    let usage = helper.usage();

    let mut argv = strings(&["rags", "build"]);
    for word in usage.split_whitespace() {
        argv.push(word.trim_matches(|c| c == '[' || c == ']').to_string());
    }
    assert_eq!(
        argv,
        strings(&[
            "rags", "build", "-Dv", "-l", "LIB", "--release", "-p", "PKG", "file", "files..."
        ])
    );

    let mut opts = defaults();
    let mut parser = Parser::from_strings(argv);
    assert!(!parser.wants_help());
    declare(&mut parser, &mut opts).expect("the example command line parses");
    assert!(opts.debug);
    assert_eq!(opts.verbosity, 1);
    assert_eq!(opts.subcmds, vec!["build".to_string()]);
    assert_eq!(opts.package, "PKG");
    assert_eq!(opts.build_link, vec!["LIB".to_string()]);
    assert!(opts.build_release);
    assert_eq!(opts.initial_file, "file");
    assert_eq!(opts.additional_files, vec!["files...".to_string()]);
    assert!(!opts.dry_run);
    assert!(parser.unused().is_empty());
}

#[test]
fn usage_line_without_its_optional_parts_parses_too() {
    let mut opts = defaults();
    let mut parser = Parser::from_strings(strings(&["rags", "build", "-p", "PKG", "file"]));
    declare(&mut parser, &mut opts).expect("the required parts are enough");
    assert_eq!(opts.package, "PKG");
    assert_eq!(opts.initial_file, "file");
    assert!(opts.additional_files.is_empty());

    let mut opts = defaults();
    let mut parser = Parser::from_strings(strings(&["rags", "build", "file"]));
    match declare(&mut parser, &mut opts) {
        Err(Error::MissingArgument(name)) => assert_eq!(name, "-p, --package"),
        other => panic!("unexpected result: {:?}", other),
    }
}

#[test]
fn option_names() {
    assert_eq!(arg_string('f', "file", false), "-f, --file");
    assert_eq!(arg_string('f', "file", true), "-f, --file");
    assert_eq!(arg_string('f', "", false), "-f");
    assert_eq!(arg_string('\0', "file", false), "--file");
    assert_eq!(arg_string('\0', "file", true), "    --file");
    assert_eq!(arg_string('9', "nine", true), "    --nine");
    assert_eq!(arg_string_len('f', "file"), 10);
    assert_eq!(arg_string_len('f', ""), 2);
    assert_eq!(arg_string_len('\0', "file"), 10);
    assert_eq!(option_label('f', "file"), "-f, --file");
    assert_eq!(option_label('9', ""), "");
    assert_eq!(option_label('\0', ""), "");
}

#[test]
fn records_of_the_help() {
    let a = Argument::new('f', "file", "a file", Some("FILE"), Some("x".to_string()), true);
    assert!(a.should_print());
    assert_eq!(a.arg_string(), "-f, --file FILE");
    assert_eq!(a.left_len(), 15);
    assert_eq!((a.short, a.long, a.desc, a.label, a.required), ('f', "file", "a file", Some("FILE"), true));
    assert_eq!(a.default, Some("x".to_string()));

    let hidden = Argument::new('\0', "", "nothing", None, None, false);
    assert!(!hidden.should_print());
    assert_eq!(hidden.left_len(), 0);

    let s = Subcommand::new("build", "build it");
    assert!(s.should_print());
    assert_eq!(s.left_len(), 5);
    assert!(!Subcommand::new("", "").should_print());

    let g = Group::new("logging", "log");
    assert_eq!((g.name, g.desc, g.opts.len()), ("logging", "log", 0));
    assert!(!g.should_print());

    let p = Positional::new("files", "the files", None, false, true);
    assert_eq!(p.left_len(), 8);
    assert!(p.should_print());

    let app = App::empty();
    assert_eq!((app.name, app.short_desc, app.long_desc, app.version), ("", "", "", ""));
    assert!(!app.should_print());
    let app = App::new("n", "s", "l", "v");
    assert_eq!((app.name, app.short_desc, app.long_desc, app.version), ("n", "s", "l", "v"));
    assert!(app.should_print());
}

#[test]
fn printer_files_options_under_their_groups() {
    let mut printer = Printer::new(App::new("tool", "a tool", "", "1.0"));
    printer.add_group("zeta", "last").expect("group zeta");
    printer.add_group("alpha", "first").expect("group alpha");
    printer
        .add_arg(Argument::new('z', "", "in zeta", None, None, false), Some("zeta"))
        .expect("option in zeta");
    printer
        .add_arg(Argument::new('a', "all", "in alpha", None, None, true), Some("alpha"))
        .expect("option in alpha");
    printer
        .add_arg(Argument::new('\0', "plain", "general", Some("N"), None, false), None)
        .expect("general option");
    match printer.add_arg(Argument::new('x', "", "", None, None, false), Some("missing")) {
        Err(Error::PrinterMissingGroup("missing")) => {}
        other => panic!("unexpected result: {:?}", other),
    }
    assert_eq!(printer.generate_usage(), "[-z --plain N] -a");
    let expected = "\
tool 1.0 - a tool

usage: tool [-z --plain N] -a

alpha:                   first
    -a, --all            in alpha [required]

zeta:                    last
    -z                   in zeta

options:
        --plain N        general

";
    assert_eq!(printer.help_text(), expected);
}

#[test]
fn printer_replaces_a_group_of_the_same_name() {
    let mut printer = Printer::new(App::empty());
    printer.add_group("g", "old").expect("group");
    printer.add_arg(Argument::new('a', "", "first", None, None, false), Some("g")).expect("a");
    printer.add_group("g", "new").expect("group again");
    printer.add_arg(Argument::new('b', "", "second", None, None, false), Some("g")).expect("b");
    let expected = "\
usage:  [-b]

g:            new
    -b        second


";
    assert_eq!(printer.help_text(), expected);
}

#[test]
fn printer_starts_a_new_level_with_each_subcommand() {
    let mut printer = Printer::new(App::empty());
    printer.set_name("tool");
    printer.set_version("2");
    printer.set_short_desc("short");
    printer.set_long_desc("long");
    printer.add_subcommand(Subcommand::new("build", "build it"));
    printer.add_subcommand(Subcommand::new("", "no name"));
    assert_eq!(
        printer.help_text(),
        "tool 2 - short\n\nlong\n\nsubcommands:\n    build        build it\n\n\n"
    );
    printer.new_level("build", "build it", "");
    printer.add_positional(Positional::new("what", "what to build", Some("all".to_string()), false, false))
        .expect("positional");
    assert_eq!(printer.generate_usage(), "[what]");
    assert_eq!(
        printer.help_text(),
        "tool build 2 - build it\n\nusage: tool build [what]\n\n\npositionals:\n    what         what to build [default: all]\n\n"
    );
}

#[test]
fn messages_of_failures() {
    assert_eq!(
        Error::InvalidState("call to done() at top-level").message(),
        "invalid parser state: call to done() at top-level"
    );
    assert_eq!(
        Error::InvalidInput('f', "flag", "flag should not have a value").message(),
        "invalid input: -f, --flag flag should not have a value"
    );
    assert_eq!(Error::MissingArgValue('f', "").message(), "missing argument value for -f");
    assert_eq!(
        Error::ConstructionError('\0', "num", "bad".to_string()).message(),
        "failed to construct target from string for --num: bad"
    );
    assert_eq!(
        Error::PositionalConstructionError("file", "bad".to_string()).message(),
        "failed to construct positional target from string for file: bad"
    );
    assert_eq!(
        Error::SubConstructionError("build", "bad".to_string()).message(),
        "failed to construct subcommand from string for build: bad"
    );
    assert_eq!(
        Error::ValuedArgInRun('f', "-vfx".to_string()).message(),
        "short-code runs only support valued-args as the last character in the run: f is within -vfx"
    );
    assert_eq!(
        Error::NestedGroup("outer", "inner").message(),
        "groups cannot be nested (inner within outer)"
    );
    assert_eq!(
        Error::PrinterMissingGroup("g").message(),
        "cannot add option to unknown group: g"
    );
    assert_eq!(
        Error::MissingArgument("-f".to_string()).message(),
        "required argument was not given: -f"
    );
    assert_eq!(
        Error::MissingPositional("file".to_string()).message(),
        "required positional was not given: file"
    );
    assert_eq!(
        Error::MultipleVariadic("files").message(),
        "second declared variadic positional has no effect: files"
    );
    assert_eq!(
        Error::UnorderedPositionals("file").message(),
        "declaring a positional after a variadic positional has no effect: file"
    );
    assert_eq!(Error::MissingArgValue('f', "").description(), "missing argument value");
    let e = Error::ConstructionError('n', "num", "bad".to_string());
    assert_eq!(e.duplicate().message(), e.message());
}
