use kosmos::args::{Args, Help};

#[test]
fn parse_mixed_arguments() {
    let argv = ["ls", "-la", "--color", "auto", "dir", "--verbose", "-x"];
    let args = Args::parse(&argv);
    assert!(args.flag("l"));
    assert!(args.flag("a"));
    assert!(args.flag("x"));
    assert!(args.flag("verbose"));
    assert!(!args.flag("color"));
    assert_eq!(args.value("color"), Some("auto"));
    assert_eq!(args.value("verbose"), None);
    assert_eq!(args.positionals(), &["dir".to_string()]);
    assert_eq!(args.positional(0, "/"), "dir");
    assert_eq!(args.positional(1, "/"), "/");
}

#[test]
fn parse_skips_program_name() {
    let args = Args::parse(&["prog"]);
    assert!(args.positionals().is_empty());
    assert!(!args.flag("prog"));
    let none: [&str; 0] = [];
    let args = Args::parse(&none);
    assert!(args.positionals().is_empty());
}

#[test]
fn long_option_before_dash_is_a_flag() {
    let args = Args::parse(&["p", "--all", "-l"]);
    assert!(args.flag("all"));
    assert!(args.flag("l"));
    assert_eq!(args.value("all"), None);
}

#[test]
fn long_option_at_end_is_a_flag() {
    let args = Args::parse(&["p", "x", "--all"]);
    assert!(args.flag("all"));
    assert_eq!(args.positional(0, ""), "x");
}

#[test]
fn lone_dash_is_positional_and_double_dash_has_empty_name() {
    let args = Args::parse(&["p", "-", "--", "v"]);
    assert_eq!(args.positional(0, ""), "-");
    assert_eq!(args.value(""), Some("v"));
}

#[test]
fn first_value_wins() {
    let args = Args::parse(&["p", "--k", "1", "--k", "2"]);
    assert_eq!(args.value("k"), Some("1"));
}

#[test]
fn help_text_aligns_descriptions() {
    let h = Help::new("ls", "list directory contents")
        .flag("a", "all", "show hidden files")
        .flag("l", "long", "long listing format");
    let mut out = String::new();
    h.print(&mut out);
    let expected = "usage: ls [OPTIONS] [ARGS]\nlist directory contents\n\noptions:\n  -h, --help  print this help message\n  -a, --all   show hidden files\n  -l, --long  long listing format\n";
    assert_eq!(out, expected);
}

#[test]
fn help_text_widens_for_long_names() {
    let h = Help::new("x", "y").flag("v", "verbose-output", "talk more");
    let mut out = String::from(">");
    h.print(&mut out);
    let expected = ">usage: x [OPTIONS] [ARGS]\ny\n\noptions:\n  -h, --help            print this help message\n  -v, --verbose-output  talk more\n";
    assert_eq!(out, expected);
}

#[test]
fn the_program_name_is_never_an_argument() {
    let a = Args::parse(&["--all", "x"]);
    let b = Args::parse(&["ls", "x"]);
    assert!(!a.flag("all"));
    assert_eq!(a.value("all"), None);
    assert_eq!(a.positionals(), b.positionals());
    assert_eq!(a.positionals().len(), 1);
    let e = Args::parse(&[]);
    assert!(e.positionals().is_empty());
    assert!(!e.flag("a"));
}
