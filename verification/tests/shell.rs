use kosmos::keyboard::{Echo, Key, LineEditor};
use kosmos::shell::{CdStep, Command, ShellState};

#[test]
fn line_editing() {
    let mut e = LineEditor::new();
    assert_eq!(e.feed(Key::Unicode('l')), Echo::Show('l'));
    assert_eq!(e.feed(Key::Unicode('x')), Echo::Show('x'));
    assert_eq!(e.feed(Key::Unicode('\x08')), Echo::Erase);
    assert_eq!(e.feed(Key::Raw), Echo::Nothing);
    assert_eq!(e.feed(Key::Unicode('s')), Echo::Show('s'));
    assert_eq!(e.line(), "ls");
    assert_eq!(e.feed(Key::Unicode('\n')), Echo::Newline);
    assert_eq!(e.line(), "ls");
    let mut e = LineEditor::new();
    assert_eq!(e.feed(Key::Unicode('\x08')), Echo::Nothing);
    assert_eq!(e.line(), "");
}

#[test]
fn variables_and_expansion() {
    let mut sh = ShellState::new();
    sh.init();
    assert_eq!(sh.expand_vars("$path/ls"), "/usr/bin/ls");
    assert!(matches!(sh.handle_command(" greeting = hello world "), Command::Assigned));
    assert_eq!(sh.expand_vars("say $greeting!"), "say hello world!");
    assert_eq!(sh.expand_vars("$missing|$"), "|");
    assert!(matches!(sh.handle_command("path=/bin"), Command::Assigned));
    assert_eq!(sh.expand_vars("$path"), "/bin");
    match sh.handle_command("echo $greeting, $path") {
        Command::Echo(line) => assert_eq!(line, "hello world, /bin"),
        _ => panic!("not echo"),
    }
}

#[test]
fn builtins_and_programs() {
    let mut sh = ShellState::new();
    assert!(matches!(sh.handle_command("clear"), Command::Clear));
    assert!(matches!(sh.handle_command("help me"), Command::Help));
    assert!(matches!(sh.handle_command(""), Command::Nothing));
    match sh.handle_command("ls -la /usr") {
        Command::Run { name, path } => {
            assert_eq!(name, "ls");
            assert_eq!(path, "/usr/bin/ls");
        }
        _ => panic!("not run"),
    }
    match sh.handle_command("echo") {
        Command::Echo(line) => assert_eq!(line, ""),
        _ => panic!("not echo"),
    }
}

#[test]
fn paths_resolve_against_the_current_directory() {
    let mut sh = ShellState::new();
    assert_eq!(sh.resolve_path("usr/bin"), "/usr/bin");
    sh.set_cwd(String::from("/usr/bin"));
    assert_eq!(sh.resolve_path("../lib/./x"), "/usr/lib/x");
    assert_eq!(sh.resolve_path("/etc//"), "/etc");
    assert_eq!(sh.resolve_path("../../../.."), "/");
    assert_eq!(sh.resolve_path(""), "/usr/bin");
}

#[test]
fn cd_steps() {
    let mut sh = ShellState::new();
    match sh.handle_command("cd usr") {
        Command::Cd(CdStep::Check { path, typed }) => {
            assert_eq!(path, "/usr");
            assert_eq!(typed, "usr");
        }
        _ => panic!("not a check"),
    }
    assert_eq!(sh.current_dir(), "/");
    sh.set_cwd(String::from("/usr"));
    assert!(matches!(sh.handle_command("cd a b"), Command::Cd(CdStep::TooManyArguments)));
    assert_eq!(sh.current_dir(), "/usr");
    assert!(matches!(sh.handle_command("cd .."), Command::Cd(CdStep::Changed)));
    assert_eq!(sh.current_dir(), "/");
    sh.set_cwd(String::from("/usr"));
    assert!(matches!(sh.handle_command("cd"), Command::Cd(CdStep::Changed)));
    assert_eq!(sh.current_dir(), "/");
}

#[test]
fn resolved_paths_resolve_to_themselves() {
    let mut sh = ShellState::new();
    sh.set_cwd(String::from("/home/user"));
    let once = sh.resolve_path("../x/./y/");
    assert_eq!(once, "/home/x/y");
    assert_eq!(sh.resolve_path(&once), once);
    assert_eq!(sh.resolve_path("/"), "/");
}

#[test]
fn text_without_dollar_expands_to_itself() {
    let mut sh = ShellState::new();
    sh.init();
    assert_eq!(sh.expand_vars("plain text, no variables"), "plain text, no variables");
}

#[test]
fn typing_then_backspace_restores_the_line() {
    let mut e = LineEditor::new();
    e.feed(Key::Unicode('a'));
    assert_eq!(e.feed(Key::Unicode('b')), Echo::Show('b'));
    assert_eq!(e.feed(Key::Unicode('\x08')), Echo::Erase);
    assert_eq!(e.line(), "a");
}

#[test]
fn variable_names_are_alphanumeric_or_underscore() {
    let mut sh = ShellState::new();
    assert!(matches!(sh.handle_command("grüße_2 = hi"), Command::Assigned));
    assert!(matches!(sh.handle_command("a = A"), Command::Assigned));
    assert_eq!(sh.expand_vars("$grüße_2!"), "hi!");
    assert_eq!(sh.expand_vars("$a-$a.$a_"), "A-A.");
    assert_eq!(sh.expand_vars("$$a"), "A");
}

#[test]
fn absolute_paths_resolve_alike_from_everywhere() {
    let mut sh = ShellState::new();
    let from_root = sh.resolve_path("/usr/./bin/../lib");
    sh.set_cwd(String::from("/home/user"));
    assert_eq!(sh.resolve_path("/usr/./bin/../lib"), from_root);
    assert_eq!(from_root, "/usr/lib");
    let r = sh.resolve_path("a//b/.");
    assert_eq!(r, "/home/user/a/b");
    sh.set_cwd(r.clone());
    assert_eq!(sh.resolve_path(&r), r);
}
