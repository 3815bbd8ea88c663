use kosmos::args::Args;
use kosmos::programs::greet::{greet_name, u64_to_buf};
use kosmos::programs::ls::ls_request;

#[test]
fn decimal_digits() {
    let mut buf = [b'#'; 20];
    let i = u64_to_buf(0, &mut buf);
    assert_eq!(&buf[i..], b"0");
    assert_eq!(i, 19);
    let mut buf = [b'#'; 20];
    let i = u64_to_buf(12345, &mut buf);
    assert_eq!(&buf[i..], b"12345");
    assert_eq!(buf[0], b'#');
    let mut buf = [0u8; 20];
    let i = u64_to_buf(u64::MAX, &mut buf);
    assert_eq!(&buf[i..], b"18446744073709551615");
    assert_eq!(i, 0);
    let mut buf = [0u8; 20];
    let i = u64_to_buf(7, &mut buf);
    assert_eq!(&buf[i..], b"7");
}

#[test]
fn greets_the_first_argument_or_the_world() {
    assert_eq!(greet_name(&["greet", "ann", "bob"]), "ann");
    assert_eq!(greet_name(&["greet"]), "world");
}

#[test]
fn ls_options() {
    let r = ls_request(&Args::parse(&["ls", "-a", "/usr"]));
    assert!(r.show_all);
    assert!(!r.help);
    assert_eq!(r.path, "/usr");
    let r = ls_request(&Args::parse(&["ls", "--help"]));
    assert!(r.help);
    assert!(!r.show_all);
    assert_eq!(r.path, "/");
    let r = ls_request(&Args::parse(&["ls", "-la", "--all"]));
    assert!(r.show_all);
}
