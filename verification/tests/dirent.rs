use kosmos::dirent::{dirent_names, encode_dirents, DirEntry};
use kosmos::programs::ls::ls_output;

fn entry(name: &str, is_dir: bool) -> DirEntry {
    DirEntry { name: name.as_bytes().to_vec(), is_dir }
}

#[test]
fn record_layout() {
    let mut buf = [0xAAu8; 64];
    let n = encode_dirents(&mut buf, &vec![entry("ab", true)]);
    assert_eq!(n, 24);
    assert_eq!(&buf[0..8], &[1, 0, 0, 0, 0, 0, 0, 0]);
    assert_eq!(&buf[8..16], &[24, 0, 0, 0, 0, 0, 0, 0]);
    assert_eq!(&buf[16..18], &[24, 0]);
    assert_eq!(buf[18], 4);
    assert_eq!(&buf[19..22], &[b'a', b'b', 0]);
    assert_eq!(&buf[22..24], &[0xAA, 0xAA]);
    assert_eq!(buf[24], 0xAA);
}

#[test]
fn records_stop_at_the_first_that_does_not_fit() {
    let mut buf = [0u8; 60];
    let es = vec![entry("file.txt", false), entry("x", true), entry("third-name", false)];
    let n = encode_dirents(&mut buf, &es);
    assert_eq!(n, 56);
    assert_eq!(buf[18], 8);
    assert_eq!(buf[32 + 18], 4);
    assert_eq!(&buf[32 + 8..32 + 16], &[56, 0, 0, 0, 0, 0, 0, 0]);
    let names = dirent_names(&buf, n).unwrap();
    assert_eq!(names, vec![b"file.txt".to_vec(), b"x".to_vec()]);
}

#[test]
fn listing_round_trip() {
    let mut buf = [0u8; 4096];
    let es = vec![entry(".", true), entry("..", true), entry("bin", true), entry(".hidden", false), entry("readme", false)];
    let n = encode_dirents(&mut buf, &es);
    let names = dirent_names(&buf, n).unwrap();
    let expected: Vec<Vec<u8>> = es.iter().map(|e| e.name.clone()).collect();
    assert_eq!(names, expected);
    assert_eq!(ls_output(&buf, n, false).unwrap(), b"bin  readme  \n".to_vec());
    assert_eq!(ls_output(&buf, n, true).unwrap(), b".  ..  bin  .hidden  readme  \n".to_vec());
}

#[test]
fn invalid_text_is_shown_as_question_mark() {
    let mut buf = [0u8; 128];
    let es = vec![DirEntry { name: vec![0xFF, 0xFE], is_dir: false }, entry("ok", false)];
    let n = encode_dirents(&mut buf, &es);
    assert_eq!(ls_output(&buf, n, false).unwrap(), b"?  ok  \n".to_vec());
}

#[test]
fn empty_listing() {
    let buf = [0u8; 16];
    assert_eq!(ls_output(&buf, 0, false).unwrap(), b"\n".to_vec());
}

#[test]
fn unreadable_records_are_refused() {
    let mut buf = [0u8; 64];
    buf[19] = b'a';
    // length field zero: reading would never advance
    assert_eq!(dirent_names(&buf, 24), None);
    assert_eq!(ls_output(&buf, 24, true), None);
    // name never terminated
    let mut buf2 = [b'z'; 32];
    buf2[16] = 32;
    buf2[17] = 0;
    assert_eq!(dirent_names(&buf2, 32), None);
    // record cut short
    let buf3 = [0u8; 10];
    assert_eq!(dirent_names(&buf3, 10), None);
}
