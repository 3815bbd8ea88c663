use kosmos::filesystem::file_descriptor::{alloc_fd, close, free_fd, open, read, FdTable, FileDescriptor, VolumeEntry};

fn file(data: &[u8]) -> FileDescriptor {
    FileDescriptor { data: data.to_vec(), offset: 0, is_dir: false, path: String::from("/f") }
}

#[test]
fn descriptors_start_at_three_and_reuse_the_lowest() {
    let mut t = FdTable::new();
    assert_eq!(alloc_fd(&mut t, file(b"a")), 3);
    assert_eq!(alloc_fd(&mut t, file(b"b")), 4);
    assert_eq!(alloc_fd(&mut t, file(b"c")), 5);
    free_fd(&mut t, 4);
    assert!(!t.contains(4));
    assert_eq!(alloc_fd(&mut t, file(b"d")), 4);
    assert_eq!(alloc_fd(&mut t, file(b"e")), 6);
}

#[test]
fn reads_advance_through_the_file() {
    let mut t = FdTable::new();
    let fd = alloc_fd(&mut t, file(b"hello world"));
    let mut buf = [0u8; 4];
    assert_eq!(read(&mut t, fd, &mut buf), 4);
    assert_eq!(&buf, b"hell");
    assert_eq!(read(&mut t, fd, &mut buf), 4);
    assert_eq!(&buf, b"o wo");
    let mut big = [9u8; 8];
    assert_eq!(read(&mut t, fd, &mut big), 3);
    assert_eq!(&big, &[b'r', b'l', b'd', 9, 9, 9, 9, 9]);
    assert_eq!(read(&mut t, fd, &mut big), 0);
    assert_eq!(t.get(fd).unwrap().offset, 11);
}

#[test]
fn reading_a_closed_descriptor_fails() {
    let mut t = FdTable::new();
    let mut buf = [7u8; 2];
    assert_eq!(read(&mut t, 3, &mut buf), -1);
    assert_eq!(buf, [7, 7]);
}

#[test]
fn close_reports_whether_it_was_open() {
    let mut t = FdTable::new();
    let fd = alloc_fd(&mut t, file(b"x"));
    assert_eq!(close(&mut t, fd), 0);
    assert_eq!(close(&mut t, fd), -1);
    assert!(!t.contains(fd));
}

#[test]
fn open_files_and_directories() {
    let mut t = FdTable::new();
    assert_eq!(open(&mut t, "/missing", VolumeEntry::Missing), None);
    let f = open(&mut t, "/usr/bin/ls", VolumeEntry::File(b"ELF".to_vec())).unwrap();
    assert_eq!(f, 3);
    let d = open(&mut t, "/usr", VolumeEntry::Directory).unwrap();
    assert_eq!(d, 4);
    let fe = t.get(f).unwrap();
    assert_eq!(fe.data, b"ELF".to_vec());
    assert!(!fe.is_dir);
    assert_eq!(fe.path, "/usr/bin/ls");
    let de = t.get(d).unwrap();
    assert!(de.is_dir);
    assert!(de.data.is_empty());
    assert_eq!(de.path, "/usr");
}

#[test]
fn a_second_close_fails_and_changes_nothing() {
    let mut t = FdTable::new();
    let a = alloc_fd(&mut t, file(b"a"));
    let b = alloc_fd(&mut t, file(b"b"));
    assert_eq!(close(&mut t, a), 0);
    assert_eq!(close(&mut t, a), -1);
    assert!(!t.contains(a));
    assert!(t.contains(b));
    assert_eq!(t.len(), 1);
}
