use kosmos::filesystem::file_descriptor::{FdTable, VolumeEntry};
use kosmos::syscall::{answer, dispatch, getdents_path, sys_close, sys_open, sys_read, sys_write, KernelContext, Syscall, CALL_FAILED};

#[test]
fn call_numbers_decode() {
    assert_eq!(dispatch(0, 3, 100, 8, 0, 0, 0), Syscall::Read { fd: 3, buf: 100, count: 8 });
    assert_eq!(dispatch(1, 1, 200, 5, 0, 0, 0), Syscall::Write { fd: 1, buf: 200, count: 5 });
    assert_eq!(dispatch(2, 300, 0, 9, 9, 9, 9), Syscall::Open { path: 300, flags: 0 });
    assert_eq!(dispatch(3, 4, 0, 0, 0, 0, 0), Syscall::Close { fd: 4 });
    assert_eq!(dispatch(60, 1, 0, 0, 0, 0, 0), Syscall::Exit { status: 1 });
    assert_eq!(dispatch(217, 3, 400, 4096, 0, 0, 0), Syscall::GetDents64 { fd: 3, buf: 400, count: 4096 });
    assert_eq!(dispatch(59, 0, 0, 0, 0, 0, 0), Syscall::Unsupported);
}

#[test]
fn call_results() {
    let mut t = FdTable::new();
    assert_eq!(sys_write(1, 12), 12);
    assert_eq!(sys_write(2, 3), 3);
    assert_eq!(sys_write(5, 3), CALL_FAILED);
    assert_eq!(sys_open(&mut t, "/nope", VolumeEntry::Missing), CALL_FAILED);
    let fd = sys_open(&mut t, "/f", VolumeEntry::File(b"abc".to_vec()));
    assert_eq!(fd, 3);
    let mut buf = [0u8; 2];
    assert_eq!(sys_read(&mut t, fd, &mut buf), 2);
    assert_eq!(&buf, b"ab");
    assert_eq!(sys_read(&mut t, 9, &mut buf), CALL_FAILED);
    assert_eq!(getdents_path(&t, fd), None);
    let d = sys_open(&mut t, "/dir", VolumeEntry::Directory);
    assert_eq!(getdents_path(&t, d), Some(String::from("/dir")));
    assert_eq!(sys_close(&mut t, fd), 0);
    assert_eq!(sys_close(&mut t, fd), CALL_FAILED);
}

#[test]
fn kernel_context_starts_zeroed() {
    let c = KernelContext::default();
    assert_eq!(c.rsp, 0);
    assert_eq!(c.rip, 0);
}

#[test]
fn answers_that_need_no_memory() {
    let mut t = FdTable::new();
    assert_eq!(answer(&mut t, dispatch(999, 1, 2, 3, 4, 5, 6)), Some(CALL_FAILED));
    assert_eq!(answer(&mut t, dispatch(3, 42, 0, 0, 0, 0, 0)), Some(CALL_FAILED));
    assert_eq!(answer(&mut t, dispatch(1, 7, 0, 0, 0, 0, 0)), Some(CALL_FAILED));
    assert_eq!(answer(&mut t, dispatch(1, 1, 0x1000, 12, 0, 0, 0)), Some(12));
    assert_eq!(answer(&mut t, dispatch(1, 2, 0x1000, 3, 9, 9, 9)), Some(3));
    assert_eq!(answer(&mut t, dispatch(0, 3, 0x1000, 8, 0, 0, 0)), None);
    assert_eq!(answer(&mut t, dispatch(60, 0, 0, 0, 0, 0, 0)), None);
    let fd = sys_open(&mut t, "/f", VolumeEntry::File(b"hello".to_vec()));
    assert_eq!(answer(&mut t, dispatch(3, fd, 0, 0, 0, 0, 0)), Some(0));
    assert_eq!(answer(&mut t, dispatch(3, fd, 0, 0, 0, 0, 0)), Some(CALL_FAILED));
    assert_eq!(t.len(), 0);
}

#[test]
fn open_holds_the_file_from_its_start() {
    let mut t = FdTable::new();
    let fd = sys_open(&mut t, "/f", VolumeEntry::File(b"hello".to_vec()));
    let f = t.get(fd).unwrap();
    assert_eq!(f.data, b"hello".to_vec());
    assert_eq!(f.offset, 0);
    assert!(!f.is_dir);
    assert_eq!(f.path, "/f");
    let mut buf = [0u8; 3];
    assert_eq!(sys_read(&mut t, fd, &mut buf), 3);
    assert_eq!(&buf, b"hel");
    let d = sys_open(&mut t, "/d", VolumeEntry::Directory);
    assert!(t.get(d).unwrap().data.is_empty());
    assert!(t.get(d).unwrap().is_dir);
}
