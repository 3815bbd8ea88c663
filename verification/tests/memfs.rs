use kosmos::filesystem::memfs::MemFs;
use kosmos::filesystem::{FileSystem, FsError};

#[test]
fn new_fs_has_only_root() {
    let fs = MemFs::new();
    assert!(fs.exists_at("/"));
    assert!(fs.is_dir("/"));
    assert!(fs.is_dir(""));
    assert_eq!(fs.readdir("/").unwrap(), Vec::<String>::new());
    assert_eq!(fs.read("/"), Err(FsError::NotAFile));
}

#[test]
fn create_write_read() {
    let mut fs = MemFs::new();
    assert_eq!(fs.create("/a"), Ok(()));
    assert_eq!(fs.read("/a").unwrap(), Vec::<u8>::new());
    assert_eq!(fs.write("/a", b"hello"), Ok(()));
    assert_eq!(fs.read("/a").unwrap(), b"hello".to_vec());
    assert_eq!(fs.write("a", b"x"), Ok(()));
    assert_eq!(fs.read("//a//").unwrap(), b"x".to_vec());
    assert_eq!(fs.read("/b"), Err(FsError::NotFound));
}

#[test]
fn nested_directories() {
    let mut fs = MemFs::new();
    assert_eq!(fs.mkdir("/usr"), Ok(()));
    assert_eq!(fs.mkdir("/usr/bin"), Ok(()));
    assert_eq!(fs.create("/usr/bin/ls"), Ok(()));
    assert!(fs.is_dir("/usr/bin"));
    assert!(!fs.is_dir("/usr/bin/ls"));
    assert!(fs.exists_at("/usr/bin/ls"));
    assert_eq!(fs.readdir("/usr").unwrap(), vec!["bin".to_string()]);
    assert_eq!(fs.mkdir("/usr/lib/x"), Err(FsError::NotFound));
    assert_eq!(fs.create("/usr/bin/ls/x"), Err(FsError::NotADirectory));
    assert_eq!(fs.read("/usr/bin/ls/x"), Err(FsError::NotADirectory));
}

#[test]
fn listing_is_sorted_by_name() {
    let mut fs = MemFs::new();
    for name in ["/zeta", "/alpha", "/Beta", "/mid", "/alp"] {
        assert_eq!(fs.create(name), Ok(()));
    }
    assert_eq!(fs.mkdir("/dir"), Ok(()));
    let names = fs.readdir("/").unwrap();
    assert_eq!(names, vec!["Beta", "alp", "alpha", "dir", "mid", "zeta"]);
}

#[test]
fn already_exists_is_refused() {
    let mut fs = MemFs::new();
    assert_eq!(fs.create("/a"), Ok(()));
    assert_eq!(fs.create("/a"), Err(FsError::AlreadyExists));
    assert_eq!(fs.mkdir("/a"), Err(FsError::AlreadyExists));
    assert_eq!(fs.mkdir("/d"), Ok(()));
    assert_eq!(fs.create("/d"), Err(FsError::AlreadyExists));
}

#[test]
fn write_to_directory_is_refused() {
    let mut fs = MemFs::new();
    assert_eq!(fs.mkdir("/d"), Ok(()));
    assert_eq!(fs.write("/d", b"x"), Err(FsError::NotAFile));
    assert_eq!(fs.write("/", b"x"), Err(FsError::NotAFile));
    assert_eq!(fs.write("/nope", b"x"), Err(FsError::NotFound));
    assert_eq!(fs.readdir("/nope"), Err(FsError::NotFound));
}

#[test]
fn readdir_of_file_is_refused() {
    let mut fs = MemFs::new();
    assert_eq!(fs.create("/f"), Ok(()));
    assert_eq!(fs.readdir("/f"), Err(FsError::NotADirectory));
}

#[test]
fn remove_takes_the_subtree() {
    let mut fs = MemFs::new();
    assert_eq!(fs.mkdir("/d"), Ok(()));
    assert_eq!(fs.mkdir("/d/e"), Ok(()));
    assert_eq!(fs.create("/d/e/f"), Ok(()));
    assert_eq!(fs.create("/g"), Ok(()));
    assert_eq!(fs.remove("/d"), Ok(()));
    assert!(!fs.exists_at("/d"));
    assert!(!fs.exists_at("/d/e/f"));
    assert!(fs.exists_at("/g"));
    assert_eq!(fs.remove("/d"), Err(FsError::NotFound));
    assert_eq!(fs.remove("/g/x"), Err(FsError::NotADirectory));
    assert_eq!(fs.remove("/x/y"), Err(FsError::NotFound));
}

#[test]
fn root_is_left_alone() {
    let mut fs = MemFs::new();
    assert_eq!(fs.create("/"), Ok(()));
    assert_eq!(fs.mkdir("/"), Ok(()));
    assert_eq!(fs.remove("/"), Ok(()));
    assert!(fs.is_dir("/"));
}

#[test]
fn remove_after_create_restores() {
    let mut fs = MemFs::new();
    assert_eq!(fs.mkdir("/d"), Ok(()));
    let before = fs.readdir("/").unwrap();
    assert_eq!(fs.create("/n"), Ok(()));
    assert_eq!(fs.remove("/n"), Ok(()));
    assert_eq!(fs.readdir("/").unwrap(), before);
}

#[test]
fn trait_forwards_to_the_file_system() {
    let mut fs = MemFs::new();
    {
        let f: &mut dyn FileSystem = &mut fs;
        assert_eq!(f.mkdir("/d"), Ok(()));
        assert_eq!(f.create("/d/x"), Ok(()));
        assert_eq!(f.write("/d/x", b"1"), Ok(()));
        assert_eq!(f.read("/d/x").unwrap(), b"1".to_vec());
        assert!(f.exists_at("/d/x"));
        assert!(f.is_dir("/d"));
        assert_eq!(f.readdir("/d").unwrap(), vec!["x".to_string()]);
        assert_eq!(f.remove("/d/x"), Ok(()));
    }
    assert!(!fs.exists_at("/d/x"));
}

#[test]
fn split_path_drops_empty_pieces() {
    let parts = kosmos::filesystem::memfs::split_path("//usr///bin/");
    assert_eq!(parts, vec![vec!['u', 's', 'r'], vec!['b', 'i', 'n']]);
    assert!(kosmos::filesystem::memfs::split_path("/").is_empty());
}

#[test]
fn the_root_always_exists_and_equal_paths_agree() {
    let mut fs = MemFs::new();
    assert!(fs.exists_at("/") && fs.exists_at("") && fs.is_dir("/"));
    fs.mkdir("/a").unwrap();
    fs.create("/a/f").unwrap();
    assert!(fs.remove("/").is_ok());
    assert!(fs.exists_at("/") && fs.is_dir(""));
    for p in ["a", "/a", "//a/"] {
        assert!(fs.exists_at(p));
        assert!(fs.is_dir(p));
    }
    for p in ["a/f", "/a//f", "a/f/"] {
        assert!(fs.exists_at(p));
        assert!(!fs.is_dir(p));
    }
}
