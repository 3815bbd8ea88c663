use kosmos::filesystem::fat32::{Disk, DiskBackend, SeekTarget};

struct MemDisk {
    sectors: Vec<[u8; 512]>,
}

impl DiskBackend for MemDisk {
    fn sector(&self, _lba: u32) -> vstd::seq::Seq<u8> {
        panic!("only for proofs")
    }

    fn read_sector(&mut self, lba: u32, buf: &mut [u8; 512]) {
        *buf = self.sectors[lba as usize];
    }

    fn write_sector(&mut self, lba: u32, buf: &[u8; 512]) {
        self.sectors[lba as usize] = *buf;
    }
}

fn disk() -> Disk<MemDisk> {
    let mut sectors = vec![[0u8; 512]; 4];
    for (i, s) in sectors.iter_mut().enumerate() {
        for (j, b) in s.iter_mut().enumerate() {
            *b = (i * 7 + j) as u8;
        }
    }
    Disk::new(MemDisk { sectors })
}

#[test]
fn reads_stop_at_the_sector_end() {
    let mut d = disk();
    assert_eq!(d.seek(SeekTarget::Start(510)), 510);
    let mut buf = [0u8; 8];
    assert_eq!(d.read(&mut buf), 2);
    assert_eq!(&buf[..2], &[254, 255]);
    assert_eq!(d.read(&mut buf), 8);
    assert_eq!(buf, [7, 8, 9, 10, 11, 12, 13, 14]);
    assert_eq!(d.seek(SeekTarget::Current(0)), 520);
}

#[test]
fn write_then_read_back() {
    let mut d = disk();
    assert_eq!(d.seek(SeekTarget::Start(1024 + 100)), 1124);
    assert_eq!(d.write(b"hello"), 5);
    assert_eq!(d.seek(SeekTarget::Current(-5)), 1124);
    let mut buf = [0u8; 5];
    assert_eq!(d.read(&mut buf), 5);
    assert_eq!(&buf, b"hello");
    assert_eq!(d.seek(SeekTarget::Start(1024 + 99)), 1123);
    let mut one = [0u8; 1];
    assert_eq!(d.read(&mut one), 1);
    assert_eq!(one[0], (2 * 7 + 99) as u8);
}

#[test]
fn writes_stop_at_the_sector_end() {
    let mut d = disk();
    d.seek(SeekTarget::Start(509));
    assert_eq!(d.write(b"abcdef"), 3);
    d.seek(SeekTarget::Start(509));
    let mut buf = [0u8; 6];
    assert_eq!(d.read(&mut buf), 3);
    assert_eq!(&buf[..3], b"abc");
}

#[test]
fn seeking_back_past_the_start_wraps() {
    let mut d = disk();
    d.seek(SeekTarget::Start(3));
    assert_eq!(d.seek(SeekTarget::Current(-4)), u64::MAX);
}

#[test]
fn seeking_from_a_position_beyond_the_signed_range() {
    let mut d = disk();
    d.seek(SeekTarget::Start(u64::MAX - 1));
    assert_eq!(d.seek(SeekTarget::Current(1)), u64::MAX);
    assert_eq!(d.seek(SeekTarget::Current(-2)), u64::MAX - 2);
    assert_eq!(d.position(), u64::MAX - 2);
}
