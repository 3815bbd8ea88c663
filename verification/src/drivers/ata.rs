//! The ATA (IDE) disk driver's arithmetic: where a drive's registers are,
//! what to write into them to address a sector, how to read the status
//! register, and how sector bytes travel as 16-bit words.
use vstd::prelude::*;

verus! {

/// An ATA bus.
#[derive(Debug, Clone, Copy, PartialEq, Eq, Structural)]
pub enum AtaBus {
    Primary,
    Secondary,
}

/// A drive on an ATA bus.
#[derive(Debug, Clone, Copy, PartialEq, Eq, Structural)]
pub enum AtaUnit {
    Master,
    Slave,
}

/// Command: read sectors.
pub const CMD_READ_SECTORS: u8 = 0x20;
/// Command: write sectors.
pub const CMD_WRITE_SECTORS: u8 = 0x30;
/// Command: flush the drive's cache.
pub const CMD_CACHE_FLUSH: u8 = 0xE7;
/// Status bit: the drive is busy.
pub const STATUS_BSY: u8 = 0x80;
/// Status bit: the drive reports an error.
pub const STATUS_ERR: u8 = 0x01;
/// Status bit: the drive has data to transfer, or wants it.
pub const STATUS_DRQ: u8 = 0x08;

/// An ATA drive, by the I/O port numbers of its registers and the value
/// that selects it on its bus.
#[derive(Debug, Clone, Copy)]
pub struct AtaDrive {
    pub data: u16,
    pub status: u16,
    pub alt_status: u16,
    pub command: u16,
    pub drive: u16,
    pub sector_count: u16,
    pub lba_lo: u16,
    pub lba_mid: u16,
    pub lba_hi: u16,
    pub drive_select: u8,
}

/// The first I/O port of a bus.
pub open spec fn bus_base(bus: AtaBus) -> u16 {
    match bus {
        AtaBus::Primary => 0x1F0,
        AtaBus::Secondary => 0x170,
    }
}

/// The control (alternate status) port of a bus.
pub open spec fn bus_alt(bus: AtaBus) -> u16 {
    match bus {
        AtaBus::Primary => 0x3F6,
        AtaBus::Secondary => 0x376,
    }
}

/// The drive-select value of a unit (LBA addressing on).
pub open spec fn unit_select(unit: AtaUnit) -> u8 {
    match unit {
        AtaUnit::Master => 0xE0,
        AtaUnit::Slave => 0xF0,
    }
}

/// The locations probed for a FAT volume, in order: the primary bus's
/// master and slave, then the secondary bus's.
pub open spec fn scan_order() -> Seq<(AtaBus, AtaUnit)> {
    seq![
        (AtaBus::Primary, AtaUnit::Master),
        (AtaBus::Primary, AtaUnit::Slave),
        (AtaBus::Secondary, AtaUnit::Master),
        (AtaBus::Secondary, AtaUnit::Slave),
    ]
}

/// What the scan for a FAT volume does next.
#[derive(Debug, Clone, Copy, PartialEq, Eq, Structural)]
pub enum ScanStep {
    /// Probe the drive at this location: does it answer, and does its
    /// first sector hold a FAT volume?
    Probe(AtaBus, AtaUnit),
    /// Use the drive at this location.
    Found(AtaBus, AtaUnit),
    /// No location holds a FAT volume.
    NoVolume,
}

/// One step of the scan: `probed` locations (in [`scan_order`]) have been
/// probed, and `last_qualified` says whether the last of them answered
/// and holds a FAT volume. The scan stops at the first location that
/// qualifies, and gives up after the last.
pub fn scan_step(probed: usize, last_qualified: bool) -> (r: ScanStep)
    requires
        probed <= 4,
    ensures
        probed > 0 && last_qualified ==> r == ScanStep::Found(scan_order()[probed - 1].0, scan_order()[probed - 1].1),
        !(probed > 0 && last_qualified) && probed < 4 ==> r == ScanStep::Probe(scan_order()[probed as int].0, scan_order()[probed as int].1),
        !(probed > 0 && last_qualified) && probed == 4 ==> r == ScanStep::NoVolume,
{
    let order = AtaDrive::scan_locations();
    if probed > 0 && last_qualified {
        let (bus, unit) = order[probed - 1];
        ScanStep::Found(bus, unit)
    } else if probed < 4 {
        let (bus, unit) = order[probed];
        ScanStep::Probe(bus, unit)
    } else {
        ScanStep::NoVolume
    }
}

/// What the status register says about a command in progress.
#[derive(Debug, Clone, Copy, PartialEq, Eq, Structural)]
pub enum ReadyState {
    /// The drive is busy: read the status again.
    Busy,
    /// The drive reports an error.
    Failed,
    /// The drive is ready to transfer.
    Ready,
    /// Neither busy nor ready yet: read the status again.
    Pending,
}

impl AtaDrive {
    /// The drive at a location, with its bus's standard ports.
    pub fn new_with(bus: AtaBus, unit: AtaUnit) -> (r: AtaDrive)
        ensures
            r.data == bus_base(bus),
            r.status == bus_base(bus) + 7,
            r.alt_status == bus_alt(bus),
            r.command == bus_base(bus) + 7,
            r.drive == bus_base(bus) + 6,
            r.sector_count == bus_base(bus) + 2,
            r.lba_lo == bus_base(bus) + 3,
            r.lba_mid == bus_base(bus) + 4,
            r.lba_hi == bus_base(bus) + 5,
            r.drive_select == unit_select(unit),
    {
        let base: u16 = match bus {
            AtaBus::Primary => 0x1F0,
            AtaBus::Secondary => 0x170,
        };
        let alt: u16 = match bus {
            AtaBus::Primary => 0x3F6,
            AtaBus::Secondary => 0x376,
        };
        let drive_select: u8 = match unit {
            AtaUnit::Master => 0xE0,
            AtaUnit::Slave => 0xF0,
        };
        AtaDrive {
            data: base,
            status: base + 7,
            alt_status: alt,
            command: base + 7,
            drive: base + 6,
            sector_count: base + 2,
            lba_lo: base + 3,
            lba_mid: base + 4,
            lba_hi: base + 5,
            drive_select,
        }
    }

    /// The locations probed for a FAT volume, in order.
    pub fn scan_locations() -> (r: Vec<(AtaBus, AtaUnit)>)
        ensures
            r@ == scan_order(),
    {
        let mut r: Vec<(AtaBus, AtaUnit)> = Vec::new();
        r.push((AtaBus::Primary, AtaUnit::Master));
        r.push((AtaBus::Primary, AtaUnit::Slave));
        r.push((AtaBus::Secondary, AtaUnit::Master));
        r.push((AtaBus::Secondary, AtaUnit::Slave));
        assert(r@ =~= scan_order());
        r
    }

    /// The drive/head register value addressing `lba`: the drive select
    /// with the top four bits of the 28-bit address.
    pub fn head_select(&self, lba: u32) -> (r: u8)
        ensures
            r == self.drive_select | (((lba >> 24u32) & 0x0F) as u8),
    {
        let top: u8 = ((lba >> 24u32) as u8) & 0x0F;
        assert(((lba >> 24u32) as u8) & 0x0F == ((lba >> 24u32) & 0x0F) as u8) by (bit_vector);
        self.drive_select | top
    }
}

/// The low, middle and high address registers for `lba`.
pub fn lba_bytes(lba: u32) -> (r: (u8, u8, u8))
    ensures
        r.0 == lba % 256,
        r.1 == (lba / 256) % 256,
        r.2 == (lba / 65536) % 256,
{
    let lo = lba as u8;
    let mid = (lba >> 8u32) as u8;
    let hi = (lba >> 16u32) as u8;
    assert(lba as u8 == lba % 256) by (bit_vector);
    assert((lba >> 8u32) as u8 == (lba / 256) % 256) by (bit_vector);
    assert((lba >> 16u32) as u8 == (lba / 65536) % 256) by (bit_vector);
    (lo, mid, hi)
}

/// Whether a status read after selecting a drive shows a drive there.
pub fn drive_present(status: u8) -> (r: bool)
    ensures
        r == (status != 0xFF && status != 0),
{
    status != 0xFF && status != 0
}

/// Whether the drive is busy.
pub fn is_busy(status: u8) -> (r: bool)
    ensures
        r == (status & STATUS_BSY != 0),
{
    status & STATUS_BSY != 0
}

/// Reads the status register while a command runs: busy first, then
/// error, then ready to transfer.
pub fn ready_state(status: u8) -> (r: ReadyState)
    ensures
        r == if status & STATUS_BSY != 0 {
            ReadyState::Busy
        } else if status & STATUS_ERR != 0 {
            ReadyState::Failed
        } else if status & STATUS_DRQ != 0 {
            ReadyState::Ready
        } else {
            ReadyState::Pending
        },
{
    if status & STATUS_BSY != 0 {
        ReadyState::Busy
    } else if status & STATUS_ERR != 0 {
        ReadyState::Failed
    } else if status & STATUS_DRQ != 0 {
        ReadyState::Ready
    } else {
        ReadyState::Pending
    }
}

/// Whether a boot sector is that of a FAT32 volume with 512-byte sectors:
/// the boot signature `55 AA`, 512 bytes per sector, and an extended boot
/// signature (`28` or `29`) at offset 66.
pub fn is_fat_boot_sector(buf: &[u8; 512]) -> (r: bool)
    ensures
        r == (buf@[510] == 0x55 && buf@[511] == 0xAA
            && buf@[11] as int + 256 * buf@[12] as int == 512
            && (buf@[66] == 0x28 || buf@[66] == 0x29)),
{
    if buf[510] != 0x55 || buf[511] != 0xAA {
        return false;
    }
    let bytes_per_sector: u16 = (buf[11] as u16) | ((buf[12] as u16) << 8u16);
    let lo = buf[11];
    let hi = buf[12];
    assert((lo as u16) | ((hi as u16) << 8u16) == lo as u16 + 256 * (hi as u16)) by (bit_vector);
    if bytes_per_sector != 512 {
        return false;
    }
    if buf[66] != 0x28 && buf[66] != 0x29 {
        return false;
    }
    true
}

/// The `i`-th 16-bit word of a sector, as the data register takes it
/// (low byte first).
pub fn sector_word(buf: &[u8; 512], i: usize) -> (w: u16)
    requires
        i < 256,
    ensures
        w == buf@[2 * i as int] as int + 256 * buf@[2 * i + 1] as int,
{
    let lo = buf[i * 2];
    let hi = buf[i * 2 + 1];
    assert((lo as u16) | ((hi as u16) << 8u16) == lo as u16 + 256 * (hi as u16)) by (bit_vector);
    (lo as u16) | ((hi as u16) << 8u16)
}

/// Stores a 16-bit word read from the data register as the sector's
/// `i`-th pair of bytes (low byte first).
pub fn store_word(buf: &mut [u8; 512], i: usize, w: u16)
    requires
        i < 256,
    ensures
        final(buf)@ == old(buf)@.update(2 * i as int, (w % 256) as u8).update(2 * i + 1, (w / 256) as u8),
{
    assert(w as u8 == w % 256) by (bit_vector);
    assert((w >> 8u16) as u8 == w / 256) by (bit_vector);
    buf[i * 2] = w as u8;
    buf[i * 2 + 1] = (w >> 8u16) as u8;
}

/// A word stored into a sector reads back as that word, and storing the
/// word a sector holds changes nothing: bytes and words convert both ways
/// without loss.
pub proof fn law_word_round_trip(b: Seq<u8>, i: int, w: u16)
    requires
        b.len() == 512,
        0 <= i < 256,
    ensures
        ({
            let b2 = b.update(2 * i, (w % 256) as u8).update(2 * i + 1, (w / 256) as u8);
            b2[2 * i] as int + 256 * b2[2 * i + 1] as int == w
        }),
        ({
            let v = b[2 * i] as int + 256 * b[2 * i + 1] as int;
            b.update(2 * i, (v % 256) as u8).update(2 * i + 1, (v / 256) as u8) == b
        }),
{
    let b2 = b.update(2 * i, (w % 256) as u8).update(2 * i + 1, (w / 256) as u8);
    assert(b2[2 * i] == (w % 256) as u8);
    assert(b2[2 * i + 1] == (w / 256) as u8);
    let lo = b[2 * i];
    let hi = b[2 * i + 1];
    let v = lo as int + 256 * hi as int;
    assert(v % 256 == lo as int && v / 256 == hi as int);
    assert(b.update(2 * i, (v % 256) as u8).update(2 * i + 1, (v / 256) as u8) =~= b);
}

/// The address registers and the low nibble of the drive/head register
/// together hold a 28-bit sector number exactly.
pub proof fn law_address_encodes_lba(select: u8, lba: u32)
    requires
        lba < 0x1000_0000,
        select & 0x0F == 0,
    ensures
        lba % 256 + 256 * ((lba / 256) % 256) + 65536 * ((lba / 65536) % 256)
            + 16777216 * ((select | (((lba >> 24u32) & 0x0F) as u8)) & 0x0F) == lba,
        (select | (((lba >> 24u32) & 0x0F) as u8)) & 0xF0 == select & 0xF0,
{
    assert(lba % 256 + 256 * ((lba / 256) % 256) + 65536 * ((lba / 65536) % 256)
        + 16777216 * ((select | (((lba >> 24u32) & 0x0F) as u8)) & 0x0F) == lba) by (bit_vector)
        requires lba < 0x1000_0000u32, select & 0x0F == 0;
    assert((select | (((lba >> 24u32) & 0x0F) as u8)) & 0xF0 == select & 0xF0) by (bit_vector);
}

} // verus!
