//! The byte stream the FAT volume is read and written through: a position
//! on a disk of 512-byte sectors, and reads, writes and seeks within the
//! sector under that position.
use vstd::prelude::*;

verus! {

/// Bytes per sector.
pub const SECTOR_SIZE: usize = 512;

/// What a sector holds, as proofs see it.
pub type SectorContents = Seq<u8>;

/// A disk of 512-byte sectors addressed by 32-bit sector numbers.
pub trait DiskBackend {
    /// What the sector `lba` holds.
    spec fn sector(&self, lba: u32) -> SectorContents;

    /// Reads sector `lba` into `buf`; the disk keeps its contents.
    fn read_sector(&mut self, lba: u32, buf: &mut [u8; 512])
        ensures
            final(buf)@ == old(self).sector(lba),
            forall|k: u32| #[trigger] final(self).sector(k) == old(self).sector(k),
    ;

    /// Writes `buf` to sector `lba`; the other sectors keep their contents.
    fn write_sector(&mut self, lba: u32, buf: &[u8; 512])
        ensures
            forall|k: u32| #[trigger] final(self).sector(k) == if k == lba { buf@ } else { old(self).sector(k) },
    ;
}

/// Where a seek moves to.
#[derive(Debug, Clone, Copy, PartialEq, Eq, Structural)]
pub enum SeekTarget {
    /// That many bytes from the start.
    Start(u64),
    /// That many bytes from the current position.
    Current(i64),
    /// That many bytes from the end (not supported: the disk's end is not known).
    End(i64),
}

/// A byte position on a sector disk.
pub struct Disk<B: DiskBackend> {
    backend: B,
    pos: u64,
}

/// The sector holding byte `pos` (sector numbers wrap at 32 bits).
pub open spec fn sector_of(pos: u64) -> u32 {
    ((pos / 512) % 0x1_0000_0000) as u32
}

/// How many bytes a read or write of `want` bytes at `pos` moves: up to the
/// end of the sector under `pos`.
pub open spec fn span(pos: u64, want: int) -> int {
    let room = 512 - (pos % 512) as int;
    if want < room { want } else { room }
}

impl<B: DiskBackend> Disk<B> {
    pub closed spec fn pos(&self) -> u64 {
        self.pos
    }

    pub closed spec fn backend(&self) -> B {
        self.backend
    }

    /// A stream at the start of `backend`.
    pub fn new(backend: B) -> (r: Disk<B>)
        ensures
            r.pos() == 0,
            r.backend() == backend,
    {
        Disk { backend, pos: 0 }
    }

    /// The current position.
    pub fn position(&self) -> (p: u64)
        ensures
            p == self.pos(),
    {
        self.pos
    }

    /// The sector number of the current position.
    fn current_sector(&self) -> (lba: u32)
        ensures
            lba == sector_of(self.pos),
    {
        let p = self.pos / 512;
        assert(p as u32 == (p % 0x1_0000_0000) as u32) by (bit_vector);
        p as u32
    }

    /// Reads from the sector under the position into `buf`, up to the
    /// sector's end, and moves past what was read; returns how many bytes.
    pub fn read(&mut self, buf: &mut [u8]) -> (n: usize)
        requires
            old(self).pos() + span(old(self).pos(), old(buf)@.len() as int) <= u64::MAX,
        ensures
            n == span(old(self).pos(), old(buf)@.len() as int),
            old(self).backend().sector(sector_of(old(self).pos())).len() == 512,
            final(buf)@ == old(self).backend().sector(sector_of(old(self).pos())).subrange(
                (old(self).pos() % 512) as int,
                (old(self).pos() % 512) + n,
            ) + old(buf)@.skip(n as int),
            final(self).pos() == old(self).pos() + n,
            forall|k: u32| #[trigger] final(self).backend().sector(k) == old(self).backend().sector(k),
    {
        let mut sector = [0u8; 512];
        let lba = self.current_sector();
        let offset = (self.pos % 512) as usize;
        self.backend.read_sector(lba, &mut sector);
        let len = if buf.len() < 512 - offset { buf.len() } else { 512 - offset };
        let mut i: usize = 0;
        while i < len
            invariant
                i <= len,
                len <= buf.len(),
                offset + len <= 512,
                sector@.len() == 512,
                buf@.len() == old(buf)@.len(),
                forall|k: int| 0 <= k < i ==> buf@[k] == sector@[offset + k],
                forall|k: int| i <= k < buf@.len() ==> buf@[k] == old(buf)@[k],
            decreases len - i,
        {
            buf[i] = sector[offset + i];
            i = i + 1;
        }
        assert(buf@ =~= sector@.subrange(offset as int, offset + len) + old(buf)@.skip(len as int));
        self.pos = self.pos + len as u64;
        len
    }

    /// Writes the start of `buf` into the sector under the position, up to
    /// the sector's end, and moves past what was written; returns how many
    /// bytes.
    pub fn write(&mut self, buf: &[u8]) -> (n: usize)
        requires
            old(self).pos() + span(old(self).pos(), buf@.len() as int) <= u64::MAX,
        ensures
            n == span(old(self).pos(), buf@.len() as int),
            final(self).pos() == old(self).pos() + n,
            ({
                let lba = sector_of(old(self).pos());
                let off = (old(self).pos() % 512) as int;
                let s = old(self).backend().sector(lba);
                forall|k: u32| #[trigger] final(self).backend().sector(k) == if k == lba {
                    s.take(off) + buf@.take(n as int) + s.skip(off + n)
                } else {
                    old(self).backend().sector(k)
                }
            }),
    {
        let mut sector = [0u8; 512];
        let lba = self.current_sector();
        let offset = (self.pos % 512) as usize;
        self.backend.read_sector(lba, &mut sector);
        let ghost s = sector@;
        let len = if buf.len() < 512 - offset { buf.len() } else { 512 - offset };
        let mut i: usize = 0;
        while i < len
            invariant
                i <= len,
                len <= buf.len(),
                offset + len <= 512,
                sector@.len() == 512,
                s.len() == 512,
                forall|k: int| 0 <= k < offset ==> sector@[k] == s[k],
                forall|k: int| 0 <= k < i ==> sector@[offset + k] == buf@[k],
                forall|k: int| offset + i <= k < 512 ==> sector@[k] == s[k],
            decreases len - i,
        {
            sector[offset + i] = buf[i];
            i = i + 1;
        }
        assert(sector@ =~= s.take(offset as int) + buf@.take(len as int) + s.skip(offset + len));
        self.backend.write_sector(lba, &sector);
        self.pos = self.pos + len as u64;
        len
    }

    /// Moves the position; returns the new position.
    pub fn seek(&mut self, target: SeekTarget) -> (p: u64)
        requires
            !(target is End),
            target matches SeekTarget::Current(n) ==> i64::MIN <= as_signed(old(self).pos()) + n <= i64::MAX,
        ensures
            p == final(self).pos(),
            final(self).backend() == old(self).backend(),
            match target {
                SeekTarget::Start(n) => p == n,
                SeekTarget::Current(n) => p == as_unsigned(as_signed(old(self).pos()) + n),
                SeekTarget::End(_) => true,
            },
    {
        match target {
            SeekTarget::Start(n) => {
                self.pos = n;
            },
            SeekTarget::Current(n) => {
                let pos = self.pos;
                let here = #[verifier::truncate] (pos as i64);
                assert(pos <= i64::MAX ==> pos as i64 == pos) by (bit_vector);
                assert(pos > i64::MAX ==> pos as i64 == pos - 0x1_0000_0000_0000_0000) by (bit_vector);
                let moved: i64 = here + n;
                assert(moved >= 0 ==> moved as u64 == moved);
                assert(moved < 0 ==> moved as u64 == moved + 0x1_0000_0000_0000_0000) by (bit_vector);
                self.pos = #[verifier::truncate] (moved as u64);
            },
            SeekTarget::End(_) => {},
        }
        self.pos
    }
}

/// A 64-bit position read as a signed number (two's complement).
pub open spec fn as_signed(x: u64) -> int {
    if x <= i64::MAX { x as int } else { x - 0x1_0000_0000_0000_0000 }
}

/// A signed 64-bit number read as an unsigned one (two's complement).
pub open spec fn as_unsigned(x: int) -> int {
    if x >= 0 { x } else { x + 0x1_0000_0000_0000_0000 }
}

/// Reading a sector just written, at the offset it was written to, gives
/// back the bytes written.
pub proof fn law_read_after_write(s: Seq<u8>, off: int, data: Seq<u8>, n: int)
    requires
        s.len() == 512,
        0 <= off,
        0 <= n <= data.len(),
        off + n <= 512,
    ensures
        (s.take(off) + data.take(n) + s.skip(off + n)).subrange(off, off + n) == data.take(n),
        (s.take(off) + data.take(n) + s.skip(off + n)).len() == 512,
{
    assert((s.take(off) + data.take(n) + s.skip(off + n)).subrange(off, off + n) =~= data.take(n));
}

} // verus!
