//! Open files of the running program, by descriptor number.
use vstd::prelude::*;
use std::collections::BTreeMap;

verus! {

broadcast use vstd::std_specs::btree::group_btree_axioms;

/// The first descriptor handed out: 0, 1 and 2 are standard input, output
/// and error.
pub const FIRST_FD: u64 = 3;

/// An open file: its whole contents, how far it has been read, whether it
/// is a directory, and the path it was opened by.
pub struct FileDescriptor {
    pub data: Vec<u8>,
    pub offset: usize,
    pub is_dir: bool,
    pub path: String,
}

/// The table of open files.
pub struct FdTable {
    table: BTreeMap<u64, FileDescriptor>,
}

/// Every open file's offset lies within its data.
pub open spec fn offsets_within(m: Map<u64, FileDescriptor>) -> bool {
    forall|k: u64| #[trigger] m.contains_key(k) ==> m[k].offset <= m[k].data@.len()
}

impl FdTable {
    #[verifier::type_invariant]
    spec fn readable(self) -> bool {
        offsets_within(self.table@)
    }
}

impl View for FdTable {
    type V = Map<u64, FileDescriptor>;

    closed spec fn view(&self) -> Map<u64, FileDescriptor> {
        self.table@
    }
}

/// A finite set of numbers holding all of `lo..hi` has at least `hi - lo` members.
proof fn lemma_range_in_set(s: Set<u64>, lo: int, hi: int)
    requires
        s.finite(),
        0 <= lo <= hi,
        hi <= u64::MAX + 1,
        forall|k: u64| lo <= k < hi ==> s.contains(k),
    ensures
        s.len() >= hi - lo,
    decreases hi - lo,
{
    if lo < hi {
        let top = (hi - 1) as u64;
        assert(s.contains(top));
        let s2 = s.remove(top);
        assert forall|k: u64| lo <= k < hi - 1 implies s2.contains(k) by {
            assert(s.contains(k));
        }
        lemma_range_in_set(s2, lo, hi - 1);
    }
}

impl FdTable {
    /// A table with no open files.
    pub fn new() -> (r: FdTable)
        ensures
            r@ == Map::<u64, FileDescriptor>::empty(),
    {
        FdTable { table: BTreeMap::new() }
    }

    /// How many files are open.
    pub fn len(&self) -> (r: usize)
        ensures
            r == self@.len(),
    {
        self.table.len()
    }

    /// Whether `fd` is open.
    pub fn contains(&self, fd: u64) -> (r: bool)
        ensures
            r == self@.contains_key(fd),
    {
        self.table.contains_key(&fd)
    }

    /// The open file behind `fd`.
    pub fn get(&self, fd: u64) -> (r: Option<&FileDescriptor>)
        ensures
            match r {
                Some(f) => self@.contains_key(fd) && self@[fd] == *f,
                None => !self@.contains_key(fd),
            },
    {
        self.table.get(&fd)
    }
}

/// Registers an open file under the lowest free descriptor from 3 up, and
/// returns that descriptor. The file's offset must lie within its data:
/// reading a file whose offset lies past its end would compute a negative
/// number of bytes left, so the table holds no such file.
pub fn alloc_fd(table: &mut FdTable, fd: FileDescriptor) -> (id: u64)
    requires
        old(table)@.len() < u64::MAX - FIRST_FD,
        fd.offset <= fd.data@.len(),
    ensures
        id >= FIRST_FD,
        !old(table)@.contains_key(id),
        forall|k: u64| FIRST_FD <= k < id ==> old(table)@.contains_key(k),
        final(table)@ == old(table)@.insert(id, fd),
{
    proof { use_type_invariant(&*table); }
    let mut id: u64 = FIRST_FD;
    while table.table.contains_key(&id)
        invariant
            FIRST_FD <= id,
            table@.len() < u64::MAX - FIRST_FD,
            forall|k: u64| FIRST_FD <= k < id ==> table@.contains_key(k),
        decreases u64::MAX - id,
    {
        proof {
            assert forall|k: u64| FIRST_FD <= k < id + 1 implies table@.dom().contains(k) by {
                if k < id {
                    assert(table@.contains_key(k));
                }
            }
            lemma_range_in_set(table@.dom(), FIRST_FD as int, id + 1);
        }
        id = id + 1;
    }
    let mut m: BTreeMap<u64, FileDescriptor> = BTreeMap::new();
    std::mem::swap(&mut m, &mut table.table);
    m.insert(id, fd);
    table.table = m;
    id
}

/// Forgets the open file behind `fd`, if any.
pub fn free_fd(table: &mut FdTable, fd: u64)
    ensures
        final(table)@ == old(table)@.remove(fd),
{
    proof { use_type_invariant(&*table); }
    let mut m: BTreeMap<u64, FileDescriptor> = BTreeMap::new();
    std::mem::swap(&mut m, &mut table.table);
    m.remove(&fd);
    table.table = m;
}

/// What reading up to `want` bytes from an open file yields: the bytes
/// from its offset on, as many as are wanted and left.
pub open spec fn read_span(f: FileDescriptor, want: int) -> int {
    let left = f.data@.len() - f.offset;
    if want < left { want } else { left }
}

/// Reads from the open file behind `fd` into `buf`, as many bytes as fit
/// and are left, and moves its offset past them. Returns how many bytes
/// were read, or -1 when `fd` is not open.
pub fn read(table: &mut FdTable, fd: u64, buf: &mut [u8]) -> (r: isize)
    requires
        old(buf)@.len() <= isize::MAX,
    ensures
        offsets_within(old(table)@),
        offsets_within(final(table)@),
        !old(table)@.contains_key(fd) ==> r == -1 && final(table)@ == old(table)@ && final(buf)@ == old(buf)@,
        old(table)@.contains_key(fd) ==> {
            let f = old(table)@[fd];
            let n = read_span(f, old(buf)@.len() as int);
            &&& r == n
            &&& final(buf)@ == f.data@.subrange(f.offset as int, f.offset + n) + old(buf)@.skip(n)
            &&& final(table)@ == old(table)@.insert(fd, FileDescriptor { offset: (f.offset + n) as usize, ..f })
        },
{
    proof { use_type_invariant(&*table); }
    let mut m: BTreeMap<u64, FileDescriptor> = BTreeMap::new();
    std::mem::swap(&mut m, &mut table.table);
    let r = match m.remove(&fd) {
        None => -1,
        Some(file) => {
            let mut file = file;
            let remaining = file.data.len() - file.offset;
            let len = if buf.len() < remaining { buf.len() } else { remaining };
            let mut i: usize = 0;
            while i < len
                invariant
                    i <= len,
                    len <= buf.len(),
                    file.offset + len <= file.data.len(),
                    buf@.len() == old(buf)@.len(),
                    forall|k: int| 0 <= k < i ==> buf@[k] == file.data@[file.offset + k],
                    forall|k: int| i <= k < buf@.len() ==> buf@[k] == old(buf)@[k],
                decreases len - i,
            {
                buf[i] = file.data[file.offset + i];
                i = i + 1;
            }
            let ghost f = file;
            assert(buf@ =~= f.data@.subrange(f.offset as int, f.offset + len) + old(buf)@.skip(len as int));
            file.offset = file.offset + len;
            m.insert(fd, file);
            len as isize
        },
    };
    table.table = m;
    r
}

/// Closes `fd`: 0 when it was open, -1 when it was not.
pub fn close(table: &mut FdTable, fd: u64) -> (r: isize)
    ensures
        r == if old(table)@.contains_key(fd) { 0isize } else { -1isize },
        final(table)@ == old(table)@.remove(fd),
{
    proof { use_type_invariant(&*table); }
    let mut m: BTreeMap<u64, FileDescriptor> = BTreeMap::new();
    std::mem::swap(&mut m, &mut table.table);
    let r = match m.remove(&fd) {
        Some(_) => 0,
        None => -1,
    };
    table.table = m;
    r
}

/// What looking a path up on the volume found.
pub enum VolumeEntry {
    File(Vec<u8>),
    Directory,
    Missing,
}

/// `new` is `old` with `path` opened under `id`, the lowest free
/// descriptor from 3 up, given what the volume holds there: a file with
/// its contents, a directory with none, read from the start.
pub open spec fn opened_as(
    old: Map<u64, FileDescriptor>,
    new: Map<u64, FileDescriptor>,
    id: u64,
    path: Seq<char>,
    found: VolumeEntry,
) -> bool {
    &&& id >= FIRST_FD
    &&& !old.contains_key(id)
    &&& forall|k: u64| FIRST_FD <= k < id ==> old.contains_key(k)
    &&& new.dom() == old.dom().insert(id)
    &&& forall|k: u64| k != id && old.contains_key(k) ==> new[k] == old[k]
    &&& new[id].data@ == (match found {
        VolumeEntry::File(d) => d@,
        _ => Seq::<u8>::empty(),
    })
    &&& new[id].offset == 0
    &&& new[id].is_dir == (found is Directory)
    &&& new[id].path@ == path
}

/// Opens `path`, given what the volume holds there: a file is opened with
/// its contents, a directory with none; the new descriptor is returned, or
/// nothing when the path names nothing.
pub fn open(table: &mut FdTable, path: &str, found: VolumeEntry) -> (r: Option<u64>)
    requires
        old(table)@.len() < u64::MAX - FIRST_FD,
    ensures
        (found is Missing) ==> r is None && final(table)@ == old(table)@,
        !(found is Missing) ==> (r matches Some(id) && opened_as(old(table)@, final(table)@, id, path@, found)),
{
    let (data, is_dir) = match found {
        VolumeEntry::File(d) => (d, false),
        VolumeEntry::Directory => {
            let v: Vec<u8> = Vec::new();
            assert(v@ =~= Seq::<u8>::empty());
            (v, true)
        },
        VolumeEntry::Missing => {
            return None;
        },
    };
    let id = alloc_fd(table, FileDescriptor { data, offset: 0, is_dir, path: crate::text::owned(path) });
    Some(id)
}

/// Freeing the lowest descriptor in use and then allocating hands the same
/// descriptor out again: the descriptor `alloc_fd` returns on the table
/// without `fd` (as its contract describes it) is `fd`.
pub proof fn law_free_then_alloc_reuses(m: Map<u64, FileDescriptor>, fd: u64, id: u64)
    requires
        m.contains_key(fd),
        fd >= FIRST_FD,
        forall|k: u64| FIRST_FD <= k < fd ==> m.contains_key(k),
        id >= FIRST_FD,
        !m.remove(fd).contains_key(id),
        forall|k: u64| FIRST_FD <= k < id ==> m.remove(fd).contains_key(k),
    ensures
        id == fd,
{
    if id < fd {
        assert(m.contains_key(id));
    } else if id > fd {
        assert(m.remove(fd).contains_key(fd));
    }
}

/// A file read to its end yields nothing more: with the offset at the end
/// of the data, a read moves no bytes.
pub proof fn law_read_at_end(f: FileDescriptor, want: int)
    requires
        f.offset == f.data@.len(),
        want >= 0,
    ensures
        read_span(f, want) == 0,
{
}

/// Closing a descriptor frees it: a second `close` of it fails and leaves
/// the table as the first left it (as `close`'s contract describes both).
pub proof fn law_close_twice(m: Map<u64, FileDescriptor>, fd: u64)
    ensures
        !m.remove(fd).contains_key(fd),
        m.remove(fd).remove(fd) == m.remove(fd),
{
    assert(m.remove(fd).remove(fd) =~= m.remove(fd));
}

} // verus!
