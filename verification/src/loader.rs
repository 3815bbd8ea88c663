//! Loading a program: which parts of an ELF file go where in memory, and
//! how the arguments are laid out on the new program's stack.
use vstd::prelude::*;

verus! {

/// The kind of a program segment, as far as loading cares.
#[derive(Debug, Clone, Copy, PartialEq, Eq, Structural)]
pub enum SegmentKind {
    /// A segment to load into memory.
    Load,
    /// Any other valid segment type.
    Other,
    /// A type number the ELF format does not define.
    Invalid,
}

/// One program header of an ELF file.
#[derive(Debug, Clone, Copy, PartialEq, Eq, Structural)]
pub struct ProgramSegment {
    pub kind: SegmentKind,
    pub vaddr: u64,
    pub offset: u64,
    pub file_size: u64,
    pub mem_size: u64,
}

/// What an ELF file says of itself: its entry point and program headers.
pub struct ElfImage {
    pub entry: u64,
    pub segments: Vec<ProgramSegment>,
}

/// What xmas-elf's parser reports of a byte string: `None` when it is not
/// an ELF file, else the entry point and the program headers in order.
pub uninterp spec fn elf_image(data: Seq<u8>) -> Option<(u64, Seq<ProgramSegment>)>;

/// The unsigned little-endian number in `d[at..at + k]`.
pub open spec fn le_num(d: Seq<u8>, at: int, k: nat) -> nat
    decreases k,
{
    if k == 0 {
        0
    } else {
        d[at] as nat + 256 * le_num(d, at + 1, (k - 1) as nat)
    }
}

/// The ELF magic number.
pub open spec fn has_elf_magic(d: Seq<u8>) -> bool {
    d.len() >= 16 && d[0] == 0x7f && d[1] == 0x45 && d[2] == 0x4c && d[3] == 0x46
}

/// The program header table that xmas-elf would read lies within the file,
/// its entries are large enough for the header type, and each entry starts
/// at a multiple of the header's alignment (8 bytes for 64-bit files, 4 for
/// 32-bit ones; with one entry only the table's offset matters): the parser slices the input at each entry and panics when
/// the slice is too short or misaligned. Files it refuses before that (too
/// short, no magic, an unknown class) and files without a table (no
/// entries, a zero offset or entry size) need nothing.
pub open spec fn ph_table_fits(d: Seq<u8>) -> bool {
    if !has_elf_magic(d) {
        true
    } else if d[4] == 1 && d.len() >= 52 {
        let off = le_num(d, 28, 4);
        let size = le_num(d, 42, 2);
        let count = le_num(d, 44, 2);
        count == 0 || off == 0 || size == 0 || (size >= 32 && off % 4 == 0 && (count == 1 || size % 4 == 0)
            && off + count * size <= d.len())
    } else if d[4] == 2 && d.len() >= 64 {
        let off = le_num(d, 32, 8);
        let size = le_num(d, 54, 2);
        let count = le_num(d, 56, 2);
        count == 0 || off == 0 || size == 0 || (size >= 56 && off % 8 == 0 && (count == 1 || size % 8 == 0)
            && off + count * size <= d.len())
    } else {
        true
    }
}

/// xmas-elf accepts the file's header: it has the ELF magic, its class
/// byte says 32-bit (1) or 64-bit (2), and it is long enough for that
/// class's header (52 or 64 bytes).
pub open spec fn elf_header_ok(d: Seq<u8>) -> bool {
    has_elf_magic(d) && ((d[4] == 1 && d.len() >= 52) || (d[4] == 2 && d.len() >= 64))
}

/// `256^k`.
pub open spec fn byte_cap(k: nat) -> nat
    decreases k,
{
    if k == 0 {
        1
    } else {
        256 * byte_cap((k - 1) as nat)
    }
}

proof fn lemma_le_num_bound(d: Seq<u8>, at: int, k: nat)
    requires
        0 <= at,
        at + k <= d.len(),
    ensures
        le_num(d, at, k) < byte_cap(k),
    decreases k,
{
    if k > 0 {
        lemma_le_num_bound(d, at + 1, (k - 1) as nat);
    }
}

/// Reads a little-endian number of `k` bytes.
fn read_le(d: &[u8], at: usize, k: usize) -> (r: u64)
    requires
        k <= 8,
        at + k <= d.len(),
    ensures
        r == le_num(d@, at as int, k as nat),
    decreases k,
{
    if k == 0 {
        0
    } else {
        let rest = read_le(d, at + 1, k - 1);
        proof {
            lemma_le_num_bound(d@, at + 1, (k - 1) as nat);
            reveal_with_fuel(byte_cap, 8);
            assert(byte_cap(7) == 0x100_0000_0000_0000);
            if k - 1 < 7 {
                lemma_cap_mono((k - 1) as nat, 7);
            }
        }
        d[at] as u64 + 256 * rest
    }
}

proof fn lemma_cap_mono(a: nat, b: nat)
    requires
        a <= b,
    ensures
        byte_cap(a) <= byte_cap(b),
    decreases b,
{
    if a < b {
        lemma_cap_mono(a, (b - 1) as nat);
    }
}

/// Whether the program header table lies within the file (see
/// [`ph_table_fits`]).
pub fn check_ph_table(d: &[u8]) -> (r: bool)
    ensures
        r == ph_table_fits(d@),
{
    if !(d.len() >= 16 && d[0] == 0x7f && d[1] == 0x45 && d[2] == 0x4c && d[3] == 0x46) {
        return true;
    }
    if d[4] == 1 && d.len() >= 52 {
        let off = read_le(d, 28, 4);
        let size = read_le(d, 42, 2);
        let count = read_le(d, 44, 2);
        if count == 0 || off == 0 || size == 0 {
            return true;
        }
        proof { lemma_le_num_bound(d@, 42, 2); lemma_le_num_bound(d@, 44, 2); reveal_with_fuel(byte_cap, 3); }
        assert(count * size <= 0xFFFF * 0xFFFF) by (nonlinear_arith)
            requires count <= 0xFFFF, size <= 0xFFFF;
        proof { lemma_le_num_bound(d@, 28, 4); reveal_with_fuel(byte_cap, 5); }
        return size >= 32 && off % 4 == 0 && (count == 1 || size % 4 == 0) && off + count * size <= d.len() as u64;
    }
    if d[4] == 2 && d.len() >= 64 {
        let off = read_le(d, 32, 8);
        let size = read_le(d, 54, 2);
        let count = read_le(d, 56, 2);
        if count == 0 || off == 0 || size == 0 {
            return true;
        }
        proof { lemma_le_num_bound(d@, 54, 2); lemma_le_num_bound(d@, 56, 2); reveal_with_fuel(byte_cap, 3); }
        assert(count * size <= 0xFFFF * 0xFFFF) by (nonlinear_arith)
            requires count <= 0xFFFF, size <= 0xFFFF;
        if off > d.len() as u64 {
            return false;
        }
        return size >= 56 && off % 8 == 0 && (count == 1 || size % 8 == 0) && count * size <= d.len() as u64 - off;
    }
    true
}

/// Parses `data` with xmas-elf (`ElfFile::new`, then each header of
/// `program_iter` with `get_type` and its address and size getters, and
/// the header's `entry_point`). `ElfFile::new` refuses every file whose
/// header it does not accept (see [`elf_header_ok`]); what it reports of
/// the others is named `elf_image`.
///
/// The parser slices its input at each program header, so the table must
/// lie within the file with its entries aligned (see [`ph_table_fits`]).
/// It also asserts that the input starts at an address aligned for its
/// header types (8 bytes for 64-bit files, 4 for 32-bit ones) and panics
/// otherwise; a slice that does not start at a multiple of 8 is therefore
/// not handed to it and gives `None`. Where a slice lies in memory depends
/// on the machine and is not stated, so for an accepted header `None` may
/// still come back.
#[verifier::external_body]
fn read_elf(data: &[u8]) -> (r: Option<ElfImage>)
    requires
        ph_table_fits(data@),
    ensures
        r is Some ==> elf_header_ok(data@),
        !elf_header_ok(data@) ==> r is None,
        r matches Some(img) ==> elf_image(data@) == Some((img.entry, img.segments@)),
{
    if !data.as_ptr().cast::<u64>().is_aligned() {
        return None;
    }
    let elf = xmas_elf::ElfFile::new(data).ok()?;
    let segments = elf.program_iter().map(|ph| ProgramSegment {
        kind: match ph.get_type() {
            Ok(xmas_elf::program::Type::Load) => SegmentKind::Load,
            Ok(_) => SegmentKind::Other,
            Err(_) => SegmentKind::Invalid,
        },
        vaddr: ph.virtual_addr(), offset: ph.offset(), file_size: ph.file_size(), mem_size: ph.mem_size(),
    }).collect();
    Some(ElfImage { entry: elf.header.pt2.entry_point(), segments })
}

/// Page size.
pub const PAGE_SIZE: u64 = 4096;

/// The start of the page holding `addr`.
pub open spec fn page_of(addr: int) -> int {
    addr - addr % 4096
}

/// A segment can be loaded: its type is valid, and if it is to be loaded,
/// its bytes lie within the file, they fit in its memory size, and its
/// memory range is non-empty or starts above zero and ends within the
/// address space.
pub open spec fn segment_ok(s: ProgramSegment, file_len: int) -> bool {
    &&& s.kind != SegmentKind::Invalid
    &&& s.kind == SegmentKind::Load ==> {
        &&& s.offset + s.file_size <= file_len
        &&& s.file_size <= s.mem_size
        &&& 1 <= s.vaddr + s.mem_size <= u64::MAX + 1
    }
}

pub open spec fn loadable(segs: Seq<ProgramSegment>, file_len: int) -> bool {
    forall|i: int| 0 <= i < segs.len() ==> segment_ok(#[trigger] segs[i], file_len)
}

/// Loading one segment: map the pages from `first_page` to `last_page`
/// (inclusive), copy `file_size` bytes from `offset` in the file to
/// `vaddr`, and zero the rest up to `mem_size`.
#[derive(Debug, Clone, Copy, PartialEq, Eq, Structural)]
pub struct LoadStep {
    pub vaddr: u64,
    pub mem_size: u64,
    pub offset: u64,
    pub file_size: u64,
    pub first_page: u64,
    pub last_page: u64,
}

/// The step that loads a segment.
pub open spec fn step_for(s: ProgramSegment) -> LoadStep {
    LoadStep {
        vaddr: s.vaddr,
        mem_size: s.mem_size,
        offset: s.offset,
        file_size: s.file_size,
        first_page: page_of(s.vaddr as int) as u64,
        last_page: page_of(s.vaddr + s.mem_size - 1) as u64,
    }
}

pub open spec fn is_load(s: ProgramSegment) -> bool {
    s.kind == SegmentKind::Load
}

/// The steps loading the segments that are to be loaded, in order.
pub open spec fn load_steps(segs: Seq<ProgramSegment>) -> Seq<LoadStep>
    decreases segs.len(),
{
    if segs.len() == 0 {
        Seq::empty()
    } else {
        let rest = load_steps(segs.drop_last());
        if is_load(segs.last()) {
            rest.push(step_for(segs.last()))
        } else {
            rest
        }
    }
}

/// Where a program is loaded and where it starts.
pub struct LoadPlan {
    pub entry: u64,
    pub steps: Vec<LoadStep>,
}

/// Whether a segment can be loaded (see [`segment_ok`]).
fn check_segment(s: &ProgramSegment, file_len: usize) -> (r: bool)
    ensures
        r == segment_ok(*s, file_len as int),
{
    match s.kind {
        SegmentKind::Invalid => false,
        SegmentKind::Other => true,
        SegmentKind::Load => {
            if s.offset > file_len as u64 || s.file_size > file_len as u64 - s.offset {
                return false;
            }
            if s.file_size > s.mem_size {
                return false;
            }
            if s.mem_size > u64::MAX - s.vaddr {
                if s.vaddr == 0 {
                    return false;
                }
                return s.mem_size - (u64::MAX - s.vaddr) <= 1;
            }
            s.vaddr + s.mem_size >= 1
        },
    }
}

/// Whether every segment can be loaded.
pub fn is_loadable(image: &ElfImage, file_len: usize) -> (r: bool)
    ensures
        r == loadable(image.segments@, file_len as int),
{
    let mut i: usize = 0;
    while i < image.segments.len()
        invariant
            i <= image.segments@.len(),
            forall|k: int| 0 <= k < i ==> segment_ok(#[trigger] image.segments@[k], file_len as int),
        decreases image.segments.len() - i,
    {
        if !check_segment(&image.segments[i], file_len) {
            return false;
        }
        i = i + 1;
    }
    true
}

/// The page-aligned start of the page holding `addr`.
fn page_start(addr: u64) -> (r: u64)
    ensures
        r == page_of(addr as int),
{
    assert(addr & !0xFFFu64 == addr - addr % 4096) by (bit_vector);
    addr & !0xFFFu64
}

/// The loading steps of an ELF image.
pub fn plan_load(image: &ElfImage, file_len: usize) -> (r: LoadPlan)
    requires
        loadable(image.segments@, file_len as int),
    ensures
        r.entry == image.entry,
        r.steps@ == load_steps(image.segments@),
{
    let mut steps: Vec<LoadStep> = Vec::new();
    let mut i: usize = 0;
    while i < image.segments.len()
        invariant
            i <= image.segments@.len(),
            loadable(image.segments@, file_len as int),
            steps@ == load_steps(image.segments@.take(i as int)),
        decreases image.segments.len() - i,
    {
        let s = image.segments[i];
        assert(image.segments@.take(i + 1).drop_last() =~= image.segments@.take(i as int));
        assert(segment_ok(image.segments@[i as int], file_len as int));
        if s.kind == SegmentKind::Load {
            let last = if s.mem_size == 0 { s.vaddr - 1 } else { s.vaddr + (s.mem_size - 1) };
            let step = LoadStep {
                vaddr: s.vaddr,
                mem_size: s.mem_size,
                offset: s.offset,
                file_size: s.file_size,
                first_page: page_start(s.vaddr),
                last_page: page_start(last),
            };
            steps.push(step);
        }
        i = i + 1;
    }
    assert(image.segments@.take(image.segments@.len() as int) =~= image.segments@);
    LoadPlan { entry: image.entry, steps }
}

/// Reads an ELF file and plans its loading; `None` when its program header
/// table runs past its end or is misaligned, it is not an ELF file xmas-elf
/// accepts, one of its segments cannot be loaded (see [`segment_ok`]), or
/// the bytes do not start at an 8-aligned address (which the parser needs;
/// see `read_elf`).
pub fn load_elf(data: &[u8]) -> (r: Option<LoadPlan>)
    ensures
        !ph_table_fits(data@) ==> r is None,
        !elf_header_ok(data@) ==> r is None,
        r matches Some(plan) ==> ph_table_fits(data@) && elf_header_ok(data@)
            && (elf_image(data@) matches Some((entry, segs))
            && loadable(segs, data@.len() as int) && plan.entry == entry && plan.steps@ == load_steps(segs)),
        (elf_image(data@) matches Some((entry, segs)) && !loadable(segs, data@.len() as int)) ==> r is None,
{
    if !check_ph_table(data) {
        return None;
    }
    let image = read_elf(data)?;
    if !is_loadable(&image, data.len()) {
        return None;
    }
    Some(plan_load(&image, data.len()))
}

/// Rounds down to a multiple of 16.
pub open spec fn align16(x: int) -> int {
    x - x % 16
}

/// The addresses the argument strings are copied to, going down from
/// `top`: each string below the previous one, 16-byte aligned. `None` when
/// the stack would run below address zero.
pub open spec fn string_slots(top: int, lens: Seq<u64>) -> Option<Seq<int>>
    decreases lens.len(),
{
    if lens.len() == 0 {
        Some(Seq::empty())
    } else {
        match string_slots(top, lens.drop_last()) {
            None => None,
            Some(prev) => {
                let sp = if prev.len() == 0 { top } else { prev.last() };
                if sp < lens.last() {
                    None
                } else {
                    Some(prev.push(align16(sp - lens.last())))
                }
            },
        }
    }
}

/// How a program's arguments sit on its stack: each string's address, the
/// argument count, the address of the array of (address, length) pairs,
/// and the stack pointer to start with.
pub struct ArgStack {
    pub str_addrs: Vec<u64>,
    pub argc: u64,
    pub argv: u64,
    pub sp: u64,
}

/// Lays out arguments of the given byte lengths below `top`: the strings
/// first, then the array of (address, length) pairs 16-byte aligned, then
/// the stack pointer 8 below it. `None` when the stack would run below
/// address zero.
pub fn arg_stack_layout(top: u64, lens: &Vec<u64>) -> (r: Option<ArgStack>)
    ensures
        match string_slots(top as int, lens@) {
            None => r is None,
            Some(slots) => {
                let below = if slots.len() == 0 { top as int } else { slots.last() };
                let argv = align16(below - 16 * lens@.len());
                if below < 16 * lens@.len() || argv < 8 {
                    r is None
                } else {
                    r matches Some(st) && {
                        &&& st.str_addrs@.len() == slots.len()
                        &&& forall|i: int| 0 <= i < slots.len() ==> st.str_addrs@[i] == slots[i]
                        &&& st.argc == lens@.len()
                        &&& st.argv == argv
                        &&& st.sp == argv - 8
                    }
                }
            },
        },
{
    let mut sp: u64 = top;
    let mut addrs: Vec<u64> = Vec::new();
    let mut i: usize = 0;
    while i < lens.len()
        invariant
            i <= lens@.len(),
            string_slots(top as int, lens@.take(i as int)) matches Some(slots) && {
                &&& addrs@.len() == slots.len()
                &&& forall|k: int| 0 <= k < slots.len() ==> addrs@[k] == slots[k]
                &&& sp == if slots.len() == 0 { top as int } else { slots.last() }
            },
        decreases lens.len() - i,
    {
        assert(lens@.take(i + 1).drop_last() =~= lens@.take(i as int));
        assert(lens@.take(i + 1).last() == lens@[i as int]);
        if sp < lens[i] {
            proof { lemma_slots_none_extends(top as int, lens@, i as int + 1); }
            return None;
        }
        let down = sp - lens[i];
        assert(down & !0xFu64 == down - down % 16) by (bit_vector);
        sp = down & !0xFu64;
        addrs.push(sp);
        i = i + 1;
    }
    assert(lens@.take(lens@.len() as int) =~= lens@);
    let n: u64 = lens.len() as u64;
    if n > sp / 16 {
        return None;
    }
    let down = sp - 16 * n;
    assert(down & !0xFu64 == down - down % 16) by (bit_vector);
    let argv = down & !0xFu64;
    if argv < 8 {
        return None;
    }
    Some(ArgStack { str_addrs: addrs, argc: n, argv, sp: argv - 8 })
}

/// Once the stack runs out for some prefix of the arguments, it runs out
/// for all of them.
proof fn lemma_slots_none_extends(top: int, lens: Seq<u64>, k: int)
    requires
        0 <= k <= lens.len(),
        string_slots(top, lens.take(k)) is None,
    ensures
        string_slots(top, lens) is None,
    decreases lens.len() - k,
{
    if k < lens.len() {
        assert(lens.take(k + 1).drop_last() =~= lens.take(k));
        lemma_slots_none_extends(top, lens, k + 1);
    } else {
        assert(lens.take(k) =~= lens);
    }
}

/// Top of a program's stack.
pub const USER_STACK_TOP: u64 = 0x0000_7FFF_FF00_0000;
/// Size of a program's stack.
pub const USER_STACK_SIZE: u64 = 4096 * 32;

/// A program's stack: the first and last page to map, and where the
/// stack pointer starts (16 bytes below the top).
pub fn user_stack() -> (r: (u64, u64, u64))
    ensures
        r.0 == page_of(USER_STACK_TOP - USER_STACK_SIZE),
        r.1 == page_of(USER_STACK_TOP - 1),
        r.2 == USER_STACK_TOP - 16,
{
    let start = USER_STACK_TOP - USER_STACK_SIZE;
    (page_start(start), page_start(USER_STACK_TOP - 1), USER_STACK_TOP - 16)
}

/// Where the stack used to return to the kernel after a program exits
/// begins.
pub const EXIT_STACK_BASE: u64 = 0xFFFF_FF00_0000_0000;
/// How many pages that stack has.
pub const EXIT_STACK_PAGES: u64 = 4;

/// The pages of the exit stack, and its top.
pub fn exit_stack() -> (r: (Vec<u64>, u64))
    ensures
        r.0@.len() == EXIT_STACK_PAGES,
        forall|i: int| 0 <= i < EXIT_STACK_PAGES ==> r.0@[i] == EXIT_STACK_BASE + i * 4096,
        r.1 == EXIT_STACK_BASE + EXIT_STACK_PAGES * 4096,
{
    let mut pages: Vec<u64> = Vec::new();
    let mut i: u64 = 0;
    while i < EXIT_STACK_PAGES
        invariant
            i <= EXIT_STACK_PAGES,
            pages@.len() == i,
            forall|k: int| 0 <= k < i ==> pages@[k] == EXIT_STACK_BASE + k * 4096,
        decreases EXIT_STACK_PAGES - i,
    {
        pages.push(EXIT_STACK_BASE + i * 4096);
        i = i + 1;
    }
    (pages, EXIT_STACK_BASE + EXIT_STACK_PAGES * 4096)
}

proof fn lemma_page_of(x: int)
    requires
        0 <= x,
    ensures
        page_of(x) % 4096 == 0,
        0 <= page_of(x) <= x < page_of(x) + 4096,
{
    assert((x - x % 4096) % 4096 == 0) by (nonlinear_arith)
        requires 0 <= x;
}

/// Every byte of every segment that is loaded lies in a page its step
/// maps: the steps' page ranges are page-aligned and run from the page of
/// the segment's first byte to the page of its last.
pub proof fn law_steps_cover_segments(segs: Seq<ProgramSegment>, file_len: int)
    requires
        loadable(segs, file_len),
    ensures
        forall|i: int| 0 <= i < load_steps(segs).len() ==> {
            let st = #[trigger] load_steps(segs)[i];
            &&& st.first_page % 4096 == 0
            &&& st.last_page % 4096 == 0
            &&& st.mem_size > 0 ==> st.first_page <= st.vaddr && st.vaddr + st.mem_size <= st.last_page + 4096
        },
    decreases segs.len(),
{
    if segs.len() > 0 {
        let rest = segs.drop_last();
        assert(loadable(rest, file_len)) by {
            assert forall|i: int| 0 <= i < rest.len() implies segment_ok(#[trigger] rest[i], file_len) by {
                assert(rest[i] == segs[i]);
            }
        }
        law_steps_cover_segments(rest, file_len);
        let s = segs.last();
        assert(segment_ok(segs[segs.len() - 1], file_len));
        let prev = load_steps(rest);
        if is_load(s) {
            let st = step_for(s);
            lemma_page_of(s.vaddr as int);
            lemma_page_of(s.vaddr + s.mem_size - 1);
            assert(st.first_page == page_of(s.vaddr as int));
            assert(st.last_page == page_of(s.vaddr + s.mem_size - 1));
            assert(load_steps(segs) == prev.push(st));
            assert forall|i: int| 0 <= i < load_steps(segs).len() implies {
                let t = #[trigger] load_steps(segs)[i];
                &&& t.first_page % 4096 == 0
                &&& t.last_page % 4096 == 0
                &&& t.mem_size > 0 ==> t.first_page <= t.vaddr && t.vaddr + t.mem_size <= t.last_page + 4096
            } by {
                if i < prev.len() {
                    assert(load_steps(segs)[i] == prev[i]);
                }
            }
        } else {
            assert(load_steps(segs) == prev);
        }
    }
}

/// The arguments' strings sit one below the other under `top`, each
/// 16-byte aligned and none overlapping the one above it.
pub proof fn law_strings_stacked(top: int, lens: Seq<u64>)
    requires
        string_slots(top, lens) is Some,
    ensures
        ({
            let slots = string_slots(top, lens)->Some_0;
            &&& slots.len() == lens.len()
            &&& forall|i: int| 0 <= i < slots.len() ==> (#[trigger] slots[i]) % 16 == 0 && slots[i] >= 0
            &&& slots.len() > 0 ==> slots[0] + lens[0] <= top
            &&& forall|i: int| 0 < i < slots.len() ==> #[trigger] slots[i] + lens[i] <= slots[i - 1]
        }),
    decreases lens.len(),
{
    if lens.len() > 0 {
        let prev_lens = lens.drop_last();
        assert(string_slots(top, prev_lens) is Some);
        law_strings_stacked(top, prev_lens);
        let prev = string_slots(top, prev_lens)->Some_0;
        let slots = string_slots(top, lens)->Some_0;
        let sp = if prev.len() == 0 { top } else { prev.last() };
        assert(slots == prev.push(align16(sp - lens.last())));
        assert forall|i: int| 0 <= i < slots.len() implies (#[trigger] slots[i]) % 16 == 0 && slots[i] >= 0 by {
            if i < prev.len() {
                assert(slots[i] == prev[i]);
            }
        }
        assert forall|i: int| 0 < i < slots.len() implies #[trigger] slots[i] + lens[i] <= slots[i - 1] by {
            if i < prev.len() {
                assert(slots[i] == prev[i]);
                assert(slots[i - 1] == prev[i - 1]);
                assert(lens[i] == prev_lens[i]);
            }
        }
        if slots.len() > 1 {
            assert(slots[0] == prev[0]);
            assert(lens[0] == prev_lens[0]);
        }
    }
}

/// The array of (address, length) pairs lies below the lowest string,
/// 16-byte aligned, and the stack pointer a program starts with is 8 below
/// a multiple of 16, as a function's entry expects.
pub proof fn law_entry_stack(below: int, argc: int)
    requires
        0 <= argc,
        16 * argc <= below,
        align16(below - 16 * argc) >= 8,
    ensures
        align16(below - 16 * argc) % 16 == 0,
        align16(below - 16 * argc) + 16 * argc <= below,
        (align16(below - 16 * argc) - 8) % 16 == 8,
{
    let x = below - 16 * argc;
    assert((x - x % 16) % 16 == 0) by (nonlinear_arith)
        requires x >= 0;
}

/// One load step per segment to be loaded, in the file's order, each
/// copying that segment's own bytes: from its file offset, `file_size`
/// bytes, to its address, with `mem_size` bytes in memory.
pub proof fn law_steps_follow_segments(segs: Seq<ProgramSegment>)
    ensures
        load_steps(segs).len() == segs.filter(|s: ProgramSegment| is_load(s)).len(),
        forall|i: int| 0 <= i < load_steps(segs).len() ==> {
            let st = #[trigger] load_steps(segs)[i];
            let sg = segs.filter(|s: ProgramSegment| is_load(s))[i];
            &&& sg.kind == SegmentKind::Load
            &&& st.offset == sg.offset
            &&& st.vaddr == sg.vaddr
            &&& st.file_size == sg.file_size
            &&& st.mem_size == sg.mem_size
        },
    decreases segs.len(),
{
    reveal(Seq::filter);
    if segs.len() > 0 {
        let rest = segs.drop_last();
        law_steps_follow_segments(rest);
        let prev = load_steps(rest);
        let f = rest.filter(|s: ProgramSegment| is_load(s));
        let s = segs.last();
        if is_load(s) {
            assert(load_steps(segs) == prev.push(step_for(s)));
            assert(segs.filter(|s: ProgramSegment| is_load(s)) == f.push(s));
            assert forall|i: int| 0 <= i < load_steps(segs).len() implies {
                let st = #[trigger] load_steps(segs)[i];
                let sg = segs.filter(|s: ProgramSegment| is_load(s))[i];
                &&& sg.kind == SegmentKind::Load
                &&& st.offset == sg.offset
                &&& st.vaddr == sg.vaddr
                &&& st.file_size == sg.file_size
                &&& st.mem_size == sg.mem_size
            } by {
                if i < prev.len() {
                    assert(load_steps(segs)[i] == prev[i]);
                    assert(segs.filter(|s: ProgramSegment| is_load(s))[i] == f[i]);
                }
            }
        } else {
            assert(load_steps(segs) == prev);
            assert(segs.filter(|s: ProgramSegment| is_load(s)) == f);
        }
    }
}

} // verus!
