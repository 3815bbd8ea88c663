//! Directory listings as `getdents64` hands them to programs: a run of
//! records, each holding an inode number, the offset of the next record,
//! the record's length, the entry's type and its NUL-terminated name. The
//! kernel writes them; `ls` reads them back.
use vstd::prelude::*;

verus! {

/// An entry of a directory listing.
pub struct DirEntry {
    pub name: Vec<u8>,
    pub is_dir: bool,
}

/// Type byte of a directory.
pub const DT_DIR: u8 = 4;
/// Type byte of a regular file.
pub const DT_REG: u8 = 8;
/// Where the name starts within a record.
pub const NAME_OFFSET: usize = 19;

/// The length of the record of a name of `len` bytes: header, name and
/// terminating NUL, rounded up to a multiple of 8.
pub open spec fn reclen(len: int) -> int {
    ((len + 27) / 8) * 8
}

/// `v` as `k` little-endian bytes.
pub open spec fn le_bytes(v: nat, k: nat) -> Seq<u8>
    decreases k,
{
    if k == 0 {
        Seq::empty()
    } else {
        seq![(v % 256) as u8] + le_bytes(v / 256, (k - 1) as nat)
    }
}

/// The bytes of the record of `e` at offset `w`, `r` bytes long (padding
/// not included).
pub open spec fn record(e: DirEntry, w: int, r: int) -> Seq<u8> {
    le_bytes(1, 8) + le_bytes((w + r) as nat, 8) + le_bytes(r as nat, 2)
        + seq![if e.is_dir { DT_DIR } else { DT_REG }] + e.name@ + seq![0u8]
}

/// `buf` with `bytes` written at `at`.
pub open spec fn overwrite(buf: Seq<u8>, at: int, bytes: Seq<u8>) -> Seq<u8> {
    buf.take(at) + bytes + buf.skip(at + bytes.len())
}

/// Writing the records of `es` from offset `w` on, stopping before the
/// first that does not fit: the buffer then, and where the records end.
pub open spec fn fill(buf: Seq<u8>, es: Seq<DirEntry>, w: int) -> (Seq<u8>, int)
    decreases es.len(),
{
    if es.len() == 0 {
        (buf, w)
    } else {
        let r = reclen(es[0].name@.len() as int);
        if w + r > buf.len() {
            (buf, w)
        } else {
            fill(overwrite(buf, w, record(es[0], w, r)), es.skip(1), w + r)
        }
    }
}

/// Writes `v` as `k` little-endian bytes at `at`.
fn write_le(buf: &mut [u8], at: usize, v: u64, k: usize)
    requires
        at + k <= old(buf).len(),
        k <= 8,
    ensures
        final(buf)@ == overwrite(old(buf)@, at as int, le_bytes(v as nat, k as nat)),
{
    let mut i: usize = 0;
    let mut x: u64 = v;
    while i < k
        invariant
            i <= k,
            at + k <= buf.len(),
            buf@.len() == old(buf)@.len(),
            le_bytes(v as nat, k as nat) == buf@.subrange(at as int, at + i) + le_bytes(x as nat, (k - i) as nat),
            forall|j: int| 0 <= j < at ==> buf@[j] == old(buf)@[j],
            forall|j: int| at + k <= j < buf@.len() ==> buf@[j] == old(buf)@[j],
        decreases k - i,
    {
        let ghost before = buf@;
        buf[at + i] = (x % 256) as u8;
        assert(le_bytes(x as nat, (k - i) as nat) == seq![(x % 256) as u8] + le_bytes((x / 256) as nat, (k - i - 1) as nat));
        assert(buf@.subrange(at as int, at + i + 1) =~= before.subrange(at as int, at + i).push((x % 256) as u8));
        assert(buf@.subrange(at as int, at + i + 1) + le_bytes((x / 256) as nat, (k - i - 1) as nat)
            =~= before.subrange(at as int, at + i) + (seq![(x % 256) as u8] + le_bytes((x / 256) as nat, (k - i - 1) as nat)));
        x = x / 256;
        i = i + 1;
    }
    assert(le_bytes(x as nat, 0) =~= Seq::<u8>::empty());
    assert(buf@ =~= overwrite(old(buf)@, at as int, le_bytes(v as nat, k as nat)));
}

/// Writes the bytes of `bytes` at `at`.
fn write_bytes(buf: &mut [u8], at: usize, bytes: &Vec<u8>)
    requires
        at + bytes@.len() <= old(buf).len(),
    ensures
        final(buf)@ == overwrite(old(buf)@, at as int, bytes@),
{
    let mut i: usize = 0;
    while i < bytes.len()
        invariant
            i <= bytes@.len(),
            at + bytes@.len() <= buf.len(),
            buf@.len() == old(buf)@.len(),
            forall|j: int| 0 <= j < at ==> buf@[j] == old(buf)@[j],
            forall|j: int| 0 <= j < i ==> buf@[at + j] == bytes@[j],
            forall|j: int| at + i <= j < buf@.len() ==> buf@[j] == old(buf)@[j],
        decreases bytes.len() - i,
    {
        buf[at + i] = bytes[i];
        i = i + 1;
    }
    assert(buf@ =~= overwrite(old(buf)@, at as int, bytes@));
}

proof fn lemma_le_bytes_len(v: nat, k: nat)
    ensures
        le_bytes(v, k).len() == k,
    decreases k,
{
    if k > 0 {
        lemma_le_bytes_len(v / 256, (k - 1) as nat);
    }
}

/// A record is the 19-byte header, the name and its NUL.
proof fn lemma_record_len(e: DirEntry, w: int, r: int)
    requires
        w >= 0,
        r >= 0,
    ensures
        record(e, w, r).len() == 20 + e.name@.len(),
{
    lemma_le_bytes_len(1, 8);
    lemma_le_bytes_len((w + r) as nat, 8);
    lemma_le_bytes_len(r as nat, 2);
}

/// Appends `v` as `k` little-endian bytes.
fn push_le(out: &mut Vec<u8>, v: u64, k: usize)
    ensures
        final(out)@ == old(out)@ + le_bytes(v as nat, k as nat),
{
    let mut i: usize = 0;
    let mut x: u64 = v;
    while i < k
        invariant
            i <= k,
            old(out)@ + le_bytes(v as nat, k as nat) == out@ + le_bytes(x as nat, (k - i) as nat),
        decreases k - i,
    {
        let ghost before = out@;
        out.push((x % 256) as u8);
        assert(le_bytes(x as nat, (k - i) as nat) == seq![(x % 256) as u8] + le_bytes((x / 256) as nat, (k - i - 1) as nat));
        assert(out@ + le_bytes((x / 256) as nat, (k - i - 1) as nat)
            =~= before + (seq![(x % 256) as u8] + le_bytes((x / 256) as nat, (k - i - 1) as nat)));
        x = x / 256;
        i = i + 1;
    }
    assert(le_bytes(x as nat, 0) =~= Seq::<u8>::empty());
    assert(out@ + Seq::<u8>::empty() =~= out@);
}

/// The bytes of the record of `e` at `w`, `r` bytes long.
fn record_bytes(w: usize, r: usize, e: &DirEntry) -> (out: Vec<u8>)
    requires
        w + r <= usize::MAX,
    ensures
        out@ == record(*e, w as int, r as int),
{
    let mut out: Vec<u8> = Vec::new();
    push_le(&mut out, 1, 8);
    push_le(&mut out, (w + r) as u64, 8);
    push_le(&mut out, r as u64, 2);
    out.push(if e.is_dir { DT_DIR } else { DT_REG });
    let mut i: usize = 0;
    let ghost head = out@;
    while i < e.name.len()
        invariant
            i <= e.name@.len(),
            out@ == head + e.name@.take(i as int),
        decreases e.name.len() - i,
    {
        out.push(e.name[i]);
        assert(e.name@.take(i + 1) == e.name@.take(i as int).push(e.name@[i as int]));
        i = i + 1;
    }
    assert(e.name@.take(e.name@.len() as int) == e.name@);
    out.push(0);
    assert(out@ =~= record(*e, w as int, r as int));
    out
}

/// Writes the records of `entries` into `buf` from its start, stopping
/// before the first record that does not fit, and returns how many bytes
/// the records take. Padding bytes between records are left as they were.
pub fn encode_dirents(buf: &mut [u8], entries: &Vec<DirEntry>) -> (written: usize)
    requires
        old(buf)@.len() <= i64::MAX,
    ensures
        (final(buf)@, written as int) == fill(old(buf)@, entries@, 0),
{
    let mut written: usize = 0;
    let mut i: usize = 0;
    assert(entries@.skip(0) =~= entries@);
    while i < entries.len()
        invariant
            i <= entries@.len(),
            written <= buf.len(),
            buf@.len() == old(buf)@.len(),
            buf@.len() <= i64::MAX,
            fill(buf@, entries@.skip(i as int), written as int) == fill(old(buf)@, entries@, 0),
        ensures
            (buf@, written as int) == fill(old(buf)@, entries@, 0),
        decreases entries.len() - i,
    {
        let e = &entries[i];
        let l = e.name.len();
        assert(entries@.skip(i as int)[0] == entries@[i as int]);
        assert(entries@.skip(i as int).skip(1) =~= entries@.skip(i + 1));
        let rem: usize = buf.len() - written;
        if l >= rem {
            assert(fill(buf@, entries@.skip(i as int), written as int) == (buf@, written as int));
            break;
        }
        let r64: u64 = ((l as u64) + 27) / 8 * 8;
        if r64 > rem as u64 {
            assert(fill(buf@, entries@.skip(i as int), written as int) == (buf@, written as int));
            break;
        }
        let r: usize = r64 as usize;
        let rec = record_bytes(written, r, e);
        proof { lemma_record_len(*e, written as int, r as int); }
        write_bytes(buf, written, &rec);
        written = written + r;
        i = i + 1;
        if i == entries.len() {
            assert(entries@.skip(i as int) =~= Seq::<DirEntry>::empty());
        }
    }
    written
}

/// The little-endian 16-bit value at `at`.
pub open spec fn le16(buf: Seq<u8>, at: int) -> int {
    buf[at] as int + 256 * buf[at + 1] as int
}

/// The bytes from `start` on hold `len` non-NUL bytes and then a NUL.
pub open spec fn nul_after(buf: Seq<u8>, start: int, len: int) -> bool {
    &&& 0 <= len
    &&& start + len < buf.len()
    &&& buf[start + len] == 0
    &&& forall|j: int| start <= j < start + len ==> buf[j] != 0
}

/// The NUL-terminated name starting at `start`, if it ends within `buf`.
pub open spec fn name_at(buf: Seq<u8>, start: int) -> Option<Seq<u8>> {
    if exists|len: int| #[trigger] nul_after(buf, start, len) {
        let len = choose|len: int| #[trigger] nul_after(buf, start, len);
        Some(buf.subrange(start, start + len))
    } else {
        None
    }
}

/// The names of the records from offset `off` up to `n`, read the way
/// `ls` reads them: each record's length at bytes 16 and 17, its name from
/// byte 19 to the next NUL. `None` when a record is cut short, has no
/// terminated name, or claims length zero (reading would never end).
pub open spec fn decode_names(buf: Seq<u8>, off: int, n: int) -> Option<Seq<Seq<u8>>>
    decreases if off < n { n - off } else { 0 },
{
    if off < 0 || off >= n {
        Some(Seq::empty())
    } else if off + 18 > buf.len() {
        None
    } else {
        let r = le16(buf, off + 16);
        if r <= 0 {
            None
        } else {
            match name_at(buf, off + 19) {
                None => None,
                Some(name) => match decode_names(buf, off + r, n) {
                    Some(rest) => Some(seq![name] + rest),
                    None => None,
                },
            }
        }
    }
}

/// The names held as byte vectors.
pub open spec fn byte_strings(v: Seq<Vec<u8>>) -> Seq<Seq<u8>> {
    v.map(|_i: int, x: Vec<u8>| x@)
}

/// Finds the NUL ending the name that starts at `start`.
fn find_nul(buf: &[u8], start: usize) -> (r: Option<usize>)
    ensures
        match r {
            Some(len) => nul_after(buf@, start as int, len as int),
            None => forall|len: int| !#[trigger] nul_after(buf@, start as int, len),
        },
{
    if start >= buf.len() {
        return None;
    }
    let mut len: usize = 0;
    while start + len < buf.len()
        invariant
            start < buf.len(),
            start + len <= buf.len(),
            forall|j: int| start <= j < start + len ==> buf@[j] != 0,
        decreases buf.len() - start - len,
    {
        if buf[start + len] == 0 {
            return Some(len);
        }
        len = len + 1;
    }
    proof {
        assert forall|l: int| !#[trigger] nul_after(buf@, start as int, l) by {
            if nul_after(buf@, start as int, l) {
                if l < len {
                    assert(buf@[start + l] != 0);
                }
            }
        }
    }
    None
}

/// Reads the names of the records in `buf[..n]`.
pub fn dirent_names(buf: &[u8], n: usize) -> (r: Option<Vec<Vec<u8>>>)
    ensures
        match r {
            Some(names) => decode_names(buf@, 0, n as int) == Some(byte_strings(names@)),
            None => decode_names(buf@, 0, n as int) is None,
        },
{
    let mut names: Vec<Vec<u8>> = Vec::new();
    let mut off: usize = 0;
    assert(byte_strings(names@) + Seq::<Seq<u8>>::empty() =~= Seq::<Seq<u8>>::empty());
    while off < n
        invariant
            decode_names(buf@, 0, n as int) == match decode_names(buf@, off as int, n as int) {
                Some(rest) => Some(byte_strings(names@) + rest),
                None => None::<Seq<Seq<u8>>>,
            },
        decreases n - off,
    {
        if buf.len() < 20 || off > buf.len() - 20 {
            proof {
                if off + 18 <= buf@.len() {
                    assert(name_at(buf@, off + 19) is None) by {
                        if exists|len: int| #[trigger] nul_after(buf@, off + 19, len) {
                            let l = choose|len: int| #[trigger] nul_after(buf@, off + 19, len);
                        }
                    }
                }
            }
            return None;
        }
        let r: usize = buf[off + 16] as usize + 256 * (buf[off + 17] as usize);
        if r == 0 {
            return None;
        }
        let len = match find_nul(buf, off + 19) {
            None => {
                return None;
            },
            Some(len) => len,
        };
        let mut name: Vec<u8> = Vec::new();
        let mut k: usize = 0;
        while k < len
            invariant
                k <= len,
                nul_after(buf@, off + 19, len as int),
                off + 19 + len < buf.len(),
                name@ == buf@.subrange(off + 19, off + 19 + k),
            decreases len - k,
        {
            name.push(buf[off + 19 + k]);
            assert(buf@.subrange(off + 19, off + 19 + k + 1) =~= buf@.subrange(off + 19, off + 19 + k).push(buf@[off + 19 + k]));
            k = k + 1;
        }
        proof {
            let l2 = choose|l2: int| #[trigger] nul_after(buf@, off + 19, l2);
            if l2 < len {
                assert(buf@[off + 19 + l2] != 0);
            } else if l2 > len {
                assert(buf@[off + 19 + len] != 0);
            }
        }
        let ghost before = names@;
        names.push(name);
        assert(byte_strings(names@) =~= byte_strings(before).push(buf@.subrange(off + 19, off + 19 + len)));
        proof {
            match decode_names(buf@, off + r, n as int) {
                Some(rest) => {
                    assert(byte_strings(before) + (seq![buf@.subrange(off + 19, off + 19 + len)] + rest)
                        =~= byte_strings(names@) + rest);
                },
                None => {},
            }
        }
        match off.checked_add(r) {
            Some(next) => {
                off = if next < n { next } else { n };
            },
            None => {
                off = n;
            },
        }
    }
    assert(byte_strings(names@) + Seq::<Seq<u8>>::empty() =~= byte_strings(names@));
    Some(names)
}

/// How many records of `es` fit from offset `w` in a buffer of `cap` bytes.
pub open spec fn fit_count(cap: int, es: Seq<DirEntry>, w: int) -> int
    decreases es.len(),
{
    if es.len() == 0 {
        0
    } else {
        let r = reclen(es[0].name@.len() as int);
        if w + r > cap {
            0
        } else {
            1 + fit_count(cap, es.skip(1), w + r)
        }
    }
}

/// The names of entries.
pub open spec fn entry_names(es: Seq<DirEntry>) -> Seq<Seq<u8>> {
    es.map(|_i: int, e: DirEntry| e.name@)
}

/// An entry `ls` can read back: no NUL inside its name, and a record short
/// enough for its 16-bit length field.
pub open spec fn listable(e: DirEntry) -> bool {
    &&& e.name@.len() + 27 < 0x1_0000
    &&& forall|k: int| 0 <= k < e.name@.len() ==> #[trigger] e.name@[k] != 0
}

/// Writing records leaves the buffer's length, everything before the start
/// offset, and ends no earlier than it starts and within the buffer.
proof fn lemma_fill_frame(buf: Seq<u8>, es: Seq<DirEntry>, w: int)
    requires
        0 <= w <= buf.len(),
    ensures
        fill(buf, es, w).0.len() == buf.len(),
        w <= fill(buf, es, w).1 <= buf.len(),
        forall|j: int| 0 <= j < w ==> #[trigger] fill(buf, es, w).0[j] == buf[j],
    decreases es.len(),
{
    if es.len() > 0 {
        let r = reclen(es[0].name@.len() as int);
        if w + r <= buf.len() {
            let rec = record(es[0], w, r);
            lemma_record_len(es[0], w, r);
            let b1 = overwrite(buf, w, rec);
            lemma_fill_frame(b1, es.skip(1), w + r);
            assert forall|j: int| 0 <= j < w implies #[trigger] fill(buf, es, w).0[j] == buf[j] by {
                assert(fill(b1, es.skip(1), w + r).0[j] == b1[j]);
            }
        }
    }
}

/// The fields `ls` reads from a record.
proof fn lemma_record_fields(e: DirEntry, w: int, r: int)
    requires
        w >= 0,
        0 < r < 0x1_0000,
    ensures
        record(e, w, r)[16] as int + 256 * record(e, w, r)[17] as int == r,
        forall|k: int| 0 <= k < e.name@.len() ==> #[trigger] record(e, w, r)[19 + k] == e.name@[k],
        record(e, w, r)[19 + e.name@.len() as int] == 0,
{
    lemma_le_bytes_len(1, 8);
    lemma_le_bytes_len((w + r) as nat, 8);
    lemma_le_bytes_len(r as nat, 2);
    let h = le_bytes(1, 8) + le_bytes((w + r) as nat, 8);
    let lb = le_bytes(r as nat, 2);
    assert(le_bytes((r / 256) as nat, 1) =~= seq![((r / 256) % 256) as u8] + le_bytes((r / 256 / 256) as nat, 0));
    assert(lb =~= seq![(r % 256) as u8, ((r / 256) % 256) as u8]);
    assert(record(e, w, r)[16] == lb[0]);
    assert(record(e, w, r)[17] == lb[1]);
    assert((r % 256) + 256 * ((r / 256) % 256) == r) by (nonlinear_arith)
        requires 0 < r < 0x1_0000;
}

/// Reading back what was written from offset `w` gives the names of the
/// records that fit.
proof fn lemma_round_trip_from(buf: Seq<u8>, es: Seq<DirEntry>, w: int)
    requires
        0 <= w <= buf.len(),
        buf.len() <= i64::MAX,
        forall|i: int| 0 <= i < es.len() ==> listable(#[trigger] es[i]),
    ensures
        decode_names(fill(buf, es, w).0, w, fill(buf, es, w).1)
            == Some(entry_names(es.take(fit_count(buf.len() as int, es, w)))),
    decreases es.len(),
{
    if es.len() == 0 {
        assert(entry_names(es.take(0)) =~= Seq::<Seq<u8>>::empty());
        return;
    }
    let e = es[0];
    let l = e.name@.len() as int;
    let r = reclen(l);
    if w + r > buf.len() {
        assert(entry_names(es.take(0)) =~= Seq::<Seq<u8>>::empty());
        return;
    }
    let rec = record(e, w, r);
    lemma_record_len(e, w, r);
    let b1 = overwrite(buf, w, rec);
    let rest = es.skip(1);
    assert forall|i: int| 0 <= i < rest.len() implies listable(#[trigger] rest[i]) by {
        assert(rest[i] == es[i + 1]);
    }
    lemma_round_trip_from(b1, rest, w + r);
    lemma_fill_frame(b1, rest, w + r);
    let (b2, w2) = fill(b1, rest, w + r);
    assert(fill(buf, es, w) == (b2, w2));
    assert(listable(es[0]));
    lemma_record_fields(e, w, r);
    // The record is still in place after the later ones are written.
    assert forall|j: int| w <= j < w + 20 + l implies #[trigger] b2[j] == rec[j - w] by {
        assert(b2[j] == b1[j]);
    }
    assert(le16(b2, w + 16) == r) by {
        assert(b2[w + 16] == rec[16]);
        assert(b2[w + 17] == rec[17]);
    }
    assert(nul_after(b2, w + 19, l)) by {
        assert forall|j: int| w + 19 <= j < w + 19 + l implies b2[j] != 0 by {
            assert(b2[j] == rec[19 + (j - w - 19)]);
            assert(e.name@[j - w - 19] != 0);
        }
        assert(b2[w + 19 + l] == rec[19 + l]);
    }
    let l2 = choose|len: int| #[trigger] nul_after(b2, w + 19, len);
    if l2 < l {
        assert(b2[w + 19 + l2] != 0);
    } else if l2 > l {
        assert(b2[w + 19 + l] != 0);
    }
    assert(b2.subrange(w + 19, w + 19 + l) =~= e.name@) by {
        assert forall|k: int| 0 <= k < l implies b2.subrange(w + 19, w + 19 + l)[k] == e.name@[k] by {
            assert(b2[w + 19 + k] == rec[19 + k]);
        }
    }
    assert(name_at(b2, w + 19) == Some(e.name@));
    let k = fit_count(buf.len() as int, es, w);
    assert(k == 1 + fit_count(b1.len() as int, rest, w + r));
    lemma_fit_count_bounds(b1.len() as int, rest, w + r);
    assert(entry_names(es.take(k)).len() == k);
    assert forall|i: int| 0 <= i < k implies #[trigger] entry_names(es.take(k))[i] == (seq![e.name@] + entry_names(rest.take(k - 1)))[i] by {
        if i > 0 {
            assert(es.take(k)[i] == rest.take(k - 1)[i - 1]);
        }
    }
    assert(entry_names(es.take(k)) =~= seq![e.name@] + entry_names(rest.take(k - 1)));
}

proof fn lemma_fit_count_bounds(cap: int, es: Seq<DirEntry>, w: int)
    ensures
        0 <= fit_count(cap, es, w) <= es.len(),
    decreases es.len(),
{
    if es.len() > 0 {
        lemma_fit_count_bounds(cap, es.skip(1), w + reclen(es[0].name@.len() as int));
    }
}

/// What `ls` reads back from a listing the kernel wrote is the names of
/// the entries that fit, in order.
pub proof fn law_listing_round_trip(buf: Seq<u8>, es: Seq<DirEntry>)
    requires
        buf.len() <= i64::MAX,
        forall|i: int| 0 <= i < es.len() ==> listable(#[trigger] es[i]),
    ensures
        decode_names(fill(buf, es, 0).0, 0, fill(buf, es, 0).1)
            == Some(entry_names(es.take(fit_count(buf.len() as int, es, 0)))),
{
    lemma_round_trip_from(buf, es, 0);
}

} // verus!
