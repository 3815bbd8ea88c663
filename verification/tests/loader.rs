use kosmos::loader::{arg_stack_layout, check_ph_table, load_elf, LoadStep};

fn put(b: &mut Vec<u8>, at: usize, v: u64, k: usize) {
    for i in 0..k {
        b[at + i] = ((v >> (8 * i)) & 0xFF) as u8;
    }
}

/// A 64-bit ELF file with one loadable segment and one note segment.
fn sample_elf() -> Vec<u64> {
    let mut b = vec![0u8; 64 + 2 * 56 + 8];
    b[0] = 0x7f;
    b[1] = b'E';
    b[2] = b'L';
    b[3] = b'F';
    b[4] = 2;
    b[5] = 1;
    b[6] = 1;
    put(&mut b, 16, 2, 2);
    put(&mut b, 18, 0x3E, 2);
    put(&mut b, 20, 1, 4);
    put(&mut b, 24, 0x401000, 8);
    put(&mut b, 32, 64, 8);
    put(&mut b, 52, 64, 2);
    put(&mut b, 54, 56, 2);
    put(&mut b, 56, 2, 2);
    put(&mut b, 58, 64, 2);
    let ph = 64;
    put(&mut b, ph, 1, 4);
    put(&mut b, ph + 4, 5, 4);
    put(&mut b, ph + 8, 0, 8);
    put(&mut b, ph + 16, 0x400123, 8);
    put(&mut b, ph + 24, 0x400123, 8);
    put(&mut b, ph + 32, 0x40, 8);
    put(&mut b, ph + 40, 0x2000, 8);
    put(&mut b, ph + 48, 0x1000, 8);
    let ph2 = 64 + 56;
    put(&mut b, ph2, 4, 4);
    let mut words = vec![0u64; b.len() / 8];
    for (i, w) in words.iter_mut().enumerate() {
        let mut x = 0u64;
        for k in 0..8 {
            x |= (b[i * 8 + k] as u64) << (8 * k);
        }
        *w = x;
    }
    words
}

fn as_bytes(w: &[u64]) -> Vec<u8> {
    w.iter().flat_map(|x| x.to_le_bytes()).collect()
}

#[test]
fn plans_the_loadable_segments() {
    let bytes = as_bytes(&sample_elf());
    assert!(check_ph_table(&bytes));
    let plan = load_elf(&bytes).unwrap();
    assert_eq!(plan.entry, 0x401000);
    assert_eq!(plan.steps.len(), 1);
    assert_eq!(plan.steps[0], LoadStep {
        vaddr: 0x400123,
        mem_size: 0x2000,
        offset: 0,
        file_size: 0x40,
        first_page: 0x400000,
        last_page: 0x402000,
    });
}

#[test]
fn refuses_what_is_not_elf() {
    assert!(load_elf(b"not an elf file at all, just text......................................").is_none());
    assert!(load_elf(&[]).is_none());
}

#[test]
fn refuses_a_header_table_past_the_end() {
    let bytes = as_bytes(&sample_elf());
    let mut cut = bytes.clone();
    cut.truncate(100);
    assert!(!check_ph_table(&cut));
    assert!(load_elf(&cut).is_none());
}

#[test]
fn refuses_a_segment_larger_in_file_than_in_memory() {
    let mut bytes = as_bytes(&sample_elf());
    put(&mut bytes, 64 + 32, 0x3000, 8);
    assert!(load_elf(&bytes).is_none());
}

#[test]
fn argument_stack() {
    let st = arg_stack_layout(0x1000, &vec![3, 17]).unwrap();
    assert_eq!(st.str_addrs, vec![0xFF0, 0xFD0]);
    assert_eq!(st.argc, 2);
    assert_eq!(st.argv, 0xFB0);
    assert_eq!(st.sp, 0xFA8);
    let st = arg_stack_layout(0x7FFF_FF00_0000 - 16, &vec![]).unwrap();
    assert!(st.str_addrs.is_empty());
    assert_eq!(st.argc, 0);
    assert_eq!(st.argv, 0x7FFF_FF00_0000 - 16);
    assert_eq!(st.sp, 0x7FFF_FF00_0000 - 24);
    assert!(arg_stack_layout(16, &vec![40]).is_none());
    assert!(arg_stack_layout(20, &vec![8]).is_none());
}

#[test]
fn planned_pages_cover_each_segment() {
    let plan = load_elf(&as_bytes(&sample_elf())).unwrap();
    for s in &plan.steps {
        assert_eq!(s.first_page % 4096, 0);
        assert_eq!(s.last_page % 4096, 0);
        assert!(s.first_page <= s.vaddr);
        assert!(s.vaddr + s.mem_size <= s.last_page + 4096);
    }
}

#[test]
fn argument_strings_do_not_overlap_and_the_entry_stack_is_aligned() {
    let lens = vec![5u64, 1, 33, 16];
    let top = 0x7FFF_FF00_0000u64 - 16;
    let st = arg_stack_layout(top, &lens).unwrap();
    let mut above = top;
    for (addr, len) in st.str_addrs.iter().zip(&lens) {
        assert_eq!(addr % 16, 0);
        assert!(addr + len <= above);
        above = *addr;
    }
    assert_eq!(st.argv % 16, 0);
    assert!(st.argv + 16 * st.argc <= above);
    assert_eq!(st.sp % 16, 8);
}

#[test]
fn refuses_a_misaligned_header_table() {
    let mut bytes = as_bytes(&sample_elf());
    bytes.extend_from_slice(&[0u8; 8]);
    put(&mut bytes, 32, 65, 8);
    put(&mut bytes, 56, 1, 2);
    assert!(!check_ph_table(&bytes));
    assert!(load_elf(&bytes).is_none());
    let mut bytes = as_bytes(&sample_elf());
    put(&mut bytes, 54, 60, 2);
    assert!(!check_ph_table(&bytes));
    assert!(load_elf(&bytes).is_none());
    put(&mut bytes, 56, 1, 2);
    assert!(check_ph_table(&bytes));
    assert_eq!(load_elf(&bytes).unwrap().steps.len(), 1);
}

#[test]
fn refuses_files_whose_header_the_parser_rejects() {
    assert!(load_elf(b"hello").is_none());
    let mut bytes = as_bytes(&sample_elf());
    bytes[4] = 3;
    assert!(load_elf(&bytes).is_none());
    let bytes = as_bytes(&sample_elf());
    assert!(load_elf(&bytes[..63]).is_none());
}

#[test]
fn a_misaligned_copy_is_refused_without_panicking() {
    let bytes = as_bytes(&sample_elf());
    let mut padded = vec![0u8; 8];
    padded.extend_from_slice(&bytes);
    padded.extend_from_slice(&[0u8; 8]);
    let mut planned = 0;
    for start in 0..8 {
        let mut copy = padded.clone();
        copy.copy_within(8..8 + bytes.len(), start);
        if load_elf(&copy[start..start + bytes.len()]).is_some() {
            planned += 1;
        }
    }
    assert_eq!(planned, 1);
}
