use kosmos::interrupts::{InterruptIndex, PIC_1_OFFSET, PIC_2_OFFSET};
use kosmos::text::trim_leading_slashes;

#[test]
fn interrupt_vectors() {
    assert_eq!(InterruptIndex::Timer.as_u8(), 32);
    assert_eq!(InterruptIndex::Keyboard.as_u8(), 33);
    assert_eq!(InterruptIndex::Syscall.as_u8(), 0x80);
    assert_eq!(InterruptIndex::Syscall.as_usize(), 128);
    assert_eq!(PIC_2_OFFSET, PIC_1_OFFSET + 8);
}

#[test]
fn volume_paths() {
    assert_eq!(trim_leading_slashes("//usr/bin/ls"), "usr/bin/ls");
    assert_eq!(trim_leading_slashes("/"), "");
    assert_eq!(trim_leading_slashes("a/"), "a/");
}

use kosmos::heap::{bump, HEAP_SIZE};
use kosmos::keyboard::{key_event, Echo, Key, KeyDecoder, LineEditor, ScancodeStream, SCANCODE_QUEUE_CAPACITY};
use kosmos::loader::{exit_stack, user_stack, EXIT_STACK_BASE, USER_STACK_TOP};
use kosmos::programs::sys::open_path_buffer;

#[test]
fn bump_aligns_and_advances() {
    assert_eq!(bump(0, 8, 16, HEAP_SIZE), Some((0, 16)));
    assert_eq!(bump(3, 8, 4, HEAP_SIZE), Some((8, 12)));
    assert_eq!(bump(16, 16, 1, HEAP_SIZE), Some((16, 17)));
    assert_eq!(bump(17, 1, 0, HEAP_SIZE), Some((17, 17)));
}

#[test]
fn bump_refuses_what_does_not_fit() {
    assert_eq!(bump(HEAP_SIZE - 4, 1, 4, HEAP_SIZE), Some((HEAP_SIZE - 4, HEAP_SIZE)));
    assert_eq!(bump(HEAP_SIZE - 4, 1, 5, HEAP_SIZE), None);
    assert_eq!(bump(HEAP_SIZE - 4, 8, 1, HEAP_SIZE), None);
    assert_eq!(bump(0, 1, HEAP_SIZE + 1, HEAP_SIZE), None);
}

#[test]
fn open_buffer_is_nul_terminated() {
    let b = open_path_buffer("/bin/ls");
    assert_eq!(&b[..7], b"/bin/ls");
    assert!(b[7..].iter().all(|&x| x == 0));
}

#[test]
fn open_buffer_cuts_long_paths() {
    let long = "x".repeat(300);
    let b = open_path_buffer(&long);
    assert!(b[..255].iter().all(|&x| x == b'x'));
    assert_eq!(b[255], 0);
}

#[test]
fn stacks() {
    let (first, last, top) = user_stack();
    assert_eq!(top, USER_STACK_TOP - 16);
    assert_eq!(last, 0x0000_7FFF_FEFF_F000);
    assert_eq!(first, USER_STACK_TOP - 4096 * 32);
    let (pages, exit_top) = exit_stack();
    assert_eq!(pages, vec![EXIT_STACK_BASE, EXIT_STACK_BASE + 4096, EXIT_STACK_BASE + 8192, EXIT_STACK_BASE + 12288]);
    assert_eq!(exit_top, EXIT_STACK_BASE + 16384);
}

#[test]
fn scancodes_come_out_in_order() {
    let mut s = ScancodeStream::new();
    assert_eq!(s.next_scancode(), None);
    assert!(s.add_scancode(0x1e));
    assert!(s.add_scancode(0x9e));
    assert_eq!(s.next_scancode(), Some(0x1e));
    assert_eq!(s.next_scancode(), Some(0x9e));
    assert_eq!(s.next_scancode(), None);
}

#[test]
fn full_queue_drops_scancodes() {
    let mut s = ScancodeStream::new();
    for i in 0..SCANCODE_QUEUE_CAPACITY {
        assert!(s.add_scancode(i as u8));
    }
    assert!(!s.add_scancode(0xff));
    assert_eq!(s.next_scancode(), Some(0));
    assert!(s.add_scancode(0xfe));
    for i in 1..SCANCODE_QUEUE_CAPACITY {
        assert_eq!(s.next_scancode(), Some(i as u8));
    }
    assert_eq!(s.next_scancode(), Some(0xfe));
    assert_eq!(s.next_scancode(), None);
}

#[test]
fn scancodes_edit_the_line() {
    let mut d = KeyDecoder::us104();
    let mut line = LineEditor::new();
    assert_eq!(key_event(&mut line, &mut d, 0x1E), Some((Key::Unicode('a'), Echo::Show('a'))));
    assert_eq!(key_event(&mut line, &mut d, 0x9E), None);
    assert_eq!(key_event(&mut line, &mut d, 0x2A), Some((Key::Raw, Echo::Nothing)));
    assert_eq!(key_event(&mut line, &mut d, 0x30), Some((Key::Unicode('B'), Echo::Show('B'))));
    assert_eq!(key_event(&mut line, &mut d, 0xB0), None);
    assert_eq!(key_event(&mut line, &mut d, 0xAA), None);
    assert_eq!(key_event(&mut line, &mut d, 0x0E), Some((Key::Unicode('\x08'), Echo::Erase)));
    assert_eq!(key_event(&mut line, &mut d, 0x8E), None);
    assert_eq!(line.line(), "a");
    assert_eq!(key_event(&mut line, &mut d, 0x1C), Some((Key::Unicode('\n'), Echo::Newline)));
    assert_eq!(line.line(), "a");
}

#[test]
fn every_scancode_reaches_the_decoder() {
    let mut d = KeyDecoder::us104();
    let mut line = LineEditor::new();
    assert_eq!(key_event(&mut line, &mut d, 0xE0), None);
    assert_eq!(key_event(&mut line, &mut d, 0x1C), Some((Key::Unicode('\n'), Echo::Newline)));
}
