//! The user side of the system calls: how arguments are packed for the
//! kernel.
use vstd::prelude::*;
use vstd::string::StringSliceAdditionalSpecFns;

verus! {

/// The longest path `open` passes on; longer paths are cut.
pub const MAX_PATH: usize = 255;

/// The NUL-terminated buffer `open` hands the kernel for `path`: its
/// first bytes, up to 255, and zeros after them.
pub fn open_path_buffer(path: &str) -> (buf: [u8; 256])
    ensures
        ({
            let b = path.spec_bytes();
            let n = if b.len() < 255 { b.len() as int } else { 255 };
            &&& forall|i: int| 0 <= i < n ==> buf@[i] == b[i]
            &&& forall|i: int| n <= i < 256 ==> buf@[i] == 0
        }),
{
    let mut buf = [0u8; 256];
    let bytes = path.as_bytes();
    let len = if bytes.len() < MAX_PATH { bytes.len() } else { MAX_PATH };
    let mut i: usize = 0;
    while i < len
        invariant
            i <= len <= 255,
            len <= bytes@.len(),
            bytes@ == path.spec_bytes(),
            buf@.len() == 256,
            forall|k: int| 0 <= k < i ==> buf@[k] == bytes@[k],
            forall|k: int| i <= k < 256 ==> buf@[k] == 0,
        decreases len - i,
    {
        buf[i] = bytes[i];
        i = i + 1;
    }
    buf
}

} // verus!
