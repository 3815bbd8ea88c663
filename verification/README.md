# Kosmos

Kosmos is a small x86_64 hobby kernel: it boots, finds a FAT32 volume on an
ATA disk, and runs a shell that starts user programs from `/usr/bin`.

The crate is split in two.

- `src/` is the `kosmos` library, verified with Verus. It holds the kernel's
  decisions and data structures, each with a contract:
  - `args` — command-line parsing and help text for user programs;
  - `text` — character-level helpers (trimming, comparison, copying);
  - `drivers::ata` — register layout, addressing and status decoding of the
    ATA driver, and the byte/word conversion of sectors;
  - `filesystem` — the file-system interface, an in-memory tree of files and
    directories (`memfs`), the table of open files (`file_descriptor`), and
    the sector stream the FAT volume is read through (`fat32`);
  - `dirent` — the `getdents64` record format, written by the kernel and
    read back by `ls`;
  - `syscall` — decoding of system calls and their answers;
  - `loader` — ELF load planning (with `xmas-elf` as the parser) and the
    layout of a program's argument stack;
  - `keyboard` — the scancode queue (a `crossbeam-queue` `ArrayQueue`) and
    line editing;
  - `shell` — variables, `$name` expansion, path resolution and command
    dispatch;
  - `heap`, `programs` — the user programs' bump allocator and their logic.

  Two collections are kept as vectors rather than `BTreeMap`s keyed by
  `String`, because Verus proves next to nothing about such maps: a
  directory's children are a `Vec<INode>` sorted by name (the `names_sorted`
  part of the tree's well-formedness), and the shell's variables a `Vec` of
  name/value pairs whose names are unique (the shell's type invariant). The
  file-descriptor table stays a `BTreeMap` keyed by `u64`.

  Laws that span several operations (what a read gives back after a write,
  that removing undoes adding, that resolved paths resolve to themselves,
  that a directory listing decodes to the names encoded, …) are public proof
  functions next to the operations they relate.

- `app/` is the kernel binary around the library: port I/O, the interrupt
  and segment tables, paging, the system-call entry, the FAT driver
  (`fatfs`) mounted on the library's sector stream, the keyboard decoder
  (`pc-keyboard`), and the shell loop. It is ordinary Rust.

`tests/` exercises the library on concrete values.
