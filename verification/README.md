# koto

The verified core of Koto, a music performing filesystem: a synthesizer's
unit graph is mounted as a tree of directories and files, and changing the
tree changes the sound.

- `src/kotofs.rs`: the filesystem as a state machine. The tree is built from
  the dump of the unit graph (`KotoFS::init`), and each request of the kernel
  (`lookup`, `readdir`, `create`, `mkdir`, `symlink`, `write`, `read`,
  `rename`, `unlink`, `rmdir`, ...) is a method whose contract states the new
  tree and the answer, and lists what the unit generators are to do.
  `src/kotofs/from_dump.rs` builds the tree, `src/kotofs/links.rs` proves
  that its links lead where they should, and `src/kotofs/laws.rs` holds
  what the requests keep across calls.
- `src/kotonode.rs`: the nodes, their names `param.type`, paths and links, and
  the plans that bring a unit generator in line with its node.
- `src/ugdump.rs`: the dump of a unit graph that the tree is built from.
- `src/tapirlisp/`: the Tapir Lisp reader and printer, and the dump of a
  configuration as Tapir Lisp text.
- `src/event.rs`, `src/events/`: note names.
- `src/somnia/`: the register machine of Somnia Lisp.
- `app/`: the program: command line, the synthesizer of Tapirus, FUSE.

The library is verified with Verus; `tests/` runs it on examples.
