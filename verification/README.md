# files

File operations of Linux and Android: directories and walks of directory trees, links and
resolved paths, making and removing directories, skipping and zero filling, property files, and
files mapped to memory.

- `src/` is the library, verified with Verus. It makes no system call: it decides which call to
  make and what follows from its outcome. Each operation is specified by what one step does, and
  laws (`law_*`) say what a whole run comes to.
- `app/` makes the system calls through `libc` and runs the operations of the library.
- `tests/` runs the library on concrete values.

Two behaviours may surprise. `StatExt::is_dir` and `StatExt::is_blk` look at the bits of the mode
outside of `S_IFMT`, so they hold of no file: `rm_rf` removes a path without emptying it first.
And a file that is to be mapped with `rw` is opened for reading alone, any other for reading and
writing.
