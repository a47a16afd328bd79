# sgash

The shell of a small kernel, as a verified library.

- `src/text.rs`: `cstr`, a byte string with a fixed room, and how a line is split into
  words (`getarg`, `split`, `splitonce`). A string's end is marked by one four-byte
  `char` of zero, so the routines that walk a string read it up to the first four zero
  bytes in a row (`text_of`); those that count its bytes (`len`, `eq`, `concatfront`)
  take all of them.
- `src/console.rs`: `Effect`, one thing for the screen or serial port to do, and
  `Screen`, what the shell reads of them; printing and drawing text.
- `src/files.rs`: files and the list of files of a directory.
- `src/dirs.rs`: directories in a heap of nodes (`dirheap`), each with a linked list of
  subdirectories; the heap keeps every list a well-formed chain.
- `src/windows.rs`: windows, their drawing, and the list of windows from bottom to top.
- `src/shell.rs`: `Shell`, the state of the shell; `parsekey` takes one key, and
  `parse` runs a line (`ls`, `pwd`, `click`, `movewin`, `cat`, `mv`, `echo`, `cd`,
  `rm`, `mkdir`, `wr`).

Each function states what it returns and changes in its contract; Verus proves it.
The library does no input or output itself: it hands back the effects, and `app/`
carries them out on the kernel's devices.
