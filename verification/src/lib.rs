//! sgash, the shell of a small kernel: the line it reads, its files and directories,
//! its windows, and what it asks of the screen and the serial port.

/// Bounded byte strings and the splitting of a line into words.
pub mod text;
/// What the shell asks of the kernel's devices, and drawing text at the cursor.
pub mod console;
/// Files and the list of files of a directory.
pub mod files;
/// Directories, held in nodes of a heap and linked into lists.
pub mod dirs;
/// Windows and the list of windows on the screen.
pub mod windows;
/// The shell: the keys it takes and the commands it runs.
pub mod shell;
