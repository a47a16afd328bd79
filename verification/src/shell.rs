use vstd::prelude::*;
use vstd::string::StringSliceAdditionalSpecFns;
use crate::text::{
    cstr, STR_SIZE, clip, arg_of, after_delim, low_byte, push_room, lemma_empty_str, broke_text, text_of,
    reads_as, lemma_reads_as_empty, lemma_words_have_no_zero, lemma_text_of_text, no_zero,
    lemma_text_of_no_zero,
};
use crate::files::{file, FileView, found_file, has_file, without_file, renamed, written, write_fits, name_lines, lemma_file_index, lemma_read_after_add, lemma_read_after_write};
use crate::dirs::{directory, dirnode, dirheap, name_index, lines, lemma_name_index_from, lemma_name_index_push};
use crate::windows::{
    window, windowlist, WinView, has_window, win_index, draws, any_within, blank_effect,
    bring_window_to_top, move_window,
};
use crate::console::{Effect, Screen, text, putbytes, putstr, putcstr, putchar};

verus! {

/// Room of a new file.
pub const FILE_SIZE: usize = 1024;

/// Room of the string that `pwd` builds.
pub const PATH_SIZE: usize = 4096;

/// Room of the line the shell reads.
pub const BUFFER_SIZE: usize = 256;

/// The shell: the line typed so far, the windows on the screen, the directories, the
/// root and working directories, and how far an arrow key's escape sequence has come.
pub struct Shell {
    pub buffer: cstr,
    pub winlist: windowlist,
    pub heap: dirheap,
    pub root: usize,
    pub wd: usize,
    pub arr1: bool,
    pub arr2: bool,
}

/// A line the shell reads, as `parse` takes it.
pub enum Command {
    /// `ls`: lists the working directory.
    Ls,
    /// `pwd`: prints the path of the working directory.
    Pwd,
    /// `click`: opens two windows.
    Click,
    /// `movewin`: moves the bottom window.
    Movewin,
    /// `cat x`: prints the file `x`.
    Cat(Seq<u8>),
    /// `mv f d`: moves the file `f` into the subdirectory `d`, or names it `d`.
    Mv(Seq<u8>, Seq<u8>),
    /// `echo ...`: prints the rest of the line.
    Echo(Seq<u8>),
    /// `cd ...`: goes to the subdirectory named by the rest of the line, or to the root.
    Cd(Seq<u8>),
    /// `rm x`: removes the file `x`, or the empty subdirectory `x`.
    Rm(Seq<u8>),
    /// `mkdir ...`: makes a subdirectory named by the rest of the line.
    Mkdir(Seq<u8>),
    /// `wr f w`: writes the word `w` at the end of the file `f`, made where needed.
    Wr(Seq<u8>, Seq<u8>),
    /// A first word that names no command.
    Unknown,
    /// A line in which word `k`, the first word or one a command needs, is not found.
    Missing(nat),
}

/// The command that the line `b`, read into a buffer of room `m`, stands for: one of
/// the four whole-line commands where the line reads as it (see `reads_as`), or else
/// the first word of the line's text, with the words or the rest of the text after it.
pub open spec fn command(b: Seq<u8>, m: nat) -> Command {
    let sp = low_byte(' ');
    let t = text_of(b);
    if reads_as(b, "ls".spec_bytes()) {
        Command::Ls
    } else if reads_as(b, "pwd".spec_bytes()) {
        Command::Pwd
    } else if reads_as(b, "click".spec_bytes()) {
        Command::Click
    } else if reads_as(b, "movewin".spec_bytes()) {
        Command::Movewin
    } else {
        match arg_of(t, m, sp, 0) {
            None => Command::Missing(0),
            Some(y) => {
                let a1 = arg_of(t, m, sp, 1);
                let a2 = arg_of(t, m, sp, 2);
                let rest = clip(after_delim(t, sp), STR_SIZE as nat);
                if reads_as(y, "cat".spec_bytes()) {
                    match a1 {
                        Some(x) => Command::Cat(x),
                        None => Command::Missing(1),
                    }
                } else if reads_as(y, "mv".spec_bytes()) {
                    match (a1, a2) {
                        (Some(f), Some(d)) => Command::Mv(f, d),
                        (Some(f), None) => Command::Missing(2),
                        _ => Command::Missing(1),
                    }
                } else if reads_as(y, "echo".spec_bytes()) {
                    Command::Echo(rest)
                } else if reads_as(y, "cd".spec_bytes()) {
                    Command::Cd(rest)
                } else if reads_as(y, "rm".spec_bytes()) {
                    match a1 {
                        Some(x) => Command::Rm(x),
                        None => Command::Missing(1),
                    }
                } else if reads_as(y, "mkdir".spec_bytes()) {
                    Command::Mkdir(rest)
                } else if reads_as(y, "wr".spec_bytes()) {
                    match (a1, a2) {
                        (Some(f), Some(w)) => Command::Wr(f, w),
                        (Some(f), None) => Command::Missing(2),
                        _ => Command::Missing(1),
                    }
                } else {
                    Command::Unknown
                }
            },
        }
    }
}

/// Every subdirectory records as its parent the directory whose list holds it.
pub open spec fn parents_ok(h: dirheap) -> bool {
    forall|p: int, i: int|
        0 <= p < h.size() && 0 <= i < h.dir(p).child_dir@.len()
            ==> h.dir(#[trigger] h.dir(p).child_dir@[i] as int).parent == Some(p as usize)
}

/// `g` is `h` with the files of the directory at `q` made `fs`.
pub open spec fn files_changed(h: dirheap, g: dirheap, q: int, fs: Seq<FileView>) -> bool {
    &&& g.size() == h.size()
    &&& g.dir(q).files@ == fs
    &&& g.dir(q).parent == h.dir(q).parent
    &&& g.dir(q).child_dir == h.dir(q).child_dir
    &&& g.dir(q).dname == h.dir(q).dname
    &&& forall|p: int| 0 <= p < h.size() && p != q ==> #[trigger] g.dir(p) == h.dir(p)
}

/// `g` is `h` with the files of the directories at `a` and `b` made `fa` and `fb`.
pub open spec fn two_files_changed(h: dirheap, g: dirheap, a: int, fa: Seq<FileView>, b: int, fb: Seq<FileView>) -> bool {
    &&& g.size() == h.size()
    &&& g.dir(a).files@ == fa
    &&& g.dir(a).parent == h.dir(a).parent
    &&& g.dir(a).child_dir == h.dir(a).child_dir
    &&& g.dir(a).dname == h.dir(a).dname
    &&& g.dir(b).files@ == fb
    &&& g.dir(b).parent == h.dir(b).parent
    &&& g.dir(b).child_dir == h.dir(b).child_dir
    &&& g.dir(b).dname == h.dir(b).dname
    &&& forall|p: int| 0 <= p < h.size() && p != a && p != b ==> #[trigger] g.dir(p) == h.dir(p)
}

/// `g` is `h` with the subdirectories of the directory at `q` made `ids`.
pub open spec fn kids_changed(h: dirheap, g: dirheap, q: int, ids: Seq<usize>) -> bool {
    &&& g.size() == h.size()
    &&& g.dir(q).child_dir@ == ids
    &&& g.dir(q).parent == h.dir(q).parent
    &&& g.dir(q).files@ == h.dir(q).files@
    &&& g.dir(q).dname == h.dir(q).dname
    &&& forall|p: int| 0 <= p < h.size() && p != q ==> #[trigger] g.dir(p) == h.dir(p)
}

/// Index among the subdirectories of `q` of the first one named `name`, or their number.
pub open spec fn kid_index(h: dirheap, q: int, name: Seq<u8>) -> int {
    name_index(h.names(h.dir(q).child_dir@), name)
}

/// `acc` with `w` put in front where both fit in `max` with a byte to spare.
pub open spec fn front_room(acc: Seq<u8>, w: Seq<u8>, max: nat) -> Seq<u8> {
    if acc.len() + w.len() < max { w + acc } else { acc }
}

/// The separator `pwd` puts before each name.
pub open spec fn slash() -> Seq<u8> {
    clip("/".spec_bytes(), STR_SIZE as nat)
}

/// The path `pwd` builds from `acc` by going up from the directory at `q`: its name
/// then a slash put in front, then the same for its parent, up to the root.
pub open spec fn path_from(h: dirheap, q: int, acc: Seq<u8>) -> Seq<u8>
    decreases q,
{
    let a = front_room(front_room(acc, h.dir(q).dname@, PATH_SIZE as nat), slash(), PATH_SIZE as nat);
    match h.dir(q).parent {
        Some(p) => if 0 <= p < q { path_from(h, p as int, a) } else { a },
        None => a,
    }
}

/// `ws` with `w` put at the bottom, unless a window of its name is there.
pub open spec fn front_unique(ws: Seq<WinView>, w: WinView) -> Seq<WinView> {
    if has_window(ws, w.name) { ws } else { seq![w] + ws }
}

/// `ws` with its first window named `name` moved to the top.
pub open spec fn to_top(ws: Seq<WinView>, name: Seq<u8>) -> Seq<WinView> {
    if has_window(ws, name) {
        let i = win_index(ws, name);
        ws.remove(i).push(ws[i])
    } else {
        ws
    }
}

/// The first window `click` opens.
pub open spec fn window_one() -> WinView {
    WinView { name: clip("Window 1".spec_bytes(), STR_SIZE as nat), name_room: STR_SIZE as nat, x: 200, y: 50, width: 200, height: 200, visible: true }
}

/// The second window `click` opens.
pub open spec fn window_two() -> WinView {
    WinView { name: clip("Window 2".spec_bytes(), STR_SIZE as nat), name_room: STR_SIZE as nat, x: 300, y: 200, width: 200, height: 150, visible: true }
}

/// The windows after `click`: the two windows put at the bottom, the second over the
/// first, and then the first brought to the top.
pub open spec fn click_windows(ws: Seq<WinView>) -> Seq<WinView> {
    to_top(front_unique(front_unique(ws, window_one()), window_two()), window_one().name)
}

/// The windows after `movewin`: the bottom one ten pixels further right and down.
pub open spec fn moved_windows(ws: Seq<WinView>) -> Seq<WinView> {
    if ws.len() > 0 {
        ws.update(0, WinView { x: ws[0].x.wrapping_add(10), y: ws[0].y.wrapping_add(10), ..ws[0] })
    } else {
        ws
    }
}

/// The files of the working directory after `wr f w`, `f` a string of room `f_room`: a
/// new file named `f` is added first where no file of that name is there, or where the
/// text of the name is empty; then `w` is written to the first file named `f`.
pub open spec fn wr_files(fs: Seq<FileView>, f: Seq<u8>, f_room: nat, w: Seq<u8>) -> Seq<FileView> {
    let fs1 = if has_file(fs, f) && text_of(f).len() != 0 {
        fs
    } else {
        fs.push(FileView { name: f, name_room: f_room, contents: Seq::empty(), room: FILE_SIZE as nat })
    };
    written(fs1, f, w)
}

/// Whether the directory at `q` holds neither files nor subdirectories.
pub open spec fn dir_empty(h: dirheap, q: int) -> bool {
    h.dir(q).files@.len() == 0 && h.dir(q).child_dir@.len() == 0
}

/// The heap, working directory and windows are as they were.
pub open spec fn unchanged(s: Shell, t: Shell) -> bool {
    &&& t.heap == s.heap
    &&& t.wd == s.wd
    &&& t.winlist@ == s.winlist@
}

/// What `parse` prints and draws for the line in `s`, before it draws the windows and
/// the cursor again.
pub open spec fn parse_output(s: Shell, scr: Screen) -> Seq<Effect> {
    let h = s.heap;
    let w = s.wd as int;
    let fs = h.dir(w).files@;
    let kids = h.dir(w).child_dir@;
    let ws = s.winlist@;
    let nl = text("\n".spec_bytes());
    match command(s.buffer@, s.buffer.max_len()) {
        Command::Ls => text(name_lines(fs) + lines(h.names(kids))),
        Command::Pwd => nl + text(text_of(path_from(h, w, Seq::empty()))),
        Command::Click => draws(click_windows(ws), scr) + nl + text("clicked".spec_bytes()),
        Command::Movewin => if ws.len() > 0 {
            seq![blank_effect(ws[0], scr.bg_color)] + draws(moved_windows(ws), scr)
        } else {
            Seq::empty()
        },
        Command::Cat(x) => {
            let c = text_of(found_file(fs, x).contents);
            if c.len() == 0 { Seq::empty() } else { nl + text(c) }
        },
        Command::Echo(e) => nl + text(text_of(e)),
        Command::Cd(d) => if text_of(d).len() == 0 || kid_index(h, w, d) < kids.len() {
            Seq::empty()
        } else {
            text("\nThat directory doesn't exist.".spec_bytes())
        },
        Command::Rm(x) => if has_file(fs, x) || (kid_index(h, w, x) < kids.len() && dir_empty(h, kids[kid_index(h, w, x)] as int)) {
            Seq::empty()
        } else {
            text("\nNo such file/directory or directory isn't empty.".spec_bytes())
        },
        Command::Unknown => text("\nNO".spec_bytes()),
        Command::Missing(k) => broke_text(text_of(s.buffer@), s.buffer.max_len(), low_byte(' '), k),
        _ => Seq::empty(),
    }
}

/// What `parse` does to the heap, the working directory and the windows.
pub open spec fn parse_result(s: Shell, t: Shell) -> bool {
    let h = s.heap;
    let w = s.wd as int;
    let fs = h.dir(w).files@;
    let kids = h.dir(w).child_dir@;
    let ws = s.winlist@;
    match command(s.buffer@, s.buffer.max_len()) {
        Command::Click => t.heap == h && t.wd == s.wd && t.winlist@ == click_windows(ws),
        Command::Movewin => t.heap == h && t.wd == s.wd && t.winlist@ == moved_windows(ws),
        Command::Mv(f, d) => t.wd == s.wd && t.winlist@ == ws && {
            let k = kid_index(h, w, d);
            if k < kids.len() {
                let sub = kids[k] as int;
                two_files_changed(h, t.heap, sub, h.dir(sub).files@.push(found_file(fs, f)), w, without_file(fs, f))
            } else {
                files_changed(h, t.heap, w, renamed(fs, f, d, STR_SIZE as nat))
            }
        },
        Command::Cd(d) => t.heap == h && t.winlist@ == ws && t.wd == (if text_of(d).len() == 0 {
            s.root
        } else if kid_index(h, w, d) < kids.len() {
            kids[kid_index(h, w, d)]
        } else {
            s.wd
        }),
        Command::Rm(x) => t.wd == s.wd && t.winlist@ == ws && if has_file(fs, x) {
            files_changed(h, t.heap, w, without_file(fs, x))
        } else if kid_index(h, w, x) < kids.len() && dir_empty(h, kids[kid_index(h, w, x)] as int) {
            kids_changed(h, t.heap, w, kids.remove(kid_index(h, w, x)))
        } else {
            files_changed(h, t.heap, w, fs)
        },
        Command::Mkdir(d) => t.wd == s.wd && t.winlist@ == ws && {
            let n = h.size() as int;
            &&& t.heap.size() == h.size() + 1
            &&& t.heap.dir(n).dname@ == d
            &&& t.heap.dir(n).dname.max_len() == STR_SIZE
            &&& t.heap.dir(n).parent == Some(s.wd)
            &&& t.heap.dir(n).files@.len() == 0
            &&& t.heap.dir(n).child_dir@.len() == 0
            &&& t.heap.dir(w).child_dir@ == kids.push(n as usize)
            &&& t.heap.same_but_kids(h, w)
        },
        Command::Wr(f, x) => t.wd == s.wd && t.winlist@ == ws && files_changed(h, t.heap, w, wr_files(fs, f, STR_SIZE as nat, x)),
        _ => unchanged(s, t),
    }
}

/// The windows after `parse` has run the line in `s`.
pub open spec fn parsed_windows(s: Shell) -> Seq<WinView> {
    match command(s.buffer@, s.buffer.max_len()) {
        Command::Click => click_windows(s.winlist@),
        Command::Movewin => moved_windows(s.winlist@),
        _ => s.winlist@,
    }
}

/// What the prompt prints.
pub open spec fn prompt_text() -> Seq<Effect> {
    text("\nsgash> ".spec_bytes())
}

/// What `parse` prints and draws for the line in `s`, the windows and cursor included.
pub open spec fn parse_effects(s: Shell, scr: Screen) -> Seq<Effect> {
    parse_output(s, scr) + draws(parsed_windows(s), scr) + seq![Effect::DrawCursor]
}

/// The cursor move an arrow key's last byte asks for.
pub open spec fn arrow_effect(k: u8) -> Effect {
    if k == 0x41 {
        Effect::CursorUp
    } else if k == 0x42 {
        Effect::CursorDown
    } else if k == 0x43 {
        Effect::CursorRight
    } else {
        Effect::CursorLeft
    }
}

/// What a key with byte `k` prints and draws, in the shell `s`.
pub open spec fn key_effects(s: Shell, scr: Screen, k: u8) -> Seq<Effect> {
    let ws = s.winlist@;
    let b = s.buffer@;
    if k == 13 {
        parse_effects(s, scr) + prompt_text()
    } else if k == 127 {
        if b.len() > 0 { text(seq![8u8, 32u8, 8u8]) } else { Seq::empty() }
    } else if k == 9 {
        (if ws.len() > 0 { draws(to_top(ws, ws[0].name), scr) } else { Seq::empty() }) + seq![Effect::DrawCursor]
    } else if k == 0x1B || k == 0x5B {
        Seq::empty()
    } else if 0x41 <= k <= 0x44 {
        if s.arr2 {
            seq![Effect::BlankCursor] + (if any_within(ws, scr) { draws(ws, scr) } else { Seq::empty() })
                + seq![arrow_effect(k), Effect::DrawCursor]
        } else {
            Seq::empty()
        }
    } else {
        if b.len() < s.buffer.max_len() { text(seq![k]) } else { Seq::empty() }
    }
}

/// What a key with byte `k` does to the shell `s`, making it `t`.
pub open spec fn key_result(s: Shell, t: Shell, k: u8) -> bool {
    let ws = s.winlist@;
    let b = s.buffer@;
    &&& t.root == s.root
    &&& t.buffer.max_len() == s.buffer.max_len()
    &&& if k == 13 {
        &&& parse_result(s, t)
        &&& t.buffer@ == Seq::<u8>::empty()
        &&& t.arr1 == s.arr1
        &&& t.arr2 == s.arr2
    } else {
        &&& t.heap == s.heap
        &&& t.wd == s.wd
        &&& t.winlist@ == (if k == 9 && ws.len() > 0 { to_top(ws, ws[0].name) } else { ws })
        &&& t.buffer@ == (if k == 127 {
            if b.len() > 0 { b.drop_last() } else { b }
        } else if k == 9 || k == 0x1B || k == 0x5B || 0x41 <= k <= 0x44 {
            b
        } else {
            push_room(b, s.buffer.max_len(), k)
        })
        &&& t.arr1 == (if k == 0x1B { true } else if k == 0x5B { false } else { s.arr1 })
        &&& t.arr2 == (if k == 0x5B && s.arr1 { true } else if 0x41 <= k <= 0x44 { false } else { s.arr2 })
    }
}

/// Whether the line reads as one of the commands that take the whole line.
pub open spec fn whole_line(b: Seq<u8>) -> bool {
    ||| reads_as(b, "ls".spec_bytes())
    ||| reads_as(b, "pwd".spec_bytes())
    ||| reads_as(b, "click".spec_bytes())
    ||| reads_as(b, "movewin".spec_bytes())
}

/// The buffer, the root and the arrow-key state are as they were.
pub open spec fn same_but_heap(s: Shell, t: Shell) -> bool {
    &&& t.buffer == s.buffer
    &&& t.winlist == s.winlist
    &&& t.root == s.root
    &&& t.wd == s.wd
    &&& t.arr1 == s.arr1
    &&& t.arr2 == s.arr2
}

impl Shell {
    /// The heap is well formed and each subdirectory records its parent; the root and
    /// the working directory are nodes of it; the line is within its room.
    pub open spec fn wf(&self) -> bool {
        &&& self.heap.wf()
        &&& parents_ok(self.heap)
        &&& self.root < self.heap.size()
        &&& self.wd < self.heap.size()
        &&& self.buffer.wf()
    }

    /// `movewin` moves the bottom window, so a line that reads as `movewin` needs one
    /// window at least.
    pub open spec fn can_parse(&self) -> bool {
        reads_as(self.buffer@, "movewin".spec_bytes()) ==> self.winlist@.len() > 0
    }

    /// Whether the line holds `movewin` while no window is open, which `parse` cannot run.
    pub fn movewin_without_window(&self) -> (r: bool)
        ensures
            r == !self.can_parse(),
    {
        proof { lemma_words_have_no_zero(); }
        self.buffer.streq("movewin") && self.winlist.is_empty()
    }

    /// Files changed at a node keep the heap well formed and the parents recorded.
    proof fn lemma_files_changed(h: dirheap, g: dirheap, q: int, fs: Seq<FileView>)
        requires
            h.wf(),
            g.wf(),
            parents_ok(h),
            0 <= q < h.size(),
            files_changed(h, g, q, fs),
        ensures
            parents_ok(g),
    {
        assert forall|p: int, i: int|
            0 <= p < g.size() && 0 <= i < g.dir(p).child_dir@.len()
                implies g.dir(#[trigger] g.dir(p).child_dir@[i] as int).parent == Some(p as usize) by {
            assert(g.dir(p).child_dir == h.dir(p).child_dir);
            h.lemma_kids_in_heap(p, i);
            let k = h.dir(p).child_dir@[i] as int;
            assert(h.dir(k).parent == Some(p as usize));
        }
    }

    /// The contents of the first file named `filename` in the working directory.
    pub fn read_file(&self, filename: &cstr) -> (r: cstr)
        requires
            self.wf(),
        ensures
            r@ == found_file(self.heap.dir(self.wd as int).files@, filename@).contents,
            r.max_len() == found_file(self.heap.dir(self.wd as int).files@, filename@).room,
    {
        self.heap.get(self.wd).read_file(filename)
    }

    /// Appends `word` to the first file named `filename` in the working directory.
    pub fn write_file(&mut self, filename: &cstr, word: &cstr) -> (r: bool)
        requires
            old(self).wf(),
        ensures
            final(self).wf(),
            same_but_heap(*old(self), *final(self)),
            r == write_fits(old(self).heap.dir(old(self).wd as int).files@, filename@, word@),
            files_changed(old(self).heap, final(self).heap, old(self).wd as int,
                written(old(self).heap.dir(old(self).wd as int).files@, filename@, word@)),
    {
        let wd = self.wd;
        let r = self.heap.files_mut(wd).write_file(filename, word);
        proof { Self::lemma_files_changed(old(self).heap, self.heap, wd as int, self.heap.dir(wd as int).files@); }
        r
    }

    /// Adds an empty file named `name`, of room `FILE_SIZE`, to the directory at `dir`.
    pub fn create_file(&mut self, dir: usize, name: cstr)
        requires
            old(self).wf(),
            dir < old(self).heap.size(),
        ensures
            final(self).wf(),
            same_but_heap(*old(self), *final(self)),
            files_changed(old(self).heap, final(self).heap, dir as int,
                old(self).heap.dir(dir as int).files@.push(FileView { name: name@, name_room: name.max_len(), contents: Seq::empty(), room: FILE_SIZE as nat })),
    {
        let newfile = file::new(FILE_SIZE, name);
        self.heap.files_mut(dir).add_file(newfile);
        proof { Self::lemma_files_changed(old(self).heap, self.heap, dir as int, self.heap.dir(dir as int).files@); }
    }

    /// Removes the first file named `name` from the directory at `dir`.
    pub fn delete_file(&mut self, dir: usize, name: &cstr) -> (r: bool)
        requires
            old(self).wf(),
            dir < old(self).heap.size(),
        ensures
            final(self).wf(),
            same_but_heap(*old(self), *final(self)),
            r == has_file(old(self).heap.dir(dir as int).files@, name@),
            files_changed(old(self).heap, final(self).heap, dir as int,
                without_file(old(self).heap.dir(dir as int).files@, name@)),
    {
        let r = self.heap.files_mut(dir).remove_file(name);
        proof { Self::lemma_files_changed(old(self).heap, self.heap, dir as int, self.heap.dir(dir as int).files@); }
        r
    }

    /// Prints the names of the files of the directory at `dir`, then those of its
    /// subdirectories, each after a new line.
    pub fn list_directory(&self, dir: usize, out: &mut Vec<Effect>)
        requires
            self.wf(),
            dir < self.heap.size(),
        ensures
            final(out)@ == old(out)@ + text(name_lines(self.heap.dir(dir as int).files@)
                + lines(self.heap.names(self.heap.dir(dir as int).child_dir@))),
    {
        proof { self.heap.lemma_lists(dir as int); }
        let mut b: Vec<u8> = Vec::new();
        self.heap.get(dir).directory_file_list(&self.heap, &mut b);
        assert(b@ =~= name_lines(self.heap.dir(dir as int).files@) + lines(self.heap.names(self.heap.dir(dir as int).child_dir@)));
        putbytes(b.as_slice(), out);
    }

    /// Adds a subdirectory named `dnm` to the directory at `parent`.
    pub fn create_directory(&mut self, parent: usize, dnm: cstr)
        requires
            old(self).wf(),
            parent < old(self).heap.size(),
        ensures
            final(self).wf(),
            same_but_heap(*old(self), *final(self)),
            ({
                let h = old(self).heap;
                let g = final(self).heap;
                let n = h.size() as int;
                &&& g.size() == h.size() + 1
                &&& g.dir(n).dname == dnm
                &&& g.dir(n).parent == Some(parent)
                &&& g.dir(n).files@.len() == 0
                &&& g.dir(n).child_dir@.len() == 0
                &&& g.dir(parent as int).child_dir@ == h.dir(parent as int).child_dir@.push(n as usize)
                &&& g.same_but_kids(h, parent as int)
            }),
    {
        let newdir = directory::new(dnm, Some(parent));
        let n = directory::add_dir(&mut self.heap, parent, newdir);
        proof {
            let h = old(self).heap;
            let g = self.heap;
            assert forall|p: int, i: int|
                0 <= p < g.size() && 0 <= i < g.dir(p).child_dir@.len()
                    implies g.dir(#[trigger] g.dir(p).child_dir@[i] as int).parent == Some(p as usize) by {
                if p == n {
                    assert(g.dir(p).child_dir@.len() == 0);
                } else if p == parent {
                    if i < h.dir(p).child_dir@.len() {
                        h.lemma_kids_in_heap(p, i);
                        let k = h.dir(p).child_dir@[i] as int;
                        assert(h.dir(k).parent == Some(p as usize));
                    }
                } else {
                    assert(g.dir(p) == h.dir(p));
                    h.lemma_kids_in_heap(p, i);
                    let k = h.dir(p).child_dir@[i] as int;
                    assert(h.dir(k).parent == Some(p as usize));
                }
            }
        }
    }

    /// Removes the directory at `dir` from its parent's list where it holds neither
    /// files nor subdirectories: the first subdirectory of its parent with its name goes.
    pub fn delete_directory(&mut self, dir: usize) -> (r: bool)
        requires
            old(self).wf(),
            dir < old(self).heap.size(),
            old(self).heap.dir(dir as int).parent is Some,
        ensures
            final(self).wf(),
            same_but_heap(*old(self), *final(self)),
            r == dir_empty(old(self).heap, dir as int),
            ({
                let h = old(self).heap;
                let g = final(self).heap;
                let p = h.dir(dir as int).parent.unwrap() as int;
                let k = kid_index(h, p, h.dir(dir as int).dname@);
                if r {
                    &&& g.size() == h.size()
                    &&& g.same_but_kids(h, p)
                    &&& g.dir(p).child_dir@ == (if k < h.dir(p).child_dir@.len() {
                        h.dir(p).child_dir@.remove(k)
                    } else {
                        h.dir(p).child_dir@
                    })
                } else {
                    g == h
                }
            }),
    {
        proof { self.heap.lemma_lists(dir as int); self.heap.lemma_parent_below(dir as int); }
        if self.heap.get(dir).empty(&self.heap) {
            let p = self.heap.get(dir).parent.unwrap();
            let name = self.heap.get(dir).dname.clone();
            directory::remove_dir(&mut self.heap, p, &name);
            proof {
                let h = old(self).heap;
                let g = self.heap;
                assert forall|q: int, i: int|
                    0 <= q < g.size() && 0 <= i < g.dir(q).child_dir@.len()
                        implies g.dir(#[trigger] g.dir(q).child_dir@[i] as int).parent == Some(q as usize) by {
                    if q == p {
                        let ids = h.dir(q).child_dir@;
                        let j = kid_index(h, q, name@);
                        let i0 = if j < ids.len() && i >= j { i + 1 } else { i };
                        lemma_name_index_from(h.names(ids), name@, 0);
                        if j < ids.len() {
                            ids.remove_ensures(j);
                        }
                        assert(g.dir(q).child_dir@[i] == ids[i0]);
                        h.lemma_kids_in_heap(q, i0);
                        let k = ids[i0] as int;
                        assert(h.dir(k).parent == Some(q as usize));
                    } else {
                        assert(g.dir(q) == h.dir(q));
                        h.lemma_kids_in_heap(q, i);
                        let k = h.dir(q).child_dir@[i] as int;
                        assert(h.dir(k).parent == Some(q as usize));
                    }
                }
            }
            return true;
        }
        false
    }

    /// The node of the first subdirectory named `dnm` of the directory at `parent`.
    pub fn get_directory(&self, parent: usize, dnm: &cstr) -> (r: Option<usize>)
        requires
            self.wf(),
            parent < self.heap.size(),
        ensures
            ({
                let ids = self.heap.dir(parent as int).child_dir@;
                let i = kid_index(self.heap, parent as int, dnm@);
                match r {
                    None => i == ids.len(),
                    Some(x) => i < ids.len() && x == ids[i],
                }
            }),
    {
        proof { self.heap.lemma_lists(parent as int); }
        self.heap.get(parent).get_child(&self.heap, dnm)
    }

    /// The path of the working directory, built as `pwd` builds it.
    fn pwd(&self) -> (r: cstr)
        requires
            self.wf(),
        ensures
            r@ == path_from(self.heap, self.wd as int, Seq::empty()),
    {
        let mut pwd = cstr::new(PATH_SIZE);
        let sl = cstr::from_str("/");
        let mut current: Option<usize> = Some(self.wd);
        while current.is_some()
            invariant
                self.wf(),
                pwd.max_len() == PATH_SIZE,
                sl@ == slash(),
                match current {
                    Some(c) => c < self.heap.size()
                        && path_from(self.heap, c as int, pwd@) == path_from(self.heap, self.wd as int, Seq::empty()),
                    None => pwd@ == path_from(self.heap, self.wd as int, Seq::empty()),
                },
            decreases match current {
                Some(c) => c as int + 1,
                None => 0,
            },
        {
            let c = current.unwrap();
            proof { self.heap.lemma_parent_below(c as int); }
            let d = self.heap.get(c);
            pwd.concatfront(&d.dname);
            pwd.concatfront(&sl);
            current = d.parent;
        }
        pwd
    }

    proof fn lemma_files_changed_trans(h: dirheap, m: dirheap, g: dirheap, q: int, a: Seq<FileView>, b: Seq<FileView>)
        requires
            0 <= q < h.size(),
            files_changed(h, m, q, a),
            files_changed(m, g, q, b),
        ensures
            files_changed(h, g, q, b),
    {
        assert forall|p: int| 0 <= p < h.size() && p != q implies #[trigger] g.dir(p) == h.dir(p) by {
            assert(g.dir(p) == m.dir(p));
        }
    }

    /// `cat x`: prints the text of the first file named `x` after a new line, where it
    /// is not empty.
    fn run_cat(&self, x: &cstr, out: &mut Vec<Effect>)
        requires
            self.wf(),
        ensures
            ({
                let c = text_of(found_file(self.heap.dir(self.wd as int).files@, x@).contents);
                final(out)@ == old(out)@ + (if c.len() == 0 {
                    Seq::<Effect>::empty()
                } else {
                    text("\n".spec_bytes()) + text(c)
                })
            }),
    {
        let catout = self.read_file(x);
        proof {
            lemma_empty_str();
            lemma_reads_as_empty(catout@);
        }
        if !catout.streq("") {
            putstr("\n", out);
            putcstr(&catout, out);
            assert(out@ =~= old(out)@ + (text("\n".spec_bytes()) + text(text_of(catout@))));
        } else {
            assert(old(out)@ =~= old(out)@ + Seq::<Effect>::empty());
        }
    }

    /// `mv f d`: moves the first file named `f` into the first subdirectory named `d`;
    /// where there is no such subdirectory, names every file named `f` `d`.
    fn run_mv(&mut self, filename: &cstr, dir: &cstr)
        requires
            old(self).wf(),
        ensures
            final(self).wf(),
            same_but_heap(*old(self), *final(self)),
            ({
                let h = old(self).heap;
                let w = old(self).wd as int;
                let fs = h.dir(w).files@;
                let kids = h.dir(w).child_dir@;
                let k = kid_index(h, w, dir@);
                if k < kids.len() {
                    let sub = kids[k] as int;
                    two_files_changed(h, final(self).heap, sub, h.dir(sub).files@.push(found_file(fs, filename@)),
                        w, without_file(fs, filename@))
                } else {
                    files_changed(h, final(self).heap, w, renamed(fs, filename@, dir@, dir.max_len()))
                }
            }),
    {
        let wd = self.wd;
        match self.get_directory(wd, dir) {
            Some(sub) => {
                proof {
                    let k = kid_index(self.heap, wd as int, dir@);
                    lemma_name_index_from(self.heap.names(self.heap.dir(wd as int).child_dir@), dir@, 0);
                    self.heap.lemma_kids_in_heap(wd as int, k);
                }
                let f = self.heap.get(wd).get_file(filename);
                self.heap.files_mut(sub).add_file(f);
                let ghost mid = self.heap;
                proof { Self::lemma_files_changed(old(self).heap, mid, sub as int, mid.dir(sub as int).files@); }
                self.heap.files_mut(wd).remove_file_nofree(filename);
                proof {
                    let h = old(self).heap;
                    let fs = h.dir(wd as int).files@;
                    Self::lemma_files_changed(mid, self.heap, wd as int, self.heap.dir(wd as int).files@);
                    assert(mid.dir(wd as int) == h.dir(wd as int));
                    assert(files_changed(h, mid, sub as int, h.dir(sub as int).files@.push(found_file(fs, filename@))));
                    assert(files_changed(mid, self.heap, wd as int, without_file(fs, filename@)));
                    assert(self.heap.dir(sub as int) == mid.dir(sub as int));
                    assert forall|p: int| 0 <= p < h.size() && p != sub && p != wd implies #[trigger] self.heap.dir(p) == h.dir(p) by {
                        assert(self.heap.dir(p) == mid.dir(p));
                    }
                }
            },
            None => {
                self.heap.files_mut(wd).set_new_name(filename, dir);
                proof { Self::lemma_files_changed(old(self).heap, self.heap, wd as int, self.heap.dir(wd as int).files@); }
            },
        }
    }

    /// `cd d`: goes to the root where the text of `d` is empty, to the first subdirectory named `d`
    /// where there is one, and complains otherwise.
    fn run_cd(&mut self, dir: &cstr, out: &mut Vec<Effect>)
        requires
            old(self).wf(),
        ensures
            final(self).wf(),
            final(self).heap == old(self).heap,
            final(self).buffer == old(self).buffer,
            final(self).winlist == old(self).winlist,
            final(self).root == old(self).root,
            final(self).arr1 == old(self).arr1,
            final(self).arr2 == old(self).arr2,
            ({
                let h = old(self).heap;
                let w = old(self).wd as int;
                let kids = h.dir(w).child_dir@;
                let k = kid_index(h, w, dir@);
                &&& final(self).wd == (if text_of(dir@).len() == 0 {
                    old(self).root
                } else if k < kids.len() {
                    kids[k]
                } else {
                    old(self).wd
                })
                &&& final(out)@ == old(out)@ + (if text_of(dir@).len() == 0 || k < kids.len() {
                    Seq::<Effect>::empty()
                } else {
                    text("\nThat directory doesn't exist.".spec_bytes())
                })
            }),
    {
        proof {
            lemma_empty_str();
            lemma_reads_as_empty(dir@);
        }
        if dir.streq("") {
            self.wd = self.root;
            assert(old(out)@ =~= old(out)@ + Seq::<Effect>::empty());
        } else {
            let wd = self.wd;
            match self.get_directory(wd, dir) {
                Some(sub) => {
                    proof {
                        let k = kid_index(self.heap, wd as int, dir@);
                        lemma_name_index_from(self.heap.names(self.heap.dir(wd as int).child_dir@), dir@, 0);
                        self.heap.lemma_kids_in_heap(wd as int, k);
                    }
                    self.wd = sub;
                    assert(old(out)@ =~= old(out)@ + Seq::<Effect>::empty());
                },
                None => {
                    putstr("\nThat directory doesn't exist.", out);
                },
            }
        }
    }

    /// `rm x`: removes the first file named `x`; where there is none, removes the first
    /// subdirectory named `x` if it is empty; complains where neither went.
    fn run_rm(&mut self, x: &cstr, out: &mut Vec<Effect>)
        requires
            old(self).wf(),
        ensures
            final(self).wf(),
            same_but_heap(*old(self), *final(self)),
            ({
                let h = old(self).heap;
                let w = old(self).wd as int;
                let fs = h.dir(w).files@;
                let kids = h.dir(w).child_dir@;
                let k = kid_index(h, w, x@);
                let t = final(self).heap;
                &&& if has_file(fs, x@) {
                    files_changed(h, t, w, without_file(fs, x@))
                } else if k < kids.len() && dir_empty(h, kids[k] as int) {
                    kids_changed(h, t, w, kids.remove(k))
                } else {
                    files_changed(h, t, w, fs)
                }
                &&& final(out)@ == old(out)@ + (if has_file(fs, x@) || (k < kids.len() && dir_empty(h, kids[k] as int)) {
                    Seq::<Effect>::empty()
                } else {
                    text("\nNo such file/directory or directory isn't empty.".spec_bytes())
                })
            }),
    {
        let wd = self.wd;
        if self.delete_file(wd, x) {
            assert(old(out)@ =~= old(out)@ + Seq::<Effect>::empty());
            return;
        }
        let ghost mid = self.heap;
        let ghost h = old(self).heap;
        proof {
            assert(without_file(h.dir(wd as int).files@, x@) == h.dir(wd as int).files@);
        }
        let deleted = match self.get_directory(wd, x) {
            Some(c) => {
                proof {
                    let ids = mid.dir(wd as int).child_dir@;
                    let k = kid_index(mid, wd as int, x@);
                    lemma_name_index_from(mid.names(ids), x@, 0);
                    mid.lemma_kids_in_heap(wd as int, k);
                    assert(mid.dir(c as int).parent == Some(wd));
                    assert(mid.names(ids)[k] == mid.dir(c as int).dname@);
                    assert(mid.dir(wd as int).child_dir == h.dir(wd as int).child_dir);
                    assert(mid.dir(c as int) == h.dir(c as int));
                    assert(h.names(ids) =~= mid.names(ids)) by {
                        assert forall|j: int| 0 <= j < ids.len() implies h.names(ids)[j] == mid.names(ids)[j] by {
                            mid.lemma_kids_in_heap(wd as int, j);
                            if ids[j] as int != wd as int {
                                assert(mid.dir(ids[j] as int) == h.dir(ids[j] as int));
                            }
                        }
                    }
                }
                self.delete_directory(c)
            },
            None => {
                proof {
                    let ids = mid.dir(wd as int).child_dir@;
                    assert(h.names(ids) =~= mid.names(ids)) by {
                        assert forall|j: int| 0 <= j < ids.len() implies h.names(ids)[j] == mid.names(ids)[j] by {
                            mid.lemma_kids_in_heap(wd as int, j);
                            if ids[j] as int != wd as int {
                                assert(mid.dir(ids[j] as int) == h.dir(ids[j] as int));
                            }
                        }
                    }
                }
                false
            },
        };
        if !deleted {
            putstr("\nNo such file/directory or directory isn't empty.", out);
        } else {
            assert(old(out)@ =~= old(out)@ + Seq::<Effect>::empty());
        }
    }

    /// `wr f w`: adds an empty file named `f` where there is none of that name (or where
    /// the text of the name is empty), then writes `w` to the first file named `f`.
    fn run_wr(&mut self, filename: &cstr, words: &cstr)
        requires
            old(self).wf(),
        ensures
            final(self).wf(),
            same_but_heap(*old(self), *final(self)),
            files_changed(old(self).heap, final(self).heap, old(self).wd as int,
                wr_files(old(self).heap.dir(old(self).wd as int).files@, filename@, filename.max_len(), words@)),
    {
        let wd = self.wd;
        let f = self.heap.get(wd).get_file(filename);
        proof {
            lemma_empty_str();
            lemma_reads_as_empty(f.fname@);
            lemma_reads_as_empty(Seq::<u8>::empty());
            lemma_file_index(self.heap.dir(wd as int).files@, filename@);
        }
        let ghost fs = self.heap.dir(wd as int).files@;
        if !f.fname.streq("") {
            assert(has_file(fs, filename@) && text_of(filename@).len() != 0);
            self.write_file(filename, words);
        } else {
            proof {
                if has_file(fs, filename@) {
                    assert(f.fname@ == filename@);
                }
            }
            assert(!(has_file(fs, filename@) && text_of(filename@).len() != 0));
            self.create_file(wd, filename.clone());
            let ghost mid = self.heap;
            self.write_file(filename, words);
            proof {
                Self::lemma_files_changed_trans(old(self).heap, mid, self.heap, wd as int,
                    mid.dir(wd as int).files@, self.heap.dir(wd as int).files@);
            }
        }
    }

    /// A new shell: an empty line of room `BUFFER_SIZE`, no windows, and the root
    /// directory as working directory; the prompt is printed.
    pub fn init(out: &mut Vec<Effect>) -> (r: Shell)
        ensures
            r.wf(),
            r.buffer@ == Seq::<u8>::empty(),
            r.buffer.max_len() == BUFFER_SIZE,
            r.winlist@ == Seq::<WinView>::empty(),
            r.heap.size() == 1,
            r.root == 0,
            r.wd == 0,
            r.heap.dir(0).dname@ == clip("root".spec_bytes(), STR_SIZE as nat),
            r.heap.dir(0).parent is None,
            r.heap.dir(0).files@.len() == 0,
            r.heap.dir(0).child_dir@.len() == 0,
            !r.arr1,
            !r.arr2,
            final(out)@ == old(out)@ + prompt_text(),
    {
        let buffer = cstr::new(BUFFER_SIZE);
        let root_name = cstr::from_str("root");
        let root_dir = directory::new(root_name, None);
        let winlist = windowlist::new();
        let mut heap = dirheap::new();
        let root = dirnode::new(&mut heap, root_dir);
        let mut sh = Shell { buffer, winlist, heap, root, wd: root, arr1: false, arr2: false };
        sh.prompt(true, out);
        sh
    }

    /// Prints the prompt and empties the line.
    pub fn prompt(&mut self, startup: bool, out: &mut Vec<Effect>)
        ensures
            final(self).buffer@ == Seq::<u8>::empty(),
            final(self).buffer.max_len() == old(self).buffer.max_len(),
            final(self).winlist == old(self).winlist,
            final(self).heap == old(self).heap,
            final(self).root == old(self).root,
            final(self).wd == old(self).wd,
            final(self).arr1 == old(self).arr1,
            final(self).arr2 == old(self).arr2,
            final(out)@ == old(out)@ + prompt_text(),
    {
        putstr("\nsgash> ", out);
        self.buffer.reset();
    }


    /// Runs a line whose first word is `y`.
    #[verifier::rlimit(40)]
    fn run_word(&mut self, y: &cstr, scr: &Screen, out: &mut Vec<Effect>)
        requires
            old(self).wf(),
            !whole_line(old(self).buffer@),
            arg_of(text_of(old(self).buffer@), old(self).buffer.max_len(), low_byte(' '), 0) == Some(y@),
        ensures
            final(self).wf(),
            final(self).buffer == old(self).buffer,
            final(self).root == old(self).root,
            final(self).arr1 == old(self).arr1,
            final(self).arr2 == old(self).arr2,
            parse_result(*old(self), *final(self)),
            final(out)@ == old(out)@ + parse_output(*old(self), *scr),
    {
        let ghost s0 = *self;
        let ghost o0 = out@;
        let ghost b = self.buffer@;
        let ghost m = self.buffer.max_len();
        let ghost sp = low_byte(' ');
        proof { lemma_words_have_no_zero(); }
        if y.streq("cat") {
            match self.buffer.getarg(' ', 1, out) {
                Some(x) => {
                    assert(command(b, m) == Command::Cat(x@));
                    self.run_cat(&x, out);
                    assert(parse_result(s0, *self));
                },
                None => {
                    assert(command(b, m) is Missing);
                    assert(out@ =~= o0 + parse_output(s0, *scr));
                },
            }
        } else if y.streq("mv") {
            match self.buffer.getarg(' ', 1, out) {
                Some(filename) => match self.buffer.getarg(' ', 2, out) {
                    Some(dir) => {
                        assert(command(b, m) == Command::Mv(filename@, dir@));
                        self.run_mv(&filename, &dir);
                        assert(parse_result(s0, *self));
                        assert(out@ =~= o0 + parse_output(s0, *scr));
                    },
                    None => {
                        assert(command(b, m) is Missing);
                        assert(out@ =~= o0 + parse_output(s0, *scr));
                    },
                },
                None => {
                    assert(command(b, m) is Missing);
                    assert(out@ =~= o0 + parse_output(s0, *scr));
                },
            }
        } else if y.streq("echo") {
            let (a, e) = self.buffer.splitonce(' ');
            assert(command(b, m) == Command::Echo(e@));
            putstr("\n", out);
            putcstr(&e, out);
            assert(parse_result(s0, *self));
            assert(out@ =~= o0 + parse_output(s0, *scr));
        } else if y.streq("cd") {
            let (cmd, dir) = self.buffer.splitonce(' ');
            assert(command(b, m) == Command::Cd(dir@));
            self.run_cd(&dir, out);
            assert(parse_result(s0, *self));
        } else if y.streq("rm") {
            match self.buffer.getarg(' ', 1, out) {
                Some(x) => {
                    assert(command(b, m) == Command::Rm(x@));
                    self.run_rm(&x, out);
                    assert(parse_result(s0, *self));
                },
                None => {
                    assert(command(b, m) is Missing);
                    assert(out@ =~= o0 + parse_output(s0, *scr));
                },
            }
        } else if y.streq("mkdir") {
            let (cmd, dir) = self.buffer.splitonce(' ');
            assert(command(b, m) == Command::Mkdir(dir@));
            let wd = self.wd;
            self.create_directory(wd, dir);
            assert(parse_result(s0, *self));
            assert(out@ =~= o0 + parse_output(s0, *scr));
        } else if y.streq("wr") {
            match self.buffer.getarg(' ', 1, out) {
                Some(filename) => match self.buffer.getarg(' ', 2, out) {
                    Some(words) => {
                        assert(command(b, m) == Command::Wr(filename@, words@));
                        self.run_wr(&filename, &words);
                        assert(parse_result(s0, *self));
                        assert(out@ =~= o0 + parse_output(s0, *scr));
                    },
                    None => {
                        assert(command(b, m) is Missing);
                        assert(out@ =~= o0 + parse_output(s0, *scr));
                    },
                },
                None => {
                    assert(command(b, m) is Missing);
                    assert(out@ =~= o0 + parse_output(s0, *scr));
                },
            }
        } else {
            assert(command(b, m) == Command::Unknown);
            putstr("\nNO", out);
            assert(parse_result(s0, *self));
        }
    }

    /// Runs a line that is a whole-line command.
    fn run_line(&mut self, scr: &Screen, out: &mut Vec<Effect>)
        requires
            old(self).wf(),
            whole_line(old(self).buffer@),
            old(self).can_parse(),
        ensures
            final(self).wf(),
            final(self).buffer == old(self).buffer,
            final(self).root == old(self).root,
            final(self).arr1 == old(self).arr1,
            final(self).arr2 == old(self).arr2,
            parse_result(*old(self), *final(self)),
            final(self).winlist@ == parsed_windows(*old(self)),
            final(out)@ == old(out)@ + parse_output(*old(self), *scr),
    {
        let ghost s0 = *self;
        let ghost o0 = out@;
        let ghost b = self.buffer@;
        let ghost m = self.buffer.max_len();
        proof { lemma_words_have_no_zero(); }
        if self.buffer.streq("ls") {
            assert(command(b, m) == Command::Ls);
            let wd = self.wd;
            self.list_directory(wd, out);
        } else if self.buffer.streq("pwd") {
            assert(command(b, m) == Command::Pwd);
            let p = self.pwd();
            putstr("\n", out);
            putcstr(&p, out);
            assert(out@ =~= o0 + parse_output(s0, *scr));
        } else if self.buffer.streq("click") {
            assert(command(b, m) == Command::Click);
            let w = window::new(cstr::from_str("Window 1"), 200, 50, 200, 200, true);
            let w2 = window::new(cstr::from_str("Window 2"), 300, 200, 200, 150, true);
            let wname = w.name.clone();
            self.winlist.add_win_front(w);
            self.winlist.add_win_front(w2);
            bring_window_to_top(&mut self.winlist, &wname, scr, out);
            putstr("\n", out);
            putstr("clicked", out);
            assert(out@ =~= o0 + parse_output(s0, *scr));
        } else {
            assert(command(b, m) == Command::Movewin);
            let head = self.winlist.get_bot();
            proof {
                assert(win_index(self.winlist@, head.name@) == 0);
            }
            move_window(&mut self.winlist, &head.name, head.x.wrapping_add(10), head.y.wrapping_add(10), scr, out);
            assert(out@ =~= o0 + parse_output(s0, *scr));
        }
    }

    /// Runs the line typed so far, draws the windows and the cursor, and empties the line.
    pub fn parse(&mut self, scr: &Screen, out: &mut Vec<Effect>)
        requires
            old(self).wf(),
            old(self).can_parse(),
        ensures
            final(self).wf(),
            final(self).buffer@ == Seq::<u8>::empty(),
            final(self).buffer.max_len() == old(self).buffer.max_len(),
            final(self).root == old(self).root,
            final(self).arr1 == old(self).arr1,
            final(self).arr2 == old(self).arr2,
            parse_result(*old(self), *final(self)),
            final(self).winlist@ == parsed_windows(*old(self)),
            final(out)@ == old(out)@ + parse_effects(*old(self), *scr),
    {
        let ghost s0 = *self;
        let ghost o0 = out@;
        let ghost b = self.buffer@;
        let ghost m = self.buffer.max_len();
        proof { lemma_words_have_no_zero(); }
        if self.buffer.streq("ls") || self.buffer.streq("pwd") || self.buffer.streq("click")
            || self.buffer.streq("movewin") {
            self.run_line(scr, out);
        } else {
            match self.buffer.getarg(' ', 0, out) {
                Some(y) => {
                    self.run_word(&y, scr, out);
                    assert(command(b, m) != Command::Click && command(b, m) != Command::Movewin);
                },
                None => {
                    assert(command(b, m) is Missing);
                    assert(out@ =~= o0 + parse_output(s0, *scr));
                },
            }
        }
        self.winlist.draw_all(scr, out);
        out.push(Effect::DrawCursor);
        self.buffer.reset();
        assert(out@ =~= o0 + parse_effects(s0, *scr));
    }

    /// Takes one key: Enter runs the line, Delete removes its last byte, Tab brings the
    /// bottom window to the top, an arrow key's escape sequence moves the cursor, and any
    /// other byte is added to the line and echoed where it fits.
    pub fn parsekey(&mut self, x: char, scr: &Screen, out: &mut Vec<Effect>)
        requires
            old(self).wf(),
            low_byte(x) == 13 ==> old(self).can_parse(),
        ensures
            final(self).wf(),
            key_result(*old(self), *final(self), low_byte(x)),
            final(out)@ == old(out)@ + key_effects(*old(self), *scr, low_byte(x)),
    {
        let ghost s0 = *self;
        let ghost o0 = out@;
        let k = ((x as u32) % 256) as u8;
        if k == 13 {
            self.parse(scr, out);
            self.prompt(false, out);
            assert(out@ =~= o0 + key_effects(s0, *scr, k));
        } else if k == 127 {
            if self.buffer.delete_char() {
                putchar(8, out);
                putchar(32, out);
                putchar(8, out);
                assert(out@ =~= o0 + key_effects(s0, *scr, k));
            } else {
                assert(out@ =~= o0 + key_effects(s0, *scr, k));
            }
        } else if k == 9 {
            if !self.winlist.is_empty() {
                let win = self.winlist.get_bot();
                bring_window_to_top(&mut self.winlist, &win.name, scr, out);
            }
            out.push(Effect::DrawCursor);
            assert(out@ =~= o0 + key_effects(s0, *scr, k));
        } else if k == 0x1B {
            self.arr1 = true;
            assert(out@ =~= o0 + key_effects(s0, *scr, k));
        } else if k == 0x5B {
            if self.arr1 {
                self.arr2 = true;
                self.arr1 = false;
            }
            assert(out@ =~= o0 + key_effects(s0, *scr, k));
        } else if k == 0x41 {
            self.arrow(Effect::CursorUp, scr, out);
            assert(out@ =~= o0 + key_effects(s0, *scr, k));
        } else if k == 0x42 {
            self.arrow(Effect::CursorDown, scr, out);
            assert(out@ =~= o0 + key_effects(s0, *scr, k));
        } else if k == 0x43 {
            self.arrow(Effect::CursorRight, scr, out);
            assert(out@ =~= o0 + key_effects(s0, *scr, k));
        } else if k == 0x44 {
            self.arrow(Effect::CursorLeft, scr, out);
            assert(out@ =~= o0 + key_effects(s0, *scr, k));
        } else {
            if self.buffer.add_char(k) {
                putchar(k, out);
            }
            assert(out@ =~= o0 + key_effects(s0, *scr, k));
        }
    }

    /// The last byte of an arrow key's escape sequence: where the sequence came before it,
    /// blanks the cursor, redraws the windows where the cursor was over one, moves the
    /// cursor and draws it.
    fn arrow(&mut self, mv: Effect, scr: &Screen, out: &mut Vec<Effect>)
        ensures
            final(self).buffer == old(self).buffer,
            final(self).winlist == old(self).winlist,
            final(self).heap == old(self).heap,
            final(self).root == old(self).root,
            final(self).wd == old(self).wd,
            final(self).arr1 == old(self).arr1,
            !final(self).arr2,
            final(out)@ == old(out)@ + (if old(self).arr2 {
                seq![Effect::BlankCursor] + (if any_within(old(self).winlist@, *scr) {
                    draws(old(self).winlist@, *scr)
                } else {
                    Seq::empty()
                }) + seq![mv, Effect::DrawCursor]
            } else {
                Seq::empty()
            }),
    {
        if self.arr2 {
            out.push(Effect::BlankCursor);
            let ghost o1 = out@;
            if self.winlist.cursor_over_window(scr) {
                self.winlist.draw_all(scr, out);
            } else {
                assert(out@ =~= o1 + Seq::<Effect>::empty());
            }
            out.push(mv);
            out.push(Effect::DrawCursor);
            self.arr2 = false;
            assert(final(out)@ =~= old(out)@ + (seq![Effect::BlankCursor] + (if any_within(old(self).winlist@, *scr) {
                draws(old(self).winlist@, *scr)
            } else {
                Seq::empty()
            }) + seq![mv, Effect::DrawCursor]));
        } else {
            assert(final(out)@ =~= old(out)@ + Seq::<Effect>::empty());
        }
    }

    /// A directory made with `mkdir` under a name that no subdirectory had is the one
    /// `cd` then goes to by that name, and `rm` can take it away again, which gives back
    /// the subdirectories there were.
    pub proof fn lemma_mkdir_then_cd_rm(s: Shell, t: Shell, d: Seq<u8>)
        requires
            s.wf(),
            command(s.buffer@, s.buffer.max_len()) == Command::Mkdir(d),
            parse_result(s, t),
            kid_index(s.heap, s.wd as int, d) == s.heap.dir(s.wd as int).child_dir@.len(),
        ensures
            ({
                let w = s.wd as int;
                let kids = s.heap.dir(w).child_dir@;
                let n = s.heap.size() as usize;
                let k = kid_index(t.heap, w, d);
                &&& t.wd == s.wd
                &&& k == kids.len()
                &&& t.heap.dir(w).child_dir@[k] == n
                &&& dir_empty(t.heap, n as int)
                &&& t.heap.dir(w).child_dir@.remove(k) == kids
            }),
    {
        let w = s.wd as int;
        let h = s.heap;
        let g = t.heap;
        let kids = h.dir(w).child_dir@;
        h.lemma_size_fits();
        let n = h.size() as usize;
        assert(g.dir(w).child_dir@ == kids.push(n));
        assert(g.names(kids.push(n)) =~= h.names(kids).push(d)) by {
            assert(g.names(kids.push(n))[kids.len() as int] == g.dir(n as int).dname@);
            assert forall|j: int| 0 <= j < kids.len() implies g.names(kids.push(n))[j] == h.names(kids).push(d)[j] by {
                h.lemma_kids_in_heap(w, j);
                assert(g.dir(kids[j] as int) == h.dir(kids[j] as int));
            }
        }
        lemma_name_index_push(h.names(kids), d);
        assert(kids.push(n).remove(kids.len() as int) =~= kids);
    }

    /// Enter runs the line as `parse` does and then prints the prompt: its output is that
    /// of `parse` followed by the prompt, and the shell it leaves stands to the old one as
    /// the shell `parse` leaves does, with the line emptied and the rest kept.
    pub proof fn lemma_enter_is_parse_then_prompt(s: Shell, t: Shell, scr: Screen)
        ensures
            key_effects(s, scr, 13) == parse_effects(s, scr) + prompt_text(),
            key_result(s, t, 13) <==> ({
                &&& parse_result(s, t)
                &&& t.buffer@ == Seq::<u8>::empty()
                &&& t.buffer.max_len() == s.buffer.max_len()
                &&& t.root == s.root
                &&& t.arr1 == s.arr1
                &&& t.arr2 == s.arr2
            }),
    {
    }

    /// Writing words with `wr` to a name that no file had, and whose text is not empty,
    /// makes a file that `cat` then finds holding the text of those words, where they
    /// fit in a new file.
    pub proof fn lemma_wr_then_cat(fs: Seq<FileView>, f: Seq<u8>, f_room: nat, w: Seq<u8>)
        requires
            !has_file(fs, f),
            text_of(f).len() != 0,
            w.len() + 1 < FILE_SIZE,
        ensures
            found_file(wr_files(fs, f, f_room, w), f).contents == text_of(w),
            text_of(found_file(wr_files(fs, f, f_room, w), f).contents) == text_of(w),
    {
        let nf = FileView { name: f, name_room: f_room, contents: Seq::empty(), room: FILE_SIZE as nat };
        lemma_read_after_add(fs, nf);
        let fs1 = fs.push(nf);
        lemma_file_index(fs1, f);
        lemma_read_after_write(fs1, f, w);
        assert(Seq::<u8>::empty() + text_of(w) =~= text_of(w));
        lemma_text_of_text(w);
    }
}


/// `cd x`, where the text of `x` is not empty and no subdirectory of the working
/// directory is named `x`, stays in the working directory, changes nothing else, and
/// says that the directory does not exist.
pub proof fn lemma_cd_to_missing_stays(s: Shell, t: Shell, scr: Screen, x: Seq<u8>)
    requires
        command(s.buffer@, s.buffer.max_len()) == Command::Cd(x),
        text_of(x).len() != 0,
        forall|i: int| 0 <= i < s.heap.dir(s.wd as int).child_dir@.len()
            ==> #[trigger] s.heap.dir(s.heap.dir(s.wd as int).child_dir@[i] as int).dname@ != x,
        parse_result(s, t),
    ensures
        t.wd == s.wd,
        t.heap == s.heap,
        t.winlist@ == s.winlist@,
        parse_output(s, scr) == text("\nThat directory doesn't exist.".spec_bytes()),
{
    let h = s.heap;
    let kids = h.dir(s.wd as int).child_dir@;
    lemma_name_index_from(h.names(kids), x, 0);
    if kid_index(h, s.wd as int, x) < kids.len() {
        let k = kid_index(h, s.wd as int, x);
        assert(h.names(kids)[k] == h.dir(kids[k] as int).dname@);
    }
}

/// `rm x`, where no file of the working directory is named `x` and its first
/// subdirectory named `x` holds a file or a subdirectory, removes nothing: the working
/// directory keeps its files and subdirectories, and the shell says that nothing went.
pub proof fn lemma_rm_keeps_directory_that_is_not_empty(s: Shell, t: Shell, scr: Screen, x: Seq<u8>, k: int)
    requires
        command(s.buffer@, s.buffer.max_len()) == Command::Rm(x),
        forall|j: int| 0 <= j < s.heap.dir(s.wd as int).files@.len()
            ==> #[trigger] s.heap.dir(s.wd as int).files@[j].name != x,
        0 <= k < s.heap.dir(s.wd as int).child_dir@.len(),
        s.heap.dir(s.heap.dir(s.wd as int).child_dir@[k] as int).dname@ == x,
        forall|j: int| 0 <= j < k
            ==> #[trigger] s.heap.dir(s.heap.dir(s.wd as int).child_dir@[j] as int).dname@ != x,
        ({
            let d = s.heap.dir(s.heap.dir(s.wd as int).child_dir@[k] as int);
            d.child_dir@.len() > 0 || d.files@.len() > 0
        }),
        parse_result(s, t),
    ensures
        t.wd == s.wd,
        t.heap.size() == s.heap.size(),
        t.heap.dir(s.wd as int).child_dir@ == s.heap.dir(s.wd as int).child_dir@,
        t.heap.dir(s.wd as int).files@ == s.heap.dir(s.wd as int).files@,
        parse_output(s, scr) == text("\nNo such file/directory or directory isn't empty.".spec_bytes()),
{
    let h = s.heap;
    let w = s.wd as int;
    let kids = h.dir(w).child_dir@;
    let fs = h.dir(w).files@;
    lemma_file_index(fs, x);
    lemma_name_index_from(h.names(kids), x, 0);
    assert(h.names(kids)[k] == x);
    let ki = kid_index(h, w, x);
    if ki < k {
        assert(h.names(kids)[ki] == h.dir(kids[ki] as int).dname@);
    }
    assert(ki == k);
    assert(!has_file(fs, x));
    assert(without_file(fs, x) == fs);
}

/// `wr f w`, where the working directory holds a file named `f` and the text of `f` is
/// not empty, makes no file: the directory keeps as many files, all as they were but the
/// first one named `f`, whose contents gain the text of `w` where all of `w` fits.
pub proof fn lemma_wr_to_existing_file(s: Shell, t: Shell, f: Seq<u8>, w: Seq<u8>, i: int)
    requires
        command(s.buffer@, s.buffer.max_len()) == Command::Wr(f, w),
        text_of(f).len() != 0,
        0 <= i < s.heap.dir(s.wd as int).files@.len(),
        s.heap.dir(s.wd as int).files@[i].name == f,
        forall|j: int| 0 <= j < i ==> #[trigger] s.heap.dir(s.wd as int).files@[j].name != f,
        parse_result(s, t),
    ensures
        ({
            let fs = s.heap.dir(s.wd as int).files@;
            let gs = t.heap.dir(s.wd as int).files@;
            &&& t.wd == s.wd
            &&& gs.len() == fs.len()
            &&& forall|j: int| 0 <= j < fs.len() && j != i ==> #[trigger] gs[j] == fs[j]
            &&& gs[i] == (if fs[i].contents.len() + w.len() < fs[i].room {
                FileView { contents: fs[i].contents + text_of(w), ..fs[i] }
            } else {
                fs[i]
            })
        }),
{
    let fs = s.heap.dir(s.wd as int).files@;
    lemma_file_index(fs, f);
    let fi = crate::files::file_index(fs, f);
    if fi < i {
        assert(fs[fi].name == f);
    }
    assert(fi == i);
}

/// The names of the two windows `click` opens.
proof fn lemma_window_names()
    ensures
        window_one().name == "Window 1".spec_bytes(),
        window_two().name == "Window 2".spec_bytes(),
        window_one().name != window_two().name,
{
    broadcast use vstd::string::is_ascii_spec_bytes;
    reveal_strlit("Window 1");
    reveal_strlit("Window 2");
    assert(vstd::string::is_ascii("Window 1"));
    assert(vstd::string::is_ascii("Window 2"));
    assert("Window 1".spec_bytes()[7] != "Window 2".spec_bytes()[7]);
}

/// A window list holds a window named `name` exactly where the first index with that
/// name is in range.
proof fn lemma_has_window_exists(ws: Seq<WinView>, name: Seq<u8>)
    ensures
        has_window(ws, name) <==> exists|j: int| 0 <= j < ws.len() && #[trigger] ws[j].name == name,
{
    crate::windows::lemma_win_index(ws, name);
    if has_window(ws, name) {
        let j = win_index(ws, name);
        assert(ws[j].name == name);
    }
}

/// After `click`, whatever windows were open, the top window is named "Window 1" and a
/// window named "Window 2" is open.
pub proof fn lemma_click_puts_window_one_on_top(s: Shell, t: Shell)
    requires
        command(s.buffer@, s.buffer.max_len()) == Command::Click,
        parse_result(s, t),
    ensures
        t.winlist@.len() > 0,
        t.winlist@.last().name == "Window 1".spec_bytes(),
        exists|j: int| 0 <= j < t.winlist@.len() && #[trigger] t.winlist@[j].name == "Window 2".spec_bytes(),
{
    lemma_window_names();
    let ws = s.winlist@;
    let n1 = window_one().name;
    let n2 = window_two().name;
    let ws1 = front_unique(ws, window_one());
    let ws2 = front_unique(ws1, window_two());
    lemma_has_window_exists(ws, n1);
    lemma_has_window_exists(ws1, n1);
    lemma_has_window_exists(ws1, n2);
    lemma_has_window_exists(ws2, n1);
    lemma_has_window_exists(ws2, n2);
    if !has_window(ws, n1) {
        assert(ws1[0].name == n1);
    }
    assert(has_window(ws1, n1));
    if has_window(ws1, n1) {
        let j = choose|j: int| 0 <= j < ws1.len() && #[trigger] ws1[j].name == n1;
        if !has_window(ws1, n2) {
            assert(ws2[j + 1] == ws1[j]);
        }
    }
    assert(has_window(ws2, n1));
    if !has_window(ws1, n2) {
        assert(ws2[0].name == n2);
    }
    assert(has_window(ws2, n2));
    crate::windows::lemma_bring_to_top(ws2, n1);
    crate::windows::lemma_win_index(ws2, n1);
    crate::windows::lemma_win_index(ws2, n2);
    let i = win_index(ws2, n1);
    let j = win_index(ws2, n2);
    let r = ws2.remove(i).push(ws2[i]);
    assert(t.winlist@ == r);
    assert(j != i);
    if j < i {
        assert(r[j] == ws2[j]);
    } else {
        assert(r[j - 1] == ws2[j]);
    }
}


/// Bytes the path of the directory at `q` takes: a slash and a name for each directory
/// from `q` up to the root.
pub open spec fn chain_size(h: dirheap, q: int) -> int
    decreases q,
{
    let n = h.dir(q).dname@.len() as int + 1;
    match h.dir(q).parent {
        Some(p) => if 0 <= p < q { n + chain_size(h, p as int) } else { n },
        None => n,
    }
}

proof fn lemma_chain_size(h: dirheap, q: int)
    ensures
        chain_size(h, q) >= h.dir(q).dname@.len() + 1,
    decreases q,
{
    match h.dir(q).parent {
        Some(p) => if 0 <= p < q { lemma_chain_size(h, p as int); },
        None => {},
    }
}

proof fn lemma_slash()
    ensures
        slash() == seq![47u8],
{
    broadcast use vstd::string::is_ascii_spec_bytes;
    reveal_strlit("/");
    assert(vstd::string::is_ascii("/"));
    assert("/".spec_bytes() =~= seq![47u8]);
}

/// Where the whole path fits, building it in front of `acc` gives the path followed by `acc`.
proof fn lemma_path_from_acc(h: dirheap, q: int, acc: Seq<u8>)
    requires
        h.wf(),
        0 <= q < h.size(),
        acc.len() + chain_size(h, q) < PATH_SIZE,
    ensures
        path_from(h, q, acc) == path_from(h, q, Seq::empty()) + acc,
        chain_size(h, q) > 0,
    decreases q,
{
    lemma_slash();
    lemma_chain_size(h, q);
    h.lemma_parent_below(q);
    let name = h.dir(q).dname@;
    let e = Seq::<u8>::empty();
    assert(front_room(acc, name, PATH_SIZE as nat) == name + acc);
    assert(front_room(name + acc, slash(), PATH_SIZE as nat) == seq![47u8] + (name + acc));
    assert(front_room(e, name, PATH_SIZE as nat) == name + e);
    assert(front_room(name + e, slash(), PATH_SIZE as nat) == seq![47u8] + (name + e));
    assert(name + e =~= name);
    match h.dir(q).parent {
        Some(p) => {
            lemma_path_from_acc(h, p as int, seq![47u8] + (name + acc));
            lemma_path_from_acc(h, p as int, seq![47u8] + name);
            assert(path_from(h, p as int, Seq::empty()) + (seq![47u8] + (name + acc))
                =~= path_from(h, p as int, Seq::empty()) + (seq![47u8] + name) + acc);
        },
        None => {
            assert(seq![47u8] + (name + acc) =~= seq![47u8] + name + acc);
        },
    }
}

/// Where the whole path fits and no name holds a zero byte, the path holds none.
proof fn lemma_path_no_zero(h: dirheap, q: int)
    requires
        h.wf(),
        0 <= q < h.size(),
        chain_size(h, q) < PATH_SIZE,
        forall|d: int| 0 <= d < h.size() ==> no_zero(#[trigger] h.dir(d).dname@),
    ensures
        no_zero(path_from(h, q, Seq::empty())),
    decreases q,
{
    lemma_slash();
    lemma_chain_size(h, q);
    h.lemma_parent_below(q);
    let name = h.dir(q).dname@;
    let a = seq![47u8] + name;
    assert(no_zero(name));
    assert(no_zero(a)) by {
        assert forall|i: int| 0 <= i < a.len() implies #[trigger] a[i] != 0 by {
            if i > 0 {
                assert(a[i] == name[i - 1]);
            }
        }
    }
    assert(front_room(Seq::<u8>::empty(), name, PATH_SIZE as nat) =~= name);
    match h.dir(q).parent {
        Some(p) => {
            lemma_path_from_acc(h, p as int, a);
            lemma_path_no_zero(h, p as int);
            let b = path_from(h, p as int, Seq::empty());
            assert forall|i: int| 0 <= i < (b + a).len() implies #[trigger] (b + a)[i] != 0 by {
                if i < b.len() {
                    assert((b + a)[i] == b[i]);
                } else {
                    assert((b + a)[i] == a[i - b.len()]);
                }
            }
        },
        None => {},
    }
}

/// `pwd` in a directory prints what `pwd` prints in its parent, then a slash and the
/// directory's name: every directory from the root down appears, in order. This holds
/// where no name holds a zero byte and the whole path fits in `PATH_SIZE`.
pub proof fn lemma_pwd_adds_one_name(s: Shell, t: Shell, scr: Screen)
    requires
        s.wf(),
        t.heap == s.heap,
        t.buffer == s.buffer,
        command(s.buffer@, s.buffer.max_len()) == Command::Pwd,
        s.heap.dir(s.wd as int).parent == Some(t.wd),
        forall|d: int| 0 <= d < s.heap.size() ==> no_zero(#[trigger] s.heap.dir(d).dname@),
        chain_size(s.heap, s.wd as int) < PATH_SIZE,
    ensures
        parse_output(s, scr) == parse_output(t, scr) + text(seq![47u8] + s.heap.dir(s.wd as int).dname@),
{
    let h = s.heap;
    let q = s.wd as int;
    h.lemma_parent_below(q);
    let p = t.wd as int;
    let name = h.dir(q).dname@;
    lemma_slash();
    lemma_chain_size(h, q);
    assert(front_room(Seq::<u8>::empty(), name, PATH_SIZE as nat) =~= name);
    assert(front_room(name, slash(), PATH_SIZE as nat) == seq![47u8] + name);
    assert(path_from(h, q, Seq::empty()) == path_from(h, p, seq![47u8] + name));
    lemma_path_from_acc(h, p, seq![47u8] + name);
    lemma_path_no_zero(h, q);
    lemma_path_no_zero(h, p);
    lemma_text_of_no_zero(path_from(h, q, Seq::empty()));
    lemma_text_of_no_zero(path_from(h, p, Seq::empty()));
    let a = path_from(h, p, Seq::empty());
    let nl = text("\n".spec_bytes());
    assert(text(a + (seq![47u8] + name)) =~= text(a) + text(seq![47u8] + name));
    assert(nl + text(a + (seq![47u8] + name)) =~= nl + text(a) + text(seq![47u8] + name));
}

/// `pwd` at the root prints a new line, a slash and the root's name (where the name
/// holds no zero byte and fits).
pub proof fn lemma_pwd_at_root(s: Shell, scr: Screen)
    requires
        s.wf(),
        command(s.buffer@, s.buffer.max_len()) == Command::Pwd,
        s.heap.dir(s.wd as int).parent is None,
        no_zero(s.heap.dir(s.wd as int).dname@),
        s.heap.dir(s.wd as int).dname@.len() + 1 < PATH_SIZE,
    ensures
        parse_output(s, scr) == text("\n".spec_bytes()) + text(seq![47u8] + s.heap.dir(s.wd as int).dname@),
{
    let h = s.heap;
    let q = s.wd as int;
    let name = h.dir(q).dname@;
    lemma_slash();
    assert(front_room(Seq::<u8>::empty(), name, PATH_SIZE as nat) =~= name);
    assert(front_room(name, slash(), PATH_SIZE as nat) == seq![47u8] + name);
    let a = seq![47u8] + name;
    assert(no_zero(a)) by {
        assert forall|i: int| 0 <= i < a.len() implies #[trigger] a[i] != 0 by {
            if i > 0 {
                assert(a[i] == name[i - 1]);
            }
        }
    }
    lemma_text_of_no_zero(a);
}


/// `wr f w`, where no file of the working directory is named `f`, adds exactly one
/// file, at the end: it is named `f` and holds the text of `w` where all of `w` fits in a
/// new file; the other files are as they were.
pub proof fn lemma_wr_to_new_file(s: Shell, t: Shell, f: Seq<u8>, w: Seq<u8>)
    requires
        command(s.buffer@, s.buffer.max_len()) == Command::Wr(f, w),
        forall|j: int| 0 <= j < s.heap.dir(s.wd as int).files@.len() ==> #[trigger] s.heap.dir(s.wd as int).files@[j].name != f,
        parse_result(s, t),
    ensures
        ({
            let fs = s.heap.dir(s.wd as int).files@;
            let gs = t.heap.dir(s.wd as int).files@;
            &&& t.wd == s.wd
            &&& gs.len() == fs.len() + 1
            &&& gs.take(fs.len() as int) == fs
            &&& gs.last().name == f
            &&& gs.last().contents == (if w.len() < FILE_SIZE { text_of(w) } else { Seq::<u8>::empty() })
        }),
{
    let fs = s.heap.dir(s.wd as int).files@;
    lemma_file_index(fs, f);
    assert(!has_file(fs, f));
    let nf = FileView { name: f, name_room: STR_SIZE as nat, contents: Seq::empty(), room: FILE_SIZE as nat };
    let fs1 = fs.push(nf);
    lemma_file_index(fs1, f);
    assert(fs1[fs.len() as int].name == f);
    assert(crate::files::file_index(fs1, f) == fs.len()) by {
        let fi = crate::files::file_index(fs1, f);
        if fi < fs.len() {
            assert(fs1[fi] == fs[fi]);
            assert(fs[fi].name != f);
        }
    }
    let gs = t.heap.dir(s.wd as int).files@;
    assert(gs.take(fs.len() as int) =~= fs);
    assert(Seq::<u8>::empty() + text_of(w) =~= text_of(w));
}

/// `cd x`, where the first subdirectory of the working directory named `x` is at
/// place `k` of its list, goes to that subdirectory and prints nothing (the text of `x`
/// not empty).
pub proof fn lemma_cd_to_subdirectory(s: Shell, t: Shell, scr: Screen, x: Seq<u8>, k: int)
    requires
        command(s.buffer@, s.buffer.max_len()) == Command::Cd(x),
        text_of(x).len() != 0,
        0 <= k < s.heap.dir(s.wd as int).child_dir@.len(),
        s.heap.dir(s.heap.dir(s.wd as int).child_dir@[k] as int).dname@ == x,
        forall|j: int| 0 <= j < k
            ==> #[trigger] s.heap.dir(s.heap.dir(s.wd as int).child_dir@[j] as int).dname@ != x,
        parse_result(s, t),
    ensures
        t.wd == s.heap.dir(s.wd as int).child_dir@[k],
        t.heap == s.heap,
        parse_output(s, scr) == Seq::<Effect>::empty(),
{
    let h = s.heap;
    let kids = h.dir(s.wd as int).child_dir@;
    lemma_name_index_from(h.names(kids), x, 0);
    assert(h.names(kids)[k] == x);
    let ki = kid_index(h, s.wd as int, x);
    if ki < k {
        assert(h.names(kids)[ki] == h.dir(kids[ki] as int).dname@);
    }
}

/// `cd` with nothing after it goes to the root and prints nothing.
pub proof fn lemma_cd_alone_goes_to_root(s: Shell, t: Shell, scr: Screen, x: Seq<u8>)
    requires
        command(s.buffer@, s.buffer.max_len()) == Command::Cd(x),
        x.len() == 0,
        parse_result(s, t),
    ensures
        t.wd == s.root,
        t.heap == s.heap,
        parse_output(s, scr) == Seq::<Effect>::empty(),
{
    crate::text::lemma_end_from(x, 0);
}

/// `rm x`, where the first file of the working directory named `x` is at place `i`,
/// removes that file and nothing else, and prints nothing.
pub proof fn lemma_rm_removes_file(s: Shell, t: Shell, scr: Screen, x: Seq<u8>, i: int)
    requires
        command(s.buffer@, s.buffer.max_len()) == Command::Rm(x),
        0 <= i < s.heap.dir(s.wd as int).files@.len(),
        s.heap.dir(s.wd as int).files@[i].name == x,
        forall|j: int| 0 <= j < i ==> #[trigger] s.heap.dir(s.wd as int).files@[j].name != x,
        parse_result(s, t),
    ensures
        t.heap.dir(s.wd as int).files@ == s.heap.dir(s.wd as int).files@.remove(i),
        t.heap.dir(s.wd as int).child_dir@ == s.heap.dir(s.wd as int).child_dir@,
        parse_output(s, scr) == Seq::<Effect>::empty(),
{
    let fs = s.heap.dir(s.wd as int).files@;
    lemma_file_index(fs, x);
    let fi = crate::files::file_index(fs, x);
    if fi < i {
        assert(fs[fi].name == x);
    }
}

/// `rm x`, where no file of the working directory is named `x` and its first
/// subdirectory named `x`, at place `k`, holds neither files nor subdirectories, takes
/// that subdirectory out of the list, keeps the files, and prints nothing.
pub proof fn lemma_rm_removes_empty_directory(s: Shell, t: Shell, scr: Screen, x: Seq<u8>, k: int)
    requires
        command(s.buffer@, s.buffer.max_len()) == Command::Rm(x),
        forall|j: int| 0 <= j < s.heap.dir(s.wd as int).files@.len()
            ==> #[trigger] s.heap.dir(s.wd as int).files@[j].name != x,
        0 <= k < s.heap.dir(s.wd as int).child_dir@.len(),
        s.heap.dir(s.heap.dir(s.wd as int).child_dir@[k] as int).dname@ == x,
        forall|j: int| 0 <= j < k
            ==> #[trigger] s.heap.dir(s.heap.dir(s.wd as int).child_dir@[j] as int).dname@ != x,
        ({
            let d = s.heap.dir(s.heap.dir(s.wd as int).child_dir@[k] as int);
            d.child_dir@.len() == 0 && d.files@.len() == 0
        }),
        parse_result(s, t),
    ensures
        t.heap.dir(s.wd as int).child_dir@ == s.heap.dir(s.wd as int).child_dir@.remove(k),
        t.heap.dir(s.wd as int).files@ == s.heap.dir(s.wd as int).files@,
        parse_output(s, scr) == Seq::<Effect>::empty(),
{
    let h = s.heap;
    let w = s.wd as int;
    let kids = h.dir(w).child_dir@;
    let fs = h.dir(w).files@;
    lemma_file_index(fs, x);
    lemma_name_index_from(h.names(kids), x, 0);
    assert(h.names(kids)[k] == x);
    let ki = kid_index(h, w, x);
    if ki < k {
        assert(h.names(kids)[ki] == h.dir(kids[ki] as int).dname@);
    }
    assert(!has_file(fs, x));
}

} // verus!
