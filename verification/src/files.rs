use vstd::prelude::*;
use crate::text::{cstr, STR_SIZE, text_of, lemma_end_from};

verus! {

/// A file: its name and its contents.
#[allow(non_camel_case_types)]
pub struct file {
    pub fname: cstr,
    pub contents: cstr,
}

/// What a file holds: the bytes of its name and of its contents, and the room of each.
pub struct FileView {
    pub name: Seq<u8>,
    pub name_room: nat,
    pub contents: Seq<u8>,
    pub room: nat,
}

/// A node of a file list.
#[allow(non_camel_case_types)]
pub struct filenode {
    pub next: Option<Box<filenode>>,
    pub fi: file,
}

/// The files of a directory, in the order they were added, behind a header node.
#[allow(non_camel_case_types)]
pub struct filelist {
    head: Box<filenode>,
}

impl View for file {
    type V = FileView;

    open spec fn view(&self) -> FileView {
        FileView {
            name: self.fname@,
            name_room: self.fname.max_len(),
            contents: self.contents@,
            room: self.contents.max_len(),
        }
    }
}

/// The files of the chain that starts at `n`.
pub open spec fn files_of(n: Option<Box<filenode>>) -> Seq<FileView>
    decreases n,
{
    match n {
        None => Seq::empty(),
        Some(b) => seq![b.fi@].add(files_of(b.next)),
    }
}

/// Index of the first file named `name`, or the length of `fs` where there is none.
pub open spec fn file_index(fs: Seq<FileView>, name: Seq<u8>) -> int
    decreases fs.len(),
{
    if fs.len() == 0 {
        0
    } else if fs[0].name == name {
        0
    } else {
        1 + file_index(fs.drop_first(), name)
    }
}

/// Whether `fs` holds a file named `name`.
pub open spec fn has_file(fs: Seq<FileView>, name: Seq<u8>) -> bool {
    file_index(fs, name) < fs.len()
}

/// A new line and the text of the name of each file, one after the other.
pub open spec fn name_lines(fs: Seq<FileView>) -> Seq<u8>
    decreases fs.len(),
{
    if fs.len() == 0 {
        Seq::empty()
    } else {
        seq![10u8] + text_of(fs[0].name) + name_lines(fs.drop_first())
    }
}

/// `fs` after writing `word` to its first file named `name`: where all the bytes of the
/// word fit at the end of that file with a byte to spare, the text of the word goes there.
pub open spec fn written(fs: Seq<FileView>, name: Seq<u8>, word: Seq<u8>) -> Seq<FileView> {
    let i = file_index(fs, name);
    if i < fs.len() && fs[i].contents.len() + word.len() < fs[i].room {
        fs.update(i, FileView { contents: fs[i].contents + text_of(word), ..fs[i] })
    } else {
        fs
    }
}

/// Whether writing `word` to the first file named `name` succeeds.
pub open spec fn write_fits(fs: Seq<FileView>, name: Seq<u8>, word: Seq<u8>) -> bool {
    let i = file_index(fs, name);
    i < fs.len() && fs[i].contents.len() + word.len() < fs[i].room
}

/// `fs` without its first file named `name`.
pub open spec fn without_file(fs: Seq<FileView>, name: Seq<u8>) -> Seq<FileView> {
    if has_file(fs, name) { fs.remove(file_index(fs, name)) } else { fs }
}

/// `fs` with every file named `old` given the name `new`, a string of room `new_room`.
pub open spec fn renamed(fs: Seq<FileView>, old: Seq<u8>, new: Seq<u8>, new_room: nat) -> Seq<FileView> {
    Seq::new(
        fs.len(),
        |j: int| if fs[j].name == old { FileView { name: new, name_room: new_room, ..fs[j] } } else { fs[j] },
    )
}

/// The empty file, named by the empty string, with the room of an argument string.
pub open spec fn empty_file() -> FileView {
    FileView { name: Seq::empty(), name_room: STR_SIZE as nat, contents: Seq::empty(), room: STR_SIZE as nat }
}

/// The first file named `name`, or the empty file where there is none.
pub open spec fn found_file(fs: Seq<FileView>, name: Seq<u8>) -> FileView {
    if has_file(fs, name) { fs[file_index(fs, name)] } else { empty_file() }
}

/// The index found is in range, names a file of that name where it is below the length, and no file before it has the name.
pub proof fn lemma_file_index(fs: Seq<FileView>, name: Seq<u8>)
    ensures
        0 <= file_index(fs, name) <= fs.len(),
        file_index(fs, name) < fs.len() ==> fs[file_index(fs, name)].name == name,
        forall|j: int| 0 <= j < file_index(fs, name) ==> fs[j].name != name,
    decreases fs.len(),
{
    if fs.len() > 0 && fs[0].name != name {
        lemma_file_index(fs.drop_first(), name);
        assert forall|j: int| 0 <= j < file_index(fs, name) implies fs[j].name != name by {
            if j > 0 {
                assert(fs[j] == fs.drop_first()[j - 1]);
            }
        }
    }
}

/// The first file of `fs` named `name` is where a file of that name first comes.
pub proof fn lemma_file_index_is(fs: Seq<FileView>, name: Seq<u8>, i: int)
    requires
        0 <= i <= fs.len(),
        i < fs.len() ==> fs[i].name == name,
        forall|j: int| 0 <= j < i ==> fs[j].name != name,
    ensures
        file_index(fs, name) == i,
{
    lemma_file_index(fs, name);
    if file_index(fs, name) < i {
        assert(fs[file_index(fs, name)].name == name);
    }
    if i < file_index(fs, name) {
        assert(fs[i].name != name);
    }
}

/// Reading a file after a write to it that fits gives what it held with the text of
/// the word at the end; the other files are as they were.
pub proof fn lemma_read_after_write(fs: Seq<FileView>, name: Seq<u8>, w: Seq<u8>)
    requires
        write_fits(fs, name, w),
    ensures
        found_file(written(fs, name, w), name).contents == found_file(fs, name).contents + text_of(w),
        written(fs, name, w).len() == fs.len(),
        forall|j: int| 0 <= j < fs.len() && j != file_index(fs, name) ==> #[trigger] written(fs, name, w)[j] == fs[j],
{
    let i = file_index(fs, name);
    let gs = written(fs, name, w);
    lemma_file_index(fs, name);
    assert forall|j: int| 0 <= j < i implies gs[j].name != name by {}
    lemma_file_index_is(gs, name, i);
}

/// A file added under a name no file had is the one found by that name.
pub proof fn lemma_read_after_add(fs: Seq<FileView>, f: FileView)
    requires
        !has_file(fs, f.name),
    ensures
        found_file(fs.push(f), f.name) == f,
{
    lemma_file_index(fs, f.name);
    lemma_file_index_is(fs.push(f), f.name, fs.len() as int);
}

/// A file added under a name no file had, then removed by that name, leaves the list
/// as it was.
pub proof fn lemma_remove_after_add(fs: Seq<FileView>, f: FileView)
    requires
        !has_file(fs, f.name),
    ensures
        without_file(fs.push(f), f.name) == fs,
{
    lemma_file_index(fs, f.name);
    lemma_file_index_is(fs.push(f), f.name, fs.len() as int);
    assert(fs.push(f).remove(fs.len() as int) =~= fs);
}

/// After every file named `old` is given another name, no file is named `old`, and
/// the list holds as many files as before.
pub proof fn lemma_rename_leaves_none(fs: Seq<FileView>, old: Seq<u8>, new: Seq<u8>, room: nat)
    requires
        old != new,
    ensures
        !has_file(renamed(fs, old, new, room), old),
        renamed(fs, old, new, room).len() == fs.len(),
{
    let gs = renamed(fs, old, new, room);
    lemma_file_index(gs, old);
    if has_file(gs, old) {
        let i = file_index(gs, old);
        assert(gs[i].name == old);
    }
}

impl Clone for file {
    fn clone(&self) -> (r: file)
        ensures
            r@ == self@,
    {
        file { fname: self.fname.clone(), contents: self.contents.clone() }
    }
}

impl file {
    /// An empty file named `name` whose contents have room `size`.
    pub fn new(size: usize, name: cstr) -> (r: file)
        ensures
            r.fname == name,
            r@ == (FileView { name: name@, name_room: name.max_len(), contents: Seq::empty(), room: size as nat }),
    {
        file { fname: name, contents: cstr::new(size) }
    }

    /// Whether both files hold the same name and contents.
    pub fn eq(&self, f: &file) -> (r: bool)
        ensures
            r == (self@.name == f@.name && self@.contents == f@.contents),
    {
        self.fname.eq(&f.fname) && self.contents.eq(&f.contents)
    }

    /// Appends `s` to the contents where it fits with a byte to spare; leaves the
    /// file as it was otherwise.
    pub fn append_cstr(&mut self, s: &cstr) -> (r: bool)
        ensures
            r == (old(self)@.contents.len() + s@.len() < old(self)@.room),
            final(self)@ == (if r { FileView { contents: old(self)@.contents + text_of(s@), ..old(self)@ } } else { old(self)@ }),
            final(self).fname == old(self).fname,
    {
        let n = self.contents.len();
        let m = s.len();
        let max = self.contents.max();
        if n >= max || m >= max - n {
            return false;
        }
        proof { lemma_end_from(s@, 0); }
        let t = s.content();
        let e = t.len();
        let mut i: usize = 0;
        while i < e
            invariant
                i <= e,
                e == t@.len(),
                e <= m,
                n == old(self).contents@.len(),
                n + m < max,
                max == old(self).contents.max_len(),
                self.contents.max_len() == max,
                self.contents@ == old(self).contents@ + t@.take(i as int),
                self.fname == old(self).fname,
            decreases e - i,
        {
            let b = t.byte_at(i);
            self.contents.add_char(b);
            proof {
                assert(self.contents@ =~= old(self).contents@ + t@.take(i as int + 1));
            }
            i += 1;
        }
        proof { assert(t@.take(e as int) =~= t@); }
        true
    }

    /// The number of bytes the file holds.
    pub fn len(&self) -> (r: usize)
        ensures
            r == self@.contents.len(),
    {
        self.contents.len()
    }

    /// A copy of the contents.
    pub fn get_contents(&self) -> (r: cstr)
        ensures
            r@ == self@.contents,
            r.max_len() == self@.room,
    {
        self.contents.clone()
    }
}

impl filenode {
    /// A node holding `f`, linked to nothing.
    pub fn new(f: file) -> (r: Box<filenode>)
        ensures
            r.next is None,
            r.fi == f,
    {
        Box::new(filenode { next: None, fi: f })
    }
}

impl View for filelist {
    type V = Seq<FileView>;

    closed spec fn view(&self) -> Seq<FileView> {
        files_of(self.head.next)
    }
}

fn chain_append(node: &mut Option<Box<filenode>>, f: file)
    ensures
        files_of(*final(node)) == files_of(*old(node)).push(f@),
    decreases *old(node),
{
    match node.take() {
        None => {
            let b = filenode::new(f);
            assert(files_of(b.next) == Seq::<FileView>::empty());
            *node = Some(b);
            assert(files_of(*node) =~= files_of(*old(node)).push(f@));
        },
        Some(mut b) => {
            chain_append(&mut b.next, f);
            *node = Some(b);
            assert(files_of(*node) =~= files_of(*old(node)).push(f@));
        },
    }
}

fn chain_remove(node: &mut Option<Box<filenode>>, name: &cstr) -> (r: bool)
    ensures
        r == has_file(files_of(*old(node)), name@),
        files_of(*final(node)) == without_file(files_of(*old(node)), name@),
    decreases *old(node),
{
    match node.take() {
        None => {
            assert(files_of(*old(node)) == Seq::<FileView>::empty());
            false
        },
        Some(mut b) => {
            let ghost fs = files_of(*old(node));
            assert(fs.drop_first() =~= files_of(b.next));
            if b.fi.fname.eq(name) {
                *node = b.next;
                assert(files_of(*node) =~= fs.remove(0));
                true
            } else {
                let ghost rest = files_of(b.next);
                let r = chain_remove(&mut b.next, name);
                *node = Some(b);
                proof {
                    assert(files_of(*node) == seq![fs[0]] + files_of(b.next));
                    lemma_file_index(rest, name@);
                    if r {
                        let i = file_index(rest, name@);
                        assert(file_index(fs, name@) == i + 1);
                        assert(files_of(*node) =~= fs.remove(i + 1));
                    } else {
                        assert(files_of(*node) =~= fs);
                    }
                }
                r
            }
        },
    }
}

fn chain_find<'a>(node: &'a Option<Box<filenode>>, name: &cstr) -> (r: Option<&'a file>)
    ensures
        match r {
            None => !has_file(files_of(*node), name@),
            Some(f) => has_file(files_of(*node), name@)
                && f@ == files_of(*node)[file_index(files_of(*node), name@)],
        },
    decreases node,
{
    match node {
        None => {
            assert(files_of(*node) == Seq::<FileView>::empty());
            None
        },
        Some(b) => {
            let ghost fs = files_of(*node);
            assert(fs.drop_first() =~= files_of(b.next));
            if b.fi.fname.eq(name) {
                Some(&b.fi)
            } else {
                let r = chain_find(&b.next, name);
                proof {
                    lemma_file_index(files_of(b.next), name@);
                    assert(file_index(fs, name@) == 1 + file_index(files_of(b.next), name@));
                }
                r
            }
        },
    }
}

fn chain_write(node: &mut Option<Box<filenode>>, name: &cstr, word: &cstr) -> (r: bool)
    ensures
        r == write_fits(files_of(*old(node)), name@, word@),
        files_of(*final(node)) == written(files_of(*old(node)), name@, word@),
    decreases *old(node),
{
    match node.take() {
        None => {
            assert(files_of(*old(node)) == Seq::<FileView>::empty());
            false
        },
        Some(mut b) => {
            let ghost fs = files_of(*old(node));
            assert(fs.drop_first() =~= files_of(b.next));
            if b.fi.fname.eq(name) {
                let r = b.fi.append_cstr(word);
                *node = Some(b);
                assert(files_of(*node) =~= written(fs, name@, word@));
                r
            } else {
                let ghost rest = files_of(b.next);
                let r = chain_write(&mut b.next, name, word);
                *node = Some(b);
                proof {
                    lemma_file_index(rest, name@);
                    assert(file_index(fs, name@) == 1 + file_index(rest, name@));
                    assert(files_of(*node) =~= written(fs, name@, word@));
                }
                r
            }
        },
    }
}

fn chain_rename(node: &mut Option<Box<filenode>>, oldname: &cstr, newname: &cstr)
    ensures
        files_of(*final(node)) == renamed(files_of(*old(node)), oldname@, newname@, newname.max_len()),
    decreases *old(node),
{
    match node.take() {
        None => {
            assert(files_of(*old(node)) =~= renamed(files_of(*old(node)), oldname@, newname@, newname.max_len()));
        },
        Some(mut b) => {
            let ghost fs = files_of(*old(node));
            assert(fs.drop_first() =~= files_of(b.next));
            if b.fi.fname.eq(oldname) {
                b.fi.fname = newname.clone();
            }
            chain_rename(&mut b.next, oldname, newname);
            *node = Some(b);
            assert(files_of(*node) =~= renamed(fs, oldname@, newname@, newname.max_len()));
        },
    }
}

fn chain_names(node: &Option<Box<filenode>>, out: &mut Vec<u8>)
    ensures
        final(out)@ == old(out)@ + name_lines(files_of(*node)),
    decreases node,
{
    match node {
        None => {
            assert(final(out)@ =~= old(out)@ + name_lines(files_of(*node)));
        },
        Some(b) => {
            assert(files_of(*node).drop_first() =~= files_of(b.next));
            out.push(10u8);
            let t = b.fi.fname.content();
            let n = t.len();
            let mut i: usize = 0;
            while i < n
                invariant
                    i <= n,
                    n == t@.len(),
                    out@ == old(out)@ + seq![10u8] + t@.take(i as int),
                decreases n - i,
            {
                out.push(t.byte_at(i));
                i += 1;
                assert(out@ =~= old(out)@ + seq![10u8] + t@.take(i as int));
            }
            assert(t@.take(n as int) =~= t@);
            chain_names(&b.next, out);
            assert(final(out)@ =~= old(out)@ + name_lines(files_of(*node)));
        },
    }
}

impl filelist {
    /// A list with no files. The header file's name and contents are two separate empty
    /// strings: each string owns its bytes, so nothing written to any file reaches the
    /// header's name.
    pub fn new() -> (r: filelist)
        ensures
            r@ == Seq::<FileView>::empty(),
    {
        let name = cstr::from_str("");
        let headfile = file { fname: name, contents: cstr::from_str("") };
        filelist { head: filenode::new(headfile) }
    }

    /// Adds `f` at the end.
    pub fn add_file(&mut self, f: file)
        ensures
            final(self)@ == old(self)@.push(f@),
    {
        chain_append(&mut self.head.next, f);
    }

    /// Takes the first file named `fnm` out of the list.
    pub fn remove_file(&mut self, fnm: &cstr) -> (r: bool)
        ensures
            r == has_file(old(self)@, fnm@),
            final(self)@ == without_file(old(self)@, fnm@),
    {
        chain_remove(&mut self.head.next, fnm)
    }

    /// Takes the first file named `fnm` out of the list; the same as `remove_file`, as
    /// nothing here is freed by hand.
    pub fn remove_file_nofree(&mut self, fnm: &cstr) -> (r: bool)
        ensures
            r == has_file(old(self)@, fnm@),
            final(self)@ == without_file(old(self)@, fnm@),
    {
        chain_remove(&mut self.head.next, fnm)
    }

    /// The contents of the first file named `fnm`, or an empty string where there is none.
    pub fn read_file(&self, fnm: &cstr) -> (r: cstr)
        ensures
            r@ == found_file(self@, fnm@).contents,
            r.max_len() == found_file(self@, fnm@).room,
    {
        match chain_find(&self.head.next, fnm) {
            Some(f) => f.get_contents(),
            None => {
                let r = cstr::from_str("");
                proof { reveal_strlit(""); }
                r
            },
        }
    }

    /// Appends `word` to the first file named `fnm`; false where there is none, or where
    /// the word does not fit in it with a byte to spare.
    pub fn write_file(&mut self, fnm: &cstr, word: &cstr) -> (r: bool)
        ensures
            r == write_fits(old(self)@, fnm@, word@),
            final(self)@ == written(old(self)@, fnm@, word@),
    {
        chain_write(&mut self.head.next, fnm, word)
    }

    /// A copy of the first file named `fnm`, or an empty file, named by the empty string,
    /// where there is none. That empty file is new, its name and contents separate
    /// strings: a file made from it and put in another list (as `mv` of a missing name
    /// does) shares no bytes with this list's header, so writing to it leaves the header,
    /// and later lookups in this list, as they were.
    pub fn get_file(&self, fnm: &cstr) -> (r: file)
        ensures
            r@ == found_file(self@, fnm@),
    {
        match chain_find(&self.head.next, fnm) {
            Some(f) => f.clone(),
            None => {
                let r = file { fname: cstr::from_str(""), contents: cstr::from_str("") };
                proof { reveal_strlit(""); }
                r
            },
        }
    }

    /// The text that listing the files prints: a new line and the name of each file.
    pub fn print_filenames(&self, out: &mut Vec<u8>)
        ensures
            final(out)@ == old(out)@ + name_lines(self@),
    {
        chain_names(&self.head.next, out);
    }

    /// Gives every file named `oldname` the name `newname`.
    pub fn set_new_name(&mut self, oldname: &cstr, newname: &cstr)
        ensures
            final(self)@ == renamed(old(self)@, oldname@, newname@, newname.max_len()),
    {
        chain_rename(&mut self.head.next, oldname, newname);
    }

    /// Whether the list holds no file.
    pub fn empty(&self) -> (r: bool)
        ensures
            r == (self@.len() == 0),
    {
        self.head.next.is_none()
    }
}

} // verus!
