use vstd::prelude::*;
use crate::text::{cstr, text_of};
use crate::files::{file, filelist, FileView, found_file, has_file, without_file, written, write_fits};

verus! {

/// A directory: the node of its parent (none for the root), its subdirectories, its
/// files and its name.
#[allow(non_camel_case_types)]
pub struct directory {
    pub parent: Option<usize>,
    pub child_dir: dirlist,
    pub files: filelist,
    pub dname: cstr,
}

/// A directory as it lies in the heap, with the node that follows it in its parent's list.
#[allow(non_camel_case_types)]
pub struct dirnode {
    pub next: Option<usize>,
    pub di: directory,
}

/// The subdirectories of a directory: a chain of heap nodes, in the order they were added.
#[allow(non_camel_case_types)]
pub struct dirlist {
    head: Option<usize>,
    ids: Ghost<Seq<usize>>,
}

/// The nodes that directories are allocated in, named by their index. Each node is
/// linked into at most one list, that of the directory recorded as its owner, and a
/// parent always lies at a lower index than its child.
#[allow(non_camel_case_types)]
pub struct dirheap {
    nodes: Vec<dirnode>,
    owners: Ghost<Seq<Option<usize>>>,
}

/// The node after position `i` of a chain.
pub open spec fn next_in(ids: Seq<usize>, i: int) -> Option<usize> {
    if i + 1 < ids.len() { Some(ids[i + 1]) } else { None }
}

/// Index of the first name equal to `name` at or after `k`, or the length where there is none.
pub open spec fn name_index_from(names: Seq<Seq<u8>>, name: Seq<u8>, k: int) -> int
    decreases names.len() - k,
{
    if k >= names.len() {
        names.len() as int
    } else if names[k] == name {
        k
    } else {
        name_index_from(names, name, k + 1)
    }
}

/// Index of the first name equal to `name`, or the length where there is none.
pub open spec fn name_index(names: Seq<Seq<u8>>, name: Seq<u8>) -> int {
    name_index_from(names, name, 0)
}

/// A new line and the text of a name, for each name.
pub open spec fn lines(names: Seq<Seq<u8>>) -> Seq<u8>
    decreases names.len(),
{
    if names.len() == 0 {
        Seq::empty()
    } else {
        lines(names.drop_last()) + seq![10u8] + text_of(names.last())
    }
}

/// The index found is in range, holds the name where it is below the length, and no name before it is the name.
pub proof fn lemma_name_index_from(names: Seq<Seq<u8>>, name: Seq<u8>, k: int)
    requires
        0 <= k <= names.len(),
    ensures
        k <= name_index_from(names, name, k) <= names.len(),
        name_index_from(names, name, k) < names.len() ==> names[name_index_from(names, name, k)] == name,
        forall|j: int| k <= j < name_index_from(names, name, k) ==> names[j] != name,
    decreases names.len() - k,
{
    if k < names.len() && names[k] != name {
        lemma_name_index_from(names, name, k + 1);
    }
}

/// A name put at the end of a list where no earlier name is equal to it is found there.
pub proof fn lemma_name_index_push(names: Seq<Seq<u8>>, n: Seq<u8>)
    requires
        name_index(names, n) == names.len(),
    ensures
        name_index(names.push(n), n) == names.len(),
{
    lemma_name_index_from(names, n, 0);
    lemma_name_index_from(names.push(n), n, 0);
    let j = name_index(names.push(n), n);
    assert(names.push(n)[names.len() as int] == n);
    if j < names.len() {
        assert(names.push(n)[j] == names[j]);
    }
}

impl View for dirlist {
    type V = Seq<usize>;

    closed spec fn view(&self) -> Seq<usize> {
        self.ids@
    }
}

impl dirlist {
    /// A list that holds no node.
    pub closed spec fn is_new(&self) -> bool {
        self.head is None && self.ids@.len() == 0
    }

    /// An empty list.
    pub fn new() -> (r: dirlist)
        ensures
            r.is_new(),
            r@ == Seq::<usize>::empty(),
    {
        dirlist { head: None, ids: Ghost(Seq::empty()) }
    }

    /// Whether the list holds no subdirectory.
    pub fn empty(&self, heap: &dirheap) -> (r: bool)
        requires
            heap.lists(*self),
        ensures
            r == (self@.len() == 0),
    {
        self.head.is_none()
    }

    /// The node of the first subdirectory named `dnm`, if there is one.
    pub fn get_dirnode(&self, heap: &dirheap, dnm: &cstr) -> (r: Option<usize>)
        requires
            heap.lists(*self),
        ensures
            ({
                let i = name_index(heap.names(self@), dnm@);
                match r {
                    None => i == self@.len(),
                    Some(x) => i < self@.len() && x == self@[i],
                }
            }),
    {
        let ghost ids = self@;
        let ghost names = heap.names(ids);
        let mut cur = self.head;
        let ghost mut k: int = 0;
        proof { lemma_name_index_from(names, dnm@, 0); }
        while cur.is_some()
            invariant
                heap.lists(*self),
                ids == self@,
                names == heap.names(ids),
                0 <= k <= ids.len(),
                cur == (if k < ids.len() { Some(ids[k]) } else { None::<usize> }),
                name_index_from(names, dnm@, k) == name_index(names, dnm@),
            decreases ids.len() - k,
        {
            let c = cur.unwrap();
            assert(heap.nodes@[ids[k] as int].next == next_in(ids, k));
            let node = &heap.nodes[c];
            if node.di.dname.eq(dnm) {
                return Some(c);
            }
            cur = node.next;
            proof { k = k + 1; }
        }
        None
    }

    /// The text that listing the subdirectories prints: a new line and the name of each.
    pub fn print_dirnames(&self, heap: &dirheap, out: &mut Vec<u8>)
        requires
            heap.lists(*self),
        ensures
            final(out)@ == old(out)@ + lines(heap.names(self@)),
    {
        let ghost ids = self@;
        let ghost names = heap.names(ids);
        let mut cur = self.head;
        let ghost mut k: int = 0;
        while cur.is_some()
            invariant
                heap.lists(*self),
                ids == self@,
                names == heap.names(ids),
                0 <= k <= ids.len(),
                cur == (if k < ids.len() { Some(ids[k]) } else { None::<usize> }),
                out@ == old(out)@ + lines(names.take(k)),
            decreases ids.len() - k,
        {
            let c = cur.unwrap();
            assert(heap.nodes@[ids[k] as int].next == next_in(ids, k));
            let node = &heap.nodes[c];
            out.push(10u8);
            let t = node.di.dname.content();
            let n = t.len();
            let mut i: usize = 0;
            while i < n
                invariant
                    i <= n,
                    n == t@.len(),
                    out@ == old(out)@ + lines(names.take(k)) + seq![10u8] + t@.take(i as int),
                decreases n - i,
            {
                out.push(t.byte_at(i));
                i += 1;
                assert(out@ =~= old(out)@ + lines(names.take(k)) + seq![10u8] + t@.take(i as int));
            }
            proof {
                assert(t@.take(n as int) =~= t@);
                assert(names.take(k + 1).drop_last() =~= names.take(k));
                assert(names[k] == node.di.dname@);
                assert(out@ =~= old(out)@ + lines(names.take(k + 1)));
            }
            cur = node.next;
            proof { k = k + 1; }
        }
        assert(names.take(ids.len() as int) =~= names);
    }

    /// Links a new node holding `d` at the end of the list of the directory at `owner`.
    pub fn add_dir(heap: &mut dirheap, owner: usize, d: directory) -> (r: usize)
        requires
            old(heap).wf(),
            owner < old(heap).size(),
            old(heap).may_hold(d),
        ensures
            final(heap).wf(),
            r == old(heap).size(),
            final(heap).size() == old(heap).size() + 1,
            final(heap).dir(r as int) == d,
            final(heap).dir(owner as int).child_dir@ == old(heap).dir(owner as int).child_dir@.push(r),
            final(heap).same_but_kids(*old(heap), owner as int),
    {
        heap.link_new(owner, d)
    }

    /// Unlinks the node of the first subdirectory named `dnm` from the list of the
    /// directory at `owner`.
    pub fn remove_dir(heap: &mut dirheap, owner: usize, dnm: &cstr) -> (r: bool)
        requires
            old(heap).wf(),
            owner < old(heap).size(),
        ensures
            final(heap).wf(),
            final(heap).size() == old(heap).size(),
            final(heap).same_but_kids(*old(heap), owner as int),
            ({
                let ids = old(heap).dir(owner as int).child_dir@;
                let i = name_index(old(heap).names(ids), dnm@);
                &&& r == (i < ids.len())
                &&& final(heap).dir(owner as int).child_dir@ == (if r { ids.remove(i) } else { ids })
            }),
    {
        heap.unlink(owner, dnm)
    }
}

impl dirnode {
    /// Allocates a node holding `d`, linked into no list.
    pub fn new(heap: &mut dirheap, d: directory) -> (r: usize)
        requires
            old(heap).wf(),
            old(heap).may_hold(d),
        ensures
            final(heap).wf(),
            r == old(heap).size(),
            final(heap).size() == old(heap).size() + 1,
            final(heap).dir(r as int) == d,
            final(heap).same_but_kids(*old(heap), -1),
    {
        heap.allocate(d)
    }
}

impl directory {
    /// A directory named `name`, with no files and no subdirectories, whose parent is at `myparent`.
    pub fn new(name: cstr, myparent: Option<usize>) -> (r: directory)
        ensures
            r.dname == name,
            r.parent == myparent,
            r.child_dir.is_new(),
            r.child_dir@ == Seq::<usize>::empty(),
            r.files@ == Seq::<crate::files::FileView>::empty(),
    {
        directory { parent: myparent, child_dir: dirlist::new(), files: filelist::new(), dname: name }
    }

    /// The node of the parent directory, none for the root.
    pub fn get_parent(&self) -> (r: Option<usize>)
        ensures
            r == self.parent,
    {
        self.parent
    }

    /// Adds `f` at the end of the files.
    pub fn add_file(&mut self, f: file)
        ensures
            final(self).files@ == old(self).files@.push(f@),
            final(self).parent == old(self).parent,
            final(self).child_dir == old(self).child_dir,
            final(self).dname == old(self).dname,
    {
        self.files.add_file(f);
    }

    /// Takes the first file named `fname` out of the directory.
    pub fn remove_file(&mut self, fname: &cstr) -> (r: bool)
        ensures
            r == has_file(old(self).files@, fname@),
            final(self).files@ == without_file(old(self).files@, fname@),
            final(self).parent == old(self).parent,
            final(self).child_dir == old(self).child_dir,
            final(self).dname == old(self).dname,
    {
        self.files.remove_file(fname)
    }

    /// The contents of the first file named `fnm`, or an empty string where there is none.
    pub fn read_file(&self, fnm: &cstr) -> (r: cstr)
        ensures
            r@ == found_file(self.files@, fnm@).contents,
            r.max_len() == found_file(self.files@, fnm@).room,
    {
        self.files.read_file(fnm)
    }

    /// Appends `word` to the first file named `fnm`, where there is one and it fits.
    pub fn write_file(&mut self, fnm: &cstr, word: &cstr) -> (r: bool)
        ensures
            r == write_fits(old(self).files@, fnm@, word@),
            final(self).files@ == written(old(self).files@, fnm@, word@),
            final(self).parent == old(self).parent,
            final(self).child_dir == old(self).child_dir,
            final(self).dname == old(self).dname,
    {
        self.files.write_file(fnm, word)
    }

    /// A copy of the first file named `fnm`, or a new empty file where there is none
    /// (see `filelist::get_file`).
    pub fn get_file(&self, fnm: &cstr) -> (r: file)
        ensures
            r@ == found_file(self.files@, fnm@),
    {
        self.files.get_file(fnm)
    }

    /// Adds a subdirectory to the directory at node `owner`, in a new node.
    pub fn add_dir(heap: &mut dirheap, owner: usize, d: directory) -> (r: usize)
        requires
            old(heap).wf(),
            owner < old(heap).size(),
            old(heap).may_hold(d),
        ensures
            final(heap).wf(),
            r == old(heap).size(),
            final(heap).size() == old(heap).size() + 1,
            final(heap).dir(r as int) == d,
            final(heap).dir(owner as int).child_dir@ == old(heap).dir(owner as int).child_dir@.push(r),
            final(heap).same_but_kids(*old(heap), owner as int),
    {
        dirlist::add_dir(heap, owner, d)
    }

    /// Takes the first subdirectory named `dname` out of the directory at node `owner`.
    pub fn remove_dir(heap: &mut dirheap, owner: usize, dname: &cstr) -> (r: bool)
        requires
            old(heap).wf(),
            owner < old(heap).size(),
        ensures
            final(heap).wf(),
            final(heap).size() == old(heap).size(),
            final(heap).same_but_kids(*old(heap), owner as int),
            ({
                let ids = old(heap).dir(owner as int).child_dir@;
                let i = name_index(old(heap).names(ids), dname@);
                &&& r == (i < ids.len())
                &&& final(heap).dir(owner as int).child_dir@ == (if r { ids.remove(i) } else { ids })
            }),
    {
        dirlist::remove_dir(heap, owner, dname)
    }

    /// The node of the first subdirectory named `dnm`, if there is one.
    pub fn get_child(&self, heap: &dirheap, dnm: &cstr) -> (r: Option<usize>)
        requires
            heap.lists(self.child_dir),
        ensures
            ({
                let ids = self.child_dir@;
                let i = name_index(heap.names(ids), dnm@);
                match r {
                    None => i == ids.len(),
                    Some(x) => i < ids.len() && x == ids[i],
                }
            }),
    {
        self.child_dir.get_dirnode(heap, dnm)
    }

    /// The text that listing the directory prints: the names of its files, then those
    /// of its subdirectories, each after a new line.
    pub fn directory_file_list(&self, heap: &dirheap, out: &mut Vec<u8>)
        requires
            heap.lists(self.child_dir),
        ensures
            final(out)@ == old(out)@ + crate::files::name_lines(self.files@) + lines(heap.names(self.child_dir@)),
    {
        self.files.print_filenames(out);
        self.child_dir.print_dirnames(heap, out);
    }

    /// Whether the directory holds neither files nor subdirectories.
    pub fn empty(&self, heap: &dirheap) -> (r: bool)
        requires
            heap.lists(self.child_dir),
        ensures
            r == (self.files@.len() == 0 && self.child_dir@.len() == 0),
    {
        self.files.empty() && self.child_dir.empty(heap)
    }
}

impl dirheap {
    /// The number of nodes.
    pub closed spec fn size(&self) -> nat {
        self.nodes@.len()
    }

    /// The directory at node `q`.
    pub closed spec fn dir(&self, q: int) -> directory {
        self.nodes@[q].di
    }

    /// The names of the directories at nodes `ids`.
    pub open spec fn names(&self, ids: Seq<usize>) -> Seq<Seq<u8>> {
        Seq::new(ids.len(), |i: int| self.dir(ids[i] as int).dname@)
    }

    /// Whether `d` can be put in a new node: its list holds nothing and its parent, if
    /// it has one, is a node already there.
    pub open spec fn may_hold(&self, d: directory) -> bool {
        &&& d.child_dir.is_new()
        &&& match d.parent {
            Some(p) => p < self.size(),
            None => true,
        }
    }

    /// Every directory but the one at `q` is the same in both heaps, and that one too
    /// but for its list of subdirectories.
    pub open spec fn same_but_kids(&self, old: dirheap, q: int) -> bool {
        &&& forall|p: int| 0 <= p < old.size() && p != q ==> #[trigger] self.dir(p) == old.dir(p)
        &&& 0 <= q < old.size() ==> {
            &&& self.dir(q).parent == old.dir(q).parent
            &&& self.dir(q).files == old.dir(q).files
            &&& self.dir(q).dname == old.dir(q).dname
        }
    }

    /// `l` is a chain of nodes of `n`: its head is its first node, each node links to
    /// the one after it, and no node comes twice.
    pub closed spec fn chain(n: Seq<dirnode>, l: dirlist) -> bool {
        let ids = l.ids@;
        &&& l.head == (if ids.len() == 0 { None } else { Some(ids[0]) })
        &&& forall|i: int| 0 <= i < ids.len() ==> (#[trigger] ids[i]) < n.len()
        &&& forall|i: int| 0 <= i < ids.len() ==> n[ids[i] as int].next == #[trigger] next_in(ids, i)
        &&& ids.no_duplicates()
    }

    /// `l` is a chain of nodes of this heap.
    pub closed spec fn lists(&self, l: dirlist) -> bool {
        Self::chain(self.nodes@, l)
    }

    /// The list of every directory is a chain of this heap whose nodes lie above it and
    /// have it as owner, and every parent lies below its child.
    pub closed spec fn wf(&self) -> bool {
        let n = self.nodes@;
        let o = self.owners@;
        &&& o.len() == n.len()
        &&& forall|p: int| 0 <= p < n.len() ==> Self::chain(n, #[trigger] n[p].di.child_dir)
        &&& forall|p: int, i: int|
            0 <= p < n.len() && 0 <= i < n[p].di.child_dir.ids@.len()
                ==> o[#[trigger] n[p].di.child_dir.ids@[i] as int] == Some(p as usize)
                    && n[p].di.child_dir.ids@[i] > p
        &&& forall|q: int| 0 <= q < n.len() ==> match #[trigger] n[q].di.parent {
            Some(p) => p < q,
            None => true,
        }
    }

    /// A chain stays a chain in a heap where its nodes keep their links.
    proof fn lemma_chain_frame(h0: Seq<dirnode>, h1: Seq<dirnode>, l: dirlist)
        requires
            Self::chain(h0, l),
            h0.len() <= h1.len(),
            forall|i: int| 0 <= i < l.ids@.len() ==> h1[#[trigger] l.ids@[i] as int].next == h0[l.ids@[i] as int].next,
        ensures
            Self::chain(h1, l),
    {
        let ids = l.ids@;
        assert forall|i: int| 0 <= i < ids.len() implies h1[ids[i] as int].next == #[trigger] next_in(ids, i) by {
            assert(h1[ids[i] as int].next == h0[ids[i] as int].next);
        }
    }

    /// The number of nodes fits in a `usize`.
    pub proof fn lemma_size_fits(&self)
        ensures
            self.size() <= usize::MAX,
    {
        vstd::std_specs::vec::axiom_spec_len(&self.nodes);
    }

    /// The list of each directory is a chain of the heap.
    pub proof fn lemma_lists(&self, p: int)
        requires
            self.wf(),
            0 <= p < self.size(),
        ensures
            self.lists(self.dir(p).child_dir),
    {
    }

    /// The parent of a directory lies at a lower node.
    pub proof fn lemma_parent_below(&self, q: int)
        requires
            self.wf(),
            0 <= q < self.size(),
        ensures
            match self.dir(q).parent {
                Some(p) => p < q,
                None => true,
            },
    {
        assert(match self.nodes@[q].di.parent {
            Some(p) => p < q,
            None => true,
        });
    }

    /// Every node of the list of a directory holds another directory, whose own nodes
    /// lie in the heap.
    pub proof fn lemma_kids_in_heap(&self, p: int, i: int)
        requires
            self.wf(),
            0 <= p < self.size(),
            0 <= i < self.dir(p).child_dir@.len(),
        ensures
            self.dir(p).child_dir@[i] < self.size(),
            self.dir(p).child_dir@[i] > p,
    {
        assert(self.lists(self.nodes@[p].di.child_dir));
    }

    /// A heap with no nodes.
    pub fn new() -> (r: dirheap)
        ensures
            r.wf(),
            r.size() == 0,
    {
        dirheap { nodes: Vec::new(), owners: Ghost(Seq::empty()) }
    }

    /// The number of nodes.
    pub fn len(&self) -> (r: usize)
        ensures
            r == self.size(),
    {
        self.nodes.len()
    }

    /// The directory at node `q`.
    pub fn get(&self, q: usize) -> (r: &directory)
        requires
            q < self.size(),
        ensures
            *r == self.dir(q as int),
    {
        &self.nodes[q].di
    }

    /// The files of the directory at node `q`, to change.
    pub fn files_mut(&mut self, q: usize) -> (r: &mut filelist)
        requires
            old(self).wf(),
            q < old(self).size(),
        ensures
            *r == old(self).dir(q as int).files,
            final(self).wf(),
            final(self).size() == old(self).size(),
            final(self).dir(q as int) == (directory { files: *final(r), ..old(self).dir(q as int) }),
            forall|p: int| 0 <= p < old(self).size() && p != q ==> #[trigger] final(self).dir(p) == old(self).dir(p),
    {
        &mut self.nodes[q].di.files
    }

    fn allocate(&mut self, d: directory) -> (r: usize)
        requires
            old(self).wf(),
            old(self).may_hold(d),
        ensures
            final(self).wf(),
            r == old(self).size(),
            final(self).size() == old(self).size() + 1,
            final(self).dir(r as int) == d,
            final(self).nodes@ == old(self).nodes@.push(dirnode { next: None, di: d }),
            final(self).owners@ == old(self).owners@.push(None),
            final(self).same_but_kids(*old(self), -1),
    {
        let r = self.nodes.len();
        self.nodes.push(dirnode { next: None, di: d });
        proof {
            self.owners@ = self.owners@.push(None);
            let n = self.nodes@;
            let h0 = old(self).nodes@;
            assert forall|p: int| 0 <= p < n.len() implies Self::chain(n, #[trigger] n[p].di.child_dir) by {
                if p < h0.len() {
                    assert(Self::chain(h0, h0[p].di.child_dir));
                    let ids = h0[p].di.child_dir.ids@;
                    assert forall|i: int| 0 <= i < ids.len() implies n[#[trigger] ids[i] as int].next == h0[ids[i] as int].next by {
                        assert(ids[i] < h0.len());
                    }
                    Self::lemma_chain_frame(h0, n, h0[p].di.child_dir);
                }
            }
            assert forall|p: int, i: int|
                0 <= p < n.len() && 0 <= i < n[p].di.child_dir.ids@.len()
                    implies self.owners@[#[trigger] n[p].di.child_dir.ids@[i] as int] == Some(p as usize)
                        && n[p].di.child_dir.ids@[i] > p by {
                if p < h0.len() {
                    assert(Self::chain(h0, h0[p].di.child_dir));
                    assert(h0[p].di.child_dir.ids@[i] < h0.len());
                }
            }
        }
        r
    }

    fn link_new(&mut self, owner: usize, d: directory) -> (r: usize)
        requires
            old(self).wf(),
            owner < old(self).size(),
            old(self).may_hold(d),
        ensures
            final(self).wf(),
            r == old(self).size(),
            final(self).size() == old(self).size() + 1,
            final(self).dir(r as int) == d,
            final(self).dir(owner as int).child_dir@ == old(self).dir(owner as int).child_dir@.push(r),
            final(self).same_but_kids(*old(self), owner as int),
    {
        let ghost h0 = self.nodes@;
        let ghost ids = h0[owner as int].di.child_dir.ids@;
        proof { assert(Self::chain(h0, h0[owner as int].di.child_dir)); }
        let mut last: Option<usize> = None;
        let mut cur = self.nodes[owner].di.child_dir.head;
        let ghost mut k: int = 0;
        while cur.is_some()
            invariant
                self.wf(),
                self.nodes@ == h0,
                owner < h0.len(),
                ids == h0[owner as int].di.child_dir.ids@,
                Self::chain(h0, h0[owner as int].di.child_dir),
                0 <= k <= ids.len(),
                cur == (if k < ids.len() { Some(ids[k]) } else { None::<usize> }),
                last == (if k == 0 { None::<usize> } else { Some(ids[k - 1]) }),
            decreases ids.len() - k,
        {
            let c = cur.unwrap();
            assert(h0[ids[k] as int].next == next_in(ids, k));
            last = cur;
            cur = self.nodes[c].next;
            proof { k = k + 1; }
        }
        let r = self.allocate(d);
        let ghost h1 = self.nodes@;
        let ghost o1 = self.owners@;
        let ghost nids = ids.push(r);
        match last {
            None => {
                self.nodes[owner].di.child_dir.head = Some(r);
            },
            Some(l) => {
                self.nodes[l].next = Some(r);
            },
        }
        self.nodes[owner].di.child_dir.ids = Ghost(nids);
        proof {
            self.owners@ = o1.update(r as int, Some(owner));
            let n = self.nodes@;
            let o = self.owners@;
            assert(k == ids.len());
            assert forall|i: int| 0 <= i < ids.len() implies ids[i] < h0.len() && ids[i] > owner && #[trigger] o1[ids[i] as int] == Some(owner) by {
                assert(h0[owner as int].di.child_dir.ids@[i] == ids[i]);
            }
            // the list of the owner
            assert forall|i: int| 0 <= i < nids.len() implies (#[trigger] nids[i]) < n.len() by {
                if i < ids.len() { assert(ids[i] < h0.len()); }
            }
            assert forall|i: int| 0 <= i < nids.len() implies n[nids[i] as int].next == #[trigger] next_in(nids, i) by {
                if i < ids.len() {
                    assert(ids[i] < h0.len());
                    assert(h0[ids[i] as int].next == next_in(ids, i));
                    if i + 1 == ids.len() {
                        assert(last == Some(ids[i]));
                    } else {
                        assert(ids[i] != ids[ids.len() - 1]);
                    }
                }
            }
            assert forall|i: int, j: int| 0 <= i < nids.len() && 0 <= j < nids.len() && i != j implies nids[i] != nids[j] by {
                if i < ids.len() && j < ids.len() {
                    assert(ids.no_duplicates());
                } else if i < ids.len() {
                    assert(ids[i] < h0.len());
                } else if j < ids.len() {
                    assert(ids[j] < h0.len());
                }
            }
            assert(Self::chain(n, n[owner as int].di.child_dir));
            // the other lists
            assert forall|p: int| 0 <= p < n.len() implies Self::chain(n, #[trigger] n[p].di.child_dir) by {
                if p != owner {
                    assert(n[p].di.child_dir == h1[p].di.child_dir);
                    assert(Self::chain(h1, h1[p].di.child_dir));
                    let pids = h1[p].di.child_dir.ids@;
                    assert forall|i: int| 0 <= i < pids.len() implies n[#[trigger] pids[i] as int].next == h1[pids[i] as int].next by {
                        if k > 0 && pids[i] == ids[k - 1] {
                            assert(o1[pids[i] as int] == Some(p as usize));
                        }
                    }
                    Self::lemma_chain_frame(h1, n, h1[p].di.child_dir);
                }
            }
            assert forall|p: int, i: int|
                0 <= p < n.len() && 0 <= i < n[p].di.child_dir.ids@.len()
                    implies o[#[trigger] n[p].di.child_dir.ids@[i] as int] == Some(p as usize)
                        && n[p].di.child_dir.ids@[i] > p by {
                if p == owner {
                } else {
                    assert(n[p].di.child_dir == h1[p].di.child_dir);
                    assert(Self::chain(h1, h1[p].di.child_dir));
                    assert(h1[p].di.child_dir.ids@[i] < h0.len());
                }
            }
            assert forall|q: int| 0 <= q < n.len() implies match #[trigger] n[q].di.parent {
                Some(p) => p < q,
                None => true,
            } by {
                assert(h1[q].di.parent == n[q].di.parent);
            }
            assert forall|p: int| 0 <= p < h0.len() && p != owner implies #[trigger] self.dir(p) == old(self).dir(p) by {
                assert(h1[p] == h0[p]);
            }
        }
        r
    }

    fn unlink(&mut self, owner: usize, dnm: &cstr) -> (r: bool)
        requires
            old(self).wf(),
            owner < old(self).size(),
        ensures
            final(self).wf(),
            final(self).size() == old(self).size(),
            final(self).same_but_kids(*old(self), owner as int),
            ({
                let ids = old(self).dir(owner as int).child_dir@;
                let i = name_index(old(self).names(ids), dnm@);
                &&& r == (i < ids.len())
                &&& final(self).dir(owner as int).child_dir@ == (if r { ids.remove(i) } else { ids })
            }),
    {
        let ghost h0 = self.nodes@;
        let ghost o0 = self.owners@;
        let ghost ids = h0[owner as int].di.child_dir.ids@;
        let ghost names = self.names(ids);
        proof {
            assert(Self::chain(h0, h0[owner as int].di.child_dir));
            lemma_name_index_from(names, dnm@, 0);
        }
        let mut prev: Option<usize> = None;
        let mut cur = self.nodes[owner].di.child_dir.head;
        let ghost mut k: int = 0;
        while cur.is_some()
            invariant
                self.wf(),
                self.nodes@ == h0,
                self.owners@ == o0,
                h0 == old(self).nodes@,
                o0 == old(self).owners@,
                names == old(self).names(ids),
                owner < h0.len(),
                ids == h0[owner as int].di.child_dir.ids@,
                names == self.names(ids),
                Self::chain(h0, h0[owner as int].di.child_dir),
                0 <= k <= ids.len(),
                cur == (if k < ids.len() { Some(ids[k]) } else { None::<usize> }),
                prev == (if k == 0 { None::<usize> } else { Some(ids[k - 1]) }),
                name_index_from(names, dnm@, k) == name_index(names, dnm@),
            decreases ids.len() - k,
        {
            let c = cur.unwrap();
            assert(h0[ids[k] as int].next == next_in(ids, k));
            let nx = self.nodes[c].next;
            if self.nodes[c].di.dname.eq(dnm) {
                assert(name_index(names, dnm@) == k);
                let ghost nids = ids.remove(k);
                match prev {
                    None => {
                        self.nodes[owner].di.child_dir.head = nx;
                    },
                    Some(p) => {
                        self.nodes[p].next = nx;
                    },
                }
                self.nodes[owner].di.child_dir.ids = Ghost(nids);
                proof {
                    let n = self.nodes@;
                    assert forall|i: int| 0 <= i < ids.len() implies ids[i] < h0.len() && ids[i] > owner && #[trigger] o0[ids[i] as int] == Some(owner) by {
                        assert(h0[owner as int].di.child_dir.ids@[i] == ids[i]);
                    }
                    assert forall|i: int| 0 <= i < nids.len() implies (#[trigger] nids[i]) < n.len() by {
                        if i < k { assert(nids[i] == ids[i]); } else { assert(nids[i] == ids[i + 1]); }
                    }
                    assert forall|i: int| 0 <= i < nids.len() implies n[nids[i] as int].next == #[trigger] next_in(nids, i) by {
                        if i < k - 1 {
                            assert(nids[i] == ids[i]);
                            assert(ids[i] != ids[k - 1]);
                            assert(h0[ids[i] as int].next == next_in(ids, i));
                        } else if i == k - 1 {
                            assert(nids[i] == ids[k - 1]);
                        } else {
                            assert(nids[i] == ids[i + 1]);
                            assert(k == 0 || ids[i + 1] != ids[k - 1]);
                            assert(h0[ids[i + 1] as int].next == next_in(ids, i + 1));
                        }
                    }
                    assert forall|i: int, j: int| 0 <= i < nids.len() && 0 <= j < nids.len() && i != j implies nids[i] != nids[j] by {
                        let a = if i < k { i } else { i + 1 };
                        let b = if j < k { j } else { j + 1 };
                        assert(nids[i] == ids[a]);
                        assert(nids[j] == ids[b]);
                    }
                    assert(Self::chain(n, n[owner as int].di.child_dir));
                    assert forall|p: int| 0 <= p < n.len() implies Self::chain(n, #[trigger] n[p].di.child_dir) by {
                        if p != owner {
                            assert(n[p].di.child_dir == h0[p].di.child_dir);
                            assert(Self::chain(h0, h0[p].di.child_dir));
                            let pids = h0[p].di.child_dir.ids@;
                            assert forall|i: int| 0 <= i < pids.len() implies n[#[trigger] pids[i] as int].next == h0[pids[i] as int].next by {
                                if k > 0 && pids[i] == ids[k - 1] {
                                    assert(o0[pids[i] as int] == Some(p as usize));
                                }
                            }
                            Self::lemma_chain_frame(h0, n, h0[p].di.child_dir);
                        }
                    }
                    assert forall|p: int, i: int|
                        0 <= p < n.len() && 0 <= i < n[p].di.child_dir.ids@.len()
                            implies self.owners@[#[trigger] n[p].di.child_dir.ids@[i] as int] == Some(p as usize)
                                && n[p].di.child_dir.ids@[i] > p by {
                        if p == owner {
                            if i < k { assert(nids[i] == ids[i]); } else { assert(nids[i] == ids[i + 1]); }
                        } else {
                            assert(n[p].di.child_dir == h0[p].di.child_dir);
                        }
                    }
                    assert forall|q: int| 0 <= q < n.len() implies match #[trigger] n[q].di.parent {
                        Some(p) => p < q,
                        None => true,
                    } by {
                        assert(h0[q].di.parent == n[q].di.parent);
                    }
                    assert forall|p: int| 0 <= p < h0.len() && p != owner implies #[trigger] self.dir(p) == old(self).dir(p) by {
                        assert(n[p].di == h0[p].di);
                    }
                }
                return true;
            }
            prev = cur;
            cur = nx;
            proof { k = k + 1; }
        }
        false
    }
}

} // verus!
