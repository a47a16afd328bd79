use sgash::dirs::{directory, dirheap, dirlist, dirnode};
use sgash::files;
use sgash::text::cstr;

fn word(s: &str) -> cstr {
    cstr::from_str(s)
}

fn bytes(s: &cstr) -> Vec<u8> {
    (0..s.len()).map(|i| s.byte_at(i)).collect()
}

fn tree() -> (dirheap, usize) {
    let mut heap = dirheap::new();
    let root = dirnode::new(&mut heap, directory::new(word("root"), None));
    (heap, root)
}

#[test]
fn new_directory_is_empty() {
    let d = directory::new(word("x"), Some(3));
    assert_eq!(d.get_parent(), Some(3));
    assert!(d.files.empty());
    let heap = dirheap::new();
    assert_eq!(heap.len(), 0);
    assert!(dirlist::new().empty(&heap));
}

#[test]
fn add_and_find_subdirectories() {
    let (mut heap, root) = tree();
    let a = directory::add_dir(&mut heap, root, directory::new(word("a"), Some(root)));
    let b = dirlist::add_dir(&mut heap, root, directory::new(word("b"), Some(root)));
    assert_eq!((root, a, b), (0, 1, 2));
    assert_eq!(heap.len(), 3);
    assert_eq!(heap.get(root).get_child(&heap, &word("a")), Some(a));
    assert_eq!(heap.get(root).child_dir.get_dirnode(&heap, &word("b")), Some(b));
    assert_eq!(heap.get(root).get_child(&heap, &word("c")), None);
    assert_eq!(heap.get(a).get_parent(), Some(root));
    let mut out = Vec::new();
    heap.get(root).child_dir.print_dirnames(&heap, &mut out);
    assert_eq!(out, b"\na\nb".to_vec());
    assert!(!heap.get(root).empty(&heap));
    assert!(heap.get(a).empty(&heap));
}

#[test]
fn first_of_two_same_names_is_found() {
    let (mut heap, root) = tree();
    let a1 = directory::add_dir(&mut heap, root, directory::new(word("a"), Some(root)));
    let _a2 = directory::add_dir(&mut heap, root, directory::new(word("a"), Some(root)));
    assert_eq!(heap.get(root).get_child(&heap, &word("a")), Some(a1));
}

#[test]
fn remove_subdirectories() {
    let (mut heap, root) = tree();
    let _a = directory::add_dir(&mut heap, root, directory::new(word("a"), Some(root)));
    let b = directory::add_dir(&mut heap, root, directory::new(word("b"), Some(root)));
    let _c = directory::add_dir(&mut heap, root, directory::new(word("c"), Some(root)));
    assert!(dirlist::remove_dir(&mut heap, root, &word("a")));
    assert!(directory::remove_dir(&mut heap, root, &word("c")));
    assert!(!directory::remove_dir(&mut heap, root, &word("zz")));
    let mut out = Vec::new();
    heap.get(root).child_dir.print_dirnames(&heap, &mut out);
    assert_eq!(out, b"\nb".to_vec());
    assert_eq!(heap.get(root).get_child(&heap, &word("b")), Some(b));
    assert!(directory::remove_dir(&mut heap, root, &word("b")));
    assert!(heap.get(root).child_dir.empty(&heap));
    let d = directory::add_dir(&mut heap, root, directory::new(word("d"), Some(root)));
    assert_eq!(heap.get(root).get_child(&heap, &word("d")), Some(d));
}

#[test]
fn files_of_a_directory_in_the_heap() {
    let (mut heap, root) = tree();
    heap.files_mut(root).add_file(files::file::new(16, word("f")));
    assert!(heap.files_mut(root).write_file(&word("f"), &word("ab")));
    assert_eq!(bytes(&heap.get(root).read_file(&word("f"))), b"ab".to_vec());
    let mut out = Vec::new();
    heap.get(root).directory_file_list(&heap, &mut out);
    assert_eq!(out, b"\nf".to_vec());
}

#[test]
fn directory_file_operations() {
    let mut d = directory::new(word("x"), None);
    d.add_file(files::file::new(16, word("f")));
    assert!(d.write_file(&word("f"), &word("hey")));
    assert_eq!(bytes(&d.read_file(&word("f"))), b"hey".to_vec());
    assert_eq!(bytes(&d.get_file(&word("f")).contents), b"hey".to_vec());
    assert!(d.remove_file(&word("f")));
    assert!(!d.remove_file(&word("f")));
    assert!(d.files.empty());
}

#[test]
fn listing_puts_files_before_subdirectories() {
    let (mut heap, root) = tree();
    let _s = directory::add_dir(&mut heap, root, directory::new(word("sub"), Some(root)));
    heap.files_mut(root).add_file(files::file::new(16, word("f")));
    let mut out = Vec::new();
    heap.get(root).directory_file_list(&heap, &mut out);
    assert_eq!(out, b"\nf\nsub".to_vec());
}
