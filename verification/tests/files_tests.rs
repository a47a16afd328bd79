use sgash::files;
use sgash::files::{filelist, filenode};
use sgash::text::cstr;

fn bytes(s: &cstr) -> Vec<u8> {
    (0..s.len()).map(|i| s.byte_at(i)).collect()
}

fn word(text: &str) -> cstr {
    cstr::from_str(text)
}

fn named(name: &str, room: usize) -> files::file {
    files::file::new(room, word(name))
}

#[test]
fn new_file_is_empty() {
    let f = named("a", 16);
    assert_eq!(f.len(), 0);
    assert_eq!(bytes(&f.fname), b"a".to_vec());
    assert_eq!(f.contents.max(), 16);
}

#[test]
fn append_fits_with_a_byte_to_spare() {
    let mut f = named("a", 6);
    assert!(f.append_cstr(&word("hello")));
    assert_eq!(bytes(&f.get_contents()), b"hello".to_vec());
    assert!(!f.append_cstr(&word("x")));
    assert_eq!(f.len(), 5);
}

#[test]
fn file_eq_compares_name_and_contents() {
    let mut a = named("a", 8);
    let b = named("a", 8);
    assert!(a.eq(&b));
    a.append_cstr(&word("z"));
    assert!(!a.eq(&b));
}

#[test]
fn filenode_new_has_no_next() {
    let n = filenode::new(named("q", 4));
    assert!(n.next.is_none());
}

#[test]
fn empty_list() {
    let l = filelist::new();
    assert!(l.empty());
    let mut out = Vec::new();
    l.print_filenames(&mut out);
    assert!(out.is_empty());
}

#[test]
fn add_then_list_names_in_order() {
    let mut l = filelist::new();
    l.add_file(named("one", 8));
    l.add_file(named("two", 8));
    let mut out = Vec::new();
    l.print_filenames(&mut out);
    assert_eq!(out, b"\none\ntwo".to_vec());
    assert!(!l.empty());
}

#[test]
fn read_after_write() {
    let mut l = filelist::new();
    l.add_file(named("f", 32));
    assert!(l.write_file(&word("f"), &word("abc")));
    assert!(l.write_file(&word("f"), &word("de")));
    assert_eq!(bytes(&l.read_file(&word("f"))), b"abcde".to_vec());
}

#[test]
fn write_to_missing_file_fails() {
    let mut l = filelist::new();
    assert!(!l.write_file(&word("nope"), &word("abc")));
}

#[test]
fn read_missing_file_is_empty_with_room_256() {
    let l = filelist::new();
    let r = l.read_file(&word("nope"));
    assert_eq!(r.len(), 0);
    assert_eq!(r.max(), 256);
}

#[test]
fn write_goes_to_the_first_file_of_the_name() {
    let mut l = filelist::new();
    l.add_file(named("f", 8));
    l.add_file(named("f", 8));
    assert!(l.write_file(&word("f"), &word("x")));
    let mut first = filelist::new();
    first.add_file(named("f", 8));
    assert_eq!(bytes(&l.read_file(&word("f"))), b"x".to_vec());
    assert!(l.remove_file(&word("f")));
    assert_eq!(l.read_file(&word("f")).len(), 0);
}

#[test]
fn remove_after_add_gives_back_the_list() {
    let mut l = filelist::new();
    l.add_file(named("a", 8));
    l.add_file(named("b", 8));
    assert!(l.remove_file(&word("b")));
    let mut out = Vec::new();
    l.print_filenames(&mut out);
    assert_eq!(out, b"\na".to_vec());
    assert!(!l.remove_file(&word("b")));
}

#[test]
fn remove_nofree_takes_first_match() {
    let mut l = filelist::new();
    l.add_file(named("a", 8));
    l.add_file(named("b", 8));
    l.add_file(named("a", 8));
    assert!(l.remove_file_nofree(&word("a")));
    let mut out = Vec::new();
    l.print_filenames(&mut out);
    assert_eq!(out, b"\nb\na".to_vec());
}

#[test]
fn get_file_copies_or_gives_the_empty_file() {
    let mut l = filelist::new();
    l.add_file(named("a", 8));
    l.write_file(&word("a"), &word("hi"));
    let f = l.get_file(&word("a"));
    assert_eq!(bytes(&f.fname), b"a".to_vec());
    assert_eq!(bytes(&f.contents), b"hi".to_vec());
    let g = l.get_file(&word("zz"));
    assert_eq!(g.fname.len(), 0);
    assert_eq!(g.contents.len(), 0);
    assert_eq!(g.contents.max(), 256);
}

#[test]
fn set_new_name_renames_every_match() {
    let mut l = filelist::new();
    l.add_file(named("a", 8));
    l.add_file(named("b", 8));
    l.add_file(named("a", 8));
    l.set_new_name(&word("a"), &word("c"));
    let mut out = Vec::new();
    l.print_filenames(&mut out);
    assert_eq!(out, b"\nc\nb\nc".to_vec());
    assert!(!l.remove_file(&word("a")));
}

#[test]
fn append_adds_the_text_and_counts_every_byte() {
    let mut f = named("a", 12);
    assert!(f.append_cstr(&word("hi\0\0\0\0yo")));
    assert_eq!(bytes(&f.get_contents()), b"hi".to_vec());
    let mut g = named("b", 8);
    assert!(!g.append_cstr(&word("hi\0\0\0\0yo")));
    assert_eq!(g.len(), 0);
}

#[test]
fn file_names_print_as_their_text() {
    let mut l = filelist::new();
    l.add_file(named("ab\0\0\0\0cd", 4));
    let mut out = Vec::new();
    l.print_filenames(&mut out);
    assert_eq!(out, b"\nab".to_vec());
}
