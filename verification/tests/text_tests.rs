use sgash::text::cstr;
use sgash::console::Effect;

fn bytes(s: &cstr) -> Vec<u8> {
    let mut v = Vec::new();
    for i in 0..s.len() {
        v.push(s.byte_at(i));
    }
    v
}

fn make(text: &str, room: usize) -> cstr {
    let mut s = cstr::new(room);
    for b in text.bytes() {
        assert!(s.add_char(b));
    }
    s
}

fn said(out: &[Effect]) -> String {
    out.iter()
        .map(|e| match e {
            Effect::PutChar(b) => *b as char,
            _ => '?',
        })
        .collect()
}

#[test]
fn new_string_is_empty() {
    let s = cstr::new(10);
    assert_eq!(s.len(), 0);
    assert_eq!(s.max(), 10);
}

#[test]
fn add_char_stops_at_room() {
    let mut s = cstr::new(2);
    assert!(s.add_char(b'a'));
    assert!(s.add_char(b'b'));
    assert!(!s.add_char(b'c'));
    assert_eq!(bytes(&s), b"ab".to_vec());
}

#[test]
fn add_then_delete_gives_back_the_string() {
    let mut s = make("xy", 5);
    assert!(s.add_char(b'z'));
    assert!(s.delete_char());
    assert_eq!(bytes(&s), b"xy".to_vec());
}

#[test]
fn delete_char_on_empty_fails() {
    let mut s = cstr::new(3);
    assert!(!s.delete_char());
    assert_eq!(s.len(), 0);
}

#[test]
fn reset_empties() {
    let mut s = make("abc", 5);
    s.reset();
    assert_eq!(s.len(), 0);
    assert_eq!(s.max(), 5);
}

#[test]
fn from_str_holds_the_bytes_with_room_256() {
    let s = cstr::from_str("root");
    assert_eq!(bytes(&s), b"root".to_vec());
    assert_eq!(s.max(), 256);
}

#[test]
fn from_str_cuts_long_text() {
    let long = "x".repeat(300);
    let s = cstr::from_str(&long);
    assert_eq!(s.len(), 256);
}

#[test]
fn concatfront_puts_word_in_front() {
    let mut s = make("world", 20);
    let w = make("hello ", 10);
    assert!(s.concatfront(&w));
    assert_eq!(bytes(&s), b"hello world".to_vec());
}

#[test]
fn concatfront_refuses_an_exact_fit() {
    let mut s = make("abc", 5);
    let w = make("de", 5);
    assert!(!s.concatfront(&w));
    assert_eq!(bytes(&s), b"abc".to_vec());
    let w1 = make("d", 5);
    assert!(s.concatfront(&w1));
    assert_eq!(bytes(&s), b"dabc".to_vec());
}

#[test]
fn copy_cuts_to_room() {
    let mut s = make("zz", 3);
    let w = make("abcdef", 10);
    s.copy(&w);
    assert_eq!(bytes(&s), b"abc".to_vec());
}

#[test]
fn place_in_mem_writes_over_the_front() {
    let s = make("hi", 5);
    let mut mem = vec![1u8, 2, 3, 4, 5, 6];
    s.place_in_mem(&mut mem);
    assert_eq!(mem, vec![b'h', b'i', 0, 0, 0, 6]);
}

#[test]
fn place_in_mem_of_empty_text_writes_nothing() {
    let s = make("", 5);
    let mut mem = vec![1u8, 2, 3];
    s.place_in_mem(&mut mem);
    assert_eq!(mem, vec![1u8, 2, 3]);
}

#[test]
fn text_ends_at_four_zero_bytes() {
    let s = make("ab\0\0\0\0cd", 20);
    assert_eq!(s.len(), 8);
    assert_eq!(s.text_len(), 2);
    assert_eq!(bytes(&s.content()), b"ab".to_vec());
    assert!(s.streq("ab"));
    assert!(!s.streq("abc"));
}

#[test]
fn zero_byte_followed_by_text_does_not_end_it() {
    let s = make("a\0b", 20);
    assert_eq!(s.text_len(), 3);
    assert!(!s.streq("a"));
    assert!(s.streq("a\0b"));
}

#[test]
fn zero_bytes_at_the_end_are_not_text() {
    let s = make("ls\0", 20);
    assert_eq!(s.text_len(), 2);
    assert!(s.streq("ls"));
    assert_eq!(bytes(&s.content()), b"ls".to_vec());
}

#[test]
fn getarg_and_splits_read_only_the_text() {
    let s = make("ab cd\0\0\0\0ef gh", 40);
    let mut out = Vec::new();
    assert_eq!(bytes(&s.getarg(' ', 1, &mut out).unwrap()), b"cd".to_vec());
    assert!(s.getarg(' ', 2, &mut out).is_none());
    assert!(out.is_empty());
    let (a, b) = s.splitonce(' ');
    assert_eq!(bytes(&a), b"ab".to_vec());
    assert_eq!(bytes(&b), b"cd".to_vec());
    let (a, b) = s.split(' ');
    assert_eq!(bytes(&a), b"ab".to_vec());
    assert_eq!(bytes(&b), b"cd".to_vec());
}

#[test]
fn copy_takes_the_text() {
    let w = make("xy\0\0\0\0z", 20);
    let mut s = make("old", 10);
    s.copy(&w);
    assert_eq!(bytes(&s), b"xy".to_vec());
}

#[test]
fn eq_and_streq() {
    let a = make("abc", 5);
    let b = make("abc", 9);
    let c = make("abd", 5);
    assert!(a.eq(&b));
    assert!(!a.eq(&c));
    assert!(a.streq("abc"));
    assert!(!a.streq("ab"));
    assert!(!a.streq("abcd"));
    assert!(cstr::new(1).streq(""));
}

#[test]
fn getarg_finds_each_field() {
    let s = make("cat a.txt b", 256);
    let mut out = Vec::new();
    assert_eq!(bytes(&s.getarg(' ', 0, &mut out).unwrap()), b"cat".to_vec());
    assert_eq!(bytes(&s.getarg(' ', 1, &mut out).unwrap()), b"a.txt".to_vec());
    assert_eq!(bytes(&s.getarg(' ', 2, &mut out).unwrap()), b"b".to_vec());
    assert!(s.getarg(' ', 3, &mut out).is_none());
    assert!(out.is_empty());
}

#[test]
fn getarg_empty_fields() {
    let s = make("a  b", 256);
    let mut out = Vec::new();
    assert_eq!(bytes(&s.getarg(' ', 1, &mut out).unwrap()), Vec::<u8>::new());
    assert_eq!(bytes(&s.getarg(' ', 2, &mut out).unwrap()), b"b".to_vec());
    let e = cstr::new(4);
    assert_eq!(e.getarg(' ', 0, &mut out).unwrap().len(), 0);
}

#[test]
fn getarg_on_a_full_string_runs_out() {
    let s = make("ab cd", 5);
    let mut out = Vec::new();
    assert_eq!(bytes(&s.getarg(' ', 0, &mut out).unwrap()), b"ab".to_vec());
    assert!(out.is_empty());
    assert!(s.getarg(' ', 1, &mut out).is_none());
    assert_eq!(said(&out), "\nSomething broke!");
}

#[test]
fn getarg_field_has_room_256() {
    let s = make("x y", 256);
    let mut out = Vec::new();
    assert_eq!(s.getarg(' ', 1, &mut out).unwrap().max(), 256);
}

#[test]
fn split_drops_every_delimiter_after_the_first() {
    let s = make("mv a b  c", 256);
    let (a, b) = s.split(' ');
    assert_eq!(bytes(&a), b"mv".to_vec());
    assert_eq!(bytes(&b), b"abc".to_vec());
}

#[test]
fn splitonce_keeps_the_rest() {
    let s = make("echo hi  there", 256);
    let (a, b) = s.splitonce(' ');
    assert_eq!(bytes(&a), b"echo".to_vec());
    assert_eq!(bytes(&b), b"hi  there".to_vec());
    let t = make("alone", 256);
    let (c, d) = t.splitonce(' ');
    assert_eq!(bytes(&c), b"alone".to_vec());
    assert_eq!(d.len(), 0);
}

#[test]
fn first_field_is_first_part() {
    let s = make("one two three", 256);
    let mut out = Vec::new();
    let g = s.getarg(' ', 0, &mut out).unwrap();
    let (a, _) = s.splitonce(' ');
    let (b, _) = s.split(' ');
    assert!(g.eq(&a));
    assert!(g.eq(&b));
}

#[test]
fn clone_keeps_bytes_and_room() {
    let s = make("abc", 7);
    let c = s.clone();
    assert!(c.eq(&s));
    assert_eq!(c.max(), 7);
}
