use sgash::console::{Effect, Screen};
use sgash::shell::Shell;
use sgash::text::cstr;

fn scr() -> Screen {
    Screen { cursor_x: 1000, cursor_y: 1000, cursor_width: 8, cursor_height: 16, screen_width: 640, bg_color: 0x112233, fg_color: 0xFFFFFF }
}

fn text_of(out: &[Effect]) -> String {
    out.iter()
        .filter_map(|e| match e {
            Effect::PutChar(b) => Some(*b as char),
            _ => None,
        })
        .collect()
}

fn start() -> Shell {
    let mut out = Vec::new();
    let sh = Shell::init(&mut out);
    assert_eq!(text_of(&out), "\nsgash> ");
    sh
}

/// Types `line` and Enter; gives what the shell printed after the echo of the line.
fn run(sh: &mut Shell, line: &str) -> Vec<Effect> {
    let mut out = Vec::new();
    for c in line.chars() {
        sh.parsekey(c, &scr(), &mut out);
    }
    let echoed = out.len();
    sh.parsekey('\r', &scr(), &mut out);
    out.split_off(echoed)
}

fn say(sh: &mut Shell, line: &str) -> String {
    text_of(&run(sh, line))
}

fn bytes(s: &cstr) -> Vec<u8> {
    (0..s.len()).map(|i| s.byte_at(i)).collect()
}

#[test]
fn init_makes_the_root() {
    let sh = start();
    assert_eq!(sh.root, 0);
    assert_eq!(sh.wd, 0);
    assert_eq!(sh.heap.len(), 1);
    assert_eq!(bytes(&sh.heap.get(0).dname), b"root".to_vec());
    assert_eq!(sh.buffer.len(), 0);
    assert_eq!(sh.buffer.max(), 256);
    assert!(sh.winlist.is_empty());
}

#[test]
fn typed_keys_are_echoed_and_kept() {
    let mut sh = start();
    let mut out = Vec::new();
    sh.parsekey('a', &scr(), &mut out);
    sh.parsekey('b', &scr(), &mut out);
    assert_eq!(text_of(&out), "ab");
    assert_eq!(bytes(&sh.buffer), b"ab".to_vec());
}

#[test]
fn enter_runs_the_line_and_prompts() {
    let mut sh = start();
    let out = run(&mut sh, "ls");
    assert_eq!(out.last(), Some(&Effect::PutChar(b' ')));
    assert_eq!(text_of(&out), "\nsgash> ");
    assert!(out.contains(&Effect::DrawCursor));
    assert_eq!(sh.buffer.len(), 0);
}

#[test]
fn delete_key_erases() {
    let mut sh = start();
    let mut out = Vec::new();
    sh.parsekey('a', &scr(), &mut out);
    sh.parsekey('b', &scr(), &mut out);
    out.clear();
    sh.parsekey(127 as char, &scr(), &mut out);
    assert_eq!(out, vec![Effect::PutChar(8), Effect::PutChar(32), Effect::PutChar(8)]);
    assert_eq!(bytes(&sh.buffer), b"a".to_vec());
    sh.parsekey(127 as char, &scr(), &mut out);
    out.clear();
    sh.parsekey(127 as char, &scr(), &mut out);
    assert!(out.is_empty());
}

#[test]
fn line_stops_at_its_room() {
    let mut sh = start();
    let mut out = Vec::new();
    for _ in 0..256 {
        sh.parsekey('q', &scr(), &mut out);
    }
    out.clear();
    sh.parsekey('q', &scr(), &mut out);
    assert!(out.is_empty());
    assert_eq!(sh.buffer.len(), 256);
}

#[test]
fn full_line_without_space_breaks() {
    let mut sh = start();
    let line = "q".repeat(256);
    assert_eq!(say(&mut sh, &line), "\nSomething broke!\nsgash> ");
}

#[test]
fn unknown_command() {
    let mut sh = start();
    assert_eq!(say(&mut sh, "xyz"), "\nNO\nsgash> ");
}

#[test]
fn mkdir_cd_pwd() {
    let mut sh = start();
    assert_eq!(say(&mut sh, "pwd"), "\n/root\nsgash> ");
    assert_eq!(say(&mut sh, "mkdir docs"), "\nsgash> ");
    assert_eq!(say(&mut sh, "cd docs"), "\nsgash> ");
    assert_eq!(sh.wd, 1);
    assert_eq!(say(&mut sh, "pwd"), "\n/root/docs\nsgash> ");
    assert_eq!(say(&mut sh, "cd"), "\nsgash> ");
    assert_eq!(sh.wd, 0);
}

#[test]
fn cd_to_missing_directory() {
    let mut sh = start();
    assert_eq!(say(&mut sh, "cd nowhere"), "\nThat directory doesn't exist.\nsgash> ");
    assert_eq!(sh.wd, 0);
}

#[test]
fn ls_lists_files_then_directories() {
    let mut sh = start();
    say(&mut sh, "mkdir sub");
    say(&mut sh, "wr f hi");
    assert_eq!(say(&mut sh, "ls"), "\nf\nsub\nsgash> ");
}

#[test]
fn wr_then_cat() {
    let mut sh = start();
    assert_eq!(say(&mut sh, "wr notes hello"), "\nsgash> ");
    assert_eq!(say(&mut sh, "cat notes"), "\nhello\nsgash> ");
    say(&mut sh, "wr notes world");
    assert_eq!(say(&mut sh, "cat notes"), "\nhelloworld\nsgash> ");
}

#[test]
fn cat_of_missing_or_empty_file_prints_nothing() {
    let mut sh = start();
    assert_eq!(say(&mut sh, "cat none"), "\nsgash> ");
    assert_eq!(say(&mut sh, "cat"), "\nsgash> ");
}

#[test]
fn echo_prints_the_rest_of_the_line() {
    let mut sh = start();
    assert_eq!(say(&mut sh, "echo hi  there"), "\nhi  there\nsgash> ");
    assert_eq!(say(&mut sh, "echo"), "\n\nsgash> ");
}

#[test]
fn rm_file_and_directory() {
    let mut sh = start();
    say(&mut sh, "wr f x");
    assert_eq!(say(&mut sh, "rm f"), "\nsgash> ");
    assert_eq!(say(&mut sh, "cat f"), "\nsgash> ");
    say(&mut sh, "mkdir d");
    assert_eq!(say(&mut sh, "rm d"), "\nsgash> ");
    assert_eq!(say(&mut sh, "ls"), "\nsgash> ");
}

#[test]
fn rm_refuses_missing_or_full_directory() {
    let mut sh = start();
    assert_eq!(say(&mut sh, "rm none"), "\nNo such file/directory or directory isn't empty.\nsgash> ");
    say(&mut sh, "mkdir d");
    say(&mut sh, "cd d");
    say(&mut sh, "wr inner x");
    say(&mut sh, "cd");
    assert_eq!(say(&mut sh, "rm d"), "\nNo such file/directory or directory isn't empty.\nsgash> ");
    assert_eq!(say(&mut sh, "ls"), "\nd\nsgash> ");
}

#[test]
fn mv_into_directory() {
    let mut sh = start();
    say(&mut sh, "mkdir a");
    say(&mut sh, "wr f data");
    say(&mut sh, "mv f a");
    assert_eq!(say(&mut sh, "ls"), "\na\nsgash> ");
    say(&mut sh, "cd a");
    assert_eq!(say(&mut sh, "cat f"), "\ndata\nsgash> ");
}

#[test]
fn mv_without_directory_renames() {
    let mut sh = start();
    say(&mut sh, "wr f data");
    say(&mut sh, "mv f g");
    assert_eq!(say(&mut sh, "ls"), "\ng\nsgash> ");
    assert_eq!(say(&mut sh, "cat g"), "\ndata\nsgash> ");
}

#[test]
fn mv_of_missing_file_into_directory_adds_the_empty_file() {
    let mut sh = start();
    say(&mut sh, "mkdir a");
    say(&mut sh, "mv nothing a");
    say(&mut sh, "cd a");
    assert_eq!(say(&mut sh, "ls"), "\n\nsgash> ");
}

#[test]
fn click_opens_two_windows() {
    let mut sh = start();
    let out = run(&mut sh, "click");
    assert_eq!(text_of(&out), "\nclicked\nsgash> ");
    assert!(out.contains(&Effect::FillBox(200, 50, 200, 200, 0x777777)));
    assert!(out.contains(&Effect::FillBox(300, 200, 200, 150, 0x777777)));
    assert_eq!(sh.winlist.get_bot().x, 300);
    let again = run(&mut sh, "click");
    assert_eq!(text_of(&again), "\nclicked\nsgash> ");
    assert_eq!(sh.winlist.get_bot().x, 300);
}

#[test]
fn movewin_moves_the_bottom_window() {
    let mut sh = start();
    run(&mut sh, "click");
    let out = run(&mut sh, "movewin");
    assert_eq!(out[0], Effect::FillBox(293, 178, 214, 179, 0x112233));
    assert_eq!(sh.winlist.get_bot().x, 310);
    assert_eq!(sh.winlist.get_bot().y, 210);
}

#[test]
fn movewin_needs_a_window() {
    let mut sh = start();
    let mut out = Vec::new();
    for c in "movewin".chars() {
        sh.parsekey(c, &scr(), &mut out);
    }
    assert!(sh.movewin_without_window());
    let mut other = start();
    run(&mut other, "click");
    for c in "movewin".chars() {
        other.parsekey(c, &scr(), &mut out);
    }
    assert!(!other.movewin_without_window());
}

#[test]
fn tab_without_windows_draws_the_cursor() {
    let mut sh = start();
    let mut out = Vec::new();
    sh.parsekey('\t', &scr(), &mut out);
    assert_eq!(out, vec![Effect::DrawCursor]);
}

#[test]
fn tab_brings_the_bottom_window_up() {
    let mut sh = start();
    run(&mut sh, "click");
    assert_eq!(sh.winlist.get_bot().x, 300);
    let mut out = Vec::new();
    sh.parsekey('\t', &scr(), &mut out);
    assert_eq!(sh.winlist.get_bot().x, 200);
    assert_eq!(out.last(), Some(&Effect::DrawCursor));
}

#[test]
fn arrow_keys_move_the_cursor() {
    let mut sh = start();
    let mut out = Vec::new();
    sh.parsekey(27 as char, &scr(), &mut out);
    sh.parsekey('[', &scr(), &mut out);
    sh.parsekey('A', &scr(), &mut out);
    assert_eq!(out, vec![Effect::BlankCursor, Effect::CursorUp, Effect::DrawCursor]);
    assert!(!sh.arr1 && !sh.arr2);
    out.clear();
    sh.parsekey('A', &scr(), &mut out);
    assert!(out.is_empty());
    assert_eq!(sh.buffer.len(), 0);
    for (k, e) in [('B', Effect::CursorDown), ('C', Effect::CursorRight), ('D', Effect::CursorLeft)] {
        out.clear();
        sh.parsekey(27 as char, &scr(), &mut out);
        sh.parsekey('[', &scr(), &mut out);
        sh.parsekey(k, &scr(), &mut out);
        assert_eq!(out, vec![Effect::BlankCursor, e, Effect::DrawCursor]);
    }
}

#[test]
fn arrow_over_a_window_redraws_windows() {
    let mut sh = start();
    run(&mut sh, "click");
    let mut s = scr();
    s.cursor_x = 250;
    s.cursor_y = 100;
    let mut out = Vec::new();
    sh.parsekey(27 as char, &s, &mut out);
    sh.parsekey('[', &s, &mut out);
    sh.parsekey('B', &s, &mut out);
    assert_eq!(out[0], Effect::BlankCursor);
    assert!(out.contains(&Effect::FillBox(200, 50, 200, 200, 0x777777)));
    assert_eq!(out[out.len() - 2], Effect::CursorDown);
}

#[test]
fn bracket_without_escape_is_swallowed() {
    let mut sh = start();
    let mut out = Vec::new();
    sh.parsekey('[', &scr(), &mut out);
    assert!(out.is_empty());
    assert!(!sh.arr2);
}

#[test]
fn helpers_on_the_working_directory() {
    let mut sh = start();
    let wd = sh.wd;
    sh.create_file(wd, cstr::from_str("f"));
    assert!(sh.write_file(&cstr::from_str("f"), &cstr::from_str("xy")));
    assert_eq!(bytes(&sh.read_file(&cstr::from_str("f"))), b"xy".to_vec());
    let mut out = Vec::new();
    sh.list_directory(wd, &mut out);
    assert_eq!(text_of(&out), "\nf");
    assert!(sh.delete_file(wd, &cstr::from_str("f")));
    assert!(!sh.delete_file(wd, &cstr::from_str("f")));
    sh.create_directory(wd, cstr::from_str("d"));
    let d = sh.get_directory(wd, &cstr::from_str("d")).unwrap();
    assert!(sh.delete_directory(d));
    assert_eq!(sh.get_directory(wd, &cstr::from_str("d")), None);
}

#[test]
fn prompt_prints_and_empties() {
    let mut sh = start();
    let mut out = Vec::new();
    sh.parsekey('z', &scr(), &mut out);
    out.clear();
    sh.prompt(false, &mut out);
    assert_eq!(text_of(&out), "\nsgash> ");
    assert_eq!(sh.buffer.len(), 0);
}

#[test]
fn zero_byte_after_a_command_ends_the_line() {
    let mut sh = start();
    say(&mut sh, "mkdir d");
    assert_eq!(say(&mut sh, "ls\0"), "\nd\nsgash> ");
    assert_eq!(say(&mut sh, "echo hi\0"), "\nhi\nsgash> ");
}

#[test]
fn zero_byte_before_more_text_keeps_the_text() {
    let mut sh = start();
    assert_eq!(say(&mut sh, "ls\0x"), "\nNO\nsgash> ");
}

#[test]
fn four_zero_bytes_end_the_line() {
    let mut sh = start();
    say(&mut sh, "mkdir d");
    assert_eq!(say(&mut sh, "ls\0\0\0\0junk"), "\nd\nsgash> ");
}

#[test]
fn writing_a_moved_empty_file_leaves_the_home_directory_alone() {
    let mut sh = start();
    say(&mut sh, "mkdir d");
    say(&mut sh, "mv zz d");
    say(&mut sh, "cd d");
    say(&mut sh, "wr  w");
    say(&mut sh, "cd");
    assert_eq!(sh.wd, 0);
    say(&mut sh, "wr f w");
    assert_eq!(say(&mut sh, "ls"), "\nf\nd\nsgash> ");
    assert_eq!(say(&mut sh, "cat f"), "\nw\nsgash> ");
}
