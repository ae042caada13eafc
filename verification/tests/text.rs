use echo::console::Screen;
use echo::log::pawn;

#[test]
fn pawns_print_in_upper_case_hex_and_a_missing_one_as_none() {
    assert_eq!(pawn(None), "none");
    assert_eq!(pawn(Some(0x51A5AA24000)), "0x51A5AA24000");
    assert_eq!(pawn(Some(0)), "0x0");
    assert_eq!(pawn(Some(15)), "0xF");
    assert_eq!(pawn(Some(16)), "0x10");
    assert_eq!(pawn(Some(usize::MAX)), format!("0x{:X}", usize::MAX));
    for value in [1usize, 0xABCDEF, 0x1234_5678, 255, 4096] {
        assert_eq!(pawn(Some(value)), format!("0x{value:X}"));
    }
}

#[test]
fn a_redrawing_screen_homes_and_clears_before_the_lines() {
    let screen = Screen::new(true);
    let lines = vec!["players".to_owned(), "  0x10 CT".to_owned()];
    assert_eq!(screen.text(&lines), "\x1b[H\x1b[Jplayers\n  0x10 CT\n");
}

#[test]
fn a_scrolling_screen_only_prints_the_lines() {
    let screen = Screen::new(false);
    let lines = vec!["one".to_owned(), String::new(), "three".to_owned()];
    assert_eq!(screen.text(&lines), "one\n\nthree\n");
    assert_eq!(screen.text(&Vec::new()), "");
    assert_eq!(Screen::new(true).text(&Vec::new()), "\x1b[H\x1b[J");
}

#[test]
fn console_padding_becomes_one_entry_per_line_with_no_blank_ones() {
    let kept = echo::log::entries("\nMove your mouse\nCtrl+C to stop.\n");
    assert_eq!(kept, vec!["Move your mouse".to_owned(), "Ctrl+C to stop.".to_owned()]);
    assert!(echo::log::entries("   ").is_empty());
    assert!(echo::log::entries("").is_empty());
    assert!(echo::log::entries("\n\n\r\n \t\n").is_empty());
}

#[test]
fn trailing_whitespace_goes_and_leading_whitespace_stays() {
    let kept = echo::log::entries("frame  \n    paint   3.2 ms \r\n  blit\u{A0}");
    assert_eq!(
        kept,
        vec!["frame".to_owned(), "    paint   3.2 ms".to_owned(), "  blit".to_owned()]
    );
    for entry in &kept {
        assert!(!entry.is_empty());
        assert!(!entry.ends_with(char::is_whitespace));
        assert!(!entry.contains('\n'));
    }
}

#[test]
fn whitespace_is_exactly_what_std_calls_whitespace() {
    for code in 0..=0x10FFFFu32 {
        if let Some(c) = char::from_u32(code) {
            assert_eq!(echo::log::is_whitespace(c), c.is_whitespace(), "U+{code:04X}");
        }
    }
}
