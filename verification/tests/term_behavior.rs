use ansi_term_buf::parser::{AnsiParser, TermCmd};
use ansi_term_buf::Term;

#[test]
fn fresh_terminal_is_empty() {
    let t = Term::new(5);
    assert!(t.is_empty());
    assert_eq!(t.contents_to_string(), "");
}

#[test]
fn put_chars_wrap_to_lines() {
    let mut t = Term::new(3);
    t.feed(b"abcde");
    assert_eq!(t.contents_to_string(), "abc\nde \n");
    assert!(!t.is_empty());
}

#[test]
fn exact_multiple_of_width_has_no_partial_line() {
    let mut t = Term::new(3);
    t.feed(b"abcdef");
    assert_eq!(t.contents_to_string(), "abc\ndef\n");
}

#[test]
fn reset_clears_everything() {
    let mut t = Term::new(4);
    t.feed(b"hello");
    t.reset();
    assert!(t.is_empty());
    assert_eq!(t.contents_to_string(), "");
    t.feed(b"ab");
    assert_eq!(t.contents_to_string(), "ab  \n");
}

#[test]
fn single_put_char_not_empty() {
    let mut t = Term::new(8);
    t.feed(b"x");
    assert!(!t.is_empty());
}

#[test]
fn crlf_round_trip() {
    let mut t = Term::new(3);
    t.feed(b"a\r\nb");
    assert_eq!(t.contents_to_string(), "a  \nb  \n");
}

#[test]
fn line_feed_alone_keeps_column() {
    let mut t = Term::new(3);
    t.feed(b"a\nb");
    assert_eq!(t.contents_to_string(), "a  \n b \n");
}

#[test]
fn cursor_up_saturates_at_top() {
    let mut t = Term::new(3);
    t.feed(b"a\r\nb");
    t.feed(b"\x1b[99Ax");
    assert_eq!(t.contents_to_string(), "ax \nb  \n");
}

#[test]
fn clear_screen_blanks_but_keeps_height() {
    let mut t = Term::new(3);
    t.feed(b"abcdef");
    t.feed(b"\x1b[2J");
    assert_eq!(t.contents_to_string(), "   \n   \n");
}

#[test]
fn clear_does_not_make_empty() {
    let mut t = Term::new(3);
    t.feed(b"abc\x1b[2J");
    assert!(!t.is_empty());
}

#[test]
fn clear_with_other_mode_clears_the_same_way() {
    let mut t = Term::new(2);
    t.feed(b"ab\x1b[0J");
    assert_eq!(t.contents_to_string(), "  \n");
}

#[test]
fn erase_to_eol_only_affects_tail_of_row() {
    let mut t = Term::new(5);
    t.feed(b"abcd\r\nefgh");
    t.feed(b"\rz");
    t.feed(b"\x1b[K");
    assert_eq!(t.contents_to_string(), "abcd \nz    \n");
}

#[test]
fn erase_on_unallocated_row_does_nothing() {
    let mut t = Term::new(3);
    t.feed(b"ab\x1b[5B\x1b[K");
    assert_eq!(t.contents_to_string(), "ab \n");
}

#[test]
fn cursor_set_writes_at_requested_cell() {
    let mut t = Term::new(4);
    t.feed(b"\x1b[2;1Hx");
    assert_eq!(t.contents_to_string(), "    \n  x \n");
}

#[test]
fn cursor_set_single_param_defaults_second() {
    let mut t = Term::new(4);
    t.feed(b"ab\x1b[2Hz");
    assert_eq!(t.contents_to_string(), "ab  \n  z \n");
}

#[test]
fn cursor_set_no_params_defaults_to_one_one() {
    let mut t = Term::new(3);
    t.feed(b"\x1b[Hz");
    assert_eq!(t.contents_to_string(), "   \n z \n");
}

#[test]
fn split_escape_sequence_across_feeds() {
    let mut split = Term::new(3);
    split.feed(b"abcdef");
    split.feed(b"\x1b[");
    split.feed(b"2J");
    let mut whole = Term::new(3);
    whole.feed(b"abcdef\x1b[2J");
    assert_eq!(split.contents_to_string(), whole.contents_to_string());
    assert_eq!(split.contents_to_string(), "   \n   \n");
}

#[test]
fn split_escape_parameters_across_feeds() {
    let mut t = Term::new(3);
    t.feed(b"a\x1b[9");
    t.feed(b"9Bz");
    let mut u = Term::new(3);
    u.feed(b"a\x1b[99Bz");
    assert_eq!(t.contents_to_string(), u.contents_to_string());
}

#[test]
fn split_multibyte_char_across_feeds() {
    let mut t = Term::new(3);
    let bytes = "\u{e9}".as_bytes();
    t.feed(&bytes[..1]);
    t.feed(&bytes[1..]);
    assert_eq!(t.contents_to_string(), "\u{e9}  \n");
}

#[test]
fn multibyte_utf8_text() {
    let mut t = Term::new(2);
    t.feed("h\u{e9}llo".as_bytes());
    assert_eq!(t.contents_to_string(), "h\u{e9}\nll\no \n");
}

#[test]
fn four_byte_utf8_char() {
    let mut t = Term::new(2);
    t.feed("\u{1F600}".as_bytes());
    assert_eq!(t.contents_to_string(), "\u{1F600} \n");
}

#[test]
fn invalid_utf8_becomes_replacement_char() {
    let mut t = Term::new(4);
    t.feed(&[0xFF, b'a']);
    assert_eq!(t.contents_to_string(), "\u{fffd}a  \n");
}

#[test]
fn truncated_sequence_then_ascii_is_replaced() {
    let mut t = Term::new(4);
    t.feed(&[0xC3, b'a']);
    assert_eq!(t.contents_to_string(), "\u{fffd}a  \n");
}

#[test]
fn overlong_encoding_is_rejected() {
    let mut t = Term::new(4);
    t.feed(&[0xC0, 0xAF]);
    assert_eq!(t.contents_to_string(), "\u{fffd}\u{fffd}  \n");
}

#[test]
fn cursor_movement_with_counts() {
    let mut t = Term::new(6);
    t.feed(b"abc");
    t.feed(b"\x1b[2Dxy");
    assert_eq!(t.contents_to_string(), "axy   \n");
}

#[test]
fn cursor_right_overflow_resolves_on_next_write() {
    let mut t = Term::new(3);
    t.feed(b"\x1b[4Cx");
    assert_eq!(t.contents_to_string(), "   \n x \n");
}

#[test]
fn cursor_down_keeps_column() {
    let mut t = Term::new(3);
    t.feed(b"a\x1b[Bz");
    assert_eq!(t.contents_to_string(), "a  \n z \n");
}

#[test]
fn cursor_cr_down_moves_to_line_start() {
    let mut t = Term::new(3);
    t.feed(b"ab\x1b[Ec");
    assert_eq!(t.contents_to_string(), "ab \nc  \n");
}

#[test]
fn cursor_cr_up_moves_to_line_start() {
    let mut t = Term::new(3);
    t.feed(b"ab\r\ncd\x1b[Fz");
    assert_eq!(t.contents_to_string(), "zb \ncd \n");
}

#[test]
fn param_out_of_range_falls_back_to_default() {
    let mut t = Term::new(3);
    t.feed(b"ab\r\n\x1b[300Ax");
    assert_eq!(t.contents_to_string(), "xb \n");
}

#[test]
fn sync_update_markers_have_no_effect() {
    let mut t = Term::new(3);
    t.feed(b"a\x1b[?2026hb\x1b[?2026lc");
    assert_eq!(t.contents_to_string(), "abc\n");
}

#[test]
fn unknown_terminator_is_ignored() {
    let mut t = Term::new(3);
    t.feed(b"a\x1b[5Zb");
    assert_eq!(t.contents_to_string(), "ab \n");
}

#[test]
fn sgr_color_codes_are_consumed() {
    let mut t = Term::new(4);
    t.feed(b"\x1b[1;31mab\x1b[0m");
    assert_eq!(t.contents_to_string(), "ab  \n");
}

#[test]
fn esc_equals_is_ignored() {
    let mut t = Term::new(3);
    t.feed(b"\x1b=ab");
    assert_eq!(t.contents_to_string(), "ab \n");
}

#[test]
fn unexpected_byte_after_esc_returns_to_text() {
    let mut t = Term::new(4);
    t.feed(b"\x1bzab");
    assert_eq!(t.contents_to_string(), "ab  \n");
}

#[test]
fn advance_emits_commands_in_order() {
    let mut p = AnsiParser::default();
    let cmds = p.advance(b"a\r\n\x1b[2A");
    assert_eq!(
        cmds,
        vec![
            TermCmd::PutChar('a'),
            TermCmd::CarriageReturn,
            TermCmd::LineFeed,
            TermCmd::CursorUp(2),
        ]
    );
}

#[test]
fn advance_keeps_state_between_calls() {
    let mut p = AnsiParser::default();
    let first = p.advance(b"\x1b[1");
    assert_eq!(first, vec![]);
    let second = p.advance(b"0C");
    assert_eq!(second, vec![TermCmd::CursorRight(10)]);
}
