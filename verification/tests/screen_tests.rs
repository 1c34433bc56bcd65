use chromashell::screen::{screen_to_grid, Screen, ScreenCell};

fn row_text(s: &Screen, row: usize) -> String {
    (0..s.width).map(|c| s.cell_at(c, row).ch).collect()
}

fn fed(w: usize, h: usize, data: &[u8]) -> Screen {
    let mut s = Screen::new(w, h);
    s.feed(data);
    s
}

const GREY: (u8, u8, u8) = (200, 200, 200);

#[test]
fn new_screen_is_blank() {
    let s = Screen::new(4, 2);
    assert_eq!(s.cells.len(), 8);
    assert_eq!(s.cursor_pos(), (0, 0));
    for r in 0..2 {
        for c in 0..4 {
            let cell = s.cell_at(c, r);
            assert_eq!(cell.ch, ' ');
            assert_eq!(cell.fg, GREY);
        }
    }
}

#[test]
fn blank_cell_is_grey_space() {
    let c = ScreenCell::blank();
    assert_eq!(c.ch, ' ');
    assert_eq!(c.fg, GREY);
}

#[test]
fn printing_writes_at_cursor() {
    let s = fed(4, 2, b"ab");
    assert_eq!(row_text(&s, 0), "ab  ");
    assert_eq!(s.cursor_pos(), (2, 0));
    assert_eq!(s.cell_at(0, 0).fg, GREY);
}

#[test]
fn printing_wraps_at_right_edge() {
    let s = fed(3, 2, b"abcd");
    assert_eq!(row_text(&s, 0), "abc");
    assert_eq!(row_text(&s, 1), "d  ");
    assert_eq!(s.cursor_pos(), (1, 1));
}

#[test]
fn line_feed_on_last_row_scrolls() {
    let s = fed(3, 2, b"ab\r\ncd\r\nef");
    assert_eq!(row_text(&s, 0), "cd ");
    assert_eq!(row_text(&s, 1), "ef ");
    assert_eq!(s.cursor_pos(), (2, 1));
}

#[test]
fn wrap_in_bottom_right_corner_scrolls() {
    let s = fed(2, 2, b"abcd");
    assert_eq!(row_text(&s, 0), "cd");
    assert_eq!(row_text(&s, 1), "  ");
    assert_eq!(s.cursor_pos(), (0, 1));
}

#[test]
fn line_feed_keeps_column() {
    let s = fed(5, 3, b"ab\nc");
    assert_eq!(row_text(&s, 0), "ab   ");
    assert_eq!(row_text(&s, 1), "  c  ");
    assert_eq!(s.cursor_pos(), (3, 1));
}

#[test]
fn backspace_and_carriage_return() {
    let s = fed(5, 1, b"abc\x08\x08X");
    assert_eq!(row_text(&s, 0), "aXc  ");
    assert_eq!(s.cursor_pos(), (2, 0));
    let s = fed(5, 1, b"\x08\x08z");
    assert_eq!(row_text(&s, 0), "z    ");
    let s = fed(5, 1, b"abc\rZ");
    assert_eq!(row_text(&s, 0), "Zbc  ");
}

#[test]
fn tab_goes_to_next_stop_within_screen() {
    assert_eq!(fed(20, 1, b"\t").cursor_pos(), (8, 0));
    assert_eq!(fed(20, 1, b"abcdefg\t").cursor_pos(), (8, 0));
    assert_eq!(fed(20, 1, b"abcdefgh\t").cursor_pos(), (16, 0));
    assert_eq!(fed(10, 1, b"\t\t").cursor_pos(), (9, 0));
}

#[test]
fn bell_and_other_controls_are_ignored() {
    let s = fed(4, 1, b"a\x07\x01\x00b");
    assert_eq!(row_text(&s, 0), "ab  ");
}

#[test]
fn high_bytes_print_as_latin1() {
    let s = fed(4, 1, &[0xe9, 0x7f]);
    assert_eq!(s.cell_at(0, 0).ch, '\u{e9}');
    assert_eq!(s.cell_at(1, 0).ch, '\u{7f}');
}

#[test]
fn cursor_position_sequences() {
    assert_eq!(fed(10, 5, b"\x1b[2;3H").cursor_pos(), (2, 1));
    assert_eq!(fed(10, 5, b"abc\x1b[H").cursor_pos(), (0, 0));
    assert_eq!(fed(10, 5, b"\x1b[;5H").cursor_pos(), (0, 4));
    assert_eq!(fed(10, 5, b"\x1b[99;99f").cursor_pos(), (9, 4));
    assert_eq!(fed(10, 5, b"\x1b[0;0H").cursor_pos(), (0, 0));
    assert_eq!(fed(10, 5, b"\x1b[+2;+3H").cursor_pos(), (2, 1));
    assert_eq!(fed(10, 5, b"\x1b[99999999999999999999999;4H").cursor_pos(), (3, 0));
}

#[test]
fn cursor_movement_sequences() {
    let start = b"\x1b[3;6H";
    let run = |tail: &[u8]| {
        let mut d = start.to_vec();
        d.extend_from_slice(tail);
        fed(10, 5, &d).cursor_pos()
    };
    assert_eq!(run(b""), (5, 2));
    assert_eq!(run(b"\x1b[A"), (5, 1));
    assert_eq!(run(b"\x1b[5A"), (5, 0));
    assert_eq!(run(b"\x1b[0B"), (5, 3));
    assert_eq!(run(b"\x1b[9B"), (5, 4));
    assert_eq!(run(b"\x1b[2C"), (7, 2));
    assert_eq!(run(b"\x1b[9C"), (9, 2));
    assert_eq!(run(b"\x1b[3D"), (2, 2));
    assert_eq!(run(b"\x1b[30D"), (0, 2));
}

#[test]
fn erase_display_modes() {
    let base = b"abcdef\x1b[1;2H";
    let run = |tail: &[u8]| {
        let mut d = base.to_vec();
        d.extend_from_slice(tail);
        let s = fed(3, 3, &d);
        (row_text(&s, 0), row_text(&s, 1), row_text(&s, 2), s.cursor_pos())
    };
    let t = |a: &str, b: &str| (a.to_string(), b.to_string(), "   ".to_string(), (1, 0));
    assert_eq!(run(b""), t("abc", "def"));
    assert_eq!(run(b"\x1b[J"), t("a  ", "   "));
    assert_eq!(run(b"\x1b[0J"), t("a  ", "   "));
    assert_eq!(run(b"\x1b[1J"), t("  c", "def"));
    assert_eq!(run(b"\x1b[2J"), t("   ", "   "));
    assert_eq!(run(b"\x1b[3J"), t("   ", "   "));
    assert_eq!(run(b"\x1b[4J"), t("abc", "def"));
}

#[test]
fn erase_line_modes() {
    let base = b"abcdef\x1b[2;2H";
    let run = |tail: &[u8]| {
        let mut d = base.to_vec();
        d.extend_from_slice(tail);
        let s = fed(3, 3, &d);
        (row_text(&s, 0), row_text(&s, 1))
    };
    assert_eq!(run(b"\x1b[K"), ("abc".to_string(), "d  ".to_string()));
    assert_eq!(run(b"\x1b[1K"), ("abc".to_string(), "  f".to_string()));
    assert_eq!(run(b"\x1b[2K"), ("abc".to_string(), "   ".to_string()));
    assert_eq!(run(b"\x1b[5K"), ("abc".to_string(), "def".to_string()));
}

#[test]
fn erased_cells_take_default_colour() {
    let s = fed(4, 1, b"\x1b[31mabc\x1b[2J");
    assert_eq!(s.cell_at(1, 0).fg, GREY);
}

#[test]
fn sgr_colours() {
    let s = fed(10, 1, b"\x1b[31mA\x1b[38;2;1;2;300mB\x1b[38;5;100mC\x1b[mD\x1b[1;32mE\x1b[0mF\x1b[97;45mG");
    assert_eq!(s.cell_at(0, 0).fg, (205, 49, 49));
    assert_eq!(s.cell_at(1, 0).fg, (1, 2, 44));
    assert_eq!(s.cell_at(2, 0).fg, (1, 2, 44));
    assert_eq!(s.cell_at(3, 0).fg, GREY);
    assert_eq!(s.cell_at(4, 0).fg, (13, 188, 121));
    assert_eq!(s.cell_at(5, 0).fg, GREY);
    assert_eq!(s.cell_at(6, 0).fg, (255, 255, 255));
    assert_eq!(row_text(&s, 0), "ABCDEFG   ");
}

#[test]
fn sgr_short_extended_colour_is_skipped() {
    let s = fed(4, 1, b"\x1b[34m\x1b[38;2;1;2mX\x1b[38;2;90mY");
    assert_eq!(s.cell_at(0, 0).fg, (36, 114, 200));
    assert_eq!(s.cell_at(1, 0).fg, (100, 100, 100));
}

#[test]
fn escape_without_bracket_drops_one_byte() {
    let s = fed(10, 1, b"\x1bcX");
    assert_eq!(row_text(&s, 0), "X         ");
}

#[test]
fn osc_sequence_is_skipped_up_to_bell() {
    let mut s = Screen::new(10, 1);
    s.feed(b"\x1b]0;t\x07X");
    assert_eq!(s.cell_at(0, 0).ch, 'X');
    assert_eq!(s.cell_at(1, 0).ch, ' ');
    assert_eq!(s.cursor_pos(), (1, 0));
    let s = fed(10, 1, b"\x1b]0;ti\x07Z");
    assert_eq!(row_text(&s, 0), "Z         ");
}

#[test]
fn osc_sequence_is_skipped_up_to_string_terminator() {
    let s = fed(10, 1, b"a\x1b]2;title\nmore\x1b\\b");
    assert_eq!(row_text(&s, 0), "ab        ");
    assert_eq!(s.cursor_pos(), (2, 0));
}

#[test]
fn escape_inside_osc_starts_a_new_sequence() {
    let s = fed(10, 1, b"\x1b]0;x\x1b[31mR");
    assert_eq!(row_text(&s, 0), "R         ");
    assert_eq!(s.cell_at(0, 0).fg, (205, 49, 49));
}

#[test]
fn osc_split_across_chunks_is_skipped() {
    let mut s = Screen::new(6, 1);
    s.feed(b"\x1b]0;ab");
    s.feed(b"cd");
    s.feed(b"\x07ok");
    assert_eq!(row_text(&s, 0), "ok    ");
}

#[test]
fn tilde_ends_a_control_sequence() {
    let mut s = Screen::new(5, 1);
    s.feed(b"\x1b[3~A");
    assert_eq!(s.cell_at(0, 0).ch, 'A');
    assert_eq!(s.cursor_pos(), (1, 0));
}

#[test]
fn every_byte_from_at_sign_to_tilde_ends_a_control_sequence() {
    for fin in 0x40u8..=0x7e {
        if b"HfABCDJKm".contains(&fin) {
            continue;
        }
        let mut data = b"\x1b[5".to_vec();
        data.push(fin);
        data.push(b'Q');
        let s = fed(4, 1, &data);
        assert_eq!(row_text(&s, 0), "Q   ");
    }
    let s = fed(4, 1, b"\x1b[5\x3fQ");
    assert_eq!(row_text(&s, 0), "    ");
}

#[test]
fn unknown_final_byte_ends_sequence() {
    let s = fed(10, 1, b"\x1b[?25lok\x1b[5@!");
    assert_eq!(row_text(&s, 0), "ok!       ");
}

#[test]
fn feeding_in_chunks_is_feeding_at_once() {
    let data: &[u8] = b"ab\x1b[31mcd\r\n\x1b[2;1Hxy\x1b[K\tz\x1b[38;2;9;8;7mw";
    let whole = fed(6, 3, data);
    for cut in 0..data.len() {
        let mut s = Screen::new(6, 3);
        s.feed(&data[..cut]);
        s.feed(&data[cut..]);
        for r in 0..3 {
            for c in 0..6 {
                assert_eq!(s.cell_at(c, r).ch, whole.cell_at(c, r).ch);
                assert_eq!(s.cell_at(c, r).fg, whole.cell_at(c, r).fg);
            }
        }
        assert_eq!(s.cursor_pos(), whole.cursor_pos());
    }
}

#[test]
fn resize_clears_and_keeps_colour() {
    let mut s = fed(4, 2, b"\x1b[31mab");
    s.resize(3, 3);
    assert_eq!(s.width, 3);
    assert_eq!(s.height, 3);
    assert_eq!(s.cells.len(), 9);
    assert_eq!(s.cursor_pos(), (0, 0));
    assert_eq!(row_text(&s, 0), "   ");
    s.feed(b"x");
    assert_eq!(s.cell_at(0, 0).fg, (205, 49, 49));
}

#[test]
fn cell_at_off_screen_is_blank() {
    let s = fed(2, 2, b"abcd");
    let c = s.cell_at(2, 0);
    assert_eq!(c.ch, ' ');
    assert_eq!(c.fg, GREY);
    assert_eq!(s.cell_at(0, 5).ch, ' ');
}

#[test]
fn screen_to_grid_copies_characters() {
    let s = fed(3, 2, b"hi");
    let g = screen_to_grid(&s);
    assert_eq!(g.width, 3);
    assert_eq!(g.height, 2);
    assert_eq!(g.chars, vec![vec!['h', 'i', ' '], vec![' ', ' ', ' ']]);
    assert!(g.has_char(1, 0));
    assert!(!g.has_char(2, 0));
}

#[test]
fn any_bytes_keep_the_cursor_on_the_screen() {
    let mut seed: u32 = 12345;
    let mut s = Screen::new(7, 4);
    for _ in 0..5000 {
        seed = seed.wrapping_mul(1103515245).wrapping_add(12345);
        let pick = (seed >> 16) as u8;
        let b = match pick % 8 {
            0 => 0x1b,
            1 => b'[',
            2 => b'0' + pick % 10,
            3 => b';',
            4 => b"ABCDHJKmf"[(pick % 9) as usize],
            5 => b"\n\r\t\x08"[(pick % 4) as usize],
            _ => pick,
        };
        s.feed(&[b]);
        let (x, y) = s.cursor_pos();
        assert!(x < 7 && y < 4);
        assert_eq!(s.cells.len(), 28);
    }
}

#[test]
fn screen_without_rows_or_columns_takes_printable_input() {
    let mut s = Screen::new(0, 0);
    for &b in b"ab\r\x08\x07\x1b[A\x1b[D\x1b[2J\x1b[0J\x1b[31mz" {
        assert!(s.accepts(b));
        s.feed(&[b]);
    }
    assert!(s.cells.is_empty());
    assert_eq!(s.cursor_pos(), (0, 0));
    assert_eq!(s.width, 0);
    assert_eq!(s.height, 0);
}

#[test]
fn screen_without_rows_refuses_line_feeds() {
    let mut s = Screen::new(3, 0);
    assert!(!s.accepts(b'\n'));
    assert!(s.accepts(b'\t'));
    assert!(s.accepts(b'x'));
    s.feed(b"\x1b[2C\x1b[");
    assert_eq!(s.cursor_pos(), (2, 0));
    assert!(!s.accepts(b'K'));
    assert!(!s.accepts(b'H'));
    assert!(!s.accepts(b'B'));
    assert!(s.accepts(b'J'));
    assert!(s.accepts(b'm'));
    s.feed(b"J\t");
    assert_eq!(s.cursor_pos(), (2, 0));
    assert!(s.cells.is_empty());
}

#[test]
fn screen_without_columns_refuses_tabs() {
    let mut s = Screen::new(0, 2);
    assert!(!s.accepts(b'\t'));
    assert!(s.accepts(b'\n'));
    s.feed(b"\n\n\nq\x1b[B");
    assert_eq!(s.cursor_pos(), (0, 1));
    s.feed(b"\x1b[");
    assert!(!s.accepts(b'C'));
    assert!(!s.accepts(b'H'));
    assert!(s.accepts(b'K'));
}

#[test]
fn screen_with_rows_and_columns_accepts_every_byte() {
    let mut s = Screen::new(4, 3);
    for prefix in [&b""[..], &b"\x1b"[..], &b"[12;3"[..]] {
        s.feed(prefix);
        for b in 0..=255u8 {
            assert!(s.accepts(b));
        }
    }
}

#[test]
fn control_bytes_never_reach_a_cell() {
    let mut data: Vec<u8> = Vec::new();
    for b in 0..=255u8 {
        data.push(b);
        data.push(b'a');
    }
    data.extend_from_slice(b"\x1b[31m\x01\x02\x1f\x1b[2K\x1b[1J\x1b[Hz\x7f");
    let s = fed(5, 3, &data);
    assert_eq!(s.cells.len(), 15);
    assert!(s.cells.iter().all(|c| c.ch >= ' '));
    let (x, y) = s.cursor_pos();
    assert!(x < 5 && y < 3);
}

#[test]
fn size_fields_follow_new_and_resize() {
    let mut s = Screen::new(6, 2);
    assert_eq!((s.width, s.height, s.cells.len()), (6, 2, 12));
    s.feed(b"hello world");
    s.resize(3, 4);
    assert_eq!((s.width, s.height, s.cells.len()), (3, 4, 12));
    assert_eq!(s.cursor_pos(), (0, 0));
    assert!(s.cells.iter().all(|c| c.ch == ' '));
}
