use chromashell::color::rgb_to_256;
use chromashell::effects::Cell;
use chromashell::renderer::{ColorMode, Renderer};

fn cell(ch: char, fg: (u8, u8, u8), bg: (u8, u8, u8)) -> Cell {
    Cell { ch, fg, bg }
}

#[test]
fn new_renderer_has_empty_output() {
    let r = Renderer::new(ColorMode::TrueColor);
    assert!(r.output().is_empty());
}

#[test]
fn truecolor_row_writes_colours_once() {
    let mut r = Renderer::new(ColorMode::TrueColor);
    let frame = vec![cell('a', (1, 2, 3), (4, 5, 6)), cell('b', (1, 2, 3), (4, 5, 6))];
    r.render(&frame, 2, 1);
    assert_eq!(
        r.output(),
        b"\x1b[H\x1b[48;2;4;5;6m\x1b[38;2;1;2;3mab\x1b[0m".as_slice()
    );
}

#[test]
fn colour_changes_within_a_row() {
    let mut r = Renderer::new(ColorMode::TrueColor);
    let frame = vec![cell('a', (10, 20, 30), (0, 0, 0)), cell('b', (100, 200, 250), (0, 0, 0))];
    r.render(&frame, 2, 1);
    assert_eq!(
        r.output(),
        b"\x1b[H\x1b[48;2;0;0;0m\x1b[38;2;10;20;30ma\x1b[38;2;100;200;250mb\x1b[0m".as_slice()
    );
}

#[test]
fn rows_are_separated_and_colours_rewritten() {
    let mut r = Renderer::new(ColorMode::TrueColor);
    let frame = vec![cell('a', (1, 2, 3), (4, 5, 6)), cell('b', (1, 2, 3), (4, 5, 6))];
    r.render(&frame, 1, 2);
    assert_eq!(
        r.output(),
        b"\x1b[H\x1b[48;2;4;5;6m\x1b[38;2;1;2;3ma\x1b[0m\r\n\x1b[48;2;4;5;6m\x1b[38;2;1;2;3mb\x1b[0m"
            .as_slice()
    );
}

#[test]
fn white_on_white_needs_no_colour() {
    let mut r = Renderer::new(ColorMode::TrueColor);
    let frame = vec![cell('x', (255, 255, 255), (255, 255, 255))];
    r.render(&frame, 1, 1);
    assert_eq!(r.output(), b"\x1b[Hx\x1b[0m".as_slice());
}

#[test]
fn ansi256_writes_palette_indices() {
    let mut r = Renderer::new(ColorMode::Ansi256);
    let frame = vec![cell('a', (255, 0, 0), (0, 0, 0))];
    r.render(&frame, 1, 1);
    assert_eq!(r.output(), b"\x1b[H\x1b[48;5;16m\x1b[38;5;196ma\x1b[0m".as_slice());
}

#[test]
fn cursor_cell_is_inverted() {
    let mut r = Renderer::new(ColorMode::TrueColor);
    let frame = vec![cell('a', (1, 2, 3), (4, 5, 6)), cell('b', (1, 2, 3), (4, 5, 6))];
    r.render_with_cursor(&frame, 2, 1, (1, 0));
    assert_eq!(
        r.output(),
        b"\x1b[H\x1b[48;2;4;5;6m\x1b[38;2;1;2;3ma\x1b[48;2;200;200;200m\x1b[38;2;0;0;0mb\x1b[0m"
            .as_slice()
    );
}

#[test]
fn characters_are_utf8() {
    let mut r = Renderer::new(ColorMode::TrueColor);
    let frame = vec![
        cell('█', (255, 255, 255), (255, 255, 255)),
        cell('é', (255, 255, 255), (255, 255, 255)),
        cell('ｱ', (255, 255, 255), (255, 255, 255)),
        cell('😀', (255, 255, 255), (255, 255, 255)),
    ];
    r.render(&frame, 4, 1);
    let mut expected = b"\x1b[H".to_vec();
    expected.extend_from_slice("█éｱ😀".as_bytes());
    expected.extend_from_slice(b"\x1b[0m");
    assert_eq!(r.output(), expected.as_slice());
}

#[test]
fn empty_frame_still_homes_and_resets() {
    let mut r = Renderer::new(ColorMode::TrueColor);
    r.render(&vec![], 0, 3);
    assert_eq!(r.output(), b"\x1b[H\x1b[0m\r\n\x1b[0m\r\n\x1b[0m".as_slice());
    r.render(&vec![], 4, 0);
    assert_eq!(r.output(), b"\x1b[H\x1b[0m".as_slice());
}

#[test]
fn each_render_replaces_the_last() {
    let mut r = Renderer::new(ColorMode::TrueColor);
    r.render(&vec![cell('a', (255, 255, 255), (255, 255, 255))], 1, 1);
    r.render(&vec![cell('b', (255, 255, 255), (255, 255, 255))], 1, 1);
    assert_eq!(r.output(), b"\x1b[Hb\x1b[0m".as_slice());
}

#[test]
fn palette_mapping() {
    assert_eq!(rgb_to_256(0, 0, 0), 16);
    assert_eq!(rgb_to_256(7, 7, 7), 16);
    assert_eq!(rgb_to_256(255, 255, 255), 231);
    assert_eq!(rgb_to_256(128, 128, 128), 243);
    assert_eq!(rgb_to_256(8, 8, 8), 232);
    assert_eq!(rgb_to_256(248, 248, 248), 255);
    assert_eq!(rgb_to_256(255, 0, 0), 196);
    assert_eq!(rgb_to_256(0, 255, 0), 46);
    assert_eq!(rgb_to_256(0, 0, 255), 21);
    assert_eq!(rgb_to_256(1, 2, 3), 16);
    assert_eq!(rgb_to_256(205, 49, 49), 16 + 36 * 4 + 6 + 1);
}
