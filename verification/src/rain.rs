//! The cells a raindrop draws: its trail, which wets the text it passes,
//! and the splash it makes when it reaches the bottom row.

use vstd::prelude::*;
use crate::effects::{holds_text, text_char, Cell, TextGrid};
use crate::lightning::sat_add;

verus! {

/// The cells after a raindrop whose head is at `head_row` in column `x`
/// splashes: while the head is in the last row or up to two rows below
/// it, and the bottom cell of its column holds no text, that cell shows a
/// `~` and each free neighbour in the bottom row (no text and showing a
/// space) a `·`, in shades of blue scaled from `brightness`. Otherwise
/// nothing changes.
pub open spec fn splashed(
    cells: Seq<Cell>,
    text: Option<TextGrid>,
    width: int,
    height: int,
    x: int,
    head_row: int,
    brightness: u8,
) -> Seq<Cell> {
    let r = height - 1;
    let base = r * width;
    let b = brightness;
    if head_row >= height - 1 && head_row < height + 2 && text_char(text, x, r) == ' ' {
        let c1 = cells.update(
            base + x,
            Cell { ch: '~', fg: (b / 3, b / 2, b), bg: (0, 0, 0) },
        );
        let dot = Cell { ch: '·', fg: (b / 5, b / 4, b / 2), bg: (0, 0, 0) };
        let c2 = if x > 0 && text_char(text, x - 1, r) == ' ' && c1[base + x - 1].ch == ' ' {
            c1.update(base + x - 1, dot)
        } else {
            c1
        };
        if x + 1 < width && text_char(text, x + 1, r) == ' ' && c2[base + x + 1].ch == ' ' {
            c2.update(base + x + 1, dot)
        } else {
            c2
        }
    } else {
        cells
    }
}

/// Draws the splash of a raindrop in column `x` whose head is at
/// `head_row` on a `width` x `height` frame.
pub fn rain_splash(
    cells: &mut Vec<Cell>,
    text: &Option<TextGrid>,
    width: usize,
    height: usize,
    x: usize,
    head_row: i32,
    brightness: u8,
)
    requires
        old(cells)@.len() >= width * height,
        x < width,
        1 <= height < 0x7fff_fffd,
    ensures
        final(cells)@ == splashed(
            old(cells)@,
            *text,
            width as int,
            height as int,
            x as int,
            head_row as int,
            brightness,
        ),
{
    let ghost old_cells = cells@;
    let n = cells.len();
    let h = height as i32;
    if head_row >= h - 1 && head_row < h + 2 {
        let splash_row = height - 1;
        proof {
            crate::screen::lemma_cell_index(width as int, height as int, x as int, splash_row as int);
        }
        if !holds_text(text, x, splash_row) {
            let b = brightness;
            let idx = splash_row * width + x;
            cells.set(idx, Cell { ch: '~', fg: (b / 3, b / 2, b), bg: (0, 0, 0) });
            if x > 0 {
                let li = splash_row * width + x - 1;
                if !holds_text(text, x - 1, splash_row) && cells[li].ch == ' ' {
                    cells.set(li, Cell { ch: '·', fg: (b / 5, b / 4, b / 2), bg: (0, 0, 0) });
                }
            }
            if x + 1 < width {
                let ri = splash_row * width + x + 1;
                if !holds_text(text, x + 1, splash_row) && cells[ri].ch == ' ' {
                    cells.set(ri, Cell { ch: '·', fg: (b / 5, b / 4, b / 2), bg: (0, 0, 0) });
                }
            }
        }
    }
    assert(cells@ =~= splashed(
        old_cells,
        *text,
        width as int,
        height as int,
        x as int,
        head_row as int,
        brightness,
    ));
}

/// `a - b`, at least 0.
pub open spec fn sat_sub(a: u8, b: u8) -> u8 {
    if a < b {
        0
    } else {
        (a - b) as u8
    }
}

/// A text cell that a raindrop passes: its red drops by half the wetness,
/// its green by a quarter, its blue rises by the wetness (each within
/// 0..=255); character and background stay.
pub open spec fn wet_cell(c: Cell, wetness: u8) -> Cell {
    Cell {
        fg: (sat_sub(c.fg.0, wetness / 2), sat_sub(c.fg.1, wetness / 4), sat_add(c.fg.2, wetness)),
        ..c
    }
}

/// The cell `i` rows above a raindrop's head (`i == 0` is the head) drawn
/// at brightness `b`: over text the text gets wet, with a wetness of 30 at
/// the head and 15 below it; elsewhere the drop shows `|` at the head, `│`
/// just above it and `¦` further up, in blue shades of `b` on black.
pub open spec fn drop_cell(c: Cell, over_text: bool, i: usize, b: u8) -> Cell {
    if over_text {
        wet_cell(
            c,
            if i == 0 {
                30
            } else {
                15
            },
        )
    } else {
        Cell {
            ch: if i == 0 {
                '|'
            } else if i == 1 {
                '│'
            } else {
                '¦'
            },
            fg: (b / 3, b / 2, b),
            bg: (0, 0, 0),
        }
    }
}

/// Draws the cell `i` rows above a raindrop's head, at column `col` of row
/// `row` of a `width` x `height` frame, at brightness `b`.
pub fn rain_trail_cell(
    cells: &mut Vec<Cell>,
    text: &Option<TextGrid>,
    width: usize,
    height: usize,
    col: usize,
    row: usize,
    i: usize,
    b: u8,
)
    requires
        old(cells)@.len() >= width * height,
        col < width,
        row < height,
    ensures
        final(cells)@ == old(cells)@.update(
            row * width + col,
            drop_cell(
                old(cells)@[row * width + col],
                text_char(*text, col as int, row as int) != ' ',
                i,
                b,
            ),
        ),
{
    proof {
        crate::screen::lemma_cell_index(width as int, height as int, col as int, row as int);
    }
    let n = cells.len();
    let idx = row * width + col;
    if holds_text(text, col, row) {
        let wetness: u8 = if i == 0 {
            30
        } else {
            15
        };
        let c = cells[idx];
        let fg = (
            c.fg.0.saturating_sub(wetness / 2),
            c.fg.1.saturating_sub(wetness / 4),
            c.fg.2.saturating_add(wetness),
        );
        cells.set(idx, Cell { ch: c.ch, fg, bg: c.bg });
    } else {
        let ch = if i == 0 {
            '|'
        } else if i == 1 {
            '│'
        } else {
            '¦'
        };
        cells.set(idx, Cell { ch, fg: (b / 3, b / 2, b), bg: (0, 0, 0) });
    }
}

} // verus!
