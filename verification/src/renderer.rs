//! Turning a frame of coloured cells into the bytes that draw it on a
//! terminal: cursor home, then row by row each cell's character, preceded by
//! a colour sequence wherever its colours differ from the previous cell's.

use vstd::prelude::*;
use vstd::utf8::encode_scalar;
use crate::color::{rgb_to_256, spec_rgb_to_256};
use crate::effects::Cell;
use crate::encode::{decimal, push_decimal, push_utf8};
use crate::screen::lemma_cell_index;

verus! {

/// How colours are written: as 24-bit values or as 256-colour palette
/// indices.
#[derive(Clone, Copy, PartialEq, Eq, Structural)]
pub enum ColorMode {
    TrueColor,
    Ansi256,
}

/// The colour that no cell has, which forces a colour sequence for the
/// first cell of every row.
pub open spec fn unset_color() -> (u8, u8, u8) {
    (255, 255, 255)
}

/// `ESC [ H`: cursor to the top left corner.
pub open spec fn home_bytes() -> Seq<u8> {
    seq![27, 91, 72]
}

/// `ESC [ 0 m`: reset all attributes.
pub open spec fn reset_bytes() -> Seq<u8> {
    seq![27, 91, 48, 109]
}

/// `ESC [ 0 m \r \n`: reset attributes and go to the next line.
pub open spec fn row_end_bytes() -> Seq<u8> {
    reset_bytes() + seq![13, 10]
}

/// The SGR sequence that sets a colour: `layer` is `3` for the foreground
/// and `4` for the background; true colour writes `ESC [ layer 8 ; 2 ; r ; g ; b m`,
/// 256-colour writes `ESC [ layer 8 ; 5 ; index m`.
pub open spec fn color_bytes(mode: ColorMode, layer: u8, c: (u8, u8, u8)) -> Seq<u8> {
    match mode {
        ColorMode::TrueColor => seq![27, 91, layer, 56, 59, 50, 59] + decimal(c.0) + seq![59]
            + decimal(c.1) + seq![59] + decimal(c.2) + seq![109],
        ColorMode::Ansi256 => seq![27, 91, layer, 56, 59, 53, 59] + decimal(
            spec_rgb_to_256(c.0, c.1, c.2),
        ) + seq![109],
    }
}

/// Whether the cursor is at column `col` of row `row`.
pub open spec fn at_cursor(cursor: Option<(usize, usize)>, col: int, row: int) -> bool {
    match cursor {
        Some((cx, cy)) => col == cx && row == cy,
        None => false,
    }
}

/// The foreground and background a cell is drawn in: its own, or black on
/// light grey under the cursor.
pub open spec fn shown_colors(c: Cell, under_cursor: bool) -> ((u8, u8, u8), (u8, u8, u8)) {
    if under_cursor {
        ((0, 0, 0), (200, 200, 200))
    } else {
        (c.fg, c.bg)
    }
}

/// The bytes for one cell, given the colours last written: a background
/// sequence if its background differs, then a foreground sequence if its
/// foreground differs, then its character in UTF-8.
pub open spec fn cell_bytes(
    cell: Cell,
    under_cursor: bool,
    prev_fg: (u8, u8, u8),
    prev_bg: (u8, u8, u8),
    mode: ColorMode,
) -> Seq<u8> {
    let (fg, bg) = shown_colors(cell, under_cursor);
    (if bg != prev_bg {
        color_bytes(mode, 52, bg)
    } else {
        seq![]
    }) + (if fg != prev_fg {
        color_bytes(mode, 51, fg)
    } else {
        seq![]
    }) + encode_scalar(cell.ch as u32)
}

/// The bytes for the cells of row `row` from column `col` on, given the
/// colours last written.
pub open spec fn row_from(
    frame: Seq<Cell>,
    width: int,
    row: int,
    col: int,
    prev_fg: (u8, u8, u8),
    prev_bg: (u8, u8, u8),
    cursor: Option<(usize, usize)>,
    mode: ColorMode,
) -> Seq<u8>
    decreases width - col,
{
    if col < 0 || col >= width {
        seq![]
    } else {
        let cell = frame[row * width + col];
        let under = at_cursor(cursor, col, row);
        let (fg, bg) = shown_colors(cell, under);
        cell_bytes(cell, under, prev_fg, prev_bg, mode) + row_from(
            frame,
            width,
            row,
            col + 1,
            fg,
            bg,
            cursor,
            mode,
        )
    }
}

/// The bytes for the first `k` rows, each but the last of the frame
/// followed by a reset and a line break.
pub open spec fn rows_bytes(
    frame: Seq<Cell>,
    width: int,
    height: int,
    k: int,
    cursor: Option<(usize, usize)>,
    mode: ColorMode,
) -> Seq<u8>
    decreases k,
{
    if k <= 0 {
        seq![]
    } else {
        rows_bytes(frame, width, height, k - 1, cursor, mode) + row_from(
            frame,
            width,
            k - 1,
            0,
            unset_color(),
            unset_color(),
            cursor,
            mode,
        ) + (if k < height {
            row_end_bytes()
        } else {
            seq![]
        })
    }
}

/// The bytes that draw a `width` x `height` frame (row-major cells), the
/// cell under `cursor`, if any, inverted.
pub open spec fn frame_bytes(
    frame: Seq<Cell>,
    width: int,
    height: int,
    cursor: Option<(usize, usize)>,
    mode: ColorMode,
) -> Seq<u8> {
    home_bytes() + rows_bytes(frame, width, height, height, cursor, mode) + reset_bytes()
}

fn same_color(a: (u8, u8, u8), b: (u8, u8, u8)) -> (r: bool)
    ensures
        r == (a == b),
{
    a.0 == b.0 && a.1 == b.1 && a.2 == b.2
}

/// Writes frames of cells as terminal output into a reusable buffer.
pub struct Renderer {
    buf: Vec<u8>,
    color_mode: ColorMode,
}

impl Renderer {
    /// The colour mode the renderer writes in.
    pub closed spec fn mode(&self) -> ColorMode {
        self.color_mode
    }

    /// The bytes of the last frame rendered.
    pub closed spec fn buffer(&self) -> Seq<u8> {
        self.buf@
    }

    /// A renderer with an empty buffer.
    pub fn new(color_mode: ColorMode) -> (r: Self)
        ensures
            r.mode() == color_mode,
            r.buffer() == Seq::<u8>::empty(),
    {
        Renderer { buf: Vec::with_capacity(1024 * 64), color_mode }
    }

    /// The bytes of the last frame rendered, to be written to the terminal.
    pub fn output(&self) -> (out: &[u8])
        ensures
            out@ == self.buffer(),
    {
        self.buf.as_slice()
    }

    fn write_color(&mut self, layer: u8, c: (u8, u8, u8))
        ensures
            final(self).mode() == old(self).mode(),
            final(self).buffer() == old(self).buffer() + color_bytes(old(self).mode(), layer, c),
    {
        let ghost old_buf = self.buf@;
        self.buf.push(27);
        self.buf.push(91);
        self.buf.push(layer);
        self.buf.push(56);
        self.buf.push(59);
        match self.color_mode {
            ColorMode::TrueColor => {
                self.buf.push(50);
                self.buf.push(59);
                push_decimal(&mut self.buf, c.0);
                self.buf.push(59);
                push_decimal(&mut self.buf, c.1);
                self.buf.push(59);
                push_decimal(&mut self.buf, c.2);
            },
            ColorMode::Ansi256 => {
                let idx = rgb_to_256(c.0, c.1, c.2);
                self.buf.push(53);
                self.buf.push(59);
                push_decimal(&mut self.buf, idx);
            },
        }
        self.buf.push(109);
        assert(self.buf@ =~= old_buf + color_bytes(self.color_mode, layer, c));
    }

    /// Appends the sequence that sets the foreground to `(r, g, b)`.
    fn write_fg(&mut self, r: u8, g: u8, b: u8)
        ensures
            final(self).mode() == old(self).mode(),
            final(self).buffer() == old(self).buffer() + color_bytes(old(self).mode(), 51, (r, g, b)),
    {
        self.write_color(51, (r, g, b));
    }

    /// Appends the sequence that sets the background to `(r, g, b)`.
    fn write_bg(&mut self, r: u8, g: u8, b: u8)
        ensures
            final(self).mode() == old(self).mode(),
            final(self).buffer() == old(self).buffer() + color_bytes(old(self).mode(), 52, (r, g, b)),
    {
        self.write_color(52, (r, g, b));
    }

    /// Appends the bytes for one cell and returns the colours it is drawn in.
    fn write_cell(
        &mut self,
        cell: Cell,
        under_cursor: bool,
        prev_fg: (u8, u8, u8),
        prev_bg: (u8, u8, u8),
    ) -> (colors: ((u8, u8, u8), (u8, u8, u8)))
        ensures
            final(self).mode() == old(self).mode(),
            colors == shown_colors(cell, under_cursor),
            final(self).buffer() == old(self).buffer() + cell_bytes(
                cell,
                under_cursor,
                prev_fg,
                prev_bg,
                old(self).mode(),
            ),
    {
        let ghost before = self.buf@;
        let (fg, bg) = if under_cursor {
            ((0u8, 0u8, 0u8), (200u8, 200u8, 200u8))
        } else {
            (cell.fg, cell.bg)
        };
        if !same_color(bg, prev_bg) {
            self.write_bg(bg.0, bg.1, bg.2);
        }
        let ghost after_bg = self.buf@;
        if !same_color(fg, prev_fg) {
            self.write_fg(fg.0, fg.1, fg.2);
        }
        let ghost after_fg = self.buf@;
        push_utf8(&mut self.buf, cell.ch);
        assert(self.buf@ =~= before + cell_bytes(cell, under_cursor, prev_fg, prev_bg, self.color_mode));
        (fg, bg)
    }

    /// Renders a `width` x `height` frame (cells row by row) into the buffer.
    pub fn render(&mut self, frame: &Vec<Cell>, width: u16, height: u16)
        requires
            frame@.len() == width * height,
        ensures
            final(self).mode() == old(self).mode(),
            final(self).buffer() == frame_bytes(
                frame@,
                width as int,
                height as int,
                None,
                old(self).mode(),
            ),
    {
        self.render_inner(frame, width, height, None)
    }

    /// Renders a frame as [`Renderer::render`] does, with the cell at
    /// `cursor` (column, row) drawn black on light grey.
    pub fn render_with_cursor(
        &mut self,
        frame: &Vec<Cell>,
        width: u16,
        height: u16,
        cursor: (usize, usize),
    )
        requires
            frame@.len() == width * height,
        ensures
            final(self).mode() == old(self).mode(),
            final(self).buffer() == frame_bytes(
                frame@,
                width as int,
                height as int,
                Some(cursor),
                old(self).mode(),
            ),
    {
        self.render_inner(frame, width, height, Some(cursor))
    }

    fn render_inner(
        &mut self,
        frame: &Vec<Cell>,
        width: u16,
        height: u16,
        cursor: Option<(usize, usize)>,
    )
        requires
            frame@.len() == width * height,
        ensures
            final(self).mode() == old(self).mode(),
            final(self).buffer() == frame_bytes(
                frame@,
                width as int,
                height as int,
                cursor,
                old(self).mode(),
            ),
    {
        let ghost mode = self.color_mode;
        let ghost fr = frame@;
        let w = width as usize;
        let h = height as usize;
        let n = frame.len();
        self.buf.clear();
        self.buf.push(27);
        self.buf.push(91);
        self.buf.push(72);
        let mut row: usize = 0;
        while row < h
            invariant
                self.color_mode == mode,
                fr == frame@,
                fr.len() == w * h,
                n == fr.len(),
                w == width as usize,
                h == height as usize,
                row <= h,
                self.buf@ == home_bytes() + rows_bytes(fr, w as int, h as int, row as int, cursor, mode),
            decreases h - row,
        {
            let ghost row_start = self.buf@;
            let mut prev_fg: (u8, u8, u8) = (255, 255, 255);
            let mut prev_bg: (u8, u8, u8) = (255, 255, 255);
            let mut col: usize = 0;
            while col < w
                invariant
                    self.color_mode == mode,
                    fr == frame@,
                    fr.len() == w * h,
                    n == fr.len(),
                    row < h,
                    col <= w,
                    self.buf@ + row_from(fr, w as int, row as int, col as int, prev_fg, prev_bg, cursor, mode)
                        == row_start + row_from(
                        fr,
                        w as int,
                        row as int,
                        0,
                        unset_color(),
                        unset_color(),
                        cursor,
                        mode,
                    ),
                decreases w - col,
            {
                proof {
                    lemma_cell_index(w as int, h as int, col as int, row as int);
                }
                let cell = frame[row * w + col];
                let under_cursor = match cursor {
                    Some((cx, cy)) => col == cx && row == cy,
                    None => false,
                };
                let ghost before = self.buf@;
                let (fg, bg) = self.write_cell(cell, under_cursor, prev_fg, prev_bg);
                proof {
                    let rest = row_from(fr, w as int, row as int, col + 1, fg, bg, cursor, mode);
                    assert(self.buf@ + rest =~= before + (cell_bytes(cell, under_cursor, prev_fg, prev_bg, mode) + rest));
                }
                prev_fg = fg;
                prev_bg = bg;
                col = col + 1;
            }
            if row + 1 < h {
                self.buf.push(27);
                self.buf.push(91);
                self.buf.push(48);
                self.buf.push(109);
                self.buf.push(13);
                self.buf.push(10);
            }
            row = row + 1;
            assert(self.buf@ =~= home_bytes() + rows_bytes(fr, w as int, h as int, row as int, cursor, mode));
        }
        self.buf.push(27);
        self.buf.push(91);
        self.buf.push(48);
        self.buf.push(109);
        assert(self.buf@ =~= frame_bytes(fr, w as int, h as int, cursor, mode));
    }
}

} // verus!
