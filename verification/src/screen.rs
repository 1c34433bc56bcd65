//! A small virtual terminal: a grid of character cells, a cursor, and a
//! parser for the byte stream a shell writes (printable bytes, a few control
//! bytes, and the ANSI control sequences for cursor movement, erasing and
//! foreground colour; OSC sequences are skipped).
//!
//! Its behaviour is stated over [`ScreenView`]: [`ScreenView::step`] is what
//! one byte does, [`run`] is what a byte stream does.

use vstd::prelude::*;
use crate::params::{csi_params, parse_params};
use crate::sgr::{apply_sgr, default_fg, select_graphic_rendition};
use crate::effects::TextGrid;

verus! {

/// Escape (starts a control sequence).
pub const ESC: u8 = 27;
/// Line feed.
pub const LF: u8 = 10;
/// Carriage return.
pub const CR: u8 = 13;
/// Backspace.
pub const BS: u8 = 8;
/// Horizontal tab.
pub const TAB: u8 = 9;
/// `[`, which after an escape starts a CSI sequence.
pub const CSI_OPEN: u8 = 91;
/// `]`, which after an escape starts an OSC sequence.
pub const OSC_OPEN: u8 = 93;
/// Bell, which ends an OSC sequence.
pub const BEL: u8 = 7;

/// One character cell of the screen.
#[derive(Clone, Copy)]
pub struct ScreenCell {
    pub ch: char,
    pub fg: (u8, u8, u8),
}

/// An empty cell in the default colour.
pub open spec fn blank_cell() -> ScreenCell {
    ScreenCell { ch: ' ', fg: default_fg() }
}

impl ScreenCell {
    /// An empty cell in the default colour.
    pub fn blank() -> (c: Self)
        ensures
            c == blank_cell(),
    {
        ScreenCell { ch: ' ', fg: (200, 200, 200) }
    }
}

/// `n` blank cells.
pub open spec fn blank_cells(n: nat) -> Seq<ScreenCell> {
    Seq::new(n, |i: int| blank_cell())
}

/// A byte that ends a CSI sequence: one from 0x40 (`@`) to 0x7E (`~`).
pub open spec fn is_final_byte(b: u8) -> bool {
    64 <= b <= 126
}

/// The first parameter, or `d` when there is none.
pub open spec fn first_or(p: Seq<usize>, d: usize) -> usize {
    if p.len() > 0 {
        p[0]
    } else {
        d
    }
}

/// The second parameter, or `d` when there is none.
pub open spec fn second_or(p: Seq<usize>, d: usize) -> usize {
    if p.len() > 1 {
        p[1]
    } else {
        d
    }
}

pub open spec fn min_int(a: int, b: int) -> int {
    if a <= b {
        a
    } else {
        b
    }
}

/// `n - 1`, or 0 for 0.
pub open spec fn dec_sat(n: int) -> int {
    if n > 0 {
        n - 1
    } else {
        0
    }
}

/// The abstract state of a [`Screen`].
#[verifier::ext_equal]
pub struct ScreenView {
    pub width: usize,
    pub height: usize,
    /// Row-major: the cell at column `x` of row `y` is `cells[y * width + x]`.
    pub cells: Seq<ScreenCell>,
    pub cursor_x: usize,
    pub cursor_y: usize,
    /// Parameter bytes of the control sequence being read.
    pub esc: Seq<u8>,
    /// An escape byte has been read and its sequence is not over.
    pub in_esc: bool,
    /// The sequence being read is a CSI sequence (`ESC [`).
    pub in_csi: bool,
    /// An OSC sequence (`ESC ]`) is being skipped.
    pub in_osc: bool,
    /// The colour in which printed bytes are written.
    pub fg: (u8, u8, u8),
}

impl ScreenView {
    /// A fresh screen of the given size: all blank, cursor at the origin,
    /// default colour, no sequence pending.
    pub open spec fn initial(width: usize, height: usize) -> ScreenView {
        ScreenView {
            width,
            height,
            cells: blank_cells((width * height) as nat),
            cursor_x: 0,
            cursor_y: 0,
            esc: seq![],
            in_esc: false,
            in_csi: false,
            in_osc: false,
            fg: default_fg(),
        }
    }

    /// The grid holds `width * height` cells and the cursor is on the grid
    /// (or at the origin of an empty one).
    pub open spec fn wf(self) -> bool {
        &&& self.width * self.height <= usize::MAX
        &&& self.cells.len() == self.width * self.height
        &&& (self.cursor_x < self.width || self.cursor_x == 0)
        &&& (self.cursor_y < self.height || self.cursor_y == 0)
    }

    /// Well formed and with at least one row and one column: the states in
    /// which the screen accepts input.
    pub open spec fn active(self) -> bool {
        &&& self.wf()
        &&& self.width > 0
        &&& self.height > 0
    }

    /// The index of the cell under the cursor.
    pub open spec fn cursor_index(self) -> int {
        self.cursor_y * self.width + self.cursor_x
    }

    /// The cell at column `col` of row `row`.
    pub open spec fn cell(self, col: int, row: int) -> ScreenCell {
        self.cells[row * self.width + col]
    }

    /// The cells with every row moved up by one: the top row is lost and a
    /// blank row enters at the bottom.
    pub open spec fn scrolled(self) -> Seq<ScreenCell> {
        self.cells.skip(self.width as int) + blank_cells(self.width as nat)
    }

    /// The cells with those at indices `lo..hi` blanked.
    pub open spec fn cleared(self, lo: int, hi: int) -> Seq<ScreenCell> {
        Seq::new(
            self.cells.len(),
            |i: int|
                if lo <= i < hi {
                    blank_cell()
                } else {
                    self.cells[i]
                },
        )
    }

    /// Moves the cursor down one row; on the last row the screen scrolls up
    /// instead.
    pub open spec fn line_feed(self) -> ScreenView {
        if self.cursor_y + 1 >= self.height {
            ScreenView { cells: self.scrolled(), cursor_y: (self.height - 1) as usize, ..self }
        } else {
            ScreenView { cursor_y: (self.cursor_y + 1) as usize, ..self }
        }
    }

    /// Writes byte `b` (read as the character with that code) in the
    /// current colour under the cursor and advances it; past the last column
    /// the cursor wraps to the start of the next line. A cursor off the grid
    /// (on a screen without rows or columns) writes nothing.
    pub open spec fn print(self, b: u8) -> ScreenView {
        let written = ScreenView {
            cells: self.cells.update(self.cursor_index(), ScreenCell { ch: b as char, fg: self.fg }),
            ..self
        };
        if !(self.cursor_x < self.width && self.cursor_y < self.height) {
            self
        } else if self.cursor_x + 1 >= self.width {
            ScreenView { cursor_x: 0, ..written }.line_feed()
        } else {
            ScreenView { cursor_x: (self.cursor_x + 1) as usize, ..written }
        }
    }

    /// The column a tab moves to: the next multiple of 8, at most the last
    /// column.
    pub open spec fn tab_stop(self) -> usize {
        let next = (self.cursor_x / 8 + 1) * 8;
        if next >= self.width {
            (self.width - 1) as usize
        } else {
            next as usize
        }
    }

    /// `ESC [ n J`: 0 erases from the cursor to the end of the screen, 1 from
    /// the start of the screen through the cursor, 2 and 3 everything; other
    /// modes do nothing.
    pub open spec fn erase_display(self, mode: usize) -> ScreenView {
        let len = self.cells.len() as int;
        let at = self.cursor_index();
        if mode == 0 {
            ScreenView { cells: self.cleared(at, len), ..self }
        } else if mode == 1 {
            ScreenView { cells: self.cleared(0, min_int(at, len - 1) + 1), ..self }
        } else if mode == 2 || mode == 3 {
            ScreenView { cells: self.cleared(0, len), ..self }
        } else {
            self
        }
    }

    /// `ESC [ n K`: 0 erases the cursor's line from the cursor to its end, 1
    /// from its start through the cursor, 2 the whole line; other modes do
    /// nothing.
    pub open spec fn erase_line(self, mode: usize) -> ScreenView {
        let row = self.cursor_y * self.width;
        if mode == 0 {
            ScreenView { cells: self.cleared(row + self.cursor_x, row + self.width), ..self }
        } else if mode == 1 {
            ScreenView {
                cells: self.cleared(row, row + min_int(self.cursor_x as int, self.width - 1) + 1),
                ..self
            }
        } else if mode == 2 {
            ScreenView { cells: self.cleared(row, row + self.width), ..self }
        } else {
            self
        }
    }

    /// What the CSI sequence with parameters `p` and final byte `fin` does:
    /// `H`/`f` place the cursor (1-based row; column), `A`/`B`/`C`/`D` move it
    /// up/down/right/left by the first parameter (at least 1) within the
    /// screen, `J` and `K` erase, `m` sets the colour; other final bytes do
    /// nothing.
    pub open spec fn control_sequence(self, p: Seq<usize>, fin: u8) -> ScreenView {
        let n = if first_or(p, 1) >= 1 {
            first_or(p, 1) as int
        } else {
            1
        };
        if fin == 72 || fin == 102 {
            ScreenView {
                cursor_y: min_int(dec_sat(first_or(p, 1) as int), self.height - 1) as usize,
                cursor_x: min_int(dec_sat(second_or(p, 1) as int), self.width - 1) as usize,
                ..self
            }
        } else if fin == 65 {
            ScreenView {
                cursor_y: if self.cursor_y >= n {
                    (self.cursor_y - n) as usize
                } else {
                    0
                },
                ..self
            }
        } else if fin == 66 {
            ScreenView { cursor_y: min_int(self.cursor_y + n, self.height - 1) as usize, ..self }
        } else if fin == 67 {
            ScreenView { cursor_x: min_int(self.cursor_x + n, self.width - 1) as usize, ..self }
        } else if fin == 68 {
            ScreenView {
                cursor_x: if self.cursor_x >= n {
                    (self.cursor_x - n) as usize
                } else {
                    0
                },
                ..self
            }
        } else if fin == 74 {
            self.erase_display(first_or(p, 0))
        } else if fin == 75 {
            self.erase_line(first_or(p, 0))
        } else if fin == 109 {
            ScreenView { fg: apply_sgr(self.fg, p), ..self }
        } else {
            self
        }
    }

    /// Whether the control sequence with parameters `p` and final byte
    /// `fin` has a meaning on this screen: on a screen without rows or
    /// columns, placing the cursor, moving it down (no rows) or right (no
    /// columns), erasing the display up to the cursor, and erasing a line
    /// that has cells to erase, have none.
    pub open spec fn csi_defined(self, p: Seq<usize>, fin: u8) -> bool {
        let mode = first_or(p, 0);
        if fin == 72 || fin == 102 {
            self.width > 0 && self.height > 0
        } else if fin == 66 {
            self.height > 0
        } else if fin == 67 {
            self.width > 0
        } else if fin == 74 {
            mode == 1 ==> self.width > 0 && self.height > 0
        } else if fin == 75 {
            &&& (mode == 0 ==> self.cursor_x >= self.width || self.height > 0)
            &&& (mode == 1 ==> self.width > 0 && self.height > 0)
            &&& (mode == 2 ==> self.width == 0 || self.height > 0)
        } else {
            true
        }
    }

    /// Whether byte `b` has a meaning in this state: always on a screen
    /// with rows and columns; without rows a line feed has none, without
    /// columns a tab has none, and some control sequences have none (see
    /// [`ScreenView::csi_defined`]).
    pub open spec fn step_defined(self, b: u8) -> bool {
        if self.in_osc {
            true
        } else if self.in_esc {
            if self.in_csi && is_final_byte(b) {
                self.csi_defined(csi_params(self.esc), b)
            } else {
                true
            }
        } else if b == LF {
            self.height > 0
        } else if b == TAB {
            self.width > 0
        } else {
            true
        }
    }

    /// What one input byte does.
    ///
    /// Inside an OSC sequence every byte is skipped up to a bell, which ends
    /// it, or an escape, which ends it and starts a new sequence (so that
    /// `ESC \` ends it too).
    /// Inside an escape sequence: after `ESC [` bytes are collected until a
    /// final byte (0x40 to 0x7E), which then runs the sequence; after `ESC`
    /// alone, `[` starts a CSI sequence, `]` starts an OSC sequence, and any
    /// other byte ends the escape and is dropped.
    /// Outside: `ESC` starts a sequence, line feed moves down (scrolling on
    /// the last row), carriage return goes to column 0, backspace moves left
    /// (not past column 0), tab goes to the next tab stop, any other byte
    /// from 0x20 up is printed, and the remaining control bytes (bell
    /// among them) are ignored.
    pub open spec fn step(self, b: u8) -> ScreenView {
        if self.in_osc {
            if b == BEL {
                ScreenView { in_osc: false, ..self }
            } else if b == ESC {
                ScreenView { in_osc: false, in_esc: true, in_csi: false, ..self }
            } else {
                self
            }
        } else if self.in_esc {
            if self.in_csi {
                if is_final_byte(b) {
                    ScreenView {
                        in_esc: false,
                        in_csi: false,
                        esc: seq![],
                        ..self.control_sequence(csi_params(self.esc), b)
                    }
                } else {
                    ScreenView { esc: self.esc.push(b), ..self }
                }
            } else if b == CSI_OPEN {
                ScreenView { in_csi: true, esc: seq![], ..self }
            } else if b == OSC_OPEN {
                ScreenView { in_esc: false, in_osc: true, ..self }
            } else {
                ScreenView { in_esc: false, ..self }
            }
        } else if b == ESC {
            ScreenView { in_esc: true, in_csi: false, ..self }
        } else if b == LF {
            self.line_feed()
        } else if b == CR {
            ScreenView { cursor_x: 0, ..self }
        } else if b == BS {
            ScreenView {
                cursor_x: if self.cursor_x > 0 {
                    (self.cursor_x - 1) as usize
                } else {
                    0
                },
                ..self
            }
        } else if b == TAB {
            ScreenView { cursor_x: self.tab_stop(), ..self }
        } else if b >= 32 {
            self.print(b)
        } else {
            self
        }
    }
}

/// The state after feeding the bytes `data`, one after another, from `s`.
pub open spec fn run(s: ScreenView, data: Seq<u8>) -> ScreenView
    decreases data.len(),
{
    if data.len() == 0 {
        s
    } else {
        run(s, data.drop_last()).step(data.last())
    }
}

/// Every byte of `data` has a meaning in the state it reaches.
pub open spec fn feedable(s: ScreenView, data: Seq<u8>) -> bool {
    forall|i: int| 0 <= i < data.len() ==> #[trigger] run(s, data.take(i)).step_defined(data[i])
}

/// No cell holds a control character (one below a space).
pub open spec fn printable_cells(cells: Seq<ScreenCell>) -> bool {
    forall|i: int| 0 <= i < cells.len() ==> (#[trigger] cells[i]).ch as u32 >= 32
}

/// Row `y` and column `x` of a `w`-column grid with `h` rows lie within its
/// `w * h` cells, and the whole row `y` does.
pub proof fn lemma_cell_index(w: int, h: int, x: int, y: int)
    requires
        0 <= x < w,
        0 <= y < h,
    ensures
        0 <= y * w,
        y * w + x < w * h,
        y * w + w <= w * h,
{
    assert(0 <= y * w) by (nonlinear_arith)
        requires
            0 <= y,
            0 <= w,
    ;
    assert(y * w + w <= w * h) by (nonlinear_arith)
        requires
            0 <= x < w,
            0 <= y < h,
    ;
}

/// Every byte keeps an active screen active, with its size unchanged.
pub proof fn lemma_step_active(s: ScreenView, b: u8)
    requires
        s.active(),
    ensures
        s.step(b).active(),
        s.step(b).width == s.width,
        s.step(b).height == s.height,
{
    lemma_cell_index(s.width as int, s.height as int, s.cursor_x as int, s.cursor_y as int);
    assert(s.scrolled().len() == s.cells.len());
    if s.in_esc && s.in_csi && is_final_byte(b) {
        let p = csi_params(s.esc);
        let t = s.control_sequence(p, b);
        assert(t.cells.len() == s.cells.len());
    }
}

/// Feeding any bytes keeps an active screen active, with its size
/// unchanged.
pub proof fn lemma_run_active(s: ScreenView, data: Seq<u8>)
    requires
        s.active(),
    ensures
        run(s, data).active(),
        run(s, data).width == s.width,
        run(s, data).height == s.height,
    decreases data.len(),
{
    if data.len() > 0 {
        lemma_run_active(s, data.drop_last());
        lemma_step_active(run(s, data.drop_last()), data.last());
    }
}

/// A well-formed screen stays well formed, with its size, under every
/// byte that has a meaning in its state.
pub proof fn lemma_step_wf(s: ScreenView, b: u8)
    requires
        s.wf(),
        s.step_defined(b),
    ensures
        s.step(b).wf(),
        s.step(b).width == s.width,
        s.step(b).height == s.height,
{
    if s.active() {
        lemma_step_active(s, b);
    } else {
        assert(s.width * s.height == 0) by (nonlinear_arith)
            requires
                s.width == 0 || s.height == 0,
        ;
        if s.height > 0 {
            assert(s.scrolled().len() == s.cells.len());
        }
        if s.in_esc && s.in_csi && is_final_byte(b) {
            let p = csi_params(s.esc);
            let t = s.control_sequence(p, b);
            assert(t.cells.len() == s.cells.len());
        }
    }
}

/// On a screen with rows and columns every byte has a meaning.
pub proof fn lemma_active_step_defined(s: ScreenView, b: u8)
    requires
        s.active(),
    ensures
        s.step_defined(b),
{
}

/// Every stream of bytes can be fed to a screen with rows and columns.
pub proof fn lemma_active_feedable(s: ScreenView, data: Seq<u8>)
    requires
        s.active(),
    ensures
        feedable(s, data),
{
    assert forall|i: int| 0 <= i < data.len() implies #[trigger] run(s, data.take(i)).step_defined(
        data[i],
    ) by {
        lemma_run_active(s, data.take(i));
    }
}

/// A well-formed screen stays well formed, with its size, under a stream
/// it can be fed.
pub proof fn lemma_run_wf(s: ScreenView, data: Seq<u8>)
    requires
        s.wf(),
        feedable(s, data),
    ensures
        run(s, data).wf(),
        run(s, data).width == s.width,
        run(s, data).height == s.height,
    decreases data.len(),
{
    if data.len() > 0 {
        let d = data.drop_last();
        assert forall|i: int| 0 <= i < d.len() implies #[trigger] run(s, d.take(i)).step_defined(d[i]) by {
            assert(d.take(i) =~= data.take(i));
            assert(run(s, data.take(i)).step_defined(data[i]));
        }
        lemma_run_wf(s, d);
        assert(data.take(d.len() as int) =~= d);
        assert(run(s, data.take(d.len() as int)).step_defined(data[d.len() as int]));
        lemma_step_wf(run(s, d), data.last());
    }
}

/// Blank cells are printable.
proof fn lemma_blank_printable(n: nat)
    ensures
        printable_cells(blank_cells(n)),
{
    assert(blank_cell().ch as u32 == 32);
    assert forall|i: int| 0 <= i < blank_cells(n).len() implies (#[trigger] blank_cells(n)[i]).ch
        as u32 >= 32 by {
        assert(blank_cells(n)[i] == blank_cell());
    }
}

/// Blanking cells keeps every cell printable.
proof fn lemma_cleared_printable(s: ScreenView, lo: int, hi: int)
    requires
        printable_cells(s.cells),
    ensures
        printable_cells(s.cleared(lo, hi)),
{
    assert(blank_cell().ch as u32 == 32);
    assert forall|i: int| 0 <= i < s.cleared(lo, hi).len() implies (#[trigger] s.cleared(
        lo,
        hi,
    )[i]).ch as u32 >= 32 by {
        assert(s.cells[i].ch as u32 >= 32);
    }
}

/// Scrolling keeps every cell printable: the rows that stay were
/// printable and the new one is blank.
proof fn lemma_scrolled_printable(s: ScreenView)
    requires
        s.width <= s.cells.len(),
        printable_cells(s.cells),
    ensures
        printable_cells(s.scrolled()),
{
    assert(blank_cell().ch as u32 == 32);
    let t = s.scrolled();
    assert forall|i: int| 0 <= i < t.len() implies (#[trigger] t[i]).ch as u32 >= 32 by {
        if i < s.cells.len() - s.width {
            assert(t[i] == s.cells[i + s.width]);
        } else {
            assert(t[i] == blank_cell());
        }
    }
}

/// A line feed keeps every cell printable.
proof fn lemma_line_feed_printable(s: ScreenView)
    requires
        s.wf(),
        s.height > 0,
        printable_cells(s.cells),
    ensures
        printable_cells(s.line_feed().cells),
{
    assert(s.width <= s.width * s.height) by (nonlinear_arith)
        requires
            s.height > 0,
    ;
    lemma_scrolled_printable(s);
}

/// Printing a byte from a space up keeps every cell printable.
proof fn lemma_print_printable(s: ScreenView, b: u8)
    requires
        s.wf(),
        b >= 32,
        printable_cells(s.cells),
    ensures
        printable_cells(s.print(b).cells),
{
    if s.cursor_x < s.width && s.cursor_y < s.height {
        lemma_cell_index(s.width as int, s.height as int, s.cursor_x as int, s.cursor_y as int);
        assert((b as char) as u32 == b as u32);
        let written = ScreenView {
            cells: s.cells.update(s.cursor_index(), ScreenCell { ch: b as char, fg: s.fg }),
            ..s
        };
        assert forall|i: int| 0 <= i < written.cells.len() implies (
        #[trigger] written.cells[i]).ch as u32 >= 32 by {
            if i != s.cursor_index() {
                assert(s.cells[i].ch as u32 >= 32);
            }
        }
        if s.cursor_x + 1 >= s.width {
            lemma_line_feed_printable(ScreenView { cursor_x: 0, ..written });
        }
    }
}

/// No byte puts a control character in a cell: printed bytes are at least
/// a space, and erased or scrolled-in cells are spaces.
pub proof fn lemma_step_printable(s: ScreenView, b: u8)
    requires
        s.wf(),
        s.step_defined(b),
        printable_cells(s.cells),
    ensures
        printable_cells(s.step(b).cells),
{
    if s.in_osc {
    } else if s.in_esc {
        if s.in_csi && is_final_byte(b) {
            let p = csi_params(s.esc);
            let len = s.cells.len() as int;
            let at = s.cursor_index();
            let row = s.cursor_y * s.width;
            let m = first_or(p, 0);
            lemma_cleared_printable(s, at, len);
            lemma_cleared_printable(s, 0, min_int(at, len - 1) + 1);
            lemma_cleared_printable(s, 0, len);
            lemma_cleared_printable(s, row + s.cursor_x, row + s.width);
            lemma_cleared_printable(s, row, row + min_int(s.cursor_x as int, s.width - 1) + 1);
            lemma_cleared_printable(s, row, row + s.width);
        }
    } else if b == LF {
        lemma_line_feed_printable(s);
    } else if b != ESC && b != CR && b != BS && b != TAB && b >= 32 {
        lemma_print_printable(s, b);
    }
}

/// Feeding never puts a control character in a cell.
pub proof fn lemma_run_printable(s: ScreenView, data: Seq<u8>)
    requires
        s.wf(),
        feedable(s, data),
        printable_cells(s.cells),
    ensures
        printable_cells(run(s, data).cells),
    decreases data.len(),
{
    if data.len() > 0 {
        let d = data.drop_last();
        assert forall|i: int| 0 <= i < d.len() implies #[trigger] run(s, d.take(i)).step_defined(d[i]) by {
            assert(d.take(i) =~= data.take(i));
            assert(run(s, data.take(i)).step_defined(data[i]));
        }
        lemma_run_printable(s, d);
        lemma_run_wf(s, d);
        assert(data.take(d.len() as int) =~= d);
        assert(run(s, data.take(d.len() as int)).step_defined(data[d.len() as int]));
        lemma_step_printable(run(s, d), data.last());
    }
}

/// One thing done to a screen: feeding it bytes, or changing its size.
pub enum ScreenOp {
    Feed(Seq<u8>),
    Resize(usize, usize),
}

impl ScreenView {
    /// The screen after a change of size to `width` x `height`: every cell
    /// blank and the cursor at the origin; the colour and a pending
    /// sequence stay as they were.
    pub open spec fn resized(self, width: usize, height: usize) -> ScreenView {
        ScreenView {
            width,
            height,
            cells: blank_cells((width * height) as nat),
            cursor_x: 0,
            cursor_y: 0,
            ..self
        }
    }
}

/// The state after doing `ops`, one after another, from `s`.
pub open spec fn apply_ops(s: ScreenView, ops: Seq<ScreenOp>) -> ScreenView
    decreases ops.len(),
{
    if ops.len() == 0 {
        s
    } else {
        let before = apply_ops(s, ops.drop_last());
        match ops.last() {
            ScreenOp::Feed(data) => run(before, data),
            ScreenOp::Resize(w, h) => before.resized(w, h),
        }
    }
}

/// Every change of size in `ops` is to at least one row and one column,
/// with a cell count that fits in `usize`.
pub open spec fn sizes_ok(ops: Seq<ScreenOp>) -> bool {
    forall|i: int|
        0 <= i < ops.len() ==> match #[trigger] ops[i] {
            ScreenOp::Feed(_) => true,
            ScreenOp::Resize(w, h) => w >= 1 && h >= 1 && w * h <= usize::MAX,
        }
}

/// A screen made with at least one row and one column, then fed any bytes
/// and resized to any sizes of at least one row and one column, always
/// holds `width * height` cells, has its cursor on the grid, and holds no
/// control character in any cell.
pub proof fn lemma_ops_keep_screen(width: usize, height: usize, ops: Seq<ScreenOp>)
    requires
        width >= 1,
        height >= 1,
        width * height <= usize::MAX,
        sizes_ok(ops),
    ensures
        apply_ops(ScreenView::initial(width, height), ops).active(),
        printable_cells(apply_ops(ScreenView::initial(width, height), ops).cells),
    decreases ops.len(),
{
    let s0 = ScreenView::initial(width, height);
    if ops.len() == 0 {
        lemma_blank_printable((width * height) as nat);
    } else {
        let rest = ops.drop_last();
        assert forall|i: int| 0 <= i < rest.len() implies match #[trigger] rest[i] {
            ScreenOp::Feed(_) => true,
            ScreenOp::Resize(w, h) => w >= 1 && h >= 1 && w * h <= usize::MAX,
        } by {
            assert(rest[i] == ops[i]);
        }
        lemma_ops_keep_screen(width, height, rest);
        let before = apply_ops(s0, rest);
        assert(sizes_ok(ops));
        let last = ops[ops.len() - 1];
        match last {
            ScreenOp::Feed(data) => {
                lemma_run_active(before, data);
                lemma_active_feedable(before, data);
                lemma_run_printable(before, data);
            },
            ScreenOp::Resize(w, h) => {
                lemma_blank_printable((w * h) as nat);
            },
        }
    }
}

/// Feeding `a` and then `b` is feeding `a + b`: output may be fed in
/// chunks of any size.
pub proof fn lemma_run_concat(s: ScreenView, a: Seq<u8>, b: Seq<u8>)
    ensures
        run(s, a + b) == run(run(s, a), b),
    decreases b.len(),
{
    if b.len() == 0 {
        assert(a + b =~= a);
    } else {
        assert((a + b).drop_last() =~= a + b.drop_last());
        assert((a + b).last() == b.last());
        lemma_run_concat(s, a, b.drop_last());
    }
}

/// Feeding one more byte is one more step.
pub proof fn lemma_run_push(s: ScreenView, d: Seq<u8>, b: u8)
    ensures
        run(s, d.push(b)) == run(s, d).step(b),
{
    assert(d.push(b).drop_last() =~= d);
}

/// After `ESC [` and `k` parameter bytes, none of them final, the screen
/// is collecting those bytes and nothing else has changed.
proof fn lemma_run_csi_open(s: ScreenView, params: Seq<u8>, k: int)
    requires
        !s.in_esc,
        !s.in_osc,
        0 <= k <= params.len(),
        forall|i: int| 0 <= i < params.len() ==> !is_final_byte(#[trigger] params[i]),
    ensures
        run(s, seq![ESC, CSI_OPEN] + params.take(k)) == (ScreenView {
            in_esc: true,
            in_csi: true,
            esc: params.take(k),
            ..s
        }),
    decreases k,
{
    if k == 0 {
        let d0: Seq<u8> = seq![];
        lemma_run_push(s, d0, ESC);
        lemma_run_push(s, d0.push(ESC), CSI_OPEN);
        assert(seq![ESC, CSI_OPEN] + params.take(0) =~= d0.push(ESC).push(CSI_OPEN));
        assert(run(s, d0.push(ESC).push(CSI_OPEN)) =~= (ScreenView {
            in_esc: true,
            in_csi: true,
            esc: params.take(0),
            ..s
        }));
    } else {
        lemma_run_csi_open(s, params, k - 1);
        let d = seq![ESC, CSI_OPEN] + params.take(k - 1);
        assert(seq![ESC, CSI_OPEN] + params.take(k) =~= d.push(params[k - 1]));
        lemma_run_push(s, d, params[k - 1]);
        assert(params.take(k - 1).push(params[k - 1]) =~= params.take(k));
    }
}

/// A control sequence does not look at or change the parser's fields.
#[verifier::rlimit(40)]
proof fn lemma_control_sequence_parser(s: ScreenView, q: Seq<u8>, p: Seq<usize>, fin: u8)
    ensures
        (ScreenView { in_esc: true, in_csi: true, esc: q, ..s }).control_sequence(p, fin) == (
        ScreenView { in_esc: true, in_csi: true, esc: q, ..s.control_sequence(p, fin) }),
{
    let t = ScreenView { in_esc: true, in_csi: true, esc: q, ..s };
    assert(t.cursor_index() == s.cursor_index());
    assert(t.cleared(0, 0) =~= s.cleared(0, 0));
    assert forall|lo: int, hi: int| t.cleared(lo, hi) == s.cleared(lo, hi) by {
        assert(t.cleared(lo, hi) =~= s.cleared(lo, hi));
    }
    if fin == 74 {
        let m = first_or(p, 0);
        assert(t.erase_display(m) == ScreenView { in_esc: true, in_csi: true, esc: q, ..s.erase_display(m) });
    } else if fin == 75 {
        let m = first_or(p, 0);
        assert(t.erase_line(m) == ScreenView { in_esc: true, in_csi: true, esc: q, ..s.erase_line(m) });
    }
}

/// Feeding `ESC [`, parameter bytes and a final byte runs that control
/// sequence and leaves no sequence pending.
#[verifier::rlimit(40)]
pub proof fn lemma_run_csi(s: ScreenView, params: Seq<u8>, fin: u8)
    requires
        !s.in_esc,
        !s.in_osc,
        forall|i: int| 0 <= i < params.len() ==> !is_final_byte(#[trigger] params[i]),
        is_final_byte(fin),
    ensures
        run(s, seq![ESC, CSI_OPEN] + params + seq![fin]) == (ScreenView {
            in_esc: false,
            in_csi: false,
            esc: seq![],
            ..s.control_sequence(csi_params(params), fin)
        }),
{
    lemma_run_csi_open(s, params, params.len() as int);
    assert(params.take(params.len() as int) =~= params);
    let d = seq![ESC, CSI_OPEN] + params;
    assert(d + seq![fin] =~= d.push(fin));
    lemma_run_push(s, d, fin);
    let t = run(s, d);
    assert(t == ScreenView { in_esc: true, in_csi: true, esc: params, ..s });
    let cs = t.control_sequence(csi_params(params), fin);
    assert(t.step(fin) == ScreenView { in_esc: false, in_csi: false, esc: seq![], ..cs });
    lemma_control_sequence_parser(s, params, csi_params(params), fin);
}

/// How the index of a cell compares with the cursor's index, and whether
/// it lies in the cursor's row.
proof fn lemma_index_order(w: int, h: int, c: int, r: int, cx: int, cy: int)
    requires
        0 <= c < w,
        0 <= r < h,
        0 <= cx < w,
        0 <= cy < h,
    ensures
        (r * w + c >= cy * w + cx) <==> (r > cy || (r == cy && c >= cx)),
        (r * w + c <= cy * w + cx) <==> (r < cy || (r == cy && c <= cx)),
        (cy * w <= r * w + c && r * w + c < cy * w + w) <==> r == cy,
{
    if r < cy {
        assert(r * w + w <= cy * w) by (nonlinear_arith)
            requires
                r < cy,
                0 <= w,
        ;
    } else if r > cy {
        assert(cy * w + w <= r * w) by (nonlinear_arith)
            requires
                r > cy,
                0 <= w,
        ;
    }
}

/// `t` is `s` with exactly the cells where `blank_at(column, row)` holds
/// blanked: size, cursor and colour as they were, no sequence pending.
pub open spec fn erased_where(s: ScreenView, t: ScreenView, blank_at: spec_fn(int, int) -> bool) -> bool {
    &&& t.width == s.width
    &&& t.height == s.height
    &&& t.cells.len() == s.cells.len()
    &&& t.cursor_x == s.cursor_x
    &&& t.cursor_y == s.cursor_y
    &&& t.fg == s.fg
    &&& !t.in_esc
    &&& !t.in_osc
    &&& forall|c: int, r: int|
        0 <= c < s.width && 0 <= r < s.height ==> #[trigger] t.cell(c, r) == (if blank_at(c, r) {
            blank_cell()
        } else {
            s.cell(c, r)
        })
}

proof fn lemma_cleared_where(
    s: ScreenView,
    t: ScreenView,
    lo: int,
    hi: int,
    blank_at: spec_fn(int, int) -> bool,
)
    requires
        s.active(),
        !s.in_osc,
        t == (ScreenView { in_esc: false, in_csi: false, esc: seq![], cells: s.cleared(lo, hi), ..s }),
        forall|c: int, r: int|
            0 <= c < s.width && 0 <= r < s.height ==> (lo <= r * s.width + c < hi) == #[trigger] blank_at(
                c,
                r,
            ),
    ensures
        erased_where(s, t, blank_at),
{
    assert forall|c: int, r: int| 0 <= c < s.width && 0 <= r < s.height implies #[trigger] t.cell(
        c,
        r,
    ) == (if blank_at(c, r) {
        blank_cell()
    } else {
        s.cell(c, r)
    }) by {
        lemma_cell_index(s.width as int, s.height as int, c, r);
        assert(blank_at(c, r) == (lo <= r * s.width + c < hi));
    }
}

#[verifier::rlimit(40)]
proof fn lemma_erase_k0(s: ScreenView)
    requires
        s.active(),
        !s.in_esc,
        !s.in_osc,
    ensures
        erased_where(s, run(s, seq![ESC, CSI_OPEN, 75u8]), |c: int, r: int| r == s.cursor_y && c >= s.cursor_x),
{
    let w = s.width as int;
    let h = s.height as int;
    let cx = s.cursor_x as int;
    let cy = s.cursor_y as int;
    let row = cy * w;
    let at = row + cx;
    let len = s.cells.len() as int;
    lemma_cell_index(w, h, cx, cy);
    let p: Seq<u8> = seq![];
    assert(crate::params::closed_params(p) =~= Seq::<usize>::empty());
    assert(crate::params::last_field(p) =~= p);
    assert(csi_params(p) =~= Seq::<usize>::empty());
    assert(seq![ESC, CSI_OPEN] + p + seq![75u8] =~= seq![ESC, CSI_OPEN, 75u8]);
    lemma_run_csi(s, p, 75u8);
    let blank_at = |c: int, r: int| r == s.cursor_y && c >= s.cursor_x;
    assert forall|c: int, r: int| 0 <= c < w && 0 <= r < h implies (row + cx <= r * w + c < row + w)
        == #[trigger] blank_at(c, r) by {
        lemma_cell_index(w, h, c, r);
        lemma_index_order(w, h, c, r, cx, cy);
    }
    lemma_cleared_where(s, run(s, seq![ESC, CSI_OPEN, 75u8]), row + cx, row + w, blank_at);
}

#[verifier::rlimit(40)]
proof fn lemma_erase_k1(s: ScreenView)
    requires
        s.active(),
        !s.in_esc,
        !s.in_osc,
    ensures
        erased_where(s, run(s, seq![ESC, CSI_OPEN, 49u8, 75u8]), |c: int, r: int| r == s.cursor_y && c <= s.cursor_x),
{
    let w = s.width as int;
    let h = s.height as int;
    let cx = s.cursor_x as int;
    let cy = s.cursor_y as int;
    let row = cy * w;
    let at = row + cx;
    let len = s.cells.len() as int;
    lemma_cell_index(w, h, cx, cy);
    let p: Seq<u8> = seq![49u8];
    lemma_params_single_digit(49u8);
    assert(seq![ESC, CSI_OPEN] + p + seq![75u8] =~= seq![ESC, CSI_OPEN, 49u8, 75u8]);
    lemma_run_csi(s, p, 75u8);
    let blank_at = |c: int, r: int| r == s.cursor_y && c <= s.cursor_x;
    assert forall|c: int, r: int| 0 <= c < w && 0 <= r < h implies (row <= r * w + c < row + cx + 1)
        == #[trigger] blank_at(c, r) by {
        lemma_cell_index(w, h, c, r);
        lemma_index_order(w, h, c, r, cx, cy);
    }
    lemma_cleared_where(s, run(s, seq![ESC, CSI_OPEN, 49u8, 75u8]), row, row + cx + 1, blank_at);
}

#[verifier::rlimit(40)]
proof fn lemma_erase_k2(s: ScreenView)
    requires
        s.active(),
        !s.in_esc,
        !s.in_osc,
    ensures
        erased_where(s, run(s, seq![ESC, CSI_OPEN, 50u8, 75u8]), |c: int, r: int| r == s.cursor_y),
{
    let w = s.width as int;
    let h = s.height as int;
    let cx = s.cursor_x as int;
    let cy = s.cursor_y as int;
    let row = cy * w;
    let at = row + cx;
    let len = s.cells.len() as int;
    lemma_cell_index(w, h, cx, cy);
    let p: Seq<u8> = seq![50u8];
    lemma_params_single_digit(50u8);
    assert(seq![ESC, CSI_OPEN] + p + seq![75u8] =~= seq![ESC, CSI_OPEN, 50u8, 75u8]);
    lemma_run_csi(s, p, 75u8);
    let blank_at = |c: int, r: int| r == s.cursor_y;
    assert forall|c: int, r: int| 0 <= c < w && 0 <= r < h implies (row <= r * w + c < row + w)
        == #[trigger] blank_at(c, r) by {
        lemma_cell_index(w, h, c, r);
        lemma_index_order(w, h, c, r, cx, cy);
    }
    lemma_cleared_where(s, run(s, seq![ESC, CSI_OPEN, 50u8, 75u8]), row, row + w, blank_at);
}

#[verifier::rlimit(40)]
proof fn lemma_erase_j0(s: ScreenView)
    requires
        s.active(),
        !s.in_esc,
        !s.in_osc,
    ensures
        erased_where(s, run(s, seq![ESC, CSI_OPEN, 74u8]), |c: int, r: int| r > s.cursor_y || (r == s.cursor_y && c >= s.cursor_x)),
{
    let w = s.width as int;
    let h = s.height as int;
    let cx = s.cursor_x as int;
    let cy = s.cursor_y as int;
    let row = cy * w;
    let at = row + cx;
    let len = s.cells.len() as int;
    lemma_cell_index(w, h, cx, cy);
    let p: Seq<u8> = seq![];
    assert(crate::params::closed_params(p) =~= Seq::<usize>::empty());
    assert(crate::params::last_field(p) =~= p);
    assert(csi_params(p) =~= Seq::<usize>::empty());
    assert(seq![ESC, CSI_OPEN] + p + seq![74u8] =~= seq![ESC, CSI_OPEN, 74u8]);
    lemma_run_csi(s, p, 74u8);
    let blank_at = |c: int, r: int| r > s.cursor_y || (r == s.cursor_y && c >= s.cursor_x);
    assert forall|c: int, r: int| 0 <= c < w && 0 <= r < h implies (at <= r * w + c < len)
        == #[trigger] blank_at(c, r) by {
        lemma_cell_index(w, h, c, r);
        lemma_index_order(w, h, c, r, cx, cy);
    }
    lemma_cleared_where(s, run(s, seq![ESC, CSI_OPEN, 74u8]), at, len, blank_at);
}

#[verifier::rlimit(40)]
proof fn lemma_erase_j1(s: ScreenView)
    requires
        s.active(),
        !s.in_esc,
        !s.in_osc,
    ensures
        erased_where(s, run(s, seq![ESC, CSI_OPEN, 49u8, 74u8]), |c: int, r: int| r < s.cursor_y || (r == s.cursor_y && c <= s.cursor_x)),
{
    let w = s.width as int;
    let h = s.height as int;
    let cx = s.cursor_x as int;
    let cy = s.cursor_y as int;
    let row = cy * w;
    let at = row + cx;
    let len = s.cells.len() as int;
    lemma_cell_index(w, h, cx, cy);
    let p: Seq<u8> = seq![49u8];
    lemma_params_single_digit(49u8);
    assert(seq![ESC, CSI_OPEN] + p + seq![74u8] =~= seq![ESC, CSI_OPEN, 49u8, 74u8]);
    lemma_run_csi(s, p, 74u8);
    let blank_at = |c: int, r: int| r < s.cursor_y || (r == s.cursor_y && c <= s.cursor_x);
    assert forall|c: int, r: int| 0 <= c < w && 0 <= r < h implies (0 <= r * w + c < at + 1)
        == #[trigger] blank_at(c, r) by {
        lemma_cell_index(w, h, c, r);
        lemma_index_order(w, h, c, r, cx, cy);
    }
    lemma_cleared_where(s, run(s, seq![ESC, CSI_OPEN, 49u8, 74u8]), 0, at + 1, blank_at);
}

/// Erasing blanks exactly the cells it names and changes nothing else:
/// `ESC [ K` from the cursor to the end of its row, `ESC [ 1 K` from the
/// start of its row through the cursor, `ESC [ 2 K` its whole row, `ESC [ J`
/// from the cursor to the end of the screen, `ESC [ 1 J` from the start of
/// the screen through the cursor. Rows other than the cursor's are left
/// alone by the line erases.
pub proof fn lemma_erase_cells(s: ScreenView)
    requires
        s.active(),
        !s.in_esc,
        !s.in_osc,
    ensures
        erased_where(s, run(s, seq![ESC, CSI_OPEN, 75u8]), |c: int, r: int| r == s.cursor_y && c >= s.cursor_x),
        erased_where(s, run(s, seq![ESC, CSI_OPEN, 49u8, 75u8]), |c: int, r: int| r == s.cursor_y && c <= s.cursor_x),
        erased_where(s, run(s, seq![ESC, CSI_OPEN, 50u8, 75u8]), |c: int, r: int| r == s.cursor_y),
        erased_where(s, run(s, seq![ESC, CSI_OPEN, 74u8]), |c: int, r: int| r > s.cursor_y || (r == s.cursor_y && c >= s.cursor_x)),
        erased_where(s, run(s, seq![ESC, CSI_OPEN, 49u8, 74u8]), |c: int, r: int| r < s.cursor_y || (r == s.cursor_y && c <= s.cursor_x)),
{
    lemma_erase_k0(s);
    lemma_erase_k1(s);
    lemma_erase_k2(s);
    lemma_erase_j0(s);
    lemma_erase_j1(s);
}

proof fn lemma_run_osc_open(s: ScreenView, payload: Seq<u8>, k: int)
    requires
        !s.in_esc,
        !s.in_osc,
        0 <= k <= payload.len(),
        forall|i: int| 0 <= i < payload.len() ==> #[trigger] payload[i] != BEL && payload[i] != ESC,
    ensures
        run(s, seq![ESC, OSC_OPEN] + payload.take(k)) == (ScreenView {
            in_esc: false,
            in_csi: false,
            in_osc: true,
            ..s
        }),
    decreases k,
{
    if k == 0 {
        let d0: Seq<u8> = seq![];
        lemma_run_push(s, d0, ESC);
        lemma_run_push(s, d0.push(ESC), OSC_OPEN);
        assert(seq![ESC, OSC_OPEN] + payload.take(0) =~= d0.push(ESC).push(OSC_OPEN));
    } else {
        lemma_run_osc_open(s, payload, k - 1);
        let d = seq![ESC, OSC_OPEN] + payload.take(k - 1);
        assert(seq![ESC, OSC_OPEN] + payload.take(k) =~= d.push(payload[k - 1]));
        lemma_run_push(s, d, payload[k - 1]);
    }
}

/// An OSC sequence (`ESC ]`, a payload without bell or escape, then a bell
/// or `ESC \`) shows nothing: the cells, the cursor and the colour are as
/// before, and no sequence is pending afterwards.
#[verifier::rlimit(40)]
pub proof fn lemma_osc_skipped(s: ScreenView, payload: Seq<u8>)
    requires
        !s.in_esc,
        !s.in_osc,
        forall|i: int| 0 <= i < payload.len() ==> #[trigger] payload[i] != BEL && payload[i] != ESC,
    ensures
        run(s, seq![ESC, OSC_OPEN] + payload + seq![BEL]) == (ScreenView { in_csi: false, ..s }),
        run(s, seq![ESC, OSC_OPEN] + payload + seq![ESC, 92u8]) == (ScreenView { in_csi: false, ..s }),
{
    lemma_run_osc_open(s, payload, payload.len() as int);
    assert(payload.take(payload.len() as int) =~= payload);
    let d = seq![ESC, OSC_OPEN] + payload;
    assert(d + seq![BEL] =~= d.push(BEL));
    lemma_run_push(s, d, BEL);
    assert(run(s, d + seq![BEL]) =~= (ScreenView { in_csi: false, ..s }));
    assert(d + seq![ESC, 92u8] =~= d.push(ESC).push(92u8));
    lemma_run_push(s, d, ESC);
    lemma_run_push(s, d.push(ESC), 92u8);
    assert(run(s, d + seq![ESC, 92u8]) =~= (ScreenView { in_csi: false, ..s }));
}

/// The cursor after a move by `n` from `v` towards 0, stopping at 0.
pub open spec fn moved_back(v: int, n: int) -> int {
    if v >= n {
        v - n
    } else {
        0
    }
}

/// The cursor after a move by `n` from `v` away from 0, stopping at `last`.
pub open spec fn moved_on(v: int, n: int, last: int) -> int {
    if v + n <= last {
        v + n
    } else {
        last
    }
}

/// `ESC [ n A`, `B`, `C`, `D` with a one-digit count `n` from 1 up move the
/// cursor `n` rows up or down or `n` columns right or left, stopping at the
/// edge of the screen, and `ESC [ n H` puts it at the start of row `n`
/// (counted from 1, at most the last row); the cells and the colour stay.
#[verifier::rlimit(40)]
pub proof fn lemma_cursor_moves(s: ScreenView, b: u8)
    requires
        s.active(),
        !s.in_esc,
        !s.in_osc,
        49 <= b <= 57,
    ensures
        ({
            let n = b - 48;
            let up = run(s, seq![ESC, CSI_OPEN, b, 65u8]);
            let down = run(s, seq![ESC, CSI_OPEN, b, 66u8]);
            let right = run(s, seq![ESC, CSI_OPEN, b, 67u8]);
            let left = run(s, seq![ESC, CSI_OPEN, b, 68u8]);
            let home = run(s, seq![ESC, CSI_OPEN, b, 72u8]);
            &&& up.cursor_y == moved_back(s.cursor_y as int, n) && up.cursor_x == s.cursor_x
            &&& down.cursor_y == moved_on(s.cursor_y as int, n, s.height - 1) && down.cursor_x
                == s.cursor_x
            &&& right.cursor_x == moved_on(s.cursor_x as int, n, s.width - 1) && right.cursor_y
                == s.cursor_y
            &&& left.cursor_x == moved_back(s.cursor_x as int, n) && left.cursor_y == s.cursor_y
            &&& home.cursor_y == moved_on(0, n - 1, s.height - 1) && home.cursor_x == 0
            &&& up.cells == s.cells && down.cells == s.cells && right.cells == s.cells
            &&& left.cells == s.cells && home.cells == s.cells
            &&& up.fg == s.fg && down.fg == s.fg && right.fg == s.fg && left.fg == s.fg
            &&& home.fg == s.fg
        }),
{
    let p: Seq<u8> = seq![b];
    lemma_params_single_digit(b);
    assert forall|i: int| 0 <= i < p.len() implies !is_final_byte(#[trigger] p[i]) by {}
    assert(seq![ESC, CSI_OPEN] + p + seq![65u8] =~= seq![ESC, CSI_OPEN, b, 65u8]);
    assert(seq![ESC, CSI_OPEN] + p + seq![66u8] =~= seq![ESC, CSI_OPEN, b, 66u8]);
    assert(seq![ESC, CSI_OPEN] + p + seq![67u8] =~= seq![ESC, CSI_OPEN, b, 67u8]);
    assert(seq![ESC, CSI_OPEN] + p + seq![68u8] =~= seq![ESC, CSI_OPEN, b, 68u8]);
    assert(seq![ESC, CSI_OPEN] + p + seq![72u8] =~= seq![ESC, CSI_OPEN, b, 72u8]);
    lemma_run_csi(s, p, 65u8);
    lemma_run_csi(s, p, 66u8);
    lemma_run_csi(s, p, 67u8);
    lemma_run_csi(s, p, 68u8);
    lemma_run_csi(s, p, 72u8);
}

/// A printable byte outside an escape sequence is written under the cursor
/// in the current colour, every other cell stays as it was, and the cursor
/// moves one column right, or to the start of the next row from the last
/// column (away from the bottom right corner, where the screen scrolls).
pub proof fn lemma_print_stores(s: ScreenView, b: u8)
    requires
        s.active(),
        !s.in_esc,
        !s.in_osc,
        b >= 32,
        !(s.cursor_x + 1 == s.width && s.cursor_y + 1 == s.height),
    ensures
        s.step(b).cell(s.cursor_x as int, s.cursor_y as int) == (ScreenCell { ch: b as char, fg: s.fg }),
        forall|i: int|
            0 <= i < s.cells.len() && i != s.cursor_index() ==> #[trigger] s.step(b).cells[i]
                == s.cells[i],
        s.cursor_x + 1 < s.width ==> s.step(b).cursor_x == s.cursor_x + 1 && s.step(b).cursor_y
            == s.cursor_y,
        s.cursor_x + 1 == s.width ==> s.step(b).cursor_x == 0 && s.step(b).cursor_y == s.cursor_y
            + 1,
{
    lemma_cell_index(s.width as int, s.height as int, s.cursor_x as int, s.cursor_y as int);
}

/// A line feed on the last row scrolls: row `r` shows what row `r + 1`
/// showed, the last row is blank, and the cursor stays on the last row.
pub proof fn lemma_line_feed_scrolls(s: ScreenView)
    requires
        s.active(),
        !s.in_esc,
        !s.in_osc,
        s.cursor_y + 1 == s.height,
    ensures
        s.step(LF).cursor_y == s.cursor_y,
        s.step(LF).cursor_x == s.cursor_x,
        forall|c: int, r: int|
            0 <= c < s.width && 0 <= r < s.height - 1 ==> #[trigger] s.step(LF).cell(c, r) == s.cell(
                c,
                r + 1,
            ),
        forall|c: int| 0 <= c < s.width ==> #[trigger] s.step(LF).cell(c, s.height - 1) == blank_cell(),
{
    let w = s.width as int;
    let h = s.height as int;
    let t = s.step(LF);
    assert(t == s.line_feed());
    assert forall|c: int, r: int| 0 <= c < w && 0 <= r < h - 1 implies #[trigger] t.cell(c, r) == s.cell(
        c,
        r + 1,
    ) by {
        lemma_cell_index(w, h, c, r + 1);
        assert((r + 1) * w == r * w + w) by (nonlinear_arith);
    }
    assert forall|c: int| 0 <= c < w implies #[trigger] t.cell(c, h - 1) == blank_cell() by {
        lemma_cell_index(w, h, c, h - 1);
        assert((h - 1) * w + w == w * h) by (nonlinear_arith);
    }
}

/// `ESC [ 2 J` blanks the whole screen and leaves the cursor, the colour
/// and the parser at rest as they were.
pub proof fn lemma_erase_screen(s: ScreenView)
    requires
        s.active(),
        !s.in_esc,
        !s.in_osc,
    ensures
        ({
            let t = run(s, seq![ESC, CSI_OPEN, 50u8, 74u8]);
            &&& t.cells == blank_cells(s.cells.len())
            &&& t.cursor_x == s.cursor_x
            &&& t.cursor_y == s.cursor_y
            &&& t.fg == s.fg
            &&& !t.in_esc
            &&& !t.in_osc
            &&& t.width == s.width
            &&& t.height == s.height
        }),
{
    let d0: Seq<u8> = seq![];
    let d1 = d0.push(ESC);
    let d2 = d1.push(CSI_OPEN);
    let d3 = d2.push(50u8);
    let d4 = d3.push(74u8);
    assert(d4 =~= seq![ESC, CSI_OPEN, 50u8, 74u8]);
    lemma_run_push(s, d0, ESC);
    lemma_run_push(s, d1, CSI_OPEN);
    lemma_run_push(s, d2, 50u8);
    lemma_run_push(s, d3, 74u8);
    let e: Seq<u8> = seq![50u8];
    assert(run(s, d3).esc =~= e);
    lemma_params_single_digit(50u8);
    let t = run(s, d4);
    assert(t.cells =~= blank_cells(s.cells.len()));
}

/// The parameters of a sequence whose parameter bytes are one digit are
/// that digit's value.
pub proof fn lemma_params_single_digit(b: u8)
    requires
        48 <= b <= 57,
    ensures
        csi_params(seq![b]) == seq![(b - 48) as usize],
{
    let e: Seq<u8> = seq![b];
    let empty: Seq<u8> = seq![];
    assert(e.drop_last() =~= empty);
    assert(e.last() == b);
    assert(crate::params::last_field(empty) =~= empty);
    assert(empty.push(b) =~= e);
    assert(crate::params::last_field(e) =~= e);
    assert(crate::params::digits_value(empty) == 0);
    assert(crate::params::closed_params(empty) =~= Seq::<usize>::empty());
    assert(crate::params::unsigned_digits(e) =~= e);
    assert(crate::params::digits_value(e) == (b - 48) as nat);
    assert(crate::params::closed_params(e) =~= Seq::<usize>::empty());
    assert(csi_params(e) =~= seq![(b - 48) as usize]);
}

/// `ESC [ H` puts the cursor in the top left corner and changes nothing
/// else on the screen.
pub proof fn lemma_cursor_home(s: ScreenView)
    requires
        s.active(),
        !s.in_esc,
        !s.in_osc,
    ensures
        ({
            let t = run(s, seq![ESC, CSI_OPEN, 72u8]);
            &&& t.cursor_x == 0
            &&& t.cursor_y == 0
            &&& t.cells == s.cells
            &&& t.fg == s.fg
            &&& !t.in_esc
            &&& !t.in_osc
        }),
{
    let d0: Seq<u8> = seq![];
    let d1 = d0.push(ESC);
    let d2 = d1.push(CSI_OPEN);
    let d3 = d2.push(72u8);
    assert(d3 =~= seq![ESC, CSI_OPEN, 72u8]);
    lemma_run_push(s, d0, ESC);
    lemma_run_push(s, d1, CSI_OPEN);
    lemma_run_push(s, d2, 72u8);
    let empty: Seq<u8> = seq![];
    assert(run(s, d2).esc =~= empty);
    assert(crate::params::closed_params(empty) =~= Seq::<usize>::empty());
    assert(crate::params::last_field(empty) =~= empty);
    assert(csi_params(empty) =~= Seq::<usize>::empty());
}

/// `ESC [ m` and `ESC [ 0 m` bring back the default colour and change
/// nothing else on the screen.
pub proof fn lemma_color_reset(s: ScreenView)
    requires
        s.active(),
        !s.in_esc,
        !s.in_osc,
    ensures
        run(s, seq![ESC, CSI_OPEN, 109u8]).fg == default_fg(),
        run(s, seq![ESC, CSI_OPEN, 109u8]).cells == s.cells,
        run(s, seq![ESC, CSI_OPEN, 48u8, 109u8]).fg == default_fg(),
        run(s, seq![ESC, CSI_OPEN, 48u8, 109u8]).cells == s.cells,
{
    let d0: Seq<u8> = seq![];
    let d1 = d0.push(ESC);
    let d2 = d1.push(CSI_OPEN);
    let d3 = d2.push(109u8);
    let z3 = d2.push(48u8);
    let z4 = z3.push(109u8);
    assert(d3 =~= seq![ESC, CSI_OPEN, 109u8]);
    assert(z4 =~= seq![ESC, CSI_OPEN, 48u8, 109u8]);
    lemma_run_push(s, d0, ESC);
    lemma_run_push(s, d1, CSI_OPEN);
    lemma_run_push(s, d2, 109u8);
    lemma_run_push(s, d2, 48u8);
    lemma_run_push(s, z3, 109u8);
    let empty: Seq<u8> = seq![];
    assert(run(s, d2).esc =~= empty);
    assert(crate::params::closed_params(empty) =~= Seq::<usize>::empty());
    assert(crate::params::last_field(empty) =~= empty);
    assert(csi_params(empty) =~= Seq::<usize>::empty());
    let zero: Seq<u8> = seq![48u8];
    assert(run(s, z3).esc =~= zero);
    lemma_params_single_digit(48u8);
    let p: Seq<usize> = seq![0usize];
    assert(crate::sgr::sgr_from(default_fg(), p, 1) == default_fg());
    assert(crate::sgr::sgr_from(s.fg, p, 0) == default_fg());
}

/// The cursor, the colour and the escape sequence being read: the part of
/// a screen's state that only the screen's own operations change.
pub struct ParserState {
    cursor_x: usize,
    cursor_y: usize,
    esc_buf: Vec<u8>,
    in_esc: bool,
    in_csi: bool,
    in_osc: bool,
    current_fg: (u8, u8, u8),
}

impl ParserState {
    pub closed spec fn spec_cursor_x(&self) -> usize {
        self.cursor_x
    }

    pub closed spec fn spec_cursor_y(&self) -> usize {
        self.cursor_y
    }

    pub closed spec fn spec_esc(&self) -> Seq<u8> {
        self.esc_buf@
    }

    pub closed spec fn spec_in_esc(&self) -> bool {
        self.in_esc
    }

    pub closed spec fn spec_in_csi(&self) -> bool {
        self.in_csi
    }

    pub closed spec fn spec_in_osc(&self) -> bool {
        self.in_osc
    }

    pub closed spec fn spec_fg(&self) -> (u8, u8, u8) {
        self.current_fg
    }
}

/// A virtual terminal screen fed with the output of a shell.
pub struct Screen {
    pub width: usize,
    pub height: usize,
    pub cells: Vec<ScreenCell>,
    pub parser: ParserState,
}

impl View for Screen {
    type V = ScreenView;

    open spec fn view(&self) -> ScreenView {
        ScreenView {
            width: self.width,
            height: self.height,
            cells: self.cells@,
            cursor_x: self.parser.spec_cursor_x(),
            cursor_y: self.parser.spec_cursor_y(),
            esc: self.parser.spec_esc(),
            in_esc: self.parser.spec_in_esc(),
            in_csi: self.parser.spec_in_csi(),
            in_osc: self.parser.spec_in_osc(),
            fg: self.parser.spec_fg(),
        }
    }
}

/// A vector of `n` blank cells.
fn new_blank_cells(n: usize) -> (v: Vec<ScreenCell>)
    ensures
        v@ == blank_cells(n as nat),
{
    let mut v: Vec<ScreenCell> = Vec::new();
    let mut i: usize = 0;
    while i < n
        invariant
            i <= n,
            v@ == blank_cells(i as nat),
        decreases n - i,
    {
        v.push(ScreenCell::blank());
        i = i + 1;
        assert(v@ =~= blank_cells(i as nat));
    }
    v
}

impl Screen {
    /// A blank screen of `width` columns and `height` rows.
    pub fn new(width: usize, height: usize) -> (s: Self)
        requires
            width * height <= usize::MAX,
        ensures
            s@ == ScreenView::initial(width, height),
            s@.wf(),
            printable_cells(s@.cells),
    {
        let cells = new_blank_cells(width * height);
        let s = Screen {
            width,
            height,
            cells,
            parser: ParserState {
                cursor_x: 0,
                cursor_y: 0,
                esc_buf: Vec::new(),
                in_esc: false,
                in_csi: false,
                in_osc: false,
                current_fg: (200, 200, 200),
            },
        };
        assert(s@ =~= ScreenView::initial(width, height));
        proof {
            lemma_blank_printable((width * height) as nat);
        }
        s
    }

    /// The cursor as (column, row).
    pub fn cursor_pos(&self) -> (r: (usize, usize))
        ensures
            r == (self@.cursor_x, self@.cursor_y),
    {
        (self.parser.cursor_x, self.parser.cursor_y)
    }

    /// The cell at column `col` of row `row`; a blank cell off the grid.
    pub fn cell_at(&self, col: usize, row: usize) -> (c: ScreenCell)
        requires
            self@.cells.len() == self@.width * self@.height,
        ensures
            c == (if col < self@.width && row < self@.height {
                self@.cell(col as int, row as int)
            } else {
                blank_cell()
            }),
    {
        let len = self.cells.len();
        if col < self.width && row < self.height {
            proof {
                lemma_cell_index(self.width as int, self.height as int, col as int, row as int);
            }
            self.cells[row * self.width + col]
        } else {
            ScreenCell::blank()
        }
    }

    /// Whether byte `b` can be fed now (see [`ScreenView::step_defined`]):
    /// always on a screen with rows and columns.
    pub fn accepts(&self, b: u8) -> (ok: bool)
        ensures
            ok == self@.step_defined(b),
    {
        let w = self.width;
        let h = self.height;
        if self.parser.in_osc {
            true
        } else if self.parser.in_esc {
            if self.parser.in_csi && 64 <= b && b <= 126 {
                let params = parse_params(&self.parser.esc_buf);
                let mode: usize = if params.len() > 0 {
                    params[0]
                } else {
                    0
                };
                if b == 72 || b == 102 {
                    w > 0 && h > 0
                } else if b == 66 {
                    h > 0
                } else if b == 67 {
                    w > 0
                } else if b == 74 {
                    mode != 1 || (w > 0 && h > 0)
                } else if b == 75 {
                    (mode != 0 || self.parser.cursor_x >= w || h > 0) && (mode != 1 || (w > 0
                        && h > 0)) && (mode != 2 || w == 0 || h > 0)
                } else {
                    true
                }
            } else {
                true
            }
        } else if b == LF {
            h > 0
        } else if b == TAB {
            w > 0
        } else {
            true
        }
    }

    /// Feeds the bytes that the shell wrote, in order.
    pub fn feed(&mut self, data: &[u8])
        requires
            old(self)@.wf(),
            feedable(old(self)@, data@),
        ensures
            final(self)@ == run(old(self)@, data@),
            final(self)@.wf(),
            final(self)@.width == old(self)@.width,
            final(self)@.height == old(self)@.height,
            printable_cells(old(self)@.cells) ==> printable_cells(final(self)@.cells),
    {
        let ghost s0 = self@;
        let mut i: usize = 0;
        while i < data.len()
            invariant
                i <= data@.len(),
                self@ == run(s0, data@.take(i as int)),
                self@.wf(),
                self@.width == s0.width,
                self@.height == s0.height,
                feedable(s0, data@),
                printable_cells(s0.cells) ==> printable_cells(self@.cells),
            decreases data@.len() - i,
        {
            proof {
                assert(data@.take(i + 1).drop_last() =~= data@.take(i as int));
                assert(run(s0, data@.take(i as int)).step_defined(data@[i as int]));
                if printable_cells(s0.cells) {
                    lemma_step_printable(self@, data@[i as int]);
                }
            }
            self.process_byte(data[i]);
            i = i + 1;
        }
        assert(data@.take(data@.len() as int) =~= data@);
    }

    fn process_byte(&mut self, b: u8)
        requires
            old(self)@.wf(),
            old(self)@.step_defined(b),
        ensures
            final(self)@ == old(self)@.step(b),
            final(self)@.wf(),
            final(self)@.width == old(self)@.width,
            final(self)@.height == old(self)@.height,
    {
        proof {
            lemma_step_wf(self@, b);
        }
        let ghost s0 = self@;
        if self.parser.in_osc {
            if b == BEL {
                self.parser.in_osc = false;
            } else if b == ESC {
                self.parser.in_osc = false;
                self.parser.in_esc = true;
                self.parser.in_csi = false;
            }
            assert(self@ =~= s0.step(b));
            return;
        }
        if self.parser.in_esc {
            if self.parser.in_csi {
                if 64 <= b && b <= 126 {
                    self.handle_csi(b);
                    self.parser.in_esc = false;
                    self.parser.in_csi = false;
                    self.parser.esc_buf.clear();
                    assert(self@ =~= s0.step(b));
                } else {
                    self.parser.esc_buf.push(b);
                    assert(self@ =~= s0.step(b));
                }
            } else if b == CSI_OPEN {
                self.parser.in_csi = true;
                self.parser.esc_buf.clear();
                assert(self@ =~= s0.step(b));
            } else if b == OSC_OPEN {
                self.parser.in_esc = false;
                self.parser.in_osc = true;
                assert(self@ =~= s0.step(b));
            } else {
                self.parser.in_esc = false;
                assert(self@ =~= s0.step(b));
            }
            return;
        }
        if b == ESC {
            self.parser.in_esc = true;
            self.parser.in_csi = false;
        } else if b == LF {
            self.line_feed();
        } else if b == CR {
            self.parser.cursor_x = 0;
        } else if b == BS {
            if self.parser.cursor_x > 0 {
                self.parser.cursor_x = self.parser.cursor_x - 1;
            }
        } else if b == TAB {
            let next_block = self.parser.cursor_x / 8 + 1;
            if next_block > (self.width - 1) / 8 {
                self.parser.cursor_x = self.width - 1;
            } else {
                self.parser.cursor_x = next_block * 8;
            }
        } else if b >= 32 {
            self.print(b);
        }
        assert(self@ =~= s0.step(b));
    }

    fn print(&mut self, b: u8)
        requires
            old(self)@.wf(),
        ensures
            final(self)@ == old(self)@.print(b),
    {
        let ghost s0 = self@;
        if self.parser.cursor_x < self.width && self.parser.cursor_y < self.height {
            proof {
                lemma_cell_index(
                    self.width as int,
                    self.height as int,
                    self.parser.cursor_x as int,
                    self.parser.cursor_y as int,
                );
            }
            let idx = self.parser.cursor_y * self.width + self.parser.cursor_x;
            self.cells.set(idx, ScreenCell { ch: b as char, fg: self.parser.current_fg });
            if self.parser.cursor_x + 1 >= self.width {
                self.parser.cursor_x = 0;
                self.line_feed();
            } else {
                self.parser.cursor_x = self.parser.cursor_x + 1;
            }
        }
        assert(self@ =~= s0.print(b));
    }

    fn line_feed(&mut self)
        requires
            old(self)@.wf(),
            old(self).height > 0,
            old(self).parser.cursor_y < old(self).height,
        ensures
            final(self)@ == old(self)@.line_feed(),
    {
        let ghost s0 = self@;
        if self.parser.cursor_y + 1 >= self.height {
            self.scroll_up();
            self.parser.cursor_y = self.height - 1;
        } else {
            self.parser.cursor_y = self.parser.cursor_y + 1;
        }
        assert(self@ =~= s0.line_feed());
    }

    fn scroll_up(&mut self)
        requires
            old(self)@.wf(),
            old(self).height > 0,
        ensures
            final(self)@ == (ScreenView { cells: old(self)@.scrolled(), ..old(self)@ }),
    {
        let ghost s0 = self@;
        let w = self.width;
        let n = self.cells.len();
        proof {
            assert(w <= n) by (nonlinear_arith)
                requires
                    n == w * self.height,
                    self.height > 0,
            ;
        }
        let mut i: usize = 0;
        while i < n - w
            invariant
                w <= n,
                w == self.width,
                n == s0.cells.len(),
                self.cells@.len() == n,
                i <= n - w,
                forall|j: int| 0 <= j < i ==> self.cells@[j] == s0.cells[j + w],
                forall|j: int| i <= j < n ==> self.cells@[j] == s0.cells[j],
                self.width == s0.width,
                self.height == s0.height,
                self.parser.cursor_x == s0.cursor_x,
                self.parser.cursor_y == s0.cursor_y,
                self.parser.esc_buf@ == s0.esc,
                self.parser.in_esc == s0.in_esc,
                self.parser.in_csi == s0.in_csi,
                self.parser.in_osc == s0.in_osc,
                self.parser.current_fg == s0.fg,
            decreases n - w - i,
        {
            let c = self.cells[i + w];
            self.cells.set(i, c);
            i = i + 1;
        }
        while i < n
            invariant
                w <= n,
                n - w <= i <= n,
                self.cells@.len() == n,
                forall|j: int| 0 <= j < n - w ==> self.cells@[j] == s0.cells[j + w],
                forall|j: int| n - w <= j < i ==> self.cells@[j] == blank_cell(),
                self.width == s0.width,
                self.height == s0.height,
                self.parser.cursor_x == s0.cursor_x,
                self.parser.cursor_y == s0.cursor_y,
                self.parser.esc_buf@ == s0.esc,
                self.parser.in_esc == s0.in_esc,
                self.parser.in_csi == s0.in_csi,
                self.parser.in_osc == s0.in_osc,
                self.parser.current_fg == s0.fg,
            decreases n - i,
        {
            self.cells.set(i, ScreenCell::blank());
            i = i + 1;
        }
        assert(self.cells@ =~= s0.scrolled());
        assert(self@ =~= (ScreenView { cells: s0.scrolled(), ..s0 }));
    }

    /// Blanks the cells at indices `lo..hi`.
    fn clear_range(&mut self, lo: usize, hi: usize)
        requires
            lo <= hi <= old(self).cells@.len(),
        ensures
            final(self)@ == (ScreenView { cells: old(self)@.cleared(lo as int, hi as int), ..old(self)@ }),
    {
        let ghost s0 = self@;
        let mut i = lo;
        while i < hi
            invariant
                lo <= i <= hi <= s0.cells.len(),
                self.cells@.len() == s0.cells.len(),
                forall|j: int|
                    0 <= j < s0.cells.len() ==> self.cells@[j] == (if lo <= j < i {
                        blank_cell()
                    } else {
                        s0.cells[j]
                    }),
                self.width == s0.width,
                self.height == s0.height,
                self.parser.cursor_x == s0.cursor_x,
                self.parser.cursor_y == s0.cursor_y,
                self.parser.esc_buf@ == s0.esc,
                self.parser.in_esc == s0.in_esc,
                self.parser.in_csi == s0.in_csi,
                self.parser.in_osc == s0.in_osc,
                self.parser.current_fg == s0.fg,
            decreases hi - i,
        {
            self.cells.set(i, ScreenCell::blank());
            i = i + 1;
        }
        assert(self.cells@ =~= s0.cleared(lo as int, hi as int));
        assert(self@ =~= (ScreenView { cells: s0.cleared(lo as int, hi as int), ..s0 }));
    }

    fn handle_csi(&mut self, fin: u8)
        requires
            old(self)@.wf(),
            old(self)@.csi_defined(csi_params(old(self)@.esc), fin),
        ensures
            final(self)@ == old(self)@.control_sequence(csi_params(old(self)@.esc), fin),
    {
        let ghost s0 = self@;
        let params = parse_params(&self.parser.esc_buf);
        let ghost p = params@;
        let w = self.width;
        let h = self.height;
        proof {
            if w > 0 && h > 0 {
                lemma_cell_index(
                    w as int,
                    h as int,
                    self.parser.cursor_x as int,
                    self.parser.cursor_y as int,
                );
            } else {
                assert(self.parser.cursor_y * w == 0) by (nonlinear_arith)
                    requires
                        w == 0 || self.parser.cursor_y == 0,
                ;
            }
        }
        let first1: usize = if params.len() > 0 {
            params[0]
        } else {
            1
        };
        let n: usize = if first1 >= 1 {
            first1
        } else {
            1
        };
        let mode: usize = if params.len() > 0 {
            params[0]
        } else {
            0
        };
        if fin == 72 || fin == 102 {
            let second1: usize = if params.len() > 1 {
                params[1]
            } else {
                1
            };
            let row = if first1 > 0 {
                first1 - 1
            } else {
                0
            };
            let col = if second1 > 0 {
                second1 - 1
            } else {
                0
            };
            self.parser.cursor_y = if row <= h - 1 {
                row
            } else {
                h - 1
            };
            self.parser.cursor_x = if col <= w - 1 {
                col
            } else {
                w - 1
            };
        } else if fin == 65 {
            self.parser.cursor_y = if self.parser.cursor_y >= n {
                self.parser.cursor_y - n
            } else {
                0
            };
        } else if fin == 66 {
            self.parser.cursor_y = if n >= h - 1 - self.parser.cursor_y {
                h - 1
            } else {
                self.parser.cursor_y + n
            };
        } else if fin == 67 {
            self.parser.cursor_x = if n >= w - 1 - self.parser.cursor_x {
                w - 1
            } else {
                self.parser.cursor_x + n
            };
        } else if fin == 68 {
            self.parser.cursor_x = if self.parser.cursor_x >= n {
                self.parser.cursor_x - n
            } else {
                0
            };
        } else if fin == 74 {
            let at = self.parser.cursor_y * w + self.parser.cursor_x;
            let len = self.cells.len();
            if mode == 0 {
                if at < len {
                    self.clear_range(at, len);
                } else {
                    assert(s0.cleared(at as int, len as int) =~= s0.cells);
                }
            } else if mode == 1 {
                let end = if at <= len - 1 {
                    at
                } else {
                    len - 1
                };
                self.clear_range(0, end + 1);
            } else if mode == 2 || mode == 3 {
                self.clear_range(0, len);
            }
        } else if fin == 75 {
            let row_start = self.parser.cursor_y * w;
            if mode == 0 {
                if self.parser.cursor_x < w {
                    self.clear_range(row_start + self.parser.cursor_x, row_start + w);
                } else {
                    assert(s0.cleared(row_start + self.parser.cursor_x, row_start + w)
                        =~= s0.cells);
                }
            } else if mode == 1 {
                let last = if self.parser.cursor_x <= w - 1 {
                    self.parser.cursor_x
                } else {
                    w - 1
                };
                self.clear_range(row_start, row_start + last + 1);
            } else if mode == 2 {
                if w > 0 {
                    self.clear_range(row_start, row_start + w);
                } else {
                    assert(s0.cleared(row_start as int, row_start as int) =~= s0.cells);
                }
            }
        } else if fin == 109 {
            self.parser.current_fg = select_graphic_rendition(self.parser.current_fg, &params);
        }
        assert(self@ =~= s0.control_sequence(p, fin));
    }

    /// Changes the size to `width` columns and `height` rows: every cell
    /// blank and the cursor at the origin; the colour and a pending
    /// sequence stay as they were.
    pub fn resize(&mut self, width: usize, height: usize)
        requires
            width * height <= usize::MAX,
        ensures
            final(self)@ == old(self)@.resized(width, height),
            final(self)@.wf(),
            printable_cells(final(self)@.cells),
    {
        let ghost s0 = self@;
        self.width = width;
        self.height = height;
        self.cells = new_blank_cells(width * height);
        self.parser.cursor_x = 0;
        self.parser.cursor_y = 0;
        assert(self@ =~= (ScreenView {
            width,
            height,
            cells: blank_cells((width * height) as nat),
            cursor_x: 0,
            cursor_y: 0,
            ..s0
        }));
        proof {
            lemma_blank_printable((width * height) as nat);
        }
    }
}

/// The characters on the screen as a text grid of the screen's size, so
/// that an effect can be laid over what the shell shows.
pub fn screen_to_grid(screen: &Screen) -> (g: TextGrid)
    requires
        screen@.cells.len() == screen@.width * screen@.height,
    ensures
        g.width == screen@.width,
        g.height == screen@.height,
        g.rows() == Seq::new(
            screen@.height as nat,
            |r: int| Seq::new(screen@.width as nat, |c: int| screen@.cell(c, r).ch),
        ),
        forall|c: int, r: int|
            0 <= c < screen@.width && 0 <= r < screen@.height ==> #[trigger] g.spec_char_at(c, r)
                == screen@.cell(c, r).ch,
{
    let w = screen.width;
    let h = screen.height;
    let ghost s = screen@;
    let mut chars: Vec<Vec<char>> = Vec::new();
    let mut row: usize = 0;
    while row < h
        invariant
            w == s.width,
            h == s.height,
            s == screen@,
            s.cells.len() == s.width * s.height,
            row <= h,
            chars@.len() == row,
            forall|r: int|
                0 <= r < row ==> #[trigger] chars@[r]@ == Seq::new(w as nat, |c: int| s.cell(c, r).ch),
        decreases h - row,
    {
        let mut line: Vec<char> = Vec::new();
        let mut col: usize = 0;
        while col < w
            invariant
                w == s.width,
                h == s.height,
                s == screen@,
                s.cells.len() == s.width * s.height,
                row < h,
                col <= w,
                line@ == Seq::new(col as nat, |c: int| s.cell(c, row as int).ch),
            decreases w - col,
        {
            let cell = screen.cell_at(col, row);
            line.push(cell.ch);
            col = col + 1;
            assert(line@ =~= Seq::new(col as nat, |c: int| s.cell(c, row as int).ch));
        }
        chars.push(line);
        row = row + 1;
    }
    let g = TextGrid { chars, width: w, height: h };
    assert(g.rows() =~= Seq::new(h as nat, |r: int| Seq::new(w as nat, |c: int| s.cell(c, r).ch)));
    g
}

} // verus!
