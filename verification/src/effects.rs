//! What every effect shares: the coloured cell an effect draws, the grid of
//! text that an effect is laid over, and the names of the effects.

use vstd::prelude::*;

verus! {

/// One coloured character cell of a frame.
#[derive(Clone, Copy)]
pub struct Cell {
    pub ch: char,
    pub fg: (u8, u8, u8),
    pub bg: (u8, u8, u8),
}

/// A space, black on black.
pub open spec fn blank_frame_cell() -> Cell {
    Cell { ch: ' ', fg: (0, 0, 0), bg: (0, 0, 0) }
}

impl Cell {
    /// A space, black on black.
    pub fn blank() -> (c: Self)
        ensures
            c == blank_frame_cell(),
    {
        Cell { ch: ' ', fg: (0, 0, 0), bg: (0, 0, 0) }
    }
}

/// `'\n'`
pub const NEWLINE: char = '\n';

/// `'\r'`
pub const CARRIAGE_RETURN: char = '\r';

/// The characters after the last line feed (all of them when there is none).
pub open spec fn open_line(s: Seq<char>) -> Seq<char>
    decreases s.len(),
{
    if s.len() == 0 {
        seq![]
    } else if s.last() == NEWLINE {
        seq![]
    } else {
        open_line(s.drop_last()).push(s.last())
    }
}

/// A line without the carriage return that ended it, if one did.
pub open spec fn strip_cr(l: Seq<char>) -> Seq<char> {
    if l.len() > 0 && l.last() == CARRIAGE_RETURN {
        l.drop_last()
    } else {
        l
    }
}

/// The lines that a line feed has ended, each without its `\n` or `\r\n`.
pub open spec fn ended_lines(s: Seq<char>) -> Seq<Seq<char>>
    decreases s.len(),
{
    if s.len() == 0 {
        seq![]
    } else if s.last() == NEWLINE {
        ended_lines(s.drop_last()).push(strip_cr(open_line(s.drop_last())))
    } else {
        ended_lines(s.drop_last())
    }
}

/// The lines of a text as `str::lines` gives them: split at `\n` or
/// `\r\n`, line endings left out, the final line ending optional (a text
/// that ends with one has no empty last line; an empty text has no lines).
pub open spec fn text_lines(s: Seq<char>) -> Seq<Seq<char>> {
    if open_line(s).len() > 0 {
        ended_lines(s).push(open_line(s))
    } else {
        ended_lines(s)
    }
}

/// The character at column `col` of line `row`, a space past the end.
pub open spec fn line_char(lines: Seq<Seq<char>>, col: int, row: int) -> char {
    if 0 <= row < lines.len() && 0 <= col < lines[row].len() {
        lines[row][col]
    } else {
        ' '
    }
}

/// A grid of characters, one row per line of text.
#[derive(Clone)]
pub struct TextGrid {
    pub chars: Vec<Vec<char>>,
    pub width: usize,
    pub height: usize,
}

impl TextGrid {
    /// The rows of the grid as sequences.
    pub open spec fn rows(&self) -> Seq<Seq<char>> {
        self.chars@.map_values(|r: Vec<char>| r@)
    }

    /// The character at column `col` of row `row`, a space off the grid.
    pub open spec fn spec_char_at(&self, col: int, row: int) -> char {
        line_char(self.rows(), col, row)
    }

    /// Lays `text` out on a grid of `height` rows of `width` characters:
    /// line `r` of the text fills row `r` from the left, cut off at `width`
    /// and padded with spaces; rows past the last line are spaces.
    pub fn from_text(text: &str, width: usize, height: usize) -> (g: Self)
        ensures
            g.width == width,
            g.height == height,
            g.rows() == Seq::new(
                height as nat,
                |r: int| Seq::new(width as nat, |c: int| line_char(text_lines(text@), c, r)),
            ),
    {
        let lines = split_lines(text);
        let ghost ls = text_lines(text@);
        let mut chars: Vec<Vec<char>> = Vec::new();
        let mut row: usize = 0;
        while row < height
            invariant
                row <= height,
                lines@.len() == ls.len(),
                forall|i: int| 0 <= i < ls.len() ==> #[trigger] lines@[i]@ == ls[i],
                chars@.len() == row,
                forall|r: int|
                    0 <= r < row ==> #[trigger] chars@[r]@ == Seq::new(
                        width as nat,
                        |c: int| line_char(ls, c, r),
                    ),
            decreases height - row,
        {
            let mut line_chars: Vec<char> = Vec::new();
            let mut col: usize = 0;
            while col < width
                invariant
                    row < height,
                    col <= width,
                    lines@.len() == ls.len(),
                    forall|i: int| 0 <= i < ls.len() ==> #[trigger] lines@[i]@ == ls[i],
                    line_chars@ == Seq::new(col as nat, |c: int| line_char(ls, c, row as int)),
                decreases width - col,
            {
                let ch = if row < lines.len() && col < lines[row].len() {
                    lines[row][col]
                } else {
                    ' '
                };
                line_chars.push(ch);
                col = col + 1;
                assert(line_chars@ =~= Seq::new(col as nat, |c: int| line_char(ls, c, row as int)));
            }
            chars.push(line_chars);
            row = row + 1;
        }
        let g = TextGrid { chars, width, height };
        assert(g.rows() =~= Seq::new(
            height as nat,
            |r: int| Seq::new(width as nat, |c: int| line_char(ls, c, r)),
        ));
        g
    }

    /// The character at column `col` of row `row`, a space off the grid.
    pub fn char_at(&self, col: usize, row: usize) -> (c: char)
        ensures
            c == self.spec_char_at(col as int, row as int),
    {
        if row < self.chars.len() && col < self.chars[row].len() {
            self.chars[row][col]
        } else {
            ' '
        }
    }

    /// Whether the cell holds text, i.e. something other than a space.
    pub fn has_char(&self, col: usize, row: usize) -> (b: bool)
        ensures
            b == (self.spec_char_at(col as int, row as int) != ' '),
    {
        self.char_at(col, row) != ' '
    }
}

/// Splits a text into its lines as `str::lines` does.
fn split_lines(text: &str) -> (lines: Vec<Vec<char>>)
    ensures
        lines@.len() == text_lines(text@).len(),
        forall|i: int| 0 <= i < lines@.len() ==> #[trigger] lines@[i]@ == text_lines(text@)[i],
{
    let mut done: Vec<Vec<char>> = Vec::new();
    let mut cur: Vec<char> = Vec::new();
    for ch in it: text.chars()
        invariant
            it.seq() == text@,
            done@.len() == ended_lines(it.seq().take(it.index())).len(),
            forall|i: int|
                0 <= i < done@.len() ==> #[trigger] done@[i]@ == ended_lines(
                    it.seq().take(it.index()),
                )[i],
            cur@ == open_line(it.seq().take(it.index())),
    {
        let ghost pre = it.seq().take(it.index());
        assert(it.seq().take(it.index() + 1).drop_last() =~= pre);
        if ch == '\n' {
            let n = cur.len();
            if n > 0 && cur[n - 1] == '\r' {
                cur.pop();
            }
            assert(cur@ =~= strip_cr(open_line(pre)));
            done.push(cur);
            cur = Vec::new();
            assert(cur@ =~= open_line(it.seq().take(it.index() + 1)));
        } else {
            cur.push(ch);
        }
    }
    assert(text@.take(text@.len() as int) =~= text@);
    if cur.len() > 0 {
        done.push(cur);
    }
    done
}

/// The character at column `col` of row `row` of the text, if there is
/// one, and a space where there is none.
pub open spec fn text_char(text: Option<TextGrid>, col: int, row: int) -> char {
    match text {
        Some(g) => g.spec_char_at(col, row),
        None => ' ',
    }
}

pub(crate) fn holds_text(text: &Option<TextGrid>, col: usize, row: usize) -> (b: bool)
    ensures
        b == (text_char(*text, col as int, row as int) != ' '),
{
    match text {
        Some(g) => g.has_char(col, row),
        None => false,
    }
}

/// Index of column `x` in row `y` of a grid `w` cells wide.
pub fn idx(w: usize, x: usize, y: usize) -> (i: usize)
    requires
        y * w + x <= usize::MAX,
    ensures
        i == y * w + x,
{
    y * w + x
}

/// The cells of a `width` x `height` frame with the text of `grid` drawn
/// over them: where the grid holds text (anything but a space) the cell
/// shows that character in `fg` on `bg`; other cells, and any past the
/// frame, are unchanged.
pub open spec fn with_text(
    cells: Seq<Cell>,
    grid: TextGrid,
    width: int,
    height: int,
    fg: (u8, u8, u8),
    bg: (u8, u8, u8),
) -> Seq<Cell> {
    Seq::new(
        cells.len(),
        |i: int|
            {
                let ch = grid.spec_char_at(i % width, i / width);
                if i < width * height && ch != ' ' {
                    Cell { ch, fg, bg }
                } else {
                    cells[i]
                }
            },
    )
}

/// Draws the text of `grid` over a `width` x `height` frame of `cells`,
/// in `fg` on `bg`.
pub fn overlay_text(
    cells: &mut Vec<Cell>,
    grid: &TextGrid,
    width: usize,
    height: usize,
    fg: (u8, u8, u8),
    bg: (u8, u8, u8),
)
    requires
        old(cells)@.len() >= width * height,
    ensures
        final(cells)@ == with_text(old(cells)@, *grid, width as int, height as int, fg, bg),
{
    let ghost old_cells = cells@;
    let n = cells.len();
    if width == 0 {
        assert(cells@ =~= with_text(old_cells, *grid, width as int, height as int, fg, bg));
        return;
    }
    proof {
        assert(width * height <= n);
    }
    let m = width * height;
    let mut k: usize = 0;
    while k < m
        invariant
            0 < width,
            m == width * height,
            m <= n,
            n == old_cells.len(),
            cells@.len() == n,
            k <= m,
            forall|i: int|
                0 <= i < k ==> #[trigger] cells@[i] == with_text(old_cells, *grid, width as int, height as int, fg, bg)[i],
            forall|i: int| k <= i < n ==> #[trigger] cells@[i] == old_cells[i],
        decreases n - k,
    {
        let col = k % width;
        let row = k / width;
        if grid.has_char(col, row) {
            let ch = grid.char_at(col, row);
            cells.set(k, Cell { ch, fg, bg });
        }
        k = k + 1;
    }
    assert(cells@ =~= with_text(old_cells, *grid, width as int, height as int, fg, bg));
}

/// The names under which the effects can be chosen, in the order of the
/// effect list.
pub open spec fn spec_effect_names() -> Seq<Seq<char>> {
    seq![
        "plasma"@,
        "fire"@,
        "matrix"@,
        "galaxy"@,
        "metaballs"@,
        "snow"@,
        "rain"@,
        "autumn"@,
        "aurora"@,
        "fireflies"@,
        "ocean"@,
        "lightning"@,
        "retro"@,
    ]
}

/// The names under which the effects can be chosen.
pub fn effect_names() -> (names: Vec<&'static str>)
    ensures
        names@.map_values(|s: &str| s@) == spec_effect_names(),
{
    let names = vec![
        "plasma",
        "fire",
        "matrix",
        "galaxy",
        "metaballs",
        "snow",
        "rain",
        "autumn",
        "aurora",
        "fireflies",
        "ocean",
        "lightning",
        "retro",
    ];
    assert(names@.map_values(|s: &str| s@) =~= spec_effect_names());
    names
}

/// Whether `a` and `b` hold the same characters.
fn same_text(a: &str, b: &str) -> (r: bool)
    ensures
        r == (a@ == b@),
{
    let n = a.unicode_len();
    if n != b.unicode_len() {
        return false;
    }
    let mut i: usize = 0;
    while i < n
        invariant
            n == a@.len(),
            n == b@.len(),
            i <= n,
            forall|k: int| 0 <= k < i ==> a@[k] == b@[k],
        decreases n - i,
    {
        if a.get_char(i) != b.get_char(i) {
            return false;
        }
        i = i + 1;
    }
    assert(a@ =~= b@);
    true
}

/// The position of `name` in the list of effect names, or `None` when no
/// effect has that name.
pub fn effect_index(name: &str) -> (r: Option<usize>)
    ensures
        match r {
            Some(i) => i < spec_effect_names().len() && spec_effect_names()[i as int] == name@,
            None => !spec_effect_names().contains(name@),
        },
{
    let names = effect_names();
    let ghost all = spec_effect_names();
    let mut i: usize = 0;
    while i < names.len()
        invariant
            names@.map_values(|s: &str| s@) == all,
            all == spec_effect_names(),
            i <= names@.len(),
            forall|k: int| 0 <= k < i ==> all[k] != name@,
        decreases names@.len() - i,
    {
        assert(all[i as int] == names@[i as int]@);
        if same_text(names[i], name) {
            return Some(i);
        }
        i = i + 1;
    }
    assert(all.len() == names@.len());
    assert forall|k: int| 0 <= k < all.len() implies all[k] != name@ by {}
    None
}

} // verus!
