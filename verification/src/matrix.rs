//! The integer side of the falling-code effect: the characters of a drop's
//! trail, their flicker, and the text that shows where no drop lights it.

use vstd::prelude::*;
use rand::rngs::ThreadRng;
use crate::effects::{holds_text, text_char, Cell, TextGrid};
use crate::random::{random_index, random_ratio};

verus! {

/// The exclusive upper bound of a trail's length on a screen `height`
/// rows high: the height, but at least 5 and at most 30.
pub open spec fn trail_len_bound(height: usize) -> int {
    let h = if height >= 5 {
        height as int
    } else {
        5
    };
    if h <= 30 {
        h
    } else {
        30
    }
}

/// Every character of `s` is one of `pool`.
pub open spec fn drawn_from(s: Seq<char>, pool: Seq<char>) -> bool {
    forall|i: int| 0 <= i < s.len() ==> pool.contains(#[trigger] s[i])
}

/// [`trail_len_bound`] computed.
pub fn trail_len_limit(height: usize) -> (b: usize)
    ensures
        b == trail_len_bound(height),
{
    let h = if height >= 5 {
        height
    } else {
        5
    };
    if h <= 30 {
        h
    } else {
        30
    }
}

/// The characters of `pool` at the indices `picks`, in order.
pub open spec fn picked(pool: Seq<char>, picks: Seq<usize>) -> Seq<char> {
    Seq::new(picks.len(), |i: int| pool[picks[i] as int])
}

/// The trail made of the characters of `pool` at the drawn indices
/// `picks`.
pub fn trail_from_picks(pool: &Vec<char>, picks: &Vec<usize>) -> (trail: Vec<char>)
    requires
        forall|i: int| 0 <= i < picks@.len() ==> #[trigger] picks@[i] < pool@.len(),
    ensures
        trail@ == picked(pool@, picks@),
{
    let mut trail: Vec<char> = Vec::new();
    let mut i: usize = 0;
    while i < picks.len()
        invariant
            i <= picks@.len(),
            forall|k: int| 0 <= k < picks@.len() ==> #[trigger] picks@[k] < pool@.len(),
            trail@ == picked(pool@, picks@).take(i as int),
        decreases picks@.len() - i,
    {
        trail.push(pool[picks[i]]);
        i = i + 1;
        assert(trail@ =~= picked(pool@, picks@).take(i as int));
    }
    assert(picked(pool@, picks@).take(i as int) =~= picked(pool@, picks@));
    trail
}

/// The trail of a new drop: a length drawn from 4 up to (not including)
/// [`trail_len_bound`], then that many indices drawn into `pool`; the
/// trail is [`trail_from_picks`] of them.
pub fn drop_trail(rng: &mut ThreadRng, height: usize, pool: &Vec<char>) -> (trail: Vec<char>)
    requires
        pool@.len() > 0,
    ensures
        4 <= trail@.len() < trail_len_bound(height),
        drawn_from(trail@, pool@),
        exists|picks: Seq<usize>|
            (forall|i: int| 0 <= i < picks.len() ==> #[trigger] picks[i] < pool@.len()) && trail@
                == #[trigger] picked(pool@, picks),
{
    let length = random_index(rng, 4, trail_len_limit(height));
    let mut picks: Vec<usize> = Vec::new();
    let mut i: usize = 0;
    while i < length
        invariant
            pool@.len() > 0,
            i <= length,
            picks@.len() == i,
            forall|k: int| 0 <= k < picks@.len() ==> #[trigger] picks@[k] < pool@.len(),
        decreases length - i,
    {
        let k = random_index(rng, 0, pool.len());
        picks.push(k);
        i = i + 1;
    }
    let trail = trail_from_picks(pool, &picks);
    assert forall|k: int| 0 <= k < trail@.len() implies pool@.contains(#[trigger] trail@[k]) by {
        assert(pool@[picks@[k] as int] == trail@[k]);
    }
    trail
}

/// `b` has the length of `a` and the same elements, but perhaps at index
/// `k`.
pub open spec fn same_but_at(a: Seq<char>, b: Seq<char>, k: int) -> bool {
    &&& a.len() == b.len()
    &&& forall|i: int| 0 <= i < a.len() && i != k ==> #[trigger] b[i] == a[i]
}

/// The trail after a flicker: when `flip`, the character at `k` becomes
/// the one of `pool` at `j`; otherwise the trail stays.
pub fn flicker_at(trail: &mut Vec<char>, pool: &Vec<char>, flip: bool, k: usize, j: usize)
    requires
        k < old(trail)@.len(),
        j < pool@.len(),
    ensures
        final(trail)@ == (if flip {
            old(trail)@.update(k as int, pool@[j as int])
        } else {
            old(trail)@
        }),
{
    if flip {
        trail.set(k, pool[j]);
    }
}

/// Draws whether the trail flickers (a chance of 8 in 100) and, if it
/// does, which character changes and which character of `pool` it becomes;
/// the trail then changes as [`flicker_at`] states.
pub fn flicker_trail(rng: &mut ThreadRng, trail: &mut Vec<char>, pool: &Vec<char>)
    requires
        old(trail)@.len() > 0,
        pool@.len() > 0,
    ensures
        exists|k: int| 0 <= k < old(trail)@.len() && #[trigger] same_but_at(old(trail)@, final(trail)@, k),
        forall|i: int|
            0 <= i < old(trail)@.len() ==> #[trigger] final(trail)@[i] == old(trail)@[i]
                || pool@.contains(final(trail)@[i]),
{
    let ghost before = trail@;
    if random_ratio(rng, 8, 100) {
        let k = random_index(rng, 0, trail.len());
        let j = random_index(rng, 0, pool.len());
        flicker_at(trail, pool, true, k, j);
        assert(same_but_at(before, trail@, k as int));
        assert(pool@.contains(pool@[j as int]));
    } else {
        flicker_at(trail, pool, false, 0, 0);
        assert(same_but_at(before, trail@, 0));
    }
}

/// The cells of a `width` x `height` frame with the text shown wherever
/// no drop lights the cell: a cell whose position holds text and whose
/// green is below 80 shows that character in pale green on black; other
/// cells, and any past the frame, are unchanged.
pub open spec fn with_unlit_text(cells: Seq<Cell>, grid: TextGrid, width: int, height: int) -> Seq<Cell> {
    Seq::new(
        cells.len(),
        |i: int|
            {
                let ch = grid.spec_char_at(i % width, i / width);
                if i < width * height && ch != ' ' && cells[i].fg.1 < 80 {
                    Cell { ch, fg: (190, 200, 190), bg: (0, 0, 0) }
                } else {
                    cells[i]
                }
            },
    )
}

/// Shows the text of `grid` in the cells of a `width` x `height` frame
/// that no drop currently lights.
pub fn show_unlit_text(cells: &mut Vec<Cell>, grid: &TextGrid, width: usize, height: usize)
    requires
        old(cells)@.len() >= width * height,
    ensures
        final(cells)@ == with_unlit_text(old(cells)@, *grid, width as int, height as int),
{
    let ghost old_cells = cells@;
    let n = cells.len();
    if width == 0 {
        assert(cells@ =~= with_unlit_text(old_cells, *grid, width as int, height as int));
        return;
    }
    proof {
        assert(width * height <= n);
    }
    let m = width * height;
    let mut k: usize = 0;
    while k < m
        invariant
            0 < width,
            m == width * height,
            m <= n,
            n == old_cells.len(),
            cells@.len() == n,
            k <= m,
            forall|i: int|
                0 <= i < k ==> #[trigger] cells@[i] == with_unlit_text(old_cells, *grid, width as int, height as int)[i],
            forall|i: int| k <= i < n ==> #[trigger] cells@[i] == old_cells[i],
        decreases n - k,
    {
        let col = k % width;
        let row = k / width;
        if grid.has_char(col, row) && cells[k].fg.1 < 80 {
            let ch = grid.char_at(col, row);
            cells.set(k, Cell { ch, fg: (190, 200, 190), bg: (0, 0, 0) });
        }
        k = k + 1;
    }
    assert(cells@ =~= with_unlit_text(old_cells, *grid, width as int, height as int));
}

/// The cells after a drop lights the cell at column `col` of row `row` of
/// a frame `width` wide in colour `fg`: the cell shows the text there, or
/// the trail's character `ch` where there is none, on black; but only if
/// the cell is on the frame and `fg` is a brighter green than it shows, so
/// that the brightest drop over a cell wins.
pub open spec fn lit(
    cells: Seq<Cell>,
    text: Option<TextGrid>,
    width: int,
    col: int,
    row: int,
    ch: char,
    fg: (u8, u8, u8),
) -> Seq<Cell> {
    let i = row * width + col;
    let shown = if text_char(text, col, row) != ' ' {
        text_char(text, col, row)
    } else {
        ch
    };
    if i < cells.len() && fg.1 > cells[i].fg.1 {
        cells.update(i, Cell { ch: shown, fg, bg: (0, 0, 0) })
    } else {
        cells
    }
}

/// Lights the cell at column `col` of row `row` of a frame `width` wide
/// with a drop's trail character `ch` in colour `fg`.
pub fn light_cell(
    cells: &mut Vec<Cell>,
    text: &Option<TextGrid>,
    width: usize,
    col: usize,
    row: usize,
    ch: char,
    fg: (u8, u8, u8),
)
    requires
        row * width + col <= usize::MAX,
    ensures
        final(cells)@ == lit(old(cells)@, *text, width as int, col as int, row as int, ch, fg),
{
    let i = row * width + col;
    if i < cells.len() && fg.1 > cells[i].fg.1 {
        let shown = match text {
            Some(g) => {
                if g.has_char(col, row) {
                    g.char_at(col, row)
                } else {
                    ch
                }
            },
            None => ch,
        };
        cells.set(i, Cell { ch: shown, fg, bg: (0, 0, 0) });
    }
}

} // verus!
