//! The shape of a lightning bolt: a jagged path down the screen with
//! occasional short side branches, and the glow around it.
//!
//! The random draws are made by [`bolt_segments`]; [`bolt_path`] turns the
//! drawn values into the path, as [`spec_bolt_path`] states exactly, and
//! [`lemma_bolt_shape`] states the shape of every path drawn.

use vstd::prelude::*;
use rand::rngs::ThreadRng;
use crate::effects::{holds_text, text_char, Cell, TextGrid};
use crate::random::{random_index, random_offset, random_ratio};

verus! {

/// `v` limited to `0..=max`.
fn clamp_column(v: i32, max: i32) -> (r: usize)
    requires
        0 <= max,
    ensures
        r as int == (if v < 0 {
            0
        } else if v > max {
            max as int
        } else {
            v as int
        }),
{
    if v < 0 {
        0
    } else if v > max {
        max as usize
    } else {
        v as usize
    }
}

/// Every segment lies on a `width` x `height` grid.
pub open spec fn segments_on_grid(segs: Seq<(usize, usize)>, width: int, height: int) -> bool {
    forall|i: int| 0 <= i < segs.len() ==> #[trigger] segs[i].0 < width && segs[i].1 < height
}

/// The values drawn for a branch forked off the trunk.
pub struct BoltBranch {
    /// The length drawn (3 to 7), before the branch is cut at the bottom row.
    pub drawn_len: usize,
    /// Whether the branch leans right (otherwise left).
    pub right: bool,
    /// The sideways jitter (-1, 0 or 1) added at each branch cell.
    pub jitters: Vec<i32>,
}

/// The values drawn for one step of the trunk.
pub struct BoltStep {
    /// The sideways drift (-2 to 2) after the trunk cell of this step.
    pub drift: i32,
    /// The branch forked after this step, if one was.
    pub branch: Option<BoltBranch>,
    /// Whether the trunk ends after this step.
    pub stop: bool,
}

/// `v` limited to the columns `0..width`.
pub open spec fn clamp_col(v: int, width: int) -> int {
    if v < 0 {
        0
    } else if v > width - 1 {
        width - 1
    } else {
        v
    }
}

/// The column of the trunk cell in row `k`: `x0` in the top row, then each
/// row the previous column plus that step's drift, kept on the grid.
pub open spec fn trunk_col(width: int, x0: int, steps: Seq<BoltStep>, k: int) -> int
    decreases k,
{
    if k <= 0 {
        x0
    } else {
        clamp_col(trunk_col(width, x0, steps, k - 1) + steps[k - 1].drift, width)
    }
}

/// 1 for a branch leaning right, -1 for one leaning left.
pub open spec fn branch_dir(b: BoltBranch) -> int {
    if b.right {
        1
    } else {
        -1
    }
}

/// The column of a branch after `j` cells: it starts at `start` and each
/// cell moves by the branch's direction plus that cell's jitter, kept on
/// the grid.
pub open spec fn branch_col(width: int, start: int, dir: int, jitters: Seq<i32>, j: int) -> int
    decreases j,
{
    if j <= 0 {
        start
    } else {
        clamp_col(branch_col(width, start, dir, jitters, j - 1) + dir + jitters[j - 1], width)
    }
}

/// The cells of the branch forked at step `i`: one per row from row
/// `i + 1` on, starting from the trunk's column in that row.
pub open spec fn branch_cells(width: int, x0: int, steps: Seq<BoltStep>, i: int) -> Seq<(usize, usize)> {
    match steps[i].branch {
        None => seq![],
        Some(b) => Seq::new(
            b.jitters@.len(),
            |j: int|
                (
                    branch_col(
                        width,
                        trunk_col(width, x0, steps, i + 1),
                        branch_dir(b),
                        b.jitters@,
                        j + 1,
                    ) as usize,
                    (i + 1 + j) as usize,
                ),
        ),
    }
}

/// The cells step `i` adds: its trunk cell in row `i`, then its branch.
pub open spec fn step_cells(width: int, x0: int, steps: Seq<BoltStep>, i: int) -> Seq<(usize, usize)> {
    seq![(trunk_col(width, x0, steps, i) as usize, i as usize)] + branch_cells(width, x0, steps, i)
}

/// The cells of the first `k` steps, in the order they are drawn.
pub open spec fn path_upto(width: int, x0: int, steps: Seq<BoltStep>, k: int) -> Seq<(usize, usize)>
    decreases k,
{
    if k <= 0 {
        seq![]
    } else {
        path_upto(width, x0, steps, k - 1) + step_cells(width, x0, steps, k - 1)
    }
}

/// The bolt that the drawn values give: the cells of every step in turn.
pub open spec fn spec_bolt_path(width: int, x0: int, steps: Seq<BoltStep>) -> Seq<(usize, usize)> {
    path_upto(width, x0, steps, steps.len() as int)
}

/// The values drawn at step `i` are values the draws can give: a drift in
/// -2..=2; a stop only below the middle row; a branch only while at least
/// four rows lie below the trunk cell, with a drawn length of 3 to 7, cut
/// to the rows left, and a jitter of -1, 0 or 1 per cell.
pub open spec fn step_fits(height: int, steps: Seq<BoltStep>, i: int) -> bool {
    let s = steps[i];
    &&& -2 <= s.drift < 3
    &&& (s.stop ==> i + 1 > height / 2)
    &&& match s.branch {
        None => true,
        Some(b) => {
            &&& i + 4 < height
            &&& 3 <= b.drawn_len < 8
            &&& b.jitters@.len() == (if b.drawn_len <= height - (i + 1) {
                b.drawn_len as int
            } else {
                height - (i + 1)
            })
            &&& forall|j: int| 0 <= j < b.jitters@.len() ==> -1 <= #[trigger] b.jitters@[j] < 2
        },
    }
}

/// The steps are what drawing a bolt on a grid `height` rows high gives:
/// one step per row until the bottom row or the first stop, each fitting.
pub open spec fn draws_fit(height: int, steps: Seq<BoltStep>) -> bool {
    &&& steps.len() <= height
    &&& (steps.len() == height || (steps.len() > 0 && steps.last().stop))
    &&& forall|i: int| 0 <= i < steps.len() ==> #[trigger] step_fits(height, steps, i)
    &&& forall|i: int| 0 <= i < steps.len() - 1 ==> !(#[trigger] steps[i]).stop
}

/// The path of a bolt `width` columns wide whose trunk starts in column
/// `x0`, from the values drawn for its steps.
pub fn bolt_path(width: usize, height: usize, x0: usize, steps: &Vec<BoltStep>) -> (segs: Vec<
    (usize, usize),
>)
    requires
        1 <= width < 0x7fff_ffff,
        x0 < width,
        draws_fit(height as int, steps@),
    ensures
        segs@ == spec_bolt_path(width as int, x0 as int, steps@),
{
    let ghost w = width as int;
    let ghost st = steps@;
    let max_col = (width - 1) as i32;
    let mut segs: Vec<(usize, usize)> = Vec::new();
    let mut x = x0;
    let mut i: usize = 0;
    while i < steps.len()
        invariant
            st == steps@,
            w == width as int,
            1 <= width < 0x7fff_ffff,
            max_col == width - 1,
            draws_fit(height as int, st),
            i <= st.len(),
            x < width,
            x == trunk_col(w, x0 as int, st, i as int),
            segs@ == path_upto(w, x0 as int, st, i as int),
        decreases st.len() - i,
    {
        assert(step_fits(height as int, st, i as int));
        let ghost before = segs@;
        segs.push((x, i));
        let step = &steps[i];
        assert(*step == st[i as int]);
        assert((x as i32) as int == x as int);
        let ghost prev_x = x as int;
        let v = x as i32 + step.drift;
        assert(v as int == prev_x + st[i as int].drift);
        x = clamp_column(v, max_col);
        assert(max_col as int == w - 1);
        assert(x as int == clamp_col(v as int, w));
        assert(x as int == clamp_col(prev_x + st[i as int].drift, w));
        assert(trunk_col(w, x0 as int, st, i + 1) == clamp_col(
            trunk_col(w, x0 as int, st, i as int) + st[i as int].drift,
            w,
        ));
        assert(x == trunk_col(w, x0 as int, st, i + 1));
        match &step.branch {
            Some(b) => {
                let dir: i32 = if b.right {
                    1
                } else {
                    -1
                };
                let ghost cells = branch_cells(w, x0 as int, st, i as int);
                let mut bx = x;
                let mut j: usize = 0;
                while j < b.jitters.len()
                    invariant
                        w == width as int,
                        st == steps@,
                        i < st.len(),
                        1 <= width < 0x7fff_ffff,
                        max_col == width - 1,
                        st[i as int].branch == Some(*b),
                        step_fits(height as int, st, i as int),
                        cells == branch_cells(w, x0 as int, st, i as int),
                        dir == branch_dir(*b),
                        j <= b.jitters@.len(),
                        bx < width,
                        bx == branch_col(w, x as int, dir as int, b.jitters@, j as int),
                        x == trunk_col(w, x0 as int, st, i + 1),
                        segs@ == before + seq![(trunk_col(w, x0 as int, st, i as int) as usize, i)]
                            + cells.take(j as int),
                    decreases b.jitters@.len() - j,
                {
                    let jitter = b.jitters[j];
                    assert(-1 <= jitter < 2);
                    assert((bx as i32) as int == bx as int);
                    bx = clamp_column(bx as i32 + dir + jitter, max_col);
                    assert(bx == branch_col(w, x as int, dir as int, b.jitters@, j + 1));
                    assert(cells[j as int] == (bx, (i + 1 + j) as usize));
                    segs.push((bx, i + 1 + j));
                    j = j + 1;
                    assert(cells.take(j as int) =~= cells.take(j - 1).push(cells[j - 1]));
                }
                assert(cells.take(j as int) =~= cells);
            },
            None => {},
        }
        i = i + 1;
        assert(segs@ =~= path_upto(w, x0 as int, st, i as int));
    }
    segs
}

/// The values were drawn for a bolt `width` columns wide and `height` rows
/// high, with its trunk starting in column `x0`, and `segs` is its path.
pub open spec fn bolt_drawn(
    width: int,
    height: int,
    x0: int,
    steps: Seq<BoltStep>,
    segs: Seq<(usize, usize)>,
) -> bool {
    &&& width / 4 <= x0 < 3 * width / 4
    &&& draws_fit(height, steps)
    &&& segs == spec_bolt_path(width, x0, steps)
}

/// Draws a random bolt on a `width` x `height` grid, in the order of the
/// draws: the trunk's first column in the middle half of the columns; then
/// per row a drift, whether to fork (a chance of 2 in 25, taken only while
/// at least four rows lie below), for a fork its drawn length, its side
/// (even chance) and one jitter per cell, and below the middle row whether
/// to stop (a chance of 1 in 20). The path is [`bolt_path`] of those values.
#[verifier::rlimit(40)]
pub fn bolt_segments(rng: &mut ThreadRng, width: usize, height: usize) -> (segs: Vec<(usize, usize)>)
    requires
        2 <= width < 0x7fff_ffff,
        3 * width <= usize::MAX,
    ensures
        exists|x0: int, steps: Seq<BoltStep>|
            #[trigger] bolt_drawn(width as int, height as int, x0, steps, segs@),
        height > 0 ==> segs@.len() > 0 && segs@[0].1 == 0 && width / 4 <= segs@[0].0 < 3 * width
            / 4,
        segments_on_grid(segs@, width as int, height as int),
{
    let w = width;
    let h = height;
    let x0 = random_index(rng, w / 4, 3 * w / 4);
    let mut steps: Vec<BoltStep> = Vec::new();
    let mut y: usize = 0;
    let mut done = false;
    while y < h && !done
        invariant
            y == steps@.len(),
            y <= h,
            forall|i: int| 0 <= i < steps@.len() ==> #[trigger] step_fits(h as int, steps@, i),
            forall|i: int| 0 <= i < steps@.len() - 1 ==> !(#[trigger] steps@[i]).stop,
            !done ==> forall|i: int| 0 <= i < steps@.len() ==> !(#[trigger] steps@[i]).stop,
            done ==> steps@.len() > 0 && steps@.last().stop,
        decreases h - y,
    {
        let drift = random_offset(rng, -2, 3);
        let ny = y + 1;
        let fork = random_ratio(rng, 2, 25);
        let branch = if fork && h - ny > 3 {
            let drawn_len = random_index(rng, 3, 8);
            let right = random_ratio(rng, 1, 2);
            let len = if drawn_len <= h - ny {
                drawn_len
            } else {
                h - ny
            };
            let mut jitters: Vec<i32> = Vec::new();
            let mut k: usize = 0;
            while k < len
                invariant
                    k <= len,
                    jitters@.len() == k,
                    forall|j: int| 0 <= j < k ==> -1 <= #[trigger] jitters@[j] < 2,
                decreases len - k,
            {
                let jitter = random_offset(rng, -1, 2);
                jitters.push(jitter);
                k = k + 1;
            }
            Some(BoltBranch { drawn_len, right, jitters })
        } else {
            None
        };
        let stop = if ny > h / 2 {
            random_ratio(rng, 1, 20)
        } else {
            false
        };
        let ghost before = steps@;
        steps.push(BoltStep { drift, branch, stop });
        proof {
            assert forall|i: int| 0 <= i < steps@.len() implies #[trigger] step_fits(h as int, steps@, i) by {
                if i < before.len() {
                    assert(steps@[i] == before[i]);
                    assert(step_fits(h as int, before, i));
                }
            }
            assert forall|i: int| 0 <= i < before.len() implies steps@[i] == before[i] by {}
        }
        y = ny;
        if stop {
            done = true;
        }
    }
    proof {
        lemma_bolt_shape(w as int, h as int, x0 as int, steps@);
    }
    let segs = bolt_path(w, h, x0, &steps);
    proof {
        assert(bolt_drawn(w as int, h as int, x0 as int, steps@, segs@));
        if h > 0 {
            assert(path_upto(w as int, x0 as int, steps@, 0).len() == 0);
        }
    }
    segs
}

proof fn lemma_trunk_on_grid(width: int, x0: int, steps: Seq<BoltStep>, k: int)
    requires
        1 <= width,
        0 <= x0 < width,
    ensures
        0 <= trunk_col(width, x0, steps, k) < width,
    decreases k,
{
    if k > 0 {
        lemma_trunk_on_grid(width, x0, steps, k - 1);
    }
}

proof fn lemma_branch_on_grid(width: int, start: int, dir: int, jitters: Seq<i32>, j: int)
    requires
        1 <= width,
        0 <= start < width,
    ensures
        0 <= branch_col(width, start, dir, jitters, j) < width,
    decreases j,
{
    if j > 0 {
        lemma_branch_on_grid(width, start, dir, jitters, j - 1);
    }
}

proof fn lemma_path_prefix(width: int, x0: int, steps: Seq<BoltStep>, k: int, m: int)
    requires
        0 <= k <= m,
    ensures
        path_upto(width, x0, steps, k).len() <= path_upto(width, x0, steps, m).len(),
        forall|p: int|
            0 <= p < path_upto(width, x0, steps, k).len() ==> #[trigger] path_upto(
                width,
                x0,
                steps,
                m,
            )[p] == path_upto(width, x0, steps, k)[p],
    decreases m - k,
{
    if k < m {
        lemma_path_prefix(width, x0, steps, k, m - 1);
    }
}

proof fn lemma_path_on_grid(width: int, height: int, x0: int, steps: Seq<BoltStep>, k: int)
    requires
        1 <= width <= usize::MAX,
        height <= usize::MAX,
        0 <= x0 < width,
        draws_fit(height, steps),
        0 <= k <= steps.len(),
    ensures
        segments_on_grid(path_upto(width, x0, steps, k), width, height),
        forall|i: int, p: int|
            0 <= i < k && 0 <= p < branch_cells(width, x0, steps, i).len() ==> i < (
            #[trigger] branch_cells(width, x0, steps, i)[p]).1,
    decreases k,
{
    if k > 0 {
        let i = k - 1;
        lemma_path_on_grid(width, height, x0, steps, i);
        assert(step_fits(height, steps, i));
        lemma_trunk_on_grid(width, x0, steps, i);
        lemma_trunk_on_grid(width, x0, steps, i + 1);
        let prev = path_upto(width, x0, steps, i);
        let cells = step_cells(width, x0, steps, i);
        let bc = branch_cells(width, x0, steps, i);
        assert forall|p: int| 0 <= p < bc.len() implies #[trigger] bc[p].0 < width && bc[p].1
            < height && i < bc[p].1 by {
            match steps[i].branch {
                Some(b) => {
                    lemma_branch_on_grid(
                        width,
                        trunk_col(width, x0, steps, i + 1),
                        branch_dir(b),
                        b.jitters@,
                        p + 1,
                    );
                },
                None => {},
            }
        }
        let path = path_upto(width, x0, steps, k);
        let t = (trunk_col(width, x0, steps, i) as usize, i as usize);
        assert(t.0 as int == trunk_col(width, x0, steps, i));
        assert(t.0 < width && t.1 < height);
        assert(cells =~= seq![t] + bc);
        assert(path =~= prev + cells);
        assert forall|p: int| 0 <= p < path.len() implies #[trigger] path[p].0 < width
            && path[p].1 < height by {
            if p < prev.len() {
                assert(path[p] == prev[p]);
                assert(prev[p].0 < width && prev[p].1 < height);
            } else if p == prev.len() {
                assert(path[p] == t);
            } else {
                let q = p - prev.len() - 1;
                assert(path[p] == bc[q]);
                assert(bc[q].0 < width && bc[q].1 < height);
            }
        }
    }
}

/// The shape of every bolt drawn: the trunk has one cell in each row from
/// the top down to a row below the middle (to the bottom row unless it
/// stopped), in row order within the path; it starts at `x0` and moves at
/// most two columns from row to row; every branch cell lies below the row
/// of the trunk cell it forks from; every cell lies on the grid.
pub proof fn lemma_bolt_shape(width: int, height: int, x0: int, steps: Seq<BoltStep>)
    requires
        1 <= width <= usize::MAX,
        height <= usize::MAX,
        0 <= x0 < width,
        draws_fit(height, steps),
    ensures
        height <= 0 ==> steps.len() == 0,
        height > 0 ==> height / 2 < steps.len() <= height,
        trunk_col(width, x0, steps, 0) == x0,
        forall|k: int| 0 <= k < steps.len() ==> 0 <= #[trigger] trunk_col(width, x0, steps, k) < width,
        forall|k: int|
            0 <= k && k + 1 < steps.len() ==> -2 <= #[trigger] trunk_col(width, x0, steps, k + 1)
                - trunk_col(width, x0, steps, k) <= 2,
        forall|k: int|
            0 <= k < steps.len() ==> path_upto(width, x0, steps, k).len() < path_upto(
                width,
                x0,
                steps,
                k + 1,
            ).len() && spec_bolt_path(width, x0, steps)[#[trigger] path_upto(
                width,
                x0,
                steps,
                k,
            ).len() as int] == (trunk_col(width, x0, steps, k) as usize, k as usize),
        forall|i: int, p: int|
            0 <= i < steps.len() && 0 <= p < branch_cells(width, x0, steps, i).len() ==> i < (
            #[trigger] branch_cells(width, x0, steps, i)[p]).1,
        segments_on_grid(spec_bolt_path(width, x0, steps), width, height),
{
    let m = steps.len() as int;
    if m > 0 && m < height {
        assert(step_fits(height, steps, m - 1));
    }
    lemma_path_on_grid(width, height, x0, steps, m);
    assert forall|k: int| 0 <= k < m implies 0 <= #[trigger] trunk_col(width, x0, steps, k) < width by {
        lemma_trunk_on_grid(width, x0, steps, k);
    }
    assert forall|k: int| 0 <= k && k + 1 < m implies -2 <= #[trigger] trunk_col(
        width,
        x0,
        steps,
        k + 1,
    ) - trunk_col(width, x0, steps, k) <= 2 by {
        lemma_trunk_on_grid(width, x0, steps, k);
        assert(step_fits(height, steps, k));
    }
    assert forall|k: int| 0 <= k < m implies path_upto(width, x0, steps, k).len() < path_upto(
        width,
        x0,
        steps,
        k + 1,
    ).len() && spec_bolt_path(width, x0, steps)[#[trigger] path_upto(
        width,
        x0,
        steps,
        k,
    ).len() as int] == (trunk_col(width, x0, steps, k) as usize, k as usize) by {
        lemma_path_prefix(width, x0, steps, k + 1, m);
        let prev = path_upto(width, x0, steps, k);
        assert(path_upto(width, x0, steps, k + 1) =~= prev + step_cells(width, x0, steps, k));
        assert(path_upto(width, x0, steps, k + 1)[prev.len() as int] == (
        trunk_col(width, x0, steps, k) as usize, k as usize));
    }
}

/// `a + b`, at most 255.
pub open spec fn sat_add(a: u8, b: u8) -> u8 {
    if a + b > 255 {
        255
    } else {
        (a + b) as u8
    }
}

fn add_sat(a: u8, b: u8) -> (r: u8)
    ensures
        r == sat_add(a, b),
{
    if a > 255 - b {
        255
    } else {
        a + b
    }
}

/// The larger of `a` and `b`.
pub open spec fn max_u8(a: u8, b: u8) -> u8 {
    if a >= b {
        a
    } else {
        b
    }
}

/// A cell that a bolt of brightness `b` passes: text keeps its character
/// and background and each colour channel rises to at least `b`; elsewhere
/// the bolt's character `ch` shows in grey `b` on a dark blue of an eighth,
/// an eighth and a quarter of `b`.
pub open spec fn struck_cell(c: Cell, over_text: bool, ch: char, b: u8) -> Cell {
    if over_text {
        Cell { fg: (max_u8(c.fg.0, b), max_u8(c.fg.1, b), max_u8(c.fg.2, b)), ..c }
    } else {
        Cell { ch, fg: (b, b, b), bg: (b / 8, b / 8, b / 4) }
    }
}

fn max_of(a: u8, b: u8) -> (r: u8)
    ensures
        r == max_u8(a, b),
{
    if a >= b {
        a
    } else {
        b
    }
}

/// Draws the bolt cell at column `bx` of row `by` of a `width` x `height`
/// frame, with character `ch` and brightness `b`.
pub fn bolt_cell(
    cells: &mut Vec<Cell>,
    text: &Option<TextGrid>,
    width: usize,
    height: usize,
    bx: usize,
    by: usize,
    ch: char,
    b: u8,
)
    requires
        old(cells)@.len() >= width * height,
        bx < width,
        by < height,
    ensures
        final(cells)@ == old(cells)@.update(
            by * width + bx,
            struck_cell(old(cells)@[by * width + bx], text_char(*text, bx as int, by as int) != ' ', ch, b),
        ),
{
    proof {
        crate::screen::lemma_cell_index(width as int, height as int, bx as int, by as int);
    }
    let n = cells.len();
    let idx = by * width + bx;
    if holds_text(text, bx, by) {
        let c = cells[idx];
        let fg = (max_of(c.fg.0, b), max_of(c.fg.1, b), max_of(c.fg.2, b));
        cells.set(idx, Cell { ch: c.ch, fg, bg: c.bg });
    } else {
        cells.set(idx, Cell { ch, fg: (b, b, b), bg: (b / 8, b / 8, b / 4) });
    }
}

/// A cell beside a bolt after its glow: text gets brighter (by half the
/// glow in red and green, the whole glow in blue, at most 255), an empty
/// cell shows a `·` in the glow's blue, anything else stays.
pub open spec fn glow_cell(c: Cell, is_text: bool, glow: u8) -> Cell {
    if is_text {
        Cell {
            fg: (sat_add(c.fg.0, glow / 2), sat_add(c.fg.1, glow / 2), sat_add(c.fg.2, glow)),
            ..c
        }
    } else if c.ch == ' ' {
        Cell { ch: '·', fg: (glow / 2, glow / 2, glow), bg: c.bg }
    } else {
        c
    }
}

/// The cells of a frame `width` wide after the bolt cell at column `bx`
/// of row `by` glows onto its left and then its right neighbour.
pub open spec fn bolt_glowed(
    cells: Seq<Cell>,
    text: Option<TextGrid>,
    width: int,
    bx: int,
    by: int,
    glow: u8,
) -> Seq<Cell> {
    let row = by * width;
    let c1 = if bx > 0 {
        cells.update(
            row + bx - 1,
            glow_cell(cells[row + bx - 1], text_char(text, bx - 1, by) != ' ', glow),
        )
    } else {
        cells
    };
    if bx + 1 < width {
        c1.update(row + bx + 1, glow_cell(c1[row + bx + 1], text_char(text, bx + 1, by) != ' ', glow))
    } else {
        c1
    }
}

fn glow_at(cells: &mut Vec<Cell>, i: usize, is_text: bool, glow: u8)
    requires
        i < old(cells)@.len(),
    ensures
        final(cells)@ == old(cells)@.update(i as int, glow_cell(old(cells)@[i as int], is_text, glow)),
{
    let c = cells[i];
    if is_text {
        let fg = (add_sat(c.fg.0, glow / 2), add_sat(c.fg.1, glow / 2), add_sat(c.fg.2, glow));
        cells.set(i, Cell { ch: c.ch, fg, bg: c.bg });
    } else if c.ch == ' ' {
        cells.set(i, Cell { ch: '·', fg: (glow / 2, glow / 2, glow), bg: c.bg });
    }
    assert(cells@ =~= old(cells)@.update(i as int, glow_cell(old(cells)@[i as int], is_text, glow)));
}

/// Lets the bolt cell at column `bx` of row `by` of a `width` x `height`
/// frame glow onto its neighbours in the row.
pub fn bolt_glow(
    cells: &mut Vec<Cell>,
    text: &Option<TextGrid>,
    width: usize,
    height: usize,
    bx: usize,
    by: usize,
    glow: u8,
)
    requires
        old(cells)@.len() >= width * height,
        bx < width,
        by < height,
    ensures
        final(cells)@ == bolt_glowed(old(cells)@, *text, width as int, bx as int, by as int, glow),
{
    let ghost c0 = cells@;
    let n = cells.len();
    proof {
        crate::screen::lemma_cell_index(width as int, height as int, bx as int, by as int);
    }
    let row = by * width;
    if bx > 0 {
        let is_text = holds_text(text, bx - 1, by);
        glow_at(cells, row + bx - 1, is_text, glow);
    }
    if bx + 1 < width {
        let is_text = holds_text(text, bx + 1, by);
        glow_at(cells, row + bx + 1, is_text, glow);
    }
    assert(cells@ =~= bolt_glowed(c0, *text, width as int, bx as int, by as int, glow));
}

} // verus!
