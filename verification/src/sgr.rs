//! Select Graphic Rendition (`ESC [ ... m`): how a parameter list changes the
//! foreground colour in which the screen writes text.

use vstd::prelude::*;

verus! {

/// The foreground colour of text that no SGR sequence has coloured.
pub open spec fn default_fg() -> (u8, u8, u8) {
    (200, 200, 200)
}

/// The colour that a single SGR code selects, where it selects one:
/// reset (0), the eight normal colours (30-37), default (39) and the eight
/// bright colours (90-97).
pub open spec fn sgr_code_color(code: usize) -> Option<(u8, u8, u8)> {
    if code == 0 {
        Some(default_fg())
    } else if code == 30 {
        Some((0, 0, 0))
    } else if code == 31 {
        Some((205, 49, 49))
    } else if code == 32 {
        Some((13, 188, 121))
    } else if code == 33 {
        Some((229, 229, 16))
    } else if code == 34 {
        Some((36, 114, 200))
    } else if code == 35 {
        Some((188, 63, 188))
    } else if code == 36 {
        Some((17, 168, 205))
    } else if code == 37 || code == 39 {
        Some(default_fg())
    } else if code == 90 {
        Some((100, 100, 100))
    } else if code == 91 {
        Some((255, 80, 80))
    } else if code == 92 {
        Some((80, 255, 80))
    } else if code == 93 {
        Some((255, 255, 80))
    } else if code == 94 {
        Some((80, 80, 255))
    } else if code == 95 {
        Some((255, 80, 255))
    } else if code == 96 {
        Some((80, 255, 255))
    } else if code == 97 {
        Some((255, 255, 255))
    } else {
        None
    }
}

/// The colour after the codes `p[i..]` have been applied to `fg`, left to
/// right. Code 38 starts an extended colour: `38;5;n` (256-colour) leaves the
/// colour as it is and consumes `5;n`; `38;2;r;g;b` sets the colour to the
/// three values, each taken modulo 256, and consumes `2;r;g;b`; a 38 with
/// neither form after it is skipped alone. Codes without a meaning here
/// (bold, background colours, ...) change nothing.
pub open spec fn sgr_from(fg: (u8, u8, u8), p: Seq<usize>, i: int) -> (u8, u8, u8)
    decreases p.len() - i,
{
    if i < 0 || i >= p.len() {
        fg
    } else if p[i] == 38 {
        if i + 2 < p.len() && p[i + 1] == 5 {
            sgr_from(fg, p, i + 3)
        } else if i + 4 < p.len() && p[i + 1] == 2 {
            sgr_from((p[i + 2] as u8, p[i + 3] as u8, p[i + 4] as u8), p, i + 5)
        } else {
            sgr_from(fg, p, i + 1)
        }
    } else {
        match sgr_code_color(p[i]) {
            Some(c) => sgr_from(c, p, i + 1),
            None => sgr_from(fg, p, i + 1),
        }
    }
}

/// The colour after an SGR sequence with parameters `p`: an empty list
/// resets it to the default.
pub open spec fn apply_sgr(fg: (u8, u8, u8), p: Seq<usize>) -> (u8, u8, u8) {
    if p.len() == 0 {
        default_fg()
    } else {
        sgr_from(fg, p, 0)
    }
}

fn code_color(code: usize) -> (r: Option<(u8, u8, u8)>)
    ensures
        r == sgr_code_color(code),
{
    match code {
        0 => Some((200, 200, 200)),
        30 => Some((0, 0, 0)),
        31 => Some((205, 49, 49)),
        32 => Some((13, 188, 121)),
        33 => Some((229, 229, 16)),
        34 => Some((36, 114, 200)),
        35 => Some((188, 63, 188)),
        36 => Some((17, 168, 205)),
        37 | 39 => Some((200, 200, 200)),
        90 => Some((100, 100, 100)),
        91 => Some((255, 80, 80)),
        92 => Some((80, 255, 80)),
        93 => Some((255, 255, 80)),
        94 => Some((80, 80, 255)),
        95 => Some((255, 80, 255)),
        96 => Some((80, 255, 255)),
        97 => Some((255, 255, 255)),
        _ => None,
    }
}

/// Applies the SGR parameters `params` to the colour `fg`.
pub fn select_graphic_rendition(fg: (u8, u8, u8), params: &Vec<usize>) -> (r: (u8, u8, u8))
    ensures
        r == apply_sgr(fg, params@),
{
    if params.len() == 0 {
        return (200, 200, 200);
    }
    let mut cur = fg;
    let mut i: usize = 0;
    let n = params.len();
    while i < n
        invariant
            n == params@.len(),
            i <= n,
            sgr_from(cur, params@, i as int) == sgr_from(fg, params@, 0),
        decreases n - i,
    {
        let code = params[i];
        if code == 38 {
            if n - i > 2 && params[i + 1] == 5 {
                i = i + 2;
            } else if n - i > 4 && params[i + 1] == 2 {
                cur = (
                    #[verifier::truncate] (params[i + 2] as u8),
                    #[verifier::truncate] (params[i + 3] as u8),
                    #[verifier::truncate] (params[i + 4] as u8),
                );
                i = i + 4;
            }
        } else {
            match code_color(code) {
                Some(c) => {
                    cur = c;
                },
                None => {},
            }
        }
        i = i + 1;
    }
    cur
}

/// No code of `p` starts an extended colour (38).
pub open spec fn no_extended(p: Seq<usize>) -> bool {
    forall|i: int| 0 <= i < p.len() ==> #[trigger] p[i] != 38
}

proof fn lemma_sgr_shift(fg: (u8, u8, u8), p: Seq<usize>, q: Seq<usize>, j: int)
    requires
        0 <= j,
    ensures
        sgr_from(fg, p + q, p.len() + j) == sgr_from(fg, q, j),
    decreases q.len() - j,
{
    let pq = p + q;
    let k = p.len() + j;
    if j < q.len() {
        assert(pq[k] == q[j]);
        if q[j] == 38 {
            if j + 2 < q.len() && q[j + 1] == 5 {
                assert(pq[k + 1] == q[j + 1]);
                lemma_sgr_shift(fg, p, q, j + 3);
            } else if j + 4 < q.len() && q[j + 1] == 2 {
                assert(pq[k + 1] == q[j + 1]);
                assert(pq[k + 2] == q[j + 2]);
                assert(pq[k + 3] == q[j + 3]);
                assert(pq[k + 4] == q[j + 4]);
                lemma_sgr_shift((q[j + 2] as u8, q[j + 3] as u8, q[j + 4] as u8), p, q, j + 5);
            } else {
                if j + 2 < q.len() {
                    assert(pq[k + 1] == q[j + 1]);
                }
                if j + 4 < q.len() {
                    assert(pq[k + 1] == q[j + 1]);
                }
                lemma_sgr_shift(fg, p, q, j + 1);
            }
        } else {
            match sgr_code_color(q[j]) {
                Some(c) => lemma_sgr_shift(c, p, q, j + 1),
                None => lemma_sgr_shift(fg, p, q, j + 1),
            }
        }
    }
}

proof fn lemma_sgr_prefix(fg: (u8, u8, u8), p: Seq<usize>, q: Seq<usize>, i: int)
    requires
        no_extended(p),
        0 <= i <= p.len(),
    ensures
        sgr_from(fg, p + q, i) == sgr_from(sgr_from(fg, p, i), q, 0),
    decreases p.len() - i,
{
    if i == p.len() {
        lemma_sgr_shift(fg, p, q, 0);
    } else {
        assert((p + q)[i] == p[i]);
        assert(p[i] != 38);
        match sgr_code_color(p[i]) {
            Some(c) => lemma_sgr_prefix(c, p, q, i + 1),
            None => lemma_sgr_prefix(fg, p, q, i + 1),
        }
    }
}

/// The codes of an SGR sequence take effect left to right: after a list
/// `p` without extended colours, the rest `q` acts on the colour that `p`
/// left, so a later colour code wins over an earlier one (a reset followed
/// by red is red).
pub proof fn lemma_sgr_in_order(fg: (u8, u8, u8), p: Seq<usize>, q: Seq<usize>)
    requires
        p.len() > 0,
        q.len() > 0,
        no_extended(p),
    ensures
        apply_sgr(fg, p + q) == apply_sgr(apply_sgr(fg, p), q),
{
    lemma_sgr_prefix(fg, p, q, 0);
}

/// One code: a colour code sets its colour, `38;2;r;g;b` sets the colour
/// `(r, g, b)` (each taken modulo 256), `38;5;n` and codes without a
/// meaning leave the colour, and no code at all resets it.
pub proof fn lemma_sgr_single(fg: (u8, u8, u8), c: usize, r: usize, g: usize, b: usize, n: usize)
    ensures
        c != 38 ==> apply_sgr(fg, seq![c]) == (match sgr_code_color(c) {
            Some(k) => k,
            None => fg,
        }),
        apply_sgr(fg, seq![38, 2, r, g, b]) == (r as u8, g as u8, b as u8),
        apply_sgr(fg, seq![38, 5, n]) == fg,
        apply_sgr(fg, seq![]) == (200u8, 200u8, 200u8),
{
    let e = seq![38usize, 2, r, g, b];
    assert(sgr_from((r as u8, g as u8, b as u8), e, 5) == (r as u8, g as u8, b as u8));
    let f = seq![38usize, 5, n];
    assert(sgr_from(fg, f, 3) == fg);
    if c != 38 {
        let s1 = seq![c];
        match sgr_code_color(c) {
            Some(k) => assert(sgr_from(k, s1, 1) == k),
            None => assert(sgr_from(fg, s1, 1) == fg),
        }
    }
}

/// A colour code at the end of a list without extended colours decides
/// the colour, whatever came before it.
pub proof fn lemma_sgr_last_color_wins(fg: (u8, u8, u8), p: Seq<usize>, c: usize)
    requires
        p.len() > 0,
        no_extended(p),
        sgr_code_color(c) is Some,
    ensures
        apply_sgr(fg, p.push(c)) == sgr_code_color(c)->0,
{
    assert(p.push(c) =~= p + seq![c]);
    lemma_sgr_in_order(fg, p, seq![c]);
    lemma_sgr_single(apply_sgr(fg, p), c, 0, 0, 0, 0);
}

} // verus!
