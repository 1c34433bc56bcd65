//! What a terminal shows of the bytes the renderer writes, in a small model
//! of a colour terminal: escape sequences are read, `ESC [ ... m` sets the
//! foreground (38...) or background (48...) or resets both (0 or nothing),
//! other control sequences are read and have no effect here, a line feed
//! starts a new row, a carriage return changes nothing here, and every other
//! byte is shown in the colours then in effect.
//!
//! [`lemma_frame_shown`] states with this model what a rendered frame
//! shows: row by row, each cell's character in the colours it is drawn in.

use vstd::prelude::*;
use crate::params::{
    all_digits, closed_params, csi_params, digits_value, field_param, last_field, param_value,
    unsigned_digits,
};
use crate::color::spec_rgb_to_256;
use crate::encode::decimal;
use crate::renderer::{
    at_cursor, cell_bytes, color_bytes, frame_bytes, home_bytes, reset_bytes, row_end_bytes,
    row_from, rows_bytes, shown_colors, unset_color, ColorMode,
};
use crate::effects::Cell;
use vstd::utf8::{encode_scalar, is_scalar};

verus! {

/// A byte shown on the terminal, with the parameters of the colour
/// sequences in effect for its foreground and background (empty when none
/// is).
pub type Glyph = (u8, Seq<usize>, Seq<usize>);

/// The state of the model terminal.
#[verifier::ext_equal]
pub struct Display {
    /// 0 between sequences, 1 right after an escape, 2 inside a control
    /// sequence.
    pub phase: u8,
    /// The parameter bytes of the control sequence being read.
    pub params: Seq<u8>,
    /// The parameters of the sequence that set the foreground.
    pub fg: Seq<usize>,
    /// The parameters of the sequence that set the background.
    pub bg: Seq<usize>,
    /// The rows shown so far; the last one is being written.
    pub rows: Seq<Seq<Glyph>>,
}

/// A terminal that has shown nothing yet.
pub open spec fn fresh_display() -> Display {
    Display { phase: 0, params: seq![], fg: seq![], bg: seq![], rows: seq![seq![]] }
}

/// The colours after `ESC [ p m`.
pub open spec fn display_sgr(d: Display, p: Seq<usize>) -> Display {
    if p.len() == 0 || p[0] == 0 {
        Display { fg: seq![], bg: seq![], ..d }
    } else if p[0] == 38 {
        Display { fg: p, ..d }
    } else if p[0] == 48 {
        Display { bg: p, ..d }
    } else {
        d
    }
}

/// What one byte does to the model terminal.
pub open spec fn display_step(d: Display, b: u8) -> Display {
    if d.phase == 1 {
        if b == 91 {
            Display { phase: 2, params: seq![], ..d }
        } else {
            Display { phase: 0, ..d }
        }
    } else if d.phase == 2 {
        if 64 <= b <= 126 {
            let done = Display { phase: 0, params: seq![], ..d };
            if b == 109 {
                display_sgr(done, csi_params(d.params))
            } else {
                done
            }
        } else {
            Display { params: d.params.push(b), ..d }
        }
    } else if b == 27 {
        Display { phase: 1, ..d }
    } else if b == 10 {
        Display { rows: d.rows.push(seq![]), ..d }
    } else if b == 13 {
        d
    } else {
        Display {
            rows: d.rows.update(d.rows.len() - 1, d.rows.last().push((b, d.fg, d.bg))),
            ..d
        }
    }
}

/// The model terminal after the bytes `data`.
pub open spec fn display_run(d: Display, data: Seq<u8>) -> Display
    decreases data.len(),
{
    if data.len() == 0 {
        d
    } else {
        display_step(display_run(d, data.drop_last()), data.last())
    }
}

/// Bytes sent one after another show what they show sent at once.
pub proof fn lemma_display_concat(d: Display, a: Seq<u8>, b: Seq<u8>)
    ensures
        display_run(d, a + b) == display_run(display_run(d, a), b),
    decreases b.len(),
{
    if b.len() == 0 {
        assert(a + b =~= a);
    } else {
        lemma_display_concat(d, a, b.drop_last());
        assert((a + b).drop_last() =~= a + b.drop_last());
        assert((a + b).last() == b.last());
    }
}

proof fn lemma_display_push(d: Display, a: Seq<u8>, b: u8)
    ensures
        display_run(d, a.push(b)) == display_step(display_run(d, a), b),
{
    assert(a.push(b).drop_last() =~= a);
}

/// `data` shows as the glyphs of its bytes in colours `fg` on `bg`.
pub open spec fn glyphs(data: Seq<u8>, fg: Seq<usize>, bg: Seq<usize>) -> Seq<Glyph> {
    Seq::new(data.len(), |i: int| (data[i], fg, bg))
}

/// Bytes from a space up, outside a sequence, are shown in the colours in
/// effect, on the row being written.
#[verifier::rlimit(40)]
pub proof fn lemma_display_text(d: Display, data: Seq<u8>)
    requires
        d.phase == 0,
        d.rows.len() > 0,
        forall|i: int| 0 <= i < data.len() ==> #[trigger] data[i] >= 32,
    ensures
        display_run(d, data) == (Display {
            rows: d.rows.update(d.rows.len() - 1, d.rows.last() + glyphs(data, d.fg, d.bg)),
            ..d
        }),
    decreases data.len(),
{
    if data.len() == 0 {
        assert(d.rows.last() + glyphs(data, d.fg, d.bg) =~= d.rows.last());
        assert(d.rows.update(d.rows.len() - 1, d.rows.last()) =~= d.rows);
    } else {
        let a = data.drop_last();
        assert forall|i: int| 0 <= i < a.len() implies #[trigger] a[i] >= 32 by {
            assert(a[i] == data[i]);
        }
        lemma_display_text(d, a);
        lemma_display_push(d, a, data.last());
        assert(data.last() >= 32);
        assert(glyphs(a, d.fg, d.bg).push((data.last(), d.fg, d.bg)) =~= glyphs(data, d.fg, d.bg));
        let e = display_run(d, a);
        assert(e.rows.last() == d.rows.last() + glyphs(a, d.fg, d.bg));
        assert(display_step(e, data.last()).rows =~= d.rows.update(
            d.rows.len() - 1,
            d.rows.last() + glyphs(data, d.fg, d.bg),
        ));
    }
}

proof fn lemma_display_csi_open(d: Display, inner: Seq<u8>, k: int)
    requires
        d.phase == 0,
        0 <= k <= inner.len(),
        forall|i: int| 0 <= i < inner.len() ==> #[trigger] inner[i] < 64,
    ensures
        display_run(d, seq![27u8, 91u8] + inner.take(k)) == (Display {
            phase: 2,
            params: inner.take(k),
            ..d
        }),
    decreases k,
{
    if k == 0 {
        let e: Seq<u8> = seq![];
        lemma_display_push(d, e, 27u8);
        lemma_display_push(d, e.push(27u8), 91u8);
        assert(seq![27u8, 91u8] + inner.take(0) =~= e.push(27u8).push(91u8));
        assert(display_run(d, e.push(27u8).push(91u8)) =~= (Display {
            phase: 2,
            params: inner.take(0),
            ..d
        }));
    } else {
        lemma_display_csi_open(d, inner, k - 1);
        let pre = seq![27u8, 91u8] + inner.take(k - 1);
        assert(seq![27u8, 91u8] + inner.take(k) =~= pre.push(inner[k - 1]));
        lemma_display_push(d, pre, inner[k - 1]);
        assert(inner.take(k - 1).push(inner[k - 1]) =~= inner.take(k));
    }
}

/// A control sequence `ESC [ inner fin` is read whole: `m` applies the
/// colours of its parameters, any other final byte changes nothing shown.
pub proof fn lemma_display_csi(d: Display, inner: Seq<u8>, fin: u8)
    requires
        d.phase == 0,
        forall|i: int| 0 <= i < inner.len() ==> #[trigger] inner[i] < 64,
        64 <= fin <= 126,
    ensures
        display_run(d, seq![27u8, 91u8] + inner + seq![fin]) == (if fin == 109 {
            display_sgr(Display { params: seq![], ..d }, csi_params(inner))
        } else {
            Display { params: seq![], ..d }
        }),
{
    lemma_display_csi_open(d, inner, inner.len() as int);
    assert(inner.take(inner.len() as int) =~= inner);
    let pre = seq![27u8, 91u8] + inner;
    assert(pre + seq![fin] =~= pre.push(fin));
    lemma_display_push(d, pre, fin);
}

/// `d` holds no `;`.
pub open spec fn no_semicolon(d: Seq<u8>) -> bool {
    forall|i: int| 0 <= i < d.len() ==> #[trigger] d[i] != 59
}

proof fn lemma_closed_no_semicolon(a: Seq<u8>, d: Seq<u8>)
    requires
        no_semicolon(d),
    ensures
        closed_params(a + d) == closed_params(a),
    decreases d.len(),
{
    if d.len() == 0 {
        assert(a + d =~= a);
    } else {
        let e = d.drop_last();
        assert(no_semicolon(e)) by {
            assert forall|i: int| 0 <= i < e.len() implies #[trigger] e[i] != 59 by {
                assert(e[i] == d[i]);
            }
        }
        lemma_closed_no_semicolon(a, e);
        assert((a + d).drop_last() =~= a + e);
        assert((a + d).last() == d[d.len() - 1]);
    }
}

proof fn lemma_last_field_after(a: Seq<u8>, d: Seq<u8>)
    requires
        no_semicolon(d),
    ensures
        last_field(a.push(59) + d) == d,
    decreases d.len(),
{
    if d.len() == 0 {
        assert(a.push(59) + d =~= a.push(59));
        assert(a.push(59).drop_last() =~= a);
    } else {
        let e = d.drop_last();
        assert(no_semicolon(e)) by {
            assert forall|i: int| 0 <= i < e.len() implies #[trigger] e[i] != 59 by {
                assert(e[i] == d[i]);
            }
        }
        lemma_last_field_after(a, e);
        assert((a.push(59) + d).drop_last() =~= a.push(59) + e);
        assert((a.push(59) + d).last() == d[d.len() - 1]);
        assert(e.push(d.last()) =~= d);
    }
}

/// Appending `;` and a field without `;` appends that field's parameter.
proof fn lemma_csi_params_field(a: Seq<u8>, d: Seq<u8>)
    requires
        no_semicolon(d),
    ensures
        csi_params(a.push(59) + d) == csi_params(a) + field_param(d),
{
    lemma_closed_no_semicolon(a.push(59), d);
    lemma_last_field_after(a, d);
    assert(a.push(59).drop_last() =~= a);
    assert(closed_params(a.push(59)) == closed_params(a) + field_param(last_field(a)));
    assert(csi_params(a.push(59) + d) =~= csi_params(a) + field_param(d));
}

/// The decimal digits of a byte value read back as that value.
proof fn lemma_decimal_field(n: u8)
    ensures
        no_semicolon(decimal(n)),
        field_param(decimal(n)) == seq![n as usize],
        below_final(decimal(n)),
{
    let d = decimal(n);
    assert(unsigned_digits(d) == d);
    let empty: Seq<u8> = seq![];
    assert(digits_value(empty) == 0);
    if n < 10 {
        assert(d.drop_last() =~= empty);
        assert(digits_value(d) == n);
    } else if n < 100 {
        let d1 = d.drop_last();
        assert(d1.drop_last() =~= empty);
        assert(digits_value(d1) == n / 10);
        assert(digits_value(d) == (n / 10) * 10 + n % 10);
    } else {
        let d1 = d.drop_last();
        let d2 = d1.drop_last();
        assert(d2.drop_last() =~= empty);
        assert(digits_value(d2) == n / 100);
        assert(digits_value(d1) == (n / 100) * 10 + (n / 10) % 10);
        assert(digits_value(d) == ((n / 100) * 10 + (n / 10) % 10) * 10 + n % 10);
        assert(((n / 100) * 10 + (n / 10) % 10) * 10 + n % 10 == n) by (nonlinear_arith)
            requires
                0 <= n < 256,
        ;
    }
    assert(all_digits(d));
    assert(param_value(d) == n);
}

/// The parameter bytes of the colour sequence for `c` on layer `layer`
/// (`3` foreground, `4` background).
pub open spec fn color_inner(mode: ColorMode, layer: u8, c: (u8, u8, u8)) -> Seq<u8> {
    match mode {
        ColorMode::TrueColor => seq![layer, 56u8, 59u8, 50u8, 59u8] + decimal(c.0) + seq![59u8]
            + decimal(c.1) + seq![59u8] + decimal(c.2),
        ColorMode::Ansi256 => seq![layer, 56u8, 59u8, 53u8, 59u8] + decimal(
            spec_rgb_to_256(c.0, c.1, c.2),
        ),
    }
}

/// All bytes of `d` lie below `@`, so none ends a control sequence.
pub open spec fn below_final(d: Seq<u8>) -> bool {
    forall|i: int| 0 <= i < d.len() ==> #[trigger] d[i] < 64
}

proof fn lemma_below_final_join(x: Seq<u8>, y: Seq<u8>)
    requires
        below_final(x),
        below_final(y),
    ensures
        below_final(x.push(59) + y),
{
    let z = x.push(59) + y;
    assert forall|i: int| 0 <= i < z.len() implies #[trigger] z[i] < 64 by {
        if i < x.len() {
            assert(z[i] == x[i]);
        } else if i > x.len() {
            assert(z[i] == y[i - x.len() - 1]);
        }
    }
}

proof fn lemma_one_digit(b: u8)
    requires
        48 <= b <= 57,
    ensures
        no_semicolon(seq![b]),
        below_final(seq![b]),
        field_param(seq![b]) == seq![(b - 48) as usize],
{
    let d: Seq<u8> = seq![b];
    let empty: Seq<u8> = seq![];
    assert(digits_value(empty) == 0);
    assert(d.drop_last() =~= empty);
    assert(d.last() == b);
    assert(unsigned_digits(d) == d);
    assert(all_digits(d));
    assert(digits_value(d) == b - 48);
}

proof fn lemma_layer_params(layer: u8)
    requires
        layer == 51 || layer == 52,
    ensures
        csi_params(seq![layer, 56u8]) == seq![
            if layer == 51 {
                38usize
            } else {
                48usize
            },
        ],
        below_final(seq![layer, 56u8]),
{
    let a: Seq<u8> = seq![layer, 56u8];
    let one: Seq<u8> = seq![layer];
    let empty: Seq<u8> = seq![];
    assert(a.drop_last() =~= one);
    assert(one.drop_last() =~= empty);
    assert(digits_value(empty) == 0);
    assert(one.last() == layer);
    assert(digits_value(one) == layer - 48);
    assert(digits_value(a) == (layer - 48) * 10 + 8);
    assert(unsigned_digits(a) == a);
    assert(all_digits(a));
    assert(closed_params(empty) =~= Seq::<usize>::empty());
    assert(closed_params(one) =~= Seq::<usize>::empty());
    assert(closed_params(a) =~= Seq::<usize>::empty());
    assert(last_field(empty) =~= empty);
    assert(last_field(one) =~= one);
    assert(last_field(a) =~= a);
    assert(csi_params(a) =~= seq![
        if layer == 51 {
            38usize
        } else {
            48usize
        },
    ]);
}

/// The parameters that set colour `c` on layer `base` (38 foreground, 48
/// background): `base;2;r;g;b` in true colour, `base;5;index` in 256
/// colours.
pub open spec fn color_params(mode: ColorMode, base: usize, c: (u8, u8, u8)) -> Seq<usize> {
    match mode {
        ColorMode::TrueColor => seq![base, 2, c.0 as usize, c.1 as usize, c.2 as usize],
        ColorMode::Ansi256 => seq![base, 5, spec_rgb_to_256(c.0, c.1, c.2) as usize],
    }
}

#[verifier::rlimit(40)]
proof fn lemma_true_inner(layer: u8, c: (u8, u8, u8))
    requires
        layer == 51 || layer == 52,
    ensures
        below_final(color_inner(ColorMode::TrueColor, layer, c)),
        csi_params(color_inner(ColorMode::TrueColor, layer, c)) == seq![
            if layer == 51 {
                38usize
            } else {
                48usize
            },
        ] + seq![2usize, c.0 as usize, c.1 as usize, c.2 as usize],
{
    let a: Seq<u8> = seq![layer, 56u8];
    lemma_layer_params(layer);
    let two: Seq<u8> = seq![50u8];
    lemma_one_digit(50u8);
    let a1 = a.push(59) + two;
    lemma_csi_params_field(a, two);
    lemma_below_final_join(a, two);
    lemma_decimal_field(c.0);
    lemma_decimal_field(c.1);
    lemma_decimal_field(c.2);
    let a2 = a1.push(59) + decimal(c.0);
    lemma_csi_params_field(a1, decimal(c.0));
    lemma_below_final_join(a1, decimal(c.0));
    let a3 = a2.push(59) + decimal(c.1);
    lemma_csi_params_field(a2, decimal(c.1));
    lemma_below_final_join(a2, decimal(c.1));
    let a4 = a3.push(59) + decimal(c.2);
    lemma_csi_params_field(a3, decimal(c.2));
    lemma_below_final_join(a3, decimal(c.2));
    assert(a4 =~= color_inner(ColorMode::TrueColor, layer, c));
    assert(csi_params(a4) =~= seq![
        if layer == 51 {
            38usize
        } else {
            48usize
        },
    ] + seq![2usize, c.0 as usize, c.1 as usize, c.2 as usize]);
}

#[verifier::rlimit(40)]
proof fn lemma_ansi_inner(layer: u8, c: (u8, u8, u8))
    requires
        layer == 51 || layer == 52,
    ensures
        below_final(color_inner(ColorMode::Ansi256, layer, c)),
        csi_params(color_inner(ColorMode::Ansi256, layer, c)) == seq![
            if layer == 51 {
                38usize
            } else {
                48usize
            },
        ] + seq![5usize, spec_rgb_to_256(c.0, c.1, c.2) as usize],
{
    let a: Seq<u8> = seq![layer, 56u8];
    lemma_layer_params(layer);
    let five: Seq<u8> = seq![53u8];
    lemma_one_digit(53u8);
    let a1 = a.push(59) + five;
    lemma_csi_params_field(a, five);
    lemma_below_final_join(a, five);
    let idx = spec_rgb_to_256(c.0, c.1, c.2);
    lemma_decimal_field(idx);
    let a2 = a1.push(59) + decimal(idx);
    lemma_csi_params_field(a1, decimal(idx));
    lemma_below_final_join(a1, decimal(idx));
    assert(a2 =~= color_inner(ColorMode::Ansi256, layer, c));
    assert(csi_params(a2) =~= seq![
        if layer == 51 {
            38usize
        } else {
            48usize
        },
    ] + seq![5usize, idx as usize]);
}

#[verifier::spinoff_prover]
proof fn lemma_color_bytes_shape(mode: ColorMode, layer: u8, c: (u8, u8, u8))
    ensures
        color_bytes(mode, layer, c) == seq![27u8, 91u8] + color_inner(mode, layer, c) + seq![109u8],
{
    let d0 = decimal(c.0);
    let d1 = decimal(c.1);
    let d2 = decimal(c.2);
    let di = decimal(spec_rgb_to_256(c.0, c.1, c.2));
    match mode {
        ColorMode::TrueColor => {
            assert(color_bytes(mode, layer, c) == seq![27u8, 91u8, layer, 56u8, 59u8, 50u8, 59u8]
                + d0 + seq![59u8] + d1 + seq![59u8] + d2 + seq![109u8]);
            assert(color_inner(mode, layer, c) == seq![layer, 56u8, 59u8, 50u8, 59u8] + d0 + seq![
                59u8,
            ] + d1 + seq![59u8] + d2);
            assert(seq![27u8, 91u8, layer, 56u8, 59u8, 50u8, 59u8] + d0 + seq![59u8] + d1 + seq![
                59u8,
            ] + d2 + seq![109u8] =~= seq![27u8, 91u8] + (seq![layer, 56u8, 59u8, 50u8, 59u8] + d0
                + seq![59u8] + d1 + seq![59u8] + d2) + seq![109u8]);
        },
        ColorMode::Ansi256 => {
            assert(color_bytes(mode, layer, c) == seq![27u8, 91u8, layer, 56u8, 59u8, 53u8, 59u8]
                + di + seq![109u8]);
            assert(color_inner(mode, layer, c) == seq![layer, 56u8, 59u8, 53u8, 59u8] + di);
            assert(seq![27u8, 91u8, layer, 56u8, 59u8, 53u8, 59u8] + di + seq![109u8] =~= seq![
                27u8,
                91u8,
            ] + (seq![layer, 56u8, 59u8, 53u8, 59u8] + di) + seq![109u8]);
        },
    }
}

/// A colour sequence is `ESC [`, parameter bytes, `m`, and its parameters
/// name the colour it was written for.
#[verifier::rlimit(40)]
pub proof fn lemma_color_bytes_params(mode: ColorMode, layer: u8, c: (u8, u8, u8))
    requires
        layer == 51 || layer == 52,
    ensures
        color_bytes(mode, layer, c) == seq![27u8, 91u8] + color_inner(mode, layer, c) + seq![109u8],
        below_final(color_inner(mode, layer, c)),
        csi_params(color_inner(mode, layer, c)) == color_params(
            mode,
            if layer == 51 {
                38
            } else {
                48
            },
            c,
        ),
{
    lemma_color_bytes_shape(mode, layer, c);
    match mode {
        ColorMode::TrueColor => lemma_true_inner(layer, c),
        ColorMode::Ansi256 => lemma_ansi_inner(layer, c),
    }
    assert(csi_params(color_inner(mode, layer, c)) =~= color_params(
        mode,
        if layer == 51 {
            38
        } else {
            48
        },
        c,
    ));
}

/// Every byte of the UTF-8 encoding of a character from a space up is at
/// least a space.
proof fn lemma_scalar_bytes(v: u32)
    requires
        32 <= v,
        is_scalar(v),
    ensures
        forall|i: int| 0 <= i < encode_scalar(v).len() ==> #[trigger] encode_scalar(v)[i] >= 32,
{
    assert(v <= 0x7F ==> (v & 0x7F) as u8 >= 32) by (bit_vector)
        requires
            32 <= v,
    ;
    assert((0xC0u8 | ((v >> 6) & 0x1F) as u8) >= 32) by (bit_vector);
    assert((0xE0u8 | ((v >> 12) & 0x0F) as u8) >= 32) by (bit_vector);
    assert((0xF0u8 | ((v >> 18) & 0x7) as u8) >= 32) by (bit_vector);
    assert((0x80u8 | (v & 0x3F) as u8) >= 32) by (bit_vector);
    assert((0x80u8 | ((v >> 6) & 0x3F) as u8) >= 32) by (bit_vector);
    assert((0x80u8 | ((v >> 12) & 0x3F) as u8) >= 32) by (bit_vector);
}

/// `csi_params` of a single one-digit parameter.
proof fn lemma_single_param(b: u8)
    requires
        48 <= b <= 57,
    ensures
        csi_params(seq![b]) == seq![(b - 48) as usize],
        below_final(seq![b]),
{
    let d: Seq<u8> = seq![b];
    let empty: Seq<u8> = seq![];
    lemma_one_digit(b);
    assert(d.drop_last() =~= empty);
    assert(closed_params(empty) =~= Seq::<usize>::empty());
    assert(closed_params(d) =~= Seq::<usize>::empty());
    assert(last_field(empty) =~= empty);
    assert(last_field(d) =~= d);
    assert(csi_params(d) =~= seq![(b - 48) as usize]);
}

/// The colour parameters in effect when `prev` is the colour last written in
/// the row; (255, 255, 255) stands for none written since the reset.
pub open spec fn in_effect(mode: ColorMode, base: usize, prev: (u8, u8, u8)) -> Seq<usize> {
    if prev == unset_color() {
        seq![]
    } else {
        color_params(mode, base, prev)
    }
}

/// The terminal is between sequences with the colours of `pf` on `pb` in
/// effect, on a row being written.
pub open spec fn ready(d: Display, mode: ColorMode, pf: (u8, u8, u8), pb: (u8, u8, u8)) -> bool {
    &&& d.phase == 0
    &&& d.params == Seq::<u8>::empty()
    &&& d.fg == in_effect(mode, 38, pf)
    &&& d.bg == in_effect(mode, 48, pb)
    &&& d.rows.len() > 0
}

#[verifier::rlimit(40)]
proof fn lemma_set_bg(d: Display, bg: (u8, u8, u8), pb: (u8, u8, u8), mode: ColorMode)
    requires
        d.phase == 0,
        d.params == Seq::<u8>::empty(),
        d.bg == in_effect(mode, 48, pb),
        bg != unset_color(),
    ensures
        display_run(
            d,
            if bg != pb {
                color_bytes(mode, 52, bg)
            } else {
                seq![]
            },
        ) == (Display { bg: color_params(mode, 48, bg), ..d }),
{
    if bg != pb {
        lemma_color_bytes_params(mode, 52, bg);
        lemma_display_csi(d, color_inner(mode, 52, bg), 109u8);
        assert(display_sgr(Display { params: seq![], ..d }, color_params(mode, 48, bg)) =~= (
        Display { bg: color_params(mode, 48, bg), ..d }));
    }
}

#[verifier::rlimit(40)]
proof fn lemma_set_fg(d: Display, fg: (u8, u8, u8), pf: (u8, u8, u8), mode: ColorMode)
    requires
        d.phase == 0,
        d.params == Seq::<u8>::empty(),
        d.fg == in_effect(mode, 38, pf),
        fg != unset_color(),
    ensures
        display_run(
            d,
            if fg != pf {
                color_bytes(mode, 51, fg)
            } else {
                seq![]
            },
        ) == (Display { fg: color_params(mode, 38, fg), ..d }),
{
    if fg != pf {
        lemma_color_bytes_params(mode, 51, fg);
        lemma_display_csi(d, color_inner(mode, 51, fg), 109u8);
        assert(display_sgr(Display { params: seq![], ..d }, color_params(mode, 38, fg)) =~= (
        Display { fg: color_params(mode, 38, fg), ..d }));
    }
}

#[verifier::rlimit(40)]
proof fn lemma_cell_shown(
    d: Display,
    cell: Cell,
    under: bool,
    pf: (u8, u8, u8),
    pb: (u8, u8, u8),
    mode: ColorMode,
)
    requires
        ready(d, mode, pf, pb),
        cell.ch as u32 >= 32,
        shown_colors(cell, under).0 != unset_color(),
        shown_colors(cell, under).1 != unset_color(),
    ensures
        ({
            let (fg, bg) = shown_colors(cell, under);
            let fgp = color_params(mode, 38, fg);
            let bgp = color_params(mode, 48, bg);
            display_run(d, cell_bytes(cell, under, pf, pb, mode)) == (Display {
                fg: fgp,
                bg: bgp,
                rows: d.rows.update(
                    d.rows.len() - 1,
                    d.rows.last() + glyphs(encode_scalar(cell.ch as u32), fgp, bgp),
                ),
                ..d
            })
        }),
{
    let fg = shown_colors(cell, under).0;
    let bg = shown_colors(cell, under).1;
    let fgp = color_params(mode, 38, fg);
    let bgp = color_params(mode, 48, bg);
    let bb: Seq<u8> = if bg != pb {
        color_bytes(mode, 52, bg)
    } else {
        seq![]
    };
    let fb: Seq<u8> = if fg != pf {
        color_bytes(mode, 51, fg)
    } else {
        seq![]
    };
    let text = encode_scalar(cell.ch as u32);
    assert(cell_bytes(cell, under, pf, pb, mode) == bb + fb + text);
    lemma_display_concat(d, bb + fb, text);
    lemma_display_concat(d, bb, fb);
    lemma_set_bg(d, bg, pb, mode);
    let d1 = Display { bg: bgp, ..d };
    lemma_set_fg(d1, fg, pf, mode);
    let d2 = Display { fg: fgp, bg: bgp, ..d };
    assert(Display { fg: fgp, ..d1 } == d2);
    vstd::utf8::char_is_scalar(cell.ch);
    lemma_scalar_bytes(cell.ch as u32);
    lemma_display_text(d2, text);
}

/// What row `r` of a `w`-column frame shows from column `c` on: each
/// cell's character, in its own colours, or black on light grey under the
/// cursor.
pub open spec fn shown_row(
    frame: Seq<Cell>,
    w: int,
    r: int,
    c: int,
    cursor: Option<(usize, usize)>,
    mode: ColorMode,
) -> Seq<Glyph>
    decreases w - c,
{
    if c < 0 || c >= w {
        seq![]
    } else {
        let cell = frame[r * w + c];
        let inverted = cursor == Some((c as usize, r as usize));
        let fg = if inverted {
            (0u8, 0u8, 0u8)
        } else {
            cell.fg
        };
        let bg = if inverted {
            (200u8, 200u8, 200u8)
        } else {
            cell.bg
        };
        glyphs(encode_scalar(cell.ch as u32), color_params(mode, 38, fg), color_params(mode, 48, bg))
            + shown_row(frame, w, r, c + 1, cursor, mode)
    }
}

/// The frame has no control character and no colour (255, 255, 255), the
/// one the renderer never writes at the start of a row.
pub open spec fn plain_frame(frame: Seq<Cell>) -> bool {
    forall|i: int|
        0 <= i < frame.len() ==> {
            &&& (#[trigger] frame[i]).ch as u32 >= 32
            &&& frame[i].fg != unset_color()
            &&& frame[i].bg != unset_color()
        }
}

#[verifier::rlimit(40)]
proof fn lemma_row_shown(
    d: Display,
    frame: Seq<Cell>,
    w: int,
    h: int,
    r: int,
    c: int,
    pf: (u8, u8, u8),
    pb: (u8, u8, u8),
    cursor: Option<(usize, usize)>,
    mode: ColorMode,
)
    requires
        ready(d, mode, pf, pb),
        0 <= c <= w <= 0xffff,
        0 <= r < h <= 0xffff,
        frame.len() == w * h,
        plain_frame(frame),
    ensures
        display_run(d, row_from(frame, w, r, c, pf, pb, cursor, mode)).phase == 0,
        display_run(d, row_from(frame, w, r, c, pf, pb, cursor, mode)).params == Seq::<u8>::empty(),
        display_run(d, row_from(frame, w, r, c, pf, pb, cursor, mode)).rows == d.rows.update(
            d.rows.len() - 1,
            d.rows.last() + shown_row(frame, w, r, c, cursor, mode),
        ),
    decreases w - c,
{
    if c >= w {
        assert(d.rows.last() + shown_row(frame, w, r, c, cursor, mode) =~= d.rows.last());
        assert(d.rows.update(d.rows.len() - 1, d.rows.last()) =~= d.rows);
    } else {
        crate::screen::lemma_cell_index(w, h, c, r);
        let i = r * w + c;
        let cell = frame[i];
        assert(cell.ch as u32 >= 32 && cell.fg != unset_color() && cell.bg != unset_color());
        let under = at_cursor(cursor, c, r);
        assert(under == (cursor == Some((c as usize, r as usize))));
        let (fg, bg) = shown_colors(cell, under);
        let cb = cell_bytes(cell, under, pf, pb, mode);
        let rest = row_from(frame, w, r, c + 1, fg, bg, cursor, mode);
        assert(row_from(frame, w, r, c, pf, pb, cursor, mode) == cb + rest);
        lemma_cell_shown(d, cell, under, pf, pb, mode);
        lemma_display_concat(d, cb, rest);
        let d1 = display_run(d, cb);
        lemma_row_shown(d1, frame, w, h, r, c + 1, fg, bg, cursor, mode);
        let g = glyphs(
            encode_scalar(cell.ch as u32),
            color_params(mode, 38, fg),
            color_params(mode, 48, bg),
        );
        assert(d1.rows.last() == d.rows.last() + g);
        assert(d.rows.last() + g + shown_row(frame, w, r, c + 1, cursor, mode) =~= d.rows.last()
            + shown_row(frame, w, r, c, cursor, mode));
        assert(d1.rows.update(
            d1.rows.len() - 1,
            d1.rows.last() + shown_row(frame, w, r, c + 1, cursor, mode),
        ) =~= d.rows.update(
            d.rows.len() - 1,
            d.rows.last() + shown_row(frame, w, r, c, cursor, mode),
        ));
    }
}

/// The rows of a `w` x `h` frame as the terminal shows them.
pub open spec fn shown_rows(
    frame: Seq<Cell>,
    w: int,
    h: int,
    cursor: Option<(usize, usize)>,
    mode: ColorMode,
) -> Seq<Seq<Glyph>> {
    if h <= 0 {
        seq![seq![]]
    } else {
        Seq::new(h as nat, |r: int| shown_row(frame, w, r, 0, cursor, mode))
    }
}

/// A reset clears the colours; the line break then starts a new row.
#[verifier::rlimit(40)]
proof fn lemma_row_end(d: Display)
    requires
        d.phase == 0,
    ensures
        display_run(d, row_end_bytes()) == (Display {
            params: seq![],
            fg: seq![],
            bg: seq![],
            rows: d.rows.push(seq![]),
            ..d
        }),
{
    lemma_single_param(48u8);
    let z: Seq<u8> = seq![48u8];
    assert(reset_bytes() =~= seq![27u8, 91u8] + z + seq![109u8]);
    assert(row_end_bytes() =~= reset_bytes().push(13u8).push(10u8));
    lemma_display_csi(d, z, 109u8);
    lemma_display_push(d, reset_bytes(), 13u8);
    lemma_display_push(d, reset_bytes().push(13u8), 10u8);
}

#[verifier::rlimit(40)]
proof fn lemma_rows_shown(
    frame: Seq<Cell>,
    w: int,
    h: int,
    k: int,
    cursor: Option<(usize, usize)>,
    mode: ColorMode,
)
    requires
        0 <= w <= 0xffff,
        0 < h <= 0xffff,
        0 <= k <= h,
        frame.len() == w * h,
        plain_frame(frame),
    ensures
        ({
            let e = display_run(fresh_display(), rows_bytes(frame, w, h, k, cursor, mode));
            let done = Seq::new(k as nat, |r: int| shown_row(frame, w, r, 0, cursor, mode));
            &&& e.phase == 0
            &&& e.params == Seq::<u8>::empty()
            &&& k < h ==> e.fg == Seq::<usize>::empty() && e.bg == Seq::<usize>::empty() && e.rows
                == done.push(seq![])
            &&& k == h ==> e.rows == done
        }),
    decreases k,
{
    let done = Seq::new(k as nat, |r: int| shown_row(frame, w, r, 0, cursor, mode));
    if k == 0 {
        assert(done.push(seq![]) =~= seq![seq![]]);
    } else {
        lemma_rows_shown(frame, w, h, k - 1, cursor, mode);
        let before = rows_bytes(frame, w, h, k - 1, cursor, mode);
        let e0 = display_run(fresh_display(), before);
        let prev = Seq::new((k - 1) as nat, |r: int| shown_row(frame, w, r, 0, cursor, mode));
        let row = row_from(frame, w, k - 1, 0, unset_color(), unset_color(), cursor, mode);
        let tail: Seq<u8> = if k < h {
            row_end_bytes()
        } else {
            seq![]
        };
        assert(rows_bytes(frame, w, h, k, cursor, mode) == before + row + tail);
        lemma_display_concat(fresh_display(), before + row, tail);
        lemma_display_concat(fresh_display(), before, row);
        lemma_row_shown(e0, frame, w, h, k - 1, 0, unset_color(), unset_color(), cursor, mode);
        let e1 = display_run(e0, row);
        assert(e1.rows =~= done);
        if k < h {
            lemma_row_end(e1);
        } else {
            assert(tail =~= Seq::<u8>::empty());
        }
    }
}

/// What a rendered frame shows: for a `w` x `h` frame whose cells hold no
/// control character and no colour (255, 255, 255), the terminal shows `h`
/// rows, and row `r` shows the characters of the cells `frame[r * w + c]`
/// for `c` from 0 to `w - 1`, in that order, each in the colours of its
/// cell, except the cell under the cursor, which is black on light grey.
#[verifier::rlimit(40)]
pub proof fn lemma_frame_shown(
    frame: Seq<Cell>,
    w: int,
    h: int,
    cursor: Option<(usize, usize)>,
    mode: ColorMode,
)
    requires
        0 <= w <= 0xffff,
        0 <= h <= 0xffff,
        frame.len() == w * h,
        plain_frame(frame),
    ensures
        display_run(fresh_display(), frame_bytes(frame, w, h, cursor, mode)).rows == shown_rows(
            frame,
            w,
            h,
            cursor,
            mode,
        ),
{
    let empty: Seq<u8> = seq![];
    assert(closed_params(empty) =~= Seq::<usize>::empty());
    assert(last_field(empty) =~= empty);
    assert(home_bytes() =~= seq![27u8, 91u8] + empty + seq![72u8]);
    lemma_display_csi(fresh_display(), empty, 72u8);
    assert(display_run(fresh_display(), home_bytes()) =~= fresh_display());
    let body = rows_bytes(frame, w, h, h, cursor, mode);
    lemma_display_concat(fresh_display(), home_bytes() + body, reset_bytes());
    lemma_display_concat(fresh_display(), home_bytes(), body);
    let e = display_run(fresh_display(), body);
    if h > 0 {
        lemma_rows_shown(frame, w, h, h, cursor, mode);
    } else {
        assert(body =~= Seq::<u8>::empty());
    }
    lemma_single_param(48u8);
    let z: Seq<u8> = seq![48u8];
    assert(reset_bytes() =~= seq![27u8, 91u8] + z + seq![109u8]);
    lemma_display_csi(e, z, 109u8);
    assert(display_run(e, reset_bytes()).rows == e.rows);
    assert(e.rows =~= shown_rows(frame, w, h, cursor, mode));
}

} // verus!
