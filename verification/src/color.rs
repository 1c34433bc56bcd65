//! Mapping a 24-bit colour onto the xterm 256-colour palette.

use vstd::prelude::*;

verus! {

/// The level (0..=5) of the 6x6x6 colour cube nearest to a channel value.
pub open spec fn cube_level(c: u8) -> int {
    (c * 5 + 127) / 255
}

/// The palette index for a colour: greys (equal channels) go to the grey
/// ramp 232..=255, with the darkest to 16 (black) and the lightest to 231
/// (white); other colours go to the nearest point of the colour cube
/// 16..=231.
pub open spec fn spec_rgb_to_256(r: u8, g: u8, b: u8) -> u8 {
    if r == g && g == b {
        if r < 8 {
            16
        } else if r > 248 {
            231
        } else {
            (232 + (r - 8) * 24 / 247) as u8
        }
    } else {
        (16 + 36 * cube_level(r) + 6 * cube_level(g) + cube_level(b)) as u8
    }
}

fn cube_level_of(c: u8) -> (l: u32)
    ensures
        l == cube_level(c),
        l <= 5,
{
    (c as u32 * 5 + 127) / 255
}

/// The xterm 256-colour palette index nearest to the colour `(r, g, b)`.
pub fn rgb_to_256(r: u8, g: u8, b: u8) -> (i: u8)
    ensures
        i == spec_rgb_to_256(r, g, b),
{
    if r == g && g == b {
        if r < 8 {
            16
        } else if r > 248 {
            231
        } else {
            let step = (r as u32 - 8) * 24 / 247;
            assert(step <= 23) by (nonlinear_arith)
                requires
                    step == (r - 8) * 24 / 247,
                    8 <= r <= 248,
            ;
            (232 + step) as u8
        }
    } else {
        let v = 16 + 36 * cube_level_of(r) + 6 * cube_level_of(g) + cube_level_of(b);
        v as u8
    }
}

} // verus!
