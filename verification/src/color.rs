//! Colors as four bytes per pixel, packed and unpacked the way the
//! framebuffer stores them: a `0xAARRGGBB` word becomes its little-endian
//! bytes.  The checkerboard cell color used by the environment map is
//! decided here from the integer cell coordinates.

use vstd::prelude::*;

verus! {

/// An RGBA color, one byte per channel, in framebuffer order.
pub type Color = [u8; 4];

/// The little-endian bytes of a packed color word.
pub open spec fn spec_color_of(c: u32) -> Seq<u8> {
    seq![
        (c % 256) as u8,
        ((c / 256) % 256) as u8,
        ((c / 65536) % 256) as u8,
        ((c / 16777216) % 256) as u8,
    ]
}

/// Unpacks a `0xAARRGGBB` word into its little-endian bytes, as the
/// gradient stops and the checkerboard colors are written.
pub fn color_from_u32(c: u32) -> (col: Color)
    ensures
        col@ == spec_color_of(c),
{
    let col: Color = [
        (c % 256) as u8,
        ((c / 256) % 256) as u8,
        ((c / 65536) % 256) as u8,
        ((c / 16777216) % 256) as u8,
    ];
    proof {
        assert(col@ =~= spec_color_of(c));
    }
    col
}

/// Whether a checkerboard cell is a white cell: the cell coordinates
/// sum to an even number.
pub open spec fn white_cell(a: int, b: int) -> bool {
    (a + b) % 2 == 0
}

/// The color of a checkerboard cell: opaque white on even cells, opaque
/// black on odd ones.  The cell coordinates come from the caller's
/// projection of a direction onto the board.
pub fn checker_color(a: i32, b: i32) -> (col: Color)
    ensures
        white_cell(a as int, b as int) ==> col@ == spec_color_of(0xffffffffu32),
        !white_cell(a as int, b as int) ==> col@ == spec_color_of(0xff000000u32),
{
    let ua: u32 = if a >= 0 {
        a as u32
    } else {
        (-(a as i64)) as u32
    };
    let ub: u32 = if b >= 0 {
        b as u32
    } else {
        (-(b as i64)) as u32
    };
    let even = (ua % 2 + ub % 2) % 2 == 0;
    proof {
        lemma_parity_cast(a as int, ua);
        lemma_parity_cast(b as int, ub);
        assert(even == white_cell(a as int, b as int));
    }
    if even {
        color_from_u32(0xffffffffu32)
    } else {
        color_from_u32(0xff000000u32)
    }
}

/// A number and its absolute value have the same parity.
proof fn lemma_parity_cast(a: int, ua: u32)
    requires
        ua == (if a >= 0 {
            a
        } else {
            -a
        }),
    ensures
        ua % 2 == a % 2,
{
    if a < 0 {
        assert((-a) % 2 == a % 2) by (nonlinear_arith);
    }
}

} // verus!
