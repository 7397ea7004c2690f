//! The fixed 8x16 bitmap font: one glyph per supported character and a
//! solid block for everything else.
//!
//! A glyph is 16 rows of 8 bits; bit `col` of a row, counted from the
//! left, says whether the pixel at that column is lit.

use vstd::prelude::*;

verus! {

/// Width of every glyph, in bitmap columns.
pub const GLYPH_WIDTH: usize = 8;

/// Height of every glyph, in bitmap rows.
pub const GLYPH_HEIGHT: usize = 16;

/// The characters that have a glyph of their own.
pub open spec fn supported_char(c: char) -> bool {
    c == 'B' || c == 'A' || c == 'E' || c == 'L' || c == ' '
}

pub open spec fn glyph_rows_b() -> Seq<u8> {
    seq![
        0x7cu8,
        0x42u8,
        0x42u8,
        0x42u8,
        0x7cu8,
        0x42u8,
        0x42u8,
        0x42u8,
        0x42u8,
        0x42u8,
        0x7cu8,
        0u8,
        0u8,
        0u8,
        0u8,
        0u8,
    ]
}

pub open spec fn glyph_rows_a() -> Seq<u8> {
    seq![
        0x3cu8,
        0x42u8,
        0x42u8,
        0x42u8,
        0x42u8,
        0x7eu8,
        0x42u8,
        0x42u8,
        0x42u8,
        0x42u8,
        0x42u8,
        0u8,
        0u8,
        0u8,
        0u8,
        0u8,
    ]
}

pub open spec fn glyph_rows_e() -> Seq<u8> {
    seq![
        0x7eu8,
        0x40u8,
        0x40u8,
        0x40u8,
        0x40u8,
        0x7cu8,
        0x40u8,
        0x40u8,
        0x40u8,
        0x40u8,
        0x7eu8,
        0u8,
        0u8,
        0u8,
        0u8,
        0u8,
    ]
}

pub open spec fn glyph_rows_l() -> Seq<u8> {
    seq![
        0x40u8,
        0x40u8,
        0x40u8,
        0x40u8,
        0x40u8,
        0x40u8,
        0x40u8,
        0x40u8,
        0x40u8,
        0x40u8,
        0x7eu8,
        0u8,
        0u8,
        0u8,
        0u8,
        0u8,
    ]
}

pub open spec fn glyph_rows_space() -> Seq<u8> {
    seq![0u8, 0u8, 0u8, 0u8, 0u8, 0u8, 0u8, 0u8, 0u8, 0u8, 0u8, 0u8, 0u8, 0u8, 0u8, 0u8]
}

/// The solid block shown for any character without a glyph of its own.
pub open spec fn fallback_glyph() -> Seq<u8> {
    seq![
        0x7eu8,
        0x7eu8,
        0x7eu8,
        0x7eu8,
        0x7eu8,
        0x7eu8,
        0x7eu8,
        0x7eu8,
        0x7eu8,
        0x7eu8,
        0x7eu8,
        0u8,
        0u8,
        0u8,
        0u8,
        0u8,
    ]
}

/// The bitmap of a character: its own glyph if supported, the fallback
/// block otherwise. Total on all of `char`.
pub open spec fn spec_glyph(c: char) -> Seq<u8> {
    if c == 'B' {
        glyph_rows_b()
    } else if c == 'A' {
        glyph_rows_a()
    } else if c == 'E' {
        glyph_rows_e()
    } else if c == 'L' {
        glyph_rows_l()
    } else if c == ' ' {
        glyph_rows_space()
    } else {
        fallback_glyph()
    }
}

/// Whether bit `col` (counted from the left) of a glyph row is lit.
pub open spec fn glyph_bit(bits: u8, col: int) -> bool {
    (bits >> ((7 - col) as u8)) & 1 == 1
}

/// Bitmap lookup for one character; never fails, unknown characters get
/// the fallback block.
pub fn get_glyph(ch: char) -> (g: [u8; 16])
    ensures
        g@ == spec_glyph(ch),
{
    if ch == 'B' {
        let g: [u8; 16] = [
            0x7c,
            0x42,
            0x42,
            0x42,
            0x7c,
            0x42,
            0x42,
            0x42,
            0x42,
            0x42,
            0x7c,
            0,
            0,
            0,
            0,
            0,
        ];
        proof {
            assert(g@ =~= glyph_rows_b());
        }
        g
    } else if ch == 'A' {
        let g: [u8; 16] = [
            0x3c,
            0x42,
            0x42,
            0x42,
            0x42,
            0x7e,
            0x42,
            0x42,
            0x42,
            0x42,
            0x42,
            0,
            0,
            0,
            0,
            0,
        ];
        proof {
            assert(g@ =~= glyph_rows_a());
        }
        g
    } else if ch == 'E' {
        let g: [u8; 16] = [
            0x7e,
            0x40,
            0x40,
            0x40,
            0x40,
            0x7c,
            0x40,
            0x40,
            0x40,
            0x40,
            0x7e,
            0,
            0,
            0,
            0,
            0,
        ];
        proof {
            assert(g@ =~= glyph_rows_e());
        }
        g
    } else if ch == 'L' {
        let g: [u8; 16] = [
            0x40,
            0x40,
            0x40,
            0x40,
            0x40,
            0x40,
            0x40,
            0x40,
            0x40,
            0x40,
            0x7e,
            0,
            0,
            0,
            0,
            0,
        ];
        proof {
            assert(g@ =~= glyph_rows_l());
        }
        g
    } else if ch == ' ' {
        let g: [u8; 16] = [0, 0, 0, 0, 0, 0, 0, 0, 0, 0, 0, 0, 0, 0, 0, 0];
        proof {
            assert(g@ =~= glyph_rows_space());
        }
        g
    } else {
        let g: [u8; 16] = [
            0x7e,
            0x7e,
            0x7e,
            0x7e,
            0x7e,
            0x7e,
            0x7e,
            0x7e,
            0x7e,
            0x7e,
            0x7e,
            0,
            0,
            0,
            0,
            0,
        ];
        proof {
            assert(g@ =~= fallback_glyph());
        }
        g
    }
}

/// Law: all unsupported characters share the one fallback block glyph.
pub proof fn lemma_unsupported_fallback(c: char)
    requires
        !supported_char(c),
    ensures
        spec_glyph(c) == fallback_glyph(),
{
}

/// Law: every glyph has exactly 16 rows.
pub proof fn lemma_glyph_len(c: char)
    ensures
        spec_glyph(c).len() == 16,
{
}

} // verus!
