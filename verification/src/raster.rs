//! The glyph rasterizer: blits glyphs into a row-major pixel buffer at an
//! (x, y) origin with a configurable stroke thickness, clipping every
//! write to the buffer bounds.
//!
//! Each lit glyph bit at bitmap position (col, row) becomes a
//! `thickness x thickness` square of solid color whose top-left corner is
//! `(x + col, y + row)`: strokes grow bolder without changing the glyph
//! pitch. Out-of-range pixels are silently skipped, never an error.

use crate::glyphs::{glyph_bit, spec_glyph};
use crate::grid::{blit, lemma_blit_compose, lemma_blit_equiv, lemma_pix_bounds,
    lemma_pix_injective, pix};
use vstd::pervasive::VecAdditionalExecFns;
use vstd::prelude::*;

verus! {

/// Pixels covered by the thickness-`t` square whose top-left corner is
/// `(bx, by)`.
pub open spec fn block_covers(bx: int, by: int, t: int, qx: int, qy: int) -> bool {
    bx <= qx < bx + t && by <= qy < by + t
}

/// Pixels covered by glyph `g` drawn at origin `(x, y)` with stroke
/// thickness `t`.
pub open spec fn char_covers(g: Seq<u8>, x: int, y: int, t: int, qx: int, qy: int) -> bool {
    exists|row: int, col: int|
        #![trigger glyph_bit(g[row], col)]
        0 <= row < 16 && 0 <= col < 8 && glyph_bit(g[row], col) && block_covers(
            x + col,
            y + row,
            t,
            qx,
            qy,
        )
}

/// Like `char_covers`, but only through the glyph bits strictly before
/// scan position `k` (bits are scanned row-major: position `row * 8 + col`).
pub open spec fn char_covers_upto(
    g: Seq<u8>,
    x: int,
    y: int,
    t: int,
    k: int,
    qx: int,
    qy: int,
) -> bool {
    exists|row: int, col: int|
        #![trigger glyph_bit(g[row], col)]
        0 <= row < 16 && 0 <= col < 8 && row * 8 + col < k && glyph_bit(g[row], col)
            && block_covers(x + col, y + row, t, qx, qy)
}

/// Origin of the `i`-th character of a text drawn from `x` with stroke
/// thickness `t`: characters advance `8 * t` pixels.
pub open spec fn char_origin(x: int, t: int, i: int) -> int {
    x + i * 8 * t
}

/// Pixels covered by the text `s` drawn left to right from `(x, y)` with
/// stroke thickness `t`.
pub open spec fn text_covers(s: Seq<char>, x: int, y: int, t: int, qx: int, qy: int) -> bool {
    exists|i: int|
        #![trigger char_origin(x, t, i)]
        0 <= i < s.len() && char_covers(spec_glyph(s[i]), char_origin(x, t, i), y, t, qx, qy)
}

/// Like `text_covers`, but only through the first `k` characters.
pub open spec fn text_covers_upto(
    s: Seq<char>,
    x: int,
    y: int,
    t: int,
    k: int,
    qx: int,
    qy: int,
) -> bool {
    exists|i: int|
        #![trigger char_origin(x, t, i)]
        0 <= i < k && i < s.len() && char_covers(spec_glyph(s[i]), char_origin(x, t, i), y, t, qx, qy)
}

/// The fixed text every line of the screensaver repeats.
pub open spec fn babel_text() -> Seq<char> {
    seq!['B', 'A', 'B', 'E', 'L', ' ']
}

/// Origin of the `k`-th repetition of the text on a line: repetitions
/// advance `48 * t` pixels (6 characters of 8 columns, stroke `t`).
pub open spec fn rep_origin(t: int, k: int) -> int {
    k * (48 * t)
}

/// Pixels covered by a full line: the fixed text repeated from `x == 0`
/// across the whole width, each repetition drawn at height `y`.
pub open spec fn line_covers(width: int, y: int, t: int, qx: int, qy: int) -> bool {
    exists|k: int|
        #![trigger rep_origin(t, k)]
        0 <= k && rep_origin(t, k) < width && text_covers(
            babel_text(),
            rep_origin(t, k),
            y,
            t,
            qx,
            qy,
        )
}

/// Like `line_covers`, but only through the first `kmax` repetitions.
pub open spec fn line_covers_upto(
    width: int,
    y: int,
    t: int,
    kmax: int,
    qx: int,
    qy: int,
) -> bool {
    exists|k: int|
        #![trigger rep_origin(t, k)]
        0 <= k < kmax && rep_origin(t, k) < width && text_covers(
            babel_text(),
            rep_origin(t, k),
            y,
            t,
            qx,
            qy,
        )
}

/// A text drawn at `x` covers no pixel left of `x`: glyph squares only
/// extend rightward from the origin.
pub proof fn lemma_text_covers_min_x(s: Seq<char>, x: int, y: int, t: int, qx: int, qy: int)
    requires
        text_covers(s, x, y, t, qx, qy),
        0 <= t,
    ensures
        qx >= x,
{
    let i = choose|i: int|
        0 <= i < s.len() && char_covers(spec_glyph(s[i]), #[trigger] char_origin(x, t, i), y, t, qx, qy);
    assert(0 <= i * 8 * t) by (nonlinear_arith)
        requires
            0 <= i,
            0 <= t,
    ;
    let g = spec_glyph(s[i]);
    let ox = char_origin(x, t, i);
    let (row, col) = choose|row: int, col: int|
        0 <= row < 16 && 0 <= col < 8 && #[trigger] glyph_bit(g[row], col) && block_covers(
            ox + col,
            y + row,
            t,
            qx,
            qy,
        );
    assert(ox + col <= qx);
}

/// Paints the part of a thickness-`t` square at `(bx, by)` that lies
/// inside the buffer. The clipped bounds are computed up front, so every
/// write is in range by construction.
#[verifier::loop_isolation(false)]
fn paint_block(
    buffer: &mut Vec<u32>,
    width: usize,
    height: usize,
    bx: i64,
    by: i64,
    t: usize,
    color: u32,
)
    requires
        old(buffer).len() == width * height,
        width <= 0x7fff_ffff,
        height <= 0x7fff_ffff,
        t <= 0x7fff_ffff,
        -0x1_0000_0000 <= bx as int <= 0x1_0000_0000,
        -0x1_0000_0000 <= by as int <= 0x1_0000_0000,
    ensures
        final(buffer).len() == old(buffer).len(),
        blit(
            old(buffer)@,
            final(buffer)@,
            width as int,
            height as int,
            color,
            (|qx: int, qy: int| block_covers(bx as int, by as int, t as int, qx, qy)),
        ),
{
    let wi = width as i64;
    let hi = height as i64;
    let ti = t as i64;
    let x_lo: usize = if bx < 0 {
        0
    } else if bx > wi {
        width
    } else {
        bx as usize
    };
    let x_hi: usize = if bx + ti < 0 {
        0
    } else if bx + ti > wi {
        width
    } else {
        (bx + ti) as usize
    };
    let y_lo: usize = if by < 0 {
        0
    } else if by > hi {
        height
    } else {
        by as usize
    };
    let y_hi: usize = if by + ti < 0 {
        0
    } else if by + ti > hi {
        height
    } else {
        (by + ti) as usize
    };
    let mut py = y_lo;
    while py < y_hi
        invariant
            y_lo <= py <= y_hi,
            buffer.len() == old(buffer).len(),
            blit(
                old(buffer)@,
                buffer@,
                width as int,
                height as int,
                color,
                (|qx: int, qy: int|
                    block_covers(bx as int, by as int, t as int, qx, qy) && qy < py),
            ),
        decreases y_hi - py,
    {
        let mut px = x_lo;
        while px < x_hi
            invariant
                y_lo <= py < y_hi,
                x_lo <= px <= x_hi,
                buffer.len() == old(buffer).len(),
                blit(
                    old(buffer)@,
                    buffer@,
                    width as int,
                    height as int,
                    color,
                    (|qx: int, qy: int|
                        block_covers(bx as int, by as int, t as int, qx, qy) && (qy < py || (qy
                            == py && qx < px))),
                ),
            decreases x_hi - px,
        {
            proof {
                lemma_pix_bounds(width as int, height as int, px as int, py as int);
            }
            let idx = py * width + px;
            let ghost before = buffer@;
            buffer.set(idx, color);
            proof {
                let w = width as int;
                let h = height as int;
                let prev = |qx: int, qy: int|
                    block_covers(bx as int, by as int, t as int, qx, qy) && (qy < py || (qy == py
                        && qx < px));
                let next = |qx: int, qy: int|
                    block_covers(bx as int, by as int, t as int, qx, qy) && (qy < py || (qy == py
                        && qx < px + 1));
                assert forall|qx: int, qy: int|
                    #![trigger pix(w, qx, qy)]
                    0 <= qx < w && 0 <= qy < h implies buffer@[pix(w, qx, qy)] == (if next(
                    qx,
                    qy,
                ) {
                    color
                } else {
                    old(buffer)@[pix(w, qx, qy)]
                }) by {
                    lemma_pix_bounds(w, h, qx, qy);
                    if pix(w, qx, qy) == pix(w, px as int, py as int) {
                        lemma_pix_injective(w, h, qx, qy, px as int, py as int);
                        assert(qx == px && qy == py);
                        assert(next(qx, qy));
                    } else {
                        assert(buffer@[pix(w, qx, qy)] == before[pix(w, qx, qy)]);
                        assert(before[pix(w, qx, qy)] == (if prev(qx, qy) {
                            color
                        } else {
                            old(buffer)@[pix(w, qx, qy)]
                        }));
                        assert(prev(qx, qy) <==> next(qx, qy));
                    }
                }
            }
            px = px + 1;
        }
        proof {
            let w = width as int;
            let h = height as int;
            let row_done = |qx: int, qy: int|
                block_covers(bx as int, by as int, t as int, qx, qy) && (qy < py || (qy == py && qx
                    < x_hi));
            let next_row = |qx: int, qy: int|
                block_covers(bx as int, by as int, t as int, qx, qy) && qy < py + 1;
            assert forall|qx: int, qy: int| 0 <= qx < w && 0 <= qy < h implies (#[trigger] row_done(
                qx,
                qy,
            ) <==> next_row(qx, qy)) by {
                if 0 <= qx < w && 0 <= qy < h && block_covers(
                    bx as int,
                    by as int,
                    t as int,
                    qx,
                    qy,
                ) && qy == py {
                    assert(qx < x_hi);
                }
            }
            lemma_blit_equiv(old(buffer)@, buffer@, w, h, color, row_done, next_row);
        }
        py = py + 1;
    }
    proof {
        let w = width as int;
        let h = height as int;
        let all_rows = |qx: int, qy: int|
            block_covers(bx as int, by as int, t as int, qx, qy) && qy < y_hi;
        let full = |qx: int, qy: int| block_covers(bx as int, by as int, t as int, qx, qy);
        assert forall|qx: int, qy: int| 0 <= qx < w && 0 <= qy < h implies (#[trigger] all_rows(
            qx,
            qy,
        ) <==> full(qx, qy)) by {
            if 0 <= qx < w && 0 <= qy < h && block_covers(bx as int, by as int, t as int, qx, qy) {
                assert(qy < y_hi);
            }
        }
        lemma_blit_equiv(old(buffer)@, buffer@, w, h, color, all_rows, full);
    }
}

/// Draws one character: every lit bit of its glyph becomes a clipped
/// thickness-square of `color`; every other pixel is left untouched.
#[verifier::loop_isolation(false)]
pub fn draw_char(
    buffer: &mut Vec<u32>,
    width: usize,
    height: usize,
    x: i32,
    y: i32,
    ch: char,
    color: u32,
    thickness: usize,
)
    requires
        old(buffer).len() == width * height,
        width <= 0x7fff_ffff,
        height <= 0x7fff_ffff,
        thickness <= 0x7fff_ffff,
    ensures
        final(buffer).len() == old(buffer).len(),
        blit(
            old(buffer)@,
            final(buffer)@,
            width as int,
            height as int,
            color,
            (|qx: int, qy: int|
                char_covers(
                    spec_glyph(ch),
                    x as int,
                    y as int,
                    thickness as int,
                    qx,
                    qy,
                )),
        ),
{
    let glyph = crate::glyphs::get_glyph(ch);
    let ghost g = spec_glyph(ch);
    let ghost xi = x as int;
    let ghost yi = y as int;
    let ghost ti = thickness as int;
    let mut row: usize = 0;
    while row < 16
        invariant
            row <= 16,
            buffer.len() == old(buffer).len(),
            blit(
                old(buffer)@,
                buffer@,
                width as int,
                height as int,
                color,
                (|qx: int, qy: int| char_covers_upto(g, xi, yi, ti, row as int * 8, qx, qy)),
            ),
        decreases 16 - row,
    {
        let bits = glyph[row];
        let mut col: usize = 0;
        while col < 8
            invariant
                row < 16,
                col <= 8,
                bits == g[row as int],
                buffer.len() == old(buffer).len(),
                blit(
                    old(buffer)@,
                    buffer@,
                    width as int,
                    height as int,
                    color,
                    (|qx: int, qy: int|
                        char_covers_upto(g, xi, yi, ti, row as int * 8 + col as int, qx, qy)),
                ),
            decreases 8 - col,
        {
            let ghost k = row as int * 8 + col as int;
            let ghost prev = |qx: int, qy: int| char_covers_upto(g, xi, yi, ti, k, qx, qy);
            let ghost next = |qx: int, qy: int| char_covers_upto(g, xi, yi, ti, k + 1, qx, qy);
            let ghost w = width as int;
            let ghost h = height as int;
            if (bits >> ((7 - col) as u8)) & 1 == 1 {
                assert(glyph_bit(g[row as int], col as int));
                let ghost mid = buffer@;
                paint_block(
                    buffer,
                    width,
                    height,
                    x as i64 + col as i64,
                    y as i64 + row as i64,
                    thickness,
                    color,
                );
                proof {
                    let bxi = xi + col as int;
                    let byi = yi + row as int;
                    let bcov = |qx: int, qy: int| block_covers(bxi, byi, ti, qx, qy);
                    assert forall|qx: int, qy: int| 0 <= qx < w && 0 <= qy < h implies (
                    #[trigger] next(qx, qy) <==> prev(qx, qy) || bcov(qx, qy)) by {
                        if next(qx, qy) {
                            let (r, c) = choose|r: int, c: int|
                                0 <= r < 16 && 0 <= c < 8 && r * 8 + c < k + 1 && #[trigger]
                                glyph_bit(g[r], c) && block_covers(xi + c, yi + r, ti, qx, qy);
                            if r * 8 + c < k {
                                assert(prev(qx, qy));
                            } else {
                                assert(r * 8 + c == k);
                                assert(r == row as int && c == col as int);
                                assert(bcov(qx, qy));
                            }
                        }
                        if prev(qx, qy) {
                            let (r, c) = choose|r: int, c: int|
                                0 <= r < 16 && 0 <= c < 8 && r * 8 + c < k && #[trigger]
                                glyph_bit(g[r], c) && block_covers(xi + c, yi + r, ti, qx, qy);
                            assert(glyph_bit(g[r], c));
                            assert(next(qx, qy));
                        }
                        if bcov(qx, qy) {
                            assert(glyph_bit(g[row as int], col as int));
                            assert(next(qx, qy));
                        }
                    }
                    lemma_blit_compose(
                        old(buffer)@,
                        mid,
                        buffer@,
                        w,
                        h,
                        color,
                        prev,
                        bcov,
                        next,
                    );
                }
            } else {
                proof {
                    assert(!glyph_bit(g[row as int], col as int));
                    assert forall|qx: int, qy: int| 0 <= qx < w && 0 <= qy < h implies (
                    #[trigger] prev(qx, qy) <==> next(qx, qy)) by {
                        if next(qx, qy) {
                            let (r, c) = choose|r: int, c: int|
                                0 <= r < 16 && 0 <= c < 8 && r * 8 + c < k + 1 && #[trigger]
                                glyph_bit(g[r], c) && block_covers(xi + c, yi + r, ti, qx, qy);
                            if r * 8 + c == k {
                                assert(r == row as int && c == col as int);
                                assert(false);
                            }
                            assert(prev(qx, qy));
                        }
                        if prev(qx, qy) {
                            let (r, c) = choose|r: int, c: int|
                                0 <= r < 16 && 0 <= c < 8 && r * 8 + c < k && #[trigger]
                                glyph_bit(g[r], c) && block_covers(xi + c, yi + r, ti, qx, qy);
                            assert(glyph_bit(g[r], c));
                            assert(next(qx, qy));
                        }
                    }
                    lemma_blit_equiv(old(buffer)@, buffer@, w, h, color, prev, next);
                }
            }
            col = col + 1;
        }
        proof {
            assert(row as int * 8 + 8 == (row as int + 1) * 8);
        }
        row = row + 1;
    }
    proof {
        let w = width as int;
        let h = height as int;
        let done = |qx: int, qy: int| char_covers_upto(g, xi, yi, ti, 128, qx, qy);
        let full = |qx: int, qy: int| char_covers(g, xi, yi, ti, qx, qy);
        assert forall|qx: int, qy: int| 0 <= qx < w && 0 <= qy < h implies (#[trigger] done(qx, qy)
            <==> full(qx, qy)) by {
            if full(qx, qy) {
                let (r, c) = choose|r: int, c: int|
                    0 <= r < 16 && 0 <= c < 8 && #[trigger] glyph_bit(g[r], c) && block_covers(
                        xi + c,
                        yi + r,
                        ti,
                        qx,
                        qy,
                    );
                assert(r * 8 + c < 128);
                assert(done(qx, qy));
            }
            if done(qx, qy) {
                let (r, c) = choose|r: int, c: int|
                    0 <= r < 16 && 0 <= c < 8 && r * 8 + c < 128 && #[trigger] glyph_bit(g[r], c)
                        && block_covers(xi + c, yi + r, ti, qx, qy);
                assert(glyph_bit(g[r], c));
                assert(full(qx, qy));
            }
        }
        lemma_blit_equiv(old(buffer)@, buffer@, w, h, color, done, full);
    }
}

/// Draws `text` left to right from `(x, y)`, advancing `8 * thickness`
/// pixels per character; every pixel outside the covered glyph squares is
/// left untouched.
#[verifier::loop_isolation(false)]
pub fn draw_text(
    buffer: &mut Vec<u32>,
    width: usize,
    height: usize,
    x: i32,
    y: i32,
    text: &str,
    color: u32,
    thickness: usize,
)
    requires
        old(buffer).len() == width * height,
        width <= 0x7fff_ffff,
        height <= 0x7fff_ffff,
        thickness <= 0x7fff_ffff,
        text@.len() <= 0x7fff_ffff,
        x as int + text@.len() * 8 * (thickness as int) <= 0x7fff_ffff,
    ensures
        final(buffer).len() == old(buffer).len(),
        blit(
            old(buffer)@,
            final(buffer)@,
            width as int,
            height as int,
            color,
            (|qx: int, qy: int|
                text_covers(text@, x as int, y as int, thickness as int, qx, qy)),
        ),
{
    let ghost s = text@;
    let ghost xi = x as int;
    let ghost yi = y as int;
    let ghost ti = thickness as int;
    let n = text.unicode_len();
    let mut i: usize = 0;
    while i < n
        invariant
            i <= n,
            n == s.len(),
            buffer.len() == old(buffer).len(),
            blit(
                old(buffer)@,
                buffer@,
                width as int,
                height as int,
                color,
                (|qx: int, qy: int| text_covers_upto(s, xi, yi, ti, i as int, qx, qy)),
            ),
        decreases n - i,
    {
        let ch = text.get_char(i);
        proof {
            assert(0 <= (i as int) * 8 * ti && (i as int) * 8 * ti <= (s.len() as int) * 8 * ti)
                by (nonlinear_arith)
                requires
                    0 <= i as int <= s.len() as int,
                    0 <= ti,
            ;
        }
        let cx64: i64 = x as i64 + (i as i64) * 8 * (thickness as i64);
        let cx: i32 = cx64 as i32;
        proof {
            assert(cx as int == char_origin(xi, ti, i as int));
        }
        let ghost mid = buffer@;
        draw_char(buffer, width, height, cx, y, ch, color, thickness);
        proof {
            let w = width as int;
            let h = height as int;
            let prev = |qx: int, qy: int| text_covers_upto(s, xi, yi, ti, i as int, qx, qy);
            let next = |qx: int, qy: int| text_covers_upto(s, xi, yi, ti, i as int + 1, qx, qy);
            let ccov = |qx: int, qy: int|
                char_covers(spec_glyph(ch), cx as int, yi, ti, qx, qy);
            assert forall|qx: int, qy: int| 0 <= qx < w && 0 <= qy < h implies (#[trigger] next(
                qx,
                qy,
            ) <==> prev(qx, qy) || ccov(qx, qy)) by {
                if next(qx, qy) {
                    let j = choose|j: int|
                        0 <= j < i as int + 1 && j < s.len() && char_covers(
                            spec_glyph(s[j]),
                            #[trigger] char_origin(xi, ti, j),
                            yi,
                            ti,
                            qx,
                            qy,
                        );
                    if j < i as int {
                        assert(prev(qx, qy));
                    } else {
                        assert(j == i as int);
                        assert(ccov(qx, qy));
                    }
                }
                if prev(qx, qy) {
                    let j = choose|j: int|
                        0 <= j < i as int && j < s.len() && char_covers(
                            spec_glyph(s[j]),
                            #[trigger] char_origin(xi, ti, j),
                            yi,
                            ti,
                            qx,
                            qy,
                        );
                    assert(char_origin(xi, ti, j) == char_origin(xi, ti, j));
                    assert(next(qx, qy));
                }
                if ccov(qx, qy) {
                    assert(char_origin(xi, ti, i as int) == cx as int);
                    assert(next(qx, qy));
                }
            }
            lemma_blit_compose(old(buffer)@, mid, buffer@, w, h, color, prev, ccov, next);
        }
        i = i + 1;
    }
    proof {
        let w = width as int;
        let h = height as int;
        let done = |qx: int, qy: int| text_covers_upto(s, xi, yi, ti, n as int, qx, qy);
        let full = |qx: int, qy: int| text_covers(s, xi, yi, ti, qx, qy);
        assert forall|qx: int, qy: int| 0 <= qx < w && 0 <= qy < h implies (#[trigger] done(qx, qy)
            <==> full(qx, qy)) by {
            if full(qx, qy) {
                let j = choose|j: int|
                    0 <= j < s.len() && char_covers(
                        spec_glyph(s[j]),
                        #[trigger] char_origin(xi, ti, j),
                        yi,
                        ti,
                        qx,
                        qy,
                    );
                assert(j < n as int);
                assert(done(qx, qy));
            }
            if done(qx, qy) {
                let j = choose|j: int|
                    0 <= j < n as int && j < s.len() && char_covers(
                        spec_glyph(s[j]),
                        #[trigger] char_origin(xi, ti, j),
                        yi,
                        ti,
                        qx,
                        qy,
                    );
                assert(char_origin(xi, ti, j) == char_origin(xi, ti, j));
                assert(full(qx, qy));
            }
        }
        lemma_blit_equiv(old(buffer)@, buffer@, w, h, color, done, full);
    }
}

/// Fills one whole line: repeats the fixed text from the left edge until
/// the repetitions pass the right edge, each drawn at height `y`.
#[verifier::loop_isolation(false)]
pub fn draw_line_at_y(
    buffer: &mut Vec<u32>,
    width: usize,
    height: usize,
    y: i32,
    color: u32,
    thickness: usize,
)
    requires
        old(buffer).len() == width * height,
        width <= 0x7fff_ffff,
        height <= 0x7fff_ffff,
        1 <= thickness,
        width as int + 48 * (thickness as int) <= 0x7fff_ffff,
    ensures
        final(buffer).len() == old(buffer).len(),
        blit(
            old(buffer)@,
            final(buffer)@,
            width as int,
            height as int,
            color,
            (|qx: int, qy: int| line_covers(width as int, y as int, thickness as int, qx, qy)),
        ),
{
    let ghost w = width as int;
    let ghost h = height as int;
    let ghost yi = y as int;
    let ghost ti = thickness as int;
    let babel_width: usize = 48 * thickness;
    let text = "BABEL ";
    proof {
        reveal_strlit("BABEL ");
        assert(text@ =~= babel_text());
    }
    let mut x: usize = 0;
    let ghost mut k: int = 0;
    while x < width
        invariant
            0 <= k,
            x as int == rep_origin(ti, k),
            buffer.len() == old(buffer).len(),
            blit(
                old(buffer)@,
                buffer@,
                w,
                h,
                color,
                (|qx: int, qy: int| line_covers_upto(w, yi, ti, k, qx, qy)),
            ),
        decreases width + 48 * thickness - x,
    {
        let ghost mid = buffer@;
        draw_text(buffer, width, height, x as i32, y, text, color, thickness);
        proof {
            let prev = |qx: int, qy: int| line_covers_upto(w, yi, ti, k, qx, qy);
            let next = |qx: int, qy: int| line_covers_upto(w, yi, ti, k + 1, qx, qy);
            let tcov = |qx: int, qy: int| text_covers(babel_text(), x as int, yi, ti, qx, qy);
            assert forall|qx: int, qy: int| 0 <= qx < w && 0 <= qy < h implies (#[trigger] next(
                qx,
                qy,
            ) <==> prev(qx, qy) || tcov(qx, qy)) by {
                if next(qx, qy) {
                    let k2 = choose|k2: int|
                        0 <= k2 < k + 1 && #[trigger] rep_origin(ti, k2) < w && text_covers(
                            babel_text(),
                            rep_origin(ti, k2),
                            yi,
                            ti,
                            qx,
                            qy,
                        );
                    if k2 < k {
                        assert(prev(qx, qy));
                    } else {
                        assert(k2 == k);
                        assert(tcov(qx, qy));
                    }
                }
                if prev(qx, qy) {
                    let k2 = choose|k2: int|
                        0 <= k2 < k && #[trigger] rep_origin(ti, k2) < w && text_covers(
                            babel_text(),
                            rep_origin(ti, k2),
                            yi,
                            ti,
                            qx,
                            qy,
                        );
                    assert(rep_origin(ti, k2) == rep_origin(ti, k2));
                    assert(next(qx, qy));
                }
                if tcov(qx, qy) {
                    assert(rep_origin(ti, k) == x as int);
                    assert(rep_origin(ti, k) < w);
                    assert(next(qx, qy));
                }
            }
            lemma_blit_compose(old(buffer)@, mid, buffer@, w, h, color, prev, tcov, next);
        }
        x = x + babel_width;
        proof {
            k = k + 1;
            assert((k - 1) * (48 * ti) + (48 * ti) == k * (48 * ti)) by (nonlinear_arith);
        }
    }
    proof {
        let done = |qx: int, qy: int| line_covers_upto(w, yi, ti, k, qx, qy);
        let full = |qx: int, qy: int| line_covers(w, yi, ti, qx, qy);
        assert forall|qx: int, qy: int| 0 <= qx < w && 0 <= qy < h implies (#[trigger] done(qx, qy)
            <==> full(qx, qy)) by {
            if full(qx, qy) {
                let k2 = choose|k2: int|
                    0 <= k2 && #[trigger] rep_origin(ti, k2) < w && text_covers(
                        babel_text(),
                        rep_origin(ti, k2),
                        yi,
                        ti,
                        qx,
                        qy,
                    );
                assert(k2 < k) by {
                    assert(rep_origin(ti, k2) < w <= rep_origin(ti, k));
                    assert(k2 * (48 * ti) < k * (48 * ti) ==> k2 < k) by (nonlinear_arith)
                        requires
                            0 < 48 * ti,
                    ;
                }
                assert(done(qx, qy));
            }
            if done(qx, qy) {
                let k2 = choose|k2: int|
                    0 <= k2 < k && #[trigger] rep_origin(ti, k2) < w && text_covers(
                        babel_text(),
                        rep_origin(ti, k2),
                        yi,
                        ti,
                        qx,
                        qy,
                    );
                assert(rep_origin(ti, k2) == rep_origin(ti, k2));
                assert(full(qx, qy));
            }
        }
        lemma_blit_equiv(old(buffer)@, buffer@, w, h, color, done, full);
    }
}

} // verus!
