//! Row-major pixel grids: the index map, and what it means for one buffer
//! to be another with a set of pixels painted over.

use vstd::arithmetic::div_mod::{lemma_fundamental_div_mod, lemma_mod_bound};
use vstd::prelude::*;

verus! {

/// Index of the pixel at column `qx`, row `qy` in a row-major buffer
/// that is `width` pixels wide.
pub open spec fn pix(width: int, qx: int, qy: int) -> int {
    qy * width + qx
}

/// `new_buf` is `old_buf` with exactly the pixels selected by `cover`
/// overwritten with `color`; every other pixel keeps its old value.
pub open spec fn blit(
    old_buf: Seq<u32>,
    new_buf: Seq<u32>,
    width: int,
    height: int,
    color: u32,
    cover: spec_fn(int, int) -> bool,
) -> bool {
    forall|qx: int, qy: int|
        #![trigger pix(width, qx, qy)]
        0 <= qx < width && 0 <= qy < height ==> new_buf[pix(width, qx, qy)] == (if cover(qx, qy) {
            color
        } else {
            old_buf[pix(width, qx, qy)]
        })
}

pub proof fn lemma_pix_bounds(width: int, height: int, qx: int, qy: int)
    requires
        0 <= qx < width,
        0 <= qy < height,
    ensures
        0 <= pix(width, qx, qy) < width * height,
{
    assert(0 <= qy * width + qx < width * height) by (nonlinear_arith)
        requires
            0 <= qx < width,
            0 <= qy < height,
    ;
}

pub proof fn lemma_pix_injective(
    width: int,
    height: int,
    ax: int,
    ay: int,
    bx: int,
    by_: int,
)
    requires
        0 <= ax < width,
        0 <= ay < height,
        0 <= bx < width,
        0 <= by_ < height,
        pix(width, ax, ay) == pix(width, bx, by_),
    ensures
        ax == bx,
        ay == by_,
{
    assert(ay * width + ax == by_ * width + bx ==> ax == bx && ay == by_) by (nonlinear_arith)
        requires
            0 <= ax < width,
            0 <= bx < width,
    ;
}

/// Every index below `width * height` is the index of exactly one pixel.
pub proof fn lemma_pix_complete(width: int, height: int, p: int)
    requires
        0 <= p < width * height,
        0 < width,
    ensures
        0 <= p % width < width,
        0 <= p / width < height,
        p == pix(width, p % width, p / width),
{
    lemma_fundamental_div_mod(p, width);
    lemma_mod_bound(p, width);
    assert(p == width * (p / width) + (p % width));
    assert(0 <= p / width && p / width < height && width * (p / width) + (p % width) == (p / width)
        * width + (p % width)) by (nonlinear_arith)
        requires
            0 < width,
            0 <= p,
            0 <= p % width < width,
            p < width * height,
            p == width * (p / width) + (p % width),
    ;
}

/// Two pixel paintings in a row act as one painting of the union of
/// their covers, as long as both paint the same color.
pub proof fn lemma_blit_compose(
    buf0: Seq<u32>,
    buf1: Seq<u32>,
    buf2: Seq<u32>,
    width: int,
    height: int,
    color: u32,
    c1: spec_fn(int, int) -> bool,
    c2: spec_fn(int, int) -> bool,
    c3: spec_fn(int, int) -> bool,
)
    requires
        blit(buf0, buf1, width, height, color, c1),
        blit(buf1, buf2, width, height, color, c2),
        forall|qx: int, qy: int|
            0 <= qx < width && 0 <= qy < height ==> (#[trigger] c3(qx, qy) <==> c1(qx, qy) || c2(
                qx,
                qy,
            )),
    ensures
        blit(buf0, buf2, width, height, color, c3),
{
    assert forall|qx: int, qy: int|
        #![trigger pix(width, qx, qy)]
        0 <= qx < width && 0 <= qy < height implies buf2[pix(width, qx, qy)] == (if c3(qx, qy) {
        color
    } else {
        buf0[pix(width, qx, qy)]
    }) by {
        assert(c3(qx, qy) <==> c1(qx, qy) || c2(qx, qy));
    }
}

/// A painting also counts as a painting of any pointwise-equal cover.
pub proof fn lemma_blit_equiv(
    old_buf: Seq<u32>,
    new_buf: Seq<u32>,
    width: int,
    height: int,
    color: u32,
    c1: spec_fn(int, int) -> bool,
    c2: spec_fn(int, int) -> bool,
)
    requires
        blit(old_buf, new_buf, width, height, color, c1),
        forall|qx: int, qy: int|
            0 <= qx < width && 0 <= qy < height ==> (#[trigger] c1(qx, qy) <==> c2(qx, qy)),
    ensures
        blit(old_buf, new_buf, width, height, color, c2),
{
    assert forall|qx: int, qy: int|
        #![trigger pix(width, qx, qy)]
        0 <= qx < width && 0 <= qy < height implies new_buf[pix(width, qx, qy)] == (if c2(
        qx,
        qy,
    ) {
        color
    } else {
        old_buf[pix(width, qx, qy)]
    }) by {
        assert(c1(qx, qy) <==> c2(qx, qy));
    }
}

/// Buffers of the same `width * height` shape that agree on every pixel
/// are equal.
pub proof fn lemma_pixelwise_eq(b1: Seq<u32>, b2: Seq<u32>, width: int, height: int)
    requires
        0 <= width,
        0 <= height,
        b1.len() == width * height,
        b2.len() == width * height,
        forall|qx: int, qy: int|
            #![trigger pix(width, qx, qy)]
            0 <= qx < width && 0 <= qy < height ==> b1[pix(width, qx, qy)] == b2[pix(
                width,
                qx,
                qy,
            )],
    ensures
        b1 == b2,
{
    if width == 0 {
        assert(width * height == 0) by (nonlinear_arith)
            requires
                width == 0,
        ;
    }
    assert forall|p: int| 0 <= p < b1.len() implies b1[p] == b2[p] by {
        lemma_pix_complete(width, height, p);
        let qx = p % width;
        let qy = p / width;
        assert(b1[pix(width, qx, qy)] == b2[pix(width, qx, qy)]);
    }
    assert(b1 =~= b2);
}

} // verus!
