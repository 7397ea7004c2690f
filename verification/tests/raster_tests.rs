use babel_saver::glyphs::get_glyph;
use babel_saver::raster::{draw_char, draw_line_at_y, draw_text};

const SENTINEL: u32 = 0x1234_5678;
const RED: u32 = 0x00ff_0000;

fn fresh(width: usize, height: usize) -> Vec<u32> {
    vec![SENTINEL; width * height]
}

/// Whether drawing glyph `g` at `(x, y)` with stroke `t` covers `(qx, qy)`.
fn char_covered(g: &[u8; 16], x: i64, y: i64, t: i64, qx: i64, qy: i64) -> bool {
    for row in 0..16i64 {
        for col in 0..8i64 {
            if (g[row as usize] >> (7 - col)) & 1 == 1 {
                let bx = x + col;
                let by = y + row;
                if bx <= qx && qx < bx + t && by <= qy && qy < by + t {
                    return true;
                }
            }
        }
    }
    false
}

/// Whether drawing `text` at `(x, y)` with stroke `t` covers `(qx, qy)`.
fn text_covered(text: &str, x: i64, y: i64, t: i64, qx: i64, qy: i64) -> bool {
    for (i, ch) in text.chars().enumerate() {
        let g = get_glyph(ch);
        if char_covered(&g, x + (i as i64) * 8 * t, y, t, qx, qy) {
            return true;
        }
    }
    false
}

#[test]
fn draw_char_paints_exactly_the_glyph() {
    let (w, h) = (20usize, 20usize);
    let mut buf = fresh(w, h);
    draw_char(&mut buf, w, h, 2, 3, 'B', RED, 1);
    let g = get_glyph('B');
    for qy in 0..h as i64 {
        for qx in 0..w as i64 {
            let want = if char_covered(&g, 2, 3, 1, qx, qy) { RED } else { SENTINEL };
            assert_eq!(buf[qy as usize * w + qx as usize], want, "pixel ({qx},{qy})");
        }
    }
    // spot checks: 'B' row 0 is 0b01111100
    assert_eq!(buf[3 * w + 2], SENTINEL); // col 0 unset
    assert_eq!(buf[3 * w + 3], RED); // col 1 set
    assert_eq!(buf[3 * w + 7], RED); // col 5 set
    assert_eq!(buf[3 * w + 8], SENTINEL); // col 6 unset
}

#[test]
fn draw_char_thickness_grows_squares() {
    let (w, h) = (30usize, 40usize);
    let mut buf = fresh(w, h);
    draw_char(&mut buf, w, h, 5, 5, 'L', RED, 2);
    let g = get_glyph('L');
    for qy in 0..h as i64 {
        for qx in 0..w as i64 {
            let want = if char_covered(&g, 5, 5, 2, qx, qy) { RED } else { SENTINEL };
            assert_eq!(buf[qy as usize * w + qx as usize], want, "pixel ({qx},{qy})");
        }
    }
    // 'L' col 1 lit in row 0: the 2x2 square covers (6..8, 5..7)
    assert_eq!(buf[5 * w + 6], RED);
    assert_eq!(buf[5 * w + 7], RED);
    assert_eq!(buf[6 * w + 6], RED);
    assert_eq!(buf[6 * w + 7], RED);
    assert_eq!(buf[5 * w + 5], SENTINEL);
}

#[test]
fn draw_char_clips_at_every_edge() {
    let (w, h) = (10usize, 10usize);
    let g = get_glyph('B');
    for &(x, y) in &[(-4i32, -7i32), (7, 3), (3, -20), (-20, 3), (9, 9), (100, 100)] {
        let mut buf = fresh(w, h);
        draw_char(&mut buf, w, h, x, y, 'B', RED, 1);
        assert_eq!(buf.len(), w * h);
        for qy in 0..h as i64 {
            for qx in 0..w as i64 {
                let want = if char_covered(&g, x as i64, y as i64, 1, qx, qy) {
                    RED
                } else {
                    SENTINEL
                };
                assert_eq!(buf[qy as usize * w + qx as usize], want, "({x},{y}) pixel ({qx},{qy})");
            }
        }
    }
}

#[test]
fn draw_char_zero_size_buffer_is_a_no_op() {
    let mut buf: Vec<u32> = Vec::new();
    draw_char(&mut buf, 0, 0, 0, 0, 'B', RED, 1);
    assert!(buf.is_empty());
}

#[test]
fn draw_text_advances_eight_per_char_scaled() {
    let (w, h) = (120usize, 20usize);
    let mut buf = fresh(w, h);
    draw_text(&mut buf, w, h, 4, 2, "BABEL ", RED, 1);
    for qy in 0..h as i64 {
        for qx in 0..w as i64 {
            let want = if text_covered("BABEL ", 4, 2, 1, qx, qy) { RED } else { SENTINEL };
            assert_eq!(buf[qy as usize * w + qx as usize], want, "pixel ({qx},{qy})");
        }
    }
    // second char 'A' starts at x = 12; its row 0 is 0b00111100
    assert_eq!(buf[2 * w + 12 + 2], RED);
    assert_eq!(buf[2 * w + 12 + 1], SENTINEL);
}

#[test]
fn draw_text_clipped_region_scenario() {
    // width=100, height=50, "BABEL " at (60, 10), thickness 1: writes land
    // only in columns 60..100 and rows 10..26; everything else is untouched.
    let (w, h) = (100usize, 50usize);
    let mut buf = fresh(w, h);
    draw_text(&mut buf, w, h, 60, 10, "BABEL ", RED, 1);
    let mut painted = 0usize;
    for qy in 0..h {
        for qx in 0..w {
            let v = buf[qy * w + qx];
            if v != SENTINEL {
                assert_eq!(v, RED);
                assert!((60..100).contains(&qx), "write at column {qx}");
                assert!((10..26).contains(&qy), "write at row {qy}");
                painted += 1;
            }
        }
    }
    assert!(painted > 0);
    // 'B' at x=60: row 0 col 1 lit
    assert_eq!(buf[10 * w + 61], RED);
    assert_eq!(buf[10 * w + 60], SENTINEL);
    // 'L' (5th char) at x=92: row 10 is 0b01111110, so column 93 is lit
    assert_eq!(buf[20 * w + 93], RED);
    // the trailing space at x=100 is entirely clipped; nothing at column 99 row 0
    assert_eq!(buf[0 * w + 99], SENTINEL);
}

#[test]
fn draw_line_repeats_across_width() {
    let (w, h) = (100usize, 16usize);
    let mut buf = fresh(w, h);
    draw_line_at_y(&mut buf, w, h, 0, RED, 1);
    // repetitions start at x = 0, 48, 96
    for start in [0i64, 48, 96] {
        // 'B' row 0 col 1 lit, if on screen
        let qx = start + 1;
        if qx < w as i64 {
            assert_eq!(buf[qx as usize], RED, "repetition at {start}");
        }
    }
    // exact: every pixel matches one of the repetitions
    for qy in 0..h as i64 {
        for qx in 0..w as i64 {
            let want = if text_covered("BABEL ", 0, 0, 1, qx, qy)
                || text_covered("BABEL ", 48, 0, 1, qx, qy)
                || text_covered("BABEL ", 96, 0, 1, qx, qy)
            {
                RED
            } else {
                SENTINEL
            };
            assert_eq!(buf[qy as usize * w + qx as usize], want, "pixel ({qx},{qy})");
        }
    }
}

#[test]
fn draw_line_clips_negative_y() {
    let (w, h) = (50usize, 8usize);
    let mut buf = fresh(w, h);
    draw_line_at_y(&mut buf, w, h, -5, RED, 1);
    // glyph row 5 of 'B' (0b01000010) lands on screen row 0: column 1 lit
    assert_eq!(buf[1], RED);
    assert_eq!(buf[0], SENTINEL);
    for qy in 0..h as i64 {
        for qx in 0..w as i64 {
            let want = if text_covered("BABEL ", 0, -5, 1, qx, qy)
                || text_covered("BABEL ", 48, -5, 1, qx, qy)
            {
                RED
            } else {
                SENTINEL
            };
            assert_eq!(buf[qy as usize * w + qx as usize], want, "pixel ({qx},{qy})");
        }
    }
}
