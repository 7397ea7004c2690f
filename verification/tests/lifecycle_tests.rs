use babel_saver::lifecycle::{compute_scroll_offset, EntityManager, LayoutMode};
use babel_saver::raster::{draw_line_at_y, draw_text};

const RED: u32 = 0x00ff_0000;

#[test]
fn maybe_spawn_only_once_within_interval() {
    let mut m = EntityManager::new(100, 5000, 1, RED, LayoutMode::Scroll, 0);
    let first = m.maybe_spawn(150, 0, 0, 800, 600);
    assert!(first.is_some());
    assert_eq!(first.unwrap().created, 150);
    // second call within the same interval: nothing
    let second = m.maybe_spawn(200, 0, 0, 800, 600);
    assert!(second.is_none());
    assert_eq!(m.entities.len(), 1);
}

#[test]
fn maybe_spawn_not_due_at_exact_interval() {
    let mut m = EntityManager::new(100, 5000, 1, RED, LayoutMode::Scroll, 0);
    // strictly more than one interval must pass
    assert!(m.maybe_spawn(100, 0, 0, 800, 600).is_none());
    assert!(m.maybe_spawn(101, 0, 0, 800, 600).is_some());
}

#[test]
fn maybe_spawn_resets_the_clock() {
    let mut m = EntityManager::new(100, 5000, 1, RED, LayoutMode::Scroll, 0);
    assert!(m.maybe_spawn(150, 0, 0, 800, 600).is_some());
    assert!(m.maybe_spawn(250, 0, 0, 800, 600).is_none());
    assert!(m.maybe_spawn(251, 0, 0, 800, 600).is_some());
    assert_eq!(m.entities.len(), 2);
}

#[test]
fn prune_scenario_expires_only_the_oldest() {
    // spawn_interval=100, ttl=5000; entities at t = 0, 100, ..., 5000;
    // pruning at t=5050 leaves exactly those from t=100 on.
    let mut m = EntityManager::new(100, 5000, 1, RED, LayoutMode::Scroll, 0);
    let mut t = 0u64;
    while t <= 5000 {
        m.spawn_now(t, 0, 0, 800, 600);
        t += 100;
    }
    assert_eq!(m.entities.len(), 51);
    m.prune(5050);
    assert_eq!(m.entities.len(), 50);
    for (i, e) in m.entities.iter().enumerate() {
        assert_eq!(e.created, 100 + 100 * i as u64);
    }
}

#[test]
fn prune_keeps_exactly_the_young_in_order() {
    let mut m = EntityManager::new(1, 2000, 1, RED, LayoutMode::Scroll, 0);
    m.spawn_now(0, 0, 0, 800, 600);
    m.spawn_now(10, 0, 0, 800, 600);
    m.spawn_now(2000, 0, 0, 800, 600);
    m.prune(2005);
    // ages at 2005 are 2005, 1995, 5; only ages < 2000 survive
    let created: Vec<u64> = m.entities.iter().map(|e| e.created).collect();
    assert_eq!(created, vec![10, 2000]);
}

#[test]
fn prune_with_zero_ttl_removes_everything() {
    let mut m = EntityManager::new(100, 0, 1, RED, LayoutMode::Scroll, 0);
    m.spawn_now(50, 0, 0, 800, 600);
    m.spawn_now(60, 0, 0, 800, 600);
    m.prune(60);
    assert!(m.entities.is_empty());
}

#[test]
fn scroll_offset_formula() {
    // elapsed * line_height / interval
    assert_eq!(compute_scroll_offset(500, 0, 1000, 32), 16);
    assert_eq!(compute_scroll_offset(0, 0, 1000, 32), 0);
    assert_eq!(compute_scroll_offset(1500, 0, 1000, 32), 48);
    assert_eq!(compute_scroll_offset(1250, 1000, 1000, 16), 4);
    // a zero interval is guarded, not an error
    assert_eq!(compute_scroll_offset(500, 0, 0, 32), 0);
    // the clock standing still gives no offset
    assert_eq!(compute_scroll_offset(100, 500, 1000, 32), 0);
}

#[test]
fn render_is_deterministic_for_one_instant() {
    let (w, h) = (100usize, 64usize);
    let mut m = EntityManager::new(1000, 100_000, 1, RED, LayoutMode::Scroll, 0);
    m.spawn_now(1000, 0, 0, w, h);
    m.spawn_now(2000, 0, 0, w, h);
    let mut a = vec![0u32; w * h];
    let mut b = vec![0xffff_ffffu32; w * h];
    m.render_frame(2345, &mut a, w, h);
    m.render_frame(2345, &mut b, w, h);
    assert_eq!(a, b);
    // and rendering the very same buffer again changes nothing
    let snapshot = a.clone();
    m.render_frame(2345, &mut a, w, h);
    assert_eq!(a, snapshot);
}

#[test]
fn render_scroll_places_newest_line_at_the_bottom() {
    let (w, h) = (100usize, 64usize);
    // line_height = 16, so 4 rows fit
    let mut m = EntityManager::new(1000, 100_000, 1, RED, LayoutMode::Scroll, 0);
    m.spawn_now(1000, 0, 0, w, h);
    let mut frame = vec![0xdeadu32; w * h];
    m.render_frame(1000, &mut frame, w, h);
    // one entity, zero offset: its line sits in the bottom row band, y = 48
    let mut expected = vec![0u32; w * h];
    draw_line_at_y(&mut expected, w, h, 48, RED, 1);
    assert_eq!(frame, expected);
    // 'B' row 0 col 1 at the line's origin
    assert_eq!(frame[48 * w + 1], RED);
    assert_eq!(frame[48 * w], 0);
    assert_eq!(frame[47 * w + 1], 0);
}

#[test]
fn render_scroll_shifts_by_the_elapsed_fraction() {
    let (w, h) = (100usize, 64usize);
    let mut m = EntityManager::new(1000, 100_000, 1, RED, LayoutMode::Scroll, 0);
    m.spawn_now(1000, 0, 0, w, h);
    let mut frame = vec![0u32; w * h];
    // 500 of 1000 ms elapsed: offset = 8 of 16 pixels, y = 40
    m.render_frame(1500, &mut frame, w, h);
    let mut expected = vec![0u32; w * h];
    draw_line_at_y(&mut expected, w, h, 40, RED, 1);
    assert_eq!(frame, expected);
}

#[test]
fn render_scroll_stacks_rows_oldest_on_top() {
    let (w, h) = (100usize, 64usize);
    let mut m = EntityManager::new(1000, 100_000, 1, RED, LayoutMode::Scroll, 0);
    m.spawn_now(1000, 0, 0, w, h);
    m.spawn_now(2000, 0, 0, w, h);
    m.spawn_now(3000, 0, 0, w, h);
    let mut frame = vec![0u32; w * h];
    m.render_frame(3000, &mut frame, w, h);
    let mut expected = vec![0u32; w * h];
    draw_line_at_y(&mut expected, w, h, 16, RED, 1);
    draw_line_at_y(&mut expected, w, h, 32, RED, 1);
    draw_line_at_y(&mut expected, w, h, 48, RED, 1);
    assert_eq!(frame, expected);
    // the top band (row 0) belongs to no entity yet and stays black
    for qx in 0..w {
        assert_eq!(frame[qx], 0);
    }
}

#[test]
fn render_clears_stale_pixels_to_black() {
    let (w, h) = (40usize, 20usize);
    let m = EntityManager::new(1000, 100_000, 1, RED, LayoutMode::Scroll, 0);
    let mut frame = vec![0xffff_ffffu32; w * h];
    m.render_frame(123, &mut frame, w, h);
    assert!(frame.iter().all(|&p| p == 0));
}

#[test]
fn scatter_spawn_reduces_the_random_words() {
    let (w, h) = (100usize, 50usize);
    let mut m = EntityManager::new(100, 5000, 1, RED, LayoutMode::Scatter, 0);
    // text takes 48 x 16 pixels: x lands in [0, 52), y in [0, 34)
    let e = m.spawn_now(5, 60, 40, w, h);
    assert_eq!(e.created, 5);
    assert_eq!(e.x, 60 % 52);
    assert_eq!(e.y, 40 % 34);
}

#[test]
fn scatter_spawn_floors_degenerate_ranges_at_zero() {
    let mut m = EntityManager::new(100, 5000, 1, RED, LayoutMode::Scatter, 0);
    // a 30 x 10 screen has no room for the 48 x 16 text
    let e = m.spawn_now(5, 999, 999, 30, 10);
    assert_eq!(e.x, 0);
    assert_eq!(e.y, 0);
}

#[test]
fn render_scatter_draws_at_the_spawned_position() {
    let (w, h) = (100usize, 50usize);
    let mut m = EntityManager::new(100, 5000, 1, RED, LayoutMode::Scatter, 0);
    let e = m.spawn_now(5, 60, 40, w, h);
    assert_eq!((e.x, e.y), (8, 6));
    let mut frame = vec![0x77u32; w * h];
    m.render_frame(6, &mut frame, w, h);
    let mut expected = vec![0u32; w * h];
    draw_text(&mut expected, w, h, 8, 6, "BABEL ", RED, 1);
    assert_eq!(frame, expected);
    assert_eq!(frame[6 * w + 8 + 1], RED);
}
