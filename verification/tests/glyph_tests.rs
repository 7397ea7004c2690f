use babel_saver::glyphs::get_glyph;

#[test]
fn glyph_b_matches_table() {
    let expected: [u8; 16] = [
        0x7c, 0x42, 0x42, 0x42, 0x7c, 0x42, 0x42, 0x42, 0x42, 0x42, 0x7c, 0, 0, 0, 0, 0,
    ];
    assert_eq!(get_glyph('B'), expected);
}

#[test]
fn glyph_a_matches_table() {
    let expected: [u8; 16] = [
        0x3c, 0x42, 0x42, 0x42, 0x42, 0x7e, 0x42, 0x42, 0x42, 0x42, 0x42, 0, 0, 0, 0, 0,
    ];
    assert_eq!(get_glyph('A'), expected);
}

#[test]
fn glyph_e_matches_table() {
    let expected: [u8; 16] = [
        0x7e, 0x40, 0x40, 0x40, 0x40, 0x7c, 0x40, 0x40, 0x40, 0x40, 0x7e, 0, 0, 0, 0, 0,
    ];
    assert_eq!(get_glyph('E'), expected);
}

#[test]
fn glyph_l_matches_table() {
    let expected: [u8; 16] = [
        0x40, 0x40, 0x40, 0x40, 0x40, 0x40, 0x40, 0x40, 0x40, 0x40, 0x7e, 0, 0, 0, 0, 0,
    ];
    assert_eq!(get_glyph('L'), expected);
}

#[test]
fn glyph_space_is_blank() {
    assert_eq!(get_glyph(' '), [0u8; 16]);
}

#[test]
fn lookup_is_deterministic() {
    for ch in ['B', 'A', 'E', 'L', ' ', 'x', '!'] {
        assert_eq!(get_glyph(ch), get_glyph(ch));
    }
}

#[test]
fn unsupported_chars_share_fallback_block() {
    let block: [u8; 16] = [
        0x7e, 0x7e, 0x7e, 0x7e, 0x7e, 0x7e, 0x7e, 0x7e, 0x7e, 0x7e, 0x7e, 0, 0, 0, 0, 0,
    ];
    assert_eq!(get_glyph('X'), block);
    assert_eq!(get_glyph('b'), block);
    assert_eq!(get_glyph('0'), block);
    assert_eq!(get_glyph('\u{3042}'), block);
    assert_eq!(get_glyph('X'), get_glyph('?'));
}
