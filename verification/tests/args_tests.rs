use babel_saver::args::{get_screen_size, parse_arguments, ScreensaverMode};

fn args_of(parts: &[&str]) -> Vec<String> {
    parts.iter().map(|s| s.to_string()).collect()
}

#[test]
fn no_arguments_means_fullscreen() {
    assert_eq!(parse_arguments(&args_of(&["saver"])), ScreensaverMode::Normal);
    assert_eq!(parse_arguments(&Vec::new()), ScreensaverMode::Normal);
}

#[test]
fn slash_and_dash_letters_pick_the_mode() {
    assert_eq!(parse_arguments(&args_of(&["saver", "/s"])), ScreensaverMode::Normal);
    assert_eq!(parse_arguments(&args_of(&["saver", "-s"])), ScreensaverMode::Normal);
    assert_eq!(parse_arguments(&args_of(&["saver", "/p"])), ScreensaverMode::Preview);
    assert_eq!(parse_arguments(&args_of(&["saver", "-p"])), ScreensaverMode::Preview);
    assert_eq!(parse_arguments(&args_of(&["saver", "/c"])), ScreensaverMode::Configure);
    assert_eq!(parse_arguments(&args_of(&["saver", "-c"])), ScreensaverMode::Configure);
}

#[test]
fn the_letter_is_case_insensitive() {
    assert_eq!(parse_arguments(&args_of(&["saver", "/S"])), ScreensaverMode::Normal);
    assert_eq!(parse_arguments(&args_of(&["saver", "-P"])), ScreensaverMode::Preview);
    assert_eq!(parse_arguments(&args_of(&["saver", "/C"])), ScreensaverMode::Configure);
}

#[test]
fn only_the_prefix_counts() {
    // a preview argument usually carries a window handle after the letter
    assert_eq!(parse_arguments(&args_of(&["saver", "/p:12345"])), ScreensaverMode::Preview);
    assert_eq!(parse_arguments(&args_of(&["saver", "/speed"])), ScreensaverMode::Normal);
    assert_eq!(parse_arguments(&args_of(&["saver", "-config"])), ScreensaverMode::Configure);
}

#[test]
fn unknown_arguments_fall_back_to_fullscreen() {
    assert_eq!(parse_arguments(&args_of(&["saver", "x"])), ScreensaverMode::Normal);
    assert_eq!(parse_arguments(&args_of(&["saver", "/"])), ScreensaverMode::Normal);
    assert_eq!(parse_arguments(&args_of(&["saver", "-"])), ScreensaverMode::Normal);
    assert_eq!(parse_arguments(&args_of(&["saver", "/x"])), ScreensaverMode::Normal);
    assert_eq!(parse_arguments(&args_of(&["saver", "s"])), ScreensaverMode::Normal);
}

#[test]
fn later_arguments_are_ignored() {
    assert_eq!(
        parse_arguments(&args_of(&["saver", "/p", "/c"])),
        ScreensaverMode::Preview
    );
}

#[test]
fn fallback_screen_size() {
    assert_eq!(get_screen_size(), (1920, 1080));
}
