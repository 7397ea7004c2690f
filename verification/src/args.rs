//! The three launch modes and the rule that picks one from the command
//! line, plus the fallback screen size.
//!
//! The host hands the raw argument list over as plain strings; reading
//! them from the process environment is its business, not this crate's.

use vstd::prelude::*;
use vstd::string::StrSliceExecFns;

verus! {

/// How the program was asked to run.
#[derive(Clone, Copy, PartialEq, Eq, Structural, Debug)]
pub enum ScreensaverMode {
    /// Full screen.
    Normal,
    /// A small preview window.
    Preview,
    /// The configuration dialog.
    Configure,
}

/// Whether an argument selects a mode letter: two characters or more,
/// a slash or dash, and then the letter in either case.
pub open spec fn arg_selects(a: Seq<char>, low: char, up: char) -> bool {
    a.len() >= 2 && (a[0] == '/' || a[0] == '-') && (a[1] == low || a[1] == up)
}

/// The mode an argument list selects: only the first argument counts,
/// `s` picks full screen, `p` the preview, `c` the configuration dialog,
/// and anything else falls back to full screen.
pub open spec fn spec_mode_of(args: Seq<Seq<char>>) -> ScreensaverMode {
    if args.len() <= 1 {
        ScreensaverMode::Normal
    } else if arg_selects(args[1], 's', 'S') {
        ScreensaverMode::Normal
    } else if arg_selects(args[1], 'p', 'P') {
        ScreensaverMode::Preview
    } else if arg_selects(args[1], 'c', 'C') {
        ScreensaverMode::Configure
    } else {
        ScreensaverMode::Normal
    }
}

/// Picks the launch mode from the raw argument list (first entry is the
/// program name, as the host received it).
pub fn parse_arguments(args: &Vec<String>) -> (mode: ScreensaverMode)
    ensures
        mode == spec_mode_of(args.deep_view()),
{
    let ghost dv = args.deep_view();
    if args.len() > 1 {
        let a: &str = args[1].as_str();
        proof {
            assert(dv[1] == a@);
        }
        if a.unicode_len() >= 2 {
            let c0 = a.get_char(0);
            let c1 = a.get_char(1);
            if c0 == '/' || c0 == '-' {
                if c1 == 's' || c1 == 'S' {
                    return ScreensaverMode::Normal;
                }
                if c1 == 'p' || c1 == 'P' {
                    return ScreensaverMode::Preview;
                }
                if c1 == 'c' || c1 == 'C' {
                    return ScreensaverMode::Configure;
                }
            }
        }
    }
    ScreensaverMode::Normal
}

/// The surface size assumed when no display was queried.
pub fn get_screen_size() -> (size: (usize, usize))
    ensures
        size.0 == 1920,
        size.1 == 1080,
{
    (1920, 1080)
}

} // verus!
