//! Verified core of a small desktop application launcher: fuzzy matching of
//! search terms against application names, parsing of `.desktop` entries,
//! home-directory expansion of paths and the launcher's keyboard-driven state
//! machine, plus the argument handling of a backlight brightness tool.

pub mod bright;
pub mod desktop;
pub mod fuzzy;
pub mod launcher;
pub mod paths;
pub mod shell;
pub mod text;
