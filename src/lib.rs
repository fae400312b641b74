//! Launcher core for a level-based game: the per-level progress file, the
//! display preferences and the life cycle of one launch of the player process.
pub mod text;
pub mod stats;
pub mod prefs;
pub mod launch;
