//! Settings codec and mod-pack bundling for a game mod manager.
//!
//! The library reads and writes the game's compressed settings file, groups
//! dotted setting keys into a tree with per-leaf inclusion flags, and reads,
//! writes and applies mod packs.

pub mod error;
pub mod ext;
pub mod modsettings;
pub mod envelope;
pub mod settings;
pub mod hierarchy;
pub mod mods;
pub mod modpack;
