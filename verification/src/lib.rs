//! Verified core of a browser chooser: browser profile discovery and
//! encoding, rule handling, chooser labels and XDG `mimeapps.list` editing.

pub mod text;
pub mod mimeapps;
pub mod profiles;
pub mod order;
pub mod json;
pub mod names;
pub mod chooser;
pub mod browsers;
pub mod rules;
pub mod platform;
pub mod favorite;
