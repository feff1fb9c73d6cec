//! Structural N-way merge of game data records: canonical path-keyed maps,
//! differencing, multi-source merging with conflict detection, ordered-list
//! encoding and patch application.

pub mod path;
pub mod value;
pub mod map;
pub mod diff;
pub mod apply;
pub mod merge;
pub mod chain;
pub mod error;
pub mod localization;
pub mod skills;
pub mod records;
pub mod game_data;
pub mod mod_content;
pub mod loader;
pub mod darkest;
pub mod regroup_files;
pub mod assemble;
