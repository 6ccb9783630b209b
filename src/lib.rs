//! Snapshots of directory trees and the planning of moves that make one
//! tree's layout follow another's.

pub mod path;
pub mod snapshot;
pub mod plan;
pub mod script;
pub mod builder;

pub use builder::SnapshotBuilder;
pub use plan::{plan_moves, Move, Notice, Plan};
pub use script::{diff, render_script};
pub use snapshot::{EntryKind, FileEntry, Metadata, Summary};
