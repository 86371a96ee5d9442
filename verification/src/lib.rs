//! Statistics from the stat files that a roguelike game writes, one file per
//! realm of a run.
//!
//! [`parse`] reads the lines of one stat file into a [`Realm`]. [`report`]
//! folds the realms of one save into a [`Run`], and [`MergedRuns::merge_run`]
//! folds runs into the summary of all runs. Counts per name are kept in
//! [`Counter`]s, which merge by adding key by key ([`merge`], [`hashmap`]).
//!
//! Every executable function is verified against a contract over plain
//! values: character sequences for texts, `Map` and `Set` for counters and
//! sets of names, and a view struct for every record.

pub mod counter;
pub mod error;
pub mod field;
pub mod files;
pub mod hashmap;
pub mod lines;
pub mod merge;
pub mod nameset;
pub mod parse;
pub mod report;
pub mod text;
pub mod types;

pub use crate::counter::Counter;
pub use crate::error::GatherError;
pub use crate::files::is_stat_file_name;
pub use crate::hashmap::{lazy_init, HashMapExtensions};
pub use crate::lines::LineCursor;
pub use crate::nameset::NameSet;
pub use crate::parse::{gather_stats, gather_stats_from_lines};
pub use crate::report::{can_generate_run_report, generate_run_report, sort_by_realm_number};
pub use crate::text::IntErrorKind;
pub use crate::types::{MergedRuns, Outcome, Purchase, Realm, Run};
