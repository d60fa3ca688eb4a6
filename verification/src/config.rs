//! Settings that the indexer and the queries share.
use vstd::prelude::*;

verus! {

/// How many of the latest commit hashes a query reports by default.
pub const LAST_MANY_COMMIT_HASHES: usize = 5;

/// The folder, under the home directory, that holds the databases.
pub const DB_FOLDER: &'static str = ".context_pilot_db";

/// How many items one database file holds before a new one is started.
pub const MAX_ITEMS_IN_EACH_DB_FILE: u32 = 30;

/// The name of the configuration file, under the home directory.
pub const CONFIG_FILE_NAME: &'static str = "contextpilot.json";

/// How many results a query shows by default.
pub const OUTPUT_COUNT_THRESHOLD: usize = 10;

} // verus!
