//! Results returned by operations; presentation formats these values.
use crate::model::Journal;
use vstd::prelude::*;

verus! {

/// An entry in Recently Deleted.
#[derive(Debug)]
pub struct DeletedEntry {
    pub id: i64,
    pub date: Option<String>,
    pub deleted: Option<String>,
    pub title: String,
    pub text: String,
    pub synced: bool,
}

/// A journal with its number of entries.
#[derive(Debug)]
pub struct JournalCount {
    pub journal: Journal,
    pub entries: i64,
}

/// Library statistics. `by_year` holds (year, entries) pairs in increasing year order.
#[derive(Debug)]
pub struct Stats {
    pub entries: usize,
    pub rows: usize,
    pub words: usize,
    pub attachments: i64,
    pub locations: i64,
    pub by_year: Vec<(String, usize)>,
    pub first: Option<String>,
    pub last: Option<String>,
}

/// Store diagnostics.
#[derive(Debug)]
pub struct Doctor {
    pub path: String,
    pub bytes: u64,
    pub attachments: String,
    pub attachments_exist: bool,
    pub journal_running: bool,
    pub entries: usize,
}

/// A custom journal with Mac-local memberships that still need finalising.
#[derive(Debug)]
pub struct AuditItem {
    pub name: String,
    pub entries: i64,
}

/// What a mutation did, or would do.
#[allow(inconsistent_fields)]
#[derive(Debug)]
pub enum MutationResult {
    Created { id: i64, chars: usize, has_title: bool },
    Updated { id: i64 },
    Deleted { id: i64, hard: bool },
    Restored { id: i64 },
    Emptied { purged: usize, skipped: usize },
    Repaired { assets: usize, size: &'static str },
    DryRun { operation: &'static str, id: Option<i64>, repair: Option<(i64, &'static str)> },
}

/// Side effects of a mutation beyond its result.
#[derive(Debug)]
pub struct MutationEffects {
    pub staged: bool,
    pub backup: Option<String>,
    pub warnings: Vec<String>,
}

impl MutationEffects {
    /// No backup, no staging, no warnings.
    pub fn none() -> (r: MutationEffects)
        ensures
            !r.staged,
            r.backup is None,
            r.warnings@.len() == 0,
    {
        MutationEffects { staged: false, backup: None, warnings: Vec::new() }
    }
}

} // verus!
