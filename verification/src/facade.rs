//! The query facade's result assembly.
//!
//! The caller resolves the platform install root, probes the candidate
//! directories in order, and hands the first existing directory's listing
//! here; the facade scans it, reduces the records to the best per scenario,
//! and wraps them with the path used.  When no candidate exists, the
//! response carries `exists = false`, an empty record set and either the
//! fixed not-found sentinel or the last-attempted path.

use vstd::prelude::*;

use crate::aggregate::reduce;
use crate::aggregate::reduce_spec;
use crate::record::StatsResult;
use crate::scanner::file_views;
use crate::scanner::scan;
use crate::scanner::scan_spec;
use crate::scanner::stats_views;
use crate::scanner::FileEntry;

verus! {

/// The consolidated response: the results directory used (or a fallback
/// path), whether one was found, and the best record per scenario.
#[derive(Debug)]
pub struct PathResult {
    pub stats_path: String,
    pub exists: bool,
    pub stats: Vec<StatsResult>,
}

/// Builds the response for a results directory that exists: its listing is
/// scanned against the allow-list and reduced to the best record per
/// scenario.
pub fn build_found_result(stats_path: String, files: Vec<FileEntry>, allow: &Vec<String>) -> (r:
    PathResult)
    ensures
        r.exists,
        r.stats_path@ == stats_path@,
        stats_views(r.stats@) == reduce_spec(scan_spec(file_views(files@), allow.deep_view())),
{
    let records = scan(&files, allow);
    let best = reduce(records);
    PathResult { stats_path, exists: true, stats: best }
}

/// Builds the response for the case that no candidate directory exists:
/// no records, and the given path reported.
pub fn build_not_found_result(last_path: String) -> (r: PathResult)
    ensures
        !r.exists,
        r.stats_path@ == last_path@,
        r.stats@.len() == 0,
{
    PathResult { stats_path: last_path, exists: false, stats: Vec::new() }
}

/// The fixed sentinel reported on the registry platform when no candidate
/// directory exists.
pub fn not_found_sentinel() -> (s: String)
    ensures
        s@ == "No stats path found"@,
{
    "No stats path found".to_owned()
}

} // verus!
