//! Per-file performance statistics: how often each part of a file's
//! analysis was rebuilt, and what the workspace knows of the file now.

use vstd::prelude::*;

use crate::workspace::FileId;

verus! {

/// The statistics of one file.
pub struct FilePerformanceStats {
    pub file_id: FileId,
    pub normalized_path: String,
    pub parse_rebuilds: u64,
    pub lower_rebuilds: u64,
    pub index_rebuilds: u64,
    pub query_support_rebuilds: u64,
    pub query_support_evictions: u64,
    pub query_support_cached: bool,
    pub dependency_count: usize,
    pub dependent_count: usize,
}

/// What the database knows of a file that has an analysis.
pub struct ActiveFile {
    pub file_id: FileId,
    pub normalized_path: String,
    pub dependency_count: usize,
    pub dependent_count: usize,
    pub query_support_cached: bool,
}

/// The rebuild and eviction counters of a file's statistics.
pub open spec fn counters(s: FilePerformanceStats) -> (u64, u64, u64, u64, u64) {
    (s.parse_rebuilds, s.lower_rebuilds, s.index_rebuilds, s.query_support_rebuilds, s.query_support_evictions)
}

/// The statistics of a file nothing has been recorded for: no rebuilds, no
/// evictions, nothing cached, no known path, dependencies or dependents.
pub fn default_file_stats(file_id: FileId) -> (r: FilePerformanceStats)
    ensures
        r.file_id == file_id,
        r.normalized_path@.len() == 0,
        counters(r) == (0u64, 0u64, 0u64, 0u64, 0u64),
        !r.query_support_cached,
        r.dependency_count == 0,
        r.dependent_count == 0,
{
    FilePerformanceStats {
        file_id,
        normalized_path: String::new(),
        parse_rebuilds: 0,
        lower_rebuilds: 0,
        index_rebuilds: 0,
        query_support_rebuilds: 0,
        query_support_evictions: 0,
        query_support_cached: false,
        dependency_count: 0,
        dependent_count: 0,
    }
}

/// Whether the statistics come in ascending order of file, each file once.
pub open spec fn stats_ordered(s: Seq<FilePerformanceStats>) -> bool {
    forall|i: int, j: int| 0 <= i < j < s.len() ==> (#[trigger] s[i]).file_id.0 < (#[trigger] s[j]).file_id.0
}

/// The counters recorded for a file: those of its statistics, if any, else
/// zero.
pub open spec fn recorded_counters(s: Seq<FilePerformanceStats>, f: u32) -> (u64, u64, u64, u64, u64) {
    if exists|i: int| 0 <= i < s.len() && (#[trigger] s[i]).file_id.0 == f {
        counters(s[choose|i: int| 0 <= i < s.len() && (#[trigger] s[i]).file_id.0 == f])
    } else {
        (0u64, 0u64, 0u64, 0u64, 0u64)
    }
}

/// Whether `s` holds the refreshed statistics of active file `a`: its
/// path, dependency and dependent counts and caching as the database knows
/// them, and the counters recorded in `old`.
pub open spec fn refreshed_entry(s: FilePerformanceStats, a: ActiveFile, old: Seq<FilePerformanceStats>) -> bool {
    &&& s.file_id == a.file_id
    &&& s.normalized_path@ == a.normalized_path@
    &&& s.dependency_count == a.dependency_count
    &&& s.dependent_count == a.dependent_count
    &&& s.query_support_cached == a.query_support_cached
    &&& counters(s) == recorded_counters(old, a.file_id.0)
}

fn find_stats(stats: &Vec<FilePerformanceStats>, f: FileId) -> (r: Option<usize>)
    ensures
        match r {
            Some(i) => i < stats@.len() && stats@[i as int].file_id.0 == f.0,
            None => forall|i: int| 0 <= i < stats@.len() ==> (#[trigger] stats@[i]).file_id.0 != f.0,
        },
{
    let mut i: usize = 0;
    while i < stats.len()
        invariant
            0 <= i <= stats.len(),
            forall|k: int| 0 <= k < i ==> (#[trigger] stats@[k]).file_id.0 != f.0,
        decreases stats.len() - i,
    {
        if stats[i].file_id.0 == f.0 {
            return Some(i);
        }
        i += 1;
    }
    None
}

/// The refreshed statistics of active file `a`, keeping the counters
/// recorded for it in `stats`.
fn refreshed_stats_of(stats: &Vec<FilePerformanceStats>, a: &ActiveFile) -> (r: FilePerformanceStats)
    requires
        stats_ordered(stats@),
    ensures
        refreshed_entry(r, *a, stats@),
{
    match find_stats(stats, a.file_id) {
        Some(i) => {
            let e = &stats[i];
            proof {
                let c = choose|k: int| 0 <= k < stats@.len() && (#[trigger] stats@[k]).file_id.0 == a.file_id.0;
                if c != i {
                    if c < i {
                        assert(stats@[c].file_id.0 < stats@[i as int].file_id.0);
                    } else {
                        assert(stats@[i as int].file_id.0 < stats@[c].file_id.0);
                    }
                }
            }
            FilePerformanceStats {
                file_id: a.file_id,
                normalized_path: a.normalized_path.clone(),
                parse_rebuilds: e.parse_rebuilds,
                lower_rebuilds: e.lower_rebuilds,
                index_rebuilds: e.index_rebuilds,
                query_support_rebuilds: e.query_support_rebuilds,
                query_support_evictions: e.query_support_evictions,
                query_support_cached: a.query_support_cached,
                dependency_count: a.dependency_count,
                dependent_count: a.dependent_count,
            }
        },
        None => {
            let mut d = default_file_stats(a.file_id);
            d.normalized_path = a.normalized_path.clone();
            d.query_support_cached = a.query_support_cached;
            d.dependency_count = a.dependency_count;
            d.dependent_count = a.dependent_count;
            d
        },
    }
}

/// Inserts `e` at its place by file into ordered statistics that do not
/// hold its file yet.
fn insert_by_file(out: &mut Vec<FilePerformanceStats>, e: FilePerformanceStats)
    requires
        stats_ordered(old(out)@),
        forall|i: int| 0 <= i < old(out)@.len() ==> (#[trigger] old(out)@[i]).file_id.0 != e.file_id.0,
    ensures
        stats_ordered(final(out)@),
        forall|x: FilePerformanceStats| #[trigger] final(out)@.contains(x) <==> (old(out)@.contains(x) || x == e),
{
    let mut p: usize = 0;
    while p < out.len() && out[p].file_id.0 < e.file_id.0
        invariant
            p <= out@.len(),
            forall|i: int| 0 <= i < p ==> (#[trigger] out@[i]).file_id.0 < e.file_id.0,
        decreases out.len() - p,
    {
        p += 1;
    }
    let ghost prev = out@;
    out.insert(p, e);
    proof {
        assert(out@ == prev.insert(p as int, e));
        assert forall|a: int, b: int| 0 <= a < b < out@.len() implies (#[trigger] out@[a]).file_id.0
            < (#[trigger] out@[b]).file_id.0 by {
            if b < p {
                assert(out@[a] == prev[a] && out@[b] == prev[b]);
            } else if b == p {
                assert(out@[a] == prev[a]);
            } else if a == p {
                assert(out@[b] == prev[b - 1]);
                assert(prev[p as int].file_id.0 != e.file_id.0);
                if b - 1 > p {
                    assert(prev[p as int].file_id.0 < prev[b - 1].file_id.0);
                }
            } else if a < p {
                assert(out@[a] == prev[a] && out@[b] == prev[b - 1]);
            } else {
                assert(out@[a] == prev[a - 1] && out@[b] == prev[b - 1]);
            }
        }
        assert forall|x: FilePerformanceStats| #[trigger] out@.contains(x) <==> (prev.contains(x) || x == e) by {
            if out@.contains(x) {
                let i = choose|i: int| 0 <= i < out@.len() && out@[i] == x;
                if i < p {
                    assert(prev[i] == x);
                } else if i > p {
                    assert(prev[i - 1] == x);
                }
            }
            if prev.contains(x) {
                let i = choose|i: int| 0 <= i < prev.len() && prev[i] == x;
                if i < p {
                    assert(out@[i] == x);
                } else {
                    assert(out@[i + 1] == x);
                }
            }
            if x == e {
                assert(out@[p as int] == x);
            }
        }
    }
}

/// Whether `id` is the file of one of the active files.
pub open spec fn is_active_file(active: Seq<ActiveFile>, id: FileId) -> bool {
    exists|j: int| 0 <= j < active.len() && #[trigger] active[j].file_id == id
}

/// Whether each of the statistics belongs to an active file.
pub open spec fn only_active_files(s: Seq<FilePerformanceStats>, active: Seq<ActiveFile>) -> bool {
    forall|i: int| 0 <= i < s.len() ==> is_active_file(active, (#[trigger] s[i]).file_id)
}

/// Whether `s` holds refreshed statistics of active file `a`.
pub open spec fn has_refreshed_entry(s: Seq<FilePerformanceStats>, a: ActiveFile, old: Seq<FilePerformanceStats>) -> bool {
    exists|i: int| 0 <= i < s.len() && #[trigger] refreshed_entry(s[i], a, old)
}

/// Whether each active file has refreshed statistics in `s`, its counters
/// those recorded in `old`.
pub open spec fn all_active_refreshed(s: Seq<FilePerformanceStats>, active: Seq<ActiveFile>, old: Seq<FilePerformanceStats>) -> bool {
    forall|j: int| 0 <= j < active.len() ==> has_refreshed_entry(s, #[trigger] active[j], old)
}

/// Whether `id` is the file of one of the first `j` active files.
#[verifier::opaque]
spec fn among_first_active(active: Seq<ActiveFile>, j: int, id: FileId) -> bool {
    exists|k: int| 0 <= k < j && #[trigger] active[k].file_id == id
}

/// Refreshes the statistics: each active file gets its path, dependency and
/// dependent counts and caching as the database knows them, keeping the
/// counters recorded for it (zero for a file with none); statistics of
/// files that are no longer active are dropped; the statistics come in
/// ascending order of file.
pub fn refresh_file_stats_metadata(stats: &mut Vec<FilePerformanceStats>, active: &[ActiveFile])
    requires
        stats_ordered(old(stats)@),
        forall|i: int, j: int| 0 <= i < j < active@.len() ==> (#[trigger] active@[i]).file_id != (#[trigger] active@[j]).file_id,
    ensures
        stats_ordered(final(stats)@),
        only_active_files(final(stats)@, active@),
        all_active_refreshed(final(stats)@, active@, old(stats)@),
{
    let ghost old_stats = stats@;
    let mut out: Vec<FilePerformanceStats> = Vec::new();
    let mut j: usize = 0;
    while j < active.len()
        invariant
            0 <= j <= active.len(),
            stats@ == old_stats,
            stats_ordered(old_stats),
            forall|a: int, b: int| 0 <= a < b < active@.len() ==> (#[trigger] active@[a]).file_id != (#[trigger] active@[b]).file_id,
            stats_ordered(out@),
            forall|x: FilePerformanceStats| #[trigger] out@.contains(x) ==> among_first_active(active@, j as int, x.file_id),
            forall|k: int|
                #![trigger active@[k]]
                0 <= k < j ==> exists|x: FilePerformanceStats| #[trigger] out@.contains(x) && refreshed_entry(x, active@[k], old_stats),
        decreases active.len() - j,
    {
        let entry = refreshed_stats_of(stats, &active[j]);
        let ghost prev = out@;
        proof {
            assert forall|i: int| 0 <= i < prev.len() implies (#[trigger] prev[i]).file_id.0 != entry.file_id.0 by {
                assert(prev.contains(prev[i]));
                reveal(among_first_active);
                let k = choose|k: int| 0 <= k < j && #[trigger] active@[k].file_id == prev[i].file_id;
                assert(active@[k].file_id != active@[j as int].file_id);
            }
        }
        insert_by_file(&mut out, entry);
        proof {
            assert forall|x: FilePerformanceStats| #[trigger] out@.contains(x) implies among_first_active(
                active@,
                j + 1,
                x.file_id,
            ) by {
                reveal(among_first_active);
                if prev.contains(x) {
                    let k = choose|k: int| 0 <= k < j && #[trigger] active@[k].file_id == x.file_id;
                } else {
                    assert(active@[j as int].file_id == x.file_id);
                }
            }
            assert forall|k: int| #![trigger active@[k]] 0 <= k < j + 1 implies exists|x: FilePerformanceStats|
                #[trigger] out@.contains(x) && refreshed_entry(x, active@[k], old_stats) by {
                if k < j {
                    let x = choose|x: FilePerformanceStats| #[trigger] prev.contains(x) && refreshed_entry(x, active@[k], old_stats);
                    assert(out@.contains(x));
                } else {
                    assert(out@.contains(entry));
                }
            }
        }
        j += 1;
    }
    proof {
        assert forall|i: int| 0 <= i < out@.len() implies is_active_file(active@, (#[trigger] out@[i]).file_id) by {
            assert(out@.contains(out@[i]));
            reveal(among_first_active);
        }
        assert forall|j: int| 0 <= j < active@.len() implies has_refreshed_entry(out@, #[trigger] active@[j], old_stats) by {
            let x = choose|x: FilePerformanceStats| #[trigger] out@.contains(x) && refreshed_entry(x, active@[j], old_stats);
            let i = choose|i: int| 0 <= i < out@.len() && out@[i] == x;
        }
        assert(only_active_files(out@, active@));
        assert(all_active_refreshed(out@, active@, old_stats));
    }
    *stats = out;
}

/// The statistics recorded for file `f`, if any.
pub open spec fn stats_for(s: Seq<FilePerformanceStats>, f: FileId) -> Option<FilePerformanceStats> {
    if exists|i: int| 0 <= i < s.len() && (#[trigger] s[i]).file_id.0 == f.0 {
        Some(s[choose|i: int| 0 <= i < s.len() && (#[trigger] s[i]).file_id.0 == f.0])
    } else {
        None
    }
}

/// Whether `x` holds the statistics of file `f` as recorded in `prior`,
/// else as a file nothing was recorded for, with the counters `bump` gives
/// and query support held or not as `cached` says.
pub open spec fn updated_stats(
    x: FilePerformanceStats,
    prior: Option<FilePerformanceStats>,
    f: FileId,
    builds: int,
    evictions: int,
    cached: bool,
    path: Option<Seq<char>>,
) -> bool {
    &&& x.file_id == f
    &&& x.query_support_cached == cached
    &&& match prior {
        Some(e) => {
            &&& x.normalized_path@ == (match path {
                Some(p) => p,
                None => e.normalized_path@,
            })
            &&& x.parse_rebuilds == e.parse_rebuilds
            &&& x.lower_rebuilds == e.lower_rebuilds
            &&& x.index_rebuilds == e.index_rebuilds
            &&& x.query_support_rebuilds == e.query_support_rebuilds + builds
            &&& x.query_support_evictions == e.query_support_evictions + evictions
            &&& x.dependency_count == e.dependency_count
            &&& x.dependent_count == e.dependent_count
        },
        None => {
            &&& x.normalized_path@ == (match path {
                Some(p) => p,
                None => Seq::<char>::empty(),
            })
            &&& x.parse_rebuilds == 0 && x.lower_rebuilds == 0 && x.index_rebuilds == 0
            &&& x.query_support_rebuilds == builds
            &&& x.query_support_evictions == evictions
            &&& x.dependency_count == 0 && x.dependent_count == 0
        },
    }
}
/// Whether `t` holds the entries of `s` but that of file `f`, and `e`.
pub open spec fn replaces_entry(t: Seq<FilePerformanceStats>, s: Seq<FilePerformanceStats>, f: FileId, e: FilePerformanceStats) -> bool {
    forall|x: FilePerformanceStats| #[trigger] t.contains(x) <==> ((s.contains(x) && x.file_id.0 != f.0) || x == e)
}

/// Puts `e` in place of the statistics of its file.
fn put_stats(stats: &mut Vec<FilePerformanceStats>, e: FilePerformanceStats)
    requires
        stats_ordered(old(stats)@),
    ensures
        stats_ordered(final(stats)@),
        replaces_entry(final(stats)@, old(stats)@, e.file_id, e),
{
    let ghost before = stats@;
    match find_stats(stats, e.file_id) {
        Some(i) => {
            stats.set(i, e);
            proof {
                let w = stats@;
                assert(w == before.update(i as int, e));
                assert forall|a: int, b: int| 0 <= a < b < w.len() implies (#[trigger] w[a]).file_id.0 < (#[trigger] w[b]).file_id.0 by {
                    assert(before[a].file_id.0 < before[b].file_id.0);
                }
                assert forall|x: FilePerformanceStats| #[trigger] w.contains(x) <==> ((before.contains(x) && x.file_id.0
                    != e.file_id.0) || x == e) by {
                    if w.contains(x) {
                        let k = choose|k: int| 0 <= k < w.len() && w[k] == x;
                        if k != i {
                            assert(before[k] == x);
                            if k < i {
                                assert(before[k].file_id.0 < before[i as int].file_id.0);
                            } else {
                                assert(before[i as int].file_id.0 < before[k].file_id.0);
                            }
                        }
                    }
                    if before.contains(x) && x.file_id.0 != e.file_id.0 {
                        let k = choose|k: int| 0 <= k < before.len() && before[k] == x;
                        assert(k != i);
                        assert(w[k] == x);
                    }
                    if x == e {
                        assert(w[i as int] == x);
                    }
                }
            }
        },
        None => {
            insert_by_file(stats, e);
            proof {
                assert forall|x: FilePerformanceStats| #[trigger] stats@.contains(x) <==> ((before.contains(x) && x.file_id.0
                    != e.file_id.0) || x == e) by {
                    if before.contains(x) {
                        let k = choose|k: int| 0 <= k < before.len() && before[k] == x;
                        assert(before[k].file_id.0 != e.file_id.0);
                    }
                }
            }
        },
    }
}

fn stats_entry(stats: &Vec<FilePerformanceStats>, f: FileId) -> (r: FilePerformanceStats)
    requires
        stats_ordered(stats@),
    ensures
        updated_stats(r, stats_for(stats@, f), f, 0, 0, r.query_support_cached, None),
        stats_for(stats@, f) matches Some(e) ==> r.query_support_cached == e.query_support_cached,
        stats_for(stats@, f) is None ==> !r.query_support_cached,
{
    match find_stats(stats, f) {
        Some(i) => {
            let e = &stats[i];
            proof {
                let c = choose|k: int| 0 <= k < stats@.len() && (#[trigger] stats@[k]).file_id.0 == f.0;
                if c < i {
                    assert(stats@[c].file_id.0 < stats@[i as int].file_id.0);
                } else if c > i {
                    assert(stats@[i as int].file_id.0 < stats@[c].file_id.0);
                }
            }
            FilePerformanceStats {
                file_id: e.file_id,
                normalized_path: e.normalized_path.clone(),
                parse_rebuilds: e.parse_rebuilds,
                lower_rebuilds: e.lower_rebuilds,
                index_rebuilds: e.index_rebuilds,
                query_support_rebuilds: e.query_support_rebuilds,
                query_support_evictions: e.query_support_evictions,
                query_support_cached: e.query_support_cached,
                dependency_count: e.dependency_count,
                dependent_count: e.dependent_count,
            }
        },
        None => {
            let d = default_file_stats(f);
            assert(!exists|i: int| 0 <= i < stats@.len() && (#[trigger] stats@[i]).file_id.0 == f.0);
            assert(d.normalized_path@ =~= Seq::<char>::empty());
            d
        },
    }
}

/// Records that a file's query support was evicted: its eviction count
/// grows by one and it no longer holds query support; the statistics of
/// other files stay as they were.
pub fn record_query_support_eviction(stats: &mut Vec<FilePerformanceStats>, file_id: FileId)
    requires
        stats_ordered(old(stats)@),
        stats_for(old(stats)@, file_id) matches Some(e) ==> e.query_support_evictions < u64::MAX,
    ensures
        stats_ordered(final(stats)@),
        exists|x: FilePerformanceStats|
            updated_stats(x, stats_for(old(stats)@, file_id), file_id, 0, 1, false, None) && #[trigger] replaces_entry(
                final(stats)@,
                old(stats)@,
                file_id,
                x,
            ),
{
    let ghost before = stats@;
    let mut e = stats_entry(stats, file_id);
    e.query_support_evictions = e.query_support_evictions + 1;
    e.query_support_cached = false;
    put_stats(stats, e);
    assert(updated_stats(e, stats_for(before, file_id), file_id, 0, 1, false, None));
}

/// Records that a file's query support was built: its build count grows
/// by one, it holds query support, and its path is the one given; the
/// statistics of other files stay as they were.
pub fn record_query_support_build(stats: &mut Vec<FilePerformanceStats>, file_id: FileId, normalized_path: String)
    requires
        stats_ordered(old(stats)@),
        stats_for(old(stats)@, file_id) matches Some(e) ==> e.query_support_rebuilds < u64::MAX,
    ensures
        stats_ordered(final(stats)@),
        exists|x: FilePerformanceStats|
            updated_stats(x, stats_for(old(stats)@, file_id), file_id, 1, 0, true, Some(normalized_path@))
                && #[trigger] replaces_entry(final(stats)@, old(stats)@, file_id, x),
{
    let ghost before = stats@;
    let ghost path = normalized_path@;
    let mut e = stats_entry(stats, file_id);
    e.normalized_path = normalized_path;
    e.query_support_rebuilds = e.query_support_rebuilds + 1;
    e.query_support_cached = true;
    put_stats(stats, e);
    assert(updated_stats(e, stats_for(before, file_id), file_id, 1, 0, true, Some(path)));
}

/// Records that a file's analysis was rebuilt: its parse, lowering and
/// index counts grow by one, it no longer holds query support, and its path
/// is the one given; the statistics of other files stay as they were.
pub fn record_file_rebuild(stats: &mut Vec<FilePerformanceStats>, file_id: FileId, normalized_path: String)
    requires
        stats_ordered(old(stats)@),
        stats_for(old(stats)@, file_id) matches Some(e) ==> e.parse_rebuilds < u64::MAX && e.lower_rebuilds < u64::MAX
            && e.index_rebuilds < u64::MAX,
    ensures
        stats_ordered(final(stats)@),
        exists|x: FilePerformanceStats|
            #[trigger] replaces_entry(final(stats)@, old(stats)@, file_id, x) && x.file_id == file_id
                && x.normalized_path@ == normalized_path@ && !x.query_support_cached && match stats_for(old(stats)@, file_id) {
                Some(e) => x.parse_rebuilds == e.parse_rebuilds + 1 && x.lower_rebuilds == e.lower_rebuilds + 1
                    && x.index_rebuilds == e.index_rebuilds + 1 && x.query_support_rebuilds == e.query_support_rebuilds
                    && x.query_support_evictions == e.query_support_evictions && x.dependency_count
                    == e.dependency_count && x.dependent_count == e.dependent_count,
                None => x.parse_rebuilds == 1 && x.lower_rebuilds == 1 && x.index_rebuilds == 1
                    && x.query_support_rebuilds == 0 && x.query_support_evictions == 0 && x.dependency_count == 0
                    && x.dependent_count == 0,
            },
{
    let ghost before = stats@;
    let mut e = stats_entry(stats, file_id);
    e.normalized_path = normalized_path;
    e.parse_rebuilds = e.parse_rebuilds + 1;
    e.lower_rebuilds = e.lower_rebuilds + 1;
    e.index_rebuilds = e.index_rebuilds + 1;
    e.query_support_cached = false;
    put_stats(stats, e);
    assert(replaces_entry(stats@, before, file_id, e));
}

} // verus!
