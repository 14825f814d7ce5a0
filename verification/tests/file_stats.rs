use rhai_db::stats::{default_file_stats, refresh_file_stats_metadata, ActiveFile, FilePerformanceStats};
use rhai_db::workspace::FileId;

fn active(id: u32, path: &str, deps: usize, dependents: usize, cached: bool) -> ActiveFile {
    ActiveFile {
        file_id: FileId(id),
        normalized_path: path.to_owned(),
        dependency_count: deps,
        dependent_count: dependents,
        query_support_cached: cached,
    }
}

fn recorded(id: u32, path: &str, parses: u64, evictions: u64) -> FilePerformanceStats {
    let mut s = default_file_stats(FileId(id));
    s.normalized_path = path.to_owned();
    s.parse_rebuilds = parses;
    s.lower_rebuilds = parses;
    s.index_rebuilds = parses;
    s.query_support_rebuilds = 1;
    s.query_support_evictions = evictions;
    s.query_support_cached = true;
    s.dependency_count = 9;
    s.dependent_count = 9;
    s
}

#[test]
fn default_file_stats_start_from_zero() {
    let s = default_file_stats(FileId(4));
    assert_eq!(s.file_id, FileId(4));
    assert!(s.normalized_path.is_empty());
    assert_eq!(
        (s.parse_rebuilds, s.lower_rebuilds, s.index_rebuilds, s.query_support_rebuilds, s.query_support_evictions),
        (0, 0, 0, 0, 0)
    );
    assert!(!s.query_support_cached);
    assert_eq!((s.dependency_count, s.dependent_count), (0, 0));
}

#[test]
fn refresh_keeps_counters_updates_metadata_and_drops_inactive_files() {
    let mut stats = vec![recorded(1, "/old/a.rhai", 3, 2), recorded(2, "/gone.rhai", 5, 0), recorded(7, "/c.rhai", 1, 0)];
    let files = vec![active(7, "/c.rhai", 2, 0, false), active(1, "/a.rhai", 0, 1, true), active(5, "/new.rhai", 1, 1, false)];
    refresh_file_stats_metadata(&mut stats, &files);

    let ids: Vec<u32> = stats.iter().map(|s| s.file_id.0).collect();
    assert_eq!(ids, vec![1, 5, 7]);

    assert_eq!(stats[0].normalized_path, "/a.rhai");
    assert_eq!(stats[0].parse_rebuilds, 3);
    assert_eq!(stats[0].query_support_evictions, 2);
    assert_eq!((stats[0].dependency_count, stats[0].dependent_count), (0, 1));
    assert!(stats[0].query_support_cached);

    assert_eq!(stats[1].normalized_path, "/new.rhai");
    assert_eq!(stats[1].parse_rebuilds, 0);
    assert_eq!(stats[1].query_support_rebuilds, 0);
    assert_eq!((stats[1].dependency_count, stats[1].dependent_count), (1, 1));

    assert_eq!(stats[2].parse_rebuilds, 1);
    assert_eq!(stats[2].query_support_rebuilds, 1);
    assert!(!stats[2].query_support_cached);
    assert_eq!(stats[2].dependency_count, 2);
}

#[test]
fn refresh_with_no_active_files_clears_statistics() {
    let mut stats = vec![recorded(3, "/x.rhai", 1, 1)];
    refresh_file_stats_metadata(&mut stats, &[]);
    assert!(stats.is_empty());
}
