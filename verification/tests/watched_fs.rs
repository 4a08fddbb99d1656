use std::collections::HashSet;
use std::time::Duration;
use std::time::SystemTime;
use std::time::UNIX_EPOCH;

use jfswatch::watched_fs::FSDifference;
use jfswatch::watched_fs::Timestamp;
use jfswatch::watched_fs::WatchedFS;

fn timestamp(time: SystemTime) -> Timestamp {
    match time.duration_since(UNIX_EPOCH) {
        Ok(after) => Timestamp {
            secs: after.as_secs() as i64,
            nanos: after.subsec_nanos(),
        },
        Err(before) => {
            let before = before.duration();
            if before.subsec_nanos() == 0 {
                Timestamp {
                    secs: -(before.as_secs() as i64),
                    nanos: 0,
                }
            } else {
                Timestamp {
                    secs: -(before.as_secs() as i64) - 1,
                    nanos: 1_000_000_000 - before.subsec_nanos(),
                }
            }
        }
    }
}

fn path_set(watched: &WatchedFS) -> HashSet<String> {
    watched.paths().into_iter().collect()
}

#[test]
fn given_watched_fs_when_path_found_then_is_added_to_paths() {
    let mut watched = WatchedFS::new(0);
    let mock_path = "mock/path".to_string();
    let mock_time = timestamp(SystemTime::now());
    watched.found(mock_path.clone(), mock_time.clone());
    assert_eq!(watched.len(), 1);
    assert_eq!(watched.get(&mock_path), Some(mock_time));
    assert_eq!(watched.paths(), vec![mock_path]);
}

#[test]
fn given_watched_fs_when_len_then_returns_current_size() {
    let mut watched = WatchedFS::new(0);
    assert_eq!(watched.len(), 0);
    assert_eq!(watched.paths().len(), 0);
    assert_eq!(path_set(&watched), HashSet::new());

    watched.found("path/a".to_string(), timestamp(SystemTime::now()));
    assert_eq!(watched.len(), 1);
    assert_eq!(watched.paths().len(), 1);
    assert_eq!(path_set(&watched), HashSet::from(["path/a".to_string()]));

    watched.found("path/b".to_string(), timestamp(SystemTime::now()));
    assert_eq!(watched.len(), 2);
    assert_eq!(watched.paths().len(), 2);
    assert_eq!(
        path_set(&watched),
        HashSet::from(["path/a".to_string(), "path/b".to_string()])
    );

    watched.found("path/a".to_string(), timestamp(SystemTime::now()));
    assert_eq!(watched.len(), 2);
    assert_eq!(watched.paths().len(), 2);
    assert_eq!(
        path_set(&watched),
        HashSet::from(["path/a".to_string(), "path/b".to_string()])
    );
}

#[test]
fn given_empty_fs_when_compared_against_another_empty_then_is_unchanged() {
    let a = WatchedFS::new(0);
    let b = WatchedFS::new(0);
    assert_eq!(a.compare(b), FSDifference::Unchanged);
    assert_eq!(a.len(), 0);
}

#[test]
fn given_non_empty_fs_when_compared_against_itself_then_is_unchanged() {
    let mut watched = WatchedFS::new(0);
    watched.found("/some/path".to_string(), timestamp(SystemTime::now()));

    let watched_cloned = watched.clone();
    assert_eq!(watched.compare(watched_cloned), FSDifference::Unchanged);
    assert_eq!(watched.len(), 1);
}

#[test]
fn given_modified_fs_when_compared_then_returns_modified_with_path() {
    let path = "/this/will/be/modified".to_string();
    let mtime_initial = timestamp(SystemTime::now() - Duration::new(10, 0)); // 10s ago
    let mtime_now = timestamp(SystemTime::now());

    let mut prev_watched = WatchedFS::new(0);
    prev_watched.found(path.clone(), mtime_initial);
    let mut curr_watched = WatchedFS::new(0);
    curr_watched.found(path.clone(), mtime_now.clone());

    assert_eq!(
        curr_watched.compare(prev_watched),
        FSDifference::Modified {
            path: path,
            mtime: mtime_now
        }
    );
    assert_eq!(curr_watched.len(), 1);
}

#[test]
fn given_new_file_when_compared_then_returns_new_path() {
    let new_path = "new/path".to_string();
    let prev_watched = WatchedFS::new(0);
    let mtime = timestamp(SystemTime::now());
    let mut curr_watched = WatchedFS::new(0);
    curr_watched.found(new_path.clone(), mtime.clone());

    assert_eq!(
        curr_watched.compare(prev_watched),
        FSDifference::New {
            path: new_path,
            mtime: mtime
        }
    );
    assert_eq!(curr_watched.len(), 1);
}

#[test]
fn given_deleted_file_when_compared_then_returns_deleted_path() {
    let deleted_path = "deleted/path".to_string();
    let mut prev_watched = WatchedFS::new(0);
    prev_watched.found(deleted_path.clone(), timestamp(SystemTime::now()));
    let curr_watched = WatchedFS::new(0);

    assert_eq!(
        curr_watched.compare(prev_watched),
        FSDifference::Deleted { path: deleted_path }
    );
    assert_eq!(curr_watched.len(), 0);
}

#[test]
fn given_watched_fs_when_displayed_then_shows_all_paths() {
    let mut watched = WatchedFS::new(3);
    watched.found("path/a".to_string(), timestamp(SystemTime::now()));
    watched.found("path/b".to_string(), timestamp(SystemTime::now()));
    watched.found("path/c".to_string(), timestamp(SystemTime::now()));

    let displayed = watched.to_string();

    assert!(displayed.contains("path/a"));
    assert!(displayed.contains("path/b"));
    assert!(displayed.contains("path/c"));
}

#[test]
fn given_empty_watched_fs_when_displayed_then_is_empty_string() {
    let watched = WatchedFS::new(0);

    let displayed = watched.to_string();

    assert_eq!(displayed, "".to_string());
}

#[test]
fn displayed_paths_stand_one_to_a_line_in_the_order_found() {
    let mut watched = WatchedFS::new(2);
    watched.found("path/b".to_string(), Timestamp { secs: 2, nanos: 0 });
    watched.found("path/a".to_string(), Timestamp { secs: 1, nanos: 0 });
    watched.found("path/b".to_string(), Timestamp { secs: 3, nanos: 0 });

    assert_eq!(watched.to_string(), "path/b\npath/a\n");
    assert_eq!(watched.paths(), vec!["path/b".to_string(), "path/a".to_string()]);
    assert_eq!(watched.get("path/b"), Some(Timestamp { secs: 3, nanos: 0 }));
    assert_eq!(watched.get("path/c"), None);
}

#[test]
fn snapshots_with_the_same_facts_in_another_order_are_unchanged() {
    let first = Timestamp { secs: 10, nanos: 1 };
    let second = Timestamp { secs: 20, nanos: 2 };
    let mut current = WatchedFS::new(2);
    current.found("a".to_string(), first);
    current.found("b".to_string(), second);
    let mut previous = WatchedFS::new(2);
    previous.found("b".to_string(), second);
    previous.found("a".to_string(), first);

    assert_eq!(current.compare(previous), FSDifference::Unchanged);
}

#[test]
fn the_first_fact_that_changed_is_the_one_reported() {
    let old = Timestamp { secs: 10, nanos: 0 };
    let new = Timestamp { secs: 11, nanos: 0 };
    let mut previous = WatchedFS::new(3);
    previous.found("gone".to_string(), old);
    previous.found("kept".to_string(), old);
    previous.found("touched".to_string(), old);
    let mut current = WatchedFS::new(3);
    current.found("kept".to_string(), old);
    current.found("touched".to_string(), new);
    current.found("fresh".to_string(), new);

    assert_eq!(
        current.compare(previous.clone()),
        FSDifference::Modified {
            path: "touched".to_string(),
            mtime: new
        }
    );

    // once the modification is in the baseline the new path shows, then the deletion
    previous.found("touched".to_string(), new);
    assert_eq!(
        current.compare(previous.clone()),
        FSDifference::New {
            path: "fresh".to_string(),
            mtime: new
        }
    );
    previous.found("fresh".to_string(), new);
    assert_eq!(
        current.compare(previous),
        FSDifference::Deleted {
            path: "gone".to_string()
        }
    );
}

#[test]
fn times_that_differ_only_in_nanoseconds_are_a_modification() {
    let mut previous = WatchedFS::new(1);
    previous.found("p".to_string(), Timestamp { secs: 5, nanos: 1 });
    let mut current = WatchedFS::new(1);
    current.found("p".to_string(), Timestamp { secs: 5, nanos: 2 });

    assert_eq!(
        current.compare(previous),
        FSDifference::Modified {
            path: "p".to_string(),
            mtime: Timestamp { secs: 5, nanos: 2 }
        }
    );
}

#[test]
fn a_path_that_cannot_be_read_leaves_no_trace() {
    let mut watched = WatchedFS::new(1);
    watched.find("missing".to_string(), None);
    assert_eq!(watched.len(), 0);
    watched.find("there".to_string(), Some(Timestamp { secs: 1, nanos: 0 }));
    assert_eq!(watched.paths(), vec!["there".to_string()]);
}
