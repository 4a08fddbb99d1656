use jfswatch::explorers::ExactExplorer;
use jfswatch::explorers::Explorer;
use jfswatch::explorers::PathExplorer;
use jfswatch::jfswatch::command_for;
use jfswatch::jfswatch::Action;
use jfswatch::jfswatch::JFSWatch;
use jfswatch::watched_fs::FSDifference;
use jfswatch::watched_fs::Timestamp;

/// The format for writing times
const LOCAL_DATE_FORMAT: &str = "%Y-%m-%d %H:%M:%S%.3f";

const TENTH_OF_A_SECOND: i64 = 100_000_000;

fn one_explorer() -> Vec<PathExplorer> {
    vec![PathExplorer::Exact(ExactExplorer::from_cli_arg("path"))]
}

fn jfswatch_with_command(command: Vec<&str>) -> JFSWatch {
    let cmd = command.iter().map(|s| s.to_string()).collect();
    JFSWatch::new(one_explorer(), TENTH_OF_A_SECOND, TENTH_OF_A_SECOND, cmd).unwrap()
}

fn timestamp(time: &chrono::DateTime<chrono::Local>) -> Timestamp {
    Timestamp {
        secs: time.timestamp(),
        nanos: time.timestamp_subsec_nanos(),
    }
}

fn error_of(result: Result<JFSWatch, String>) -> String {
    match result {
        Ok(_) => panic!("expected an error"),
        Err(message) => message,
    }
}

#[test]
fn given_all_valid_args_when_new_then_ok() {
    let cmd = vec!["echo".to_string(), "hello".to_string()];

    let jfswatch = JFSWatch::new(one_explorer(), TENTH_OF_A_SECOND, TENTH_OF_A_SECOND, cmd);
    assert!(jfswatch.is_ok());
}

#[test]
fn given_no_command_when_new_then_err() {
    let cmd = vec![];

    let jfswatch = JFSWatch::new(one_explorer(), TENTH_OF_A_SECOND, TENTH_OF_A_SECOND, cmd);
    assert!(jfswatch.is_err());
    assert_eq!(error_of(jfswatch), "No command was given");
}

#[test]
fn given_zero_interval_when_new_then_err() {
    let cmd = vec!["echo".to_string(), "hello".to_string()];

    let jfswatch = JFSWatch::new(one_explorer(), 0, TENTH_OF_A_SECOND, cmd);
    assert_eq!(
        error_of(jfswatch),
        "Interval must be a positive number of seconds"
    );
}

#[test]
fn given_negative_interval_when_new_then_err() {
    let cmd = vec!["echo".to_string(), "hello".to_string()];

    let jfswatch = JFSWatch::new(one_explorer(), -1_000_000_000, TENTH_OF_A_SECOND, cmd);
    assert_eq!(
        error_of(jfswatch),
        "Interval must be a positive number of seconds"
    );
}

#[test]
fn given_zero_sleep_when_new_then_err() {
    let cmd = vec!["echo".to_string(), "hello".to_string()];

    let jfswatch = JFSWatch::new(one_explorer(), TENTH_OF_A_SECOND, 0, cmd);
    assert_eq!(
        error_of(jfswatch),
        "Sleep must be a positive number of seconds"
    );
}

#[test]
fn given_negative_sleep_when_new_then_err() {
    let cmd = vec!["echo".to_string(), "hello".to_string()];

    let jfswatch = JFSWatch::new(one_explorer(), TENTH_OF_A_SECOND, -1_000_000_000, cmd);
    assert_eq!(
        error_of(jfswatch),
        "Sleep must be a positive number of seconds"
    );
}

#[test]
fn given_no_explorers_when_new_then_err() {
    let explorers = vec![];
    let cmd = vec!["echo".to_string(), "hello".to_string()];

    let jfswatch = JFSWatch::new(explorers, TENTH_OF_A_SECOND, TENTH_OF_A_SECOND, cmd);
    assert!(jfswatch.is_err());
    assert_eq!(error_of(jfswatch), "Empty path discovery list");
}

#[test]
fn given_several_faults_when_new_then_names_the_first() {
    assert_eq!(
        error_of(JFSWatch::new(vec![], 0, 0, vec![])),
        "No command was given"
    );
    assert_eq!(
        error_of(JFSWatch::new(vec![], 0, 0, vec!["echo".to_string()])),
        "Interval must be a positive number of seconds"
    );
    assert_eq!(
        error_of(JFSWatch::new(vec![], 1, 0, vec!["echo".to_string()])),
        "Sleep must be a positive number of seconds"
    );
}

#[test]
fn given_unchanged_diff_when_get_command_then_none() {
    let jfswatch = jfswatch_with_command(vec!["doesn't", "matter"]);
    let diff = FSDifference::Unchanged;

    match jfswatch.get_command(&diff) {
        Some(_) => panic!("Expected None"),
        None => {}
    }
}

#[test]
fn given_new_diff_when_get_command_then_substitutes_all() {
    let jfswatch = jfswatch_with_command(vec!["echo", "$diff", "$path was", "created at $mtime"]);
    let mtime = chrono::Local::now();
    let diff = FSDifference::New {
        path: "mock/path".to_string(),
        mtime: timestamp(&mtime),
    };
    let command = jfswatch.get_command(&diff).unwrap();

    assert_eq!(
        command,
        format!(
            "echo new mock/path was created at {}",
            mtime.format(LOCAL_DATE_FORMAT)
        )
    );
}

#[test]
fn given_modified_diff_when_get_command_then_substitutes_all() {
    let jfswatch =
        jfswatch_with_command(vec!["echo", "{ diff: $diff, path: $path, mtime: $mtime }"]);
    let mtime = chrono::Local::now();
    let diff = FSDifference::Modified {
        path: "mock/path".to_string(),
        mtime: timestamp(&mtime),
    };
    let command = jfswatch.get_command(&diff).unwrap();

    assert_eq!(
        command,
        format!(
            "echo {{ diff: modified, path: mock/path, mtime: {} }}",
            mtime.format(LOCAL_DATE_FORMAT)
        )
    );
}

#[test]
fn given_deleted_diff_when_get_command_then_substitutes_all() {
    let jfswatch = jfswatch_with_command(vec![
        "echo",
        "{ diff: $diff }",
        "path: $path\nmtime: $mtime",
    ]);
    let diff = FSDifference::Deleted {
        path: "mock/path".to_string(),
    };
    let command = jfswatch.get_command(&diff).unwrap();

    assert_eq!(
        command,
        format!("echo {{ diff: deleted }} path: mock/path\nmtime: $mtime")
    );
}

#[test]
fn given_new_diff_when_get_command_then_ignores_escaped_variables() {
    let jfswatch = jfswatch_with_command(vec!["echo $path \\$path \\${path} ${path}"]);
    let diff = FSDifference::New {
        path: "mock/path".to_string(),
        mtime: timestamp(&chrono::Local::now()),
    };
    let command = jfswatch.get_command(&diff).unwrap();

    assert_eq!(command, "echo mock/path $path ${path} mock/path");
}

#[test]
fn given_modified_diff_when_get_command_then_ignores_escaped_variables() {
    let jfswatch = jfswatch_with_command(vec!["echo $path \\$path \\${path} ${path}"]);
    let diff = FSDifference::Modified {
        path: "mock/path".to_string(),
        mtime: timestamp(&chrono::Local::now()),
    };
    let command = jfswatch.get_command(&diff).unwrap();

    assert_eq!(command, "echo mock/path $path ${path} mock/path");
}

#[test]
fn given_deleted_diff_when_get_command_then_ignores_escaped_variables() {
    let jfswatch = jfswatch_with_command(vec!["echo $path \\$path \\${path} ${path}"]);
    let diff = FSDifference::Deleted {
        path: "mock/path".to_string(),
    };
    let command = jfswatch.get_command(&diff).unwrap();

    assert_eq!(command, "echo mock/path $path ${path} mock/path");
}

#[test]
fn given_time_out_of_range_when_get_command_then_leaves_mtime_as_written() {
    let jfswatch = jfswatch_with_command(vec!["echo", "$path", "${mtime}"]);
    let diff = FSDifference::New {
        path: "mock/path".to_string(),
        mtime: Timestamp {
            secs: i64::MAX,
            nanos: 0,
        },
    };

    assert_eq!(
        jfswatch.get_command(&diff),
        Some("echo mock/path ${mtime}".to_string())
    );
}

#[test]
fn given_stamp_when_command_for_then_puts_it_for_mtime() {
    let new = FSDifference::New {
        path: "p".to_string(),
        mtime: Timestamp { secs: 0, nanos: 0 },
    };
    let deleted = FSDifference::Deleted {
        path: "p".to_string(),
    };

    assert_eq!(
        command_for("$diff $path $mtime", &new, Some("then")),
        Some("new p then".to_string())
    );
    assert_eq!(
        command_for("$diff $path $mtime", &new, None),
        Some("new p $mtime".to_string())
    );
    assert_eq!(
        command_for("$diff $path $mtime", &deleted, Some("then")),
        Some("deleted p $mtime".to_string())
    );
    assert_eq!(
        command_for("$diff $path $mtime", &FSDifference::Unchanged, Some("then")),
        None
    );
}

#[test]
fn given_path_that_appears_when_watch_then_unchanged_until_it_is_new() {
    let jfswatch = jfswatch_with_command(vec!["echo", "$diff", "$path"]);
    let created = Timestamp {
        secs: 1_700_000_000,
        nanos: 5,
    };

    let mut previous = jfswatch.explore(None, vec![("path".to_string(), None)]);
    assert_eq!(previous.len(), 0);

    for _ in 0..3 {
        let current = jfswatch.explore(Some(previous.len()), vec![("path".to_string(), None)]);
        match jfswatch.watch(&current, previous) {
            Action::Sleep { nanos } => assert_eq!(nanos, TENTH_OF_A_SECOND),
            Action::Run { .. } => panic!("nothing changed"),
        }
        previous = current;
    }

    let current = jfswatch.explore(
        Some(previous.len()),
        vec![("path".to_string(), Some(created))],
    );
    match jfswatch.watch(&current, previous) {
        Action::Run {
            difference,
            command,
            nanos,
        } => {
            assert_eq!(
                difference,
                FSDifference::New {
                    path: "path".to_string(),
                    mtime: created
                }
            );
            assert_eq!(command, "echo new path");
            assert_eq!(nanos, TENTH_OF_A_SECOND);
        }
        Action::Sleep { .. } => panic!("the path is new"),
    }
    previous = current;

    let current = jfswatch.explore(
        Some(previous.len()),
        vec![("path".to_string(), Some(created))],
    );
    assert!(matches!(
        jfswatch.watch(&current, previous),
        Action::Sleep { .. }
    ));
}

#[test]
fn given_sleep_other_than_interval_when_watch_then_sleeps_it_after_the_command() {
    let jfswatch = JFSWatch::new(one_explorer(), 7, 11, vec!["true".to_string()]).unwrap();
    let seen = Timestamp { secs: 1, nanos: 0 };

    let empty = jfswatch.explore(None, vec![]);
    let full = jfswatch.explore(None, vec![("path".to_string(), Some(seen))]);
    match jfswatch.watch(&full, empty.clone()) {
        Action::Run { nanos, .. } => assert_eq!(nanos, 11),
        Action::Sleep { .. } => panic!("the path is new"),
    }
    match jfswatch.watch(&empty, full) {
        Action::Run {
            difference,
            command,
            nanos,
        } => {
            assert_eq!(
                difference,
                FSDifference::Deleted {
                    path: "path".to_string()
                }
            );
            assert_eq!(command, "true");
            assert_eq!(nanos, 11);
        }
        Action::Sleep { .. } => panic!("the path has gone"),
    }
    match jfswatch.watch(&empty, empty.clone()) {
        Action::Sleep { nanos } => assert_eq!(nanos, 7),
        Action::Run { .. } => panic!("nothing changed"),
    }
}

#[test]
fn given_explorers_when_asked_then_are_handed_back() {
    let jfswatch = jfswatch_with_command(vec!["true"]);
    assert_eq!(jfswatch.explorers().len(), 1);
    match &jfswatch.explorers()[0] {
        PathExplorer::Exact(explorer) => assert_eq!(explorer.path(), "path"),
        PathExplorer::Glob(_) => panic!("an exact explorer was given"),
    }
}
