use alvr_telemetry::clock::unix_timestamp_ns;
use alvr_telemetry::logger::TelemetryLogger;
use alvr_telemetry::session_dir::{
    session_dir_name, SessionDirProgress, SessionDirStep, DEFAULT_MAX_SESSIONS,
};

/// Makes a session directory in a directory that holds `dirs`.
fn create_session_dir(dirs: &mut Vec<String>, unix_ns: u128) -> Option<String> {
    let mut progress = SessionDirProgress::Base { created: true, unix_ns };
    loop {
        match TelemetryLogger::create_session_dir(progress) {
            SessionDirStep::Try { name, attempt } => {
                let created = !dirs.contains(&name);
                if created {
                    dirs.push(name);
                }
                progress = SessionDirProgress::Tried { created, unix_ns, attempt };
            }
            SessionDirStep::Finish { name } => {
                let entries = dirs.iter().map(|dir| Some(dir.clone())).collect();
                for removed in TelemetryLogger::prune_old_sessions(entries, &name) {
                    dirs.retain(|dir| *dir != removed);
                }
                return Some(name);
            }
            SessionDirStep::GiveUp => return None,
        }
    }
}

#[test]
fn test_session_dir_pruning() {
    let mut dirs: Vec<String> = vec![];

    let dir1 = create_session_dir(&mut dirs, unix_timestamp_ns()).unwrap();
    let dir2 = create_session_dir(&mut dirs, unix_timestamp_ns()).unwrap();
    assert!(dirs.contains(&dir1) && dirs.contains(&dir2));
    assert_ne!(dir1, dir2);

    for _ in 0..(DEFAULT_MAX_SESSIONS - 2) {
        create_session_dir(&mut dirs, unix_timestamp_ns()).unwrap();
    }
    assert_eq!(dirs.len(), DEFAULT_MAX_SESSIONS);

    // Creating one more session must evict the oldest one
    create_session_dir(&mut dirs, unix_timestamp_ns()).unwrap();
    assert_eq!(dirs.len(), DEFAULT_MAX_SESSIONS);
}

#[test]
fn the_oldest_session_is_evicted() {
    let mut dirs: Vec<String> = vec![];
    for time in 100..110 {
        create_session_dir(&mut dirs, time).unwrap();
    }
    assert_eq!(dirs[0], "session_100");
    let name = create_session_dir(&mut dirs, 110).unwrap();
    assert_eq!(name, "session_110");
    assert_eq!(dirs.len(), 10);
    assert_eq!(dirs[0], "session_101");
    assert_eq!(dirs[9], "session_110");
}

#[test]
fn names_of_tries() {
    assert_eq!(session_dir_name(1700000000123456789, 0), "session_1700000000123456789");
    assert_eq!(session_dir_name(1700000000123456789, 1), "session_1700000000123456789_1");
    assert_eq!(session_dir_name(0, 99), "session_0_99");
}

#[test]
fn a_taken_name_gets_a_suffix() {
    let mut dirs = vec!["session_5".to_string(), "session_5_1".to_string()];
    assert_eq!(create_session_dir(&mut dirs, 5).unwrap(), "session_5_2");
}

#[test]
fn the_last_try_is_the_hundredth() {
    let mut dirs: Vec<String> = (0..99).map(|i| session_dir_name(5, i)).collect();
    assert_eq!(dirs.len(), 99);
    let step = TelemetryLogger::create_session_dir(SessionDirProgress::Tried {
        created: false,
        unix_ns: 5,
        attempt: 98,
    });
    assert!(matches!(step, SessionDirStep::Try { name, attempt: 99 } if name == "session_5_99"));
    dirs.push(session_dir_name(5, 99));
    assert_eq!(create_session_dir(&mut dirs, 5), None);
}

#[test]
fn no_base_directory_no_session() {
    let step = TelemetryLogger::create_session_dir(SessionDirProgress::Base {
        created: false,
        unix_ns: 5,
    });
    assert!(matches!(step, SessionDirStep::GiveUp));
}

#[test]
fn ten_sessions_may_stay() {
    let entries: Vec<Option<String>> = (0..10).map(|i| Some(format!("session_{i}"))).collect();
    assert!(TelemetryLogger::prune_old_sessions(entries, "session_9").is_empty());
    assert!(TelemetryLogger::prune_old_sessions(vec![], "session_9").is_empty());
}

#[test]
fn only_sessions_are_removed() {
    let mut entries: Vec<Option<String>> = vec![
        Some("notes.txt".into()),
        None,
        Some("session".into()),
        Some("a_session_0".into()),
    ];
    for time in [20, 31, 12, 27, 15, 19, 33, 11, 28, 14, 26, 17] {
        entries.push(Some(format!("session_{time}")));
    }
    entries.push(Some("Session_00".into()));
    assert_eq!(
        TelemetryLogger::prune_old_sessions(entries, "session_33"),
        ["session_11", "session_12"]
    );
}

fn entries(names: &[&str]) -> Vec<Option<String>> {
    names.iter().map(|name| Some(name.to_string())).collect()
}

#[test]
fn order_is_by_time() {
    let mut entries: Vec<Option<String>> =
        (10..20).map(|time| Some(format!("session_{time}"))).collect();
    entries.push(Some("session_9".into()));
    assert_eq!(TelemetryLogger::prune_old_sessions(entries, "session_19"), ["session_9"]);
}

#[test]
fn order_at_the_same_time_is_by_try() {
    let mut entries = entries(&["session_5_10", "session_5_2", "session_5", "session_5_9"]);
    for time in 6..15 {
        entries.push(Some(format!("session_{time}")));
    }
    assert_eq!(
        TelemetryLogger::prune_old_sessions(entries, "session_14"),
        ["session_5", "session_5_2", "session_5_9"]
    );
}

#[test]
fn times_have_any_number_of_digits() {
    let long = format!("session_1{}", "0".repeat(60));
    let longer = format!("session_1{}", "0".repeat(61));
    let mut names = vec![longer.as_str(), long.as_str(), "session_007", "session_8"];
    let others: Vec<String> = (0..8).map(|i| format!("session_{}_{i}", u128::MAX)).collect();
    names.extend(others.iter().map(String::as_str));
    let removed = TelemetryLogger::prune_old_sessions(entries(&names), &long);
    assert_eq!(removed, ["session_007", "session_8"]);
    names.extend(["session_9"; 8]);
    let removed = TelemetryLogger::prune_old_sessions(entries(&names), "");
    assert_eq!(removed.len(), 10);
    assert!(!removed.contains(&long) && !removed.contains(&longer));
}

#[test]
fn names_without_a_time_go_by_text() {
    let mut early = entries(&["session_"]);
    early.extend((10..20).map(|time| Some(format!("session_{time}"))));
    assert_eq!(TelemetryLogger::prune_old_sessions(early, "session_19"), ["session_"]);

    let mut late = entries(&["session_abc"]);
    late.extend((10..20).map(|time| Some(format!("session_{time}"))));
    assert_eq!(TelemetryLogger::prune_old_sessions(late, "session_19"), ["session_10"]);

    let mut mixed = entries(&["session_", "session_abc", "session_1_x", "session_1_2_3"]);
    mixed.extend((20..28).map(|time| Some(format!("session_{time}"))));
    assert_eq!(
        TelemetryLogger::prune_old_sessions(mixed, "session_27"),
        ["session_", "session_1_2_3"]
    );
}

#[test]
fn names_with_a_time_share_their_places_by_text() {
    // By text: 10, ..., 14, 5x, 8, 9, a, ..., h
    let mut entries = entries(&["session_5x", "session_a", "session_b", "session_c"]);
    entries.extend((8..15).map(|time| Some(format!("session_{time}"))));
    for extra in ["d", "e", "f", "g", "h"] {
        entries.push(Some(format!("session_{extra}")));
    }
    entries.push(Some("session_15".into()));
    assert_eq!(
        TelemetryLogger::prune_old_sessions(entries, "session_15"),
        [
            "session_8", "session_9", "session_10", "session_11", "session_12", "session_5x",
            "session_13"
        ]
    );
}

#[test]
fn names_of_equal_length_go_as_sorted() {
    let mut names: Vec<String> =
        [17, 12, 35, 20, 11].iter().map(|time| format!("session_{time}")).collect();
    for other in ["x", "1a", "-", "20_", "", "Z", "é", "~"] {
        names.push(format!("session_{other}"));
    }
    let entries = names.iter().map(|name| Some(name.clone())).collect();
    let removed = TelemetryLogger::prune_old_sessions(entries, "session_35");
    names.sort();
    assert_eq!(removed, names[..3]);
}

#[test]
fn a_new_session_is_kept_whatever_its_time() {
    let mut dirs: Vec<String> =
        (0..10).map(|i| format!("session_{}", 1_700_000_000_000_000_000u64 + i)).collect();
    let name = create_session_dir(&mut dirs, 0).unwrap();
    assert_eq!(name, "session_0");
    assert!(dirs.contains(&name));
    assert_eq!(dirs.len(), 10);
    assert!(!dirs.contains(&"session_1700000000000000000".to_string()));
    assert!(dirs.contains(&"session_1700000000000000001".to_string()));

    let second = create_session_dir(&mut dirs, 0).unwrap();
    assert_eq!(second, "session_0_1");
    assert!(dirs.contains(&second) && !dirs.contains(&name));
}

#[test]
fn pruning_twice_removes_nothing_more() {
    let all: Vec<String> = (10..30).map(|time| format!("session_{time}")).collect();
    let removed = TelemetryLogger::prune_old_sessions(
        all.iter().map(|name| Some(name.clone())).collect(),
        "session_29",
    );
    assert_eq!(removed.len(), 10);
    let left: Vec<Option<String>> = all
        .iter()
        .filter(|name| !removed.contains(name))
        .map(|name| Some(name.clone()))
        .collect();
    assert_eq!(left.len(), 10);
    assert!(TelemetryLogger::prune_old_sessions(left, "session_29").is_empty());
}
