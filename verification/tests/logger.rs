use alvr_telemetry::logger::{StartedLogger, TelemetryLogger, CHANNEL_CAPACITY};
use alvr_telemetry::writer::{RotatingWriter, WriterAction, WriterEvent, WriterPhase};
use std::collections::HashMap;

/// The files of a session, held in memory.
struct Disk {
    files: HashMap<String, String>,
    open: Option<String>,
    flushes: usize,
    /// Names of files that cannot be created.
    locked: Vec<String>,
}

impl Disk {
    fn new() -> Self {
        Self { files: HashMap::new(), open: None, flushes: 0, locked: vec![] }
    }

    /// Carries out an action. Where it opens a file, tells whether that worked.
    fn perform(&mut self, action: WriterAction) -> Option<bool> {
        match action {
            WriterAction::Open { file_name, header_line } => {
                if self.locked.contains(&file_name) {
                    return Some(false);
                }
                self.files.insert(file_name.clone(), header_line);
                self.open = Some(file_name);
                return Some(true);
            }
            WriterAction::WriteLine(row) => {
                let file = self.files.get_mut(self.open.as_ref().unwrap()).unwrap();
                file.push_str(&row);
                file.push('\n');
            }
            WriterAction::Flush => self.flushes += 1,
            WriterAction::Close => {
                self.flushes += 1;
                self.open = None;
            }
            WriterAction::Rename { from, to } => {
                let file = self.files.remove(&from).unwrap();
                self.files.insert(to, file);
            }
            WriterAction::Stop => self.open = None,
        }
        None
    }

    fn run(&mut self, writer: &mut RotatingWriter, event: WriterEvent) {
        let mut events = vec![event];
        while let Some(event) = events.pop() {
            for action in writer.step(event) {
                if let Some(ok) = self.perform(action) {
                    events.push(WriterEvent::Opened(ok));
                }
            }
        }
    }

    fn start(&mut self, writer: &mut RotatingWriter) {
        let ok = self.perform(writer.open_action()).unwrap();
        self.run(writer, WriterEvent::Opened(ok));
    }
}

fn finish(mut started: StartedLogger) -> Disk {
    let mut disk = Disk::new();
    disk.start(&mut started.writer);
    started.logger.stop();
    while matches!(started.writer.phase, WriterPhase::Writing) {
        let event = started.logger.next_event();
        disk.run(&mut started.writer, event);
    }
    disk
}

#[test]
fn test_logging_and_rotation() {
    let max_file_size = 128;
    let mut started =
        TelemetryLogger::start_impl(true, "test", r#"{"type":"header"}"#, max_file_size).unwrap();

    // 63-byte rows: the second row does not fit in a 128-byte file, so rotation must kick in
    let row = format!("\"{}\"", "x".repeat(60));
    for _ in 0..4 {
        started.logger.log(row.clone());
    }
    let disk = finish(started);

    let names: Vec<&String> = disk.files.keys().collect();
    assert!(names.iter().any(|fname| *fname == "test_r0.jsonl"));
    assert!(names.iter().any(|fname| *fname == "test.jsonl"));

    for fname in names.iter().filter(|fname| fname.ends_with(".jsonl")) {
        let content = &disk.files[*fname];
        let lines: Vec<&str> = content.lines().collect();
        assert_eq!(lines[0], r#"{"type":"header"}"#);
        for line in &lines[1..] {
            assert_eq!(line, &row);
        }
    }

    let mut sorted: Vec<&str> = names.iter().map(|name| name.as_str()).collect();
    sorted.sort();
    assert_eq!(sorted, ["test.jsonl", "test_r0.jsonl", "test_r1.jsonl", "test_r2.jsonl"]);
}

#[test]
fn rows_keep_their_order_over_files() {
    let mut started = TelemetryLogger::start_impl(true, "log", "H", 8).unwrap();
    for row in ["a", "b", "c", "d", "e"] {
        started.logger.log(row.to_string());
    }
    let disk = finish(started);
    assert_eq!(disk.files["log_r0.jsonl"], "H\na\nb\nc\n");
    assert_eq!(disk.files["log.jsonl"], "H\nd\ne\n");
    assert_eq!(disk.files.len(), 2);
}

#[test]
fn a_file_is_given_up_only_for_a_row_that_does_not_fit() {
    let mut started = TelemetryLogger::start_impl(true, "log", "H", 10).unwrap();
    for row in ["abc", "de", "f", "ghijk", "l", "m"] {
        started.logger.log(row.to_string());
    }
    let disk = finish(started);
    assert_eq!(disk.files["log_r0.jsonl"], "H\nabc\nde\n");
    assert_eq!(disk.files["log_r1.jsonl"], "H\nf\nghijk\n");
    assert_eq!(disk.files["log.jsonl"], "H\nl\nm\n");
    assert!(disk.files["log_r0.jsonl"].len() + "f".len() + 1 > 10);
    assert!(disk.files["log_r1.jsonl"].len() + "l".len() + 1 > 10);
}

#[test]
fn a_file_may_be_exactly_full() {
    let mut disk = Disk::new();
    let mut writer = RotatingWriter::new("log", "H", 6);
    disk.start(&mut writer);
    disk.run(&mut writer, WriterEvent::Row("123".into()));
    assert_eq!(writer.current_size, 6);
    assert_eq!(writer.rotation_index, 0);
    disk.run(&mut writer, WriterEvent::Row("".into()));
    assert_eq!(writer.rotation_index, 1);
    assert_eq!(disk.files["log_r0.jsonl"], "H\n123\n");
    assert_eq!(disk.files["log.jsonl"], "H\n\n");
}

#[test]
fn a_row_that_fits_nowhere_gets_a_file_of_its_own() {
    let mut disk = Disk::new();
    let mut writer = RotatingWriter::new("log", "H", 4);
    disk.start(&mut writer);
    disk.run(&mut writer, WriterEvent::Row("long row".into()));
    disk.run(&mut writer, WriterEvent::Row("x".into()));
    assert_eq!(disk.files["log_r0.jsonl"], "H\n");
    assert_eq!(disk.files["log_r1.jsonl"], "H\nlong row\n");
    assert_eq!(disk.files["log.jsonl"], "H\nx\n");
}

#[test]
fn sizes_are_in_bytes() {
    let mut writer = RotatingWriter::new("log", "ä", 100);
    assert!(writer.step(WriterEvent::Opened(true)).is_empty());
    assert_eq!(writer.current_size, 3);
    writer.step(WriterEvent::Row("€".into()));
    assert_eq!(writer.current_size, 7);
}

#[test]
fn quiet_times_are_used_to_flush() {
    let mut disk = Disk::new();
    let mut writer = RotatingWriter::new("log", "H", 100);
    disk.start(&mut writer);
    disk.run(&mut writer, WriterEvent::Timeout);
    assert_eq!(disk.flushes, 1);
    assert!(matches!(writer.phase, WriterPhase::Writing));
    disk.run(&mut writer, WriterEvent::Disconnected);
    assert_eq!(disk.flushes, 2);
    assert!(matches!(writer.phase, WriterPhase::Stopped));
}

#[test]
fn a_first_file_that_cannot_be_opened_ends_the_writer() {
    let mut disk = Disk::new();
    disk.locked.push("log.jsonl".into());
    let mut writer = RotatingWriter::new("log", "H", 100);
    disk.start(&mut writer);
    assert!(matches!(writer.phase, WriterPhase::Stopped));
    assert!(disk.files.is_empty());
}

#[test]
fn a_next_file_that_cannot_be_opened_ends_the_writer() {
    let mut disk = Disk::new();
    let mut writer = RotatingWriter::new("log", "H", 4);
    disk.start(&mut writer);
    disk.run(&mut writer, WriterEvent::Row("a".into()));
    disk.locked.push("log.jsonl".into());
    disk.run(&mut writer, WriterEvent::Row("b".into()));
    assert!(matches!(writer.phase, WriterPhase::Stopped));
    assert_eq!(disk.files["log_r0.jsonl"], "H\na\n");
    assert!(!disk.files.contains_key("log.jsonl"));
}

#[test]
fn no_directory_no_logger() {
    assert!(TelemetryLogger::start(false, "input", "H").is_none());
    assert!(TelemetryLogger::start_impl(false, "input", "H", 1).is_none());
}

#[test]
fn a_logger_starts_empty() {
    let started = TelemetryLogger::start(true, "input", "H").unwrap();
    assert_eq!(started.thread_name, "alvr-telemetry-input");
    assert_eq!(started.logger.dropped_rows(), 0);
    assert_eq!(started.writer.max_file_size, 104_857_600);
    assert_eq!(started.writer.file_name(), "input.jsonl");
    assert_eq!(started.writer.header_json, "H");
}

#[test]
fn a_full_queue_drops_and_counts_rows() {
    let mut logger = TelemetryLogger::start(true, "input", "H").unwrap().logger;
    for i in 0..CHANNEL_CAPACITY + 3 {
        logger.log(format!("{i}"));
    }
    assert_eq!(CHANNEL_CAPACITY, 1024);
    assert_eq!(logger.dropped_rows(), 3);

    // A row that is taken makes room for another one
    assert!(matches!(logger.next_event(), WriterEvent::Row(row) if row == "0"));
    logger.log("late".into());
    assert_eq!(logger.dropped_rows(), 3);
    for i in 1..CHANNEL_CAPACITY {
        assert!(matches!(logger.next_event(), WriterEvent::Row(row) if row == format!("{i}")));
    }
    assert!(matches!(logger.next_event(), WriterEvent::Row(row) if row == "late"));
    assert!(matches!(logger.next_event(), WriterEvent::Timeout));
}

#[test]
fn stopping_lets_the_queue_drain() {
    let mut logger = TelemetryLogger::start(true, "input", "H").unwrap().logger;
    logger.log("a".into());
    logger.log("b".into());
    logger.stop();
    logger.stop();
    logger.log("c".into());
    assert!(matches!(logger.next_event(), WriterEvent::Row(row) if row == "a"));
    assert!(matches!(logger.next_event(), WriterEvent::Row(row) if row == "b"));
    assert!(matches!(logger.next_event(), WriterEvent::Disconnected));
    assert_eq!(logger.dropped_rows(), 0);
}

#[test]
fn rows_for_a_writer_that_has_ended_are_passed_over() {
    let mut logger = TelemetryLogger::start(true, "input", "H").unwrap().logger;
    logger.log("a".into());
    logger.writer_ended();
    logger.log("b".into());
    assert_eq!(logger.dropped_rows(), 0);
    assert!(matches!(logger.next_event(), WriterEvent::Timeout));
}

#[test]
fn each_logged_row_is_taken_up_or_counted() {
    let mut logger = TelemetryLogger::start(true, "input", "H").unwrap().logger;
    let mut taken = 0;
    for i in 0..3000 {
        logger.log(format!("{i}"));
        if i % 3 == 0 && matches!(logger.next_event(), WriterEvent::Row(_)) {
            taken += 1;
        }
    }
    logger.stop();
    while matches!(logger.next_event(), WriterEvent::Row(_)) {
        taken += 1;
    }
    assert!(logger.dropped_rows() > 0);
    assert_eq!(taken + logger.dropped_rows(), 3000);
}

#[test]
fn quiet_times_change_no_file() {
    let rows = ["a", "b", "c", "d", "e"];
    let mut plain = Disk::new();
    let mut writer = RotatingWriter::new("log", "H", 8);
    plain.start(&mut writer);
    for row in rows {
        plain.run(&mut writer, WriterEvent::Row(row.into()));
    }

    let mut quiet = Disk::new();
    let mut writer = RotatingWriter::new("log", "H", 8);
    quiet.start(&mut writer);
    for row in rows {
        quiet.run(&mut writer, WriterEvent::Timeout);
        quiet.run(&mut writer, WriterEvent::Row(row.into()));
        quiet.run(&mut writer, WriterEvent::Timeout);
    }
    let last = writer.step(WriterEvent::Disconnected);
    assert!(matches!(last[..], [WriterAction::Flush, WriterAction::Stop]));
    assert_eq!(quiet.files, plain.files);
    assert_eq!(quiet.files["log_r0.jsonl"], "H\na\nb\nc\n");
}
