use alvr_telemetry::client::{
    device_json, frame_row, header_text, input_row, start_logs, ClientStatistics,
    ClientTelemetry, DeviceMotion, HeaderSettings, Pose, Quat, TelemetrySample, Vec3,
};
use alvr_telemetry::clock::TimeSpan;
use alvr_telemetry::writer::WriterAction;
use serde_json::Value;

fn micros(n: u64) -> TimeSpan {
    TimeSpan { secs: n / 1_000_000, nanos: (n % 1_000_000) as u32 * 1_000 + 999 }
}

fn vec3(x: f32, y: f32, z: f32) -> Vec3 {
    Vec3 { x: Value::from(x), y: Value::from(y), z: Value::from(z) }
}

fn sample() -> TelemetrySample {
    TelemetrySample {
        motion: DeviceMotion {
            pose: Pose {
                position: vec3(1.0, 2.0, 3.5),
                orientation: Quat {
                    x: Value::from(0.0f32),
                    y: Value::from(0.25f32),
                    z: Value::from(0.5f32),
                    w: Value::from(1.0f32),
                },
            },
            linear_velocity: vec3(-1.0, 0.0, f32::NAN),
            angular_velocity: vec3(4.0, 5.0, 6.0),
        },
        residual_position_mm: Some(Value::from(1.5f32)),
        residual_orientation_deg: None,
    }
}

fn stats() -> ClientStatistics {
    ClientStatistics {
        target_timestamp: micros(5_000_001),
        frame_interval: micros(11_111),
        video_decode: micros(3_000),
        video_decoder_queue: micros(40),
        rendering: micros(5_000),
        vsync_queue: micros(600),
        total_pipeline_latency: micros(70_000),
    }
}

fn settings() -> HeaderSettings {
    HeaderSettings {
        codec: "Hevc".into(),
        fps: Value::from(72.0f32),
        wired: true,
        max_prediction_ms: Value::from(100),
        steamvr_pipeline_frames: None,
        eye_resolution: [2064, 2208],
    }
}

const DEVICE: &str = r#"{"av":[4.0,5.0,6.0],"p":[1.0,2.0,3.5],"q":[0.0,0.25,0.5,1.0],"res_ori_deg":null,"res_pos_mm":1.5,"v":[-1.0,0.0,null]}"#;

#[test]
fn device_members() {
    assert_eq!(device_json(&sample()).to_string(), DEVICE);
}

#[test]
fn frame_row_text() {
    assert_eq!(
        frame_row(1_700_000_000_000, &stats()),
        r#"{"frame_interval_us":11111,"rendering_us":5000,"target_ts_us":5000001,"total_pipeline_latency_us":70000,"type":"frame","unix_ms":1700000000000,"video_decode_us":3000,"video_decoder_queue_us":40,"vsync_queue_us":600}"#
    );
}

#[test]
fn input_row_text() {
    let hands = [None, Some((7, sample()))];
    let row = input_row(9, micros(1), micros(2), &sample(), &hands);
    let hand = DEVICE.replace(r#""p":"#, r#""id":7,"p":"#);
    assert_eq!(
        row,
        format!(
            r#"{{"hands":[{hand}],"head":{DEVICE},"now_ts_us":2,"poll_ts_us":1,"type":"input","unix_ms":9}}"#
        )
    );
}

#[test]
fn hands_keep_their_order() {
    let hands = [Some((1, sample())), Some((2, sample()))];
    let row = input_row(9, micros(1), micros(2), &sample(), &hands);
    let value: Value = serde_json::from_str(&row).unwrap();
    assert_eq!(value["hands"][0]["id"], 1);
    assert_eq!(value["hands"][1]["id"], 2);
    assert_eq!(value["hands"].as_array().unwrap().len(), 2);
    let row = input_row(9, micros(1), micros(2), &sample(), &[None, None]);
    let value: Value = serde_json::from_str(&row).unwrap();
    assert!(value["hands"].as_array().unwrap().is_empty());
}

#[test]
fn largest_numbers() {
    let mut stats = stats();
    stats.rendering = TimeSpan { secs: 18_446_744_073_709, nanos: 551_615_000 };
    let row = frame_row(u64::MAX, &stats);
    let value: Value = serde_json::from_str(&row).unwrap();
    assert_eq!(value["rendering_us"], u64::MAX);
    assert_eq!(value["unix_ms"], u64::MAX);
}

#[test]
fn header_has_the_settings() {
    assert_eq!(
        header_text(5, "20.14.0", &settings()),
        r#"{"role":"client","settings":{"codec":"Hevc","eye_resolution":[2064,2208],"fps":72.0,"max_prediction_ms":100,"steamvr_pipeline_frames":null,"wired":true},"type":"header","unix_ms":5,"version":"20.14.0"}"#
    );
    let mut settings = settings();
    settings.steamvr_pipeline_frames = Some(Value::from(2.5f32));
    settings.wired = false;
    let value: Value = serde_json::from_str(&header_text(5, "v", &settings)).unwrap();
    assert_eq!(value["settings"]["steamvr_pipeline_frames"], 2.5);
    assert_eq!(value["settings"]["wired"], false);
}

#[test]
fn a_header_is_a_single_line() {
    let mut settings = settings();
    settings.codec = "two\nlines".into();
    let header = header_text(5, "v\n", &settings);
    assert!(!header.contains('\n'));
    let value: Value = serde_json::from_str(&header).unwrap();
    assert_eq!(value["settings"]["codec"], "two\nlines");
}

#[test]
fn without_a_directory_nothing_is_logged() {
    let mut telemetry: ClientTelemetry<String, u32> = ClientTelemetry::default();
    assert!(telemetry.session_base().is_none());
    assert_eq!(telemetry.start(Some((Some(1), Some(2)))), (None, None));
    assert!(telemetry.log_frame(1, &stats()).is_none());
    let entry = telemetry.log_input_sample(1, micros(1), micros(2), &sample(), &[None, None]);
    assert!(entry.is_none());
    assert_eq!(telemetry.stop(), (None, None));
}

#[test]
fn rows_go_to_their_loggers() {
    let mut telemetry: ClientTelemetry<String, u32> = ClientTelemetry::new(Some("logs".into()));
    assert_eq!(telemetry.session_base().unwrap(), "logs");
    assert!(telemetry.log_frame(1, &stats()).is_none());

    assert_eq!(telemetry.start(Some((Some(1), Some(2)))), (None, None));
    let (logger, row) = telemetry.log_frame(1, &stats()).unwrap();
    assert_eq!(*logger, 2);
    assert_eq!(row, frame_row(1, &stats()));
    let (logger, row) = telemetry
        .log_input_sample(3, micros(1), micros(2), &sample(), &[None, None])
        .unwrap();
    assert_eq!(*logger, 1);
    assert_eq!(row, input_row(3, micros(1), micros(2), &sample(), &[None, None]));

    assert_eq!(telemetry.start(None), (None, None));
    assert_eq!(telemetry.start(Some((None, Some(4)))), (Some(1), Some(2)));
    let entry = telemetry.log_input_sample(3, micros(1), micros(2), &sample(), &[None, None]);
    assert!(entry.is_none());
    assert_eq!(telemetry.stop(), (None, Some(4)));
    assert!(telemetry.log_frame(1, &stats()).is_none());
    assert_eq!(telemetry.session_base().unwrap(), "logs");
}

#[test]
fn numbers_do_not_matter_without_a_logger() {
    let telemetry: ClientTelemetry<String, u32> = ClientTelemetry::new(None);
    let mut stats = stats();
    stats.rendering = TimeSpan { secs: u64::MAX, nanos: 0 };
    assert!(telemetry.log_frame(u128::MAX, &stats).is_none());
}

#[test]
fn a_session_has_two_logs_with_one_header() {
    let (input, frames) = start_logs(true, "{}");
    for (log, name) in [(input.unwrap(), "input"), (frames.unwrap(), "frames")] {
        assert_eq!(log.thread_name, format!("alvr-telemetry-{name}"));
        assert_eq!(log.logger.dropped_rows(), 0);
        match log.writer.open_action() {
            WriterAction::Open { file_name, header_line } => {
                assert_eq!(file_name, format!("{name}.jsonl"));
                assert_eq!(header_line, "{}\n");
            }
            _ => panic!("a writer starts by opening its file"),
        }
    }
    let (input, frames) = start_logs(false, "{}");
    assert!(input.is_none() && frames.is_none());
}
