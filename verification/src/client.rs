//! The telemetry of the client: what goes into the header and the rows of its two logs, and where
//! the rows go.
//!
//! A measured quantity comes as a JSON value: a number, or null where it is not finite.

use crate::clock::TimeSpan;
use crate::json;
use crate::json::{
    array_value, bool_value, empty_object, option_value, set_member, string_value, u64_value,
    value_text, Json, JsonNumber,
};
use crate::log_files;
use crate::logger::{StartedLogger, TelemetryLogger, DEFAULT_MAX_FILE_SIZE};
use crate::writer::WriterPhase;
use serde_json::Value;
use vstd::prelude::*;

verus! {

/// A vector in space.
pub struct Vec3 {
    pub x: Value,
    pub y: Value,
    pub z: Value,
}

/// A rotation.
pub struct Quat {
    pub x: Value,
    pub y: Value,
    pub z: Value,
    pub w: Value,
}

/// A place and a direction.
pub struct Pose {
    pub position: Vec3,
    pub orientation: Quat,
}

/// How a device moves.
pub struct DeviceMotion {
    pub pose: Pose,
    pub linear_velocity: Vec3,
    pub angular_velocity: Vec3,
}

/// The motion of a device at an input poll.
pub struct TelemetrySample {
    pub motion: DeviceMotion,
    /// By how much the pose for the same time was revised one input poll later, in millimetres.
    /// None when tracking is not valid.
    pub residual_position_mm: Option<Value>,
    /// The same for the direction, in degrees.
    pub residual_orientation_deg: Option<Value>,
}

/// How long the parts of the pipeline took for a frame.
pub struct ClientStatistics {
    pub target_timestamp: TimeSpan,
    pub frame_interval: TimeSpan,
    pub video_decode: TimeSpan,
    pub video_decoder_queue: TimeSpan,
    pub rendering: TimeSpan,
    pub vsync_queue: TimeSpan,
    pub total_pipeline_latency: TimeSpan,
}

/// The settings that the header tells of.
pub struct HeaderSettings {
    pub codec: String,
    pub fps: Value,
    pub wired: bool,
    pub max_prediction_ms: Value,
    pub steamvr_pipeline_frames: Option<Value>,
    pub eye_resolution: [u32; 2],
}

/// The number of microseconds of a span is one that a row can hold.
pub open spec fn micros_fit(span: TimeSpan) -> bool {
    span.total_nanos() / 1_000 <= u64::MAX
}

/// The microseconds of a span.
pub open spec fn micros_json(span: TimeSpan) -> Json {
    json::json_u64((span.total_nanos() / 1_000) as u64)
}

impl Vec3 {
    pub open spec fn json(self) -> Json {
        Json::Array(
            seq![json::json_of(self.x), json::json_of(self.y), json::json_of(self.z)],
        )
    }

    fn to_value(&self) -> (value: Value)
        ensures
            json::json_of(value) == self.json(),
    {
        let items = vec![self.x.clone(), self.y.clone(), self.z.clone()];
        assert(json::jsons(items@) =~= self.json()->Array_0);
        array_value(items)
    }
}

impl Quat {
    pub open spec fn json(self) -> Json {
        Json::Array(
            seq![
                json::json_of(self.x),
                json::json_of(self.y),
                json::json_of(self.z),
                json::json_of(self.w),
            ],
        )
    }

    fn to_value(&self) -> (value: Value)
        ensures
            json::json_of(value) == self.json(),
    {
        let items = vec![self.x.clone(), self.y.clone(), self.z.clone(), self.w.clone()];
        assert(json::jsons(items@) =~= self.json()->Array_0);
        array_value(items)
    }
}

/// A copy of an optional value.
fn clone_option(option: &Option<Value>) -> (copy: Option<Value>)
    ensures
        json::json_option(copy) == json::json_option(*option),
{
    match option {
        Some(value) => Some(value.clone()),
        None => None,
    }
}

impl TelemetrySample {
    /// A sample as it stands in a row.
    pub open spec fn json(self) -> Json {
        Json::Object(
            map![
                "p"@ => self.motion.pose.position.json(),
                "q"@ => self.motion.pose.orientation.json(),
                "v"@ => self.motion.linear_velocity.json(),
                "av"@ => self.motion.angular_velocity.json(),
                "res_pos_mm"@ => json::json_option(self.residual_position_mm),
                "res_ori_deg"@ => json::json_option(self.residual_orientation_deg),
            ],
        )
    }
}

/// A sample as it stands in a row.
pub fn device_json(sample: &TelemetrySample) -> (device: Value)
    ensures
        json::json_of(device) == sample.json(),
{
    let mut device = empty_object();
    set_member(&mut device, "p", sample.motion.pose.position.to_value());
    set_member(&mut device, "q", sample.motion.pose.orientation.to_value());
    set_member(&mut device, "v", sample.motion.linear_velocity.to_value());
    set_member(&mut device, "av", sample.motion.angular_velocity.to_value());
    set_member(&mut device, "res_pos_mm", option_value(clone_option(&sample.residual_position_mm)));
    set_member(
        &mut device,
        "res_ori_deg",
        option_value(clone_option(&sample.residual_orientation_deg)),
    );
    device
}

/// The hand devices as they stand in a row, each with its id: those that there are, in order.
pub open spec fn hands_json(hands: Seq<Option<(u64, TelemetrySample)>>) -> Seq<Json>
    decreases hands.len(),
{
    if hands.len() == 0 {
        Seq::empty()
    } else {
        match hands.last() {
            Some((id, sample)) => hands_json(hands.drop_last()).push(
                json::with_member(sample.json(), "id"@, json::json_u64(id)),
            ),
            None => hands_json(hands.drop_last()),
        }
    }
}

/// The row for an input poll.
pub open spec fn input_json(
    unix_ms: u64,
    poll_timestamp: TimeSpan,
    now_timestamp: TimeSpan,
    head: TelemetrySample,
    hands: Seq<Option<(u64, TelemetrySample)>>,
) -> Json {
    Json::Object(
        map![
            "type"@ => Json::String("input"@),
            "unix_ms"@ => json::json_u64(unix_ms),
            "poll_ts_us"@ => micros_json(poll_timestamp),
            "now_ts_us"@ => micros_json(now_timestamp),
            "head"@ => head.json(),
            "hands"@ => Json::Array(hands_json(hands)),
        ],
    )
}

/// The row for a frame.
pub open spec fn frame_json(unix_ms: u64, stats: ClientStatistics) -> Json {
    Json::Object(
        map![
            "type"@ => Json::String("frame"@),
            "unix_ms"@ => json::json_u64(unix_ms),
            "target_ts_us"@ => micros_json(stats.target_timestamp),
            "frame_interval_us"@ => micros_json(stats.frame_interval),
            "video_decode_us"@ => micros_json(stats.video_decode),
            "video_decoder_queue_us"@ => micros_json(stats.video_decoder_queue),
            "rendering_us"@ => micros_json(stats.rendering),
            "vsync_queue_us"@ => micros_json(stats.vsync_queue),
            "total_pipeline_latency_us"@ => micros_json(stats.total_pipeline_latency),
        ],
    )
}

/// The header of both logs.
pub open spec fn header_json(unix_ms: u64, version: Seq<char>, settings: HeaderSettings) -> Json {
    Json::Object(
        map![
            "type"@ => Json::String("header"@),
            "role"@ => Json::String("client"@),
            "version"@ => Json::String(version),
            "unix_ms"@ => json::json_u64(unix_ms),
            "settings"@ => Json::Object(
                map![
                    "codec"@ => Json::String(settings.codec@),
                    "fps"@ => json::json_of(settings.fps),
                    "wired"@ => Json::Bool(settings.wired),
                    "max_prediction_ms"@ => json::json_of(settings.max_prediction_ms),
                    "steamvr_pipeline_frames"@ => json::json_option(
                        settings.steamvr_pipeline_frames,
                    ),
                    "eye_resolution"@ => Json::Array(
                        seq![
                            json::json_u64(settings.eye_resolution[0] as u64),
                            json::json_u64(settings.eye_resolution[1] as u64),
                        ],
                    ),
                ],
            ),
        ],
    )
}

impl ClientStatistics {
    /// The numbers of microseconds are ones that a row can hold.
    pub open spec fn micros_fit(self) -> bool {
        &&& micros_fit(self.target_timestamp)
        &&& micros_fit(self.frame_interval)
        &&& micros_fit(self.video_decode)
        &&& micros_fit(self.video_decoder_queue)
        &&& micros_fit(self.rendering)
        &&& micros_fit(self.vsync_queue)
        &&& micros_fit(self.total_pipeline_latency)
    }
}

/// The microseconds of a span as a value.
fn micros_value(span: &TimeSpan) -> (value: Value)
    requires
        micros_fit(*span),
    ensures
        json::json_of(value) == micros_json(*span),
{
    u64_value(span.as_micros() as u64)
}

/// The hand devices as values.
fn hand_values(hands: &[Option<(u64, TelemetrySample)>; 2]) -> (values: Vec<Value>)
    ensures
        json::jsons(values@) == hands_json(hands@),
{
    let mut values: Vec<Value> = Vec::new();
    let mut i: usize = 0;
    assert(json::jsons(values@) =~= hands_json(hands@.take(0)));
    while i < 2
        invariant
            i <= 2 == hands@.len(),
            json::jsons(values@) == hands_json(hands@.take(i as int)),
        decreases 2 - i,
    {
        let ghost before = json::jsons(values@);
        assert(hands@.take(i + 1).drop_last() =~= hands@.take(i as int));
        match &hands[i] {
            Some((id, sample)) => {
                let mut hand = device_json(sample);
                set_member(&mut hand, "id", u64_value(*id));
                let ghost added = json::json_of(hand);
                values.push(hand);
                assert(json::jsons(values@) =~= before.push(added));
            },
            None => {},
        }
        i += 1;
    }
    assert(hands@.take(2) =~= hands@);
    values
}

/// The text of the row for an input poll.
pub fn input_row(
    unix_ms: u64,
    poll_timestamp: TimeSpan,
    now_timestamp: TimeSpan,
    head: &TelemetrySample,
    hands: &[Option<(u64, TelemetrySample)>; 2],
) -> (row: String)
    requires
        micros_fit(poll_timestamp),
        micros_fit(now_timestamp),
    ensures
        row@ == json::json_text(input_json(unix_ms, poll_timestamp, now_timestamp, *head, hands@)),
        !row@.contains('\n'),
{
    let mut row = empty_object();
    set_member(&mut row, "type", string_value("input".to_owned()));
    set_member(&mut row, "unix_ms", u64_value(unix_ms));
    set_member(&mut row, "poll_ts_us", micros_value(&poll_timestamp));
    set_member(&mut row, "now_ts_us", micros_value(&now_timestamp));
    set_member(&mut row, "head", device_json(head));
    set_member(&mut row, "hands", array_value(hand_values(hands)));
    value_text(&row)
}

/// The text of the row for a frame.
pub fn frame_row(unix_ms: u64, stats: &ClientStatistics) -> (row: String)
    requires
        stats.micros_fit(),
    ensures
        row@ == json::json_text(frame_json(unix_ms, *stats)),
        !row@.contains('\n'),
{
    let mut row = empty_object();
    set_member(&mut row, "type", string_value("frame".to_owned()));
    set_member(&mut row, "unix_ms", u64_value(unix_ms));
    set_member(&mut row, "target_ts_us", micros_value(&stats.target_timestamp));
    set_member(&mut row, "frame_interval_us", micros_value(&stats.frame_interval));
    set_member(&mut row, "video_decode_us", micros_value(&stats.video_decode));
    set_member(&mut row, "video_decoder_queue_us", micros_value(&stats.video_decoder_queue));
    set_member(&mut row, "rendering_us", micros_value(&stats.rendering));
    set_member(&mut row, "vsync_queue_us", micros_value(&stats.vsync_queue));
    set_member(&mut row, "total_pipeline_latency_us", micros_value(&stats.total_pipeline_latency));
    value_text(&row)
}

/// The text of the header.
pub fn header_text(unix_ms: u64, version: &str, settings: &HeaderSettings) -> (header: String)
    ensures
        header@ == json::json_text(header_json(unix_ms, version@, *settings)),
        !header@.contains('\n'),
{
    let resolution = vec![
        u64_value(settings.eye_resolution[0] as u64),
        u64_value(settings.eye_resolution[1] as u64),
    ];
    assert(json::jsons(resolution@) =~= seq![
        json::json_u64(settings.eye_resolution[0] as u64),
        json::json_u64(settings.eye_resolution[1] as u64),
    ]);
    let mut part = empty_object();
    set_member(&mut part, "codec", string_value(settings.codec.clone()));
    set_member(&mut part, "fps", settings.fps.clone());
    set_member(&mut part, "wired", bool_value(settings.wired));
    set_member(&mut part, "max_prediction_ms", settings.max_prediction_ms.clone());
    set_member(
        &mut part,
        "steamvr_pipeline_frames",
        option_value(clone_option(&settings.steamvr_pipeline_frames)),
    );
    set_member(&mut part, "eye_resolution", array_value(resolution));
    let mut header = empty_object();
    set_member(&mut header, "type", string_value("header".to_owned()));
    set_member(&mut header, "role", string_value("client".to_owned()));
    set_member(&mut header, "version", string_value(version.to_owned()));
    set_member(&mut header, "unix_ms", u64_value(unix_ms));
    set_member(&mut header, "settings", part);
    value_text(&header)
}

/// Starts the logs of a session in its directory: the one for input polls and the one for frames,
/// with the same header. `session_dir_exists` says whether there is the directory.
pub fn start_logs(session_dir_exists: bool, header: &str) -> (logs: (
    Option<StartedLogger>,
    Option<StartedLogger>,
))
    ensures
        logs.0 is Some <==> session_dir_exists,
        logs.1 is Some <==> session_dir_exists,
        logs.0 matches Some(log) ==> log.is_fresh(
            "input"@,
            header@,
            DEFAULT_MAX_FILE_SIZE as nat,
        ),
        logs.1 matches Some(log) ==> log.is_fresh(
            "frames"@,
            header@,
            DEFAULT_MAX_FILE_SIZE as nat,
        ),
        logs.0 matches Some(log) ==> {
            &&& log.writer.name@ == "input"@
            &&& log.writer.header_json@ == header@
            &&& log.writer.max_file_size == 100 * 1024 * 1024
            &&& log.writer.phase matches WriterPhase::Opening(None)
            &&& log.logger@.queue.len() == 0 && log.logger@.connected && log.logger@.writer_running
        },
        logs.1 matches Some(log) ==> {
            &&& log.writer.name@ == "frames"@
            &&& log.writer.header_json@ == header@
            &&& log.writer.max_file_size == 100 * 1024 * 1024
            &&& log.writer.phase matches WriterPhase::Opening(None)
            &&& log.logger@.queue.len() == 0 && log.logger@.connected && log.logger@.writer_running
        },
{
    (
        TelemetryLogger::start(session_dir_exists, "input", header),
        TelemetryLogger::start(session_dir_exists, "frames", header),
    )
}

/// The telemetry of a client: the directory for its sessions, if it has one, and the loggers of
/// the session that runs. `D` is how the directory is known, and `L` a logger.
pub struct ClientTelemetry<D, L> {
    pub base_dir: Option<D>,
    pub input_logger: Option<L>,
    pub frames_logger: Option<L>,
}

impl<D, L> ClientTelemetry<D, L> {
    /// Telemetry that does not run.
    pub open spec fn idle(base_dir: Option<D>) -> Self {
        ClientTelemetry { base_dir, input_logger: None, frames_logger: None }
    }

    /// The telemetry after a start.
    pub open spec fn started(self, session: Option<(Option<L>, Option<L>)>) -> Self {
        match (self.base_dir, session) {
            (Some(_), Some((input_logger, frames_logger))) => ClientTelemetry {
                base_dir: self.base_dir,
                input_logger,
                frames_logger,
            },
            _ => self,
        }
    }

    /// Telemetry that does not run, for sessions in `base_dir`.
    pub fn new(base_dir: Option<D>) -> (telemetry: Self)
        ensures
            telemetry == Self::idle(base_dir),
            telemetry.base_dir == base_dir,
            telemetry.input_logger is None,
            telemetry.frames_logger is None,
    {
        ClientTelemetry { base_dir, input_logger: None, frames_logger: None }
    }

    /// The directory in which a start makes the directory of its session. A start makes none
    /// where this is `None`.
    pub fn session_base(&self) -> (base_dir: Option<&D>)
        ensures
            base_dir is Some <==> self.base_dir is Some,
            base_dir matches Some(dir) ==> *dir == self.base_dir->0,
    {
        self.base_dir.as_ref()
    }

    /// Takes up the loggers of a new session, for input polls and for frames: `session` is `None`
    /// where no directory could be made for it, and a logger is `None` where it could not be
    /// started. The loggers that are given up are returned; they have to be stopped.
    pub fn start(&mut self, session: Option<(Option<L>, Option<L>)>) -> (replaced: (
        Option<L>,
        Option<L>,
    ))
        ensures
            *final(self) == old(self).started(session),
            replaced == (if old(self).base_dir is Some && session is Some {
                (old(self).input_logger, old(self).frames_logger)
            } else {
                (None, None)
            }),
            final(self).base_dir == old(self).base_dir,
            session matches Some((input_logger, frames_logger)) ==> old(self).base_dir is Some ==> {
                &&& final(self).input_logger == input_logger
                &&& final(self).frames_logger == frames_logger
            },
            old(self).base_dir is None || session is None ==> {
                &&& final(self).input_logger == old(self).input_logger
                &&& final(self).frames_logger == old(self).frames_logger
            },
    {
        if self.base_dir.is_none() {
            return (None, None);
        }
        match session {
            Some((input_logger, frames_logger)) => {
                let replaced = (self.input_logger.take(), self.frames_logger.take());
                self.input_logger = input_logger;
                self.frames_logger = frames_logger;
                replaced
            },
            None => (None, None),
        }
    }

    /// Ends the session. The loggers that are given up are returned; they have to be stopped, the
    /// one for input polls first.
    pub fn stop(&mut self) -> (stopped: (Option<L>, Option<L>))
        ensures
            *final(self) == Self::idle(old(self).base_dir),
            stopped == (old(self).input_logger, old(self).frames_logger),
            final(self).base_dir == old(self).base_dir,
            final(self).input_logger is None,
            final(self).frames_logger is None,
    {
        (self.input_logger.take(), self.frames_logger.take())
    }

    /// The row for an input poll, with the logger that it goes to. There is none where no logger
    /// takes input polls.
    pub fn log_input_sample(
        &self,
        unix_ms: u128,
        poll_timestamp: TimeSpan,
        now_timestamp: TimeSpan,
        head: &TelemetrySample,
        hands: &[Option<(u64, TelemetrySample)>; 2],
    ) -> (entry: Option<(&L, String)>)
        requires
            self.input_logger is Some ==> unix_ms <= u64::MAX && micros_fit(poll_timestamp)
                && micros_fit(now_timestamp),
        ensures
            entry is Some <==> self.input_logger is Some,
            entry matches Some((logger, row)) ==> {
                &&& *logger == self.input_logger->0
                &&& row@ == json::json_text(
                    input_json(unix_ms as u64, poll_timestamp, now_timestamp, *head, hands@),
                )
                &&& !row@.contains('\n')
            },
    {
        match &self.input_logger {
            Some(logger) => {
                let row = input_row(unix_ms as u64, poll_timestamp, now_timestamp, head, hands);
                Some((logger, row))
            },
            None => None,
        }
    }

    /// The row for a frame, with the logger that it goes to. There is none where no logger takes
    /// frames.
    pub fn log_frame(&self, unix_ms: u128, stats: &ClientStatistics) -> (entry: Option<
        (&L, String),
    >)
        requires
            self.frames_logger is Some ==> unix_ms <= u64::MAX && stats.micros_fit(),
        ensures
            entry is Some <==> self.frames_logger is Some,
            entry matches Some((logger, row)) ==> {
                &&& *logger == self.frames_logger->0
                &&& row@ == json::json_text(frame_json(unix_ms as u64, *stats))
                &&& !row@.contains('\n')
            },
    {
        match &self.frames_logger {
            Some(logger) => Some((logger, frame_row(unix_ms as u64, stats))),
            None => None,
        }
    }
}

impl<D, L> Default for ClientTelemetry<D, L> {
    /// Telemetry without a directory: it never logs anything.
    fn default() -> (telemetry: Self)
        ensures
            telemetry == Self::idle(None),
            telemetry.base_dir is None,
            telemetry.input_logger is None,
            telemetry.frames_logger is None,
    {
        Self::new(None)
    }
}

/// Telemetry without a directory stays idle whatever is started, so that all logging does
/// nothing.
pub proof fn law_no_directory_no_logging<D, L>(session: Option<(Option<L>, Option<L>)>)
    ensures
        ClientTelemetry::<D, L>::idle(None).started(session) == ClientTelemetry::<D, L>::idle(None),
{
}

/// A start that cannot make the directory of its session changes nothing.
pub proof fn law_failed_start_changes_nothing<D, L>(telemetry: ClientTelemetry<D, L>)
    ensures
        telemetry.started(None) == telemetry,
{
}

/// The two logs of a session share a directory and yet never a file.
pub proof fn law_logs_have_files_of_their_own(i: nat, m: nat, j: nat, n: nat)
    ensures
        log_files::name_of("input"@, i, m) != log_files::name_of("frames"@, j, n),
{
    reveal_strlit("input");
    reveal_strlit("frames");
    assert(log_files::name_of("input"@, i, m)[0] == 'i');
    assert(log_files::name_of("frames"@, j, n)[0] == 'f');
}

/// The numbers of microseconds that a row can hold are those of 64 bits.
pub proof fn law_microseconds_that_fit(span: TimeSpan)
    ensures
        micros_fit(span) <==> (span.secs * 1_000_000_000 + span.nanos) / 1_000 <= u64::MAX,
        micros_fit(span) ==> micros_json(span) == Json::Number(
            JsonNumber::PosInt(((span.secs * 1_000_000_000 + span.nanos) / 1_000) as u64),
        ),
{
}

/// A frame can be logged where each of its numbers of microseconds can.
pub proof fn law_frames_that_fit(stats: ClientStatistics)
    ensures
        stats.micros_fit() <==> micros_fit(stats.target_timestamp) && micros_fit(
            stats.frame_interval,
        ) && micros_fit(stats.video_decode) && micros_fit(stats.video_decoder_queue) && micros_fit(
            stats.rendering,
        ) && micros_fit(stats.vsync_queue) && micros_fit(stats.total_pipeline_latency),
{
}

/// The names in a sample differ.
proof fn lemma_sample_names()
    ensures
        "p"@ != "q"@,
        "p"@ != "v"@,
        "p"@ != "av"@,
        "p"@ != "res_pos_mm"@,
        "p"@ != "res_ori_deg"@,
        "q"@ != "v"@,
        "q"@ != "av"@,
        "q"@ != "res_pos_mm"@,
        "q"@ != "res_ori_deg"@,
        "v"@ != "av"@,
        "v"@ != "res_pos_mm"@,
        "v"@ != "res_ori_deg"@,
        "av"@ != "res_pos_mm"@,
        "av"@ != "res_ori_deg"@,
        "res_pos_mm"@ != "res_ori_deg"@,
{
    reveal_strlit("p");
    reveal_strlit("q");
    reveal_strlit("v");
    reveal_strlit("av");
    reveal_strlit("res_pos_mm");
    reveal_strlit("res_ori_deg");
    assert("p"@.len() == 1);
    assert("q"@.len() == 1);
    assert("v"@.len() == 1);
    assert("av"@.len() == 2);
    assert("res_pos_mm"@.len() == 10);
    assert("res_ori_deg"@.len() == 11);
    assert("p"@[0] != "q"@[0]);
    assert("p"@[0] != "v"@[0]);
    assert("q"@[0] != "v"@[0]);
}

/// A sample tells of the place, the rotation, the two velocities and the two residuals of the
/// device, each under its own name, and of nothing else. A residual that is missing is null.
pub proof fn law_sample_tells_the_motion(sample: TelemetrySample, name: Seq<char>)
    ensures
        sample.json() is Object,
        json::members(sample.json()).contains_key(name) <==> name == "p"@ || name == "q"@ || name
            == "v"@ || name == "av"@ || name == "res_pos_mm"@ || name == "res_ori_deg"@,
        json::members(sample.json())["p"@] == Json::Array(
            seq![
                json::json_of(sample.motion.pose.position.x),
                json::json_of(sample.motion.pose.position.y),
                json::json_of(sample.motion.pose.position.z),
            ],
        ),
        json::members(sample.json())["q"@] == Json::Array(
            seq![
                json::json_of(sample.motion.pose.orientation.x),
                json::json_of(sample.motion.pose.orientation.y),
                json::json_of(sample.motion.pose.orientation.z),
                json::json_of(sample.motion.pose.orientation.w),
            ],
        ),
        json::members(sample.json())["v"@] == Json::Array(
            seq![
                json::json_of(sample.motion.linear_velocity.x),
                json::json_of(sample.motion.linear_velocity.y),
                json::json_of(sample.motion.linear_velocity.z),
            ],
        ),
        json::members(sample.json())["av"@] == Json::Array(
            seq![
                json::json_of(sample.motion.angular_velocity.x),
                json::json_of(sample.motion.angular_velocity.y),
                json::json_of(sample.motion.angular_velocity.z),
            ],
        ),
        sample.residual_position_mm matches Some(value) ==> json::members(
            sample.json(),
        )["res_pos_mm"@] == json::json_of(value),
        sample.residual_position_mm is None ==> json::members(sample.json())["res_pos_mm"@] is Null,
        sample.residual_orientation_deg matches Some(value) ==> json::members(
            sample.json(),
        )["res_ori_deg"@] == json::json_of(value),
        sample.residual_orientation_deg is None ==> json::members(
            sample.json(),
        )["res_ori_deg"@] is Null,
{
    lemma_sample_names();
}

/// How many hands there are.
pub open spec fn hand_count(hands: Seq<Option<(u64, TelemetrySample)>>) -> nat {
    hands.filter(|hand: Option<(u64, TelemetrySample)>| hand is Some).len()
}

/// Each hand that there is has an entry, whatever the others are: there are as many entries as
/// hands, and the hand at a place has the entry that follows those of the hands before it. The
/// entry is the sample of the hand with its id beside it.
pub proof fn law_each_hand_has_an_entry(hands: Seq<Option<(u64, TelemetrySample)>>, place: int)
    requires
        0 <= place < hands.len(),
    ensures
        hands_json(hands).len() == hand_count(hands),
        hands[place] matches Some((id, sample)) ==> {
            let at = hand_count(hands.take(place));
            let entry = hands_json(hands)[at as int];
            &&& at < hands_json(hands).len()
            &&& entry is Object
            &&& json::members(entry).contains_key("id"@)
            &&& json::members(entry)["id"@] == Json::Number(JsonNumber::PosInt(id))
            &&& forall|name: Seq<char>|
                name != "id"@ ==> #[trigger] json::members(entry).contains_key(name)
                    == json::members(sample.json()).contains_key(name)
            &&& forall|name: Seq<char>|
                name != "id"@ && json::members(sample.json()).contains_key(name)
                    ==> #[trigger] json::members(entry)[name] == json::members(sample.json())[name]
        },
    decreases hands.len(),
{
    let rest = hands.drop_last();
    lemma_hand_count(hands);
    if place < rest.len() {
        law_each_hand_has_an_entry(rest, place);
        assert(rest.take(place) =~= hands.take(place));
    } else {
        assert(hands.take(place) =~= rest);
        if rest.len() > 0 {
            law_each_hand_has_an_entry(rest, 0);
        } else {
            reveal(Seq::filter);
        }
    }
}

proof fn lemma_hand_count(hands: Seq<Option<(u64, TelemetrySample)>>)
    requires
        hands.len() > 0,
    ensures
        hand_count(hands) == hand_count(hands.drop_last()) + if hands.last() is Some {
            1nat
        } else {
            0
        },
{
    reveal(Seq::filter);
}

/// Of two hands, the row has the entries of those that there are, the first one first. The entry
/// of a hand does not depend on the other one: it is the sample of the hand with its id beside it.
pub proof fn law_entries_of_two_hands(
    left: Option<(u64, TelemetrySample)>,
    right: Option<(u64, TelemetrySample)>,
)
    ensures
        ({
            let none = None::<(u64, TelemetrySample)>;
            &&& hands_json(seq![none, none]).len() == 0
            &&& hands_json(seq![left, right]) == hands_json(seq![left, none]) + hands_json(
                seq![none, right],
            )
            &&& hands_json(seq![left, none]) == hands_json(seq![none, left])
            &&& left matches Some((id, sample)) ==> {
                let entry = hands_json(seq![left, none])[0];
                &&& hands_json(seq![left, none]).len() == 1
                &&& entry is Object
                &&& json::members(entry).contains_key("id"@)
                &&& json::members(entry)["id"@] == Json::Number(JsonNumber::PosInt(id))
                &&& forall|name: Seq<char>|
                    name != "id"@ ==> #[trigger] json::members(entry).contains_key(name)
                        == json::members(sample.json()).contains_key(name)
                &&& forall|name: Seq<char>|
                    name != "id"@ && json::members(sample.json()).contains_key(name)
                        ==> #[trigger] json::members(entry)[name] == json::members(
                        sample.json(),
                    )[name]
            }
        }),
{
    let none = None::<(u64, TelemetrySample)>;
    let empty = Seq::<Option<(u64, TelemetrySample)>>::empty();
    reveal_with_fuel(hands_json, 3);
    assert(seq![none, none].drop_last() =~= seq![none]);
    assert(seq![left, none].drop_last() =~= seq![left]);
    assert(seq![none, left].drop_last() =~= seq![none]);
    assert(seq![none, right].drop_last() =~= seq![none]);
    assert(seq![left, right].drop_last() =~= seq![left]);
    assert(seq![left].drop_last() =~= empty);
    assert(seq![none].drop_last() =~= empty);
    assert(hands_json(seq![left, right]) =~= hands_json(seq![left, none]) + hands_json(
        seq![none, right],
    ));
    assert(hands_json(seq![left, none]) =~= hands_json(seq![none, left]));
}

/// The names in a row for an input poll differ.
proof fn lemma_input_names()
    ensures
        "type"@ != "unix_ms"@,
        "type"@ != "poll_ts_us"@,
        "type"@ != "now_ts_us"@,
        "type"@ != "head"@,
        "type"@ != "hands"@,
        "unix_ms"@ != "poll_ts_us"@,
        "unix_ms"@ != "now_ts_us"@,
        "unix_ms"@ != "head"@,
        "unix_ms"@ != "hands"@,
        "poll_ts_us"@ != "now_ts_us"@,
        "poll_ts_us"@ != "head"@,
        "poll_ts_us"@ != "hands"@,
        "now_ts_us"@ != "head"@,
        "now_ts_us"@ != "hands"@,
        "head"@ != "hands"@,
{
    reveal_strlit("type");
    reveal_strlit("unix_ms");
    reveal_strlit("poll_ts_us");
    reveal_strlit("now_ts_us");
    reveal_strlit("head");
    reveal_strlit("hands");
    assert("type"@.len() == 4);
    assert("unix_ms"@.len() == 7);
    assert("poll_ts_us"@.len() == 10);
    assert("now_ts_us"@.len() == 9);
    assert("head"@.len() == 4);
    assert("hands"@.len() == 5);
    assert("type"@[0] != "head"@[0]);
}

/// A row for an input poll tells its kind, the time, the two time stamps of the poll in
/// microseconds, the head and the hands, each under its own name, and nothing else.
pub proof fn law_input_row_tells_the_poll(
    unix_ms: u64,
    poll_timestamp: TimeSpan,
    now_timestamp: TimeSpan,
    head: TelemetrySample,
    hands: Seq<Option<(u64, TelemetrySample)>>,
    name: Seq<char>,
)
    ensures
        ({
            let row = input_json(unix_ms, poll_timestamp, now_timestamp, head, hands);
            &&& row is Object
            &&& json::members(row).contains_key(name) <==> name == "type"@ || name == "unix_ms"@
                || name == "poll_ts_us"@ || name == "now_ts_us"@ || name == "head"@ || name
                == "hands"@
            &&& json::members(row)["type"@] == Json::String("input"@)
            &&& json::members(row)["unix_ms"@] == Json::Number(JsonNumber::PosInt(unix_ms))
            &&& json::members(row)["poll_ts_us"@] == Json::Number(
                JsonNumber::PosInt(
                    ((poll_timestamp.secs * 1_000_000_000 + poll_timestamp.nanos) / 1_000) as u64,
                ),
            )
            &&& json::members(row)["now_ts_us"@] == Json::Number(
                JsonNumber::PosInt(
                    ((now_timestamp.secs * 1_000_000_000 + now_timestamp.nanos) / 1_000) as u64,
                ),
            )
            &&& json::members(row)["head"@] == head.json()
            &&& json::members(row)["hands"@] == Json::Array(hands_json(hands))
        }),
{
    lemma_input_names();
}

/// The names in a row for a frame differ.
proof fn lemma_frame_names()
    ensures
        "type"@ != "unix_ms"@,
        "type"@ != "target_ts_us"@,
        "type"@ != "frame_interval_us"@,
        "type"@ != "video_decode_us"@,
        "type"@ != "video_decoder_queue_us"@,
        "type"@ != "rendering_us"@,
        "type"@ != "vsync_queue_us"@,
        "type"@ != "total_pipeline_latency_us"@,
        "unix_ms"@ != "target_ts_us"@,
        "unix_ms"@ != "frame_interval_us"@,
        "unix_ms"@ != "video_decode_us"@,
        "unix_ms"@ != "video_decoder_queue_us"@,
        "unix_ms"@ != "rendering_us"@,
        "unix_ms"@ != "vsync_queue_us"@,
        "unix_ms"@ != "total_pipeline_latency_us"@,
        "target_ts_us"@ != "frame_interval_us"@,
        "target_ts_us"@ != "video_decode_us"@,
        "target_ts_us"@ != "video_decoder_queue_us"@,
        "target_ts_us"@ != "rendering_us"@,
        "target_ts_us"@ != "vsync_queue_us"@,
        "target_ts_us"@ != "total_pipeline_latency_us"@,
        "frame_interval_us"@ != "video_decode_us"@,
        "frame_interval_us"@ != "video_decoder_queue_us"@,
        "frame_interval_us"@ != "rendering_us"@,
        "frame_interval_us"@ != "vsync_queue_us"@,
        "frame_interval_us"@ != "total_pipeline_latency_us"@,
        "video_decode_us"@ != "video_decoder_queue_us"@,
        "video_decode_us"@ != "rendering_us"@,
        "video_decode_us"@ != "vsync_queue_us"@,
        "video_decode_us"@ != "total_pipeline_latency_us"@,
        "video_decoder_queue_us"@ != "rendering_us"@,
        "video_decoder_queue_us"@ != "vsync_queue_us"@,
        "video_decoder_queue_us"@ != "total_pipeline_latency_us"@,
        "rendering_us"@ != "vsync_queue_us"@,
        "rendering_us"@ != "total_pipeline_latency_us"@,
        "vsync_queue_us"@ != "total_pipeline_latency_us"@,
{
    reveal_strlit("type");
    reveal_strlit("unix_ms");
    reveal_strlit("target_ts_us");
    reveal_strlit("frame_interval_us");
    reveal_strlit("video_decode_us");
    reveal_strlit("video_decoder_queue_us");
    reveal_strlit("rendering_us");
    reveal_strlit("vsync_queue_us");
    reveal_strlit("total_pipeline_latency_us");
    assert("type"@.len() == 4);
    assert("unix_ms"@.len() == 7);
    assert("target_ts_us"@.len() == 12);
    assert("frame_interval_us"@.len() == 17);
    assert("video_decode_us"@.len() == 15);
    assert("video_decoder_queue_us"@.len() == 22);
    assert("rendering_us"@.len() == 12);
    assert("vsync_queue_us"@.len() == 14);
    assert("total_pipeline_latency_us"@.len() == 25);
    assert("target_ts_us"@[0] != "rendering_us"@[0]);
}

/// A row for a frame tells its kind, the time, the time stamp of the frame and how long each part
/// of the pipeline took, in microseconds, each under its own name, and nothing else.
pub proof fn law_frame_row_tells_the_times(unix_ms: u64, stats: ClientStatistics, name: Seq<char>)
    ensures
        frame_json(unix_ms, stats) is Object,
        json::members(frame_json(unix_ms, stats)).contains_key(name) <==> name == "type"@ || name
            == "unix_ms"@ || name == "target_ts_us"@ || name == "frame_interval_us"@ || name
            == "video_decode_us"@ || name == "video_decoder_queue_us"@ || name == "rendering_us"@
            || name == "vsync_queue_us"@ || name == "total_pipeline_latency_us"@,
        json::members(frame_json(unix_ms, stats))["type"@] == Json::String("frame"@),
        json::members(frame_json(unix_ms, stats))["unix_ms"@] == Json::Number(
            JsonNumber::PosInt(unix_ms),
        ),
        json::members(frame_json(unix_ms, stats))["target_ts_us"@] == Json::Number(
            JsonNumber::PosInt(
                ((stats.target_timestamp.secs * 1_000_000_000 + stats.target_timestamp.nanos) / 1_000) as u64,
            ),
        ),
        json::members(frame_json(unix_ms, stats))["frame_interval_us"@] == Json::Number(
            JsonNumber::PosInt(
                ((stats.frame_interval.secs * 1_000_000_000 + stats.frame_interval.nanos) / 1_000) as u64,
            ),
        ),
        json::members(frame_json(unix_ms, stats))["video_decode_us"@] == Json::Number(
            JsonNumber::PosInt(
                ((stats.video_decode.secs * 1_000_000_000 + stats.video_decode.nanos) / 1_000) as u64,
            ),
        ),
        json::members(frame_json(unix_ms, stats))["video_decoder_queue_us"@] == Json::Number(
            JsonNumber::PosInt(
                ((stats.video_decoder_queue.secs * 1_000_000_000 + stats.video_decoder_queue.nanos) / 1_000) as u64,
            ),
        ),
        json::members(frame_json(unix_ms, stats))["rendering_us"@] == Json::Number(
            JsonNumber::PosInt(
                ((stats.rendering.secs * 1_000_000_000 + stats.rendering.nanos) / 1_000) as u64,
            ),
        ),
        json::members(frame_json(unix_ms, stats))["vsync_queue_us"@] == Json::Number(
            JsonNumber::PosInt(
                ((stats.vsync_queue.secs * 1_000_000_000 + stats.vsync_queue.nanos) / 1_000) as u64,
            ),
        ),
        json::members(frame_json(unix_ms, stats))["total_pipeline_latency_us"@] == Json::Number(
            JsonNumber::PosInt(
                ((stats.total_pipeline_latency.secs * 1_000_000_000 + stats.total_pipeline_latency.nanos) / 1_000) as u64,
            ),
        ),
{
    lemma_frame_names();
}

/// The names in a header differ.
proof fn lemma_header_names()
    ensures
        "type"@ != "role"@,
        "type"@ != "version"@,
        "type"@ != "unix_ms"@,
        "type"@ != "settings"@,
        "role"@ != "version"@,
        "role"@ != "unix_ms"@,
        "role"@ != "settings"@,
        "version"@ != "unix_ms"@,
        "version"@ != "settings"@,
        "unix_ms"@ != "settings"@,
{
    reveal_strlit("type");
    reveal_strlit("role");
    reveal_strlit("version");
    reveal_strlit("unix_ms");
    reveal_strlit("settings");
    assert("type"@.len() == 4);
    assert("role"@.len() == 4);
    assert("version"@.len() == 7);
    assert("unix_ms"@.len() == 7);
    assert("settings"@.len() == 8);
    assert("type"@[0] != "role"@[0]);
    assert("version"@[0] != "unix_ms"@[0]);
}

/// The header tells its kind, the role, the version, the time and the settings, each under its
/// own name, and nothing else.
pub proof fn law_header_tells_the_session(
    unix_ms: u64,
    version: Seq<char>,
    settings: HeaderSettings,
    name: Seq<char>,
)
    ensures
        ({
            let header = header_json(unix_ms, version, settings);
            &&& header is Object
            &&& json::members(header).contains_key(name) <==> name == "type"@ || name == "role"@
                || name == "version"@ || name == "unix_ms"@ || name == "settings"@
            &&& json::members(header)["type"@] == Json::String("header"@)
            &&& json::members(header)["role"@] == Json::String("client"@)
            &&& json::members(header)["version"@] == Json::String(version)
            &&& json::members(header)["unix_ms"@] == Json::Number(JsonNumber::PosInt(unix_ms))
        }),
{
    lemma_header_names();
}

/// The names of the settings in a header differ.
proof fn lemma_settings_names()
    ensures
        "codec"@ != "fps"@,
        "codec"@ != "wired"@,
        "codec"@ != "max_prediction_ms"@,
        "codec"@ != "steamvr_pipeline_frames"@,
        "codec"@ != "eye_resolution"@,
        "fps"@ != "wired"@,
        "fps"@ != "max_prediction_ms"@,
        "fps"@ != "steamvr_pipeline_frames"@,
        "fps"@ != "eye_resolution"@,
        "wired"@ != "max_prediction_ms"@,
        "wired"@ != "steamvr_pipeline_frames"@,
        "wired"@ != "eye_resolution"@,
        "max_prediction_ms"@ != "steamvr_pipeline_frames"@,
        "max_prediction_ms"@ != "eye_resolution"@,
        "steamvr_pipeline_frames"@ != "eye_resolution"@,
{
    reveal_strlit("codec");
    reveal_strlit("fps");
    reveal_strlit("wired");
    reveal_strlit("max_prediction_ms");
    reveal_strlit("steamvr_pipeline_frames");
    reveal_strlit("eye_resolution");
    assert("codec"@.len() == 5);
    assert("fps"@.len() == 3);
    assert("wired"@.len() == 5);
    assert("max_prediction_ms"@.len() == 17);
    assert("steamvr_pipeline_frames"@.len() == 23);
    assert("eye_resolution"@.len() == 14);
    assert("codec"@[0] != "wired"@[0]);
}

/// The settings in the header are those of the session, each under its own name, and nothing
/// else. A number of frames that is missing is null.
pub proof fn law_header_tells_the_settings(
    unix_ms: u64,
    version: Seq<char>,
    settings: HeaderSettings,
    name: Seq<char>,
)
    ensures
        ({
            let part = json::members(header_json(unix_ms, version, settings))["settings"@];
            &&& part is Object
            &&& json::members(part).contains_key(name) <==> name == "codec"@ || name == "fps"@
                || name == "wired"@ || name == "max_prediction_ms"@ || name
                == "steamvr_pipeline_frames"@ || name == "eye_resolution"@
            &&& json::members(part)["codec"@] == Json::String(settings.codec@)
            &&& json::members(part)["fps"@] == json::json_of(settings.fps)
            &&& json::members(part)["wired"@] == Json::Bool(settings.wired)
            &&& json::members(part)["max_prediction_ms"@] == json::json_of(
                settings.max_prediction_ms,
            )
            &&& settings.steamvr_pipeline_frames matches Some(frames) ==> json::members(
                part,
            )["steamvr_pipeline_frames"@] == json::json_of(frames)
            &&& settings.steamvr_pipeline_frames is None ==> json::members(
                part,
            )["steamvr_pipeline_frames"@] is Null
            &&& json::members(part)["eye_resolution"@] == Json::Array(
                seq![
                    Json::Number(JsonNumber::PosInt(settings.eye_resolution[0] as u64)),
                    Json::Number(JsonNumber::PosInt(settings.eye_resolution[1] as u64)),
                ],
            )
        }),
{
    lemma_header_names();
    lemma_settings_names();
}

/// Rows and headers that are written are the texts of these objects.
pub proof fn law_texts_are_of_the_objects(
    unix_ms: u64,
    stats: ClientStatistics,
    version: &str,
    settings: HeaderSettings,
    row: String,
    header: String,
)
    requires
        call_ensures(frame_row, (unix_ms, &stats), row),
        call_ensures(header_text, (unix_ms, version, &settings), header),
    ensures
        row@ == json::json_text(frame_json(unix_ms, stats)),
        header@ == json::json_text(header_json(unix_ms, version@, settings)),
{
}

/// Telemetry that starts a session logs input polls to the first of its loggers and frames to the
/// second, and gives up both of those that it had. Without a directory nothing is taken up.
pub proof fn law_start_takes_up_the_loggers<D, L>(
    telemetry: ClientTelemetry<D, L>,
    input: Option<L>,
    frames: Option<L>,
)
    ensures
        telemetry.started(Some((input, frames))).base_dir == telemetry.base_dir,
        telemetry.base_dir is Some ==> {
            &&& telemetry.started(Some((input, frames))).input_logger == input
            &&& telemetry.started(Some((input, frames))).frames_logger == frames
        },
        telemetry.base_dir is None ==> telemetry.started(Some((input, frames))) == telemetry,
{
}

} // verus!
