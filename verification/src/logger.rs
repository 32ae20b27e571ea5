//! The logger: a bounded queue of rows between those who log them and the writer. Logging never
//! waits; a row that does not fit into the queue is dropped and counted.

use crate::writer;
use crate::writer::{RotatingWriter, WriterEvent, WriterPhase};
use std::collections::VecDeque;
use vstd::prelude::*;

verus! {

/// The largest size of a log file in bytes.
pub const DEFAULT_MAX_FILE_SIZE: u64 = 100 * 1024 * 1024;

/// The number of rows that the queue holds.
pub const CHANNEL_CAPACITY: usize = 1024;

/// How long the writer waits for a row before it flushes its file, in milliseconds.
pub const FLUSH_INTERVAL_MS: u64 = 500;

/// The contents of a [`TelemetryLogger`].
pub struct LoggerState {
    /// The rows that the writer has yet to take, the oldest first.
    pub queue: Seq<Seq<char>>,
    /// Rows can still be logged.
    pub connected: bool,
    /// The writer still takes rows.
    pub writer_running: bool,
    /// How many rows were dropped.
    pub dropped_rows: u64,
}

impl LoggerState {
    /// A logger that has just been started.
    pub open spec fn fresh() -> LoggerState {
        LoggerState {
            queue: Seq::empty(),
            connected: true,
            writer_running: true,
            dropped_rows: 0,
        }
    }

    /// The state after a row has been logged.
    pub open spec fn logged(self, row: Seq<char>) -> LoggerState {
        if !self.connected || !self.writer_running {
            self
        } else if self.queue.len() < CHANNEL_CAPACITY {
            LoggerState { queue: self.queue.push(row), ..self }
        } else {
            LoggerState {
                dropped_rows: ((self.dropped_rows + 1) % 0x1_0000_0000_0000_0000) as u64,
                ..self
            }
        }
    }

    /// The state after the logger has been stopped.
    pub open spec fn stopped(self) -> LoggerState {
        LoggerState { connected: false, ..self }
    }

    /// What the writer gets when it asks for the next row.
    pub open spec fn next_event(self) -> writer::Event {
        if self.queue.len() > 0 {
            writer::Event::Row(self.queue[0])
        } else if self.connected {
            writer::Event::Timeout
        } else {
            writer::Event::Disconnected
        }
    }

    /// The state after the writer has asked for the next row.
    pub open spec fn after_event(self) -> LoggerState {
        if self.queue.len() > 0 {
            LoggerState { queue: self.queue.drop_first(), ..self }
        } else {
            self
        }
    }

    /// The events that the writer gets when it asks until no further row will come.
    pub open spec fn drained(self) -> Seq<writer::Event>
        decreases self.queue.len(),
    {
        if self.queue.len() == 0 {
            seq![self.next_event()]
        } else {
            seq![self.next_event()] + self.after_event().drained()
        }
    }
}

/// The queue between those who log rows and the writer, with the count of the rows that it could
/// not take.
pub struct TelemetryLogger {
    queue: VecDeque<String>,
    connected: bool,
    writer_running: bool,
    dropped_rows: u64,
}

impl View for TelemetryLogger {
    type V = LoggerState;

    closed spec fn view(&self) -> LoggerState {
        LoggerState {
            queue: self.queue@.map_values(|row: String| row@),
            connected: self.connected,
            writer_running: self.writer_running,
            dropped_rows: self.dropped_rows,
        }
    }
}

/// A logger with its writer, and the name of the thread that the writer runs on.
pub struct StartedLogger {
    pub logger: TelemetryLogger,
    pub writer: RotatingWriter,
    pub thread_name: String,
}

impl StartedLogger {
    /// A logger that has just been started for the log `name`.
    pub open spec fn is_fresh(
        self,
        name: Seq<char>,
        header: Seq<char>,
        max_file_size: nat,
    ) -> bool {
        &&& self.logger@ == LoggerState::fresh()
        &&& self.writer@ == crate::log_files::fresh(name, header, max_file_size)
        &&& self.writer.sizes_fit()
        &&& self.thread_name@ == "alvr-telemetry-"@ + name
    }
}

impl TelemetryLogger {
    /// The queue is no longer than it may be.
    pub open spec fn within_capacity(self) -> bool {
        self@.queue.len() <= CHANNEL_CAPACITY
    }

    /// Starts the log `name`, where `session_dir_exists` says whether its directory does.
    pub fn start(session_dir_exists: bool, name: &str, header_json: &str) -> (started: Option<
        StartedLogger,
    >)
        ensures
            started is Some <==> session_dir_exists,
            started matches Some(s) ==> s.is_fresh(
                name@,
                header_json@,
                DEFAULT_MAX_FILE_SIZE as nat,
            ),
            started matches Some(s) ==> {
                &&& s.logger@.queue.len() == 0
                &&& s.logger@.connected
                &&& s.logger@.writer_running
                &&& s.logger@.dropped_rows == 0
                &&& s.writer.name@ == name@
                &&& s.writer.header_json@ == header_json@
                &&& s.writer.max_file_size == 100 * 1024 * 1024
                &&& s.writer.phase matches WriterPhase::Opening(None)
                &&& s.writer.current_size == 0
                &&& s.writer.rotation_index == 0
                &&& s.thread_name@ == "alvr-telemetry-"@ + name@
            },
    {
        Self::start_impl(session_dir_exists, name, header_json, DEFAULT_MAX_FILE_SIZE)
    }

    /// Starts the log `name` with files of at most `max_file_size` bytes.
    pub fn start_impl(
        session_dir_exists: bool,
        name: &str,
        header_json: &str,
        max_file_size: u64,
    ) -> (started: Option<StartedLogger>)
        ensures
            started is Some <==> session_dir_exists,
            started matches Some(s) ==> s.is_fresh(name@, header_json@, max_file_size as nat),
            started matches Some(s) ==> {
                &&& s.logger@.queue.len() == 0
                &&& s.logger@.connected
                &&& s.logger@.writer_running
                &&& s.logger@.dropped_rows == 0
                &&& s.writer.name@ == name@
                &&& s.writer.header_json@ == header_json@
                &&& s.writer.max_file_size == max_file_size
                &&& s.writer.phase matches WriterPhase::Opening(None)
                &&& s.writer.current_size == 0
                &&& s.writer.rotation_index == 0
                &&& s.thread_name@ == "alvr-telemetry-"@ + name@
            },
    {
        if !session_dir_exists {
            return None;
        }
        let mut thread_name = "alvr-telemetry-".to_owned();
        thread_name.append(name);
        let logger = TelemetryLogger {
            queue: VecDeque::new(),
            connected: true,
            writer_running: true,
            dropped_rows: 0,
        };
        assert(logger@.queue =~= Seq::<Seq<char>>::empty());
        let writer = RotatingWriter::new(name, header_json, max_file_size);
        Some(StartedLogger { logger, writer, thread_name })
    }

    /// Logs a row if it can be: it is dropped and counted where the queue is full, and passed
    /// over where the logger has been stopped or its writer has ended.
    pub fn log(&mut self, row_json: String)
        ensures
            final(self)@ == old(self)@.logged(row_json@),
            final(self)@.connected == old(self)@.connected,
            final(self)@.writer_running == old(self)@.writer_running,
            if old(self)@.connected && old(self)@.writer_running && old(self)@.queue.len() < 1024 {
                final(self)@.queue == old(self)@.queue.push(row_json@)
            } else {
                final(self)@.queue == old(self)@.queue
            },
            if old(self)@.connected && old(self)@.writer_running && old(self)@.queue.len()
                >= 1024 {
                if old(self)@.dropped_rows < u64::MAX {
                    final(self)@.dropped_rows == old(self)@.dropped_rows + 1
                } else {
                    final(self)@.dropped_rows == 0
                }
            } else {
                final(self)@.dropped_rows == old(self)@.dropped_rows
            },
            old(self).within_capacity() ==> final(self).within_capacity(),
    {
        let ghost before = self@;
        if !self.connected || !self.writer_running {
            return;
        }
        if self.queue.len() < CHANNEL_CAPACITY {
            self.queue.push_back(row_json);
            assert(self@.queue =~= before.queue.push(row_json@));
        } else {
            self.dropped_rows = self.dropped_rows.wrapping_add(1);
        }
    }

    /// How many rows were dropped.
    pub fn dropped_rows(&self) -> (count: u64)
        ensures
            count == self@.dropped_rows,
    {
        self.dropped_rows
    }

    /// Lets no further row be logged. The writer still gets those that were.
    pub fn stop(&mut self)
        ensures
            final(self)@ == old(self)@.stopped(),
            !final(self)@.connected,
            final(self)@.queue == old(self)@.queue,
            final(self)@.writer_running == old(self)@.writer_running,
            final(self)@.dropped_rows == old(self)@.dropped_rows,
    {
        self.connected = false;
    }

    /// What the writer is to do next: write the oldest row, or flush its file where there is no
    /// row, or end where none will come.
    pub fn next_event(&mut self) -> (event: WriterEvent)
        ensures
            event@ == old(self)@.next_event(),
            final(self)@ == old(self)@.after_event(),
            final(self)@.connected == old(self)@.connected,
            final(self)@.writer_running == old(self)@.writer_running,
            final(self)@.dropped_rows == old(self)@.dropped_rows,
            if old(self)@.queue.len() > 0 {
                &&& event matches WriterEvent::Row(row) && row@ == old(self)@.queue[0]
                &&& final(self)@.queue == old(self)@.queue.skip(1)
            } else {
                &&& final(self)@.queue.len() == 0
                &&& event is Timeout <==> old(self)@.connected
                &&& event is Disconnected <==> !old(self)@.connected
            },
    {
        let ghost before = self@;
        match self.queue.pop_front() {
            Some(row) => {
                assert(self@.queue =~= before.queue.drop_first());
                WriterEvent::Row(row)
            },
            None => if self.connected {
                WriterEvent::Timeout
            } else {
                WriterEvent::Disconnected
            },
        }
    }

    /// The writer has ended: it takes no further row, and those in the queue are gone.
    pub fn writer_ended(&mut self)
        ensures
            final(self)@ == (LoggerState {
                queue: Seq::empty(),
                writer_running: false,
                ..old(self)@
            }),
    {
        self.queue.clear();
        self.writer_running = false;
        assert(self@.queue =~= Seq::<Seq<char>>::empty());
    }
}

/// A row that is logged while it can be is either put into the queue, behind all others, or
/// counted as dropped, and only where the queue is full.
pub proof fn law_rows_are_accounted_for(state: LoggerState, row: Seq<char>)
    requires
        state.connected,
        state.writer_running,
        state.dropped_rows < u64::MAX,
    ensures
        ({
            let next = state.logged(row);
            if state.queue.len() < CHANNEL_CAPACITY {
                next.queue == state.queue.push(row) && next.dropped_rows == state.dropped_rows
            } else {
                next.queue == state.queue && next.dropped_rows == state.dropped_rows + 1
            }
        }),
{
}

/// Once the logger has been stopped, or its writer has ended, logging changes nothing.
pub proof fn law_nothing_is_logged_after_stop(state: LoggerState, row: Seq<char>)
    requires
        !state.connected || !state.writer_running,
    ensures
        state.logged(row) == state,
{
}

/// Stopping twice is stopping once.
pub proof fn law_stop_is_idempotent(state: LoggerState)
    ensures
        state.stopped().stopped() == state.stopped(),
{
}

/// A writer that asks until the end gets every row that was in the queue when the logger was
/// stopped, in the order in which they were logged, and then learns that none will come.
pub proof fn law_stop_lets_the_queue_drain(state: LoggerState)
    ensures
        state.stopped().drained() == state.queue.map_values(
            |row: Seq<char>| writer::Event::Row(row),
        ).push(writer::Event::Disconnected),
    decreases state.queue.len(),
{
    let rows = |row: Seq<char>| writer::Event::Row(row);
    let all = state.queue.map_values(rows).push(writer::Event::Disconnected);
    if state.queue.len() == 0 {
        assert(state.stopped().drained() =~= all);
    } else {
        let rest = LoggerState { queue: state.queue.drop_first(), ..state };
        law_stop_lets_the_queue_drain(rest);
        assert(state.stopped().after_event() == rest.stopped());
        assert(state.stopped().drained() =~= all);
    }
}

/// One use of the queue.
pub enum QueueStep {
    /// A row is logged.
    Log(Seq<char>),
    /// The writer asks for the next row.
    Take,
}

/// A logger after some uses of its queue, with the rows that it took up and those that the writer
/// took.
pub struct QueueTrace {
    pub state: LoggerState,
    pub accepted: Seq<Seq<char>>,
    pub taken: Seq<Seq<char>>,
}

/// What comes of the uses of the queue, one after the other.
pub open spec fn trace(state: LoggerState, steps: Seq<QueueStep>) -> QueueTrace
    decreases steps.len(),
{
    if steps.len() == 0 {
        QueueTrace { state, accepted: Seq::empty(), taken: Seq::empty() }
    } else {
        let before = trace(state, steps.drop_last());
        match steps.last() {
            QueueStep::Log(row) => QueueTrace {
                state: before.state.logged(row),
                accepted: if before.state.logged(row).queue == before.state.queue {
                    before.accepted
                } else {
                    before.accepted.push(row)
                },
                ..before
            },
            QueueStep::Take => QueueTrace {
                state: before.state.after_event(),
                taken: match before.state.next_event() {
                    writer::Event::Row(row) => before.taken.push(row),
                    _ => before.taken,
                },
                ..before
            },
        }
    }
}

/// However logging and taking alternate, the writer takes the rows in the order in which they
/// were taken up, and those that it has not taken are in the queue: none is lost or doubled.
pub proof fn law_queue_keeps_every_row(state: LoggerState, steps: Seq<QueueStep>)
    ensures
        trace(state, steps).taken + trace(state, steps).state.queue == state.queue + trace(
            state,
            steps,
        ).accepted,
    decreases steps.len(),
{
    let after = trace(state, steps);
    if steps.len() == 0 {
        assert(after.taken + after.state.queue =~= state.queue + after.accepted);
    } else {
        let before = trace(state, steps.drop_last());
        law_queue_keeps_every_row(state, steps.drop_last());
        match steps.last() {
            QueueStep::Log(row) => {
                let next = before.state.logged(row);
                if next.queue != before.state.queue {
                    assert(next.queue == before.state.queue.push(row));
                    assert(after.taken + after.state.queue =~= (before.taken
                        + before.state.queue).push(row));
                    assert(state.queue + after.accepted =~= (state.queue + before.accepted).push(
                        row,
                    ));
                }
            },
            QueueStep::Take => {
                assert(after.taken + after.state.queue =~= before.taken + before.state.queue);
            },
        }
    }
}

/// How many rows are logged.
pub open spec fn logged_count(steps: Seq<QueueStep>) -> nat
    decreases steps.len(),
{
    if steps.len() == 0 {
        0
    } else {
        logged_count(steps.drop_last()) + if steps.last() is Log {
            1nat
        } else {
            0
        }
    }
}

/// However logging and taking alternate after a start, each row that is logged is taken up or
/// counted as dropped, as long as the count can hold them.
pub proof fn law_every_logged_row_is_counted(steps: Seq<QueueStep>)
    requires
        logged_count(steps) <= u64::MAX,
    ensures
        ({
            let end = trace(LoggerState::fresh(), steps);
            &&& end.accepted.len() + end.state.dropped_rows == logged_count(steps)
            &&& end.state.connected
            &&& end.state.writer_running
        }),
    decreases steps.len(),
{
    if steps.len() > 0 {
        law_every_logged_row_is_counted(steps.drop_last());
        let before = trace(LoggerState::fresh(), steps.drop_last());
        if let QueueStep::Log(row) = steps.last() {
            assert(before.state.queue.push(row).len() != before.state.queue.len());
        }
    }
}

/// A logger starts with nothing in its queue and nothing dropped, and takes rows.
pub proof fn law_a_fresh_logger_takes_rows(row: Seq<char>)
    ensures
        LoggerState::fresh().queue.len() == 0,
        LoggerState::fresh().connected,
        LoggerState::fresh().writer_running,
        LoggerState::fresh().dropped_rows == 0,
        LoggerState::fresh().logged(row).queue == seq![row],
{
}

/// Logging, stopping and taking each change only what they are for: what was logged stays in the
/// queue when the logger is stopped, and neither that nor taking changes what was counted.
pub proof fn law_each_use_changes_its_part(state: LoggerState, row: Seq<char>)
    ensures
        state.logged(row).connected == state.connected,
        state.logged(row).writer_running == state.writer_running,
        state.queue.is_prefix_of(state.logged(row).queue),
        !state.stopped().connected,
        state.stopped().queue == state.queue,
        state.stopped().writer_running == state.writer_running,
        state.stopped().dropped_rows == state.dropped_rows,
        state.after_event().connected == state.connected,
        state.after_event().writer_running == state.writer_running,
        state.after_event().dropped_rows == state.dropped_rows,
{
    assert(state.queue =~= state.logged(row).queue.subrange(0, state.queue.len() as int));
}

/// The writer gets the oldest row and the rest stays, and without a row it learns whether one may
/// still come.
pub proof fn law_the_oldest_row_is_taken(state: LoggerState)
    ensures
        state.queue.len() > 0 ==> {
            &&& state.next_event() == writer::Event::Row(state.queue[0])
            &&& state.queue == seq![state.queue[0]] + state.after_event().queue
        },
        state.queue.len() == 0 ==> {
            &&& state.next_event() is Timeout <==> state.connected
            &&& state.next_event() is Disconnected <==> !state.connected
            &&& state.after_event() == state
        },
{
    if state.queue.len() > 0 {
        assert(state.queue =~= seq![state.queue[0]] + state.after_event().queue);
    }
}

/// The limits of a log: files of a hundred mebibytes, a queue of 1024 rows, and half a second
/// without a row before the file is flushed.
pub proof fn law_limits_of_a_log()
    ensures
        DEFAULT_MAX_FILE_SIZE == 104_857_600,
        CHANNEL_CAPACITY == 1_024,
        FLUSH_INTERVAL_MS == 500,
{
}

} // verus!
