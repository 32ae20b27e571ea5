//! The writer of a log: it appends rows to a JSONL file and starts a new file when the current
//! one would become too large.
//!
//! The writer decides; the actions that it asks for are carried out elsewhere, and their outcome
//! comes back as an event.

use crate::text;
use crate::text::push_decimal;
use vstd::prelude::*;
use vstd::utf8::*;

verus! {

/// What happened since the last step.
pub enum WriterEvent {
    /// The file that was to be opened has been created and begins with the header line, or one of
    /// the two failed.
    Opened(bool),
    /// A row is to be written.
    Row(String),
    /// No row came for a while.
    Timeout,
    /// No further row will come.
    Disconnected,
}

/// What is to be done.
pub enum WriterAction {
    /// Create the file, or empty it, and write the header line.
    Open { file_name: String, header_line: String },
    /// Append the row and a line feed to the open file. A failure is passed over.
    WriteLine(String),
    /// Flush the open file. A failure is passed over.
    Flush,
    /// Flush and close the open file. A failure is passed over.
    Close,
    /// Give a file another name. A failure is passed over.
    Rename { from: String, to: String },
    /// Nothing further.
    Stop,
}

/// What the writer waits for.
pub enum WriterPhase {
    /// A file to be opened; then a row to be written into it, if there is one.
    Opening(Option<String>),
    /// A row.
    Writing,
    /// Nothing.
    Stopped,
}

/// The contents of a [`WriterEvent`].
pub enum Event {
    Opened(bool),
    Row(Seq<char>),
    Timeout,
    Disconnected,
}

/// The contents of a [`WriterAction`].
pub enum Action {
    Open { file_name: Seq<char>, header_line: Seq<char> },
    WriteLine(Seq<char>),
    Flush,
    Close,
    Rename { from: Seq<char>, to: Seq<char> },
    Stop,
}

/// The contents of a [`WriterPhase`].
pub enum Phase {
    Opening(Option<Seq<char>>),
    Writing,
    Stopped,
}

/// The contents of a [`RotatingWriter`].
pub struct WriterState {
    pub name: Seq<char>,
    pub header: Seq<char>,
    pub max_file_size: nat,
    pub phase: Phase,
    pub current_size: nat,
    pub rotation_index: nat,
}

impl View for WriterEvent {
    type V = Event;

    open spec fn view(&self) -> Event {
        match *self {
            WriterEvent::Opened(ok) => Event::Opened(ok),
            WriterEvent::Row(row) => Event::Row(row@),
            WriterEvent::Timeout => Event::Timeout,
            WriterEvent::Disconnected => Event::Disconnected,
        }
    }
}

impl View for WriterAction {
    type V = Action;

    open spec fn view(&self) -> Action {
        match *self {
            WriterAction::Open { file_name, header_line } => Action::Open {
                file_name: file_name@,
                header_line: header_line@,
            },
            WriterAction::WriteLine(row) => Action::WriteLine(row@),
            WriterAction::Flush => Action::Flush,
            WriterAction::Close => Action::Close,
            WriterAction::Rename { from, to } => Action::Rename { from: from@, to: to@ },
            WriterAction::Stop => Action::Stop,
        }
    }
}

impl View for WriterPhase {
    type V = Phase;

    open spec fn view(&self) -> Phase {
        match *self {
            WriterPhase::Opening(None) => Phase::Opening(None),
            WriterPhase::Opening(Some(row)) => Phase::Opening(Some(row@)),
            WriterPhase::Writing => Phase::Writing,
            WriterPhase::Stopped => Phase::Stopped,
        }
    }
}

/// The contents of a list of actions.
pub open spec fn action_views(actions: Seq<WriterAction>) -> Seq<Action> {
    actions.map_values(|action: WriterAction| action@)
}

/// A text as a line of its own.
pub open spec fn line(row: Seq<char>) -> Seq<char> {
    row.push('\n')
}

/// The file that is written.
pub open spec fn file_name(name: Seq<char>) -> Seq<char> {
    name + ".jsonl"@
}

/// The name that the file gets when it is full, the `index`th time.
pub open spec fn rotated_name(name: Seq<char>, index: nat) -> Seq<char> {
    name + "_r"@ + text::decimal(index) + ".jsonl"@
}

impl WriterState {
    /// A row would make the current file larger than it may be.
    pub open spec fn needs_rotation(self, row: Seq<char>) -> bool {
        self.current_size + text::byte_len(row) + 1 > self.max_file_size
    }

    /// The action that opens the file.
    pub open spec fn open_action(self) -> Action {
        Action::Open { file_name: file_name(self.name), header_line: line(self.header) }
    }

    /// The event is one that the writer waits for, and the next number of a full file is one that
    /// it can count.
    pub open spec fn expects(self, event: Event) -> bool {
        match (self.phase, event) {
            (Phase::Opening(_), Event::Opened(_)) => true,
            (Phase::Writing, Event::Row(row)) => self.needs_rotation(row) ==> self.rotation_index
                < i32::MAX,
            (Phase::Writing, Event::Timeout) => true,
            (Phase::Writing, Event::Disconnected) => true,
            _ => false,
        }
    }

    /// The state after an event.
    pub open spec fn next(self, event: Event) -> WriterState {
        match (self.phase, event) {
            (Phase::Opening(pending), Event::Opened(true)) => WriterState {
                phase: Phase::Writing,
                current_size: text::byte_len(line(self.header)) + (match pending {
                    Some(row) => text::byte_len(row) + 1,
                    None => 0,
                }),
                ..self
            },
            (Phase::Opening(_), Event::Opened(false)) => WriterState {
                phase: Phase::Stopped,
                ..self
            },
            (Phase::Writing, Event::Row(row)) => if self.needs_rotation(row) {
                WriterState {
                    phase: Phase::Opening(Some(row)),
                    rotation_index: self.rotation_index + 1,
                    ..self
                }
            } else {
                WriterState {
                    current_size: self.current_size + text::byte_len(row) + 1,
                    ..self
                }
            },
            (Phase::Writing, Event::Disconnected) => WriterState { phase: Phase::Stopped, ..self },
            _ => self,
        }
    }

    /// The actions that an event calls for.
    pub open spec fn actions(self, event: Event) -> Seq<Action> {
        match (self.phase, event) {
            (Phase::Opening(Some(row)), Event::Opened(true)) => seq![Action::WriteLine(row)],
            (Phase::Opening(_), Event::Opened(false)) => seq![Action::Stop],
            (Phase::Writing, Event::Row(row)) => if self.needs_rotation(row) {
                seq![
                    Action::Close,
                    Action::Rename {
                        from: file_name(self.name),
                        to: rotated_name(self.name, self.rotation_index),
                    },
                    self.open_action(),
                ]
            } else {
                seq![Action::WriteLine(row)]
            },
            (Phase::Writing, Event::Timeout) => seq![Action::Flush],
            (Phase::Writing, Event::Disconnected) => seq![Action::Flush, Action::Stop],
            _ => Seq::empty(),
        }
    }
}

/// The writer of one log.
pub struct RotatingWriter {
    pub name: String,
    pub header_json: String,
    pub max_file_size: u64,
    pub phase: WriterPhase,
    pub current_size: u128,
    pub rotation_index: u32,
}

impl View for RotatingWriter {
    type V = WriterState;

    open spec fn view(&self) -> WriterState {
        WriterState {
            name: self.name@,
            header: self.header_json@,
            max_file_size: self.max_file_size as nat,
            phase: self.phase@,
            current_size: self.current_size as nat,
            rotation_index: self.rotation_index as nat,
        }
    }
}

/// The text followed by a line feed.
fn to_line(text: &str) -> (result: String)
    ensures
        result@ == line(text@),
{
    let mut result = text.to_owned();
    result.append("\n");
    proof {
        reveal_strlit("\n");
        assert(result@ =~= line(text@));
    }
    result
}

impl RotatingWriter {
    /// A writer that has yet to open its first file.
    pub fn new(name: &str, header_json: &str, max_file_size: u64) -> (writer: Self)
        ensures
            writer@ == (WriterState {
                name: name@,
                header: header_json@,
                max_file_size: max_file_size as nat,
                phase: Phase::Opening(None),
                current_size: 0,
                rotation_index: 0,
            }),
            writer.sizes_fit(),
            writer.name@ == name@,
            writer.header_json@ == header_json@,
            writer.max_file_size == max_file_size,
            writer.phase is Opening,
            writer.phase->Opening_0 is None,
            writer.current_size == 0,
            writer.rotation_index == 0,
    {
        RotatingWriter {
            name: name.to_owned(),
            header_json: header_json.to_owned(),
            max_file_size,
            phase: WriterPhase::Opening(None),
            current_size: 0,
            rotation_index: 0,
        }
    }

    /// The current file is no larger than a full file, or than a header line and a row, can be.
    pub open spec fn sizes_fit(self) -> bool {
        self.current_size <= 3 * u64::MAX
    }

    /// The action that opens the file.
    pub fn open_action(&self) -> (action: WriterAction)
        ensures
            action@ == self@.open_action(),
            action matches WriterAction::Open { file_name, header_line } && file_name@
                == self.name@ + ".jsonl"@ && header_line@ == self.header_json@.push('\n'),
    {
        WriterAction::Open {
            file_name: self.file_name(),
            header_line: to_line(self.header_json.as_str()),
        }
    }

    /// The name of the file that is written.
    pub fn file_name(&self) -> (result: String)
        ensures
            result@ == file_name(self@.name),
            result@ == self.name@ + ".jsonl"@,
    {
        let mut result = self.name.clone();
        result.append(".jsonl");
        result
    }

    /// The name that the file gets when it is full.
    fn rotated_name(&self) -> (result: String)
        ensures
            result@ == rotated_name(self@.name, self@.rotation_index),
            result@ == self.name@ + "_r"@ + text::decimal(self.rotation_index as nat)
                + ".jsonl"@,
    {
        let mut result = self.name.clone();
        result.append("_r");
        push_decimal(&mut result, self.rotation_index as u128);
        result.append(".jsonl");
        result
    }

    /// Whether a row would make the current file larger than it may be.
    pub fn needs_rotation(&self, row: &str) -> (r: bool)
        requires
            self.sizes_fit(),
        ensures
            r == self@.needs_rotation(row@),
            r == (self.current_size + encode_utf8(row@).len() + 1 > self.max_file_size),
    {
        let size: u128 = row.as_bytes().len() as u128 + 1;
        self.current_size + size > self.max_file_size as u128
    }

    /// Takes an event and says what is to be done.
    pub fn step(&mut self, event: WriterEvent) -> (actions: Vec<WriterAction>)
        requires
            old(self).sizes_fit(),
            old(self)@.expects(event@),
        ensures
            final(self).sizes_fit(),
            final(self)@ == old(self)@.next(event@),
            action_views(actions@) == old(self)@.actions(event@),
            final(self).name@ == old(self).name@,
            final(self).header_json@ == old(self).header_json@,
            final(self).max_file_size == old(self).max_file_size,
            event is Timeout ==> {
                &&& actions@.len() == 1
                &&& actions@[0] is Flush
                &&& final(self).phase is Writing
                &&& final(self).current_size == old(self).current_size
                &&& final(self).rotation_index == old(self).rotation_index
            },
            event is Disconnected ==> {
                &&& actions@.len() == 2
                &&& actions@[0] is Flush
                &&& actions@[1] is Stop
                &&& final(self).phase is Stopped
            },
            event == WriterEvent::Opened(false) ==> {
                &&& actions@.len() == 1
                &&& actions@[0] is Stop
                &&& final(self).phase is Stopped
            },
            event == WriterEvent::Opened(true) ==> {
                &&& final(self).phase is Writing
                &&& final(self).rotation_index == old(self).rotation_index
                &&& old(self).phase matches WriterPhase::Opening(None) ==> {
                    &&& actions@.len() == 0
                    &&& final(self).current_size == encode_utf8(
                        old(self).header_json@.push('\n'),
                    ).len()
                }
                &&& old(self).phase matches WriterPhase::Opening(Some(row)) ==> {
                    &&& actions@.len() == 1
                    &&& actions@[0] matches WriterAction::WriteLine(written) && written@ == row@
                    &&& final(self).current_size == encode_utf8(
                        old(self).header_json@.push('\n'),
                    ).len() + encode_utf8(row@).len() + 1
                }
            },
            event matches WriterEvent::Row(row) ==> if old(self).current_size + encode_utf8(
                row@,
            ).len() + 1 > old(self).max_file_size {
                &&& actions@.len() == 3
                &&& actions@[0] is Close
                &&& actions@[1] matches WriterAction::Rename { from, to } && from@
                    == old(self).name@ + ".jsonl"@ && to@ == old(self).name@ + "_r"@
                    + text::decimal(old(self).rotation_index as nat) + ".jsonl"@
                &&& actions@[2] matches WriterAction::Open { file_name, header_line }
                    && file_name@ == old(self).name@ + ".jsonl"@ && header_line@
                    == old(self).header_json@.push('\n')
                &&& final(self).phase matches WriterPhase::Opening(Some(pending)) && pending@
                    == row@
                &&& final(self).rotation_index == old(self).rotation_index + 1
            } else {
                &&& actions@.len() == 1
                &&& actions@[0] matches WriterAction::WriteLine(written) && written@ == row@
                &&& final(self).phase is Writing
                &&& final(self).rotation_index == old(self).rotation_index
                &&& final(self).current_size == old(self).current_size + encode_utf8(row@).len() + 1
            },
    {
        let ghost before = self@;
        let ghost happened = event@;
        let mut actions: Vec<WriterAction> = Vec::new();
        match event {
            WriterEvent::Opened(true) => {
                let header_line = to_line(self.header_json.as_str());
                self.current_size = header_line.as_str().as_bytes().len() as u128;
                if let WriterPhase::Opening(Some(row)) = &self.phase {
                    self.current_size = self.current_size + row.as_str().as_bytes().len() as u128
                        + 1;
                    actions.push(WriterAction::WriteLine(row.clone()));
                }
                self.phase = WriterPhase::Writing;
            },
            WriterEvent::Opened(false) => {
                self.phase = WriterPhase::Stopped;
                actions.push(WriterAction::Stop);
            },
            WriterEvent::Row(row) => {
                if self.needs_rotation(row.as_str()) {
                    actions.push(WriterAction::Close);
                    actions.push(
                        WriterAction::Rename { from: self.file_name(), to: self.rotated_name() },
                    );
                    self.rotation_index = self.rotation_index + 1;
                    actions.push(self.open_action());
                    self.phase = WriterPhase::Opening(Some(row));
                } else {
                    self.current_size = self.current_size + row.as_str().as_bytes().len() as u128
                        + 1;
                    actions.push(WriterAction::WriteLine(row));
                }
            },
            WriterEvent::Timeout => {
                actions.push(WriterAction::Flush);
            },
            WriterEvent::Disconnected => {
                actions.push(WriterAction::Flush);
                actions.push(WriterAction::Stop);
                self.phase = WriterPhase::Stopped;
            },
        }
        assert(action_views(actions@) =~= before.actions(happened));
        actions
    }
}

/// In quiet times the file is flushed, whatever it holds: a writer that waits for rows answers a
/// quiet time with a flush and nothing else, and stays as it is.
pub proof fn law_quiet_times_flush(writer: WriterState)
    requires
        writer.phase is Writing,
    ensures
        writer.expects(Event::Timeout),
        writer.actions(Event::Timeout) == seq![Action::Flush],
        writer.next(Event::Timeout) == writer,
{
}

/// A writer that waits for rows ends by a flush when no further row will come.
pub proof fn law_the_end_flushes(writer: WriterState)
    requires
        writer.phase is Writing,
    ensures
        writer.expects(Event::Disconnected),
        writer.actions(Event::Disconnected) == seq![Action::Flush, Action::Stop],
        writer.next(Event::Disconnected).phase is Stopped,
{
}

/// Each row is written once: at once where it fits into the file with its line feed, and else
/// into the next file, as soon as that could be opened. What was in the file before is kept under
/// a numbered name, and the number is not used again.
pub proof fn law_each_row_is_written(writer: WriterState, row: Seq<char>)
    requires
        writer.phase is Writing,
    ensures
        writer.current_size + encode_utf8(row).len() + 1 <= writer.max_file_size ==> {
            &&& writer.expects(Event::Row(row))
            &&& writer.actions(Event::Row(row)) == seq![Action::WriteLine(row)]
            &&& writer.next(Event::Row(row)) == (WriterState {
                current_size: writer.current_size + encode_utf8(row).len() + 1,
                ..writer
            })
        },
        writer.current_size + encode_utf8(row).len() + 1 > writer.max_file_size ==> {
            let asked = writer.next(Event::Row(row));
            let done = asked.next(Event::Opened(true));
            &&& writer.rotation_index < i32::MAX ==> writer.expects(Event::Row(row))
            &&& writer.actions(Event::Row(row)) == seq![
                Action::Close,
                Action::Rename {
                    from: writer.name + ".jsonl"@,
                    to: writer.name + "_r"@ + text::decimal(writer.rotation_index) + ".jsonl"@,
                },
                Action::Open {
                    file_name: writer.name + ".jsonl"@,
                    header_line: writer.header.push('\n'),
                },
            ]
            &&& asked.expects(Event::Opened(true))
            &&& asked.actions(Event::Opened(true)) == seq![Action::WriteLine(row)]
            &&& done == (WriterState {
                current_size: encode_utf8(writer.header.push('\n')).len() + encode_utf8(row).len()
                    + 1,
                rotation_index: writer.rotation_index + 1,
                ..writer
            })
            &&& asked.expects(Event::Opened(false))
            &&& asked.actions(Event::Opened(false)) == seq![Action::Stop]
            &&& asked.next(Event::Opened(false)).phase is Stopped
        },
{
}

/// The first file is opened under the name of the log, with the header line, and nothing is
/// written into it before a row comes.
pub proof fn law_first_file(writer: WriterState)
    requires
        writer.phase == Phase::Opening(None),
    ensures
        writer.open_action() == (Action::Open {
            file_name: writer.name + ".jsonl"@,
            header_line: writer.header.push('\n'),
        }),
        writer.expects(Event::Opened(true)),
        writer.actions(Event::Opened(true)).len() == 0,
        writer.next(Event::Opened(true)) == (WriterState {
            phase: Phase::Writing,
            current_size: encode_utf8(writer.header.push('\n')).len(),
            ..writer
        }),
        writer.expects(Event::Opened(false)),
        writer.actions(Event::Opened(false)) == seq![Action::Stop],
        writer.next(Event::Opened(false)).phase is Stopped,
{
}

/// A writer that has stopped does nothing more.
pub proof fn law_stopped_for_good(writer: WriterState, event: Event)
    requires
        writer.phase is Stopped,
    ensures
        writer.actions(event).len() == 0,
        writer.next(event) == writer,
        !writer.expects(event),
{
}

} // verus!
