//! What the actions of a writer leave in the files of a session.

use crate::logger;
use crate::logger::{LoggerState, QueueStep};
use crate::text;
use crate::writer;
use crate::writer::{Action, Event, Phase, WriterState};
use vstd::prelude::*;
use vstd::utf8::*;

verus! {

/// The files of a session directory by name.
pub type Files = Map<Seq<char>, Seq<char>>;

/// The effect of an action that succeeds, where `current` is the file that is open.
pub open spec fn perform(files: Files, current: Seq<char>, action: Action) -> Files {
    match action {
        Action::Open { file_name, header_line } => files.insert(file_name, header_line),
        Action::WriteLine(row) => files.insert(current, files[current] + writer::line(row)),
        Action::Rename { from, to } => files.remove(from).insert(to, files[from]),
        _ => files,
    }
}

/// The effect of several actions, one after the other.
pub open spec fn perform_all(files: Files, current: Seq<char>, actions: Seq<Action>) -> Files
    decreases actions.len(),
{
    if actions.len() == 0 {
        files
    } else {
        perform(perform_all(files, current, actions.drop_last()), current, actions.last())
    }
}

/// Rows, each as a line of its own.
pub open spec fn lines(rows: Seq<Seq<char>>) -> Seq<char>
    decreases rows.len(),
{
    if rows.len() == 0 {
        Seq::empty()
    } else {
        lines(rows.drop_last()) + writer::line(rows.last())
    }
}

/// The contents of a file: the header line, then the rows.
pub open spec fn contents(header: Seq<char>, rows: Seq<Seq<char>>) -> Seq<char> {
    writer::line(header) + lines(rows)
}

/// The rows of each file, in the order of the files: a row goes into a new file where it would
/// make the last one larger than `max_file_size`.
pub open spec fn split(header: Seq<char>, max_file_size: nat, rows: Seq<Seq<char>>) -> Seq<
    Seq<Seq<char>>,
>
    decreases rows.len(),
{
    if rows.len() == 0 {
        seq![Seq::empty()]
    } else {
        let before = split(header, max_file_size, rows.drop_last());
        let row = rows.last();
        if text::byte_len(contents(header, before.last().push(row))) > max_file_size {
            before.push(seq![row])
        } else {
            before.drop_last().push(before.last().push(row))
        }
    }
}

/// Sequences of rows, one after the other.
pub open spec fn joined(chunks: Seq<Seq<Seq<char>>>) -> Seq<Seq<char>>
    decreases chunks.len(),
{
    if chunks.len() == 0 {
        Seq::empty()
    } else {
        joined(chunks.drop_last()) + chunks.last()
    }
}

/// A writer that has yet to open its first file.
pub open spec fn fresh(name: Seq<char>, header: Seq<char>, max_file_size: nat) -> WriterState {
    WriterState {
        name,
        header,
        max_file_size,
        phase: Phase::Opening(None),
        current_size: 0,
        rotation_index: 0,
    }
}

/// The writer and the files after the first file has been opened.
pub open spec fn opened(writer: WriterState, files: Files) -> (WriterState, Files) {
    (
        writer.next(Event::Opened(true)),
        perform(files, writer::file_name(writer.name), writer.open_action()),
    )
}

/// The writer and the files after a row has been written, where each file that was to be opened
/// could be.
pub open spec fn write_row(writer: WriterState, files: Files, row: Seq<char>) -> (
    WriterState,
    Files,
) {
    let current = writer::file_name(writer.name);
    let asked = writer.next(Event::Row(row));
    let done = perform_all(files, current, writer.actions(Event::Row(row)));
    if writer.needs_rotation(row) {
        (
            asked.next(Event::Opened(true)),
            perform_all(done, current, asked.actions(Event::Opened(true))),
        )
    } else {
        (asked, done)
    }
}

/// The writer and the files after several rows have been written.
pub open spec fn write_rows(writer: WriterState, files: Files, rows: Seq<Seq<char>>) -> (
    WriterState,
    Files,
)
    decreases rows.len(),
{
    if rows.len() == 0 {
        (writer, files)
    } else {
        let before = write_rows(writer, files, rows.drop_last());
        write_row(before.0, before.1, rows.last())
    }
}

/// The name of the file that holds the rows of `index`, where there are `count` files.
pub open spec fn name_of(name: Seq<char>, index: nat, count: nat) -> Seq<char> {
    if index + 1 < count {
        writer::rotated_name(name, index)
    } else {
        writer::file_name(name)
    }
}

/// The files hold the rows, and the writer is ready for the next one.
pub open spec fn on_disk(writer: WriterState, files: Files, rows: Seq<Seq<char>>) -> bool {
    let chunks = split(writer.header, writer.max_file_size, rows);
    &&& writer.phase is Writing
    &&& writer.rotation_index + 1 == chunks.len()
    &&& writer.current_size == text::byte_len(contents(writer.header, chunks.last()))
    &&& forall|i: nat|
        i < chunks.len() ==> {
            &&& files.contains_key(#[trigger] name_of(writer.name, i, chunks.len()))
            &&& files[name_of(writer.name, i, chunks.len())] == contents(
                writer.header,
                chunks[i as int],
            )
        }
}

/// Two full files never have the same name, nor does one have that of the file that is written.
pub proof fn law_names_distinct(name: Seq<char>, i: nat, j: nat)
    ensures
        writer::rotated_name(name, i) == writer::rotated_name(name, j) ==> i == j,
        writer::rotated_name(name, i) != writer::file_name(name),
{
    reveal_strlit("_r");
    reveal_strlit(".jsonl");
    let a = writer::rotated_name(name, i);
    let b = writer::rotated_name(name, j);
    let n = name.len() as int;
    if a == b {
        assert(a.subrange(n + 2, a.len() - 6) =~= text::decimal(i));
        assert(b.subrange(n + 2, b.len() - 6) =~= text::decimal(j));
        text::lemma_decimal_injective(i, j);
    }
    assert(a.len() > writer::file_name(name).len());
}

proof fn lemma_split_nonempty(header: Seq<char>, max_file_size: nat, rows: Seq<Seq<char>>)
    ensures
        split(header, max_file_size, rows).len() > 0,
    decreases rows.len(),
{
    if rows.len() > 0 {
        lemma_split_nonempty(header, max_file_size, rows.drop_last());
    }
}

/// Every row stands in one of the files, in the order in which it was logged, and nothing else
/// does.
pub proof fn law_no_row_is_lost(header: Seq<char>, max_file_size: nat, rows: Seq<Seq<char>>)
    ensures
        joined(split(header, max_file_size, rows)) == rows,
    decreases rows.len(),
{
    let chunks = split(header, max_file_size, rows);
    if rows.len() == 0 {
        assert(chunks.drop_last() =~= Seq::<Seq<Seq<char>>>::empty());
        assert(joined(chunks) =~= rows) by {
            reveal_with_fuel(joined, 2);
        }
    } else {
        let before = split(header, max_file_size, rows.drop_last());
        law_no_row_is_lost(header, max_file_size, rows.drop_last());
        lemma_split_nonempty(header, max_file_size, rows.drop_last());
        if text::byte_len(contents(header, before.last().push(rows.last()))) > max_file_size {
            assert(chunks.drop_last() =~= before);
            assert(joined(chunks) =~= joined(before).push(rows.last()));
        } else {
            assert(chunks.drop_last() =~= before.drop_last());
            assert(joined(before) == joined(before.drop_last()) + before.last());
            assert(joined(chunks) =~= joined(before).push(rows.last()));
        }
        assert(rows.drop_last().push(rows.last()) =~= rows);
    }
}

/// A file is no larger than `max_file_size`, unless it holds a single row or none.
pub proof fn law_files_stay_small(
    header: Seq<char>,
    max_file_size: nat,
    rows: Seq<Seq<char>>,
    index: int,
)
    requires
        0 <= index < split(header, max_file_size, rows).len(),
    ensures
        ({
            let chunk = split(header, max_file_size, rows)[index];
            text::byte_len(contents(header, chunk)) <= max_file_size || chunk.len() <= 1
        }),
    decreases rows.len(),
{
    if rows.len() > 0 {
        let before = split(header, max_file_size, rows.drop_last());
        lemma_split_nonempty(header, max_file_size, rows.drop_last());
        if index < before.len() {
            law_files_stay_small(header, max_file_size, rows.drop_last(), index);
        }
    }
}

proof fn lemma_encode_concat(a: Seq<char>, b: Seq<char>)
    ensures
        encode_utf8(a + b) == encode_utf8(a) + encode_utf8(b),
    decreases a.len(),
{
    if a.len() == 0 {
        assert(a + b =~= b);
        assert(encode_utf8(a + b) =~= encode_utf8(a) + encode_utf8(b));
    } else {
        assert((a + b).drop_first() =~= a.drop_first() + b);
        lemma_encode_concat(a.drop_first(), b);
        assert(encode_utf8(a + b) =~= encode_utf8(a) + encode_utf8(b));
    }
}

/// The line feed takes one byte.
proof fn lemma_line_bytes(row: Seq<char>)
    ensures
        text::byte_len(writer::line(row)) == text::byte_len(row) + 1,
{
    let feed = seq!['\n'];
    assert(is_ascii_chars(feed));
    is_ascii_chars_encode_utf8(feed);
    assert(writer::line(row) =~= row + feed);
    lemma_encode_concat(row, feed);
}

proof fn lemma_contents_push(header: Seq<char>, rows: Seq<Seq<char>>, row: Seq<char>)
    ensures
        contents(header, rows.push(row)) == contents(header, rows) + writer::line(row),
        text::byte_len(contents(header, rows.push(row))) == text::byte_len(contents(header, rows))
            + text::byte_len(row) + 1,
        contents(header, Seq::empty()) == writer::line(header),
{
    assert(rows.push(row).drop_last() =~= rows);
    assert(contents(header, rows.push(row)) =~= contents(header, rows) + writer::line(row));
    lemma_encode_concat(contents(header, rows), writer::line(row));
    lemma_line_bytes(row);
    assert(contents(header, Seq::empty()) =~= writer::line(header));
}

/// No file is given up while the next row still fits into it: the first row of the file that
/// follows would have made it larger than `max_file_size`.
pub proof fn law_files_are_filled(
    header: Seq<char>,
    max_file_size: nat,
    rows: Seq<Seq<char>>,
    index: int,
)
    requires
        0 <= index,
        index + 1 < split(header, max_file_size, rows).len(),
    ensures
        ({
            let chunks = split(header, max_file_size, rows);
            &&& chunks[index + 1].len() > 0
            &&& text::byte_len(contents(header, chunks[index])) + text::byte_len(
                chunks[index + 1][0],
            ) + 1 > max_file_size
        }),
    decreases rows.len(),
{
    if rows.len() > 0 {
        let before = split(header, max_file_size, rows.drop_last());
        lemma_split_nonempty(header, max_file_size, rows.drop_last());
        lemma_contents_push(header, before.last(), rows.last());
        if index + 1 < before.len() {
            law_files_are_filled(header, max_file_size, rows.drop_last(), index);
        }
    }
}

proof fn lemma_perform_all_step(
    files: Files,
    current: Seq<char>,
    actions: Seq<Action>,
    action: Action,
)
    ensures
        perform_all(files, current, actions.push(action)) == perform(
            perform_all(files, current, actions),
            current,
            action,
        ),
{
    assert(actions.push(action).drop_last() =~= actions);
}

/// The effect of writing a row on the files.
proof fn lemma_write_row_files(writer: WriterState, files: Files, row: Seq<char>)
    requires
        writer.phase is Writing,
        files.contains_key(writer::file_name(writer.name)),
    ensures
        ({
            let current = writer::file_name(writer.name);
            let full = writer::rotated_name(writer.name, writer.rotation_index);
            write_row(writer, files, row).1 == if writer.needs_rotation(row) {
                files.insert(full, files[current]).insert(
                    current,
                    writer::line(writer.header) + writer::line(row),
                )
            } else {
                files.insert(current, files[current] + writer::line(row))
            }
        }),
{
    let current = writer::file_name(writer.name);
    let full = writer::rotated_name(writer.name, writer.rotation_index);
    let none = Seq::<Action>::empty();
    law_names_distinct(writer.name, writer.rotation_index, writer.rotation_index);
    let asked = writer.next(Event::Row(row));
    if writer.needs_rotation(row) {
        let rename = Action::Rename { from: current, to: full };
        lemma_perform_all_step(files, current, none, Action::Close);
        lemma_perform_all_step(files, current, none.push(Action::Close), rename);
        lemma_perform_all_step(
            files,
            current,
            none.push(Action::Close).push(rename),
            writer.open_action(),
        );
        let actions = none.push(Action::Close).push(rename).push(writer.open_action());
        assert(writer.actions(Event::Row(row)) =~= actions);
        let done = perform_all(files, current, actions);
        lemma_perform_all_step(done, current, none, Action::WriteLine(row));
        assert(asked.actions(Event::Opened(true)) =~= none.push(Action::WriteLine(row)));
        assert(write_row(writer, files, row).1 =~= files.insert(full, files[current]).insert(
            current,
            writer::line(writer.header) + writer::line(row),
        ));
    } else {
        lemma_perform_all_step(files, current, none, Action::WriteLine(row));
        assert(writer.actions(Event::Row(row)) =~= none.push(Action::WriteLine(row)));
    }
}

/// Writing a row keeps the files as they should be, for the rows so far and that row.
pub proof fn law_write_row(
    writer: WriterState,
    files: Files,
    rows: Seq<Seq<char>>,
    row: Seq<char>,
)
    requires
        on_disk(writer, files, rows),
    ensures
        on_disk(
            write_row(writer, files, row).0,
            write_row(writer, files, row).1,
            rows.push(row),
        ),
{
    let header = writer.header;
    let max = writer.max_file_size;
    let before = split(header, max, rows);
    let after = split(header, max, rows.push(row));
    let current = writer::file_name(writer.name);
    let next = write_row(writer, files, row).0;
    let written = write_row(writer, files, row).1;
    lemma_split_nonempty(header, max, rows);
    assert(rows.push(row).drop_last() =~= rows);
    assert(name_of(writer.name, (before.len() - 1) as nat, before.len()) == current);
    lemma_write_row_files(writer, files, row);
    lemma_contents_push(header, before.last(), row);
    lemma_contents_push(header, Seq::empty(), row);
    assert(Seq::<Seq<char>>::empty().push(row) =~= seq![row]);
    assert forall|i: nat| i < after.len() implies {
        &&& written.contains_key(#[trigger] name_of(next.name, i, after.len()))
        &&& written[name_of(next.name, i, after.len())] == contents(next.header, after[i as int])
    } by {
        law_names_distinct(writer.name, i, writer.rotation_index);
        if i < before.len() {
            assert(files.contains_key(name_of(writer.name, i, before.len())));
        }
    }
}

/// Only the file of the log, and files with the first `count` of its numbered names, may differ.
pub open spec fn others_untouched(
    before: Files,
    after: Files,
    name: Seq<char>,
    count: nat,
) -> bool {
    forall|other: Seq<char>|
        other != writer::file_name(name) && (forall|i: nat|
            i < count ==> other != #[trigger] writer::rotated_name(name, i)) ==> {
            &&& #[trigger] after.contains_key(other) == before.contains_key(other)
            &&& after[other] == before[other]
        }
}

proof fn lemma_write_row_untouched(writer: WriterState, start: Files, files: Files, row: Seq<char>)
    requires
        writer.phase is Writing,
        files.contains_key(writer::file_name(writer.name)),
        others_untouched(start, files, writer.name, writer.rotation_index),
    ensures
        others_untouched(
            start,
            write_row(writer, files, row).1,
            writer.name,
            write_row(writer, files, row).0.rotation_index,
        ),
{
    let name = writer.name;
    let next = write_row(writer, files, row).0;
    let written = write_row(writer, files, row).1;
    lemma_write_row_files(writer, files, row);
    assert forall|other: Seq<char>|
        other != writer::file_name(name) && (forall|i: nat|
            i < next.rotation_index ==> other != #[trigger] writer::rotated_name(name, i)) implies {
        &&& #[trigger] written.contains_key(other) == start.contains_key(other)
        &&& written[other] == start[other]
    } by {
        assert(files.contains_key(other) == start.contains_key(other));
        if writer.needs_rotation(row) {
            assert(other != writer::rotated_name(name, writer.rotation_index));
        }
    }
}

/// The files of a session after any rows have been logged: under the name of the log stands the
/// last file, under the numbered names stand the full ones, and each holds the header line and
/// its rows. No other file is touched.
pub proof fn law_rows_on_disk(
    name: Seq<char>,
    header: Seq<char>,
    max_file_size: nat,
    files: Files,
    rows: Seq<Seq<char>>,
)
    ensures
        ({
            let start = opened(fresh(name, header, max_file_size), files);
            let end = write_rows(start.0, start.1, rows);
            &&& end.0.name == name
            &&& end.0.header == header
            &&& end.0.max_file_size == max_file_size
            &&& on_disk(end.0, end.1, rows)
            &&& others_untouched(files, end.1, name, end.0.rotation_index)
        }),
    decreases rows.len(),
{
    let start = opened(fresh(name, header, max_file_size), files);
    let end = write_rows(start.0, start.1, rows);
    if rows.len() == 0 {
        let chunks = split(header, max_file_size, rows);
        lemma_contents_push(header, Seq::empty(), Seq::empty());
        assert forall|i: nat| i < chunks.len() implies {
            &&& end.1.contains_key(#[trigger] name_of(name, i, chunks.len()))
            &&& end.1[name_of(name, i, chunks.len())] == contents(header, chunks[i as int])
        } by {
            assert(i == 0);
        }
    } else {
        law_rows_on_disk(name, header, max_file_size, files, rows.drop_last());
        let before = write_rows(start.0, start.1, rows.drop_last());
        let count = split(header, max_file_size, rows.drop_last()).len();
        lemma_split_nonempty(header, max_file_size, rows.drop_last());
        assert(before.1.contains_key(name_of(name, (count - 1) as nat, count)));
        law_write_row(before.0, before.1, rows.drop_last(), rows.last());
        lemma_write_row_untouched(before.0, files, before.1, rows.last());
        assert(rows.drop_last().push(rows.last()) =~= rows);
        assert(end == write_row(before.0, before.1, rows.last()));
    }
}

/// The writer and the files after an event, where each file that was to be opened could be.
pub open spec fn handle(writer: WriterState, files: Files, event: Event) -> (WriterState, Files) {
    match event {
        Event::Row(row) => write_row(writer, files, row),
        _ => (
            writer.next(event),
            perform_all(files, writer::file_name(writer.name), writer.actions(event)),
        ),
    }
}

/// The writer and the files after several events.
pub open spec fn handle_all(writer: WriterState, files: Files, events: Seq<Event>) -> (
    WriterState,
    Files,
)
    decreases events.len(),
{
    if events.len() == 0 {
        (writer, files)
    } else {
        let before = handle_all(writer, files, events.drop_last());
        handle(before.0, before.1, events.last())
    }
}

/// The rows among the events.
pub open spec fn rows_of(events: Seq<Event>) -> Seq<Seq<char>>
    decreases events.len(),
{
    if events.len() == 0 {
        Seq::empty()
    } else {
        match events.last() {
            Event::Row(row) => rows_of(events.drop_last()).push(row),
            _ => rows_of(events.drop_last()),
        }
    }
}

proof fn lemma_flush_keeps_files(files: Files, current: Seq<char>)
    ensures
        perform_all(files, current, seq![Action::Flush]) == files,
        perform_all(files, current, seq![Action::Flush, Action::Stop]) == files,
{
    let none = Seq::<Action>::empty();
    lemma_perform_all_step(files, current, none, Action::Flush);
    lemma_perform_all_step(files, current, none.push(Action::Flush), Action::Stop);
    assert(seq![Action::Flush] =~= none.push(Action::Flush));
    assert(seq![Action::Flush, Action::Stop] =~= none.push(Action::Flush).push(Action::Stop));
}

/// Quiet times between the rows change neither the files nor the writer.
pub proof fn law_quiet_times_change_nothing(
    name: Seq<char>,
    header: Seq<char>,
    max_file_size: nat,
    files: Files,
    events: Seq<Event>,
)
    requires
        forall|i: int|
            0 <= i < events.len() ==> (#[trigger] events[i]) is Row || events[i] is Timeout,
    ensures
        ({
            let start = opened(fresh(name, header, max_file_size), files);
            handle_all(start.0, start.1, events) == write_rows(start.0, start.1, rows_of(events))
        }),
    decreases events.len(),
{
    if events.len() > 0 {
        let start = opened(fresh(name, header, max_file_size), files);
        let earlier = events.drop_last();
        assert forall|i: int| 0 <= i < earlier.len() implies (#[trigger] earlier[i]) is Row
            || earlier[i] is Timeout by {
            assert(earlier[i] == events[i]);
        }
        law_quiet_times_change_nothing(name, header, max_file_size, files, earlier);
        law_rows_on_disk(name, header, max_file_size, files, rows_of(earlier));
        let before = write_rows(start.0, start.1, rows_of(earlier));
        assert(events[events.len() - 1] == events.last());
        match events.last() {
            Event::Row(row) => {
                assert(rows_of(events).drop_last() =~= rows_of(earlier));
            },
            _ => {
                lemma_flush_keeps_files(before.1, writer::file_name(name));
            },
        }
    }
}

/// When the logger has been stopped and its rows have been written, with quiet times or without,
/// the writer flushes its file and stops, and the files hold the rows. Whatever would come then
/// has no effect.
pub proof fn law_the_end_leaves_the_rows(
    name: Seq<char>,
    header: Seq<char>,
    max_file_size: nat,
    files: Files,
    events: Seq<Event>,
    further: Event,
)
    requires
        forall|i: int|
            0 <= i < events.len() ==> (#[trigger] events[i]) is Row || events[i] is Timeout,
    ensures
        ({
            let start = opened(fresh(name, header, max_file_size), files);
            let written = write_rows(start.0, start.1, rows_of(events));
            let end = handle_all(start.0, start.1, events.push(Event::Disconnected));
            &&& on_disk(written.0, written.1, rows_of(events))
            &&& handle_all(start.0, start.1, events).0.actions(Event::Disconnected)
                == seq![Action::Flush, Action::Stop]
            &&& end.1 == written.1
            &&& end.0 == (WriterState { phase: Phase::Stopped, ..written.0 })
            &&& handle(end.0, end.1, further) == end
        }),
{
    let start = opened(fresh(name, header, max_file_size), files);
    let written = write_rows(start.0, start.1, rows_of(events));
    let end = handle_all(start.0, start.1, events.push(Event::Disconnected));
    law_quiet_times_change_nothing(name, header, max_file_size, files, events);
    law_rows_on_disk(name, header, max_file_size, files, rows_of(events));
    assert(events.push(Event::Disconnected).drop_last() =~= events);
    lemma_flush_keeps_files(written.1, writer::file_name(name));
    assert(end.0.actions(further) =~= Seq::<Action>::empty());
}

/// Every file starts with the header line, so each one describes itself.
pub proof fn law_every_file_has_the_header(
    writer: WriterState,
    files: Files,
    rows: Seq<Seq<char>>,
    index: nat,
)
    requires
        on_disk(writer, files, rows),
        index < split(writer.header, writer.max_file_size, rows).len(),
    ensures
        ({
            let count = split(writer.header, writer.max_file_size, rows).len();
            writer::line(writer.header).is_prefix_of(files[name_of(writer.name, index, count)])
        }),
{
    let chunks = split(writer.header, writer.max_file_size, rows);
    let file = contents(writer.header, chunks[index as int]);
    assert(files[name_of(writer.name, index, chunks.len())] == file);
    assert(writer::line(writer.header) =~= file.subrange(
        0,
        writer::line(writer.header).len() as int,
    ));
}

/// The lines of a text, where `started` is the part of the first line that has been read.
pub open spec fn read_lines(started: Seq<char>, text: Seq<char>) -> Seq<Seq<char>>
    decreases text.len(),
{
    if text.len() == 0 {
        if started.len() == 0 {
            Seq::empty()
        } else {
            seq![started]
        }
    } else if text[0] == '\n' {
        seq![started] + read_lines(Seq::empty(), text.drop_first())
    } else {
        read_lines(started.push(text[0]), text.drop_first())
    }
}

proof fn lemma_read_line(started: Seq<char>, row: Seq<char>, rest: Seq<char>)
    requires
        !row.contains('\n'),
    ensures
        read_lines(started, writer::line(row) + rest) == seq![started + row] + read_lines(
            Seq::empty(),
            rest,
        ),
    decreases row.len(),
{
    let text = writer::line(row) + rest;
    if row.len() == 0 {
        assert(text[0] == '\n');
        assert(text.drop_first() =~= rest);
        assert(started + row =~= started);
    } else {
        assert(text[0] == row[0]);
        assert(row.contains(row[0]));
        assert(text.drop_first() =~= writer::line(row.drop_first()) + rest);
        assert forall|c: char| row.drop_first().contains(c) implies row.contains(c) by {
            let i = choose|i: int| 0 <= i < row.drop_first().len() && row.drop_first()[i] == c;
            assert(row[i + 1] == c);
        }
        lemma_read_line(started.push(row[0]), row.drop_first(), rest);
        assert(started.push(row[0]) + row.drop_first() =~= started + row);
    }
}

proof fn lemma_lines_front(row: Seq<char>, rows: Seq<Seq<char>>)
    ensures
        lines(seq![row] + rows) == writer::line(row) + lines(rows),
    decreases rows.len(),
{
    let all = seq![row] + rows;
    if rows.len() == 0 {
        assert(all.drop_last() =~= Seq::<Seq<char>>::empty());
        assert(lines(all) =~= writer::line(row) + lines(rows)) by {
            reveal_with_fuel(lines, 2);
        }
    } else {
        assert(all.drop_last() =~= seq![row] + rows.drop_last());
        lemma_lines_front(row, rows.drop_last());
        assert(lines(all) =~= writer::line(row) + lines(rows));
    }
}

/// A file reads back line by line: the header, then the rows, where none of them holds a line
/// feed.
pub proof fn law_file_reads_back(header: Seq<char>, rows: Seq<Seq<char>>)
    requires
        !header.contains('\n'),
        forall|i: int| 0 <= i < rows.len() ==> !(#[trigger] rows[i]).contains('\n'),
    ensures
        read_lines(Seq::empty(), contents(header, rows)) == seq![header] + rows,
    decreases rows.len(),
{
    lemma_read_line(Seq::empty(), header, lines(rows));
    assert(Seq::<char>::empty() + header =~= header);
    if rows.len() == 0 {
        assert(read_lines(Seq::empty(), contents(header, rows)) =~= seq![header] + rows);
    } else {
        let rest = rows.drop_first();
        assert forall|i: int| 0 <= i < rest.len() implies !(#[trigger] rest[i]).contains('\n') by {
            assert(rest[i] == rows[i + 1]);
        }
        assert(rows =~= seq![rows[0]] + rest);
        lemma_lines_front(rows[0], rest);
        assert(lines(rows) == contents(rows[0], rest));
        law_file_reads_back(rows[0], rest);
        assert(seq![header] + (seq![rows[0]] + rest) =~= seq![header] + rows);
    }
}

/// The rows that a logger took up are those in the files, in their order, once its writer has
/// written those that it took and then those that were left in the queue.
pub proof fn law_logged_rows_reach_the_files(
    name: Seq<char>,
    header: Seq<char>,
    max_file_size: nat,
    files: Files,
    steps: Seq<QueueStep>,
)
    ensures
        ({
            let end = logger::trace(LoggerState::fresh(), steps);
            let start = opened(fresh(name, header, max_file_size), files);
            let written = write_rows(start.0, start.1, end.taken + end.state.queue);
            on_disk(written.0, written.1, end.accepted)
        }),
{
    let end = logger::trace(LoggerState::fresh(), steps);
    logger::law_queue_keeps_every_row(LoggerState::fresh(), steps);
    assert(LoggerState::fresh().queue + end.accepted =~= end.accepted);
    law_rows_on_disk(name, header, max_file_size, files, end.accepted);
}

} // verus!
