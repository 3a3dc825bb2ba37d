//! The pipe by which a supervisor process is given commands: one line for each.
use crate::errors::{LaunchError, LaunchErrorView};
use crate::launch::supervisor_registry::{insecure, insecure_path};
use vstd::prelude::*;

verus! {

/// The name of the pipe in the directory of a stack.
pub const CONTROL_FIFO_FILE: &'static str = "control.fifo";

/// The permissions of the pipe.
pub const SECURE_FIFO_MODE: u32 = 0o600;

/// How many commands may wait to be handled.
pub const CONTROL_FRAME_CHANNEL_CAPACITY: usize = 16;

/// The byte that ends a command.
pub const LINE_FEED: u8 = 10;

/// `libc::PIPE_BUF`: how many bytes a pipe takes at once without mixing them with those of
/// another writer. The number is the system's, and no system has fewer than 512.
#[verifier::external_body]
fn pipe_buf() -> (r: usize)
    ensures
        512 <= r,
{
    libc::PIPE_BUF
}

/// How long a command may be, without the byte that ends it, where a pipe takes `pipe_buf`
/// bytes at once.
pub fn frame_limit(pipe_buf: usize) -> (r: usize)
    requires
        0 < pipe_buf,
    ensures
        r == pipe_buf - 1,
{
    pipe_buf - 1
}

/// How long a command may be on this system, without the byte that ends it: what
/// [`frame_limit`] gives for the system's pipes. Which number that is, is not stated; no
/// system has less than 511.
pub fn max_command_frame_size() -> (r: usize)
    ensures
        511 <= r < usize::MAX,
{
    frame_limit(pipe_buf())
}

/// A command to a supervisor process.
#[derive(Debug)]
pub enum ControlFrame {
    /// Take the stack down.
    Down { stack_id: String },
    /// Reload the stack, from another profile or its own.
    Reload { stack_id: String, profile_path: Option<String> },
}

/// What contracts say of a [`ControlFrame`].
#[verifier::ext_equal]
pub enum FrameView {
    Down { stack_id: Seq<char> },
    Reload { stack_id: Seq<char>, profile_path: Option<Seq<char>> },
}

impl View for ControlFrame {
    type V = FrameView;

    open spec fn view(&self) -> FrameView {
        match self {
            ControlFrame::Down { stack_id } => FrameView::Down { stack_id: stack_id@ },
            ControlFrame::Reload { stack_id, profile_path } => FrameView::Reload {
                stack_id: stack_id@,
                profile_path: crate::launch::profile::opt_text(*profile_path),
            },
        }
    }
}

// ---- Writing ------------------------------------------------------------------

/// The bytes of a command as they are written: the command and the byte that ends it. There
/// are none for a command longer than `limit`.
pub open spec fn framed(command: Seq<u8>, limit: int) -> Option<Seq<u8>> {
    if command.len() <= limit {
        Some(command.push(LINE_FEED))
    } else {
        None
    }
}

/// The bytes of a command as they are written at once: the command and the byte that ends
/// it. A command longer than `limit` is refused before anything is written.
pub fn frame_bytes(command: Vec<u8>, limit: usize) -> (r: Result<Vec<u8>, LaunchError>)
    ensures
        match framed(command@, limit as int) {
            Some(bytes) => r matches Ok(x) && x@ == bytes,
            None => r matches Err(e) && e@ == (LaunchErrorView::FrameTooLarge {
                size: command@.len() as usize,
            }),
        },
        r is Ok <==> command@.len() <= limit,
        r matches Ok(x) ==> x@ == command@.push(10u8),
{
    if command.len() > limit {
        return Err(LaunchError::FrameTooLarge { size: command.len() });
    }
    let mut bytes = command;
    bytes.push(LINE_FEED);
    Ok(bytes)
}

/// Checks the pipe before it is used: it is a pipe, only its owner may use it, and the
/// owner is the user of this process.
pub fn verify_fifo_secure(path: &[u8], is_fifo: bool, mode: u32, uid: u32, euid: u32) -> (r: Result<
    (),
    LaunchError,
>)
    ensures
        r is Ok <==> is_fifo && mode & 0o777 == SECURE_FIFO_MODE && uid == euid,
        r is Ok <==> is_fifo && mode & 0o777 == 0o600 && uid == euid,
        r matches Err(e) ==> e@ == insecure_path(path@),
        r matches Err(e) ==> e@ == (LaunchErrorView::RegistryInsecure {
            path: crate::codec::lossy_text(path@),
        }),
{
    if !is_fifo {
        return Err(insecure(path));
    }
    if mode & 0o777 != SECURE_FIFO_MODE {
        return Err(insecure(path));
    }
    if uid != euid {
        return Err(insecure(path));
    }
    Ok(())
}

// ---- Reading ------------------------------------------------------------------

/// What a reader finds at the end of a line.
#[derive(Debug)]
pub enum FrameEvent {
    /// A line that may be a command.
    Line(Vec<u8>),
    /// A line that is too long for one, and was dropped.
    Oversized,
}

/// What contracts say of a [`FrameEvent`].
#[verifier::ext_equal]
pub enum EventView {
    Line(Seq<u8>),
    Oversized,
}

impl View for FrameEvent {
    type V = EventView;

    open spec fn view(&self) -> EventView {
        match self {
            FrameEvent::Line(bytes) => EventView::Line(bytes@),
            FrameEvent::Oversized => EventView::Oversized,
        }
    }
}

/// What is said of a line is what it holds.
pub proof fn lines_are_seen_as_read(e: FrameEvent)
    ensures
        match e {
            FrameEvent::Line(bytes) => e@ == (EventView::Line(bytes@)),
            FrameEvent::Oversized => e@ == (EventView::Oversized),
        },
{
}

/// What a reader makes of a line.
pub open spec fn event_of(line: Seq<u8>, limit: int) -> EventView {
    if line.len() > limit {
        EventView::Oversized
    } else {
        EventView::Line(line)
    }
}

/// The line that is not ended yet.
pub open spec fn pending(stream: Seq<u8>) -> Seq<u8>
    decreases stream.len(),
{
    if stream.len() == 0 || stream.last() == LINE_FEED {
        Seq::empty()
    } else {
        pending(stream.drop_last()).push(stream.last())
    }
}

/// What a reader finds in a stream of bytes.
pub open spec fn events(stream: Seq<u8>, limit: int) -> Seq<EventView>
    decreases stream.len(),
{
    if stream.len() == 0 {
        Seq::empty()
    } else if stream.last() == LINE_FEED {
        events(stream.drop_last(), limit).push(event_of(pending(stream.drop_last()), limit))
    } else {
        events(stream.drop_last(), limit)
    }
}

/// A reader of lines. Of a line that is too long it keeps nothing.
pub struct FrameReader {
    line: Vec<u8>,
    oversized: bool,
    limit: usize,
    stream: Ghost<Seq<u8>>,
}

impl FrameReader {
    /// The bytes that were read.
    pub closed spec fn stream(&self) -> Seq<u8> {
        self.stream@
    }

    /// How long a line may be.
    pub closed spec fn limit(&self) -> int {
        self.limit as int
    }

    /// How many bytes are kept.
    pub closed spec fn held(&self) -> int {
        self.line@.len() as int
    }

    /// The reader keeps the line that is not ended, unless it is too long.
    pub closed spec fn wf(&self) -> bool {
        &&& self.oversized == (pending(self.stream@).len() > self.limit)
        &&& self.line@ == (if self.oversized {
            Seq::empty()
        } else {
            pending(self.stream@)
        })
    }

    /// A reader of nothing so far.
    pub fn new(limit: usize) -> (r: FrameReader)
        ensures
            r.wf(),
            r.stream() == Seq::<u8>::empty(),
            r.limit() == limit,
    {
        FrameReader { line: Vec::new(), oversized: false, limit, stream: Ghost(Seq::empty()) }
    }

    /// Reads a byte.
    pub fn feed(&mut self, byte: u8) -> (r: Option<FrameEvent>)
        requires
            old(self).wf(),
        ensures
            final(self).wf(),
            final(self).limit() == old(self).limit(),
            final(self).held() <= old(self).limit(),
            final(self).stream() == old(self).stream().push(byte),
            r is Some <==> byte == LINE_FEED,
            r matches Some(event) ==> event@ == event_of(
                pending(old(self).stream()),
                old(self).limit(),
            ),
            r is Some <==> byte == 10,
            r matches Some(event) ==> {
                let line = pending(old(self).stream());
                &&& event is Oversized <==> line.len() > old(self).limit()
                &&& event matches FrameEvent::Line(bytes) ==> bytes@ == line
            },
    {
        let ghost before = self.stream@;
        proof {
            assert(before.push(byte).drop_last() =~= before);
            self.stream@ = before.push(byte);
        }
        if byte != LINE_FEED {
            if !self.oversized && self.line.len() >= self.limit {
                self.oversized = true;
                self.line.clear();
            }
            if !self.oversized {
                self.line.push(byte);
            }
            return None;
        }
        let event = if self.oversized {
            FrameEvent::Oversized
        } else {
            let mut line: Vec<u8> = Vec::new();
            std::mem::swap(&mut line, &mut self.line);
            FrameEvent::Line(line)
        };
        self.oversized = false;
        assert(self.line@ =~= Seq::<u8>::empty());
        Some(event)
    }
}

// ---- What holds of commands ------------------------------------------------------

/// The bytes of commands that are written one after the other.
pub open spec fn written(commands: Seq<Seq<u8>>) -> Seq<u8>
    decreases commands.len(),
{
    if commands.len() == 0 {
        Seq::empty()
    } else {
        written(commands.drop_last()) + commands.last().push(LINE_FEED)
    }
}

/// Whether bytes make one line.
pub open spec fn one_line(bytes: Seq<u8>) -> bool {
    forall|i: int| 0 <= i < bytes.len() ==> bytes[i] != LINE_FEED
}

proof fn lemma_line(stream: Seq<u8>, line: Seq<u8>, limit: int)
    requires
        one_line(line),
    ensures
        pending(stream + line) == pending(stream) + line,
        events(stream + line, limit) == events(stream, limit),
    decreases line.len(),
{
    if line.len() == 0 {
        assert(stream + line =~= stream);
        assert(pending(stream) + line =~= pending(stream));
    } else {
        let front = line.drop_last();
        assert forall|i: int| 0 <= i < front.len() implies front[i] != LINE_FEED by {
            assert(front[i] == line[i]);
        }
        lemma_line(stream, front, limit);
        assert((stream + line).drop_last() =~= stream + front);
        assert((stream + line).last() == line.last());
        assert((pending(stream) + front).push(line.last()) =~= pending(stream) + line);
    }
}

/// A command is accepted exactly where a pipe takes it at once: with the limit for a pipe
/// that takes `pipe_buf` bytes, what is written is never longer than that, and a command is
/// refused only where it would be.
pub proof fn accepted_commands_are_written_at_once(command: Seq<u8>, pipe_buf: usize)
    requires
        0 < pipe_buf,
    ensures
        framed(command, pipe_buf - 1) matches Some(bytes) ==> bytes.len() <= pipe_buf,
        framed(command, pipe_buf - 1) is None ==> command.push(LINE_FEED).len() > pipe_buf,
{
}

/// Commands that are written one after the other are read one after the other, in the
/// same order and as they are; those that are too long are dropped, and the others are
/// still read.
pub proof fn commands_are_read_back(commands: Seq<Seq<u8>>, limit: int)
    requires
        forall|i: int| 0 <= i < commands.len() ==> one_line(#[trigger] commands[i]),
    ensures
        events(written(commands), limit) == commands.map_values(|c: Seq<u8>| event_of(c, limit)),
        pending(written(commands)) == Seq::<u8>::empty(),
    decreases commands.len(),
{
    let found = commands.map_values(|c: Seq<u8>| event_of(c, limit));
    if commands.len() == 0 {
        assert(found =~= Seq::<EventView>::empty());
    } else {
        let front = commands.drop_last();
        let last = commands.last();
        assert forall|i: int| 0 <= i < front.len() implies one_line(#[trigger] front[i]) by {
            assert(front[i] == commands[i]);
        }
        commands_are_read_back(front, limit);
        assert(one_line(commands[commands.len() - 1]));
        lemma_line(written(front), last, limit);
        let stream = written(commands);
        assert(stream.drop_last() =~= written(front) + last);
        assert(stream.last() == LINE_FEED);
        assert(Seq::<u8>::empty() + last =~= last);
        assert(found =~= front.map_values(|c: Seq<u8>| event_of(c, limit)).push(
            event_of(last, limit),
        ));
    }
}

/// What is read since the last line feed is the line that is pending: a line feed empties it, and
/// every other byte is added to it.
pub proof fn lines_end_at_line_feeds(stream: Seq<u8>, line: Seq<u8>, limit: int)
    requires
        forall|i: int| 0 <= i < line.len() ==> line[i] != 10,
    ensures
        pending(stream + seq![10u8] + line) == line,
        pending(line) == line,
        events(line, limit) == Seq::<EventView>::empty(),
        events(stream + seq![10u8] + line, limit) == events(stream + seq![10u8], limit),
        events(stream + seq![10u8], limit) == events(stream, limit).push(
            if pending(stream).len() > limit {
                EventView::Oversized
            } else {
                EventView::Line(pending(stream))
            },
        ),
    decreases line.len(),
{
    assert((stream + seq![10u8]).drop_last() =~= stream);
    assert((stream + seq![10u8]).last() == 10);
    if line.len() == 0 {
        assert(stream + seq![10u8] + line =~= stream + seq![10u8]);
        assert(line =~= Seq::<u8>::empty());
    } else {
        let head = line.drop_last();
        assert forall|i: int| 0 <= i < head.len() implies head[i] != 10 by {
            assert(head[i] == line[i]);
        }
        lines_end_at_line_feeds(stream, head, limit);
        let all = stream + seq![10u8] + line;
        assert(all.drop_last() =~= stream + seq![10u8] + head);
        assert(all.last() == line.last());
        assert(line.last() == line[line.len() - 1]);
        assert(head.push(line.last()) =~= line);
    }
}

/// A command that is not longer than the limit, and is one line, arrives as it was sent; a longer
/// one is never written.
pub proof fn accepted_commands_arrive(stream: Seq<u8>, command: Seq<u8>, limit: int)
    requires
        pending(stream) == Seq::<u8>::empty(),
        forall|i: int| 0 <= i < command.len() ==> command[i] != 10,
    ensures
        framed(command, limit) is Some <==> command.len() <= limit,
        framed(command, limit) matches Some(bytes) ==> events(stream + bytes, limit) == events(
            stream,
            limit,
        ).push(EventView::Line(command)) && pending(stream + bytes) == Seq::<u8>::empty(),
{
    if command.len() <= limit {
        let bytes = framed(command, limit)->0;
        lemma_held_line(stream, command, limit);
        let before = stream + command;
        assert(stream + bytes =~= before + seq![10u8]);
        lines_end_at_line_feeds(before, Seq::empty(), limit);
        assert(before + seq![10u8] + Seq::<u8>::empty() =~= before + seq![10u8]);
    }
}

proof fn lemma_held_line(stream: Seq<u8>, line: Seq<u8>, limit: int)
    requires
        pending(stream) == Seq::<u8>::empty(),
        forall|i: int| 0 <= i < line.len() ==> line[i] != 10,
    ensures
        pending(stream + line) == line,
        events(stream + line, limit) == events(stream, limit),
    decreases line.len(),
{
    let all = stream + line;
    if line.len() == 0 {
        assert(all =~= stream);
        assert(line =~= Seq::<u8>::empty());
    } else {
        let head = line.drop_last();
        assert forall|i: int| 0 <= i < head.len() implies head[i] != 10 by {
            assert(head[i] == line[i]);
        }
        lemma_held_line(stream, head, limit);
        assert(all.drop_last() =~= stream + head);
        assert(all.last() == line.last());
        assert(line.last() == line[line.len() - 1]);
        assert(head.push(line.last()) =~= line);
    }
}

} // verus!
