//! The audit logger.
//!
//! Producers hand the logger one event at a time; the logger timestamps it,
//! renders the log line, counts lock transitions, and keeps the rendered
//! lines on a FIFO queue.  A caller drains the queue with [`ThreadLogger::take_lines`]
//! and appends the lines to the log file; nothing here touches a file.
//!
//! The ghost `history` field records every event ever logged, in order, and
//! the well-formedness predicate ties the two counters to that history, so
//! the counters are accurate at enqueue time, before any line is drained.

use crate::text::{dec_digits, push_decimal};
use vstd::prelude::*;
use vstd::string::StringExecFns;

verus! {

/// Which of the two lock modes an event speaks of.
pub enum LockType {
    Read,
    Write,
}

/// One event handed to the logger: a lock transition or a free-form note.
pub enum LogMessage {
    Acquire(LockType),
    Release(LockType),
    Custom(String),
}

/// The mathematical value of a [`LogMessage`].
pub ghost enum MessageModel {
    Acquire(LockType),
    Release(LockType),
    Custom(Seq<char>),
}

impl View for LogMessage {
    type V = MessageModel;

    open spec fn view(&self) -> MessageModel {
        match self {
            LogMessage::Acquire(kind) => MessageModel::Acquire(*kind),
            LogMessage::Release(kind) => MessageModel::Release(*kind),
            LogMessage::Custom(text) => MessageModel::Custom(text@),
        }
    }
}

/// One entry of the audit trail: the worker an event is attributed to and
/// what the event said.
pub ghost struct AuditRecord {
    pub worker: u32,
    pub message: MessageModel,
}

pub open spec fn is_acquire(m: MessageModel) -> bool {
    match m {
        MessageModel::Acquire(_) => true,
        _ => false,
    }
}

pub open spec fn is_release(m: MessageModel) -> bool {
    match m {
        MessageModel::Release(_) => true,
        _ => false,
    }
}

/// How many entries of `h` are lock acquisitions.
pub open spec fn count_acquires(h: Seq<AuditRecord>) -> nat
    decreases h.len(),
{
    if h.len() == 0 {
        0
    } else {
        count_acquires(h.drop_last()) + (if is_acquire(h.last().message) {
            1nat
        } else {
            0nat
        })
    }
}

/// How many entries of `h` are lock releases.
pub open spec fn count_releases(h: Seq<AuditRecord>) -> nat
    decreases h.len(),
{
    if h.len() == 0 {
        0
    } else {
        count_releases(h.drop_last()) + (if is_release(h.last().message) {
            1nat
        } else {
            0nat
        })
    }
}

/// A count held to what a `usize` counter can represent.
pub open spec fn clamped(n: nat) -> nat {
    if n > usize::MAX as nat {
        usize::MAX as nat
    } else {
        n
    }
}

/// The fixed description the log line carries for each kind of event.
pub open spec fn description_of(m: MessageModel) -> Seq<char> {
    match m {
        MessageModel::Acquire(LockType::Read) => "READ LOCK ACQUIRED"@,
        MessageModel::Acquire(LockType::Write) => "WRITE LOCK ACQUIRED"@,
        MessageModel::Release(LockType::Read) => "READ LOCK RELEASED"@,
        MessageModel::Release(LockType::Write) => "WRITE LOCK RELEASED"@,
        MessageModel::Custom(text) => text,
    }
}

/// The full log line for one event: `<timestamp>: THREAD <worker> <description>`
/// and a newline.
pub open spec fn line_of(timestamp: u128, worker: u32, m: MessageModel) -> Seq<char> {
    dec_digits(timestamp as nat) + ": THREAD "@ + dec_digits(worker as nat) + " "@
        + description_of(m) + "\n"@
}

/// Whether `line` is the log line of the event `m` attributed to `worker`,
/// under some timestamp.
pub open spec fn is_event_line(line: Seq<char>, worker: u32, m: MessageModel) -> bool {
    exists|timestamp: u128| line == line_of(timestamp, worker, m)
}

/// How one logged event takes the logger from `pre` to `post`: the event is
/// appended to the history, its line (under some timestamp) to the queue, and
/// the matching counter moves by one.
pub open spec fn stepped(pre: ThreadLogger, post: ThreadLogger, worker: u32, m: MessageModel) -> bool {
    &&& post.history@ == pre.history@.push((AuditRecord { worker: worker, message: m }))
    &&& post.queue@.len() == pre.queue@.len() + 1
    &&& forall|i: int| 0 <= i < pre.queue@.len() ==> post.queue@[i] == pre.queue@[i]
    &&& is_event_line(post.queue@.last()@, worker, m)
    &&& post.acquisitions as nat == (if is_acquire(m) {
        clamped(pre.acquisitions as nat + 1)
    } else {
        pre.acquisitions as nat
    })
    &&& post.releases as nat == (if is_release(m) {
        clamped(pre.releases as nat + 1)
    } else {
        pre.releases as nat
    })
}

/// How one store operation, attributed to `worker`, takes the logger from
/// `pre` to `post`: it notes itself (`note`), then records acquiring and
/// releasing the lock of kind `kind`, and both counters move by one.
pub open spec fn logged_op(
    pre: ThreadLogger,
    post: ThreadLogger,
    worker: u32,
    note: Seq<char>,
    kind: LockType,
) -> bool {
    &&& post.history@ == pre.history@ + seq![
        (AuditRecord { worker: worker, message: MessageModel::Custom(note) }),
        (AuditRecord { worker: worker, message: MessageModel::Acquire(kind) }),
        (AuditRecord { worker: worker, message: MessageModel::Release(kind) }),
    ]
    &&& post.queue@.len() == pre.queue@.len() + 3
    &&& forall|i: int| 0 <= i < pre.queue@.len() ==> post.queue@[i] == pre.queue@[i]
    &&& is_event_line(post.queue@[pre.queue@.len() as int]@, worker, MessageModel::Custom(note))
    &&& is_event_line(
        post.queue@[pre.queue@.len() + 1 as int]@,
        worker,
        MessageModel::Acquire(kind),
    )
    &&& is_event_line(
        post.queue@[pre.queue@.len() + 2 as int]@,
        worker,
        MessageModel::Release(kind),
    )
    &&& post.acquisitions as nat == clamped(pre.acquisitions as nat + 1)
    &&& post.releases as nat == clamped(pre.releases as nat + 1)
}

/// Three logged events -- note, acquire, release -- compose to `logged_op`.
pub proof fn lemma_three_events(
    l0: ThreadLogger,
    l1: ThreadLogger,
    l2: ThreadLogger,
    l3: ThreadLogger,
    worker: u32,
    note: Seq<char>,
    kind: LockType,
)
    requires
        stepped(l0, l1, worker, MessageModel::Custom(note)),
        stepped(l1, l2, worker, MessageModel::Acquire(kind)),
        stepped(l2, l3, worker, MessageModel::Release(kind)),
    ensures
        logged_op(l0, l3, worker, note, kind),
{
    assert(l3.history@ =~= l0.history@ + seq![
        (AuditRecord { worker: worker, message: MessageModel::Custom(note) }),
        (AuditRecord { worker: worker, message: MessageModel::Acquire(kind) }),
        (AuditRecord { worker: worker, message: MessageModel::Release(kind) }),
    ]);
    assert(l3.queue@[l0.queue@.len() as int] == l1.queue@.last());
    assert(l3.queue@[l0.queue@.len() + 1 as int] == l2.queue@.last());
}

/// Relies on `std::time::SystemTime::now` for the wall-clock reading, taken
/// as microseconds since the Unix epoch.  The value depends on the clock, so
/// nothing is promised of it; a clock before the epoch reads as zero rather
/// than failing.
#[verifier::external_body]
pub fn current_timestamp() -> u128 {
    match std::time::SystemTime::now().duration_since(std::time::UNIX_EPOCH) {
        Ok(elapsed) => elapsed.as_micros(),
        Err(_) => 0,
    }
}

/// Renders the log line for one event.
fn format_line(timestamp: u128, worker: u32, message: &LogMessage) -> (line: String)
    ensures
        line@ == line_of(timestamp, worker, message@),
{
    let mut line = String::new();
    push_decimal(&mut line, timestamp);
    line.append(": THREAD ");
    push_decimal(&mut line, worker as u128);
    line.append(" ");
    match message {
        LogMessage::Acquire(LockType::Read) => line.append("READ LOCK ACQUIRED"),
        LogMessage::Acquire(LockType::Write) => line.append("WRITE LOCK ACQUIRED"),
        LogMessage::Release(LockType::Read) => line.append("READ LOCK RELEASED"),
        LogMessage::Release(LockType::Write) => line.append("WRITE LOCK RELEASED"),
        LogMessage::Custom(text) => line.append(text.as_str()),
    }
    line.append("\n");
    assert(line@ =~= line_of(timestamp, worker, message@));
    line
}

/// Adds one to a counter, staying put at the top of the range.
fn bump(counter: usize) -> (bumped: usize)
    ensures
        bumped as nat == clamped(counter as nat + 1),
{
    if counter < usize::MAX {
        counter + 1
    } else {
        counter
    }
}

/// The audit logger: a queue of rendered lines not yet written out, and the
/// running counts of lock acquisitions and releases.
pub struct ThreadLogger {
    pub queue: Vec<String>,
    pub acquisitions: usize,
    pub releases: usize,
    pub history: Ghost<Seq<AuditRecord>>,
}

impl ThreadLogger {
    /// The counters agree with the audit history.
    pub open spec fn wf(&self) -> bool {
        &&& self.acquisitions as nat == clamped(count_acquires(self.history@))
        &&& self.releases as nat == clamped(count_releases(self.history@))
    }

    pub fn new() -> (logger: Self)
        ensures
            logger.wf(),
            logger.history@ == Seq::<AuditRecord>::empty(),
            logger.queue@ == Seq::<String>::empty(),
            logger.acquisitions == 0,
            logger.releases == 0,
    {
        ThreadLogger {
            queue: Vec::new(),
            acquisitions: 0,
            releases: 0,
            history: Ghost(Seq::empty()),
        }
    }

    /// Logs one event on behalf of `thread_id`: timestamps it, renders the
    /// line onto the queue, counts it, and records it in the history.
    pub fn log_id(&mut self, thread_id: u32, msg: LogMessage)
        requires
            old(self).wf(),
        ensures
            final(self).wf(),
            stepped(*old(self), *final(self), thread_id, msg@),
    {
        let timestamp = current_timestamp();
        match &msg {
            LogMessage::Acquire(_) => {
                self.acquisitions = bump(self.acquisitions);
            },
            LogMessage::Release(_) => {
                self.releases = bump(self.releases);
            },
            LogMessage::Custom(_) => {},
        }
        let line = format_line(timestamp, thread_id, &msg);
        self.queue.push(line);
        proof {
            let entry = AuditRecord { worker: thread_id, message: msg@ };
            let extended = self.history@.push(entry);
            assert(extended.drop_last() =~= self.history@);
        }
        self.history = Ghost(
            self.history@.push(AuditRecord { worker: thread_id, message: msg@ }),
        );
    }

    /// Queues a line verbatim, outside the event format; used for the final
    /// summary.  Counts and history are untouched.
    pub fn log_str(&mut self, msg: &str)
        ensures
            final(self).queue@.len() == old(self).queue@.len() + 1,
            forall|i: int|
                0 <= i < old(self).queue@.len() ==> final(self).queue@[i] == old(self).queue@[i],
            final(self).queue@.last()@ == msg@,
            final(self).acquisitions == old(self).acquisitions,
            final(self).releases == old(self).releases,
            final(self).history == old(self).history,
            old(self).wf() ==> final(self).wf(),
    {
        self.queue.push(msg.to_owned());
    }

    pub fn get_acquisition_count(&self) -> (count: usize)
        ensures
            count == self.acquisitions,
    {
        self.acquisitions
    }

    pub fn get_release_count(&self) -> (count: usize)
        ensures
            count == self.releases,
    {
        self.releases
    }

    /// Hands out the queued lines in arrival order and leaves the queue
    /// empty.  The caller appends them to the log file.
    pub fn take_lines(&mut self) -> (lines: Vec<String>)
        ensures
            lines == old(self).queue,
            final(self).queue@.len() == 0,
            final(self).acquisitions == old(self).acquisitions,
            final(self).releases == old(self).releases,
            final(self).history == old(self).history,
            old(self).wf() ==> final(self).wf(),
    {
        let mut lines: Vec<String> = Vec::new();
        core::mem::swap(&mut self.queue, &mut lines);
        lines
    }
}

} // verus!
