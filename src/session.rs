//! Decisions of the session around rebuilds: when to rebuild at once, when
//! to wait for more changes, when to ask for a restart; and the buffer of the
//! last messages kept for crash reports.
use vstd::prelude::*;

verus! {

/// Number of messages kept for a crash report.
pub const CRASH_BUFFER_SIZE: usize = 20;

/// Shortest and longest wait, in milliseconds, before delayed rebuilds run.
pub const MIN_DELAY: u64 = 1000;
pub const MAX_DELAY: u64 = 15000;

/// Rebuild queue length from which an update waits for the delayed pass.
pub const MAX_IMMEDIATE_QUEUE: usize = 10;

/// The last messages seen, oldest first.
pub struct CrashBuffer<T> {
    items: Vec<T>,
}

impl<T> View for CrashBuffer<T> {
    type V = Seq<T>;

    closed spec fn view(&self) -> Seq<T> {
        self.items@
    }
}

/// An empty buffer of the last messages.
pub fn init_crash_buffer<T>() -> (r: CrashBuffer<T>)
    ensures
        r@.len() == 0,
{
    CrashBuffer { items: Vec::new() }
}

impl<T> CrashBuffer<T> {
    pub closed spec fn wf(&self) -> bool {
        self.items@.len() <= CRASH_BUFFER_SIZE
    }

    /// Adds a message, dropping the oldest when the buffer is full.
    pub fn push_message(&mut self, msg: T)
        requires
            old(self)@.len() <= CRASH_BUFFER_SIZE,
        ensures
            final(self)@ == if old(self)@.len() == CRASH_BUFFER_SIZE {
                old(self)@.drop_first().push(msg)
            } else {
                old(self)@.push(msg)
            },
            final(self)@.len() <= CRASH_BUFFER_SIZE,
    {
        if self.items.len() == CRASH_BUFFER_SIZE {
            self.items.remove(0);
        }
        self.items.push(msg);
    }

    /// The messages, oldest first.
    pub fn get_messages(&self) -> (r: &Vec<T>)
        ensures
            r@ == self@,
    {
        &self.items
    }
}

/// The configured delay, kept between the shortest and the longest allowed.
pub fn clamp_delay(ms: u64) -> (r: u64)
    ensures
        r == if ms < MIN_DELAY { MIN_DELAY } else if ms > MAX_DELAY { MAX_DELAY } else { ms },
{
    if ms < MIN_DELAY {
        MIN_DELAY
    } else if ms > MAX_DELAY {
        MAX_DELAY
    } else {
        ms
    }
}

/// What to do with a change of a watched file.
#[derive(Clone, Copy, PartialEq, Eq, Structural)]
pub enum UpdateAction {
    /// Too many changes in a row (a branch switch, say): restart the server.
    Restart,
    /// Rebuild what depends on the file now.
    ProcessNow,
    /// Leave the rebuild to the delayed pass.
    Delay,
}

/// Decides what a change of a watched file leads to, from the number of
/// changes counted so far (this one included), the limit, whether a delay
/// was asked for and can be had, whether a full rebuild is due, and the
/// length of the rebuild queue.
pub fn index_update_action(
    watched_updates: u64,
    max_updates: u64,
    forced_delay: bool,
    has_delay_thread: bool,
    need_rebuild: bool,
    rebuild_queue_size: usize,
) -> (r: UpdateAction)
    ensures
        r == if watched_updates > max_updates {
            UpdateAction::Restart
        } else if (!forced_delay || !has_delay_thread) && !need_rebuild && rebuild_queue_size < MAX_IMMEDIATE_QUEUE {
            UpdateAction::ProcessNow
        } else {
            UpdateAction::Delay
        },
{
    if watched_updates > max_updates {
        UpdateAction::Restart
    } else if (!forced_delay || !has_delay_thread) && !need_rebuild && rebuild_queue_size < MAX_IMMEDIATE_QUEUE {
        UpdateAction::ProcessNow
    } else {
        UpdateAction::Delay
    }
}

/// What reaches the thread that runs delayed rebuilds.
pub enum DelayEvent {
    /// Changes came in: rebuild once things calm down.
    Process,
    /// Too many changes: a restart is wanted.
    Restart,
    /// A new delay, in milliseconds.
    UpdateDelay(u64),
    Exit,
    /// Nothing came in during the delay.
    Timeout,
    /// The channel is closed.
    Disconnected,
}

/// What the delayed-rebuild thread does next.
#[derive(Clone, Copy, PartialEq, Eq, Structural)]
pub enum DelayAction {
    /// Keep waiting for events.
    Wait,
    /// Tell the client that a restart is needed.
    NotifyRestart,
    /// Run the queued rebuilds.
    RunRebuilds,
    /// Leave the thread.
    Stop,
}

/// State of the delayed-rebuild thread.
#[derive(Clone, Copy, PartialEq, Eq, Structural)]
pub struct DelayState {
    pub delay_ms: u64,
    pub got_process: bool,
    pub waiting_restart: bool,
}

/// The transition of the delayed-rebuild thread: changes that come in during
/// the delay are gathered into one rebuild pass, which runs when the delay
/// passes without news; after a restart was asked for, no rebuild runs.
pub open spec fn delay_step(s: DelayState, e: DelayEvent) -> (DelayState, DelayAction) {
    match e {
        DelayEvent::Restart => if s.waiting_restart {
            (s, DelayAction::Wait)
        } else {
            (DelayState { waiting_restart: true, ..s }, DelayAction::NotifyRestart)
        },
        DelayEvent::Process => (DelayState { got_process: true, ..s }, DelayAction::Wait),
        DelayEvent::UpdateDelay(d) => (
            DelayState {
                delay_ms: if d < MIN_DELAY { MIN_DELAY } else if d > MAX_DELAY { MAX_DELAY } else { d },
                ..s
            },
            DelayAction::Wait,
        ),
        DelayEvent::Exit | DelayEvent::Disconnected => (s, DelayAction::Stop),
        DelayEvent::Timeout => if s.waiting_restart {
            (s, DelayAction::Wait)
        } else if s.got_process {
            (DelayState { got_process: false, ..s }, DelayAction::RunRebuilds)
        } else {
            (s, DelayAction::Wait)
        },
    }
}

impl DelayState {
    /// The state at start, with the configured delay.
    pub fn new(configured_ms: u64) -> (r: Self)
        ensures
            r.delay_ms == if configured_ms < MIN_DELAY { MIN_DELAY } else if configured_ms > MAX_DELAY { MAX_DELAY } else { configured_ms },
            !r.got_process,
            !r.waiting_restart,
    {
        DelayState { delay_ms: clamp_delay(configured_ms), got_process: false, waiting_restart: false }
    }

    /// Takes an event and says what to do.
    pub fn on_event(&mut self, e: DelayEvent) -> (r: DelayAction)
        ensures
            (*final(self), r) == delay_step(*old(self), e),
    {
        match e {
            DelayEvent::Restart => {
                if self.waiting_restart {
                    DelayAction::Wait
                } else {
                    self.waiting_restart = true;
                    DelayAction::NotifyRestart
                }
            },
            DelayEvent::Process => {
                self.got_process = true;
                DelayAction::Wait
            },
            DelayEvent::UpdateDelay(d) => {
                self.delay_ms = clamp_delay(d);
                DelayAction::Wait
            },
            DelayEvent::Exit | DelayEvent::Disconnected => DelayAction::Stop,
            DelayEvent::Timeout => {
                if self.waiting_restart {
                    DelayAction::Wait
                } else if self.got_process {
                    self.got_process = false;
                    DelayAction::RunRebuilds
                } else {
                    DelayAction::Wait
                }
            },
        }
    }
}

/// However many changes come in during the delay, one rebuild pass runs when
/// it passes, and a second timeout without news runs none.
pub proof fn lemma_changes_coalesce(s: DelayState)
    requires
        !s.waiting_restart,
    ensures
        ({
            let (s1, a1) = delay_step(s, DelayEvent::Process);
            let (s2, a2) = delay_step(s1, DelayEvent::Process);
            let (s3, a3) = delay_step(s2, DelayEvent::Timeout);
            let (s4, a4) = delay_step(s3, DelayEvent::Timeout);
            a1 == DelayAction::Wait && a2 == DelayAction::Wait && a3 == DelayAction::RunRebuilds
                && a4 == DelayAction::Wait
        }),
{
}

} // verus!
