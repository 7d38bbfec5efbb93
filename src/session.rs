//! Session bookkeeping and the batching stage: the decisions of the capture
//! pipeline, apart from the processes, timers and channels that carry it out.
use vstd::prelude::*;
use crate::parser::LogEntry;

verus! {

/// Capacity of the channel between a session's reader and its batcher.
pub const CHANNEL_CAPACITY: usize = 1000;

/// How long the batcher waits for one event before it looks at its batch.
pub const POLL_TIMEOUT_MS: u64 = 50;

/// A batch of this many events is handed on at once.
pub const BATCH_LIMIT: usize = 50;

/// A batch older than this is handed on with the next event.
pub const FLUSH_INTERVAL_MS: u64 = 100;

/// Interval of the process directory refresh.
pub const REFRESH_INTERVAL_SECS: u64 = 5;

/// Why an operation on the capture pipeline failed.
#[derive(Debug, Clone, Copy, PartialEq, Eq, Structural)]
pub enum LogcatError {
    ToolUnavailable,
    DeviceCommandFailed,
    AlreadyRunning,
    SpawnFailed,
    BufferClearFailed,
    SinkDeliveryFailed,
}

pub open spec fn error_text(e: LogcatError) -> Seq<char> {
    match e {
        LogcatError::ToolUnavailable => "capture tool unavailable"@,
        LogcatError::DeviceCommandFailed => "device command failed"@,
        LogcatError::AlreadyRunning => "capture already running for this device"@,
        LogcatError::SpawnFailed => "failed to start the capture process"@,
        LogcatError::BufferClearFailed => "failed to clear the log buffer"@,
        LogcatError::SinkDeliveryFailed => "failed to deliver a batch"@,
    }
}

impl LogcatError {
    /// A short description of the failure.
    pub fn describe(&self) -> (r: String)
        ensures
            r@ == error_text(*self),
            r@.len() > 0,
    {
        let text = match self {
            LogcatError::ToolUnavailable => "capture tool unavailable",
            LogcatError::DeviceCommandFailed => "device command failed",
            LogcatError::AlreadyRunning => "capture already running for this device",
            LogcatError::SpawnFailed => "failed to start the capture process",
            LogcatError::BufferClearFailed => "failed to clear the log buffer",
            LogcatError::SinkDeliveryFailed => "failed to deliver a batch",
        };
        proof {
            reveal_strlit("capture tool unavailable");
            reveal_strlit("device command failed");
            reveal_strlit("capture already running for this device");
            reveal_strlit("failed to start the capture process");
            reveal_strlit("failed to clear the log buffer");
            reveal_strlit("failed to deliver a batch");
        }
        String::from_str(text)
    }
}

/// The registry of active sessions, one per device id, each with the handle
/// of its capture process.
pub struct SessionRegistry<H> {
    entries: Vec<(String, H)>,
}

impl<H> SessionRegistry<H> {
    /// The device ids of the active sessions, in order of registration.
    pub closed spec fn ids(&self) -> Seq<Seq<char>> {
        self.entries@.map_values(|e: (String, H)| e.0@)
    }

    /// The handles, in the same order.
    pub closed spec fn handles(&self) -> Seq<H> {
        self.entries@.map_values(|e: (String, H)| e.1)
    }

    /// At most one session per device id.
    #[verifier::type_invariant]
    spec fn one_per_device(&self) -> bool {
        self.ids().no_duplicates()
    }

    pub fn new() -> (r: SessionRegistry<H>)
        ensures
            r.ids().len() == 0,
    {
        let r = SessionRegistry { entries: Vec::new() };
        assert(r.ids() =~= Seq::<Seq<char>>::empty());
        r
    }

    fn position(&self, device_id: &str) -> (r: Option<usize>)
        ensures
            r is None ==> !self.ids().contains(device_id@),
            r is Some ==> r->0 < self.ids().len() && self.ids()[r->0 as int] == device_id@,
    {
        let wanted = String::from_str(device_id);
        let mut k: usize = 0;
        while k < self.entries.len()
            invariant
                k <= self.entries@.len(),
                wanted@ == device_id@,
                forall|q: int| 0 <= q < k ==> self.ids()[q] != device_id@,
            decreases self.entries@.len() - k,
        {
            assert(self.ids()[k as int] == self.entries@[k as int].0@);
            if self.entries[k].0 == wanted {
                return Some(k);
            }
            k = k + 1;
        }
        None
    }

    /// Whether a session for `device_id` is registered.
    pub fn is_active(&self, device_id: &str) -> (r: bool)
        ensures
            r == self.ids().contains(device_id@),
    {
        self.position(device_id).is_some()
    }

    /// Refuses a start for a device that already has a session.
    pub fn check_start(&self, device_id: &str) -> (r: Result<(), LogcatError>)
        ensures
            r is Err <==> self.ids().contains(device_id@),
            r is Err ==> r->Err_0 == LogcatError::AlreadyRunning,
    {
        if self.is_active(device_id) {
            Err(LogcatError::AlreadyRunning)
        } else {
            Ok(())
        }
    }

    /// Registers a session. Where the device already has one, nothing changes
    /// and the handle comes back.
    pub fn register(&mut self, device_id: String, handle: H) -> (r: Option<H>)
        ensures
            r is Some <==> old(self).ids().contains(device_id@),
            r is Some ==> r->0 == handle && final(self).ids() == old(self).ids() && final(self).handles() == old(self).handles(),
            r is None ==> final(self).ids() == old(self).ids().push(device_id@) && final(self).handles() == old(self).handles().push(handle),
    {
        proof {
            use_type_invariant(&*self);
        }
        if self.is_active(device_id.as_str()) {
            return Some(handle);
        }
        let ghost id = device_id@;
        let mut entries = Vec::new();
        std::mem::swap(&mut entries, &mut self.entries);
        let ghost before = entries@;
        entries.push((device_id, handle));
        assert(entries@.map_values(|e: (String, H)| e.0@) =~= before.map_values(
            |e: (String, H)| e.0@,
        ).push(id));
        assert(entries@.map_values(|e: (String, H)| e.1) =~= before.map_values(
            |e: (String, H)| e.1,
        ).push(handle));
        *self = SessionRegistry { entries };
        None
    }

    /// Ends the session of `device_id` and hands back its handle. Stopping a
    /// device without a session changes nothing.
    pub fn stop(&mut self, device_id: &str) -> (r: Option<H>)
        ensures
            r is Some <==> old(self).ids().contains(device_id@),
            r is None ==> final(self).ids() == old(self).ids() && final(self).handles() == old(self).handles(),
            r is Some ==> exists|i: int|
                0 <= i < old(self).ids().len() && old(self).ids()[i] == device_id@ && r->0 == old(self).handles()[i] && final(self).ids() == old(self).ids().remove(i) && final(self).handles() == old(self).handles().remove(i),
            !final(self).ids().contains(device_id@),
    {
        proof {
            use_type_invariant(&*self);
        }
        match self.position(device_id) {
            None => None,
            Some(i) => {
                let mut entries = Vec::new();
                std::mem::swap(&mut entries, &mut self.entries);
                let ghost before = entries@;
                let (_, handle) = entries.remove(i);
                assert(entries@.map_values(|e: (String, H)| e.0@) =~= before.map_values(
                    |e: (String, H)| e.0@,
                ).remove(i as int));
                assert(entries@.map_values(|e: (String, H)| e.1) =~= before.map_values(
                    |e: (String, H)| e.1,
                ).remove(i as int));
                proof {
                    let ids = before.map_values(|e: (String, H)| e.0@);
                    assert forall|q: int| 0 <= q < ids.remove(i as int).len() implies ids.remove(
                        i as int,
                    )[q] != device_id@ by {
                        if q < i {
                            assert(ids.remove(i as int)[q] == ids[q]);
                        } else {
                            assert(ids.remove(i as int)[q] == ids[q + 1]);
                        }
                    }
                    assert forall|a: int, b: int|
                        0 <= a < ids.remove(i as int).len() && 0 <= b < ids.remove(
                            i as int,
                        ).len() && a != b implies ids.remove(i as int)[a] != ids.remove(
                        i as int,
                    )[b] by {
                        let a2 = if a < i {
                            a
                        } else {
                            a + 1
                        };
                        let b2 = if b < i {
                            b
                        } else {
                            b + 1
                        };
                        assert(ids.remove(i as int)[a] == ids[a2]);
                        assert(ids.remove(i as int)[b] == ids[b2]);
                    }
                }
                *self = SessionRegistry { entries };
                Some(handle)
            },
        }
    }

    /// Ends every session, handing back their ids and handles in order.
    pub fn stop_all(&mut self) -> (r: Vec<(String, H)>)
        ensures
            final(self).ids().len() == 0,
            r@.map_values(|e: (String, H)| e.0@) == old(self).ids(),
            r@.map_values(|e: (String, H)| e.1) == old(self).handles(),
    {
        let mut entries = Vec::new();
        std::mem::swap(&mut entries, &mut self.entries);
        let r = SessionRegistry { entries: Vec::new() };
        assert(r.ids() =~= Seq::<Seq<char>>::empty());
        *self = r;
        entries
    }

    /// The device ids of the active sessions.
    pub fn list_active(&self) -> (r: Vec<String>)
        ensures
            r@.map_values(|s: String| s@) == self.ids(),
            self.ids().no_duplicates(),
    {
        proof {
            use_type_invariant(self);
        }
        let mut r: Vec<String> = Vec::new();
        let mut k: usize = 0;
        while k < self.entries.len()
            invariant
                k <= self.entries@.len(),
                r@.map_values(|s: String| s@) == self.ids().subrange(0, k as int),
            decreases self.entries@.len() - k,
        {
            let ghost before = r@;
            r.push(self.entries[k].0.clone());
            assert(r@.map_values(|s: String| s@) =~= before.map_values(|s: String| s@).push(
                self.ids()[k as int],
            ));
            assert(self.ids().subrange(0, k + 1) =~= self.ids().subrange(0, k as int).push(
                self.ids()[k as int],
            ));
            k = k + 1;
        }
        assert(self.ids().subrange(0, k as int) =~= self.ids());
        r
    }
}

/// Milliseconds from `since` to `now`, or 0 where the clock went back.
pub open spec fn elapsed_ms(since: u64, now: u64) -> u64 {
    if now >= since {
        (now - since) as u64
    } else {
        0
    }
}

/// `t` is `e` with its device id set to `device_id`.
pub open spec fn tagged_as(t: LogEntry, e: LogEntry, device_id: Seq<char>) -> bool {
    &&& t.device_id is Some
    &&& t.device_id->0@ == device_id
    &&& t == LogEntry { device_id: t.device_id, ..e }
}

/// Collects the events of one session into batches. A batch is handed on
/// when it reaches the size limit, when an event comes in after the flush
/// interval, when a poll times out with events waiting, and when the channel
/// closes. Events keep their order.
pub struct Batcher {
    device_id: String,
    pending: Vec<LogEntry>,
    last_flush_ms: u64,
    /// Every event taken in so far, as kept (with its device id).
    received: Ghost<Seq<LogEntry>>,
    /// Every event handed on so far, batch after batch.
    delivered: Ghost<Seq<LogEntry>>,
}

impl Batcher {
    pub closed spec fn spec_device_id(&self) -> Seq<char> {
        self.device_id@
    }

    /// The events that wait for the next flush, in order of arrival.
    pub closed spec fn spec_pending(&self) -> Seq<LogEntry> {
        self.pending@
    }

    pub closed spec fn spec_last_flush(&self) -> u64 {
        self.last_flush_ms
    }

    /// The events taken in since the batcher was made, in order of arrival.
    pub closed spec fn spec_received(&self) -> Seq<LogEntry> {
        self.received@
    }

    /// The events handed on since the batcher was made: the batches, one
    /// after the other.
    pub closed spec fn spec_delivered(&self) -> Seq<LogEntry> {
        self.delivered@
    }

    /// A waiting batch is always below the size limit, and what was handed
    /// on followed by what waits is exactly what came in.
    #[verifier::type_invariant]
    spec fn below_limit(&self) -> bool {
        &&& self.pending@.len() < BATCH_LIMIT
        &&& self.delivered@ + self.pending@ == self.received@
    }

    pub fn new(device_id: String, now_ms: u64) -> (r: Batcher)
        ensures
            r.spec_device_id() == device_id@,
            r.spec_pending().len() == 0,
            r.spec_last_flush() == now_ms,
            r.spec_received().len() == 0,
            r.spec_delivered().len() == 0,
    {
        let r = Batcher {
            device_id,
            pending: Vec::new(),
            last_flush_ms: now_ms,
            received: Ghost(Seq::empty()),
            delivered: Ghost(Seq::empty()),
        };
        assert(r.delivered@ + r.pending@ =~= r.received@);
        r
    }

    /// Moves the whole state out, leaving an empty batcher behind.
    fn take_state(&mut self) -> (r: Batcher)
        ensures
            r == *old(self),
    {
        let mut r = Batcher {
            device_id: String::new(),
            pending: Vec::new(),
            last_flush_ms: 0,
            received: Ghost(Seq::empty()),
            delivered: Ghost(Seq::empty()),
        };
        assert(r.delivered@ + r.pending@ =~= r.received@);
        std::mem::swap(&mut r, self);
        r
    }

    pub fn pending_len(&self) -> (r: usize)
        ensures
            r == self.spec_pending().len(),
    {
        self.pending.len()
    }

    /// Takes in one event received at `now_ms`. The batch, with the event at
    /// its end, comes back when it has reached the size limit or when more
    /// than the flush interval has passed since the last flush.
    pub fn on_event(&mut self, entry: LogEntry, now_ms: u64) -> (r: Option<Vec<LogEntry>>)
        ensures
            final(self).spec_device_id() == old(self).spec_device_id(),
            final(self).spec_delivered() + final(self).spec_pending() == final(self).spec_received(),
            exists|t: LogEntry|
                {
                    &&& tagged_as(t, entry, old(self).spec_device_id())
                    &&& final(self).spec_received() == old(self).spec_received().push(t)
                    &&& if old(self).spec_pending().len() + 1 >= BATCH_LIMIT || elapsed_ms(
                        old(self).spec_last_flush(),
                        now_ms,
                    ) > FLUSH_INTERVAL_MS {
                        &&& r is Some
                        &&& r->0@ == old(self).spec_pending().push(t)
                        &&& final(self).spec_pending().len() == 0
                        &&& final(self).spec_last_flush() == now_ms
                        &&& final(self).spec_delivered() == old(self).spec_delivered() + r->0@
                    } else {
                        &&& r is None
                        &&& final(self).spec_pending() == old(self).spec_pending().push(t)
                        &&& final(self).spec_last_flush() == old(self).spec_last_flush()
                        &&& final(self).spec_delivered() == old(self).spec_delivered()
                    }
                },
    {
        let state = self.take_state();
        proof {
            use_type_invariant(&state);
        }
        let Batcher { device_id, pending, last_flush_ms, received: old_received, delivered: old_delivered } = state;
        let mut pending = pending;
        let mut e = entry;
        e.device_id = Some(device_id.clone());
        let ghost t = e;
        let ghost before = pending@;
        pending.push(e);
        assert(pending@ == before.push(t));
        assert(before == old(self).spec_pending());
        let elapsed: u64 = if now_ms >= last_flush_ms {
            now_ms - last_flush_ms
        } else {
            0
        };
        let ghost received = old(self).spec_received().push(t);
        if pending.len() >= BATCH_LIMIT || elapsed > FLUSH_INTERVAL_MS {
            let ghost delivered = old(self).spec_delivered() + pending@;
            assert(delivered + Seq::<LogEntry>::empty() =~= received);
            *self = Batcher {
                device_id,
                pending: Vec::new(),
                last_flush_ms: now_ms,
                received: Ghost(received),
                delivered: Ghost(delivered),
            };
            assert(tagged_as(t, entry, old(self).spec_device_id()));
            assert(elapsed == elapsed_ms(old(self).spec_last_flush(), now_ms));
            assert(final(self).spec_pending().len() == 0);
            Some(pending)
        } else {
            assert(old(self).spec_delivered() + pending@ =~= received);
            *self = Batcher {
                device_id,
                pending,
                last_flush_ms,
                received: Ghost(received),
                delivered: old_delivered,
            };
            assert(tagged_as(t, entry, old(self).spec_device_id()));
            None
        }
    }

    /// A poll timed out at `now_ms`: waiting events, if any, are handed on.
    pub fn on_timeout(&mut self, now_ms: u64) -> (r: Option<Vec<LogEntry>>)
        ensures
            final(self).spec_device_id() == old(self).spec_device_id(),
            final(self).spec_pending().len() == 0,
            old(self).spec_pending().len() > 0 ==> r is Some && r->0@ == old(self).spec_pending()
                && final(self).spec_last_flush() == now_ms,
            old(self).spec_pending().len() == 0 ==> r is None && final(self).spec_last_flush()
                == old(self).spec_last_flush(),
            final(self).spec_received() == old(self).spec_received(),
            final(self).spec_delivered() == old(self).spec_delivered() + old(self).spec_pending(),
            final(self).spec_delivered() == final(self).spec_received(),
    {
        proof {
            use_type_invariant(&*self);
        }
        if self.pending.len() == 0 {
            assert(self.delivered@ + self.pending@ =~= self.delivered@);
            return None;
        }
        let state = self.take_state();
        let Batcher { device_id, pending, last_flush_ms: _, received, delivered: old_delivered } = state;
        let ghost delivered = old_delivered@ + pending@;
        assert(delivered + Seq::<LogEntry>::empty() =~= received@);
        *self = Batcher {
            device_id,
            pending: Vec::new(),
            last_flush_ms: now_ms,
            received,
            delivered: Ghost(delivered),
        };
        Some(pending)
    }

    /// The channel closed: waiting events, if any, are handed on once.
    pub fn on_closed(&mut self) -> (r: Option<Vec<LogEntry>>)
        ensures
            final(self).spec_device_id() == old(self).spec_device_id(),
            final(self).spec_pending().len() == 0,
            old(self).spec_pending().len() > 0 ==> r is Some && r->0@ == old(self).spec_pending(),
            old(self).spec_pending().len() == 0 ==> r is None,
            final(self).spec_received() == old(self).spec_received(),
            final(self).spec_delivered() == old(self).spec_delivered() + old(self).spec_pending(),
            final(self).spec_delivered() == final(self).spec_received(),
    {
        proof {
            use_type_invariant(&*self);
        }
        if self.pending.len() == 0 {
            assert(self.delivered@ + self.pending@ =~= self.delivered@);
            return None;
        }
        let state = self.take_state();
        let Batcher { device_id, pending, last_flush_ms, received, delivered: old_delivered } = state;
        let ghost delivered = old_delivered@ + pending@;
        assert(delivered + Seq::<LogEntry>::empty() =~= received@);
        *self = Batcher {
            device_id,
            pending: Vec::new(),
            last_flush_ms: last_flush_ms,
            received,
            delivered: Ghost(delivered),
        };
        Some(pending)
    }
}

/// The steps of starting a session. Each step is performed by the caller,
/// who reports whether it succeeded; the session is registered last, so a
/// start that aborts leaves nothing registered.
#[derive(Debug, Clone, Copy, PartialEq, Eq, Structural)]
pub enum SetupStep {
    /// Refuse a device that already has a session.
    CheckRegistry,
    /// Fill the process directory once and start its refresh. A failed
    /// listing leaves the directory empty and is no reason to stop.
    LoadProcesses,
    /// Clear the device's earlier log history.
    ClearBuffer,
    /// Start the capture process and its reader.
    SpawnCapture,
    /// Record the session in the registry.
    Register,
    Running,
    Aborted(LogcatError),
}

pub open spec fn setup_after(step: SetupStep, ok: bool) -> SetupStep {
    match step {
        SetupStep::CheckRegistry => if ok {
            SetupStep::LoadProcesses
        } else {
            SetupStep::Aborted(LogcatError::AlreadyRunning)
        },
        SetupStep::LoadProcesses => SetupStep::ClearBuffer,
        SetupStep::ClearBuffer => if ok {
            SetupStep::SpawnCapture
        } else {
            SetupStep::Aborted(LogcatError::BufferClearFailed)
        },
        SetupStep::SpawnCapture => if ok {
            SetupStep::Register
        } else {
            SetupStep::Aborted(LogcatError::SpawnFailed)
        },
        SetupStep::Register => if ok {
            SetupStep::Running
        } else {
            SetupStep::Aborted(LogcatError::AlreadyRunning)
        },
        SetupStep::Running => SetupStep::Running,
        SetupStep::Aborted(e) => SetupStep::Aborted(e),
    }
}

/// The order of the steps, from 0 for the first; `Running` and `Aborted` end
/// the sequence.
pub open spec fn setup_rank(step: SetupStep) -> nat {
    match step {
        SetupStep::CheckRegistry => 0,
        SetupStep::LoadProcesses => 1,
        SetupStep::ClearBuffer => 2,
        SetupStep::SpawnCapture => 3,
        SetupStep::Register => 4,
        SetupStep::Running => 5,
        SetupStep::Aborted(_) => 5,
    }
}

impl SetupStep {
    pub fn first() -> (r: SetupStep)
        ensures
            r == SetupStep::CheckRegistry,
    {
        SetupStep::CheckRegistry
    }

    /// Whether the start is over, one way or the other.
    pub fn is_final(&self) -> (r: bool)
        ensures
            r == (setup_rank(*self) == 5),
    {
        match self {
            SetupStep::Running | SetupStep::Aborted(_) => true,
            _ => false,
        }
    }

    /// The step that follows this one, given whether it succeeded.
    pub fn next(&self, ok: bool) -> (r: SetupStep)
        ensures
            r == setup_after(*self, ok),
            setup_rank(*self) < 5 ==> setup_rank(r) > setup_rank(*self),
    {
        match self {
            SetupStep::CheckRegistry => if ok {
                SetupStep::LoadProcesses
            } else {
                SetupStep::Aborted(LogcatError::AlreadyRunning)
            },
            SetupStep::LoadProcesses => SetupStep::ClearBuffer,
            SetupStep::ClearBuffer => if ok {
                SetupStep::SpawnCapture
            } else {
                SetupStep::Aborted(LogcatError::BufferClearFailed)
            },
            SetupStep::SpawnCapture => if ok {
                SetupStep::Register
            } else {
                SetupStep::Aborted(LogcatError::SpawnFailed)
            },
            SetupStep::Register => if ok {
                SetupStep::Running
            } else {
                SetupStep::Aborted(LogcatError::AlreadyRunning)
            },
            SetupStep::Running => SetupStep::Running,
            SetupStep::Aborted(e) => SetupStep::Aborted(*e),
        }
    }
}

/// A start reaches `Running` only when every step that can fail succeeded,
/// in order; any failure ends it with that step's error.
pub proof fn lemma_setup_runs_only_after_every_step(c: bool, l: bool, b: bool, s: bool, r: bool)
    ensures
        ({
            let end = setup_after(
                setup_after(
                    setup_after(setup_after(setup_after(SetupStep::CheckRegistry, c), l), b),
                    s,
                ),
                r,
            );
            &&& (end == SetupStep::Running) == (c && b && s && r)
            &&& !c ==> end == SetupStep::Aborted(LogcatError::AlreadyRunning)
            &&& c && !b ==> end == SetupStep::Aborted(LogcatError::BufferClearFailed)
            &&& c && b && !s ==> end == SetupStep::Aborted(LogcatError::SpawnFailed)
        }),
{
}

} // verus!
