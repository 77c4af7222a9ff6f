//! The decisions of an exchange worker: when it pings, forwards, backs off, reconnects and exits.
use crate::orderbook::InTick;
use vstd::arithmetic::power2::pow2;
use vstd::prelude::*;

verus! {

/// Maximum time without a useful data frame before the connection is declared stale.
pub const STALE_TIMEOUT_SECS: u64 = 30;

/// Application-level ping interval (must be less than the stale timeout).
pub const PING_INTERVAL_SECS: u64 = 15;

/// Maximum time to wait for a frame.
pub const READ_TIMEOUT_SECS: u64 = 60;

/// Initial backoff between reconnection attempts.
pub const BACKOFF_BASE_SECS: u64 = 1;

/// Maximum backoff cap.
pub const BACKOFF_MAX_SECS: u64 = 60;

/// Nanoseconds in a second.
pub const NANOS_PER_SEC: u128 = 1_000_000_000;

/// What happens to a worker. Points in time are nanoseconds of one clock that never runs backwards.
pub enum WorkerEvent {
    /// The connection was made.
    Connected { now: u128 },
    /// The connection could not be made.
    ConnectFailed,
    /// The ping interval has passed.
    PingDue { now: u128 },
    /// A ping or a pong was sent, or could not be sent.
    Sent { ok: bool },
    /// No frame arrived within the read timeout.
    ReadTimedOut,
    /// The stream has ended.
    StreamEnded,
    /// Reading from the socket failed.
    SocketFailed,
    /// The server pings, with a payload.
    PingFrame(Vec<u8>),
    /// The server answers a ping.
    PongFrame { now: u128 },
    /// The server closes the connection.
    CloseFrame,
    /// A frame that holds a tick.
    Tick { tick: InTick, now: u128 },
    /// A control or status frame, not order book data.
    OtherFrame,
    /// A frame that cannot be parsed.
    BadFrame,
    /// A tick was handed to the aggregator, or the aggregator is gone.
    Forwarded { ok: bool },
    /// The backoff has passed.
    Slept,
}

/// What a worker does next.
pub enum WorkerAction {
    /// Open a connection.
    Connect,
    /// Wait, then drop the connection, if there is one.
    Sleep { secs: u64 },
    /// Wait for a frame or for the next ping.
    Listen,
    /// Send a ping.
    SendPing,
    /// Answer a ping with its payload.
    SendPong(Vec<u8>),
    /// Hand a tick to the aggregator.
    Forward(InTick),
    /// Exit.
    Exit,
}

/// The state of a worker, as contracts see it.
pub struct WorkerView {
    /// The wait before the next reconnection attempt, in seconds.
    pub backoff: u64,
    /// When data was last seen, in nanoseconds.
    pub last_data: u128,
}

/// The backoff that follows another: twice as long, up to the cap.
pub open spec fn next_backoff(secs: u64) -> u64 {
    if 2 * secs <= BACKOFF_MAX_SECS {
        (2 * secs) as u64
    } else {
        BACKOFF_MAX_SECS
    }
}

impl WorkerView {
    /// Whether no data was seen for longer than the stale timeout.
    pub open spec fn stale(self, now: u128) -> bool {
        now - self.last_data > STALE_TIMEOUT_SECS * NANOS_PER_SEC
    }

    /// Whether an event makes the worker back off and reconnect: a connection, socket, send or parse
    /// error, a timeout, a stale connection, the end of the stream, or a close by the server.
    pub open spec fn reconnects(self, event: WorkerEvent) -> bool {
        match event {
            WorkerEvent::ConnectFailed => true,
            WorkerEvent::ReadTimedOut => true,
            WorkerEvent::StreamEnded => true,
            WorkerEvent::SocketFailed => true,
            WorkerEvent::CloseFrame => true,
            WorkerEvent::BadFrame => true,
            WorkerEvent::PingDue { now } => self.stale(now),
            WorkerEvent::Sent { ok } => !ok,
            _ => false,
        }
    }

    /// The state after an event.
    pub open spec fn after(self, event: WorkerEvent) -> WorkerView {
        if self.reconnects(event) {
            WorkerView { backoff: next_backoff(self.backoff), ..self }
        } else {
            match event {
                WorkerEvent::Connected { now } => WorkerView {
                    backoff: BACKOFF_BASE_SECS,
                    last_data: now,
                },
                WorkerEvent::PongFrame { now } => WorkerView { last_data: now, ..self },
                WorkerEvent::Tick { now, .. } => WorkerView { last_data: now, ..self },
                _ => self,
            }
        }
    }

    /// What is done about an event.
    pub open spec fn answer(self, event: WorkerEvent) -> WorkerAction {
        if self.reconnects(event) {
            WorkerAction::Sleep { secs: self.backoff }
        } else {
            match event {
                WorkerEvent::PingDue { .. } => WorkerAction::SendPing,
                WorkerEvent::PingFrame(payload) => WorkerAction::SendPong(payload),
                WorkerEvent::Tick { tick, .. } => WorkerAction::Forward(tick),
                WorkerEvent::Forwarded { ok: false } => WorkerAction::Exit,
                WorkerEvent::Slept => WorkerAction::Connect,
                _ => WorkerAction::Listen,
            }
        }
    }
}

/// A single exchange worker.
///
/// On any connection error, parse error, timeout, or server-initiated close the worker reconnects
/// with exponential backoff. It only exits if the aggregator has shut down.
pub struct Worker {
    backoff: u64,
    last_data: u128,
}

impl View for Worker {
    type V = WorkerView;

    closed spec fn view(&self) -> WorkerView {
        WorkerView { backoff: self.backoff, last_data: self.last_data }
    }
}

impl Worker {
    #[verifier::type_invariant]
    spec fn backoff_within_bounds(self) -> bool {
        BACKOFF_BASE_SECS <= self.backoff <= BACKOFF_MAX_SECS
    }

    /// A worker that has not been connected yet, and what it does first.
    pub fn start() -> (r: (Worker, WorkerAction))
        ensures
            r.0@.backoff == BACKOFF_BASE_SECS,
            r.1 is Connect,
    {
        (Worker { backoff: BACKOFF_BASE_SECS, last_data: 0 }, WorkerAction::Connect)
    }

    /// Whether no data was seen for longer than the stale timeout.
    fn is_stale(&self, now: u128) -> (r: bool)
        ensures
            r == self@.stale(now),
    {
        let timeout: u128 = STALE_TIMEOUT_SECS as u128 * NANOS_PER_SEC;
        now > self.last_data && now - self.last_data > timeout
    }

    /// Lets the backoff pass and makes the next one longer.
    fn back_off(&mut self) -> (action: WorkerAction)
        ensures
            action == (WorkerAction::Sleep { secs: old(self)@.backoff }),
            final(self)@ == (WorkerView { backoff: next_backoff(old(self)@.backoff), ..old(self)@ }),
    {
        proof {
            use_type_invariant(&*self);
        }
        let secs: u64 = self.backoff;
        let doubled: u64 = 2 * secs;
        self.backoff = if doubled <= BACKOFF_MAX_SECS {
            doubled
        } else {
            BACKOFF_MAX_SECS
        };
        WorkerAction::Sleep { secs }
    }

    /// Takes in an event and says what is to be done next.
    pub fn step(&mut self, event: WorkerEvent) -> (action: WorkerAction)
        ensures
            action == old(self)@.answer(event),
            final(self)@ == old(self)@.after(event),
            action matches WorkerAction::Sleep { secs } ==> BACKOFF_BASE_SECS <= secs
                <= BACKOFF_MAX_SECS,
    {
        proof {
            use_type_invariant(&*self);
        }
        match event {
            WorkerEvent::Connected { now } => {
                self.backoff = BACKOFF_BASE_SECS;
                self.last_data = now;
                WorkerAction::Listen
            },
            WorkerEvent::ConnectFailed => self.back_off(),
            WorkerEvent::PingDue { now } => {
                if self.is_stale(now) {
                    self.back_off()
                } else {
                    WorkerAction::SendPing
                }
            },
            WorkerEvent::Sent { ok } => {
                if ok {
                    WorkerAction::Listen
                } else {
                    self.back_off()
                }
            },
            WorkerEvent::ReadTimedOut => self.back_off(),
            WorkerEvent::StreamEnded => self.back_off(),
            WorkerEvent::SocketFailed => self.back_off(),
            WorkerEvent::PingFrame(payload) => WorkerAction::SendPong(payload),
            WorkerEvent::PongFrame { now } => {
                self.last_data = now;
                WorkerAction::Listen
            },
            WorkerEvent::CloseFrame => self.back_off(),
            WorkerEvent::Tick { tick, now } => {
                self.last_data = now;
                WorkerAction::Forward(tick)
            },
            WorkerEvent::OtherFrame => WorkerAction::Listen,
            WorkerEvent::BadFrame => self.back_off(),
            WorkerEvent::Forwarded { ok } => {
                if ok {
                    WorkerAction::Listen
                } else {
                    WorkerAction::Exit
                }
            },
            WorkerEvent::Slept => WorkerAction::Connect,
        }
    }
}

/// The state of a worker after a run of events.
pub open spec fn after_all(w: WorkerView, events: Seq<WorkerEvent>) -> WorkerView
    decreases events.len(),
{
    if events.len() == 0 {
        w
    } else {
        after_all(w, events.drop_last()).after(events.last())
    }
}

/// How many of a run of events make the worker back off.
pub open spec fn retries(w: WorkerView, events: Seq<WorkerEvent>) -> nat
    decreases events.len(),
{
    if events.len() == 0 {
        0
    } else {
        let before = after_all(w, events.drop_last());
        retries(w, events.drop_last()) + if before.reconnects(events.last()) {
            1nat
        } else {
            0nat
        }
    }
}

/// Whether a run of events holds no successful connection.
pub open spec fn never_connected(events: Seq<WorkerEvent>) -> bool {
    forall|i: int| 0 <= i < events.len() ==> !((#[trigger] events[i]) is Connected)
}

/// The backoff grows by doubling up to the cap: from the initial backoff on, as long as no connection
/// is made, the wait after `n` retries is `2^n` seconds, but no more than the cap.
pub proof fn law_backoff_doubles_to_the_cap(w: WorkerView, events: Seq<WorkerEvent>)
    requires
        w.backoff == BACKOFF_BASE_SECS,
        never_connected(events),
    ensures
        after_all(w, events).backoff == if pow2(retries(w, events)) <= BACKOFF_MAX_SECS {
            pow2(retries(w, events)) as int
        } else {
            BACKOFF_MAX_SECS as int
        },
    decreases events.len(),
{
    vstd::arithmetic::power2::lemma2_to64();
    if events.len() > 0 {
        let front = events.drop_last();
        assert forall|i: int| 0 <= i < front.len() implies !((#[trigger] front[i]) is Connected) by {
            assert(front[i] == events[i]);
        }
        law_backoff_doubles_to_the_cap(w, front);
        vstd::arithmetic::power2::lemma_pow2_unfold(retries(w, front) + 1);
        assert(!(events[events.len() - 1] is Connected));
    }
}

/// A successful connection resets the backoff: whatever came before, the first retry after it waits
/// for the initial backoff.
pub proof fn law_connecting_resets_the_backoff(w: WorkerView, now: u128, failure: WorkerEvent)
    requires
        w.after(WorkerEvent::Connected { now }).reconnects(failure),
    ensures
        w.after(WorkerEvent::Connected { now }).answer(failure) == (WorkerAction::Sleep {
            secs: BACKOFF_BASE_SECS,
        }),
{
}

/// A worker exits only when the aggregator is gone, and then always.
pub proof fn law_exits_only_without_aggregator(w: WorkerView, event: WorkerEvent)
    ensures
        w.answer(event) is Exit <==> event == (WorkerEvent::Forwarded { ok: false }),
{
}

/// A retry is a wait that is followed by a new connection attempt.
pub proof fn law_every_retry_connects_again(w: WorkerView, failure: WorkerEvent)
    requires
        w.reconnects(failure),
    ensures
        w.answer(failure) == (WorkerAction::Sleep { secs: w.backoff }),
        w.after(failure).answer(WorkerEvent::Slept) is Connect,
{
}

/// When a ping is due, a connection on which data was seen within the stale timeout is pinged, and
/// any other is dropped.
pub proof fn law_stale_connections_are_dropped(w: WorkerView, seen: u128, now: u128)
    requires
        w.last_data == seen,
    ensures
        now - seen <= 30_000_000_000 <==> w.answer(WorkerEvent::PingDue { now }) is SendPing,
        now - seen > 30_000_000_000 <==> w.answer(WorkerEvent::PingDue { now }) is Sleep,
{
}

/// Every frame that holds a tick is answered by handing on exactly that tick, in every state and
/// whatever levels the tick holds, and it counts as data.
pub proof fn law_every_tick_is_forwarded(w: WorkerView, tick: InTick, now: u128)
    ensures
        w.answer(WorkerEvent::Tick { tick, now }) == WorkerAction::Forward(tick),
        w.after(WorkerEvent::Tick { tick, now }).last_data == now,
        w.after(WorkerEvent::Tick { tick, now }).backoff == w.backoff,
{
}

/// Nothing is handed on that no frame held: a tick is forwarded only in answer to a frame with it.
pub proof fn law_only_ticks_are_forwarded(w: WorkerView, event: WorkerEvent, tick: InTick)
    requires
        w.answer(event) == WorkerAction::Forward(tick),
    ensures
        event matches WorkerEvent::Tick { tick: held, .. } && held == tick,
{
}

/// Every ping of the server is answered with its own payload, whatever it is, and nothing else is.
pub proof fn law_pings_are_answered(w: WorkerView, payload: Vec<u8>, event: WorkerEvent)
    ensures
        w.answer(WorkerEvent::PingFrame(payload)) == WorkerAction::SendPong(payload),
        w.after(WorkerEvent::PingFrame(payload)) == w,
        w.answer(event) == WorkerAction::SendPong(payload) ==> event == WorkerEvent::PingFrame(
            payload,
        ),
{
}

/// A worker fails on a connection that is not made, a read that takes too long, the end of the
/// stream, a broken socket, a close by the server, a frame that cannot be parsed and a frame that
/// cannot be sent, in every state: it waits for its backoff, which then doubles up to a minute, and
/// when data was last seen stays as it is.
pub proof fn law_failures_back_off(w: WorkerView, event: WorkerEvent)
    requires
        event == WorkerEvent::ConnectFailed || event == WorkerEvent::ReadTimedOut || event
            == WorkerEvent::StreamEnded || event == WorkerEvent::SocketFailed || event
            == WorkerEvent::CloseFrame || event == WorkerEvent::BadFrame || event == (
        WorkerEvent::Sent { ok: false }),
    ensures
        w.answer(event) == (WorkerAction::Sleep { secs: w.backoff }),
        w.backoff <= 30 ==> w.after(event).backoff == 2 * w.backoff,
        w.backoff > 30 ==> w.after(event).backoff == 60,
        w.after(event).last_data == w.last_data,
{
}

/// When a ping is due and data was seen no longer than thirty seconds ago, a ping is sent and the
/// state stays as it is; where it was longer ago, the worker backs off as after a failure.
pub proof fn law_pings_keep_a_connection(w: WorkerView, now: u128)
    ensures
        now - w.last_data <= 30_000_000_000 ==> w.answer(WorkerEvent::PingDue { now })
            == WorkerAction::SendPing && w.after(WorkerEvent::PingDue { now }) == w,
        now - w.last_data > 30_000_000_000 ==> w.answer(WorkerEvent::PingDue { now }) == (
        WorkerAction::Sleep { secs: w.backoff }) && w.after(WorkerEvent::PingDue { now }) == w.after(
            WorkerEvent::StreamEnded,
        ),
{
}

/// A connection that was made starts with a backoff of one second and is listened to; so is one on
/// which a frame was sent, a tick was handed on, a pong came, or a frame came that is no order book
/// data. Only the new connection and the pong count as data.
pub proof fn law_quiet_events_are_listened_through(w: WorkerView, now: u128)
    ensures
        w.answer(WorkerEvent::Connected { now }) == WorkerAction::Listen,
        w.after(WorkerEvent::Connected { now }).backoff == 1,
        w.after(WorkerEvent::Connected { now }).last_data == now,
        w.answer(WorkerEvent::Sent { ok: true }) == WorkerAction::Listen,
        w.after(WorkerEvent::Sent { ok: true }) == w,
        w.answer(WorkerEvent::Forwarded { ok: true }) == WorkerAction::Listen,
        w.after(WorkerEvent::Forwarded { ok: true }) == w,
        w.answer(WorkerEvent::PongFrame { now }) == WorkerAction::Listen,
        w.after(WorkerEvent::PongFrame { now }).backoff == w.backoff,
        w.after(WorkerEvent::PongFrame { now }).last_data == now,
        w.answer(WorkerEvent::OtherFrame) == WorkerAction::Listen,
        w.after(WorkerEvent::OtherFrame) == w,
{
}

/// A wait is followed by a connection attempt, and only a wait is.
pub proof fn law_connects_after_a_wait(w: WorkerView, event: WorkerEvent)
    ensures
        w.answer(event) == WorkerAction::Connect <==> event == WorkerEvent::Slept,
        w.after(WorkerEvent::Slept) == w,
        w.after(WorkerEvent::Forwarded { ok: false }) == w,
{
}

} // verus!
