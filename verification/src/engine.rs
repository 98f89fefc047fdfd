//! What an application gives stadhouder, and what it is told: the contract
//! between the service and the state engine that it runs.
use crate::json::{Json, JsonModel};
use crate::seqs;
use crate::text;
use vstd::prelude::*;

verus! {

/// A client connection that has appeared.
pub struct NewConnection {
    pub connection_id: String,
    /// Meaningful to the engine alone.
    pub user_id: String,
}

/// A message that has arrived from a connection.
pub struct InboundMessage {
    pub connection_id: String,
    pub message: Json,
}

/// Why a connection was closed.
#[derive(Clone, Copy, Debug, PartialEq, Eq, Structural)]
pub enum CloseReason {
    /// The client disconnected: its profile is gone.
    ClientDisconnected,
    /// The service disconnected it, for it had been silent too long.
    ServerIdleTimeout,
    /// The engine ordered the close, in an earlier call.
    EngineRequested,
}

/// The word for a reason.
pub open spec fn reason_word(reason: CloseReason) -> Seq<char> {
    match reason {
        CloseReason::ClientDisconnected => "client_disconnected"@,
        CloseReason::ServerIdleTimeout => "server_idle_timeout"@,
        CloseReason::EngineRequested => "engine_requested"@,
    }
}

impl CloseReason {
    /// The word for the reason.
    pub fn as_str(&self) -> (r: &'static str)
        ensures
            r@ == reason_word(*self),
    {
        match self {
            CloseReason::ClientDisconnected => "client_disconnected",
            CloseReason::ServerIdleTimeout => "server_idle_timeout",
            CloseReason::EngineRequested => "engine_requested",
        }
    }
}

/// A connection that was closed, and why.
pub struct ClosedConnection {
    pub connection_id: String,
    pub reason: CloseReason,
}

/// A timer that has expired.
pub struct ExpiredTimer {
    pub timer_id: String,
    /// The engine time it was set for, in milliseconds.
    pub expiry_ms: i64,
    /// What the engine gave when it set the timer.
    pub payload: Json,
}

/// A message to be delivered to one connection.
pub struct OutboundMessage {
    pub connection_id: String,
    pub message: Json,
}

/// A timer to be set.
pub struct TimerRequest {
    /// A name of the engine's own choosing.
    pub timer_id: String,
    /// The engine time to fire at, in milliseconds.
    pub expiry_ms: i64,
    /// Handed back untouched when the timer fires.
    pub payload: Json,
}

/// Everything the engine wants done after a batch.
pub struct EngineOutput {
    /// Connections to be closed. Messages queued for them in the same batch
    /// are still delivered with the close.
    pub close_connections: Vec<String>,
    /// Messages to be sent.
    pub messages: Vec<OutboundMessage>,
    /// Timers to be set.
    pub timers: Vec<TimerRequest>,
    /// Timers to be cancelled. This comes before the same batch's new timers
    /// are set; a name that no timer has is ignored.
    pub cancel_timers: Vec<String>,
    /// Whether the run is to end.
    pub shutdown: bool,
}

/// The application's side: its state, and what it does with what happens.
/// Calls come strictly one at a time.
pub trait StadhouderStateEngine: Sized {
    /// Whether an engine, told of a batch, may go from one state to another and
    /// want that output. Each engine says what this is for itself; one that does
    /// not may do anything.
    open spec fn answers(
        before: Self,
        after: Self,
        memory_pct: JsonModel,
        batch: BatchModel,
        output: OutputModel,
    ) -> bool {
        true
    }

    /// Called once, by the instance that becomes the live one, before
    /// anything else. An engine that has no such method of its own does nothing.
    fn init(&mut self, timestamp_ms: i64)
        default_ensures
            *final(self) == *old(self),
    {
    }

    /// Called with everything that has happened since the last call: the
    /// engine time, the service's memory use as a percentage of its limit (a
    /// JSON number), connections that appeared, connections that were closed,
    /// messages that arrived and timers that expired.
    fn process_messages(
        &mut self,
        timestamp_ms: i64,
        memory_pct: &Json,
        new_connections: &[NewConnection],
        closed_connections: &[ClosedConnection],
        messages: &[InboundMessage],
        expired_timers: &[ExpiredTimer],
    ) -> (output: EngineOutput)
        ensures
            Self::answers(
                *old(self),
                *final(self),
                memory_pct@,
                BatchModel {
                    now_ms: timestamp_ms as int,
                    new_connections: seqs::views(new_connections@),
                    closed_connections: seqs::views(closed_connections@),
                    messages: seqs::views(messages@),
                    expired_timers: seqs::views(expired_timers@),
                },
                output@,
            ),
    ;

    /// Called once, before the service ends for want of connections; not
    /// where the engine itself ordered the end. An engine that has no such
    /// method of its own does nothing.
    fn shutdown(&mut self, timestamp_ms: i64)
        default_ensures
            *final(self) == *old(self),
    {
    }
}

/// Tells an engine the time through one of its methods. That the method was
/// called with this engine and this time, and has led from the one state of the
/// engine to the other, is what [`call_ensures`] says of a method that nothing
/// else is known of.
pub(crate) fn tell<E: StadhouderStateEngine, F: FnOnce(&mut E, i64)>(
    method: F,
    engine: &mut E,
    timestamp_ms: i64,
)
    requires
        forall|told: &mut E| call_requires(method, (told, timestamp_ms)),
    ensures
        exists|told: &mut E|
            *told == *old(engine) && *final(told) == *final(engine) && #[trigger] call_ensures(
                method,
                (told, timestamp_ms),
                (),
            ),
{
    method(engine, timestamp_ms)
}

/// What a message to or from a connection says.
#[verifier::ext_equal]
pub struct MessageModel {
    pub connection_id: Seq<char>,
    pub message: JsonModel,
}

/// What a timer is: its name, when it fires and what it hands back.
#[verifier::ext_equal]
pub struct TimerModel {
    pub timer_id: Seq<char>,
    pub expiry_ms: int,
    pub payload: JsonModel,
}

/// What a closed connection is reported as.
#[verifier::ext_equal]
pub struct ClosedModel {
    pub connection_id: Seq<char>,
    pub reason: CloseReason,
}

/// What a new connection is announced as.
#[verifier::ext_equal]
pub struct NewModel {
    pub connection_id: Seq<char>,
    pub user_id: Seq<char>,
}

/// What has happened since the engine was last called.
#[verifier::ext_equal]
pub struct BatchModel {
    pub now_ms: int,
    pub new_connections: Seq<NewModel>,
    pub closed_connections: Seq<ClosedModel>,
    pub messages: Seq<MessageModel>,
    pub expired_timers: Seq<TimerModel>,
}

/// A call of an engine.
pub enum CallModel {
    /// `init`, with the engine time.
    Init(int),
    /// `process_messages`: what the engine was told, and what it wants done.
    Process { batch: BatchModel, output: OutputModel },
    /// `shutdown`, with the engine time.
    Shutdown(int),
}

impl View for NewConnection {
    type V = NewModel;

    open spec fn view(&self) -> NewModel {
        NewModel { connection_id: self.connection_id@, user_id: self.user_id@ }
    }
}

impl View for InboundMessage {
    type V = MessageModel;

    open spec fn view(&self) -> MessageModel {
        MessageModel { connection_id: self.connection_id@, message: self.message@ }
    }
}

impl View for ClosedConnection {
    type V = ClosedModel;

    open spec fn view(&self) -> ClosedModel {
        ClosedModel { connection_id: self.connection_id@, reason: self.reason }
    }
}

impl View for ExpiredTimer {
    type V = TimerModel;

    open spec fn view(&self) -> TimerModel {
        TimerModel {
            timer_id: self.timer_id@,
            expiry_ms: self.expiry_ms as int,
            payload: self.payload@,
        }
    }
}

impl View for OutboundMessage {
    type V = MessageModel;

    open spec fn view(&self) -> MessageModel {
        MessageModel { connection_id: self.connection_id@, message: self.message@ }
    }
}

impl View for TimerRequest {
    type V = TimerModel;

    open spec fn view(&self) -> TimerModel {
        TimerModel {
            timer_id: self.timer_id@,
            expiry_ms: self.expiry_ms as int,
            payload: self.payload@,
        }
    }
}

/// What the engine wants done.
#[verifier::ext_equal]
pub struct OutputModel {
    pub close_connections: Seq<Seq<char>>,
    pub messages: Seq<MessageModel>,
    pub timers: Seq<TimerModel>,
    pub cancel_timers: Seq<Seq<char>>,
    pub shutdown: bool,
}

impl View for EngineOutput {
    type V = OutputModel;

    open spec fn view(&self) -> OutputModel {
        OutputModel {
            close_connections: text::texts(self.close_connections@),
            messages: seqs::views(self.messages@),
            timers: seqs::views(self.timers@),
            cancel_timers: text::texts(self.cancel_timers@),
            shutdown: self.shutdown,
        }
    }
}

impl OutputModel {
    /// Nothing to be done.
    pub open spec fn nothing() -> OutputModel {
        OutputModel {
            close_connections: seq![],
            messages: seq![],
            timers: seq![],
            cancel_timers: seq![],
            shutdown: false,
        }
    }
}

impl Default for EngineOutput {
    /// Nothing to be done.
    fn default() -> (r: EngineOutput)
        ensures
            r@ == OutputModel::nothing(),
    {
        let r = EngineOutput {
            close_connections: Vec::new(),
            messages: Vec::new(),
            timers: Vec::new(),
            cancel_timers: Vec::new(),
            shutdown: false,
        };
        assert(r@ =~= OutputModel::nothing());
        r
    }
}

/// Every reason has its word.
pub proof fn reasons_have_their_words()
    ensures
        reason_word(CloseReason::ClientDisconnected) == "client_disconnected"@,
        reason_word(CloseReason::ServerIdleTimeout) == "server_idle_timeout"@,
        reason_word(CloseReason::EngineRequested) == "engine_requested"@,
{
}

/// An output that asks for nothing closes, sends, sets, cancels and ends nothing.
pub proof fn nothing_is_nothing()
    ensures
        ({
            let output = OutputModel::nothing();
            &&& output.close_connections.len() == 0
            &&& output.messages.len() == 0
            &&& output.timers.len() == 0
            &&& output.cancel_timers.len() == 0
            &&& !output.shutdown
        }),
{
}

/// What the engine is told and what it wants is seen as it is, part by part.
pub proof fn events_are_seen_whole(
    new: NewConnection,
    inbound: InboundMessage,
    closed: ClosedConnection,
    expired: ExpiredTimer,
    outbound: OutboundMessage,
    request: TimerRequest,
)
    ensures
        new@.connection_id == new.connection_id@ && new@.user_id == new.user_id@,
        inbound@.connection_id == inbound.connection_id@ && inbound@.message == inbound.message@,
        closed@.connection_id == closed.connection_id@ && closed@.reason == closed.reason,
        expired@.timer_id == expired.timer_id@ && expired@.expiry_ms == expired.expiry_ms
            && expired@.payload == expired.payload@,
        outbound@.connection_id == outbound.connection_id@ && outbound@.message
            == outbound.message@,
        request@.timer_id == request.timer_id@ && request@.expiry_ms == request.expiry_ms
            && request@.payload == request.payload@,
{
}

/// An output is seen as it is: everything in each of its lists, in order, and whether
/// it orders the end.
pub proof fn an_output_is_seen_whole(output: EngineOutput, i: int)
    ensures
        output@.close_connections.len() == output.close_connections@.len(),
        0 <= i < output.close_connections@.len() ==> output@.close_connections[i]
            == output.close_connections@[i]@,
        output@.messages.len() == output.messages@.len(),
        0 <= i < output.messages@.len() ==> output@.messages[i] == output.messages@[i]@,
        output@.timers.len() == output.timers@.len(),
        0 <= i < output.timers@.len() ==> output@.timers[i] == output.timers@[i]@,
        output@.cancel_timers.len() == output.cancel_timers@.len(),
        0 <= i < output.cancel_timers@.len() ==> output@.cancel_timers[i]
            == output.cancel_timers@[i]@,
        output@.shutdown == output.shutdown,
{
}

} // verus!
