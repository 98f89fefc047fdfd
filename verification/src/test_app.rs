//! A small application: one counter that all connections share, and a roster
//! of who is connected. It uses every part of what an engine can do. Commands
//! come as messages `{"cmd": ...}`.
use crate::engine;
use crate::engine::{
    BatchModel, ClosedConnection, ClosedModel, EngineOutput, ExpiredTimer, InboundMessage,
    MessageModel, NewConnection, NewModel, OutboundMessage, OutputModel, StadhouderStateEngine,
    TimerModel, TimerRequest,
};
use crate::json;
use crate::json::{Json, JsonModel};
use crate::seqs;
use crate::text;
use crate::text::{cat3, same_text};
use vstd::prelude::*;

verus! {

/// The application's state.
pub struct TestEngine {
    pub counter: i64,
    pub roster: Vec<String>,
}

/// The application's state and what it wants done, while it works through
/// what has happened.
#[verifier::ext_equal]
pub struct Progress {
    pub counter: int,
    /// The connections, in the order they came.
    pub roster: Seq<Seq<char>>,
    pub output: OutputModel,
}

/// The sum of two 64-bit integers, wrapped around where it is out of range.
pub open spec fn wrapping_sum(a: int, b: int) -> int {
    if a + b > i64::MAX {
        a + b - 0x1_0000_0000_0000_0000
    } else if a + b < i64::MIN {
        a + b + 0x1_0000_0000_0000_0000
    } else {
        a + b
    }
}

/// A message, for each connection it is sent to.
pub open spec fn sent_to(message: JsonModel) -> spec_fn(Seq<char>) -> MessageModel {
    |id: Seq<char>| MessageModel { connection_id: id, message }
}

/// Whether an id is another.
pub open spec fn other_than(id: Seq<char>) -> spec_fn(Seq<char>) -> bool {
    |other: Seq<char>| other != id
}

/// An object with one field.
pub open spec fn saying(key: Seq<char>, value: JsonModel) -> JsonModel {
    JsonModel::empty().with(key, value)
}

/// The name of a connection's timer: its id and the timer's tag. A tag that is
/// no text stands there as JSON.
pub open spec fn timer_name(id: Seq<char>, tag: JsonModel) -> Seq<char> {
    id + ":"@ + match tag {
        JsonModel::Text(s) => s,
        other => json::rendered(other),
    }
}

/// What is reported of a closed connection.
pub open spec fn close_notice(closed: ClosedModel) -> JsonModel {
    saying(
        "connection_closed"@,
        JsonModel::empty().with("connection_id"@, JsonModel::Text(closed.connection_id)).with(
            "reason"@,
            JsonModel::Text(engine::reason_word(closed.reason)),
        ),
    )
}

impl Progress {
    /// With a message to one connection.
    pub open spec fn replying(self, id: Seq<char>, message: JsonModel) -> Progress {
        Progress {
            output: OutputModel {
                messages: self.output.messages.push(MessageModel { connection_id: id, message }),
                ..self.output
            },
            ..self
        }
    }

    /// With a message to everybody on the roster.
    pub open spec fn telling_all(self, message: JsonModel) -> Progress {
        Progress {
            output: OutputModel {
                messages: self.output.messages + self.roster.map_values(sent_to(message)),
                ..self.output
            },
            ..self
        }
    }

    /// Without a connection on the roster.
    pub open spec fn without(self, id: Seq<char>) -> Progress {
        Progress { roster: self.roster.filter(other_than(id)), ..self }
    }

    /// A new connection goes on the roster, and is greeted.
    pub open spec fn greeting(self, new: NewModel) -> Progress {
        Progress { roster: self.roster.push(new.connection_id), ..self }.replying(
            new.connection_id,
            saying("hello"@, JsonModel::Text(new.user_id)),
        )
    }

    /// A closed connection goes off the roster, and those on it are told.
    pub open spec fn noting_close(self, closed: ClosedModel) -> Progress {
        self.without(closed.connection_id).telling_all(close_notice(closed))
    }

    /// A message is done as its command says.
    pub open spec fn obeying(self, inbound: MessageModel, now_ms: int) -> Progress {
        let id = inbound.connection_id;
        let message = inbound.message;
        let command = match message.field("cmd"@).as_text() {
            Some(command) => command,
            None => ""@,
        };
        if command == "add"@ {
            let n = match message.field("n"@).as_int() {
                Some(n) => n,
                None => 0,
            };
            let counter = wrapping_sum(self.counter, n);
            Progress { counter, ..self }.replying(id, saying("counter"@, JsonModel::Int(counter)))
        } else if command == "get"@ {
            self.replying(id, saying("counter"@, JsonModel::Int(self.counter)))
        } else if command == "broadcast"@ {
            self.telling_all(saying("broadcast"@, message.field("text"@)))
        } else if command == "set_timer"@ {
            let delay_ms = match message.field("delay_ms"@).as_int() {
                Some(delay_ms) => delay_ms,
                None => 0,
            };
            let tag = message.field("tag"@);
            let timer = TimerModel {
                timer_id: timer_name(id, tag),
                expiry_ms: wrapping_sum(now_ms, delay_ms),
                payload: JsonModel::empty().with("tag"@, tag).with(
                    "connection_id"@,
                    JsonModel::Text(id),
                ),
            };
            Progress {
                output: OutputModel { timers: self.output.timers.push(timer), ..self.output },
                ..self
            }.replying(id, saying("timer_set"@, JsonModel::Bool(true)))
        } else if command == "cancel_timer"@ {
            let tag = message.field("tag"@);
            Progress {
                output: OutputModel {
                    cancel_timers: self.output.cancel_timers.push(timer_name(id, tag)),
                    ..self.output
                },
                ..self
            }.replying(id, saying("timer_cancelled"@, tag))
        } else if command == "close_me"@ {
            Progress {
                output: OutputModel {
                    close_connections: self.output.close_connections.push(id),
                    ..self.output
                },
                ..self.without(id)
            }.replying(id, saying("goodbye"@, JsonModel::Bool(true)))
        } else if command == "shutdown"@ {
            let told = self.replying(id, saying("bye"@, JsonModel::Bool(true)));
            Progress { output: OutputModel { shutdown: true, ..told.output }, ..told }
        } else {
            self.replying(
                id,
                saying("error"@, JsonModel::Text("unknown command '"@ + command + "'"@)),
            )
        }
    }

    /// The connection that set a timer is told that it has fired.
    pub open spec fn noting_timer(self, timer: TimerModel) -> Progress {
        match timer.payload.field("connection_id"@).as_text() {
            Some(id) => self.replying(
                id,
                JsonModel::empty().with("timer_fired"@, timer.payload.field("tag"@)).with(
                    "expiry_ms"@,
                    JsonModel::Int(timer.expiry_ms),
                ),
            ),
            None => self,
        }
    }

    /// All the new connections, in order.
    pub open spec fn greeting_all(self, new: Seq<NewModel>) -> Progress
        decreases new.len(),
    {
        if new.len() == 0 {
            self
        } else {
            self.greeting_all(new.drop_last()).greeting(new.last())
        }
    }

    /// All the closed connections, in order.
    pub open spec fn noting_closes(self, closed: Seq<ClosedModel>) -> Progress
        decreases closed.len(),
    {
        if closed.len() == 0 {
            self
        } else {
            self.noting_closes(closed.drop_last()).noting_close(closed.last())
        }
    }

    /// All the messages, in order.
    pub open spec fn obeying_all(self, messages: Seq<MessageModel>, now_ms: int) -> Progress
        decreases messages.len(),
    {
        if messages.len() == 0 {
            self
        } else {
            self.obeying_all(messages.drop_last(), now_ms).obeying(messages.last(), now_ms)
        }
    }

    /// All the timers, in order.
    pub open spec fn noting_timers(self, timers: Seq<TimerModel>) -> Progress
        decreases timers.len(),
    {
        if timers.len() == 0 {
            self
        } else {
            self.noting_timers(timers.drop_last()).noting_timer(timers.last())
        }
    }
}

/// How far the application has come.
pub open spec fn progress(engine: TestEngine, output: EngineOutput) -> Progress {
    Progress {
        counter: engine.counter as int,
        roster: text::texts(engine.roster@),
        output: output@,
    }
}

/// A text as JSON.
fn text_json(s: &str) -> (r: Json)
    ensures
        r@ == JsonModel::Text(s@),
{
    Json::Text(s.to_owned())
}

/// An object with one field.
fn say(key: &str, value: Json) -> (r: Json)
    ensures
        r@ == saying(key@, value@),
{
    Json::empty().with(key, value)
}

impl TestEngine {
    /// No counts, and nobody on the roster.
    pub fn new() -> (r: TestEngine)
        ensures
            r.counter == 0,
            r.roster@.len() == 0,
    {
        TestEngine { counter: 0, roster: Vec::new() }
    }

    /// Queues a message to one connection.
    fn reply(&self, output: &mut EngineOutput, connection_id: &str, message: Json)
        ensures
            progress(*self, *final(output)) == progress(*self, *old(output)).replying(
                connection_id@,
                message@,
            ),
    {
        let m = OutboundMessage { connection_id: connection_id.to_owned(), message };
        let ghost before = output.messages@;
        output.messages.push(m);
        assert(seqs::views(output.messages@) == seqs::views(before).push(m@));
        assert(progress(*self, *output) =~= progress(*self, *old(output)).replying(
            connection_id@,
            message@,
        ));
    }

    /// Queues a message to everybody on the roster.
    fn tell_all(&self, output: &mut EngineOutput, message: &Json)
        ensures
            progress(*self, *final(output)) == progress(*self, *old(output)).telling_all(message@),
    {
        let ghost before = output@;
        let ghost names = text::texts(self.roster@);
        let ghost f = sent_to(message@);
        assert(before.messages + names.take(0).map_values(f) == before.messages);
        for i in 0..self.roster.len()
            invariant
                names == text::texts(self.roster@),
                f == sent_to(message@),
                output@ == (OutputModel {
                    messages: before.messages + names.take(i as int).map_values(f),
                    ..before
                }),
        {
            let ghost so_far = output.messages@;
            let ghost known = output@;
            let m = OutboundMessage {
                connection_id: self.roster[i].clone(),
                message: message.copy(),
            };
            output.messages.push(m);
            proof {
                assert(seqs::views(output.messages@) == seqs::views(so_far).push(m@));
                assert(names.take(i + 1).map_values(f) == names.take(i as int).map_values(f).push(
                    m@,
                ));
                assert(output@ =~= (OutputModel { messages: known.messages.push(m@), ..known }));
            }
        }
        assert(names.take(names.len() as int) == names);
        assert(progress(*self, *output) =~= progress(*self, *old(output)).telling_all(message@));
    }

    /// Takes a connection off the roster.
    fn drop_from_roster(&mut self, connection_id: &str)
        ensures
            final(self).counter == old(self).counter,
            text::texts(final(self).roster@) == text::texts(old(self).roster@).filter(
                other_than(connection_id@),
            ),
    {
        let ghost names = text::texts(self.roster@);
        let ghost p = other_than(connection_id@);
        let mut kept: Vec<String> = Vec::new();
        proof {
            reveal(Seq::filter);
            assert(names.take(0) == Seq::<Seq<char>>::empty());
            assert(text::texts(kept@) == Seq::<Seq<char>>::empty());
        }
        for i in 0..self.roster.len()
            invariant
                names == text::texts(self.roster@),
                p == other_than(connection_id@),
                text::texts(kept@) == names.take(i as int).filter(p),
        {
            proof {
                seqs::filter_step(names, p, i as int);
            }
            if !same_text(self.roster[i].as_str(), connection_id) {
                let id = self.roster[i].clone();
                assert(text::texts(kept@.push(id)) == text::texts(kept@).push(id@));
                kept.push(id);
            }
        }
        assert(names.take(names.len() as int) == names);
        self.roster = kept;
    }

    /// Greets a new connection.
    fn greet(&mut self, output: &mut EngineOutput, new: &NewConnection)
        ensures
            progress(*final(self), *final(output)) == progress(*old(self), *old(output)).greeting(
                new@,
            ),
    {
        let ghost before = self.roster@;
        let id = new.connection_id.clone();
        self.roster.push(id);
        assert(text::texts(self.roster@) == text::texts(before).push(id@));
        self.reply(
            output,
            new.connection_id.as_str(),
            say("hello", text_json(new.user_id.as_str())),
        );
    }

    /// Notes that a connection was closed.
    fn note_close(&mut self, output: &mut EngineOutput, closed: &ClosedConnection)
        ensures
            progress(*final(self), *final(output)) == progress(
                *old(self),
                *old(output),
            ).noting_close(closed@),
    {
        self.drop_from_roster(closed.connection_id.as_str());
        let notice = say(
            "connection_closed",
            Json::empty().with("connection_id", text_json(closed.connection_id.as_str())).with(
                "reason",
                text_json(closed.reason.as_str()),
            ),
        );
        self.tell_all(output, &notice);
    }

    /// The name of a connection's timer.
    fn timer_id(connection_id: &str, tag: &Json) -> (r: String)
        ensures
            r@ == timer_name(connection_id@, tag@),
    {
        match tag {
            Json::Text(s) => cat3(connection_id, ":", s.as_str()),
            other => cat3(connection_id, ":", other.render().as_str()),
        }
    }

    /// Does what a message says.
    fn obey(&mut self, output: &mut EngineOutput, inbound: &InboundMessage, timestamp_ms: i64)
        ensures
            progress(*final(self), *final(output)) == progress(*old(self), *old(output)).obeying(
                inbound@,
                timestamp_ms as int,
            ),
    {
        let ghost before = progress(*self, *output);
        let id = inbound.connection_id.as_str();
        let message = &inbound.message;
        let command = match message.text_at("cmd") {
            Some(command) => command,
            None => "",
        };
        if same_text(command, "add") {
            let n: i64 = match message.int_at("n") {
                Some(n) => n,
                None => 0,
            };
            self.counter = self.counter.wrapping_add(n);
            self.reply(output, id, say("counter", Json::Int(self.counter)));
        } else if same_text(command, "get") {
            self.reply(output, id, say("counter", Json::Int(self.counter)));
        } else if same_text(command, "broadcast") {
            self.tell_all(output, &say("broadcast", message.copy_at("text")));
        } else if same_text(command, "set_timer") {
            let delay_ms: i64 = match message.int_at("delay_ms") {
                Some(delay_ms) => delay_ms,
                None => 0,
            };
            let tag = message.copy_at("tag");
            let timer = TimerRequest {
                timer_id: Self::timer_id(id, &tag),
                expiry_ms: timestamp_ms.wrapping_add(delay_ms),
                payload: Json::empty().with("tag", tag).with("connection_id", text_json(id)),
            };
            let ghost timers = output.timers@;
            output.timers.push(timer);
            assert(seqs::views(output.timers@) == seqs::views(timers).push(timer@));
            assert(progress(*self, *output) =~= (Progress {
                output: OutputModel {
                    timers: before.output.timers.push(timer@),
                    ..before.output
                },
                ..before
            }));
            self.reply(output, id, say("timer_set", Json::Bool(true)));
        } else if same_text(command, "cancel_timer") {
            let tag = message.copy_at("tag");
            let name = Self::timer_id(id, &tag);
            let ghost cancelled = output.cancel_timers@;
            output.cancel_timers.push(name);
            assert(text::texts(output.cancel_timers@) == text::texts(cancelled).push(name@));
            assert(progress(*self, *output) =~= (Progress {
                output: OutputModel {
                    cancel_timers: before.output.cancel_timers.push(name@),
                    ..before.output
                },
                ..before
            }));
            self.reply(output, id, say("timer_cancelled", tag));
        } else if same_text(command, "close_me") {
            self.drop_from_roster(id);
            let name = id.to_owned();
            let ghost closing = output.close_connections@;
            output.close_connections.push(name);
            assert(text::texts(output.close_connections@) == text::texts(closing).push(name@));
            assert(progress(*self, *output) =~= (Progress {
                output: OutputModel {
                    close_connections: before.output.close_connections.push(id@),
                    ..before.output
                },
                ..before.without(id@)
            }));
            self.reply(output, id, say("goodbye", Json::Bool(true)));
        } else if same_text(command, "shutdown") {
            self.reply(output, id, say("bye", Json::Bool(true)));
            output.shutdown = true;
        } else {
            let complaint = cat3("unknown command '", command, "'");
            self.reply(output, id, say("error", text_json(complaint.as_str())));
        }
    }

    /// Tells the connection that set a timer that it has fired.
    fn note_timer(&self, output: &mut EngineOutput, timer: &ExpiredTimer)
        ensures
            progress(*self, *final(output)) == progress(*self, *old(output)).noting_timer(timer@),
    {
        match timer.payload.text_at("connection_id") {
            Some(id) => {
                let news = Json::empty().with("timer_fired", timer.payload.copy_at("tag")).with(
                    "expiry_ms",
                    Json::Int(timer.expiry_ms),
                );
                self.reply(output, id, news);
            },
            None => {},
        }
    }
}

/// What the application comes to when it is told of a batch: it greets new
/// connections, notes those that were closed, does what messages say and notes
/// timers, in this order.
pub open spec fn worked_through(start: Progress, batch: BatchModel) -> Progress {
    start.greeting_all(batch.new_connections).noting_closes(batch.closed_connections).obeying_all(
        batch.messages,
        batch.now_ms,
    ).noting_timers(batch.expired_timers)
}

impl StadhouderStateEngine for TestEngine {
    open spec fn answers(
        before: TestEngine,
        after: TestEngine,
        memory_pct: JsonModel,
        batch: BatchModel,
        output: OutputModel,
    ) -> bool {
        let start = Progress {
            counter: before.counter as int,
            roster: text::texts(before.roster@),
            output: OutputModel::nothing(),
        };
        let end = Progress {
            counter: after.counter as int,
            roster: text::texts(after.roster@),
            output,
        };
        end == worked_through(start, batch)
    }

    fn process_messages(
        &mut self,
        timestamp_ms: i64,
        memory_pct: &Json,
        new_connections: &[NewConnection],
        closed_connections: &[ClosedConnection],
        messages: &[InboundMessage],
        expired_timers: &[ExpiredTimer],
    ) -> (output: EngineOutput) {
        let mut output = EngineOutput::default();
        let ghost start = progress(*self, output);
        let ghost new = seqs::views(new_connections@);
        assert(new.take(0) == Seq::<NewModel>::empty());
        for i in 0..new_connections.len()
            invariant
                new == seqs::views(new_connections@),
                progress(*self, output) == start.greeting_all(new.take(i as int)),
        {
            assert(new.take(i + 1).drop_last() == new.take(i as int));
            self.greet(&mut output, &new_connections[i]);
        }
        assert(new.take(new.len() as int) == new);
        let ghost greeted = start.greeting_all(new);
        let ghost closed = seqs::views(closed_connections@);
        assert(closed.take(0) == Seq::<ClosedModel>::empty());
        for i in 0..closed_connections.len()
            invariant
                closed == seqs::views(closed_connections@),
                progress(*self, output) == greeted.noting_closes(closed.take(i as int)),
        {
            assert(closed.take(i + 1).drop_last() == closed.take(i as int));
            self.note_close(&mut output, &closed_connections[i]);
        }
        assert(closed.take(closed.len() as int) == closed);
        let ghost noted = greeted.noting_closes(closed);
        let ghost inbound = seqs::views(messages@);
        assert(inbound.take(0) == Seq::<MessageModel>::empty());
        for i in 0..messages.len()
            invariant
                inbound == seqs::views(messages@),
                progress(*self, output) == noted.obeying_all(
                    inbound.take(i as int),
                    timestamp_ms as int,
                ),
        {
            assert(inbound.take(i + 1).drop_last() == inbound.take(i as int));
            self.obey(&mut output, &messages[i], timestamp_ms);
        }
        assert(inbound.take(inbound.len() as int) == inbound);
        let ghost obeyed = noted.obeying_all(inbound, timestamp_ms as int);
        let ghost timers = seqs::views(expired_timers@);
        assert(timers.take(0) == Seq::<TimerModel>::empty());
        for i in 0..expired_timers.len()
            invariant
                timers == seqs::views(expired_timers@),
                progress(*self, output) == obeyed.noting_timers(timers.take(i as int)),
        {
            assert(timers.take(i + 1).drop_last() == timers.take(i as int));
            self.note_timer(&mut output, &expired_timers[i]);
        }
        assert(timers.take(timers.len() as int) == timers);
        output
    }
}

/// A timer is cancelled under the name it was set under: that of its connection
/// and its tag.
pub proof fn timers_are_cancelled_by_tag(
    start: Progress,
    id: Seq<char>,
    set: JsonModel,
    cancel: JsonModel,
    now_ms: int,
)
    requires
        set.field("cmd"@).as_text() == Some("set_timer"@),
        cancel.field("cmd"@).as_text() == Some("cancel_timer"@),
        set.field("tag"@) == cancel.field("tag"@),
    ensures
        start.obeying(
            MessageModel { connection_id: id, message: set },
            now_ms,
        ).output.timers.last().timer_id == start.obeying(
            MessageModel { connection_id: id, message: cancel },
            now_ms,
        ).output.cancel_timers.last(),
{
    reveal_strlit("add");
    reveal_strlit("get");
    reveal_strlit("broadcast");
    reveal_strlit("set_timer");
    reveal_strlit("cancel_timer");
    assert("set_timer"@[0] == 's' && "cancel_timer"@[0] == 'c');
    assert("add"@[0] == 'a' && "get"@[0] == 'g' && "broadcast"@[0] == 'b');
}

/// A connection that was closed, or asked to be, is on the roster no longer.
pub proof fn closed_connections_leave_the_roster(
    start: Progress,
    closed: ClosedModel,
    asking: MessageModel,
    now_ms: int,
)
    requires
        asking.message.field("cmd"@).as_text() == Some("close_me"@),
    ensures
        !start.noting_close(closed).roster.contains(closed.connection_id),
        !start.obeying(asking, now_ms).roster.contains(asking.connection_id),
{
    reveal_strlit("add");
    reveal_strlit("get");
    reveal_strlit("broadcast");
    reveal_strlit("set_timer");
    reveal_strlit("cancel_timer");
    reveal_strlit("close_me");
    assert("close_me"@[1] == 'l' && "cancel_timer"@[1] == 'a');
    assert("add"@[0] == 'a' && "get"@[0] == 'g' && "broadcast"@[0] == 'b' && "set_timer"@[0]
        == 's' && "close_me"@[0] == 'c');
    seqs::filter_members(start.roster, other_than(closed.connection_id));
    seqs::filter_members(start.roster, other_than(asking.connection_id));
    let after_note = start.noting_close(closed).roster;
    if after_note.contains(closed.connection_id) {
        let i = choose|i: int| 0 <= i < after_note.len() && after_note[i] == closed.connection_id;
        assert(other_than(closed.connection_id)(after_note[i]));
    }
    let after_asking = start.obeying(asking, now_ms).roster;
    if after_asking.contains(asking.connection_id) {
        let i = choose|i: int|
            0 <= i < after_asking.len() && after_asking[i] == asking.connection_id;
        assert(other_than(asking.connection_id)(after_asking[i]));
    }
}

/// Whatever has happened is worked through one by one, in order: what two lots come
/// to is what the second comes to after the first.
pub proof fn everything_is_worked_through_in_order(
    start: Progress,
    new: (Seq<NewModel>, Seq<NewModel>),
    closed: (Seq<ClosedModel>, Seq<ClosedModel>),
    messages: (Seq<MessageModel>, Seq<MessageModel>),
    timers: (Seq<TimerModel>, Seq<TimerModel>),
    now_ms: int,
)
    ensures
        start.greeting_all(new.0 + new.1) == start.greeting_all(new.0).greeting_all(new.1),
        start.noting_closes(closed.0 + closed.1) == start.noting_closes(closed.0).noting_closes(
            closed.1,
        ),
        start.obeying_all(messages.0 + messages.1, now_ms) == start.obeying_all(
            messages.0,
            now_ms,
        ).obeying_all(messages.1, now_ms),
        start.noting_timers(timers.0 + timers.1) == start.noting_timers(timers.0).noting_timers(
            timers.1,
        ),
    decreases new.1.len() + closed.1.len() + messages.1.len() + timers.1.len(),
{
    let fewer_new = if new.1.len() > 0 {
        (new.0, new.1.drop_last())
    } else {
        new
    };
    let fewer_closed = if closed.1.len() > 0 {
        (closed.0, closed.1.drop_last())
    } else {
        closed
    };
    let fewer_messages = if messages.1.len() > 0 {
        (messages.0, messages.1.drop_last())
    } else {
        messages
    };
    let fewer_timers = if timers.1.len() > 0 {
        (timers.0, timers.1.drop_last())
    } else {
        timers
    };
    if new.1.len() + closed.1.len() + messages.1.len() + timers.1.len() > 0 {
        everything_is_worked_through_in_order(
            start,
            fewer_new,
            fewer_closed,
            fewer_messages,
            fewer_timers,
            now_ms,
        );
    }
    if new.1.len() > 0 {
        assert((new.0 + new.1).drop_last() == new.0 + new.1.drop_last());
        assert((new.0 + new.1).last() == new.1.last());
    } else {
        assert(new.0 + new.1 == new.0);
    }
    if closed.1.len() > 0 {
        assert((closed.0 + closed.1).drop_last() == closed.0 + closed.1.drop_last());
        assert((closed.0 + closed.1).last() == closed.1.last());
    } else {
        assert(closed.0 + closed.1 == closed.0);
    }
    if messages.1.len() > 0 {
        assert((messages.0 + messages.1).drop_last() == messages.0 + messages.1.drop_last());
        assert((messages.0 + messages.1).last() == messages.1.last());
    } else {
        assert(messages.0 + messages.1 == messages.0);
    }
    if timers.1.len() > 0 {
        assert((timers.0 + timers.1).drop_last() == timers.0 + timers.1.drop_last());
        assert((timers.0 + timers.1).last() == timers.1.last());
    } else {
        assert(timers.0 + timers.1 == timers.0);
    }
}

/// One event is worked through as such an event is, and none changes nothing; of a
/// batch the new connections come first, then those closed, then messages, and
/// timers last.
pub proof fn each_event_is_worked_through(
    start: Progress,
    new: NewModel,
    closed: ClosedModel,
    message: MessageModel,
    timer: TimerModel,
    now_ms: int,
)
    ensures
        ({
            let batch = BatchModel {
                now_ms,
                new_connections: seq![new],
                closed_connections: seq![closed],
                messages: seq![message],
                expired_timers: seq![timer],
            };
            let quiet = BatchModel {
                now_ms,
                new_connections: seq![],
                closed_connections: seq![],
                messages: seq![],
                expired_timers: seq![],
            };
            &&& worked_through(start, batch) == start.greeting(new).noting_close(closed).obeying(
                message,
                now_ms,
            ).noting_timer(timer)
            &&& worked_through(start, quiet) == start
        }),
{
    assert(seq![new].drop_last() == Seq::<NewModel>::empty());
    assert(seq![closed].drop_last() == Seq::<ClosedModel>::empty());
    assert(seq![message].drop_last() == Seq::<MessageModel>::empty());
    assert(seq![timer].drop_last() == Seq::<TimerModel>::empty());
    assert(start.greeting_all(Seq::<NewModel>::empty()) == start);
    let greeted = start.greeting(new);
    assert(greeted.noting_closes(Seq::<ClosedModel>::empty()) == greeted);
    let noted = greeted.noting_close(closed);
    assert(noted.obeying_all(Seq::<MessageModel>::empty(), now_ms) == noted);
    let obeyed = noted.obeying(message, now_ms);
    assert(obeyed.noting_timers(Seq::<TimerModel>::empty()) == obeyed);
}

/// A batch is worked through in four lots: new connections, closed ones, messages and
/// timers, all of each.
pub proof fn a_batch_is_worked_through_whole(start: Progress, batch: BatchModel)
    ensures
        ({
            let greeted = start.greeting_all(batch.new_connections);
            let noted = greeted.noting_closes(batch.closed_connections);
            let obeyed = noted.obeying_all(batch.messages, batch.now_ms);
            worked_through(start, batch) == obeyed.noting_timers(batch.expired_timers)
        }),
{
}

/// Whoever comes goes on the roster, behind the others, and is greeted by name.
pub proof fn newcomers_are_greeted(start: Progress, new: NewModel)
    ensures
        ({
            let after = start.greeting(new);
            &&& after.counter == start.counter
            &&& after.roster == start.roster.push(new.connection_id)
            &&& after.output.messages.len() == start.output.messages.len() + 1
            &&& after.output.messages.drop_last() == start.output.messages
            &&& after.output.messages.last().connection_id == new.connection_id
            &&& after.output.messages.last().message.get("hello"@) == Some(
                JsonModel::Text(new.user_id),
            )
            &&& after.output == (OutputModel { messages: after.output.messages, ..start.output })
        }),
{
    assert(start.greeting(new).output.messages.drop_last() == start.output.messages);
}

/// Whoever is closed is taken off the roster, wherever they stand on it and no one
/// else, and each of the others is told who it was and why.
pub proof fn closes_are_told_to_the_others(start: Progress, closed: ClosedModel, i: int)
    ensures
        ({
            let after = start.noting_close(closed);
            let n = start.output.messages.len() as int;
            &&& after.counter == start.counter
            &&& after.roster == start.roster.filter(
                |other: Seq<char>| other != closed.connection_id,
            )
            &&& after.output.messages.len() == n + after.roster.len()
            &&& after.output.messages.take(n) == start.output.messages
            &&& 0 <= i < after.roster.len() ==> {
                let told = after.output.messages[n + i];
                let notice = told.message.get("connection_closed"@);
                &&& told.connection_id == after.roster[i]
                &&& notice is Some
                &&& notice->Some_0.get("connection_id"@) == Some(
                    JsonModel::Text(closed.connection_id),
                )
                &&& notice->Some_0.get("reason"@) == Some(
                    JsonModel::Text(engine::reason_word(closed.reason)),
                )
            }
            &&& after.output == (OutputModel { messages: after.output.messages, ..start.output })
        }),
{
    reveal_strlit("connection_id");
    reveal_strlit("reason");
    assert("connection_id"@.len() == 13 && "reason"@.len() == 6);
    seqs::filter_agrees(
        start.roster,
        other_than(closed.connection_id),
        |other: Seq<char>| other != closed.connection_id,
    );
    let n = start.output.messages.len() as int;
    assert(start.noting_close(closed).output.messages.take(n) == start.output.messages);
}

/// Numbers are added in 64 bits: the sum is right where it fits, and otherwise off by
/// a whole turn of the counter, never out of range.
pub proof fn sums_wrap_around(a: int, b: int)
    requires
        i64::MIN <= a <= i64::MAX,
        i64::MIN <= b <= i64::MAX,
    ensures
        i64::MIN <= wrapping_sum(a, b) <= i64::MAX,
        i64::MIN <= a + b <= i64::MAX ==> wrapping_sum(a, b) == a + b,
        wrapping_sum(a, b) == a + b || wrapping_sum(a, b) == a + b - 0x1_0000_0000_0000_0000
            || wrapping_sum(a, b) == a + b + 0x1_0000_0000_0000_0000,
{
}

/// A timer is named after its connection and its tag, with a colon between; a text
/// tag stands there as it is.
pub proof fn timers_are_named_by_connection_and_tag(id: Seq<char>, tag: JsonModel, s: Seq<char>)
    ensures
        timer_name(id, JsonModel::Text(s)) == id.push(':') + s,
        !(tag is Text) ==> timer_name(id, tag) == id.push(':') + json::rendered(tag),
{
    reveal_strlit(":");
    assert(id + ":"@ == id.push(':'));
}

/// What a message may come to, besides an answer to its sender: what `add` adds, what
/// `broadcast` tells everybody, the timer that `set_timer` sets or `cancel_timer`
/// cancels, the close that `close_me` asks for and the end that `shutdown` orders.
/// Nothing else changes, whatever the command.
pub proof fn commands_do_what_they_say(
    start: Progress,
    id: Seq<char>,
    message: JsonModel,
    now_ms: int,
)
    ensures
        ({
            let after = start.obeying(MessageModel { connection_id: id, message }, now_ms);
            let command = message.field("cmd"@);
            let adds = command == JsonModel::Text("add"@);
            let tells = command == JsonModel::Text("broadcast"@);
            let sets = command == JsonModel::Text("set_timer"@);
            let cancels = command == JsonModel::Text("cancel_timer"@);
            let closes = command == JsonModel::Text("close_me"@);
            let ends = command == JsonModel::Text("shutdown"@);
            &&& !adds ==> after.counter == start.counter
            &&& adds ==> after.counter == wrapping_sum(
                start.counter,
                match message.field("n"@) {
                    JsonModel::Int(n) => n,
                    _ => 0,
                },
            )
            &&& !closes ==> after.roster == start.roster && after.output.close_connections
                == start.output.close_connections
            &&& closes ==> after.roster == start.roster.filter(|other: Seq<char>| other != id)
                && after.output.close_connections == start.output.close_connections.push(id)
            &&& !sets ==> after.output.timers == start.output.timers
            &&& sets ==> {
                let t = after.output.timers.last();
                &&& after.output.timers == start.output.timers.push(t)
                &&& t.timer_id == timer_name(id, message.field("tag"@))
                &&& t.expiry_ms == wrapping_sum(
                    now_ms,
                    match message.field("delay_ms"@) {
                        JsonModel::Int(delay_ms) => delay_ms,
                        _ => 0,
                    },
                )
                &&& t.payload.get("tag"@) == Some(message.field("tag"@))
                &&& t.payload.get("connection_id"@) == Some(JsonModel::Text(id))
            }
            &&& !cancels ==> after.output.cancel_timers == start.output.cancel_timers
            &&& cancels ==> after.output.cancel_timers == start.output.cancel_timers.push(
                timer_name(id, message.field("tag"@)),
            )
            &&& after.output.shutdown == (start.output.shutdown || ends)
            &&& tells ==> after.output.messages == start.output.messages + start.roster.map_values(
                |to: Seq<char>|
                    MessageModel {
                        connection_id: to,
                        message: JsonModel::empty().with("broadcast"@, message.field("text"@)),
                    },
            )
            &&& !tells ==> after.output.messages.len() == start.output.messages.len() + 1
                && after.output.messages.drop_last() == start.output.messages
                && after.output.messages.last().connection_id == id
        }),
{
    reveal_strlit("add");
    reveal_strlit("get");
    reveal_strlit("broadcast");
    reveal_strlit("set_timer");
    reveal_strlit("cancel_timer");
    reveal_strlit("close_me");
    reveal_strlit("shutdown");
    reveal_strlit("");
    reveal_strlit("tag");
    reveal_strlit("connection_id");
    assert("tag"@.len() == 3 && "connection_id"@.len() == 13);
    assert("add"@[0] == 'a' && "get"@[0] == 'g' && "broadcast"@[0] == 'b' && "set_timer"@[0] == 's'
        && "set_timer"@[1] == 'e' && "shutdown"@[0] == 's' && "shutdown"@[1] == 'h'
        && "cancel_timer"@[0] == 'c' && "cancel_timer"@[1] == 'a' && "close_me"@[0] == 'c'
        && "close_me"@[1] == 'l' && ""@.len() == 0);
    let after = start.obeying(MessageModel { connection_id: id, message }, now_ms);
    seqs::filter_agrees(start.roster, other_than(id), |other: Seq<char>| other != id);
    let told = JsonModel::empty().with("broadcast"@, message.field("text"@));
    if message.field("cmd"@) == JsonModel::Text("broadcast"@) {
        assert(start.roster.map_values(sent_to(told)) == start.roster.map_values(
            |to: Seq<char>| MessageModel { connection_id: to, message: told },
        ));
    } else {
        assert(after.output.messages.drop_last() == start.output.messages);
    }
}

/// How a command is answered: with the counter, with what it has done, with a
/// farewell, or with its own name where it is none.
pub proof fn commands_are_answered(start: Progress, id: Seq<char>, message: JsonModel, now_ms: int)
    ensures
        ({
            let after = start.obeying(MessageModel { connection_id: id, message }, now_ms);
            let answer = after.output.messages.last().message;
            let command = message.field("cmd"@);
            &&& command == JsonModel::Text("add"@) || command == JsonModel::Text("get"@) ==> answer
                == JsonModel::empty().with("counter"@, JsonModel::Int(after.counter))
            &&& command == JsonModel::Text("set_timer"@) ==> answer == JsonModel::empty().with(
                "timer_set"@,
                JsonModel::Bool(true),
            )
            &&& command == JsonModel::Text("cancel_timer"@) ==> answer == JsonModel::empty().with(
                "timer_cancelled"@,
                message.field("tag"@),
            )
            &&& command == JsonModel::Text("close_me"@) ==> answer == JsonModel::empty().with(
                "goodbye"@,
                JsonModel::Bool(true),
            )
            &&& command == JsonModel::Text("shutdown"@) ==> answer == JsonModel::empty().with(
                "bye"@,
                JsonModel::Bool(true),
            )
            &&& command matches JsonModel::Text(other) ==> !seq![
                "add"@,
                "get"@,
                "broadcast"@,
                "set_timer"@,
                "cancel_timer"@,
                "close_me"@,
                "shutdown"@,
            ].contains(other) ==> answer == JsonModel::empty().with(
                "error"@,
                JsonModel::Text("unknown command '"@ + other + "'"@),
            )
            &&& !(command is Text) ==> answer == JsonModel::empty().with(
                "error"@,
                JsonModel::Text("unknown command '"@ + ""@ + "'"@),
            )
        }),
{
    reveal_strlit("add");
    reveal_strlit("get");
    reveal_strlit("broadcast");
    reveal_strlit("set_timer");
    reveal_strlit("cancel_timer");
    reveal_strlit("close_me");
    reveal_strlit("shutdown");
    reveal_strlit("");
    assert("add"@[0] == 'a' && "get"@[0] == 'g' && "broadcast"@[0] == 'b' && "set_timer"@[0] == 's'
        && "set_timer"@[1] == 'e' && "shutdown"@[0] == 's' && "shutdown"@[1] == 'h'
        && "cancel_timer"@[0] == 'c' && "cancel_timer"@[1] == 'a' && "close_me"@[0] == 'c'
        && "close_me"@[1] == 'l' && ""@.len() == 0);
    let known = seq![
        "add"@,
        "get"@,
        "broadcast"@,
        "set_timer"@,
        "cancel_timer"@,
        "close_me"@,
        "shutdown"@,
    ];
    assert(known[0] == "add"@ && known[1] == "get"@ && known[2] == "broadcast"@ && known[3]
        == "set_timer"@ && known[4] == "cancel_timer"@ && known[5] == "close_me"@ && known[6]
        == "shutdown"@);
}

/// The connection that a timer was set for is told that it has fired, which one it was
/// and when it was due; a timer of nobody's is passed over. Nothing else changes.
pub proof fn timers_are_told_to_their_connection(start: Progress, timer: TimerModel)
    ensures
        ({
            let after = start.noting_timer(timer);
            &&& after.counter == start.counter && after.roster == start.roster
            &&& after.output == (OutputModel { messages: after.output.messages, ..start.output })
            &&& timer.payload.field("connection_id"@) matches JsonModel::Text(id) ==> {
                let told = after.output.messages.last();
                &&& after.output.messages == start.output.messages.push(told)
                &&& told.connection_id == id
                &&& told.message.get("timer_fired"@) == Some(timer.payload.field("tag"@))
                &&& told.message.get("expiry_ms"@) == Some(JsonModel::Int(timer.expiry_ms))
            }
            &&& !(timer.payload.field("connection_id"@) is Text) ==> after == start
        }),
{
    reveal_strlit("timer_fired");
    reveal_strlit("expiry_ms");
    assert("timer_fired"@.len() == 11 && "expiry_ms"@.len() == 9);
}

/// What the application answers with is what it has come to, from nothing to be done:
/// its counter, its roster, name by name, and its output.
pub proof fn the_application_answers_with_its_progress(
    before: TestEngine,
    after: TestEngine,
    memory_pct: JsonModel,
    batch: BatchModel,
    output: OutputModel,
    start: Progress,
    i: int,
)
    requires
        TestEngine::answers(before, after, memory_pct, batch, output),
        start.counter == before.counter,
        start.roster == text::texts(before.roster@),
        start.output == OutputModel::nothing(),
    ensures
        after.counter == worked_through(start, batch).counter,
        after.roster@.len() == worked_through(start, batch).roster.len(),
        0 <= i < after.roster@.len() ==> after.roster@[i]@ == worked_through(
            start,
            batch,
        ).roster[i],
        output == worked_through(start, batch).output,
{
}

} // verus!
