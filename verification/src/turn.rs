//! What holds of the steps of a turn, in plain terms: what each of them does to
//! the connections, and what it leaves alone.
use crate::engine::{
    BatchModel, CallModel, CloseReason, ClosedModel, MessageModel, OutputModel, TimerModel,
};
use crate::heartbeat;
use crate::json;
use crate::json::JsonModel;
use crate::runtime;
use crate::runtime::{
    Batch, ConnectionModel, Departure, DepartureModel, Farewell, FoundProfile, ServiceModel,
    CLIENT_INACTIVITY_MS, FLAG_STALE_MS, FLAG_UPDATE_INTERVAL_MS, IDLE_EXIT_MS, SCAN_INTERVAL_MS,
    TICK_MS,
};
use crate::seqs;
use crate::state;
use crate::state::{ConnectionProfile, FlagModel};
use crate::timers;
use vstd::prelude::*;

verus! {

// ---------------------------------------------------------------------------
// Times
// ---------------------------------------------------------------------------

/// The durations that the service promises: four turns in a second, a scan
/// every four seconds, a flag refreshed every twenty seconds that counts for two
/// minutes, an end after 56 seconds without connections, and two minutes of
/// patience with a silent client.
pub proof fn durations()
    ensures
        TICK_MS == 250,
        SCAN_INTERVAL_MS == 4_000,
        FLAG_UPDATE_INTERVAL_MS == 20_000,
        FLAG_STALE_MS == 120_000,
        IDLE_EXIT_MS == 56_000,
        CLIENT_INACTIVITY_MS == 120_000,
{
}

/// A client is silent too long exactly when it was not heard of for two minutes.
pub proof fn two_minutes_of_silence_are_too_long(c: ConnectionModel, now_ms: int)
    ensures
        runtime::silent(now_ms)(c) <==> now_ms >= c.last_message_ms + 120_000,
        runtime::heard(now_ms)(c) <==> now_ms < c.last_message_ms + 120_000,
{
}

/// Another instance is deferred to exactly where its flag is there, is not of the
/// future, and is less than two minutes old.
pub proof fn a_young_flag_is_deferred_to(started_ms: int, flag: Option<FlagModel>)
    ensures
        runtime::fresh(started_ms, flag) <==> flag is Some && flag->Some_0.updated_ms <= started_ms
            && started_ms < flag->Some_0.updated_ms + 120_000,
{
}

/// A service may end for want of connections exactly where it has none, and 56
/// seconds have passed since it started.
pub proof fn nobody_for_56_seconds(service: ServiceModel, now_ms: int)
    ensures
        service.deserted(now_ms) <==> service.connections.len() == 0 && now_ms
            >= service.started_ms + 56_000,
{
}

/// While time goes on, the flag is refreshed once twenty seconds have passed, and
/// the state folder is scanned when that was said, and again four seconds later.
/// Where time has jumped back behind the last scan, the next is due at once.
pub proof fn a_turn_comes_when_it_should(service: ServiceModel, now_ms: int)
    ensures
        service.flag_due(now_ms) <==> now_ms >= service.flag_updated_ms + 20_000,
        service.scan_due(now_ms) <==> now_ms >= service.next_scan_ms || now_ms
            < service.next_scan_ms - 4_000,
        service.begun(now_ms).flag_updated_ms == if service.flag_due(now_ms)
            || now_ms < service.flag_updated_ms {
            now_ms
        } else {
            service.flag_updated_ms
        },
        service.begun(now_ms).next_scan_ms == if service.scan_due(now_ms) {
            now_ms + 4_000
        } else {
            service.next_scan_ms
        },
        service.begun(now_ms).started_ms == if now_ms < service.started_ms {
            now_ms
        } else {
            service.started_ms
        },
{
}

/// A turn that begins changes nothing of its connections but when they were
/// heard of, where that would lie ahead; it keeps timers and calls, and has the
/// engine told of what it closed, each close once and in order.
pub proof fn a_beginning_keeps_everything(service: ServiceModel, now_ms: int, i: int)
    requires
        0 <= i < service.connections.len(),
    ensures
        ({
            let begun = service.begun(now_ms);
            let c = service.connections[i];
            &&& begun.connections.len() == service.connections.len()
            &&& begun.connections[i] == (ConnectionModel {
                last_message_ms: if now_ms < c.last_message_ms {
                    now_ms
                } else {
                    c.last_message_ms
                },
                ..c
            })
            &&& begun.timers == service.timers
            &&& begun.calls == service.calls
            &&& begun.closes == Seq::<Seq<char>>::empty()
        }),
{
}

/// The closes that the engine has ordered are all it is told of as a turn begins.
pub proof fn a_beginning_tells_of_closes(service: ServiceModel, now_ms: int)
    ensures
        ({
            let news = service.first_news(now_ms);
            &&& news.now_ms == now_ms
            &&& news.closed_connections.len() == service.closes.len()
            &&& forall|i: int|
                0 <= i < service.closes.len() ==> #[trigger] news.closed_connections[i]
                    == (ClosedModel {
                    connection_id: service.closes[i],
                    reason: CloseReason::EngineRequested,
                })
            &&& news.new_connections.len() == 0
            &&& news.messages.len() == 0
            &&& news.expired_timers.len() == 0
        }),
{
}

/// A live instance begins with nobody and nothing but the time; its first scan
/// is due at once, and its engine has been told of the beginning alone.
pub proof fn a_run_begins_with_nothing(started_ms: int)
    ensures
        ({
            let start = ServiceModel::initial(started_ms);
            &&& start.started_ms == started_ms
            &&& start.flag_updated_ms == started_ms
            &&& start.scan_due(started_ms)
            &&& start.connections == Seq::<ConnectionModel>::empty()
            &&& start.timers.len() == 0
            &&& start.closes.len() == 0
            &&& start.calls == seq![CallModel::Init(started_ms)]
        }),
{
}

// ---------------------------------------------------------------------------
// Who is served
// ---------------------------------------------------------------------------


/// An id is served exactly where a connection has it, and ids are distinct
/// exactly where none occurs twice.
pub proof fn served_means_there_is_one(connections: Seq<ConnectionModel>, id: Seq<char>)
    ensures
        runtime::served(connections, id) <==> connections.map_values(
            |c: ConnectionModel| c.connection_id,
        ).contains(id),
        runtime::distinct(connections) <==> connections.map_values(
            |c: ConnectionModel| c.connection_id,
        ).no_duplicates(),
{
    let all = connections.map_values(|c: ConnectionModel| c.connection_id);
    if runtime::served(connections, id) {
        let i = choose|i: int|
            0 <= i < connections.len() && (#[trigger] connections[i]).connection_id == id;
        assert(all[i] == id);
    }
    if all.contains(id) {
        let i = choose|i: int| 0 <= i < all.len() && all[i] == id;
        assert(connections[i].connection_id == id);
    }
    if runtime::distinct(connections) {
        assert forall|i: int, j: int| 0 <= i < all.len() && 0 <= j < all.len() && i
            != j implies all[i] != all[j] by {
            if i < j {
                assert(connections[i].connection_id != connections[j].connection_id);
            } else {
                assert(connections[j].connection_id != connections[i].connection_id);
            }
        }
    }
    if all.no_duplicates() {
        assert forall|i: int, j: int| 0 <= i < j < connections.len() implies (
        #[trigger] connections[i]).connection_id != (#[trigger] connections[j]).connection_id by {
            assert(all[i] != all[j]);
        }
    }
}

/// A connection has a profile exactly where some name in the folder stands for
/// its id, at whatever place in the list; and the name that is kept is one that
/// does.
pub proof fn a_profile_counts_wherever_it_stands(names: Seq<Seq<char>>, id: Seq<char>)
    ensures
        runtime::on_disk(names).contains_key(id) <==> exists|i: int|
            0 <= i < names.len() && state::profile_id(#[trigger] names[i]) == Some(id),
        runtime::on_disk(names).contains_key(id) ==> names.contains(runtime::on_disk(names)[id])
            && state::profile_id(runtime::on_disk(names)[id]) == Some(id),
    decreases names.len(),
{
    if names.len() > 0 {
        let rest = names.drop_last();
        let n = names.len() - 1;
        a_profile_counts_wherever_it_stands(rest, id);
        if state::profile_id(names.last()) == Some(id) {
            assert(state::profile_id(names[n]) == Some(id));
            assert(names.contains(names[n]));
        } else if runtime::on_disk(rest).contains_key(id) {
            let i = choose|i: int|
                0 <= i < rest.len() && state::profile_id(#[trigger] rest[i]) == Some(id);
            assert(state::profile_id(names[i]) == Some(id));
            let name = runtime::on_disk(rest)[id];
            let k = choose|k: int| 0 <= k < rest.len() && rest[k] == name;
            assert(names[k] == name);
        }
        if exists|i: int|
            0 <= i < names.len() && state::profile_id(#[trigger] names[i]) == Some(id) {
            let i = choose|i: int|
                0 <= i < names.len() && state::profile_id(#[trigger] names[i]) == Some(id);
            if i < n {
                assert(state::profile_id(rest[i]) == Some(id));
            }
        }
    }
}

/// Every connection that has a profile and is not served yet is to be loaded,
/// once, from a file whose name stands for it; and nothing else is.
pub proof fn every_new_profile_is_loaded(
    found: Seq<FoundProfile>,
    names: Seq<Seq<char>>,
    connections: Seq<ConnectionModel>,
    i: int,
)
    requires
        runtime::to_load(found, runtime::on_disk(names), connections),
    ensures
        0 <= i < names.len() && state::profile_id(names[i]) is Some && !runtime::served(
            connections,
            state::profile_id(names[i])->Some_0,
        ) ==> exists|k: int|
            0 <= k < found.len() && (#[trigger] found[k]).connection_id@ == state::profile_id(
                names[i],
            )->Some_0 && forall|j: int|
                0 <= j < found.len() && j != k ==> (#[trigger] found[j]).connection_id@
                    != found[k].connection_id@,
        0 <= i < found.len() ==> names.contains(found[i].name@) && state::profile_id(found[i].name@)
            == Some(found[i].connection_id@) && !runtime::served(
            connections,
            found[i].connection_id@,
        ),
{
    let disk = runtime::on_disk(names);
    if 0 <= i < names.len() && state::profile_id(names[i]) is Some {
        let id = state::profile_id(names[i])->Some_0;
        a_profile_counts_wherever_it_stands(names, id);
        assert(state::profile_id(names[i]) == Some(id));
        assert(disk.contains_key(id));
        if !runtime::served(connections, id) {
            let k = choose|k: int|
                0 <= k < found.len() && (#[trigger] found[k]).connection_id@ == id;
            assert forall|j: int| 0 <= j < found.len() && j != k implies (
            #[trigger] found[j]).connection_id@ != found[k].connection_id@ by {
                if j < k {
                    assert(found[j].connection_id@ != found[k].connection_id@);
                } else {
                    assert(found[k].connection_id@ != found[j].connection_id@);
                }
            }
            assert(found[k].connection_id@ == id);
        }
    }
    if 0 <= i < found.len() {
        let id = found[i].connection_id@;
        assert(disk.contains_key(id));
        a_profile_counts_wherever_it_stands(names, id);
    }
}

/// A newcomer comes last, with its profile's pipes, nothing queued and heard of
/// just now; whoever was there is left as they were.
pub proof fn a_newcomer_comes_last(
    service: ServiceModel,
    id: Seq<char>,
    profile: ConnectionProfile,
    now_ms: int,
)
    ensures
        ({
            let after = service.welcomed(id, profile, now_ms);
            let n = service.connections.len() as int;
            &&& after.connections.len() == n + 1
            &&& after.connections.take(n) == service.connections
            &&& after.connections[n].connection_id == id
            &&& after.connections[n].client_to_server == profile.client_to_server_pipe@
            &&& after.connections[n].server_to_client == profile.server_to_client_pipe@
            &&& after.connections[n].outbox == Seq::<JsonModel>::empty()
            &&& after.connections[n].last_message_ms == now_ms
            &&& after.timers == service.timers && after.closes == service.closes && after.calls
                == service.calls
            &&& after.started_ms == service.started_ms && after.flag_updated_ms
                == service.flag_updated_ms && after.next_scan_ms == service.next_scan_ms
        }),
{
}

/// Who stays stays as they are and in their order: a sweep and the disconnection
/// of silent clients do nothing but leave connections out.
pub proof fn staying_changes_nothing(
    service: ServiceModel,
    disk: Map<Seq<char>, Seq<char>>,
    now_ms: int,
)
    ensures
        ({
            let swept = service.only(runtime::present(disk));
            let heard = service.only(runtime::heard(now_ms));
            &&& swept.connections == service.connections.filter(
                |c: ConnectionModel| disk.contains_key(c.connection_id),
            )
            &&& heard.connections == service.connections.filter(
                |c: ConnectionModel| now_ms < c.last_message_ms + 120_000,
            )
            &&& swept.timers == service.timers && swept.closes == service.closes && swept.calls
                == service.calls
            &&& heard.timers == service.timers && heard.closes == service.closes && heard.calls
                == service.calls
        }),
{
    seqs::filter_agrees(
        service.connections,
        runtime::present(disk),
        |c: ConnectionModel| disk.contains_key(c.connection_id),
    );
    seqs::filter_agrees(
        service.connections,
        runtime::heard(now_ms),
        |c: ConnectionModel| now_ms < c.last_message_ms + 120_000,
    );
}

/// Who leaves is told of by id, with the reason, and has its own pipes to be
/// removed.
pub proof fn leaving_is_told_of_by_id(
    batch: BatchModel,
    gone: Seq<ConnectionModel>,
    reason: CloseReason,
    i: int,
)
    requires
        0 <= i < gone.len(),
    ensures
        ({
            let told = batch.with_closed(gone, reason);
            let n = batch.closed_connections.len() as int;
            &&& told.closed_connections.len() == n + gone.len()
            &&& told.closed_connections.take(n) == batch.closed_connections
            &&& told.closed_connections[n + i] == (ClosedModel {
                connection_id: gone[i].connection_id,
                reason,
            })
            &&& told.new_connections == batch.new_connections && told.messages == batch.messages
                && told.expired_timers == batch.expired_timers && told.now_ms == batch.now_ms
            &&& runtime::departing()(gone[i]) == (DepartureModel {
                connection_id: gone[i].connection_id,
                client_to_server: gone[i].client_to_server,
                server_to_client: gone[i].server_to_client,
            })
        }),
{
}

/// The engine is left alone exactly where nobody came, nobody left, nothing was
/// said and no timer expired.
pub proof fn the_engine_hears_of_every_event(batch: BatchModel)
    ensures
        batch.uneventful() <==> batch.new_connections.len() + batch.closed_connections.len()
            + batch.messages.len() + batch.expired_timers.len() == 0,
{
}

// ---------------------------------------------------------------------------
// What clients do
// ---------------------------------------------------------------------------

/// What one client does leaves every other connection as it was. A frame and an
/// answered poll change when the client's own connection was heard of; the poll
/// empties its queue too; and nothing else about it changes.
pub proof fn what_a_client_does_is_its_own(id: Seq<char>, now_ms: int, c: ConnectionModel)
    ensures
        c.connection_id != id ==> runtime::touched(id, now_ms)(c) == c,
        c.connection_id != id ==> runtime::answered(id, now_ms)(c) == c,
        c.connection_id == id ==> runtime::touched(id, now_ms)(c) == (ConnectionModel {
            last_message_ms: now_ms,
            ..c
        }),
        c.connection_id == id ==> runtime::answered(id, now_ms)(c) == (ConnectionModel {
            last_message_ms: now_ms,
            outbox: seq![],
            ..c
        }),
{
}

/// Frames that arrive concern the connection they come from, where there are any,
/// and nothing else that the service knows.
pub proof fn frames_concern_their_connection(
    service: ServiceModel,
    id: Seq<char>,
    frames: Seq<Seq<char>>,
    now_ms: int,
    i: int,
)
    requires
        0 <= i < service.connections.len(),
    ensures
        ({
            let after = service.received(id, frames, now_ms);
            let c = service.connections[i];
            &&& after.connections.len() == service.connections.len()
            &&& c.connection_id != id || frames.len() == 0 ==> after.connections[i] == c
            &&& c.connection_id == id && frames.len() > 0 ==> after.connections[i]
                == (ConnectionModel { last_message_ms: now_ms, ..c })
            &&& after.timers == service.timers && after.closes == service.closes && after.calls
                == service.calls
        }),
{
    if service.connections[i].connection_id == id {
        assert(runtime::served(service.connections, id));
    }
}

/// Of the frames that arrive the engine is told of exactly those that are JSON
/// and no heartbeat, in the order they came, each as what it says and under the
/// id of the connection it came from.
pub proof fn messages_are_told_of_in_order(
    batch: BatchModel,
    id: Seq<char>,
    frames: Seq<Seq<char>>,
)
    ensures
        ({
            let told = batch.with_messages(id, frames);
            &&& told.messages == batch.messages + frames.filter(
                |f: Seq<char>|
                    json::parsed(f) is Some && !heartbeat::beats(json::parsed(f)->Some_0),
            ).map_values(
                |f: Seq<char>|
                    MessageModel { connection_id: id, message: json::parsed(f)->Some_0 },
            )
            &&& told.new_connections == batch.new_connections && told.closed_connections
                == batch.closed_connections && told.expired_timers == batch.expired_timers
                && told.now_ms == batch.now_ms
        }),
    decreases frames.len(),
{
    let says = |f: Seq<char>|
        json::parsed(f) is Some && !heartbeat::beats(json::parsed(f)->Some_0);
    let said = |f: Seq<char>| MessageModel { connection_id: id, message: json::parsed(f)->Some_0 };
    reveal(Seq::filter);
    if frames.len() > 0 {
        let rest = frames.drop_last();
        messages_are_told_of_in_order(batch, id, rest);
        let heard = runtime::for_the_engine(rest).map_values(runtime::from_connection(id));
        assert(batch.messages + heard == batch.messages + rest.filter(says).map_values(said));
        assert(heard == rest.filter(says).map_values(said)) by {
            let a = batch.messages + heard;
            let b = batch.messages + rest.filter(says).map_values(said);
            let n = batch.messages.len() as int;
            assert(a.skip(n) == heard);
            assert(b.skip(n) == rest.filter(says).map_values(said));
        }
        if says(frames.last()) {
            let message = json::parsed(frames.last())->Some_0;
            assert(runtime::for_the_engine(frames).map_values(runtime::from_connection(id))
                == heard.push(MessageModel { connection_id: id, message }));
            assert(frames.filter(says).map_values(said) == rest.filter(says).map_values(said).push(
                said(frames.last()),
            ));
        }
    }
}

// ---------------------------------------------------------------------------
// What the engine wants
// ---------------------------------------------------------------------------

/// What is addressed to a connection is exactly the messages under its id, all
/// of them, in the order the engine gave them.
pub proof fn messages_go_where_they_are_addressed(messages: Seq<MessageModel>, id: Seq<char>)
    ensures
        runtime::addressed(messages, id) == messages.filter(
            |m: MessageModel| m.connection_id == id,
        ).map_values(|m: MessageModel| m.message),
    decreases messages.len(),
{
    let here = |m: MessageModel| m.connection_id == id;
    let said = |m: MessageModel| m.message;
    reveal(Seq::filter);
    if messages.len() > 0 {
        let rest = messages.drop_last();
        messages_go_where_they_are_addressed(rest, id);
        if here(messages.last()) {
            assert(messages.filter(here).map_values(said) == rest.filter(here).map_values(
                said,
            ).push(messages.last().message));
        }
    }
}

/// What is addressed in two lots is addressed in both, one after the other.
pub proof fn messages_are_addressed_one_by_one(
    first: Seq<MessageModel>,
    second: Seq<MessageModel>,
    m: MessageModel,
    id: Seq<char>,
)
    ensures
        runtime::addressed(first + second, id) == runtime::addressed(first, id)
            + runtime::addressed(second, id),
        runtime::addressed(seq![m], id) == if m.connection_id == id {
            seq![m.message]
        } else {
            seq![]
        },
    decreases second.len(),
{
    assert(seq![m].drop_last() == Seq::<MessageModel>::empty());
    assert(runtime::addressed(Seq::<MessageModel>::empty(), id) == Seq::<JsonModel>::empty());
    if second.len() == 0 {
        assert(first + second == first);
    } else {
        messages_are_addressed_one_by_one(first, second.drop_last(), m, id);
        assert((first + second).drop_last() == first + second.drop_last());
        assert((first + second).last() == second.last());
    }
}

/// Once the engine's wishes are done, the connections it did not close are
/// served as before, each with the messages under its id queued behind what it
/// had, and in the same order; timers aside, nothing else has changed but that
/// the closes are to be reported.
pub proof fn an_output_is_done_in_full(service: ServiceModel, output: OutputModel)
    ensures
        ({
            let after = service.applied(output);
            &&& after.connections == service.connections.map_values(
                |c: ConnectionModel|
                    ConnectionModel {
                        outbox: c.outbox + output.messages.filter(
                            |m: MessageModel| m.connection_id == c.connection_id,
                        ).map_values(|m: MessageModel| m.message),
                        ..c
                    },
            ).filter(|c: ConnectionModel| !output.close_connections.contains(c.connection_id))
            &&& after.started_ms == service.started_ms && after.flag_updated_ms
                == service.flag_updated_ms && after.next_scan_ms == service.next_scan_ms
                && after.calls == service.calls
            &&& after.closes.take(service.closes.len() as int) == service.closes
            &&& after.timers == service.timers.filter(
                |t: TimerModel| !output.cancel_timers.contains(t.timer_id),
            ) + output.timers
        }),
{
    let with_mail = |c: ConnectionModel|
        ConnectionModel {
            outbox: c.outbox + output.messages.filter(
                |m: MessageModel| m.connection_id == c.connection_id,
            ).map_values(|m: MessageModel| m.message),
            ..c
        };
    let queued = service.queued(output);
    let stays = |c: ConnectionModel| !output.close_connections.contains(c.connection_id);
    assert forall|i: int| 0 <= i < queued.len() implies queued[i] == with_mail(
        service.connections[i],
    ) by {
        messages_go_where_they_are_addressed(
            output.messages,
            service.connections[i].connection_id,
        );
    }
    assert(queued == service.connections.map_values(with_mail));
    seqs::filter_agrees(queued, runtime::not_among(output.close_connections), stays);
    assert(service.applied(output).closes.take(service.closes.len() as int) == service.closes);
    let lasts = |t: TimerModel| !output.cancel_timers.contains(t.timer_id);
    seqs::filter_agrees(service.timers, timers::not_named(output.cancel_timers), lasts);
}

/// Closes are done in the order in which the engine first names the connections.
pub proof fn closes_are_done_in_order(
    connections: Seq<ConnectionModel>,
    ids: Seq<Seq<char>>,
    i: int,
    j: int,
)
    requires
        0 <= i < j < runtime::closed_in_turn(connections, ids).len(),
        runtime::distinct(connections),
    ensures
        ({
            let closed = runtime::closed_in_turn(connections, ids);
            exists|k: int|
                0 <= k < ids.len() && #[trigger] ids[k] == closed[i].connection_id
                    && forall|m: int|
                    0 <= m < ids.len() && #[trigger] ids[m] == closed[j].connection_id ==> k < m
        }),
    decreases ids.len(),
{
    let closed = runtime::closed_in_turn(connections, ids);
    let rest = ids.drop_last();
    let before = runtime::closed_in_turn(connections, rest);
    let n = ids.len() - 1;
    seqs::filter_members(connections, runtime::named(ids.last()));
    named_are_among(connections, rest);
    if j < before.len() {
        closes_are_done_in_order(connections, rest, i, j);
        let k = choose|k: int|
            0 <= k < rest.len() && #[trigger] rest[k] == before[i].connection_id && forall|m: int|
                0 <= m < rest.len() && #[trigger] rest[m] == before[j].connection_id ==> k < m;
        assert(ids[k] == closed[i].connection_id);
        assert forall|m: int|
            0 <= m < ids.len() && #[trigger] ids[m] == closed[j].connection_id implies k < m by {
            if m < n {
                assert(rest[m] == before[j].connection_id);
            }
        }
    } else {
        let found = connections.filter(runtime::named(ids.last()));
        assert(closed == before + found);
        assert(closed[j] == found[j - before.len()]);
        assert(runtime::named(ids.last())(found[j - before.len()]));
        if i < before.len() {
            assert(rest.contains(before[i].connection_id));
            let k = choose|k: int| 0 <= k < rest.len() && rest[k] == before[i].connection_id;
            assert(ids[k] == closed[i].connection_id);
            assert forall|m: int|
                0 <= m < ids.len() && #[trigger] ids[m] == closed[j].connection_id implies k
                < m by {
                if m < n {
                    assert(rest[m] == ids.last());
                    assert(rest.contains(ids.last()));
                }
            }
        } else {
            runtime::filtering_keeps_distinct(connections, runtime::named(ids.last()));
            assert(runtime::named(ids.last())(found[i - before.len()]));
            assert(found[i - before.len()].connection_id != found[j
                - before.len()].connection_id);
        }
    }
}

/// Whoever is closed was named.
proof fn named_are_among(connections: Seq<ConnectionModel>, ids: Seq<Seq<char>>)
    ensures
        forall|i: int|
            0 <= i < runtime::closed_in_turn(connections, ids).len() ==> ids.contains(
                (#[trigger] runtime::closed_in_turn(connections, ids)[i]).connection_id,
            ),
    decreases ids.len(),
{
    if ids.len() > 0 {
        let rest = ids.drop_last();
        let before = runtime::closed_in_turn(connections, rest);
        let closed = runtime::closed_in_turn(connections, ids);
        named_are_among(connections, rest);
        seqs::filter_members(connections, runtime::named(ids.last()));
        assert forall|i: int| 0 <= i < closed.len() implies ids.contains(
            (#[trigger] closed[i]).connection_id,
        ) by {
            if i < before.len() {
                assert(rest.contains(before[i].connection_id));
                let k = choose|k: int| 0 <= k < rest.len() && rest[k] == before[i].connection_id;
                assert(ids[k] == closed[i].connection_id);
            } else {
                let found = connections.filter(runtime::named(ids.last()));
                assert(runtime::named(ids.last())(found[i - before.len()]));
                assert(ids[ids.len() - 1] == closed[i].connection_id);
            }
        }
    }
}

/// A text that delivers messages is the JSON array of all of them, in order, and
/// a farewell has the pipes of its connection, and its messages where there are
/// any.
pub proof fn deliveries_are_whole(
    text: Seq<char>,
    outbox: Seq<JsonModel>,
    farewell: Farewell,
    c: ConnectionModel,
)
    ensures
        runtime::delivers(text, outbox) ==> text == json::rendered(JsonModel::Array(outbox)),
        farewell.bids(c) ==> {
            &&& farewell.connection_id@ == c.connection_id
            &&& farewell.pipe_names.client_to_server@ == c.client_to_server
            &&& farewell.pipe_names.server_to_client@ == c.server_to_client
            &&& farewell.last_words is Some <==> c.outbox.len() > 0
            &&& farewell.last_words matches Some(words) ==> words@ == json::rendered(
                JsonModel::Array(c.outbox),
            )
        },
{
}

/// A timer that has expired is told of and waits no longer; one that has not
/// waits on. Connections do not mind.
pub proof fn timers_are_told_of_or_wait(
    service: ServiceModel,
    batch: BatchModel,
    t: TimerModel,
)
    requires
        batch.expired_timers.len() == 0,
    ensures
        ({
            let told = batch.with_expired(service.timers).expired_timers;
            let left = service.without_expired(batch.now_ms);
            &&& told.contains(t) <==> service.timers.contains(t) && t.expiry_ms <= batch.now_ms
            &&& left.timers.contains(t) <==> service.timers.contains(t) && t.expiry_ms
                > batch.now_ms
            &&& told.len() + left.timers.len() == service.timers.len()
            &&& left.connections == service.connections && left.closes == service.closes
                && left.calls == service.calls
        }),
{
    let now_ms = batch.now_ms;
    let fired = timers::fired(service.timers, now_ms);
    let told = batch.with_expired(service.timers).expired_timers;
    let rest = service.timers.filter(timers::pending(now_ms));
    let due = service.timers.filter(timers::due(now_ms));
    assert(told == fired);
    timers::fired_in_order(service.timers, now_ms);
    timers::no_timer_is_lost(service.timers, now_ms);
    seqs::tally_is_count(fired, t);
    seqs::tally_is_count(due, t);
    seqs::tally_none(fired, seqs::is(t));
    seqs::tally_none(due, seqs::is(t));
    assert(fired.contains(t) <==> due.contains(t)) by {
        if fired.contains(t) {
            let i = choose|i: int| 0 <= i < fired.len() && fired[i] == t;
            assert(seqs::is(t)(fired[i]));
        }
        if due.contains(t) {
            let i = choose|i: int| 0 <= i < due.len() && due[i] == t;
            assert(seqs::is(t)(due[i]));
        }
    }
    contained(service.timers, timers::due(now_ms), t);
    contained(service.timers, timers::pending(now_ms), t);
    broadcast use vstd::seq_lib::group_to_multiset_ensures;

    assert(fired.to_multiset().add(rest.to_multiset()).len() == service.timers.to_multiset().len());
}

/// What a filter lets through.
proof fn contained<A>(s: Seq<A>, p: spec_fn(A) -> bool, a: A)
    ensures
        s.filter(p).contains(a) <==> s.contains(a) && p(a),
{
    seqs::filter_members(s, p);
    let f = s.filter(p);
    if f.contains(a) {
        let i = choose|i: int| 0 <= i < f.len() && f[i] == a;
        assert(p(f[i]) && s.contains(f[i]));
    }
    if s.contains(a) && p(a) {
        let i = choose|i: int| 0 <= i < s.len() && s[i] == a;
        assert(f.contains(s[i]));
    }
}

/// A call of the engine is written down with what it was told and what it wants,
/// behind the calls before; otherwise only what it wants is done.
pub proof fn a_call_is_written_down(service: ServiceModel, batch: BatchModel, output: OutputModel)
    ensures
        ({
            let after = service.consulted(batch, output);
            &&& after.calls == service.calls.push(CallModel::Process { batch, output })
            &&& after.connections == service.applied(output).connections
            &&& after.timers == service.applied(output).timers
            &&& after.closes == service.applied(output).closes
        }),
{
}

/// A batch is seen as it is: everything in each of its lists, in order, and what is
/// left of a connection that ends is its id and the names of its pipes.
pub proof fn a_batch_is_seen_whole(batch: Batch, departure: Departure, c: ConnectionModel, i: int)
    ensures
        batch@.now_ms == batch.now_ms,
        batch@.new_connections.len() == batch.new_connections@.len(),
        0 <= i < batch.new_connections@.len() ==> batch@.new_connections[i]
            == batch.new_connections@[i]@,
        batch@.closed_connections.len() == batch.closed_connections@.len(),
        0 <= i < batch.closed_connections@.len() ==> batch@.closed_connections[i]
            == batch.closed_connections@[i]@,
        batch@.messages.len() == batch.messages@.len(),
        0 <= i < batch.messages@.len() ==> batch@.messages[i] == batch.messages@[i]@,
        batch@.expired_timers.len() == batch.expired_timers@.len(),
        0 <= i < batch.expired_timers@.len() ==> batch@.expired_timers[i]
            == batch.expired_timers@[i]@,
        departure@.connection_id == departure.connection_id@,
        departure@.client_to_server == departure.pipe_names.client_to_server@,
        departure@.server_to_client == departure.pipe_names.server_to_client@,
        runtime::departing()(c).connection_id == c.connection_id,
        runtime::departing()(c).client_to_server == c.client_to_server,
        runtime::departing()(c).server_to_client == c.server_to_client,
{
}

/// Every close that an output brings about is remembered, behind those that were
/// remembered before, in the order in which the connections are closed.
pub proof fn closes_are_remembered(service: ServiceModel, output: OutputModel, i: int)
    ensures
        ({
            let after = service.applied(output).closes;
            let closing = service.closing(output);
            let n = service.closes.len() as int;
            &&& after.len() == n + closing.len()
            &&& after.take(n) == service.closes
            &&& 0 <= i < closing.len() ==> after[n + i] == closing[i].connection_id
        }),
{
    let n = service.closes.len() as int;
    assert(service.applied(output).closes.take(n) == service.closes);
}

/// Only the beginning of a turn moves the times by which a service goes: what comes
/// of scans, frames, timers and calls leaves them as they are.
pub proof fn only_a_beginning_moves_the_times(
    service: ServiceModel,
    staying: spec_fn(ConnectionModel) -> bool,
    id: Seq<char>,
    frames: Seq<Seq<char>>,
    now_ms: int,
    batch: BatchModel,
    output: OutputModel,
)
    ensures
        ({
            let left = service.only(staying);
            let heard = service.received(id, frames, now_ms);
            let waiting = service.without_expired(now_ms);
            let told = service.consulted(batch, output);
            let started_ms = service.started_ms;
            let flag_updated_ms = service.flag_updated_ms;
            let next_scan_ms = service.next_scan_ms;
            &&& left.started_ms == started_ms && heard.started_ms == started_ms
                && waiting.started_ms == started_ms && told.started_ms == started_ms
            &&& left.flag_updated_ms == flag_updated_ms && heard.flag_updated_ms == flag_updated_ms
                && waiting.flag_updated_ms == flag_updated_ms && told.flag_updated_ms
                == flag_updated_ms
            &&& left.next_scan_ms == next_scan_ms && heard.next_scan_ms == next_scan_ms
                && waiting.next_scan_ms == next_scan_ms && told.next_scan_ms == next_scan_ms
        }),
{
}

/// Timers that fire are told of behind what was told before, and change nothing else of
/// a batch.
pub proof fn timers_are_told_of_last(batch: BatchModel, timers: Seq<TimerModel>)
    ensures
        ({
            let told = batch.with_expired(timers);
            let n = batch.expired_timers.len() as int;
            &&& told.expired_timers.take(n) == batch.expired_timers
            &&& told.expired_timers.len() == n + timers.filter(
                |t: TimerModel| t.expiry_ms <= batch.now_ms,
            ).len()
            &&& told.now_ms == batch.now_ms && told.new_connections == batch.new_connections
                && told.closed_connections == batch.closed_connections && told.messages
                == batch.messages
        }),
{
    let n = batch.expired_timers.len() as int;
    assert(batch.with_expired(timers).expired_timers.take(n) == batch.expired_timers);
    seqs::filter_agrees(
        timers,
        timers::due(batch.now_ms),
        |t: TimerModel| t.expiry_ms <= batch.now_ms,
    );
    timers::fired_in_order(timers, batch.now_ms);
    let fired = timers::fired(timers, batch.now_ms);
    assert(fired.to_multiset().len() == fired.len()) by {
        fired.to_multiset_ensures();
    }
    let due = timers.filter(timers::due(batch.now_ms));
    assert(due.to_multiset().len() == due.len()) by {
        due.to_multiset_ensures();
    }
}

} // verus!
