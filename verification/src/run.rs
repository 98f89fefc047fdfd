//! What holds of a whole run of the service: of its turns, one after the other.
use crate::engine::{
    BatchModel, CallModel, CloseReason, ClosedModel, MessageModel, NewModel, OutputModel,
    TimerModel,
};
use crate::json::JsonModel;
use crate::runtime;
use crate::runtime::{ConnectionModel, ServiceModel};
use crate::seqs;
use crate::state::ConnectionProfile;
use crate::timers;
use vstd::prelude::*;

verus! {

/// What happens in a turn.
pub struct TurnModel {
    pub now_ms: int,
    /// Where the state folder was scanned: the profiles it held.
    pub scanned: Option<Map<Seq<char>, Seq<char>>>,
    /// The profiles that were loaded and whose pipes could be served.
    pub newcomers: Seq<(Seq<char>, ConnectionProfile)>,
    /// The frames that came, and from which connections.
    pub arrivals: Seq<(Seq<char>, Seq<Seq<char>>)>,
    /// What the engine wanted, where it was called.
    pub output: Option<OutputModel>,
    /// The connections whose waiting clients were answered.
    pub polls: Seq<Seq<char>>,
}

impl ServiceModel {
    /// What the service knows with newcomers taken up, one after the other.
    pub open spec fn joined_by(
        self,
        newcomers: Seq<(Seq<char>, ConnectionProfile)>,
        now_ms: int,
    ) -> ServiceModel
        decreases newcomers.len(),
    {
        if newcomers.len() == 0 {
            self
        } else {
            let before = self.joined_by(newcomers.drop_last(), now_ms);
            let (id, profile) = newcomers.last();
            if runtime::served(before.connections, id) {
                before
            } else {
                before.welcomed(id, profile, now_ms)
            }
        }
    }

    /// What the service knows once frames have arrived from connections, one
    /// after the other.
    pub open spec fn hearing(
        self,
        arrivals: Seq<(Seq<char>, Seq<Seq<char>>)>,
        now_ms: int,
    ) -> ServiceModel
        decreases arrivals.len(),
    {
        if arrivals.len() == 0 {
            self
        } else {
            self.hearing(arrivals.drop_last(), now_ms).received(
                arrivals.last().0,
                arrivals.last().1,
                now_ms,
            )
        }
    }

    /// What the service knows with this turn's newcomers.
    pub open spec fn in_turn_joined(self, turn: TurnModel) -> ServiceModel {
        self.begun(turn.now_ms).joined_by(turn.newcomers, turn.now_ms)
    }

    /// What the service knows once it has let go of the connections whose
    /// profile has vanished.
    pub open spec fn in_turn_swept(self, turn: TurnModel) -> ServiceModel {
        match turn.scanned {
            Some(disk) => self.in_turn_joined(turn).only(runtime::present(disk)),
            None => self.in_turn_joined(turn),
        }
    }

    /// What the service knows once this turn's frames have arrived.
    pub open spec fn in_turn_heard(self, turn: TurnModel) -> ServiceModel {
        self.in_turn_swept(turn).hearing(turn.arrivals, turn.now_ms)
    }

    /// What the service knows before the engine's part of a turn.
    pub open spec fn in_turn_left(self, turn: TurnModel) -> ServiceModel {
        self.in_turn_heard(turn).only(runtime::heard(turn.now_ms)).without_expired(turn.now_ms)
    }

    /// What the service knows after the engine's part of a turn.
    pub open spec fn after_turn(self, turn: TurnModel) -> ServiceModel {
        match turn.output {
            Some(output) => self.in_turn_left(turn).consulted(self.batch_in(turn), output),
            None => self.in_turn_left(turn),
        }
    }

    /// What the engine is told of a turn.
    pub open spec fn batch_in(self, turn: TurnModel) -> BatchModel {
        BatchModel {
            now_ms: turn.now_ms,
            new_connections: self.begun(turn.now_ms).announcing(turn.newcomers, turn.now_ms),
            closed_connections: self.told_of(turn),
            messages: self.in_turn_swept(turn).saying(turn.arrivals),
            expired_timers: timers::fired(self.timers, turn.now_ms),
        }
    }

    /// The newcomers that the engine is told of.
    pub open spec fn announcing(
        self,
        newcomers: Seq<(Seq<char>, ConnectionProfile)>,
        now_ms: int,
    ) -> Seq<NewModel>
        decreases newcomers.len(),
    {
        if newcomers.len() == 0 {
            seq![]
        } else {
            let before = self.announcing(newcomers.drop_last(), now_ms);
            let (id, profile) = newcomers.last();
            if runtime::served(self.joined_by(newcomers.drop_last(), now_ms).connections, id) {
                before
            } else {
                before.push(NewModel { connection_id: id, user_id: profile.user_id@ })
            }
        }
    }

    /// The messages in arrivals that the engine is told of.
    pub open spec fn saying(self, arrivals: Seq<(Seq<char>, Seq<Seq<char>>)>) -> Seq<MessageModel>
        decreases arrivals.len(),
    {
        if arrivals.len() == 0 {
            seq![]
        } else {
            let before = self.saying(arrivals.drop_last());
            let (id, frames) = arrivals.last();
            if runtime::served(self.connections, id) {
                before + runtime::for_the_engine(frames).map_values(runtime::from_connection(id))
            } else {
                before
            }
        }
    }

    /// The ends that the engine ordered before, as they are reported.
    pub open spec fn ordered_ends(self) -> Seq<ClosedModel> {
        self.closes.map_values(runtime::ordered_close())
    }

    /// The connections whose profile has vanished in a turn.
    pub open spec fn vanishing_in(self, turn: TurnModel) -> Seq<ConnectionModel> {
        match turn.scanned {
            Some(disk) => self.in_turn_joined(turn).connections.filter(runtime::vanished(disk)),
            None => seq![],
        }
    }

    /// The connections whose clients were silent too long in a turn.
    pub open spec fn silent_in(self, turn: TurnModel) -> Seq<ConnectionModel> {
        self.in_turn_heard(turn).connections.filter(runtime::silent(turn.now_ms))
    }

    /// The ends that the engine is told of in a turn.
    pub open spec fn told_of(self, turn: TurnModel) -> Seq<ClosedModel> {
        self.ordered_ends() + self.vanishing_in(turn).map_values(
            runtime::closed_as(CloseReason::ClientDisconnected),
        ) + self.silent_in(turn).map_values(runtime::closed_as(CloseReason::ServerIdleTimeout))
    }
}

/// The end of a connection, for that reason.
pub open spec fn ended(id: Seq<char>, reason: CloseReason) -> ClosedModel {
    ClosedModel { connection_id: id, reason }
}

/// A change that keeps ids keeps which connections are served, and their ids
/// distinct.
proof fn change_keeps_ids(
    connections: Seq<ConnectionModel>,
    change: spec_fn(ConnectionModel) -> ConnectionModel,
)
    requires
        forall|c: ConnectionModel| (#[trigger] change(c)).connection_id == c.connection_id,
        runtime::distinct(connections),
    ensures
        runtime::distinct(connections.map_values(change)),
        forall|id: Seq<char>| #[trigger]
            runtime::served(connections.map_values(change), id) == runtime::served(connections, id),
{
    let after = connections.map_values(change);
    assert forall|i: int, j: int| 0 <= i < j < after.len() implies (
    #[trigger] after[i]).connection_id != (#[trigger] after[j]).connection_id by {
        assert(connections[i].connection_id != connections[j].connection_id);
    }
    assert forall|id: Seq<char>|
        #[trigger] runtime::served(after, id) == runtime::served(connections, id) by {
        if runtime::served(connections, id) {
            let i = choose|i: int|
                0 <= i < connections.len() && (#[trigger] connections[i]).connection_id == id;
            assert(after[i].connection_id == id);
        }
        if runtime::served(after, id) {
            let i = choose|i: int|
                0 <= i < after.len() && (#[trigger] after[i]).connection_id == id;
            assert(change(connections[i]).connection_id == connections[i].connection_id);
        }
    }
}

/// Newcomers drive nobody out, and every id is still served once.
proof fn newcomers_join(
    service: ServiceModel,
    newcomers: Seq<(Seq<char>, ConnectionProfile)>,
    now_ms: int,
)
    requires
        runtime::distinct(service.connections),
    ensures
        runtime::distinct(service.joined_by(newcomers, now_ms).connections),
        forall|id: Seq<char>|
            runtime::served(service.connections, id) ==> #[trigger] runtime::served(
                service.joined_by(newcomers, now_ms).connections,
                id,
            ),
        service.joined_by(newcomers, now_ms).closes == service.closes,
        service.joined_by(newcomers, now_ms).calls == service.calls,
        service.joined_by(newcomers, now_ms).timers == service.timers,
        service.joined_by(newcomers, now_ms).started_ms == service.started_ms,
    decreases newcomers.len(),
{
    if newcomers.len() > 0 {
        newcomers_join(service, newcomers.drop_last(), now_ms);
        let before = service.joined_by(newcomers.drop_last(), now_ms).connections;
        let after = service.joined_by(newcomers, now_ms).connections;
        assert forall|i: int| 0 <= i < before.len() implies before[i] == #[trigger] after[i] by {}
        assert forall|i: int, j: int| 0 <= i < j < after.len() implies (
        #[trigger] after[i]).connection_id != (#[trigger] after[j]).connection_id by {
            assert(before[i] == after[i]);
            assert(before[i].connection_id == after[i].connection_id);
        }
        assert forall|id: Seq<char>|
            runtime::served(service.connections, id) implies #[trigger] runtime::served(
            after,
            id,
        ) by {
            assert(runtime::served(before, id));
            let i = choose|i: int|
                0 <= i < before.len() && (#[trigger] before[i]).connection_id == id;
            assert(after[i].connection_id == id);
        }
    }
}

/// Frames that arrive change nothing about which connections are served.
proof fn arrivals_change_no_ids(
    service: ServiceModel,
    arrivals: Seq<(Seq<char>, Seq<Seq<char>>)>,
    now_ms: int,
)
    requires
        runtime::distinct(service.connections),
    ensures
        runtime::distinct(service.hearing(arrivals, now_ms).connections),
        forall|id: Seq<char>| #[trigger]
            runtime::served(service.hearing(arrivals, now_ms).connections, id) == runtime::served(
                service.connections,
                id,
            ),
        service.hearing(arrivals, now_ms).closes == service.closes,
        service.hearing(arrivals, now_ms).calls == service.calls,
        service.hearing(arrivals, now_ms).timers == service.timers,
        service.hearing(arrivals, now_ms).started_ms == service.started_ms,
    decreases arrivals.len(),
{
    if arrivals.len() > 0 {
        arrivals_change_no_ids(service, arrivals.drop_last(), now_ms);
        change_keeps_ids(
            service.hearing(arrivals.drop_last(), now_ms).connections,
            runtime::touched(arrivals.last().0, now_ms),
        );
    }
}

/// Of connections with distinct ids, one is either kept or reported.
proof fn kept_or_reported(
    connections: Seq<ConnectionModel>,
    leaving: spec_fn(ConnectionModel) -> bool,
    staying: spec_fn(ConnectionModel) -> bool,
    reason: CloseReason,
)
    requires
        forall|c: ConnectionModel| #[trigger] leaving(c) == !staying(c),
        runtime::distinct(connections),
    ensures
        runtime::distinct(connections.filter(staying)),
        forall|id: Seq<char>|
            runtime::served(connections.filter(staying), id) ==>
                #[trigger] runtime::served(connections, id),
        forall|id: Seq<char>| #[trigger]
            runtime::served(connections, id) ==> (runtime::served(connections.filter(staying), id)
                <==> !connections.filter(leaving).map_values(runtime::closed_as(reason)).contains(
                ended(id, reason),
            )),
        forall|id: Seq<char>| #[trigger]
            connections.filter(leaving).map_values(runtime::closed_as(reason)).contains(
                ended(id, reason),
            ) ==> runtime::served(connections, id),
{
    let gone = connections.filter(leaving);
    let kept = connections.filter(staying);
    let reported = gone.map_values(runtime::closed_as(reason));
    seqs::filter_members(connections, leaving);
    seqs::filter_members(connections, staying);
    runtime::filtering_keeps_distinct(connections, staying);
    assert forall|id: Seq<char>|
        runtime::served(kept, id) implies #[trigger] runtime::served(connections, id) by {
        let k = choose|k: int| 0 <= k < kept.len() && (#[trigger] kept[k]).connection_id == id;
        assert(connections.contains(kept[k]));
        let i = choose|i: int| 0 <= i < connections.len() && connections[i] == kept[k];
        assert(connections[i].connection_id == id);
    }
    assert forall|id: Seq<char>|
        #[trigger] reported.contains(ended(id, reason)) implies runtime::served(
        connections,
        id,
    ) && !runtime::served(kept, id) by {
        let g = choose|g: int| 0 <= g < reported.len() && reported[g] == ended(id, reason);
        assert(connections.contains(gone[g]) && leaving(gone[g]));
        let i = choose|i: int| 0 <= i < connections.len() && connections[i] == gone[g];
        assert(connections[i].connection_id == id);
        if runtime::served(kept, id) {
            let k = choose|k: int| 0 <= k < kept.len() && (#[trigger] kept[k]).connection_id == id;
            assert(connections.contains(kept[k]) && staying(kept[k]));
            let j = choose|j: int| 0 <= j < connections.len() && connections[j] == kept[k];
            assert(connections[j].connection_id == id);
            assert(i == j);
            assert(leaving(connections[i]) == !staying(connections[i]));
        }
    }
    assert forall|id: Seq<char>|
        #[trigger] runtime::served(connections, id) implies (runtime::served(kept, id)
        <==> !reported.contains(ended(id, reason))) by {
        let i = choose|i: int|
            0 <= i < connections.len() && (#[trigger] connections[i]).connection_id == id;
        assert(leaving(connections[i]) == !staying(connections[i]));
        if leaving(connections[i]) {
            assert(gone.contains(connections[i]));
            let g = choose|g: int| 0 <= g < gone.len() && gone[g] == connections[i];
            assert(reported[g] == ended(id, reason));
        } else {
            assert(kept.contains(connections[i]));
            let k = choose|k: int| 0 <= k < kept.len() && kept[k] == connections[i];
            assert(kept[k].connection_id == id);
        }
    }
}

/// No connection ends in silence. One that is served before a turn is served
/// after it, unless the engine is told in that turn that its client is gone or
/// was silent too long, or has closed it itself and will be told in the next;
/// and one whose end the engine is told of so is served no longer.
pub proof fn no_connection_ends_in_silence(service: ServiceModel, turn: TurnModel, id: Seq<char>)
    requires
        runtime::distinct(service.connections),
    ensures
        ({
            let after = service.after_turn(turn);
            let told = service.told_of(turn);
            let gone = told.contains(ended(id, CloseReason::ClientDisconnected));
            let idle = told.contains(ended(id, CloseReason::ServerIdleTimeout));
            &&& runtime::served(service.connections, id) ==> runtime::served(
                after.connections,
                id,
            ) || gone || idle
                || after.closes.contains(id)
            &&& gone || idle || after.closes.contains(id) ==> !runtime::served(
                after.connections,
                id,
            )
        }),
{
    let now_ms = turn.now_ms;
    let begun = service.begun(now_ms);
    let joined = service.in_turn_joined(turn);
    let swept = service.in_turn_swept(turn);
    let heard_from = service.in_turn_heard(turn);
    let stayed = heard_from.only(runtime::heard(now_ms)).without_expired(now_ms);
    let after = service.after_turn(turn);
    change_keeps_ids(service.connections, runtime::heard_by(now_ms));
    newcomers_join(begun, turn.newcomers, now_ms);
    assert(runtime::served(service.connections, id) ==> runtime::served(
        joined.connections,
        id,
    )) by {
        assert(runtime::served(begun.connections, id) == runtime::served(service.connections, id));
    }
    match turn.scanned {
        Some(disk) => {
            kept_or_reported(
                joined.connections,
                runtime::vanished(disk),
                runtime::present(disk),
                CloseReason::ClientDisconnected,
            );
        },
        None => {},
    }
    arrivals_change_no_ids(swept, turn.arrivals, now_ms);
    kept_or_reported(
        heard_from.connections,
        runtime::silent(now_ms),
        runtime::heard(now_ms),
        CloseReason::ServerIdleTimeout,
    );
    assert(runtime::served(heard_from.connections, id) == runtime::served(swept.connections, id));
    told_by_reason(service, turn, id);
    assert(stayed.closes.len() == 0);
    match turn.output {
        Some(output) => {
            runtime::closed_connections_are_gone(stayed, output);
            let closing = stayed.closing(output);
            assert(after.closes == closing.map_values(runtime::id_of()));
            if runtime::served(closing, id) {
                let k = choose|k: int|
                    0 <= k < closing.len() && (#[trigger] closing[k]).connection_id == id;
                assert(after.closes[k] == id);
            }
            if after.closes.contains(id) {
                let k = choose|k: int| 0 <= k < after.closes.len() && after.closes[k] == id;
                assert(closing[k].connection_id == id);
                assert(runtime::served(closing, id));
            }
            assert(runtime::served(closing, id) <==> runtime::served(stayed.connections, id)
                && output.close_connections.contains(id));
            if !output.close_connections.contains(id) {
                assert(runtime::served(after.connections, id) == runtime::served(
                    stayed.connections,
                    id,
                ));
            }
        },
        None => {},
    }
}

/// What is told of the end of a connection for a reason was found for that
/// reason.
proof fn told_by_reason(service: ServiceModel, turn: TurnModel, id: Seq<char>)
    ensures
        ({
            let told = service.told_of(turn);
            let gone = ended(id, CloseReason::ClientDisconnected);
            let idle = ended(id, CloseReason::ServerIdleTimeout);
            let wanted = ended(id, CloseReason::EngineRequested);
            &&& told.contains(gone) <==> service.vanishing_in(turn).map_values(
                runtime::closed_as(CloseReason::ClientDisconnected),
            ).contains(gone)
            &&& told.contains(idle) <==> service.silent_in(turn).map_values(
                runtime::closed_as(CloseReason::ServerIdleTimeout),
            ).contains(idle)
            &&& told.contains(wanted) <==> service.closes.contains(id)
        }),
{
    let ordered = service.ordered_ends();
    let vanishing = service.vanishing_in(turn).map_values(
        runtime::closed_as(CloseReason::ClientDisconnected),
    );
    let silenced = service.silent_in(turn).map_values(
        runtime::closed_as(CloseReason::ServerIdleTimeout),
    );
    let told = service.told_of(turn);
    let gone = ended(id, CloseReason::ClientDisconnected);
    let idle = ended(id, CloseReason::ServerIdleTimeout);
    let wanted = ended(id, CloseReason::EngineRequested);
    let n = ordered.len() as int;
    let m = n + vanishing.len();
    assert forall|i: int| 0 <= i < told.len() implies #[trigger] told[i] == if i < n {
        ordered[i]
    } else if i < m {
        vanishing[i - n]
    } else {
        silenced[i - m]
    } by {}
    if told.contains(gone) {
        let i = choose|i: int| 0 <= i < told.len() && told[i] == gone;
        assert(vanishing[i - n] == gone);
    }
    if vanishing.contains(gone) {
        let i = choose|i: int| 0 <= i < vanishing.len() && vanishing[i] == gone;
        assert(told[n + i] == gone);
    }
    if told.contains(idle) {
        let i = choose|i: int| 0 <= i < told.len() && told[i] == idle;
        assert(silenced[i - m] == idle);
    }
    if silenced.contains(idle) {
        let i = choose|i: int| 0 <= i < silenced.len() && silenced[i] == idle;
        assert(told[m + i] == idle);
    }
    if told.contains(wanted) {
        let i = choose|i: int| 0 <= i < told.len() && told[i] == wanted;
        assert(ordered[i] == wanted);
        assert(service.closes[i] == id);
    }
    if service.closes.contains(id) {
        let i = choose|i: int| 0 <= i < service.closes.len() && service.closes[i] == id;
        assert(told[i] == wanted);
    }
}

/// Who leaves is reported, and nobody else.
proof fn the_leaving_are_reported(
    connections: Seq<ConnectionModel>,
    leaving: spec_fn(ConnectionModel) -> bool,
    reason: CloseReason,
    id: Seq<char>,
)
    ensures
        connections.filter(leaving).map_values(runtime::closed_as(reason)).contains(
            ended(id, reason),
        ) <==> exists|i: int|
            0 <= i < connections.len() && (#[trigger] connections[i]).connection_id == id
                && leaving(connections[i]),
{
    let gone = connections.filter(leaving);
    let reported = gone.map_values(runtime::closed_as(reason));
    seqs::filter_members(connections, leaving);
    if reported.contains(ended(id, reason)) {
        let g = choose|g: int| 0 <= g < reported.len() && reported[g] == ended(id, reason);
        assert(connections.contains(gone[g]) && leaving(gone[g]));
        let i = choose|i: int| 0 <= i < connections.len() && connections[i] == gone[g];
        assert(connections[i].connection_id == id);
    }
    if exists|i: int|
        0 <= i < connections.len() && (#[trigger] connections[i]).connection_id == id && leaving(
            connections[i],
        ) {
        let i = choose|i: int|
            0 <= i < connections.len() && (#[trigger] connections[i]).connection_id == id
                && leaving(connections[i]);
        assert(gone.contains(connections[i]));
        let g = choose|g: int| 0 <= g < gone.len() && gone[g] == connections[i];
        assert(reported[g] == ended(id, reason));
    }
}

/// Every end is reported for the reason it has: that the connection's profile
/// is gone, that its client was silent too long, or that the engine has closed
/// it; and for each reason whoever it holds of is reported.
pub proof fn every_end_has_its_reason(service: ServiceModel, turn: TurnModel, id: Seq<char>)
    ensures
        ({
            let told = service.told_of(turn);
            let heard_from = service.in_turn_heard(turn).connections;
            &&& told.contains(ended(id, CloseReason::ClientDisconnected)) <==> (turn.scanned
                matches Some(disk) && runtime::served(service.in_turn_joined(turn).connections, id)
                && !disk.contains_key(id))
            &&& told.contains(ended(id, CloseReason::ServerIdleTimeout)) <==> exists|i: int|
                0 <= i < heard_from.len() && (#[trigger] heard_from[i]).connection_id == id
                    && turn.now_ms - heard_from[i].last_message_ms >= runtime::CLIENT_INACTIVITY_MS
            &&& told.contains(ended(id, CloseReason::EngineRequested)) <==> service.closes.contains(
                id,
            )
        }),
{
    let joined = service.in_turn_joined(turn).connections;
    let heard_from = service.in_turn_heard(turn).connections;
    let silent = runtime::silent(turn.now_ms);
    told_by_reason(service, turn, id);
    match turn.scanned {
        Some(disk) => {
            let vanished = runtime::vanished(disk);
            the_leaving_are_reported(joined, vanished, CloseReason::ClientDisconnected, id);
            if runtime::served(joined, id) && !disk.contains_key(id) {
                let i = choose|i: int|
                    0 <= i < joined.len() && (#[trigger] joined[i]).connection_id == id;
                assert(vanished(joined[i]));
            }
        },
        None => {},
    }
    the_leaving_are_reported(heard_from, silent, CloseReason::ServerIdleTimeout, id);
    if exists|i: int|
        0 <= i < heard_from.len() && (#[trigger] heard_from[i]).connection_id == id && turn.now_ms
            - heard_from[i].last_message_ms >= runtime::CLIENT_INACTIVITY_MS {
        let i = choose|i: int|
            0 <= i < heard_from.len() && (#[trigger] heard_from[i]).connection_id == id
                && turn.now_ms - heard_from[i].last_message_ms >= runtime::CLIENT_INACTIVITY_MS;
        assert(silent(heard_from[i]));
    }
}

// ---------------------------------------------------------------------------
// Runs
// ---------------------------------------------------------------------------

impl TurnModel {
    /// Whether the engine ordered the end of the run.
    pub open spec fn ordered_the_end(self) -> bool {
        self.output matches Some(output) && output.shutdown
    }
}

impl ServiceModel {
    /// What the service knows once it has answered waiting clients, one after
    /// the other.
    pub open spec fn polled_by(self, polls: Seq<Seq<char>>, now_ms: int) -> ServiceModel
        decreases polls.len(),
    {
        if polls.len() == 0 {
            self
        } else {
            let before = self.polled_by(polls.drop_last(), now_ms);
            ServiceModel {
                connections: before.connections.map_values(runtime::answered(polls.last(), now_ms)),
                ..before
            }
        }
    }

    /// What the service knows after a whole turn.
    pub open spec fn completed(self, turn: TurnModel) -> ServiceModel {
        self.after_turn(turn).polled_by(turn.polls, turn.now_ms)
    }

    /// What the service knows after turns, one after the other.
    pub open spec fn through(self, turns: Seq<TurnModel>) -> ServiceModel
        decreases turns.len(),
    {
        if turns.len() == 0 {
            self
        } else {
            self.through(turns.drop_last()).completed(turns.last())
        }
    }

    /// Whether the service can have that turn next: it scans when a scan is due,
    /// newcomers have profiles, and the engine is called exactly where something
    /// has happened.
    pub open spec fn allows(self, turn: TurnModel) -> bool {
        &&& turn.scanned is Some <==> self.scan_due(turn.now_ms)
        &&& turn.scanned is None ==> turn.newcomers.len() == 0
        &&& forall|i: int|
            0 <= i < turn.newcomers.len() ==> turn.scanned->Some_0.contains_key(
                (#[trigger] turn.newcomers[i]).0,
            )
        &&& turn.output is Some <==> !self.batch_in(turn).uneventful()
    }

    /// Whether the run is over after a turn that has led here.
    pub open spec fn over(self, turn: TurnModel) -> bool {
        turn.ordered_the_end() || self.deserted(turn.now_ms)
    }

    /// Whether a run can have those turns from here: each is one that the
    /// service can have, and only the last may end the run.
    pub open spec fn runs(self, turns: Seq<TurnModel>) -> bool
        decreases turns.len(),
    {
        if turns.len() == 0 {
            true
        } else {
            let earlier = turns.drop_last();
            &&& self.runs(earlier)
            &&& earlier.len() > 0 ==> !self.through(earlier).over(earlier.last())
            &&& self.through(earlier).allows(turns.last())
        }
    }
}

/// Answering clients changes neither timers, nor closes, nor calls, nor which
/// connections are served.
proof fn polls_change_little(service: ServiceModel, polls: Seq<Seq<char>>, now_ms: int)
    requires
        runtime::distinct(service.connections),
    ensures
        ({
            let after = service.polled_by(polls, now_ms);
            &&& after.timers == service.timers
            &&& after.closes == service.closes
            &&& after.calls == service.calls
            &&& after.started_ms == service.started_ms
            &&& after.connections.len() == service.connections.len()
            &&& runtime::distinct(after.connections)
            &&& forall|id: Seq<char>| #[trigger]
                runtime::served(after.connections, id) == runtime::served(service.connections, id)
        }),
    decreases polls.len(),
{
    if polls.len() > 0 {
        polls_change_little(service, polls.drop_last(), now_ms);
        change_keeps_ids(
            service.polled_by(polls.drop_last(), now_ms).connections,
            runtime::answered(polls.last(), now_ms),
        );
    }
}

/// A turn keeps ids distinct, and the steps before the engine's part call
/// nobody.
proof fn turn_keeps_distinct(service: ServiceModel, turn: TurnModel)
    requires
        runtime::distinct(service.connections),
    ensures
        runtime::distinct(service.begun(turn.now_ms).connections),
        runtime::distinct(service.in_turn_joined(turn).connections),
        runtime::distinct(service.in_turn_swept(turn).connections),
        runtime::distinct(service.in_turn_heard(turn).connections),
        runtime::distinct(service.in_turn_left(turn).connections),
        runtime::distinct(service.after_turn(turn).connections),
        runtime::distinct(service.completed(turn).connections),
        service.in_turn_left(turn).closes == Seq::<Seq<char>>::empty(),
        service.in_turn_left(turn).calls == service.calls,
        service.in_turn_left(turn).timers == service.timers.filter(timers::pending(turn.now_ms)),
        service.completed(turn).timers == service.after_turn(turn).timers,
        service.completed(turn).closes == service.after_turn(turn).closes,
        service.completed(turn).calls == service.after_turn(turn).calls,
{
    let now_ms = turn.now_ms;
    change_keeps_ids(service.connections, runtime::heard_by(now_ms));
    let begun = service.begun(now_ms);
    newcomers_join(begun, turn.newcomers, now_ms);
    let joined = service.in_turn_joined(turn);
    match turn.scanned {
        Some(disk) => {
            runtime::filtering_keeps_distinct(joined.connections, runtime::present(disk));
        },
        None => {},
    }
    let swept = service.in_turn_swept(turn);
    arrivals_change_no_ids(swept, turn.arrivals, now_ms);
    let heard_from = service.in_turn_heard(turn);
    runtime::filtering_keeps_distinct(heard_from.connections, runtime::heard(now_ms));
    let left = service.in_turn_left(turn);
    match turn.output {
        Some(output) => {
            let queued = left.queued(output);
            assert forall|i: int, j: int| 0 <= i < j < queued.len() implies (
            #[trigger] queued[i]).connection_id != (#[trigger] queued[j]).connection_id by {
                assert(left.connections[i].connection_id != left.connections[j].connection_id);
            }
            runtime::filtering_keeps_distinct(
                queued,
                runtime::not_among(output.close_connections),
            );
        },
        None => {},
    }
    polls_change_little(service.after_turn(turn), turn.polls, now_ms);
}

/// A run keeps ids distinct.
proof fn run_keeps_distinct(start: ServiceModel, turns: Seq<TurnModel>)
    requires
        runtime::distinct(start.connections),
    ensures
        runtime::distinct(start.through(turns).connections),
    decreases turns.len(),
{
    if turns.len() > 0 {
        run_keeps_distinct(start, turns.drop_last());
        turn_keeps_distinct(start.through(turns.drop_last()), turns.last());
    }
}

// ---------------------------------------------------------------------------
// A turn, step by step
// ---------------------------------------------------------------------------

impl ServiceModel {
    /// What the engine is to be told once newcomers were welcomed, one after the
    /// other.
    pub open spec fn welcoming(
        self,
        batch: BatchModel,
        newcomers: Seq<(Seq<char>, ConnectionProfile)>,
    ) -> BatchModel
        decreases newcomers.len(),
    {
        if newcomers.len() == 0 {
            batch
        } else {
            let earlier = newcomers.drop_last();
            let before = self.welcoming(batch, earlier);
            let (id, profile) = newcomers.last();
            if runtime::served(self.joined_by(earlier, batch.now_ms).connections, id) {
                before
            } else {
                BatchModel {
                    new_connections: before.new_connections.push(
                        NewModel { connection_id: id, user_id: profile.user_id@ },
                    ),
                    ..before
                }
            }
        }
    }

    /// What the engine is to be told once frames were received from connections,
    /// one after the other.
    pub open spec fn listening(
        self,
        batch: BatchModel,
        arrivals: Seq<(Seq<char>, Seq<Seq<char>>)>,
    ) -> BatchModel
        decreases arrivals.len(),
    {
        if arrivals.len() == 0 {
            batch
        } else {
            let earlier = arrivals.drop_last();
            let before = self.listening(batch, earlier);
            let (id, frames) = arrivals.last();
            if runtime::served(self.hearing(earlier, batch.now_ms).connections, id) {
                before.with_messages(id, frames)
            } else {
                before
            }
        }
    }
}

/// Welcoming adds what is announced.
proof fn welcoming_announces(
    service: ServiceModel,
    batch: BatchModel,
    newcomers: Seq<(Seq<char>, ConnectionProfile)>,
)
    requires
        batch.new_connections.len() == 0,
    ensures
        service.welcoming(batch, newcomers) == (BatchModel {
            new_connections: service.announcing(newcomers, batch.now_ms),
            ..batch
        }),
    decreases newcomers.len(),
{
    if newcomers.len() > 0 {
        welcoming_announces(service, batch, newcomers.drop_last());
    } else {
        assert(batch.new_connections == service.announcing(newcomers, batch.now_ms));
    }
}

/// Listening adds what is said.
proof fn listening_hears(
    service: ServiceModel,
    batch: BatchModel,
    arrivals: Seq<(Seq<char>, Seq<Seq<char>>)>,
)
    requires
        runtime::distinct(service.connections),
        batch.messages.len() == 0,
    ensures
        service.listening(batch, arrivals) == (BatchModel {
            messages: service.saying(arrivals),
            ..batch
        }),
    decreases arrivals.len(),
{
    if arrivals.len() > 0 {
        let earlier = arrivals.drop_last();
        listening_hears(service, batch, earlier);
        arrivals_change_no_ids(service, earlier, batch.now_ms);
        assert(runtime::served(
            service.hearing(earlier, batch.now_ms).connections,
            arrivals.last().0,
        ) == runtime::served(service.connections, arrivals.last().0));
    } else {
        assert(batch.messages == service.saying(arrivals));
    }
}

/// What the engine is told of a turn is what the steps of the turn have put
/// together, one after the other: the beginning, welcoming newcomers, the sweep,
/// receiving frames, disconnecting silent clients and taking out timers.
pub proof fn a_batch_is_made_step_by_step(service: ServiceModel, turn: TurnModel)
    requires
        runtime::distinct(service.connections),
    ensures
        ({
            let begun = service.first_news(turn.now_ms);
            let welcomed = service.begun(turn.now_ms).welcoming(begun, turn.newcomers);
            let swept = match turn.scanned {
                Some(disk) => welcomed.with_closed(
                    service.in_turn_joined(turn).connections.filter(runtime::vanished(disk)),
                    CloseReason::ClientDisconnected,
                ),
                None => welcomed,
            };
            let received = service.in_turn_swept(turn).listening(swept, turn.arrivals);
            let disconnected = received.with_closed(
                service.in_turn_heard(turn).connections.filter(runtime::silent(turn.now_ms)),
                CloseReason::ServerIdleTimeout,
            );
            let timers = service.in_turn_heard(turn).timers;
            service.batch_in(turn) == disconnected.with_expired(timers)
        }),
{
    let now_ms = turn.now_ms;
    let begun = service.begun(now_ms);
    let joined = service.in_turn_joined(turn);
    let news = service.first_news(now_ms);
    turn_keeps_distinct(service, turn);
    newcomers_join(begun, turn.newcomers, now_ms);
    welcoming_announces(begun, news, turn.newcomers);
    let welcomed = begun.welcoming(news, turn.newcomers);
    let swept = match turn.scanned {
        Some(disk) => welcomed.with_closed(
            joined.connections.filter(runtime::vanished(disk)),
            CloseReason::ClientDisconnected,
        ),
        None => welcomed,
    };
    let quiet = service.in_turn_swept(turn);
    listening_hears(quiet, swept, turn.arrivals);
    arrivals_change_no_ids(quiet, turn.arrivals, now_ms);
    let timers = service.in_turn_heard(turn).timers;
    assert(timers == service.timers);
    let received = quiet.listening(swept, turn.arrivals);
    let disconnected = received.with_closed(
        service.in_turn_heard(turn).connections.filter(runtime::silent(now_ms)),
        CloseReason::ServerIdleTimeout,
    );
    let told = disconnected.with_expired(timers);
    assert(disconnected.expired_timers.len() == 0);
    assert(told.expired_timers == timers::fired(timers, now_ms));
    assert(told.closed_connections == service.told_of(turn));
    assert(told =~= service.batch_in(turn));
}

// ---------------------------------------------------------------------------
// The engine's lifecycle
// ---------------------------------------------------------------------------

/// The calls of the engine in a run that is over: `shutdown` is called where
/// the end was not ordered.
pub open spec fn all_calls(end: ServiceModel, last: TurnModel) -> Seq<CallModel> {
    if last.ordered_the_end() {
        end.calls
    } else {
        end.calls.push(CallModel::Shutdown(last.now_ms))
    }
}

/// Whether a call has ordered the end of the run.
pub open spec fn orders_the_end(call: CallModel) -> bool {
    call matches CallModel::Process { batch, output } && output.shutdown
}

/// What a run has called so far: `init`, and then nothing but
/// `process_messages`; and none of its calls but the last turn's has ordered
/// the end.
proof fn calls_so_far(started_ms: int, turns: Seq<TurnModel>)
    requires
        ServiceModel::initial(started_ms).runs(turns),
    ensures
        ({
            let end = ServiceModel::initial(started_ms).through(turns);
            &&& end.calls.len() > 0
            &&& end.calls[0] == CallModel::Init(started_ms)
            &&& forall|i: int| 0 < i < end.calls.len() ==> #[trigger] end.calls[i] is Process
            &&& turns.len() > 0 && turns.last().ordered_the_end() ==> orders_the_end(
                end.calls.last(),
            )
            &&& turns.len() == 0 || !turns.last().ordered_the_end() ==> forall|i: int|
                0 <= i < end.calls.len() ==> !orders_the_end(#[trigger] end.calls[i])
        }),
    decreases turns.len(),
{
    let start = ServiceModel::initial(started_ms);
    if turns.len() > 0 {
        let earlier = turns.drop_last();
        let turn = turns.last();
        let before = start.through(earlier);
        calls_so_far(started_ms, earlier);
        run_keeps_distinct(start, earlier);
        turn_keeps_distinct(before, turn);
        let after = before.completed(turn);
        match turn.output {
            Some(output) => {
                let call = CallModel::Process { batch: before.batch_in(turn), output };
                assert(after.calls == before.calls.push(call));
            },
            None => {
                assert(after.calls == before.calls);
            },
        }
    }
}

/// An engine is told once that its run begins, before anything else; it is told
/// once that the run ends, after everything else, and only where it has not
/// ordered the end itself: no connections are then left, and the run has lasted
/// long enough.
pub proof fn init_comes_first_and_shutdown_last(started_ms: int, turns: Seq<TurnModel>)
    requires
        ServiceModel::initial(started_ms).runs(turns),
        turns.len() > 0,
        ServiceModel::initial(started_ms).through(turns).over(turns.last()),
    ensures
        ({
            let end = ServiceModel::initial(started_ms).through(turns);
            let calls = all_calls(end, turns.last());
            let ordered = exists|i: int|
                0 <= i < calls.len() && orders_the_end(#[trigger] calls[i]);
            &&& calls[0] == CallModel::Init(started_ms)
            &&& forall|i: int| 0 < i < calls.len() ==> !(#[trigger] calls[i] is Init)
            &&& forall|i: int| 0 <= i < calls.len() - 1 ==> !(#[trigger] calls[i] is Shutdown)
            &&& calls.last() is Shutdown <==> !ordered
            &&& ordered ==> orders_the_end(calls.last())
            &&& calls.last() is Shutdown ==> {
                &&& calls.last() == CallModel::Shutdown(turns.last().now_ms)
                &&& end.connections.len() == 0
                &&& turns.last().now_ms - end.started_ms >= runtime::IDLE_EXIT_MS
            }
        }),
{
    let end = ServiceModel::initial(started_ms).through(turns);
    let last = turns.last();
    let calls = all_calls(end, last);
    calls_so_far(started_ms, turns);
    if last.ordered_the_end() {
        assert(orders_the_end(calls[calls.len() - 1]));
    } else {
        assert forall|i: int| 0 <= i < calls.len() implies !orders_the_end(
            #[trigger] calls[i],
        ) by {
            if i < end.calls.len() {
                assert(calls[i] == end.calls[i]);
            }
        }
    }
    assert forall|i: int| 0 < i < calls.len() implies !(#[trigger] calls[i] is Init) by {
        if i < end.calls.len() {
            assert(end.calls[i] is Process);
        }
    }
    assert forall|i: int| 0 <= i < calls.len() - 1 implies !(#[trigger] calls[i] is Shutdown) by {
        if i > 0 {
            assert(end.calls[i] is Process);
        }
    }
}

/// Unless time jumps back behind it, the start that a run's length is counted
/// from is the start of the run.
pub proof fn a_run_is_counted_from_its_start(started_ms: int, turns: Seq<TurnModel>)
    requires
        forall|i: int| 0 <= i < turns.len() ==> started_ms <= (#[trigger] turns[i]).now_ms,
    ensures
        ServiceModel::initial(started_ms).through(turns).started_ms == started_ms,
    decreases turns.len(),
{
    let start = ServiceModel::initial(started_ms);
    if turns.len() > 0 {
        let earlier = turns.drop_last();
        let turn = turns.last();
        assert forall|i: int| 0 <= i < earlier.len() implies started_ms <= (
        #[trigger] earlier[i]).now_ms by {
            assert(earlier[i] == turns[i]);
        }
        a_run_is_counted_from_its_start(started_ms, earlier);
        run_keeps_distinct(start, earlier);
        let before = start.through(earlier);
        turn_keeps_distinct(before, turn);
        assert(turns[turns.len() - 1].now_ms >= started_ms);
        newcomers_join(before.begun(turn.now_ms), turn.newcomers, turn.now_ms);
        arrivals_change_no_ids(before.in_turn_swept(turn), turn.arrivals, turn.now_ms);
        polls_change_little(before.after_turn(turn), turn.polls, turn.now_ms);
    }
}

// ---------------------------------------------------------------------------
// Timers
// ---------------------------------------------------------------------------

/// The timers that a call sets.
pub open spec fn sets(call: CallModel) -> Seq<TimerModel> {
    match call {
        CallModel::Process { batch, output } => output.timers,
        _ => seq![],
    }
}

/// The timers that a call reports as expired.
pub open spec fn fires(call: CallModel) -> Seq<TimerModel> {
    match call {
        CallModel::Process { batch, output } => batch.expired_timers,
        _ => seq![],
    }
}

/// Whether a call comes when a timer has expired.
pub open spec fn comes_due(call: CallModel, t: TimerModel) -> bool {
    call matches CallModel::Process { batch, output } && t.expiry_ms <= batch.now_ms
}

/// Whether a call leaves a timer that was set before it as it is: it comes
/// before the timer expires, and does not cancel it.
pub open spec fn spares(call: CallModel, t: TimerModel) -> bool {
    match call {
        CallModel::Process { batch, output } => batch.now_ms < t.expiry_ms
            && !output.cancel_timers.contains(t.timer_id),
        _ => true,
    }
}

/// Whether a timer that is set by call `k` still waits when call `n` comes:
/// every call between the two has spared it.
pub open spec fn waits(calls: Seq<CallModel>, k: int, n: int, t: TimerModel) -> bool {
    forall|i: int| k < i < n ==> spares(#[trigger] calls[i], t)
}

/// How often a timer was set by the first `m` calls and still waits when call
/// `n` comes.
pub open spec fn waiting_timers(calls: Seq<CallModel>, m: nat, n: int, t: TimerModel) -> nat
    decreases m,
{
    if m == 0 {
        0
    } else {
        waiting_timers(calls, (m - 1) as nat, n, t) + if waits(calls, m - 1, n, t) {
            seqs::tally(sets(calls[m - 1]), seqs::is(t))
        } else {
            0
        }
    }
}

/// Later calls make no difference to what waited before.
proof fn later_calls_do_not_matter(
    calls: Seq<CallModel>,
    call: CallModel,
    m: nat,
    n: int,
    t: TimerModel,
)
    requires
        m <= n <= calls.len(),
    ensures
        waiting_timers(calls.push(call), m, n, t) == waiting_timers(calls, m, n, t),
    decreases m,
{
    if m > 0 {
        let more = calls.push(call);
        later_calls_do_not_matter(calls, call, (m - 1) as nat, n, t);
        assert(more[m - 1] == calls[m - 1]);
        assert(waits(more, m - 1, n, t) == waits(calls, m - 1, n, t)) by {
            assert forall|i: int| m - 1 < i < n implies spares(#[trigger] more[i], t) == spares(
                calls[i],
                t,
            ) by {}
            if waits(more, m - 1, n, t) {
                assert forall|i: int| m - 1 < i < n implies spares(#[trigger] calls[i], t) by {
                    assert(spares(more[i], t));
                }
            }
        }
    }
}

/// What waits for the call after `n` is what waited for call `n`, if that has
/// spared it.
proof fn sparing_keeps_waiting(calls: Seq<CallModel>, m: nat, n: int, t: TimerModel)
    requires
        m <= n < calls.len(),
    ensures
        waiting_timers(calls, m, n + 1, t) == if spares(calls[n], t) {
            waiting_timers(calls, m, n, t)
        } else {
            0
        },
    decreases m,
{
    if m > 0 {
        let k = m - 1;
        sparing_keeps_waiting(calls, k as nat, n, t);
        assert(waits(calls, k, n + 1, t) == (waits(calls, k, n, t) && spares(calls[n], t))) by {
            if waits(calls, k, n + 1, t) {
                assert(spares(calls[n], t));
            }
        }
    }
}

/// What fires, and what is left when timers were cancelled and set.
proof fn one_turn_of_timers(
    pending: Seq<TimerModel>,
    now_ms: int,
    cancelled: Seq<Seq<char>>,
    set: Seq<TimerModel>,
    t: TimerModel,
)
    ensures
        seqs::tally(timers::fired(pending, now_ms), seqs::is(t)) == if t.expiry_ms <= now_ms {
            seqs::tally(pending, seqs::is(t))
        } else {
            0
        },
        seqs::tally(pending.filter(timers::pending(now_ms)), seqs::is(t)) == if t.expiry_ms
            <= now_ms {
            0
        } else {
            seqs::tally(pending, seqs::is(t))
        },
        seqs::tally(
            timers::rescheduled(pending.filter(timers::pending(now_ms)), cancelled, set),
            seqs::is(t),
        ) == seqs::tally(set, seqs::is(t)) + if t.expiry_ms <= now_ms || cancelled.contains(
            t.timer_id,
        ) {
            0
        } else {
            seqs::tally(pending, seqs::is(t))
        },
{
    let left = pending.filter(timers::pending(now_ms));
    timers::fired_in_order(pending, now_ms);
    seqs::tally_is_count(timers::fired(pending, now_ms), t);
    seqs::tally_is_count(pending.filter(timers::due(now_ms)), t);
    seqs::tally_filtered(pending, timers::due(now_ms), t);
    seqs::tally_filtered(pending, timers::pending(now_ms), t);
    seqs::tally_filtered(left, timers::not_named(cancelled), t);
    seqs::tally_add(left.filter(timers::not_named(cancelled)), set, seqs::is(t));
}

/// Every timer fires once. What a call reports as expired, in order of expiry,
/// is exactly what earlier calls have set and no call between has cancelled or
/// reported; and what is neither cancelled nor reported at the end of the run
/// still waits.
pub proof fn timers_fire_once(started_ms: int, turns: Seq<TurnModel>, t: TimerModel)
    requires
        ServiceModel::initial(started_ms).runs(turns),
    ensures
        ({
            let end = ServiceModel::initial(started_ms).through(turns);
            let calls = end.calls;
            &&& forall|j: int|
                0 <= j < calls.len() ==> seqs::tally(fires(#[trigger] calls[j]), seqs::is(t))
                    == if comes_due(calls[j], t) {
                    waiting_timers(calls, j as nat, j, t)
                } else {
                    0
                }
            &&& forall|j: int| 0 <= j < calls.len() ==> timers::in_order(fires(#[trigger] calls[j]))
            &&& seqs::tally(end.timers, seqs::is(t)) == waiting_timers(
                calls,
                calls.len(),
                calls.len() as int,
                t,
            )
        }),
    decreases turns.len(),
{
    let start = ServiceModel::initial(started_ms);
    if turns.len() == 0 {
        assert(waiting_timers(start.calls, 0, 1, t) == 0);
    } else {
        let earlier = turns.drop_last();
        let turn = turns.last();
        let before = start.through(earlier);
        timers_fire_once(started_ms, earlier, t);
        run_keeps_distinct(start, earlier);
        turn_keeps_distinct(before, turn);
        let after = before.completed(turn);
        let n = before.calls.len();
        let now_ms = turn.now_ms;
        match turn.output {
            None => {
                one_turn_of_timers(before.timers, now_ms, seq![], seq![], t);
                assert(timers::fired(before.timers, now_ms).len() == 0);
                assert(after.calls == before.calls);
            },
            Some(output) => {
                let call = CallModel::Process { batch: before.batch_in(turn), output };
                let calls = before.calls.push(call);
                assert(after.calls == calls);
                one_turn_of_timers(
                    before.timers,
                    now_ms,
                    output.cancel_timers,
                    output.timers,
                    t,
                );
                timers::fired_in_order(before.timers, now_ms);
                assert forall|j: int| 0 <= j < calls.len() implies seqs::tally(
                    fires(#[trigger] calls[j]),
                    seqs::is(t),
                ) == (if comes_due(calls[j], t) {
                    waiting_timers(calls, j as nat, j, t)
                } else {
                    0
                }) by {
                    later_calls_do_not_matter(before.calls, call, j as nat, j, t);
                    if j < n {
                        assert(calls[j] == before.calls[j]);
                    }
                }
                assert forall|j: int| 0 <= j < calls.len() implies timers::in_order(
                    fires(#[trigger] calls[j]),
                ) by {
                    if j < n {
                        assert(calls[j] == before.calls[j]);
                    }
                }
                later_calls_do_not_matter(before.calls, call, n, n as int, t);
                sparing_keeps_waiting(calls, n, n as int, t);
                assert(calls[n as int] == call);
                assert(waits(calls, n as int, n as int + 1, t));
            },
        }
    }
}

/// Where only one call sets a timer, the others make no difference.
proof fn one_setter(calls: Seq<CallModel>, m: nat, n: int, k: int, t: TimerModel)
    requires
        m <= calls.len(),
        0 <= k < calls.len(),
        forall|i: int|
            0 <= i < calls.len() && i != k ==> seqs::tally(
                sets(#[trigger] calls[i]),
                seqs::is(t),
            ) == 0,
    ensures
        waiting_timers(calls, m, n, t) == if k < m && waits(calls, k, n, t) {
            seqs::tally(sets(calls[k]), seqs::is(t))
        } else {
            0
        },
    decreases m,
{
    if m > 0 {
        one_setter(calls, (m - 1) as nat, n, k, t);
        if m - 1 != k {
            assert(seqs::tally(sets(calls[m - 1]), seqs::is(t)) == 0);
        }
    }
}

/// A timer that one call sets, and sets once, is reported by one later call at
/// most, and once: by the first that comes when it has expired, unless a call
/// before that has cancelled it. It waits as long as neither has happened. A
/// cancellation in the call that sets it does not touch it.
pub proof fn a_timer_fires_in_one_call(
    started_ms: int,
    turns: Seq<TurnModel>,
    t: TimerModel,
    k: int,
)
    requires
        ServiceModel::initial(started_ms).runs(turns),
        0 <= k < ServiceModel::initial(started_ms).through(turns).calls.len(),
        ({
            let calls = ServiceModel::initial(started_ms).through(turns).calls;
            &&& seqs::tally(sets(calls[k]), seqs::is(t)) == 1
            &&& forall|i: int|
                0 <= i < calls.len() && i != k ==> seqs::tally(
                    sets(#[trigger] calls[i]),
                    seqs::is(t),
                ) == 0
        }),
    ensures
        ({
            let end = ServiceModel::initial(started_ms).through(turns);
            let calls = end.calls;
            &&& forall|j: int|
                0 <= j < calls.len() ==> seqs::tally(fires(#[trigger] calls[j]), seqs::is(t))
                    == if k
                    < j && comes_due(calls[j], t) && waits(calls, k, j, t) {
                    1nat
                } else {
                    0nat
                }
            &&& forall|i: int, j: int|
                0 <= i < j < calls.len() && seqs::tally(fires(#[trigger] calls[i]), seqs::is(t)) > 0
                    ==> seqs::tally(fires(#[trigger] calls[j]), seqs::is(t)) == 0
            &&& seqs::tally(end.timers, seqs::is(t)) == if waits(calls, k, calls.len() as int, t) {
                1nat
            } else {
                0nat
            }
        }),
{
    let end = ServiceModel::initial(started_ms).through(turns);
    let calls = end.calls;
    timers_fire_once(started_ms, turns, t);
    one_setter(calls, calls.len(), calls.len() as int, k, t);
    assert forall|j: int| 0 <= j < calls.len() implies seqs::tally(
        fires(#[trigger] calls[j]),
        seqs::is(t),
    ) == (if k < j && comes_due(calls[j], t) && waits(calls, k, j, t) {
        1nat
    } else {
        0nat
    }) by {
        one_setter(calls, j as nat, j, k, t);
    }
    assert forall|i: int, j: int|
        0 <= i < j < calls.len() && seqs::tally(fires(#[trigger] calls[i]), seqs::is(t))
            > 0 implies seqs::tally(fires(#[trigger] calls[j]), seqs::is(t)) == 0 by {
        assert(comes_due(calls[i], t));
        assert(!spares(calls[i], t));
    }
}

/// No timer is kept waiting: one that a turn leaves although it has expired was
/// set in that very turn.
pub proof fn no_timer_is_overdue(service: ServiceModel, turn: TurnModel, t: TimerModel)
    requires
        runtime::distinct(service.connections),
        service.completed(turn).timers.contains(t),
        t.expiry_ms <= turn.now_ms,
    ensures
        turn.output matches Some(output) && output.timers.contains(t),
{
    turn_keeps_distinct(service, turn);
    let left = service.in_turn_left(turn).timers;
    seqs::filter_members(service.timers, timers::pending(turn.now_ms));
    match turn.output {
        Some(output) => {
            let kept = left.filter(timers::not_named(output.cancel_timers));
            seqs::filter_members(left, timers::not_named(output.cancel_timers));
            let after = service.completed(turn).timers;
            assert(after == kept + output.timers);
            let i = choose|i: int| 0 <= i < after.len() && after[i] == t;
            if i < kept.len() {
                assert(left.contains(kept[i]));
                assert(timers::pending(turn.now_ms)(t));
            } else {
                assert(output.timers[i - kept.len()] == t);
            }
        },
        None => {
            assert(timers::pending(turn.now_ms)(t));
        },
    }
}

// ---------------------------------------------------------------------------
// The ends of connections
// ---------------------------------------------------------------------------

/// Being the announcement of a connection of that id.
pub open spec fn introduces(id: Seq<char>) -> spec_fn(NewModel) -> bool {
    |new: NewModel| new.connection_id == id
}

/// Being the report of the end of a connection of that id.
pub open spec fn is_about(id: Seq<char>) -> spec_fn(ClosedModel) -> bool {
    |closed: ClosedModel| closed.connection_id == id
}

/// How often a call announces a connection of that id.
pub open spec fn announced_in(call: CallModel, id: Seq<char>) -> nat {
    match call {
        CallModel::Process { batch, output } => seqs::tally(batch.new_connections, introduces(id)),
        _ => 0,
    }
}

/// How often a call reports the end of a connection of that id.
pub open spec fn ended_in(call: CallModel, id: Seq<char>) -> nat {
    match call {
        CallModel::Process { batch, output } => seqs::tally(batch.closed_connections, is_about(id)),
        _ => 0,
    }
}

/// How often calls announce connections of an id.
pub open spec fn announcements(id: Seq<char>) -> spec_fn(CallModel) -> nat {
    |call: CallModel| announced_in(call, id)
}

/// How often calls report ends of connections of an id.
pub open spec fn end_reports(id: Seq<char>) -> spec_fn(CallModel) -> nat {
    |call: CallModel| ended_in(call, id)
}

/// How often calls together announce connections of that id.
pub open spec fn times_announced(calls: Seq<CallModel>, id: Seq<char>) -> nat {
    seqs::total(calls, announcements(id))
}

/// How often calls together report the end of connections of that id.
pub open spec fn times_ended(calls: Seq<CallModel>, id: Seq<char>) -> nat {
    seqs::total(calls, end_reports(id))
}

/// How many connections of an id are served: at most one.
proof fn served_once(connections: Seq<ConnectionModel>, id: Seq<char>)
    requires
        runtime::distinct(connections),
    ensures
        seqs::tally(connections, runtime::named(id)) == if runtime::served(connections, id) {
            1nat
        } else {
            0nat
        },
    decreases connections.len(),
{
    if connections.len() > 0 {
        let rest = connections.drop_last();
        let n = connections.len() - 1;
        assert forall|i: int, j: int| 0 <= i < j < rest.len() implies (
        #[trigger] rest[i]).connection_id != (#[trigger] rest[j]).connection_id by {
            assert(connections[i].connection_id != connections[j].connection_id);
        }
        served_once(rest, id);
        if runtime::served(rest, id) {
            let i = choose|i: int|
                0 <= i < rest.len() && (#[trigger] rest[i]).connection_id == id;
            assert(connections[i].connection_id == id);
            assert(connections[i].connection_id != connections[n].connection_id);
        }
        if runtime::served(connections, id) {
            let i = choose|i: int|
                0 <= i < connections.len() && (#[trigger] connections[i]).connection_id == id;
            if i < n {
                assert(rest[i].connection_id == id);
            }
        }
        if connections.last().connection_id == id {
            assert(connections[n].connection_id == id);
        }
    }
}

/// Newcomers that are announced are served, and no others.
proof fn newcomers_are_announced(
    service: ServiceModel,
    newcomers: Seq<(Seq<char>, ConnectionProfile)>,
    now_ms: int,
    id: Seq<char>,
)
    ensures
        seqs::tally(
            service.joined_by(newcomers, now_ms).connections,
            runtime::named(id),
        ) == seqs::tally(service.connections, runtime::named(id)) + seqs::tally(
            service.announcing(newcomers, now_ms),
            introduces(id),
        ),
    decreases newcomers.len(),
{
    if newcomers.len() > 0 {
        let earlier = newcomers.drop_last();
        newcomers_are_announced(service, earlier, now_ms, id);
        let before = service.joined_by(earlier, now_ms);
        let (other, profile) = newcomers.last();
        if !runtime::served(before.connections, other) {
            let after = before.welcomed(other, profile, now_ms);
            seqs::tally_push(before.connections, after.connections.last(), runtime::named(id));
            seqs::tally_push(
                service.announcing(earlier, now_ms),
                NewModel { connection_id: other, user_id: profile.user_id@ },
                introduces(id),
            );
            assert(after.connections == before.connections.push(after.connections.last()));
        }
    }
}

/// Frames that arrive change no count.
proof fn arrivals_change_no_count(
    service: ServiceModel,
    arrivals: Seq<(Seq<char>, Seq<Seq<char>>)>,
    now_ms: int,
    id: Seq<char>,
)
    ensures
        seqs::tally(
            service.hearing(arrivals, now_ms).connections,
            runtime::named(id),
        ) == seqs::tally(service.connections, runtime::named(id)),
    decreases arrivals.len(),
{
    if arrivals.len() > 0 {
        arrivals_change_no_count(service, arrivals.drop_last(), now_ms, id);
        seqs::tally_map(
            service.hearing(arrivals.drop_last(), now_ms).connections,
            runtime::touched(arrivals.last().0, now_ms),
            runtime::named(id),
            runtime::named(id),
        );
    }
}

/// Answered polls change no count.
proof fn polls_change_no_count(
    service: ServiceModel,
    polls: Seq<Seq<char>>,
    now_ms: int,
    id: Seq<char>,
)
    ensures
        seqs::tally(
            service.polled_by(polls, now_ms).connections,
            runtime::named(id),
        ) == seqs::tally(service.connections, runtime::named(id)),
    decreases polls.len(),
{
    if polls.len() > 0 {
        polls_change_no_count(service, polls.drop_last(), now_ms, id);
        seqs::tally_map(
            service.polled_by(polls.drop_last(), now_ms).connections,
            runtime::answered(polls.last(), now_ms),
            runtime::named(id),
            runtime::named(id),
        );
    }
}

/// The ends that are told of are those ordered, those of vanished profiles and
/// those of silent clients.
proof fn ends_told_of(service: ServiceModel, turn: TurnModel, id: Seq<char>)
    ensures
        seqs::tally(service.told_of(turn), is_about(id)) == seqs::tally(
            service.closes,
            seqs::is(id),
        ) + seqs::tally(service.vanishing_in(turn), runtime::named(id)) + seqs::tally(
            service.silent_in(turn),
            runtime::named(id),
        ),
{
    let ordered = service.ordered_ends();
    let gone = CloseReason::ClientDisconnected;
    let idle = CloseReason::ServerIdleTimeout;
    let vanishing = service.vanishing_in(turn).map_values(runtime::closed_as(gone));
    let silenced = service.silent_in(turn).map_values(runtime::closed_as(idle));
    seqs::tally_add(ordered + vanishing, silenced, is_about(id));
    seqs::tally_add(ordered, vanishing, is_about(id));
    seqs::tally_map(service.closes, runtime::ordered_close(), seqs::is(id), is_about(id));
    seqs::tally_map(
        service.vanishing_in(turn),
        runtime::closed_as(gone),
        runtime::named(id),
        is_about(id),
    );
    seqs::tally_map(
        service.silent_in(turn),
        runtime::closed_as(idle),
        runtime::named(id),
        is_about(id),
    );
}

/// Before the engine's part of a turn: whoever was served, awaited a report or
/// is announced is reported or served still.
proof fn count_before_the_engine(service: ServiceModel, turn: TurnModel, id: Seq<char>)
    ensures
        seqs::tally(service.connections, runtime::named(id)) + seqs::tally(
            service.closes,
            seqs::is(id),
        ) + seqs::tally(service.batch_in(turn).new_connections, introduces(id)) == seqs::tally(
            service.told_of(turn),
            is_about(id),
        ) + seqs::tally(service.in_turn_left(turn).connections, runtime::named(id)),
{
    let now_ms = turn.now_ms;
    let name = runtime::named(id);
    let joined = service.in_turn_joined(turn).connections;
    ends_told_of(service, turn, id);
    seqs::tally_map(service.connections, runtime::heard_by(now_ms), name, name);
    newcomers_are_announced(service.begun(now_ms), turn.newcomers, now_ms, id);
    match turn.scanned {
        Some(disk) => {
            seqs::tally_divided(joined, runtime::present(disk), runtime::vanished(disk), name);
        },
        None => {},
    }
    arrivals_change_no_count(service.in_turn_swept(turn), turn.arrivals, now_ms, id);
    seqs::tally_divided(
        service.in_turn_heard(turn).connections,
        runtime::heard(now_ms),
        runtime::silent(now_ms),
        name,
    );
}

/// In the engine's part of a turn: whoever was served is served still or awaits
/// a report, which is so where the engine has named them.
proof fn count_in_the_engine_s_part(left: ServiceModel, output: OutputModel, id: Seq<char>)
    requires
        runtime::distinct(left.connections),
        left.closes.len() == 0,
    ensures
        seqs::tally(left.connections, runtime::named(id)) == seqs::tally(
            left.applied(output).connections,
            runtime::named(id),
        ) + seqs::tally(left.applied(output).closes, seqs::is(id)),
        seqs::tally(left.applied(output).closes, seqs::is(id)) == if left.applied(
            output,
        ).closes.contains(id) {
            1nat
        } else {
            0nat
        },
        left.applied(output).closes.contains(id) <==> runtime::served(left.connections, id)
            && output.close_connections.contains(id),
{
    let after = left.applied(output);
    let closing = left.closing(output);
    let queued = left.queued(output);
    runtime::closed_connections_are_gone(left, output);
    assert forall|i: int, j: int| 0 <= i < j < queued.len() implies (
    #[trigger] queued[i]).connection_id != (#[trigger] queued[j]).connection_id by {
        assert(left.connections[i].connection_id != left.connections[j].connection_id);
    }
    runtime::filtering_keeps_distinct(queued, runtime::not_among(output.close_connections));
    served_once(left.connections, id);
    served_once(after.connections, id);
    served_once(closing, id);
    assert(runtime::served(closing, id) <==> runtime::served(left.connections, id)
        && output.close_connections.contains(id));
    assert(after.closes == closing.map_values(runtime::id_of()));
    seqs::tally_map(closing, runtime::id_of(), runtime::named(id), seqs::is(id));
    seqs::tally_none(after.closes, seqs::is(id));
    if output.close_connections.contains(id) {
        assert(!runtime::served(after.connections, id));
    } else {
        assert(runtime::served(after.connections, id) == runtime::served(left.connections, id));
    }
    if after.closes.contains(id) {
        let i = choose|i: int| 0 <= i < after.closes.len() && after.closes[i] == id;
        assert(seqs::is(id)(after.closes[i]));
    }
}

/// Whether the connections of an id have only just come: they have profiles, and
/// were heard of just now.
spec fn just_come(
    connections: Seq<ConnectionModel>,
    id: Seq<char>,
    disk: Option<Map<Seq<char>, Seq<char>>>,
    now_ms: int,
) -> bool {
    forall|i: int|
        0 <= i < connections.len() && (#[trigger] connections[i]).connection_id == id ==> {
            &&& connections[i].last_message_ms == now_ms
            &&& disk matches Some(disk) && disk.contains_key(id)
        }
}

/// Newcomers have only just come.
proof fn newcomers_have_just_come(
    service: ServiceModel,
    newcomers: Seq<(Seq<char>, ConnectionProfile)>,
    disk: Option<Map<Seq<char>, Seq<char>>>,
    now_ms: int,
    id: Seq<char>,
)
    requires
        !runtime::served(service.connections, id),
        newcomers.len() > 0 ==> disk is Some,
        forall|i: int|
            0 <= i < newcomers.len() ==> disk->Some_0.contains_key((#[trigger] newcomers[i]).0),
    ensures
        just_come(service.joined_by(newcomers, now_ms).connections, id, disk, now_ms),
    decreases newcomers.len(),
{
    if newcomers.len() > 0 {
        let earlier = newcomers.drop_last();
        assert forall|i: int| 0 <= i < earlier.len() implies disk->Some_0.contains_key(
            (#[trigger] earlier[i]).0,
        ) by {
            assert(earlier[i] == newcomers[i]);
        }
        newcomers_have_just_come(service, earlier, disk, now_ms, id);
        let before = service.joined_by(earlier, now_ms).connections;
        let after = service.joined_by(newcomers, now_ms).connections;
        assert(disk->Some_0.contains_key(newcomers[newcomers.len() - 1].0));
        assert forall|i: int|
            0 <= i < after.len() && (#[trigger] after[i]).connection_id == id implies {
            &&& after[i].last_message_ms == now_ms
            &&& disk matches Some(disk) && disk.contains_key(id)
        } by {
            if i < before.len() {
                assert(after[i] == before[i]);
            }
        }
    } else {
        let connections = service.joined_by(newcomers, now_ms).connections;
        assert forall|i: int| 0 <= i < connections.len() implies (
        #[trigger] connections[i]).connection_id != id by {}
    }
}

/// Who has just come still has when frames have arrived.
proof fn arrivals_make_nobody_older(
    service: ServiceModel,
    arrivals: Seq<(Seq<char>, Seq<Seq<char>>)>,
    disk: Option<Map<Seq<char>, Seq<char>>>,
    now_ms: int,
    id: Seq<char>,
)
    requires
        just_come(service.connections, id, disk, now_ms),
    ensures
        just_come(service.hearing(arrivals, now_ms).connections, id, disk, now_ms),
    decreases arrivals.len(),
{
    if arrivals.len() > 0 {
        arrivals_make_nobody_older(service, arrivals.drop_last(), disk, now_ms, id);
        let before = service.hearing(arrivals.drop_last(), now_ms).connections;
        let after = service.hearing(arrivals, now_ms).connections;
        assert forall|i: int|
            0 <= i < after.len() && (#[trigger] after[i]).connection_id == id implies {
            &&& after[i].last_message_ms == now_ms
            &&& disk matches Some(disk) && disk.contains_key(id)
        } by {
            assert(before[i].connection_id == id);
        }
    }
}

/// A connection does not end in the turn in which it comes.
proof fn nobody_comes_and_goes(service: ServiceModel, turn: TurnModel, id: Seq<char>)
    requires
        runtime::distinct(service.connections),
        service.allows(turn),
        !runtime::served(service.connections, id),
        seqs::tally(service.closes, seqs::is(id)) == 0,
    ensures
        seqs::tally(service.told_of(turn), is_about(id)) == 0,
{
    let now_ms = turn.now_ms;
    let begun = service.begun(now_ms);
    let joined = service.in_turn_joined(turn);
    let swept = service.in_turn_swept(turn);
    let heard_from = service.in_turn_heard(turn);
    change_keeps_ids(service.connections, runtime::heard_by(now_ms));
    assert(!runtime::served(begun.connections, id));
    newcomers_have_just_come(begun, turn.newcomers, turn.scanned, now_ms, id);
    match turn.scanned {
        Some(disk) => {
            seqs::filter_members(joined.connections, runtime::present(disk));
            assert forall|i: int|
                0 <= i < swept.connections.len() && (
                #[trigger] swept.connections[i]).connection_id == id implies {
                &&& swept.connections[i].last_message_ms == now_ms
                &&& turn.scanned matches Some(disk) && disk.contains_key(id)
            } by {
                assert(joined.connections.contains(swept.connections[i]));
                let k = choose|k: int|
                    0 <= k < joined.connections.len() && joined.connections[k]
                        == swept.connections[i];
                assert(joined.connections[k].connection_id == id);
            }
        },
        None => {},
    }
    arrivals_make_nobody_older(swept, turn.arrivals, turn.scanned, now_ms, id);
    ends_told_of(service, turn, id);
    match turn.scanned {
        Some(disk) => {
            let gone = service.vanishing_in(turn);
            seqs::filter_members(joined.connections, runtime::vanished(disk));
            assert forall|i: int| 0 <= i < gone.len() implies !runtime::named(id)(
                #[trigger] gone[i],
            ) by {
                assert(joined.connections.contains(gone[i]) && runtime::vanished(disk)(gone[i]));
                let k = choose|k: int|
                    0 <= k < joined.connections.len() && joined.connections[k] == gone[i];
                if joined.connections[k].connection_id == id {
                    assert(disk.contains_key(id));
                }
            }
            seqs::tally_none(gone, runtime::named(id));
        },
        None => {},
    }
    let silent_ones = service.silent_in(turn);
    seqs::filter_members(heard_from.connections, runtime::silent(now_ms));
    assert forall|i: int| 0 <= i < silent_ones.len() implies !runtime::named(id)(
        #[trigger] silent_ones[i],
    ) by {
        assert(heard_from.connections.contains(silent_ones[i]) && runtime::silent(now_ms)(
            silent_ones[i],
        ));
        let k = choose|k: int|
            0 <= k < heard_from.connections.len() && heard_from.connections[k] == silent_ones[i];
        if heard_from.connections[k].connection_id == id {
            assert(heard_from.connections[k].last_message_ms == now_ms);
        }
    }
    seqs::tally_none(silent_ones, runtime::named(id));
}

/// The calls of a run, up to one of them.
proof fn calls_up_to(calls: Seq<CallModel>, call: CallModel, m: int, id: Seq<char>)
    requires
        0 <= m <= calls.len(),
    ensures
        calls.push(call).take(m) == calls.take(m),
        calls.push(call).take(calls.len() as int) == calls,
        calls.push(call).take(calls.len() as int + 1) == calls.push(call),
        times_announced(calls.push(call), id) == times_announced(calls, id) + announced_in(
            call,
            id,
        ),
        times_ended(calls.push(call), id) == times_ended(calls, id) + ended_in(call, id),
{
    assert(calls.push(call).drop_last() == calls);
    assert(calls.push(call).last() == call);
}

/// Whether a call has the engine close a connection that it knows: one that it
/// was told of, and whose end it has not been told of.
pub open spec fn closes_a_known_one(calls: Seq<CallModel>, j: int, id: Seq<char>) -> bool {
    &&& calls[j] matches CallModel::Process { batch, output }
        && output.close_connections.contains(id)
    &&& times_announced(calls.take(j + 1), id) > times_ended(calls.take(j + 1), id)
}

/// Whether a call reports the end of a connection, for that reason.
pub open spec fn reports(call: CallModel, id: Seq<char>, reason: CloseReason) -> bool {
    call matches CallModel::Process { batch, output } && batch.closed_connections.contains(
        ended(id, reason),
    )
}

/// Every connection's end is reported as often as it ends. At any time in a run
/// the ends that were reported are as many as the connections that were
/// announced, but for one that is served still and one that the engine has
/// closed in the call just made. No end is reported before the connection was
/// announced, nor in the same call. A close that the engine orders is reported
/// by the very next call, for that reason, and what is reported for that reason
/// was ordered so.
pub proof fn ends_are_reported_once(started_ms: int, turns: Seq<TurnModel>, id: Seq<char>)
    requires
        ServiceModel::initial(started_ms).runs(turns),
    ensures
        ({
            let end = ServiceModel::initial(started_ms).through(turns);
            let calls = end.calls;
            let serving: nat = if runtime::served(end.connections, id) {
                1
            } else {
                0
            };
            let awaiting: nat = if end.closes.contains(id) {
                1
            } else {
                0
            };
            &&& times_announced(calls, id) == times_ended(calls, id) + serving + awaiting
            &&& seqs::tally(end.closes, seqs::is(id)) == awaiting
            &&& end.closes.contains(id) <==> closes_a_known_one(calls, calls.len() - 1, id)
            &&& forall|m: int|
                0 <= m <= calls.len() ==> times_ended(#[trigger] calls.take(m), id)
                    <= times_announced(calls.take(m), id)
            &&& forall|j: int|
                0 <= j < calls.len() && times_announced(calls.take(j), id) == 0 ==> ended_in(
                    #[trigger] calls[j],
                    id,
                ) == 0
            &&& forall|j: int|
                0 < j < calls.len() ==> (reports(
                    #[trigger] calls[j],
                    id,
                    CloseReason::EngineRequested,
                ) <==> closes_a_known_one(calls, j - 1, id))
        }),
    decreases turns.len(),
{
    let start = ServiceModel::initial(started_ms);
    if turns.len() == 0 {
        let calls = start.calls;
        assert(calls.drop_last() == Seq::<CallModel>::empty());
        assert(times_ended(calls.drop_last(), id) == 0);
        assert(times_announced(calls.drop_last(), id) == 0);
        assert(calls.last() is Init);
        assert forall|m: int| 0 <= m <= calls.len() implies times_ended(
            #[trigger] calls.take(m),
            id,
        ) <= times_announced(calls.take(m), id) by {
            if m == 0 {
                assert(calls.take(m) == Seq::<CallModel>::empty());
            } else {
                assert(calls.take(m) == calls);
            }
        }
    } else {
        let earlier = turns.drop_last();
        let turn = turns.last();
        let before = start.through(earlier);
        ends_are_reported_once(started_ms, earlier, id);
        calls_so_far(started_ms, earlier);
        run_keeps_distinct(start, earlier);
        turn_keeps_distinct(before, turn);
        count_before_the_engine(before, turn, id);
        let left = before.in_turn_left(turn);
        let after = before.completed(turn);
        polls_change_little(before.after_turn(turn), turn.polls, turn.now_ms);
        polls_change_no_count(before.after_turn(turn), turn.polls, turn.now_ms, id);
        served_once(before.connections, id);
        served_once(left.connections, id);
        served_once(after.connections, id);
        match turn.output {
            None => {
                assert(before.batch_in(turn).uneventful());
                assert(before.told_of(turn).len() == 0);
                assert(after.calls == before.calls);
                assert(after.closes.len() == 0);
                if before.closes.contains(id) {
                    let i = choose|i: int| 0 <= i < before.closes.len() && before.closes[i] == id;
                    assert(before.told_of(turn)[i] == ended(id, CloseReason::EngineRequested));
                }
            },
            Some(output) => {
                let call = CallModel::Process { batch: before.batch_in(turn), output };
                let calls = before.calls.push(call);
                let n = before.calls.len() as int;
                assert(after.calls == calls);
                count_in_the_engine_s_part(left, output, id);
                calls_up_to(before.calls, call, n, id);
                assert forall|m: int| 0 <= m <= calls.len() implies times_ended(
                    #[trigger] calls.take(m),
                    id,
                ) <= times_announced(calls.take(m), id) by {
                    if m <= n {
                        calls_up_to(before.calls, call, m, id);
                        assert(before.calls.take(m) == calls.take(m));
                    } else {
                        assert(calls.take(m) == calls);
                    }
                }
                assert forall|j: int|
                    0 <= j < calls.len() && times_announced(calls.take(j), id) == 0 implies
                    ended_in(
                    #[trigger] calls[j],
                    id,
                ) == 0 by {
                    if j < n {
                        calls_up_to(before.calls, call, j, id);
                        assert(before.calls[j] == calls[j]);
                    } else {
                        assert(calls.take(j) == before.calls);
                        nobody_comes_and_goes(before, turn, id);
                    }
                }
                assert forall|j: int| 0 < j < calls.len() implies (reports(
                    #[trigger] calls[j],
                    id,
                    CloseReason::EngineRequested,
                ) <==> closes_a_known_one(calls, j - 1, id)) by {
                    calls_up_to(before.calls, call, j, id);
                    assert(calls[j - 1] == before.calls[j - 1]);
                    if j < n {
                        assert(before.calls[j] == calls[j]);
                    } else {
                        assert(before.calls.take(j) == before.calls);
                        every_end_has_its_reason(before, turn, id);
                    }
                }
                assert(calls.take(n + 1) == calls);
                assert(calls[n] == call);
            },
        }
    }
}

/// A connection that comes is announced in one call, and its end is reported in
/// exactly one later call: ids are minted anew, so that each is announced once.
/// While it is served no call reports its end, nor where the engine has only
/// just closed it, in the call made last.
pub proof fn an_end_is_reported_in_one_call(started_ms: int, turns: Seq<TurnModel>, id: Seq<char>)
    requires
        ServiceModel::initial(started_ms).runs(turns),
        times_announced(ServiceModel::initial(started_ms).through(turns).calls, id) == 1,
    ensures
        ({
            let end = ServiceModel::initial(started_ms).through(turns);
            let calls = end.calls;
            let known = runtime::served(end.connections, id) || end.closes.contains(id);
            &&& !known ==> exists|k: int, j: int|
                k < j && #[trigger] seqs::only_at(calls, k, announcements(id))
                    && #[trigger] seqs::only_at(calls, j, end_reports(id))
            &&& known ==> forall|j: int|
                0 <= j < calls.len() ==> ended_in(#[trigger] calls[j], id) == 0
        }),
{
    let end = ServiceModel::initial(started_ms).through(turns);
    let calls = end.calls;
    ends_are_reported_once(started_ms, turns, id);
    let announcing = announcements(id);
    let reporting = end_reports(id);
    if runtime::served(end.connections, id) || end.closes.contains(id) {
        seqs::total_none(calls, reporting);
        assert forall|j: int| 0 <= j < calls.len() implies ended_in(
            #[trigger] calls[j],
            id,
        ) == 0 by {
            assert(reporting(calls[j]) == 0);
        }
    } else {
        seqs::total_one(calls, announcing);
        seqs::total_one(calls, reporting);
        let k = choose|k: int| seqs::only_at(calls, k, announcing);
        let j = choose|j: int| seqs::only_at(calls, j, reporting);
        if j <= k {
            assert forall|i: int| 0 <= i < j implies announcing(#[trigger] calls.take(j)[i])
                == 0 by {
                assert(announcing(calls[i]) == 0);
            }
            seqs::total_none(calls.take(j), announcing);
            assert(ended_in(calls[j], id) == 0);
        }
        assert(seqs::only_at(calls, k, announcing) && seqs::only_at(calls, j, reporting));
    }
}

// ---------------------------------------------------------------------------
// What clients are given
// ---------------------------------------------------------------------------

/// What waits for the client of a connection.
pub open spec fn waiting(connections: Seq<ConnectionModel>, id: Seq<char>) -> Seq<JsonModel>
    decreases connections.len(),
{
    if connections.len() == 0 {
        seq![]
    } else if connections.last().connection_id == id {
        connections.last().outbox
    } else {
        waiting(connections.drop_last(), id)
    }
}

/// What the engine has sent to a connection in turns, in order.
pub open spec fn sent(turns: Seq<TurnModel>, id: Seq<char>) -> Seq<JsonModel>
    decreases turns.len(),
{
    if turns.len() == 0 {
        seq![]
    } else {
        sent(turns.drop_last(), id) + sent_in(turns.last(), id)
    }
}

/// What the engine has sent to a connection in a turn, in order.
pub open spec fn sent_in(turn: TurnModel, id: Seq<char>) -> Seq<JsonModel> {
    match turn.output {
        Some(output) => runtime::addressed(output.messages, id),
        None => seq![],
    }
}

impl ServiceModel {
    /// What a connection's client is given as clients are answered, one after
    /// the other.
    pub open spec fn given(
        self,
        polls: Seq<Seq<char>>,
        now_ms: int,
        id: Seq<char>,
    ) -> Seq<JsonModel>
        decreases polls.len(),
    {
        if polls.len() == 0 {
            seq![]
        } else {
            let earlier = polls.drop_last();
            self.given(earlier, now_ms, id) + if polls.last() == id {
                waiting(self.polled_by(earlier, now_ms).connections, id)
            } else {
                seq![]
            }
        }
    }

    /// What a connection's client is given in turns: the answers to its polls,
    /// one behind the other.
    pub open spec fn delivered(self, turns: Seq<TurnModel>, id: Seq<char>) -> Seq<JsonModel>
        decreases turns.len(),
    {
        if turns.len() == 0 {
            seq![]
        } else {
            let turn = turns.last();
            self.delivered(turns.drop_last(), id) + self.through(turns.drop_last()).after_turn(
                turn,
            ).given(turn.polls, turn.now_ms, id)
        }
    }

    /// Whether a connection is served after each of those turns.
    pub open spec fn keeps(self, turns: Seq<TurnModel>, id: Seq<char>) -> bool
        decreases turns.len(),
    {
        turns.len() > 0 ==> self.keeps(turns.drop_last(), id) && runtime::served(
            self.through(turns).connections,
            id,
        )
    }
}

/// What waits for the client of a connection is what the connection has queued;
/// nothing waits for a connection that is not served.
pub proof fn what_waits_is_queued(connections: Seq<ConnectionModel>, id: Seq<char>)
    requires
        runtime::distinct(connections),
    ensures
        forall|i: int|
            0 <= i < connections.len() && (#[trigger] connections[i]).connection_id == id
                ==> waiting(connections, id) == connections[i].outbox,
        !runtime::served(connections, id) ==> waiting(connections, id).len() == 0,
    decreases connections.len(),
{
    if connections.len() > 0 {
        let rest = connections.drop_last();
        let n = connections.len() - 1;
        assert forall|i: int, j: int| 0 <= i < j < rest.len() implies (
        #[trigger] rest[i]).connection_id != (#[trigger] rest[j]).connection_id by {
            assert(connections[i].connection_id != connections[j].connection_id);
        }
        what_waits_is_queued(rest, id);
        assert forall|i: int|
            0 <= i < connections.len() && (#[trigger] connections[i]).connection_id == id implies
            waiting(connections, id) == connections[i].outbox by {
            if i < n {
                assert(connections[i].connection_id != connections[n].connection_id);
                assert(rest[i].connection_id == id);
            }
        }
        if !runtime::served(connections, id) {
            assert(connections[n].connection_id != id);
            if runtime::served(rest, id) {
                let i = choose|i: int|
                    0 <= i < rest.len() && (#[trigger] rest[i]).connection_id == id;
                assert(connections[i].connection_id == id);
            }
        }
    }
}

/// What waits stays as it is under a change that keeps it.
proof fn a_change_keeps_what_waits(
    connections: Seq<ConnectionModel>,
    change: spec_fn(ConnectionModel) -> ConnectionModel,
    id: Seq<char>,
)
    requires
        forall|c: ConnectionModel|
            (#[trigger] change(c)).connection_id == c.connection_id && change(c).outbox == c.outbox,
    ensures
        waiting(connections.map_values(change), id) == waiting(connections, id),
    decreases connections.len(),
{
    if connections.len() > 0 {
        let rest = connections.drop_last();
        a_change_keeps_what_waits(rest, change, id);
        assert(connections.map_values(change).drop_last() == rest.map_values(change));
        assert(connections.map_values(change).last() == change(connections.last()));
    }
}

/// What waits for one that stays does so still.
proof fn leaving_keeps_what_waits(
    connections: Seq<ConnectionModel>,
    staying: spec_fn(ConnectionModel) -> bool,
    id: Seq<char>,
)
    requires
        runtime::distinct(connections),
        runtime::served(connections.filter(staying), id),
    ensures
        waiting(connections.filter(staying), id) == waiting(connections, id),
        runtime::served(connections, id),
{
    let kept = connections.filter(staying);
    seqs::filter_members(connections, staying);
    runtime::filtering_keeps_distinct(connections, staying);
    what_waits_is_queued(connections, id);
    what_waits_is_queued(kept, id);
    let k = choose|k: int| 0 <= k < kept.len() && (#[trigger] kept[k]).connection_id == id;
    assert(connections.contains(kept[k]));
    let i = choose|i: int| 0 <= i < connections.len() && connections[i] == kept[k];
    assert(connections[i].connection_id == id);
}

/// Nothing waits for newcomers.
proof fn newcomers_keep_what_waits(
    service: ServiceModel,
    newcomers: Seq<(Seq<char>, ConnectionProfile)>,
    now_ms: int,
    id: Seq<char>,
)
    requires
        runtime::distinct(service.connections),
    ensures
        waiting(service.joined_by(newcomers, now_ms).connections, id) == waiting(
            service.connections,
            id,
        ),
    decreases newcomers.len(),
{
    if newcomers.len() > 0 {
        let earlier = newcomers.drop_last();
        newcomers_keep_what_waits(service, earlier, now_ms, id);
        newcomers_join(service, earlier, now_ms);
        let before = service.joined_by(earlier, now_ms).connections;
        let after = service.joined_by(newcomers, now_ms).connections;
        what_waits_is_queued(before, id);
        if !runtime::served(before, newcomers.last().0) {
            assert(after.drop_last() == before);
        }
    }
}

/// Frames that arrive leave what waits as it is.
proof fn arrivals_keep_what_waits(
    service: ServiceModel,
    arrivals: Seq<(Seq<char>, Seq<Seq<char>>)>,
    now_ms: int,
    id: Seq<char>,
)
    ensures
        waiting(service.hearing(arrivals, now_ms).connections, id) == waiting(
            service.connections,
            id,
        ),
    decreases arrivals.len(),
{
    if arrivals.len() > 0 {
        arrivals_keep_what_waits(service, arrivals.drop_last(), now_ms, id);
        a_change_keeps_what_waits(
            service.hearing(arrivals.drop_last(), now_ms).connections,
            runtime::touched(arrivals.last().0, now_ms),
            id,
        );
    }
}

/// What is sent to one that is served waits behind what waited before.
proof fn what_is_sent_waits(
    connections: Seq<ConnectionModel>,
    messages: Seq<MessageModel>,
    id: Seq<char>,
)
    requires
        runtime::served(connections, id),
    ensures
        waiting(connections.map_values(runtime::queueing(messages)), id) == waiting(connections, id)
            + runtime::addressed(messages, id),
    decreases connections.len(),
{
    let queued = connections.map_values(runtime::queueing(messages));
    let rest = connections.drop_last();
    let i = choose|i: int|
        0 <= i < connections.len() && (#[trigger] connections[i]).connection_id == id;
    assert(queued.last() == runtime::queueing(messages)(connections.last()));
    if connections.last().connection_id != id {
        assert(rest[i].connection_id == id);
        what_is_sent_waits(rest, messages, id);
        assert(queued.drop_last() == rest.map_values(runtime::queueing(messages)));
    }
}

/// Nothing waits for a client that has been answered; for others it waits still.
proof fn an_answer_leaves_nothing(
    connections: Seq<ConnectionModel>,
    polled: Seq<char>,
    now_ms: int,
    id: Seq<char>,
)
    ensures
        waiting(connections.map_values(runtime::answered(polled, now_ms)), id) == if polled == id {
            Seq::<JsonModel>::empty()
        } else {
            waiting(connections, id)
        },
    decreases connections.len(),
{
    if connections.len() > 0 {
        let change = runtime::answered(polled, now_ms);
        let rest = connections.drop_last();
        an_answer_leaves_nothing(rest, polled, now_ms, id);
        assert(connections.map_values(change).drop_last() == rest.map_values(change));
        assert(connections.map_values(change).last() == change(connections.last()));
    }
}

/// What waited has been given, or waits still; and nothing waits for a client
/// that has been answered.
proof fn what_waited_is_given(
    service: ServiceModel,
    polls: Seq<Seq<char>>,
    now_ms: int,
    id: Seq<char>,
)
    ensures
        waiting(service.connections, id) == service.given(polls, now_ms, id) + waiting(
            service.polled_by(polls, now_ms).connections,
            id,
        ),
        polls.contains(id) ==> waiting(service.polled_by(polls, now_ms).connections, id).len() == 0,
    decreases polls.len(),
{
    if polls.len() > 0 {
        let earlier = polls.drop_last();
        what_waited_is_given(service, earlier, now_ms, id);
        let before = service.polled_by(earlier, now_ms);
        an_answer_leaves_nothing(before.connections, polls.last(), now_ms, id);
        if polls.contains(id) && polls.last() != id {
            let i = choose|i: int| 0 <= i < polls.len() && polls[i] == id;
            assert(earlier[i] == id);
        }
        assert(waiting(service.connections, id) == service.given(polls, now_ms, id) + waiting(
            service.polled_by(polls, now_ms).connections,
            id,
        ));
    }
}

/// In a turn, what waited and what is sent waits for a connection that stays.
proof fn a_turn_loses_nothing(service: ServiceModel, turn: TurnModel, id: Seq<char>)
    requires
        runtime::distinct(service.connections),
        runtime::served(service.completed(turn).connections, id),
    ensures
        waiting(service.after_turn(turn).connections, id) == waiting(service.connections, id)
            + sent_in(turn, id),
{
    let now_ms = turn.now_ms;
    let begun = service.begun(now_ms);
    let joined = service.in_turn_joined(turn);
    let swept = service.in_turn_swept(turn);
    let heard_from = service.in_turn_heard(turn);
    let left = service.in_turn_left(turn);
    let after = service.after_turn(turn);
    turn_keeps_distinct(service, turn);
    polls_change_little(after, turn.polls, now_ms);
    assert(runtime::served(after.connections, id));
    match turn.output {
        Some(output) => {
            let queued = left.queued(output);
            change_keeps_ids(left.connections, runtime::queueing(output.messages));
            leaving_keeps_what_waits(
                queued,
                runtime::not_among(output.close_connections),
                id,
            );
            assert(runtime::served(left.connections, id));
            what_is_sent_waits(left.connections, output.messages, id);
        },
        None => {},
    }
    leaving_keeps_what_waits(heard_from.connections, runtime::heard(now_ms), id);
    arrivals_keep_what_waits(swept, turn.arrivals, now_ms, id);
    arrivals_change_no_ids(swept, turn.arrivals, now_ms);
    assert(runtime::served(swept.connections, id));
    match turn.scanned {
        Some(disk) => {
            leaving_keeps_what_waits(joined.connections, runtime::present(disk), id);
        },
        None => {},
    }
    newcomers_keep_what_waits(begun, turn.newcomers, now_ms, id);
    a_change_keeps_what_waits(service.connections, runtime::heard_by(now_ms), id);
    assert(waiting(after.connections, id) == waiting(service.connections, id) + sent_in(turn, id));
}

/// A client is given what the engine sent it, in that order, each message once:
/// the answers to its polls, one behind the other, are the beginning of what
/// waited and was sent, and the rest of that waits still. A poll is given
/// everything, with what the engine has sent in the same turn. This holds as
/// long as the connection is served, from the turn in which it comes.
pub proof fn clients_are_given_what_was_sent(
    start: ServiceModel,
    turns: Seq<TurnModel>,
    id: Seq<char>,
)
    requires
        runtime::distinct(start.connections),
        start.keeps(turns, id),
    ensures
        ({
            let end = start.through(turns);
            let due = waiting(start.connections, id) + sent(turns, id);
            let given = start.delivered(turns, id);
            &&& due == given + waiting(end.connections, id)
            &&& given.is_prefix_of(due)
            &&& turns.len() > 0 && turns.last().polls.contains(id) ==> given == due
        }),
    decreases turns.len(),
{
    let end = start.through(turns);
    let due = waiting(start.connections, id) + sent(turns, id);
    let given = start.delivered(turns, id);
    if turns.len() > 0 {
        let earlier = turns.drop_last();
        let turn = turns.last();
        let before = start.through(earlier);
        clients_are_given_what_was_sent(start, earlier, id);
        run_keeps_distinct(start, earlier);
        a_turn_loses_nothing(before, turn, id);
        what_waited_is_given(before.after_turn(turn), turn.polls, turn.now_ms, id);
        let first = waiting(start.connections, id) + sent(earlier, id);
        let now_given = before.after_turn(turn).given(turn.polls, turn.now_ms, id);
        let then_given = start.delivered(earlier, id);
        let then_waiting = waiting(before.connections, id);
        let still = waiting(end.connections, id);
        assert(first == then_given + then_waiting);
        assert(then_waiting + sent_in(turn, id) == now_given + still);
        assert(due == first + sent_in(turn, id));
        assert(due == then_given + (then_waiting + sent_in(turn, id)));
        assert(given == then_given + now_given);
        assert(due == given + still);
        if turn.polls.contains(id) {
            assert(given == due);
        }
    }
    assert(due == given + waiting(end.connections, id));
    assert(given == due.take(given.len() as int));
}

// ---------------------------------------------------------------------------
// Silence
// ---------------------------------------------------------------------------

impl TurnModel {
    /// Whether a client is silent in a turn: no frame of its comes, and no poll of
    /// its is answered.
    pub open spec fn hears_nothing_of(self, id: Seq<char>) -> bool {
        &&& forall|i: int|
            0 <= i < self.arrivals.len() && (#[trigger] self.arrivals[i]).0 == id
                ==> self.arrivals[i].1.len() == 0
        &&& !self.polls.contains(id)
    }
}

/// Whether the connections of an id were heard of no later than that.
spec fn heard_no_later(connections: Seq<ConnectionModel>, id: Seq<char>, since: int) -> bool {
    forall|i: int|
        0 <= i < connections.len() && (#[trigger] connections[i]).connection_id == id
            ==> connections[i].last_message_ms <= since
}

/// A change that lets nobody be heard of later.
proof fn a_change_makes_nobody_younger(
    connections: Seq<ConnectionModel>,
    change: spec_fn(ConnectionModel) -> ConnectionModel,
    id: Seq<char>,
    since: int,
)
    requires
        heard_no_later(connections, id, since),
        forall|c: ConnectionModel|
            (#[trigger] change(c)).connection_id == c.connection_id && (c.connection_id == id
                ==> change(c).last_message_ms <= c.last_message_ms),
    ensures
        heard_no_later(connections.map_values(change), id, since),
{
    let after = connections.map_values(change);
    assert forall|i: int|
        0 <= i < after.len() && (#[trigger] after[i]).connection_id == id implies
        after[i].last_message_ms <= since by {
        assert(change(connections[i]).connection_id == connections[i].connection_id);
        assert(connections[i].connection_id == id);
    }
}

/// Leaving lets nobody be heard of later.
proof fn leaving_makes_nobody_younger(
    connections: Seq<ConnectionModel>,
    staying: spec_fn(ConnectionModel) -> bool,
    id: Seq<char>,
    since: int,
)
    requires
        heard_no_later(connections, id, since),
    ensures
        heard_no_later(connections.filter(staying), id, since),
{
    let kept = connections.filter(staying);
    seqs::filter_members(connections, staying);
    assert forall|i: int|
        0 <= i < kept.len() && (#[trigger] kept[i]).connection_id == id implies
        kept[i].last_message_ms <= since by {
        assert(connections.contains(kept[i]));
        let k = choose|k: int| 0 <= k < connections.len() && connections[k] == kept[i];
        assert(connections[k].connection_id == id);
    }
}

/// Newcomers do not stand in for whoever is served.
proof fn newcomers_make_nobody_younger(
    service: ServiceModel,
    newcomers: Seq<(Seq<char>, ConnectionProfile)>,
    now_ms: int,
    id: Seq<char>,
    since: int,
)
    requires
        runtime::distinct(service.connections),
        runtime::served(service.connections, id),
        heard_no_later(service.connections, id, since),
    ensures
        heard_no_later(service.joined_by(newcomers, now_ms).connections, id, since),
    decreases newcomers.len(),
{
    if newcomers.len() > 0 {
        let earlier = newcomers.drop_last();
        newcomers_make_nobody_younger(service, earlier, now_ms, id, since);
        newcomers_join(service, earlier, now_ms);
        let before = service.joined_by(earlier, now_ms).connections;
        let after = service.joined_by(newcomers, now_ms).connections;
        assert(runtime::served(before, id));
        assert forall|i: int|
            0 <= i < after.len() && (#[trigger] after[i]).connection_id == id implies
            after[i].last_message_ms <= since by {
            if i < before.len() {
                assert(after[i] == before[i]);
            }
        }
    }
}

/// Others' frames do not count.
proof fn others_frames_make_nobody_younger(
    service: ServiceModel,
    arrivals: Seq<(Seq<char>, Seq<Seq<char>>)>,
    now_ms: int,
    id: Seq<char>,
    since: int,
)
    requires
        heard_no_later(service.connections, id, since),
        forall|i: int|
            0 <= i < arrivals.len() && (#[trigger] arrivals[i]).0 == id ==> arrivals[i].1.len()
                == 0,
    ensures
        heard_no_later(service.hearing(arrivals, now_ms).connections, id, since),
    decreases arrivals.len(),
{
    if arrivals.len() > 0 {
        let earlier = arrivals.drop_last();
        assert forall|i: int| 0 <= i < earlier.len() && (#[trigger] earlier[i]).0 == id implies
            earlier[i].1.len() == 0 by {
            assert(arrivals[i] == earlier[i]);
        }
        others_frames_make_nobody_younger(service, earlier, now_ms, id, since);
        let last = arrivals[arrivals.len() - 1];
        if last.1.len() > 0 {
            assert(last.0 != id);
            a_change_makes_nobody_younger(
                service.hearing(earlier, now_ms).connections,
                runtime::touched(last.0, now_ms),
                id,
                since,
            );
        }
    }
}

/// Others' polls do not count.
proof fn others_polls_make_nobody_younger(
    service: ServiceModel,
    polls: Seq<Seq<char>>,
    now_ms: int,
    id: Seq<char>,
    since: int,
)
    requires
        heard_no_later(service.connections, id, since),
        !polls.contains(id),
    ensures
        heard_no_later(service.polled_by(polls, now_ms).connections, id, since),
    decreases polls.len(),
{
    if polls.len() > 0 {
        let earlier = polls.drop_last();
        assert(!earlier.contains(id)) by {
            if earlier.contains(id) {
                let i = choose|i: int| 0 <= i < earlier.len() && earlier[i] == id;
                assert(polls[i] == id);
            }
        }
        others_polls_make_nobody_younger(service, earlier, now_ms, id, since);
        assert(polls[polls.len() - 1] != id);
        a_change_makes_nobody_younger(
            service.polled_by(earlier, now_ms).connections,
            runtime::answered(polls.last(), now_ms),
            id,
            since,
        );
    }
}

/// In a turn in which a client is silent it is heard of no later, up to the end
/// of its connection for silence and after it.
proof fn a_silent_turn(service: ServiceModel, turn: TurnModel, id: Seq<char>, since: int)
    requires
        runtime::distinct(service.connections),
        runtime::served(service.connections, id),
        heard_no_later(service.connections, id, since),
        turn.hears_nothing_of(id),
    ensures
        heard_no_later(service.in_turn_heard(turn).connections, id, since),
        heard_no_later(service.completed(turn).connections, id, since),
{
    let now_ms = turn.now_ms;
    let begun = service.begun(now_ms);
    let joined = service.in_turn_joined(turn);
    let heard_from = service.in_turn_heard(turn);
    let left = service.in_turn_left(turn);
    turn_keeps_distinct(service, turn);
    change_keeps_ids(service.connections, runtime::heard_by(now_ms));
    assert(runtime::served(begun.connections, id) == runtime::served(service.connections, id));
    a_change_makes_nobody_younger(service.connections, runtime::heard_by(now_ms), id, since);
    newcomers_make_nobody_younger(begun, turn.newcomers, now_ms, id, since);
    match turn.scanned {
        Some(disk) => {
            leaving_makes_nobody_younger(joined.connections, runtime::present(disk), id, since);
        },
        None => {},
    }
    others_frames_make_nobody_younger(
        service.in_turn_swept(turn),
        turn.arrivals,
        now_ms,
        id,
        since,
    );
    leaving_makes_nobody_younger(heard_from.connections, runtime::heard(now_ms), id, since);
    match turn.output {
        Some(output) => {
            a_change_makes_nobody_younger(
                left.connections,
                runtime::queueing(output.messages),
                id,
                since,
            );
            leaving_makes_nobody_younger(
                left.queued(output),
                runtime::not_among(output.close_connections),
                id,
                since,
            );
        },
        None => {},
    }
    others_polls_make_nobody_younger(service.after_turn(turn), turn.polls, now_ms, id, since);
}

/// Over turns in which a client is silent it is heard of no later.
proof fn silent_turns(start: ServiceModel, turns: Seq<TurnModel>, id: Seq<char>, since: int)
    requires
        runtime::distinct(start.connections),
        runtime::served(start.connections, id),
        heard_no_later(start.connections, id, since),
        forall|i: int| 0 <= i < turns.len() ==> (#[trigger] turns[i]).hears_nothing_of(id),
        start.keeps(turns, id),
    ensures
        heard_no_later(start.through(turns).connections, id, since),
        runtime::served(start.through(turns).connections, id),
    decreases turns.len(),
{
    if turns.len() > 0 {
        let earlier = turns.drop_last();
        assert forall|i: int| 0 <= i < earlier.len() implies (
        #[trigger] earlier[i]).hears_nothing_of(id) by {
            assert(earlier[i] == turns[i]);
        }
        silent_turns(start, earlier, id, since);
        run_keeps_distinct(start, earlier);
        assert(turns[turns.len() - 1].hears_nothing_of(id));
        a_silent_turn(start.through(earlier), turns.last(), id, since);
    }
}

/// A client that says nothing for two minutes is disconnected, whatever others
/// do: where it was last heard of at `since`, no frame of its comes in any of
/// these turns and no poll of its is answered, the turn that comes two minutes
/// later ends its connection, and the engine is told that it was silent too
/// long, unless its profile is gone by then.
pub proof fn silence_ends_a_connection(
    start: ServiceModel,
    turns: Seq<TurnModel>,
    id: Seq<char>,
    since: int,
)
    requires
        runtime::distinct(start.connections),
        runtime::served(start.connections, id),
        forall|i: int|
            0 <= i < start.connections.len() && (#[trigger] start.connections[i]).connection_id
                == id ==> start.connections[i].last_message_ms <= since,
        turns.len() > 0,
        forall|i: int| 0 <= i < turns.len() ==> (#[trigger] turns[i]).hears_nothing_of(id),
        start.keeps(turns.drop_last(), id),
        turns.last().scanned matches Some(disk) ==> disk.contains_key(id),
        turns.last().now_ms >= since + 120_000,
    ensures
        start.through(turns.drop_last()).batch_in(turns.last()).closed_connections.contains(
            ClosedModel { connection_id: id, reason: CloseReason::ServerIdleTimeout },
        ),
        !runtime::served(start.through(turns).connections, id),
{
    let earlier = turns.drop_last();
    let turn = turns.last();
    let service = start.through(earlier);
    assert forall|i: int| 0 <= i < earlier.len() implies (
    #[trigger] earlier[i]).hears_nothing_of(id) by {
        assert(earlier[i] == turns[i]);
    }
    silent_turns(start, earlier, id, since);
    run_keeps_distinct(start, earlier);
    assert(turns[turns.len() - 1].hears_nothing_of(id));
    a_silent_turn(service, turn, id, since);
    let begun = service.begun(turn.now_ms);
    let joined = service.in_turn_joined(turn);
    let swept = service.in_turn_swept(turn);
    let heard_from = service.in_turn_heard(turn).connections;
    change_keeps_ids(service.connections, runtime::heard_by(turn.now_ms));
    assert(runtime::served(begun.connections, id) == runtime::served(service.connections, id));
    newcomers_join(begun, turn.newcomers, turn.now_ms);
    assert(runtime::served(joined.connections, id));
    match turn.scanned {
        Some(disk) => {
            let k = choose|k: int|
                0 <= k < joined.connections.len() && (
                #[trigger] joined.connections[k]).connection_id == id;
            seqs::filter_members(joined.connections, runtime::present(disk));
            assert(swept.connections.contains(joined.connections[k]));
            let m = choose|m: int|
                0 <= m < swept.connections.len() && swept.connections[m] == joined.connections[k];
            assert(swept.connections[m].connection_id == id);
        },
        None => {},
    }
    turn_keeps_distinct(service, turn);
    arrivals_change_no_ids(swept, turn.arrivals, turn.now_ms);
    assert(runtime::served(heard_from, id));
    let i = choose|i: int|
        0 <= i < heard_from.len() && (#[trigger] heard_from[i]).connection_id == id;
    assert(heard_from[i].last_message_ms <= since);
    every_end_has_its_reason(service, turn, id);
    no_connection_ends_in_silence(service, turn, id);
    assert(service.told_of(turn).contains(ended(id, CloseReason::ServerIdleTimeout)));
    polls_change_little(service.after_turn(turn), turn.polls, turn.now_ms);
    assert(runtime::served(service.completed(turn).connections, id) == runtime::served(
        service.after_turn(turn).connections,
        id,
    ));
}

} // verus!
