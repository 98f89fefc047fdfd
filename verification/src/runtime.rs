//! The running service: what it knows of its connections and timers, and what
//! it decides at each turn of its loop. Reading the clock, the state folder
//! and the pipes, and carrying out what is decided, is the program's part.
//!
//! One turn goes through these steps, in this order: [`Service::begin_tick`],
//! then, if a scan is due, [`Service::profiles_to_load`], [`Service::welcome`]
//! for each profile that could be loaded and served, and [`Service::sweep`];
//! [`Service::receive`] for each connection; [`Service::disconnect_idle`];
//! [`Service::run_engine`]; [`Service::serve_poll`] for each connection on
//! which a client waits; and [`Service::finish`].
use crate::engine::{
    tell, BatchModel, CallModel, CloseReason, ClosedConnection, ClosedModel, EngineOutput,
    ExpiredTimer, InboundMessage, MessageModel, NewConnection, NewModel, OutboundMessage,
    OutputModel, StadhouderStateEngine, TimerModel,
};
use crate::heartbeat;
use crate::heartbeat::is_heartbeat;
use crate::json;
use crate::json::{Json, JsonModel};
use crate::pipes;
use crate::pipes::PipeNames;
use crate::seqs;
use crate::state;
use crate::state::{
    connection_id_from_filename, ConnectionProfile, FlagModel, ServiceFlag, StateFile,
};
use crate::text;
use crate::text::same_text;
use crate::timers;
use crate::timers::Timers;
use vstd::prelude::*;

verus! {

/// The pace of the loop. This and the other durations are engine time, in
/// milliseconds.
pub const TICK_MS: u64 = 250;

/// How often the state folder is scanned for profiles.
pub const SCAN_INTERVAL_MS: i64 = 4_000;

/// How often the live instance refreshes its flag.
pub const FLAG_UPDATE_INTERVAL_MS: i64 = 20_000;

/// A flag younger than this means that another instance is live.
pub const FLAG_STALE_MS: i64 = 120_000;

/// With no connections this long after its start, an instance ends.
pub const IDLE_EXIT_MS: i64 = 56_000;

/// A client silent for this long is disconnected.
pub const CLIENT_INACTIVITY_MS: i64 = 120_000;

/// A client that has just connected waits for its pipes longer than the
/// service takes to look for new connections.
pub proof fn clients_outwait_the_scan()
    ensures
        pipes::NOT_FOUND_MS > SCAN_INTERVAL_MS,
{
}

// ---------------------------------------------------------------------------
// The model
// ---------------------------------------------------------------------------

/// A live connection.
#[verifier::ext_equal]
pub struct ConnectionModel {
    pub connection_id: Seq<char>,
    pub client_to_server: Seq<char>,
    pub server_to_client: Seq<char>,
    /// The messages queued for the client, oldest first.
    pub outbox: Seq<JsonModel>,
    /// When the client was last heard of.
    pub last_message_ms: int,
}

/// What the service knows.
#[verifier::ext_equal]
pub struct ServiceModel {
    /// When this instance started.
    pub started_ms: int,
    /// When it last refreshed its flag.
    pub flag_updated_ms: int,
    /// When the next scan is due.
    pub next_scan_ms: int,
    pub connections: Seq<ConnectionModel>,
    pub timers: Seq<TimerModel>,
    /// Closes that the engine ordered and has not been told of yet.
    pub closes: Seq<Seq<char>>,
    /// The calls of the engine so far. Each is written down by the function that
    /// makes it, which says of the engine itself what the call has done:
    /// [`Takeover::go_live`], [`Service::run_engine`] and [`Service::finish`].
    pub calls: Seq<CallModel>,
}

/// Whether no two connections have the same id.
pub open spec fn distinct(connections: Seq<ConnectionModel>) -> bool {
    forall|i: int, j: int|
        0 <= i < j < connections.len() ==> (#[trigger] connections[i]).connection_id != (
        #[trigger] connections[j]).connection_id
}

/// Whether a connection of that id is among these.
pub open spec fn served(connections: Seq<ConnectionModel>, id: Seq<char>) -> bool {
    exists|i: int|
        0 <= i < connections.len() && (#[trigger] connections[i]).connection_id == id
}

struct LiveConnection {
    connection_id: String,
    pipe_names: PipeNames,
    outbox: Vec<Json>,
    last_message_ms: i64,
}

impl View for LiveConnection {
    type V = ConnectionModel;

    closed spec fn view(&self) -> ConnectionModel {
        ConnectionModel {
            connection_id: self.connection_id@,
            client_to_server: self.pipe_names.client_to_server@,
            server_to_client: self.pipe_names.server_to_client@,
            outbox: json::items_model(self.outbox@),
            last_message_ms: self.last_message_ms as int,
        }
    }
}

/// The running service.
pub struct Service {
    started_ms: i64,
    flag_updated_ms: i64,
    next_scan_ms: i128,
    connections: Vec<LiveConnection>,
    timers: Timers,
    closes: Vec<String>,
    calls: Ghost<Seq<CallModel>>,
}

impl View for Service {
    type V = ServiceModel;

    closed spec fn view(&self) -> ServiceModel {
        ServiceModel {
            started_ms: self.started_ms as int,
            flag_updated_ms: self.flag_updated_ms as int,
            next_scan_ms: self.next_scan_ms as int,
            connections: seqs::views(self.connections@),
            timers: self.timers@,
            closes: text::texts(self.closes@),
            calls: self.calls@,
        }
    }
}

impl Service {
    /// Whether the service is well formed: its connections' ids are distinct.
    pub open spec fn wf(self) -> bool {
        distinct(self@.connections)
    }
}

/// What has happened since the engine was last called.
pub struct Batch {
    pub now_ms: i64,
    pub new_connections: Vec<NewConnection>,
    pub closed_connections: Vec<ClosedConnection>,
    pub messages: Vec<InboundMessage>,
    pub expired_timers: Vec<ExpiredTimer>,
}

impl View for Batch {
    type V = BatchModel;

    open spec fn view(&self) -> BatchModel {
        BatchModel {
            now_ms: self.now_ms as int,
            new_connections: seqs::views(self.new_connections@),
            closed_connections: seqs::views(self.closed_connections@),
            messages: seqs::views(self.messages@),
            expired_timers: seqs::views(self.expired_timers@),
        }
    }
}

impl BatchModel {
    /// Whether nothing has happened: the engine is then not called.
    pub open spec fn uneventful(self) -> bool {
        &&& self.new_connections.len() == 0
        &&& self.closed_connections.len() == 0
        &&& self.messages.len() == 0
        &&& self.expired_timers.len() == 0
    }
}

impl Batch {
    /// Whether nothing has happened: the engine is then not called.
    pub fn is_uneventful(&self) -> (r: bool)
        ensures
            r == self@.uneventful(),
    {
        self.new_connections.len() == 0 && self.closed_connections.len() == 0
            && self.messages.len() == 0 && self.expired_timers.len() == 0
    }
}

// ---------------------------------------------------------------------------
// Starting
// ---------------------------------------------------------------------------

/// Whether a flag shows that another instance is live. One from the future,
/// for simulated time can jump back, shows nothing.
pub open spec fn fresh(started_ms: int, flag: Option<FlagModel>) -> bool {
    flag matches Some(flag) && 0 <= started_ms - flag.updated_ms < FLAG_STALE_MS
}

impl ServiceModel {
    /// What an instance knows once it is live: nothing but the time. Its engine
    /// has been told that the run begins, and the first scan is due at once.
    pub open spec fn initial(started_ms: int) -> ServiceModel {
        ServiceModel {
            started_ms,
            flag_updated_ms: started_ms,
            next_scan_ms: started_ms,
            connections: seq![],
            timers: seq![],
            closes: seq![],
            calls: seq![CallModel::Init(started_ms)],
        }
    }
}

/// An instance that is about to become the live one.
pub struct Takeover {
    started_ms: i64,
}

impl View for Takeover {
    type V = i64;

    closed spec fn view(&self) -> i64 {
        self.started_ms
    }
}

impl Service {
    /// Starts an instance; nothing comes of it where the flag shows that
    /// another one is live. The instance that starts writes its own flag, and
    /// goes live.
    pub fn start(started_ms: i64, flag: &Option<ServiceFlag>) -> (r: Option<Takeover>)
        ensures
            r is None <==> fresh(started_ms as int, state::flag_model(*flag)),
            r matches Some(takeover) ==> takeover@ == started_ms,
    {
        match flag {
            Some(flag) => {
                let age: i128 = started_ms as i128 - flag.updated_ms as i128;
                if 0 <= age && age < FLAG_STALE_MS as i128 {
                    return None;
                }
            },
            None => {},
        }
        Some(Takeover { started_ms })
    }
}

impl Takeover {
    /// Makes the instance the live one, which calls the engine's `init`. What is
    /// left to be done before the first turn is to remove the profiles of
    /// earlier runs.
    pub fn go_live<E: StadhouderStateEngine>(self, engine: &mut E) -> (r: Service)
        ensures
            r.wf(),
            r@ == ServiceModel::initial(self@ as int),
            exists|told: &mut E|
                *told == *old(engine) && *final(told) == *final(engine) && #[trigger] call_ensures(
                    E::init,
                    (told, self@),
                    (),
                ),
    {
        let started_ms: i64 = self.started_ms;
        tell(E::init, engine, started_ms);
        let ghost first = seq![CallModel::Init(started_ms as int)];
        let service = Service {
            started_ms,
            flag_updated_ms: started_ms,
            next_scan_ms: started_ms as i128,
            connections: Vec::new(),
            timers: Timers::new(),
            closes: Vec::new(),
            calls: Ghost(first),
        };
        assert(service@ =~= ServiceModel::initial(started_ms as int));
        service
    }
}

// ---------------------------------------------------------------------------
// The beginning of a turn
// ---------------------------------------------------------------------------

/// The earlier of two times.
pub open spec fn earlier(a: int, b: int) -> int {
    if b < a {
        b
    } else {
        a
    }
}

/// A connection, last heard of no later than now.
pub open spec fn heard_by(now_ms: int) -> spec_fn(ConnectionModel) -> ConnectionModel {
    |c: ConnectionModel|
        ConnectionModel { last_message_ms: earlier(c.last_message_ms, now_ms), ..c }
}

/// How an engine-ordered close is reported.
pub open spec fn ordered_close() -> spec_fn(Seq<char>) -> ClosedModel {
    |id: Seq<char>| ClosedModel { connection_id: id, reason: CloseReason::EngineRequested }
}

impl ServiceModel {
    /// What the service knows, with nothing in the future: where time has
    /// jumped back, a schedule left ahead of it would stand still.
    pub open spec fn clamped(self, now_ms: int) -> ServiceModel {
        ServiceModel {
            started_ms: earlier(self.started_ms, now_ms),
            flag_updated_ms: earlier(self.flag_updated_ms, now_ms),
            next_scan_ms: if now_ms < self.next_scan_ms - SCAN_INTERVAL_MS {
                now_ms
            } else {
                self.next_scan_ms
            },
            connections: self.connections.map_values(heard_by(now_ms)),
            ..self
        }
    }

    /// Whether the flag is to be refreshed.
    pub open spec fn flag_due(self, now_ms: int) -> bool {
        now_ms - self.clamped(now_ms).flag_updated_ms >= FLAG_UPDATE_INTERVAL_MS
    }

    /// Whether the state folder is to be scanned.
    pub open spec fn scan_due(self, now_ms: int) -> bool {
        now_ms >= self.clamped(now_ms).next_scan_ms
    }

    /// What the service knows once a turn has begun.
    pub open spec fn begun(self, now_ms: int) -> ServiceModel {
        ServiceModel {
            flag_updated_ms: if self.flag_due(now_ms) {
                now_ms
            } else {
                self.clamped(now_ms).flag_updated_ms
            },
            next_scan_ms: if self.scan_due(now_ms) {
                now_ms + SCAN_INTERVAL_MS
            } else {
                self.clamped(now_ms).next_scan_ms
            },
            closes: seq![],
            ..self.clamped(now_ms)
        }
    }

    /// What a turn begins with: the closes the engine ordered before.
    pub open spec fn first_news(self, now_ms: int) -> BatchModel {
        BatchModel {
            now_ms,
            new_connections: seq![],
            closed_connections: self.closes.map_values(ordered_close()),
            messages: seq![],
            expired_timers: seq![],
        }
    }
}

/// Lets no connection be heard of in the future.
fn clamp(connections: &mut Vec<LiveConnection>, now_ms: i64)
    ensures
        seqs::views(final(connections)@) == seqs::views(old(connections)@).map_values(
            heard_by(now_ms as int),
        ),
{
    let ghost known = connections@;
    let ghost clamped = seqs::views(known).map_values(heard_by(now_ms as int));
    let n = connections.len();
    for i in 0..n
        invariant
            n == known.len(),
            connections@.len() == known.len(),
            clamped == seqs::views(known).map_values(heard_by(now_ms as int)),
            forall|j: int|
                0 <= j < known.len() ==> (#[trigger] connections@[j])@ == if j < i {
                    clamped[j]
                } else {
                    known[j]@
                },
    {
        if now_ms < connections[i].last_message_ms {
            connections[i].last_message_ms = now_ms;
        }
    }
    assert(seqs::views(connections@) == clamped);
}

/// A turn that has begun.
pub struct Turn {
    /// Whether to measure the memory and write the flag.
    pub refresh_flag: bool,
    /// Whether to scan the state folder.
    pub scan: bool,
    /// What the engine is to be told.
    pub batch: Batch,
}

impl Service {
    /// Begins a turn.
    pub fn begin_tick(&mut self, now_ms: i64) -> (r: Turn)
        requires
            old(self).wf(),
        ensures
            final(self).wf(),
            final(self)@ == old(self)@.begun(now_ms as int),
            r.refresh_flag == old(self)@.flag_due(now_ms as int),
            r.scan == old(self)@.scan_due(now_ms as int),
            r.batch@ == old(self)@.first_news(now_ms as int),
    {
        let ghost before = self@;
        if now_ms < self.started_ms {
            self.started_ms = now_ms;
        }
        if now_ms < self.flag_updated_ms {
            self.flag_updated_ms = now_ms;
        }
        if now_ms as i128 + (SCAN_INTERVAL_MS as i128) < self.next_scan_ms {
            self.next_scan_ms = now_ms as i128;
        }
        clamp(&mut self.connections, now_ms);
        let refresh_flag = now_ms as i128 - self.flag_updated_ms as i128
            >= FLAG_UPDATE_INTERVAL_MS as i128;
        if refresh_flag {
            self.flag_updated_ms = now_ms;
        }
        let scan = now_ms as i128 >= self.next_scan_ms;
        if scan {
            self.next_scan_ms = now_ms as i128 + SCAN_INTERVAL_MS as i128;
        }
        let mut closes: Vec<String> = Vec::new();
        std::mem::swap(&mut closes, &mut self.closes);
        let ghost ordered = closes@;
        let mut closed_connections: Vec<ClosedConnection> = Vec::new();
        for connection_id in it: closes
            invariant
                it.seq() == ordered,
                seqs::views(closed_connections@) == text::texts(
                    ordered.take(it.index() as int),
                ).map_values(ordered_close()),
        {
            let closed = ClosedConnection { connection_id, reason: CloseReason::EngineRequested };
            proof {
                let i = it.index() as int;
                assert(seqs::views(closed_connections@.push(closed)) == seqs::views(
                    closed_connections@,
                ).push(closed@));
                assert(text::texts(ordered.take(i + 1)) == text::texts(ordered.take(i)).push(
                    ordered[i]@,
                ));
                assert(text::texts(ordered.take(i + 1)).map_values(ordered_close())
                    == text::texts(ordered.take(i)).map_values(ordered_close()).push(closed@));
            }
            closed_connections.push(closed);
        }
        assert(ordered.take(ordered.len() as int) == ordered);
        let batch = Batch {
            now_ms,
            new_connections: Vec::new(),
            closed_connections,
            messages: Vec::new(),
            expired_timers: Vec::new(),
        };
        proof {
            assert(batch@ =~= before.first_news(now_ms as int));
            assert(self@ =~= before.begun(now_ms as int));
            assert forall|i: int, j: int| 0 <= i < j < self@.connections.len() implies (
            #[trigger] self@.connections[i]).connection_id != (
            #[trigger] self@.connections[j]).connection_id by {
                assert(before.connections[i].connection_id != before.connections[j].connection_id);
            }
        }
        Turn { refresh_flag, scan, batch }
    }
}

// ---------------------------------------------------------------------------
// Scanning for connections
// ---------------------------------------------------------------------------

/// The connections that have a profile among the state folder's files: each
/// id with the name of its file. Of two names that stand for one id, the later
/// counts.
pub open spec fn on_disk(names: Seq<Seq<char>>) -> Map<Seq<char>, Seq<char>>
    decreases names.len(),
{
    if names.len() == 0 {
        Map::empty()
    } else {
        let before = on_disk(names.drop_last());
        match state::profile_id(names.last()) {
            Some(id) => before.insert(id, names.last()),
            None => before,
        }
    }
}

/// A profile to be loaded.
pub struct FoundProfile {
    pub connection_id: String,
    /// The name of its file.
    pub name: String,
}

/// Where the connection of that id is.
fn position(connections: &Vec<LiveConnection>, id: &str) -> (r: Option<usize>)
    ensures
        r is Some <==> served(seqs::views(connections@), id@),
        r matches Some(i) ==> i < connections@.len() && connections@[i as int]@.connection_id
            == id@,
{
    for i in 0..connections.len()
        invariant
            forall|j: int| 0 <= j < i ==> (#[trigger] connections@[j])@.connection_id != id@,
    {
        if same_text(connections[i].connection_id.as_str(), id) {
            assert(seqs::views(connections@)[i as int].connection_id == id@);
            return Some(i);
        }
    }
    None
}

/// Where the profile of that id is.
fn found_at(found: &Vec<FoundProfile>, id: &str) -> (r: Option<usize>)
    ensures
        match r {
            Some(i) => i < found@.len() && found@[i as int].connection_id@ == id@,
            None => forall|j: int|
                0 <= j < found@.len() ==> (#[trigger] found@[j]).connection_id@ != id@,
        },
{
    for i in 0..found.len()
        invariant
            forall|j: int| 0 <= j < i ==> (#[trigger] found@[j]).connection_id@ != id@,
    {
        if same_text(found[i].connection_id.as_str(), id) {
            return Some(i);
        }
    }
    None
}

/// Whether these are the profiles to be loaded: each connection that has a
/// profile on disk and is not live yet, once, with the name of its file.
pub open spec fn to_load(
    found: Seq<FoundProfile>,
    disk: Map<Seq<char>, Seq<char>>,
    connections: Seq<ConnectionModel>,
) -> bool {
    &&& forall|i: int, j: int|
        0 <= i < j < found.len() ==> (#[trigger] found[i]).connection_id@ != (
        #[trigger] found[j]).connection_id@
    &&& forall|i: int|
        0 <= i < found.len() ==> {
            let id = (#[trigger] found[i]).connection_id@;
            disk.contains_key(id) && disk[id] == found[i].name@ && !served(connections, id)
        }
    &&& forall|id: Seq<char>| #[trigger]
        disk.contains_key(id) && !served(connections, id) ==> exists|i: int|
            0 <= i < found.len() && (#[trigger] found[i]).connection_id@ == id
}

/// Profiles that were found are found still, and with them the one at `k`.
proof fn profiles_stay_found(
    before: Seq<FoundProfile>,
    after: Seq<FoundProfile>,
    disk: Map<Seq<char>, Seq<char>>,
    next: Map<Seq<char>, Seq<char>>,
    connections: Seq<ConnectionModel>,
    k: int,
)
    requires
        to_load(before, disk, connections),
        before.len() <= after.len(),
        0 <= k < after.len(),
        forall|j: int|
            0 <= j < before.len() ==> before[j].connection_id@ == (
            #[trigger] after[j]).connection_id@,
        forall|id: Seq<char>| #[trigger]
            next.contains_key(id) ==> disk.contains_key(id) || id == after[k].connection_id@,
    ensures
        forall|id: Seq<char>| #[trigger]
            next.contains_key(id) && !served(connections, id) ==> exists|j: int|
                0 <= j < after.len() && (#[trigger] after[j]).connection_id@ == id,
{
    assert forall|id: Seq<char>| #[trigger]
        next.contains_key(id) && !served(connections, id) implies exists|j: int|
        0 <= j < after.len() && (#[trigger] after[j]).connection_id@ == id by {
        if id == after[k].connection_id@ {
            assert(after[k].connection_id@ == id);
        } else {
            assert(disk.contains_key(id));
            let j = choose|j: int|
                0 <= j < before.len() && (#[trigger] before[j]).connection_id@ == id;
            assert(after[j].connection_id@ == id);
        }
    }
}

impl Service {
    /// The profiles to be loaded, from the names of the state folder's files.
    pub fn profiles_to_load(&self, names: &[String]) -> (r: Vec<FoundProfile>)
        ensures
            to_load(r@, on_disk(text::texts(names@)), self@.connections),
    {
        let mut found: Vec<FoundProfile> = Vec::new();
        let ghost all = text::texts(names@);
        assert(on_disk(all.take(0)) == Map::<Seq<char>, Seq<char>>::empty());
        for i in 0..names.len()
            invariant
                all == text::texts(names@),
                to_load(found@, on_disk(all.take(i as int)), self@.connections),
        {
            let ghost disk = on_disk(all.take(i as int));
            let ghost next = on_disk(all.take(i + 1));
            let ghost before = found@;
            proof {
                assert(all.take(i + 1).drop_last() == all.take(i as int));
                assert(all.take(i + 1).last() == names@[i as int]@);
            }
            match connection_id_from_filename(names[i].as_str()) {
                None => {},
                Some(id) => {
                    assert(next == disk.insert(id@, names@[i as int]@));
                    if position(&self.connections, id.as_str()).is_none() {
                        let name = names[i].clone();
                        match found_at(&found, id.as_str()) {
                            Some(k) => {
                                found[k].name = name;
                                proof {
                                    profiles_stay_found(
                                        before,
                                        found@,
                                        disk,
                                        next,
                                        self@.connections,
                                        k as int,
                                    );
                                }
                            },
                            None => {
                                found.push(FoundProfile { connection_id: id, name });
                                proof {
                                    profiles_stay_found(
                                        before,
                                        found@,
                                        disk,
                                        next,
                                        self@.connections,
                                        before.len() as int,
                                    );
                                }
                            },
                        }
                    }
                },
            }
        }
        assert(all.take(all.len() as int) == all);
        found
    }
}

impl ServiceModel {
    /// What the service knows with one connection more.
    pub open spec fn welcomed(
        self,
        id: Seq<char>,
        profile: ConnectionProfile,
        now_ms: int,
    ) -> ServiceModel {
        ServiceModel {
            connections: self.connections.push(
                ConnectionModel {
                    connection_id: id,
                    client_to_server: profile.client_to_server_pipe@,
                    server_to_client: profile.server_to_client_pipe@,
                    outbox: seq![],
                    last_message_ms: now_ms,
                },
            ),
            ..self
        }
    }
}

impl Service {
    /// Takes up a connection whose profile was loaded and whose pipes are
    /// served; the engine is told. The id is the one its file's name stands
    /// for. One that is live already is left as it is.
    pub fn welcome(&mut self, batch: &mut Batch, connection_id: &str, profile: &ConnectionProfile)
        -> (r: bool)
        requires
            old(self).wf(),
        ensures
            final(self).wf(),
            r == !served(old(self)@.connections, connection_id@),
            r ==> {
                &&& final(self)@ == old(self)@.welcomed(
                    connection_id@,
                    *profile,
                    old(batch)@.now_ms,
                )
                &&& final(batch)@ == (BatchModel {
                    new_connections: old(batch)@.new_connections.push(
                        NewModel { connection_id: connection_id@, user_id: profile.user_id@ },
                    ),
                    ..old(batch)@
                })
            },
            !r ==> final(self)@ == old(self)@ && final(batch)@ == old(batch)@,
    {
        if position(&self.connections, connection_id).is_some() {
            return false;
        }
        let ghost before = self@;
        let ghost told = batch@;
        let connection = LiveConnection {
            connection_id: connection_id.to_owned(),
            pipe_names: PipeNames {
                client_to_server: profile.client_to_server_pipe.clone(),
                server_to_client: profile.server_to_client_pipe.clone(),
            },
            outbox: Vec::new(),
            last_message_ms: batch.now_ms,
        };
        let new = NewConnection {
            connection_id: connection_id.to_owned(),
            user_id: profile.user_id.clone(),
        };
        proof {
            assert(seqs::views(self.connections@.push(connection)) == seqs::views(
                self.connections@,
            ).push(connection@));
            assert(seqs::views(batch.new_connections@.push(new)) == seqs::views(
                batch.new_connections@,
            ).push(new@));
        }
        self.connections.push(connection);
        batch.new_connections.push(new);
        proof {
            assert(self@ =~= before.welcomed(connection_id@, *profile, told.now_ms));
            let after = self@.connections;
            assert forall|i: int, j: int| 0 <= i < j < after.len() implies (
            #[trigger] after[i]).connection_id != (#[trigger] after[j]).connection_id by {
                assert(after[i] == before.connections[i]);
            }
        }
        true
    }
}

// ---------------------------------------------------------------------------
// Connections that end
// ---------------------------------------------------------------------------

/// A connection that is served no longer.
pub struct Departure {
    pub connection_id: String,
    pub pipe_names: PipeNames,
}

/// A connection that is served no longer.
#[verifier::ext_equal]
pub struct DepartureModel {
    pub connection_id: Seq<char>,
    pub client_to_server: Seq<char>,
    pub server_to_client: Seq<char>,
}

impl View for Departure {
    type V = DepartureModel;

    open spec fn view(&self) -> DepartureModel {
        DepartureModel {
            connection_id: self.connection_id@,
            client_to_server: self.pipe_names.client_to_server@,
            server_to_client: self.pipe_names.server_to_client@,
        }
    }
}

/// What is left of a connection when it ends: its id and its pipes' names.
pub open spec fn departing() -> spec_fn(ConnectionModel) -> DepartureModel {
    |c: ConnectionModel|
        DepartureModel {
            connection_id: c.connection_id,
            client_to_server: c.client_to_server,
            server_to_client: c.server_to_client,
        }
}

/// How the end of a connection is reported.
pub open spec fn closed_as(reason: CloseReason) -> spec_fn(ConnectionModel) -> ClosedModel {
    |c: ConnectionModel| ClosedModel { connection_id: c.connection_id, reason }
}

/// Whether a connection has lost its profile: the client has closed it.
pub open spec fn vanished(disk: Map<Seq<char>, Seq<char>>) -> spec_fn(ConnectionModel) -> bool {
    |c: ConnectionModel| !disk.contains_key(c.connection_id)
}

/// Whether a connection has its profile still.
pub open spec fn present(disk: Map<Seq<char>, Seq<char>>) -> spec_fn(ConnectionModel) -> bool {
    |c: ConnectionModel| disk.contains_key(c.connection_id)
}

/// Whether a client has been silent too long.
pub open spec fn silent(now_ms: int) -> spec_fn(ConnectionModel) -> bool {
    |c: ConnectionModel| now_ms - c.last_message_ms >= CLIENT_INACTIVITY_MS
}

/// Whether a client has been heard of lately.
pub open spec fn heard(now_ms: int) -> spec_fn(ConnectionModel) -> bool {
    |c: ConnectionModel| now_ms - c.last_message_ms < CLIENT_INACTIVITY_MS
}

impl ServiceModel {
    /// What the service knows without the connections that do not stay.
    pub open spec fn only(self, staying: spec_fn(ConnectionModel) -> bool) -> ServiceModel {
        ServiceModel { connections: self.connections.filter(staying), ..self }
    }
}

impl BatchModel {
    /// What the engine is to be told, with connections that have ended.
    pub open spec fn with_closed(
        self,
        gone: Seq<ConnectionModel>,
        reason: CloseReason,
    ) -> BatchModel {
        BatchModel {
            closed_connections: self.closed_connections + gone.map_values(closed_as(reason)),
            ..self
        }
    }
}

/// Divides connections into those that stay and those that leave.
fn divide(
    connections: Vec<LiveConnection>,
    leaves: &Vec<bool>,
    Ghost(leaving): Ghost<spec_fn(ConnectionModel) -> bool>,
    Ghost(staying): Ghost<spec_fn(ConnectionModel) -> bool>,
) -> (r: (Vec<LiveConnection>, Vec<LiveConnection>))
    requires
        leaves@.len() == connections@.len(),
        forall|i: int|
            0 <= i < connections@.len() ==> #[trigger] leaves@[i] == leaving(connections@[i]@),
        forall|c: ConnectionModel| #[trigger] leaving(c) == !staying(c),
    ensures
        seqs::views(r.0@) == seqs::views(connections@).filter(staying),
        seqs::views(r.1@) == seqs::views(connections@).filter(leaving),
{
    let ghost all = connections@;
    let ghost model = seqs::views(all);
    let mut kept: Vec<LiveConnection> = Vec::new();
    let mut gone: Vec<LiveConnection> = Vec::new();
    let n: usize = leaves.len();
    let mut i: usize = 0;
    proof {
        reveal(Seq::filter);
        assert(model.take(0) == Seq::<ConnectionModel>::empty());
        assert(seqs::views(kept@) == Seq::<ConnectionModel>::empty());
        assert(seqs::views(gone@) == Seq::<ConnectionModel>::empty());
    }
    for c in it: connections
        invariant
            it.seq() == all,
            model == seqs::views(all),
            n == leaves@.len(),
            n == all.len(),
            i == it.index(),
            forall|i: int| 0 <= i < all.len() ==> #[trigger] leaves@[i] == leaving(all[i]@),
            forall|c: ConnectionModel| #[trigger] leaving(c) == !staying(c),
            seqs::views(kept@) == model.take(it.index() as int).filter(staying),
            seqs::views(gone@) == model.take(it.index() as int).filter(leaving),
    {
        proof {
            seqs::filter_step(model, staying, i as int);
            seqs::filter_step(model, leaving, i as int);
            assert(model[i as int] == c@);
            assert(leaving(c@) == !staying(c@));
            assert(leaves@[i as int] == leaving(all[i as int]@));
        }
        if leaves[i] {
            assert(seqs::views(gone@.push(c)) == seqs::views(gone@).push(c@));
            gone.push(c);
        } else {
            assert(seqs::views(kept@.push(c)) == seqs::views(kept@).push(c@));
            kept.push(c);
        }
        i = i + 1;
    }
    assert(model.take(model.len() as int) == model);
    (kept, gone)
}

/// What is left of connections that have ended.
fn depart(gone: Vec<LiveConnection>) -> (r: Vec<Departure>)
    ensures
        seqs::views(r@) == seqs::views(gone@).map_values(departing()),
{
    let ghost all = gone@;
    let mut departures: Vec<Departure> = Vec::new();
    for c in it: gone
        invariant
            it.seq() == all,
            seqs::views(departures@) == seqs::views(all.take(it.index() as int)).map_values(
                departing(),
            ),
    {
        let ghost i = it.index() as int;
        let departure = Departure { connection_id: c.connection_id, pipe_names: c.pipe_names };
        proof {
            assert(seqs::views(all.take(i + 1)) == seqs::views(all.take(i)).push(all[i]@));
            assert(seqs::views(all.take(i + 1)).map_values(departing()) == seqs::views(
                all.take(i),
            ).map_values(departing()).push(departure@));
            assert(seqs::views(departures@.push(departure)) == seqs::views(departures@).push(
                departure@,
            ));
        }
        departures.push(departure);
    }
    assert(all.take(all.len() as int) == all);
    departures
}

/// Reports connections that have ended.
fn report(
    closed_connections: &mut Vec<ClosedConnection>,
    departures: &Vec<Departure>,
    reason: CloseReason,
    Ghost(gone): Ghost<Seq<ConnectionModel>>,
)
    requires
        seqs::views(departures@) == gone.map_values(departing()),
    ensures
        seqs::views(final(closed_connections)@) == seqs::views(old(closed_connections)@)
            + gone.map_values(closed_as(reason)),
{
    let ghost before = seqs::views(closed_connections@);
    assert(seqs::views(departures@).len() == departures@.len());
    assert(gone.map_values(departing()).len() == gone.len());
    assert(before + gone.take(0).map_values(closed_as(reason)) == before);
    for i in 0..departures.len()
        invariant
            departures@.len() == gone.len(),
            seqs::views(departures@) == gone.map_values(departing()),
            seqs::views(closed_connections@) == before + gone.take(i as int).map_values(
                closed_as(reason),
            ),
    {
        let closed = ClosedConnection {
            connection_id: departures[i].connection_id.clone(),
            reason,
        };
        proof {
            assert(seqs::views(departures@)[i as int] == departing()(gone[i as int]));
            assert(gone.take(i + 1).map_values(closed_as(reason)) == gone.take(
                i as int,
            ).map_values(closed_as(reason)).push(closed@));
            assert(seqs::views(closed_connections@.push(closed)) == seqs::views(
                closed_connections@,
            ).push(closed@));
        }
        closed_connections.push(closed);
    }
    assert(gone.take(gone.len() as int) == gone);
}

/// Whether a connection has a profile among the state folder's files.
fn listed(names: &[String], id: &str) -> (r: bool)
    ensures
        r == on_disk(text::texts(names@)).contains_key(id@),
{
    let mut r = false;
    let ghost all = text::texts(names@);
    assert(all.take(0) == Seq::<Seq<char>>::empty());
    for i in 0..names.len()
        invariant
            all == text::texts(names@),
            r == on_disk(all.take(i as int)).contains_key(id@),
    {
        proof {
            assert(all.take(i + 1).drop_last() == all.take(i as int));
            assert(all.take(i + 1).last() == names@[i as int]@);
        }
        match connection_id_from_filename(names[i].as_str()) {
            Some(tag) => {
                if same_text(tag.as_str(), id) {
                    r = true;
                }
            },
            None => {},
        }
    }
    assert(all.take(all.len() as int) == all);
    r
}

impl Service {
    /// Lets go of the connections whose profile has vanished: their clients
    /// have closed them. The engine is told; what is returned has pipes to be
    /// removed.
    pub fn sweep(&mut self, batch: &mut Batch, names: &[String]) -> (r: Vec<Departure>)
        requires
            old(self).wf(),
        ensures
            final(self).wf(),
            ({
                let disk = on_disk(text::texts(names@));
                let gone = old(self)@.connections.filter(vanished(disk));
                &&& final(self)@ == old(self)@.only(present(disk))
                &&& final(batch)@ == old(batch)@.with_closed(gone, CloseReason::ClientDisconnected)
                &&& seqs::views(r@) == gone.map_values(departing())
            }),
    {
        let ghost before = self@;
        let ghost told = batch@;
        let ghost disk = on_disk(text::texts(names@));
        let mut connections: Vec<LiveConnection> = Vec::new();
        std::mem::swap(&mut connections, &mut self.connections);
        let mut leaves: Vec<bool> = Vec::new();
        for i in 0..connections.len()
            invariant
                leaves@.len() == i,
                disk == on_disk(text::texts(names@)),
                forall|j: int|
                    0 <= j < i ==> #[trigger] leaves@[j] == vanished(disk)(connections@[j]@),
        {
            leaves.push(!listed(names, connections[i].connection_id.as_str()));
        }
        let (kept, gone) = divide(
            connections,
            &leaves,
            Ghost(vanished(disk)),
            Ghost(present(disk)),
        );
        self.connections = kept;
        let r = depart(gone);
        report(
            &mut batch.closed_connections,
            &r,
            CloseReason::ClientDisconnected,
            Ghost(before.connections.filter(vanished(disk))),
        );
        proof {
            assert(self@ =~= before.only(present(disk)));
            assert(batch@ =~= told.with_closed(
                before.connections.filter(vanished(disk)),
                CloseReason::ClientDisconnected,
            ));
            filtering_keeps_distinct(before.connections, present(disk));
        }
        r
    }

    /// Disconnects the clients that have been silent too long. The engine is
    /// told; what is returned has pipes and profiles to be removed.
    pub fn disconnect_idle(&mut self, batch: &mut Batch) -> (r: Vec<Departure>)
        requires
            old(self).wf(),
        ensures
            final(self).wf(),
            ({
                let now_ms = old(batch)@.now_ms;
                let gone = old(self)@.connections.filter(silent(now_ms));
                &&& final(self)@ == old(self)@.only(heard(now_ms))
                &&& final(batch)@ == old(batch)@.with_closed(gone, CloseReason::ServerIdleTimeout)
                &&& seqs::views(r@) == gone.map_values(departing())
            }),
    {
        let ghost before = self@;
        let ghost told = batch@;
        let now_ms: i64 = batch.now_ms;
        let mut connections: Vec<LiveConnection> = Vec::new();
        std::mem::swap(&mut connections, &mut self.connections);
        let mut leaves: Vec<bool> = Vec::new();
        for i in 0..connections.len()
            invariant
                leaves@.len() == i,
                forall|j: int|
                    0 <= j < i ==> #[trigger] leaves@[j] == silent(now_ms as int)(
                        connections@[j]@,
                    ),
        {
            let silence: i128 = now_ms as i128 - connections[i].last_message_ms as i128;
            leaves.push(silence >= CLIENT_INACTIVITY_MS as i128);
        }
        let (kept, gone) = divide(
            connections,
            &leaves,
            Ghost(silent(now_ms as int)),
            Ghost(heard(now_ms as int)),
        );
        self.connections = kept;
        let r = depart(gone);
        report(
            &mut batch.closed_connections,
            &r,
            CloseReason::ServerIdleTimeout,
            Ghost(before.connections.filter(silent(now_ms as int))),
        );
        proof {
            assert(self@ =~= before.only(heard(now_ms as int)));
            assert(batch@ =~= told.with_closed(
                before.connections.filter(silent(now_ms as int)),
                CloseReason::ServerIdleTimeout,
            ));
            filtering_keeps_distinct(before.connections, heard(now_ms as int));
        }
        r
    }
}

/// The connections that stay keep distinct ids.
pub(crate) proof fn filtering_keeps_distinct(
    connections: Seq<ConnectionModel>,
    staying: spec_fn(ConnectionModel) -> bool,
)
    requires
        distinct(connections),
    ensures
        distinct(connections.filter(staying)),
{
    let id = |c: ConnectionModel| c.connection_id;
    assert forall|i: int, j: int| 0 <= i < j < connections.len() implies id(
        #[trigger] connections[i],
    ) != id(#[trigger] connections[j]) by {}
    seqs::filter_keeps_distinct(connections, staying, id);
    let kept = connections.filter(staying);
    assert forall|i: int, j: int| 0 <= i < j < kept.len() implies (
    #[trigger] kept[i]).connection_id != (#[trigger] kept[j]).connection_id by {
        assert(id(kept[i]) != id(kept[j]));
    }
}

// ---------------------------------------------------------------------------
// What arrives
// ---------------------------------------------------------------------------

/// The messages that frames carry for the engine: what is not JSON is
/// dropped, and so is a heartbeat.
pub open spec fn for_the_engine(frames: Seq<Seq<char>>) -> Seq<JsonModel>
    decreases frames.len(),
{
    if frames.len() == 0 {
        seq![]
    } else {
        let before = for_the_engine(frames.drop_last());
        match json::parsed(frames.last()) {
            Some(message) if !heartbeat::beats(message) => before.push(message),
            _ => before,
        }
    }
}

/// Messages, each with the connection they came from.
pub open spec fn from_connection(id: Seq<char>) -> spec_fn(JsonModel) -> MessageModel {
    |message: JsonModel| MessageModel { connection_id: id, message }
}

/// A connection that was heard of just now.
pub open spec fn touched(id: Seq<char>, now_ms: int) -> spec_fn(
    ConnectionModel,
) -> ConnectionModel {
    |c: ConnectionModel|
        if c.connection_id == id {
            ConnectionModel { last_message_ms: now_ms, ..c }
        } else {
            c
        }
}

impl ServiceModel {
    /// What the service knows once frames have arrived from a connection.
    pub open spec fn received(
        self,
        id: Seq<char>,
        frames: Seq<Seq<char>>,
        now_ms: int,
    ) -> ServiceModel {
        if served(self.connections, id) && frames.len() > 0 {
            ServiceModel { connections: self.connections.map_values(touched(id, now_ms)), ..self }
        } else {
            self
        }
    }
}

impl BatchModel {
    /// What the engine is to be told, with the messages in a connection's
    /// frames.
    pub open spec fn with_messages(self, id: Seq<char>, frames: Seq<Seq<char>>) -> BatchModel {
        BatchModel {
            messages: self.messages + for_the_engine(frames).map_values(from_connection(id)),
            ..self
        }
    }
}

impl Service {
    /// Takes in the frames that have arrived from a connection. Every frame,
    /// a heartbeat or one that is not JSON too, counts as hearing of the
    /// client. What comes from a connection that is not served is dropped.
    pub fn receive(&mut self, batch: &mut Batch, connection_id: &str, frames: &[String])
        requires
            old(self).wf(),
        ensures
            final(self).wf(),
            final(self)@ == old(self)@.received(
                connection_id@,
                text::texts(frames@),
                old(batch)@.now_ms,
            ),
            final(batch)@ == if served(old(self)@.connections, connection_id@) {
                old(batch)@.with_messages(connection_id@, text::texts(frames@))
            } else {
                old(batch)@
            },
    {
        if position(&self.connections, connection_id).is_none() {
            return ;
        }
        let ghost before = self@;
        let ghost told = batch@;
        let ghost all = text::texts(frames@);
        let ghost here = from_connection(connection_id@);
        if frames.len() > 0 {
            touch(&mut self.connections, connection_id, batch.now_ms);
        }
        let mut messages: Vec<InboundMessage> = Vec::new();
        assert(all.take(0) == Seq::<Seq<char>>::empty());
        assert(seqs::views(messages@) == for_the_engine(all.take(0)).map_values(here));
        for i in 0..frames.len()
            invariant
                all == text::texts(frames@),
                here == from_connection(connection_id@),
                seqs::views(messages@) == for_the_engine(all.take(i as int)).map_values(here),
        {
            proof {
                assert(all.take(i + 1).drop_last() == all.take(i as int));
                assert(all.take(i + 1).last() == frames@[i as int]@);
            }
            match Json::parse(frames[i].as_str()) {
                Some(message) => {
                    if !is_heartbeat(&message) {
                        let inbound = InboundMessage {
                            connection_id: connection_id.to_owned(),
                            message,
                        };
                        proof {
                            assert(seqs::views(messages@.push(inbound)) == seqs::views(
                                messages@,
                            ).push(inbound@));
                            assert(for_the_engine(all.take(i + 1)).map_values(here)
                                == for_the_engine(all.take(i as int)).map_values(here).push(
                                inbound@,
                            ));
                        }
                        messages.push(inbound);
                    }
                },
                None => {},
            }
        }
        assert(all.take(all.len() as int) == all);
        let ghost arrived = messages@;
        let ghost earlier_ones = batch.messages@;
        batch.messages.append(&mut messages);
        proof {
            assert(seqs::views(batch.messages@) == seqs::views(earlier_ones) + seqs::views(
                arrived,
            ));
            assert(batch@ =~= told.with_messages(connection_id@, all));
            assert(self@ =~= before.received(connection_id@, all, told.now_ms));
            let after = self@.connections;
            assert forall|i: int, j: int| 0 <= i < j < after.len() implies (
            #[trigger] after[i]).connection_id != (#[trigger] after[j]).connection_id by {
                assert(before.connections[i].connection_id != before.connections[j].connection_id);
            }
        }
    }

    /// Takes out the timers that have expired; the engine is told.
    pub fn expire_timers(&mut self, batch: &mut Batch)
        requires
            old(self).wf(),
        ensures
            final(self).wf(),
            final(self)@ == old(self)@.without_expired(old(batch)@.now_ms),
            final(batch)@ == old(batch)@.with_expired(old(self)@.timers),
    {
        let ghost before = self@;
        let ghost told = batch@;
        let ghost earlier_ones = batch.expired_timers@;
        let mut expired = self.timers.take_expired(batch.now_ms);
        let ghost fired = expired@;
        batch.expired_timers.append(&mut expired);
        proof {
            assert(seqs::views(batch.expired_timers@) == seqs::views(earlier_ones)
                + seqs::views(fired));
            assert(batch@ =~= told.with_expired(before.timers));
            assert(self@ =~= before.without_expired(told.now_ms));
        }
    }
}

/// Notes that a client was heard of just now.
fn touch(connections: &mut Vec<LiveConnection>, id: &str, now_ms: i64)
    requires
        distinct(seqs::views(old(connections)@)),
    ensures
        seqs::views(final(connections)@) == seqs::views(old(connections)@).map_values(
            touched(id@, now_ms as int),
        ),
{
    let ghost known = connections@;
    let ghost model = seqs::views(known);
    let ghost f = touched(id@, now_ms as int);
    match position(connections, id) {
        Some(k) => {
            connections[k].last_message_ms = now_ms;
            assert forall|j: int| 0 <= j < known.len() implies seqs::views(connections@)[j]
                == model.map_values(f)[j] by {
                if j != k {
                    assert(model[j].connection_id != model[k as int].connection_id);
                }
            }
        },
        None => {},
    }
    assert(seqs::views(connections@) == model.map_values(f));
}

// ---------------------------------------------------------------------------
// What the engine wants
// ---------------------------------------------------------------------------

/// The messages addressed to a connection, in order.
pub open spec fn addressed(messages: Seq<MessageModel>, id: Seq<char>) -> Seq<JsonModel>
    decreases messages.len(),
{
    if messages.len() == 0 {
        seq![]
    } else {
        let before = addressed(messages.drop_last(), id);
        if messages.last().connection_id == id {
            before.push(messages.last().message)
        } else {
            before
        }
    }
}

/// A connection with the messages addressed to it queued behind what it has.
pub open spec fn queueing(messages: Seq<MessageModel>) -> spec_fn(
    ConnectionModel,
) -> ConnectionModel {
    |c: ConnectionModel|
        ConnectionModel { outbox: c.outbox + addressed(messages, c.connection_id), ..c }
}

/// Whether a connection has that id.
pub open spec fn named(id: Seq<char>) -> spec_fn(ConnectionModel) -> bool {
    |c: ConnectionModel| c.connection_id == id
}

/// Whether a connection's id is none of these.
pub open spec fn not_among(ids: Seq<Seq<char>>) -> spec_fn(ConnectionModel) -> bool {
    |c: ConnectionModel| !ids.contains(c.connection_id)
}

/// The connections to be closed, in the order they are named. One that is
/// named again, or is not there, is passed over.
pub open spec fn closed_in_turn(
    connections: Seq<ConnectionModel>,
    ids: Seq<Seq<char>>,
) -> Seq<ConnectionModel>
    decreases ids.len(),
{
    if ids.len() == 0 {
        seq![]
    } else {
        let before = closed_in_turn(connections, ids.drop_last());
        if ids.drop_last().contains(ids.last()) {
            before
        } else {
            before + connections.filter(named(ids.last()))
        }
    }
}

/// The ids of connections.
pub open spec fn id_of() -> spec_fn(ConnectionModel) -> Seq<char> {
    |c: ConnectionModel| c.connection_id
}

impl ServiceModel {
    /// The connections, with an output's messages queued.
    pub open spec fn queued(self, output: OutputModel) -> Seq<ConnectionModel> {
        self.connections.map_values(queueing(output.messages))
    }

    /// The connections that an output closes.
    pub open spec fn closing(self, output: OutputModel) -> Seq<ConnectionModel> {
        closed_in_turn(self.queued(output), output.close_connections)
    }

    /// What the service knows once it has done what the engine wants.
    pub open spec fn applied(self, output: OutputModel) -> ServiceModel {
        ServiceModel {
            connections: self.queued(output).filter(not_among(output.close_connections)),
            timers: timers::rescheduled(self.timers, output.cancel_timers, output.timers),
            closes: self.closes + self.closing(output).map_values(id_of()),
            ..self
        }
    }
}

/// Whether a text delivers queued messages: it is their array as JSON, and
/// reads back as that, as far as JSON does.
pub open spec fn delivers(text: Seq<char>, outbox: Seq<JsonModel>) -> bool {
    let array = JsonModel::Array(outbox);
    &&& text == json::rendered(array)
    &&& json::reads_back(array, json::DEPTH_LIMIT as nat) ==> json::parsed(text) == Some(array)
    &&& json::keeps_shape(array, json::DEPTH_LIMIT as nat) ==> (json::parsed(text) matches Some(
        read,
    ) ==> json::resembles(array, read, json::DEPTH_LIMIT as nat))
}

/// A connection that the engine has closed.
pub struct Farewell {
    pub connection_id: String,
    pub pipe_names: PipeNames,
    /// The messages still queued, to be delivered with the close.
    pub last_words: Option<String>,
}

impl Farewell {
    /// Whether this is the farewell to a connection.
    pub open spec fn bids(self, c: ConnectionModel) -> bool {
        &&& self.connection_id@ == c.connection_id
        &&& self.pipe_names.client_to_server@ == c.client_to_server
        &&& self.pipe_names.server_to_client@ == c.server_to_client
        &&& match self.last_words {
            None => c.outbox.len() == 0,
            Some(words) => c.outbox.len() > 0 && delivers(words@, c.outbox),
        }
    }
}

/// Queues messages for their connections; one for a connection that is not
/// there is dropped.
fn queue(connections: &mut Vec<LiveConnection>, messages: Vec<OutboundMessage>)
    requires
        distinct(seqs::views(old(connections)@)),
    ensures
        seqs::views(final(connections)@) == seqs::views(old(connections)@).map_values(
            queueing(seqs::views(messages@)),
        ),
{
    let ghost known = seqs::views(connections@);
    let ghost list = messages@;
    let ghost all = seqs::views(list);
    assert(all.take(0) == Seq::<MessageModel>::empty());
    assert forall|j: int| 0 <= j < known.len() implies known[j] == #[trigger] known.map_values(
        queueing(all.take(0)),
    )[j] by {
        assert(known[j].outbox + seq![] == known[j].outbox);
    }
    assert(known.map_values(queueing(all.take(0))) == known);
    for m in it: messages
        invariant
            it.seq() == list,
            all == seqs::views(list),
            distinct(known),
            seqs::views(connections@) == known.map_values(
                queueing(all.take(it.index() as int)),
            ),
    {
        let ghost i = it.index() as int;
        let ghost before = seqs::views(connections@);
        let ghost after = known.map_values(queueing(all.take(i + 1)));
        proof {
            assert(all.take(i + 1).drop_last() == all.take(i));
            assert(all.take(i + 1).last() == m@);
        }
        let ghost said = m@;
        match position(connections, m.connection_id.as_str()) {
            Some(k) => {
                let ghost outbox = connections@[k as int].outbox@;
                connections[k].outbox.push(m.message);
                proof {
                    assert(outbox.push(m.message).drop_last() == outbox);
                    assert(json::items_model(outbox.push(m.message)) == json::items_model(
                        outbox,
                    ).push(said.message));
                    assert(before[k as int].connection_id == known[k as int].connection_id);
                    assert(before[k as int].outbox == known[k as int].outbox + addressed(
                        all.take(i),
                        said.connection_id,
                    ));
                    assert(connections@[k as int]@.outbox == before[k as int].outbox.push(
                        said.message,
                    ));
                    assert forall|j: int| 0 <= j < known.len() implies seqs::views(
                        connections@,
                    )[j] == #[trigger] after[j] by {
                        if j == k {
                            assert(known[j].outbox + addressed(
                                all.take(i),
                                said.connection_id,
                            ).push(said.message) == (known[j].outbox + addressed(
                                all.take(i),
                                said.connection_id,
                            )).push(said.message));
                            assert(addressed(all.take(i + 1), said.connection_id) == addressed(
                                all.take(i),
                                said.connection_id,
                            ).push(said.message));
                            assert(connections@[k as int]@ == after[j]);
                        } else {
                            assert(known[j].connection_id != known[k as int].connection_id);
                            assert(connections@[j]@ == before[j]);
                            assert(before[j] == after[j]);
                        }
                    }
                }
            },
            None => {
                assert forall|j: int| 0 <= j < known.len() implies seqs::views(connections@)[j]
                    == #[trigger] after[j] by {
                    assert(before[j].connection_id == known[j].connection_id);
                }
            },
        }
        assert(seqs::views(connections@) == after);
    }
    assert(all.take(all.len() as int) == all);
}

/// Of connections with distinct ids, the one at `k` is the only one named so.
proof fn one_of_a_name(connections: Seq<ConnectionModel>, k: int)
    requires
        distinct(connections),
        0 <= k < connections.len(),
    ensures
        connections.filter(named(connections[k].connection_id)) == seq![connections[k]],
    decreases connections.len(),
{
    reveal(Seq::filter);
    let p = named(connections[k].connection_id);
    let rest = connections.drop_last();
    let n = connections.len() - 1;
    if k == n {
        assert forall|i: int| 0 <= i < rest.len() implies !p(#[trigger] rest[i]) by {
            assert(rest[i] == connections[i]);
            assert(connections[i].connection_id != connections[n].connection_id);
        }
        seqs::filter_drops_all(rest, p);
        assert(connections.filter(p) == Seq::<ConnectionModel>::empty().push(connections[k]));
    } else {
        assert forall|i: int, j: int| 0 <= i < j < rest.len() implies (
        #[trigger] rest[i]).connection_id != (#[trigger] rest[j]).connection_id by {
            assert(connections[i].connection_id != connections[j].connection_id);
        }
        assert(rest[k] == connections[k]);
        one_of_a_name(rest, k);
        assert(connections[k].connection_id != connections[n].connection_id);
    }
}

/// Taking one connection out of those that stay is the same as one id more
/// that does not stay.
proof fn removal_is_one_more(connections: Seq<ConnectionModel>, ids: Seq<Seq<char>>, k: int)
    requires
        distinct(connections),
        0 <= k < connections.filter(not_among(ids)).len(),
    ensures
        ({
            let kept = connections.filter(not_among(ids));
            kept.remove(k) == connections.filter(not_among(ids.push(kept[k].connection_id)))
        }),
    decreases connections.len(),
{
    reveal(Seq::filter);
    let kept = connections.filter(not_among(ids));
    let id = kept[k].connection_id;
    let more = ids.push(id);
    let rest = connections.drop_last();
    let last = connections.last();
    let n = connections.len() - 1;
    assert(more.contains(id)) by {
        assert(more[ids.len() as int] == id);
    }
    assert forall|x: Seq<char>| x != id implies #[trigger] more.contains(x) == ids.contains(x) by {
        if more.contains(x) {
            let j = choose|j: int| 0 <= j < more.len() && more[j] == x;
            assert(ids[j] == x);
        }
        if ids.contains(x) {
            let j = choose|j: int| 0 <= j < ids.len() && ids[j] == x;
            assert(more[j] == x);
        }
    }
    assert forall|i: int, j: int| 0 <= i < j < rest.len() implies (
    #[trigger] rest[i]).connection_id != (#[trigger] rest[j]).connection_id by {
        assert(connections[i].connection_id != connections[j].connection_id);
    }
    let earlier_kept = rest.filter(not_among(ids));
    if k < earlier_kept.len() {
        assert(kept[k] == earlier_kept[k]);
        removal_is_one_more(rest, ids, k);
        seqs::filter_members(rest, not_among(ids));
        let j = choose|j: int| 0 <= j < rest.len() && rest[j] == earlier_kept[k];
        assert(connections[j].connection_id != connections[n].connection_id);
        assert(last.connection_id != id);
        if !ids.contains(last.connection_id) {
            assert(earlier_kept.push(last).remove(k) == earlier_kept.remove(k).push(last));
        }
    } else {
        assert(kept == earlier_kept.push(last));
        assert(id == last.connection_id);
        assert forall|i: int| 0 <= i < rest.len() implies not_among(ids)(#[trigger] rest[i])
            == not_among(more)(rest[i]) by {
            assert(connections[i].connection_id != connections[n].connection_id);
        }
        seqs::filter_agrees(rest, not_among(ids), not_among(more));
        assert(kept.remove(k) == earlier_kept);
    }
}

/// An id that no connection among those that stay has makes no difference to
/// them.
proof fn absent_makes_no_difference(
    connections: Seq<ConnectionModel>,
    ids: Seq<Seq<char>>,
    id: Seq<char>,
)
    requires
        !served(connections.filter(not_among(ids)), id),
    ensures
        connections.filter(not_among(ids)) == connections.filter(not_among(ids.push(id))),
        !ids.contains(id) ==> connections.filter(named(id)) == Seq::<ConnectionModel>::empty(),
{
    let more = ids.push(id);
    let kept = connections.filter(not_among(ids));
    seqs::filter_members(connections, not_among(ids));
    assert forall|i: int| 0 <= i < connections.len() implies not_among(ids)(
        #[trigger] connections[i],
    ) == not_among(more)(connections[i]) by {
        let x = connections[i].connection_id;
        if ids.contains(x) {
            let j = choose|j: int| 0 <= j < ids.len() && ids[j] == x;
            assert(more[j] == x);
        } else {
            assert(not_among(ids)(connections[i]));
            assert(kept.contains(connections[i]));
            let k = choose|k: int| 0 <= k < kept.len() && kept[k] == connections[i];
            assert(kept[k].connection_id != id);
            if more.contains(x) {
                let j = choose|j: int| 0 <= j < more.len() && more[j] == x;
                assert(ids[j] == x);
            }
        }
    }
    seqs::filter_agrees(connections, not_among(ids), not_among(more));
    if !ids.contains(id) {
        assert forall|i: int| 0 <= i < connections.len() implies !named(id)(
            #[trigger] connections[i],
        ) by {
            if connections[i].connection_id == id {
                assert(not_among(ids)(connections[i]));
                assert(kept.contains(connections[i]));
                let k = choose|k: int| 0 <= k < kept.len() && kept[k] == connections[i];
                assert(kept[k].connection_id == id);
            }
        }
        seqs::filter_drops_all(connections, named(id));
    }
}

/// The array of queued messages, as text.
fn array_text(outbox: Vec<Json>) -> (r: String)
    ensures
        delivers(r@, json::items_model(outbox@)),
{
    Json::Array(outbox).render()
}

/// Closes connections; one that is not there is passed over.
fn close(connections: &mut Vec<LiveConnection>, ids: &[String]) -> (r: Vec<Farewell>)
    requires
        distinct(seqs::views(old(connections)@)),
    ensures
        ({
            let before = seqs::views(old(connections)@);
            let closed = closed_in_turn(before, text::texts(ids@));
            &&& seqs::views(final(connections)@) == before.filter(not_among(text::texts(ids@)))
            &&& r@.len() == closed.len()
            &&& forall|i: int| 0 <= i < closed.len() ==> (#[trigger] r@[i]).bids(closed[i])
        }),
{
    let ghost before = seqs::views(connections@);
    let ghost all = text::texts(ids@);
    let mut farewells: Vec<Farewell> = Vec::new();
    proof {
        assert(all.take(0) == Seq::<Seq<char>>::empty());
        assert forall|i: int| 0 <= i < before.len() implies not_among(all.take(0))(
            #[trigger] before[i],
        ) by {}
        seqs::filter_keeps_all(before, not_among(all.take(0)));
    }
    for i in 0..ids.len()
        invariant
            all == text::texts(ids@),
            distinct(before),
            seqs::views(connections@) == before.filter(not_among(all.take(i as int))),
            farewells@.len() == closed_in_turn(before, all.take(i as int)).len(),
            forall|j: int|
                0 <= j < farewells@.len() ==> (#[trigger] farewells@[j]).bids(
                    closed_in_turn(before, all.take(i as int))[j],
                ),
    {
        let ghost prior = all.take(i as int);
        let ghost next = all.take(i + 1);
        let ghost id = all[i as int];
        let ghost kept = seqs::views(connections@);
        proof {
            assert(next.drop_last() == prior);
            assert(next.last() == id);
            assert(next == prior.push(id));
            seqs::filter_members(before, not_among(prior));
        }
        match position(connections, ids[i].as_str()) {
            Some(k) => {
                proof {
                    assert(kept[k as int].connection_id == id);
                    assert(not_among(prior)(kept[k as int]));
                    removal_is_one_more(before, prior, k as int);
                    assert(before.contains(kept[k as int]));
                    let b = choose|b: int| 0 <= b < before.len() && before[b] == kept[k as int];
                    one_of_a_name(before, b);
                    assert(closed_in_turn(before, next) == closed_in_turn(before, prior).push(
                        kept[k as int],
                    ));
                }
                let c = connections.remove(k);
                assert(seqs::views(connections@) == kept.remove(k as int));
                assert(c@ == kept[k as int]);
                proof {
                    json::items_model_index(c.outbox@);
                }
                let last_words = if c.outbox.len() == 0 {
                    None
                } else {
                    Some(array_text(c.outbox))
                };
                farewells.push(
                    Farewell {
                        connection_id: c.connection_id,
                        pipe_names: c.pipe_names,
                        last_words,
                    },
                );
            },
            None => {
                proof {
                    absent_makes_no_difference(before, prior, id);
                    if !prior.contains(id) {
                        assert(closed_in_turn(before, prior) + seq![] == closed_in_turn(
                            before,
                            prior,
                        ));
                    }
                    assert(closed_in_turn(before, next) == closed_in_turn(before, prior));
                }
            },
        }
    }
    assert(all.take(all.len() as int) == all);
    farewells
}

impl Service {
    /// Does what the engine wants: queues its messages, closes connections,
    /// cancels timers and, after that, sets new ones. What is returned has its
    /// last words to be delivered, and pipes and profiles to be removed; the
    /// engine is told of these closes at its next call.
    pub fn apply(&mut self, output: EngineOutput) -> (r: Vec<Farewell>)
        requires
            old(self).wf(),
        ensures
            final(self).wf(),
            final(self)@ == old(self)@.applied(output@),
            r@.len() == old(self)@.closing(output@).len(),
            forall|i: int|
                0 <= i < r@.len() ==> (#[trigger] r@[i]).bids(old(self)@.closing(output@)[i]),
    {
        let ghost before = self@;
        let ghost wanted = output@;
        queue(&mut self.connections, output.messages);
        let ghost queued = seqs::views(self.connections@);
        proof {
            assert(queued == before.queued(wanted));
            assert forall|i: int, j: int| 0 <= i < j < queued.len() implies (
            #[trigger] queued[i]).connection_id != (#[trigger] queued[j]).connection_id by {
                assert(before.connections[i].connection_id != before.connections[j].connection_id);
            }
        }
        let farewells = close(&mut self.connections, &output.close_connections);
        let ghost closing = before.closing(wanted);
        let ghost earlier_closes = text::texts(self.closes@);
        for i in 0..farewells.len()
            invariant
                self@ == (ServiceModel {
                    connections: queued.filter(not_among(wanted.close_connections)),
                    closes: earlier_closes + closing.take(i as int).map_values(id_of()),
                    ..before
                }),
                farewells@.len() == closing.len(),
                forall|j: int|
                    0 <= j < farewells@.len() ==> (#[trigger] farewells@[j]).bids(closing[j]),
        {
            let ghost closes = self.closes@;
            let ghost known = self@;
            let id = farewells[i].connection_id.clone();
            self.closes.push(id);
            proof {
                assert(farewells@[i as int].bids(closing[i as int]));
                assert(text::texts(self.closes@) == text::texts(closes).push(id@));
                assert(closing.take(i + 1).map_values(id_of()) == closing.take(
                    i as int,
                ).map_values(id_of()).push(id@));
                assert(self@ =~= (ServiceModel {
                    closes: known.closes.push(id@),
                    ..known
                }));
            }
        }
        proof {
            assert(closing.take(closing.len() as int) == closing);
        }
        self.timers.reschedule(&output.cancel_timers, output.timers);
        proof {
            assert(self@ =~= before.applied(wanted));
            filtering_keeps_distinct(queued, not_among(wanted.close_connections));
        }
        farewells
    }
}

/// Tells the engine exactly what has happened; where nothing has, it is not
/// called.
pub fn consult<E: StadhouderStateEngine>(engine: &mut E, memory_pct: &Json, batch: &Batch) -> (r:
    Option<EngineOutput>)
    ensures
        r is None <==> batch@.uneventful(),
        r is None ==> *final(engine) == *old(engine),
        r matches Some(output) ==> E::answers(
            *old(engine),
            *final(engine),
            memory_pct@,
            batch@,
            output@,
        ),
{
    if batch.is_uneventful() {
        None
    } else {
        Some(
            engine.process_messages(
                batch.now_ms,
                memory_pct,
                &batch.new_connections,
                &batch.closed_connections,
                &batch.messages,
                &batch.expired_timers,
            ),
        )
    }
}

impl BatchModel {
    /// What the engine is to be told, with the timers that have expired.
    pub open spec fn with_expired(self, timers: Seq<TimerModel>) -> BatchModel {
        BatchModel {
            expired_timers: self.expired_timers + timers::fired(timers, self.now_ms),
            ..self
        }
    }
}

impl ServiceModel {
    /// What the service knows without the timers that have expired.
    pub open spec fn without_expired(self, now_ms: int) -> ServiceModel {
        ServiceModel { timers: self.timers.filter(timers::pending(now_ms)), ..self }
    }
}

impl ServiceModel {
    /// What the service knows once it has told the engine of a batch and has
    /// done what the engine wants.
    pub open spec fn consulted(self, batch: BatchModel, output: OutputModel) -> ServiceModel {
        ServiceModel {
            calls: self.calls.push(CallModel::Process { batch, output }),
            ..self.applied(output)
        }
    }
}

/// What came of calling the engine.
pub struct Consultation {
    /// The connections that the engine has closed.
    pub farewells: Vec<Farewell>,
    /// Whether the engine ordered the end of the run.
    pub shutdown: bool,
}

impl Service {
    /// The engine's part of a turn: takes out the timers that have expired,
    /// tells the engine what has happened, if anything has, and does what it
    /// wants, as [`Service::apply`] does.
    pub fn run_engine<E: StadhouderStateEngine>(
        &mut self,
        engine: &mut E,
        memory_pct: &Json,
        batch: Batch,
    ) -> (r: Consultation)
        requires
            old(self).wf(),
        ensures
            final(self).wf(),
            ({
                let told = batch@.with_expired(old(self)@.timers);
                let left = old(self)@.without_expired(batch@.now_ms);
                if told.uneventful() {
                    &&& *final(engine) == *old(engine)
                    &&& final(self)@ == left
                    &&& r.farewells@.len() == 0
                    &&& !r.shutdown
                } else {
                    exists|output: OutputModel| #[trigger]
                        E::answers(*old(engine), *final(engine), memory_pct@, told, output) && {
                            &&& final(self)@ == left.consulted(told, output)
                            &&& r.shutdown == output.shutdown
                            &&& r.farewells@.len() == left.closing(output).len()
                            &&& forall|i: int|
                                0 <= i < r.farewells@.len() ==> (#[trigger] r.farewells@[i]).bids(
                                    left.closing(output)[i],
                                )
                        }
                }
            }),
    {
        let mut batch = batch;
        self.expire_timers(&mut batch);
        match consult(engine, memory_pct, &batch) {
            None => Consultation { farewells: Vec::new(), shutdown: false },
            Some(output) => {
                let ghost wanted = output@;
                let shutdown = output.shutdown;
                let ghost left = self@;
                let farewells = self.apply(output);
                self.calls = Ghost(
                    self.calls@.push(CallModel::Process { batch: batch@, output: wanted }),
                );
                assert(self@ =~= left.consulted(batch@, wanted));
                assert(E::answers(*old(engine), *engine, memory_pct@, batch@, wanted));
                Consultation { farewells, shutdown }
            },
        }
    }
}

// ---------------------------------------------------------------------------
// Polls
// ---------------------------------------------------------------------------

/// A connection whose waiting client has been given what was queued for it.
pub open spec fn answered(id: Seq<char>, now_ms: int) -> spec_fn(
    ConnectionModel,
) -> ConnectionModel {
    |c: ConnectionModel|
        if c.connection_id == id {
            ConnectionModel { outbox: seq![], last_message_ms: now_ms, ..c }
        } else {
            c
        }
}

impl Service {
    /// The answer to a client that waits on a connection: everything queued
    /// for it, as one JSON array. It is then queued no longer, and the client
    /// counts as heard of. A connection that is not served has no answer.
    pub fn serve_poll(&mut self, connection_id: &str, now_ms: i64) -> (r: Option<String>)
        requires
            old(self).wf(),
        ensures
            final(self).wf(),
            r is Some <==> served(old(self)@.connections, connection_id@),
            r matches Some(answer) ==> forall|i: int|
                0 <= i < old(self)@.connections.len() && (
                #[trigger] old(self)@.connections[i]).connection_id == connection_id@
                    ==> delivers(answer@, old(self)@.connections[i].outbox),
            final(self)@ == (ServiceModel {
                connections: old(self)@.connections.map_values(
                    answered(connection_id@, now_ms as int),
                ),
                ..old(self)@
            }),
    {
        let ghost before = self@;
        let ghost f = answered(connection_id@, now_ms as int);
        match position(&self.connections, connection_id) {
            Some(k) => {
                let mut outbox: Vec<Json> = Vec::new();
                let ghost known = self.connections@;
                std::mem::swap(&mut outbox, &mut self.connections[k].outbox);
                self.connections[k].last_message_ms = now_ms;
                let ghost sent = outbox@;
                let answer = array_text(outbox);
                proof {
                    let after = seqs::views(self.connections@);
                    assert(before.connections[k as int].outbox == json::items_model(sent));
                    assert forall|j: int| 0 <= j < known.len() implies after[j]
                        == #[trigger] before.connections.map_values(f)[j] by {
                        if j != k {
                            assert(before.connections[j].connection_id
                                != before.connections[k as int].connection_id);
                            assert(self.connections@[j] == known[j]);
                        } else {
                            assert(self.connections@[j]@ =~= f(before.connections[j]));
                        }
                    }
                    assert(after == before.connections.map_values(f));
                    assert(self@ =~= (ServiceModel {
                        connections: before.connections.map_values(f),
                        ..before
                    }));
                    assert forall|i: int|
                        0 <= i < before.connections.len() && (
                        #[trigger] before.connections[i]).connection_id
                            == connection_id@ implies delivers(
                        answer@,
                        before.connections[i].outbox,
                    ) by {
                        if i != k {
                            assert(before.connections[i].connection_id
                                != before.connections[k as int].connection_id);
                        }
                    }
                    assert forall|i: int, j: int| 0 <= i < j < after.len() implies (
                    #[trigger] after[i]).connection_id != (#[trigger] after[j]).connection_id by {
                        assert(before.connections[i].connection_id
                            != before.connections[j].connection_id);
                    }
                }
                Some(answer)
            },
            None => {
                assert forall|j: int| 0 <= j < before.connections.len() implies
                    before.connections[j] == #[trigger] before.connections.map_values(f)[j] by {
                    assert(before.connections[j].connection_id != connection_id@);
                }
                assert(before.connections == before.connections.map_values(f));
                None
            },
        }
    }

    /// The ids of the connections that are served, in the order they came.
    pub fn connection_ids(&self) -> (r: Vec<String>)
        ensures
            text::texts(r@) == self@.connections.map_values(id_of()),
    {
        let mut ids: Vec<String> = Vec::new();
        let ghost all = self@.connections.map_values(id_of());
        for i in 0..self.connections.len()
            invariant
                all == self@.connections.map_values(id_of()),
                text::texts(ids@) == all.take(i as int),
        {
            let id = self.connections[i].connection_id.clone();
            proof {
                assert(text::texts(ids@.push(id)) == text::texts(ids@).push(id@));
                assert(all[i as int] == id@);
                assert(all.take(i + 1) == all.take(i as int).push(all[i as int]));
            }
            ids.push(id);
        }
        assert(all.take(all.len() as int) == all);
        ids
    }
}

// ---------------------------------------------------------------------------
// The end of a turn
// ---------------------------------------------------------------------------

/// How a turn ends.
pub enum Ending {
    /// The service runs on: pause, and begin the next turn.
    Running(Service),
    /// The engine ordered the end. Every connection that is left has its pipes
    /// and profile to be removed; then the flag is.
    Ordered {
        departures: Vec<Departure>,
        /// The calls of the engine in the whole run.
        calls: Ghost<Seq<CallModel>>,
    },
    /// No connections are left. The engine was told; the flag is to be removed.
    Deserted {
        /// The calls of the engine in the whole run.
        calls: Ghost<Seq<CallModel>>,
    },
}

impl ServiceModel {
    /// Whether an instance may end for want of connections.
    pub open spec fn deserted(self, now_ms: int) -> bool {
        self.connections.len() == 0 && now_ms - self.started_ms >= IDLE_EXIT_MS
    }
}

impl Service {
    /// Ends a turn. `shutdown` says that the engine ordered the end. Where the
    /// service ends for want of connections instead, that calls the engine's
    /// `shutdown`.
    pub fn finish<E: StadhouderStateEngine>(
        self,
        engine: &mut E,
        now_ms: i64,
        shutdown: bool,
    ) -> (r: Ending)
        requires
            self.wf(),
        ensures
            match r {
                Ending::Running(service) => {
                    &&& !shutdown && !self@.deserted(now_ms as int)
                    &&& service == self
                    &&& *final(engine) == *old(engine)
                },
                Ending::Ordered { departures, calls } => {
                    &&& shutdown
                    &&& seqs::views(departures@) == self@.connections.map_values(departing())
                    &&& calls@ == self@.calls
                    &&& *final(engine) == *old(engine)
                },
                Ending::Deserted { calls } => {
                    &&& !shutdown && self@.deserted(now_ms as int)
                    &&& calls@ == self@.calls.push(CallModel::Shutdown(now_ms as int))
                    &&& exists|told: &mut E|
                        *told == *old(engine) && *final(told) == *final(engine)
                            && #[trigger] call_ensures(E::shutdown, (told, now_ms), ())
                },
            },
    {
        if shutdown {
            let calls = self.calls;
            Ending::Ordered { departures: depart(self.connections), calls }
        } else if self.connections.len() == 0 && now_ms as i128 - self.started_ms as i128
            >= IDLE_EXIT_MS as i128 {
            tell(E::shutdown, engine, now_ms);
            Ending::Deserted {
                calls: Ghost(self.calls@.push(CallModel::Shutdown(now_ms as int))),
            }
        } else {
            Ending::Running(self)
        }
    }
}

// ---------------------------------------------------------------------------
// What holds of the service
// ---------------------------------------------------------------------------

/// A heartbeat never reaches the engine, nor does anything that is not JSON.
pub proof fn heartbeats_never_reach_the_engine(frames: Seq<Seq<char>>)
    ensures
        forall|i: int|
            0 <= i < for_the_engine(frames).len() ==> !heartbeat::beats(
                #[trigger] for_the_engine(frames)[i],
            ) && exists|j: int|
                0 <= j < frames.len() && json::parsed(#[trigger] frames[j]) == Some(
                    for_the_engine(frames)[i],
                ),
    decreases frames.len(),
{
    if frames.len() > 0 {
        let rest = frames.drop_last();
        heartbeats_never_reach_the_engine(rest);
        assert forall|i: int| 0 <= i < for_the_engine(frames).len() implies !heartbeat::beats(
            #[trigger] for_the_engine(frames)[i],
        ) && exists|j: int|
            0 <= j < frames.len() && json::parsed(#[trigger] frames[j]) == Some(
                for_the_engine(frames)[i],
            ) by {
            let before = for_the_engine(rest);
            if i < before.len() {
                assert(for_the_engine(frames)[i] == before[i]);
                let j = choose|j: int|
                    0 <= j < rest.len() && json::parsed(#[trigger] rest[j]) == Some(before[i]);
                assert(frames[j] == rest[j]);
            } else {
                assert(json::parsed(frames[frames.len() - 1]) == Some(for_the_engine(frames)[i]));
            }
        }
    }
}

/// Every other message does reach the engine.
pub proof fn messages_reach_the_engine(frame: Seq<char>, message: JsonModel)
    requires
        json::parsed(frame) == Some(message),
        !heartbeat::beats(message),
    ensures
        for_the_engine(seq![frame]) == seq![message],
{
    assert(seq![frame].drop_last() == Seq::<Seq<char>>::empty());
    assert(for_the_engine(Seq::<Seq<char>>::empty()) == Seq::<JsonModel>::empty());
    assert(Seq::<JsonModel>::empty().push(message) == seq![message]);
}

/// Messages keep their order: what two runs of frames bring is what each
/// brings, one after the other.
pub proof fn messages_keep_their_order(first: Seq<Seq<char>>, second: Seq<Seq<char>>)
    ensures
        for_the_engine(first + second) == for_the_engine(first) + for_the_engine(second),
    decreases second.len(),
{
    if second.len() == 0 {
        assert(first + second == first);
    } else {
        messages_keep_their_order(first, second.drop_last());
        assert((first + second).drop_last() == first + second.drop_last());
        assert((first + second).last() == second.last());
    }
}

/// What a client sends is what the engine is told: a message whose text fits in
/// a frame and reads back comes out of the pipe whole, whatever was sent before
/// it, and goes to the engine.
pub proof fn sent_message_reaches_the_engine(
    earlier: Seq<Seq<char>>,
    sent: Seq<char>,
    message: JsonModel,
)
    requires
        forall|i: int| 0 <= i < earlier.len() ==> pipes::fits(#[trigger] earlier[i]),
        pipes::fits(sent),
        json::parsed(sent) == Some(message),
        !heartbeat::beats(message),
    ensures
        ({
            let out = pipes::extraction(pipes::frames(earlier) + pipes::frame(sent));
            &&& out.error is None
            &&& out.rest.len() == 0
            &&& for_the_engine(out.messages) == for_the_engine(earlier).push(message)
        }),
{
    let all = earlier.push(sent);
    assert forall|i: int| 0 <= i < all.len() implies pipes::fits(#[trigger] all[i]) by {
        if i < earlier.len() {
            assert(all[i] == earlier[i]);
        }
    }
    pipes::frames_come_out_in_order(all, Seq::<u8>::empty());
    pipes::one_frame_more(earlier, sent);
    assert(pipes::frames(all) + Seq::<u8>::empty() == pipes::frames(all));
    assert(all.drop_last() == earlier);
}

/// A client's heartbeat, as it is sent, is heard and goes no further.
pub proof fn sent_heartbeat_goes_no_further(sent: Seq<char>)
    requires
        json::parsed(sent) == Some(heartbeat::heartbeat()),
    ensures
        for_the_engine(seq![sent]).len() == 0,
{
    heartbeat::heartbeat_reads_back();
    assert(seq![sent].drop_last() == Seq::<Seq<char>>::empty());
    assert(for_the_engine(Seq::<Seq<char>>::empty()) == Seq::<JsonModel>::empty());
}

/// An instance that starts within two minutes of a flag that it reads defers,
/// and one that starts later, or reads none, does not.
pub proof fn written_flag_is_deferred_to(
    path: Seq<char>,
    flag: FlagModel,
    file: StateFile,
    started_ms: int,
)
    requires
        flag.memory_pct.is_number(),
        file is Contents,
        json::parsed(file->Contents_0@) == Some(state::flag_record(flag)),
    ensures
        state::flag_in_file(path, file) is Ok,
        fresh(started_ms, state::flag_in_file(path, file)->Ok_0) <==> flag.updated_ms <= started_ms
            < flag.updated_ms + FLAG_STALE_MS,
        !fresh(started_ms, None),
{
    state::flag_reads_back(path, flag, file);
}

/// Any frame at all, and any poll that is answered, keeps a connection from
/// being disconnected for silence in the same turn.
pub proof fn communication_keeps_a_connection(
    service: ServiceModel,
    id: Seq<char>,
    frames: Seq<Seq<char>>,
    now_ms: int,
    i: int,
)
    requires
        0 <= i < service.connections.len(),
        service.connections[i].connection_id == id,
    ensures
        frames.len() > 0 ==> heard(now_ms)(service.received(id, frames, now_ms).connections[i]),
        heard(now_ms)(service.connections.map_values(answered(id, now_ms))[i]),
{
    assert(served(service.connections, id));
}

/// Nothing the service goes by lies ahead of the present once a turn has
/// begun: not its start, not its flag, not when it heard of a client; and the
/// next scan is at most one interval away.
pub proof fn nothing_lies_ahead(service: ServiceModel, now_ms: int)
    ensures
        service.begun(now_ms).started_ms <= now_ms,
        service.begun(now_ms).flag_updated_ms <= now_ms,
        service.begun(now_ms).next_scan_ms <= now_ms + SCAN_INTERVAL_MS,
        forall|i: int|
            0 <= i < service.begun(now_ms).connections.len() ==> (#[trigger] service.begun(
                now_ms,
            ).connections[i]).last_message_ms <= now_ms,
{
}

/// As long as an instance's turns are less than 100 seconds apart, any other
/// instance that starts finds its flag fresh, and defers.
pub proof fn live_instance_is_deferred_to(
    service: ServiceModel,
    now_ms: int,
    memory_pct: JsonModel,
    started_ms: int,
)
    requires
        now_ms <= started_ms,
        started_ms - now_ms <= FLAG_STALE_MS - FLAG_UPDATE_INTERVAL_MS,
    ensures
        fresh(
            started_ms,
            Some(FlagModel { updated_ms: service.begun(now_ms).flag_updated_ms, memory_pct }),
        ),
{
}

/// A close that the engine orders is reported to it at its next call, in the
/// order it was ordered, for that reason, before anything else, and not again
/// after that.
pub proof fn ordered_close_is_reported_once(
    service: ServiceModel,
    output: OutputModel,
    now_ms: int,
    later_ms: int,
)
    requires
        service.closes.len() == 0,
    ensures
        service.applied(output).first_news(now_ms).closed_connections == service.closing(
            output,
        ).map_values(closed_as(CloseReason::EngineRequested)),
        service.applied(output).begun(now_ms).first_news(later_ms).closed_connections.len() == 0,
{
    let closing = service.closing(output);
    assert(service.applied(output).closes == closing.map_values(id_of()));
    assert(closing.map_values(id_of()).map_values(ordered_close()) == closing.map_values(
        closed_as(CloseReason::EngineRequested),
    ));
}

/// What the engine closes is what it named and is served; it is served no
/// longer, and no close is ordered twice.
pub proof fn closed_connections_are_gone(service: ServiceModel, output: OutputModel)
    requires
        distinct(service.connections),
    ensures
        forall|id: Seq<char>| #[trigger]
            output.close_connections.contains(id) ==> !served(
                service.applied(output).connections,
                id,
            ),
        forall|id: Seq<char>|
            !output.close_connections.contains(id) ==> served(
                service.applied(output).connections,
                id,
            ) == #[trigger] served(service.connections, id),
        forall|id: Seq<char>| #[trigger]
            served(service.closing(output), id) <==> served(service.connections, id)
                && output.close_connections.contains(id),
        distinct(service.closing(output)),
{
    let queued = service.queued(output);
    let ids = output.close_connections;
    let kept = queued.filter(not_among(ids));
    seqs::filter_members(queued, not_among(ids));
    assert forall|i: int, j: int| 0 <= i < j < queued.len() implies (
    #[trigger] queued[i]).connection_id != (#[trigger] queued[j]).connection_id by {
        assert(service.connections[i].connection_id != service.connections[j].connection_id);
    }
    assert forall|id: Seq<char>| served(queued, id) == #[trigger] served(
        service.connections,
        id,
    ) by {
        if served(queued, id) {
            let i = choose|i: int|
                0 <= i < queued.len() && (#[trigger] queued[i]).connection_id == id;
            assert(service.connections[i].connection_id == id);
        }
        if served(service.connections, id) {
            let i = choose|i: int|
                0 <= i < service.connections.len() && (
                #[trigger] service.connections[i]).connection_id == id;
            assert(queued[i].connection_id == id);
        }
    }
    assert forall|id: Seq<char>| #[trigger] ids.contains(id) implies !served(kept, id) by {
        if served(kept, id) {
            let k = choose|k: int| 0 <= k < kept.len() && (#[trigger] kept[k]).connection_id == id;
            assert(not_among(ids)(kept[k]));
        }
    }
    assert forall|id: Seq<char>| !ids.contains(id) implies served(kept, id) == #[trigger] served(
        service.connections,
        id,
    ) by {
        if served(kept, id) {
            let k = choose|k: int| 0 <= k < kept.len() && (#[trigger] kept[k]).connection_id == id;
            assert(queued.contains(kept[k]));
            let i = choose|i: int| 0 <= i < queued.len() && queued[i] == kept[k];
            assert(queued[i].connection_id == id);
        }
        if served(queued, id) {
            let i = choose|i: int|
                0 <= i < queued.len() && (#[trigger] queued[i]).connection_id == id;
            assert(not_among(ids)(queued[i]));
            assert(kept.contains(queued[i]));
            let k = choose|k: int| 0 <= k < kept.len() && kept[k] == queued[i];
            assert(kept[k].connection_id == id);
        }
    }
    closing_names_each_once(queued, ids);
}

/// The connections closed in turn are those named and served, each once.
proof fn closing_names_each_once(connections: Seq<ConnectionModel>, ids: Seq<Seq<char>>)
    requires
        distinct(connections),
    ensures
        forall|id: Seq<char>| #[trigger]
            served(closed_in_turn(connections, ids), id) <==> served(connections, id)
                && ids.contains(id),
        distinct(closed_in_turn(connections, ids)),
    decreases ids.len(),
{
    let closed = closed_in_turn(connections, ids);
    if ids.len() > 0 {
        let rest = ids.drop_last();
        let last = ids.last();
        let before = closed_in_turn(connections, rest);
        closing_names_each_once(connections, rest);
        assert forall|id: Seq<char>| ids.contains(id) == (rest.contains(id) || id == last) by {
            if ids.contains(id) {
                let j = choose|j: int| 0 <= j < ids.len() && ids[j] == id;
                if j < rest.len() {
                    assert(rest[j] == id);
                }
            }
            if rest.contains(id) {
                let j = choose|j: int| 0 <= j < rest.len() && rest[j] == id;
                assert(ids[j] == id);
            }
            if id == last {
                assert(ids[ids.len() - 1] == id);
            }
        }
        if !rest.contains(last) {
            let found = connections.filter(named(last));
            seqs::filter_members(connections, named(last));
            if served(connections, last) {
                let k = choose|k: int|
                    0 <= k < connections.len() && (#[trigger] connections[k]).connection_id == last;
                one_of_a_name(connections, k);
                assert(found == seq![connections[k]]);
                assert(closed == before.push(connections[k]));
                assert(closed[before.len() as int].connection_id == last);
            } else {
                assert forall|i: int| 0 <= i < connections.len() implies !named(last)(
                    #[trigger] connections[i],
                ) by {
                    assert(connections[i].connection_id != last);
                }
                seqs::filter_drops_all(connections, named(last));
                assert(closed == before);
            }
            assert(!served(before, last));
            assert forall|i: int, j: int| 0 <= i < j < closed.len() implies (
            #[trigger] closed[i]).connection_id != (#[trigger] closed[j]).connection_id by {
                if j == before.len() {
                    assert(closed[i] == before[i]);
                    assert(before[i].connection_id != last);
                }
            }
            assert forall|id: Seq<char>| #[trigger] served(closed, id) <==> served(
                connections,
                id,
            ) && ids.contains(id) by {
                if served(closed, id) {
                    let k = choose|k: int|
                        0 <= k < closed.len() && (#[trigger] closed[k]).connection_id == id;
                    if k < before.len() {
                        assert(before[k].connection_id == id);
                        assert(served(before, id));
                    }
                }
                if served(connections, id) && ids.contains(id) && id != last {
                    assert(served(before, id));
                    let k = choose|k: int|
                        0 <= k < before.len() && (#[trigger] before[k]).connection_id == id;
                    assert(closed[k].connection_id == id);
                }
            }
        }
    }
}

/// Messages wait for their connection in the order the engine gave them,
/// behind what was waiting before; those for a connection closed in the same
/// breath go with the close; and what a poll has delivered waits no longer.
pub proof fn messages_wait_in_order(
    service: ServiceModel,
    output: OutputModel,
    now_ms: int,
    i: int,
)
    requires
        0 <= i < service.connections.len(),
    ensures
        ({
            let c = service.connections[i];
            let waiting = c.outbox + addressed(output.messages, c.connection_id);
            let queued = ConnectionModel { outbox: waiting, ..c };
            &&& !output.close_connections.contains(c.connection_id) ==> service.applied(
                output,
            ).connections.contains(queued)
            &&& output.close_connections.contains(c.connection_id) ==> service.closing(
                output,
            ).contains(queued)
            &&& service.connections.map_values(
                answered(c.connection_id, now_ms),
            )[i].outbox.len() == 0
        }),
{
    let c = service.connections[i];
    let queued = service.queued(output);
    let ids = output.close_connections;
    seqs::filter_members(queued, not_among(ids));
    let q = queued[i];
    assert(q == ConnectionModel {
        outbox: c.outbox + addressed(output.messages, c.connection_id),
        ..c
    });
    if !ids.contains(c.connection_id) {
        assert(not_among(ids)(queued[i]));
    } else {
        closing_has_everything(queued, ids, i);
    }
}

/// A connection that is named is among those closed.
proof fn closing_has_everything(connections: Seq<ConnectionModel>, ids: Seq<Seq<char>>, i: int)
    requires
        0 <= i < connections.len(),
        ids.contains(connections[i].connection_id),
    ensures
        closed_in_turn(connections, ids).contains(connections[i]),
    decreases ids.len(),
{
    let rest = ids.drop_last();
    let closed = closed_in_turn(connections, ids);
    let before = closed_in_turn(connections, rest);
    let id = connections[i].connection_id;
    let j = choose|j: int| 0 <= j < ids.len() && ids[j] == id;
    if j < rest.len() {
        assert(rest[j] == id);
    }
    if rest.contains(id) {
        closing_has_everything(connections, rest, i);
        let k = choose|k: int| 0 <= k < before.len() && before[k] == connections[i];
        assert(closed[k] == connections[i]);
    } else {
        assert(ids.last() == id);
        let found = connections.filter(named(id));
        seqs::filter_members(connections, named(id));
        assert(named(id)(connections[i]));
        let k = choose|k: int| 0 <= k < found.len() && found[k] == connections[i];
        assert(closed[before.len() + k] == connections[i]);
    }
}

/// After a sweep exactly the connections with a profile are served; after
/// silent clients were disconnected, exactly those heard of lately. Nothing
/// that goes stays, and nothing else goes.
pub proof fn only_those_that_should_go_do(
    service: ServiceModel,
    disk: Map<Seq<char>, Seq<char>>,
    now_ms: int,
    c: ConnectionModel,
)
    ensures
        service.only(present(disk)).connections.contains(c) <==> service.connections.contains(c)
            && disk.contains_key(c.connection_id),
        service.connections.filter(vanished(disk)).contains(c) <==> service.connections.contains(c)
            && !disk.contains_key(c.connection_id),
        service.only(heard(now_ms)).connections.contains(c) <==> service.connections.contains(c)
            && now_ms - c.last_message_ms < CLIENT_INACTIVITY_MS,
        service.connections.filter(silent(now_ms)).contains(c) <==> service.connections.contains(c)
            && now_ms - c.last_message_ms >= CLIENT_INACTIVITY_MS,
{
    filter_contains(service.connections, present(disk), c);
    filter_contains(service.connections, vanished(disk), c);
    filter_contains(service.connections, heard(now_ms), c);
    filter_contains(service.connections, silent(now_ms), c);
}

/// What a filter lets through.
proof fn filter_contains(
    s: Seq<ConnectionModel>,
    p: spec_fn(ConnectionModel) -> bool,
    c: ConnectionModel,
)
    ensures
        s.filter(p).contains(c) <==> s.contains(c) && p(c),
{
    seqs::filter_members(s, p);
    let f = s.filter(p);
    if f.contains(c) {
        let i = choose|i: int| 0 <= i < f.len() && f[i] == c;
        assert(p(f[i]) && s.contains(f[i]));
    }
    if s.contains(c) && p(c) {
        let i = choose|i: int| 0 <= i < s.len() && s[i] == c;
        assert(f.contains(s[i]));
    }
}

} // verus!
