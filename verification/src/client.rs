//! The client program: what it decides and answers for each kind of request.
//! Files, pipes, the clock and the identity endpoint are the program's part.
use crate::config::Config;
use crate::cookie;
use crate::cookie::has_cookie;
use crate::handler::JsonSuccess;
use crate::identity;
use crate::identity::{verify_user, Fetched};
use crate::json;
use crate::json::{Json, JsonModel};
use crate::layout;
use crate::layout::Platform;
use crate::pipes;
use crate::pipes::{pipe_names_for, utf8_text};
use crate::request;
use crate::request::{same_host_url, ServerEnv};
use crate::runtime;
use crate::state;
use crate::state::{ConnectionProfile, FlagModel, ServiceFlag};
use crate::text;
use crate::text::{cat, cat3};
use vstd::prelude::*;

verus! {

/// A request.
pub enum ClientRequest {
    /// Is everything well?
    Status,
    /// Open a connection.
    Connect { user_id: String },
    /// Send a message down a connection.
    Send { connection_id: String, message: Json },
    /// Wait for messages on a connection, for at most so long (engine time).
    Poll { connection_id: String, wait_ms: i64 },
    /// Close a connection.
    Close { connection_id: String },
}

/// The text of a request's body, which must be UTF-8.
pub fn body_text(body: Vec<u8>) -> (r: Result<String, String>)
    ensures
        match r {
            Ok(s) => vstd::utf8::valid_utf8(body@) && s@ == vstd::utf8::decode_utf8(body@),
            Err(e) => !vstd::utf8::valid_utf8(body@) && e@ == "request must be UTF-8"@,
        },
{
    match utf8_text(body) {
        Some(s) => {
            proof {
                vstd::utf8::encode_utf8_decode_utf8(s@);
            }
            Ok(s)
        },
        None => Err("request must be UTF-8".to_owned()),
    }
}

/// What is said of a body that is no request; `e` says what is wrong with it.
pub fn bad_request(e: &str) -> (r: String)
    ensures
        r@ == "bad request: "@ + e@,
{
    cat("bad request: ", e)
}

/// A reply with one field.
fn reply(key: &str, value: Json) -> (r: JsonSuccess<Json>)
    ensures
        r.spec_data()@ == JsonModel::empty().with(key@, value@),
        r.spec_cookie() is None,
{
    JsonSuccess::new(Json::empty().with(key, value))
}

// ---------------------------------------------------------------------------
// Status
// ---------------------------------------------------------------------------

/// An optional integer as JSON.
pub open spec fn int_or_null(i: Option<i64>) -> JsonModel {
    match i {
        Some(i) => JsonModel::Int(i as int),
        None => JsonModel::Null,
    }
}

/// The memory use that status tells: none where there is no limit, or no
/// instance has said anything.
pub open spec fn told_memory(limited: bool, flag: Option<FlagModel>) -> JsonModel {
    match flag {
        Some(flag) if limited => flag.memory_pct,
        _ => JsonModel::Null,
    }
}

/// The reply to a status request.
pub fn status(
    config: &Config,
    version: &str,
    time_ms: i64,
    last_run_ms: Option<i64>,
    flag: &Option<ServiceFlag>,
) -> (r: JsonSuccess<Json>)
    ensures
        r.spec_cookie() is None,
        r.spec_data()@ == JsonModel::empty().with(
            "service"@,
            JsonModel::Text("stadhouder"@),
        ).with("version"@, JsonModel::Text(version@)).with(
            "test_env"@,
            JsonModel::Bool(config.test_env),
        ).with("time_ms"@, JsonModel::Int(time_ms as int)).with(
            "service_last_run_ms"@,
            int_or_null(last_run_ms),
        ).with(
            "service_memory_pct"@,
            told_memory(config.memory_limit_bytes is Some, state::flag_model(*flag)),
        ),
{
    let last_run = match last_run_ms {
        Some(i) => Json::Int(i),
        None => Json::Null,
    };
    let memory = match flag {
        Some(flag) if config.memory_limit_bytes.is_some() => flag.memory_pct.copy(),
        _ => Json::Null,
    };
    JsonSuccess::new(
        Json::empty().with("service", Json::Text("stadhouder".to_owned())).with(
            "version",
            Json::Text(version.to_owned()),
        ).with("test_env", Json::Bool(config.test_env)).with("time_ms", Json::Int(time_ms)).with(
            "service_last_run_ms",
            last_run,
        ).with("service_memory_pct", memory),
    )
}

// ---------------------------------------------------------------------------
// Connect
// ---------------------------------------------------------------------------

/// How it is settled who a new connection is for.
pub enum Identity {
    /// The caller's word is taken.
    Claimed,
    /// The endpoint at `url` is asked, and the id read at `field_path`.
    Asked { url: String, field_path: String },
}

/// Whether new connections are refused for want of memory: there is a limit,
/// an instance has said how much it uses, and that is at or over what is
/// tolerated, which `over` says.
pub open spec fn memory_refuses(config: Config, flag: Option<FlagModel>, over: bool) -> bool {
    config.memory_limit_bytes is Some && flag is Some && over
}

/// Whether a caller lacks the cookie that is required.
pub open spec fn cookie_refuses(config: Config, cookie_header: Option<Seq<char>>) -> bool {
    match config.cookie_name {
        Some(name) => !cookie::present(cookie_header, name@),
        None => false,
    }
}

/// What stands in the way of a new connection before anybody is asked who is
/// calling, in the order it is looked at; and if nothing does, whom to ask.
pub open spec fn admission(
    config: Config,
    flag: Option<FlagModel>,
    over: bool,
    cookie_header: Option<Seq<char>>,
    env: ServerEnv,
) -> Result<Option<(Seq<char>, Seq<char>)>, Seq<char>> {
    if memory_refuses(config, flag, over) {
        Err("service memory limit exceeded"@)
    } else if cookie_refuses(config, cookie_header) {
        Err("missing required cookie"@)
    } else {
        match (config.user_id_url, config.user_id_json) {
            (None, _) => Ok(None),
            (Some(_), None) => Err("USER_ID_URL is configured but USER_ID_JSON is not"@),
            (Some(path), Some(field_path)) => match request::same_host(env, path@) {
                Ok(url) => Ok(Some((url, field_path@))),
                Err(e) => Err(e),
            },
        }
    }
}

/// Whether a new connection may be opened, and whom to ask who is calling.
/// `over` says whether the flag's memory percentage is at or over the one at
/// which connections are refused.
pub fn admission_step(
    config: &Config,
    flag: &Option<ServiceFlag>,
    over: bool,
    cookie_header: Option<&str>,
    env: &ServerEnv,
) -> (r: Result<Identity, String>)
    ensures
        ({
            let decided = admission(
                *config,
                state::flag_model(*flag),
                over,
                text::opt_text(cookie_header),
                *env,
            );
            match r {
                Ok(Identity::Claimed) => decided == Ok::<
                    Option<(Seq<char>, Seq<char>)>,
                    Seq<char>,
                >(None),
                Ok(Identity::Asked { url, field_path }) => decided == Ok::<
                    Option<(Seq<char>, Seq<char>)>,
                    Seq<char>,
                >(Some((url@, field_path@))),
                Err(e) => decided == Err::<Option<(Seq<char>, Seq<char>)>, Seq<char>>(e@),
            }
        }),
{
    if config.memory_limit_bytes.is_some() && flag.is_some() && over {
        return Err("service memory limit exceeded".to_owned());
    }
    match &config.cookie_name {
        Some(name) => {
            if !has_cookie(cookie_header, name.as_str()) {
                return Err("missing required cookie".to_owned());
            }
        },
        None => {},
    }
    match &config.user_id_url {
        None => Ok(Identity::Claimed),
        Some(path) => match &config.user_id_json {
            None => Err("USER_ID_URL is configured but USER_ID_JSON is not".to_owned()),
            Some(field_path) => match same_host_url(env, path.as_str()) {
                Ok(url) => Ok(Identity::Asked { url, field_path: field_path.clone() }),
                Err(e) => Err(e),
            },
        },
    }
}

/// Who a new connection is for. What the endpoint says replaces what the
/// caller claims; where it says that nobody is signed in, there is no
/// connection.
pub open spec fn settled(
    identity: Identity,
    claimed: Seq<char>,
    fetched: Fetched,
) -> Result<Seq<char>, Seq<char>> {
    match identity {
        Identity::Claimed => Ok(claimed),
        Identity::Asked { url, field_path } => match identity::verified(
            url@,
            fetched,
            field_path@,
        ) {
            Ok(Some(id)) => Ok(id),
            Ok(None) => Err("not signed in"@),
            Err(e) => Err(e),
        },
    }
}

/// Who a new connection is for. `fetched` is what the endpoint answered; where
/// none is asked, anything will do.
pub fn settle_user(identity: &Identity, claimed: String, fetched: &Fetched) -> (r: Result<
    String,
    String,
>)
    ensures
        text::answer(r) == settled(*identity, claimed@, *fetched),
{
    match identity {
        Identity::Claimed => Ok(claimed),
        Identity::Asked { url, field_path } => match verify_user(
            url.as_str(),
            fetched,
            field_path.as_str(),
        ) {
            Ok(Some(id)) => Ok(id),
            Ok(None) => Err("not signed in".to_owned()),
            Err(e) => Err(e),
        },
    }
}

/// Whether a character is a lower-case hexadecimal digit.
pub open spec fn is_hex(c: char) -> bool {
    ('0' <= c && c <= '9') || ('a' <= c && c <= 'f')
}

/// Whether a text is a random UUID: 36 characters, dashes at four places,
/// lower-case hexadecimal digits elsewhere, with the marks of version 4.
pub open spec fn is_uuid(s: Seq<char>) -> bool {
    &&& s.len() == 36
    &&& forall|i: int|
        0 <= i < 36 ==> if i == 8 || i == 13 || i == 18 || i == 23 {
            #[trigger] s[i] == '-'
        } else {
            is_hex(s[i])
        }
    &&& s[14] == '4'
    &&& s[19] == '8' || s[19] == '9' || s[19] == 'a' || s[19] == 'b'
}

/// A new random UUID (`uuid::Uuid::new_v4`) as text. Which one is chance; that
/// no two are alike is not claimed.
#[verifier::external_body]
fn random_uuid() -> (r: String)
    ensures
        is_uuid(r@),
{
    uuid::Uuid::new_v4().to_string()
}

/// A new connection's id.
pub fn mint_connection_id() -> (r: String)
    ensures
        is_uuid(r@),
        !r@.contains('_'),
{
    let id = random_uuid();
    assert forall|i: int| 0 <= i < id@.len() implies id@[i] != '_' by {
        assert(id@[i] == '-' || is_hex(id@[i]));
    }
    id
}

/// The profile of a new connection. The simulated time is recorded only on a
/// test instance.
pub fn new_profile(
    platform: Platform,
    stadhouder_dir: &str,
    connection_id: &str,
    user_id: String,
    established_ms: i64,
    test_env: bool,
    sim_ms: i64,
) -> (r: ConnectionProfile)
    ensures
        r.connection_id@ == connection_id@,
        r.user_id == user_id,
        r.client_to_server_pipe@ == pipes::pipe_name(
            platform,
            stadhouder_dir@,
            "c2s_"@,
            connection_id@,
        ),
        r.server_to_client_pipe@ == pipes::pipe_name(
            platform,
            stadhouder_dir@,
            "s2c_"@,
            connection_id@,
        ),
        r.established_ms == established_ms,
        r.established_sim_ms == if test_env {
            Some(sim_ms)
        } else {
            None
        },
{
    let names = pipe_names_for(platform, stadhouder_dir, connection_id);
    ConnectionProfile {
        connection_id: connection_id.to_owned(),
        user_id,
        client_to_server_pipe: names.client_to_server,
        server_to_client_pipe: names.server_to_client,
        established_ms,
        established_sim_ms: if test_env {
            Some(sim_ms)
        } else {
            None
        },
    }
}

/// The reply to a connect request, once the profile is in place.
pub fn connected(connection_id: &str) -> (r: JsonSuccess<Json>)
    ensures
        r.spec_data()@ == JsonModel::empty().with(
            "connection_id"@,
            JsonModel::Text(connection_id@),
        ),
        r.spec_cookie() is None,
{
    reply("connection_id", Json::Text(connection_id.to_owned()))
}

// ---------------------------------------------------------------------------
// The other requests
// ---------------------------------------------------------------------------

/// How looking for a connection's profile went.
pub enum Lookup {
    /// There is none.
    Missing,
    /// It could not be read; the system's words.
    Unreadable(String),
    /// It is no profile; what is wrong with it.
    Malformed(String),
    Found(ConnectionProfile),
}

/// A connection's profile. A connection that never was and one that is closed
/// are the same to the caller.
pub fn profile_for(
    platform: Platform,
    state_dir: &str,
    connection_id: &str,
    lookup: Lookup,
) -> (r: Result<
    ConnectionProfile,
    String,
>)
    ensures
        ({
            let path = layout::inside(platform, state_dir@, state::profile_name(connection_id@));
            match lookup {
                Lookup::Missing => r is Err && r->Err_0@ == "unknown connection"@,
                Lookup::Unreadable(e) => r is Err && r->Err_0@ == state::unreadable(path, e@),
                Lookup::Malformed(e) => r is Err && r->Err_0@ == "failed to parse "@ + path + ": "@
                    + e@,
                Lookup::Found(profile) => r == Ok::<ConnectionProfile, String>(profile),
            }
        }),
{
    let path = ConnectionProfile::path_in(platform, state_dir, connection_id);
    match lookup {
        Lookup::Missing => Err("unknown connection".to_owned()),
        Lookup::Unreadable(e) => Err(
            cat3(cat("failed to read ", path.as_str()).as_str(), ": ", e.as_str()),
        ),
        Lookup::Malformed(e) => Err(
            cat3(cat("failed to parse ", path.as_str()).as_str(), ": ", e.as_str()),
        ),
        Lookup::Found(profile) => Ok(profile),
    }
}

/// The reply to a send request, once the message is sent.
pub fn sent() -> (r: JsonSuccess<Json>)
    ensures
        r.spec_data()@ == JsonModel::empty().with("sent"@, JsonModel::Bool(true)),
        r.spec_cookie() is None,
{
    reply("sent", Json::Bool(true))
}

/// How long a poll waits, in engine milliseconds: not less than nothing.
pub fn poll_wait_ms(wait_ms: i64) -> (r: u64)
    ensures
        r == if wait_ms < 0 {
            0
        } else {
            wait_ms as int
        },
{
    if wait_ms < 0 {
        0
    } else {
        wait_ms as u64
    }
}

/// What a poll does after a frame has come.
pub enum PollStep {
    /// Messages have come: they are the reply.
    Deliver(Json),
    /// Nothing has come, and there is time: wait for another frame.
    Wait,
    /// Nothing has come, and the time is over: send a heartbeat, and reply with
    /// no messages.
    GiveUp,
}

/// Whether a value is an array with something in it.
pub open spec fn has_content(value: JsonModel) -> bool {
    value matches JsonModel::Array(items) && items.len() > 0
}

/// What a poll does after a frame has come. `time_over` says that the wait has
/// lasted as long as the caller wanted.
pub fn poll_step(frame: &str, time_over: bool) -> (r: Result<PollStep, String>)
    ensures
        match json::parsed(frame@) {
            None => r is Err && r->Err_0@ == "service reply is not JSON"@,
            Some(value) => match r {
                Ok(PollStep::Deliver(messages)) => has_content(value) && messages@ == value,
                Ok(PollStep::Wait) => !has_content(value) && !time_over,
                Ok(PollStep::GiveUp) => !has_content(value) && time_over,
                Err(_) => false,
            },
        },
{
    let value = match Json::parse(frame) {
        Some(value) => value,
        None => {
            return Err("service reply is not JSON".to_owned());
        },
    };
    let full = match &value {
        Json::Array(items) => {
            proof {
                json::items_model_index(items@);
            }
            items.len() > 0
        },
        _ => false,
    };
    if full {
        Ok(PollStep::Deliver(value))
    } else if time_over {
        Ok(PollStep::GiveUp)
    } else {
        Ok(PollStep::Wait)
    }
}

/// The reply to a poll: what was delivered, or no messages.
pub fn polled(delivered: Option<Json>) -> (r: JsonSuccess<Json>)
    ensures
        r.spec_data()@ == JsonModel::empty().with(
            "messages"@,
            match delivered {
                Some(messages) => messages@,
                None => JsonModel::Array(seq![]),
            },
        ),
        r.spec_cookie() is None,
{
    match delivered {
        Some(messages) => reply("messages", messages),
        None => reply("messages", Json::Array(Vec::new())),
    }
}

/// The reply to a close request: `existed` says whether there was a profile to
/// remove.
pub fn closed(existed: bool) -> (r: Result<JsonSuccess<Json>, String>)
    ensures
        match r {
            Ok(success) => existed && success.spec_cookie() is None && success.spec_data()@
                == JsonModel::empty().with("closed"@, JsonModel::Bool(true)),
            Err(e) => !existed && e@ == "unknown connection"@,
        },
{
    if existed {
        Ok(reply("closed", Json::Bool(true)))
    } else {
        Err("unknown connection".to_owned())
    }
}

// ---------------------------------------------------------------------------
// What holds of the client program
// ---------------------------------------------------------------------------

/// A verified identity replaces the claim: where the endpoint is asked, who a
/// connection is for does not depend on what the caller says.
pub proof fn claim_does_not_matter(
    identity: Identity,
    claimed: Seq<char>,
    other_claim: Seq<char>,
    fetched: Fetched,
)
    requires
        identity is Asked,
    ensures
        settled(identity, claimed, fetched) == settled(identity, other_claim, fetched),
{
}

/// Where no limit is set, or no instance has said anything, memory never
/// stands in the way of a connection; and where nothing is configured, nothing
/// does.
pub proof fn nothing_configured_refuses_nothing(
    config: Config,
    flag: Option<FlagModel>,
    over: bool,
    cookie_header: Option<Seq<char>>,
    env: ServerEnv,
)
    requires
        config.memory_limit_bytes is None || flag is None,
    ensures
        !memory_refuses(config, flag, over),
        config.cookie_name is None && config.user_id_url is None ==> admission(
            config,
            flag,
            over,
            cookie_header,
            env,
        ) == Ok::<Option<(Seq<char>, Seq<char>)>, Seq<char>>(None),
{
}

/// What waits for a client is what its poll is answered with: messages that
/// read back, and whose array fits in a frame, come out of the pipe in the
/// order they were queued; where there are any, the poll is over.
pub proof fn waiting_messages_reach_the_client(
    answer: Seq<char>,
    outbox: Seq<JsonModel>,
    after: Seq<u8>,
)
    requires
        runtime::delivers(answer, outbox),
        json::reads_back(JsonModel::Array(outbox), json::DEPTH_LIMIT as nat),
        pipes::fits(answer),
    ensures
        pipes::first_frame(pipes::frame(answer) + after) == Ok::<Seq<char>, Seq<char>>(answer),
        json::parsed(answer) == Some(JsonModel::Array(outbox)),
        has_content(JsonModel::Array(outbox)) <==> outbox.len() > 0,
{
    pipes::frame_reads_back(answer, after);
}

/// Every connection that is minted can be found again: the name of its profile
/// stands for its id.
pub proof fn minted_connection_is_found(connection_id: Seq<char>)
    requires
        is_uuid(connection_id),
    ensures
        state::profile_id(state::profile_name(connection_id)) == Some(connection_id),
{
    assert forall|i: int| 0 <= i < connection_id.len() implies connection_id[i] != '_' by {
        assert(connection_id[i] == '-' || is_hex(connection_id[i]));
    }
    state::profile_name_stands_for_its_id(connection_id);
}

/// Want of memory refuses a connection whatever else is configured, and before
/// anything else: where a limit is set, an instance has said what it uses and
/// that is at or over what is tolerated, there is no other answer.
pub proof fn want_of_memory_refuses_everybody(
    config: Config,
    flag: Option<FlagModel>,
    over: bool,
    cookie_header: Option<Seq<char>>,
    env: ServerEnv,
)
    ensures
        admission(config, flag, over, cookie_header, env) == Err::<
            Option<(Seq<char>, Seq<char>)>,
            Seq<char>,
        >("service memory limit exceeded"@) <==> config.memory_limit_bytes is Some && flag is Some
            && over,
{
    reveal_strlit("service memory limit exceeded");
    reveal_strlit("missing required cookie");
    reveal_strlit("USER_ID_URL is configured but USER_ID_JSON is not");
    reveal_strlit("SERVER_NAME env var not set");
    reveal_strlit("SERVER_PORT env var not set");
    assert("service memory limit exceeded"@.len() == 29);
    assert("missing required cookie"@.len() == 23);
    assert("USER_ID_URL is configured but USER_ID_JSON is not"@.len() == 49);
    assert("SERVER_NAME env var not set"@.len() == 27);
}

/// Where memory does not refuse it, a caller without the cookie that is required
/// is refused for that, whatever else is configured; and nobody else is.
pub proof fn a_missing_cookie_refuses_its_caller(
    config: Config,
    flag: Option<FlagModel>,
    over: bool,
    cookie_header: Option<Seq<char>>,
    env: ServerEnv,
)
    requires
        config.memory_limit_bytes is None || flag is None || !over,
    ensures
        config.cookie_name is Some && !cookie::present(
            cookie_header,
            config.cookie_name->Some_0@,
        ) <==> admission(config, flag, over, cookie_header, env) == Err::<
            Option<(Seq<char>, Seq<char>)>,
            Seq<char>,
        >("missing required cookie"@),
{
    reveal_strlit("missing required cookie");
    reveal_strlit("USER_ID_URL is configured but USER_ID_JSON is not");
    reveal_strlit("SERVER_NAME env var not set");
    reveal_strlit("SERVER_PORT env var not set");
    assert("missing required cookie"@.len() == 23);
    assert("USER_ID_URL is configured but USER_ID_JSON is not"@.len() == 49);
    assert("SERVER_NAME env var not set"@.len() == 27);
    assert("SERVER_PORT env var not set"@.len() == 27);
}

/// Where neither refuses it, the caller's word is taken exactly where no endpoint
/// is configured; otherwise the endpoint on the same host is asked, at the place
/// that is configured for the id, and without such a place, or without a host,
/// there is no connection.
pub proof fn an_endpoint_is_asked_where_there_is_one(
    config: Config,
    flag: Option<FlagModel>,
    over: bool,
    cookie_header: Option<Seq<char>>,
    env: ServerEnv,
)
    requires
        config.memory_limit_bytes is None || flag is None || !over,
        config.cookie_name is None || cookie::present(cookie_header, config.cookie_name->Some_0@),
    ensures
        ({
            let decided = admission(config, flag, over, cookie_header, env);
            &&& config.user_id_url is None <==> decided == Ok::<
                Option<(Seq<char>, Seq<char>)>,
                Seq<char>,
            >(None)
            &&& config.user_id_url is Some && config.user_id_json is None ==> decided == Err::<
                Option<(Seq<char>, Seq<char>)>,
                Seq<char>,
            >("USER_ID_URL is configured but USER_ID_JSON is not"@)
            &&& config.user_id_url matches Some(path) ==> config.user_id_json matches Some(place)
                ==> request::same_host(env, path@) matches Ok(url) ==> decided == Ok::<
                Option<(Seq<char>, Seq<char>)>,
                Seq<char>,
            >(Some((url, place@)))
            &&& config.user_id_url matches Some(path) ==> config.user_id_json matches Some(_)
                ==> request::same_host(env, path@) matches Err(e) ==> decided == Err::<
                Option<(Seq<char>, Seq<char>)>,
                Seq<char>,
            >(e)
        }),
{
}

/// A connection is for whom the endpoint names, where it is asked, and for whom
/// the caller claims where it is not; where the endpoint names nobody, or cannot
/// be understood, there is no connection.
pub proof fn a_connection_is_for_whom_it_should_be(
    identity: Identity,
    claimed: Seq<char>,
    fetched: Fetched,
)
    ensures
        identity is Claimed ==> settled(identity, claimed, fetched) == Ok::<Seq<char>, Seq<char>>(
            claimed,
        ),
        identity matches Identity::Asked { url, field_path } ==> match identity::verified(
            url@,
            fetched,
            field_path@,
        ) {
            Ok(Some(id)) => settled(identity, claimed, fetched) == Ok::<Seq<char>, Seq<char>>(id),
            Ok(None) => settled(identity, claimed, fetched) == Err::<Seq<char>, Seq<char>>(
                "not signed in"@,
            ),
            Err(e) => settled(identity, claimed, fetched) == Err::<Seq<char>, Seq<char>>(e),
        },
{
}

/// Status tells of memory exactly where there is a limit and an instance has said
/// what it uses, and then what that one said; and of the last run exactly where
/// there was one.
pub proof fn status_tells_what_is_known(limited: bool, flag: Option<FlagModel>, i: Option<i64>)
    ensures
        limited && flag is Some ==> told_memory(limited, flag) == flag->Some_0.memory_pct,
        !limited || flag is None ==> told_memory(limited, flag) == JsonModel::Null,
        i matches Some(i) ==> int_or_null(Some(i)) == JsonModel::Int(i as int),
        int_or_null(None) == JsonModel::Null,
{
}

/// A poll has something to deliver exactly where an array with an item has come.
pub proof fn an_item_is_content(value: JsonModel)
    ensures
        has_content(value) <==> value is Array && value->Array_0.len() > 0,
{
}

/// A random UUID is five groups of lower-case hexadecimal digits with dashes between,
/// eight, three times four and twelve, and bears the marks of its kind.
pub proof fn uuids_have_five_groups(s: Seq<char>, i: int)
    ensures
        is_uuid(s) ==> s.len() == 36 && s[14] == '4' && seq!['8', '9', 'a', 'b'].contains(s[19]),
        is_uuid(s) && 0 <= i < 36 ==> if i == 8 || i == 13 || i == 18 || i == 23 {
            s[i] == '-'
        } else {
            '0' <= s[i] <= '9' || 'a' <= s[i] <= 'f'
        },
{
    if is_uuid(s) {
        let marks = seq!['8', '9', 'a', 'b'];
        assert(marks[0] == '8' && marks[1] == '9' && marks[2] == 'a' && marks[3] == 'b');
        assert(marks.contains(s[19]));
    }
}

} // verus!
