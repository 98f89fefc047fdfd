//! The envelope that every answer of the client program comes in. Even a
//! failure, or a panic, is answered with status 200 and says in the envelope
//! what went wrong.
use crate::json;
use crate::json::{Json, JsonModel};
use crate::text;
use crate::text::cat;
use vstd::prelude::*;

verus! {

/// A successful result: the data, and a cookie to be set, if any.
pub struct JsonSuccess<T> {
    data: T,
    set_cookie: Option<String>,
}

impl<T> JsonSuccess<T> {
    /// The data.
    pub closed spec fn spec_data(self) -> T {
        self.data
    }

    /// The cookie to be set.
    pub closed spec fn spec_cookie(self) -> Option<Seq<char>> {
        text::opt_string(self.set_cookie)
    }

    /// A result without a cookie.
    pub fn new(data: T) -> (r: Self)
        ensures
            r.spec_data() == data,
            r.spec_cookie() is None,
    {
        JsonSuccess { data, set_cookie: None }
    }

    /// A result with a cookie.
    pub fn with_cookie(data: T, set_cookie: String) -> (r: Self)
        ensures
            r.spec_data() == data,
            r.spec_cookie() == Some(set_cookie@),
    {
        JsonSuccess { data, set_cookie: Some(set_cookie) }
    }
}

/// How handling a request went.
pub enum Outcome {
    Success(JsonSuccess<Json>),
    /// It failed, and says why.
    Failure(String),
    /// It panicked; what it said, if that was text.
    Panicked(Option<String>),
}

/// An HTTP answer.
pub struct Reply {
    pub status: u16,
    pub content_type: String,
    pub set_cookie: Option<String>,
    pub body: String,
}

/// The envelope.
pub open spec fn envelope(ok: bool, error: JsonModel, data: JsonModel) -> JsonModel {
    JsonModel::empty().with("ok"@, JsonModel::Bool(ok)).with("error"@, error).with("data"@, data)
}

/// The envelope for how handling a request went.
pub open spec fn enveloped(outcome: Outcome) -> JsonModel {
    match outcome {
        Outcome::Success(success) => envelope(true, JsonModel::Null, success.spec_data()@),
        Outcome::Failure(e) => envelope(false, JsonModel::Text(e@), JsonModel::Null),
        Outcome::Panicked(said) => envelope(
            false,
            JsonModel::Text(
                "panic: "@ + match said {
                    Some(said) => said@,
                    None => "unknown panic"@,
                },
            ),
            JsonModel::Null,
        ),
    }
}

/// The cookie to be set, given how handling a request went.
pub open spec fn cookie_of(outcome: Outcome) -> Option<Seq<char>> {
    match outcome {
        Outcome::Success(success) => success.spec_cookie(),
        _ => None,
    }
}

/// Fills the envelope.
fn fill(ok: bool, error: Json, data: Json) -> (r: Json)
    ensures
        r@ == envelope(ok, error@, data@),
{
    Json::empty().with("ok", Json::Bool(ok)).with("error", error).with("data", data)
}

/// The answer to a request, from how handling it went.
pub fn json_handler(outcome: Outcome) -> (r: Reply)
    ensures
        r.status == 200,
        r.content_type@ == "application/json"@,
        text::opt_string(r.set_cookie) == cookie_of(outcome),
        r.body@ == json::rendered(enveloped(outcome)),
        json::reads_back(enveloped(outcome), json::DEPTH_LIMIT as nat) ==> json::parsed(r.body@)
            == Some(enveloped(outcome)),
{
    let (body, set_cookie) = match outcome {
        Outcome::Success(success) => (fill(true, Json::Null, success.data), success.set_cookie),
        Outcome::Failure(e) => (fill(false, Json::Text(e), Json::Null), None),
        Outcome::Panicked(said) => {
            let said = match said {
                Some(said) => said,
                None => "unknown panic".to_owned(),
            };
            (fill(false, Json::Text(cat("panic: ", said.as_str())), Json::Null), None)
        },
    };
    Reply {
        status: 200,
        content_type: "application/json".to_owned(),
        set_cookie,
        body: body.render(),
    }
}

/// Whatever happens, the caller learns of it: the envelope says whether the
/// request succeeded, it has data only if it did, and an error only if not.
pub proof fn envelope_tells(outcome: Outcome)
    ensures
        enveloped(outcome).field("ok"@) == JsonModel::Bool(outcome is Success),
        outcome is Success ==> enveloped(outcome).field("error"@) == JsonModel::Null,
        outcome !is Success ==> enveloped(outcome).field("data"@) == JsonModel::Null,
        outcome !is Success ==> enveloped(outcome).field("error"@) is Text,
        outcome matches Outcome::Success(success) ==> enveloped(outcome).field("data"@)
            == success.spec_data()@,
{
    reveal_strlit("ok");
    reveal_strlit("error");
    reveal_strlit("data");
    assert("ok"@.len() == 2 && "error"@.len() == 5 && "data"@.len() == 4);
}

/// An envelope has these three fields and no others, and what went wrong is said
/// in it in the words it was reported in. A cookie is set only with a success.
pub proof fn envelope_holds_three_fields(outcome: Outcome, key: Seq<char>)
    ensures
        enveloped(outcome) is Object,
        enveloped(outcome)->Object_0.contains_key(key) <==> key == "ok"@ || key == "error"@ || key
            == "data"@,
        outcome matches Outcome::Failure(e) ==> enveloped(outcome)->Object_0["error"@]
            == JsonModel::Text(e@),
        outcome matches Outcome::Panicked(Some(said)) ==> enveloped(outcome)->Object_0["error"@]
            == JsonModel::Text("panic: "@ + said@),
        outcome matches Outcome::Panicked(None) ==> enveloped(outcome)->Object_0["error"@]
            == JsonModel::Text("panic: "@ + "unknown panic"@),
        outcome is Success ==> cookie_of(outcome) == outcome->Success_0.spec_cookie(),
        !(outcome is Success) ==> cookie_of(outcome) is None,
{
    reveal_strlit("ok");
    reveal_strlit("error");
    reveal_strlit("data");
    assert("ok"@.len() == 2 && "error"@.len() == 5 && "data"@.len() == 4);
}

} // verus!
