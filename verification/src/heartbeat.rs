//! The heartbeat: a message that a polling client sends to show that it is
//! still there. It counts as communication and never reaches the engine.
use crate::json;
use crate::json::{Json, JsonModel};
use vstd::prelude::*;

verus! {

/// The heartbeat message.
pub open spec fn heartbeat() -> JsonModel {
    JsonModel::empty().with("stadhouder_heartbeat"@, JsonModel::Bool(true))
}

/// Whether a message is a heartbeat: an object with the heartbeat's field,
/// whatever that holds.
pub open spec fn beats(message: JsonModel) -> bool {
    message.get("stadhouder_heartbeat"@) is Some
}

/// The message that a client sends as a heartbeat.
pub fn message() -> (r: Json)
    ensures
        r@ == heartbeat(),
        beats(r@),
        json::reads_back(r@, json::DEPTH_LIMIT as nat),
{
    proof {
        heartbeat_reads_back();
    }
    Json::empty().with("stadhouder_heartbeat", Json::Bool(true))
}

/// Whether an inbound message is a heartbeat.
pub fn is_heartbeat(message: &Json) -> (r: bool)
    ensures
        r == beats(message@),
{
    message.get("stadhouder_heartbeat").is_some()
}

/// The heartbeat's text reads back as the heartbeat.
pub proof fn heartbeat_reads_back()
    ensures
        json::reads_back(heartbeat(), json::DEPTH_LIMIT as nat),
        beats(heartbeat()),
{
    reveal_strlit("stadhouder_heartbeat");
    let fields = heartbeat()->Object_0;
    assert("stadhouder_heartbeat"@[0] == 's');
    assert forall|key: Seq<char>| #[trigger] fields.contains_key(key) implies key
        == "stadhouder_heartbeat"@ by {}
    reveal_with_fuel(json::reads_back, 2);
}

/// A message is a heartbeat exactly where it is an object with the heartbeat's
/// field in it, whatever else it has; and the heartbeat that is sent has that
/// field alone.
pub proof fn a_field_makes_a_heartbeat(message: JsonModel, key: Seq<char>)
    ensures
        beats(message) <==> message is Object && message->Object_0.contains_key(
            "stadhouder_heartbeat"@,
        ),
        heartbeat() is Object,
        heartbeat()->Object_0.contains_key(key) <==> key == "stadhouder_heartbeat"@,
        heartbeat()->Object_0["stadhouder_heartbeat"@] == JsonModel::Bool(true),
{
}

} // verus!
