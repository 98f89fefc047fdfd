//! Who is calling: asked of an endpoint on the same host that knows, not taken
//! on the caller's word. All that is assumed of its answer is that it is JSON
//! and has the caller's id at a known place.
use crate::json;
use crate::json::{Json, JsonModel};
use crate::text;
use crate::text::{cat, cat3, split_at_each, to_chars, to_text};
use vstd::prelude::*;

verus! {

/// What stands in a value at a path of field names; nothing where a field is
/// missing or what should have it is no object.
pub open spec fn resolved(value: JsonModel, path: Seq<Seq<char>>) -> Option<JsonModel>
    decreases path.len(),
{
    if path.len() == 0 {
        Some(value)
    } else {
        match resolved(value, path.drop_last()) {
            Some(inner) => inner.get(path.last()),
            None => None,
        }
    }
}

/// What stands in a value at a path of field names with dots between them.
pub fn resolve_path<'a>(value: &'a Json, path: &str) -> (r: Option<&'a Json>)
    ensures
        match r {
            Some(found) => resolved(value@, text::split(path@, '.')) == Some(found@),
            None => resolved(value@, text::split(path@, '.')) is None,
        },
{
    let chars = to_chars(path);
    let segments = split_at_each(&chars, '.');
    let ghost all = text::split(path@, '.');
    let mut current = value;
    assert(resolved(value@, all.take(0)) == Some(current@));
    for i in 0..segments.len()
        invariant
            all == text::char_texts(segments@),
            resolved(value@, all.take(i as int)) == Some(current@),
            all == text::split(path@, '.'),
    {
        proof {
            assert(all.take(i + 1).drop_last() == all.take(i as int));
            assert(all.take(i + 1).last() == segments@[i as int]@);
        }
        let segment = to_text(&segments[i]);
        match current.get(segment.as_str()) {
            Some(inner) => {
                current = inner;
            },
            None => {
                proof {
                    missing_stays_missing(value@, all, i + 1);
                }
                return None;
            },
        }
    }
    assert(all.take(all.len() as int) == all);
    Some(current)
}

/// Where a path leads nowhere, a longer one does not either.
proof fn missing_stays_missing(value: JsonModel, path: Seq<Seq<char>>, n: int)
    requires
        0 <= n <= path.len(),
        resolved(value, path.take(n)) is None,
    ensures
        resolved(value, path) is None,
    decreases path.len(),
{
    if n == path.len() {
        assert(path.take(n) == path);
    } else {
        assert(path.drop_last().take(n) == path.take(n));
        missing_stays_missing(value, path.drop_last(), n);
    }
}

/// The id in an answer: none where it is missing, null or empty, for then
/// nobody is signed in. An answer that is not JSON, or has anything but a text
/// there, cannot be used.
pub open spec fn id_in(body: Seq<char>, field_path: Seq<char>) -> Result<
    Option<Seq<char>>,
    Seq<char>,
> {
    match json::parsed(body) {
        None => Err("response is not JSON"@),
        Some(value) => id_at(resolved(value, text::split(field_path, '.')), field_path),
    }
}

/// The id, given what stands at its place.
pub open spec fn id_at(found: Option<JsonModel>, field_path: Seq<char>) -> Result<
    Option<Seq<char>>,
    Seq<char>,
> {
    match found {
        None => Ok(None),
        Some(JsonModel::Null) => Ok(None),
        Some(JsonModel::Text(s)) => if s.len() == 0 {
            Ok(None)
        } else {
            Ok(Some(s))
        },
        Some(other) => Err(
            "field '"@ + field_path + "' is not a string: "@ + json::rendered(other),
        ),
    }
}

/// The id, given what stands at its place.
pub fn read_id(found: Option<&Json>, field_path: &str) -> (r: Result<Option<String>, String>)
    ensures
        ({
            let model = match found {
                Some(value) => Some(value@),
                None => None,
            };
            match r {
                Ok(id) => id_at(model, field_path@) == Ok::<Option<Seq<char>>, Seq<char>>(
                    text::opt_string(id),
                ),
                Err(e) => id_at(model, field_path@) == Err::<Option<Seq<char>>, Seq<char>>(e@),
            }
        }),
{
    match found {
        None => Ok(None),
        Some(Json::Null) => Ok(None),
        Some(Json::Text(s)) => {
            let chars = to_chars(s.as_str());
            if chars.len() == 0 {
                Ok(None)
            } else {
                Ok(Some(s.clone()))
            }
        },
        Some(other) => Err(
            cat3(
                cat("field '", field_path).as_str(),
                "' is not a string: ",
                other.render().as_str(),
            ),
        ),
    }
}

/// Reads the id out of an answer.
pub fn parse_field(body: &str, field_path: &str) -> (r: Result<Option<String>, String>)
    ensures
        match r {
            Ok(id) => id_in(body@, field_path@) == Ok::<Option<Seq<char>>, Seq<char>>(
                text::opt_string(id),
            ),
            Err(e) => id_in(body@, field_path@) == Err::<Option<Seq<char>>, Seq<char>>(e@),
        },
{
    match Json::parse(body) {
        None => Err("response is not JSON".to_owned()),
        Some(value) => read_id(resolve_path(&value, field_path), field_path),
    }
}

/// How asking the endpoint went.
pub enum Fetched {
    /// No answer came; the words of what went wrong.
    Failed(String),
    /// An answer came and could not be read as text.
    Unreadable(String),
    /// The answer.
    Body(String),
}

/// Who is calling, from the endpoint's answer.
pub open spec fn verified(url: Seq<char>, fetched: Fetched, field_path: Seq<char>) -> Result<
    Option<Seq<char>>,
    Seq<char>,
> {
    match fetched {
        Fetched::Failed(e) => Err("identity check request to "@ + url + " failed: "@ + e@),
        Fetched::Unreadable(e) => Err(
            "identity check response from "@ + url + " unreadable: "@ + e@,
        ),
        Fetched::Body(body) => match id_in(body@, field_path) {
            Ok(id) => Ok(id),
            Err(e) => Err("identity check at "@ + url + ": "@ + e),
        },
    }
}

/// Who is calling, from what the endpoint at `url` answered: nobody, if nobody
/// is signed in.
pub fn verify_user(url: &str, fetched: &Fetched, field_path: &str) -> (r: Result<
    Option<String>,
    String,
>)
    ensures
        match r {
            Ok(id) => verified(url@, *fetched, field_path@) == Ok::<Option<Seq<char>>, Seq<char>>(
                text::opt_string(id),
            ),
            Err(e) => verified(url@, *fetched, field_path@) == Err::<
                Option<Seq<char>>,
                Seq<char>,
            >(e@),
        },
{
    match fetched {
        Fetched::Failed(e) => Err(
            cat3(cat("identity check request to ", url).as_str(), " failed: ", e.as_str()),
        ),
        Fetched::Unreadable(e) => Err(
            cat3(cat("identity check response from ", url).as_str(), " unreadable: ", e.as_str()),
        ),
        Fetched::Body(body) => match parse_field(body.as_str(), field_path) {
            Ok(id) => Ok(id),
            Err(e) => Err(cat3(cat("identity check at ", url).as_str(), ": ", e.as_str())),
        },
    }
}

/// A path leads field by field: what a longer path leads to is what its rest
/// leads to from where its beginning does, a path of one name leads to that
/// field, and one that leads nowhere leads nowhere from there on.
pub proof fn paths_lead_field_by_field(
    value: JsonModel,
    first: Seq<Seq<char>>,
    second: Seq<Seq<char>>,
    name: Seq<char>,
)
    ensures
        resolved(value, Seq::<Seq<char>>::empty()) == Some(value),
        resolved(value, seq![name]) == value.get(name),
        resolved(value, first + second) == match resolved(value, first) {
            Some(inner) => resolved(inner, second),
            None => None,
        },
    decreases second.len(),
{
    assert(seq![name].drop_last() == Seq::<Seq<char>>::empty());
    if second.len() == 0 {
        assert(first + second == first);
    } else {
        paths_lead_field_by_field(value, first, second.drop_last(), name);
        assert((first + second).drop_last() == first + second.drop_last());
        assert((first + second).last() == second.last());
    }
}

/// Somebody is signed in exactly where the answer has a text that is not empty at
/// the place that the field path names, part by part between its dots; that text
/// is the id. Nobody is where nothing, null or an empty text is there. Any other
/// answer is refused.
pub proof fn an_id_is_a_text_at_its_place(body: Seq<char>, field_path: Seq<char>, id: Seq<char>)
    ensures
        id_in(body, field_path) == Ok::<Option<Seq<char>>, Seq<char>>(Some(id)) <==> id.len() > 0
            && json::parsed(body) is Some && resolved(
            json::parsed(body)->Some_0,
            text::split(field_path, '.'),
        ) == Some(JsonModel::Text(id)),
        id_in(body, field_path) == Ok::<Option<Seq<char>>, Seq<char>>(None) <==> (json::parsed(
            body,
        ) matches Some(value) && match resolved(value, text::split(field_path, '.')) {
            None => true,
            Some(found) => found is Null || (found is Text && found->Text_0.len() == 0),
        }),
        json::parsed(body) is None ==> id_in(body, field_path) == Err::<
            Option<Seq<char>>,
            Seq<char>,
        >("response is not JSON"@),
{
}

/// The endpoint's word is taken only where it answers: a request that failed, an
/// answer that cannot be read and one that cannot be used are errors, and name
/// the endpoint; otherwise the id is the one in the answer.
pub proof fn only_an_answer_verifies(url: Seq<char>, fetched: Fetched, field_path: Seq<char>)
    ensures
        verified(url, fetched, field_path) is Ok <==> fetched is Body && id_in(
            fetched->Body_0@,
            field_path,
        ) is Ok,
        fetched matches Fetched::Body(body) ==> id_in(body@, field_path) is Ok ==> verified(
            url,
            fetched,
            field_path,
        ) == id_in(body@, field_path),
        fetched matches Fetched::Failed(e) ==> verified(url, fetched, field_path) == Err::<
            Option<Seq<char>>,
            Seq<char>,
        >("identity check request to "@ + url + " failed: "@ + e@),
        fetched matches Fetched::Unreadable(e) ==> verified(url, fetched, field_path) == Err::<
            Option<Seq<char>>,
            Seq<char>,
        >("identity check response from "@ + url + " unreadable: "@ + e@),
        fetched matches Fetched::Body(body) ==> id_in(body@, field_path) matches Err(e)
            ==> verified(url, fetched, field_path) == Err::<Option<Seq<char>>, Seq<char>>(
            "identity check at "@ + url + ": "@ + e,
        ),
{
}

} // verus!
