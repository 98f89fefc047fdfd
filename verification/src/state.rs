//! The state folder. What the service remembers lives there as files: bare
//! numbers, the service flag, and one profile per connection.
use crate::json;
use crate::json::{Json, JsonModel};
use crate::layout;
use crate::layout::{join_path, stadhouder_dir, underscore_uuid, Platform};
use crate::number;
use crate::number::{i64_text, parse_i64, Reading};
use crate::text;
use crate::text::{cat, cat3, ends_with, replace, starts_with, to_chars, to_text, trim};
use vstd::prelude::*;
use vstd::slice::slice_subrange;

verus! {

/// The state folder.
pub fn state_dir(platform: Platform, document_root: Option<&str>) -> (r: Result<String, String>)
    ensures
        text::answer(r) == layout::folder_in(
            platform,
            layout::stadhouder_folder(platform, text::opt_text(document_root)),
            "state"@,
        ),
{
    match stadhouder_dir(platform, document_root) {
        Ok(dir) => Ok(join_path(platform, dir.as_str(), "state")),
        Err(e) => Err(e),
    }
}

// ---------------------------------------------------------------------------
// Files that hold one number
// ---------------------------------------------------------------------------

/// How reading a state file went.
pub enum StateFile {
    /// It is not there.
    Missing,
    /// It is there, and could not be read; the system's words.
    Unreadable(String),
    /// What it holds.
    Contents(String),
}

/// What is said of a file that could not be read.
pub open spec fn unreadable(path: Seq<char>, e: Seq<char>) -> Seq<char> {
    "failed to read "@ + path + ": "@ + e
}

/// What is said of a text that should be an integer.
pub open spec fn no_integer(contents: Seq<char>) -> Seq<char> {
    "must hold one integer, not '"@ + text::trimmed(contents) + "'"@
}

/// The 64-bit integer that a text is, but for whitespace around it.
pub open spec fn integer(contents: Seq<char>) -> Option<int> {
    number::integer_in(text::trimmed(contents), i64::MIN as int, i64::MAX as int)
}

/// Reads one integer, with or without whitespace around it.
pub fn parse_int(contents: &str) -> (r: Result<i64, String>)
    ensures
        match r {
            Ok(i) => integer(contents@) == Some(i as int),
            Err(e) => integer(contents@) is None && e@ == no_integer(contents@),
        },
{
    let chars = to_chars(contents);
    let trimmed = trim(&chars);
    match parse_i64(trimmed) {
        Some(i) => Ok(i),
        None => Err(cat3("must hold one integer, not '", to_text(trimmed).as_str(), "'")),
    }
}

/// What is in a state file: nothing where the file is missing or blank, for a
/// file that is being written anew is blank for a moment.
pub open spec fn held(path: Seq<char>, file: StateFile) -> Result<Option<Seq<char>>, Seq<char>> {
    match file {
        StateFile::Missing => Ok(None),
        StateFile::Unreadable(e) => Err(unreadable(path, e@)),
        StateFile::Contents(contents) => if text::trimmed(contents@).len() == 0 {
            Ok(None)
        } else {
            Ok(Some(contents@))
        },
    }
}

/// What is in a state file.
fn held_text<'a>(path: &str, file: &'a StateFile) -> (r: Result<Option<&'a str>, String>)
    ensures
        match r {
            Ok(contents) => held(path@, *file) == Ok::<Option<Seq<char>>, Seq<char>>(
                text::opt_text(contents),
            ),
            Err(e) => held(path@, *file) == Err::<Option<Seq<char>>, Seq<char>>(e@),
        },
{
    match file {
        StateFile::Missing => Ok(None),
        StateFile::Unreadable(e) => Err(
            cat3(cat("failed to read ", path).as_str(), ": ", e.as_str()),
        ),
        StateFile::Contents(contents) => {
            let chars = to_chars(contents.as_str());
            if trim(&chars).len() == 0 {
                Ok(None)
            } else {
                Ok(Some(contents.as_str()))
            }
        },
    }
}

/// The integer in a state file, if there is one; what a file holds that is not
/// blank must be an integer.
pub open spec fn integer_in_file(path: Seq<char>, file: StateFile) -> Result<
    Option<int>,
    Seq<char>,
> {
    match held(path, file) {
        Err(e) => Err(e),
        Ok(None) => Ok(None),
        Ok(Some(contents)) => match integer(contents) {
            Some(i) => Ok(Some(i)),
            None => Err(path + ": "@ + no_integer(contents)),
        },
    }
}

/// The integer in the state file at `path`.
pub fn read_int_file(path: &str, file: &StateFile) -> (r: Result<Option<i64>, String>)
    ensures
        match r {
            Ok(Some(i)) => integer_in_file(path@, *file) == Ok::<Option<int>, Seq<char>>(
                Some(i as int),
            ),
            Ok(None) => integer_in_file(path@, *file) == Ok::<Option<int>, Seq<char>>(None),
            Err(e) => integer_in_file(path@, *file) == Err::<Option<int>, Seq<char>>(e@),
        },
{
    match held_text(path, file) {
        Err(e) => Err(e),
        Ok(None) => Ok(None),
        Ok(Some(contents)) => match parse_int(contents) {
            Ok(i) => Ok(Some(i)),
            Err(e) => Err(cat3(path, ": ", e.as_str())),
        },
    }
}

/// An integer in a state file, or zero.
pub open spec fn integer_or_zero(path: Seq<char>, file: StateFile) -> Result<int, Seq<char>> {
    match integer_in_file(path, file) {
        Ok(Some(i)) => Ok(i),
        Ok(None) => Ok(0),
        Err(e) => Err(e),
    }
}

/// The integer in the state file at `path`, or zero.
fn read_int_or_zero(path: &str, file: &StateFile) -> (r: Result<i64, String>)
    ensures
        match r {
            Ok(i) => integer_or_zero(path@, *file) == Ok::<int, Seq<char>>(i as int),
            Err(e) => integer_or_zero(path@, *file) == Err::<int, Seq<char>>(e@),
        },
{
    match read_int_file(path, file) {
        Ok(Some(i)) => Ok(i),
        Ok(None) => Ok(0),
        Err(e) => Err(e),
    }
}

/// Simulated time minus calendar time, in milliseconds, from the file
/// `sim_time_diff`; zero where nothing is said.
pub fn sim_time_diff_ms(
    platform: Platform,
    state_dir: &str,
    file: &StateFile,
) -> (r: Result<i64, String>)
    ensures
        match r {
            Ok(i) => integer_or_zero(
                layout::inside(platform, state_dir@, "sim_time_diff"@),
                *file,
            ) == Ok::<int, Seq<char>>(i as int),
            Err(e) => integer_or_zero(
                layout::inside(platform, state_dir@, "sim_time_diff"@),
                *file,
            ) == Err::<int, Seq<char>>(e@),
        },
{
    read_int_or_zero(join_path(platform, state_dir, "sim_time_diff").as_str(), file)
}

/// The calendar time that the rate of simulated time applies from, from the
/// file `time_factor_start`; zero where nothing is said.
pub fn time_factor_start_ms(
    platform: Platform,
    state_dir: &str,
    file: &StateFile,
) -> (r: Result<i64, String>)
    ensures
        match r {
            Ok(i) => integer_or_zero(
                layout::inside(platform, state_dir@, "time_factor_start"@),
                *file,
            ) == Ok::<int, Seq<char>>(i as int),
            Err(e) => integer_or_zero(
                layout::inside(platform, state_dir@, "time_factor_start"@),
                *file,
            ) == Err::<int, Seq<char>>(e@),
        },
{
    read_int_or_zero(join_path(platform, state_dir, "time_factor_start").as_str(), file)
}

/// The engine time of the service's most recent run, from the file `last_run`;
/// nothing if it has never run.
pub fn last_run_ms(
    platform: Platform,
    state_dir: &str,
    file: &StateFile,
) -> (r: Result<Option<i64>, String>)
    ensures
        match r {
            Ok(Some(i)) => integer_in_file(
                layout::inside(platform, state_dir@, "last_run"@),
                *file,
            ) == Ok::<Option<int>, Seq<char>>(Some(i as int)),
            Ok(None) => integer_in_file(
                layout::inside(platform, state_dir@, "last_run"@),
                *file,
            ) == Ok::<Option<int>, Seq<char>>(None),
            Err(e) => integer_in_file(
                layout::inside(platform, state_dir@, "last_run"@),
                *file,
            ) == Err::<Option<int>, Seq<char>>(e@),
        },
{
    read_int_file(join_path(platform, state_dir, "last_run").as_str(), file)
}

/// What the file `last_run` holds after a run at that engine time.
pub open spec fn last_run_record(engine_ms: int) -> Seq<char> {
    number::decimal_int(engine_ms) + "\n"@
}

/// What to write into the file `last_run`.
pub fn write_last_run_ms(engine_ms: i64) -> (r: String)
    ensures
        r@ == last_run_record(engine_ms as int),
{
    cat(i64_text(engine_ms).as_str(), "\n")
}

/// What was recorded of a run is what is read of it.
pub proof fn last_run_reads_back(path: Seq<char>, engine_ms: i64, file: StateFile)
    requires
        file is Contents,
        file->Contents_0@ == last_run_record(engine_ms as int),
    ensures
        integer_in_file(path, file) == Ok::<Option<int>, Seq<char>>(Some(engine_ms as int)),
{
    let digits = number::decimal_int(engine_ms as int);
    let s = last_run_record(engine_ms as int);
    reveal_strlit("\n");
    number::decimal_int_reads_back(engine_ms as int, i64::MIN as int, i64::MAX as int);
    if engine_ms < 0 {
        number::decimal_is_digits((-engine_ms) as nat);
        assert(digits.last() == number::decimal((-engine_ms) as nat).last());
    } else {
        number::decimal_is_digits(engine_ms as nat);
    }
    assert(number::is_digit(digits.last()));
    assert(!text::is_white(digits[0]));
    assert(text::trim_start(s) == s);
    assert(s.last() == '\n');
    assert(s.drop_last() == digits);
    assert(text::trim_end(digits) == digits);
    assert(text::trimmed(s) == digits);
}

/// The text of the number in a state file, without whitespace around it; the
/// number may have a fraction.
pub fn read_number_file(path: &str, file: &StateFile) -> (r: Result<Option<String>, String>)
    ensures
        match held(path@, *file) {
            Ok(None) => r == Ok::<Option<String>, String>(None),
            Ok(Some(contents)) => r is Ok && text::opt_string(r->Ok_0) == Some(
                text::trimmed(contents),
            ),
            Err(e) => r is Err && r->Err_0@ == e,
        },
{
    match held_text(path, file) {
        Err(e) => Err(e),
        Ok(None) => Ok(None),
        Ok(Some(contents)) => Ok(Some(text::trim_text(contents))),
    }
}

/// Whether a number can be the rate of simulated time: it must be above zero.
/// `text` is what the file at `path` holds.
pub fn check_time_factor(path: &str, text: &str, reading: &Reading) -> (r: Result<(), String>)
    ensures
        r is Ok <==> *reading is Positive,
        *reading is NotANumber ==> r is Err && r->Err_0@ == path@ + ": "@
            + "must hold one number, not '"@ + text@ + "'"@,
        *reading matches Reading::NotPositive(shown) ==> r is Err && r->Err_0@
            == "time_factor must be > 0, not "@ + shown@,
{
    match reading {
        Reading::Positive => Ok(()),
        Reading::NotANumber => Err(
            cat3(cat3(path, ": ", "must hold one number, not '").as_str(), text, "'"),
        ),
        Reading::NotPositive(shown) => Err(cat("time_factor must be > 0, not ", shown.as_str())),
    }
}

// ---------------------------------------------------------------------------
// The service flag
// ---------------------------------------------------------------------------

/// The path of the service flag: the proof that an instance is live.
pub fn service_flag_path(platform: Platform, state_dir: &str) -> (r: String)
    ensures
        r@ == layout::inside(platform, state_dir@, "service_flag"@),
{
    join_path(platform, state_dir, "service_flag")
}

/// What the live instance says of itself.
pub struct ServiceFlag {
    /// The engine time it said so.
    pub updated_ms: i64,
    /// Its memory use as a percentage of its limit, a number.
    pub memory_pct: Json,
}

/// What a service flag says.
#[verifier::ext_equal]
pub struct FlagModel {
    pub updated_ms: int,
    pub memory_pct: JsonModel,
}

impl View for ServiceFlag {
    type V = FlagModel;

    open spec fn view(&self) -> FlagModel {
        FlagModel { updated_ms: self.updated_ms as int, memory_pct: self.memory_pct@ }
    }
}

/// The flag's contents, if there is a flag.
pub open spec fn flag_model(flag: Option<ServiceFlag>) -> Option<FlagModel> {
    match flag {
        Some(flag) => Some(flag@),
        None => None,
    }
}

/// A service flag as JSON.
pub open spec fn flag_record(flag: FlagModel) -> JsonModel {
    JsonModel::empty().with("updated_ms"@, JsonModel::Int(flag.updated_ms)).with(
        "memory_pct"@,
        flag.memory_pct,
    )
}

/// The service flag that a JSON value is, if it is one.
pub open spec fn flag_of(value: JsonModel) -> Option<FlagModel> {
    if value.field("updated_ms"@).as_int() is Some && value.field("memory_pct"@).is_number() {
        Some(
            FlagModel {
                updated_ms: value.field("updated_ms"@).as_int()->Some_0,
                memory_pct: value.field("memory_pct"@),
            },
        )
    } else {
        None
    }
}

/// The service flag in its file, if there is one; what the file holds that is
/// not blank must be a service flag.
pub open spec fn flag_in_file(path: Seq<char>, file: StateFile) -> Result<
    Option<FlagModel>,
    Seq<char>,
> {
    match file {
        StateFile::Missing => Ok(None),
        StateFile::Unreadable(e) => Err(unreadable(path, e@)),
        StateFile::Contents(contents) => match json::parsed(contents@) {
            Some(value) if flag_of(value) is Some => Ok(flag_of(value)),
            None if text::trimmed(contents@).len() == 0 => Ok(None),
            _ => Err(
                path + ": "@ + "must hold a service flag, not '"@ + text::trimmed(contents@) + "'"@,
            ),
        },
    }
}

/// Reads the service flag in the state folder.
pub fn read_service_flag(platform: Platform, state_dir: &str, file: &StateFile) -> (r: Result<
    Option<ServiceFlag>,
    String,
>)
    ensures
        match r {
            Ok(Some(flag)) => flag_in_file(
                layout::inside(platform, state_dir@, "service_flag"@),
                *file,
            ) == Ok::<Option<FlagModel>, Seq<char>>(Some(flag@)),
            Ok(None) => flag_in_file(
                layout::inside(platform, state_dir@, "service_flag"@),
                *file,
            ) == Ok::<Option<FlagModel>, Seq<char>>(None),
            Err(e) => flag_in_file(
                layout::inside(platform, state_dir@, "service_flag"@),
                *file,
            ) == Err::<Option<FlagModel>, Seq<char>>(e@),
        },
{
    let path = service_flag_path(platform, state_dir);
    match file {
        StateFile::Missing => Ok(None),
        StateFile::Unreadable(e) => Err(
            cat3(cat("failed to read ", path.as_str()).as_str(), ": ", e.as_str()),
        ),
        StateFile::Contents(contents) => {
            let chars = to_chars(contents.as_str());
            let trimmed = trim(&chars);
            match Json::parse(contents.as_str()) {
                None if trimmed.len() == 0 => Ok(None),
                Some(value) if value.int_at("updated_ms").is_some() && value.number_at(
                    "memory_pct",
                ) => {
                    match value.int_at("updated_ms") {
                        Some(updated_ms) => {
                            let memory_pct = value.copy_at("memory_pct");
                            Ok(Some(ServiceFlag { updated_ms, memory_pct }))
                        },
                        None => Ok(None),
                    }
                },
                _ => Err(
                    cat3(
                        cat3(path.as_str(), ": ", "must hold a service flag, not '").as_str(),
                        to_text(trimmed).as_str(),
                        "'",
                    ),
                ),
            }
        },
    }
}

/// The engine time in the service flag, if there is a flag.
pub fn read_service_flag_ms(
    platform: Platform,
    state_dir: &str,
    file: &StateFile,
) -> (r: Result<Option<i64>, String>)
    ensures
        match flag_in_file(layout::inside(platform, state_dir@, "service_flag"@), *file) {
            Ok(Some(flag)) => r is Ok && r->Ok_0 is Some && r->Ok_0->Some_0 == flag.updated_ms,
            Ok(None) => r == Ok::<Option<i64>, String>(None),
            Err(e) => r is Err && r->Err_0@ == e,
        },
{
    match read_service_flag(platform, state_dir, file) {
        Ok(Some(flag)) => Ok(Some(flag.updated_ms)),
        Ok(None) => Ok(None),
        Err(e) => Err(e),
    }
}

/// What to write into the service flag's file. A flag whose percentage is an
/// integer reads back as it was written; of one with a fraction, if it can be
/// read at all, the time does.
pub fn write_service_flag(updated_ms: i64, memory_pct: &Json) -> (r: String)
    ensures
        r@ == json::rendered(
            flag_record(FlagModel { updated_ms: updated_ms as int, memory_pct: memory_pct@ }),
        ),
        memory_pct@ is Int ==> json::parsed(r@) == Some(
            flag_record(FlagModel { updated_ms: updated_ms as int, memory_pct: memory_pct@ }),
        ),
        memory_pct@ is Decimal ==> (json::parsed(r@) matches Some(read) ==> flag_of(read) is Some
            && flag_of(read)->Some_0.updated_ms == updated_ms),
{
    let record = Json::empty().with("updated_ms", Json::Int(updated_ms)).with(
        "memory_pct",
        memory_pct.copy(),
    );
    let ghost fields = record@->Object_0;
    proof {
        reveal_strlit("updated_ms");
        reveal_strlit("memory_pct");
        assert("updated_ms"@[0] == 'u' && "memory_pct"@[0] == 'm');
        assert(fields == Map::<Seq<char>, JsonModel>::empty().insert(
            "updated_ms"@,
            JsonModel::Int(updated_ms as int),
        ).insert("memory_pct"@, memory_pct@));
        assert forall|key: Seq<char>| #[trigger] fields.contains_key(key) implies key
            == "updated_ms"@ || key == "memory_pct"@ by {}
        assert(fields.contains_key("updated_ms"@));
        assert(fields.contains_key("memory_pct"@));
        reveal_with_fuel(json::reads_back, 2);
        reveal_with_fuel(json::keeps_shape, 2);
        reveal_with_fuel(json::resembles, 2);
        assert(memory_pct@ is Int ==> *memory_pct is Int);
        assert(memory_pct@ is Int ==> json::reads_back(record@, json::DEPTH_LIMIT as nat));
        assert(memory_pct@ is Decimal ==> json::keeps_shape(record@, json::DEPTH_LIMIT as nat));
    }
    record.render()
}

/// What was written as a service flag is what is read of it.
pub proof fn flag_reads_back(path: Seq<char>, flag: FlagModel, file: StateFile)
    requires
        flag.memory_pct.is_number(),
        file is Contents,
        json::parsed(file->Contents_0@) == Some(flag_record(flag)),
    ensures
        flag_in_file(path, file) == Ok::<Option<FlagModel>, Seq<char>>(Some(flag)),
{
    reveal_strlit("updated_ms");
    reveal_strlit("memory_pct");
    assert("updated_ms"@[0] != "memory_pct"@[0]);
    assert(flag_of(flag_record(flag)) =~= Some(flag));
}

// ---------------------------------------------------------------------------
// Connection profiles
// ---------------------------------------------------------------------------

/// A connection's profile: written by the client program when a client asks
/// for a connection, picked up by the service, and removed when the connection
/// is closed, from either side.
pub struct ConnectionProfile {
    /// The connection's id, with dashes.
    pub connection_id: String,
    /// Meaningful to the engine alone.
    pub user_id: String,
    /// The names of the connection's pipes.
    pub client_to_server_pipe: String,
    pub server_to_client_pipe: String,
    /// The calendar time the connection was established, in milliseconds.
    pub established_ms: i64,
    /// The simulated time it was established, on a test instance.
    pub established_sim_ms: Option<i64>,
}

/// The name of a connection's profile file.
pub open spec fn profile_name(connection_id: Seq<char>) -> Seq<char> {
    "connection_"@ + layout::underscored(connection_id) + ".json"@
}

/// The connection id that a profile file's name stands for, with dashes; a
/// file of another name stands for none.
pub open spec fn profile_id(name: Seq<char>) -> Option<Seq<char>> {
    let prefix = "connection_"@;
    let suffix = ".json"@;
    if text::begins_with(name, prefix) && text::finishes_with(
        name.skip(prefix.len() as int),
        suffix,
    ) {
        let tag = name.subrange(prefix.len() as int, name.len() - suffix.len());
        Some(text::replaced(tag, '_', '-'))
    } else {
        None
    }
}

impl ConnectionProfile {
    /// The path of a connection's profile.
    pub fn path_in(platform: Platform, state_dir: &str, connection_id: &str) -> (r: String)
        ensures
            r@ == layout::inside(platform, state_dir@, profile_name(connection_id@)),
    {
        let name = cat3("connection_", underscore_uuid(connection_id).as_str(), ".json");
        join_path(platform, state_dir, name.as_str())
    }

    /// The path that a profile is written to before it is moved into place, so
    /// that a half-written one is never picked up.
    pub fn draft_path_in(platform: Platform, state_dir: &str, connection_id: &str) -> (r: String)
        ensures
            r@ == layout::inside(
                platform, state_dir@,
                ".tmp_connection_"@ + layout::underscored(connection_id@),
            ),
    {
        let name = cat(".tmp_connection_", underscore_uuid(connection_id).as_str());
        join_path(platform, state_dir, name.as_str())
    }
}

/// The connection id that a profile file's name stands for.
pub fn connection_id_from_filename(name: &str) -> (r: Option<String>)
    ensures
        text::opt_string(r) == profile_id(name@),
{
    let chars = to_chars(name);
    let prefix = to_chars("connection_");
    let suffix = to_chars(".json");
    if !starts_with(&chars, &prefix) {
        return None;
    }
    let rest = slice_subrange(&chars, prefix.len(), chars.len());
    assert(rest@ == name@.skip(prefix@.len() as int));
    if !ends_with(rest, &suffix) {
        return None;
    }
    let tag = slice_subrange(rest, 0, rest.len() - suffix.len());
    assert(tag@ == name@.subrange(prefix@.len() as int, name@.len() - suffix@.len()));
    Some(replace(tag, '_', '-'))
}

/// The profile files among the names of a folder's files, as paths.
pub open spec fn profile_paths(
    platform: Platform,
    state_dir: Seq<char>,
    names: Seq<Seq<char>>,
) -> Seq<Seq<char>>
    decreases names.len(),
{
    if names.len() == 0 {
        seq![]
    } else {
        let before = profile_paths(platform, state_dir, names.drop_last());
        if profile_id(names.last()) is Some {
            before.push(layout::inside(platform, state_dir, names.last()))
        } else {
            before
        }
    }
}

/// The paths of the profiles in the state folder, from the names of the files
/// in it.
pub fn connection_profile_paths(
    platform: Platform,
    state_dir: &str,
    names: &[String],
) -> (r: Vec<String>)
    ensures
        text::texts(r@) == profile_paths(platform, state_dir@, text::texts(names@)),
{
    let mut paths: Vec<String> = Vec::new();
    let ghost all = text::texts(names@);
    assert(text::texts(paths@) == profile_paths(platform, state_dir@, all.take(0)));
    for i in 0..names.len()
        invariant
            all == text::texts(names@),
            text::texts(paths@) == profile_paths(platform, state_dir@, all.take(i as int)),
    {
        assert(all.take(i + 1).drop_last() == all.take(i as int));
        assert(all.take(i + 1).last() == names@[i as int]@);
        if connection_id_from_filename(names[i].as_str()).is_some() {
            let path = join_path(platform, state_dir, names[i].as_str());
            assert(text::texts(paths@.push(path)) == text::texts(paths@).push(path@));
            paths.push(path);
        }
    }
    assert(all.take(all.len() as int) == all);
    paths
}

/// How removing a file went.
pub enum Removal {
    Removed,
    NotFound,
    /// The system's words.
    Failed(String),
}

/// Whether there was a profile to remove, or why it could not be removed.
pub open spec fn deletion(
    platform: Platform,
    state_dir: Seq<char>,
    connection_id: Seq<char>,
    removal: Removal,
) -> Result<bool, Seq<char>> {
    match removal {
        Removal::Removed => Ok(true),
        Removal::NotFound => Ok(false),
        Removal::Failed(e) => Err(
            "failed to delete "@ + layout::inside(
                platform,
                state_dir,
                profile_name(connection_id),
            ) + ": "@ + e@,
        ),
    }
}

/// Whether there was a profile to remove, from how its removal went.
pub fn delete_connection_profile(
    platform: Platform,
    state_dir: &str,
    connection_id: &str,
    removal: &Removal,
) -> (r: Result<bool, String>)
    ensures
        match r {
            Ok(there) => deletion(platform, state_dir@, connection_id@, *removal)
                == Ok::<bool, Seq<char>>(there),
            Err(e) => deletion(platform, state_dir@, connection_id@, *removal)
                == Err::<bool, Seq<char>>(e@),
        },
{
    match removal {
        Removal::Removed => Ok(true),
        Removal::NotFound => Ok(false),
        Removal::Failed(e) => {
            let path = ConnectionProfile::path_in(platform, state_dir, connection_id);
            Err(cat3(cat("failed to delete ", path.as_str()).as_str(), ": ", e.as_str()))
        },
    }
}

/// Whether removing a file can go so, with those files there, where it does not
/// fail.
pub open spec fn goes_so(removal: Removal, files: Set<Seq<char>>, path: Seq<char>) -> bool {
    match removal {
        Removal::Removed => files.contains(path),
        Removal::NotFound => !files.contains(path),
        Removal::Failed(_) => false,
    }
}

/// A profile is deleted once: whoever deletes it is told whether it was there,
/// and whoever deletes it again that there is none; it is then gone, and every
/// other file is there still.
pub proof fn a_profile_is_deleted_once(
    platform: Platform,
    state_dir: Seq<char>,
    connection_id: Seq<char>,
    files: Set<Seq<char>>,
    first: Removal,
    second: Removal,
)
    requires
        ({
            let path = layout::inside(platform, state_dir, profile_name(connection_id));
            &&& goes_so(first, files, path)
            &&& goes_so(second, files.remove(path), path)
        }),
    ensures
        deletion(platform, state_dir, connection_id, first) == Ok::<bool, Seq<char>>(
            files.contains(layout::inside(platform, state_dir, profile_name(connection_id))),
        ),
        deletion(platform, state_dir, connection_id, second) == Ok::<bool, Seq<char>>(false),
        ({
            let path = layout::inside(platform, state_dir, profile_name(connection_id));
            let after = files.remove(path);
            &&& !after.contains(path)
            &&& forall|other: Seq<char>|
                other != path ==> (#[trigger] after.contains(other) <==> files.contains(other))
        }),
{
}

/// The service finds a connection under the id it was given: the name of its
/// profile stands for that id, where the id has no underscore of its own.
pub proof fn profile_name_stands_for_its_id(connection_id: Seq<char>)
    requires
        !connection_id.contains('_'),
    ensures
        profile_id(profile_name(connection_id)) == Some(connection_id),
{
    let prefix = "connection_"@;
    let suffix = ".json"@;
    let tag = layout::underscored(connection_id);
    let name = profile_name(connection_id);
    assert(name.take(prefix.len() as int) == prefix);
    assert(name.skip(prefix.len() as int) == tag + suffix);
    assert((tag + suffix).skip(tag.len() as int) == suffix);
    assert(name.subrange(prefix.len() as int, name.len() - suffix.len()) == tag);
    layout::dashes_come_back(connection_id);
}

/// A profile that is still being written is not taken for a profile.
pub proof fn draft_is_no_profile(connection_id: Seq<char>)
    ensures
        profile_id(".tmp_connection_"@ + layout::underscored(connection_id)) is None,
{
    reveal_strlit(".tmp_connection_");
    reveal_strlit("connection_");
    let name = ".tmp_connection_"@ + layout::underscored(connection_id);
    if text::begins_with(name, "connection_"@) {
        assert(name.take("connection_"@.len() as int)[0] == name[0]);
    }
}

/// A file says nothing where it is missing or has nothing but whitespace, and
/// otherwise all that is in it; where it cannot be read, that is an error.
pub proof fn a_file_says_what_is_in_it(path: Seq<char>, file: StateFile, contents: Seq<char>)
    ensures
        held(path, file) is Err <==> file is Unreadable,
        held(path, file) == Ok::<Option<Seq<char>>, Seq<char>>(Some(contents)) <==> file is Contents
            && file->Contents_0@ == contents && text::trimmed(contents).len() > 0,
        held(path, file) == Ok::<Option<Seq<char>>, Seq<char>>(None) <==> file is Missing || (file
            is Contents && text::trimmed(file->Contents_0@).len() == 0),
        file matches StateFile::Unreadable(e) ==> held(path, file) == Err::<
            Option<Seq<char>>,
            Seq<char>,
        >("failed to read "@ + path + ": "@ + e@),
{
}

/// A file holds an integer exactly where that is all it holds, whitespace around it
/// aside, and it has 64 bits; a missing or blank one holds none, and counts as
/// zero where a number is wanted; anything else is an error that names the file.
pub proof fn a_file_holds_one_integer(path: Seq<char>, file: StateFile, i: int)
    ensures
        integer_in_file(path, file) == Ok::<Option<int>, Seq<char>>(Some(i)) <==> file is Contents
            && text::trimmed(file->Contents_0@).len() > 0 && number::integer_in(
            text::trimmed(file->Contents_0@),
            -0x8000_0000_0000_0000,
            0x7fff_ffff_ffff_ffff,
        ) == Some(i),
        integer_in_file(path, file) == Ok::<Option<int>, Seq<char>>(None) <==> file is Missing || (
        file is Contents && text::trimmed(file->Contents_0@).len() == 0),
        integer_in_file(path, file) == Ok::<Option<int>, Seq<char>>(None) ==> integer_or_zero(
            path,
            file,
        ) == Ok::<int, Seq<char>>(0),
        integer_in_file(path, file) == Ok::<Option<int>, Seq<char>>(Some(i)) ==> integer_or_zero(
            path,
            file,
        ) == Ok::<int, Seq<char>>(i),
        integer_in_file(path, file) matches Err(e) ==> integer_or_zero(path, file) == Err::<
            int,
            Seq<char>,
        >(e),
        file matches StateFile::Contents(contents) ==> integer_in_file(path, file) matches Err(e)
            ==> e == path + ": "@ + ("must hold one integer, not '"@ + text::trimmed(contents@)
            + "'"@),
{
}

/// A file stands for a connection exactly where its name is `connection_`, the id
/// with underscores for dashes, and `.json`.
pub proof fn a_name_stands_for_one_id(name: Seq<char>, id: Seq<char>)
    ensures
        profile_id(name) == Some(id) <==> exists|tag: Seq<char>|
            name == #[trigger] ("connection_"@ + tag + ".json"@) && id == text::replaced(
                tag,
                '_',
                '-',
            ),
{
    let prefix = "connection_"@;
    let suffix = ".json"@;
    if profile_id(name) == Some(id) {
        let tag = name.subrange(prefix.len() as int, name.len() - suffix.len());
        let rest = name.skip(prefix.len() as int);
        assert(name.take(prefix.len() as int) == prefix);
        assert(rest.skip(rest.len() - suffix.len()) == suffix);
        assert(name == prefix + tag + suffix);
    }
    if exists|tag: Seq<char>|
        name == #[trigger] ("connection_"@ + tag + ".json"@) && id == text::replaced(
            tag,
            '_',
            '-',
        ) {
        let tag = choose|tag: Seq<char>|
            name == #[trigger] ("connection_"@ + tag + ".json"@) && id == text::replaced(
                tag,
                '_',
                '-',
            );
        assert(name.take(prefix.len() as int) == prefix);
        assert(name.skip(prefix.len() as int) == tag + suffix);
        assert((tag + suffix).skip(tag.len() as int) == suffix);
        assert(name.subrange(prefix.len() as int, name.len() - suffix.len()) == tag);
    }
}

/// A profile's file is called `connection_`, the id with underscores for dashes,
/// and `.json`.
pub proof fn a_profile_is_called_after_its_id(connection_id: Seq<char>)
    ensures
        profile_name(connection_id) == "connection_"@ + text::replaced(connection_id, '-', '_')
            + ".json"@,
{
}

/// The profiles of a folder are all the files whose names stand for a connection,
/// in the order of their names, each in that folder.
pub proof fn every_profile_is_listed(
    platform: Platform,
    state_dir: Seq<char>,
    names: Seq<Seq<char>>,
)
    ensures
        profile_paths(platform, state_dir, names) == names.filter(
            |name: Seq<char>| profile_id(name) is Some,
        ).map_values(|name: Seq<char>| layout::inside(platform, state_dir, name)),
    decreases names.len(),
{
    let stands = |name: Seq<char>| profile_id(name) is Some;
    let path = |name: Seq<char>| layout::inside(platform, state_dir, name);
    reveal(Seq::filter);
    if names.len() > 0 {
        let rest = names.drop_last();
        every_profile_is_listed(platform, state_dir, rest);
        if stands(names.last()) {
            assert(names.filter(stands).map_values(path) == rest.filter(stands).map_values(
                path,
            ).push(path(names.last())));
        }
    }
}

/// A JSON value is a service flag exactly where it is an object that has an
/// integer as the time and a number as the memory use; and the flag that is
/// written has these two fields alone.
pub proof fn a_flag_is_two_numbers(value: JsonModel, flag: FlagModel, key: Seq<char>)
    ensures
        flag_of(value) == Some(flag) <==> value is Object && value->Object_0.contains_key(
            "updated_ms"@,
        ) && value->Object_0["updated_ms"@] == JsonModel::Int(flag.updated_ms)
            && value->Object_0.contains_key("memory_pct"@) && value->Object_0["memory_pct"@]
            == flag.memory_pct && (flag.memory_pct is Int || flag.memory_pct is Decimal),
        flag_record(flag) is Object,
        flag_record(flag)->Object_0.contains_key(key) <==> key == "updated_ms"@ || key
            == "memory_pct"@,
        flag_record(flag)->Object_0["updated_ms"@] == JsonModel::Int(flag.updated_ms),
        flag_record(flag)->Object_0["memory_pct"@] == flag.memory_pct,
{
    reveal_strlit("updated_ms");
    reveal_strlit("memory_pct");
    assert("updated_ms"@[0] == 'u');
    assert("memory_pct"@[0] == 'm');
}

/// A flag is found exactly where its file is JSON that is a flag; a missing or blank
/// file has none, and anything else is an error.
pub proof fn a_flag_is_found_where_it_is(path: Seq<char>, file: StateFile, flag: FlagModel)
    ensures
        flag_in_file(path, file) == Ok::<Option<FlagModel>, Seq<char>>(Some(flag)) <==> file
            is Contents && json::parsed(file->Contents_0@) is Some && flag_of(
            json::parsed(file->Contents_0@)->Some_0,
        ) == Some(flag),
        flag_in_file(path, file) == Ok::<Option<FlagModel>, Seq<char>>(None) <==> file is Missing
            || (file is Contents && json::parsed(file->Contents_0@) is None && text::trimmed(
            file->Contents_0@,
        ).len() == 0),
        file matches StateFile::Unreadable(e) ==> flag_in_file(path, file) == Err::<
            Option<FlagModel>,
            Seq<char>,
        >("failed to read "@ + path + ": "@ + e@),
{
}

/// Whether a profile was there is said as its removal went, and a removal that
/// failed is an error that names the file.
pub proof fn a_removal_is_reported_as_it_went(
    platform: Platform,
    state_dir: Seq<char>,
    connection_id: Seq<char>,
    removal: Removal,
)
    ensures
        deletion(platform, state_dir, connection_id, removal) == Ok::<bool, Seq<char>>(true)
            <==> removal is Removed,
        deletion(platform, state_dir, connection_id, removal) == Ok::<bool, Seq<char>>(false)
            <==> removal is NotFound,
        removal matches Removal::Failed(e) ==> deletion(platform, state_dir, connection_id, removal)
            == Err::<bool, Seq<char>>(
            "failed to delete "@ + layout::inside(
                platform,
                state_dir,
                profile_name(connection_id),
            ) + ": "@ + e@,
        ),
{
}

/// A flag is known by its two numbers, and no flag by none; a run leaves its engine
/// time behind in digits, on a line of its own.
pub proof fn records_hold_what_they_are_made_of(flag: ServiceFlag, engine_ms: int)
    ensures
        flag_model(Some(flag)) matches Some(model) ==> model.updated_ms == flag.updated_ms
            && model.memory_pct == flag.memory_pct@,
        flag_model(Some(flag)) is Some,
        flag_model(None) is None,
        last_run_record(engine_ms) == number::decimal_int(engine_ms).push('\n'),
{
    reveal_strlit("\n");
    assert(last_run_record(engine_ms) == number::decimal_int(engine_ms).push('\n'));
}

} // verus!
