//! An instance's configuration: a file of `KEY=value` lines. Every key has a
//! default, and a missing file is a valid configuration.
use crate::layout;
use crate::layout::{join_path, stadhouder_dir, Platform};
use crate::number;
use crate::number::{parse_u64_up_to, Reading};
use crate::state;
use crate::state::StateFile;
use crate::text;
use crate::text::{
    cat, cat3, eq_ignore_ascii_case, same_text, split_at_each, split_at_first, to_chars, to_text,
    trim,
};
use vstd::prelude::*;

verus! {

// ---------------------------------------------------------------------------
// Lines
// ---------------------------------------------------------------------------

/// The key and value that a line sets, without whitespace around them. A blank
/// line, a comment and a line without `=` set nothing.
pub open spec fn setting(line: Seq<char>) -> Option<(Seq<char>, Seq<char>)> {
    let line = text::trimmed(line);
    if line.len() == 0 || line[0] == '#' {
        None
    } else {
        match text::split_once(line, '=') {
            Some((key, value)) => Some((text::trimmed(key), text::trimmed(value))),
            None => None,
        }
    }
}

/// What lines set: of two that set one key, the later counts.
pub open spec fn settings(lines: Seq<Seq<char>>) -> Map<Seq<char>, Seq<char>>
    decreases lines.len(),
{
    if lines.len() == 0 {
        Map::empty()
    } else {
        let before = settings(lines.drop_last());
        match setting(lines.last()) {
            Some((key, value)) => before.insert(key, value),
            None => before,
        }
    }
}

/// What a text sets, line by line.
pub open spec fn settings_in(contents: Seq<char>) -> Map<Seq<char>, Seq<char>> {
    settings(text::split(contents, '\n'))
}

/// Keys with their values; no key is there twice.
pub struct Settings {
    pairs: Vec<(String, String)>,
}

/// The values that pairs give keys.
pub open spec fn pairs_map(pairs: Seq<(String, String)>) -> Map<Seq<char>, Seq<char>>
    decreases pairs.len(),
{
    if pairs.len() == 0 {
        Map::empty()
    } else {
        pairs_map(pairs.drop_last()).insert(pairs.last().0@, pairs.last().1@)
    }
}

/// Whether no key is there twice.
pub open spec fn keys_distinct(pairs: Seq<(String, String)>) -> bool {
    forall|i: int, j: int|
        0 <= i < j < pairs.len() ==> (#[trigger] pairs[i]).0@ != (#[trigger] pairs[j]).0@
}

impl View for Settings {
    type V = Map<Seq<char>, Seq<char>>;

    closed spec fn view(&self) -> Map<Seq<char>, Seq<char>> {
        pairs_map(self.pairs@)
    }
}

/// The pairs and the map agree.
proof fn pairs_map_agrees(pairs: Seq<(String, String)>)
    requires
        keys_distinct(pairs),
    ensures
        pairs_map(pairs).dom().finite(),
        pairs_map(pairs).len() == pairs.len(),
        forall|i: int|
            0 <= i < pairs.len() ==> pairs_map(pairs).contains_key((#[trigger] pairs[i]).0@)
                && pairs_map(pairs)[pairs[i].0@] == pairs[i].1@,
        forall|key: Seq<char>| #[trigger]
            pairs_map(pairs).contains_key(key) ==> exists|i: int|
                0 <= i < pairs.len() && (#[trigger] pairs[i]).0@ == key,
    decreases pairs.len(),
{
    if pairs.len() > 0 {
        let rest = pairs.drop_last();
        let last = pairs.last();
        assert(keys_distinct(rest)) by {
            assert forall|i: int, j: int| 0 <= i < j < rest.len() implies (#[trigger] rest[i]).0@
                != (#[trigger] rest[j]).0@ by {
                assert(rest[i] == pairs[i] && rest[j] == pairs[j]);
            }
        }
        pairs_map_agrees(rest);
        assert(!pairs_map(rest).contains_key(last.0@)) by {
            if pairs_map(rest).contains_key(last.0@) {
                let i = choose|i: int| 0 <= i < rest.len() && (#[trigger] rest[i]).0@ == last.0@;
                assert(rest[i] == pairs[i]);
                assert(pairs[i].0@ != pairs[pairs.len() - 1].0@);
            }
        }
        assert forall|i: int| 0 <= i < pairs.len() implies pairs_map(pairs).contains_key(
            (#[trigger] pairs[i]).0@,
        ) && pairs_map(pairs)[pairs[i].0@] == pairs[i].1@ by {
            if i < rest.len() {
                assert(rest[i] == pairs[i]);
                assert(pairs[i].0@ != pairs[pairs.len() - 1].0@);
            }
        }
        assert forall|key: Seq<char>| #[trigger]
            pairs_map(pairs).contains_key(key) implies exists|i: int|
            0 <= i < pairs.len() && (#[trigger] pairs[i]).0@ == key by {
            if key == last.0@ {
                assert(pairs[pairs.len() - 1].0@ == key);
            } else {
                let i = choose|i: int| 0 <= i < rest.len() && (#[trigger] rest[i]).0@ == key;
                assert(pairs[i].0@ == key);
            }
        }
    }
}

/// Pairs that differ in one value make maps that differ in that value.
proof fn pairs_map_update(pairs: Seq<(String, String)>, k: int, value: String)
    requires
        keys_distinct(pairs),
        0 <= k < pairs.len(),
    ensures
        pairs_map(pairs.update(k, (pairs[k].0, value))) == pairs_map(pairs).insert(
            pairs[k].0@,
            value@,
        ),
        keys_distinct(pairs.update(k, (pairs[k].0, value))),
    decreases pairs.len(),
{
    let new = pairs.update(k, (pairs[k].0, value));
    assert forall|i: int, j: int| 0 <= i < j < new.len() implies (#[trigger] new[i]).0@ != (
    #[trigger] new[j]).0@ by {
        assert(pairs[i].0@ != pairs[j].0@);
    }
    let rest = pairs.drop_last();
    if k == pairs.len() - 1 {
        assert(new.drop_last() == rest);
        assert(pairs_map(new) =~= pairs_map(pairs).insert(pairs[k].0@, value@));
    } else {
        assert(keys_distinct(rest)) by {
            assert forall|i: int, j: int| 0 <= i < j < rest.len() implies (#[trigger] rest[i]).0@
                != (#[trigger] rest[j]).0@ by {
                assert(rest[i] == pairs[i] && rest[j] == pairs[j]);
            }
        }
        pairs_map_update(rest, k, value);
        assert(new.drop_last() == rest.update(k, (rest[k].0, value)));
        assert(pairs[k].0@ != pairs[pairs.len() - 1].0@);
        assert(pairs_map(new) =~= pairs_map(pairs).insert(pairs[k].0@, value@));
    }
}

impl Settings {
    #[verifier::type_invariant]
    spec fn no_key_twice(self) -> bool {
        keys_distinct(self.pairs@)
    }

    /// Where a key is.
    fn place(pairs: &Vec<(String, String)>, key: &str) -> (r: Option<usize>)
        requires
            keys_distinct(pairs@),
        ensures
            match r {
                Some(i) => i < pairs@.len() && pairs@[i as int].0@ == key@,
                None => !pairs_map(pairs@).contains_key(key@) && forall|j: int|
                    0 <= j < pairs@.len() ==> (#[trigger] pairs@[j]).0@ != key@,
            },
    {
        for i in 0..pairs.len()
            invariant
                forall|j: int| 0 <= j < i ==> (#[trigger] pairs@[j]).0@ != key@,
        {
            if same_text(pairs[i].0.as_str(), key) {
                return Some(i);
            }
        }
        proof {
            pairs_map_agrees(pairs@);
        }
        None
    }

    /// A key's value.
    pub fn get(&self, key: &str) -> (r: Option<&String>)
        ensures
            r is Some <==> self@.contains_key(key@),
            r matches Some(value) ==> self@[key@] == value@,
    {
        proof {
            use_type_invariant(&*self);
            pairs_map_agrees(self.pairs@);
        }
        match Self::place(&self.pairs, key) {
            Some(i) => Some(&self.pairs[i].1),
            None => None,
        }
    }

    /// How many keys there are.
    pub fn len(&self) -> (r: usize)
        ensures
            self@.dom().finite(),
            r == self@.len(),
    {
        proof {
            use_type_invariant(&*self);
            pairs_map_agrees(self.pairs@);
        }
        self.pairs.len()
    }
}

/// What a line sets.
fn read_line(line: &[char]) -> (r: Option<(String, String)>)
    ensures
        match r {
            Some((key, value)) => setting(line@) == Some((key@, value@)),
            None => setting(line@) is None,
        },
{
    let line = trim(line);
    if line.len() == 0 || line[0] == '#' {
        return None;
    }
    match split_at_first(line, '=') {
        Some((key, value)) => Some((to_text(trim(key)), to_text(trim(value)))),
        None => None,
    }
}

/// Reads `KEY=value` lines.
pub fn parse_kv(contents: &str) -> (r: Settings)
    ensures
        r@ == settings_in(contents@),
{
    let chars = to_chars(contents);
    let lines = split_at_each(&chars, '\n');
    let ghost all = text::char_texts(lines@);
    let mut pairs: Vec<(String, String)> = Vec::new();
    assert(all.take(0) == Seq::<Seq<char>>::empty());
    for i in 0..lines.len()
        invariant
            all == text::char_texts(lines@),
            keys_distinct(pairs@),
            pairs_map(pairs@) == settings(all.take(i as int)),
    {
        proof {
            assert(all.take(i + 1).drop_last() == all.take(i as int));
            assert(all.take(i + 1).last() == lines@[i as int]@);
        }
        match read_line(&lines[i]) {
            Some((key, value)) => {
                match Settings::place(&pairs, key.as_str()) {
                    Some(k) => {
                        proof {
                            pairs_map_update(pairs@, k as int, value);
                        }
                        let ghost before = pairs@;
                        pairs[k].1 = value;
                        assert(pairs@ == before.update(k as int, (before[k as int].0, value)));
                    },
                    None => {
                        let ghost before = pairs@;
                        pairs.push((key, value));
                        assert(pairs@.drop_last() == before);
                        assert forall|a: int, b: int| 0 <= a < b < pairs@.len() implies (
                        #[trigger] pairs@[a]).0@ != (#[trigger] pairs@[b]).0@ by {
                            assert(pairs@[a] == before[a]);
                        }
                    },
                }
            },
            None => {},
        }
    }
    assert(all.take(all.len() as int) == all);
    Settings { pairs }
}

// ---------------------------------------------------------------------------
// The configuration
// ---------------------------------------------------------------------------

/// An instance's configuration.
pub struct Config {
    /// Whether this is a test instance; only such a one may run on simulated
    /// time.
    pub test_env: bool,
    /// A cookie that a client must have to connect. Its value is never looked
    /// at.
    pub cookie_name: Option<String>,
    /// The path, on the same host, that says who is calling.
    pub user_id_url: Option<String>,
    /// Where in that path's JSON answer the caller's id is: names of fields
    /// with dots between them.
    pub user_id_json: Option<String>,
    /// The service's own memory limit.
    pub memory_limit_bytes: Option<u64>,
    /// The percentage of the limit at which new connections are refused, as it
    /// is written: a number above zero.
    pub memory_reject_pct: String,
}

/// What a configuration says.
#[verifier::ext_equal]
pub struct ConfigModel {
    pub test_env: bool,
    pub cookie_name: Option<Seq<char>>,
    pub user_id_url: Option<Seq<char>>,
    pub user_id_json: Option<Seq<char>>,
    pub memory_limit_bytes: Option<int>,
    pub memory_reject_pct: Seq<char>,
}

impl View for Config {
    type V = ConfigModel;

    open spec fn view(&self) -> ConfigModel {
        ConfigModel {
            test_env: self.test_env,
            cookie_name: text::opt_string(self.cookie_name),
            user_id_url: text::opt_string(self.user_id_url),
            user_id_json: text::opt_string(self.user_id_json),
            memory_limit_bytes: match self.memory_limit_bytes {
                Some(bytes) => Some(bytes as int),
                None => None,
            },
            memory_reject_pct: self.memory_reject_pct@,
        }
    }
}

impl ConfigModel {
    /// The configuration where nothing is set: connections are refused where all
    /// of the memory is used.
    pub open spec fn defaults() -> ConfigModel {
        ConfigModel {
            test_env: false,
            cookie_name: None,
            user_id_url: None,
            user_id_json: None,
            memory_limit_bytes: None,
            memory_reject_pct: "100"@,
        }
    }
}

impl Default for Config {
    fn default() -> (r: Config)
        ensures
            r@ == ConfigModel::defaults(),
    {
        Config {
            test_env: false,
            cookie_name: None,
            user_id_url: None,
            user_id_json: None,
            memory_limit_bytes: None,
            memory_reject_pct: "100".to_owned(),
        }
    }
}

/// The value of a key; a blank one counts as none.
pub open spec fn given(values: Map<Seq<char>, Seq<char>>, key: Seq<char>) -> Option<Seq<char>> {
    if values.contains_key(key) && values[key].len() > 0 {
        Some(values[key])
    } else {
        None
    }
}

/// Whether this is a test instance: `true` or `false`, in any case; false
/// where the key is not there.
pub open spec fn test_env_in(values: Map<Seq<char>, Seq<char>>) -> Result<bool, Seq<char>> {
    if !values.contains_key("TEST_ENV"@) {
        Ok(false)
    } else if text::same_ignoring_ascii_case(values["TEST_ENV"@], "true"@) {
        Ok(true)
    } else if text::same_ignoring_ascii_case(values["TEST_ENV"@], "false"@) {
        Ok(false)
    } else {
        Err("TEST_ENV must be true or false, not '"@ + values["TEST_ENV"@] + "'"@)
    }
}

/// The memory limit in bytes, from a number of megabytes above zero. It must be
/// one that 64 bits can hold.
pub open spec fn memory_limit_in(values: Map<Seq<char>, Seq<char>>) -> Result<
    Option<int>,
    Seq<char>,
> {
    match given(values, "MEMORY_LIMIT_MB"@) {
        None => Ok(None),
        Some(v) => match number::integer_in(v, 0, (u64::MAX / 1048576) as int) {
            None => Err("MEMORY_LIMIT_MB must be a positive integer, not '"@ + v + "'"@),
            Some(mb) => if mb == 0 {
                Err("MEMORY_LIMIT_MB must be > 0"@)
            } else {
                Ok(Some(mb * 1048576))
            },
        },
    }
}

/// The percentage at which connections are refused, given what its text turned
/// out to be as a number: it must be above zero. It is 100 where none is given.
pub open spec fn reject_pct_in(values: Map<Seq<char>, Seq<char>>, reading: Reading) -> Result<
    Seq<char>,
    Seq<char>,
> {
    match given(values, "MEMORY_REJECT_PCT"@) {
        None => Ok("100"@),
        Some(v) => match reading {
            Reading::NotANumber => Err(
                "MEMORY_REJECT_PCT must be a positive number, not '"@ + v + "'"@,
            ),
            Reading::NotPositive(_) => Err("MEMORY_REJECT_PCT must be > 0"@),
            Reading::Positive => Ok(v),
        },
    }
}

/// The configuration that keys and values make, or the first thing wrong with
/// them. Other keys are ignored.
pub open spec fn config_of(values: Map<Seq<char>, Seq<char>>, reading: Reading) -> Result<
    ConfigModel,
    Seq<char>,
> {
    match (test_env_in(values), memory_limit_in(values), reject_pct_in(values, reading)) {
        (Err(e), _, _) => Err(e),
        (_, Err(e), _) => Err(e),
        (_, _, Err(e)) => Err(e),
        (Ok(test_env), Ok(memory_limit_bytes), Ok(memory_reject_pct)) => Ok(
            ConfigModel {
                test_env,
                cookie_name: given(values, "COOKIE_NAME"@),
                user_id_url: given(values, "USER_ID_URL"@),
                user_id_json: given(values, "USER_ID_JSON"@),
                memory_limit_bytes,
                memory_reject_pct,
            },
        ),
    }
}

/// The value of a key; a blank one counts as none.
fn value_of(values: &Settings, key: &str) -> (r: Option<String>)
    ensures
        text::opt_string(r) == given(values@, key@),
{
    match values.get(key) {
        Some(value) => {
            let chars = to_chars(value.as_str());
            if chars.len() > 0 {
                Some(value.clone())
            } else {
                None
            }
        },
        None => None,
    }
}

/// Whether this is a test instance.
fn read_test_env(values: &Settings) -> (r: Result<bool, String>)
    ensures
        match r {
            Ok(b) => test_env_in(values@) == Ok::<bool, Seq<char>>(b),
            Err(e) => test_env_in(values@) == Err::<bool, Seq<char>>(e@),
        },
{
    match values.get("TEST_ENV") {
        None => Ok(false),
        Some(v) => {
            let chars = to_chars(v.as_str());
            if eq_ignore_ascii_case(&chars, &to_chars("true")) {
                Ok(true)
            } else if eq_ignore_ascii_case(&chars, &to_chars("false")) {
                Ok(false)
            } else {
                Err(cat3("TEST_ENV must be true or false, not '", v.as_str(), "'"))
            }
        },
    }
}

/// The memory limit in bytes.
fn read_memory_limit(values: &Settings) -> (r: Result<Option<u64>, String>)
    ensures
        match r {
            Ok(Some(bytes)) => memory_limit_in(values@) == Ok::<Option<int>, Seq<char>>(
                Some(bytes as int),
            ),
            Ok(None) => memory_limit_in(values@) == Ok::<Option<int>, Seq<char>>(None),
            Err(e) => memory_limit_in(values@) == Err::<Option<int>, Seq<char>>(e@),
        },
{
    match value_of(values, "MEMORY_LIMIT_MB") {
        None => Ok(None),
        Some(v) => {
            let chars = to_chars(v.as_str());
            match parse_u64_up_to(&chars, u64::MAX / 1048576) {
                None => Err(
                    cat3("MEMORY_LIMIT_MB must be a positive integer, not '", v.as_str(), "'"),
                ),
                Some(mb) => if mb == 0 {
                    Err("MEMORY_LIMIT_MB must be > 0".to_owned())
                } else {
                    Ok(Some(mb * 1048576))
                },
            }
        },
    }
}

/// The percentage at which connections are refused.
fn read_reject_pct(values: &Settings, reading: &Reading) -> (r: Result<String, String>)
    ensures
        text::answer(r) == reject_pct_in(values@, *reading),
{
    match value_of(values, "MEMORY_REJECT_PCT") {
        None => Ok("100".to_owned()),
        Some(v) => match reading {
            Reading::NotANumber => Err(
                cat3("MEMORY_REJECT_PCT must be a positive number, not '", v.as_str(), "'"),
            ),
            Reading::NotPositive(_) => Err("MEMORY_REJECT_PCT must be > 0".to_owned()),
            Reading::Positive => Ok(v),
        },
    }
}

impl Config {
    /// The text that is to be read as the percentage at which connections are
    /// refused, if one is given.
    pub fn reject_pct_text(contents: &str) -> (r: Option<String>)
        ensures
            text::opt_string(r) == given(settings_in(contents@), "MEMORY_REJECT_PCT"@),
    {
        value_of(&parse_kv(contents), "MEMORY_REJECT_PCT")
    }

    /// Reads a configuration. `reading` is what the text that
    /// [`Config::reject_pct_text`] gives turned out to be; where it gives none,
    /// any will do.
    pub fn from_str(contents: &str, reading: &Reading) -> (r: Result<Config, String>)
        ensures
            match r {
                Ok(config) => config_of(settings_in(contents@), *reading) == Ok::<
                    ConfigModel,
                    Seq<char>,
                >(config@),
                Err(e) => config_of(settings_in(contents@), *reading) == Err::<
                    ConfigModel,
                    Seq<char>,
                >(e@),
            },
    {
        let values = parse_kv(contents);
        let test_env = match read_test_env(&values) {
            Ok(b) => b,
            Err(e) => {
                return Err(e);
            },
        };
        let memory_limit_bytes = match read_memory_limit(&values) {
            Ok(bytes) => bytes,
            Err(e) => {
                return Err(e);
            },
        };
        let memory_reject_pct = match read_reject_pct(&values, reading) {
            Ok(pct) => pct,
            Err(e) => {
                return Err(e);
            },
        };
        Ok(
            Config {
                test_env,
                cookie_name: value_of(&values, "COOKIE_NAME"),
                user_id_url: value_of(&values, "USER_ID_URL"),
                user_id_json: value_of(&values, "USER_ID_JSON"),
                memory_limit_bytes,
                memory_reject_pct,
            },
        )
    }

    /// The path of the configuration file.
    pub fn config_path(
        platform: Platform,
        document_root: Option<&str>,
    ) -> (r: Result<String, String>)
        ensures
            text::answer(r) == layout::folder_in(
                platform,
                layout::folder_in(
                    platform,
                    layout::stadhouder_folder(platform, text::opt_text(document_root)),
                    "cfg"@,
                ),
                "stadhouder.conf"@,
            ),
    {
        match stadhouder_dir(platform, document_root) {
            Ok(dir) => {
                let cfg = join_path(platform, dir.as_str(), "cfg");
                Ok(join_path(platform, cfg.as_str(), "stadhouder.conf"))
            },
            Err(e) => Err(e),
        }
    }

    /// The configuration in the file at `path`; the defaults where it is
    /// missing. `reading` is as for [`Config::from_str`].
    pub fn load(path: &str, file: &StateFile, reading: &Reading) -> (r: Result<Config, String>)
        ensures
            match *file {
                StateFile::Missing => r is Ok && r->Ok_0@ == ConfigModel::defaults(),
                StateFile::Unreadable(e) => r is Err && r->Err_0@ == state::unreadable(path@, e@),
                StateFile::Contents(contents) => match config_of(
                    settings_in(contents@),
                    *reading,
                ) {
                    Ok(config) => r is Ok && r->Ok_0@ == config,
                    Err(e) => r is Err && r->Err_0@ == path@ + ": "@ + e,
                },
            },
    {
        match file {
            StateFile::Missing => Ok(Config::default()),
            StateFile::Unreadable(e) => Err(
                cat3(cat("failed to read ", path).as_str(), ": ", e.as_str()),
            ),
            StateFile::Contents(contents) => match Config::from_str(contents.as_str(), reading) {
                Ok(config) => Ok(config),
                Err(e) => Err(cat3(path, ": ", e.as_str())),
            },
        }
    }
}

// ---------------------------------------------------------------------------
// What holds of configurations
// ---------------------------------------------------------------------------

/// An empty file says the same as no file: everything has its default.
pub proof fn empty_file_gives_defaults(reading: Reading)
    ensures
        config_of(settings_in(Seq::<char>::empty()), reading) == Ok::<ConfigModel, Seq<char>>(
            ConfigModel::defaults(),
        ),
{
    let lines = text::split(Seq::<char>::empty(), '\n');
    assert(lines == seq![Seq::<char>::empty()]);
    assert(lines.drop_last() == Seq::<Seq<char>>::empty());
    assert(text::trim_end(Seq::<char>::empty()) == Seq::<char>::empty());
    assert(setting(lines.last()) is None);
    assert(settings(lines.drop_last()) == Map::<Seq<char>, Seq<char>>::empty());
    assert(settings(lines) == Map::<Seq<char>, Seq<char>>::empty());
}

/// The last line that sets a key decides; lines that set other keys, or
/// nothing, leave it as it is.
pub proof fn last_line_decides(
    lines: Seq<Seq<char>>,
    later: Seq<Seq<char>>,
    key: Seq<char>,
    value: Seq<char>,
)
    requires
        lines.len() > 0,
        setting(lines.last()) == Some((key, value)),
        forall|i: int|
            0 <= i < later.len() ==> match setting(#[trigger] later[i]) {
                Some((k, _)) => k != key,
                None => true,
            },
    ensures
        settings(lines + later).contains_key(key),
        settings(lines + later)[key] == value,
    decreases later.len(),
{
    if later.len() == 0 {
        assert(lines + later == lines);
    } else {
        let rest = later.drop_last();
        assert forall|i: int| 0 <= i < rest.len() implies match setting(#[trigger] rest[i]) {
            Some((k, _)) => k != key,
            None => true,
        } by {
            assert(rest[i] == later[i]);
        }
        last_line_decides(lines, rest, key, value);
        assert((lines + later).drop_last() == lines + rest);
        assert((lines + later).last() == later[later.len() - 1]);
    }
}

/// Comments, blank lines and lines without `=` make no difference, wherever
/// they stand.
pub proof fn idle_lines_make_no_difference(
    before: Seq<Seq<char>>,
    line: Seq<char>,
    after: Seq<Seq<char>>,
)
    requires
        setting(line) is None,
    ensures
        settings(before.push(line) + after) == settings(before + after),
    decreases after.len(),
{
    if after.len() == 0 {
        assert(before.push(line) + after == before.push(line));
        assert(before + after == before);
        assert(before.push(line).drop_last() == before);
    } else {
        idle_lines_make_no_difference(before, line, after.drop_last());
        assert((before.push(line) + after).drop_last() == before.push(line) + after.drop_last());
        assert((before + after).drop_last() == before + after.drop_last());
        assert((before.push(line) + after).last() == (before + after).last());
    }
}

/// A blank value counts as none, for every key but TEST_ENV, which must be
/// `true` or `false` where it is there.
pub proof fn blank_counts_as_unset(values: Map<Seq<char>, Seq<char>>, key: Seq<char>)
    requires
        values.contains_key(key),
        values[key].len() == 0,
    ensures
        given(values, key) == given(values.remove(key), key),
        key == "TEST_ENV"@ ==> test_env_in(values) is Err,
{
    if key == "TEST_ENV"@ {
        reveal_strlit("true");
        reveal_strlit("false");
        assert(values[key].map_values(|c: char| text::ascii_lower(c)).len() == 0);
        assert("true"@.map_values(|c: char| text::ascii_lower(c)).len() == 4);
        assert("false"@.map_values(|c: char| text::ascii_lower(c)).len() == 5);
    }
}

/// A line sets a key exactly where, whitespace around it aside, it is no comment
/// and has a `=`: what stands before the first one is the key, and everything
/// behind it the value, both without whitespace around them.
pub proof fn a_line_sets_what_its_sides_say(
    line: Seq<char>,
    before: Seq<char>,
    after: Seq<char>,
)
    requires
        !before.contains('='),
    ensures
        text::trimmed(line) == before.push('=') + after && text::trimmed(line)[0] != '#'
            ==> setting(line) == Some((text::trimmed(before), text::trimmed(after))),
        text::trimmed(line).len() == 0 ==> setting(line) is None,
        text::trimmed(line).len() > 0 && text::trimmed(line)[0] == '#' ==> setting(line) is None,
        !text::trimmed(line).contains('=') ==> setting(line) is None,
{
    text::split_once_divides(text::trimmed(line), '=', before, after);
}

/// A key is set exactly where some line sets it, at whatever place, and to what
/// one of those lines says.
pub proof fn a_key_is_set_by_its_lines(lines: Seq<Seq<char>>, key: Seq<char>)
    ensures
        settings(lines).contains_key(key) <==> exists|i: int|
            0 <= i < lines.len() && setting(#[trigger] lines[i]) is Some && setting(
                lines[i],
            )->Some_0.0 == key,
        settings(lines).contains_key(key) ==> exists|i: int|
            0 <= i < lines.len() && setting(#[trigger] lines[i]) == Some(
                (key, settings(lines)[key]),
            ),
    decreases lines.len(),
{
    if lines.len() > 0 {
        let rest = lines.drop_last();
        let n = lines.len() - 1;
        a_key_is_set_by_its_lines(rest, key);
        if setting(lines.last()) is Some && setting(lines.last())->Some_0.0 == key {
            assert(setting(lines[n]) == Some((key, settings(lines)[key])));
        } else if settings(rest).contains_key(key) {
            let i = choose|i: int|
                0 <= i < rest.len() && setting(#[trigger] rest[i]) == Some(
                    (key, settings(rest)[key]),
                );
            assert(setting(lines[i]) == Some((key, settings(lines)[key])));
        }
        if exists|i: int|
            0 <= i < lines.len() && setting(#[trigger] lines[i]) is Some && setting(
                lines[i],
            )->Some_0.0 == key {
            let i = choose|i: int|
                0 <= i < lines.len() && setting(#[trigger] lines[i]) is Some && setting(
                    lines[i],
                )->Some_0.0 == key;
            if i < n {
                assert(setting(rest[i]) is Some && setting(rest[i])->Some_0.0 == key);
            }
        }
    }
}

/// A file is read line by line.
pub proof fn files_are_read_line_by_line(first: Seq<char>, second: Seq<char>, key: Seq<char>)
    ensures
        settings_in(first.push('\n') + second).contains_key(key) <==> settings_in(
            first,
        ).contains_key(key) || settings_in(second).contains_key(key),
        settings_in(second).contains_key(key) ==> settings_in(first.push('\n') + second)[key]
            == settings_in(second)[key],
        settings_in(first).contains_key(key) && !settings_in(second).contains_key(key)
            ==> settings_in(first.push('\n') + second)[key] == settings_in(first)[key],
{
    text::splitting_goes_on(first, '\n', second);
    later_lines_go_on(text::split(first, '\n'), text::split(second, '\n'), key);
}

/// What lines set is what the later of them set, and else what the earlier do.
proof fn later_lines_go_on(first: Seq<Seq<char>>, second: Seq<Seq<char>>, key: Seq<char>)
    ensures
        settings(first + second).contains_key(key) <==> settings(first).contains_key(key)
            || settings(second).contains_key(key),
        settings(second).contains_key(key) ==> settings(first + second)[key]
            == settings(second)[key],
        settings(first).contains_key(key) && !settings(second).contains_key(key) ==> settings(
            first + second,
        )[key] == settings(first)[key],
    decreases second.len(),
{
    if second.len() == 0 {
        assert(first + second == first);
    } else {
        later_lines_go_on(first, second.drop_last(), key);
        assert((first + second).drop_last() == first + second.drop_last());
        assert((first + second).last() == second.last());
    }
}

/// What each key says is what the configuration has of it: texts where they are
/// given and not blank, a memory limit of so many times 1024 times 1024 bytes, and
/// a percentage that is 100 where none is given. Other keys do not matter.
pub proof fn a_configuration_is_what_its_keys_say(
    values: Map<Seq<char>, Seq<char>>,
    reading: Reading,
    config: ConfigModel,
)
    requires
        config_of(values, reading) == Ok::<ConfigModel, Seq<char>>(config),
    ensures
        config.test_env <==> values.contains_key("TEST_ENV"@) && text::same_ignoring_ascii_case(
            values["TEST_ENV"@],
            "true"@,
        ),
        config.cookie_name is Some <==> values.contains_key("COOKIE_NAME"@)
            && values["COOKIE_NAME"@].len() > 0,
        config.cookie_name matches Some(name) ==> name == values["COOKIE_NAME"@],
        config.user_id_url is Some <==> values.contains_key("USER_ID_URL"@)
            && values["USER_ID_URL"@].len() > 0,
        config.user_id_url matches Some(url) ==> url == values["USER_ID_URL"@],
        config.user_id_json is Some <==> values.contains_key("USER_ID_JSON"@)
            && values["USER_ID_JSON"@].len() > 0,
        config.user_id_json matches Some(path) ==> path == values["USER_ID_JSON"@],
        config.memory_limit_bytes is Some <==> values.contains_key("MEMORY_LIMIT_MB"@)
            && values["MEMORY_LIMIT_MB"@].len() > 0,
        config.memory_limit_bytes matches Some(bytes) ==> exists|mb: int|
            0 < mb && bytes == mb * 1024 * 1024 && #[trigger] number::integer_in(
                values["MEMORY_LIMIT_MB"@],
                0,
                mb,
            ) == Some(mb),
        config.memory_reject_pct == if values.contains_key("MEMORY_REJECT_PCT"@)
            && values["MEMORY_REJECT_PCT"@].len() > 0 {
            values["MEMORY_REJECT_PCT"@]
        } else {
            "100"@
        },
{
    if let Some(bytes) = config.memory_limit_bytes {
        let v = values["MEMORY_LIMIT_MB"@];
        let mb = number::integer_in(v, 0, (u64::MAX / 1048576) as int)->Some_0;
        assert(bytes == mb * 1048576);
        assert(number::integer_in(v, 0, mb) == Some(mb));
    }
    if values.contains_key("TEST_ENV"@) {
        reveal_strlit("true");
        reveal_strlit("false");
    }
}

/// A configuration is refused exactly where TEST_ENV is there and is neither
/// `true` nor `false`, the memory limit is given and is no number of megabytes
/// above zero that fits, or the percentage is given and is no number above zero.
pub proof fn only_wrong_values_are_refused(values: Map<Seq<char>, Seq<char>>, reading: Reading)
    ensures
        config_of(values, reading) is Err <==> {
            ||| values.contains_key("TEST_ENV"@) && !text::same_ignoring_ascii_case(
                values["TEST_ENV"@],
                "true"@,
            ) && !text::same_ignoring_ascii_case(values["TEST_ENV"@], "false"@)
            ||| values.contains_key("MEMORY_LIMIT_MB"@) && values["MEMORY_LIMIT_MB"@].len() > 0
                && number::integer_in(values["MEMORY_LIMIT_MB"@], 1, 17592186044415) is None
            ||| values.contains_key("MEMORY_REJECT_PCT"@) && values["MEMORY_REJECT_PCT"@].len() > 0
                && !(reading is Positive)
        },
{
    let v = values["MEMORY_LIMIT_MB"@];
    assert(u64::MAX / 1048576 == 17592186044415);
    assert(number::integer_in(v, 1, 17592186044415) is Some <==> (number::integer_in(
        v,
        0,
        17592186044415,
    ) is Some && number::integer_in(v, 0, 17592186044415) != Some(0int)));
}

/// Where nothing is set, the instance is no test instance, asks for no cookie and
/// no identity, has no memory limit, and would refuse connections at 100 percent.
pub proof fn defaults_are_plain()
    ensures
        ({
            let config = ConfigModel::defaults();
            &&& !config.test_env
            &&& config.cookie_name is None
            &&& config.user_id_url is None
            &&& config.user_id_json is None
            &&& config.memory_limit_bytes is None
            &&& config.memory_reject_pct == "100"@
        }),
{
}

/// A configuration is seen as it is, setting by setting.
pub proof fn a_configuration_is_seen_whole(config: Config, bytes: u64)
    ensures
        config@.test_env == config.test_env,
        config.cookie_name matches Some(name) ==> config@.cookie_name == Some(name@),
        config.cookie_name is None ==> config@.cookie_name is None,
        config.user_id_url matches Some(url) ==> config@.user_id_url == Some(url@),
        config.user_id_url is None ==> config@.user_id_url is None,
        config.user_id_json matches Some(path) ==> config@.user_id_json == Some(path@),
        config.user_id_json is None ==> config@.user_id_json is None,
        config@.memory_limit_bytes is Some <==> config.memory_limit_bytes is Some,
        config.memory_limit_bytes == Some(bytes) ==> config@.memory_limit_bytes == Some(
            bytes as int,
        ),
        config@.memory_reject_pct == config.memory_reject_pct@,
{
}

} // verus!
