//! JSON values: the library's own representation, and its text form as
//! `serde_json` reads and writes it.
use crate::text::same_text;
use vstd::prelude::*;

verus! {

/// `serde_json`'s number type, carried but never looked into.
#[verifier::external_type_specification]
#[verifier::external_body]
pub struct ExNumber(serde_json::Number);

/// `serde_json`'s value type: a tree of JSON values.
#[verifier::external_type_specification]
#[verifier::external_body]
pub struct ExValue(serde_json::Value);

/// A JSON number that is not an integer in the range of `i64`, as `serde_json`
/// represents it.
pub struct Decimal {
    number: serde_json::Number,
}

impl Decimal {
    /// The number itself.
    pub closed spec fn spec_number(self) -> serde_json::Number {
        self.number
    }

    /// The number itself.
    pub fn number(&self) -> (r: &serde_json::Number)
        ensures
            *r == self.spec_number(),
    {
        &self.number
    }
}

/// A JSON value. Where an object's fields name one key twice, the later field
/// is the one that counts.
pub enum Json {
    Null,
    Bool(bool),
    Int(i64),
    Decimal(Decimal),
    Text(String),
    Array(Vec<Json>),
    Object(Vec<(String, Json)>),
}

/// What a [`Json`] value denotes.
pub enum JsonModel {
    Null,
    Bool(bool),
    Int(int),
    Decimal(Decimal),
    Text(Seq<char>),
    Array(Seq<JsonModel>),
    Object(Map<Seq<char>, JsonModel>),
}

/// What a run of array items denotes.
pub open spec fn items_model(items: Seq<Json>) -> Seq<JsonModel>
    decreases items,
{
    if items.len() == 0 {
        seq![]
    } else {
        items_model(items.drop_last()).push(items.last().model())
    }
}

/// What a run of object fields denotes: later fields replace earlier ones.
pub open spec fn fields_model(fields: Seq<(String, Json)>) -> Map<Seq<char>, JsonModel>
    decreases fields,
{
    if fields.len() == 0 {
        Map::empty()
    } else {
        fields_model(fields.drop_last()).insert(fields.last().0@, fields.last().1.model())
    }
}

impl Json {
    /// What the value denotes.
    pub open spec fn model(self) -> JsonModel
        decreases self,
    {
        match self {
            Json::Null => JsonModel::Null,
            Json::Bool(b) => JsonModel::Bool(b),
            Json::Int(i) => JsonModel::Int(i as int),
            Json::Decimal(d) => JsonModel::Decimal(d),
            Json::Text(s) => JsonModel::Text(s@),
            Json::Array(items) => JsonModel::Array(items_model(items@)),
            Json::Object(fields) => JsonModel::Object(fields_model(fields@)),
        }
    }
}

impl View for Json {
    type V = JsonModel;

    open spec fn view(&self) -> JsonModel {
        self.model()
    }
}

impl JsonModel {
    /// The value of an object's field; nothing where there is no such field
    /// or the value is no object.
    pub open spec fn get(self, key: Seq<char>) -> Option<JsonModel> {
        match self {
            JsonModel::Object(fields) => if fields.contains_key(key) {
                Some(fields[key])
            } else {
                None
            },
            _ => None,
        }
    }

    /// The value of an object's field, or null.
    pub open spec fn field(self, key: Seq<char>) -> JsonModel {
        match self.get(key) {
            Some(value) => value,
            None => JsonModel::Null,
        }
    }

    /// The text the value is, if it is one.
    pub open spec fn as_text(self) -> Option<Seq<char>> {
        match self {
            JsonModel::Text(s) => Some(s),
            _ => None,
        }
    }

    /// The integer the value is, if it is one.
    pub open spec fn as_int(self) -> Option<int> {
        match self {
            JsonModel::Int(i) => Some(i),
            _ => None,
        }
    }

    /// Whether the value is a number.
    pub open spec fn is_number(self) -> bool {
        self is Int || self is Decimal
    }
}

impl JsonModel {
    /// The object without fields.
    pub open spec fn empty() -> JsonModel {
        JsonModel::Object(Map::empty())
    }

    /// An object with one more field, or with a field replaced.
    pub open spec fn with(self, key: Seq<char>, value: JsonModel) -> JsonModel {
        JsonModel::Object(self->Object_0.insert(key, value))
    }
}

/// The items of an array keep their places.
pub proof fn items_model_index(items: Seq<Json>)
    ensures
        items_model(items).len() == items.len(),
        forall|i: int| 0 <= i < items.len() ==> #[trigger] items_model(items)[i] == items[i]@,
    decreases items.len(),
{
    if items.len() > 0 {
        items_model_index(items.drop_last());
        assert forall|i: int| 0 <= i < items.len() implies #[trigger] items_model(items)[i]
            == items[i]@ by {
            if i < items.len() - 1 {
                assert(items.drop_last()[i] == items[i]);
                assert(items_model(items)[i] == items_model(items.drop_last())[i]);
            }
        }
    }
}

/// A key's value is that of the last field that names it.
proof fn fields_model_last(fields: Seq<(String, Json)>, key: Seq<char>, i: int)
    requires
        0 <= i < fields.len(),
        fields[i].0@ == key,
        forall|j: int| i < j < fields.len() ==> (#[trigger] fields[j]).0@ != key,
    ensures
        fields_model(fields).contains_key(key),
        fields_model(fields)[key] == fields[i].1@,
    decreases fields.len(),
{
    if i < fields.len() - 1 {
        assert(fields[fields.len() - 1].0@ != key);
        assert(fields.drop_last()[i] == fields[i]);
        assert forall|j: int| i < j < fields.drop_last().len() implies (
        #[trigger] fields.drop_last()[j]).0@ != key by {
            assert(fields.drop_last()[j] == fields[j]);
        }
        fields_model_last(fields.drop_last(), key, i);
    }
}

/// A key that no field names has no value.
proof fn fields_model_absent(fields: Seq<(String, Json)>, key: Seq<char>)
    requires
        forall|j: int| 0 <= j < fields.len() ==> (#[trigger] fields[j]).0@ != key,
    ensures
        !fields_model(fields).contains_key(key),
    decreases fields.len(),
{
    if fields.len() > 0 {
        assert(fields[fields.len() - 1].0@ != key);
        assert forall|j: int| 0 <= j < fields.drop_last().len() implies (
        #[trigger] fields.drop_last()[j]).0@ != key by {
            assert(fields.drop_last()[j] == fields[j]);
        }
        fields_model_absent(fields.drop_last(), key);
    }
}

impl Json {
    /// The value of an object's field.
    pub fn get(&self, key: &str) -> (r: Option<&Json>)
        ensures
            r is Some <==> self@.get(key@) is Some,
            r matches Some(value) ==> self@.get(key@) == Some(value@),
    {
        match self {
            Json::Object(fields) => {
                let mut i: usize = fields.len();
                while i > 0
                    invariant
                        *self == Json::Object(*fields),
                        i <= fields.len(),
                        forall|j: int| i <= j < fields.len() ==> (#[trigger] fields@[j]).0@ != key@,
                    decreases i,
                {
                    i = i - 1;
                    if same_text(fields[i].0.as_str(), key) {
                        proof {
                            fields_model_last(fields@, key@, i as int);
                        }
                        return Some(&fields[i].1);
                    }
                }
                proof {
                    fields_model_absent(fields@, key@);
                }
                None
            },
            _ => None,
        }
    }

    /// The text an object's field holds, if it holds one.
    pub fn text_at(&self, key: &str) -> (r: Option<&str>)
        ensures
            r is Some <==> self@.field(key@).as_text() is Some,
            r matches Some(s) ==> self@.field(key@).as_text() == Some(s@),
    {
        match self.get(key) {
            Some(Json::Text(s)) => Some(s.as_str()),
            _ => None,
        }
    }

    /// The integer an object's field holds, if it holds one.
    pub fn int_at(&self, key: &str) -> (r: Option<i64>)
        ensures
            r is Some <==> self@.field(key@).as_int() is Some,
            r matches Some(i) ==> self@.field(key@).as_int() == Some(i as int),
    {
        match self.get(key) {
            Some(Json::Int(i)) => Some(*i),
            _ => None,
        }
    }

    /// Whether an object's field holds a number.
    pub fn number_at(&self, key: &str) -> (r: bool)
        ensures
            r == self@.field(key@).is_number(),
    {
        match self.get(key) {
            Some(Json::Int(_)) => true,
            Some(Json::Decimal(_)) => true,
            _ => false,
        }
    }

    /// A copy of an object's field, or null.
    pub fn copy_at(&self, key: &str) -> (r: Json)
        ensures
            r@ == self@.field(key@),
    {
        match self.get(key) {
            Some(value) => value.copy(),
            None => Json::Null,
        }
    }

    /// The object without fields.
    pub fn empty() -> (r: Json)
        ensures
            r@ == JsonModel::empty(),
    {
        Json::Object(Vec::new())
    }

    /// The object with one more field, or with a field replaced.
    pub fn with(self, key: &str, value: Json) -> (r: Json)
        requires
            self is Object,
        ensures
            r is Object,
            r@ == self@.with(key@, value@),
    {
        match self {
            Json::Object(fields) => {
                let mut fields = fields;
                let ghost before = fields@;
                fields.push((key.to_owned(), value));
                assert(fields@.drop_last() == before);
                Json::Object(fields)
            },
            other => other,
        }
    }

    /// A copy of the value.
    pub fn copy(&self) -> (r: Json)
        ensures
            r@ == self@,
        decreases self,
    {
        match self {
            Json::Null => Json::Null,
            Json::Bool(b) => Json::Bool(*b),
            Json::Int(i) => Json::Int(*i),
            Json::Decimal(d) => Json::Decimal(Decimal { number: d.number.clone() }),
            Json::Text(s) => Json::Text(s.clone()),
            Json::Array(items) => {
                let mut copies: Vec<Json> = Vec::new();
                for i in 0..items.len()
                    invariant
                        *self == Json::Array(*items),
                        items_model(copies@) == items_model(items@.take(i as int)),
                {
                    proof {
                        assert(decreases_to!(*self => (*self)->Array_0));
                        assert(decreases_to!(*items => items@));
                        assert(decreases_to!(items@ => items@[i as int]));
                    }
                    let c = items[i].copy();
                    proof {
                        assert(copies@.push(c).drop_last() == copies@);
                        assert(items@.take(i + 1).drop_last() == items@.take(i as int));
                    }
                    copies.push(c);
                }
                assert(items@.take(items@.len() as int) == items@);
                Json::Array(copies)
            },
            Json::Object(fields) => {
                let mut copies: Vec<(String, Json)> = Vec::new();
                for i in 0..fields.len()
                    invariant
                        *self == Json::Object(*fields),
                        fields_model(copies@) == fields_model(fields@.take(i as int)),
                {
                    proof {
                        assert(decreases_to!(*self => (*self)->Object_0));
                        assert(decreases_to!(*fields => fields@));
                        assert(decreases_to!(fields@ => fields@[i as int]));
                        assert(decreases_to!(fields@[i as int] => fields@[i as int].1));
                    }
                    let c = (fields[i].0.clone(), fields[i].1.copy());
                    proof {
                        assert(copies@.push(c).drop_last() == copies@);
                        assert(fields@.take(i + 1).drop_last() == fields@.take(i as int));
                    }
                    copies.push(c);
                }
                assert(fields@.take(fields@.len() as int) == fields@);
                Json::Object(copies)
            },
        }
    }
}

/// Copies a number (`serde_json::Number`'s derived `Clone`): the copy is the
/// number.
pub assume_specification[ <serde_json::Number as Clone>::clone ](
    n: &serde_json::Number,
) -> (r: serde_json::Number)
    ensures
        r == *n,
;

// ---------------------------------------------------------------------------
// The text form
// ---------------------------------------------------------------------------

/// What a `serde_json::Value` holds.
pub uninterp spec fn value_model(value: serde_json::Value) -> JsonModel;

/// What `serde_json` reads a text as; nothing where the text is not JSON.
pub uninterp spec fn parsed(text: Seq<char>) -> Option<JsonModel>;

/// The compact text that `serde_json` writes for a value.
pub uninterp spec fn rendered(value: JsonModel) -> Seq<char>;

/// One level of a `serde_json::Value`, its children still unopened.
enum Layer {
    Null,
    Bool(bool),
    Int(i64),
    Decimal(Decimal),
    Text(String),
    Array(Vec<serde_json::Value>),
    Object(Vec<(String, serde_json::Value)>),
}

/// What a run of unopened items denotes.
spec fn values_model(values: Seq<serde_json::Value>) -> Seq<JsonModel> {
    values.map_values(|v: serde_json::Value| value_model(v))
}

/// What a run of unopened fields denotes: later fields replace earlier ones.
spec fn entries_model(entries: Seq<(String, serde_json::Value)>) -> Map<
    Seq<char>,
    JsonModel,
>
    decreases entries.len(),
{
    if entries.len() == 0 {
        Map::empty()
    } else {
        entries_model(entries.drop_last()).insert(
            entries.last().0@,
            value_model(entries.last().1),
        )
    }
}

/// Whether no two fields name the same key.
spec fn distinct_keys(entries: Seq<(String, serde_json::Value)>) -> bool {
    forall|i: int, j: int|
        0 <= i < j < entries.len() ==> (#[trigger] entries[i]).0@ != (#[trigger] entries[j]).0@
}

/// What a level denotes.
spec fn layer_model(layer: Layer) -> JsonModel {
    match layer {
        Layer::Null => JsonModel::Null,
        Layer::Bool(b) => JsonModel::Bool(b),
        Layer::Int(i) => JsonModel::Int(i as int),
        Layer::Decimal(d) => JsonModel::Decimal(d),
        Layer::Text(s) => JsonModel::Text(s@),
        Layer::Array(values) => JsonModel::Array(values_model(values@)),
        Layer::Object(entries) => JsonModel::Object(entries_model(entries@)),
    }
}

/// Whether `serde_json` reads back what it writes for a value: every number in
/// it is an integer in the range of `i64`, no key in it begins with `$`, and
/// arrays and objects are nested at most `depth` deep.
pub open spec fn reads_back(value: JsonModel, depth: nat) -> bool
    decreases depth,
{
    match value {
        JsonModel::Decimal(_) => false,
        JsonModel::Int(i) => i64::MIN <= i <= i64::MAX,
        JsonModel::Array(items) => depth > 0 && forall|i: int|
            0 <= i < items.len() ==> reads_back(#[trigger] items[i], (depth - 1) as nat),
        JsonModel::Object(fields) => depth > 0 && forall|key: Seq<char>| #[trigger]
            fields.contains_key(key) ==> (key.len() == 0 || key[0] != '$') && reads_back(
                fields[key],
                (depth - 1) as nat,
            ),
        _ => true,
    }
}

/// Whether `serde_json` writes a value as text that has the value's shape: as
/// [`reads_back`], but with any numbers.
pub open spec fn keeps_shape(value: JsonModel, depth: nat) -> bool
    decreases depth,
{
    match value {
        JsonModel::Int(i) => i64::MIN <= i <= i64::MAX,
        JsonModel::Array(items) => depth > 0 && forall|i: int|
            0 <= i < items.len() ==> keeps_shape(#[trigger] items[i], (depth - 1) as nat),
        JsonModel::Object(fields) => depth > 0 && forall|key: Seq<char>| #[trigger]
            fields.contains_key(key) ==> (key.len() == 0 || key[0] != '$') && keeps_shape(
                fields[key],
                (depth - 1) as nat,
            ),
        _ => true,
    }
}

/// Whether two values are the same but for numbers that are not integers in
/// the range of `i64`.
pub open spec fn resembles(a: JsonModel, b: JsonModel, depth: nat) -> bool
    decreases depth,
{
    match a {
        JsonModel::Decimal(_) => b is Decimal,
        JsonModel::Array(items) => {
            &&& depth > 0
            &&& b is Array
            &&& items.len() == b->Array_0.len()
            &&& forall|i: int|
                0 <= i < items.len() ==> resembles(
                    #[trigger] items[i],
                    b->Array_0[i],
                    (depth - 1) as nat,
                )
        },
        JsonModel::Object(fields) => {
            &&& depth > 0
            &&& b is Object
            &&& fields.dom() == b->Object_0.dom()
            &&& forall|key: Seq<char>| #[trigger]
                fields.contains_key(key) ==> resembles(
                    fields[key],
                    b->Object_0[key],
                    (depth - 1) as nat,
                )
        },
        _ => a == b,
    }
}

/// The deepest nesting of arrays and objects that `serde_json` reads.
pub const DEPTH_LIMIT: u64 = 127;

/// Reads a text (`serde_json::from_str`): the result is that text's, and
/// nothing else's.
#[verifier::external_body]
fn parse_value(text: &str) -> (r: Option<serde_json::Value>)
    ensures
        r is Some <==> parsed(text@) is Some,
        r matches Some(value) ==> parsed(text@) == Some(value_model(value)),
{
    serde_json::from_str(text).ok()
}

/// Takes the outermost level off a `serde_json::Value`: its variant and what
/// the variant holds. An object's keys are distinct. A number that
/// `Number::as_i64` gives is an integer, any other is kept as it is.
#[verifier::external_body]
fn open_value(value: serde_json::Value) -> (r: Layer)
    ensures
        layer_model(r) == value_model(value),
        r matches Layer::Object(entries) ==> distinct_keys(entries@),
{
    match value {
        serde_json::Value::Null => Layer::Null,
        serde_json::Value::Bool(b) => Layer::Bool(b),
        serde_json::Value::Number(number) => match number.as_i64() {
            Some(i) => Layer::Int(i),
            None => Layer::Decimal(Decimal { number }),
        },
        serde_json::Value::String(s) => Layer::Text(s),
        serde_json::Value::Array(values) => Layer::Array(values),
        serde_json::Value::Object(fields) => Layer::Object(fields.into_iter().collect()),
    }
}

/// Puts an outermost level around `serde_json::Value`s: the variant that holds
/// them. Collecting fields into an object keeps the last of equal keys.
#[verifier::external_body]
fn close_value(layer: Layer) -> (r: serde_json::Value)
    ensures
        value_model(r) == layer_model(layer),
{
    match layer {
        Layer::Null => serde_json::Value::Null,
        Layer::Bool(b) => serde_json::Value::Bool(b),
        Layer::Int(i) => serde_json::Value::from(i),
        Layer::Decimal(d) => serde_json::Value::Number(d.number),
        Layer::Text(s) => serde_json::Value::String(s),
        Layer::Array(values) => serde_json::Value::Array(values),
        Layer::Object(entries) => serde_json::Value::Object(entries.into_iter().collect()),
    }
}

/// Writes a `serde_json::Value` as compact text (its `Display`). Reading that
/// text gives the value back where [`reads_back`] holds. A fraction may come
/// back changed in its last digits, or be too large to be read: where
/// [`keeps_shape`] holds and the text can be read, all else comes back.
#[verifier::external_body]
fn value_text(value: &serde_json::Value) -> (r: String)
    ensures
        r@ == rendered(value_model(*value)),
        reads_back(value_model(*value), DEPTH_LIMIT as nat) ==> parsed(r@) == Some(
            value_model(*value),
        ),
        keeps_shape(value_model(*value), DEPTH_LIMIT as nat) ==> (parsed(r@) matches Some(read)
            ==> resembles(value_model(*value), read, DEPTH_LIMIT as nat)),
{
    value.to_string()
}

/// Every field of an object with distinct keys is in what it denotes.
proof fn entries_model_holds(entries: Seq<(String, serde_json::Value)>, i: int)
    requires
        distinct_keys(entries),
        0 <= i < entries.len(),
    ensures
        entries_model(entries).contains_key(entries[i].0@),
        entries_model(entries)[entries[i].0@] == value_model(entries[i].1),
    decreases entries.len(),
{
    if i < entries.len() - 1 {
        let before = entries.drop_last();
        assert(before[i] == entries[i]);
        assert(distinct_keys(before)) by {
            assert forall|a: int, b: int| 0 <= a < b < before.len() implies (
            #[trigger] before[a]).0@ != (#[trigger] before[b]).0@ by {
                assert(before[a] == entries[a] && before[b] == entries[b]);
            }
        }
        entries_model_holds(before, i);
        assert(entries[i].0@ != entries[entries.len() - 1].0@);
    }
}

/// What fields denote is finite.
proof fn entries_model_finite(entries: Seq<(String, serde_json::Value)>)
    ensures
        entries_model(entries).dom().finite(),
    decreases entries.len(),
{
    if entries.len() > 0 {
        entries_model_finite(entries.drop_last());
    }
}

/// The library's form of a `serde_json::Value`.
pub fn from_value(value: serde_json::Value) -> (r: Json)
    ensures
        r@ == value_model(value),
    decreases value_model(value),
{
    let ghost whole = value_model(value);
    let layer = open_value(value);
    match layer {
        Layer::Null => Json::Null,
        Layer::Bool(b) => Json::Bool(b),
        Layer::Int(i) => Json::Int(i),
        Layer::Decimal(d) => Json::Decimal(d),
        Layer::Text(s) => Json::Text(s),
        Layer::Array(values) => {
            let ghost all = values@;
            let mut items: Vec<Json> = Vec::new();
            for v in it: values
                invariant
                    it.seq() == all,
                    whole == value_model(value),
                    whole == JsonModel::Array(values_model(all)),
                    items_model(items@) == values_model(all.take(it.index() as int)),
            {
                proof {
                    let i = it.index() as int;
                    assert(values_model(all)[i] == value_model(v));
                    assert(decreases_to!(whole => whole->Array_0));
                    assert(decreases_to!(whole->Array_0 => whole->Array_0[i]));
                }
                let item = from_value(v);
                proof {
                    let i = it.index() as int;
                    assert(items@.push(item).drop_last() == items@);
                    assert(values_model(all.take(i + 1)) == values_model(all.take(i)).push(
                        value_model(all[i]),
                    ));
                }
                items.push(item);
            }
            assert(all.take(all.len() as int) == all);
            Json::Array(items)
        },
        Layer::Object(entries) => {
            let ghost all = entries@;
            let mut fields: Vec<(String, Json)> = Vec::new();
            for entry in it: entries
                invariant
                    it.seq() == all,
                    distinct_keys(all),
                    whole == value_model(value),
                    whole == JsonModel::Object(entries_model(all)),
                    fields_model(fields@) == entries_model(all.take(it.index() as int)),
            {
                proof {
                    let i = it.index() as int;
                    entries_model_holds(all, i);
                    entries_model_finite(all);
                    let m = whole->Object_0;
                    assert(decreases_to!(whole => whole->Object_0));
                    assert(decreases_to!(m => m[all[i].0@]));
                }
                let (key, v) = entry;
                let field = (key, from_value(v));
                proof {
                    let i = it.index() as int;
                    assert(fields@.push(field).drop_last() == fields@);
                    assert(all.take(i + 1).drop_last() == all.take(i));
                }
                fields.push(field);
            }
            assert(all.take(all.len() as int) == all);
            Json::Object(fields)
        },
    }
}

/// The `serde_json::Value` of the library's form.
pub fn to_value(json: &Json) -> (r: serde_json::Value)
    ensures
        value_model(r) == json@,
    decreases json,
{
    let layer = match json {
        Json::Null => Layer::Null,
        Json::Bool(b) => Layer::Bool(*b),
        Json::Int(i) => Layer::Int(*i),
        Json::Decimal(d) => Layer::Decimal(Decimal { number: d.number.clone() }),
        Json::Text(s) => Layer::Text(s.clone()),
        Json::Array(items) => {
            let mut values: Vec<serde_json::Value> = Vec::new();
            for i in 0..items.len()
                invariant
                    *json == Json::Array(*items),
                    values_model(values@) == items_model(items@.take(i as int)),
            {
                proof {
                    assert(decreases_to!(*json => (*json)->Array_0));
                    assert(decreases_to!(*items => items@));
                    assert(decreases_to!(items@ => items@[i as int]));
                }
                let v = to_value(&items[i]);
                proof {
                    assert(items@.take(i + 1).drop_last() == items@.take(i as int));
                    assert(values_model(values@.push(v)) == values_model(values@).push(
                        value_model(v),
                    ));
                }
                values.push(v);
            }
            assert(items@.take(items@.len() as int) == items@);
            Layer::Array(values)
        },
        Json::Object(fields) => {
            let mut entries: Vec<(String, serde_json::Value)> = Vec::new();
            for i in 0..fields.len()
                invariant
                    *json == Json::Object(*fields),
                    entries_model(entries@) == fields_model(fields@.take(i as int)),
            {
                proof {
                    assert(decreases_to!(*json => (*json)->Object_0));
                    assert(decreases_to!(*fields => fields@));
                    assert(decreases_to!(fields@ => fields@[i as int]));
                    assert(decreases_to!(fields@[i as int] => fields@[i as int].1));
                }
                let entry = (fields[i].0.clone(), to_value(&fields[i].1));
                proof {
                    assert(fields@.take(i + 1).drop_last() == fields@.take(i as int));
                    assert(entries@.push(entry).drop_last() == entries@);
                }
                entries.push(entry);
            }
            assert(fields@.take(fields@.len() as int) == fields@);
            Layer::Object(entries)
        },
    };
    close_value(layer)
}

impl Json {
    /// Reads a text as JSON.
    pub fn parse(text: &str) -> (r: Option<Json>)
        ensures
            r is Some <==> parsed(text@) is Some,
            r matches Some(json) ==> parsed(text@) == Some(json@),
    {
        match parse_value(text) {
            Some(value) => Some(from_value(value)),
            None => None,
        }
    }

    /// Writes the value as compact text. That text reads back as the value
    /// wherever [`reads_back`] holds; where [`keeps_shape`] does and the text
    /// can be read, it reads back as the value but for its fractions.
    pub fn render(&self) -> (r: String)
        ensures
            r@ == rendered(self@),
            reads_back(self@, DEPTH_LIMIT as nat) ==> parsed(r@) == Some(self@),
            keeps_shape(self@, DEPTH_LIMIT as nat) ==> (parsed(r@) matches Some(read)
                ==> resembles(self@, read, DEPTH_LIMIT as nat)),
    {
        value_text(&to_value(self))
    }
}

/// What is put into an object is what is found there under its key, and every
/// other field is as it was; the object without fields has none.
pub proof fn fields_are_found_where_they_were_put(
    value: JsonModel,
    key: Seq<char>,
    field: JsonModel,
    other: Seq<char>,
)
    requires
        value is Object,
    ensures
        value.with(key, field) is Object,
        value.with(key, field).get(key) == Some(field),
        other != key ==> value.with(key, field).get(other) == value.get(other),
        JsonModel::empty().get(key) is None,
        value.field(key) == match value.get(key) {
            Some(found) => found,
            None => JsonModel::Null,
        },
{
}

/// Only an object has fields, only a text is a text, and only integers and
/// decimals are numbers.
pub proof fn values_are_what_they_are(value: JsonModel, key: Seq<char>, s: Seq<char>, i: int)
    ensures
        !(value is Object) ==> value.get(key) is None && value.field(key) is Null,
        value matches JsonModel::Object(fields) ==> (value.get(key) is Some
            <==> fields.contains_key(key)),
        value.as_text() == Some(s) <==> value == JsonModel::Text(s),
        value.as_int() == Some(i) <==> value == JsonModel::Int(i),
        value.is_number() <==> value is Int || value is Decimal,
{
}

/// A value denotes what it holds: texts, numbers and items as they are, each item
/// at its place.
pub proof fn values_denote_what_they_hold(value: Json, i: int)
    ensures
        value is Null <==> value@ is Null,
        value matches Json::Bool(b) ==> value@ == JsonModel::Bool(b),
        value matches Json::Int(n) ==> value@ == JsonModel::Int(n as int),
        value matches Json::Decimal(d) ==> value@ == JsonModel::Decimal(d),
        value matches Json::Text(t) ==> value@ == JsonModel::Text(t@),
        value matches Json::Array(items) ==> value@ is Array && value@->Array_0.len()
            == items@.len() && (0 <= i < items@.len() ==> value@->Array_0[i] == items@[i]@),
{
    if let Json::Array(items) = value {
        items_model_index(items@);
    }
}

/// An object has a field exactly where some pair has its key, and the last of
/// them counts.
pub proof fn the_last_field_counts(fields: Seq<(String, Json)>, key: Seq<char>, i: int)
    ensures
        fields_model(fields).contains_key(key) <==> exists|j: int|
            0 <= j < fields.len() && (#[trigger] fields[j]).0@ == key,
        0 <= i < fields.len() && fields[i].0@ == key && (forall|j: int|
            i < j < fields.len() ==> (#[trigger] fields[j]).0@ != key) ==> fields_model(fields)[key]
            == fields[i].1@,
    decreases fields.len(),
{
    if fields.len() > 0 {
        let rest = fields.drop_last();
        let n = fields.len() - 1;
        the_last_field_counts(rest, key, i);
        if fields.last().0@ == key {
            assert(fields[n].0@ == key);
        }
        if fields_model(rest).contains_key(key) {
            let j = choose|j: int| 0 <= j < rest.len() && (#[trigger] rest[j]).0@ == key;
            assert(fields[j].0@ == key);
        }
        if exists|j: int| 0 <= j < fields.len() && (#[trigger] fields[j]).0@ == key {
            let j = choose|j: int| 0 <= j < fields.len() && (#[trigger] fields[j]).0@ == key;
            if j < n {
                assert(rest[j].0@ == key);
            }
        }
        if 0 <= i < n && fields[i].0@ == key && (forall|j: int|
            i < j < fields.len() ==> (#[trigger] fields[j]).0@ != key) {
            assert(fields[n].0@ != key);
            assert forall|j: int| i < j < rest.len() implies (#[trigger] rest[j]).0@ != key by {
                assert(fields[j].0@ != key);
            }
            assert(rest[i] == fields[i]);
        }
    }
}

} // verus!
