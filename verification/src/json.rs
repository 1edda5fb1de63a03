//! JSON values, and their text form, which the `serde_json` crate reads and
//! writes.
use crate::text::{is_blank, same_text};
use vstd::prelude::*;

verus! {

/// What a number is: an integer from zero up, an integer below zero, or a
/// number that is read as a floating point number (one with a fraction or an
/// exponent, or one out of range), by the bits of its representation.
pub enum NumberModel {
    Uint(u64),
    Int(i64),
    Real(u64),
}

/// A JSON value as a mathematical object. An object is a map: the order of
/// its members carries no meaning.
pub enum JsonModel {
    Null,
    Bool(bool),
    Number(NumberModel),
    Str(Seq<char>),
    Array(Seq<JsonModel>),
    Object(Map<Seq<char>, JsonModel>),
}

impl JsonModel {
    /// The member of an object with the given key, if there is one.
    pub open spec fn get(self, key: Seq<char>) -> Option<JsonModel> {
        match self {
            JsonModel::Object(members) => if members.contains_key(key) {
                Some(members[key])
            } else {
                None
            },
            _ => None,
        }
    }

    /// The items of the array at the given key. There are none if no array is
    /// there.
    pub open spec fn items_at(self, key: Seq<char>) -> Seq<JsonModel> {
        match self.get(key) {
            Some(JsonModel::Array(items)) => items,
            _ => Seq::empty(),
        }
    }

    /// The text at the given key, if one is there.
    pub open spec fn text_at(self, key: Seq<char>) -> Option<Seq<char>> {
        match self.get(key) {
            Some(JsonModel::Str(text)) => Some(text),
            _ => None,
        }
    }
}

/// An object without members.
pub open spec fn empty_object() -> JsonModel {
    JsonModel::Object(Map::empty())
}

/// Whether arrays and objects are nested at most `depth` levels deep.
pub open spec fn nested_within(value: JsonModel, depth: nat) -> bool
    decreases depth,
{
    match value {
        JsonModel::Array(items) => depth > 0 && forall|i: int|
            0 <= i < items.len() ==> nested_within(#[trigger] items[i], (depth - 1) as nat),
        JsonModel::Object(members) => depth > 0 && forall|key: Seq<char>|
            members.contains_key(key) ==> nested_within(
                #[trigger] members[key],
                (depth - 1) as nat,
            ),
        _ => true,
    }
}

/// Whether a number is read again after it was written: as it was, if `exact`
/// is set, which is not asked of a floating point number, as that may come back
/// changed in its last place; or at all, which a floating point number is if it
/// is below two to the power of 1023, by the bits of its representation without
/// the sign.
pub open spec fn number_fits(number: NumberModel, exact: bool) -> bool {
    number matches NumberModel::Real(bits) ==> !exact && bits % 0x8000_0000_0000_0000
        < 0x7fe0_0000_0000_0000
}

/// Whether the numbers of the upper `depth` levels are read again after they
/// were written.
pub open spec fn numbers_fit(value: JsonModel, depth: nat, exact: bool) -> bool
    decreases depth,
{
    match value {
        JsonModel::Number(number) => number_fits(number, exact),
        JsonModel::Array(items) => depth > 0 ==> forall|i: int|
            0 <= i < items.len() ==> numbers_fit(#[trigger] items[i], (depth - 1) as nat, exact),
        JsonModel::Object(members) => depth > 0 ==> forall|key: Seq<char>|
            members.contains_key(key) ==> numbers_fit(
                #[trigger] members[key],
                (depth - 1) as nat,
                exact,
            ),
        _ => true,
    }
}

/// The deepest nesting of arrays and objects that `serde_json` reads.
pub const MAX_DEPTH: usize = 127;

/// Whether a value is read back as it was written: it is not nested too
/// deeply, and holds no floating point number.
pub open spec fn reads_back(value: JsonModel) -> bool {
    nested_within(value, MAX_DEPTH as nat) && numbers_fit(value, MAX_DEPTH as nat, true)
}

/// Whether a value is read again after it was written: it is not nested too
/// deeply, and holds no floating point number that is too large.
pub open spec fn reads_again(value: JsonModel) -> bool {
    nested_within(value, MAX_DEPTH as nat) && numbers_fit(value, MAX_DEPTH as nat, false)
}

/// Whether two values, nested at most `depth` levels deep, are the same but
/// for what their floating point numbers are.
pub open spec fn alike(a: JsonModel, b: JsonModel, depth: nat) -> bool
    decreases depth,
{
    match (a, b) {
        (JsonModel::Number(NumberModel::Real(_)), JsonModel::Number(NumberModel::Real(_))) => true,
        (JsonModel::Array(x), JsonModel::Array(y)) => {
            &&& depth > 0
            &&& x.len() == y.len()
            &&& forall|i: int|
                0 <= i < x.len() ==> alike(#[trigger] x[i], y[i], (depth - 1) as nat)
        },
        (JsonModel::Object(x), JsonModel::Object(y)) => {
            &&& depth > 0
            &&& x.dom() == y.dom()
            &&& forall|key: Seq<char>|
                x.contains_key(key) ==> alike(#[trigger] x[key], y[key], (depth - 1) as nat)
        },
        _ => a == b,
    }
}

/// Whether a text is what is written for a value. Where it is read again, it
/// gives the same value but for floating point numbers.
pub open spec fn written_as(text: Seq<char>, value: JsonModel) -> bool {
    &&& text == json_pretty(value)
    &&& !is_blank(text)
    &&& reads_back(value) ==> json_outcome(text) == Ok::<JsonModel, Seq<char>>(value)
    &&& reads_again(value) ==> json_outcome(text) is Ok
    &&& json_outcome(text) matches Ok(again) ==> alike(value, again, MAX_DEPTH as nat)
}

/// A JSON value.
#[derive(Debug, PartialEq, Eq)]
pub enum Json {
    Null,
    Bool(bool),
    Number(serde_json::Number),
    Str(String),
    Array(Vec<Json>),
    /// The members of an object. Where a key occurs more than once, the last
    /// occurrence counts.
    Object(Vec<(String, Json)>),
}

/// What members stand for.
pub open spec fn members_model(members: Seq<(String, Json)>) -> Map<Seq<char>, JsonModel>
    decreases members,
{
    if members.len() == 0 {
        Map::empty()
    } else {
        members_model(members.drop_last()).insert(members.last().0@, members.last().1.model())
    }
}

/// What items stand for.
pub open spec fn items_model(items: Seq<Json>) -> Seq<JsonModel> {
    Seq::new(items.len(), |i: int| items[i].model())
}

impl Json {
    /// What a value stands for.
    pub open spec fn model(self) -> JsonModel
        decreases self,
    {
        match self {
            Json::Null => JsonModel::Null,
            Json::Bool(b) => JsonModel::Bool(b),
            Json::Number(n) => JsonModel::Number(number_held(n)),
            Json::Str(s) => JsonModel::Str(s@),
            Json::Array(items) => JsonModel::Array(
                Seq::new(
                    items@.len(),
                    |i: int|
                        if 0 <= i < items@.len() {
                            items@[i].model()
                        } else {
                            arbitrary()
                        },
                ),
            ),
            Json::Object(members) => JsonModel::Object(members_model(members@)),
        }
    }
}

impl View for Json {
    type V = JsonModel;

    open spec fn view(&self) -> JsonModel {
        self.model()
    }
}

/// An array stands for what its items stand for.
pub broadcast proof fn lemma_array_model(items: Vec<Json>)
    ensures
        #[trigger] Json::Array(items).model() == JsonModel::Array(items_model(items@)),
{
    assert(Json::Array(items).model()->Array_0 =~= items_model(items@));
}

/// The value of `serde_json`, which is opaque here.
#[verifier::external_type_specification]
#[verifier::external_body]
pub struct ExValue(serde_json::Value);

/// The number of `serde_json`, which is opaque here.
#[verifier::external_type_specification]
#[verifier::external_body]
pub struct ExNumber(serde_json::Number);

/// The error of `serde_json`, which is opaque here.
#[verifier::external_type_specification]
#[verifier::external_body]
pub struct ExError(serde_json::Error);

/// What a value of `serde_json` holds.
pub uninterp spec fn json_held(value: serde_json::Value) -> JsonModel;

/// What a number of `serde_json` holds.
pub uninterp spec fn number_held(number: serde_json::Number) -> NumberModel;

/// What an error of `serde_json` says.
pub uninterp spec fn error_said(error: serde_json::Error) -> Seq<char>;

/// What `serde_json` reads from a text: a value, or what is wrong with the
/// text.
pub uninterp spec fn json_outcome(text: Seq<char>) -> Result<JsonModel, Seq<char>>;

/// The indented text that `serde_json` writes for a value.
pub uninterp spec fn json_pretty(value: JsonModel) -> Seq<char>;

/// The outermost level of a value of `serde_json`.
pub enum Node {
    Null,
    Bool(bool),
    Number(serde_json::Number),
    Str(String),
    Array(Vec<serde_json::Value>),
    Object(Vec<(String, serde_json::Value)>),
}

/// What members hold.
pub open spec fn pairs_held(pairs: Seq<(String, serde_json::Value)>) -> Map<Seq<char>, JsonModel>
    decreases pairs.len(),
{
    if pairs.len() == 0 {
        Map::empty()
    } else {
        pairs_held(pairs.drop_last()).insert(pairs.last().0@, json_held(pairs.last().1))
    }
}

/// What items hold.
pub open spec fn items_held(items: Seq<serde_json::Value>) -> Seq<JsonModel> {
    Seq::new(items.len(), |i: int| json_held(items[i]))
}

/// Whether no two members have the same key.
pub open spec fn distinct_keys(pairs: Seq<(String, serde_json::Value)>) -> bool {
    forall|i: int, j: int|
        0 <= i < j < pairs.len() ==> (#[trigger] pairs[i]).0@ != (#[trigger] pairs[j]).0@
}

impl Node {
    /// What a value with this outermost level holds.
    pub open spec fn held(self) -> JsonModel {
        match self {
            Node::Null => JsonModel::Null,
            Node::Bool(b) => JsonModel::Bool(b),
            Node::Number(n) => JsonModel::Number(number_held(n)),
            Node::Str(s) => JsonModel::Str(s@),
            Node::Array(items) => JsonModel::Array(items_held(items@)),
            Node::Object(pairs) => JsonModel::Object(pairs_held(pairs@)),
        }
    }

    /// Whether no key of an object occurs twice.
    pub open spec fn keys_distinct(self) -> bool {
        self matches Node::Object(pairs) ==> distinct_keys(pairs@)
    }
}

/// `serde_json::from_str`, for a `serde_json::Value`. The text alone decides
/// what is read, or what the error says. A text that holds nothing but
/// whitespace is not read, nor one that nests arrays and objects deeper than
/// `MAX_DEPTH`.
#[verifier::external_body]
fn read_value(text: &str) -> (read: Result<serde_json::Value, serde_json::Error>)
    ensures
        match read {
            Ok(value) => {
                &&& json_outcome(text@) == Ok::<JsonModel, Seq<char>>(json_held(value))
                &&& nested_within(json_held(value), MAX_DEPTH as nat)
                &&& !is_blank(text@)
            },
            Err(error) => json_outcome(text@) == Err::<JsonModel, Seq<char>>(error_said(error)),
        },
{
    serde_json::from_str::<serde_json::Value>(text)
}

/// The text that `Display` gives for a `serde_json::Error`, which the error
/// alone decides.
#[verifier::external_body]
fn error_text(error: &serde_json::Error) -> (text: String)
    ensures
        text@ == error_said(*error),
{
    error.to_string()
}

/// `serde_json::to_string_pretty`, for a `serde_json::Value`. It succeeds, as
/// every key is a string. What the value holds alone decides the text. The
/// text is not blank. Reading it gives the same value again, if that is not
/// nested too deeply and holds no floating point number. A floating point
/// number is written with a fraction or an exponent, so that it is read as one
/// again. It may come back changed in its last place: it is read as an integer
/// times or over a power of ten, each rounded. Below two to the power of 1023
/// that is in range; nothing is said of whether a larger one is. If the text is
/// read, all else is the same.
#[verifier::external_body]
fn write_value(value: &serde_json::Value) -> (written: Result<String, serde_json::Error>)
    ensures
        match written {
            Ok(text) => {
                &&& text@ == json_pretty(json_held(*value))
                &&& !is_blank(text@)
                &&& reads_back(json_held(*value)) ==> json_outcome(text@) == Ok::<
                    JsonModel,
                    Seq<char>,
                >(json_held(*value))
                &&& reads_again(json_held(*value)) ==> json_outcome(text@) is Ok
                &&& match json_outcome(text@) {
                    Ok(again) => alike(json_held(*value), again, MAX_DEPTH as nat),
                    Err(_) => true,
                }
            },
            Err(_) => false,
        },
{
    serde_json::to_string_pretty(value)
}

/// `From<u64>` of `serde_json::Number`: the number is that integer.
#[verifier::external_body]
fn make_number(n: u64) -> (number: serde_json::Number)
    ensures
        number_held(number) == NumberModel::Uint(n),
{
    serde_json::Number::from(n)
}

/// The variants of `serde_json::Value`, and `IntoIterator` of
/// `serde_json::Map`: a value holds what its variant holds, and an object has
/// one member for each of its keys.
#[verifier::external_body]
fn open_value(value: serde_json::Value) -> (node: Node)
    ensures
        node.held() == json_held(value),
        node.keys_distinct(),
{
    match value {
        serde_json::Value::Null => Node::Null,
        serde_json::Value::Bool(b) => Node::Bool(b),
        serde_json::Value::Number(n) => Node::Number(n),
        serde_json::Value::String(s) => Node::Str(s),
        serde_json::Value::Array(items) => Node::Array(items),
        serde_json::Value::Object(members) => Node::Object(members.into_iter().collect()),
    }
}

/// The variants of `serde_json::Value`, and `FromIterator` of
/// `serde_json::Map`: a value holds what it is made of.
#[verifier::external_body]
fn build_value(node: Node) -> (value: serde_json::Value)
    requires
        node.keys_distinct(),
    ensures
        json_held(value) == node.held(),
{
    match node {
        Node::Null => serde_json::Value::Null,
        Node::Bool(b) => serde_json::Value::Bool(b),
        Node::Number(n) => serde_json::Value::Number(n),
        Node::Str(s) => serde_json::Value::String(s),
        Node::Array(items) => serde_json::Value::Array(items),
        Node::Object(pairs) => serde_json::Value::Object(pairs.into_iter().collect()),
    }
}

/// A member that occurs among distinct keys is what is held at its key.
proof fn lemma_pairs_held(pairs: Seq<(String, serde_json::Value)>, i: int)
    requires
        distinct_keys(pairs),
        0 <= i < pairs.len(),
    ensures
        pairs_held(pairs).contains_key(pairs[i].0@),
        pairs_held(pairs)[pairs[i].0@] == json_held(pairs[i].1),
        pairs_held(pairs).dom().finite(),
    decreases pairs.len(),
{
    let before = pairs.drop_last();
    lemma_pairs_finite(pairs);
    if i < before.len() {
        assert forall|k: int, j: int| 0 <= k < j < before.len() implies (#[trigger] before[k]).0@
            != (#[trigger] before[j]).0@ by {
            assert(pairs[k].0@ != pairs[j].0@);
        }
        lemma_pairs_held(before, i);
        assert(before[i] == pairs[i]);
        assert(pairs[i].0@ != pairs[pairs.len() - 1].0@);
    }
}

proof fn lemma_pairs_finite(pairs: Seq<(String, serde_json::Value)>)
    ensures
        pairs_held(pairs).dom().finite(),
    decreases pairs.len(),
{
    if pairs.len() > 0 {
        lemma_pairs_finite(pairs.drop_last());
    }
}

/// The library's form of a value of `serde_json`.
pub fn from_value(value: serde_json::Value) -> (json: Json)
    ensures
        json@ == json_held(value),
    decreases json_held(value),
{
    let ghost held = json_held(value);
    match open_value(value) {
        Node::Null => Json::Null,
        Node::Bool(b) => Json::Bool(b),
        Node::Number(n) => Json::Number(n),
        Node::Str(s) => Json::Str(s),
        Node::Array(items) => {
            let ghost all = items@;
            let mut out: Vec<Json> = Vec::new();
            for item in it: items
                invariant
                    it.seq() == all,
                    held == json_held(value),
                    held == JsonModel::Array(items_held(all)),
                    items_model(out@) == items_held(all.take(it.index() as int)),
            {
                let ghost i = it.index() as int;
                proof {
                    assert(item == all[i]);
                    assert(held->Array_0[i] == json_held(item));
                    assert(decreases_to!(held => held->Array_0));
                    assert(decreases_to!(held->Array_0 => held->Array_0[i]));
                }
                let ghost before = out@;
                out.push(from_value(item));
                assert(items_model(out@) =~= items_model(before).push(json_held(item)));
                assert(items_held(all.take(i + 1)) =~= items_held(all.take(i)).push(
                    json_held(item),
                ));
            }
            proof {
                assert(all.take(all.len() as int) =~= all);
                lemma_array_model(out);
            }
            Json::Array(out)
        },
        Node::Object(pairs) => {
            let ghost all = pairs@;
            let mut out: Vec<(String, Json)> = Vec::new();
            for pair in it: pairs
                invariant
                    it.seq() == all,
                    distinct_keys(all),
                    held == json_held(value),
                    held == JsonModel::Object(pairs_held(all)),
                    members_model(out@) == pairs_held(all.take(it.index() as int)),
            {
                let ghost i = it.index() as int;
                let (key, item) = pair;
                proof {
                    assert((key, item) == all[i]);
                    lemma_pairs_held(all, i);
                    assert(held->Object_0[key@] == json_held(item));
                    assert(decreases_to!(held => held->Object_0));
                    assert(decreases_to!(held->Object_0 => held->Object_0[key@]));
                    assert(all.take(i + 1).drop_last() =~= all.take(i));
                }
                let ghost before = out@;
                out.push((key, from_value(item)));
                assert(out@.drop_last() =~= before);
            }
            assert(all.take(all.len() as int) =~= all);
            Json::Object(out)
        },
    }
}

/// Whether a key is among those of members.
fn has_key(pairs: &Vec<(String, serde_json::Value)>, key: &str) -> (found: bool)
    requires
        distinct_keys(pairs@),
    ensures
        found == exists|i: int| 0 <= i < pairs@.len() && (#[trigger] pairs@[i]).0@ == key@,
        found == pairs_held(pairs@).contains_key(key@),
{
    let mut i: usize = 0;
    while i < pairs.len()
        invariant
            i <= pairs@.len(),
            distinct_keys(pairs@),
            forall|j: int| 0 <= j < i ==> (#[trigger] pairs@[j]).0@ != key@,
        decreases pairs@.len() - i,
    {
        if same_text(&pairs[i].0, key) {
            proof {
                lemma_pairs_held(pairs@, i as int);
            }
            return true;
        }
        i += 1;
    }
    proof {
        lemma_pairs_absent(pairs@, key@);
    }
    false
}

proof fn lemma_pairs_absent(pairs: Seq<(String, serde_json::Value)>, key: Seq<char>)
    requires
        forall|j: int| 0 <= j < pairs.len() ==> (#[trigger] pairs[j]).0@ != key,
    ensures
        !pairs_held(pairs).contains_key(key),
    decreases pairs.len(),
{
    if pairs.len() > 0 {
        let before = pairs.drop_last();
        assert forall|j: int| 0 <= j < before.len() implies (#[trigger] before[j]).0@ != key by {
            assert(before[j] == pairs[j]);
        }
        lemma_pairs_absent(before, key);
        assert(pairs[pairs.len() - 1].0@ != key);
    }
}

/// The value of `serde_json` for a value of the library.
pub fn to_value(json: Json) -> (value: serde_json::Value)
    ensures
        json_held(value) == json@,
    decreases json,
{
    match json {
        Json::Null => build_value(Node::Null),
        Json::Bool(b) => build_value(Node::Bool(b)),
        Json::Number(n) => build_value(Node::Number(n)),
        Json::Str(s) => build_value(Node::Str(s)),
        Json::Array(items) => {
            let ghost all = items@;
            let mut out: Vec<serde_json::Value> = Vec::new();
            proof {
                lemma_array_model(items);
            }
            for item in it: items
                invariant
                    it.seq() == all,
                    items@ == all,
                    json == Json::Array(items),
                    items_held(out@) == items_model(all.take(it.index() as int)),
            {
                let ghost i = it.index() as int;
                assert(item == all[i]);
                assert(decreases_to!(json => json->Array_0));
                assert(decreases_to!(items => items@));
                assert(decreases_to!(items@ => items@[i]));
                let ghost before = out@;
                out.push(to_value(item));
                assert(items_held(out@) =~= items_held(before).push(item.model()));
                assert(items_model(all.take(i + 1)) =~= items_model(all.take(i)).push(
                    item.model(),
                ));
            }
            assert(all.take(all.len() as int) =~= all);
            build_value(Node::Array(out))
        },
        Json::Object(members) => {
            // From the last member to the first, so that of members with the
            // same key the last one is kept.
            let ghost all = members@;
            let mut rest = members;
            let mut pairs: Vec<(String, serde_json::Value)> = Vec::new();
            assert(members_model(all).union_prefer_right(pairs_held(pairs@)) =~= members_model(
                all,
            ));
            while rest.len() > 0
                invariant
                    json == Json::Object(members),
                    all == members@,
                    rest@.len() <= all.len(),
                    rest@ == all.take(rest@.len() as int),
                    distinct_keys(pairs@),
                    members_model(rest@).union_prefer_right(pairs_held(pairs@)) == members_model(
                        all,
                    ),
                decreases rest@.len(),
            {
                let ghost n = rest@.len() - 1;
                let ghost last = all[n];
                let ghost upper = pairs_held(pairs@);
                let ghost lower = members_model(all.take(n));
                assert(rest@.drop_last() =~= all.take(n));
                match rest.pop() {
                    Some((key, item)) => {
                        proof {
                            assert(last == (key, item));
                            assert(decreases_to!(json => json->Object_0));
                            assert(decreases_to!(members => members@));
                            assert(decreases_to!(members@ => members@[n]));
                            assert(decreases_to!(members@[n] => members@[n].1));
                        }
                        if has_key(&pairs, &key) {
                            assert(lower.insert(key@, item.model()).union_prefer_right(upper)
                                =~= lower.union_prefer_right(upper));
                        } else {
                            let ghost before = pairs@;
                            pairs.push((key, to_value(item)));
                            proof {
                                assert(pairs@.drop_last() =~= before);
                                assert forall|i: int, j: int| 0 <= i < j < pairs@.len() implies (
                                #[trigger] pairs@[i]).0@ != (#[trigger] pairs@[j]).0@ by {
                                    assert(before[i].0@ != key@);
                                    if j < before.len() {
                                        assert(before[i].0@ != before[j].0@);
                                    }
                                }
                                assert(lower.insert(key@, item.model()).union_prefer_right(upper)
                                    =~= lower.union_prefer_right(
                                    upper.insert(key@, item.model()),
                                ));
                            }
                        }
                    },
                    None => {},
                }
            }
            assert(members_model(rest@).union_prefer_right(pairs_held(pairs@)) =~= pairs_held(
                pairs@,
            ));
            build_value(Node::Object(pairs))
        },
    }
}

/// Reads a JSON text. The error is what `serde_json` says is wrong with it.
pub fn read_json(text: &str) -> (read: Result<Json, String>)
    ensures
        match json_outcome(text@) {
            Ok(value) => {
                &&& read matches Ok(json) && json@ == value
                &&& nested_within(value, MAX_DEPTH as nat)
                &&& !is_blank(text@)
            },
            Err(said) => read matches Err(message) && message@ == said,
        },
{
    match read_value(text) {
        Ok(value) => Ok(from_value(value)),
        Err(error) => Err(error_text(&error)),
    }
}

/// Writes a JSON text, indented.
pub fn write_json(json: Json) -> (text: String)
    ensures
        written_as(text@, json@),
{
    let value = to_value(json);
    write_value(&value).unwrap()
}

/// An integer.
pub fn json_uint(n: u64) -> (json: Json)
    ensures
        json@ == JsonModel::Number(NumberModel::Uint(n)),
{
    Json::Number(make_number(n))
}

/// The last member with a key is the one that counts, and there is none if no
/// member has the key.
pub proof fn lemma_last_member(members: Seq<(String, Json)>, key: Seq<char>, i: int)
    requires
        -1 <= i < members.len(),
        i >= 0 ==> members[i].0@ == key,
        forall|j: int| i < j < members.len() ==> (#[trigger] members[j]).0@ != key,
    ensures
        members_model(members).contains_key(key) == (i >= 0),
        i >= 0 ==> members_model(members)[key] == members[i].1.model(),
    decreases members.len(),
{
    if members.len() > 0 && i < members.len() - 1 {
        let before = members.drop_last();
        assert(members[members.len() - 1].0@ != key);
        assert forall|j: int| i < j < before.len() implies (#[trigger] before[j]).0@ != key by {
            assert(before[j] == members[j]);
        }
        lemma_last_member(before, key, i);
    }
}

/// Without the last member with a key, what is held at all other keys stays.
proof fn lemma_remove_member(members: Seq<(String, Json)>, i: int)
    requires
        0 <= i < members.len(),
        forall|j: int| i < j < members.len() ==> (#[trigger] members[j]).0@ != members[i].0@,
    ensures
        members_model(members.remove(i)).remove(members[i].0@) == members_model(members).remove(
            members[i].0@,
        ),
    decreases members.len(),
{
    let key = members[i].0@;
    let before = members.drop_last();
    let last = members.last();
    if i == members.len() - 1 {
        assert(members.remove(i) =~= before);
        assert(members_model(before).remove(key) =~= members_model(members).remove(key));
    } else {
        assert forall|j: int| i < j < before.len() implies (#[trigger] before[j]).0@ != before[i].0@ by {
            assert(before[j] == members[j]);
        }
        lemma_remove_member(before, i);
        assert(members.remove(i).drop_last() =~= before.remove(i));
        assert(members.remove(i).last() == last);
        let a = members_model(before.remove(i));
        let b = members_model(before);
        assert(members_model(members.remove(i)) == a.insert(last.0@, last.1.model()));
        assert(a.insert(last.0@, last.1.model()).remove(key) =~= a.remove(key).insert(
            last.0@,
            last.1.model(),
        ));
        assert(b.insert(last.0@, last.1.model()).remove(key) =~= b.remove(key).insert(
            last.0@,
            last.1.model(),
        ));
    }
}

/// The position of the member with a key, if there is one.
fn find_member(members: &Vec<(String, Json)>, key: &str) -> (found: Option<usize>)
    ensures
        match found {
            Some(i) => {
                &&& i < members@.len()
                &&& members@[i as int].0@ == key@
                &&& forall|j: int| i < j < members@.len() ==> (#[trigger] members@[j]).0@ != key@
                &&& members_model(members@).contains_key(key@)
                &&& members_model(members@)[key@] == members@[i as int].1.model()
            },
            None => !members_model(members@).contains_key(key@),
        },
{
    let mut i: usize = members.len();
    while i > 0
        invariant
            i <= members@.len(),
            forall|j: int| i <= j < members@.len() ==> (#[trigger] members@[j]).0@ != key@,
        decreases i,
    {
        i -= 1;
        if same_text(&members[i].0, key) {
            proof {
                lemma_last_member(members@, key@, i as int);
            }
            return Some(i);
        }
    }
    proof {
        lemma_last_member(members@, key@, -1);
    }
    None
}

/// Takes the member with a key out of an object, if there is one. What is
/// held at all other keys stays.
pub fn take_member(members: &mut Vec<(String, Json)>, key: &str) -> (taken: Option<Json>)
    ensures
        match taken {
            Some(json) => JsonModel::Object(members_model(old(members)@)).get(key@) == Some(json@),
            None => {
                &&& JsonModel::Object(members_model(old(members)@)).get(key@) is None
                &&& final(members)@ == old(members)@
            },
        },
        members_model(final(members)@).remove(key@) == members_model(old(members)@).remove(key@),
{
    match find_member(members, key) {
        Some(i) => {
            proof {
                lemma_remove_member(members@, i as int);
            }
            let (_, json) = members.remove(i);
            Some(json)
        },
        None => None,
    }
}

/// Sets the member with a key of an object.
pub fn set_member(members: &mut Vec<(String, Json)>, key: &str, value: Json)
    ensures
        members_model(final(members)@) == members_model(old(members)@).insert(key@, value@),
{
    let ghost before = members@;
    if let Some(i) = find_member(members, key) {
        proof {
            lemma_remove_member(members@, i as int);
        }
        members.remove(i);
    }
    let ghost middle = members@;
    members.push((key.to_owned(), value));
    proof {
        assert(members@.drop_last() =~= middle);
        let a = members_model(middle);
        let b = members_model(before);
        assert(a.remove(key@) == b.remove(key@));
        assert(a.insert(key@, value@) =~= a.remove(key@).insert(key@, value@));
        assert(b.insert(key@, value@) =~= b.remove(key@).insert(key@, value@));
    }
}

impl Json {
    /// The member of an object with the given key, if there is one.
    pub fn get(&self, key: &str) -> (member: Option<&Json>)
        ensures
            match member {
                Some(json) => self@.get(key@) == Some(json@),
                None => self@.get(key@) is None,
            },
    {
        match self {
            Json::Object(members) => match find_member(members, key) {
                Some(i) => Some(&members[i].1),
                None => None,
            },
            _ => None,
        }
    }

    /// The text of a string.
    pub fn as_str(&self) -> (text: Option<&str>)
        ensures
            match text {
                Some(text) => self@ == JsonModel::Str(text@),
                None => self@ !is Str,
            },
    {
        match self {
            Json::Str(text) => Some(text),
            _ => None,
        }
    }

    /// The items of an array.
    pub fn as_array(&self) -> (items: Option<&Vec<Json>>)
        ensures
            match items {
                Some(items) => self@ == JsonModel::Array(items_model(items@)),
                None => self@ !is Array,
            },
    {
        match self {
            Json::Array(items) => {
                proof {
                    lemma_array_model(*items);
                }
                Some(items)
            },
            _ => None,
        }
    }

    /// The text at the given key, if one is there.
    pub fn str_at(&self, key: &str) -> (text: Option<&str>)
        ensures
            match text {
                Some(text) => self@.text_at(key@) == Some(text@),
                None => self@.text_at(key@) is None,
            },
    {
        match self.get(key) {
            Some(json) => json.as_str(),
            None => None,
        }
    }
}

} // verus!
