//! What is read at a key of a value.
use crate::json::JsonModel;
use vstd::prelude::*;

verus! {

/// What an object has at a key.
pub open spec fn has_member(value: JsonModel, key: Seq<char>, member: JsonModel) -> bool {
    value matches JsonModel::Object(members) && members.contains_key(key) && members[key] == member
}

/// Whether a value has nothing at a key.
pub open spec fn lacks_member(value: JsonModel, key: Seq<char>) -> bool {
    value matches JsonModel::Object(members) ==> !members.contains_key(key)
}

/// Whether two values have the same at a key.
pub open spec fn same_member(a: JsonModel, b: JsonModel, key: Seq<char>) -> bool {
    (lacks_member(a, key) && lacks_member(b, key)) || exists|member: JsonModel| #[trigger]
        has_member(a, key, member) && has_member(b, key, member)
}

/// The list at a key of an object, which is empty if there is none.
pub open spec fn list_at(value: JsonModel, key: Seq<char>) -> Seq<JsonModel> {
    if let JsonModel::Object(members) = value {
        if members.contains_key(key) {
            if let JsonModel::Array(items) = members[key] {
                items
            } else {
                Seq::empty()
            }
        } else {
            Seq::empty()
        }
    } else {
        Seq::empty()
    }
}

/// The member of an object at a key, or null.
pub open spec fn member_at(value: JsonModel, key: Seq<char>) -> JsonModel {
    if let JsonModel::Object(members) = value {
        if members.contains_key(key) {
            members[key]
        } else {
            JsonModel::Null
        }
    } else {
        JsonModel::Null
    }
}

/// What is found at a key.
pub proof fn lemma_list_at(value: JsonModel, key: Seq<char>)
    ensures
        value.items_at(key) == list_at(value, key),
        value.get(key) is Some == !lacks_member(value, key),
        value.get(key) is Some ==> value.get(key) == Some(member_at(value, key)) && has_member(
            value,
            key,
            member_at(value, key),
        ),
        value.get(key) is None ==> member_at(value, key) == JsonModel::Null,
{
}

/// The same at a key.
pub proof fn lemma_same_member(a: JsonModel, b: JsonModel, key: Seq<char>)
    requires
        a.get(key) == b.get(key),
    ensures
        same_member(a, b, key),
{
    lemma_list_at(a, key);
    lemma_list_at(b, key);
    if a.get(key) is Some {
        assert(has_member(a, key, member_at(a, key)));
        assert(has_member(b, key, member_at(a, key)));
    }
}

/// What is read at a key of a value: the member of an object, a text if it is
/// one, and the items of an array if it is one.
pub proof fn law_members(
    members: Map<Seq<char>, JsonModel>,
    key: Seq<char>,
    other: Seq<char>,
    value: JsonModel,
    text: Seq<char>,
    items: Seq<JsonModel>,
)
    requires
        key != other,
    ensures
        JsonModel::Object(members.insert(key, value)).get(key) == Some(value),
        JsonModel::Object(members.insert(other, value)).get(key) == JsonModel::Object(members).get(
            key,
        ),
        JsonModel::Object(Map::empty()).get(key) is None,
        !(value is Object) ==> value.get(key) is None,
        JsonModel::Object(members.insert(key, JsonModel::Str(text))).text_at(key) == Some(text),
        !(value is Str) ==> JsonModel::Object(members.insert(key, value)).text_at(key) is None,
        JsonModel::Object(members.insert(key, JsonModel::Array(items))).items_at(key) == items,
        !(value is Array) ==> JsonModel::Object(members.insert(key, value)).items_at(key).len()
            == 0,
{
}

} // verus!
