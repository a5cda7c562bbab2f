//! JSON objects, as far as reports are read from them.
use serde_json::{from_str, Value};
use vstd::prelude::*;
use vstd::string::*;

verus! {

/// A member of a JSON object.
#[derive(Debug, PartialEq, Eq)]
pub enum JsonValue {
    Bool(bool),
    /// A number, with its value where that is a whole one of 64 bits without a sign.
    Number(Option<u64>),
    Text(String),
    /// An object, by its members.
    Object(Vec<(String, JsonValue)>),
    /// Anything else.
    Other,
}

/// What a member holds.
pub enum JsonModel {
    Bool(bool),
    Number(Option<u64>),
    Text(Seq<char>),
    Object(Seq<(Seq<char>, JsonModel)>),
    Other,
}

impl DeepView for JsonValue {
    type V = JsonModel;

    open spec fn deep_view(&self) -> JsonModel {
        json_model(*self)
    }
}

pub open spec fn json_model(value: JsonValue) -> JsonModel
    decreases value,
{
    match value {
        JsonValue::Bool(b) => JsonModel::Bool(b),
        JsonValue::Number(n) => JsonModel::Number(n),
        JsonValue::Text(t) => JsonModel::Text(t@),
        JsonValue::Object(inner) => JsonModel::Object(
            Seq::new(
                inner@.len(),
                |i: int|
                    if 0 <= i < inner@.len() {
                        (inner@[i].0@, json_model(inner@[i].1))
                    } else {
                        arbitrary()
                    },
            ),
        ),
        JsonValue::Other => JsonModel::Other,
    }
}

/// The members of an object, by name.
pub type Members = Vec<(String, JsonValue)>;

/// What the members of an object hold.
pub type MembersModel = Seq<(Seq<char>, JsonModel)>;

pub open spec fn members_model(members: Seq<(String, JsonValue)>) -> MembersModel {
    Seq::new(members.len(), |i: int| (members[i].0@, members[i].1.deep_view()))
}

/// The members that `serde_json::from_str` finds in a text that holds an object. A
/// text that holds another value has none. A text that is no JSON has an error.
pub uninterp spec fn json_members_of(text: Seq<char>) -> Result<MembersModel, Seq<char>>;

/// Whether a result is what a text holds.
pub open spec fn is_json_of(
    result: Result<Members, String>,
    found: Result<MembersModel, Seq<char>>,
) -> bool {
    match found {
        Ok(model) => result matches Ok(members) && members_model(members@) == model,
        Err(reason) => result matches Err(text) && text@ == reason,
    }
}

/// `serde_json::from_str` into a `serde_json::Value`: the members of the object that
/// a text holds depend on the text alone. A member is told apart by its variant, and
/// so is one of an object among them; what lies deeper counts as anything else. Of a
/// number the value is kept that `serde_json::Number::as_u64` gives.
#[verifier::external_body]
pub(crate) fn json_members(text: &str) -> (result: Result<Members, String>)
    ensures
        is_json_of(result, json_members_of(text@)),
{
    let plain = |value| match value {
        Value::Bool(b) => JsonValue::Bool(b),
        Value::Number(n) => JsonValue::Number(n.as_u64()),
        Value::String(t) => JsonValue::Text(t),
        _ => JsonValue::Other,
    };
    let member = |(name, value)| match value {
        Value::Object(o) => (name, JsonValue::Object(o.into_iter().map(|(n, v)| (n, plain(v))).collect())),
        value => (name, plain(value)),
    };
    match from_str(text) {
        Ok(Value::Object(members)) => Ok(members.into_iter().map(member).collect()),
        Ok(_) => Ok(Vec::new()),
        Err(error) => Err(error.to_string()),
    }
}

/// The member of a name, if there is one.
pub open spec fn member_of(members: MembersModel, name: Seq<char>) -> Option<JsonModel>
    decreases members.len(),
{
    if members.len() == 0 {
        None
    } else if members.last().0 == name {
        Some(members.last().1)
    } else {
        member_of(members.drop_last(), name)
    }
}

/// The member of a name, if there is one.
pub fn find_member<'a>(members: &'a Members, name: &str) -> (member: Option<&'a JsonValue>)
    ensures
        match member_of(members_model(members@), name@) {
            Some(model) => member matches Some(m) && m.deep_view() == model,
            None => member is None,
        },
{
    let ghost all = members_model(members@);
    let mut n: usize = members.len();
    assert(all.take(n as int) =~= all);
    while n > 0
        invariant
            n <= members@.len(),
            all == members_model(members@),
            member_of(all, name@) == member_of(all.take(n as int), name@),
        decreases n,
    {
        proof {
            assert(all.take(n as int).drop_last() =~= all.take(n - 1));
            assert(all.take(n as int).last() == all[n - 1]);
        }
        if crate::text::same_text(members[n - 1].0.as_str(), name) {
            return Some(&members[n - 1].1);
        }
        n = n - 1;
    }
    None
}

} // verus!
