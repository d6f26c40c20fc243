//! JSON documents, as `serde_json` reads them.

use vstd::prelude::*;
use crate::text::{lemma_pieces_append, pieces};

verus! {

/// A JSON value. Of a number only the unsigned 64-bit integer that it may be is kept.
pub enum Json {
    Null,
    Bool(bool),
    Number(Option<u64>),
    Text(Seq<char>),
    Array(Seq<Json>),
    Object(Map<Seq<char>, Json>),
}

/// The value under `name`, where `value` is an object that has one.
pub open spec fn field(value: Json, name: Seq<char>) -> Option<Json> {
    match value {
        Json::Object(fields) => if fields.contains_key(name) {
            Some(fields[name])
        } else {
            None
        },
        _ => None,
    }
}

/// The value reached from `value` through `names`, one object after the other.
pub open spec fn at(value: Json, names: Seq<Seq<char>>) -> Option<Json>
    decreases names.len(),
{
    if names.len() == 0 {
        Some(value)
    } else {
        match field(value, names.first()) {
            Some(inner) => at(inner, names.drop_first()),
            None => None,
        }
    }
}

/// The text that `value` is, where it is one.
pub open spec fn as_text(value: Option<Json>) -> Option<Seq<char>> {
    match value {
        Some(Json::Text(text)) => Some(text),
        _ => None,
    }
}

/// The unsigned integer that `value` is, where it is one.
pub open spec fn as_number(value: Option<Json>) -> Option<u64> {
    match value {
        Some(Json::Number(number)) => number,
        _ => None,
    }
}

/// The items of the array that `value` is, where it is one.
pub open spec fn as_items(value: Option<Json>) -> Option<Seq<Json>> {
    match value {
        Some(Json::Array(items)) => Some(items),
        _ => None,
    }
}

/// `serde_json::Value`, the tree of arrays and objects that a parse hands out.
#[verifier::external_type_specification]
#[verifier::external_body]
pub struct ExValue(serde_json::Value);

/// What a `serde_json::Value` holds.
pub uninterp spec fn json(value: serde_json::Value) -> Json;

/// The document that `serde_json::from_str` reads in a text, where the text is one.
pub uninterp spec fn json_in_text(text: Seq<char>) -> Option<Json>;

/// The document that `serde_json::from_slice` reads in bytes, where they are one.
pub uninterp spec fn json_in_bytes(bytes: Seq<u8>) -> Option<Json>;

/// `serde_json::from_str`: the document that a text holds, a function of the text alone.
#[verifier::external_body]
pub(crate) fn parse_text(text: &str) -> (document: Option<serde_json::Value>)
    ensures
        match document {
            Some(value) => json_in_text(text@) == Some(json(value)),
            None => json_in_text(text@) is None,
        },
{
    serde_json::from_str(text).ok()
}

/// `serde_json::from_slice`: the document that bytes hold, a function of the bytes alone.
#[verifier::external_body]
pub(crate) fn parse_bytes(bytes: &[u8]) -> (document: Option<serde_json::Value>)
    ensures
        match document {
            Some(value) => json_in_bytes(bytes@) == Some(json(value)),
            None => json_in_bytes(bytes@) is None,
        },
{
    serde_json::from_slice(bytes).ok()
}

/// `Value::get` with a string: the value under that key of an object, and nothing of any
/// other value.
#[verifier::external_body]
pub(crate) fn get<'a>(value: &'a serde_json::Value, name: &str) -> (inner: Option<
    &'a serde_json::Value,
>)
    ensures
        match inner {
            Some(v) => field(json(*value), name@) == Some(json(*v)),
            None => field(json(*value), name@) is None,
        },
{
    value.get(name)
}

/// `Value::as_str`: the text of a string, and nothing of any other value.
pub assume_specification[ serde_json::Value::as_str ](value: &serde_json::Value) -> (text: Option<
    &str,
>)
    ensures
        match text {
            Some(s) => json(*value) == Json::Text(s@),
            None => !(json(*value) is Text),
        },
;

/// `Value::as_u64`: the integer of a number that is an unsigned one, and nothing of any other
/// value.
pub assume_specification[ serde_json::Value::as_u64 ](value: &serde_json::Value) -> (number: Option<
    u64,
>)
    ensures
        number == as_number(Some(json(*value))),
;

/// `Value::as_array`: the items of an array in their order, and nothing of any other value.
pub assume_specification[ serde_json::Value::as_array ](
    value: &serde_json::Value,
) -> (items: Option<&Vec<serde_json::Value>>)
    ensures
        match items {
            Some(values) => json(*value) == Json::Array(
                values@.map_values(|v: serde_json::Value| json(v)),
            ),
            None => !(json(*value) is Array),
        },
;

/// A JSON pointer made of names alone: no escape, and no step that could be an array index.
pub open spec fn names_only(pointer: Seq<char>) -> bool {
    &&& pointer.len() > 0
    &&& pointer.first() == '/'
    &&& !pointer.contains('~')
    &&& forall|i: int|
        1 <= i < pieces(pointer, '/').len() ==> (#[trigger] pieces(pointer, '/')[i]).len() > 0
            && 'a' <= pieces(pointer, '/')[i].first() && pieces(pointer, '/')[i].first() <= 'z'
}

/// `Value::pointer`: the value reached by the names between the slashes, one object after the
/// other, and nothing where one of them is missing.
pub assume_specification<'a, 'b>[ serde_json::Value::pointer ](
    value: &'a serde_json::Value,
    pointer: &'b str,
) -> (inner: Option<&'a serde_json::Value>)
    requires
        names_only(pointer@),
    ensures
        match inner {
            Some(v) => at(json(*value), pieces(pointer@, '/').skip(1)) == Some(json(*v)),
            None => at(json(*value), pieces(pointer@, '/').skip(1)) is None,
        },
;

/// The pointer that leads through `names`.
pub open spec fn pointer_through(names: Seq<Seq<char>>) -> Seq<char>
    decreases names.len(),
{
    if names.len() == 0 {
        Seq::empty()
    } else {
        pointer_through(names.drop_last()).push('/') + names.last()
    }
}

/// A step of a pointer that `names_only` admits.
pub open spec fn plain_name(name: Seq<char>) -> bool {
    &&& name.len() > 0
    &&& forall|i: int| 0 <= i < name.len() ==> 'a' <= #[trigger] name[i] && name[i] <= 'z'
}

/// A pointer through plain names reads as those names.
pub proof fn lemma_pointer_through(names: Seq<Seq<char>>)
    requires
        names.len() > 0,
        forall|i: int| 0 <= i < names.len() ==> plain_name(#[trigger] names[i]),
    ensures
        names_only(pointer_through(names)),
        pieces(pointer_through(names), '/').skip(1) == names,
{
    lemma_pointer_pieces(names);
    let pointer = pointer_through(names);
    let all = pieces(pointer, '/');
    assert(all == seq![Seq::<char>::empty()] + names);
    assert(all.skip(1) == names);
    assert forall|i: int| 1 <= i < all.len() implies (#[trigger] all[i]).len() > 0 && 'a'
        <= all[i].first() && all[i].first() <= 'z' by {
        assert(all[i] == names[i - 1]);
        assert(plain_name(names[i - 1]));
    }
}

proof fn lemma_pointer_pieces(names: Seq<Seq<char>>)
    requires
        forall|i: int| 0 <= i < names.len() ==> plain_name(#[trigger] names[i]),
    ensures
        pieces(pointer_through(names), '/') == seq![Seq::<char>::empty()] + names,
        !pointer_through(names).contains('~'),
        names.len() > 0 ==> pointer_through(names).len() > 0 && pointer_through(names).first()
            == '/',
    decreases names.len(),
{
    if names.len() == 0 {
        assert(seq![Seq::<char>::empty()] + names == seq![Seq::<char>::empty()]);
    } else {
        let before = names.drop_last();
        let name = names.last();
        lemma_pointer_pieces(before);
        assert(plain_name(names[names.len() - 1]));
        assert(!name.contains('/'));
        lemma_pieces_append(pointer_through(before), '/', name);
        assert((seq![Seq::<char>::empty()] + before).push(name) == seq![Seq::<char>::empty()]
            + names);
        let whole = pointer_through(names);
        assert forall|i: int| 0 <= i < whole.len() implies whole[i] != '~' by {
            let n = pointer_through(before).len() as int;
            if i < n {
                assert(pointer_through(before).contains(pointer_through(before)[i]));
            } else if i > n {
                assert(whole[i] == name[i - n - 1]);
            }
        }
        if before.len() == 0 {
            assert(whole[0] == '/');
        } else {
            assert(whole[0] == pointer_through(before)[0]);
        }
    }
}

/// The text at the end of `pointer`, where there is one.
pub(crate) fn text_at(value: &serde_json::Value, pointer: &str) -> (text: Option<String>)
    requires
        names_only(pointer@),
    ensures
        crate::text::optional_text(text) == as_text(
            at(json(*value), pieces(pointer@, '/').skip(1)),
        ),
{
    match value.pointer(pointer) {
        Some(inner) => match inner.as_str() {
            Some(s) => Some(s.to_owned()),
            None => None,
        },
        None => None,
    }
}

/// A path leads through the fields of objects, one name after the other. It ends in nothing where
/// a field is missing, and where a value on the way is no object.
pub proof fn lemma_at(value: Json, name: Seq<char>, rest: Seq<Seq<char>>)
    ensures
        at(value, Seq::<Seq<char>>::empty()) == Some(value),
        at(value, seq![name] + rest) == match value {
            Json::Object(fields) => if fields.contains_key(name) {
                at(fields[name], rest)
            } else {
                None
            },
            _ => None,
        },
{
    let names = seq![name] + rest;
    assert(names.first() == name);
    assert(names.drop_first() == rest);
}

} // verus!
