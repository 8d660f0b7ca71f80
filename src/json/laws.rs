use vstd::prelude::*;
use crate::json::value::{
    Json, JsonValue, array_text, item_text, list_body, list_text, object_as_text, object_body, object_text,
    quoted, spaces, text_of,
};

verus! {

/// Rendering is a function of the value and the indent parameters: the
/// same value (or any two with the same model), rendered twice with the same
/// parameters, gives the same text each time, by each of the renderers.
pub proof fn law_render_twice(a: JsonValue, b: JsonValue, current: nat, step: nat)
    requires
        a@ == b@,
    ensures
        text_of(a@) == text_of(b@),
        array_text(current, step, a@) == array_text(current, step, b@),
        object_as_text(current, step, a@) == object_as_text(current, step, b@),
{
}

/// A text value standing alone renders as its bare characters; the same
/// value as the element of a list renders between double quotes.
pub proof fn law_text_quoting(t: Seq<char>, current: nat, step: nat)
    ensures
        text_of(Json::Text(t)) == t,
        array_text(current, step, Json::List(seq![Json::Text(t)])) == seq!['['] + quoted(t) + seq![']'],
{
    let xs = seq![Json::Text(t)];
    assert(xs.drop_last() =~= Seq::<Json>::empty());
    assert(list_body(current, step, xs) == list_body(current, step, Seq::<Json>::empty()) + Seq::<
        char,
    >::empty() + item_text(current, step, Json::Text(t)));
    assert(list_body(current, step, xs) =~= quoted(t));
}

/// An empty list renders as `[]`, and an empty object standing alone as `{`,
/// a line break and `}`.
pub proof fn law_empty_containers()
    ensures
        text_of(Json::List(Seq::empty())) == seq!['[', ']'],
        text_of(Json::Object(Seq::empty())) == seq!['{', '\n', '}'],
{
    assert(list_text(0, 2, Seq::empty()) =~= seq!['[', ']']);
    assert(spaces(0) =~= Seq::<char>::empty());
    assert(object_body(2, 2, Seq::empty()) =~= Seq::<char>::empty());
    assert(object_text(0, 2, Seq::empty()) =~= seq!['{', '\n', '}']);
}

} // verus!
