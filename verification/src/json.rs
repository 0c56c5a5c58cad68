//! JSON documents as the launcher reads them: a parsed document, its
//! mathematical view, and field lookup.
use vstd::prelude::*;
use crate::text::str_eq;

verus! {

#[verifier::external_type_specification]
#[verifier::external_body]
pub struct ExJsonValue(serde_json::Value);

/// A JSON value. Numbers are kept without their value, which nothing here
/// reads; an object keeps its members in the order the parser yields them.
pub enum Json {
    Null,
    Bool(bool),
    Number,
    Str(String),
    Array(Vec<Json>),
    Object(Vec<(String, Json)>),
}

/// The mathematical view of a JSON value.
pub ghost enum JsonView {
    Null,
    Bool(bool),
    Number,
    Str(Seq<char>),
    Array(Seq<JsonView>),
    Object(Seq<(Seq<char>, JsonView)>),
}

/// The view of a JSON value.
pub open spec fn json_view(j: Json) -> JsonView
    decreases j,
{
    match j {
        Json::Null => JsonView::Null,
        Json::Bool(b) => JsonView::Bool(b),
        Json::Number => JsonView::Number,
        Json::Str(s) => JsonView::Str(s@),
        Json::Array(v) => JsonView::Array(json_views(v@)),
        Json::Object(es) => JsonView::Object(member_views(es@)),
    }
}

/// The views of a list of values.
pub open spec fn json_views(s: Seq<Json>) -> Seq<JsonView>
    decreases s,
{
    if s.len() == 0 {
        Seq::empty()
    } else {
        json_views(s.drop_last()).push(json_view(s[s.len() - 1]))
    }
}

/// The views of a list of object members.
pub open spec fn member_views(s: Seq<(String, Json)>) -> Seq<(Seq<char>, JsonView)>
    decreases s,
{
    if s.len() == 0 {
        Seq::empty()
    } else {
        member_views(s.drop_last()).push((s[s.len() - 1].0@, json_view(s[s.len() - 1].1)))
    }
}

impl View for Json {
    type V = JsonView;

    open spec fn view(&self) -> JsonView {
        json_view(*self)
    }
}

/// The views of a list of values, position by position.
pub proof fn lemma_json_views(s: Seq<Json>)
    ensures
        json_views(s).len() == s.len(),
        forall|i: int| 0 <= i < s.len() ==> #[trigger] json_views(s)[i] == json_view(s[i]),
    decreases s.len(),
{
    if s.len() > 0 {
        lemma_json_views(s.drop_last());
    }
}

/// The views of a list of members, position by position.
pub proof fn lemma_member_views(s: Seq<(String, Json)>)
    ensures
        member_views(s).len() == s.len(),
        forall|i: int|
            0 <= i < s.len() ==> #[trigger] member_views(s)[i] == (s[i].0@, json_view(s[i].1)),
    decreases s.len(),
{
    if s.len() > 0 {
        lemma_member_views(s.drop_last());
    }
}

/// What `serde_json` makes of a text: the parsed value's view, or the text of
/// the parse error.
pub uninterp spec fn json_parsed(text: Seq<char>) -> Result<JsonView, Seq<char>>;

/// `serde_json::from_str` into a `serde_json::Value`, the value carried over
/// member by member (numbers without their value), or the error's text. The
/// outcome is named by `json_parsed`; the JSON grammar is not restated.
#[verifier::external_body]
pub(crate) fn parse_json(text: &str) -> (r: Result<Json, String>)
    ensures
        match r {
            Ok(j) => json_parsed(text@) == Ok::<JsonView, Seq<char>>(j@),
            Err(m) => json_parsed(text@) == Err::<JsonView, Seq<char>>(m@),
        },
{
    match serde_json::from_str::<serde_json::Value>(text) {
        Ok(v) => Ok(json_from_value(v)),
        Err(e) => Err(e.to_string()),
    }
}

/// Carries a `serde_json::Value` over into a `Json`, variant by variant.
#[verifier::external_body]
fn json_from_value(v: serde_json::Value) -> Json {
    match v {
        serde_json::Value::Null => Json::Null,
        serde_json::Value::Bool(b) => Json::Bool(b),
        serde_json::Value::Number(_) => Json::Number,
        serde_json::Value::String(s) => Json::Str(s),
        serde_json::Value::Array(a) => Json::Array(a.into_iter().map(json_from_value).collect()),
        serde_json::Value::Object(m) => Json::Object(
            m.into_iter().map(|(k, x)| (k, json_from_value(x))).collect(),
        ),
    }
}

/// The value of the first member named `key`.
pub open spec fn member_named(es: Seq<(Seq<char>, JsonView)>, key: Seq<char>) -> Option<JsonView>
    decreases es.len(),
{
    if es.len() == 0 {
        None
    } else if es[0].0 == key {
        Some(es[0].1)
    } else {
        member_named(es.drop_first(), key)
    }
}

/// The member `key` of an object; `None` for a missing member or a value
/// that is not an object.
pub open spec fn json_field(j: JsonView, key: Seq<char>) -> Option<JsonView> {
    match j {
        JsonView::Object(es) => member_named(es, key),
        _ => None,
    }
}

/// The text of a value that is a string.
pub open spec fn json_text(j: Option<JsonView>) -> Option<Seq<char>> {
    match j {
        Some(JsonView::Str(s)) => Some(s),
        _ => None,
    }
}

/// The items of a value that is an array.
pub open spec fn json_items(j: Option<JsonView>) -> Option<Seq<JsonView>> {
    match j {
        Some(JsonView::Array(ks)) => Some(ks),
        _ => None,
    }
}

/// The member `key` of an object; `None` when the member is missing or the
/// value is not an object.
pub fn get_field<'a>(j: &'a Json, key: &str) -> (r: Option<&'a Json>)
    ensures
        match r {
            Some(v) => json_field(j@, key@) == Some(v@) && decreases_to!(*j => *v),
            None => json_field(j@, key@) is None,
        },
{
    match j {
        Json::Object(es) => {
            proof {
                lemma_member_views(es@);
            }
            let ghost mv = member_views(es@);
            let n = es.len();
            let mut i: usize = 0;
            assert(mv.skip(0) =~= mv);
            while i < n
                invariant
                    n == es.len(),
                    i <= n,
                    *j == Json::Object(*es),
                    mv == member_views(es@),
                    mv.len() == n,
                    forall|t: int| 0 <= t < n ==> #[trigger] mv[t] == (es@[t].0@, json_view(es@[t].1)),
                    member_named(mv, key@) == member_named(mv.skip(i as int), key@),
                decreases n - i,
            {
                assert(mv.skip(i as int)[0] == mv[i as int]);
                assert(mv.skip(i as int).drop_first() =~= mv.skip(i + 1));
                if str_eq(es[i].0.as_str(), key) {
                    proof {
                        assert(decreases_to!(*j => *es));
                        assert(decreases_to!(*es => es[i as int]));
                        assert(decreases_to!(es[i as int] => es[i as int].1));
                    }
                    return Some(&es[i].1);
                }
                i = i + 1;
            }
            None
        },
        _ => None,
    }
}

/// The text of a value that is a string; `None` for a missing value or one
/// of another type.
pub fn text_of(j: Option<&Json>) -> (r: Option<String>)
    ensures
        match r {
            Some(s) => j is Some && json_text(Some(j->0@)) == Some(s@),
            None => j is None || json_text(Some(j->0@)) is None,
        },
{
    match j {
        Some(Json::Str(s)) => Some(s.clone()),
        _ => None,
    }
}

/// The items of a value that is an array; `None` for a value of another type.
pub fn items_of<'a>(j: &'a Json) -> (r: Option<&'a Vec<Json>>)
    ensures
        match r {
            Some(v) => json_items(Some(j@)) == Some(json_views(v@)) && decreases_to!(*j => *v),
            None => json_items(Some(j@)) is None,
        },
{
    match j {
        Json::Array(v) => Some(v),
        _ => None,
    }
}

} // verus!
