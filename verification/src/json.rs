//! JSON documents as the library reads them: a tree of plain values, parsed
//! by `serde_json`.
use vstd::prelude::*;

verus! {

/// A parsed JSON document. A number keeps the text `serde_json` writes it
/// as; an object keeps its entries in the order the parser hands them out.
#[derive(Debug)]
pub enum Json {
    Null,
    Bool(bool),
    Number(String),
    Text(String),
    Array(Vec<Json>),
    Object(Vec<(String, Json)>),
}

/// A JSON document as a value.
pub enum JsonView {
    Null,
    Bool(bool),
    Number(Seq<char>),
    Text(Seq<char>),
    Array(Seq<JsonView>),
    Object(Seq<(Seq<char>, JsonView)>),
}

/// The value a parsed document stands for.
pub open spec fn json_view(j: Json) -> JsonView
    decreases j,
{
    match j {
        Json::Null => JsonView::Null,
        Json::Bool(b) => JsonView::Bool(b),
        Json::Number(n) => JsonView::Number(n@),
        Json::Text(t) => JsonView::Text(t@),
        Json::Array(items) => JsonView::Array(
            Seq::new(items@.len(), |i: int| if 0 <= i < items@.len() { json_view(items@[i]) } else { JsonView::Null }),
        ),
        Json::Object(entries) => JsonView::Object(
            Seq::new(
                entries@.len(),
                |i: int| if 0 <= i < entries@.len() { (entries@[i].0@, json_view(entries@[i].1)) } else { (Seq::empty(), JsonView::Null) },
            ),
        ),
    }
}

impl View for Json {
    type V = JsonView;

    open spec fn view(&self) -> JsonView {
        json_view(*self)
    }
}


#[verifier::external_type_specification]
#[verifier::external_body]
pub struct ExJsonValue(serde_json::Value);

/// The document `serde_json` parses `text` into, or `None` where it refuses
/// the text.
pub uninterp spec fn json_of(text: Seq<char>) -> Option<JsonView>;

/// What `serde_json` says of text it refuses to parse.
pub uninterp spec fn json_refusal(text: Seq<char>) -> Seq<char>;

/// `serde_json::from_str` into a `serde_json::Value`, then that tree taken
/// over node for node, and the error of a refused text as its message. The
/// contract claims only that the outcome is a function of the text: the
/// document (or refusal) it names is not spelled out here.
#[verifier::external_body]
pub(crate) fn parse_json(text: &str) -> (r: Result<Json, String>)
    ensures
        (r is Ok) <==> json_of(text@) is Some,
        r matches Ok(j) ==> json_of(text@) == Some(j@),
        r matches Err(m) ==> m@ == json_refusal(text@),
{
    match serde_json::from_str::<serde_json::Value>(text) {
        Ok(value) => Ok(tree_of(&value)),
        Err(e) => Err(e.to_string()),
    }
}

/// A `serde_json::Value` taken over node for node: each variant to its
/// namesake, a number as the text `serde_json` writes it, an object's
/// entries in the order the map hands them out. Part of [`parse_json`],
/// whose contract covers what comes out.
#[verifier::external_body]
fn tree_of(value: &serde_json::Value) -> Json {
    match value {
        serde_json::Value::Null => Json::Null,
        serde_json::Value::Bool(b) => Json::Bool(*b),
        serde_json::Value::Number(n) => Json::Number(n.to_string()),
        serde_json::Value::String(t) => Json::Text(t.clone()),
        serde_json::Value::Array(items) => Json::Array(items.iter().map(tree_of).collect()),
        serde_json::Value::Object(map) => Json::Object(map.iter().map(|(k, v)| (k.clone(), tree_of(v))).collect()),
    }
}

/// Documents as values.
pub open spec fn views(items: Seq<Json>) -> Seq<JsonView> {
    items.map_values(|x: Json| x@)
}

/// A document's entries as values.
pub open spec fn entries_view(es: Seq<(String, Json)>) -> Seq<(Seq<char>, JsonView)> {
    es.map_values(|e: (String, Json)| (e.0@, e.1@))
}

pub open spec fn opt_json(j: Option<Json>) -> Option<JsonView> {
    match j {
        Some(x) => Some(x@),
        None => None,
    }
}

pub open spec fn opt_string(t: Option<String>) -> Option<Seq<char>> {
    match t {
        Some(x) => Some(x@),
        None => None,
    }
}

/// The string a value is, if it is one.
pub open spec fn text_of(j: JsonView) -> Option<Seq<char>> {
    match j {
        JsonView::Text(t) => Some(t),
        _ => None,
    }
}

/// The first value an object holds under `name`; nothing for any other value.
pub open spec fn field(j: JsonView, name: Seq<char>) -> Option<JsonView> {
    match j {
        JsonView::Object(es) => crate::keyed::lookup(es, name),
        _ => None,
    }
}

/// The entries of a value that is an object; none for anything else.
pub open spec fn object_entries(j: Option<JsonView>) -> Seq<(Seq<char>, JsonView)> {
    match j {
        Some(JsonView::Object(es)) => es,
        _ => Seq::empty(),
    }
}

/// Each entry of an object with the string it holds, or `None` where it
/// holds something else; none for anything but an object.
pub open spec fn string_entries(j: Option<JsonView>) -> Seq<(Seq<char>, Option<Seq<char>>)> {
    object_entries(j).map_values(|e: (Seq<char>, JsonView)| (e.0, text_of(e.1)))
}

/// Each item of an array as the string it is, or `None`; none for anything
/// but an array.
pub open spec fn string_items(j: Option<JsonView>) -> Seq<Option<Seq<char>>> {
    match j {
        Some(JsonView::Array(items)) => items.map_values(|x: JsonView| text_of(x)),
        _ => Seq::empty(),
    }
}

/// The string `j` is, if it is one.
pub fn into_text(j: Json) -> (r: Option<String>)
    ensures
        opt_string(r) == text_of(j@),
{
    match j {
        Json::Text(t) => Some(t),
        _ => None,
    }
}

/// The entries of `j` where it is an object, and none where it is not.
pub fn into_entries(j: Option<Json>) -> (r: Vec<(String, Json)>)
    ensures
        entries_view(r@) == object_entries(opt_json(j)),
{
    match j {
        Some(Json::Object(es)) => {
            assert(entries_view(es@) =~= object_entries(opt_json(Some(Json::Object(es)))));
            es
        },
        _ => {
            let r: Vec<(String, Json)> = Vec::new();
            assert(entries_view(r@) =~= object_entries(opt_json(j)));
            r
        },
    }
}

/// The entries of `j` with the strings they hold, where `j` is an object.
pub fn into_string_entries(j: Option<Json>) -> (r: Vec<(String, Option<String>)>)
    ensures
        r@.map_values(|e: (String, Option<String>)| (e.0@, opt_string(e.1))) == string_entries(opt_json(j)),
{
    let mut es = into_entries(j);
    let ghost all = entries_view(es@);
    let mut out: Vec<(String, Option<String>)> = Vec::new();
    let ghost mut c: int = 0;
    while es.len() > 0
        invariant
            0 <= c <= all.len(),
            entries_view(es@) == all.skip(c),
            out@.map_values(|e: (String, Option<String>)| (e.0@, opt_string(e.1)))
                == all.take(c).map_values(|e: (Seq<char>, JsonView)| (e.0, text_of(e.1))),
        decreases es.len(),
    {
        let ghost before = es@;
        proof {
            assert(entries_view(es@).len() == es@.len());
            assert(c < all.len());
            assert(all.skip(c)[0] == all[c]);
            assert(entries_view(before)[0] == all[c]);
        }
        let (k, v) = es.remove(0);
        proof {
            assert forall|i: int| 0 <= i < entries_view(es@).len() implies #[trigger] entries_view(es@)[i] == all.skip(c + 1)[i] by {
                assert(es@[i] == before[i + 1]);
                assert(entries_view(before)[i + 1] == all.skip(c)[i + 1]);
                assert(all.skip(c)[i + 1] == all[c + i + 1]);
                assert(all.skip(c + 1)[i] == all[c + 1 + i]);
            }
            assert(entries_view(es@) =~= all.skip(c + 1));
            assert(all.take(c + 1) =~= all.take(c).push(all[c]));
        }
        let ghost prior = out@;
        let t = into_text(v);
        out.push((k, t));
        proof {
            assert(out@.map_values(|e: (String, Option<String>)| (e.0@, opt_string(e.1)))
                =~= prior.map_values(|e: (String, Option<String>)| (e.0@, opt_string(e.1))).push((all[c].0, text_of(all[c].1))));
            c = c + 1;
        }
    }
    proof {
        assert(all.skip(c).len() == 0);
        assert(all.take(c) =~= all);
    }
    out
}

/// The items of `j` as the strings they are, where `j` is an array.
pub fn into_string_items(j: Option<Json>) -> (r: Vec<Option<String>>)
    ensures
        r@.map_values(|t: Option<String>| opt_string(t)) == string_items(opt_json(j)),
{
    let mut items = match j {
        Some(Json::Array(items)) => {
            assert(views(items@) =~= Seq::new(
                items@.len(),
                |i: int| if 0 <= i < items@.len() { json_view(items@[i]) } else { JsonView::Null },
            ));
            items
        },
        _ => {
            let r: Vec<Option<String>> = Vec::new();
            assert(r@.map_values(|t: Option<String>| opt_string(t)) =~= string_items(opt_json(j)));
            return r;
        },
    };
    let ghost all = views(items@);
    assert(string_items(opt_json(j)) == all.map_values(|x: JsonView| text_of(x)));
    let mut out: Vec<Option<String>> = Vec::new();
    let ghost mut c: int = 0;
    while items.len() > 0
        invariant
            0 <= c <= all.len(),
            views(items@) == all.skip(c),
            out@.map_values(|t: Option<String>| opt_string(t)) == all.take(c).map_values(|x: JsonView| text_of(x)),
        decreases items.len(),
    {
        let ghost before = items@;
        proof {
            assert(views(items@).len() == items@.len());
            assert(c < all.len());
            assert(all.skip(c)[0] == all[c]);
            assert(views(before)[0] == all[c]);
        }
        let v = items.remove(0);
        proof {
            assert forall|i: int| 0 <= i < items@.len() implies #[trigger] views(items@)[i] == all.skip(c + 1)[i] by {
                assert(items@[i] == before[i + 1]);
                assert(views(before)[i + 1] == all.skip(c)[i + 1]);
                assert(all.skip(c)[i + 1] == all[c + i + 1]);
                assert(all.skip(c + 1)[i] == all[c + 1 + i]);
            }
            assert(views(items@) =~= all.skip(c + 1));
            assert(all.take(c + 1) =~= all.take(c).push(all[c]));
        }
        let ghost prior = out@;
        let t = into_text(v);
        out.push(t);
        proof {
            assert(out@.map_values(|t: Option<String>| opt_string(t))
                =~= prior.map_values(|t: Option<String>| opt_string(t)).push(text_of(all[c])));
            c = c + 1;
        }
    }
    proof {
        assert(all.take(c) =~= all);
    }
    out
}

/// An array's value is its items' values.
pub proof fn lemma_array_view(items: Vec<Json>)
    ensures
        Json::Array(items)@ == JsonView::Array(views(items@)),
{
    match json_view(Json::Array(items)) {
        JsonView::Array(inner) => {
            assert(inner =~= views(items@));
        },
        _ => {},
    }
}

} // verus!
