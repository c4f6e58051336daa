//! JSON and JSONC texts read as plain trees. The parsing is done by
//! `jsonc-parser` and `serde_json`; the library reads the trees they give.
use vstd::prelude::*;

verus! {

/// A JSON value. An object lists its members in the parser's order.
pub enum JsonTree {
    Null,
    Bool(bool),
    Number(String),
    Text(String),
    List(Vec<JsonTree>),
    Object(Vec<(String, JsonTree)>),
}

/// What a JSON value holds.
pub enum JsonTreeView {
    Null,
    Bool(bool),
    Number(Seq<char>),
    Text(Seq<char>),
    List(Seq<JsonTreeView>),
    Object(Seq<(Seq<char>, JsonTreeView)>),
}

/// The value `t` holds.
pub open spec fn tree_view(t: JsonTree) -> JsonTreeView
    decreases t,
{
    match t {
        JsonTree::Null => JsonTreeView::Null,
        JsonTree::Bool(b) => JsonTreeView::Bool(b),
        JsonTree::Number(n) => JsonTreeView::Number(n@),
        JsonTree::Text(s) => JsonTreeView::Text(s@),
        JsonTree::List(l) => JsonTreeView::List(
            Seq::new(
                l@.len(),
                |i: int|
                    if 0 <= i < l@.len() {
                        tree_view(l@[i])
                    } else {
                        JsonTreeView::Null
                    },
            ),
        ),
        JsonTree::Object(es) => JsonTreeView::Object(
            Seq::new(
                es@.len(),
                |i: int|
                    if 0 <= i < es@.len() {
                        (es@[i].0@, tree_view(es@[i].1))
                    } else {
                        (Seq::empty(), JsonTreeView::Null)
                    },
            ),
        ),
    }
}

impl DeepView for JsonTree {
    type V = JsonTreeView;

    open spec fn deep_view(&self) -> JsonTreeView {
        tree_view(*self)
    }
}

/// The value of the first member named `key`, if `t` is an object with one
/// (what `serde_json::Value::get` gives for a key).
pub open spec fn member(t: JsonTreeView, key: Seq<char>) -> Option<JsonTreeView> {
    match t {
        JsonTreeView::Object(es) => member_in(es, key),
        _ => None,
    }
}

/// The value of the first of `es` named `key`.
pub open spec fn member_in(es: Seq<(Seq<char>, JsonTreeView)>, key: Seq<char>) -> Option<JsonTreeView>
    decreases es.len(),
{
    if es.len() == 0 {
        None
    } else if es[0].0 == key {
        Some(es[0].1)
    } else {
        member_in(es.drop_first(), key)
    }
}

/// The text of a string value.
pub open spec fn text_of(t: JsonTreeView) -> Option<Seq<char>> {
    match t {
        JsonTreeView::Text(s) => Some(s),
        _ => None,
    }
}

/// The value of the first member of `t` named `key`, if `t` is an object
/// with one.
pub fn member_of<'a>(t: &'a JsonTree, key: &str) -> (r: Option<&'a JsonTree>)
    ensures
        match r {
            Some(v) => member(t.deep_view(), key@) == Some(v.deep_view()),
            None => member(t.deep_view(), key@) is None,
        },
{
    match t {
        JsonTree::Object(es) => {
            let ghost ev = match t.deep_view() {
                JsonTreeView::Object(ev) => ev,
                _ => Seq::empty(),
            };
            let mut i: usize = 0;
            assert(ev.skip(0) =~= ev);
            assert(t.deep_view() == JsonTreeView::Object(ev));
            while i < es.len()
                invariant
                    i <= es.len(),
                    ev.len() == es.len(),
                    t.deep_view() == JsonTreeView::Object(ev),
                    forall|j: int| 0 <= j < es.len() ==> #[trigger] ev[j] == (es@[j].0@, es@[j].1.deep_view()),
                    member_in(ev, key@) == member_in(ev.skip(i as int), key@),
                decreases es.len() - i,
            {
                assert(ev[i as int] == (es@[i as int].0@, es@[i as int].1.deep_view()));
                if crate::text::str_eq(es[i].0.as_str(), key) {
                    assert(ev.skip(i as int)[0] == ev[i as int]);
                    return Some(&es[i].1);
                }
                assert(ev.skip(i as int).drop_first() =~= ev.skip(i + 1));
                i += 1;
            }
            assert(ev.skip(i as int) =~= Seq::<(Seq<char>, JsonTreeView)>::empty());
            None
        },
        _ => None,
    }
}

#[verifier::external_type_specification]
#[verifier::external_body]
pub struct ExJsonValue(serde_json::Value);

/// The tree `jsonc_parser::parse_to_serde_value` reads from a JSONC text with
/// the default options (`None` when the text is not valid JSONC; an empty
/// text reads as `null`).
pub uninterp spec fn jsonc_tree(text: Seq<char>) -> Option<JsonTreeView>;

/// The tree `serde_json::from_str` reads from a JSON text (`None` when the
/// text is not valid JSON).
pub uninterp spec fn json_tree(text: Seq<char>) -> Option<JsonTreeView>;

/// `serde_json::Value` as a tree, variant by variant; a number is kept as
/// the text `serde_json` writes for it, an object's members in the map's
/// order.
#[verifier::external_body]
fn tree_of(v: serde_json::Value) -> JsonTree {
    match v {
        serde_json::Value::Null => JsonTree::Null,
        serde_json::Value::Bool(b) => JsonTree::Bool(b),
        serde_json::Value::Number(n) => JsonTree::Number(n.to_string()),
        serde_json::Value::String(s) => JsonTree::Text(s),
        serde_json::Value::Array(a) => JsonTree::List(a.into_iter().map(tree_of).collect()),
        serde_json::Value::Object(m) => JsonTree::Object(m.into_iter().map(|(k, x)| (k, tree_of(x))).collect()),
    }
}

/// `jsonc_parser::parse_to_serde_value::<serde_json::Value>` with the default
/// options: the tree it reads, which depends on the text alone, or `None`
/// when it reports an error.
#[verifier::external_body]
pub(crate) fn parse_jsonc(text: &str) -> (r: Option<JsonTree>)
    ensures
        r.deep_view() == jsonc_tree(text@),
{
    jsonc_parser::parse_to_serde_value::<serde_json::Value>(text, &jsonc_parser::ParseOptions::default()).ok().map(tree_of)
}

/// `serde_json::from_str::<serde_json::Value>`: the tree it reads, which
/// depends on the text alone, or `None` when it reports an error.
#[verifier::external_body]
pub(crate) fn parse_json(text: &str) -> (r: Option<JsonTree>)
    ensures
        r.deep_view() == json_tree(text@),
{
    serde_json::from_str::<serde_json::Value>(text).ok().map(tree_of)
}

} // verus!
