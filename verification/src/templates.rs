//! The page templates. tinytemplate holds and renders them; what they are
//! filled with reaches it as a value of serde_json that holds the same.
//!
//! A set of templates is made here and from texts alone, so that what a
//! template renders depends on the texts in the set, the template's name and
//! what it is filled with, and on nothing else.

use crate::context::{field_views, item_views, ContextValue, ContextView};
use crate::screen::{trips_compiler, would_trip_compiler};
use tinytemplate::TinyTemplate;
use vstd::prelude::*;
use vstd::string::*;

verus! {

/// The registry of templates and formatters of tinytemplate.
#[verifier::external_type_specification]
#[verifier::external_body]
pub struct ExTinyTemplate<'template>(TinyTemplate<'template>);

/// A set of page templates. It holds the texts that were added to it and the
/// formatters that tinytemplate starts with, and no others: nothing but
/// `new_templates` and `add_template` makes or changes one.
pub struct Templates {
    inner: TinyTemplate<'static>,
}

/// A value as serde_json holds it.
#[verifier::external_type_specification]
#[verifier::external_body]
pub struct ExJson(serde_json::Value);

/// The map of names and values in an object of serde_json.
#[verifier::external_type_specification]
#[verifier::external_body]
#[verifier::reject_recursive_types(K)]
#[verifier::reject_recursive_types(V)]
pub struct ExJsonMap<K, V>(serde_json::Map<K, V>);

/// What a value of serde_json holds, as far as the library makes such
/// values: it makes no numbers.
pub enum JsonView {
    Null,
    Bool(bool),
    Text(Seq<char>),
    List(Seq<JsonView>),
    Object(Map<Seq<char>, JsonView>),
}

/// What a value of serde_json holds.
pub uninterp spec fn json_content(json: serde_json::Value) -> JsonView;

/// What a map of serde_json holds under each name.
pub uninterp spec fn map_content(map: serde_json::Map<String, serde_json::Value>) -> Map<
    Seq<char>,
    JsonView,
>;

/// What a row of values of serde_json holds, place for place.
pub open spec fn json_contents(items: Seq<serde_json::Value>) -> Seq<JsonView> {
    Seq::new(items.len(), |i: int| json_content(items[i]))
}

/// `Value::Null` of serde_json: it holds nothing.
#[verifier::external_body]
fn json_null() -> (r: serde_json::Value)
    ensures
        json_content(r) == JsonView::Null,
{
    serde_json::Value::Null
}

/// `Value::Bool` of serde_json: it holds `b`.
#[verifier::external_body]
fn json_bool(b: bool) -> (r: serde_json::Value)
    ensures
        json_content(r) == JsonView::Bool(b),
{
    serde_json::Value::Bool(b)
}

/// `Value::String` of serde_json: it holds the letters of `text`.
#[verifier::external_body]
fn json_text(text: &str) -> (r: serde_json::Value)
    ensures
        json_content(r) == JsonView::Text(text@),
{
    serde_json::Value::String(text.to_owned())
}

/// `Value::Array` of serde_json: it holds what the items hold, in their
/// order.
#[verifier::external_body]
fn json_list(items: Vec<serde_json::Value>) -> (r: serde_json::Value)
    ensures
        json_content(r) == JsonView::List(json_contents(items@)),
{
    serde_json::Value::Array(items)
}

/// `Map::new` of serde_json: a map that holds nothing.
#[verifier::external_body]
fn json_map_new() -> (r: serde_json::Map<String, serde_json::Value>)
    ensures
        forall|name: Seq<char>| !map_content(r).contains_key(name),
{
    serde_json::Map::new()
}

/// `Map::insert` of serde_json: the map holds the value under the name
/// afterwards, in place of what it held under that name before, and
/// everything else as before.
#[verifier::external_body]
fn json_map_insert(
    map: &mut serde_json::Map<String, serde_json::Value>,
    name: &str,
    value: serde_json::Value,
)
    ensures
        map_content(*final(map)) == map_content(*old(map)).insert(name@, json_content(value)),
{
    map.insert(name.to_owned(), value);
}

/// `Value::Object` of serde_json: it holds what the map holds.
#[verifier::external_body]
fn json_object(map: serde_json::Map<String, serde_json::Value>) -> (r: serde_json::Value)
    ensures
        json_content(r) == JsonView::Object(map_content(map)),
{
    serde_json::Value::Object(map)
}

/// The texts in a set of templates, each under its name.
pub uninterp spec fn template_texts(templates: Templates) -> Map<Seq<char>, Seq<char>>;

/// The words with which tinytemplate refuses a text that is no template;
/// nothing for a text that it takes.
pub uninterp spec fn template_fault(text: Seq<char>) -> Option<Seq<char>>;

/// What the template `template` of a set with these texts renders when
/// filled with `context`: the page, or the words of the failure.
pub uninterp spec fn rendered_page(
    texts: Map<Seq<char>, Seq<char>>,
    template: Seq<char>,
    context: JsonView,
) -> Result<Seq<char>, Seq<char>>;

/// What a rendering gave, as a value.
pub open spec fn rendering(rendered: Result<String, String>) -> Result<Seq<char>, Seq<char>> {
    match rendered {
        Ok(page) => Ok(page@),
        Err(words) => Err(words@),
    }
}

/// What adding a text gave, as a value.
pub open spec fn adding(outcome: Result<(), String>) -> Result<(), Seq<char>> {
    match outcome {
        Ok(()) => Ok(()),
        Err(words) => Err(words@),
    }
}

/// `TinyTemplate::new` of tinytemplate: a registry without templates. Its
/// formatters are those that tinytemplate itself puts there.
#[verifier::external_body]
fn registry_new() -> (r: Templates)
    ensures
        forall|name: Seq<char>| !template_texts(r).contains_key(name),
{
    Templates { inner: TinyTemplate::new() }
}

/// `TinyTemplate::add_template` of tinytemplate: the text is compiled and,
/// where that goes well, registered under the name, in place of what was
/// registered there; where it fails, the registry stays as it was and the
/// failure is handed back in its words. Whether it fails depends on the text
/// alone. On a comment `{#}`, on an `if` block whose `not` has no path behind
/// it or a letter beyond ASCII right behind it, and on a text whose last run
/// outside a tag ends with a backslash, the compiler breaks off instead of
/// failing: such texts are not handed to it.
#[verifier::external_body]
fn registry_add(templates: &mut Templates, name: &'static str, text: &'static str) -> (r: Result<
    (),
    String,
>)
    requires
        !trips_compiler(text@),
    ensures
        adding(r) == match template_fault(text@) {
            None => Ok::<(), Seq<char>>(()),
            Some(words) => Err(words),
        },
        template_texts(*final(templates)) == match template_fault(text@) {
            None => template_texts(*old(templates)).insert(name@, text@),
            Some(_) => template_texts(*old(templates)),
        },
{
    templates.inner.add_template(name, text).map_err(|e| e.to_string())
}

/// `TinyTemplate::render` of tinytemplate: the template of that name, filled
/// with the context, or the words of its failure. With no formatters in the
/// registry but tinytemplate's own, and with the objects of serde_json held
/// in the order of their names, what comes back depends on the texts in the
/// registry, the name and what the context holds alone. A template that calls
/// another, or itself, hands it a part of its own context, so that rendering
/// comes to an end.
#[verifier::external_body]
fn render_json(templates: &Templates, template: &str, context: &serde_json::Value) -> (r: Result<
    String,
    String,
>)
    ensures
        rendering(r) == rendered_page(
            template_texts(*templates),
            template@,
            json_content(*context),
        ),
{
    templates.inner.render(template, context).map_err(|e| e.to_string())
}

/// A set without templates.
pub fn new_templates() -> (r: Templates)
    ensures
        forall|name: Seq<char>| !template_texts(r).contains_key(name),
{
    registry_new()
}

/// What is said of a text that is held back from the compiler.
pub const HELD_BACK: &'static str =
    "The template ends with a backslash, or holds `{#}` or a `not` without a path";

/// What adding a text comes to: a text that is held back is refused in the
/// library's words and one that is no template in the words of tinytemplate;
/// every other text is taken.
pub open spec fn add_outcome(text: Seq<char>) -> Result<(), Seq<char>> {
    if trips_compiler(text) {
        Err(HELD_BACK@)
    } else {
        match template_fault(text) {
            None => Ok(()),
            Some(words) => Err(words),
        }
    }
}

/// Adds the text of a template to the set under the name, in place of what
/// stood under that name. A text that is held back from the compiler, or
/// that is no template, is refused, and the set stays as it was.
pub fn add_template(templates: &mut Templates, name: &'static str, text: &'static str) -> (r:
    Result<(), String>)
    ensures
        adding(r) == add_outcome(text@),
        template_texts(*final(templates)) == if add_outcome(text@) is Ok {
            template_texts(*old(templates)).insert(name@, text@)
        } else {
            template_texts(*old(templates))
        },
{
    if would_trip_compiler(text) {
        Err(HELD_BACK.to_owned())
    } else {
        registry_add(templates, name, text)
    }
}

/// A template value as serde_json holds it: nothing, a mark and a text as
/// they are; a list item for item; a record as an object that holds each
/// field under its name, and of two fields of one name the later.
pub open spec fn json_of(value: ContextView) -> JsonView
    decreases value,
{
    match value {
        ContextView::Null => JsonView::Null,
        ContextView::Bool(b) => JsonView::Bool(b),
        ContextView::Text(text) => JsonView::Text(text),
        ContextView::List(items) => JsonView::List(jsons_of(items, items.len())),
        ContextView::Record(fields) => JsonView::Object(object_of(fields, fields.len())),
    }
}

/// The first `count` items of a row as serde_json holds them.
pub open spec fn jsons_of(items: Seq<ContextView>, count: nat) -> Seq<JsonView>
    decreases items, count,
{
    if count == 0 || count > items.len() {
        Seq::empty()
    } else {
        jsons_of(items, (count - 1) as nat).push(json_of(items[count - 1]))
    }
}

/// The first `count` fields of a row as a map of serde_json holds them.
pub open spec fn object_of(fields: Seq<(Seq<char>, ContextView)>, count: nat) -> Map<
    Seq<char>,
    JsonView,
>
    decreases fields, count,
{
    if count == 0 || count > fields.len() {
        Map::empty()
    } else {
        object_of(fields, (count - 1) as nat).insert(
            fields[count - 1].0,
            json_of(fields[count - 1].1),
        )
    }
}

/// The value as serde_json holds it, part for part.
fn to_json(value: &ContextValue) -> (r: serde_json::Value)
    ensures
        json_content(r) == json_of(value@),
    decreases value,
{
    match value {
        ContextValue::Null => json_null(),
        ContextValue::Bool(b) => json_bool(*b),
        ContextValue::Text(text) => json_text(text.as_str()),
        ContextValue::List(items) => {
            let ghost views = item_views(items@);
            let mut converted: Vec<serde_json::Value> = Vec::new();
            let mut i: usize = 0;
            proof {
                assert(value@->List_0 =~= views);
                assert(json_contents(converted@) =~= jsons_of(views, 0));
            }
            while i < items.len()
                invariant
                    i <= items.len(),
                    *value is List,
                    value->List_0 == *items,
                    views == item_views(items@),
                    json_contents(converted@) == jsons_of(views, i as nat),
                decreases items.len() - i,
            {
                let item = to_json(&items[i]);
                proof {
                    assert(views[i as int] == items@[i as int]@);
                    assert(json_contents(converted@.push(item)) =~= json_contents(
                        converted@,
                    ).push(json_content(item)));
                }
                converted.push(item);
                i += 1;
            }
            json_list(converted)
        },
        ContextValue::Record(fields) => {
            let ghost views = field_views(fields@);
            let mut map = json_map_new();
            let mut i: usize = 0;
            proof {
                assert(value@->Record_0 =~= views);
                assert(map_content(map) =~= object_of(views, 0));
            }
            while i < fields.len()
                invariant
                    i <= fields.len(),
                    *value is Record,
                    value->Record_0 == *fields,
                    views == field_views(fields@),
                    map_content(map) == object_of(views, i as nat),
                decreases fields.len() - i,
            {
                let item = to_json(&fields[i].1);
                proof {
                    assert(views[i as int] == (fields@[i as int].0@, fields@[i as int].1@));
                }
                json_map_insert(&mut map, fields[i].0.as_str(), item);
                i += 1;
            }
            json_object(map)
        },
    }
}

/// The page of the template `template`, filled with `context`, or the words
/// of the failure to render it.
pub(crate) fn render(templates: &Templates, template: &str, context: &ContextValue) -> (r: Result<
    String,
    String,
>)
    ensures
        rendering(r) == rendered_page(template_texts(*templates), template@, json_of(context@)),
{
    render_json(templates, template, &to_json(context))
}

} // verus!
