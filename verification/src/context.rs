//! What a page template is filled with: texts, marks, lists and records.

use vstd::prelude::*;
use vstd::string::*;

verus! {

/// A value that a template reads.
#[derive(Debug, PartialEq, Eq)]
pub enum ContextValue {
    /// Nothing.
    Null,
    /// Yes or no.
    Bool(bool),
    /// A text.
    Text(String),
    /// Values in a row.
    List(Vec<ContextValue>),
    /// Values by name.
    Record(Vec<(String, ContextValue)>),
}

/// A template value as a mathematical value.
pub enum ContextView {
    Null,
    Bool(bool),
    Text(Seq<char>),
    List(Seq<ContextView>),
    Record(Seq<(Seq<char>, ContextView)>),
}

/// The value that a template value stands for.
pub open spec fn value_view(value: ContextValue) -> ContextView
    decreases value,
{
    match value {
        ContextValue::Null => ContextView::Null,
        ContextValue::Bool(b) => ContextView::Bool(b),
        ContextValue::Text(text) => ContextView::Text(text@),
        ContextValue::List(items) => ContextView::List(
            Seq::new(
                items@.len(),
                |i: int|
                    if 0 <= i < items@.len() {
                        value_view(items@[i])
                    } else {
                        arbitrary()
                    },
            ),
        ),
        ContextValue::Record(fields) => ContextView::Record(
            Seq::new(
                fields@.len(),
                |i: int|
                    if 0 <= i < fields@.len() {
                        (fields@[i].0@, value_view(fields@[i].1))
                    } else {
                        arbitrary()
                    },
            ),
        ),
    }
}

impl View for ContextValue {
    type V = ContextView;

    open spec fn view(&self) -> ContextView {
        value_view(*self)
    }
}

/// The values of a row.
pub open spec fn item_views(items: Seq<ContextValue>) -> Seq<ContextView> {
    Seq::new(items.len(), |i: int| items[i]@)
}

/// The names and values of a row of fields.
pub open spec fn field_views(fields: Seq<(String, ContextValue)>) -> Seq<(Seq<char>, ContextView)> {
    Seq::new(fields.len(), |i: int| (fields[i].0@, fields[i].1@))
}

impl ContextValue {
    /// A text.
    pub fn text(text: &str) -> (r: ContextValue)
        ensures
            r@ == ContextView::Text(text@),
    {
        ContextValue::Text(text.to_owned())
    }

    /// A list of the items.
    pub fn list(items: Vec<ContextValue>) -> (r: ContextValue)
        ensures
            r@ == ContextView::List(item_views(items@)),
    {
        let r = ContextValue::List(items);
        assert(r@->List_0 =~= item_views(items@));
        r
    }

    /// A record of the fields.
    pub fn record(fields: Vec<(String, ContextValue)>) -> (r: ContextValue)
        ensures
            r@ == ContextView::Record(field_views(fields@)),
    {
        let r = ContextValue::Record(fields);
        assert(r@->Record_0 =~= field_views(fields@));
        r
    }
}

} // verus!
