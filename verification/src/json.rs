//! JSON values.
use vstd::prelude::*;

use crate::text::{same, Text};

verus! {

/// A JSON value. A number is kept as text.
#[derive(Debug)]
pub enum Json {
    Null,
    Bool(bool),
    Number(String),
    Text(String),
    List(Vec<Json>),
    Table(Vec<(String, Json)>),
}

/// What a JSON value holds.
#[verifier::ext_equal]
pub enum JsonView {
    Null,
    Bool(bool),
    Number(Text),
    Text(Text),
    List(Seq<JsonView>),
    Table(Seq<(Text, JsonView)>),
}

impl View for Json {
    type V = JsonView;

    open spec fn view(&self) -> JsonView
        decreases self,
    {
        match self {
            Json::Null => JsonView::Null,
            Json::Bool(b) => JsonView::Bool(*b),
            Json::Number(n) => JsonView::Number(n@),
            Json::Text(s) => JsonView::Text(s@),
            Json::List(list) => JsonView::List(
                Seq::new(
                    list@.len(),
                    |i: int|
                        if 0 <= i < list@.len() {
                            list@[i].view()
                        } else {
                            JsonView::Null
                        },
                ),
            ),
            Json::Table(entries) => JsonView::Table(
                Seq::new(
                    entries@.len(),
                    |i: int|
                        if 0 <= i < entries@.len() {
                            (entries@[i].0@, entries@[i].1.view())
                        } else {
                            (Seq::empty(), JsonView::Null)
                        },
                ),
            ),
        }
    }
}

/// A table holds what its entries hold.
pub proof fn lemma_table(j: Json)
    requires
        j is Table,
    ensures
        j@ is Table,
        j@->Table_0.len() == j->Table_0@.len(),
        forall|i: int|
            0 <= i < j->Table_0@.len() ==> #[trigger] j@->Table_0[i] == (
                j->Table_0@[i].0@,
                j->Table_0@[i].1@,
            ),
{
    reveal_with_fuel(<Json as View>::view, 2);
}

/// A list holds what its items hold.
pub proof fn lemma_list(j: Json)
    requires
        j is List,
    ensures
        j@ is List,
        j@->List_0.len() == j->List_0@.len(),
        forall|i: int|
            0 <= i < j->List_0@.len() ==> #[trigger] j@->List_0[i] == j->List_0@[i]@,
{
    reveal_with_fuel(<Json as View>::view, 2);
}

/// `serde_json::Value`.
#[verifier::external_type_specification]
#[verifier::external_body]
pub struct ExValue(serde_json::Value);

/// `serde_json::Error`.
#[verifier::external_type_specification]
#[verifier::external_body]
pub struct ExError(serde_json::Error);

/// What a `serde_json::Value` holds.
pub uninterp spec fn contents(v: serde_json::Value) -> JsonView;

/// What `serde_json::from_str` reads out of a text; `None` where it is no JSON.
pub uninterp spec fn json_in(text: Text) -> Option<JsonView>;

/// `serde_json::from_str`, for a `serde_json::Value`: what it reads, and
/// whether it reads anything, depends on the text alone.
#[verifier::external_body]
fn from_str(text: &str) -> (r: Result<serde_json::Value, serde_json::Error>)
    ensures
        match r {
            Ok(v) => json_in(text@) == Some(contents(v)),
            Err(_) => json_in(text@) is None,
        },
{
    serde_json::from_str::<serde_json::Value>(text)
}

/// The value that a `serde_json::Value` stands for, variant by variant, with
/// the entries of an object in the order in which it gives them.
#[verifier::external_body]
fn json_of(v: serde_json::Value) -> (r: Json)
    ensures
        r@ == contents(v),
{
    match v {
        serde_json::Value::Null => Json::Null,
        serde_json::Value::Bool(b) => Json::Bool(b),
        serde_json::Value::Number(n) => Json::Number(n.to_string()),
        serde_json::Value::String(s) => Json::Text(s),
        serde_json::Value::Array(a) => Json::List(a.into_iter().map(json_of).collect()),
        serde_json::Value::Object(o) => Json::Table(
            o.into_iter().map(|(k, v)| (k, json_of(v))).collect(),
        ),
    }
}

/// The value that a text holds, if it is JSON.
pub fn parse(text: &str) -> (r: Option<Json>)
    ensures
        optional_json(r) == json_in(text@),
{
    match from_str(text) {
        Ok(v) => Some(json_of(v)),
        Err(_) => None,
    }
}

/// What a value that may be missing holds.
pub open spec fn optional_json(j: Option<Json>) -> Option<JsonView> {
    match j {
        Some(v) => Some(v@),
        None => None,
    }
}

/// What stands under a key: the value of the first entry with it.
pub open spec fn entry(entries: Seq<(Text, JsonView)>, key: Text) -> Option<JsonView>
    decreases entries.len(),
{
    if entries.len() == 0 {
        None
    } else if entries[0].0 == key {
        Some(entries[0].1)
    } else {
        entry(entries.skip(1), key)
    }
}

/// What a table has under a key; nothing where the value is no table.
pub open spec fn member(j: JsonView, key: Text) -> Option<JsonView> {
    match j {
        JsonView::Table(entries) => entry(entries, key),
        _ => None,
    }
}

/// The text under a key.
pub open spec fn text_member(j: JsonView, key: Text) -> Option<Text> {
    match member(j, key) {
        Some(JsonView::Text(s)) => Some(s),
        _ => None,
    }
}

impl Json {
    /// What a table has under a key.
    pub fn get(&self, key: &str) -> (r: Option<&Json>)
        ensures
            match r {
                Some(v) => member(self@, key@) == Some(v@),
                None => member(self@, key@) is None,
            },
    {
        let entries = match self {
            Json::Table(e) => e,
            _ => {
                return None;
            },
        };
        let ghost all = self@->Table_0;
        proof {
            lemma_table(*self);
        }
        let mut i: usize = 0;
        assert(all.skip(0) =~= all);
        while i < entries.len()
            invariant
                i <= entries@.len(),
                all == self@->Table_0,
                self@ is Table,
                all.len() == entries@.len(),
                forall|k: int|
                    0 <= k < entries@.len() ==> #[trigger] all[k] == (
                        entries@[k].0@,
                        entries@[k].1@,
                    ),
                entry(all, key@) == entry(all.skip(i as int), key@),
            decreases entries@.len() - i,
        {
            assert(all.skip(i as int)[0] == all[i as int]);
            assert(all.skip(i as int).skip(1) =~= all.skip(i + 1));
            if same(entries[i].0.as_str(), key) {
                return Some(&entries[i].1);
            }
            i = i + 1;
        }
        None
    }

    /// What a table has under a key, out of the table.
    pub fn into_member(self, key: &str) -> (r: Option<Json>)
        ensures
            optional_json(r) == member(self@, key@),
    {
        let ghost all = self@->Table_0;
        proof {
            if self is Table {
                lemma_table(self);
            }
        }
        let mut entries = match self {
            Json::Table(e) => e,
            _ => {
                return None;
            },
        };
        let mut i: usize = 0;
        assert(all.skip(0) =~= all);
        while i < entries.len()
            invariant
                i <= entries@.len(),
                self@ == JsonView::Table(all),
                all.len() == entries@.len(),
                forall|k: int|
                    0 <= k < entries@.len() ==> #[trigger] all[k] == (
                        entries@[k].0@,
                        entries@[k].1@,
                    ),
                entry(all, key@) == entry(all.skip(i as int), key@),
            decreases entries@.len() - i,
        {
            assert(all.skip(i as int)[0] == all[i as int]);
            assert(all.skip(i as int).skip(1) =~= all.skip(i + 1));
            if same(entries[i].0.as_str(), key) {
                return Some(entries.swap_remove(i).1);
            }
            i = i + 1;
        }
        None
    }

    /// The text under a key.
    pub fn get_text(&self, key: &str) -> (r: Option<&String>)
        ensures
            match r {
                Some(s) => text_member(self@, key@) == Some(s@),
                None => text_member(self@, key@) is None,
            },
    {
        match self.get(key) {
            Some(Json::Text(s)) => Some(s),
            _ => None,
        }
    }
}

} // verus!
