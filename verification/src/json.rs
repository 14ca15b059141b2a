//! JSON values as plain data, and the reading and writing of their text.

use crate::text;
use vstd::prelude::*;
use vstd::string::*;

verus! {

/// A number of a JSON text, kept as `serde_json` holds it.
#[verifier::external_type_specification]
#[verifier::external_body]
pub struct ExNumber(serde_json::Number);

/// A JSON value of `serde_json`.
#[verifier::external_type_specification]
#[verifier::external_body]
pub struct ExValue(serde_json::Value);

/// What a JSON value is. The members of an object have no order, and each name
/// occurs once.
pub enum JsonView {
    Null,
    Bool(bool),
    Number(serde_json::Number),
    Text(Seq<char>),
    Array(Seq<JsonView>),
    Object(Map<Seq<char>, JsonView>),
}

/// A JSON value. Of two members of an object with one name the later one counts.
#[derive(Debug, PartialEq)]
pub enum Json {
    Null,
    Bool(bool),
    Number(serde_json::Number),
    Text(String),
    Array(Vec<Json>),
    Object(Vec<(String, Json)>),
}

/// The value that a [`Json`] holds.
pub open spec fn json_view(json: Json) -> JsonView
    decreases json,
{
    match json {
        Json::Null => JsonView::Null,
        Json::Bool(b) => JsonView::Bool(b),
        Json::Number(n) => JsonView::Number(n),
        Json::Text(s) => JsonView::Text(s@),
        Json::Array(items) => JsonView::Array(item_views(items@)),
        Json::Object(members) => JsonView::Object(member_views(members@)),
    }
}

/// The values of a list of JSON values.
pub open spec fn item_views(items: Seq<Json>) -> Seq<JsonView>
    decreases items,
{
    if items.len() == 0 {
        Seq::empty()
    } else {
        item_views(items.drop_last()).push(json_view(items.last()))
    }
}

/// The members that a list of named JSON values gives.
pub open spec fn member_views(members: Seq<(String, Json)>) -> Map<Seq<char>, JsonView>
    decreases members,
{
    if members.len() == 0 {
        Map::empty()
    } else {
        member_views(members.drop_last()).insert(members.last().0@, json_view(members.last().1))
    }
}

impl View for Json {
    type V = JsonView;

    open spec fn view(&self) -> JsonView {
        json_view(*self)
    }
}

/// The member of an object under a name, if the value is an object that has one.
pub open spec fn member(v: JsonView, name: Seq<char>) -> Option<JsonView> {
    match v {
        JsonView::Object(members) => if members.contains_key(name) {
            Some(members[name])
        } else {
            None
        },
        _ => None,
    }
}

/// The characters of a value that is a string.
pub open spec fn string_in(v: JsonView) -> Option<Seq<char>> {
    match v {
        JsonView::Text(s) => Some(s),
        _ => None,
    }
}

/// The characters of the string that an object holds under a name.
pub open spec fn member_string(v: JsonView, name: Seq<char>) -> Option<Seq<char>> {
    match member(v, name) {
        Some(w) => string_in(w),
        None => None,
    }
}

/// Whether arrays and objects nest at most `levels` deep in a value.
pub open spec fn nested_within(v: JsonView, levels: nat) -> bool
    decreases levels,
{
    match v {
        JsonView::Array(items) => levels > 0 && forall|i: int|
            0 <= i < items.len() ==> nested_within(#[trigger] items[i], (levels - 1) as nat),
        JsonView::Object(members) => levels > 0 && forall|name: Seq<char>| #[trigger]
            members.contains_key(name) ==> nested_within(members[name], (levels - 1) as nat),
        _ => true,
    }
}

/// How deep arrays and objects may nest in a text that can be read.
pub open spec fn nesting_limit() -> nat {
    127
}

/// What nests within some levels nests within more.
pub proof fn lemma_nested_within_more(v: JsonView, few: nat, many: nat)
    requires
        nested_within(v, few),
        few <= many,
    ensures
        nested_within(v, many),
    decreases few,
{
    match v {
        JsonView::Array(items) => {
            assert forall|i: int| 0 <= i < items.len() implies nested_within(
                #[trigger] items[i],
                (many - 1) as nat,
            ) by {
                lemma_nested_within_more(items[i], (few - 1) as nat, (many - 1) as nat);
            }
        },
        JsonView::Object(members) => {
            assert forall|name: Seq<char>| #[trigger] members.contains_key(name) implies nested_within(
                members[name],
                (many - 1) as nat,
            ) by {
                lemma_nested_within_more(members[name], (few - 1) as nat, (many - 1) as nat);
            }
        },
        _ => {},
    }
}

/// The values of a list are those of its items, one by one.
pub proof fn lemma_item_views(items: Seq<Json>)
    ensures
        item_views(items).len() == items.len(),
        forall|i: int| 0 <= i < items.len() ==> #[trigger] item_views(items)[i] == items[i]@,
    decreases items.len(),
{
    if items.len() > 0 {
        lemma_item_views(items.drop_last());
    }
}

/// One more item gives one more value.
pub proof fn lemma_push_item(items: Seq<Json>, item: Json)
    ensures
        item_views(items.push(item)) == item_views(items).push(item@),
{
    assert(items.push(item).drop_last() =~= items);
}

/// One more member comes to the others, or takes the place of one.
pub proof fn lemma_push_member(members: Seq<(String, Json)>, member: (String, Json))
    ensures
        member_views(members.push(member)) == member_views(members).insert(member.0@, member.1@),
{
    assert(members.push(member).drop_last() =~= members);
}

/// The members of an object nest no deeper than the object.
pub proof fn lemma_members_nested_within(v: JsonView, levels: nat)
    requires
        nested_within(v, levels),
    ensures
        forall|name: Seq<char>|
            (#[trigger] member(v, name)) is Some ==> nested_within(member(v, name)->0, levels),
{
    assert forall|name: Seq<char>| (#[trigger] member(v, name)) is Some implies nested_within(
        member(v, name)->0,
        levels,
    ) by {
        lemma_nested_within_more(member(v, name)->0, (levels - 1) as nat, levels);
    }
}

/// The items of an array nest less deep than the array.
pub proof fn lemma_items_nested_within(items: Seq<Json>, levels: nat)
    requires
        nested_within(JsonView::Array(item_views(items)), levels),
    ensures
        forall|i: int| 0 <= i < items.len() ==> nested_within(#[trigger] items[i]@, levels),
        forall|i: int|
            0 <= i < items.len() ==> nested_within(#[trigger] items[i]@, (levels - 1) as nat),
{
    lemma_item_views(items);
    let views = item_views(items);
    let v = JsonView::Array(views);
    assert(nested_within(v, levels));
    assert forall|i: int| 0 <= i < views.len() implies nested_within(
        #[trigger] views[i],
        (levels - 1) as nat,
    ) by {
        assert(v->Array_0[i] == views[i]);
    }
    assert forall|i: int| 0 <= i < items.len() implies nested_within(
        #[trigger] items[i]@,
        levels,
    ) && nested_within(items[i]@, (levels - 1) as nat) by {
        assert(nested_within(views[i], (levels - 1) as nat));
        lemma_nested_within_more(items[i]@, (levels - 1) as nat, levels);
    }
}

/// The value that a `serde_json::Value` stands for.
pub uninterp spec fn value_view(value: serde_json::Value) -> JsonView;

/// What `serde_json::from_str` reads from a text: a value, or the wording of
/// its error.
pub uninterp spec fn json_of_text(text: Seq<char>) -> Result<JsonView, Seq<char>>;

/// What `serde_json::to_string_pretty` writes for a value.
pub uninterp spec fn pretty_text(v: JsonView) -> Seq<char>;

/// How the errors of `serde_json::from_value` describe a value that is not of
/// the kind that was asked for.
pub uninterp spec fn value_words(v: JsonView) -> Seq<char>;

/// The wording of the refusal of a value where something else was asked for.
pub open spec fn mismatch(v: JsonView, expected: Seq<char>) -> Seq<char> {
    "invalid type: "@ + value_words(v) + ", expected "@ + expected
}

/// `serde_json::from_str`, asked for a `Value`. What it returns depends on the
/// text alone. It refuses a text whose arrays and objects nest deeper than its
/// fixed limit, and reads nothing but an object from a text that starts with an
/// opening brace, as long as its features `arbitrary_precision` and `raw_value`
/// are off.
#[verifier::external_body]
fn value_of_text(text: &str) -> (r: Result<serde_json::Value, String>)
    ensures
        match json_of_text(text@) {
            Ok(v) => r is Ok && value_view(r->Ok_0) == v,
            Err(e) => r is Err && r->Err_0@ == e,
        },
        r is Ok ==> nested_within(value_view(r->Ok_0), nesting_limit()),
        r is Ok && text@.len() > 0 && text@[0] == '{' ==> value_view(r->Ok_0) is Object,
{
    serde_json::from_str::<serde_json::Value>(text).map_err(|e| e.to_string())
}

/// The outer layer of a `serde_json::Value`.
enum Layer {
    Null,
    Bool(bool),
    Number(serde_json::Number),
    Text(String),
    Array(Vec<serde_json::Value>),
    Object(Vec<(String, serde_json::Value)>),
}

/// The members that a list of named `serde_json::Value`s gives.
spec fn layer_members(members: Seq<(String, serde_json::Value)>) -> Map<Seq<char>, JsonView>
    decreases members.len(),
{
    if members.len() == 0 {
        Map::empty()
    } else {
        layer_members(members.drop_last()).insert(
            members.last().0@,
            value_view(members.last().1),
        )
    }
}

/// The value whose outer layer this is.
spec fn layer_view(layer: Layer) -> JsonView {
    match layer {
        Layer::Null => JsonView::Null,
        Layer::Bool(b) => JsonView::Bool(b),
        Layer::Number(n) => JsonView::Number(n),
        Layer::Text(s) => JsonView::Text(s@),
        Layer::Array(items) => JsonView::Array(
            items@.map_values(|v: serde_json::Value| value_view(v)),
        ),
        Layer::Object(members) => JsonView::Object(layer_members(members@)),
    }
}

/// Takes a `serde_json::Value` apart into its kind and what it holds. The names
/// in a `serde_json::Map` are distinct.
#[verifier::external_body]
fn open_value(value: serde_json::Value) -> (r: Layer)
    ensures
        layer_view(r) == value_view(value),
        r matches Layer::Object(members) ==> forall|i: int, j: int|
            0 <= i < j < members@.len() ==> members@[i].0@ != members@[j].0@,
{
    match value {
        serde_json::Value::Null => Layer::Null,
        serde_json::Value::Bool(b) => Layer::Bool(b),
        serde_json::Value::Number(n) => Layer::Number(n),
        serde_json::Value::String(s) => Layer::Text(s),
        serde_json::Value::Array(items) => Layer::Array(items),
        serde_json::Value::Object(members) => Layer::Object(members.into_iter().collect()),
    }
}

/// Makes a `serde_json::Value` of a kind and what it holds. A `serde_json::Map`
/// keeps the last of the members that share a name.
#[verifier::external_body]
fn close_value(layer: Layer) -> (r: serde_json::Value)
    ensures
        value_view(r) == layer_view(layer),
{
    match layer {
        Layer::Null => serde_json::Value::Null,
        Layer::Bool(b) => serde_json::Value::Bool(b),
        Layer::Number(n) => serde_json::Value::Number(n),
        Layer::Text(s) => serde_json::Value::String(s),
        Layer::Array(items) => serde_json::Value::Array(items),
        Layer::Object(members) => serde_json::Value::Object(members.into_iter().collect()),
    }
}

/// Every name in a list of members is a member's, and where the names are distinct
/// each has its own value.
proof fn lemma_layer_members(members: Seq<(String, serde_json::Value)>)
    ensures
        layer_members(members).dom().finite(),
        forall|i: int|
            0 <= i < members.len() ==> layer_members(members).contains_key(
                (#[trigger] members[i]).0@,
            ),
        (forall|i: int, j: int| 0 <= i < j < members.len() ==> members[i].0@ != members[j].0@)
            ==> forall|i: int|
            0 <= i < members.len() ==> layer_members(members)[(#[trigger] members[i]).0@]
                == value_view(members[i].1),
    decreases members.len(),
{
    if members.len() > 0 {
        let rest = members.drop_last();
        lemma_layer_members(rest);
        assert forall|i: int| 0 <= i < members.len() implies layer_members(members).contains_key(
            (#[trigger] members[i]).0@,
        ) by {
            if i < rest.len() {
                assert(rest[i] == members[i]);
            }
        }
        if forall|i: int, j: int| 0 <= i < j < members.len() ==> members[i].0@ != members[j].0@ {
            assert forall|i: int, j: int| 0 <= i < j < rest.len() implies rest[i].0@
                != rest[j].0@ by {
                assert(rest[i] == members[i] && rest[j] == members[j]);
            }
            assert forall|i: int| 0 <= i < members.len() implies layer_members(
                members,
            )[(#[trigger] members[i]).0@] == value_view(members[i].1) by {
                if i < rest.len() {
                    assert(rest[i] == members[i]);
                    assert(members[i].0@ != members.last().0@);
                }
            }
        }
    }
}

/// Each `serde_json::Value` as a [`Json`].
pub fn json_of_value(value: serde_json::Value) -> (r: Json)
    ensures
        r@ == value_view(value),
    decreases value_view(value),
{
    let ghost whole = value_view(value);
    match open_value(value) {
        Layer::Null => Json::Null,
        Layer::Bool(b) => Json::Bool(b),
        Layer::Number(n) => Json::Number(n),
        Layer::Text(s) => Json::Text(s),
        Layer::Array(items) => {
            let mut list: Vec<Json> = Vec::new();
            let ghost views = whole->Array_0;
            for item in it: items
                invariant
                    it.seq() == items@,
                    whole == value_view(value),
                    whole == JsonView::Array(views),
                    views == items@.map_values(|v: serde_json::Value| value_view(v)),
                    item_views(list@) == views.take(it.index() as int),
            {
                proof {
                    assert(views[it.index() as int] == value_view(item));
                    assert(decreases_to!(whole => whole->Array_0));
                    assert(decreases_to!(views => views[it.index() as int]));
                }
                let json = json_of_value(item);
                proof {
                    lemma_push_item(list@, json);
                    assert(views.take(it.index() + 1) =~= views.take(it.index() as int).push(
                        views[it.index() as int],
                    ));
                }
                list.push(json);
            }
            proof {
                assert(views.take(items@.len() as int) =~= views);
            }
            Json::Array(list)
        },
        Layer::Object(members) => {
            let mut list: Vec<(String, Json)> = Vec::new();
            let ghost views = whole->Object_0;
            proof {
                lemma_layer_members(members@);
                assert(members@.take(0) =~= Seq::empty());
            }
            for member in it: members
                invariant
                    it.seq() == members@,
                    whole == value_view(value),
                    whole == JsonView::Object(views),
                    views == layer_members(members@),
                    views.dom().finite(),
                    forall|i: int|
                        0 <= i < members@.len() ==> views.contains_key(
                            (#[trigger] members@[i]).0@,
                        ) && views[members@[i].0@] == value_view(members@[i].1),
                    member_views(list@) == layer_members(members@.take(it.index() as int)),
            {
                let ghost k = it.index() as int;
                proof {
                    assert(members@[k] == member);
                    assert(decreases_to!(whole => whole->Object_0));
                    assert(decreases_to!(views => views[member.0@]));
                }
                let (name, v) = member;
                let named = (name, json_of_value(v));
                proof {
                    lemma_push_member(list@, named);
                    assert(members@.take(k + 1).drop_last() =~= members@.take(k));
                }
                list.push(named);
            }
            proof {
                assert(members@.take(members@.len() as int) =~= members@);
            }
            Json::Object(list)
        },
    }
}

/// Each [`Json`] as a `serde_json::Value`.
pub fn value_of_json(json: &Json) -> (r: serde_json::Value)
    ensures
        value_view(r) == json@,
    decreases json,
{
    match json {
        Json::Null => close_value(Layer::Null),
        Json::Bool(b) => close_value(Layer::Bool(*b)),
        Json::Number(n) => close_value(Layer::Number(n.clone())),
        Json::Text(s) => close_value(Layer::Text(s.clone())),
        Json::Array(items) => {
            let mut list: Vec<serde_json::Value> = Vec::new();
            let mut i: usize = 0;
            proof {
                lemma_item_views(items@);
            }
            while i < items.len()
                invariant
                    i <= items.len(),
                    *json == Json::Array(*items),
                    list.len() == i,
                    forall|k: int| 0 <= k < i ==> value_view(#[trigger] list@[k]) == items@[k]@,
                decreases items.len() - i,
            {
                proof {
                    assert(decreases_to!(*json => json->Array_0));
                    assert(decreases_to!(json->Array_0 => (json->Array_0)@));
                    assert(decreases_to!((json->Array_0)@ => (json->Array_0)@[i as int]));
                }
                list.push(value_of_json(&items[i]));
                i = i + 1;
            }
            proof {
                assert(list@.map_values(|v: serde_json::Value| value_view(v)) =~= item_views(
                    items@,
                ));
            }
            close_value(Layer::Array(list))
        },
        Json::Object(members) => {
            let mut list: Vec<(String, serde_json::Value)> = Vec::new();
            let mut i: usize = 0;
            proof {
                assert(members@.take(0) =~= Seq::empty());
            }
            while i < members.len()
                invariant
                    i <= members.len(),
                    *json == Json::Object(*members),
                    layer_members(list@) == member_views(members@.take(i as int)),
                decreases members.len() - i,
            {
                let ghost before = list@;
                proof {
                    assert(decreases_to!(*json => json->Object_0));
                    assert(decreases_to!((json->Object_0)@ => (json->Object_0)@[i as int]));
                    assert(decreases_to!(members@[i as int] => members@[i as int].1));
                }
                list.push((members[i].0.clone(), value_of_json(&members[i].1)));
                i = i + 1;
                proof {
                    assert(members@.take(i as int).drop_last() =~= members@.take(i - 1));
                    assert(list@.drop_last() =~= before);
                }
            }
            proof {
                assert(members@.take(i as int) =~= members@);
            }
            close_value(Layer::Object(list))
        },
    }
}

/// `serde_json::to_string_pretty` of a `Value`, which has no way to fail: all
/// its names are strings, and the text goes to memory. Reading the text back
/// gives the value that was written, unless it nests too deep to be read.
#[verifier::external_body]
fn pretty_text_of_value(value: &serde_json::Value) -> (r: Result<String, String>)
    ensures
        r is Ok,
        r->Ok_0@ == pretty_text(value_view(*value)),
        nested_within(value_view(*value), nesting_limit()) ==> json_of_text(r->Ok_0@) is Ok
            && json_of_text(r->Ok_0@)->Ok_0 == value_view(*value),
{
    serde_json::to_string_pretty(value).map_err(|e| e.to_string())
}

/// `serde_json::from_value`, asked for a `String`: it takes a string as it is
/// and refuses every other value, with an error that describes the value.
#[verifier::external_body]
fn string_of_value(value: serde_json::Value) -> (r: Result<String, String>)
    ensures
        match string_in(value_view(value)) {
            Some(s) => r is Ok && r->Ok_0@ == s,
            None => r is Err && r->Err_0@ == "invalid type: "@ + value_words(value_view(value))
                + ", expected "@ + "a string"@,
        },
{
    serde_json::from_value::<String>(value).map_err(|e| e.to_string())
}

/// `serde_json::from_value`, asked for a `Map`: it takes an object and refuses
/// every other value, with an error that describes the value.
#[verifier::external_body]
fn object_of_value(value: serde_json::Value) -> (r: Result<(), String>)
    ensures
        match value_view(value) {
            JsonView::Object(_) => r is Ok,
            v => r is Err && r->Err_0@ == "invalid type: "@ + value_words(v) + ", expected "@
                + "a map"@,
        },
{
    serde_json::from_value::<serde_json::Map<String, serde_json::Value>>(value)
        .map(|_o| ())
        .map_err(|e| e.to_string())
}

/// Cloning a `serde_json::Number` gives the same number.
pub assume_specification[ <serde_json::Number as Clone>::clone ](
    n: &serde_json::Number,
) -> (r: serde_json::Number)
    ensures
        r == *n,
;

/// Reads a JSON text. What starts with an opening brace is read as an object.
pub fn parse_json(text: &str) -> (r: Result<Json, String>)
    ensures
        match json_of_text(text@) {
            Ok(v) => r is Ok && r->Ok_0@ == v,
            Err(e) => r is Err && r->Err_0@ == e,
        },
        r is Ok ==> nested_within(r->Ok_0@, nesting_limit()),
        r is Ok && text@.len() > 0 && text@[0] == '{' ==> r->Ok_0@ is Object,
{
    match value_of_text(text) {
        Ok(value) => Ok(json_of_value(value)),
        Err(e) => Err(e),
    }
}

/// Writes a JSON value as indented text. Reading the text gives the value back,
/// unless it nests too deep to be read.
pub fn pretty_json(json: &Json) -> (r: Result<String, String>)
    ensures
        r is Ok,
        r->Ok_0@ == pretty_text(json@),
        nested_within(json@, nesting_limit()) ==> json_of_text(r->Ok_0@) == Ok::<
            JsonView,
            Seq<char>,
        >(json@),
{
    let value = value_of_json(json);
    pretty_text_of_value(&value)
}

/// The string that a value is, or the wording of the refusal.
pub fn expect_string(json: &Json) -> (r: Result<String, String>)
    ensures
        match string_in(json@) {
            Some(s) => r is Ok && r->Ok_0@ == s,
            None => r is Err && r->Err_0@ == mismatch(json@, "a string"@),
        },
{
    string_of_value(value_of_json(json))
}

/// The wording of the refusal of a value that should have been an object.
pub fn expect_object(json: &Json) -> (r: Result<(), String>)
    ensures
        match json@ {
            JsonView::Object(_) => r is Ok,
            v => r is Err && r->Err_0@ == mismatch(v, "a map"@),
        },
{
    object_of_value(value_of_json(json))
}

impl Json {
    /// The member of an object under a name, if this is an object that has one.
    pub fn get(&self, name: &str) -> (r: Option<&Json>)
        ensures
            match member(self@, name@) {
                Some(v) => r is Some && r->Some_0@ == v,
                None => r is None,
            },
    {
        match self {
            Json::Object(members) => {
                let mut i: usize = members.len();
                proof {
                    assert(members@.take(i as int) =~= members@);
                }
                while i > 0
                    invariant
                        i <= members.len(),
                        self@ == JsonView::Object(member_views(members@)),
                        member(self@, name@) == member(
                            JsonView::Object(member_views(members@.take(i as int))),
                            name@,
                        ),
                    decreases i,
                {
                    proof {
                        assert(members@.take(i as int).drop_last() =~= members@.take(i - 1));
                    }
                    i = i - 1;
                    if text::same_text(members[i].0.as_str(), name) {
                        return Some(&members[i].1);
                    }
                }
                None
            },
            _ => None,
        }
    }

    /// The characters of a string.
    pub fn as_str(&self) -> (r: Option<&str>)
        ensures
            match string_in(self@) {
                Some(s) => r is Some && r->Some_0@ == s,
                None => r is None,
            },
    {
        match self {
            Json::Text(s) => Some(s.as_str()),
            _ => None,
        }
    }

    /// The items of an array.
    pub fn as_array(&self) -> (r: Option<&Vec<Json>>)
        ensures
            match self@ {
                JsonView::Array(items) => r is Some && item_views(r->Some_0@) == items,
                _ => r is None,
            },
    {
        match self {
            Json::Array(items) => Some(items),
            _ => None,
        }
    }
}

impl Clone for Json {
    fn clone(&self) -> (r: Json)
        ensures
            r@ == self@,
        decreases self,
    {
        match self {
            Json::Null => Json::Null,
            Json::Bool(b) => Json::Bool(*b),
            Json::Number(n) => Json::Number(n.clone()),
            Json::Text(s) => Json::Text(s.clone()),
            Json::Array(items) => {
                let mut copy: Vec<Json> = Vec::new();
                let mut i: usize = 0;
                while i < items.len()
                    invariant
                        i <= items.len(),
                        *self == Json::Array(*items),
                        item_views(copy@) == item_views(items@.take(i as int)),
                    decreases items.len() - i,
                {
                    let ghost before = copy@;
                    proof {
                        assert(decreases_to!(*self => self->Array_0));
                        assert(decreases_to!(self->Array_0 => (self->Array_0)@));
                        assert(decreases_to!((self->Array_0)@ => (self->Array_0)@[i as int]));
                    }
                    copy.push(items[i].clone());
                    i = i + 1;
                    proof {
                        assert(items@.take(i as int).drop_last() =~= items@.take(i - 1));
                        assert(copy@.drop_last() =~= before);
                    }
                }
                proof {
                    assert(items@.take(i as int) =~= items@);
                }
                Json::Array(copy)
            },
            Json::Object(members) => {
                let mut copy: Vec<(String, Json)> = Vec::new();
                let mut i: usize = 0;
                while i < members.len()
                    invariant
                        i <= members.len(),
                        *self == Json::Object(*members),
                        member_views(copy@) == member_views(members@.take(i as int)),
                    decreases members.len() - i,
                {
                    let ghost before = copy@;
                    proof {
                        assert(decreases_to!(*self => self->Object_0));
                        assert(decreases_to!((self->Object_0)@ => (self->Object_0)@[i as int]));
                        assert(decreases_to!(members@[i as int] => members@[i as int].1));
                    }
                    copy.push((members[i].0.clone(), members[i].1.clone()));
                    i = i + 1;
                    proof {
                        assert(members@.take(i as int).drop_last() =~= members@.take(i - 1));
                        assert(copy@.drop_last() =~= before);
                    }
                }
                proof {
                    assert(members@.take(i as int) =~= members@);
                }
                Json::Object(copy)
            },
        }
    }
}

/// What a value is seen as has the kind and the content of the value.
pub proof fn law_a_value_is_what_it_holds(
    b: bool,
    n: serde_json::Number,
    s: String,
    items: Vec<Json>,
    i: int,
)
    ensures
        Json::Null@ == JsonView::Null,
        Json::Bool(b)@ == JsonView::Bool(b),
        Json::Number(n)@ == JsonView::Number(n),
        Json::Text(s)@ == JsonView::Text(s@),
        Json::Array(items)@ is Array,
        (Json::Array(items)@->Array_0).len() == items@.len(),
        0 <= i < items@.len() ==> (Json::Array(items)@->Array_0)[i] == items@[i]@,
{
    lemma_item_views(items@);
}

/// The member of an object under a name is the last one that has the name; there
/// is none if none has it.
pub proof fn law_the_last_member_of_a_name_counts(
    members: Vec<(String, Json)>,
    name: Seq<char>,
    i: int,
)
    requires
        -1 <= i < members@.len(),
        i >= 0 ==> members@[i].0@ == name,
        forall|k: int| i < k < members@.len() ==> (#[trigger] members@[k]).0@ != name,
    ensures
        i >= 0 ==> member(Json::Object(members)@, name) == Some(members@[i].1@),
        i < 0 ==> member(Json::Object(members)@, name) is None,
{
    lemma_last_member(members@, name, i);
}

/// The last one of the members with a name is the one that is found.
proof fn lemma_last_member(members: Seq<(String, Json)>, name: Seq<char>, i: int)
    requires
        -1 <= i < members.len(),
        i >= 0 ==> members[i].0@ == name,
        forall|k: int| i < k < members.len() ==> (#[trigger] members[k]).0@ != name,
    ensures
        i >= 0 ==> member_views(members).contains_key(name) && member_views(members)[name]
            == members[i].1@,
        i < 0 ==> !member_views(members).contains_key(name),
    decreases members.len(),
{
    if members.len() > 0 && i < members.len() - 1 {
        let rest = members.drop_last();
        assert(members[members.len() - 1].0@ != name);
        assert forall|k: int| i < k < rest.len() implies (#[trigger] rest[k]).0@ != name by {
            assert(rest[k] == members[k]);
        }
        lemma_last_member(rest, name, i);
    }
}

/// A value without members nests as deep as none, an array one deeper than its
/// items, an object one deeper than its members.
pub proof fn law_nesting(v: JsonView, levels: nat)
    ensures
        v !is Array && v !is Object ==> nested_within(v, levels),
        v matches JsonView::Array(items) ==> (nested_within(v, levels + 1) <==> forall|i: int|
            0 <= i < items.len() ==> nested_within(#[trigger] items[i], levels)),
        v matches JsonView::Object(members) ==> (nested_within(v, levels + 1) <==> forall|
            name: Seq<char>,
        | #[trigger] members.contains_key(name) ==> nested_within(members[name], levels)),
        v is Array || v is Object ==> !nested_within(v, 0),
        nesting_limit() == 127,
{
}

/// The members of an object are found under their names, other values have none,
/// and the string under a name is found exactly if there is one.
pub proof fn law_members_are_found(
    members: Map<Seq<char>, JsonView>,
    name: Seq<char>,
    v: JsonView,
    s: Seq<char>,
)
    ensures
        member(JsonView::Object(members), name) == Some(v) <==> members.contains_key(name)
            && members[name] == v,
        v !is Object ==> member(v, name) is None,
        member_string(JsonView::Object(members), name) == Some(s) <==> members.contains_key(name)
            && members[name] == JsonView::Text(s),
        v !is Object ==> member_string(v, name) is None,
{
}

} // verus!
