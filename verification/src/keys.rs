//! The table of API keys: what a key table may hold, how its text is read, and
//! how a table that comes from a file keeps up with it.

use crate::json;
use crate::json::{Json, JsonView};
use crate::scope;
use crate::scope::Scope;
use crate::text;
use vstd::hash_map::StringHashMap;
use vstd::prelude::*;
use vstd::string::*;

verus! {

/// What a key grants.
pub struct GrantView {
    pub tenant: Seq<char>,
    pub scope: Scope,
}

/// What a key grants: access to one tenant, or to all of them if the tenant is
/// `*`, up to a level.
#[derive(Debug)]
pub struct KeyGrant {
    pub tenant: String,
    pub scope: Scope,
}

impl View for KeyGrant {
    type V = GrantView;

    open spec fn view(&self) -> GrantView {
        GrantView { tenant: self.tenant@, scope: self.scope }
    }
}

/// Whether a grant is for a tenant.
pub open spec fn covers(grant: GrantView, tenant: Seq<char>) -> bool {
    grant.tenant == "*"@ || grant.tenant == tenant
}

impl KeyGrant {
    /// Whether the key is for a tenant.
    pub fn covers_tenant(&self, tenant: &str) -> (r: bool)
        ensures
            r == covers(self@, tenant@),
    {
        text::same_text(self.tenant.as_str(), "*") || text::same_text(self.tenant.as_str(), tenant)
    }
}

impl Clone for KeyGrant {
    fn clone(&self) -> (r: KeyGrant)
        ensures
            r@ == self@,
    {
        KeyGrant { tenant: self.tenant.clone(), scope: self.scope }
    }
}

/// What a record of a key table says.
pub struct EntryView {
    pub key: Seq<char>,
    pub tenant: Seq<char>,
    pub scope: Option<Seq<char>>,
}

/// What a record of a key table says.
#[derive(Debug)]
pub struct KeyEntry {
    pub key: String,
    pub tenant: String,
    pub scope: Option<String>,
}

impl View for KeyEntry {
    type V = EntryView;

    open spec fn view(&self) -> EntryView {
        EntryView {
            key: self.key@,
            tenant: self.tenant@,
            scope: text::string_view(self.scope),
        }
    }
}

/// The complaint about a positional record with too few fields.
pub open spec fn too_short(count: nat) -> Seq<char> {
    "invalid length "@ + text::decimal(count) + ", expected struct KeyEntry with 3 elements"@
}

/// The complaint about a positional record with too many fields.
pub open spec fn too_long(count: nat) -> Seq<char> {
    "invalid length "@ + text::decimal(count) + ", expected fewer elements in array"@
}

/// Whether a value may stand where a string is optional.
pub open spec fn string_or_null(v: JsonView) -> bool {
    v is Null || v is Text
}

/// What a record with named fields says, or what is wrong with it. Other fields
/// than the three are left aside.
pub open spec fn named_record(v: JsonView) -> Result<EntryView, Seq<char>> {
    let key = json::member(v, "key"@);
    let tenant = json::member(v, "tenant"@);
    let scope = json::member(v, "scope"@);
    if key is Some && key->0 !is Text {
        Err(json::mismatch(key->0, "a string"@))
    } else if scope is Some && !string_or_null(scope->0) {
        Err(json::mismatch(scope->0, "a string"@))
    } else if tenant is Some && tenant->0 !is Text {
        Err(json::mismatch(tenant->0, "a string"@))
    } else if key is None {
        Err("missing field `key`"@)
    } else if tenant is None {
        Err("missing field `tenant`"@)
    } else {
        Ok(
            EntryView {
                key: key->0->Text_0,
                tenant: tenant->0->Text_0,
                scope: json::member_string(v, "scope"@),
            },
        )
    }
}

/// What a record that lists key, tenant and scope says, or what is wrong with it.
pub open spec fn positional_record(items: Seq<JsonView>) -> Result<EntryView, Seq<char>> {
    if items.len() == 0 {
        Err(too_short(0))
    } else if items[0] !is Text {
        Err(json::mismatch(items[0], "a string"@))
    } else if items.len() == 1 {
        Err(too_short(1))
    } else if items[1] !is Text {
        Err(json::mismatch(items[1], "a string"@))
    } else if items.len() == 2 {
        Err(too_short(2))
    } else if !string_or_null(items[2]) {
        Err(json::mismatch(items[2], "a string"@))
    } else if items.len() > 3 {
        Err(too_long(items.len()))
    } else {
        Ok(
            EntryView {
                key: items[0]->Text_0,
                tenant: items[1]->Text_0,
                scope: json::string_in(items[2]),
            },
        )
    }
}

/// What a record of a key table says, or what is wrong with it.
pub open spec fn record_of(v: JsonView) -> Result<EntryView, Seq<char>> {
    match v {
        JsonView::Object(_) => named_record(v),
        JsonView::Array(items) => positional_record(items),
        _ => Err(json::mismatch(v, "struct KeyEntry"@)),
    }
}

/// The level that a record asks for: to read, if it names none.
pub open spec fn entry_scope(entry: EntryView) -> Option<Scope> {
    match entry.scope {
        None => Some(Scope::Read),
        Some(name) => scope::scope_named(name),
    }
}

/// The key and the grant of a record, or what is wrong with it. Records count
/// from 1.
pub open spec fn grant_of_entry(entry: EntryView, number: nat) -> Result<
    (Seq<char>, GrantView),
    Seq<char>,
> {
    if entry.key.len() == 0 || entry.tenant.len() == 0 {
        Err("第 "@ + text::decimal(number) + " 条记录 key / tenant 不能为空"@)
    } else {
        match entry_scope(entry) {
            None => Err("第 "@ + text::decimal(number) + " 条记录 scope 非法: "@ + entry.scope->0),
            Some(scope) => if entry.tenant == "*"@ && scope != Scope::Admin {
                Err(
                    "第 "@ + text::decimal(number)
                        + " 条记录：tenant=\"*\" 通配仅允许 admin 档位"@,
                )
            } else {
                Ok((entry.key, GrantView { tenant: entry.tenant, scope }))
            },
        }
    }
}

/// The key and the grant of an item of a key table, or what is wrong with it.
pub open spec fn grant_of_item(item: JsonView, number: nat) -> Result<
    (Seq<char>, GrantView),
    Seq<char>,
> {
    match record_of(item) {
        Err(e) => Err("第 "@ + text::decimal(number) + " 条 key 记录格式错误: "@ + e),
        Ok(entry) => grant_of_entry(entry, number),
    }
}

/// The grants that a list of records gives, or what is wrong with the first
/// record that has a fault. Of two records with one key the later one counts.
pub open spec fn table_of(items: Seq<JsonView>) -> Result<Map<Seq<char>, GrantView>, Seq<char>>
    decreases items.len(),
{
    if items.len() == 0 {
        Ok(Map::empty())
    } else {
        match table_of(items.drop_last()) {
            Err(e) => Err(e),
            Ok(table) => match grant_of_item(items.last(), items.len()) {
                Err(e) => Err(e),
                Ok((key, grant)) => Ok(table.insert(key, grant)),
            },
        }
    }
}

/// The records of a key table: an array of them, or an object with such an array
/// under `keys`.
pub open spec fn table_items(v: JsonView) -> Option<Seq<JsonView>> {
    match v {
        JsonView::Array(items) => Some(items),
        _ => match json::member(v, "keys"@) {
            Some(JsonView::Array(items)) => Some(items),
            _ => None,
        },
    }
}

/// The complaint about JSON that is no key table.
pub open spec fn not_a_table() -> Seq<char> {
    "key 表必须是 JSON 数组或 {\"keys\": [...]}"@
}

/// The complaint about a key table without keys.
pub open spec fn no_keys() -> Seq<char> {
    "key 表为空（不配置鉴权请直接去掉环境变量）"@
}

/// The grants that the JSON of a key table gives, or what is wrong with it.
pub open spec fn grants_of_json(v: JsonView) -> Result<Map<Seq<char>, GrantView>, Seq<char>> {
    match table_items(v) {
        None => Err(not_a_table()),
        Some(items) => match table_of(items) {
            Err(e) => Err(e),
            Ok(table) => if table.is_empty() {
                Err(no_keys())
            } else {
                Ok(table)
            },
        },
    }
}

/// The grants that the text of a key table gives, or what is wrong with it.
pub open spec fn grants_of_text(raw: Seq<char>) -> Result<Map<Seq<char>, GrantView>, Seq<char>> {
    match json::json_of_text(raw) {
        Err(e) => Err(e),
        Ok(v) => grants_of_json(v),
    }
}

/// What a key may grant: the key and the tenant are not empty, and only the
/// highest level is granted for all tenants.
pub open spec fn may_grant(key: Seq<char>, grant: GrantView) -> bool {
    &&& key.len() > 0
    &&& grant.tenant.len() > 0
    &&& grant.tenant == "*"@ ==> grant.scope == Scope::Admin
}

/// Whether every key of a table grants what a key may grant.
pub open spec fn obeys_rules(table: Map<Seq<char>, GrantView>) -> bool {
    forall|key: Seq<char>| #[trigger] table.contains_key(key) ==> may_grant(key, table[key])
}

/// The grants of a table of [`KeyGrant`]s.
pub open spec fn grant_views(grants: Map<Seq<char>, KeyGrant>) -> Map<Seq<char>, GrantView> {
    grants.map_values(|g: KeyGrant| g@)
}

/// The table of a list of records obeys the rules, and is empty only if the list
/// is.
pub proof fn lemma_table_obeys_rules(items: Seq<JsonView>)
    ensures
        table_of(items) matches Ok(table) ==> obeys_rules(table) && (table.is_empty()
            <==> items.len() == 0),
    decreases items.len(),
{
    if items.len() > 0 {
        lemma_table_obeys_rules(items.drop_last());
        if let Ok(table) = table_of(items) {
            let (key, grant) = grant_of_item(items.last(), items.len())->Ok_0;
            assert(table.contains_key(key));
        }
    }
}

/// A key table that could be read has at least one key, its keys and tenants are
/// not empty, and only the highest level is granted for all tenants.
pub proof fn law_read_tables_obey_the_rules(raw: Seq<char>)
    ensures
        grants_of_text(raw) matches Ok(table) ==> obeys_rules(table) && !table.is_empty(),
{
    if let Ok(v) = json::json_of_text(raw) {
        if let Some(items) = table_items(v) {
            lemma_table_obeys_rules(items);
        }
    }
}

/// Reads a string that may be missing or null.
fn optional_string(item: Option<&Json>) -> (r: Result<Option<String>, String>)
    ensures
        match item {
            None => r is Ok && r->Ok_0 is None,
            Some(v) => if string_or_null(v@) {
                r is Ok && (match json::string_in(v@) {
                    Some(s) => r->Ok_0 is Some && r->Ok_0->0@ == s,
                    None => r->Ok_0 is None,
                })
            } else {
                r is Err && r->Err_0@ == json::mismatch(v@, "a string"@)
            },
        },
{
    match item {
        None => Ok(None),
        Some(Json::Null) => Ok(None),
        Some(v) => match json::expect_string(v) {
            Ok(s) => Ok(Some(s)),
            Err(e) => Err(e),
        },
    }
}

/// The complaint about an item that is no record.
fn not_a_record(item: &Json) -> (r: String)
    requires
        item@ !is Object,
    ensures
        r@ == json::mismatch(item@, "struct KeyEntry"@),
{
    match json::expect_object(item) {
        Ok(_o) => String::new(),
        Err(e) => {
            let chars = text::chars_of(e.as_str());
            proof {
                reveal_strlit("a map");
                let before = "invalid type: "@ + json::value_words(item@) + ", expected "@;
                assert(e@ == before + "a map"@);
                assert(e@.subrange(0, e@.len() - 5) =~= before);
            }
            let mut r = text::string_of(&chars, 0, chars.len() - 5);
            r.append("struct KeyEntry");
            r
        },
    }
}

/// A complaint that quotes a number.
fn with_number(before: &str, number: usize, after: &str) -> (r: String)
    ensures
        r@ == before@ + text::decimal(number as nat) + after@,
{
    let mut r = before.to_owned();
    r.append(text::decimal_string(number).as_str());
    r.append(after);
    r
}

/// Reads a record with named fields.
fn read_named_record(item: &Json) -> (r: Result<KeyEntry, String>)
    requires
        item@ is Object,
    ensures
        match named_record(item@) {
            Ok(entry) => r is Ok && r->Ok_0@ == entry,
            Err(e) => r is Err && r->Err_0@ == e,
        },
{
    let key = match item.get("key") {
        None => None,
        Some(v) => match json::expect_string(v) {
            Ok(s) => Some(s),
            Err(e) => {
                return Err(e);
            },
        },
    };
    let scope = match optional_string(item.get("scope")) {
        Ok(s) => s,
        Err(e) => {
            return Err(e);
        },
    };
    let tenant = match item.get("tenant") {
        None => None,
        Some(v) => match json::expect_string(v) {
            Ok(s) => Some(s),
            Err(e) => {
                return Err(e);
            },
        },
    };
    match (key, tenant) {
        (None, _) => Err("missing field `key`".to_owned()),
        (Some(_key), None) => Err("missing field `tenant`".to_owned()),
        (Some(key), Some(tenant)) => Ok(KeyEntry { key, tenant, scope }),
    }
}

/// Reads a record that lists key, tenant and scope.
fn read_positional_record(items: &Vec<Json>) -> (r: Result<KeyEntry, String>)
    ensures
        match positional_record(json::item_views(items@)) {
            Ok(entry) => r is Ok && r->Ok_0@ == entry,
            Err(e) => r is Err && r->Err_0@ == e,
        },
{
    proof {
        json::lemma_item_views(items@);
    }
    if items.len() == 0 {
        return Err(
            with_number("invalid length ", 0, ", expected struct KeyEntry with 3 elements"),
        );
    }
    let key = match json::expect_string(&items[0]) {
        Ok(s) => s,
        Err(e) => {
            return Err(e);
        },
    };
    if items.len() == 1 {
        return Err(
            with_number("invalid length ", 1, ", expected struct KeyEntry with 3 elements"),
        );
    }
    let tenant = match json::expect_string(&items[1]) {
        Ok(s) => s,
        Err(e) => {
            return Err(e);
        },
    };
    if items.len() == 2 {
        return Err(
            with_number("invalid length ", 2, ", expected struct KeyEntry with 3 elements"),
        );
    }
    let scope = match optional_string(Some(&items[2])) {
        Ok(s) => s,
        Err(e) => {
            return Err(e);
        },
    };
    if items.len() > 3 {
        return Err(
            with_number("invalid length ", items.len(), ", expected fewer elements in array"),
        );
    }
    Ok(KeyEntry { key, tenant, scope })
}

/// Reads a record of a key table.
pub fn read_record(item: &Json) -> (r: Result<KeyEntry, String>)
    ensures
        match record_of(item@) {
            Ok(entry) => r is Ok && r->Ok_0@ == entry,
            Err(e) => r is Err && r->Err_0@ == e,
        },
{
    match item {
        Json::Object(_members) => read_named_record(item),
        Json::Array(items) => read_positional_record(items),
        _ => Err(not_a_record(item)),
    }
}

/// The key and the grant of a record, or what is wrong with it. Records count
/// from 1.
pub fn grant_from_entry(entry: KeyEntry, number: usize) -> (r: Result<(String, KeyGrant), String>)
    ensures
        match grant_of_entry(entry@, number as nat) {
            Ok((key, grant)) => r is Ok && r->Ok_0.0@ == key && r->Ok_0.1@ == grant,
            Err(e) => r is Err && r->Err_0@ == e,
        },
{
    if entry.key.as_str().is_empty() || entry.tenant.as_str().is_empty() {
        return Err(with_number("第 ", number, " 条记录 key / tenant 不能为空"));
    }
    let scope = match &entry.scope {
        None => Scope::Read,
        Some(name) => match Scope::parse(name.as_str()) {
            Some(scope) => scope,
            None => {
                let mut e = with_number("第 ", number, " 条记录 scope 非法: ");
                e.append(name.as_str());
                return Err(e);
            },
        },
    };
    if text::same_text(entry.tenant.as_str(), "*") && scope != Scope::Admin {
        return Err(
            with_number("第 ", number, " 条记录：tenant=\"*\" 通配仅允许 admin 档位"),
        );
    }
    Ok((entry.key, KeyGrant { tenant: entry.tenant, scope }))
}

/// The key and the grant of an item of a key table, or what is wrong with it.
fn grant_from_item(item: &Json, number: usize) -> (r: Result<(String, KeyGrant), String>)
    ensures
        match grant_of_item(item@, number as nat) {
            Ok((key, grant)) => r is Ok && r->Ok_0.0@ == key && r->Ok_0.1@ == grant,
            Err(e) => r is Err && r->Err_0@ == e,
        },
{
    match read_record(item) {
        Ok(entry) => grant_from_entry(entry, number),
        Err(detail) => {
            let mut e = with_number("第 ", number, " 条 key 记录格式错误: ");
            e.append(detail.as_str());
            Err(e)
        },
    }
}

/// The grants that a list of records gives, or what is wrong with the first
/// record that has a fault.
pub fn grants_from_items(items: &Vec<Json>) -> (r: Result<StringHashMap<KeyGrant>, String>)
    ensures
        match table_of(json::item_views(items@)) {
            Ok(table) => r is Ok && grant_views(r->Ok_0@) == table,
            Err(e) => r is Err && r->Err_0@ == e,
        },
{
    let ghost views = json::item_views(items@);
    proof {
        json::lemma_item_views(items@);
    }
    let mut grants: StringHashMap<KeyGrant> = StringHashMap::new();
    let mut i: usize = 0;
    proof {
        assert(grant_views(grants@) =~= Map::empty());
    }
    while i < items.len()
        invariant
            i <= items.len(),
            views == json::item_views(items@),
            views.len() == items.len(),
            forall|k: int| 0 <= k < items.len() ==> #[trigger] views[k] == items@[k]@,
            table_of(views.take(i as int)) == Ok::<Map<Seq<char>, GrantView>, Seq<char>>(
                grant_views(grants@),
            ),
        decreases items.len() - i,
    {
        proof {
            assert(views.take(i + 1).drop_last() =~= views.take(i as int));
            assert(views.take(i + 1).last() == items@[i as int]@);
        }
        match grant_from_item(&items[i], i + 1) {
            Ok((key, grant)) => {
                let ghost before = grants@;
                let ghost (named, granted) = (key@, grant);
                grants.insert(key, grant);
                proof {
                    assert(grant_views(before.insert(named, granted)) =~= grant_views(before).insert(
                        named,
                        granted@,
                    ));
                }
            },
            Err(e) => {
                proof {
                    lemma_fault_stays(views, i + 1);
                }
                return Err(e);
            },
        }
        i = i + 1;
    }
    proof {
        assert(views.take(i as int) =~= views);
    }
    Ok(grants)
}

/// A fault in the first records of a list is the fault of the list.
proof fn lemma_fault_stays(items: Seq<JsonView>, count: int)
    requires
        0 <= count <= items.len(),
        table_of(items.take(count)) is Err,
    ensures
        table_of(items) == table_of(items.take(count)),
    decreases items.len() - count,
{
    if count < items.len() {
        assert(items.take(count + 1).drop_last() =~= items.take(count));
        lemma_fault_stays(items, count + 1);
    } else {
        assert(items.take(count) =~= items);
    }
}

/// The grants that the JSON of a key table gives, or what is wrong with it.
pub fn grants_from_json(json: &Json) -> (r: Result<StringHashMap<KeyGrant>, String>)
    ensures
        match grants_of_json(json@) {
            Ok(table) => r is Ok && grant_views(r->Ok_0@) == table,
            Err(e) => r is Err && r->Err_0@ == e,
        },
{
    let items: &Vec<Json> = match json.as_array() {
        Some(items) => items,
        None => match json.get("keys") {
            Some(v) => match v.as_array() {
                Some(items) => items,
                None => {
                    return Err("key 表必须是 JSON 数组或 {\"keys\": [...]}".to_owned());
                },
            },
            None => {
                return Err("key 表必须是 JSON 数组或 {\"keys\": [...]}".to_owned());
            },
        },
    };
    match grants_from_items(items) {
        Err(e) => Err(e),
        Ok(grants) => {
            if grants.is_empty() {
                proof {
                    assert(grant_views(grants@).dom() =~= grants@.dom());
                }
                Err("key 表为空（不配置鉴权请直接去掉环境变量）".to_owned())
            } else {
                proof {
                    assert(grant_views(grants@).dom() =~= grants@.dom());
                }
                Ok(grants)
            }
        },
    }
}

/// What became of an attempt to bring a key table up to date with its file.
#[derive(Debug, Clone, Copy, PartialEq, Eq, Structural)]
pub enum Reload {
    /// The file has not changed, or the table does not come from a file.
    Current,
    /// The table was read anew and now holds this many keys.
    Reloaded(usize),
    /// The file could not be read; the table is as it was.
    Kept,
}

/// The grants that a file gives which is read anew: those that its text gives,
/// if it could be read and is a key table.
pub open spec fn regained(raw: Option<Seq<char>>) -> Option<Map<Seq<char>, GrantView>> {
    match raw {
        Some(text) => match grants_of_text(text) {
            Ok(table) => Some(table),
            Err(_) => None,
        },
        None => None,
    }
}

/// The grants of a table after an attempt to bring it up to date with its file.
pub open spec fn table_after(
    table: Map<Seq<char>, GrantView>,
    stale: bool,
    raw: Option<Seq<char>>,
) -> Map<Seq<char>, GrantView> {
    match regained(raw) {
        Some(other) => if stale {
            other
        } else {
            table
        },
        None => table,
    }
}

/// A table of API keys. One that comes from a file remembers when that file was
/// last modified, in nanoseconds since the epoch, as far as that was known.
pub struct ApiKeys {
    grants: StringHashMap<KeyGrant>,
    watched: bool,
    loaded_mtime: Option<i128>,
}

impl View for ApiKeys {
    type V = Map<Seq<char>, GrantView>;

    closed spec fn view(&self) -> Map<Seq<char>, GrantView> {
        grant_views(self.grants@)
    }
}

impl ApiKeys {
    #[verifier::type_invariant]
    spec fn valid(self) -> bool {
        obeys_rules(grant_views(self.grants@))
    }

    /// Whether the table comes from a file.
    pub closed spec fn is_watched(&self) -> bool {
        self.watched
    }

    /// When the file was last modified that the table was read from.
    pub closed spec fn mtime(&self) -> Option<i128> {
        self.loaded_mtime
    }

    /// Whether a file that was modified at `mtime` has to be read anew.
    pub open spec fn is_stale(&self, mtime: Option<i128>) -> bool {
        self.is_watched() && self.mtime() != mtime
    }

    /// Reads the text of a key table.
    pub fn parse_grants(json: &str) -> (r: Result<StringHashMap<KeyGrant>, String>)
        ensures
            match grants_of_text(json@) {
                Ok(table) => r is Ok && grant_views(r->Ok_0@) == table,
                Err(e) => r is Err && r->Err_0@ == e,
            },
    {
        match json::parse_json(json) {
            Ok(v) => grants_from_json(&v),
            Err(e) => Err(e),
        }
    }

    /// Reads a key table that is given as text. It is never read anew.
    pub fn parse(json: &str) -> (r: Result<ApiKeys, String>)
        ensures
            match grants_of_text(json@) {
                Ok(table) => r is Ok && r->Ok_0@ == table && !r->Ok_0.is_watched()
                    && r->Ok_0.mtime() is None,
                Err(e) => r is Err && r->Err_0@ == e,
            },
    {
        match ApiKeys::parse_grants(json) {
            Ok(grants) => {
                proof {
                    law_read_tables_obey_the_rules(json@);
                }
                Ok(ApiKeys { grants, watched: false, loaded_mtime: None })
            },
            Err(e) => Err(e),
        }
    }

    /// Reads a key table from the text of its file, which was modified at
    /// `mtime`.
    pub fn load(raw: &str, mtime: Option<i128>) -> (r: Result<ApiKeys, String>)
        ensures
            match grants_of_text(raw@) {
                Ok(table) => r is Ok && r->Ok_0@ == table && r->Ok_0.is_watched()
                    && r->Ok_0.mtime() == mtime,
                Err(e) => r is Err && r->Err_0@ == "解析失败: "@ + e,
            },
    {
        match ApiKeys::parse_grants(raw) {
            Ok(grants) => {
                proof {
                    law_read_tables_obey_the_rules(raw@);
                }
                Ok(ApiKeys { grants, watched: true, loaded_mtime: mtime })
            },
            Err(e) => {
                let mut message = "解析失败: ".to_owned();
                message.append(e.as_str());
                Err(message)
            },
        }
    }

    /// What a key grants; nothing if the table does not hold the key.
    pub fn authenticate(&self, key: &str) -> (r: Option<KeyGrant>)
        ensures
            self@.contains_key(key@) ==> r is Some && r->0@ == self@[key@],
            !self@.contains_key(key@) ==> r is None,
            r is Some ==> may_grant(key@, r->0@),
    {
        proof {
            use_type_invariant(self);
            assert(self@.contains_key(key@) ==> may_grant(key@, self@[key@]));
        }
        match self.grants.get(key) {
            Some(grant) => Some(grant.clone()),
            None => None,
        }
    }

    /// How many keys the table holds.
    pub fn len(&self) -> (r: usize)
        ensures
            r == self@.len(),
    {
        proof {
            assert(self@.dom() =~= self.grants@.dom());
        }
        self.grants.len()
    }

    /// Whether a file that was modified at `mtime` has to be read anew.
    pub fn reload_due(&self, mtime: Option<i128>) -> (r: bool)
        ensures
            r == self.is_stale(mtime),
    {
        if !self.watched {
            return false;
        }
        match (self.loaded_mtime, mtime) {
            (None, None) => false,
            (Some(a), Some(b)) => a != b,
            _ => true,
        }
    }

    /// Brings the table up to date with its file, which was modified at `mtime`
    /// and whose text is `raw`, as far as it could be read. A file that cannot be
    /// read, or is no key table, leaves the table as it was, and will be tried
    /// again.
    pub fn maybe_reload(&mut self, mtime: Option<i128>, raw: Option<&str>) -> (r: Reload)
        ensures
            final(self)@ == table_after(
                old(self)@,
                old(self).is_stale(mtime),
                text::str_view(raw),
            ),
            final(self).is_watched() == old(self).is_watched(),
            final(self).is_stale(mtime) == (r == Reload::Kept),
            !old(self).is_stale(mtime) ==> r == Reload::Current,
            r !is Reloaded ==> final(self).mtime() == old(self).mtime(),
            old(self).is_stale(mtime) ==> match regained(text::str_view(raw)) {
                Some(table) => r is Reloaded && r->Reloaded_0 == table.len()
                    && final(self).mtime() == mtime,
                None => r == Reload::Kept,
            },
    {
        if !self.reload_due(mtime) {
            return Reload::Current;
        }
        match raw {
            Some(text) => match ApiKeys::parse_grants(text) {
                Ok(grants) => {
                    proof {
                        law_read_tables_obey_the_rules(text@);
                        assert(grant_views(grants@).dom() =~= grants@.dom());
                    }
                    let n: usize = grants.len();
                    *self = ApiKeys { grants, watched: self.watched, loaded_mtime: mtime };
                    Reload::Reloaded(n)
                },
                Err(_e) => Reload::Kept,
            },
            None => Reload::Kept,
        }
    }
}

impl Default for ApiKeys {
    fn default() -> (r: ApiKeys)
        ensures
            r@ == Map::<Seq<char>, GrantView>::empty(),
            !r.is_watched(),
            r.mtime() is None,
    {
        let grants: StringHashMap<KeyGrant> = StringHashMap::new();
        proof {
            assert(grant_views(grants@) =~= Map::empty());
        }
        ApiKeys { grants, watched: false, loaded_mtime: None }
    }
}

/// A record that names no level grants the lowest one.
pub proof fn law_a_record_without_a_level_may_read(entry: EntryView, number: nat)
    requires
        entry.key.len() > 0,
        entry.tenant.len() > 0,
        entry.tenant != "*"@,
        entry.scope is None,
    ensures
        grant_of_entry(entry, number) == Ok::<(Seq<char>, GrantView), Seq<char>>(
            (entry.key, GrantView { tenant: entry.tenant, scope: Scope::Read }),
        ),
{
}

/// A list of records, and any object that holds the list under `keys`, whatever
/// else it holds, are the same key table.
pub proof fn law_both_forms_give_one_table(items: Seq<JsonView>, v: JsonView)
    requires
        json::member(v, "keys"@) == Some(JsonView::Array(items)),
    ensures
        table_items(v) == table_items(JsonView::Array(items)),
        grants_of_json(v) == grants_of_json(JsonView::Array(items)),
{
}

/// A file that cannot be read or is no key table takes no key away and adds
/// none, and a table that is up to date stays as it is.
pub proof fn law_a_table_is_never_lost(
    table: Map<Seq<char>, GrantView>,
    stale: bool,
    raw: Option<Seq<char>>,
)
    ensures
        regained(raw) is None || !stale ==> table_after(table, stale, raw) == table,
        obeys_rules(table) ==> obeys_rules(table_after(table, stale, raw)),
        !table.is_empty() ==> !table_after(table, stale, raw).is_empty(),
{
    if let Some(text) = raw {
        law_read_tables_obey_the_rules(text);
    }
}

/// A key is for its tenant, and for every tenant if that is `*`, and for no other.
pub proof fn law_a_key_is_for_its_tenant(grant: GrantView, tenant: Seq<char>)
    ensures
        covers(grant, tenant) <==> grant.tenant == tenant || grant.tenant == "*"@,
{
}

/// Whether a value says that a level is named, or that none is.
pub open spec fn says_level(v: Option<JsonView>, scope: Option<Seq<char>>) -> bool {
    match scope {
        Some(name) => v == Some(JsonView::Text(name)),
        None => v is None || v == Some(JsonView::Null),
    }
}

/// A record with named fields says something exactly if its key and its tenant
/// are strings and its level is a string, null or missing; then it says these,
/// whatever else it holds.
pub proof fn law_a_record_says_what_its_fields_say(
    members: Map<Seq<char>, JsonView>,
    entry: EntryView,
)
    ensures
        record_of(JsonView::Object(members)) == Ok::<EntryView, Seq<char>>(entry) <==> {
            &&& members.contains_key("key"@) && members["key"@] == JsonView::Text(entry.key)
            &&& members.contains_key("tenant"@) && members["tenant"@] == JsonView::Text(
                entry.tenant,
            )
            &&& says_level(json::member(JsonView::Object(members), "scope"@), entry.scope)
        },
{
}

/// A record that lists its fields says something exactly if it lists three: two
/// strings, and a string or null.
pub proof fn law_a_listed_record_says_what_it_lists(items: Seq<JsonView>, entry: EntryView)
    ensures
        record_of(JsonView::Array(items)) == Ok::<EntryView, Seq<char>>(entry) <==> {
            &&& items.len() == 3
            &&& items[0] == JsonView::Text(entry.key)
            &&& items[1] == JsonView::Text(entry.tenant)
            &&& says_level(Some(items[2]), entry.scope)
        },
{
}

/// What is wrong with a record that says nothing: a value that is neither an
/// object nor an array; a field that is no string, the key first, then the level,
/// then the tenant; and a field that is missing, the key first.
pub proof fn law_faults_of_records(v: JsonView, members: Map<Seq<char>, JsonView>)
    ensures
        v !is Object && v !is Array ==> record_of(v) == Err::<EntryView, Seq<char>>(
            "invalid type: "@ + json::value_words(v) + ", expected "@ + "struct KeyEntry"@,
        ),
        ({
            let record = record_of(JsonView::Object(members));
            let key = json::member(JsonView::Object(members), "key"@);
            let tenant = json::member(JsonView::Object(members), "tenant"@);
            let scope = json::member(JsonView::Object(members), "scope"@);
            let key_fits = key is None || key->0 is Text;
            let tenant_fits = tenant is None || tenant->0 is Text;
            let scope_fits = scope is None || scope->0 is Text || scope->0 is Null;
            let no_string = |w: JsonView|
                Err::<EntryView, Seq<char>>(
                    "invalid type: "@ + json::value_words(w) + ", expected "@ + "a string"@,
                );
            &&& !key_fits ==> record == no_string(key->0)
            &&& key_fits && !scope_fits ==> record == no_string(scope->0)
            &&& key_fits && scope_fits && !tenant_fits ==> record == no_string(tenant->0)
            &&& scope_fits && tenant_fits && key is None ==> record == Err::<EntryView, Seq<char>>(
                "missing field `key`"@,
            )
            &&& key is Some && key_fits && scope_fits && tenant is None ==> record == Err::<
                EntryView,
                Seq<char>,
            >("missing field `tenant`"@)
        }),
{
}

/// What is wrong with a record that lists its fields: the first field that is no
/// string, or that there are too few or too many.
pub proof fn law_faults_of_listed_records(items: Seq<JsonView>)
    ensures
        ({
            let record = record_of(JsonView::Array(items));
            let strings = |n: int| forall|k: int| 0 <= k < n ==> (#[trigger] items[k]) is Text;
            let no_string = |w: JsonView|
                Err::<EntryView, Seq<char>>(
                    "invalid type: "@ + json::value_words(w) + ", expected "@ + "a string"@,
                );
            &&& items.len() < 3 && strings(items.len() as int) ==> record == Err::<
                EntryView,
                Seq<char>,
            >(
                "invalid length "@ + text::decimal(items.len())
                    + ", expected struct KeyEntry with 3 elements"@,
            )
            &&& items.len() > 0 && items[0] !is Text ==> record == no_string(items[0])
            &&& items.len() > 1 && items[0] is Text && items[1] !is Text ==> record == no_string(
                items[1],
            )
            &&& items.len() > 2 && strings(2) && items[2] !is Text && items[2] !is Null ==> record
                == no_string(items[2])
            &&& items.len() > 3 && strings(2) && (items[2] is Text || items[2] is Null) ==> record
                == Err::<EntryView, Seq<char>>(
                "invalid length "@ + text::decimal(items.len())
                    + ", expected fewer elements in array"@,
            )
        }),
{
    if items.len() > 0 && items[0] is Text && items.len() > 1 && items[1] is Text {
        assert(forall|k: int| 0 <= k < 2 ==> (#[trigger] items[k]) is Text);
    }
    if items.len() == 1 {
        if forall|k: int| 0 <= k < 1 ==> (#[trigger] items[k]) is Text {
            assert(items[0] is Text);
        }
    }
    if items.len() >= 2 {
        if forall|k: int| 0 <= k < 2 ==> (#[trigger] items[k]) is Text {
            assert(items[0] is Text && items[1] is Text);
        }
    }
}

/// A record grants something exactly if its key and tenant are not empty, its
/// level is missing or has the name of one, and all tenants are only asked for
/// with the highest level; then it grants, to its key, that level for that tenant.
/// Otherwise the fault is reported with the number of the record.
pub proof fn law_a_record_grants_what_it_says(entry: EntryView, number: nat, scope: Scope)
    requires
        entry.scope matches Some(name) ==> name == scope::scope_name(scope),
        entry.scope is None ==> scope == Scope::Read,
    ensures
        ({
            let filled = entry.key.len() > 0 && entry.tenant.len() > 0;
            let allowed = entry.tenant == "*"@ ==> scope == Scope::Admin;
            &&& filled && allowed ==> grant_of_entry(entry, number) == Ok::<
                (Seq<char>, GrantView),
                Seq<char>,
            >((entry.key, GrantView { tenant: entry.tenant, scope }))
            &&& !filled ==> grant_of_entry(entry, number) == Err::<
                (Seq<char>, GrantView),
                Seq<char>,
            >("第 "@ + text::decimal(number) + " 条记录 key / tenant 不能为空"@)
            &&& filled && !allowed ==> grant_of_entry(entry, number) == Err::<
                (Seq<char>, GrantView),
                Seq<char>,
            >(
                "第 "@ + text::decimal(number)
                    + " 条记录：tenant=\"*\" 通配仅允许 admin 档位"@,
            )
        }),
{
    scope::law_names_stand_for_levels(scope, scope::scope_name(scope));
}

/// A record with a name that is no level's is at fault, and so is one that says
/// nothing; the fault is reported with the number of the record.
pub proof fn law_other_faults_are_reported_with_their_number(
    entry: EntryView,
    item: JsonView,
    number: nat,
)
    ensures
        entry.key.len() > 0 && entry.tenant.len() > 0 && entry.scope is Some && entry.scope->0
            != "read"@ && entry.scope->0 != "write"@ && entry.scope->0 != "admin"@
            ==> grant_of_entry(entry, number) == Err::<(Seq<char>, GrantView), Seq<char>>(
            "第 "@ + text::decimal(number) + " 条记录 scope 非法: "@ + entry.scope->0,
        ),
        record_of(item) matches Err(e) ==> grant_of_item(item, number) == Err::<
            (Seq<char>, GrantView),
            Seq<char>,
        >("第 "@ + text::decimal(number) + " 条 key 记录格式错误: "@ + e),
        record_of(item) matches Ok(said) ==> grant_of_item(item, number) == grant_of_entry(
            said,
            number,
        ),
{
}

/// The key and the grant that the record at a place gives.
pub open spec fn granted_at(items: Seq<JsonView>, i: int) -> Result<
    (Seq<char>, GrantView),
    Seq<char>,
> {
    grant_of_item(items[i], (i + 1) as nat)
}

/// If no record has a fault, the table holds the keys of all records and no
/// others, and grants to each what the last record with that key grants.
pub proof fn law_a_table_grants_what_its_records_grant(items: Seq<JsonView>, i: int)
    requires
        forall|k: int| 0 <= k < items.len() ==> (#[trigger] granted_at(items, k)) is Ok,
        0 <= i < items.len(),
        forall|k: int|
            i < k < items.len() ==> (#[trigger] granted_at(items, k)->Ok_0).0 != (granted_at(
                items,
                i,
            )->Ok_0).0,
    ensures
        table_of(items) is Ok,
        table_of(items)->Ok_0.contains_key((granted_at(items, i)->Ok_0).0),
        table_of(items)->Ok_0[(granted_at(items, i)->Ok_0).0] == (granted_at(items, i)->Ok_0).1,
        forall|key: Seq<char>| #[trigger]
            table_of(items)->Ok_0.contains_key(key) ==> exists|k: int|
                0 <= k < items.len() && (#[trigger] granted_at(items, k)->Ok_0).0 == key,
    decreases items.len(),
{
    let rest = items.drop_last();
    lemma_table_holds_the_keys(items);
    assert(granted_at(items, items.len() - 1) is Ok);
    assert(items.last() == items[items.len() - 1]);
    lemma_table_holds_the_keys_before(items);
    if i < items.len() - 1 {
        assert forall|k: int| 0 <= k < rest.len() implies (#[trigger] granted_at(rest, k)) is Ok
            && granted_at(rest, k) == granted_at(items, k) by {
            assert(rest[k] == items[k]);
            assert(granted_at(items, k) is Ok);
        }
        assert forall|k: int| i < k < rest.len() implies (#[trigger] granted_at(rest, k)->Ok_0).0
            != (granted_at(rest, i)->Ok_0).0 by {
            assert(granted_at(rest, k) == granted_at(items, k));
            assert(granted_at(rest, i) == granted_at(items, i));
        }
        law_a_table_grants_what_its_records_grant(rest, i);
        assert((granted_at(items, items.len() - 1)->Ok_0).0 != (granted_at(items, i)->Ok_0).0);
        assert(granted_at(rest, i) == granted_at(items, i));
    }
}

/// The list without its last record has no fault either.
proof fn lemma_table_holds_the_keys_before(items: Seq<JsonView>)
    requires
        items.len() > 0,
        forall|k: int| 0 <= k < items.len() ==> (#[trigger] granted_at(items, k)) is Ok,
    ensures
        table_of(items.drop_last()) is Ok,
{
    let rest = items.drop_last();
    assert forall|k: int| 0 <= k < rest.len() implies (#[trigger] granted_at(rest, k)) is Ok by {
        assert(rest[k] == items[k]);
        assert(granted_at(items, k) is Ok);
    }
    lemma_table_holds_the_keys(rest);
}

/// A list without a fault gives a table whose keys are those of its records.
proof fn lemma_table_holds_the_keys(items: Seq<JsonView>)
    requires
        forall|k: int| 0 <= k < items.len() ==> (#[trigger] granted_at(items, k)) is Ok,
    ensures
        table_of(items) is Ok,
        forall|key: Seq<char>| #[trigger]
            table_of(items)->Ok_0.contains_key(key) ==> exists|k: int|
                0 <= k < items.len() && (#[trigger] granted_at(items, k)->Ok_0).0 == key,
    decreases items.len(),
{
    if items.len() > 0 {
        let rest = items.drop_last();
        assert forall|k: int| 0 <= k < rest.len() implies (#[trigger] granted_at(rest, k)) is Ok
            && granted_at(rest, k) == granted_at(items, k) by {
            assert(rest[k] == items[k]);
            assert(granted_at(items, k) is Ok);
        }
        lemma_table_holds_the_keys(rest);
        assert(granted_at(items, items.len() - 1) is Ok);
        assert(items.last() == items[items.len() - 1]);
        assert forall|key: Seq<char>| #[trigger]
            table_of(items)->Ok_0.contains_key(key) implies exists|k: int|
            0 <= k < items.len() && (#[trigger] granted_at(items, k)->Ok_0).0 == key by {
            if (granted_at(items, items.len() - 1)->Ok_0).0 != key {
                assert(table_of(rest)->Ok_0.contains_key(key));
                let k = choose|k: int|
                    0 <= k < rest.len() && (#[trigger] granted_at(rest, k)->Ok_0).0 == key;
                assert(granted_at(rest, k) == granted_at(items, k));
            }
        }
    }
}

/// The fault of the first record that has one is the fault of the table.
pub proof fn law_the_first_fault_is_the_fault_of_the_table(items: Seq<JsonView>, i: int)
    requires
        0 <= i < items.len(),
        granted_at(items, i) is Err,
        forall|k: int| 0 <= k < i ==> (#[trigger] granted_at(items, k)) is Ok,
    ensures
        table_of(items) == Err::<Map<Seq<char>, GrantView>, Seq<char>>(granted_at(items, i)->Err_0),
{
    let good = items.take(i);
    let first = items.take(i + 1);
    assert forall|k: int| 0 <= k < good.len() implies (#[trigger] granted_at(good, k)) is Ok by {
        assert(good[k] == items[k]);
        assert(granted_at(items, k) is Ok);
    }
    lemma_table_holds_the_keys(good);
    assert(first.drop_last() =~= good);
    assert(first.last() == items[i]);
    lemma_fault_stays(items, i + 1);
}

/// A text gives the table of its records, as a list or under `keys`; one without
/// records, one that is no table and one that is no JSON are reported.
pub proof fn law_a_text_gives_the_table_of_its_records(
    raw: Seq<char>,
    v: JsonView,
    items: Seq<JsonView>,
)
    requires
        json::json_of_text(raw) == Ok::<JsonView, Seq<char>>(v),
    ensures
        v == JsonView::Array(items) || json::member(v, "keys"@) == Some(JsonView::Array(items))
            ==> grants_of_text(raw) == if items.len() == 0 {
            Err::<Map<Seq<char>, GrantView>, Seq<char>>(
                "key 表为空（不配置鉴权请直接去掉环境变量）"@,
            )
        } else {
            table_of(items)
        },
        v !is Array && (json::member(v, "keys"@) is None || json::member(v, "keys"@)->0 !is Array)
            ==> grants_of_text(raw) == Err::<Map<Seq<char>, GrantView>, Seq<char>>(
            "key 表必须是 JSON 数组或 {\"keys\": [...]}"@,
        ),
{
    lemma_table_obeys_rules(items);
}

/// A text that is no JSON gives no table but the reason why it cannot be read.
pub proof fn law_a_text_that_is_no_json_gives_no_table(raw: Seq<char>)
    ensures
        json::json_of_text(raw) matches Err(e) ==> grants_of_text(raw) == Err::<
            Map<Seq<char>, GrantView>,
            Seq<char>,
        >(e),
{
}

/// A changed file that is a key table takes the place of the table, and a file
/// counts as changed if it was modified at another time than the one that the
/// table was read from.
pub proof fn law_a_changed_file_takes_over(
    keys: ApiKeys,
    mtime: Option<i128>,
    table: Map<Seq<char>, GrantView>,
    raw: Seq<char>,
)
    ensures
        keys.is_stale(mtime) <==> keys.is_watched() && keys.mtime() != mtime,
        grants_of_text(raw) matches Ok(other) ==> table_after(table, true, Some(raw)) == other
            && regained(Some(raw)) == Some(other),
        grants_of_text(raw) is Err ==> regained(Some(raw)) is None,
        regained(None) is None,
{
}

/// What is seen of a table, a grant and a record is what they hold.
pub proof fn law_grants_are_what_they_hold(
    grants: Map<Seq<char>, KeyGrant>,
    key: Seq<char>,
    grant: KeyGrant,
    entry: KeyEntry,
)
    ensures
        grant_views(grants).contains_key(key) <==> grants.contains_key(key),
        grants.contains_key(key) ==> grant_views(grants)[key] == grants[key]@,
        grant@.tenant == grant.tenant@,
        grant@.scope == grant.scope,
        entry@.key == entry.key@,
        entry@.tenant == entry.tenant@,
        entry@.scope == text::string_view(entry.scope),
{
}

/// What a key may grant, and that a table obeys the rules, is what it says.
pub proof fn law_the_rules_of_tables(
    table: Map<Seq<char>, GrantView>,
    key: Seq<char>,
    grant: GrantView,
)
    ensures
        may_grant(key, grant) <==> key.len() > 0 && grant.tenant.len() > 0 && (grant.tenant == "*"@
            ==> grant.scope == Scope::Admin),
        obeys_rules(table) && table.contains_key(key) ==> may_grant(key, table[key]),
        obeys_rules(table) && may_grant(key, grant) ==> obeys_rules(table.insert(key, grant)),
        obeys_rules(Map::empty()),
{
}

} // verus!
