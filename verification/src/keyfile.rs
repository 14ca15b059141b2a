//! The file that a key table is kept in: making keys, and adding, listing and
//! revoking them.
//!
//! The functions take what was read from the file and give what is to be written
//! to it.

use crate::json;
use crate::json::{Json, JsonView};
use crate::keys;
use crate::keys::{ApiKeys, EntryView, GrantView};
use crate::scope;
use crate::scope::Scope;
use crate::text;
use vstd::prelude::*;
use vstd::string::*;

verus! {

/// How many characters of a key are shown when keys are listed.
pub const SHOWN_CHARS: usize = 12;

/// `rand::Rng::fill` on the generator that `rand::rng` gives: 16 bytes of
/// chance, of which nothing is promised.
#[verifier::external_body]
fn random_bytes() -> (r: [u8; 16]) {
    let mut buf: [u8; 16] = [0u8; 16];
    rand::Rng::fill(&mut rand::rng(), &mut buf);
    buf
}

/// The hexadecimal digits of some bytes, two for each byte.
pub open spec fn hex_text(bytes: Seq<u8>) -> Seq<char> {
    Seq::new(
        2 * bytes.len(),
        |i: int|
            if i % 2 == 0 {
                text::digit_char(bytes[i / 2] as int / 16)
            } else {
                text::digit_char(bytes[i / 2] as int % 16)
            },
    )
}

/// The key that some bytes make.
pub open spec fn key_text(bytes: Seq<u8>) -> Seq<char> {
    "nyl_"@ + hex_text(bytes)
}

/// The hexadecimal digits of some bytes, two for each byte.
pub fn hex_lower(bytes: &[u8]) -> (r: String)
    ensures
        r@ == hex_text(bytes@),
{
    let mut s = String::new();
    let mut i: usize = 0;
    while i < bytes.len()
        invariant
            i <= bytes.len(),
            s@ == hex_text(bytes@.take(i as int)),
        decreases bytes.len() - i,
    {
        let b = bytes[i];
        s.push(text::digit(b / 16));
        s.push(text::digit(b % 16));
        i = i + 1;
        proof {
            assert(s@ =~= hex_text(bytes@.take(i as int)));
        }
    }
    proof {
        assert(bytes@.take(i as int) =~= bytes@);
    }
    s
}

/// The key that some bytes make.
pub fn key_from_bytes(bytes: &[u8]) -> (r: String)
    ensures
        r@ == key_text(bytes@),
{
    let mut key = "nyl_".to_owned();
    key.append(hex_lower(bytes).as_str());
    key
}

/// Makes a new key of 16 bytes of chance.
pub fn generate_key() -> (r: String)
    ensures
        exists|bytes: Seq<u8>| bytes.len() == 16 && r@ == #[trigger] key_text(bytes),
        "nyl_"@.is_prefix_of(r@),
        r@.len() == 36,
{
    let bytes = random_bytes();
    let key = key_from_bytes(&bytes);
    proof {
        reveal_strlit("nyl_");
        assert(key@.subrange(0, 4) =~= "nyl_"@);
        assert(key@ == key_text(bytes@));
    }
    key
}

/// What reading the file of a key table came to.
pub enum FileView {
    Missing,
    Unreadable(Seq<char>),
    Text(Seq<char>),
}

/// What reading the file of a key table came to.
#[derive(Debug)]
pub enum KeysFile {
    /// There is no such file.
    Missing,
    /// The file cannot be read, for a reason.
    Unreadable(String),
    /// What the file holds.
    Text(String),
}

impl View for KeysFile {
    type V = FileView;

    open spec fn view(&self) -> FileView {
        match self {
            KeysFile::Missing => FileView::Missing,
            KeysFile::Unreadable(e) => FileView::Unreadable(e@),
            KeysFile::Text(raw) => FileView::Text(raw@),
        }
    }
}

/// The records of a file, or why there are none to be had. A file that is
/// missing has no records.
pub open spec fn entries_of(file: FileView) -> Result<Seq<JsonView>, Seq<char>> {
    match file {
        FileView::Missing => Ok(Seq::empty()),
        FileView::Unreadable(e) => Err("读取失败: "@ + e),
        FileView::Text(raw) => match json::json_of_text(raw) {
            Err(e) => Err("不是合法 JSON: "@ + e),
            Ok(v) => match keys::table_items(v) {
                Some(items) => Ok(items),
                None => Err(keys::not_a_table()),
            },
        },
    }
}

/// The key of a record with named fields.
pub open spec fn key_in(entry: JsonView) -> Option<Seq<char>> {
    json::member_string(entry, "key"@)
}

/// A record with a key, a tenant and a level.
pub open spec fn record_view(
    key: Seq<char>,
    tenant: Seq<char>,
    scope: Seq<char>,
) -> JsonView {
    JsonView::Object(
        Map::empty().insert("key"@, JsonView::Text(key)).insert(
            "scope"@,
            JsonView::Text(scope),
        ).insert("tenant"@, JsonView::Text(tenant)),
    )
}

/// Whether a text is the one that a file with some records is written as, and
/// gives these records when it is read.
pub open spec fn holds_entries(body: Seq<char>, entries: Seq<JsonView>) -> bool {
    &&& body == json::pretty_text(JsonView::Array(entries))
    &&& json::json_of_text(body) == Ok::<JsonView, Seq<char>>(JsonView::Array(entries))
}

/// What a changed key table says, and the key that was added or revoked.
#[derive(Debug)]
pub struct KeysEdit {
    /// The key that was added or revoked, in full.
    pub key: String,
    /// What is to be written to the file.
    pub body: String,
}

/// Reads the records of a file.
pub fn read_keys_entries(file: &KeysFile) -> (r: Result<Vec<Json>, String>)
    ensures
        match entries_of(file@) {
            Ok(entries) => r is Ok && json::item_views(r->Ok_0@) == entries,
            Err(e) => r is Err && r->Err_0@ == e,
        },
        r is Ok ==> forall|i: int|
            0 <= i < r->Ok_0.len() ==> json::nested_within(
                #[trigger] r->Ok_0@[i]@,
                (json::nesting_limit() - 1) as nat,
            ),
{
    let raw = match file {
        KeysFile::Missing => {
            return Ok(Vec::new());
        },
        KeysFile::Unreadable(e) => {
            let mut message = "读取失败: ".to_owned();
            message.append(e.as_str());
            return Err(message);
        },
        KeysFile::Text(raw) => raw,
    };
    match json::parse_json(raw.as_str()) {
        Err(e) => {
            let mut message = "不是合法 JSON: ".to_owned();
            message.append(e.as_str());
            Err(message)
        },
        Ok(v) => {
            proof {
                json::lemma_members_nested_within(v@, json::nesting_limit());
            }
            match v {
                Json::Array(items) => {
                    proof {
                        json::lemma_items_nested_within(items@, json::nesting_limit());
                    }
                    Ok(items)
                },
                v => match v.get("keys") {
                    Some(Json::Array(items)) => {
                        proof {
                            json::lemma_items_nested_within(items@, json::nesting_limit());
                        }
                        Ok(copy_entries(items))
                    },
                    _ => Err("key 表必须是 JSON 数组或 {\"keys\": [...]}".to_owned()),
                },
            }
        },
    }
}

/// The same records once more.
fn copy_entries(entries: &Vec<Json>) -> (r: Vec<Json>)
    ensures
        r.len() == entries.len(),
        forall|i: int| 0 <= i < entries.len() ==> #[trigger] r@[i]@ == entries@[i]@,
        json::item_views(r@) == json::item_views(entries@),
{
    let mut r: Vec<Json> = Vec::new();
    let mut i: usize = 0;
    while i < entries.len()
        invariant
            i <= entries.len(),
            r.len() == i,
            forall|k: int| 0 <= k < i ==> #[trigger] r@[k]@ == entries@[k]@,
        decreases entries.len() - i,
    {
        r.push(entries[i].clone());
        i = i + 1;
    }
    proof {
        json::lemma_item_views(r@);
        json::lemma_item_views(entries@);
        assert(json::item_views(r@) =~= json::item_views(entries@));
    }
    r
}

/// A record with a key, a tenant and a level.
pub fn new_record(key: &str, tenant: &str, scope: &str) -> (r: Json)
    ensures
        r@ == record_view(key@, tenant@, scope@),
{
    let mut members: Vec<(String, Json)> = Vec::new();
    let key = ("key".to_owned(), Json::Text(key.to_owned()));
    let scope = ("scope".to_owned(), Json::Text(scope.to_owned()));
    let tenant = ("tenant".to_owned(), Json::Text(tenant.to_owned()));
    proof {
        json::lemma_push_member(members@, key);
        json::lemma_push_member(members@.push(key), scope);
        json::lemma_push_member(members@.push(key).push(scope), tenant);
    }
    members.push(key);
    members.push(scope);
    members.push(tenant);
    Json::Object(members)
}

/// What a record with a known level says.
proof fn lemma_new_record(key: Seq<char>, tenant: Seq<char>, scope: Seq<char>)
    ensures
        keys::record_of(record_view(key, tenant, scope)) == Ok::<EntryView, Seq<char>>(
            EntryView { key, tenant, scope: Some(scope) },
        ),
        key_in(record_view(key, tenant, scope)) == Some(key),
{
    reveal_strlit("key");
    reveal_strlit("tenant");
    reveal_strlit("scope");
    assert("key"@.len() == 3 && "tenant"@.len() == 6 && "scope"@.len() == 5);
}

/// The text of a file that holds some records.
fn file_text(entries: Vec<Json>) -> (r: Result<String, String>)
    requires
        forall|i: int|
            0 <= i < entries.len() ==> json::nested_within(
                #[trigger] entries@[i]@,
                (json::nesting_limit() - 1) as nat,
            ),
    ensures
        r is Ok,
        holds_entries(r->Ok_0@, json::item_views(entries@)),
{
    proof {
        json::lemma_item_views(entries@);
    }
    let ghost items = json::item_views(entries@);
    let whole = Json::Array(entries);
    proof {
        assert forall|i: int| 0 <= i < items.len() implies json::nested_within(
            #[trigger] items[i],
            (json::nesting_limit() - 1) as nat,
        ) by {
            assert(items[i] == entries@[i]@);
        }
        assert(json::nested_within(whole@, json::nesting_limit()));
    }
    json::pretty_json(&whole)
}

/// The file of a new key table, with one key that may do everything.
pub fn bootstrap_file(admin: &str) -> (r: Result<String, String>)
    ensures
        r is Ok,
        holds_entries(r->Ok_0@, seq![record_view(admin@, "*"@, "admin"@)]),
{
    let record = new_record(admin, "*", "admin");
    let mut entries: Vec<Json> = Vec::new();
    entries.push(record);
    proof {
        json::lemma_item_views(entries@);
        assert(json::item_views(entries@) =~= seq![record_view(admin@, "*"@, "admin"@)]);
        lemma_record_nested_within(admin@, "*"@, "admin"@);
    }
    file_text(entries)
}

/// What is to be done to start with a key table.
pub enum KeysStart {
    /// Nothing: here is the table.
    Ready(ApiKeys),
    /// The file is to be written, with a new key that may do everything.
    Create(KeysEdit),
}

impl ApiKeys {
    /// Starts with the key table of a file that was modified at `mtime`, or with a
    /// new one if there is no file.
    pub fn load_or_bootstrap(file: &KeysFile, mtime: Option<i128>) -> (r: Result<
        KeysStart,
        String,
    >)
        ensures
            match file@ {
                FileView::Missing => {
                    &&& r is Ok
                    &&& r->Ok_0 is Create
                    &&& exists|bytes: Seq<u8>|
                        bytes.len() == 16 && (r->Ok_0->Create_0).key@ == #[trigger] key_text(bytes)
                    &&& holds_entries(
                        (r->Ok_0->Create_0).body@,
                        seq![record_view((r->Ok_0->Create_0).key@, "*"@, "admin"@)],
                    )
                },
                FileView::Unreadable(e) => r is Err && r->Err_0@ == "读取失败: "@ + e,
                FileView::Text(raw) => match keys::grants_of_text(raw) {
                    Ok(table) => r is Ok && r->Ok_0 is Ready && (r->Ok_0->Ready_0)@ == table
                        && (r->Ok_0->Ready_0).is_watched() && (r->Ok_0->Ready_0).mtime() == mtime,
                    Err(e) => r is Err && r->Err_0@ == "解析失败: "@ + e,
                },
            },
    {
        match file {
            KeysFile::Missing => {
                let key = generate_key();
                match bootstrap_file(key.as_str()) {
                    Ok(body) => Ok(KeysStart::Create(KeysEdit { key, body })),
                    Err(e) => Err(e),
                }
            },
            KeysFile::Unreadable(e) => {
                let mut message = "读取失败: ".to_owned();
                message.append(e.as_str());
                Err(message)
            },
            KeysFile::Text(raw) => match ApiKeys::load(raw.as_str(), mtime) {
                Ok(table) => Ok(KeysStart::Ready(table)),
                Err(e) => Err(e),
            },
        }
    }
}

/// A record nests one level deep.
proof fn lemma_record_nested_within(key: Seq<char>, tenant: Seq<char>, scope: Seq<char>)
    ensures
        json::nested_within(
            record_view(key, tenant, scope),
            (json::nesting_limit() - 1) as nat,
        ),
{
    let v = record_view(key, tenant, scope);
    let members = v->Object_0;
    assert forall|name: Seq<char>| #[trigger] members.contains_key(name) implies json::nested_within(
        members[name],
        125,
    ) by {
        assert(members[name] is Text);
    }
}

/// A valid record at the end of a list adds its grant to those of the list.
proof fn lemma_added_record(
    items: Seq<JsonView>,
    key: Seq<char>,
    tenant: Seq<char>,
    scope: Seq<char>,
    level: Scope,
)
    requires
        keys::table_of(items) is Ok,
        key.len() > 0,
        tenant.len() > 0,
        scope::scope_named(scope) == Some(level),
        tenant == "*"@ ==> level == Scope::Admin,
    ensures
        keys::table_of(items.push(record_view(key, tenant, scope))) == Ok::<
            Map<Seq<char>, GrantView>,
            Seq<char>,
        >(keys::table_of(items)->Ok_0.insert(key, GrantView { tenant, scope: level })),
{
    lemma_new_record(key, tenant, scope);
    let more = items.push(record_view(key, tenant, scope));
    assert(more.drop_last() =~= items);
}

/// Whether one of the records has a key.
pub open spec fn holds_key(entries: Seq<JsonView>, key: Seq<char>) -> bool {
    exists|i: int| 0 <= i < entries.len() && key_in(#[trigger] entries[i]) == Some(key)
}

/// Why a key cannot be added to a file, or the records that it then holds.
pub open spec fn add_outcome(
    file: FileView,
    tenant: Seq<char>,
    scope: Seq<char>,
    key: Seq<char>,
) -> Result<Seq<JsonView>, Seq<char>> {
    if scope::scope_named(scope) is None {
        Err("scope 非法: "@ + scope + "（可选 read/write/admin）"@)
    } else if tenant == "*"@ && scope != "admin"@ {
        Err("tenant=\"*\" 通配仅允许 admin 档位"@)
    } else if key.len() == 0 {
        Err("key 不能为空"@)
    } else {
        match entries_of(file) {
            Err(e) => Err(e),
            Ok(entries) => if holds_key(entries, key) {
                Err("key 已存在"@)
            } else {
                Ok(entries.push(record_view(key, tenant, scope)))
            },
        }
    }
}

/// Whether one of the records has a key.
fn has_key(entries: &Vec<Json>, key: &str) -> (r: bool)
    ensures
        r == holds_key(json::item_views(entries@), key@),
{
    let ghost items = json::item_views(entries@);
    proof {
        json::lemma_item_views(entries@);
    }
    let mut i: usize = 0;
    while i < entries.len()
        invariant
            i <= entries.len(),
            items == json::item_views(entries@),
            items.len() == entries.len(),
            forall|k: int| 0 <= k < entries.len() ==> #[trigger] items[k] == entries@[k]@,
            forall|k: int| 0 <= k < i ==> key_in(#[trigger] items[k]) != Some(key@),
        decreases entries.len() - i,
    {
        let found = match entry_key(&entries[i]) {
            Some(k) => text::same_text(k, key),
            None => false,
        };
        proof {
            assert(items[i as int] == entries@[i as int]@);
        }
        if found {
            return true;
        }
        i = i + 1;
    }
    false
}

/// The key of a record with named fields.
fn entry_key(entry: &Json) -> (r: Option<&str>)
    ensures
        match key_in(entry@) {
            Some(key) => r is Some && r->0@ == key,
            None => r is None,
        },
{
    match entry.get("key") {
        Some(v) => v.as_str(),
        None => None,
    }
}

/// Adds a key to the records of a file and gives what is then to be written.
pub fn add_key(file: &KeysFile, tenant: &str, scope: &str, key: &str) -> (r: Result<
    String,
    String,
>)
    ensures
        match add_outcome(file@, tenant@, scope@, key@) {
            Ok(entries) => r is Ok && holds_entries(r->Ok_0@, entries),
            Err(e) => r is Err && r->Err_0@ == e,
        },
{
    if Scope::parse(scope).is_none() {
        let mut message = "scope 非法: ".to_owned();
        message.append(scope);
        message.append("（可选 read/write/admin）");
        return Err(message);
    }
    if text::same_text(tenant, "*") && !text::same_text(scope, "admin") {
        return Err("tenant=\"*\" 通配仅允许 admin 档位".to_owned());
    }
    if key.is_empty() {
        return Err("key 不能为空".to_owned());
    }
    let mut entries = match read_keys_entries(file) {
        Ok(entries) => entries,
        Err(e) => {
            return Err(e);
        },
    };
    if has_key(&entries, key) {
        return Err("key 已存在".to_owned());
    }
    let record = new_record(key, tenant, scope);
    proof {
        json::lemma_push_item(entries@, record);
        lemma_record_nested_within(key@, tenant@, scope@);
    }
    entries.push(record);
    file_text(entries)
}

/// Adds a key to the records of a file, a new one if none is given.
pub fn keys_add(
    file: &KeysFile,
    tenant: &str,
    scope: &str,
    explicit_key: Option<String>,
) -> (r: Result<KeysEdit, String>)
    ensures
        explicit_key is Some ==> added(file@, tenant@, scope@, explicit_key->0@, r),
        explicit_key is None ==> exists|bytes: Seq<u8>|
            bytes.len() == 16 && added(file@, tenant@, scope@, #[trigger] key_text(bytes), r),
{
    let key = match explicit_key {
        Some(key) => key,
        None => generate_key(),
    };
    match add_key(file, tenant, scope, key.as_str()) {
        Ok(body) => Ok(KeysEdit { key, body }),
        Err(e) => Err(e),
    }
}

/// What adding a key to a file comes to.
pub open spec fn added(
    file: FileView,
    tenant: Seq<char>,
    scope: Seq<char>,
    key: Seq<char>,
    r: Result<KeysEdit, String>,
) -> bool {
    match add_outcome(file, tenant, scope, key) {
        Ok(entries) => r is Ok && r->Ok_0.key@ == key && holds_entries(r->Ok_0.body@, entries),
        Err(e) => r is Err && r->Err_0@ == e,
    }
}

/// The key of a record as it is listed; one without a key has an empty one.
pub open spec fn listed_key(entry: JsonView) -> Seq<char> {
    match key_in(entry) {
        Some(key) => key,
        None => Seq::empty(),
    }
}

/// The start of a key, of at most as many characters as are shown.
pub open spec fn shown_part(key: Seq<char>) -> Seq<char> {
    if key.len() <= SHOWN_CHARS {
        key
    } else {
        key.take(SHOWN_CHARS as int)
    }
}

/// How a record is listed: the start of its key, its tenant and its level.
pub open spec fn listing(entry: JsonView) -> (Seq<char>, Seq<char>, Seq<char>) {
    (
        shown_part(listed_key(entry)) + "…"@,
        match json::member_string(entry, "tenant"@) {
            Some(tenant) => tenant,
            None => "?"@,
        },
        match json::member_string(entry, "scope"@) {
            Some(scope) => scope,
            None => "read"@,
        },
    )
}

/// What is listed of a key is the start of it, of at most 12 characters, and a
/// mark that there may be more.
pub proof fn law_a_listing_shows_little_of_a_key(entry: JsonView)
    ensures
        exists|shown: Seq<char>|
            {
                &&& #[trigger] shown.is_prefix_of(listed_key(entry))
                &&& shown.len() <= 12
                &&& shown.len() < 12 ==> shown == listed_key(entry)
                &&& listing(entry).0 == shown + "…"@
            },
{
    let shown = shown_part(listed_key(entry));
    assert(listed_key(entry).subrange(0, shown.len() as int) =~= shown);
    assert(shown.is_prefix_of(listed_key(entry)));
}

/// Whether a list says of each record how it is listed.
pub open spec fn lists(
    list: Seq<(String, String, String)>,
    entries: Seq<JsonView>,
) -> bool {
    &&& list.len() == entries.len()
    &&& forall|i: int|
        0 <= i < list.len() ==> {
            &&& (#[trigger] list[i]).0@ == listing(entries[i]).0
            &&& list[i].1@ == listing(entries[i]).1
            &&& list[i].2@ == listing(entries[i]).2
        }
}

/// The string that a record holds under a name, or what stands in for it.
fn member_or(entry: &Json, name: &str, other: &str) -> (r: String)
    ensures
        r@ == match json::member_string(entry@, name@) {
            Some(s) => s,
            None => other@,
        },
{
    match entry.get(name) {
        Some(v) => match v.as_str() {
            Some(s) => s.to_owned(),
            None => other.to_owned(),
        },
        None => other.to_owned(),
    }
}

/// The start of a key, followed by a mark that there may be more.
fn masked(key: &str) -> (r: String)
    ensures
        r@ == shown_part(key@) + "…"@,
{
    let chars = text::chars_of(key);
    let end: usize = if chars.len() <= SHOWN_CHARS {
        chars.len()
    } else {
        SHOWN_CHARS
    };
    let mut shown = text::string_of(&chars, 0, end);
    proof {
        assert(chars@.subrange(0, end as int) =~= shown_part(key@));
    }
    shown.append("…");
    shown
}

/// The records of a key table as they are listed, with most of each key left
/// out.
pub fn list_entries(entries: &Vec<Json>) -> (r: Vec<(String, String, String)>)
    ensures
        lists(r@, json::item_views(entries@)),
{
    let ghost items = json::item_views(entries@);
    proof {
        json::lemma_item_views(entries@);
        reveal_strlit("");
    }
    let mut list: Vec<(String, String, String)> = Vec::new();
    let mut i: usize = 0;
    while i < entries.len()
        invariant
            i <= entries.len(),
            items == json::item_views(entries@),
            items.len() == entries.len(),
            forall|k: int| 0 <= k < entries.len() ==> #[trigger] items[k] == entries@[k]@,
            list.len() == i,
            lists(list@, items.take(i as int)),
            ""@ == Seq::<char>::empty(),
        decreases entries.len() - i,
    {
        proof {
            assert(items[i as int] == entries@[i as int]@);
        }
        let key = masked(member_or(&entries[i], "key", "").as_str());
        let tenant = member_or(&entries[i], "tenant", "?");
        let scope = member_or(&entries[i], "scope", "read");
        list.push((key, tenant, scope));
        i = i + 1;
    }
    proof {
        assert(items.take(i as int) =~= items);
    }
    list
}

/// Lists the keys of a file, with most of each key left out.
pub fn keys_list(file: &KeysFile) -> (r: Result<Vec<(String, String, String)>, String>)
    ensures
        match entries_of(file@) {
            Ok(entries) => r is Ok && lists(r->Ok_0@, entries),
            Err(e) => r is Err && r->Err_0@ == e,
        },
{
    match read_keys_entries(file) {
        Ok(entries) => Ok(list_entries(&entries)),
        Err(e) => Err(e),
    }
}

/// Whether the key of a record begins with some characters.
pub open spec fn key_begins(entry: JsonView, prefix: Seq<char>) -> bool {
    key_in(entry) is Some && prefix.is_prefix_of(key_in(entry)->0)
}

/// The records whose keys begin with some characters.
pub open spec fn matching(entries: Seq<JsonView>, prefix: Seq<char>) -> Seq<JsonView> {
    entries.filter(|e: JsonView| key_begins(e, prefix))
}

/// The records that do not have a key.
pub open spec fn without_key(entries: Seq<JsonView>, key: Seq<char>) -> Seq<JsonView> {
    entries.filter(|e: JsonView| key_in(e) != Some(key))
}

/// The key that is to be revoked: the given one if a record has it, else the one
/// key that begins with what is given; or why there is none.
pub open spec fn doomed_key(entries: Seq<JsonView>, given: Seq<char>) -> Result<
    Seq<char>,
    Seq<char>,
> {
    let found = matching(entries, given);
    if holds_key(entries, given) {
        Ok(given)
    } else if found.len() == 0 {
        Err("没有匹配 "@ + given + " 的 key"@)
    } else if found.len() > 1 {
        Err(
            "前缀 "@ + given + " 匹配到 "@ + text::decimal(found.len())
                + " 把 key，请给出更长前缀"@,
        )
    } else {
        Ok(key_in(found[0])->0)
    }
}

/// Why no key can be revoked, or the key that is revoked and the records that are
/// left.
pub open spec fn revoke_outcome(entries: Seq<JsonView>, given: Seq<char>) -> Result<
    (Seq<char>, Seq<JsonView>),
    Seq<char>,
> {
    match doomed_key(entries, given) {
        Err(e) => Err(e),
        Ok(key) => {
            let kept = without_key(entries, key);
            if kept.len() == 0 {
                Err(
                    "不能吊销最后一把 key（真想开放模式请删掉 NYLON_API_KEYS_FILE 配置）"@,
                )
            } else {
                Ok((key, kept))
            }
        },
    }
}

/// The keys of the records that begin with some characters.
fn matching_keys(entries: &Vec<Json>, prefix: &str) -> (r: Vec<String>)
    ensures
        r.len() == matching(json::item_views(entries@), prefix@).len(),
        forall|i: int|
            0 <= i < r.len() ==> key_in(
                #[trigger] matching(json::item_views(entries@), prefix@)[i],
            ) == Some(r@[i]@),
{
    let ghost items = json::item_views(entries@);
    proof {
        json::lemma_item_views(entries@);
    }
    let mut found: Vec<String> = Vec::new();
    let mut i: usize = 0;
    proof {
        reveal(Seq::filter);
    }
    while i < entries.len()
        invariant
            i <= entries.len(),
            items == json::item_views(entries@),
            items.len() == entries.len(),
            forall|k: int| 0 <= k < entries.len() ==> #[trigger] items[k] == entries@[k]@,
            found.len() == matching(items.take(i as int), prefix@).len(),
            forall|k: int|
                0 <= k < found.len() ==> key_in(
                    #[trigger] matching(items.take(i as int), prefix@)[k],
                ) == Some(found@[k]@),
        decreases entries.len() - i,
    {
        proof {
            reveal(Seq::filter);
            assert(items[i as int] == entries@[i as int]@);
            assert(items.take(i + 1).drop_last() =~= items.take(i as int));
        }
        match entry_key(&entries[i]) {
            Some(key) => {
                if text::starts_with(key, prefix) {
                    found.push(key.to_owned());
                }
            },
            None => {},
        }
        i = i + 1;
    }
    proof {
        assert(items.take(i as int) =~= items);
    }
    found
}

/// The records that do not have a key.
fn keep_others(entries: &Vec<Json>, key: &str) -> (r: Vec<Json>)
    ensures
        json::item_views(r@) == without_key(json::item_views(entries@), key@),
        forall|i: int|
            0 <= i < r.len() ==> exists|k: int|
                0 <= k < entries.len() && #[trigger] r@[i]@ == #[trigger] entries@[k]@,
{
    let ghost items = json::item_views(entries@);
    proof {
        json::lemma_item_views(entries@);
    }
    let mut kept: Vec<Json> = Vec::new();
    let mut i: usize = 0;
    proof {
        reveal(Seq::filter);
    }
    while i < entries.len()
        invariant
            i <= entries.len(),
            items == json::item_views(entries@),
            items.len() == entries.len(),
            forall|k: int| 0 <= k < entries.len() ==> #[trigger] items[k] == entries@[k]@,
            json::item_views(kept@) == without_key(items.take(i as int), key@),
            forall|j: int|
                0 <= j < kept.len() ==> exists|k: int|
                    0 <= k < entries.len() && #[trigger] kept@[j]@ == #[trigger] entries@[k]@,
        decreases entries.len() - i,
    {
        proof {
            reveal(Seq::filter);
            assert(items[i as int] == entries@[i as int]@);
            assert(items.take(i + 1).drop_last() =~= items.take(i as int));
        }
        let doomed = match entry_key(&entries[i]) {
            Some(k) => text::same_text(k, key),
            None => false,
        };
        if !doomed {
            let entry = entries[i].clone();
            proof {
                json::lemma_push_item(kept@, entry);
            }
            kept.push(entry);
        }
        i = i + 1;
    }
    proof {
        assert(items.take(i as int) =~= items);
    }
    kept
}

/// Whether no record that lists its fields has a key.
pub open spec fn no_positional_record_has(entries: Seq<JsonView>, key: Seq<char>) -> bool {
    forall|i: int|
        0 <= i < entries.len() ==> match #[trigger] entries[i] {
            JsonView::Array(fields) => fields.len() > 0 ==> fields[0] != JsonView::Text(key),
            _ => true,
        }
}

/// Leaving out the records with a key takes that key out of their table.
proof fn lemma_table_without_key(entries: Seq<JsonView>, key: Seq<char>)
    requires
        keys::table_of(entries) is Ok,
        no_positional_record_has(entries, key),
    ensures
        keys::table_of(without_key(entries, key)) == Ok::<Map<Seq<char>, GrantView>, Seq<char>>(
            keys::table_of(entries)->Ok_0.remove(key),
        ),
    decreases entries.len(),
{
    reveal(Seq::filter);
    if entries.len() == 0 {
        assert(Map::<Seq<char>, GrantView>::empty().remove(key) =~= Map::empty());
    } else {
        let rest = entries.drop_last();
        let last = entries.last();
        assert forall|i: int| 0 <= i < rest.len() implies match #[trigger] rest[i] {
            JsonView::Array(fields) => fields.len() > 0 ==> fields[0] != JsonView::Text(key),
            _ => true,
        } by {
            assert(rest[i] == entries[i]);
        }
        lemma_table_without_key(rest, key);
        let table = keys::table_of(rest)->Ok_0;
        let (named, grant) = keys::grant_of_item(last, entries.len())->Ok_0;
        assert(last == entries[entries.len() - 1]);
        assert((key_in(last) == Some(key)) == (named == key));
        let kept = without_key(rest, key);
        if named == key {
            assert(without_key(entries, key) == kept);
            assert(table.insert(named, grant).remove(key) =~= table.remove(key));
        } else {
            assert(without_key(entries, key) == kept.push(last));
            assert(kept.push(last).drop_last() =~= kept);
            assert(keys::grant_of_item(last, kept.len() + 1) == keys::grant_of_item(
                last,
                entries.len(),
            ));
            assert(table.insert(named, grant).remove(key) =~= table.remove(key).insert(
                named,
                grant,
            ));
        }
    }
}

/// The key that is to be revoked, or why there is none.
fn find_doomed(entries: &Vec<Json>, given: &str) -> (r: Result<String, String>)
    ensures
        match doomed_key(json::item_views(entries@), given@) {
            Ok(key) => r is Ok && r->Ok_0@ == key,
            Err(e) => r is Err && r->Err_0@ == e,
        },
{
    if has_key(entries, given) {
        return Ok(given.to_owned());
    }
    let mut found = matching_keys(entries, given);
    if found.len() > 1 {
        let mut message = "前缀 ".to_owned();
        message.append(given);
        message.append(" 匹配到 ");
        message.append(text::decimal_string(found.len()).as_str());
        message.append(" 把 key，请给出更长前缀");
        return Err(message);
    }
    match found.pop() {
        None => {
            let mut message = "没有匹配 ".to_owned();
            message.append(given);
            message.append(" 的 key");
            Err(message)
        },
        Some(key) => {
            proof {
                assert(key_in(matching(json::item_views(entries@), given@)[0]) == Some(key@));
            }
            Ok(key)
        },
    }
}

/// Revokes the key that is given in full, or by characters that it alone begins
/// with.
pub fn keys_revoke(file: &KeysFile, key_or_prefix: &str) -> (r: Result<KeysEdit, String>)
    ensures
        match entries_of(file@) {
            Err(e) => r is Err && r->Err_0@ == e,
            Ok(entries) => match revoke_outcome(entries, key_or_prefix@) {
                Err(e) => r is Err && r->Err_0@ == e,
                Ok((key, kept)) => r is Ok && r->Ok_0.key@ == key && holds_entries(
                    r->Ok_0.body@,
                    kept,
                ),
            },
        },
{
    let entries = match read_keys_entries(file) {
        Ok(entries) => entries,
        Err(e) => {
            return Err(e);
        },
    };
    let key = match find_doomed(&entries, key_or_prefix) {
        Ok(key) => key,
        Err(e) => {
            return Err(e);
        },
    };
    let kept = keep_others(&entries, key.as_str());
    proof {
        json::lemma_item_views(kept@);
        assert forall|i: int| 0 <= i < kept@.len() implies json::nested_within(
            #[trigger] kept@[i]@,
            (json::nesting_limit() - 1) as nat,
        ) by {
            let k = choose|k: int|
                0 <= k < entries.len() && kept@[i]@ == #[trigger] entries@[k]@;
            assert(json::nested_within(entries@[k]@, (json::nesting_limit() - 1) as nat));
        }
    }
    if kept.len() == 0 {
        return Err(
            "不能吊销最后一把 key（真想开放模式请删掉 NYLON_API_KEYS_FILE 配置）".to_owned(),
        );
    }
    match file_text(kept) {
        Ok(body) => Ok(KeysEdit { key, body }),
        Err(e) => Err(e),
    }
}

/// The file of a new key table gives a table with the one key, which may do
/// everything for every tenant.
pub proof fn law_a_new_table_has_one_admin(admin: Seq<char>, body: Seq<char>)
    requires
        admin.len() > 0,
        holds_entries(body, seq![record_view(admin, "*"@, "admin"@)]),
    ensures
        keys::grants_of_text(body) == Ok::<Map<Seq<char>, GrantView>, Seq<char>>(
            Map::empty().insert(admin, GrantView { tenant: "*"@, scope: Scope::Admin }),
        ),
{
    let items = seq![record_view(admin, "*"@, "admin"@)];
    scope::law_names_stand_for_levels(Scope::Admin, "admin"@);
    reveal_strlit("*");
    lemma_added_record(Seq::empty(), admin, "*"@, "admin"@, Scope::Admin);
    assert(items =~= Seq::<JsonView>::empty().push(record_view(admin, "*"@, "admin"@)));
    keys::lemma_table_obeys_rules(items);
}

/// Reading the file that a key was added to gives the table that it held before,
/// with the grant of the new key in it.
pub proof fn law_an_added_key_is_granted(
    file: FileView,
    tenant: Seq<char>,
    scope: Seq<char>,
    key: Seq<char>,
    body: Seq<char>,
)
    requires
        tenant.len() > 0,
        entries_of(file) is Ok,
        keys::table_of(entries_of(file)->Ok_0) is Ok,
        add_outcome(file, tenant, scope, key) is Ok,
        holds_entries(body, add_outcome(file, tenant, scope, key)->Ok_0),
    ensures
        keys::grants_of_text(body) == Ok::<Map<Seq<char>, GrantView>, Seq<char>>(
            keys::table_of(entries_of(file)->Ok_0)->Ok_0.insert(
                key,
                GrantView { tenant, scope: scope::scope_named(scope)->0 },
            ),
        ),
{
    let entries = entries_of(file)->Ok_0;
    scope::law_names_stand_for_levels(Scope::Admin, scope);
    lemma_added_record(entries, key, tenant, scope, scope::scope_named(scope)->0);
    keys::lemma_table_obeys_rules(entries.push(record_view(key, tenant, scope)));
}

/// Reading the file that a key was revoked from gives the table that it held
/// before, without the key and with every other one.
pub proof fn law_a_revoked_key_is_gone(entries: Seq<JsonView>, given: Seq<char>, body: Seq<char>)
    requires
        keys::table_of(entries) is Ok,
        revoke_outcome(entries, given) is Ok,
        no_positional_record_has(entries, revoke_outcome(entries, given)->Ok_0.0),
        holds_entries(body, revoke_outcome(entries, given)->Ok_0.1),
    ensures
        keys::grants_of_text(body) == Ok::<Map<Seq<char>, GrantView>, Seq<char>>(
            keys::table_of(entries)->Ok_0.remove(revoke_outcome(entries, given)->Ok_0.0),
        ),
{
    let (key, kept) = revoke_outcome(entries, given)->Ok_0;
    lemma_table_without_key(entries, key);
    keys::lemma_table_obeys_rules(kept);
}

/// The digit characters differ as the digits do.
proof fn lemma_digit_chars(a: int, b: int)
    requires
        0 <= a < 16,
        0 <= b < 16,
        text::digit_char(a) == text::digit_char(b),
    ensures
        a == b,
{
}

/// Different bytes make different keys.
pub proof fn law_different_bytes_make_different_keys(a: Seq<u8>, b: Seq<u8>)
    requires
        key_text(a) == key_text(b),
    ensures
        a == b,
{
    let prefix = "nyl_"@.len();
    assert(key_text(a).skip(prefix as int) =~= hex_text(a));
    assert(key_text(b).skip(prefix as int) =~= hex_text(b));
    assert(hex_text(a).len() == hex_text(b).len());
    assert forall|i: int| 0 <= i < a.len() implies a[i] == b[i] by {
        assert(hex_text(a)[2 * i] == hex_text(b)[2 * i]);
        assert(hex_text(a)[2 * i + 1] == hex_text(b)[2 * i + 1]);
        assert((2 * i) / 2 == i && (2 * i) % 2 == 0);
        assert((2 * i + 1) / 2 == i && (2 * i + 1) % 2 == 1);
        lemma_digit_chars(a[i] as int / 16, b[i] as int / 16);
        lemma_digit_chars(a[i] as int % 16, b[i] as int % 16);
    }
    assert(a =~= b);
}

/// Where no record has a key, leaving out that key leaves out nothing.
proof fn lemma_without_missing_key(entries: Seq<JsonView>, key: Seq<char>)
    requires
        !holds_key(entries, key),
    ensures
        without_key(entries, key) == entries,
    decreases entries.len(),
{
    reveal(Seq::filter);
    if entries.len() > 0 {
        let rest = entries.drop_last();
        assert forall|i: int| 0 <= i < rest.len() implies key_in(#[trigger] rest[i]) != Some(
            key,
        ) by {
            assert(rest[i] == entries[i]);
        }
        lemma_without_missing_key(rest, key);
        assert(entries.last() == entries[entries.len() - 1]);
        assert(without_key(entries, key) =~= entries);
    } else {
        assert(without_key(entries, key) =~= entries);
    }
}

/// A key that was just added cannot be added once more.
pub proof fn law_a_key_is_added_once(
    file: FileView,
    tenant: Seq<char>,
    scope: Seq<char>,
    key: Seq<char>,
    body: Seq<char>,
    other_tenant: Seq<char>,
    other_scope: Seq<char>,
)
    requires
        add_outcome(file, tenant, scope, key) is Ok,
        holds_entries(body, add_outcome(file, tenant, scope, key)->Ok_0),
    ensures
        add_outcome(FileView::Text(body), other_tenant, other_scope, key) is Err,
{
    let entries = entries_of(file)->Ok_0;
    let more = entries.push(record_view(key, tenant, scope));
    lemma_new_record(key, tenant, scope);
    assert(key_in(more[entries.len() as int]) == Some(key));
    assert(holds_key(more, key));
}

/// Revoking, by its full name, a key that was just added leaves the records that
/// there were before, in their order; if there were none, it is refused.
pub proof fn law_revoking_undoes_adding(
    file: FileView,
    tenant: Seq<char>,
    scope: Seq<char>,
    key: Seq<char>,
    body: Seq<char>,
)
    requires
        add_outcome(file, tenant, scope, key) is Ok,
        holds_entries(body, add_outcome(file, tenant, scope, key)->Ok_0),
    ensures
        entries_of(FileView::Text(body)) is Ok,
        entries_of(file) is Ok,
        entries_of(file)->Ok_0.len() > 0 ==> revoke_outcome(
            entries_of(FileView::Text(body))->Ok_0,
            key,
        ) == Ok::<(Seq<char>, Seq<JsonView>), Seq<char>>((key, entries_of(file)->Ok_0)),
        entries_of(file)->Ok_0.len() == 0 ==> revoke_outcome(
            entries_of(FileView::Text(body))->Ok_0,
            key,
        ) is Err,
{
    let entries = entries_of(file)->Ok_0;
    let more = entries.push(record_view(key, tenant, scope));
    lemma_new_record(key, tenant, scope);
    assert(key_in(more[entries.len() as int]) == Some(key));
    assert(holds_key(more, key));
    assert(more.drop_last() =~= entries);
    lemma_without_missing_key(entries, key);
    reveal(Seq::filter);
    assert(without_key(more, key) == entries);
}

/// A table that is brought up to date with the file that a key was added to
/// grants that key what was asked for, and every other key what the file gave it
/// before.
pub proof fn law_an_added_key_works_after_a_reload(
    table: Map<Seq<char>, GrantView>,
    file: FileView,
    tenant: Seq<char>,
    scope: Seq<char>,
    key: Seq<char>,
    body: Seq<char>,
)
    requires
        tenant.len() > 0,
        entries_of(file) is Ok,
        keys::table_of(entries_of(file)->Ok_0) is Ok,
        add_outcome(file, tenant, scope, key) is Ok,
        holds_entries(body, add_outcome(file, tenant, scope, key)->Ok_0),
    ensures
        keys::table_after(table, true, Some(body)) == keys::table_of(
            entries_of(file)->Ok_0,
        )->Ok_0.insert(key, GrantView { tenant, scope: scope::scope_named(scope)->0 }),
{
    law_an_added_key_is_granted(file, tenant, scope, key, body);
}

/// A table that is brought up to date with the file that a key was revoked from
/// does not know that key, and grants every other one what the file gave it
/// before.
pub proof fn law_a_revoked_key_fails_after_a_reload(
    table: Map<Seq<char>, GrantView>,
    entries: Seq<JsonView>,
    given: Seq<char>,
    body: Seq<char>,
)
    requires
        keys::table_of(entries) is Ok,
        revoke_outcome(entries, given) is Ok,
        no_positional_record_has(entries, revoke_outcome(entries, given)->Ok_0.0),
        holds_entries(body, revoke_outcome(entries, given)->Ok_0.1),
    ensures
        keys::table_after(table, true, Some(body)) == keys::table_of(entries)->Ok_0.remove(
            revoke_outcome(entries, given)->Ok_0.0,
        ),
{
    law_a_revoked_key_is_gone(entries, given, body);
}

/// A key whose name is given in full is the one that is revoked, whatever other
/// keys begin with it; a shorter name has to fit one record alone.
pub proof fn law_a_full_key_is_never_ambiguous(entries: Seq<JsonView>, given: Seq<char>)
    ensures
        holds_key(entries, given) ==> doomed_key(entries, given) == Ok::<Seq<char>, Seq<char>>(
            given,
        ),
        doomed_key(entries, given) is Ok ==> holds_key(entries, doomed_key(entries, given)->Ok_0)
            && given.is_prefix_of(doomed_key(entries, given)->Ok_0),
        !holds_key(entries, given) ==> (doomed_key(entries, given) is Ok <==> matching(
            entries,
            given,
        ).len() == 1),
{
    if holds_key(entries, given) {
        assert(given.subrange(0, given.len() as int) =~= given);
    } else {
        let found = matching(entries, given);
        if found.len() == 1 {
            lemma_matching_comes_from(entries, given, 0);
        }
    }
}

/// What matches is one of the records, and its key begins as it should.
proof fn lemma_matching_comes_from(entries: Seq<JsonView>, given: Seq<char>, i: int)
    requires
        0 <= i < matching(entries, given).len(),
    ensures
        key_begins(matching(entries, given)[i], given),
        entries.contains(matching(entries, given)[i]),
    decreases entries.len(),
{
    reveal(Seq::filter);
    let rest = entries.drop_last();
    let last = entries.last();
    if i < matching(rest, given).len() {
        lemma_matching_comes_from(rest, given, i);
        let k = rest.index_of(matching(rest, given)[i]);
        assert(entries[k] == rest[k]);
    } else {
        assert(entries[entries.len() - 1] == last);
    }
}

/// The value of a hexadecimal digit in lower case.
pub open spec fn hex_value(c: char) -> int {
    if '0' <= c <= '9' {
        c as int - '0' as int
    } else {
        c as int - 'a' as int + 10
    }
}

/// A key is `nyl_` and, for each byte, two hexadecimal digits in lower case, of
/// which the first stands for sixteen times as much.
pub proof fn law_a_key_spells_its_bytes(bytes: Seq<u8>, i: int)
    requires
        0 <= i < bytes.len(),
    ensures
        key_text(bytes).len() == 4 + 2 * bytes.len(),
        "nyl_"@.is_prefix_of(key_text(bytes)),
        ({
            let high = key_text(bytes)[4 + 2 * i];
            let low = key_text(bytes)[5 + 2 * i];
            &&& '0' <= high <= '9' || 'a' <= high <= 'f'
            &&& '0' <= low <= '9' || 'a' <= low <= 'f'
            &&& bytes[i] == 16 * hex_value(high) + hex_value(low)
        }),
{
    reveal_strlit("nyl_");
    assert(key_text(bytes).subrange(0, 4) =~= "nyl_"@);
    assert(key_text(bytes)[4 + 2 * i] == hex_text(bytes)[2 * i]);
    assert(key_text(bytes)[5 + 2 * i] == hex_text(bytes)[2 * i + 1]);
    assert((2 * i) / 2 == i && (2 * i) % 2 == 0);
    assert((2 * i + 1) / 2 == i && (2 * i + 1) % 2 == 1);
    let b = bytes[i] as int;
    assert(0 <= b / 16 < 16 && 0 <= b % 16 < 16 && b == 16 * (b / 16) + b % 16);
}

/// A record holds its key, tenant and level under their names, and nothing else.
pub proof fn law_a_record_holds_its_fields(
    key: Seq<char>,
    tenant: Seq<char>,
    scope: Seq<char>,
    name: Seq<char>,
)
    ensures
        json::member_string(record_view(key, tenant, scope), "key"@) == Some(key),
        json::member_string(record_view(key, tenant, scope), "tenant"@) == Some(tenant),
        json::member_string(record_view(key, tenant, scope), "scope"@) == Some(scope),
        json::member(record_view(key, tenant, scope), name) is Some ==> name == "key"@ || name
            == "tenant"@ || name == "scope"@,
{
    reveal_strlit("key");
    reveal_strlit("tenant");
    reveal_strlit("scope");
    assert("key"@.len() == 3 && "tenant"@.len() == 6 && "scope"@.len() == 5);
}

/// A file that is missing has no records, one that holds a list of records, or an
/// object with such a list under `keys`, has these, and any other is reported.
pub proof fn law_a_file_has_the_records_of_its_text(
    raw: Seq<char>,
    v: JsonView,
    items: Seq<JsonView>,
    reason: Seq<char>,
)
    ensures
        entries_of(FileView::Missing) == Ok::<Seq<JsonView>, Seq<char>>(Seq::empty()),
        entries_of(FileView::Unreadable(reason)) == Err::<Seq<JsonView>, Seq<char>>(
            "读取失败: "@ + reason,
        ),
        json::json_of_text(raw) matches Err(e) ==> entries_of(FileView::Text(raw)) == Err::<
            Seq<JsonView>,
            Seq<char>,
        >("不是合法 JSON: "@ + e),
        json::json_of_text(raw) == Ok::<JsonView, Seq<char>>(v) && (v == JsonView::Array(items)
            || json::member(v, "keys"@) == Some(JsonView::Array(items))) ==> entries_of(
            FileView::Text(raw),
        ) == Ok::<Seq<JsonView>, Seq<char>>(items),
        json::json_of_text(raw) == Ok::<JsonView, Seq<char>>(v) && v !is Array && (json::member(
            v,
            "keys"@,
        ) is None || json::member(v, "keys"@)->0 !is Array) ==> entries_of(FileView::Text(raw))
            == Err::<Seq<JsonView>, Seq<char>>("key 表必须是 JSON 数组或 {\"keys\": [...]}"@),
{
}

/// A file that was written with some records has these records.
pub proof fn law_a_written_file_has_its_records(body: Seq<char>, entries: Seq<JsonView>)
    requires
        holds_entries(body, entries),
    ensures
        entries_of(FileView::Text(body)) == Ok::<Seq<JsonView>, Seq<char>>(entries),
        body == json::pretty_text(JsonView::Array(entries)),
        entries.len() > 0 ==> keys::grants_of_text(body) == keys::table_of(entries),
{
    keys::lemma_table_obeys_rules(entries);
}

/// Whether one of the records has a key under the name `key`.
pub open spec fn some_record_has(entries: Seq<JsonView>, key: Seq<char>) -> bool {
    exists|i: int|
        0 <= i < entries.len() && json::member_string(#[trigger] entries[i], "key"@) == Some(key)
}

/// A key can be added exactly if the level is one, all tenants are only asked for
/// with the highest, the key is not empty, the file can be read and no record has
/// the key; then its record comes behind those that there are. Otherwise the first
/// of these that fails is reported.
pub proof fn law_a_key_is_added_behind_the_others(
    file: FileView,
    tenant: Seq<char>,
    scope: Seq<char>,
    key: Seq<char>,
)
    ensures
        ({
            let outcome = add_outcome(file, tenant, scope, key);
            let known = scope == "read"@ || scope == "write"@ || scope == "admin"@;
            let allowed = tenant == "*"@ ==> scope == "admin"@;
            let filled = key.len() > 0;
            let entries = entries_of(file);
            &&& known && allowed && filled && entries is Ok && !some_record_has(
                entries->Ok_0,
                key,
            ) ==> outcome == Ok::<Seq<JsonView>, Seq<char>>(
                entries->Ok_0.push(record_view(key, tenant, scope)),
            )
            &&& !known ==> outcome == Err::<Seq<JsonView>, Seq<char>>(
                "scope 非法: "@ + scope + "（可选 read/write/admin）"@,
            )
            &&& known && !allowed ==> outcome == Err::<Seq<JsonView>, Seq<char>>(
                "tenant=\"*\" 通配仅允许 admin 档位"@,
            )
            &&& known && allowed && !filled ==> outcome == Err::<Seq<JsonView>, Seq<char>>(
                "key 不能为空"@,
            )
            &&& known && allowed && filled && entries is Err ==> outcome == entries
            &&& known && allowed && filled && entries is Ok && some_record_has(
                entries->Ok_0,
                key,
            ) ==> outcome == Err::<Seq<JsonView>, Seq<char>>("key 已存在"@)
        }),
{
    if let Ok(entries) = entries_of(file) {
        lemma_holding_a_key(entries, key);
    }
}

/// A record has a key if it holds the key under the name `key`.
proof fn lemma_holding_a_key(entries: Seq<JsonView>, key: Seq<char>)
    ensures
        holds_key(entries, key) == some_record_has(entries, key),
{
    if holds_key(entries, key) {
        let i = choose|i: int|
            0 <= i < entries.len() && key_in(#[trigger] entries[i]) == Some(key);
        assert(json::member_string(entries[i], "key"@) == Some(key));
    }
    if some_record_has(entries, key) {
        let i = choose|i: int|
            0 <= i < entries.len() && json::member_string(#[trigger] entries[i], "key"@) == Some(
                key,
            );
        assert(key_in(entries[i]) == Some(key));
    }
}

/// What adding a key comes to: the key itself, and a file that has the records
/// there were and one more, with the key, the tenant and the level.
pub proof fn law_an_edit_adds_its_record(
    file: FileView,
    tenant: Seq<char>,
    scope: Seq<char>,
    key: Seq<char>,
    r: Result<KeysEdit, String>,
)
    requires
        added(file, tenant, scope, key, r),
    ensures
        r is Ok <==> add_outcome(file, tenant, scope, key) is Ok,
        r matches Ok(edit) ==> edit.key@ == key && entries_of(FileView::Text(edit.body@)) == Ok::<
            Seq<JsonView>,
            Seq<char>,
        >(entries_of(file)->Ok_0.push(record_view(key, tenant, scope))),
        r matches Err(e) ==> add_outcome(file, tenant, scope, key) == Err::<
            Seq<JsonView>,
            Seq<char>,
        >(e@),
{
}

/// A listing says of a record the tenant and the level that the record has, and
/// `?` and the lowest level of one that has none.
pub proof fn law_a_listing_says_what_the_record_says(entry: JsonView)
    ensures
        listing(entry).1 == match json::member_string(entry, "tenant"@) {
            Some(tenant) => tenant,
            None => "?"@,
        },
        listing(entry).2 == match json::member_string(entry, "scope"@) {
            Some(scope) => scope,
            None => "read"@,
        },
        json::member_string(entry, "key"@) matches Some(key) ==> listed_key(entry) == key,
        json::member_string(entry, "key"@) is None ==> listed_key(entry).len() == 0,
{
}

/// A key that was added is listed with the tenant and the level that it was added
/// with.
pub proof fn law_an_added_key_is_listed_as_it_was_added(
    key: Seq<char>,
    tenant: Seq<char>,
    scope: Seq<char>,
)
    ensures
        listed_key(record_view(key, tenant, scope)) == key,
        listing(record_view(key, tenant, scope)).1 == tenant,
        listing(record_view(key, tenant, scope)).2 == scope,
{
    law_a_record_holds_its_fields(key, tenant, scope, "key"@);
}

/// A record with named fields is listed with the key, the tenant and the level
/// that the table read from the same file grants by it.
pub proof fn law_what_is_listed_is_what_is_granted(entry: JsonView, number: nat)
    requires
        entry is Object,
        keys::grant_of_item(entry, number) is Ok,
    ensures
        ({
            let (key, grant) = keys::grant_of_item(entry, number)->Ok_0;
            &&& listed_key(entry) == key
            &&& listing(entry).1 == grant.tenant
            &&& listing(entry).2 == scope::scope_name(grant.scope)
        }),
{
    let (key, grant) = keys::grant_of_item(entry, number)->Ok_0;
    if let Some(name) = json::member_string(entry, "scope"@) {
        scope::law_names_stand_for_levels(grant.scope, name);
    }
}

/// A list has one line for each record, in their order.
pub proof fn law_a_list_has_a_line_for_each_record(
    list: Seq<(String, String, String)>,
    entries: Seq<JsonView>,
    i: int,
)
    requires
        lists(list, entries),
    ensures
        list.len() == entries.len(),
        0 <= i < entries.len() ==> list[i].0@ == listing(entries[i]).0 && list[i].1@ == listing(
            entries[i],
        ).1 && list[i].2@ == listing(entries[i]).2,
{
}

/// Where no key begins with what is given, nothing matches.
proof fn lemma_no_match(entries: Seq<JsonView>, given: Seq<char>)
    requires
        forall|j: int|
            0 <= j < entries.len() ==> (json::member_string(#[trigger] entries[j], "key"@) matches
                Some(m) ==> !given.is_prefix_of(m)),
    ensures
        matching(entries, given).len() == 0,
    decreases entries.len(),
{
    reveal(Seq::filter);
    if entries.len() > 0 {
        let rest = entries.drop_last();
        assert forall|j: int| 0 <= j < rest.len() implies (json::member_string(
            #[trigger] rest[j],
            "key"@,
        ) matches Some(m) ==> !given.is_prefix_of(m)) by {
            assert(rest[j] == entries[j]);
        }
        lemma_no_match(rest, given);
        assert(entries.last() == entries[entries.len() - 1]);
        assert(!key_begins(entries.last(), given));
    }
}

/// Where one key alone begins with what is given, its record alone matches.
proof fn lemma_one_match(entries: Seq<JsonView>, given: Seq<char>, i: int, k: Seq<char>)
    requires
        0 <= i < entries.len(),
        json::member_string(entries[i], "key"@) == Some(k),
        given.is_prefix_of(k),
        forall|j: int|
            0 <= j < entries.len() && j != i ==> (json::member_string(
                #[trigger] entries[j],
                "key"@,
            ) matches Some(m) ==> !given.is_prefix_of(m)),
    ensures
        matching(entries, given) == seq![entries[i]],
    decreases entries.len(),
{
    reveal(Seq::filter);
    let rest = entries.drop_last();
    assert(entries.last() == entries[entries.len() - 1]);
    assert forall|j: int| 0 <= j < rest.len() && j != i implies (json::member_string(
        #[trigger] rest[j],
        "key"@,
    ) matches Some(m) ==> !given.is_prefix_of(m)) by {
        assert(rest[j] == entries[j]);
    }
    if i == entries.len() - 1 {
        lemma_no_match(rest, given);
        assert(key_begins(entries.last(), given));
        assert(matching(entries, given) =~= seq![entries[i]]);
    } else {
        assert(rest[i] == entries[i]);
        lemma_one_match(rest, given, i, k);
        assert(!key_begins(entries.last(), given));
    }
}

/// A key is revoked by any characters that it begins with and no other key does.
pub proof fn law_a_unique_beginning_finds_its_key(
    entries: Seq<JsonView>,
    given: Seq<char>,
    i: int,
    k: Seq<char>,
)
    requires
        0 <= i < entries.len(),
        json::member_string(entries[i], "key"@) == Some(k),
        given.is_prefix_of(k),
        forall|j: int|
            0 <= j < entries.len() && j != i ==> (json::member_string(
                #[trigger] entries[j],
                "key"@,
            ) matches Some(m) ==> !given.is_prefix_of(m)),
    ensures
        doomed_key(entries, given) == Ok::<Seq<char>, Seq<char>>(k),
        entries.len() > 1 ==> revoke_outcome(entries, given) is Ok && revoke_outcome(
            entries,
            given,
        )->Ok_0.0 == k,
{
    lemma_one_match(entries, given, i, k);
    lemma_holding_a_key(entries, given);
    if some_record_has(entries, given) {
        let j = choose|j: int|
            0 <= j < entries.len() && json::member_string(#[trigger] entries[j], "key"@) == Some(
                given,
            );
        assert(given.subrange(0, given.len() as int) =~= given);
        if j != i {
            assert(!given.is_prefix_of(given));
        }
    }
    if entries.len() > 1 {
        let j = if i == 0 {
            1
        } else {
            0
        };
        assert(json::member_string(entries[j], "key"@) matches Some(m) ==> !given.is_prefix_of(m));
        assert(json::member_string(entries[j], "key"@) != Some(k));
        lemma_others_are_kept(entries, k, j);
    }
}

/// A key that a record has is revoked when it is given in full.
pub proof fn law_a_full_key_finds_itself(entries: Seq<JsonView>, given: Seq<char>, i: int)
    requires
        0 <= i < entries.len(),
        json::member_string(entries[i], "key"@) == Some(given),
    ensures
        doomed_key(entries, given) == Ok::<Seq<char>, Seq<char>>(given),
{
    assert(key_in(entries[i]) == Some(given));
    assert(holds_key(entries, given));
}

/// Where no key begins with what is given, nothing is revoked.
pub proof fn law_what_no_key_begins_with_is_reported(entries: Seq<JsonView>, given: Seq<char>)
    requires
        forall|j: int|
            0 <= j < entries.len() ==> (json::member_string(#[trigger] entries[j], "key"@) matches
                Some(m) ==> !given.is_prefix_of(m)),
    ensures
        revoke_outcome(entries, given) == Err::<(Seq<char>, Seq<JsonView>), Seq<char>>(
            "没有匹配 "@ + given + " 的 key"@,
        ),
{
    lemma_no_match(entries, given);
    lemma_holding_a_key(entries, given);
    assert(given.subrange(0, given.len() as int) =~= given);
    if some_record_has(entries, given) {
        let j = choose|j: int|
            0 <= j < entries.len() && json::member_string(#[trigger] entries[j], "key"@) == Some(
                given,
            );
        assert(!given.is_prefix_of(given));
    }
}

/// The places of the records whose keys begin with some characters.
pub open spec fn places_of(entries: Seq<JsonView>, given: Seq<char>) -> Set<int> {
    Set::new(
        |i: int|
            0 <= i < entries.len() && (json::member_string(entries[i], "key"@) is Some
                && given.is_prefix_of(json::member_string(entries[i], "key"@)->0)),
    )
}

/// As many records match as there are places of such records.
proof fn lemma_matches_are_counted(entries: Seq<JsonView>, given: Seq<char>)
    ensures
        places_of(entries, given).finite(),
        places_of(entries, given).len() == matching(entries, given).len(),
    decreases entries.len(),
{
    reveal(Seq::filter);
    if entries.len() == 0 {
        assert(places_of(entries, given) =~= Set::empty());
    } else {
        let rest = entries.drop_last();
        let last = entries.len() - 1;
        lemma_matches_are_counted(rest, given);
        assert(entries.last() == entries[last]);
        assert(forall|i: int| 0 <= i < rest.len() ==> rest[i] == entries[i]);
        if key_begins(entries.last(), given) {
            assert(places_of(entries, given) =~= places_of(rest, given).insert(last));
        } else {
            assert(places_of(entries, given) =~= places_of(rest, given));
        }
    }
}

/// Characters that the keys of several records begin with, and that are no key
/// themselves, are reported with the number of these records.
pub proof fn law_an_ambiguous_beginning_is_reported(
    entries: Seq<JsonView>,
    given: Seq<char>,
    i: int,
    j: int,
)
    requires
        places_of(entries, given).contains(i),
        places_of(entries, given).contains(j),
        i != j,
        forall|k: int|
            0 <= k < entries.len() ==> json::member_string(#[trigger] entries[k], "key"@) != Some(
                given,
            ),
    ensures
        revoke_outcome(entries, given) == Err::<(Seq<char>, Seq<JsonView>), Seq<char>>(
            "前缀 "@ + given + " 匹配到 "@ + text::decimal(places_of(entries, given).len())
                + " 把 key，请给出更长前缀"@,
        ),
{
    lemma_matches_are_counted(entries, given);
    lemma_holding_a_key(entries, given);
    let places = places_of(entries, given);
    assert(places.remove(i).contains(j));
    assert(places.remove(i).len() > 0);
}

/// A record that does not have the key is kept.
proof fn lemma_others_are_kept(entries: Seq<JsonView>, key: Seq<char>, i: int)
    requires
        0 <= i < entries.len(),
        json::member_string(entries[i], "key"@) != Some(key),
    ensures
        without_key(entries, key).contains(entries[i]),
    decreases entries.len(),
{
    reveal(Seq::filter);
    let rest = entries.drop_last();
    let kept = without_key(rest, key);
    assert(entries.last() == entries[entries.len() - 1]);
    if i < entries.len() - 1 {
        assert(rest[i] == entries[i]);
        lemma_others_are_kept(rest, key, i);
        let k = kept.index_of(entries[i]);
        assert(without_key(entries, key)[k] == kept[k]);
    } else {
        let all = without_key(entries, key);
        assert(key_in(entries.last()) != Some(key));
        assert(all[all.len() - 1] == entries[i]);
    }
}

/// Leaving out a key is to keep the records, in their order, that do not hold it
/// under the name `key`.
proof fn lemma_without_key_is_the_rest(entries: Seq<JsonView>, key: Seq<char>)
    ensures
        without_key(entries, key) == entries.filter(
            |e: JsonView| json::member_string(e, "key"@) != Some(key),
        ),
    decreases entries.len(),
{
    reveal(Seq::filter);
    if entries.len() > 0 {
        lemma_without_key_is_the_rest(entries.drop_last(), key);
    }
}

/// Revoking leaves out the records with the key and keeps all others in their
/// order; if none would be left, it is refused.
pub proof fn law_revoking_keeps_the_other_records(entries: Seq<JsonView>, given: Seq<char>)
    requires
        doomed_key(entries, given) is Ok,
    ensures
        ({
            let key = doomed_key(entries, given)->Ok_0;
            let kept = entries.filter(
                |e: JsonView| json::member_string(e, "key"@) != Some(key),
            );
            &&& kept.len() > 0 ==> revoke_outcome(entries, given) == Ok::<
                (Seq<char>, Seq<JsonView>),
                Seq<char>,
            >((key, kept))
            &&& kept.len() == 0 ==> revoke_outcome(entries, given) == Err::<
                (Seq<char>, Seq<JsonView>),
                Seq<char>,
            >("不能吊销最后一把 key（真想开放模式请删掉 NYLON_API_KEYS_FILE 配置）"@)
        }),
{
    lemma_without_key_is_the_rest(entries, doomed_key(entries, given)->Ok_0);
}

/// Whatever the outcome of reading a file is, it is seen as it is.
pub proof fn law_a_file_is_what_it_holds(text: String)
    ensures
        KeysFile::Missing@ == FileView::Missing,
        KeysFile::Unreadable(text)@ == FileView::Unreadable(text@),
        KeysFile::Text(text)@ == FileView::Text(text@),
{
}

} // verus!
