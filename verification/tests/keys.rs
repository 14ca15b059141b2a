use nylon_engine::json::{parse_json, Json};
use nylon_engine::keys::{
    grant_from_entry, grants_from_items, grants_from_json, read_record, ApiKeys, KeyEntry, Reload,
};
use nylon_engine::scope::Scope;

fn keys() -> ApiKeys {
    ApiKeys::parse(
        r#"[
            {"key": "k-read", "tenant": "acme", "scope": "read"},
            {"key": "k-write", "tenant": "acme", "scope": "write"},
            {"key": "k-admin", "tenant": "*", "scope": "admin"}
        ]"#,
    )
    .unwrap()
}

fn fault(text: &str) -> String {
    ApiKeys::parse(text).err().unwrap()
}

#[test]
fn parse_and_authenticate() {
    let k = keys();
    assert_eq!(k.len(), 3);
    let g = k.authenticate("k-read").unwrap();
    assert_eq!(g.tenant, "acme");
    assert_eq!(g.scope, Scope::Read);
    assert!(k.authenticate("nope").is_none());
}

#[test]
fn wildcard_tenant_requires_admin() {
    assert!(ApiKeys::parse(r#"[{"key":"x","tenant":"*","scope":"write"}]"#).is_err());
    assert!(ApiKeys::parse(r#"[{"key":"x","tenant":"*","scope":"admin"}]"#).is_ok());
}

#[test]
fn missing_scope_defaults_to_read() {
    let k = ApiKeys::parse(r#"{"keys":[{"key":"x","tenant":"t"}]}"#).unwrap();
    assert_eq!(k.authenticate("x").unwrap().scope, Scope::Read);
}

#[test]
fn scope_ordering() {
    assert!(Scope::Read.allows(Scope::Read));
    assert!(!Scope::Read.allows(Scope::Write));
    assert!(Scope::Admin.allows(Scope::Write));
    assert!(Scope::Write.allows(Scope::Read));
}

#[test]
fn levels_and_their_names() {
    for scope in [Scope::Read, Scope::Write, Scope::Admin] {
        assert_eq!(Scope::parse(scope.as_str()), Some(scope));
    }
    assert_eq!(Scope::Read.as_str(), "read");
    assert_eq!(Scope::Write.as_str(), "write");
    assert_eq!(Scope::Admin.as_str(), "admin");
    assert_eq!(Scope::parse("Admin"), None);
    assert_eq!(Scope::parse(""), None);
    assert_eq!(Scope::parse("readwrite"), None);
    assert!(!Scope::Write.allows(Scope::Admin));
    assert!(!Scope::Read.allows(Scope::Admin));
    assert!(Scope::Admin.allows(Scope::Admin));
}

#[test]
fn a_null_level_counts_as_none() {
    let k = ApiKeys::parse(r#"[{"key":"x","tenant":"t","scope":null}]"#).unwrap();
    assert_eq!(k.authenticate("x").unwrap().scope, Scope::Read);
}

#[test]
fn both_forms_of_a_table() {
    let list = ApiKeys::parse(r#"[{"key":"x","tenant":"t","scope":"write"}]"#).unwrap();
    let object =
        ApiKeys::parse(r#"{"keys":[{"key":"x","tenant":"t","scope":"write"}],"note":1}"#).unwrap();
    assert_eq!(list.len(), object.len());
    assert_eq!(list.authenticate("x").unwrap().scope, object.authenticate("x").unwrap().scope);
}

#[test]
fn what_is_no_table() {
    let complaint = "key 表必须是 JSON 数组或 {\"keys\": [...]}";
    assert_eq!(fault("{}"), complaint);
    assert_eq!(fault("7"), complaint);
    assert_eq!(fault("\"keys\""), complaint);
    assert_eq!(fault(r#"{"keys": {}}"#), complaint);
    assert_eq!(fault("[]"), "key 表为空（不配置鉴权请直接去掉环境变量）");
    assert_eq!(fault(r#"{"keys": []}"#), "key 表为空（不配置鉴权请直接去掉环境变量）");
    assert_eq!(fault(""), "EOF while parsing a value at line 1 column 0");
    assert_eq!(fault("[1,]"), "trailing comma at line 1 column 4");
}

#[test]
fn faults_of_records_name_the_record() {
    assert_eq!(
        fault(r#"[{"key":"a","tenant":"t"},{"key":"","tenant":"t"}]"#),
        "第 2 条记录 key / tenant 不能为空"
    );
    assert_eq!(fault(r#"[{"key":"a","tenant":""}]"#), "第 1 条记录 key / tenant 不能为空");
    assert_eq!(
        fault(r#"[{"key":"a","tenant":"t","scope":"root"}]"#),
        "第 1 条记录 scope 非法: root"
    );
    assert_eq!(
        fault(r#"[{"key":"a","tenant":"*"}]"#),
        "第 1 条记录：tenant=\"*\" 通配仅允许 admin 档位"
    );
    assert_eq!(
        fault(r#"[{"tenant":"t"}]"#),
        "第 1 条 key 记录格式错误: missing field `key`"
    );
    assert_eq!(
        fault(r#"[{"key":"k"}]"#),
        "第 1 条 key 记录格式错误: missing field `tenant`"
    );
    let mut many = "[".to_string();
    for i in 0..11 {
        many.push_str(&format!("{{\"key\":\"k{i}\",\"tenant\":\"t\"}},"));
    }
    many.push_str("null]");
    assert_eq!(
        fault(&many),
        "第 12 条 key 记录格式错误: invalid type: null, expected struct KeyEntry"
    );
}

#[test]
fn the_first_fault_is_reported() {
    assert_eq!(
        fault(r#"[{"key":"a","tenant":"t","scope":"root"},{"key":""}]"#),
        "第 1 条记录 scope 非法: root"
    );
}

#[test]
fn fields_of_the_wrong_kind() {
    let before = "第 1 条 key 记录格式错误: ";
    let cases = [
        (r#"[{"key":1,"tenant":"t"}]"#, "invalid type: integer `1`, expected a string"),
        (r#"[{"key":"k","tenant":true}]"#, "invalid type: boolean `true`, expected a string"),
        (r#"[{"key":"k","tenant":null}]"#, "invalid type: null, expected a string"),
        (
            r#"[{"key":"k","tenant":"t","scope":1.5}]"#,
            "invalid type: floating point `1.5`, expected a string",
        ),
        (r#"[{"key":"k","tenant":"t","scope":{}}]"#, "invalid type: map, expected a string"),
        (r#"[{"key":[],"tenant":"t"}]"#, "invalid type: sequence, expected a string"),
        (r#"["k"]"#, "invalid type: string \"k\", expected struct KeyEntry"),
        (r#"[5]"#, "invalid type: integer `5`, expected struct KeyEntry"),
        (r#"[false]"#, "invalid type: boolean `false`, expected struct KeyEntry"),
        (r#"[{"tenant":2,"key":1}]"#, "invalid type: integer `1`, expected a string"),
        (r#"[{"tenant":2,"scope":3}]"#, "invalid type: integer `3`, expected a string"),
    ];
    for (text, complaint) in cases {
        assert_eq!(fault(text), format!("{before}{complaint}"));
    }
}

#[test]
fn records_may_list_their_fields() {
    let k = ApiKeys::parse(r#"[["x","t","write"],["y","u",null]]"#).unwrap();
    assert_eq!(k.authenticate("x").unwrap().scope, Scope::Write);
    assert_eq!(k.authenticate("y").unwrap().scope, Scope::Read);
    let before = "第 1 条 key 记录格式错误: ";
    let cases = [
        ("[[]]", "invalid length 0, expected struct KeyEntry with 3 elements"),
        (r#"[["k"]]"#, "invalid length 1, expected struct KeyEntry with 3 elements"),
        (r#"[["k","t"]]"#, "invalid length 2, expected struct KeyEntry with 3 elements"),
        (r#"[["k","t",null,1,2]]"#, "invalid length 5, expected fewer elements in array"),
        ("[[1]]", "invalid type: integer `1`, expected a string"),
        (r#"[["k",1]]"#, "invalid type: integer `1`, expected a string"),
        (r#"[["k","t",1]]"#, "invalid type: integer `1`, expected a string"),
    ];
    for (text, complaint) in cases {
        assert_eq!(fault(text), format!("{before}{complaint}"));
    }
}

#[test]
fn other_fields_are_left_aside() {
    let k = ApiKeys::parse(r#"[{"key":"x","tenant":"t","owner":{"a":[1]}}]"#).unwrap();
    assert_eq!(k.authenticate("x").unwrap().tenant, "t");
}

#[test]
fn the_later_record_of_a_key_counts() {
    let k = ApiKeys::parse(
        r#"[{"key":"x","tenant":"a"},{"key":"x","tenant":"b","scope":"write"}]"#,
    )
    .unwrap();
    assert_eq!(k.len(), 1);
    assert_eq!(k.authenticate("x").unwrap().tenant, "b");
    assert_eq!(k.authenticate("x").unwrap().scope, Scope::Write);
}

#[test]
fn the_later_member_of_a_name_counts() {
    let k = ApiKeys::parse(r#"[{"key":"x","key":"y","tenant":"t"}]"#).unwrap();
    assert!(k.authenticate("x").is_none());
    assert!(k.authenticate("y").is_some());
}

#[test]
fn an_empty_table_knows_no_key() {
    let k = ApiKeys::default();
    assert_eq!(k.len(), 0);
    assert!(k.authenticate("").is_none());
    assert!(!k.reload_due(Some(1)));
}

#[test]
fn records_one_by_one() {
    let record = read_record(&parse_json(r#"{"key":"k","tenant":"t","scope":"admin"}"#).unwrap());
    let record = record.unwrap();
    assert_eq!(record.scope.as_deref(), Some("admin"));
    let (key, grant) = grant_from_entry(record, 1).unwrap();
    assert_eq!((key.as_str(), grant.tenant.as_str(), grant.scope), ("k", "t", Scope::Admin));
    let entry = KeyEntry { key: "k".to_string(), tenant: "t".to_string(), scope: None };
    assert_eq!(grant_from_entry(entry, 4).unwrap().1.scope, Scope::Read);
    let entry = KeyEntry { key: String::new(), tenant: "t".to_string(), scope: None };
    assert_eq!(grant_from_entry(entry, 40).err().unwrap(), "第 40 条记录 key / tenant 不能为空");
}

#[test]
fn a_list_without_records_gives_no_grants() {
    assert!(grants_from_items(&Vec::new()).ok().unwrap().is_empty());
    assert!(grants_from_json(&Json::Array(Vec::new())).is_err());
    assert!(ApiKeys::parse_grants(r#"[{"key":"x","tenant":"t"}]"#).ok().unwrap().len() == 1);
}

#[test]
fn a_table_from_text_is_never_reloaded() {
    let mut k = keys();
    assert!(!k.reload_due(Some(5)));
    let other = r#"[{"key":"new","tenant":"t"}]"#;
    assert_eq!(k.maybe_reload(Some(5), Some(other)), Reload::Current);
    assert_eq!(k.len(), 3);
    assert!(k.authenticate("new").is_none());
}

#[test]
fn a_changed_file_is_read_anew() {
    let first = r#"[{"key":"old","tenant":"t"}]"#;
    let second = r#"[{"key":"new","tenant":"t"},{"key":"more","tenant":"t"}]"#;
    let mut k = ApiKeys::load(first, Some(10)).ok().unwrap();
    assert!(!k.reload_due(Some(10)));
    assert_eq!(k.maybe_reload(Some(10), Some(second)), Reload::Current);
    assert!(k.authenticate("old").is_some());
    assert!(k.reload_due(Some(11)));
    assert_eq!(k.maybe_reload(Some(11), Some(second)), Reload::Reloaded(2));
    assert!(k.authenticate("old").is_none());
    assert!(k.authenticate("new").is_some());
    assert!(!k.reload_due(Some(11)));
    assert!(k.reload_due(Some(10)));
}

#[test]
fn a_file_that_cannot_be_read_keeps_the_table() {
    let mut k = ApiKeys::load(r#"[{"key":"old","tenant":"t"}]"#, Some(10)).ok().unwrap();
    assert_eq!(k.maybe_reload(Some(11), None), Reload::Kept);
    assert_eq!(k.maybe_reload(Some(11), Some(r#"[{"key":"ne"#)), Reload::Kept);
    assert_eq!(k.maybe_reload(Some(11), Some("[]")), Reload::Kept);
    assert!(k.authenticate("old").is_some());
    assert!(k.reload_due(Some(11)));
}

#[test]
fn a_file_without_a_time_counts_as_one_time() {
    let text = r#"[{"key":"old","tenant":"t"}]"#;
    let mut k = ApiKeys::load(text, None).ok().unwrap();
    assert!(!k.reload_due(None));
    assert!(k.reload_due(Some(0)));
    assert_eq!(k.maybe_reload(Some(0), Some(text)), Reload::Reloaded(1));
    assert!(k.reload_due(None));
}

#[test]
fn a_bad_file_is_not_loaded() {
    assert_eq!(
        ApiKeys::load("[]", Some(1)).err().unwrap(),
        "解析失败: key 表为空（不配置鉴权请直接去掉环境变量）"
    );
}
