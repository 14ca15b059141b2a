use nylon_engine::json::{parse_json, Json};
use nylon_engine::keyfile::{
    add_key, bootstrap_file, generate_key, hex_lower, key_from_bytes, keys_add, keys_list,
    keys_revoke, list_entries, new_record, read_keys_entries, KeysFile,
    KeysStart,
};
use nylon_engine::keys::{ApiKeys, Reload};
use nylon_engine::scope::Scope;

fn file(text: &str) -> KeysFile {
    KeysFile::Text(text.to_string())
}

fn text_at<'a>(json: &'a Json, name: &str) -> &'a str {
    json.get(name).unwrap().as_str().unwrap()
}

#[test]
fn generated_key_format() {
    let k = generate_key();
    assert!(k.starts_with("nyl_"));
    assert_eq!(k.len(), 4 + 32);
    assert_ne!(generate_key(), generate_key());
}

#[test]
fn bootstrap_creates_admin_key_file() {
    let raw = match ApiKeys::load_or_bootstrap(&KeysFile::Missing, None).ok().unwrap() {
        KeysStart::Create(new) => new.body,
        KeysStart::Ready(_) => unreachable!(),
    };
    let keys = match ApiKeys::load_or_bootstrap(&file(&raw), Some(1)).ok().unwrap() {
        KeysStart::Ready(keys) => keys,
        KeysStart::Create(_) => unreachable!(),
    };
    assert_eq!(keys.len(), 1);
    let v = parse_json(&raw).unwrap();
    let record = &v.as_array().unwrap()[0];
    let key = text_at(record, "key");
    assert_eq!(text_at(record, "scope"), "admin");
    let g = keys.authenticate(key).unwrap();
    assert_eq!(g.scope, Scope::Admin);
}

#[test]
fn hot_reload_after_keys_add_and_revoke() {
    let first = bootstrap_file(&generate_key()).unwrap();
    let mut keys = ApiKeys::load(&first, Some(1)).ok().unwrap();
    let added = keys_add(&KeysFile::Text(first), "acme", "write", None).unwrap();
    assert_eq!(keys.maybe_reload(Some(2), Some(&added.body)), Reload::Reloaded(2));
    assert!(keys.authenticate(&added.key).is_some());
    let removed = keys_revoke(&KeysFile::Text(added.body), &added.key).unwrap();
    assert_eq!(removed.key, added.key);
    assert_eq!(keys.maybe_reload(Some(3), Some(&removed.body)), Reload::Reloaded(1));
    assert!(keys.authenticate(&added.key).is_none());
    assert_eq!(keys.len(), 1);
}

#[test]
fn revoke_ambiguous_prefix_rejected() {
    let one = keys_add(&KeysFile::Missing, "t", "write", Some("nyl_aaaa1111".into())).unwrap();
    let two = keys_add(&file(&one.body), "t", "write", Some("nyl_aaaa2222".into())).unwrap();
    assert!(keys_revoke(&file(&two.body), "nyl_aaaa").is_err());
    assert_eq!(keys_revoke(&file(&two.body), "nyl_aaaa1").unwrap().key, "nyl_aaaa1111");
}

#[test]
fn keys_add_validates_scope_and_wildcard() {
    assert!(keys_add(&KeysFile::Missing, "t", "superuser", None).is_err());
    assert!(keys_add(&KeysFile::Missing, "*", "write", None).is_err());
    assert!(keys_add(&KeysFile::Missing, "*", "admin", None).is_ok());
}

#[test]
fn starting_fails_for_a_reason() {
    let bad = ApiKeys::load_or_bootstrap(&file("[]"), None).err().unwrap();
    assert_eq!(bad, "解析失败: key 表为空（不配置鉴权请直接去掉环境变量）");
    let denied = KeysFile::Unreadable("denied".to_string());
    assert_eq!(ApiKeys::load_or_bootstrap(&denied, None).err().unwrap(), "读取失败: denied");
}

#[test]
fn a_table_that_was_started_follows_its_file() {
    let held = file(r#"[{"key":"k","tenant":"t"}]"#);
    match ApiKeys::load_or_bootstrap(&held, Some(9)).ok().unwrap() {
        KeysStart::Ready(keys) => {
            assert!(!keys.reload_due(Some(9)));
            assert!(keys.reload_due(Some(10)));
        }
        KeysStart::Create(_) => unreachable!(),
    }
}

#[test]
fn hexadecimal_digits() {
    assert_eq!(hex_lower(&[]), "");
    assert_eq!(hex_lower(&[0, 1, 15, 16, 159, 160, 255]), "00010f109fa0ff");
    assert_eq!(key_from_bytes(&[222, 173, 190, 239]), "nyl_deadbeef");
}

#[test]
fn different_bytes_make_different_keys() {
    let mut seen: Vec<String> = Vec::new();
    for b in 0u8..=255 {
        let key = key_from_bytes(&[b]);
        assert!(!seen.contains(&key));
        seen.push(key);
    }
}

#[test]
fn generated_keys_are_lower_case_digits() {
    let key = generate_key();
    for c in key[4..].chars() {
        assert!(c.is_ascii_digit() || ('a'..='f').contains(&c));
    }
}

#[test]
fn a_written_file_is_indented() {
    let body = add_key(&KeysFile::Missing, "acme", "read", "k").unwrap();
    assert_eq!(
        body,
        "[\n  {\n    \"key\": \"k\",\n    \"scope\": \"read\",\n    \"tenant\": \"acme\"\n  }\n]"
    );
}

#[test]
fn adding_keeps_what_was_there() {
    let before = r#"{"keys":[{"key":"a","tenant":"t","note":{"n":[1.5,-2,1e100]}},["b","u",null]]}"#;
    let body = add_key(&file(before), "acme", "admin", "c").unwrap();
    let entries = read_keys_entries(&file(&body)).unwrap();
    let old = read_keys_entries(&file(before)).unwrap();
    assert_eq!(entries.len(), 3);
    assert_eq!(entries[0], old[0]);
    assert_eq!(entries[1], old[1]);
    assert_eq!(entries[2], new_record("c", "acme", "admin"));
    let keys = ApiKeys::parse(&body).ok().unwrap();
    assert_eq!(keys.len(), 3);
    assert_eq!(keys.authenticate("c").unwrap().scope, Scope::Admin);
    assert_eq!(keys.authenticate("b").unwrap().tenant, "u");
}

#[test]
fn adding_fails_for_a_reason() {
    let held = file(r#"[{"key":"a","tenant":"t"}]"#);
    let cases = [
        (add_key(&held, "t", "root", "x"), "scope 非法: root（可选 read/write/admin）"),
        (add_key(&held, "*", "read", "x"), "tenant=\"*\" 通配仅允许 admin 档位"),
        (add_key(&held, "t", "read", ""), "key 不能为空"),
        (add_key(&held, "t", "read", "a"), "key 已存在"),
        (add_key(&file("nope"), "t", "read", "x"), "不是合法 JSON: expected ident at line 1 column 2"),
        (add_key(&file("{}"), "t", "read", "x"), "key 表必须是 JSON 数组或 {\"keys\": [...]}"),
        (
            add_key(&KeysFile::Unreadable("denied".to_string()), "t", "read", "x"),
            "读取失败: denied",
        ),
        (add_key(&file("nope"), "t", "root", ""), "scope 非法: root（可选 read/write/admin）"),
        (add_key(&file("nope"), "t", "read", ""), "key 不能为空"),
    ];
    for (outcome, message) in cases {
        assert_eq!(outcome.unwrap_err(), message);
    }
}

#[test]
fn a_key_is_added_once() {
    let once = keys_add(&KeysFile::Missing, "t", "read", Some("k".to_string())).unwrap();
    let twice = keys_add(&file(&once.body), "u", "admin", Some("k".to_string()));
    assert_eq!(twice.err().unwrap(), "key 已存在");
}

#[test]
fn an_empty_tenant_makes_a_file_that_is_no_table() {
    let body = add_key(&KeysFile::Missing, "", "read", "k").unwrap();
    assert_eq!(ApiKeys::parse(&body).err().unwrap(), "第 1 条记录 key / tenant 不能为空");
}

#[test]
fn a_new_key_is_made_where_none_is_given() {
    let edit = keys_add(&KeysFile::Missing, "t", "read", None).unwrap();
    assert!(edit.key.starts_with("nyl_"));
    assert_eq!(edit.key.len(), 36);
    let keys = ApiKeys::parse(&edit.body).ok().unwrap();
    assert_eq!(keys.authenticate(&edit.key).unwrap().tenant, "t");
}

#[test]
fn keys_are_listed_in_part() {
    let held = file(
        r#"[
            {"key":"nyl_0123456789abcdef","tenant":"acme","scope":"write"},
            {"key":"short","tenant":"t"},
            {"key":"exactly12byt","tenant":7,"scope":null},
            {"tenant":"t"},
            ["k","t",null],
            3
        ]"#,
    );
    let list = keys_list(&held).unwrap();
    let expected = [
        ("nyl_01234567…", "acme", "write"),
        ("short…", "t", "read"),
        ("exactly12byt…", "?", "read"),
        ("…", "t", "read"),
        ("…", "?", "read"),
        ("…", "?", "read"),
    ];
    assert_eq!(list.len(), expected.len());
    for (line, want) in list.iter().zip(expected) {
        assert_eq!((line.0.as_str(), line.1.as_str(), line.2.as_str()), want);
    }
    assert_eq!(list_entries(&read_keys_entries(&held).unwrap()), list);
}

#[test]
fn keys_are_cut_by_characters() {
    let cases = [
        ("a散散散散散", "a散散散散散…"),
        ("12345678901é", "12345678901é…"),
        ("12345678901é3", "12345678901é…"),
        ("密钥密钥密钥密钥密钥密钥", "密钥密钥密钥密钥密钥密钥…"),
        ("密钥密钥密钥密钥密钥密钥长", "密钥密钥密钥密钥密钥密钥…"),
        ("", "…"),
    ];
    for (key, shown) in cases {
        let held = file(&format!("[{{\"key\":\"{key}\",\"tenant\":\"t\"}}]"));
        let list = keys_list(&held).unwrap();
        assert_eq!(list, vec![(shown.to_string(), "t".to_string(), "read".to_string())]);
    }
}

#[test]
fn listing_fails_for_a_reason() {
    assert_eq!(
        keys_list(&file("x")).unwrap_err(),
        "不是合法 JSON: expected value at line 1 column 1"
    );
    assert!(keys_list(&KeysFile::Missing).unwrap().is_empty());
    assert_eq!(
        keys_list(&KeysFile::Unreadable("gone".to_string())).unwrap_err(),
        "读取失败: gone"
    );
}

#[test]
fn revoking_fails_for_a_reason() {
    let held = file(
        r#"[{"key":"aa1","tenant":"t"},{"key":"aa2","tenant":"t"},{"key":"b","tenant":"t"}]"#,
    );
    assert_eq!(keys_revoke(&held, "c").err().unwrap(), "没有匹配 c 的 key");
    assert_eq!(
        keys_revoke(&held, "aa").err().unwrap(),
        "前缀 aa 匹配到 2 把 key，请给出更长前缀"
    );
    assert_eq!(keys_revoke(&held, "").err().unwrap(), "前缀  匹配到 3 把 key，请给出更长前缀");
    assert_eq!(
        keys_revoke(&file(r#"[{"key":"only","tenant":"t"}]"#), "only").err().unwrap(),
        "不能吊销最后一把 key（真想开放模式请删掉 NYLON_API_KEYS_FILE 配置）"
    );
    assert_eq!(keys_revoke(&KeysFile::Missing, "k").err().unwrap(), "没有匹配 k 的 key");
    assert_eq!(
        keys_revoke(&KeysFile::Unreadable("denied".to_string()), "k").err().unwrap(),
        "读取失败: denied"
    );
    assert_eq!(
        keys_revoke(&file("7"), "k").err().unwrap(),
        "key 表必须是 JSON 数组或 {\"keys\": [...]}"
    );
}

#[test]
fn a_full_key_is_revoked_though_another_begins_with_it() {
    let held = file(r#"[{"key":"ab","tenant":"t"},{"key":"abc","tenant":"t"}]"#);
    let edit = keys_revoke(&held, "ab").unwrap();
    assert_eq!(edit.key, "ab");
    let left = read_keys_entries(&file(&edit.body)).unwrap();
    assert_eq!(left.len(), 1);
    assert_eq!(text_at(&left[0], "key"), "abc");
}

#[test]
fn every_record_of_a_revoked_key_goes() {
    let held = file(
        r#"[{"key":"k","tenant":"a"},{"key":"m","tenant":"t"},{"key":"k","tenant":"b"},{"x":1}]"#,
    );
    let edit = keys_revoke(&held, "k").unwrap();
    let left = read_keys_entries(&file(&edit.body)).unwrap();
    assert_eq!(left.len(), 2);
    assert_eq!(text_at(&left[0], "key"), "m");
    assert!(left[1].get("key").is_none());
}

#[test]
fn revoking_undoes_adding() {
    let before = r#"[{"key":"a","tenant":"t"},{"key":"nyl_","tenant":"t","scope":"write"}]"#;
    let added = keys_add(&file(before), "acme", "write", None).unwrap();
    let undone = keys_revoke(&file(&added.body), &added.key).unwrap();
    assert_eq!(
        read_keys_entries(&file(&undone.body)).unwrap(),
        read_keys_entries(&file(before)).unwrap()
    );
}

#[test]
fn revoking_leaves_the_other_keys() {
    let held = file(
        r#"[{"key":"x","tenant":"t"},{"key":"y","tenant":"u","scope":"write"},{"key":"z","tenant":"*","scope":"admin"}]"#,
    );
    let edit = keys_revoke(&held, "y").unwrap();
    let keys = ApiKeys::parse(&edit.body).ok().unwrap();
    assert_eq!(keys.len(), 2);
    assert!(keys.authenticate("y").is_none());
    assert_eq!(keys.authenticate("x").unwrap().tenant, "t");
    assert_eq!(keys.authenticate("z").unwrap().scope, Scope::Admin);
}
