use nylon_engine::chat::{finish_chat, succeeded, ChatModel, ChatReply, HttpChatModel, StubChatModel};
use nylon_engine::error::LlmError;
use nylon_engine::json::{json_of_value, parse_json, pretty_json, value_of_json, Json};
use nylon_engine::loose::{
    parse_json_loose, parse_json_loose_checked, recover_json, salvage_truncated_array,
};
use nylon_engine::scan::{scan_json_object, scan_json_string};
use nylon_engine::text::{
    can_take_head, can_take_tail, decimal_string, find_char, head, rfind_char, same_text,
    starts_with, string_of, tail, trim,
};

fn number(n: i64) -> Json {
    Json::Number(serde_json::Number::from(n))
}

fn text(s: &str) -> Json {
    Json::Text(s.to_string())
}

fn chars(s: &str) -> Vec<char> {
    s.chars().collect()
}

#[test]
fn stub_returns_canned() {
    let m = StubChatModel::new(Json::Object(vec![(
        "conflicts".to_string(),
        Json::Array(vec![number(0)]),
    )]));
    let v = m.chat_json("s", "u").unwrap();
    assert_eq!(v.get("conflicts").unwrap().as_array().unwrap()[0], number(0));
}

#[test]
fn parse_json_loose_handles_markdown() {
    let v = parse_json_loose(
        r#"```json
{"a": 1}
```"#,
    )
    .unwrap();
    assert_eq!(v.get("a"), Some(&number(1)));
    let v = parse_json_loose(r#"{"b": 2}"#).unwrap();
    assert_eq!(v.get("b"), Some(&number(2)));
    assert!(parse_json_loose("b9;䷧ JSON").is_err());
}

#[test]
fn parse_json_loose_salvages_truncated_object_array() {
    let truncated = r#"{"facts": [{"fact": "a", "source": ["t:1"]}, {"fact": "b", "source": ["t:2"]}, {"fact": "c", "sou"#;
    let v = parse_json_loose(truncated).unwrap();
    let facts = v.get("facts").unwrap().as_array().unwrap();
    assert_eq!(facts.len(), 2);
    assert_eq!(facts[0].get("fact"), Some(&text("a")));
    assert_eq!(facts[1].get("source").unwrap().as_array().unwrap()[0], text("t:2"));
}

#[test]
fn parse_json_loose_salvages_truncated_string_array() {
    let truncated = r#"{"inferences": ["甲对咖啡因敏感", "乙上周搬去了杭州", "丙"#;
    let v = parse_json_loose(truncated).unwrap();
    let arr = v.get("inferences").unwrap().as_array().unwrap();
    assert_eq!(arr.len(), 2);
    assert_eq!(arr[1], text("乙上周搬去了杭州"));
}

#[test]
fn parse_json_loose_salvage_handles_braces_inside_strings() {
    let truncated = r#"{"facts": [{"fact": "配置格式是 {json}", "source": []}, {"fact": "x"#;
    let v = parse_json_loose(truncated).unwrap();
    let facts = v.get("facts").unwrap().as_array().unwrap();
    assert_eq!(facts.len(), 1);
    assert_eq!(facts[0].get("fact"), Some(&text("配置格式是 {json}")));
}

#[test]
fn parse_json_loose_error_reports_head_and_tail() {
    let long_garbage = "散".repeat(1000);
    let err = parse_json_loose(&long_garbage).unwrap_err().to_string();
    assert!(err.contains("头["), "错误应含头部摘要: {err}");
    assert!(err.contains("尾["), "错误应含尾部摘要: {err}");
}

#[test]
fn parse_json_loose_salvage_ignores_pure_prose() {
    assert!(parse_json_loose("我认为这些对话没有值得记住的事实。").is_err());
}

#[test]
fn the_report_quotes_both_ends() {
    let garbage = "散".repeat(1000);
    let quoted = "散".repeat(100);
    let err = parse_json_loose(&garbage).unwrap_err();
    assert_eq!(err.0, format!("响应不是 JSON: 头[{quoted}] 尾[{quoted}]"));
    assert_eq!(err.to_string(), format!("llm: 响应不是 JSON: 头[{quoted}] 尾[{quoted}]"));
    let short = parse_json_loose("  no\n").unwrap_err();
    assert_eq!(short.0, "响应不是 JSON: 头[no] 尾[no]");
    assert_eq!(parse_json_loose("").unwrap_err().0, "响应不是 JSON: 头[] 尾[]");
}

#[test]
fn a_report_that_would_break_a_character_is_not_made() {
    let uneven = format!("x{}", "散".repeat(200));
    assert!(parse_json_loose_checked(&uneven).is_none());
    let uneven = format!("{}x", "散".repeat(200));
    assert!(parse_json_loose_checked(&uneven).is_none());
    let even = "散".repeat(200);
    assert!(parse_json_loose_checked(&even).unwrap().is_err());
    let long = format!("\"x{}\"", "散".repeat(200));
    assert!(parse_json_loose_checked(&long).unwrap().is_ok());
    let long = format!("x散{}", "{\"a\": [\"k\", \"");
    assert!(parse_json_loose_checked(&long).unwrap().is_ok());
}

#[test]
fn json_is_taken_as_it_is() {
    assert_eq!(recover_json(" \u{3000}42\n"), Some(number(42)));
    assert_eq!(recover_json("null"), Some(Json::Null));
    assert_eq!(recover_json("[true, false]"), Some(Json::Array(vec![Json::Bool(true), Json::Bool(false)])));
    assert_eq!(recover_json("\"{}\""), Some(text("{}")));
}

#[test]
fn an_object_is_found_within_other_text() {
    let v = recover_json("Sure! Here it is: {\"a\": {\"b\": 1}} Hope it helps.").unwrap();
    assert_eq!(v.get("a").unwrap().get("b"), Some(&number(1)));
    let v = recover_json("} {\"a\": 1}").unwrap();
    assert_eq!(v.get("a"), Some(&number(1)));
    assert_eq!(recover_json("} {"), None);
    assert_eq!(recover_json("{"), None);
}

#[test]
fn salvaging_only_leaves_out_the_end() {
    let whole = r#"{"facts": ["a\"]{", {"b": "}"}, "c"]} and more"#;
    let all = chars(whole);
    let full = salvage_truncated_array(whole).unwrap();
    let full = full.get("facts").unwrap().as_array().unwrap();
    assert_eq!(full.len(), 3);
    for cut in 0..all.len() {
        let part = string_of(&all, 0, cut);
        if let Some(v) = salvage_truncated_array(&part) {
            let kept = v.get("facts").unwrap().as_array().unwrap();
            assert!(!kept.is_empty());
            assert_eq!(kept.as_slice(), &full[..kept.len()]);
        }
    }
}

#[test]
fn nothing_is_salvaged_without_a_named_array() {
    assert_eq!(salvage_truncated_array("no braces"), None);
    assert_eq!(salvage_truncated_array("{\"a\": 1"), None);
    assert_eq!(salvage_truncated_array("{[\"x\","), None);
    assert_eq!(salvage_truncated_array("{\"a: [\"x\","), None);
    assert_eq!(salvage_truncated_array("{\"\": [\"x\","), None);
    assert_eq!(salvage_truncated_array("{\"a\": ["), None);
    assert_eq!(salvage_truncated_array("{\"a\": [1, 2, 3"), None);
    assert_eq!(salvage_truncated_array("{\"a\": [\"x"), None);
}

#[test]
fn salvaging_stops_at_the_first_faulty_element() {
    let v = salvage_truncated_array(r#"{"a": ["x", {"b" 1}, "y", "#).unwrap();
    assert_eq!(v.get("a").unwrap().as_array().unwrap(), &vec![text("x")]);
    let v = salvage_truncated_array(r#"{"a": ["x", "\q", "y", "#).unwrap();
    assert_eq!(v.get("a").unwrap().as_array().unwrap(), &vec![text("x")]);
}

#[test]
fn the_name_is_the_first_quoted_text() {
    let v = salvage_truncated_array(r#"{"n": 1, "a": ["x", "#).unwrap();
    assert_eq!(v.get("n").unwrap().as_array().unwrap(), &vec![text("x")]);
}

#[test]
fn what_stands_between_elements_is_passed_over() {
    let v = salvage_truncated_array(r#"{"a": [1, null, "x", [2, "y", [{"w": "]"}]], {"z": 3}] ,"#)
        .unwrap();
    let kept = v.get("a").unwrap().as_array().unwrap();
    assert_eq!(kept.len(), 2);
    assert_eq!(kept[0], text("x"));
    assert_eq!(kept[1].get("z"), Some(&number(3)));
}

#[test]
fn salvaging_ends_with_the_array() {
    let v = salvage_truncated_array(r#"{"facts": ["a"], "other": ["b", "c"#).unwrap();
    assert_eq!(v, Json::Object(vec![("facts".to_string(), Json::Array(vec![text("a")]))]));
    let same = salvage_truncated_array(r#"{"facts": ["a"]"#).unwrap();
    assert_eq!(v, same);
    assert_eq!(parse_json_loose(r#"{"facts": ["a"], "other": ["b", "c"#).unwrap(), v);
    assert_eq!(salvage_truncated_array(r#"{"facts": [], "other": ["b", "c"#), None);
    let v = salvage_truncated_array(r#"{"a": ["x]", {"y": "]"}], "z": "w"#).unwrap();
    assert_eq!(v.get("a").unwrap().as_array().unwrap().len(), 2);
}

#[test]
fn an_inner_array_that_breaks_off_is_left_out() {
    let v = salvage_truncated_array(r#"{"a": ["x", ["y", "z"#).unwrap();
    assert_eq!(v.get("a").unwrap().as_array().unwrap(), &vec![text("x")]);
    let v = salvage_truncated_array(r#"{"a": ["x", ["y", "z"]"#).unwrap();
    assert_eq!(v.get("a").unwrap().as_array().unwrap(), &vec![text("x")]);
}

#[test]
fn strings_are_scanned_to_their_end() {
    let t = chars("a\"b\\\"c\\u0041\\\\\"d");
    let (end, s) = scan_json_string(&t, 1).unwrap();
    assert_eq!((end, s.as_str()), (t.len() - 1, "b\"cA\\"));
    assert!(scan_json_string(&chars("\"open"), 0).is_none());
    assert!(scan_json_string(&chars("\"open\\"), 0).is_none());
    assert!(scan_json_string(&chars("\"open\\\""), 0).is_none());
    assert!(scan_json_string(&chars("\"\\q\""), 0).is_none());
    assert_eq!(scan_json_string(&chars("\"\""), 0), Some((2, String::new())));
}

#[test]
fn objects_are_scanned_to_their_end() {
    let t = chars("x{\"a\": {\"}\": \"{\"}}y");
    let (end, v) = scan_json_object(&t, 1).unwrap();
    assert_eq!(end, t.len() - 1);
    assert_eq!(v.get("a").unwrap().get("}"), Some(&text("{")));
    assert!(scan_json_object(&chars("{\"a\": {}"), 0).is_none());
    assert!(scan_json_object(&chars("{\"a}"), 0).is_none());
    assert!(scan_json_object(&chars("{a}"), 0).is_none());
    assert_eq!(scan_json_object(&chars("{}"), 0), Some((2, Json::Object(Vec::new()))));
}

#[test]
fn a_scanned_object_is_the_shortest() {
    let whole = r#"{"a": "}\"}", "b": {"c": [1]}} tail }"#;
    let t = chars(whole);
    let (end, v) = scan_json_object(&t, 0).unwrap();
    assert_eq!(t[end - 1], '}');
    assert!(matches!(v, Json::Object(_)));
    assert_eq!(parse_json(&string_of(&t, 0, end)), Ok(v));
    for j in 1..end {
        assert!(scan_json_object(&t[..j].to_vec(), 0).is_none());
    }
    for j in end..=t.len() {
        assert_eq!(scan_json_object(&t[..j].to_vec(), 0).unwrap().0, end);
    }
}

#[test]
fn what_a_reply_comes_to() {
    let failed = finish_chat(&ChatReply::SendFailed("timed out".to_string())).unwrap();
    assert_eq!(failed.unwrap_err().0, "timed out");
    let odd = finish_chat(&ChatReply::Unreadable("no body".to_string())).unwrap();
    assert_eq!(odd.unwrap_err().0, "no body");
    let empty = finish_chat(&ChatReply::Choices(Vec::new())).unwrap();
    assert_eq!(empty.unwrap_err().to_string(), "llm: 空 choices");
    let body = "e".repeat(500);
    let refused =
        finish_chat(&ChatReply::Refused("503 Service Unavailable".to_string(), body)).unwrap();
    assert_eq!(
        refused.unwrap_err().0,
        format!("HTTP 503 Service Unavailable: {}", "e".repeat(200))
    );
    let refused = finish_chat(&ChatReply::Refused("404 Not Found".to_string(), String::new()));
    assert_eq!(refused.unwrap().unwrap_err().0, "HTTP 404 Not Found: ");
    let broken = ChatReply::Refused("500".to_string(), format!("{}", "散".repeat(100)));
    assert!(finish_chat(&broken).is_none());
    let several = ChatReply::Choices(vec!["{\"a\": 1}".to_string(), "{\"a\": 2}".to_string()]);
    assert_eq!(finish_chat(&several).unwrap().unwrap().get("a"), Some(&number(1)));
    let prose = ChatReply::Choices(vec!["no".to_string()]);
    assert_eq!(finish_chat(&prose).unwrap().unwrap_err().0, "响应不是 JSON: 头[no] 尾[no]");
    let uneven = ChatReply::Choices(vec![format!("x{}", "散".repeat(200))]);
    assert!(finish_chat(&uneven).is_none());
}

#[test]
fn success_codes() {
    for status in 100u16..600 {
        assert_eq!(succeeded(status), status / 100 == 2);
    }
}

#[test]
fn what_is_sent_to_a_model() {
    let model = HttpChatModel::new("u".to_string(), "m".to_string(), Some("k".to_string()), false);
    let request = model.chat_request("sys", "ask");
    assert_eq!(request.url, "u");
    assert_eq!(request.model, "m");
    assert_eq!(request.bearer.as_deref(), Some("k"));
    assert_eq!((request.system.role.as_str(), request.system.content.as_str()), ("system", "sys"));
    assert_eq!((request.user.role.as_str(), request.user.content.as_str()), ("user", "ask"));
    assert_eq!(request.response_format, "json_object");
    assert_eq!(request.temperature, Some(0.0f32.to_bits()));
    assert_eq!(request.max_tokens, 4096);
    assert_eq!(request.thinking, None);
    assert_eq!(request.timeout_secs, 15);
}

#[test]
fn settings_of_a_model() {
    let model = HttpChatModel::new("u".to_string(), "m".to_string(), None, true)
        .with_temperature(Some(0.7f32.to_bits()))
        .with_max_tokens(9)
        .with_timeout(60);
    let request = model.chat_request("s", "q");
    assert_eq!(request.bearer, None);
    assert_eq!(request.thinking.as_deref(), Some("disabled"));
    assert_eq!(request.temperature.map(f32::from_bits), Some(0.7f32));
    assert_eq!(request.max_tokens, 9);
    assert_eq!(request.timeout_secs, 60);
    let model = model.with_temperature(None).with_thinking_off(false);
    let request = model.chat_request("s", "q");
    assert_eq!(request.temperature, None);
    assert_eq!(request.thinking, None);
}

#[test]
fn a_budget_changes_only_itself() {
    let model = HttpChatModel::new("u".to_string(), "m".to_string(), None, true);
    let plain = model.chat_request("s", "q");
    let budget = model.chat_request_budget("s", "q", 16000);
    let set = HttpChatModel::new("u".to_string(), "m".to_string(), None, true)
        .with_max_tokens(16000)
        .chat_request("s", "q");
    assert_eq!(format!("{budget:?}"), format!("{set:?}"));
    assert_eq!(budget.max_tokens, 16000);
    assert_eq!(plain.max_tokens, 4096);
    assert_eq!(budget.url, plain.url);
    assert_eq!(budget.thinking, plain.thinking);
    assert_eq!(budget.temperature, plain.temperature);
    assert_eq!(budget.timeout_secs, plain.timeout_secs);
    assert_eq!(model.chat_request("s", "q").max_tokens, 4096);
}

#[test]
fn a_stub_ignores_what_is_asked() {
    let m = StubChatModel::new(text("same"));
    assert_eq!(m.chat_json("a", "b").unwrap(), text("same"));
    assert_eq!(m.chat_json_budget("", "", 1).unwrap(), text("same"));
}

struct Echo;

impl ChatModel for Echo {
    fn chat_json(&self, system: &str, user: &str) -> Result<Json, LlmError> {
        if user.is_empty() {
            return Err(LlmError(system.to_string()));
        }
        Ok(Json::Array(vec![text(system), text(user)]))
    }
}

#[test]
fn a_model_without_budgets_is_asked_as_it_is() {
    for budget in [0, 1, 4096] {
        assert_eq!(
            Echo.chat_json_budget("s", "u", budget).unwrap(),
            Json::Array(vec![text("s"), text("u")])
        );
        assert_eq!(Echo.chat_json_budget("s", "", budget).unwrap_err().0, "s");
    }
}

#[test]
fn errors_say_where_they_come_from() {
    assert_eq!(LlmError("x".to_string()).to_string(), "llm: x");
}

#[test]
fn what_is_written_can_be_read() {
    let v = Json::Object(vec![
        ("z".to_string(), Json::Array(vec![Json::Null, Json::Bool(false), number(-7)])),
        ("a".to_string(), Json::Object(Vec::new())),
        ("n".to_string(), Json::Number(serde_json::Number::from_f64(0.1).unwrap())),
        ("s".to_string(), text("\"\\\n\u{1F9F5}")),
    ]);
    let written = pretty_json(&v).unwrap();
    let read = parse_json(&written).unwrap();
    for name in ["z", "a", "n", "s"] {
        assert_eq!(read.get(name), v.get(name));
    }
    assert_eq!(read.clone(), read);
    assert_eq!(pretty_json(&read).unwrap(), written);
}

#[test]
fn values_keep_their_kind_and_content() {
    let source = r#"{"a":[null,true,-1,2.5,"x",{}],"b":{"c":[]}}"#;
    let value: serde_json::Value = serde_json::from_str(source).unwrap();
    let json = json_of_value(value.clone());
    assert_eq!(json, parse_json(source).unwrap());
    let items = json.get("a").unwrap().as_array().unwrap();
    assert_eq!(items[0], Json::Null);
    assert_eq!(items[2], number(-1));
    assert_eq!(items[4].as_str(), Some("x"));
    assert_eq!(value_of_json(&json), value);
}

#[test]
fn the_last_of_equal_names_is_written() {
    let v = Json::Object(vec![("a".to_string(), number(1)), ("a".to_string(), number(2))]);
    assert_eq!(v.get("a"), Some(&number(2)));
    assert_eq!(pretty_json(&v).unwrap(), "{\n  \"a\": 2\n}");
}

#[test]
fn reading_is_limited_in_depth() {
    let deep = |n: usize| format!("{}{}", "[".repeat(n), "]".repeat(n));
    assert!(parse_json(&deep(127)).is_ok());
    assert_eq!(
        parse_json(&deep(128)).unwrap_err(),
        "recursion limit exceeded at line 1 column 128"
    );
    let v = parse_json(&deep(127)).unwrap();
    let more = Json::Array(vec![v.clone()]);
    assert_eq!(parse_json(&pretty_json(&v).unwrap()), Ok(v));
    assert!(parse_json(&pretty_json(&more).unwrap()).is_err());
}

#[test]
fn values_of_another_kind_have_no_parts() {
    assert_eq!(number(1).get("a"), None);
    assert_eq!(number(1).as_str(), None);
    assert_eq!(text("x").as_str(), Some("x"));
    assert_eq!(text("x").as_array(), None);
    assert_eq!(Json::Array(vec![Json::Null]).as_array().unwrap().len(), 1);
}

#[test]
fn white_space_is_trimmed() {
    for c in '\u{0}'..='\u{3100}' {
        let padded = format!("{c}x{c}");
        assert_eq!(trim(&padded), padded.trim());
    }
    assert_eq!(trim(" \u{2003}\t "), "");
    assert_eq!(trim("a b"), "a b");
    assert_eq!(trim(""), "");
}

#[test]
fn texts_are_cut_by_bytes() {
    assert_eq!(head("abcdef", 3), "abc");
    assert_eq!(head("ab", 3), "ab");
    assert_eq!(tail("abcdef", 2), "ef");
    assert_eq!(tail("ab", 3), "ab");
    assert_eq!(head("散x", 3), "散");
    assert!(!can_take_head("散x", 2));
    assert!(can_take_head("散x", 9));
    assert!(!can_take_tail("x散", 1));
    assert!(can_take_tail("x散", 3));
    assert_eq!(tail("x散", 3), "散");
}

#[test]
fn characters_are_found() {
    let t = chars("abcabc");
    assert_eq!(find_char(&t, 0, 6, 'b'), Some(1));
    assert_eq!(find_char(&t, 2, 6, 'b'), Some(4));
    assert_eq!(find_char(&t, 2, 4, 'b'), None);
    assert_eq!(rfind_char(&t, 'a'), Some(3));
    assert_eq!(rfind_char(&t, 'x'), None);
    assert_eq!(string_of(&t, 1, 4), "bca");
}

#[test]
fn texts_are_compared() {
    assert!(same_text("散", "散"));
    assert!(!same_text("ab", "abc"));
    assert!(!same_text("ab", "ac"));
    assert!(starts_with("abc", ""));
    assert!(starts_with("abc", "ab"));
    assert!(!starts_with("abc", "b"));
    assert!(!starts_with("a", "ab"));
}

#[test]
fn numbers_in_decimal() {
    assert_eq!(decimal_string(0), "0");
    assert_eq!(decimal_string(9), "9");
    assert_eq!(decimal_string(10), "10");
    assert_eq!(decimal_string(1024), "1024");
    assert_eq!(decimal_string(usize::MAX), format!("{}", usize::MAX));
}
