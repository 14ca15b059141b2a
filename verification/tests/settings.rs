use nylon_engine::keys::ApiKeys;
use nylon_engine::settings::{llm_from_env, parse_number, KeySource, LlmVariables};

fn variables(url: Option<&str>) -> LlmVariables {
    LlmVariables {
        url: url.map(|s| s.to_string()),
        model: None,
        api_key: None,
        max_tokens: None,
        thinking_off: false,
    }
}

#[test]
fn a_file_goes_before_inline_keys() {
    let both = ApiKeys::from_env(Some("f".to_string()), Some("nonsense")).ok().unwrap();
    assert!(matches!(both, KeySource::File(path) if path == "f"));
    let inline = ApiKeys::from_env(None, Some(r#"[{"key":"k","tenant":"t"}]"#)).ok().unwrap();
    assert!(matches!(inline, KeySource::Table(table) if table.authenticate("k").is_some()));
    assert!(matches!(ApiKeys::from_env(None, None), Ok(KeySource::Open)));
    assert_eq!(
        ApiKeys::from_env(None, Some("[]")).err().unwrap(),
        "解析 NYLON_API_KEYS 失败: key 表为空（不配置鉴权请直接去掉环境变量）"
    );
}

#[test]
fn without_an_address_there_is_no_model() {
    let mut vars = variables(None);
    vars.model = Some("m".to_string());
    vars.max_tokens = Some("x".to_string());
    assert!(llm_from_env(vars).is_none());
}

#[test]
fn defaults_of_the_model() {
    let channel = llm_from_env(variables(Some("http://x/chat/completions"))).unwrap();
    let request = channel.model.chat_request("s", "u");
    assert_eq!(request.url, "http://x/chat/completions");
    assert_eq!(request.model, "deepseek-v4-flash");
    assert_eq!(request.bearer, None);
    assert_eq!(request.max_tokens, 4096);
    assert_eq!(request.temperature, Some(0));
    assert_eq!(request.thinking, None);
    assert_eq!(request.timeout_secs, 15);
    assert_eq!(channel.warning, None);
}

#[test]
fn variables_of_the_model() {
    let mut vars = variables(Some("u"));
    vars.model = Some("m".to_string());
    vars.api_key = Some("k".to_string());
    vars.max_tokens = Some("8192".to_string());
    vars.thinking_off = true;
    let channel = llm_from_env(vars).unwrap();
    let request = channel.model.chat_request("s", "u");
    assert_eq!(request.model, "m");
    assert_eq!(request.bearer.as_deref(), Some("k"));
    assert_eq!(request.max_tokens, 8192);
    assert_eq!(request.thinking.as_deref(), Some("disabled"));
    assert_eq!(channel.warning, None);
}

#[test]
fn a_budget_that_is_no_positive_number_is_ignored() {
    for bad in ["0", "", "-1", "12k", " 7", "4294967296", "+", "1.5"] {
        let mut vars = variables(Some("u"));
        vars.max_tokens = Some(bad.to_string());
        let channel = llm_from_env(vars).unwrap();
        assert_eq!(channel.model.chat_request("s", "u").max_tokens, 4096);
        assert_eq!(
            channel.warning.unwrap(),
            format!("[llm] NYLON_LLM_MAX_TOKENS={bad} 不是正整数，忽略")
        );
    }
}

#[test]
fn numbers_are_read_as_std_reads_them() {
    let texts = [
        "0", "7", "007", "+7", "++7", "-0", "", "+", "4294967295", "4294967296",
        "99999999999999999999", "00000000000000000000001", "١", "1 ", "a",
    ];
    for s in texts {
        assert_eq!(parse_number(s), s.parse::<u32>().ok(), "{s}");
    }
}
