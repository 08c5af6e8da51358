use qtcloud_code_cli::llm::{
    compute_confidence, count_pattern, enhancement_from_fields, enhancement_from_reply,
    json_text_of_reply, review_prompt,
};

#[test]
fn test_compute_confidence_high() {
    let t = "L3 的 price 解析和 L7 的 qty 解析用了相同模式";
    assert_eq!(compute_confidence(t), "high");
}

#[test]
fn test_compute_confidence_medium() {
    let t = "L8 的数组访问未检查长度";
    assert_eq!(compute_confidence(t), "medium");
}

#[test]
fn test_compute_confidence_low() {
    let t = "职责不够单一，建议架构分层";
    assert_eq!(compute_confidence(t), "low");
}

#[test]
fn count_pattern_is_non_overlapping() {
    assert_eq!(count_pattern("aaaa", &["aa"]), 2);
    assert_eq!(count_pattern("item items", &["item", "items"]), 3);
    assert_eq!(count_pattern("", &["x"]), 0);
}

#[test]
fn review_prompt_text() {
    let p = review_prompt("let a = 1;", "未使用");
    assert!(p.starts_with("你是一个代码审查助手。分析以下代码和问题，返回 JSON：\n\n代码：\n```\nlet a = 1;\n```\n\n问题：未使用\n\n"));
    assert!(p.ends_with("{\"priority\": \"high/medium/low\", \"explanation\": \"为什么这是问题（中文）\", \"confidence\": \"confirm/dismiss\"}\n"));
}

#[test]
fn json_text_of_reply_strips_fences() {
    assert_eq!(json_text_of_reply("```json\n{\"a\":1}\n```"), "{\"a\":1}");
    assert_eq!(json_text_of_reply("```\n{\"a\":1}\n```"), "{\"a\":1}");
    assert_eq!(json_text_of_reply("  {\"a\":1}  "), "{\"a\":1}");
    assert_eq!(json_text_of_reply("```\n{}\n``````"), "{}");
    assert_eq!(json_text_of_reply("  ```{x}```"), "{x}");
}

#[test]
fn enhancement_defaults() {
    let e = enhancement_from_fields(None, None, None);
    assert_eq!(e.priority, "medium");
    assert_eq!(e.explanation, "");
    assert_eq!(e.confidence, "confirm");
    let e = enhancement_from_fields(Some("high".into()), Some("why".into()), Some("dismiss".into()));
    assert_eq!((e.priority.as_str(), e.explanation.as_str(), e.confidence.as_str()), ("high", "why", "dismiss"));
}

#[test]
fn enhancement_from_reply_cases() {
    let empty: Vec<String> = vec![];
    assert_eq!(enhancement_from_reply(&empty).err(), Some("LLM 返回空响应".to_string()));

    let ok = vec!["```\n{\"priority\": \"low\", \"explanation\": \"x\"}\n```".to_string()];
    let e = enhancement_from_reply(&ok).unwrap();
    assert_eq!(e.priority, "low");
    assert_eq!(e.explanation, "x");
    assert_eq!(e.confidence, "confirm");

    let fenced = vec!["```json\n{\"priority\":\"high\",\"explanation\":\"e\",\"confidence\":\"dismiss\"}\n```".to_string()];
    let e = enhancement_from_reply(&fenced).unwrap();
    assert_eq!((e.priority.as_str(), e.explanation.as_str(), e.confidence.as_str()), ("high", "e", "dismiss"));

    let bad = vec!["not json".to_string()];
    let err = enhancement_from_reply(&bad).err().unwrap();
    assert!(err.starts_with("解析 LLM JSON 失败: "));
    assert!(err.ends_with(" (原始响应: not json)"));
}

#[test]
fn confidence_never_drops_when_text_is_added() {
    let a = "L3 的结果";
    let b = "price 与 qty";
    let joined = format!("{}{}", a, b);
    let rank = |c: &str| match c {
        "high" => 2,
        "medium" => 1,
        _ => 0,
    };
    assert_eq!(compute_confidence(a), "medium");
    assert_eq!(compute_confidence(b), "medium");
    assert_eq!(compute_confidence(&joined), "high");
    assert!(rank(compute_confidence(&joined)) >= rank(compute_confidence(a)));
    assert!(rank(compute_confidence(&joined)) >= rank(compute_confidence(b)));
}
