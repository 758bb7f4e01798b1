use rag_core::embedding::{
    build_embedding_request_body, get_available_embedding_models, get_embedding_config, get_embedding_dimension,
    get_embedding_url,
};
use rag_core::fusion::merge_rankings;
use rag_core::provider::{build_headers, build_stream_request_body, build_url};
use rag_core::ranking::{score_order_key, top_by_key};
use rag_core::sse::{parse_sse_line, SseLine, StreamDecoder};
use rag_core::types::ChatMessage;

fn msg(role: &str, content: &str) -> ChatMessage {
    ChatMessage { id: String::new(), role: role.to_string(), content: content.to_string(), timestamp: 0, error: None }
}

fn pairs(h: Vec<(String, String)>) -> Vec<(String, String)> {
    h
}

#[test]
fn urls_by_provider() {
    assert_eq!(
        build_url("google", "", "gemini-pro"),
        "https://generativelanguage.googleapis.com/v1beta/models/gemini-pro:streamGenerateContent?alt=sse"
    );
    assert_eq!(build_url("azure", "https://my.azure/x", "m"), "https://my.azure/x");
    assert_eq!(build_url("custom", "https://host/v1//", "m"), "https://host/v1/chat/completions");
    assert_eq!(build_url("openai", "", "m"), "https://api.openai.com/v1/chat/completions");
    assert_eq!(build_url("anthropic", "", "m"), "https://api.anthropic.com/v1/messages");
    assert_eq!(build_url("deepseek", "", "m"), "https://api.deepseek.com/v1/chat/completions");
    assert_eq!(build_url("unknown", "https://h/", "m"), "https://h/chat/completions");
}

#[test]
fn headers_by_provider() {
    let a = pairs(build_headers("anthropic", "k1"));
    assert_eq!(
        a,
        vec![
            ("content-type".to_string(), "application/json".to_string()),
            ("accept".to_string(), "text/event-stream".to_string()),
            ("x-api-key".to_string(), "k1".to_string()),
            ("anthropic-version".to_string(), "2023-06-01".to_string()),
        ]
    );
    let o = build_headers("openai", "k2");
    assert_eq!(o[2], ("authorization".to_string(), "Bearer k2".to_string()));
    assert_eq!(o.len(), 3);
}

#[test]
fn google_body_shaping() {
    let messages = vec![msg("system", "S"), msg("user", "U"), msg("assistant", "A")];
    let body = build_stream_request_body("google", "g", &messages);
    let v: serde_json::Value = serde_json::from_str(&body).unwrap();
    let contents = v["contents"].as_array().unwrap();
    assert_eq!(contents.len(), 2);
    assert_eq!(contents[0]["role"], "user");
    assert_eq!(contents[0]["parts"][0]["text"], "U");
    assert_eq!(contents[1]["role"], "model");
    assert_eq!(v["generationConfig"]["temperature"], 0.7);
    assert_eq!(v["generationConfig"]["maxOutputTokens"], 4096);
}

#[test]
fn openai_body_keeps_messages() {
    let messages = vec![msg("system", "be \"brief\"\n"), msg("user", "U")];
    let body = build_stream_request_body("deepseek", "m1", &messages);
    let v: serde_json::Value = serde_json::from_str(&body).unwrap();
    let msgs = v["messages"].as_array().unwrap();
    assert_eq!(msgs.len(), 2);
    assert_eq!(msgs[0]["role"], "system");
    assert_eq!(msgs[0]["content"], "be \"brief\"\n");
    assert_eq!(v["model"], "m1");
    assert_eq!(v["stream"], true);
    assert_eq!(v["temperature"], 0.7);
}

#[test]
fn anthropic_body_without_system() {
    let messages = vec![msg("user", "U"), msg("tool", "T")];
    let body = build_stream_request_body("anthropic", "m", &messages);
    let v: serde_json::Value = serde_json::from_str(&body).unwrap();
    assert!(v.get("system").is_none());
    assert_eq!(v["messages"][1]["role"], "user");
    assert_eq!(v["messages"][1]["content"], "T");
}

#[test]
fn embedding_tables() {
    assert_eq!(get_embedding_dimension("openai", "text-embedding-3-large"), 3072);
    assert_eq!(get_embedding_dimension("openai", "text-embedding-3-small"), 1536);
    assert_eq!(get_embedding_dimension("zhipu", "anything"), 1024);
    assert_eq!(get_embedding_dimension("siliconflow", "x"), 1024);
    assert_eq!(get_embedding_dimension("other", "x"), 1536);
    assert_eq!(get_embedding_config("zhipu"), ("embedding-2", 1024));
    assert_eq!(get_embedding_config("nobody"), ("text-embedding-3-small", 1536));
    assert_eq!(get_embedding_url("siliconflow"), "https://api.siliconflow.cn/v1/embeddings");
    assert_eq!(get_embedding_url("x"), "https://api.openai.com/v1/embeddings");
    let models = get_available_embedding_models();
    assert_eq!(models.len(), 4);
    assert_eq!(models[1], ("openai".to_string(), "text-embedding-3-large".to_string(), 3072));
}

#[test]
fn embedding_request_bodies() {
    let texts = vec!["a\"b".to_string(), "c".to_string()];
    let body = build_embedding_request_body("openai", "text-embedding-3-small", &texts);
    let v: serde_json::Value = serde_json::from_str(&body).unwrap();
    assert_eq!(v["encoding_format"], "float");
    assert_eq!(v["input"][0], "a\"b");
    assert_eq!(v["input"][1], "c");
    assert_eq!(v["model"], "text-embedding-3-small");
    let z: serde_json::Value = serde_json::from_str(&build_embedding_request_body("zhipu", "embedding-2", &texts)).unwrap();
    assert!(z.get("encoding_format").is_none());
    let empty: serde_json::Value = serde_json::from_str(&build_embedding_request_body("openai", "m", &[])).unwrap();
    assert_eq!(empty["input"].as_array().unwrap().len(), 0);
}

#[test]
fn sse_lines() {
    assert_eq!(parse_sse_line("anthropic", "data: {\"delta\":{\"text\":\"hi\"}}"), SseLine::Content("hi".to_string()));
    assert_eq!(parse_sse_line("openai", "data: {\"delta\":{\"text\":\"hi\"}}"), SseLine::Ignored);
    assert_eq!(parse_sse_line("openai", "data: [DONE]"), SseLine::Done);
    assert_eq!(parse_sse_line("openai", "event: x"), SseLine::Ignored);
    assert_eq!(parse_sse_line("openai", "data: {not json"), SseLine::Ignored);
}

#[test]
fn sse_split_across_chunks_and_bad_json() {
    let mut d = StreamDecoder::new("anthropic", "s".to_string(), "m".to_string());
    let mut events = d.feed(b"da");
    events.extend(d.feed(b"ta: {\"delta\":{\"text\":\"A\"}}\r\ndata: {bad\n"));
    events.extend(d.feed("data: {\"delta\":{\"text\":\"é\"}}\n: comment\n\n".as_bytes()));
    events.extend(d.finish());
    let got: Vec<(String, bool)> = events.iter().map(|e| (e.content.clone(), e.done)).collect();
    assert_eq!(got, vec![("A".to_string(), false), ("é".to_string(), false), (String::new(), true)]);
    assert!(d.finish().is_none());
}

#[test]
fn sse_done_marker_ends_stream_once() {
    let mut d = StreamDecoder::new("openai", "s".to_string(), "m".to_string());
    let events = d.feed(b"data: [DONE]\ndata: {\"choices\":[{\"delta\":{\"content\":\"late\"}}]}\n");
    assert_eq!(events.len(), 1);
    assert!(events[0].done);
    assert!(d.finish().is_none());
    let mut e = StreamDecoder::new("openai", "s".to_string(), "m".to_string());
    let none = e.feed(b"data: {\"choices\":[{\"delta\":{\"content\":\"\"}}]}\n");
    assert!(none.is_empty());
    let last = e.finish().unwrap();
    assert!(last.done && last.content.is_empty());
}

#[test]
fn rrf_identical_rankings_keep_order() {
    let ids: Vec<String> = ["c", "a", "b"].iter().map(|s| s.to_string()).collect();
    let fused = merge_rankings(&ids, &ids, 10);
    let got: Vec<&str> = fused.iter().map(|f| f.chunk_id.as_str()).collect();
    assert_eq!(got, vec!["c", "a", "b"]);
    let keyword_only = merge_rankings(&Vec::new(), &ids, 10);
    assert_eq!(keyword_only[0].chunk_id, fused[0].chunk_id);
    assert_eq!(keyword_only[0].vector_rank, None);
    assert_eq!(keyword_only[0].keyword_rank, Some(0));
}

#[test]
fn rrf_scores_and_truncation() {
    let v: Vec<String> = ["x", "y", "z"].iter().map(|s| s.to_string()).collect();
    let k: Vec<String> = ["z", "w"].iter().map(|s| s.to_string()).collect();
    // z: 1/62 + 1/60 is best; x: 1/60; w: 1/61; y: 1/61 ties w, w goes first
    let fused = merge_rankings(&v, &k, 3);
    let got: Vec<&str> = fused.iter().map(|f| f.chunk_id.as_str()).collect();
    assert_eq!(got, vec!["z", "x", "w"]);
    assert!(merge_rankings(&v, &k, 0).is_empty());
}

#[test]
fn score_keys_follow_float_order() {
    let xs = [-1.0f32, -0.5, 0.0, 0.25, 1.0];
    let keys: Vec<u64> = xs.iter().map(|x| score_order_key(x.to_bits())).collect();
    assert!(keys.windows(2).all(|w| w[0] < w[1]));
    assert_eq!(top_by_key(&vec![5, 9, 9, 1], 3), vec![1, 2, 0]);
    assert_eq!(top_by_key(&vec![], 3), Vec::<usize>::new());
}

#[test]
fn json_literals_escape_controls() {
    let texts = vec!["tab\there\u{1}\\end\u{7f}".to_string()];
    let body = build_embedding_request_body("zhipu", "m", &texts);
    assert!(body.contains("tab\\there\\u0001\\\\end\u{7f}"), "{}", body);
    let v: serde_json::Value = serde_json::from_str(&body).unwrap();
    assert_eq!(v["input"][0], "tab\there\u{1}\\end\u{7f}");
}
