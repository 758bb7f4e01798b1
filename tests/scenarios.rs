use rag_core::fusion::merge_rankings;
use rag_core::provider::build_stream_request_body;
use rag_core::sse::StreamDecoder;
use rag_core::splitter::split_text;
use rag_core::store::KnowledgeStore;
use rag_core::text::clean_text;
use rag_core::types::{ChatMessage, CreateKnowledgeBaseRequest, DocumentStatus, KnowledgeBaseError};

fn msg(role: &str, content: &str) -> ChatMessage {
    ChatMessage { id: String::new(), role: role.to_string(), content: content.to_string(), timestamp: 0, error: None }
}

fn pack(v: &[f32]) -> Vec<u8> {
    v.iter().flat_map(|x| x.to_le_bytes()).collect()
}

fn request(provider: &str, model: &str, size: i32, overlap: i32) -> CreateKnowledgeBaseRequest {
    CreateKnowledgeBaseRequest {
        name: "kb".to_string(),
        description: String::new(),
        embedding_provider: provider.to_string(),
        embedding_model: model.to_string(),
        chunk_size: Some(size),
        chunk_overlap: Some(overlap),
    }
}

fn cosine(a: &[f32], b: &[f32]) -> f32 {
    if a.len() != b.len() {
        return 0.0;
    }
    let dot: f32 = a.iter().zip(b).map(|(x, y)| x * y).sum();
    let na: f32 = a.iter().map(|x| x * x).sum::<f32>().sqrt();
    let nb: f32 = b.iter().map(|x| x * x).sum::<f32>().sqrt();
    if na == 0.0 || nb == 0.0 {
        return 0.0;
    }
    dot / (na * nb)
}

fn unpack(b: &[u8]) -> Vec<f32> {
    b.chunks_exact(4).map(|c| f32::from_le_bytes([c[0], c[1], c[2], c[3]])).collect()
}

#[test]
fn ingest_then_retrieve_chunks_text() {
    // 26 characters with chunk_size 20: only chunks over 40 characters are re-split,
    // so the text stays one chunk.
    let text = clean_text("alpha. beta. gamma. delta.");
    let chunks = split_text(&text, 20, 5);
    assert_eq!(chunks, vec!["alpha. beta. gamma. delta.".to_string()]);
}

#[test]
fn ingest_then_retrieve_vector_ranking() {
    let mut store = rag_core::vector_store::VectorStore::new();
    let rows = vec![
        ("c0".to_string(), "d".to_string(), pack(&[1.0, 0.0, 0.0, 0.0])),
        ("c1".to_string(), "d".to_string(), pack(&[0.0, 1.0, 0.0, 0.0])),
    ];
    store.insert_vectors("kb", 4, rows).unwrap();
    let query = [1.0f32, 0.0, 0.0, 0.0];
    let scanned = store.scan("kb");
    let scores: Vec<f32> = scanned.iter().map(|(_, _, b)| cosine(&query, &unpack(b))).collect();
    let keys: Vec<u64> = scores.iter().map(|s| rag_core::ranking::score_order_key((s + 0.0).to_bits())).collect();
    let order = rag_core::ranking::top_by_key(&keys, 2);
    assert_eq!(order, vec![0, 1]);
    assert_eq!(scanned[order[0]].0, "c0");
    assert_eq!(scores[order[0]], 1.0);
}

#[test]
fn hybrid_rrf_tie_breaks_on_chunk_id() {
    let vector = vec!["A".to_string(), "B".to_string()];
    let keyword = vec!["B".to_string(), "A".to_string()];
    let fused = merge_rankings(&vector, &keyword, 10);
    assert_eq!(fused.len(), 2);
    assert_eq!(fused[0].chunk_id, "A");
    assert_eq!(fused[0].vector_rank, Some(0));
    assert_eq!(fused[0].keyword_rank, Some(1));
    assert_eq!(fused[1].chunk_id, "B");
    assert_eq!(fused[1].vector_rank, Some(1));
    assert_eq!(fused[1].keyword_rank, Some(0));
}

#[test]
fn streaming_sse_two_fragments_then_done() {
    let mut d = StreamDecoder::new("openai", "s".to_string(), "m".to_string());
    let input = "data: {\"choices\":[{\"delta\":{\"content\":\"he\"}}]}\n\ndata: {\"choices\":[{\"delta\":{\"content\":\"llo\"}}]}\n\ndata: [DONE]\n\n";
    let mut events = d.feed(input.as_bytes());
    if let Some(e) = d.finish() {
        events.push(e);
    }
    let got: Vec<(String, bool)> = events.iter().map(|e| (e.content.clone(), e.done)).collect();
    assert_eq!(got, vec![("he".to_string(), false), ("llo".to_string(), false), (String::new(), true)]);
    assert!(events.iter().all(|e| e.session_id == "s" && e.message_id == "m"));
}

#[test]
fn anthropic_body_shaping() {
    let messages = vec![msg("system", "S"), msg("user", "U"), msg("assistant", "A")];
    let body = build_stream_request_body("anthropic", "model-x", &messages);
    let v: serde_json::Value = serde_json::from_str(&body).unwrap();
    assert_eq!(v["system"], "S");
    assert_eq!(v["model"], "model-x");
    assert_eq!(v["max_tokens"], 4096);
    assert_eq!(v["stream"], true);
    let msgs = v["messages"].as_array().unwrap();
    assert_eq!(msgs.len(), 2);
    assert_eq!(msgs[0]["role"], "user");
    assert_eq!(msgs[0]["content"], "U");
    assert_eq!(msgs[1]["role"], "assistant");
    assert_eq!(msgs[1]["content"], "A");
}

#[test]
fn dimension_mismatch_rejected() {
    let mut store = rag_core::vector_store::VectorStore::new();
    let bad = vec![("c1".to_string(), "d1".to_string(), pack(&[1.0, 0.0, 0.0, 0.0, 0.0]))];
    let r = store.insert_vectors("kb", 4, bad);
    assert!(matches!(r, Err(KnowledgeBaseError::DatabaseError(_))));
    assert_eq!(store.len(), 0);
    let good = vec![("c1".to_string(), "d1".to_string(), pack(&[1.0, 0.0, 0.0, 0.0]))];
    assert!(store.insert_vectors("kb", 4, good).is_ok());
    assert_eq!(store.len(), 1);
}

#[test]
fn document_delete_cascade() {
    let mut store = KnowledgeStore::new();
    let kb = store.create_knowledge_base(request("zhipu", "embedding-2", 20, 5), "kb1".to_string(), 1).unwrap();
    assert_eq!(kb.embedding_dim, 1024);
    store
        .begin_document("kb1", "doc1".to_string(), "a.txt".to_string(), "txt".to_string(), 3, "h".to_string(), 2)
        .unwrap();
    let texts = vec!["one".to_string(), "two".to_string(), "three".to_string()];
    let ids = vec!["c1".to_string(), "c2".to_string(), "c3".to_string()];
    let blobs = vec![vec![0u8; 4096], vec![0u8; 4096], vec![0u8; 4096]];
    let doc = store.complete_document("doc1", "one".to_string(), texts, ids, blobs).unwrap();
    assert_eq!(doc.status, DocumentStatus::Completed);
    assert_eq!(doc.chunk_count, 3);
    assert_eq!(store.knowledge_base("kb1").unwrap().document_count, 1);
    assert!(store.delete_document("doc1", "kb1").is_ok());
    assert_eq!(store.knowledge_base("kb1").unwrap().document_count, 0);
}
