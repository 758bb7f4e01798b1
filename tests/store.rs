use rag_core::state::{validate_mcp_server, MCPServer, MCPServerType, Retriever, HTTP_NEEDS_URL, STDIO_NEEDS_COMMAND};
use rag_core::store::{KnowledgeStore, DUPLICATE_BASE, EMBEDDING_COUNT_MISMATCH, EMBEDDING_DIM_MISMATCH, OVERLAP_TOO_LARGE};
use rag_core::types::{CreateKnowledgeBaseRequest, DocumentStatus, KnowledgeBaseError, RetrievalMode};
use rag_core::vector_store::VectorStore;
use std::collections::HashMap;
use std::sync::Arc;

fn request(size: Option<i32>, overlap: Option<i32>) -> CreateKnowledgeBaseRequest {
    CreateKnowledgeBaseRequest {
        name: "kb".to_string(),
        description: "d".to_string(),
        embedding_provider: "zhipu".to_string(),
        embedding_model: "embedding-2".to_string(),
        chunk_size: size,
        chunk_overlap: overlap,
    }
}

fn begin(store: &mut KnowledgeStore, kb: &str, doc: &str, at: i64) {
    store
        .begin_document(kb, doc.to_string(), format!("{}.txt", doc), "txt".to_string(), 1, "h".to_string(), at)
        .unwrap();
}

fn complete(store: &mut KnowledgeStore, doc: &str, n: usize) {
    let texts: Vec<String> = (0..n).map(|i| format!("text {}", i)).collect();
    let ids: Vec<String> = (0..n).map(|i| format!("{}-c{}", doc, i)).collect();
    let blobs = vec![vec![0u8; 4096]; n];
    store.complete_document(doc, "p".to_string(), texts, ids, blobs).unwrap();
}

#[test]
fn create_base_defaults_and_errors() {
    let mut store = KnowledgeStore::new();
    let kb = store.create_knowledge_base(request(None, None), "k".to_string(), 5).unwrap();
    assert_eq!((kb.chunk_size, kb.chunk_overlap, kb.embedding_dim), (1000, 200, 1024));
    assert_eq!((kb.created_at, kb.updated_at, kb.document_count), (5, 5, 0));
    match store.create_knowledge_base(request(None, None), "k".to_string(), 6) {
        Err(KnowledgeBaseError::DatabaseError(m)) => assert_eq!(m, DUPLICATE_BASE),
        other => panic!("{:?}", other),
    }
    match store.create_knowledge_base(request(Some(100), Some(100)), "k2".to_string(), 6) {
        Err(KnowledgeBaseError::InvalidConfig(m)) => assert_eq!(m, OVERLAP_TOO_LARGE),
        other => panic!("{:?}", other),
    }
    assert!(store.create_knowledge_base(request(Some(100), Some(-1)), "k3".to_string(), 6).is_err());
}

#[test]
fn document_lifecycle_errors() {
    let mut store = KnowledgeStore::new();
    let r = store.begin_document("none", "d".to_string(), "f".to_string(), "txt".to_string(), 1, "h".to_string(), 1);
    assert!(matches!(r, Err(KnowledgeBaseError::NotFound(ref m)) if m == "none"));
    store.create_knowledge_base(request(Some(20), Some(5)), "k".to_string(), 1).unwrap();
    begin(&mut store, "k", "d1", 2);
    let dup = store.begin_document("k", "d1".to_string(), "f".to_string(), "txt".to_string(), 1, "h".to_string(), 3);
    assert!(matches!(dup, Err(KnowledgeBaseError::DatabaseError(_))));
    let wrong_count = store.complete_document("d1", "p".to_string(), vec!["a".to_string()], vec![], vec![]);
    assert!(matches!(wrong_count, Err(KnowledgeBaseError::EmbeddingError(ref m)) if m == EMBEDDING_COUNT_MISMATCH));
    let docs = store.list_documents("k");
    assert_eq!(docs[0].status, DocumentStatus::Error);
    assert_eq!(docs[0].error_message.as_deref(), Some(EMBEDDING_COUNT_MISMATCH));
    assert!(matches!(store.complete_document("d1", "p".to_string(), vec![], vec![], vec![]), Err(KnowledgeBaseError::InvalidConfig(_))));
    begin(&mut store, "k", "d2", 3);
    let wrong_dim = store.complete_document("d2", "p".to_string(), vec!["a".to_string()], vec!["c".to_string()], vec![vec![0u8; 20]]);
    assert!(matches!(wrong_dim, Err(KnowledgeBaseError::EmbeddingError(ref m)) if m == EMBEDDING_DIM_MISMATCH));
    assert!(store.chunk_for_result("c").is_none());
    assert!(store.fail_document("d2", "x".to_string()).is_err());
    begin(&mut store, "k", "d3", 4);
    assert!(store.fail_document("d3", "parse failed".to_string()).is_ok());
    assert!(matches!(store.complete_document("missing", "p".to_string(), vec![], vec![], vec![]), Err(KnowledgeBaseError::NotFound(_))));
    assert_eq!(store.knowledge_base("k").unwrap().document_count, 3);
}

#[test]
fn completed_document_has_dense_chunks() {
    let mut store = KnowledgeStore::new();
    store.create_knowledge_base(request(Some(20), Some(5)), "k".to_string(), 1).unwrap();
    begin(&mut store, "k", "d", 2);
    complete(&mut store, "d", 3);
    for i in 0..3 {
        let (chunk, file) = store.chunk_for_result(&format!("d-c{}", i)).unwrap();
        assert_eq!(chunk.chunk_index, i as i32);
        assert_eq!(chunk.document_id, "d");
        assert_eq!(chunk.token_count, 2);
        assert_eq!(file, "d.txt");
    }
    let doc = &store.list_documents("k")[0];
    assert_eq!((doc.chunk_count, doc.status), (3, DocumentStatus::Completed));
    assert_eq!(doc.content_preview, "p");
}

#[test]
fn delete_document_cascades() {
    let mut store = KnowledgeStore::new();
    store.create_knowledge_base(request(Some(20), Some(5)), "k".to_string(), 1).unwrap();
    begin(&mut store, "k", "a", 2);
    complete(&mut store, "a", 3);
    begin(&mut store, "k", "b", 3);
    complete(&mut store, "b", 2);
    assert!(matches!(store.delete_document("a", "other"), Err(KnowledgeBaseError::NotFound(_))));
    store.delete_document("a", "k").unwrap();
    assert!(store.chunk_for_result("a-c0").is_none());
    assert!(store.chunk_for_result("b-c1").is_some());
    assert_eq!(store.knowledge_base("k").unwrap().document_count, 1);
    assert!(matches!(store.delete_document("a", "k"), Err(KnowledgeBaseError::NotFound(_))));
}

#[test]
fn delete_base_cascades() {
    let mut store = KnowledgeStore::new();
    store.create_knowledge_base(request(Some(20), Some(5)), "k1".to_string(), 1).unwrap();
    store.create_knowledge_base(request(Some(20), Some(5)), "k2".to_string(), 2).unwrap();
    begin(&mut store, "k1", "a", 3);
    complete(&mut store, "a", 2);
    begin(&mut store, "k2", "b", 4);
    complete(&mut store, "b", 1);
    store.delete_knowledge_base("k1").unwrap();
    assert!(store.knowledge_base("k1").is_none());
    assert!(store.chunk_for_result("a-c0").is_none());
    assert!(store.chunk_for_result("b-c0").is_some());
    assert!(store.list_documents("k1").is_empty());
    assert!(matches!(store.delete_knowledge_base("k1"), Err(KnowledgeBaseError::NotFound(_))));
}

#[test]
fn listings_are_latest_first() {
    let mut store = KnowledgeStore::new();
    store.create_knowledge_base(request(Some(20), Some(5)), "old".to_string(), 1).unwrap();
    store.create_knowledge_base(request(Some(20), Some(5)), "new".to_string(), 9).unwrap();
    begin(&mut store, "old", "d1", 10);
    begin(&mut store, "old", "d2", 30);
    begin(&mut store, "old", "d3", 20);
    let names: Vec<String> = store.list_documents("old").iter().map(|d| d.id.clone()).collect();
    assert_eq!(names, vec!["d2", "d3", "d1"]);
    let bases = store.list_knowledge_bases();
    let ids: Vec<(String, i32)> = bases.iter().map(|b| (b.id.clone(), b.document_count)).collect();
    assert_eq!(ids, vec![("new".to_string(), 0), ("old".to_string(), 3)]);
}

#[test]
fn vector_store_deletions() {
    let mut vs = VectorStore::new();
    let row = |c: &str, d: &str| (c.to_string(), d.to_string(), vec![0u8; 8]);
    vs.insert_vectors("k1", 2, vec![row("c1", "d1"), row("c2", "d2")]).unwrap();
    vs.insert_vectors("k2", 2, vec![row("c3", "d1")]).unwrap();
    vs.delete_document_vectors("k1", "d1");
    assert_eq!(vs.len(), 2);
    vs.drop_kb_table("k1");
    assert_eq!(vs.len(), 1);
    assert_eq!(vs.scan("k2")[0].0, "c3");
    assert!(vs.scan("k1").is_empty());
}

#[test]
fn small_types() {
    assert_eq!(RetrievalMode::default(), RetrievalMode::Hybrid);
    assert_eq!(DocumentStatus::Completed.as_str(), "completed");
    assert_eq!(MCPServerType::SSE.as_str(), "sse");
    let r = Retriever::new(Arc::new(VectorStore::new()), "db".to_string());
    assert_eq!(r.db_path, "db");
    let mut server = MCPServer {
        id: String::new(),
        name: "n".to_string(),
        description: String::new(),
        server_type: MCPServerType::Stdio,
        command: String::new(),
        args: vec![],
        env: HashMap::new(),
        port: None,
        url: None,
        api_key: None,
        enabled: true,
        created_at: 0,
        updated_at: 0,
    };
    assert_eq!(validate_mcp_server(&server).as_deref(), Some(STDIO_NEEDS_COMMAND));
    server.command = "run".to_string();
    assert_eq!(validate_mcp_server(&server), None);
    server.server_type = MCPServerType::HTTP;
    assert_eq!(validate_mcp_server(&server).as_deref(), Some(HTTP_NEEDS_URL));
    server.url = Some(String::new());
    assert_eq!(validate_mcp_server(&server).as_deref(), Some(HTTP_NEEDS_URL));
    server.url = Some("http://x".to_string());
    assert_eq!(validate_mcp_server(&server), None);
}

#[test]
fn ingestion_steps() {
    let mut store = KnowledgeStore::new();
    store.create_knowledge_base(request(Some(20), Some(5)), "k".to_string(), 1).unwrap();
    begin(&mut store, "k", "bad", 2);
    let failed = store.plan_chunks("bad", 20, 5, Err(KnowledgeBaseError::DocumentParseError("boom".to_string())));
    assert!(matches!(failed, Err(KnowledgeBaseError::DocumentParseError(ref m)) if m == "boom"));
    let doc = &store.list_documents("k")[0];
    assert_eq!(doc.status, DocumentStatus::Error);
    assert_eq!(doc.error_message.as_deref(), Some("Document parse error: boom"));

    begin(&mut store, "k", "good", 3);
    let text = "a".repeat(600);
    let plan = store.plan_chunks("good", 20, 5, Ok(text)).unwrap();
    assert_eq!(plan.preview.chars().count(), 500);
    let n = plan.chunks.len();
    assert!(n > 1);
    let ids: Vec<String> = (0..n).map(|i| format!("g{}", i)).collect();
    let doc = store.finish_ingest("good", plan, ids, Ok(vec![vec![0u8; 4096]; n]), 77).unwrap();
    assert_eq!(doc.chunk_count as usize, n);
    assert_eq!(doc.status, DocumentStatus::Completed);
    assert_eq!(store.list_knowledge_bases()[0].updated_at, 77);

    begin(&mut store, "k", "shortvec", 5);
    let plan = store.plan_chunks("shortvec", 20, 5, Ok("short".to_string())).unwrap();
    let r = store.finish_ingest("shortvec", plan, vec!["s0".to_string()], Ok(vec![vec![0u8; 20]]), 78);
    assert!(matches!(r, Err(KnowledgeBaseError::EmbeddingError(_))));
    assert!(store.chunk_for_result("s0").is_none());
    let failed = store.list_documents("k").into_iter().find(|d| d.id == "shortvec").unwrap();
    assert_eq!(failed.status, DocumentStatus::Error);
    assert_eq!(store.list_knowledge_bases()[0].updated_at, 77);

    begin(&mut store, "k", "noembed", 4);
    let plan = store.plan_chunks("noembed", 20, 5, Ok("short".to_string())).unwrap();
    let r = store.finish_ingest("noembed", plan, vec!["x".to_string()], Err(KnowledgeBaseError::EmbeddingError("down".to_string())), 79);
    assert!(matches!(r, Err(KnowledgeBaseError::EmbeddingError(_))));
    let failed = store.list_documents("k").into_iter().find(|d| d.id == "noembed").unwrap();
    assert_eq!(failed.status, DocumentStatus::Error);
    assert_eq!(failed.error_message.as_deref(), Some("Embedding error: down"));
    assert!(store.chunk_for_result("x").is_none());
    assert!(matches!(store.plan_chunks("good", 5, 5, Ok("t".to_string())), Err(KnowledgeBaseError::InvalidConfig(_))));
}
