//! Records of the knowledge base and of chat sessions, and the library's errors.
use vstd::prelude::*;

verus! {

/// What can go wrong in the knowledge base.
#[derive(Debug, Clone, PartialEq, Eq)]
pub enum KnowledgeBaseError {
    DatabaseError(String),
    EmbeddingError(String),
    DocumentParseError(String),
    RetrievalError(String),
    NotFound(String),
    InvalidConfig(String),
}

/// `p` followed by `s`.
pub fn prefixed(p: &str, s: &str) -> (r: String)
    ensures
        r@ == p@ + s@,
{
    let mut r = p.to_owned();
    r.append(s);
    r
}

impl KnowledgeBaseError {
    /// The short text shown to a user.
    pub fn message(&self) -> (r: String)
        ensures
            r@ == self.message_spec(),
    {
        match self {
            KnowledgeBaseError::DatabaseError(s) => prefixed("Database error: ", s.as_str()),
            KnowledgeBaseError::EmbeddingError(s) => prefixed("Embedding error: ", s.as_str()),
            KnowledgeBaseError::DocumentParseError(s) => prefixed("Document parse error: ", s.as_str()),
            KnowledgeBaseError::RetrievalError(s) => prefixed("Retrieval error: ", s.as_str()),
            KnowledgeBaseError::NotFound(s) => prefixed("Knowledge base not found: ", s.as_str()),
            KnowledgeBaseError::InvalidConfig(s) => prefixed("Invalid configuration: ", s.as_str()),
        }
    }

    pub open spec fn message_spec(&self) -> Seq<char> {
        match self {
            KnowledgeBaseError::DatabaseError(s) => "Database error: "@ + s@,
            KnowledgeBaseError::EmbeddingError(s) => "Embedding error: "@ + s@,
            KnowledgeBaseError::DocumentParseError(s) => "Document parse error: "@ + s@,
            KnowledgeBaseError::RetrievalError(s) => "Retrieval error: "@ + s@,
            KnowledgeBaseError::NotFound(s) => "Knowledge base not found: "@ + s@,
            KnowledgeBaseError::InvalidConfig(s) => "Invalid configuration: "@ + s@,
        }
    }
}

/// A named collection of documents indexed under one embedding configuration.
#[derive(Debug, Clone)]
pub struct KnowledgeBase {
    pub id: String,
    pub name: String,
    pub description: String,
    pub embedding_provider: String,
    pub embedding_model: String,
    pub embedding_dim: i32,
    pub chunk_size: i32,
    pub chunk_overlap: i32,
    pub created_at: i64,
    pub updated_at: i64,
    pub document_count: i32,
}

/// Where a document is in its ingestion.
#[derive(Debug, Clone, Copy, PartialEq, Eq, Structural)]
pub enum DocumentStatus {
    Processing,
    Completed,
    Error,
}

impl DocumentStatus {
    /// The word stored for the status.
    pub fn as_str(&self) -> (r: &'static str)
        ensures
            r@ == self.name_spec(),
    {
        match self {
            DocumentStatus::Processing => "processing",
            DocumentStatus::Completed => "completed",
            DocumentStatus::Error => "error",
        }
    }

    pub open spec fn name_spec(&self) -> Seq<char> {
        match self {
            DocumentStatus::Processing => "processing"@,
            DocumentStatus::Completed => "completed"@,
            DocumentStatus::Error => "error"@,
        }
    }
}

/// Metadata of one document of a knowledge base.
#[derive(Debug, Clone)]
pub struct Document {
    pub id: String,
    pub kb_id: String,
    pub filename: String,
    pub file_type: String,
    pub file_size: i64,
    pub file_hash: String,
    pub content_preview: String,
    pub chunk_count: i32,
    pub status: DocumentStatus,
    pub error_message: Option<String>,
    pub created_at: i64,
}

/// A contiguous window of a document's text, the unit of retrieval.
#[derive(Debug, Clone)]
pub struct Chunk {
    pub id: String,
    pub document_id: String,
    pub kb_id: String,
    pub content: String,
    pub chunk_index: i32,
    pub token_count: i32,
}

/// How chunks are looked up.
#[derive(Debug, Clone, Copy, PartialEq, Eq, Structural)]
pub enum RetrievalMode {
    Vector,
    Keyword,
    Hybrid,
}

impl Default for RetrievalMode {
    fn default() -> (r: Self)
        ensures
            r == RetrievalMode::Hybrid,
    {
        RetrievalMode::Hybrid
    }
}

/// What a user gives to create a knowledge base.
#[derive(Debug, Clone)]
pub struct CreateKnowledgeBaseRequest {
    pub name: String,
    pub description: String,
    pub embedding_provider: String,
    pub embedding_model: String,
    pub chunk_size: Option<i32>,
    pub chunk_overlap: Option<i32>,
}

/// One message of a chat.
#[derive(Debug, Clone)]
pub struct ChatMessage {
    pub id: String,
    pub role: String,
    pub content: String,
    pub timestamp: i64,
    pub error: Option<String>,
}

/// A chat and its messages.
#[derive(Debug, Clone)]
pub struct ChatSession {
    pub id: String,
    pub title: String,
    pub messages: Vec<ChatMessage>,
    pub created_at: i64,
    pub updated_at: i64,
    pub provider: String,
    pub model: String,
}

/// A request to stream a reply.
#[derive(Debug, Clone)]
pub struct SendMessageRequest {
    pub session_id: String,
    pub messages: Vec<ChatMessage>,
    pub provider: String,
    pub model: String,
}

/// One event of a streamed reply.
#[derive(Debug, Clone)]
pub struct StreamChunk {
    pub session_id: String,
    pub message_id: String,
    pub content: String,
    pub done: bool,
}

} // verus!
