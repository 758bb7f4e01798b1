//! Handles shared by the retrieval and ingestion paths, and tool-server settings.
use vstd::prelude::*;
use vstd::string::StrSliceExecFns;

use std::collections::HashMap;
use std::sync::Arc;

use crate::vector_store::VectorStore;

verus! {

/// Where the relational store lives.
pub struct Database {
    pub path: String,
}

/// The shared vector store and the database path.
pub struct KbState {
    pub vector_store: Arc<VectorStore>,
    pub db_path: String,
}

/// Runs queries against one knowledge base.
pub struct Retriever {
    pub vector_store: Arc<VectorStore>,
    pub db_path: String,
}

impl Retriever {
    /// A retriever over a shared vector store.
    pub fn new(vector_store: Arc<VectorStore>, db_path: String) -> (r: Retriever)
        ensures
            r.vector_store == vector_store,
            r.db_path == db_path,
    {
        Retriever { vector_store, db_path }
    }
}

/// How a tool server is reached.
#[derive(Debug, Clone, Copy, PartialEq, Eq, Structural)]
pub enum MCPServerType {
    Stdio,
    SSE,
    HTTP,
}

impl MCPServerType {
    /// The name of the transport.
    pub fn as_str(&self) -> (r: &'static str)
        ensures
            r@ == match self {
                MCPServerType::Stdio => "stdio"@,
                MCPServerType::SSE => "sse"@,
                MCPServerType::HTTP => "http"@,
            },
    {
        match self {
            MCPServerType::Stdio => "stdio",
            MCPServerType::SSE => "sse",
            MCPServerType::HTTP => "http",
        }
    }
}

/// The settings of one tool server.
#[derive(Debug, Clone)]
pub struct MCPServer {
    pub id: String,
    pub name: String,
    pub description: String,
    pub server_type: MCPServerType,
    pub command: String,
    pub args: Vec<String>,
    pub env: HashMap<String, String>,
    pub port: Option<u16>,
    pub url: Option<String>,
    pub api_key: Option<String>,
    pub enabled: bool,
    pub created_at: i64,
    pub updated_at: i64,
}

pub const STDIO_NEEDS_COMMAND: &'static str = "stdio server requires command";
pub const HTTP_NEEDS_URL: &'static str = "HTTP/SSE server requires URL";

/// What is wrong with a server's settings: a stdio server needs a command, an
/// HTTP or SSE server a non-empty URL.
pub open spec fn server_problem(s: MCPServer) -> Option<Seq<char>> {
    match s.server_type {
        MCPServerType::Stdio => if s.command@.len() == 0 {
            Some(STDIO_NEEDS_COMMAND@)
        } else {
            None
        },
        _ => match s.url {
            Some(u) => if u@.len() == 0 {
                Some(HTTP_NEEDS_URL@)
            } else {
                None
            },
            None => Some(HTTP_NEEDS_URL@),
        },
    }
}

/// Checks a server's settings before they are kept.
pub fn validate_mcp_server(server: &MCPServer) -> (r: Option<String>)
    ensures
        r matches Some(m) ==> server_problem(*server) == Some(m@),
        r is None ==> server_problem(*server) is None,
{
    match server.server_type {
        MCPServerType::Stdio => {
            if server.command.as_str().unicode_len() == 0 {
                Some(STDIO_NEEDS_COMMAND.to_owned())
            } else {
                None
            }
        },
        _ => match &server.url {
            Some(u) => {
                if u.as_str().unicode_len() == 0 {
                    Some(HTTP_NEEDS_URL.to_owned())
                } else {
                    None
                }
            },
            None => Some(HTTP_NEEDS_URL.to_owned()),
        },
    }
}

} // verus!
