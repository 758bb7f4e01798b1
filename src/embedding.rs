//! Embedding providers: models, dimensions, endpoints and request bodies.
use vstd::prelude::*;

use crate::chars::{from_chars, same_chars};
use crate::provider::{json_array, json_string_of, push_str};
use crate::text::join_with;

verus! {

/// A string as a JSON literal.
fn quoted(s: &str) -> (r: String)
    ensures
        r@ == json_string_of(s@),
{
    let mut out: Vec<char> = Vec::new();
    crate::provider::push_json_text(&mut out, s);
    proof { assert(out@ =~= json_string_of(s@)); }
    from_chars(&out)
}

/// The default model of a provider and its dimension.
pub open spec fn embedding_config_of(provider: Seq<char>) -> (Seq<char>, i32) {
    if provider == "zhipu"@ {
        ("embedding-2"@, 1024)
    } else if provider == "siliconflow"@ {
        ("BAAI/bge-large-zh-v1.5"@, 1024)
    } else {
        ("text-embedding-3-small"@, 1536)
    }
}

/// The default embedding model of a provider and its dimension.
pub fn get_embedding_config(provider: &str) -> (r: (&'static str, i32))
    ensures
        (r.0@, r.1) == embedding_config_of(provider@),
{
    if same_chars(provider, "zhipu") {
        ("embedding-2", 1024)
    } else if same_chars(provider, "siliconflow") {
        ("BAAI/bge-large-zh-v1.5", 1024)
    } else {
        ("text-embedding-3-small", 1536)
    }
}

/// The embedding endpoint of a provider; OpenAI's for any other.
pub open spec fn embedding_url_of(provider: Seq<char>) -> Seq<char> {
    if provider == "zhipu"@ {
        "https://open.bigmodel.cn/api/paas/v4/embeddings"@
    } else if provider == "siliconflow"@ {
        "https://api.siliconflow.cn/v1/embeddings"@
    } else {
        "https://api.openai.com/v1/embeddings"@
    }
}

/// The embedding endpoint of a provider.
pub fn get_embedding_url(provider: &str) -> (r: String)
    ensures
        r@ == embedding_url_of(provider@),
{
    if same_chars(provider, "zhipu") {
        "https://open.bigmodel.cn/api/paas/v4/embeddings".to_owned()
    } else if same_chars(provider, "siliconflow") {
        "https://api.siliconflow.cn/v1/embeddings".to_owned()
    } else {
        "https://api.openai.com/v1/embeddings".to_owned()
    }
}

/// The static dimension table, consulted when a knowledge base is created.
pub open spec fn embedding_dimension_of(provider: Seq<char>, model: Seq<char>) -> i32 {
    if provider == "openai"@ && model == "text-embedding-3-large"@ {
        3072
    } else if provider == "zhipu"@ || provider == "siliconflow"@ {
        1024
    } else {
        1536
    }
}

/// The dimension of a provider's model.
pub fn get_embedding_dimension(provider: &str, model: &str) -> (r: i32)
    ensures
        r == embedding_dimension_of(provider@, model@),
        r > 0,
{
    if same_chars(provider, "openai") && same_chars(model, "text-embedding-3-large") {
        3072
    } else if same_chars(provider, "zhipu") || same_chars(provider, "siliconflow") {
        1024
    } else {
        1536
    }
}

/// The models offered: provider, model and dimension.
pub open spec fn available_models() -> Seq<(Seq<char>, Seq<char>, i32)> {
    seq![
        ("openai"@, "text-embedding-3-small"@, 1536i32),
        ("openai"@, "text-embedding-3-large"@, 3072i32),
        ("zhipu"@, "embedding-2"@, 1024i32),
        ("siliconflow"@, "BAAI/bge-large-zh-v1.5"@, 1024i32),
    ]
}

/// The embedding models offered.
pub fn get_available_embedding_models() -> (r: Vec<(String, String, i32)>)
    ensures
        r@.map_values(|m: (String, String, i32)| (m.0@, m.1@, m.2)) == available_models(),
{
    let mut r: Vec<(String, String, i32)> = Vec::new();
    r.push(("openai".to_owned(), "text-embedding-3-small".to_owned(), 1536));
    r.push(("openai".to_owned(), "text-embedding-3-large".to_owned(), 3072));
    r.push(("zhipu".to_owned(), "embedding-2".to_owned(), 1024));
    r.push(("siliconflow".to_owned(), "BAAI/bge-large-zh-v1.5".to_owned(), 1024));
    proof {
        assert(r@.map_values(|m: (String, String, i32)| (m.0@, m.1@, m.2)) =~= available_models());
    }
    r
}

/// The JSON literals of a list of texts.
pub open spec fn quoted_all(texts: Seq<String>) -> Seq<Seq<char>> {
    texts.map_values(|t: String| json_string_of(t@))
}

/// The body of an embedding request: the model and the texts, and for all but Zhipu
/// the float encoding, with keys in order.
pub open spec fn embedding_body_of(provider: Seq<char>, model: Seq<char>, texts: Seq<String>) -> Seq<char> {
    if provider == "zhipu"@ {
        "{\"input\":"@ + json_array(quoted_all(texts)) + ",\"model\":"@ + json_string_of(model) + "}"@
    } else {
        "{\"encoding_format\":\"float\",\"input\":"@ + json_array(quoted_all(texts))
            + ",\"model\":"@ + json_string_of(model) + "}"@
    }
}

/// The body of an embedding request for `texts`, as JSON text.
pub fn build_embedding_request_body(provider: &str, model: &str, texts: &[String]) -> (r: String)
    ensures
        r@ == embedding_body_of(provider@, model@, texts@),
{
    let mut out: Vec<char> = Vec::new();
    if same_chars(provider, "zhipu") {
        push_str(&mut out, "{\"input\":");
    } else {
        push_str(&mut out, "{\"encoding_format\":\"float\",\"input\":");
    }
    let ghost start = out@;
    push_str(&mut out, "[");
    let mut i: usize = 0;
    while i < texts.len()
        invariant
            i <= texts.len(),
            out@ == start + "["@ + join_with(quoted_all(texts@.take(i as int)), ","@),
        decreases texts.len() - i,
    {
        let ghost before = out@;
        if i > 0 {
            push_str(&mut out, ",");
        }
        let q = quoted(texts[i].as_str());
        push_str(&mut out, q.as_str());
        proof {
            let items = quoted_all(texts@.take(i as int));
            assert(quoted_all(texts@.take(i as int + 1)) =~= items.push(json_string_of(texts@[i as int]@)));
            if i > 0 {
                assert(items.push(json_string_of(texts@[i as int]@)).drop_last() =~= items);
            }
        }
        i += 1;
    }
    proof { assert(texts@.take(texts.len() as int) =~= texts@); }
    push_str(&mut out, "]");
    push_str(&mut out, ",\"model\":");
    let qm = quoted(model);
    push_str(&mut out, qm.as_str());
    push_str(&mut out, "}");
    proof { assert(out@ =~= embedding_body_of(provider@, model@, texts@)); }
    from_chars(&out)
}

} // verus!
