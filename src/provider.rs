//! Request shaping for the remote chat and embedding providers.
use vstd::prelude::*;

use crate::chars::{from_chars, same_chars, to_chars};
use crate::document::hex_digit;
use crate::text::{append_chars, join_with, sub_chars};
use crate::types::ChatMessage;

verus! {

/// One character inside a JSON string literal: quote and backslash escaped, backspace, form
/// feed, newline, carriage return and tab by their letters, other characters below
/// U+0020 as `\u00` and two lower-case hex digits, the rest as they are.
pub open spec fn json_escape_char(c: char) -> Seq<char> {
    let u = c as u32;
    if c == '"' {
        seq!['\\', '"']
    } else if c == '\\' {
        seq!['\\', '\\']
    } else if u == 8 {
        seq!['\\', 'b']
    } else if u == 9 {
        seq!['\\', 't']
    } else if u == 10 {
        seq!['\\', 'n']
    } else if u == 12 {
        seq!['\\', 'f']
    } else if u == 13 {
        seq!['\\', 'r']
    } else if u < 32 {
        seq!['\\', 'u', '0', '0', hex_digit((u / 16) as u8), hex_digit((u % 16) as u8)]
    } else {
        seq![c]
    }
}

/// The characters of `s`, each escaped for a JSON string literal.
pub open spec fn json_escaped(s: Seq<char>) -> Seq<char>
    decreases s.len(),
{
    if s.len() == 0 {
        Seq::empty()
    } else {
        json_escaped(s.drop_last()) + json_escape_char(s.last())
    }
}

/// A string as a JSON string literal: in quotes, its characters escaped.
pub open spec fn json_string_of(s: Seq<char>) -> Seq<char> {
    seq!['"'] + json_escaped(s) + seq!['"']
}

/// Relies on `serde_json::to_string` on a `&str`: the string in quotes, escaped by
/// serde_json's table (`ESCAPE` and `write_char_escape` in its `ser.rs`).
#[verifier::external_body]
fn json_string(s: &str) -> (r: String)
    ensures
        r@ == json_string_of(s@),
{
    match serde_json::to_string(s) {
        Ok(t) => t,
        Err(_) => String::new(),
    }
}

/// Appends the characters of `s` to `out`.
pub fn push_str(out: &mut Vec<char>, s: &str)
    ensures
        final(out)@ == old(out)@ + s@,
{
    let cs = to_chars(s);
    append_chars(out, &cs);
}

/// Appends `s` to `out` as a JSON string literal.
pub(crate) fn push_json_text(out: &mut Vec<char>, s: &str)
    ensures
        final(out)@ == old(out)@ + json_string_of(s@),
{
    let q = json_string(s);
    push_str(out, q.as_str());
}

/// How a provider authenticates.
#[derive(Debug, Clone, Copy, PartialEq, Eq, Structural)]
pub enum AuthMode {
    Bearer,
    ApiKeyHeader,
}

/// The three request dialects.
#[derive(Debug, Clone, Copy, PartialEq, Eq, Structural)]
pub enum Dialect {
    OpenAi,
    Anthropic,
    Google,
}

/// The dialect a provider speaks.
pub open spec fn dialect_of(p: Seq<char>) -> Dialect {
    if p == "anthropic"@ {
        Dialect::Anthropic
    } else if p == "google"@ {
        Dialect::Google
    } else {
        Dialect::OpenAi
    }
}

/// The dialect of a provider.
pub fn dialect(provider: &str) -> (r: Dialect)
    ensures
        r == dialect_of(provider@),
{
    if same_chars(provider, "anthropic") {
        Dialect::Anthropic
    } else if same_chars(provider, "google") {
        Dialect::Google
    } else {
        Dialect::OpenAi
    }
}

/// The registry: each known provider's default URL and authentication.
pub open spec fn registry_entry(p: Seq<char>) -> Option<(Seq<char>, AuthMode)> {
    if p == "openai"@ {
        Some(("https://api.openai.com/v1/chat/completions"@, AuthMode::Bearer))
    } else if p == "anthropic"@ {
        Some(("https://api.anthropic.com/v1/messages"@, AuthMode::ApiKeyHeader))
    } else if p == "google"@ {
        Some(("https://generativelanguage.googleapis.com/v1beta/models/"@, AuthMode::Bearer))
    } else if p == "azure"@ {
        Some((""@, AuthMode::Bearer))
    } else if p == "mistral"@ {
        Some(("https://api.mistral.ai/v1/chat/completions"@, AuthMode::Bearer))
    } else if p == "moonshot"@ {
        Some(("https://api.moonshot.cn/v1/chat/completions"@, AuthMode::Bearer))
    } else if p == "zhipu"@ {
        Some(("https://open.bigmodel.cn/api/paas/v4/chat/completions"@, AuthMode::Bearer))
    } else if p == "aliyun"@ {
        Some(
            (
                "https://dashscope.aliyuncs.com/compatible-mode/v1/chat/completions"@,
                AuthMode::Bearer,
            ),
        )
    } else if p == "baidu"@ {
        Some(("https://qianfan.baidubce.com/v2/chat/completions"@, AuthMode::Bearer))
    } else if p == "doubao"@ {
        Some(("https://ark.cn-beijing.volces.com/api/v3/chat/completions"@, AuthMode::Bearer))
    } else if p == "deepseek"@ {
        Some(("https://api.deepseek.com/v1/chat/completions"@, AuthMode::Bearer))
    } else if p == "siliconflow"@ {
        Some(("https://api.siliconflow.cn/v1/chat/completions"@, AuthMode::Bearer))
    } else if p == "minimax"@ {
        Some(("https://api.minimax.chat/v1/text/chatcompletion_v2"@, AuthMode::Bearer))
    } else if p == "yi"@ {
        Some(("https://api.lingyiwanwu.com/v1/chat/completions"@, AuthMode::Bearer))
    } else if p == "custom"@ {
        Some((""@, AuthMode::Bearer))
    } else {
        None
    }
}

/// Looks a provider up in the registry.
pub fn provider_entry(provider: &str) -> (r: Option<(&'static str, AuthMode)>)
    ensures
        r matches Some(e) ==> registry_entry(provider@) == Some((e.0@, e.1)),
        r is None ==> registry_entry(provider@) is None,
{
    if same_chars(provider, "openai") {
        Some(("https://api.openai.com/v1/chat/completions", AuthMode::Bearer))
    } else if same_chars(provider, "anthropic") {
        Some(("https://api.anthropic.com/v1/messages", AuthMode::ApiKeyHeader))
    } else if same_chars(provider, "google") {
        Some(("https://generativelanguage.googleapis.com/v1beta/models/", AuthMode::Bearer))
    } else if same_chars(provider, "azure") {
        Some(("", AuthMode::Bearer))
    } else if same_chars(provider, "mistral") {
        Some(("https://api.mistral.ai/v1/chat/completions", AuthMode::Bearer))
    } else if same_chars(provider, "moonshot") {
        Some(("https://api.moonshot.cn/v1/chat/completions", AuthMode::Bearer))
    } else if same_chars(provider, "zhipu") {
        Some(("https://open.bigmodel.cn/api/paas/v4/chat/completions", AuthMode::Bearer))
    } else if same_chars(provider, "aliyun") {
        Some(
            (
                "https://dashscope.aliyuncs.com/compatible-mode/v1/chat/completions",
                AuthMode::Bearer,
            ),
        )
    } else if same_chars(provider, "baidu") {
        Some(("https://qianfan.baidubce.com/v2/chat/completions", AuthMode::Bearer))
    } else if same_chars(provider, "doubao") {
        Some(("https://ark.cn-beijing.volces.com/api/v3/chat/completions", AuthMode::Bearer))
    } else if same_chars(provider, "deepseek") {
        Some(("https://api.deepseek.com/v1/chat/completions", AuthMode::Bearer))
    } else if same_chars(provider, "siliconflow") {
        Some(("https://api.siliconflow.cn/v1/chat/completions", AuthMode::Bearer))
    } else if same_chars(provider, "minimax") {
        Some(("https://api.minimax.chat/v1/text/chatcompletion_v2", AuthMode::Bearer))
    } else if same_chars(provider, "yi") {
        Some(("https://api.lingyiwanwu.com/v1/chat/completions", AuthMode::Bearer))
    } else if same_chars(provider, "custom") {
        Some(("", AuthMode::Bearer))
    } else {
        None
    }
}

/// `s` without its trailing slashes.
pub open spec fn trim_slashes(s: Seq<char>) -> Seq<char>
    decreases s.len(),
{
    if s.len() > 0 && s.last() == '/' {
        trim_slashes(s.drop_last())
    } else {
        s
    }
}

/// A base URL with `/chat/completions` appended.
pub open spec fn completions_url(base: Seq<char>) -> Seq<char> {
    trim_slashes(base) + "/chat/completions"@
}

/// The endpoint for a provider: Google's streaming endpoint for the model, the
/// configured URL for Azure, the configured URL plus `/chat/completions` for a custom
/// provider, else the registry's URL.
pub open spec fn url_of(provider: Seq<char>, base_url: Seq<char>, model: Seq<char>) -> Seq<char> {
    if provider == "google"@ {
        "https://generativelanguage.googleapis.com/v1beta/models/"@ + model
            + ":streamGenerateContent?alt=sse"@
    } else if provider == "azure"@ {
        base_url
    } else if provider == "custom"@ {
        completions_url(base_url)
    } else if registry_entry(provider) is Some {
        (registry_entry(provider)->0).0
    } else {
        completions_url(base_url)
    }
}

fn completions_url_exec(base: &str) -> (r: Vec<char>)
    ensures
        r@ == completions_url(base@),
{
    let cs = to_chars(base);
    let mut n: usize = cs.len();
    proof { assert(cs@.take(n as int) =~= cs@); }
    while n > 0 && cs[n - 1] == '/'
        invariant
            n <= cs.len(),
            cs@ == base@,
            trim_slashes(base@) == trim_slashes(cs@.take(n as int)),
        decreases n,
    {
        proof { assert(cs@.take(n as int).drop_last() =~= cs@.take(n - 1)); }
        n -= 1;
    }
    let mut out = sub_chars(&cs, 0, n);
    proof { assert(out@ =~= cs@.take(n as int)); }
    push_str(&mut out, "/chat/completions");
    out
}

/// The streaming endpoint of a provider for a model.
pub fn build_url(provider: &str, base_url: &str, model: &str) -> (r: String)
    ensures
        r@ == url_of(provider@, base_url@, model@),
{
    if same_chars(provider, "google") {
        let mut out: Vec<char> = Vec::new();
        push_str(&mut out, "https://generativelanguage.googleapis.com/v1beta/models/");
        push_str(&mut out, model);
        push_str(&mut out, ":streamGenerateContent?alt=sse");
        from_chars(&out)
    } else if same_chars(provider, "azure") {
        base_url.to_owned()
    } else if same_chars(provider, "custom") {
        from_chars(&completions_url_exec(base_url))
    } else {
        match provider_entry(provider) {
            Some(e) => e.0.to_owned(),
            None => from_chars(&completions_url_exec(base_url)),
        }
    }
}

/// A header as a pair of views.
pub open spec fn header_view(h: (String, String)) -> (Seq<char>, Seq<char>) {
    (h.0@, h.1@)
}

/// The headers of a streaming chat request: JSON in, an event stream out, and the
/// key as Anthropic's `x-api-key` with its version, or as a bearer token.
pub open spec fn headers_of(provider: Seq<char>, api_key: Seq<char>) -> Seq<(Seq<char>, Seq<char>)> {
    let common = seq![("content-type"@, "application/json"@), ("accept"@, "text/event-stream"@)];
    if provider == "anthropic"@ {
        common + seq![("x-api-key"@, api_key), ("anthropic-version"@, "2023-06-01"@)]
    } else {
        common + seq![("authorization"@, "Bearer "@ + api_key)]
    }
}

/// The headers of a streaming chat request, as (name, value) pairs.
pub fn build_headers(provider: &str, api_key: &str) -> (r: Vec<(String, String)>)
    ensures
        r@.map_values(|h: (String, String)| header_view(h)) == headers_of(provider@, api_key@),
{
    let mut r: Vec<(String, String)> = Vec::new();
    r.push(("content-type".to_owned(), "application/json".to_owned()));
    r.push(("accept".to_owned(), "text/event-stream".to_owned()));
    if same_chars(provider, "anthropic") {
        r.push(("x-api-key".to_owned(), api_key.to_owned()));
        r.push(("anthropic-version".to_owned(), "2023-06-01".to_owned()));
    } else {
        r.push(("authorization".to_owned(), crate::types::prefixed("Bearer ", api_key)));
    }
    proof { assert(r@.map_values(|h: (String, String)| header_view(h)) =~= headers_of(provider@, api_key@)); }
    r
}

/// One chat message as a JSON object with its content and role.
pub open spec fn chat_entry(role: Seq<char>, content: Seq<char>) -> Seq<char> {
    "{\"content\":"@ + json_string_of(content) + ",\"role\":"@ + json_string_of(role) + "}"@
}

/// One message in Google's dialect: its text as the only part, and its role.
pub open spec fn google_entry(role: Seq<char>, content: Seq<char>) -> Seq<char> {
    "{\"parts\":[{\"text\":"@ + json_string_of(content) + "}],\"role\":"@ + json_string_of(role)
        + "}"@
}

/// Anthropic knows the roles `assistant` and `user`.
pub open spec fn anthropic_role(r: Seq<char>) -> Seq<char> {
    if r == "assistant"@ {
        "assistant"@
    } else {
        "user"@
    }
}

/// Google knows the roles `model` and `user`.
pub open spec fn google_role(r: Seq<char>) -> Seq<char> {
    if r == "assistant"@ {
        "model"@
    } else {
        "user"@
    }
}

/// Whether a message is left out of a body: system messages are, but for the
/// OpenAI dialect.
pub open spec fn skipped(m: ChatMessage, d: Dialect) -> bool {
    m.role@ == "system"@ && d != Dialect::OpenAi
}

/// The JSON object of one message in a dialect.
pub open spec fn entry_of(m: ChatMessage, d: Dialect) -> Seq<char> {
    match d {
        Dialect::Anthropic => chat_entry(anthropic_role(m.role@), m.content@),
        Dialect::Google => google_entry(google_role(m.role@), m.content@),
        Dialect::OpenAi => chat_entry(m.role@, m.content@),
    }
}

/// The message objects of a request body: system messages are left out for
/// Anthropic and Google, and roles mapped to the dialect's own.
pub open spec fn entries(ms: Seq<ChatMessage>, d: Dialect) -> Seq<Seq<char>>
    decreases ms.len(),
{
    if ms.len() == 0 {
        Seq::empty()
    } else {
        let prev = entries(ms.drop_last(), d);
        let m = ms.last();
        if skipped(m, d) {
            prev
        } else {
            prev.push(entry_of(m, d))
        }
    }
}

/// A JSON array of the given values.
pub open spec fn json_array(items: Seq<Seq<char>>) -> Seq<char> {
    "["@ + join_with(items, ","@) + "]"@
}

/// The content of the first system message.
pub open spec fn first_system(ms: Seq<ChatMessage>) -> Option<Seq<char>>
    decreases ms.len(),
{
    if ms.len() == 0 {
        None
    } else {
        let p = first_system(ms.drop_last());
        if p is Some {
            p
        } else if ms.last().role@ == "system"@ {
            Some(ms.last().content@)
        } else {
            None
        }
    }
}

/// The sampling temperature written in request bodies, as JSON text.
pub open spec fn temperature_text() -> Seq<char> {
    "0"@ + "."@ + "7"@
}

/// The body of a streaming chat request, as JSON text with its keys in order.
/// Anthropic: the first system message lifted to `system`, the others as
/// `messages`, `max_tokens` 4096 and `stream`. Google: `contents` with `parts`, and a
/// `generationConfig`. Others: the messages as they are, `temperature` and `stream`.
pub open spec fn body_of(provider: Seq<char>, model: Seq<char>, ms: Seq<ChatMessage>) -> Seq<char> {
    match dialect_of(provider) {
        Dialect::Anthropic => "{\"max_tokens\":4096,\"messages\":"@ + json_array(
            entries(ms, Dialect::Anthropic),
        ) + ",\"model\":"@ + json_string_of(model) + ",\"stream\":true"@ + (if first_system(
            ms,
        ) is Some {
            ",\"system\":"@ + json_string_of(first_system(ms)->0)
        } else {
            Seq::empty()
        }) + "}"@,
        Dialect::Google => "{\"contents\":"@ + json_array(entries(ms, Dialect::Google))
            + ",\"generationConfig\":{\"maxOutputTokens\":4096,\"temperature\":"@
            + temperature_text() + "}}"@,
        Dialect::OpenAi => "{\"messages\":"@ + json_array(entries(ms, Dialect::OpenAi))
            + ",\"model\":"@ + json_string_of(model) + ",\"stream\":true,\"temperature\":"@
            + temperature_text() + "}"@,
    }
}

fn push_temperature(out: &mut Vec<char>)
    ensures
        final(out)@ == old(out)@ + temperature_text(),
{
    push_str(out, "0");
    push_str(out, ".");
    push_str(out, "7");
    proof { assert(old(out)@ + "0"@ + "."@ + "7"@ =~= old(out)@ + temperature_text()); }
}

fn push_entry(out: &mut Vec<char>, m: &ChatMessage, d: Dialect)
    ensures
        final(out)@ == old(out)@ + entry_of(*m, d),
{
    let ghost start = out@;
    match d {
        Dialect::Anthropic => {
            push_str(out, "{\"content\":");
            push_json_text(out, m.content.as_str());
            push_str(out, ",\"role\":");
            if same_chars(m.role.as_str(), "assistant") {
                push_json_text(out, "assistant");
            } else {
                push_json_text(out, "user");
            }
            push_str(out, "}");
        },
        Dialect::Google => {
            push_str(out, "{\"parts\":[{\"text\":");
            push_json_text(out, m.content.as_str());
            push_str(out, "}],\"role\":");
            if same_chars(m.role.as_str(), "assistant") {
                push_json_text(out, "model");
            } else {
                push_json_text(out, "user");
            }
            push_str(out, "}");
        },
        Dialect::OpenAi => {
            push_str(out, "{\"content\":");
            push_json_text(out, m.content.as_str());
            push_str(out, ",\"role\":");
            push_json_text(out, m.role.as_str());
            push_str(out, "}");
        },
    }
    proof { assert(out@ =~= start + entry_of(*m, d)); }
}

/// Appends the JSON array of the message objects of `ms` in dialect `d`.
fn push_entries(out: &mut Vec<char>, ms: &[ChatMessage], d: Dialect)
    ensures
        final(out)@ == old(out)@ + json_array(entries(ms@, d)),
{
    let ghost start = out@;
    push_str(out, "[");
    let mut count: usize = 0;
    let mut i: usize = 0;
    while i < ms.len()
        invariant
            i <= ms.len(),
            count == entries(ms@.take(i as int), d).len(),
            count <= i,
            out@ == start + "["@ + join_with(entries(ms@.take(i as int), d), ","@),
        decreases ms.len() - i,
    {
        proof { assert(ms@.take(i as int + 1).drop_last() =~= ms@.take(i as int)); }
        let m = &ms[i];
        let is_system = same_chars(m.role.as_str(), "system");
        let skip = is_system && (d == Dialect::Anthropic || d == Dialect::Google);
        if !skip {
            let ghost before = out@;
            let ghost items = entries(ms@.take(i as int), d);
            if count > 0 {
                push_str(out, ",");
            }
            push_entry(out, m, d);
            proof {
                let e = entries(ms@.take(i as int + 1), d).last();
                assert(entries(ms@.take(i as int + 1), d) == items.push(e));
                if count > 0 {
                    assert(out@ =~= before + ","@ + e);
                    assert(items.push(e).drop_last() =~= items);
                } else {
                    assert(out@ =~= before + e);
                    assert(items.push(e) =~= seq![e]);
                }
                assert(out@ =~= start + "["@ + join_with(entries(ms@.take(i as int + 1), d), ","@));
            }
            count = count + 1;
        }
        i += 1;
    }
    proof { assert(ms@.take(ms.len() as int) =~= ms@); }
    push_str(out, "]");
}

/// The content of the first system message of `ms`.
pub fn first_system_message(ms: &[ChatMessage]) -> (r: Option<String>)
    ensures
        r matches Some(s) ==> first_system(ms@) == Some(s@),
        r is None ==> first_system(ms@) is None,
{
    let mut i: usize = 0;
    while i < ms.len()
        invariant
            i <= ms.len(),
            first_system(ms@.take(i as int)) is None,
        decreases ms.len() - i,
    {
        proof { assert(ms@.take(i as int + 1).drop_last() =~= ms@.take(i as int)); }
        if same_chars(ms[i].role.as_str(), "system") {
            let c = ms[i].content.clone();
            proof { lemma_first_system_prefix(ms@, i as int + 1); }
            return Some(c);
        }
        i += 1;
    }
    proof { assert(ms@.take(ms.len() as int) =~= ms@); }
    None
}

/// Once a prefix has a system message, the whole sequence has the same first one.
pub proof fn lemma_first_system_prefix(ms: Seq<ChatMessage>, n: int)
    requires
        0 <= n <= ms.len(),
        first_system(ms.take(n)) is Some,
    ensures
        first_system(ms) == first_system(ms.take(n)),
    decreases ms.len() - n,
{
    if n < ms.len() {
        assert(ms.take(n + 1).drop_last() =~= ms.take(n));
        lemma_first_system_prefix(ms, n + 1);
    } else {
        assert(ms.take(n) =~= ms);
    }
}

/// The body of a streaming chat request for a provider, as JSON text.
pub fn build_stream_request_body(provider: &str, model: &str, messages: &[ChatMessage]) -> (r: String)
    ensures
        r@ == body_of(provider@, model@, messages@),
{
    let d = dialect(provider);
    let mut out: Vec<char> = Vec::new();
    match d {
        Dialect::Anthropic => {
            push_str(&mut out, "{\"max_tokens\":4096,\"messages\":");
            push_entries(&mut out, messages, d);
            push_str(&mut out, ",\"model\":");
            push_json_text(&mut out, model);
            push_str(&mut out, ",\"stream\":true");
            let ghost before = out@;
            match first_system_message(messages) {
                Some(sys) => {
                    push_str(&mut out, ",\"system\":");
                    push_json_text(&mut out, sys.as_str());
                },
                None => {
                    proof { assert(out@ =~= before + Seq::<char>::empty()); }
                },
            }
            push_str(&mut out, "}");
        },
        Dialect::Google => {
            push_str(&mut out, "{\"contents\":");
            push_entries(&mut out, messages, d);
            push_str(&mut out, ",\"generationConfig\":{\"maxOutputTokens\":4096,\"temperature\":");
            push_temperature(&mut out);
            push_str(&mut out, "}}");
        },
        Dialect::OpenAi => {
            push_str(&mut out, "{\"messages\":");
            push_entries(&mut out, messages, d);
            push_str(&mut out, ",\"model\":");
            push_json_text(&mut out, model);
            push_str(&mut out, ",\"stream\":true,\"temperature\":");
            push_temperature(&mut out);
            push_str(&mut out, "}");
        },
    }
    proof { assert(out@ =~= body_of(provider@, model@, messages@)); }
    from_chars(&out)
}

} // verus!
