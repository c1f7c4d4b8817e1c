//! The model adapter layer: which language models DraftOS can talk to, how
//! they are configured, where their keys come from, and what their replies
//! mean. The network exchange itself is the application's.

use vstd::prelude::*;
use crate::chars::{self, chars_of, string_of, push_str, contains_str};
use crate::strs::{self, owned, opt_view};
use crate::model::str_eq;
use crate::num::{decimal, decimal_string};

verus! {

pub enum ModelError {
    MissingKey { adapter: String, env_var: String },
    Keychain(String),
    Api { adapter: String, status: u16, body: String },
    Network { adapter: String, message: String },
    Refused(String),
    BadResponse { adapter: String, message: String },
    UnknownAdapter(String),
}

/// What a model error says to a user.
pub open spec fn model_error_message(e: ModelError) -> Seq<char> {
    match e {
        ModelError::MissingKey { adapter, env_var } => "no API key for '"@ + adapter@ + "': set the "@ + env_var@
            + " environment variable or run `draftos model key "@ + adapter@ + "`"@,
        ModelError::Keychain(m) => "keychain error: "@ + m@,
        ModelError::Api { adapter, status, body } => "HTTP "@ + decimal(status as nat) + " from "@ + adapter@ + ": "@ + body@,
        ModelError::Network { adapter, message } => "network error talking to "@ + adapter@ + ": "@ + message@,
        ModelError::Refused(m) => "the model declined this request: "@ + m@,
        ModelError::BadResponse { adapter, message } => "unexpected response shape from "@ + adapter@ + ": "@ + message@,
        ModelError::UnknownAdapter(n) => "unknown adapter '"@ + n@
            + "' \u{2014} known: anthropic, openai, ollama, vllm, deepseek, mistral, qwen"@,
    }
}

impl ModelError {
    /// The error's message, as it is shown to a user.
    pub fn message(&self) -> (r: String)
        ensures
            r@ == model_error_message(*self),
    {
        let mut s = String::new();
        match self {
            ModelError::MissingKey { adapter, env_var } => {
                push_str(&mut s, "no API key for '");
                push_str(&mut s, adapter.as_str());
                push_str(&mut s, "': set the ");
                push_str(&mut s, env_var.as_str());
                push_str(&mut s, " environment variable or run `draftos model key ");
                push_str(&mut s, adapter.as_str());
                push_str(&mut s, "`");
            },
            ModelError::Keychain(m) => {
                push_str(&mut s, "keychain error: ");
                push_str(&mut s, m.as_str());
            },
            ModelError::Api { adapter, status, body } => {
                push_str(&mut s, "HTTP ");
                let n = decimal_string(*status as usize);
                push_str(&mut s, n.as_str());
                push_str(&mut s, " from ");
                push_str(&mut s, adapter.as_str());
                push_str(&mut s, ": ");
                push_str(&mut s, body.as_str());
            },
            ModelError::Network { adapter, message } => {
                push_str(&mut s, "network error talking to ");
                push_str(&mut s, adapter.as_str());
                push_str(&mut s, ": ");
                push_str(&mut s, message.as_str());
            },
            ModelError::Refused(m) => {
                push_str(&mut s, "the model declined this request: ");
                push_str(&mut s, m.as_str());
            },
            ModelError::BadResponse { adapter, message } => {
                push_str(&mut s, "unexpected response shape from ");
                push_str(&mut s, adapter.as_str());
                push_str(&mut s, ": ");
                push_str(&mut s, message.as_str());
            },
            ModelError::UnknownAdapter(n) => {
                push_str(&mut s, "unknown adapter '");
                push_str(&mut s, n.as_str());
                push_str(&mut s, "' \u{2014} known: anthropic, openai, ollama, vllm, deepseek, mistral, qwen");
            },
        }
        s
    }
}

/// What a mounted model can do. The prompt compiler and UI consult this.
#[derive(Debug, Clone, Copy)]
pub struct Capabilities {
    /// Provider can be asked to emit strict JSON.
    pub json_mode: bool,
    /// Streaming completions implemented in this adapter.
    pub streaming: bool,
    /// Runs on the user's machine: no data leaves it.
    pub local: bool,
    /// Rough context window in tokens, for prompt budgeting.
    pub max_context: usize,
}

#[derive(Debug, Clone, Copy, PartialEq, Eq, Structural)]
pub enum Role {
    System,
    User,
    Assistant,
}

#[derive(Debug, Clone)]
pub struct ChatMessage {
    pub role: Role,
    pub content: String,
}

impl ChatMessage {
    pub fn system(content: &str) -> (r: ChatMessage)
        ensures
            r.role == Role::System && r.content@ == content@,
    {
        ChatMessage { role: Role::System, content: owned(content) }
    }

    pub fn user(content: &str) -> (r: ChatMessage)
        ensures
            r.role == Role::User && r.content@ == content@,
    {
        ChatMessage { role: Role::User, content: owned(content) }
    }

    pub fn assistant(content: &str) -> (r: ChatMessage)
        ensures
            r.role == Role::Assistant && r.content@ == content@,
    {
        ChatMessage { role: Role::Assistant, content: owned(content) }
    }
}

/// A completion request.
#[derive(Debug, Clone)]
pub struct CompletionRequest {
    pub messages: Vec<ChatMessage>,
    pub max_tokens: u32,
    /// Ask the provider for strict JSON output where supported.
    pub json: bool,
}

#[derive(Debug, Clone)]
pub struct CompletionResponse {
    pub text: String,
    /// Model that actually served the request, as reported by the provider.
    pub model: String,
    pub input_tokens: u64,
    pub output_tokens: u64,
    pub stop_reason: Option<String>,
}

/// Persisted model selection (never the API key).
#[derive(Debug, Clone)]
pub struct ModelConfig {
    /// Adapter id: "anthropic", "openai", "ollama", "vllm", "deepseek",
    /// "mistral", "qwen".
    pub adapter: String,
    /// Provider model id; empty means the adapter's default.
    pub model: String,
    /// Endpoint override for OpenAI-compatible or self-hosted providers.
    pub base_url: Option<String>,
}

/// An adapter: a stable id and what it can do.
pub trait ModelAdapter {
    fn id(&self) -> (r: &str);
    fn capabilities(&self) -> (r: Capabilities);
}

// ---------------------------------------------------------------------------
// Keys
// ---------------------------------------------------------------------------

/// The conventional environment variable holding an adapter's key.
pub open spec fn env_var_name(adapter: Seq<char>) -> Seq<char> {
    if adapter == "anthropic"@ {
        "ANTHROPIC_API_KEY"@
    } else if adapter == "openai"@ {
        "OPENAI_API_KEY"@
    } else {
        "DRAFTOS_"@ + chars::upper(adapter) + "_API_KEY"@
    }
}

/// Conventional environment variable for an adapter's key.
pub fn env_var_for(adapter: &str) -> (r: String)
    ensures
        r@ == env_var_name(adapter@),
{
    if str_eq(adapter, "anthropic") {
        owned("ANTHROPIC_API_KEY")
    } else if str_eq(adapter, "openai") {
        owned("OPENAI_API_KEY")
    } else {
        let mut s = owned("DRAFTOS_");
        let up = chars::to_upper(chars_of(adapter).as_slice());
        chars::push_all(&mut s, up.as_slice());
        push_str(&mut s, "_API_KEY");
        s
    }
}

/// The error for an adapter that needs a key and has none, naming the
/// environment variable to set.
pub fn missing_key(adapter: &str) -> (r: ModelError)
    ensures
        r matches ModelError::MissingKey { adapter: a, env_var } && a@ == adapter@ && env_var@ == env_var_name(adapter@),
{
    ModelError::MissingKey { adapter: owned(adapter), env_var: env_var_for(adapter) }
}

// ---------------------------------------------------------------------------
// Adapters
// ---------------------------------------------------------------------------

/// (base URL, default model, local) of each OpenAI-compatible provider; an
/// unknown one is taken to be self-hosted.
pub open spec fn provider_defaults(id: Seq<char>) -> (Seq<char>, Seq<char>, bool) {
    if id == "openai"@ {
        ("https://api.openai.com/v1"@, "gpt-4o"@, false)
    } else if id == "ollama"@ {
        ("http://localhost:11434/v1"@, "llama3.1"@, true)
    } else if id == "vllm"@ {
        ("http://localhost:8000/v1"@, ""@, true)
    } else if id == "deepseek"@ {
        ("https://api.deepseek.com/v1"@, "deepseek-chat"@, false)
    } else if id == "mistral"@ {
        ("https://api.mistral.ai/v1"@, "mistral-large-latest"@, false)
    } else if id == "qwen"@ {
        ("https://dashscope.aliyuncs.com/compatible-mode/v1"@, "qwen-plus"@, false)
    } else {
        ("http://localhost:8000/v1"@, ""@, true)
    }
}

pub fn defaults_for(id: &str) -> (r: (&'static str, &'static str, bool))
    ensures
        (r.0@, r.1@, r.2) == provider_defaults(id@),
{
    if str_eq(id, "openai") {
        ("https://api.openai.com/v1", "gpt-4o", false)
    } else if str_eq(id, "ollama") {
        ("http://localhost:11434/v1", "llama3.1", true)
    } else if str_eq(id, "vllm") {
        ("http://localhost:8000/v1", "", true)
    } else if str_eq(id, "deepseek") {
        ("https://api.deepseek.com/v1", "deepseek-chat", false)
    } else if str_eq(id, "mistral") {
        ("https://api.mistral.ai/v1", "mistral-large-latest", false)
    } else if str_eq(id, "qwen") {
        ("https://dashscope.aliyuncs.com/compatible-mode/v1", "qwen-plus", false)
    } else {
        ("http://localhost:8000/v1", "", true)
    }
}

/// OpenAI-compatible chat completions: OpenAI itself and every endpoint
/// speaking the same shape (Ollama, vLLM, llama.cpp, DeepSeek, Mistral,
/// Qwen).
pub struct OpenAiCompatAdapter {
    pub id: String,
    pub model: String,
    pub base_url: String,
    pub local: bool,
}

impl OpenAiCompatAdapter {
    /// A provider's adapter, with its default model and endpoint unless
    /// given. It is local when the provider is, or when its endpoint is on
    /// this machine (a cloud provider pointed at localhost keeps data local,
    /// and vice versa).
    pub fn new(id: &str, model: Option<String>, base_url: Option<String>) -> (r: OpenAiCompatAdapter)
        ensures
            r.id@ == id@,
            r.model@ == (match model { Some(m) => m@, None => provider_defaults(id@).1 }),
            r.base_url@ == (match base_url { Some(b) => b@, None => provider_defaults(id@).0 }),
            r.local == (provider_defaults(id@).2 || chars::contains(r.base_url@, "localhost"@)
                || chars::contains(r.base_url@, "127.0.0.1"@)),
    {
        let (default_base, default_model, default_local) = defaults_for(id);
        let base_url = match base_url {
            Some(b) => b,
            None => owned(default_base),
        };
        let bv = chars_of(base_url.as_str());
        let local = default_local || contains_str(bv.as_slice(), "localhost") || contains_str(bv.as_slice(), "127.0.0.1");
        OpenAiCompatAdapter {
            id: owned(id),
            model: match model {
                Some(m) => m,
                None => owned(default_model),
            },
            base_url,
            local,
        }
    }
}

impl ModelAdapter for OpenAiCompatAdapter {
    fn id(&self) -> (r: &str)
        ensures
            r@ == self.id@,
    {
        self.id.as_str()
    }

    fn capabilities(&self) -> (r: Capabilities)
        ensures
            r.json_mode && !r.streaming && r.local == self.local && r.max_context == 128_000,
    {
        Capabilities { json_mode: true, streaming: false, local: self.local, max_context: 128_000 }
    }
}

/// Anthropic's models, over the raw Messages API. No default model id is
/// built in: without one configured the requests name an empty model.
pub struct AnthropicAdapter {
    pub model: String,
    pub base_url: String,
}

impl AnthropicAdapter {
    pub fn new(model: Option<String>, base_url: Option<String>) -> (r: AnthropicAdapter)
        ensures
            r.model@ == (match model { Some(m) => m@, None => Seq::empty() }),
            r.base_url@ == (match base_url { Some(b) => b@, None => "https://api.anthropic.com"@ }),
    {
        AnthropicAdapter {
            model: match model {
                Some(m) => m,
                None => String::new(),
            },
            base_url: match base_url {
                Some(b) => b,
                None => owned("https://api.anthropic.com"),
            },
        }
    }
}

impl ModelAdapter for AnthropicAdapter {
    fn id(&self) -> (r: &str)
        ensures
            r@ == "anthropic"@,
    {
        "anthropic"
    }

    fn capabilities(&self) -> (r: Capabilities)
        ensures
            r.json_mode && !r.streaming && !r.local && r.max_context == 1_000_000,
    {
        Capabilities { json_mode: true, streaming: false, local: false, max_context: 1_000_000 }
    }
}

/// A configured adapter of either family.
pub enum Adapter {
    Anthropic(AnthropicAdapter),
    OpenAiCompat(OpenAiCompatAdapter),
}

impl Adapter {
    pub fn id(&self) -> (r: &str)
        ensures
            r@ == (match self {
                Adapter::Anthropic(_) => "anthropic"@,
                Adapter::OpenAiCompat(a) => a.id@,
            }),
    {
        match self {
            Adapter::Anthropic(a) => a.id(),
            Adapter::OpenAiCompat(a) => a.id(),
        }
    }

    pub fn capabilities(&self) -> (r: Capabilities)
        ensures
            r.json_mode && !r.streaming,
            r.local == (match self { Adapter::Anthropic(_) => false, Adapter::OpenAiCompat(a) => a.local }),
            r.max_context == (match self { Adapter::Anthropic(_) => 1_000_000usize, Adapter::OpenAiCompat(_) => 128_000usize }),
    {
        match self {
            Adapter::Anthropic(a) => a.capabilities(),
            Adapter::OpenAiCompat(a) => a.capabilities(),
        }
    }
}

pub open spec fn is_openai_compatible(id: Seq<char>) -> bool {
    id == "openai"@ || id == "ollama"@ || id == "vllm"@ || id == "deepseek"@ || id == "mistral"@ || id == "qwen"@
}

/// Instantiate the adapter a configuration describes. An empty model means
/// the adapter's default; an adapter id outside the known ones is an error.
pub fn build_adapter(cfg: &ModelConfig) -> (r: Result<Adapter, ModelError>)
    ensures
        cfg.adapter@ == "anthropic"@ ==> (r matches Ok(Adapter::Anthropic(a))
            && a.model@ == (if cfg.model@.len() == 0 { Seq::empty() } else { cfg.model@ })
            && a.base_url@ == (match cfg.base_url { Some(b) => b@, None => "https://api.anthropic.com"@ })),
        is_openai_compatible(cfg.adapter@) ==> (r matches Ok(Adapter::OpenAiCompat(a))
            && a.id@ == cfg.adapter@
            && a.model@ == (if cfg.model@.len() == 0 { provider_defaults(cfg.adapter@).1 } else { cfg.model@ })
            && a.base_url@ == (match cfg.base_url { Some(b) => b@, None => provider_defaults(cfg.adapter@).0 })),
        cfg.adapter@ != "anthropic"@ && !is_openai_compatible(cfg.adapter@) ==> (r matches Err(ModelError::UnknownAdapter(n))
            && n@ == cfg.adapter@),
{
    proof {
        reveal_strlit("anthropic");
        reveal_strlit("openai");
        reveal_strlit("ollama");
        reveal_strlit("vllm");
        reveal_strlit("deepseek");
        reveal_strlit("mistral");
        reveal_strlit("qwen");
        assert("anthropic"@.len() == 9);
        assert("anthropic"@ != "openai"@);
        assert("anthropic"@ != "ollama"@);
        assert("anthropic"@ != "vllm"@);
        assert("anthropic"@ != "deepseek"@);
        assert("anthropic"@ != "mistral"@);
        assert("anthropic"@ != "qwen"@);
    }
    let model = if chars_of(cfg.model.as_str()).len() == 0 { None } else { Some(cfg.model.clone()) };
    let base = chars::copy_opt(&cfg.base_url);
    let a = cfg.adapter.as_str();
    if str_eq(a, "anthropic") {
        Ok(Adapter::Anthropic(AnthropicAdapter::new(model, base)))
    } else if str_eq(a, "openai") || str_eq(a, "ollama") || str_eq(a, "vllm") || str_eq(a, "deepseek")
        || str_eq(a, "mistral") || str_eq(a, "qwen") {
        Ok(Adapter::OpenAiCompat(OpenAiCompatAdapter::new(a, model, base)))
    } else {
        Err(ModelError::UnknownAdapter(cfg.adapter.clone()))
    }
}

// ---------------------------------------------------------------------------
// Requests
// ---------------------------------------------------------------------------

/// The wire name of a role.
pub open spec fn role_text(r: Role) -> Seq<char> {
    match r {
        Role::System => "system"@,
        Role::User => "user"@,
        Role::Assistant => "assistant"@,
    }
}

/// The wire name of a role.
pub fn role_name(r: Role) -> (s: &'static str)
    ensures
        s@ == role_text(r),
{
    match r {
        Role::System => "system",
        Role::User => "user",
        Role::Assistant => "assistant",
    }
}

/// What a Messages request adds to its system prompt when strict JSON is
/// asked for (the schema itself comes from the prompt).
pub open spec fn json_instruction() -> Seq<char> {
    "Respond with a single valid JSON value and nothing else \u{2014} no prose, no markdown fences."@
}

/// The contents of the system messages, in order.
pub open spec fn system_contents(msgs: Seq<ChatMessage>) -> Seq<Seq<char>>
    decreases msgs.len(),
{
    if msgs.len() == 0 {
        Seq::empty()
    } else {
        system_contents(msgs.drop_last()) + if msgs.last().role == Role::System {
            seq![msgs.last().content@]
        } else {
            Seq::empty()
        }
    }
}

/// The conversation turns of a request: its other messages, in order.
pub open spec fn turns_of(msgs: Seq<ChatMessage>) -> Seq<(Role, Seq<char>)>
    decreases msgs.len(),
{
    if msgs.len() == 0 {
        Seq::empty()
    } else {
        turns_of(msgs.drop_last()) + if msgs.last().role == Role::System {
            Seq::empty()
        } else {
            seq![(msgs.last().role, msgs.last().content@)]
        }
    }
}

/// The top-level system prompt of a Messages request: the system messages'
/// contents, and the JSON instruction when JSON is asked for, separated by
/// blank lines; none when there is nothing to say.
pub open spec fn messages_system(req: CompletionRequest) -> Option<Seq<char>> {
    let parts = system_contents(req.messages@) + if req.json { seq![json_instruction()] } else { Seq::empty() };
    if parts.len() == 0 {
        None
    } else {
        Some(strs::join(parts, "\n\n"@))
    }
}

/// A Messages request's system prompt and conversation turns: system
/// messages go to the top-level system prompt, the others stay turns.
pub fn messages_parts(req: &CompletionRequest) -> (r: (Option<String>, Vec<(Role, String)>))
    ensures
        opt_view(r.0) == messages_system(*req),
        r.1@.map_values(|t: (Role, String)| (t.0, t.1@)) == turns_of(req.messages@),
{
    let mut parts: Vec<String> = Vec::new();
    let mut turns: Vec<(Role, String)> = Vec::new();
    let mut i: usize = 0;
    while i < req.messages.len()
        invariant
            i <= req.messages.len(),
            strs::views(parts@) == system_contents(req.messages@.take(i as int)),
            turns@.map_values(|t: (Role, String)| (t.0, t.1@)) == turns_of(req.messages@.take(i as int)),
        decreases req.messages.len() - i,
    {
        assert(req.messages@.take(i + 1).drop_last() == req.messages@.take(i as int));
        let m = &req.messages[i];
        let ghost p0 = strs::views(parts@);
        let ghost t0 = turns@.map_values(|t: (Role, String)| (t.0, t.1@));
        if m.role == Role::System {
            parts.push(chars::copy_string(&m.content));
            assert(strs::views(parts@) =~= p0.push(m.content@));
            assert(t0 + Seq::<(Role, Seq<char>)>::empty() =~= t0);
        } else {
            turns.push((m.role, chars::copy_string(&m.content)));
            assert(turns@.map_values(|t: (Role, String)| (t.0, t.1@)) =~= t0.push((m.role, m.content@)));
            assert(p0 + Seq::<Seq<char>>::empty() =~= p0);
        }
        i += 1;
    }
    assert(req.messages@.take(req.messages.len() as int) == req.messages@);
    let ghost sc = strs::views(parts@);
    if req.json {
        parts.push(owned("Respond with a single valid JSON value and nothing else \u{2014} no prose, no markdown fences."));
        assert(strs::views(parts@) =~= sc.push(json_instruction()));
    } else {
        assert(sc + Seq::<Seq<char>>::empty() =~= sc);
    }
    assert(strs::views(parts@) == system_contents(req.messages@)
        + if req.json { seq![json_instruction()] } else { Seq::<Seq<char>>::empty() });
    let system = if parts.len() == 0 { None } else { Some(strs::join_strings(&parts, "\n\n")) };
    (system, turns)
}

// ---------------------------------------------------------------------------
// Replies
// ---------------------------------------------------------------------------

/// One block of a Messages reply's content: whether its type is "text", and
/// its text field if it has a string one.
pub struct ContentBlock {
    pub is_text: bool,
    pub text: Option<String>,
}

/// What an Anthropic Messages reply says, read out of its JSON: absent or
/// non-string fields are `None`, as is a content field that is not an array.
pub struct AnthropicReply {
    pub model: Option<String>,
    pub stop_reason: Option<String>,
    /// `stop_details.explanation`.
    pub refusal_explanation: Option<String>,
    pub content: Option<Vec<ContentBlock>>,
    pub input_tokens: Option<u64>,
    pub output_tokens: Option<u64>,
}

/// The concatenated text of the text blocks.
pub open spec fn text_of_blocks(bs: Seq<ContentBlock>) -> Seq<char>
    decreases bs.len(),
{
    if bs.len() == 0 {
        Seq::empty()
    } else {
        text_of_blocks(bs.drop_last()) + (if bs.last().is_text && bs.last().text is Some {
            bs.last().text->0@
        } else {
            Seq::empty()
        })
    }
}

pub open spec fn bad_response(e: ModelError, adapter: Seq<char>, message: Seq<char>) -> bool {
    e matches ModelError::BadResponse { adapter: a, message: m } && a@ == adapter && m@ == message
}

/// How a Messages reply is answered: a refusal is an error carrying the
/// model's explanation ("safety refusal" when it gives none); a reply without
/// a content array, or without text, is a bad response; otherwise the text of
/// its text blocks, with the model (empty if unnamed), token counts (0 if
/// absent) and stop reason.
pub fn anthropic_response(v: &AnthropicReply) -> (r: Result<CompletionResponse, ModelError>)
    ensures
        strs::opt_view(v.stop_reason) == Some("refusal"@) ==> (r matches Err(ModelError::Refused(why))
            && why@ == (match v.refusal_explanation { Some(x) => x@, None => "safety refusal"@ })),
        strs::opt_view(v.stop_reason) != Some("refusal"@) ==> match v.content {
            None => r matches Err(e) && bad_response(e, "anthropic"@, "missing content array"@),
            Some(bs) => if text_of_blocks(bs@).len() == 0 {
                r matches Err(e) && bad_response(e, "anthropic"@, "no text blocks in response"@)
            } else {
                r matches Ok(resp) && resp.text@ == text_of_blocks(bs@)
                    && resp.model@ == (match v.model { Some(m) => m@, None => Seq::empty() })
                    && resp.input_tokens == (match v.input_tokens { Some(n) => n, None => 0 })
                    && resp.output_tokens == (match v.output_tokens { Some(n) => n, None => 0 })
                    && strs::opt_view(resp.stop_reason) == strs::opt_view(v.stop_reason)
            },
        },
{
    let refused = match &v.stop_reason {
        Some(s) => str_eq(s.as_str(), "refusal"),
        None => false,
    };
    if refused {
        let why = match &v.refusal_explanation {
            Some(x) => x.clone(),
            None => owned("safety refusal"),
        };
        return Err(ModelError::Refused(why));
    }
    let blocks = match &v.content {
        Some(bs) => bs,
        None => return Err(ModelError::BadResponse { adapter: owned("anthropic"), message: owned("missing content array") }),
    };
    let mut text = String::new();
    let mut i: usize = 0;
    while i < blocks.len()
        invariant
            i <= blocks.len(),
            text@ == text_of_blocks(blocks@.take(i as int)),
        decreases blocks.len() - i,
    {
        assert(blocks@.take(i + 1).drop_last() == blocks@.take(i as int));
        let ghost t0 = text@;
        if blocks[i].is_text {
            match &blocks[i].text {
                Some(t) => push_str(&mut text, t.as_str()),
                None => {},
            }
        }
        assert(text@ =~= t0 + (if blocks@[i as int].is_text && blocks@[i as int].text is Some {
            blocks@[i as int].text->0@
        } else {
            Seq::<char>::empty()
        }));
        i += 1;
    }
    assert(blocks@.take(blocks.len() as int) == blocks@);
    if chars_of(text.as_str()).len() == 0 {
        return Err(ModelError::BadResponse { adapter: owned("anthropic"), message: owned("no text blocks in response") });
    }
    Ok(CompletionResponse {
        text,
        model: match &v.model {
            Some(m) => m.clone(),
            None => String::new(),
        },
        input_tokens: match v.input_tokens {
            Some(n) => n,
            None => 0,
        },
        output_tokens: match v.output_tokens {
            Some(n) => n,
            None => 0,
        },
        stop_reason: chars::copy_opt(&v.stop_reason),
    })
}

/// The first choice of a chat-completions reply.
pub struct ChoiceReply {
    /// `message.content`, when a string.
    pub content: Option<String>,
    pub finish_reason: Option<String>,
}

/// What a chat-completions reply says, read out of its JSON: absent or
/// non-string fields are `None`; `first_choice` is `None` when `choices` is
/// missing, not an array, or empty.
pub struct OpenAiReply {
    pub model: Option<String>,
    pub first_choice: Option<ChoiceReply>,
    pub prompt_tokens: Option<u64>,
    pub completion_tokens: Option<u64>,
}

/// How a chat-completions reply is answered: without a first choice, or
/// without its message content, it is a bad response; otherwise its content,
/// model (empty if unnamed), token counts (0 if absent) and finish reason.
pub fn openai_response(adapter: &str, v: &OpenAiReply) -> (r: Result<CompletionResponse, ModelError>)
    ensures
        match v.first_choice {
            None => r matches Err(e) && bad_response(e, adapter@, "missing choices"@),
            Some(c) => match c.content {
                None => r matches Err(e) && bad_response(e, adapter@, "missing message content"@),
                Some(t) => r matches Ok(resp) && resp.text@ == t@
                    && resp.model@ == (match v.model { Some(m) => m@, None => Seq::empty() })
                    && resp.input_tokens == (match v.prompt_tokens { Some(n) => n, None => 0 })
                    && resp.output_tokens == (match v.completion_tokens { Some(n) => n, None => 0 })
                    && strs::opt_view(resp.stop_reason) == strs::opt_view(c.finish_reason),
            },
        },
{
    let choice = match &v.first_choice {
        Some(c) => c,
        None => return Err(ModelError::BadResponse { adapter: owned(adapter), message: owned("missing choices") }),
    };
    let text = match &choice.content {
        Some(t) => t.clone(),
        None => return Err(ModelError::BadResponse { adapter: owned(adapter), message: owned("missing message content") }),
    };
    Ok(CompletionResponse {
        text,
        model: match &v.model {
            Some(m) => m.clone(),
            None => String::new(),
        },
        input_tokens: match v.prompt_tokens {
            Some(n) => n,
            None => 0,
        },
        output_tokens: match v.completion_tokens {
            Some(n) => n,
            None => 0,
        },
        stop_reason: chars::copy_opt(&choice.finish_reason),
    })
}

} // verus!
