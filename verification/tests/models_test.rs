use draftos::models::{
    anthropic_response, build_adapter, env_var_for, missing_key, openai_response, AnthropicAdapter, AnthropicReply,
    ChoiceReply, ContentBlock, ModelAdapter, ModelConfig, ModelError, OpenAiCompatAdapter, OpenAiReply,
};

#[test]
fn env_var_names() {
    assert_eq!(env_var_for("anthropic"), "ANTHROPIC_API_KEY");
    assert_eq!(env_var_for("openai"), "OPENAI_API_KEY");
    assert_eq!(env_var_for("ollama"), "DRAFTOS_OLLAMA_API_KEY");
}

#[test]
fn ollama_defaults_are_local() {
    let a = OpenAiCompatAdapter::new("ollama", None, None);
    assert!(a.capabilities().local);
    let b = OpenAiCompatAdapter::new("openai", None, None);
    assert!(!b.capabilities().local);
}

#[test]
fn a_cloud_provider_pointed_at_localhost_is_local() {
    let a = OpenAiCompatAdapter::new("openai", Some("m".into()), Some("http://127.0.0.1:9000/v1".into()));
    assert!(a.capabilities().local);
    assert_eq!(a.model, "m");
    assert_eq!(OpenAiCompatAdapter::new("qwen", None, None).model, "qwen-plus");
}

#[test]
fn adapters_are_built_from_config() {
    let cfg = ModelConfig { adapter: "anthropic".into(), model: String::new(), base_url: None };
    let a = build_adapter(&cfg).ok().unwrap();
    assert_eq!(a.id(), "anthropic");
    assert!(!a.capabilities().local);
    let cfg = ModelConfig { adapter: "vllm".into(), model: "x".into(), base_url: None };
    let b = build_adapter(&cfg).ok().unwrap();
    assert_eq!(b.id(), "vllm");
    assert!(b.capabilities().local);
    let cfg = ModelConfig { adapter: "gemini".into(), model: String::new(), base_url: None };
    assert!(matches!(build_adapter(&cfg), Err(ModelError::UnknownAdapter(n)) if n == "gemini"));
    let c = AnthropicAdapter::new(None, None);
    assert_eq!(c.model, "");
    assert_eq!(c.id(), "anthropic");
}

#[test]
fn missing_key_names_the_variable() {
    match missing_key("mistral") {
        ModelError::MissingKey { adapter, env_var } => {
            assert_eq!(adapter, "mistral");
            assert_eq!(env_var, "DRAFTOS_MISTRAL_API_KEY");
        }
        _ => panic!("wrong error"),
    }
}

#[test]
fn parses_text_and_usage() {
    let v = AnthropicReply {
        model: Some("opus".into()),
        stop_reason: Some("end_turn".into()),
        refusal_explanation: None,
        content: Some(vec![ContentBlock { is_text: true, text: Some("hello".into()) }]),
        input_tokens: Some(10),
        output_tokens: Some(2),
    };
    let r = anthropic_response(&v).ok().unwrap();
    assert_eq!(r.text, "hello");
    assert_eq!(r.input_tokens, 10);
    assert_eq!(r.stop_reason.as_deref(), Some("end_turn"));
}

#[test]
fn refusal_is_an_error() {
    let v = AnthropicReply {
        model: Some("opus".into()),
        stop_reason: Some("refusal".into()),
        refusal_explanation: Some("declined".into()),
        content: Some(Vec::new()),
        input_tokens: Some(1),
        output_tokens: Some(0),
    };
    assert!(matches!(anthropic_response(&v), Err(ModelError::Refused(w)) if w == "declined"));
}

#[test]
fn replies_without_text_are_bad() {
    let v = AnthropicReply {
        model: None,
        stop_reason: None,
        refusal_explanation: None,
        content: Some(vec![ContentBlock { is_text: false, text: Some("x".into()) }]),
        input_tokens: None,
        output_tokens: None,
    };
    assert!(matches!(anthropic_response(&v), Err(ModelError::BadResponse { message, .. }) if message == "no text blocks in response"));
}

#[test]
fn parses_choice_and_usage() {
    let v = OpenAiReply {
        model: Some("llama3.1".into()),
        first_choice: Some(ChoiceReply { content: Some("hey".into()), finish_reason: Some("stop".into()) }),
        prompt_tokens: Some(3),
        completion_tokens: Some(1),
    };
    let r = openai_response("ollama", &v).ok().unwrap();
    assert_eq!(r.text, "hey");
    assert_eq!(r.output_tokens, 1);
    assert_eq!(r.model, "llama3.1");
    let none = OpenAiReply { model: None, first_choice: None, prompt_tokens: None, completion_tokens: None };
    assert!(matches!(openai_response("ollama", &none), Err(ModelError::BadResponse { message, .. }) if message == "missing choices"));
}
