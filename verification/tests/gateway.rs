//! Gateways: routing by prefix, and what they add.
use faktor::gateway::GatewayConfig;
use faktor::provider::ModelCapabilities;

fn gateway(prefixes: &[(&str, &str)]) -> GatewayConfig {
    GatewayConfig {
        id: "gw".to_string(),
        base_url: "http://base/v1".to_string(),
        api_key: None,
        extra_headers: vec![],
        route_prefixes: prefixes.iter().map(|p| (p.0.to_string(), p.1.to_string())).collect(),
        default_caps: ModelCapabilities::default(),
    }
}

#[test]
fn prefix_routing_rewrites_model() {
    let cfg = gateway(&[("deepseek/", "routed-model")]);
    assert_eq!(
        cfg.route("deepseek/deepseek-chat"),
        "routed-model",
        "prefix routing must rewrite the model"
    );
    assert_eq!(cfg.route("other/model"), "other/model");
    assert!(!cfg.is_plain());
}

#[test]
fn the_first_matching_prefix_decides() {
    let cfg = gateway(&[("a/", "one"), ("a/b", "two"), ("", "rest")]);
    assert_eq!(cfg.route("a/b"), "one");
    assert_eq!(cfg.route("b"), "rest");
}

#[test]
fn capabilities_surface_via_caps_not_names() {
    let cfg = GatewayConfig::openrouter(None);
    let caps = cfg.capabilities(ModelCapabilities::default());
    assert!(caps.tools);
    assert!(caps.vision);
    let known = ModelCapabilities { context: 1, ..Default::default() };
    assert_eq!(cfg.capabilities(known), known);
}

#[test]
fn extra_headers_arrive_on_the_chat_completions_request() {
    let mut cfg = gateway(&[]);
    cfg.extra_headers = vec![("X-Title".to_string(), "Faktor".to_string())];
    assert!(cfg.has_extra_headers());
    assert!(!cfg.is_plain());
    assert_eq!(cfg.completions_url(), "http://base/v1/chat/completions");
}

#[test]
fn gateway_without_extra_headers_stays_header_clean() {
    let cfg = gateway(&[]);
    assert!(!cfg.has_extra_headers());
    assert!(cfg.is_plain());
}
