//! The route table and the upstream decision: first-match routing, prefix
//! stripping, port defaulting, and routing failures.

use id_obfuscation_proxy::config::{Config, Route};
use id_obfuscation_proxy::proxy_service::{IdObfuscationProxy, ProxyError, RequestPhase};

fn route(name: &str, context: &str, target: &str) -> Route {
    Route {
        name: name.as_bytes().to_vec(),
        context: context.as_bytes().to_vec(),
        target: target.as_bytes().to_vec(),
    }
}

fn two_route_config() -> Config {
    Config {
        listen_addr: b"127.0.0.1:6188".to_vec(),
        routes: vec![route("api", "/api", "http://b1"), route("root", "/", "http://b2")],
    }
}

#[test]
fn first_matching_route_wins() {
    let config = two_route_config();
    let hit = config.find_route(b"/api/users").expect("matched");
    assert_eq!(hit.target, b"http://b1".to_vec());
    let fallback = config.find_route(b"/other").expect("matched");
    assert_eq!(fallback.target, b"http://b2".to_vec());
}

#[test]
fn api_path_is_stripped_for_upstream() {
    let proxy = IdObfuscationProxy::new(two_route_config());
    let mut ctx = proxy.new_ctx();
    let sel = proxy.upstream_peer(&mut ctx, b"/api/users").expect("routed");
    assert_eq!(sel.host, b"b1".to_vec());
    assert_eq!(sel.port, 80);
    assert!(!sel.tls);
    assert_eq!(sel.path, b"/users".to_vec());
}

#[test]
fn exact_context_match_yields_root_path() {
    let proxy = IdObfuscationProxy::new(two_route_config());
    let mut ctx = proxy.new_ctx();
    let sel = proxy.upstream_peer(&mut ctx, b"/api").expect("routed");
    assert_eq!(sel.host, b"b1".to_vec());
    assert_eq!(sel.path, b"/".to_vec());
}

#[test]
fn unmatched_path_is_a_distinct_failure() {
    let config = Config {
        listen_addr: b"127.0.0.1:6188".to_vec(),
        routes: vec![route("api", "/api", "http://b1")],
    };
    let proxy = IdObfuscationProxy::new(config);
    let mut ctx = proxy.new_ctx();
    assert_eq!(proxy.upstream_peer(&mut ctx, b"/else").unwrap_err(), ProxyError::NoRouteMatch);
}

#[test]
fn hostless_target_is_invalid() {
    let config = Config {
        listen_addr: b"127.0.0.1:6188".to_vec(),
        routes: vec![route("bad", "/", "not a url")],
    };
    let proxy = IdObfuscationProxy::new(config);
    let mut ctx = proxy.new_ctx();
    assert_eq!(proxy.upstream_peer(&mut ctx, b"/x").unwrap_err(), ProxyError::InvalidTarget);
}

#[test]
fn encrypted_scheme_defaults_to_port_443() {
    let config = Config {
        listen_addr: b"127.0.0.1:6188".to_vec(),
        routes: vec![route("s", "/", "https://secure.example.com")],
    };
    let proxy = IdObfuscationProxy::new(config);
    let mut ctx = proxy.new_ctx();
    let sel = proxy.upstream_peer(&mut ctx, b"/x").expect("routed");
    assert_eq!(sel.host, b"secure.example.com".to_vec());
    assert_eq!(sel.port, 443);
    assert!(sel.tls);
}

#[test]
fn explicit_port_overrides_the_default() {
    let config = Config {
        listen_addr: b"127.0.0.1:6188".to_vec(),
        routes: vec![route("p", "/", "http://backend.example.com:8080")],
    };
    let proxy = IdObfuscationProxy::new(config);
    let mut ctx = proxy.new_ctx();
    let sel = proxy.upstream_peer(&mut ctx, b"/x").expect("routed");
    assert_eq!(sel.port, 8080);
}

#[test]
fn request_phases_follow_the_outcome() {
    let proxy = IdObfuscationProxy::new(two_route_config());
    let mut ctx = proxy.new_ctx();
    assert_eq!(ctx.phase, RequestPhase::Routing);
    proxy.upstream_peer(&mut ctx, b"/api/users").expect("routed");
    assert_eq!(ctx.phase, RequestPhase::StreamingBody);

    let mut failed = proxy.new_ctx();
    let empty = IdObfuscationProxy::new(Config {
        listen_addr: b"127.0.0.1:6188".to_vec(),
        routes: Vec::new(),
    });
    assert!(empty.upstream_peer(&mut failed, b"/x").is_err());
    assert_eq!(failed.phase, RequestPhase::Errored);
}
