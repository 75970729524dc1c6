//! The reference rewriter: consistency across reference forms, exact-match
//! non-interference, cross-document sharing, and the pass-through fallback.

use id_obfuscation_proxy::config::Config;
use id_obfuscation_proxy::html_processor::HtmlProcessor;
use id_obfuscation_proxy::id_mapping::IdMapping;
use id_obfuscation_proxy::proxy_service::{IdObfuscationProxy, RequestPhase};

fn backend_config() -> Config {
    Config {
        listen_addr: b"127.0.0.1:6188".to_vec(),
        routes: vec![id_obfuscation_proxy::config::Route {
            name: b"all".to_vec(),
            context: b"/".to_vec(),
            target: b"http://backend".to_vec(),
        }],
    }
}

fn find(haystack: &[u8], needle: &[u8], from: usize) -> Option<usize> {
    if needle.is_empty() || haystack.len() < needle.len() {
        return None;
    }
    (from..=haystack.len() - needle.len()).find(|&i| &haystack[i..i + needle.len()] == needle)
}

/// The identifier bytes right after `marker`, up to the next byte that can
/// not continue an identifier token.
fn capture_after(content: &[u8], marker: &[u8]) -> Vec<u8> {
    let start = find(content, marker, 0).expect("marker not found") + marker.len();
    let mut end = start;
    while end < content.len()
        && (content[end].is_ascii_alphanumeric() || content[end] == b'_' || content[end] == b'-')
    {
        end += 1;
    }
    content[start..end].to_vec()
}

#[test]
fn consistency_across_reference_forms() {
    let mut processor = HtmlProcessor::new(IdMapping::new());
    let document = b"<html><body><div id=\"box\">x</div>\
        <script>document.getElementById('box').remove();\
        document.querySelector('#box');</script>\
        <style>#box { color: red; }</style></body></html>";
    let out = processor.process(document).expect("parseable document");
    let g_attr = capture_after(&out, b"id=\"");
    let g_lookup = capture_after(&out, b"getElementById('");
    let g_selector_call = capture_after(&out, b"querySelector('#");
    let g_css = capture_after(&out, b"<style>#");
    assert_eq!(g_attr, g_lookup);
    assert_eq!(g_attr, g_selector_call);
    assert_eq!(g_attr, g_css);
    assert_ne!(g_attr, b"box".to_vec());
    assert!(find(&out, b"box", 0).is_none());
}

#[test]
fn non_interference_of_overlapping_names() {
    let mut processor = HtmlProcessor::new(IdMapping::new());
    let document = b"<html><body><div id=\"a\">x</div><span id=\"ab\">y</span>\
        <style>#a { left: 0; } #ab { top: 0; }</style></body></html>";
    let out = processor.process(document).expect("parseable document");
    let g_a = capture_after(&out, b"id=\"");
    let rest_from = find(&out, b"<span", 0).expect("span kept");
    let g_ab_start = find(&out, b"id=\"", rest_from).expect("second id kept") + 4;
    let mut g_ab_end = g_ab_start;
    while out[g_ab_end] != b'"' {
        g_ab_end += 1;
    }
    let g_ab = out[g_ab_start..g_ab_end].to_vec();
    assert_ne!(g_a, g_ab);
    // the style block references each id independently
    let css_a = capture_after(&out, b"<style>#");
    let css_ab = capture_after(&out, b"} #");
    assert_eq!(css_a, g_a);
    assert_eq!(css_ab, g_ab);
    // neither original name survives as a standalone reference
    assert!(find(&out, b"#a ", 0).is_none());
    assert!(find(&out, b"#ab ", 0).is_none());
}

#[test]
fn cross_document_sharing() {
    let mut processor = HtmlProcessor::new(IdMapping::new());
    let first = processor
        .process(b"<html><body><div id=\"main\">one</div></body></html>")
        .expect("parseable document");
    let second = processor
        .process(b"<html><body><p id=\"main\">two</p></body></html>")
        .expect("parseable document");
    let g_first = capture_after(&first, b"id=\"");
    let g_second = capture_after(&second, b"id=\"");
    assert_eq!(g_first, g_second);
}

#[test]
fn unparseable_bytes_are_rejected() {
    let mut processor = HtmlProcessor::new(IdMapping::new());
    let garbage: Vec<u8> = vec![0xff, 0xfe, b'<', b'd', b'i', b'v', 0x80];
    assert!(processor.process(&garbage).is_err());
}

#[test]
fn fallback_emits_original_bytes() {
    let config = backend_config();
    let mut proxy = IdObfuscationProxy::new(config);
    let mut ctx = proxy.new_ctx();
    proxy.upstream_peer(&mut ctx, b"/page").expect("routed");
    let chunk1: Vec<u8> = vec![0xff, 0xfe, b'<'];
    let chunk2: Vec<u8> = vec![b'x', 0x80, b'>'];
    assert!(proxy.response_body_filter(&mut ctx, Some(&chunk1), false).is_none());
    let emitted = proxy
        .response_body_filter(&mut ctx, Some(&chunk2), true)
        .expect("end of stream emits a body");
    let mut original = chunk1.clone();
    original.extend_from_slice(&chunk2);
    assert_eq!(emitted, original);
    assert_eq!(ctx.phase, RequestPhase::Done);
}

#[test]
fn streamed_chunks_are_rewritten_whole() {
    let config = backend_config();
    let mut proxy = IdObfuscationProxy::new(config);
    let mut ctx = proxy.new_ctx();
    proxy.upstream_peer(&mut ctx, b"/page").expect("routed");
    let part1 = b"<html><body><div id=\"bo".to_vec();
    let part2 = b"x\">x</div></body></html>".to_vec();
    assert!(proxy.response_body_filter(&mut ctx, Some(&part1), false).is_none());
    let emitted = proxy
        .response_body_filter(&mut ctx, Some(&part2), true)
        .expect("end of stream emits a body");
    // the identifier split across chunks is still rewritten
    assert!(find(&emitted, b"id=\"box\"", 0).is_none());
    let g = capture_after(&emitted, b"id=\"");
    assert!(g.starts_with(b"id_"));
}

#[test]
fn untouched_text_is_preserved() {
    let mut processor = HtmlProcessor::new(IdMapping::new());
    let document = b"<html><body><p id=\"n1\">keep &amp; exactly</p><p>plain</p></body></html>";
    let out = processor.process(document).expect("parseable document");
    assert!(find(&out, b"keep &amp; exactly", 0).is_some());
    assert!(find(&out, b"<p>plain</p>", 0).is_some());
    assert!(find(&out, b"id=\"n1\"", 0).is_none());
}
