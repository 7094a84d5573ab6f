use httprobe::matcher::{compile_all, Matcher};
use httprobe::prober::{classify, join_captures, HostProber, HostResult, ProbeOutcome};

fn matchers(patterns: &[&str]) -> Vec<Matcher> {
    compile_all(patterns.iter().map(|p| p.to_string()).collect())
        .ok()
        .expect("patterns compile")
}

/// Runs one host against a simulated transport and returns the output line;
/// also returns the URLs that were fetched.
fn probe(
    host: &str,
    ms: &Vec<Matcher>,
    transport: &dyn Fn(&str) -> Option<Vec<u8>>,
) -> (Option<String>, Vec<String>) {
    let mut p = HostProber::new(host.to_string());
    let mut fetched = Vec::new();
    while let Some(url) = p.next_url() {
        let response = transport(&url);
        fetched.push(url);
        let outcome = classify(response.as_deref(), ms);
        p.record(outcome);
    }
    (p.finish().map(|r| r.line()), fetched)
}

#[test]
fn scenario_https_reachable_without_matchers() {
    let ms = matchers(&[]);
    let (line, fetched) = probe("example.com", &ms, &|url| {
        if url.starts_with("https://") { Some(Vec::new()) } else { None }
    });
    assert_eq!(line, Some("https://example.com".to_string()));
    assert_eq!(fetched, vec!["https://example.com".to_string()]);
}

#[test]
fn scenario_port_80_uses_http() {
    let ms = matchers(&[]);
    let (line, fetched) = probe("example.com:80", &ms, &|url| {
        if url.starts_with("http://") { Some(Vec::new()) } else { None }
    });
    assert_eq!(line, Some("http://example.com:80".to_string()));
    assert_eq!(fetched, vec!["http://example.com:80".to_string()]);
}

#[test]
fn scenario_unreachable_scheme_prefixed_gives_nothing() {
    let ms = matchers(&[]);
    let (line, fetched) = probe("https://secure.example", &ms, &|_| None);
    assert_eq!(line, None);
    assert_eq!(fetched, vec!["https://secure.example".to_string()]);
}

#[test]
fn scenario_title_matcher() {
    let ms = matchers(&["<title>(.*?)</title>"]);
    let (line, fetched) = probe("blog.example", &ms, &|url| {
        if url.starts_with("https://") {
            Some(b"<html><title>Hello</title></html>".to_vec())
        } else {
            None
        }
    });
    assert_eq!(line, Some("https://blog.example Hello".to_string()));
    assert_eq!(fetched, vec!["https://blog.example".to_string()]);
}

#[test]
fn reachable_but_not_matching_keeps_scanning() {
    let ms = matchers(&["secret"]);
    let (line, fetched) = probe("site.example", &ms, &|url| {
        if url.starts_with("https://") {
            Some(b"nothing here".to_vec())
        } else {
            Some(b"the secret page".to_vec())
        }
    });
    assert_eq!(line, Some("http://site.example secret".to_string()));
    assert_eq!(
        fetched,
        vec!["https://site.example".to_string(), "http://site.example".to_string()]
    );
}

#[test]
fn falls_back_to_http_when_https_fails() {
    let ms = matchers(&[]);
    let (line, _) = probe("example.com", &ms, &|url| {
        if url.starts_with("http://") { Some(Vec::new()) } else { None }
    });
    assert_eq!(line, Some("http://example.com".to_string()));
}

#[test]
fn all_candidates_failing_gives_nothing() {
    let ms = matchers(&["x"]);
    let (line, fetched) = probe("down.example", &ms, &|_| None);
    assert_eq!(line, None);
    assert_eq!(fetched.len(), 2);
}

#[test]
fn classify_outcomes() {
    let none = matchers(&[]);
    let some = matchers(&["(o+)"]);
    assert!(matches!(classify(None, &none), ProbeOutcome::Unreachable));
    assert!(matches!(classify(None, &some), ProbeOutcome::Unreachable));
    assert!(matches!(classify(Some(b"x"), &none), ProbeOutcome::Reachable));
    assert!(matches!(classify(Some(b"x"), &some), ProbeOutcome::ReachableNoMatch));
    match classify(Some(b"foo"), &some) {
        ProbeOutcome::Matched(v) => assert_eq!(v, vec!["oo".to_string()]),
        other => panic!("unexpected {:?}", other),
    }
}

#[test]
fn record_after_done_changes_nothing() {
    let mut p = HostProber::new("example.com".to_string());
    assert_eq!(p.next_url(), Some("https://example.com".to_string()));
    p.record(ProbeOutcome::Reachable);
    assert_eq!(p.next_url(), None);
    p.record(ProbeOutcome::Matched(vec!["late".to_string()]));
    let r = p.finish().expect("a result");
    assert_eq!(r.url, "https://example.com");
    assert!(r.captures.is_empty());
}

#[test]
fn output_lines() {
    let plain = HostResult { url: "https://a.example".to_string(), captures: vec![] };
    assert_eq!(plain.line(), "https://a.example");
    let with = HostResult {
        url: "http://b.example".to_string(),
        captures: vec!["one".to_string(), "two".to_string(), "three".to_string()],
    };
    assert_eq!(with.line(), "http://b.example one two three");
    assert_eq!(join_captures(&vec!["x".to_string()]), "x");
    assert_eq!(join_captures(&vec![]), "");
}
