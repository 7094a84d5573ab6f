use httprobe::candidates::get_url_variants;

fn variants(host: &str) -> Vec<String> {
    get_url_variants(host.to_string())
}

#[test]
fn bare_host_gets_https_then_http() {
    assert_eq!(
        variants("example.com"),
        vec!["https://example.com".to_string(), "http://example.com".to_string()]
    );
}

#[test]
fn port_80_drops_https() {
    assert_eq!(variants("example.com:80"), vec!["http://example.com:80".to_string()]);
}

#[test]
fn port_443_drops_http() {
    assert_eq!(variants("example.com:443"), vec!["https://example.com:443".to_string()]);
}

#[test]
fn other_ports_keep_both() {
    assert_eq!(
        variants("example.com:8080"),
        vec!["https://example.com:8080".to_string(), "http://example.com:8080".to_string()]
    );
    assert_eq!(
        variants("example.com:4430"),
        vec!["https://example.com:4430".to_string(), "http://example.com:4430".to_string()]
    );
}

#[test]
fn scheme_prefixed_input_is_kept_as_is() {
    assert_eq!(variants("https://secure.example"), vec!["https://secure.example".to_string()]);
    assert_eq!(variants("http://plain.example:443"), vec!["http://plain.example:443".to_string()]);
    assert_eq!(variants("https://site.example:80"), vec!["https://site.example:80".to_string()]);
}

#[test]
fn non_ascii_host() {
    assert_eq!(
        variants("bücher.example"),
        vec!["https://bücher.example".to_string(), "http://bücher.example".to_string()]
    );
}

#[test]
fn short_inputs() {
    assert_eq!(variants(":80"), vec!["http://:80".to_string()]);
    assert_eq!(variants("a"), vec!["https://a".to_string(), "http://a".to_string()]);
}
