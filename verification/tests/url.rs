use browser_core::http::Header;
use browser_core::http::HttpClient;
use browser_core::url::Url;

#[test]
fn test_url_host() {
    let url = Url::new("http://example.com".to_string()).parse().unwrap();
    assert_eq!(url.host(), "example.com".to_string());
}

#[test]
fn test_url_host_port() {
    let url = Url::new("http://example.com:8080".to_string()).parse().unwrap();
    assert_eq!(url.host(), "example.com".to_string());
    assert_eq!(url.port(), "8080".to_string());
}

#[test]
fn test_url_host_port_path() {
    let url = Url::new("http://example.com:8080/path".to_string()).parse().unwrap();
    assert_eq!(url.host(), "example.com".to_string());
    assert_eq!(url.port(), "8080".to_string());
    assert_eq!(url.path(), "path".to_string());
}

#[test]
fn test_url_host_port_path_searchpart() {
    let url = Url::new("http://example.com:8080/path?a=123&b=456".to_string()).parse().unwrap();
    assert_eq!(url.host(), "example.com".to_string());
    assert_eq!(url.port(), "8080".to_string());
    assert_eq!(url.path(), "path".to_string());
    assert_eq!(url.searchpart(), "a=123&b=456".to_string());
}

#[test]
fn test_no_scheme() {
    let url = Url::new("example.com".to_string()).parse();
    assert_eq!(url, Err("only HTTP scheme is supported.".to_string()));
}

#[test]
fn test_unsupported_scheme() {
    let url = Url::new("https://example.com".to_string()).parse();
    assert_eq!(url, Err("only HTTP scheme is supported.".to_string()));
}

#[test]
fn test_url_default_port_and_empty_parts() {
    let url = Url::new("http://example.com/".to_string()).parse().unwrap();
    assert_eq!(url.host(), "example.com".to_string());
    assert_eq!(url.port(), "80".to_string());
    assert_eq!(url.path(), "".to_string());
    assert_eq!(url.searchpart(), "".to_string());
}

#[test]
fn test_get_request_text() {
    let client = HttpClient::new();
    let request = client.build_get_request("example.com", "index.html");
    assert_eq!(
        request,
        "GET /index.html HTTP/1.1\nHost: example.com\nAccept: text/html\nConnection: close\n"
            .to_string()
    );
}

#[test]
fn test_header_holds_its_pair() {
    let h = Header::new("Host".to_string(), "example.com".to_string());
    assert_eq!(h.name, "Host".to_string());
    assert_eq!(h.value, "example.com".to_string());
}
