use crawler::fetcher::{eq_ignore_ascii, FetchError, FetchResult};
use crawler::parser::{normalize_url, resolve_link, ParsedPage, Parser};

#[test]
fn parse_extracts_title_links_and_text() {
    let html = "<html><head><title>Demo</title></head>\
                <body><p>hello</p><a href=\"/x\">x</a><a href=\"y.html\">y</a></body></html>";
    let page: ParsedPage = Parser::parse(html, "https://a.test/dir/");
    assert_eq!(page.title, Some(String::from("Demo")));
    assert_eq!(
        page.links,
        vec![String::from("https://a.test/x"), String::from("https://a.test/dir/y.html")]
    );
    assert!(page.text_content.contains("hello"));
    assert!(page.text_content.contains("x"));
}

#[test]
fn parse_degrades_on_malformed_html() {
    let page = Parser::parse("<<<not <really html", "https://a.test/");
    assert_eq!(page.title, None);
    assert!(page.links.is_empty());
}

#[test]
fn parse_keeps_document_order_and_duplicates() {
    let html = "<body><a href=\"/b\">1</a><a href=\"/a\">2</a><a href=\"/b\">3</a></body>";
    let page = Parser::parse(html, "https://s.test/");
    assert_eq!(
        page.links,
        vec![
            String::from("https://s.test/b"),
            String::from("https://s.test/a"),
            String::from("https://s.test/b"),
        ]
    );
}

#[test]
fn parse_drops_unresolvable_links() {
    let html = "<body><a href=\"https://ok.test/\">a</a><a href=\"http://[bad\">b</a></body>";
    let page = Parser::parse(html, "https://s.test/");
    assert_eq!(page.links, vec![String::from("https://ok.test/")]);
}

#[test]
fn parse_without_valid_base_keeps_raw_hrefs() {
    let html = "<body><a href=\"/x\">a</a></body>";
    let page = Parser::parse(html, "not a url");
    assert_eq!(page.links, vec![String::from("/x")]);
}

#[test]
fn resolve_relative_paths() {
    assert_eq!(
        resolve_link("https://example.net/a/b.html", "c.png"),
        Some(String::from("https://example.net/a/c.png"))
    );
    assert_eq!(
        resolve_link("https://example.net/a/b/", "c.png"),
        Some(String::from("https://example.net/a/b/c.png"))
    );
}

#[test]
fn resolve_protocol_relative_and_absolute_path() {
    assert_eq!(
        resolve_link("https://alice.com/a", "//eve.com/b"),
        Some(String::from("https://eve.com/b"))
    );
    assert_eq!(
        resolve_link("https://alice.com/a", "/v1/meta"),
        Some(String::from("https://alice.com/v1/meta"))
    );
}

#[test]
fn resolve_fragment_only_reference() {
    assert_eq!(
        resolve_link("https://a.test/page", "#part"),
        Some(String::from("https://a.test/page#part"))
    );
}

#[test]
fn resolving_absolute_url_leaves_it_unchanged() {
    // A link that is already a normal absolute URL comes back as it is,
    // whatever base it is resolved against.
    let absolute = "https://other.test/path?q=1";
    assert_eq!(normalize_url(absolute), Some(String::from(absolute)));
    assert_eq!(resolve_link("https://base1.test/a/b", absolute), Some(String::from(absolute)));
    assert_eq!(resolve_link("https://base2.test/", absolute), Some(String::from(absolute)));
}

#[test]
fn normalize_lowers_scheme_and_host() {
    assert_eq!(normalize_url("HTTPS://A.Test/P"), Some(String::from("https://a.test/P")));
    assert_eq!(normalize_url("https://a.test"), Some(String::from("https://a.test/")));
    assert_eq!(normalize_url("not a url"), None);
    // idempotence: a normal form normalizes to itself
    let n = normalize_url("HTTP://X.test/q").unwrap();
    assert_eq!(normalize_url(&n), Some(n.clone()));
}

#[test]
fn header_lookup_is_case_insensitive_and_last_wins() {
    let res = FetchResult {
        status_code: 200,
        body: String::from("ok"),
        headers: vec![
            (String::from("Content-Type"), String::from("text/plain")),
            (String::from("X-One"), String::from("1")),
            (String::from("content-type"), String::from("text/html")),
        ],
        final_url: String::from("https://a.test/"),
    };
    assert_eq!(res.header("CONTENT-TYPE"), Some(&String::from("text/html")));
    assert_eq!(res.header("x-one"), Some(&String::from("1")));
    assert_eq!(res.header("missing"), None);
}

#[test]
fn status_success_range() {
    let mut res = FetchResult {
        status_code: 199,
        body: String::new(),
        headers: Vec::new(),
        final_url: String::new(),
    };
    assert!(!res.is_success());
    res.status_code = 200;
    assert!(res.is_success());
    res.status_code = 299;
    assert!(res.is_success());
    res.status_code = 300;
    assert!(!res.is_success());
    res.status_code = 500;
    assert!(!res.is_success());
}

#[test]
fn ascii_case_comparison() {
    assert!(eq_ignore_ascii("Content-Length", "content-length"));
    assert!(eq_ignore_ascii("ABC", "abc"));
    assert!(!eq_ignore_ascii("abc", "abd"));
    assert!(!eq_ignore_ascii("abc", "abcd"));
}

#[test]
fn fetch_error_variants() {
    assert_ne!(FetchError::RequestFailed, FetchError::RateLimitError);
    assert_eq!(FetchError::StatusError(500), FetchError::StatusError(500));
    assert_ne!(FetchError::StatusError(500), FetchError::StatusError(404));
}
