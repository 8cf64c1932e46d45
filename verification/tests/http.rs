use annals::http::{
    can_take_pairs, checked_request_url, format_error, format_rate_limit, has_next_link, plain_url,
    query_size, request_headers, Headers, Status, GITHUB_API,
};

fn headers(entries: &[(&str, &str)]) -> Headers {
    let entries = entries.iter().map(|(n, v)| (n.to_string(), v.as_bytes().to_vec())).collect();
    Headers { entries }
}

fn pairs(list: &[(&str, &str)]) -> Vec<(String, String)> {
    list.iter().map(|(n, v)| (n.to_string(), v.to_string())).collect()
}

#[test]
fn status_codes() {
    assert!(Status::new(99).is_none());
    assert!(Status::new(1000).is_none());
    assert_eq!(Status::new(404).unwrap().to_text(), "404 Not Found");
    assert_eq!(Status::new(500).unwrap().to_text(), "500 Internal Server Error");
    assert_eq!(Status::new(799).unwrap().to_text(), "799 <unknown status code>");
    assert_eq!(Status::new(404).unwrap().code(), 404);
    for (code, good) in [(199, false), (200, true), (299, true), (300, false)] {
        assert_eq!(Status::new(code).unwrap().is_success(), good);
    }
}

#[test]
fn further_pages() {
    let next = "</users/me/repos?page=2>; rel=\"next\", </users/me/repos?page=2>; rel=\"last\"";
    assert!(has_next_link(&headers(&[("link", next)])));
    assert!(!has_next_link(&headers(&[("link", "<x>; rel=\"last\"")])));
    assert!(!has_next_link(&headers(&[("links", next)])));
    assert!(!has_next_link(&headers(&[])));
    assert!(!has_next_link(&headers(&[("link", "<x>"), ("link", next)])));
    assert!(!has_next_link(&headers(&[("link", "<x>; rel=\"ne,xt\"")])));
}

#[test]
fn a_header_with_bytes_that_are_no_text_is_none() {
    let entries = vec![("link".to_string(), b"\xff; rel=\"next\"".to_vec())];
    let broken = Headers { entries };
    assert_eq!(broken.text_of("link"), None);
    assert!(!has_next_link(&broken));
    let tab = Headers { entries: vec![("a".to_string(), b"x\ty~".to_vec())] };
    assert_eq!(tab.text_of("a"), Some("x\ty~".to_string()));
    let delete = Headers { entries: vec![("a".to_string(), vec![127])] };
    assert_eq!(delete.text_of("a"), None);
}

#[test]
fn header_texts_are_those_of_reqwest() {
    for b in 0..=255u8 {
        let value = reqwest::header::HeaderValue::from_bytes(&[b'a', b]);
        if let Ok(value) = value {
            let ours = Headers { entries: vec![("n".to_string(), vec![b'a', b])] };
            assert_eq!(ours.text_of("n"), value.to_str().ok().map(|t| t.to_string()), "{}", b);
        }
    }
}

#[test]
fn rate_limits() {
    let limit = |entries: &[(&str, &str)]| format_rate_limit(&headers(entries));
    assert_eq!(limit(&[]), None);
    assert_eq!(limit(&[("x-ratelimit-reset", "0")]), None);
    assert_eq!(limit(&[("x-ratelimit-remaining", "x")]), None);
    assert_eq!(limit(&[("x-ratelimit-remaining", "0")]), Some("remaining=0".to_string()));
    assert_eq!(
        limit(&[("x-ratelimit-remaining", "-3"), ("x-ratelimit-reset", "1704067200")]),
        Some("remaining=-3, resets at 2024-01-01T00:00:00+00:00".to_string())
    );
    assert_eq!(
        limit(&[("x-ratelimit-remaining", "1"), ("x-ratelimit-reset", "9223372036854775807")]),
        Some("remaining=1".to_string())
    );
    assert_eq!(
        limit(&[("x-ratelimit-remaining", "1"), ("x-ratelimit-reset", "soon")]),
        Some("remaining=1".to_string())
    );
}

#[test]
fn error_responses() {
    let say = |code: u16, entries: &[(&str, &str)]| {
        format_error(Status::new(code).unwrap(), &headers(entries), "the body", "list repos")
    };
    assert_eq!(say(401, &[]), "list repos failed: authentication rejected (401)");
    assert_eq!(
        say(403, &[]),
        "list repos forbidden (403) - token may lack scopes or repo access"
    );
    assert_eq!(
        say(403, &[("x-ratelimit-remaining", "0")]),
        "list repos hit GitHub rate limit: remaining=0"
    );
    assert_eq!(say(502, &[]), "list repos failed with 502 Bad Gateway - the body");
}

#[test]
fn headers_of_requests() {
    let none = request_headers(&None).unwrap();
    assert_eq!(
        none,
        pairs(&[(
            "accept",
            "application/vnd.github+json, application/vnd.github.cloak-preview+json"
        )])
    );
    let some = request_headers(&Some("abc".to_string())).unwrap();
    assert_eq!(some[1], ("authorization".to_string(), "Bearer abc".to_string()));
    let error = request_headers(&Some("a\nb".to_string())).unwrap_err();
    assert_eq!(error.text, "failed to encode Authorization header");
    assert!(request_headers(&Some("a\u{7f}".to_string())).is_err());
    assert!(request_headers(&Some("a\tbé".to_string())).is_ok());
}

#[test]
fn addresses() {
    assert_eq!(plain_url(GITHUB_API, "user").unwrap(), "https://api.github.com/user");
    assert_eq!(
        plain_url("http://localhost:80/api/", "repos/a b/c").unwrap(),
        "http://localhost/api/repos/a%20b/c"
    );
    assert_eq!(plain_url("no address", "user").unwrap_err(), "relative URL without a base");
    let url = checked_request_url(
        GITHUB_API,
        "users/me/repos",
        &pairs(&[("q", "author:me a&b=ü"), ("page", "1")]),
    );
    assert_eq!(
        url.unwrap().unwrap(),
        "https://api.github.com/users/me/repos?q=author%3Ame+a%26b%3D%C3%BC&page=1"
    );
    let kept = checked_request_url(GITHUB_API, "x?a=b", &pairs(&[("c", "d")]));
    assert_eq!(kept.unwrap().unwrap(), "https://api.github.com/x?a=b&c=d");
    let failed = checked_request_url("no address", "user", &pairs(&[]));
    assert_eq!(failed.unwrap().unwrap_err(), "relative URL without a base");
}

#[test]
fn sizes_of_texts_in_a_query() {
    assert_eq!(query_size(""), 0);
    assert_eq!(query_size("a*b-C.9_ "), 9);
    assert_eq!(query_size("&=+%~"), 15);
    assert_eq!(query_size("é€"), 15);
    for code in 0..=0x2ffu32 {
        if let Some(c) = char::from_u32(code) {
            let text = c.to_string();
            let url = checked_request_url("http://h/", "p", &pairs(&[("", &text)]));
            let prefix = "http://h/p?=".len() as u128;
            assert_eq!(url.unwrap().unwrap().len() as u128, prefix + query_size(&text), "{}", code);
        }
    }
}

#[test]
fn addresses_with_a_fragment_or_a_query_take_pairs() {
    let two = pairs(&[("a", "b"), ("c", " ")]);
    for address in ["http://h/p", "http://h/p?", "http://h/p?x", "http://h/p#f", "http://h/p?x#f?"] {
        assert!(can_take_pairs(address, &two));
        assert!(can_take_pairs(address, &Vec::new()));
    }
    let url = |path: &str| checked_request_url("http://h/", path, &two).unwrap().unwrap();
    assert_eq!(url("p#f"), "http://h/p?a=b&c=+#f");
    assert_eq!(url("p?#f"), "http://h/p?a=b&c=+#f");
    assert_eq!(url("p?x#f?"), "http://h/p?x&a=b&c=+#f?");
}
