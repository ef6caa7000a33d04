use kiro_admin::base64::{base64_encode_standard, base64url_encode};
use kiro_admin::query::{parse_query_string, query_get};
use kiro_admin::social::{
    build_portal_url, callback_reply, generate_pkce, handle_callback_request, html_response,
    parse_callback, pkce_from_entropy, route_callback_request, token_exchange_failure,
    token_exchange_request, CallbackRoute, KIRO_AUTH_ENDPOINT, KIRO_PORTAL_URL,
};
use sha2::{Digest, Sha256};

#[test]
fn base64_standard_vectors() {
    assert_eq!(base64_encode_standard(b""), "");
    assert_eq!(base64_encode_standard(b"f"), "Zg==");
    assert_eq!(base64_encode_standard(b"fo"), "Zm8=");
    assert_eq!(base64_encode_standard(b"foo"), "Zm9v");
    assert_eq!(base64_encode_standard(b"foob"), "Zm9vYg==");
    assert_eq!(base64_encode_standard(b"fooba"), "Zm9vYmE=");
    assert_eq!(base64_encode_standard(b"foobar"), "Zm9vYmFy");
    assert_eq!(base64_encode_standard(&[0xfb, 0xff, 0xbf]), "+/+/");
}

#[test]
fn base64url_vectors() {
    assert_eq!(base64url_encode(b""), "");
    assert_eq!(base64url_encode(b"f"), "Zg");
    assert_eq!(base64url_encode(b"fo"), "Zm8");
    assert_eq!(base64url_encode(b"foobar"), "Zm9vYmFy");
    assert_eq!(base64url_encode(&[0xfb, 0xff]), "-_8");
    assert_eq!(base64url_encode(&[0xfb, 0xff, 0xbf]), "-_-_");
}

#[test]
fn base64url_length_and_alphabet() {
    for n in 0..70usize {
        let data: Vec<u8> = (0..n).map(|i| (i * 37 + 11) as u8).collect();
        let s = base64url_encode(&data);
        assert_eq!(s.len(), (4 * n + 2) / 3);
        assert!(s.chars().all(|c| c.is_ascii_alphanumeric() || c == '-' || c == '_'));
        assert_eq!(base64_encode_standard(&data).len(), 4 * ((n + 2) / 3));
    }
}

#[test]
fn pkce_matches_rfc7636_example() {
    // RFC 7636, appendix B.
    let octets: [u8; 32] = [
        116, 24, 223, 180, 151, 153, 224, 37, 79, 250, 96, 125, 216, 173, 187, 186, 22, 212, 37, 77,
        105, 214, 191, 240, 91, 88, 5, 88, 83, 132, 141, 121,
    ];
    let random: Vec<u8> = octets.iter().enumerate().map(|(i, b)| b.wrapping_sub(i as u8)).collect();
    let uuid = [0u8; 16];
    let (verifier, challenge) = pkce_from_entropy(&random, &uuid);
    assert_eq!(verifier, "dBjftJeZ4CVP-mB92K27uhbUJU1p1r_wW1gFWFOEjXk");
    assert_eq!(challenge, "E9Melhoa2OwvFrEMTJguCHaoeK1t8URWbuGJSstw-cM");
}

#[test]
fn pkce_mixes_in_the_uuid() {
    let random = [0u8; 32];
    let mut uuid = [0u8; 16];
    uuid[0] = 0xff;
    let (v1, _) = pkce_from_entropy(&random, &[0u8; 16]);
    let (v2, _) = pkce_from_entropy(&random, &uuid);
    assert_ne!(v1, v2);
}

#[test]
fn generated_pkce_is_well_formed() {
    let (verifier, challenge) = generate_pkce();
    assert_eq!(verifier.len(), 43);
    assert_eq!(challenge.len(), 43);
    assert!(verifier.chars().all(|c| c.is_ascii_alphanumeric() || c == '-' || c == '_'));
    let digest = Sha256::digest(verifier.as_bytes());
    assert_eq!(challenge, base64url_encode(&digest));
    let (other, _) = generate_pkce();
    assert_ne!(verifier, other);
}

#[test]
fn portal_url_encodes_parameters() {
    let url = build_portal_url("st ate/1", "abc-_", "http://127.0.0.1:3128/oauth/callback");
    assert_eq!(
        url,
        "https://app.kiro.dev/signin?state=st%20ate%2F1&code_challenge=abc-_&code_challenge_method=S256&redirect_uri=http%3A%2F%2F127.0.0.1%3A3128%2Foauth%2Fcallback&redirect_from=KiroIDE"
    );
    assert_eq!(KIRO_PORTAL_URL, "https://app.kiro.dev");
    let utf8 = build_portal_url("é", "", "");
    assert!(utf8.contains("state=%C3%A9&"));
}

#[test]
fn callback_with_code() {
    let d = parse_callback("/oauth/callback?code=abc&state=xyz&login_option=google").unwrap();
    assert_eq!(d.code, "abc");
    assert_eq!(d.state, "xyz");
    assert_eq!(d.login_option, "google");
    assert_eq!(d.path, "/oauth/callback");
    let d = parse_callback("/signin/callback?code=c1").unwrap();
    assert_eq!(d.path, "/signin/callback");
    assert_eq!(d.state, "");
    assert_eq!(d.login_option, "");
}

#[test]
fn callback_values_are_decoded() {
    let d = parse_callback("/oauth/callback?code=a%20b+c&state=%E4%BD%A0").unwrap();
    assert_eq!(d.code, "a b c");
    assert_eq!(d.state, "你");
    // Invalid UTF-8 after decoding keeps the raw value (with '+' as space).
    let d = parse_callback("/oauth/callback?code=%FF+x").unwrap();
    assert_eq!(d.code, "%FF x");
    // A lone or short escape stays as it is.
    let d = parse_callback("/oauth/callback?code=100%&state=%4").unwrap();
    assert_eq!(d.code, "100%");
    assert_eq!(d.state, "%4");
}

#[test]
fn callback_last_value_wins_and_splits_at_first_equals() {
    let d = parse_callback("/oauth/callback?code=one&code=two&state=a=b").unwrap();
    assert_eq!(d.code, "two");
    assert_eq!(d.state, "a=b");
    // A key without '=' has an empty value.
    let d = parse_callback("/oauth/callback?code").unwrap();
    assert_eq!(d.code, "");
}

#[test]
fn callback_refusals() {
    assert!(parse_callback("/oauth/callback").is_none());
    assert!(parse_callback("/other?code=1").is_none());
    assert!(parse_callback("/oauth/callback/?code=1").is_none());
    assert!(parse_callback("/oauth/callback?state=1").is_none());
    assert!(parse_callback("/oauth/callback?code=1&error=denied").is_none());
    assert!(parse_callback("/oauth/callback?code=1&error").is_none());
}

#[test]
fn route_successful_callback() {
    match route_callback_request("GET /oauth/callback?code=c&state=s HTTP/1.1\r\nHost: x\r\n\r\n") {
        CallbackRoute::Completed(d) => {
            assert_eq!(d.code, "c");
            assert_eq!(d.state, "s");
        }
        _ => panic!("expected a completed callback"),
    }
    assert!(matches!(
        route_callback_request("GET /signin/callback?code=c HTTP/1.0"),
        CallbackRoute::Completed(_)
    ));
}

#[test]
fn route_failed_callback() {
    match route_callback_request("GET /oauth/callback?error=access_denied&error_description=User+said+no HTTP/1.1\r\n") {
        CallbackRoute::Failed(Some(m)) => assert_eq!(m, "User said no"),
        _ => panic!("expected a failure"),
    }
    match route_callback_request("GET /oauth/callback?error=access_denied HTTP/1.1\r\n") {
        CallbackRoute::Failed(Some(m)) => assert_eq!(m, "access_denied"),
        _ => panic!("expected a failure"),
    }
    assert!(matches!(
        route_callback_request("GET /oauth/callback HTTP/1.1\r\n"),
        CallbackRoute::Failed(None)
    ));
    assert!(matches!(
        route_callback_request("GET /oauth/callbackx?state=1 HTTP/1.1\r\n"),
        CallbackRoute::Failed(None)
    ));
    // Only the text between the first and second '?' is read for the message.
    match route_callback_request("GET /signin/callback?a=1?error=x HTTP/1.1\r\n") {
        CallbackRoute::Failed(m) => assert_eq!(m, None),
        _ => panic!("expected a failure"),
    }
}

#[test]
fn route_not_found() {
    assert!(matches!(route_callback_request(""), CallbackRoute::NotFound));
    assert!(matches!(route_callback_request("GET /favicon.ico HTTP/1.1\r\n"), CallbackRoute::NotFound));
    assert!(matches!(route_callback_request("POST /oauth/callback?code=1 HTTP/1.1\r\n"), CallbackRoute::NotFound));
    assert!(matches!(route_callback_request("GET /oauth/callback?code=1 HTTP/2\r\n"), CallbackRoute::NotFound));
    // Only the first line counts.
    assert!(matches!(route_callback_request("\nGET /oauth/callback?code=1 HTTP/1.1"), CallbackRoute::NotFound));
}

#[test]
fn token_exchange_request_fields() {
    let r = token_exchange_request(KIRO_AUTH_ENDPOINT, "the-code", "ver", "http://127.0.0.1:3128/oauth/callback", "0.2.1");
    assert_eq!(r.url, "https://prod.us-east-1.auth.desktop.kiro.dev/oauth/token");
    assert_eq!(r.user_agent, "KiroIDE-0.2.1");
    assert_eq!(r.host, "prod.us-east-1.auth.desktop.kiro.dev");
    assert_eq!(r.code, "the-code");
    assert_eq!(r.code_verifier, "ver");
    assert_eq!(r.redirect_uri, "http://127.0.0.1:3128/oauth/callback");
    let r = token_exchange_request("https://https://h", "", "", "", "");
    assert_eq!(r.host, "h");
    let r = token_exchange_request("http://h", "", "", "", "");
    assert_eq!(r.host, "http://h");
}

#[test]
fn html_response_counts_body_bytes() {
    let body = "<p>登录</p>";
    let r = html_response(body);
    assert_eq!(
        r,
        format!(
            "HTTP/1.1 200 OK\r\nContent-Type: text/html; charset=utf-8\r\nContent-Length: {}\r\nConnection: close\r\n\r\n{}",
            body.len(),
            body
        )
    );
    assert!(r.contains("Content-Length: 13\r\n"));
    assert!(html_response("").contains("Content-Length: 0\r\n"));
}

#[test]
fn callback_replies() {
    let ok = callback_reply(&route_callback_request("GET /oauth/callback?code=c HTTP/1.1\r\n"));
    let success = "<html><head><meta charset='utf-8'><title>登录成功</title></head><body style='font-family:sans-serif;text-align:center;padding:60px'><h2>&#10003; 登录成功</h2><p>Token 已更新，请返回 Kiro Admin UI。</p><p style='color:#888;font-size:13px'>此标签页可以关闭。</p></body></html>";
    assert_eq!(ok, html_response(success));
    let failed = callback_reply(&CallbackRoute::Failed(Some("denied".to_string())));
    let page = "<html><head><meta charset='utf-8'><title>登录失败</title></head><body style='font-family:sans-serif;text-align:center;padding:60px'><h2>&#10007; 登录失败</h2><p>denied</p><p style='color:#888;font-size:13px'>请关闭此标签页并重试。</p></body></html>";
    assert_eq!(failed, html_response(page));
    let unknown = callback_reply(&CallbackRoute::Failed(None));
    assert!(unknown.contains("<p>未知错误</p>"));
    assert_eq!(
        callback_reply(&CallbackRoute::NotFound),
        "HTTP/1.1 404 Not Found\r\nContent-Length: 0\r\n\r\n"
    );
}

#[test]
fn callback_requests_in_turn() {
    let requests = [
        "GET /favicon.ico HTTP/1.1\r\n\r\n",
        "GET /oauth/callback?code=abc&state=s1 HTTP/1.1\r\n\r\n",
        "GET /oauth/callback?code=late HTTP/1.1\r\n\r\n",
    ];
    let first = handle_callback_request(requests[0]);
    assert_eq!(first.reply, "HTTP/1.1 404 Not Found\r\nContent-Length: 0\r\n\r\n");
    assert!(first.handover.is_none());
    assert!(!first.finished);
    let second = handle_callback_request(requests[1]);
    assert!(second.finished);
    assert!(second.reply.starts_with("HTTP/1.1 200 OK\r\n"));
    let d = second.handover.unwrap();
    assert_eq!(d.code, "abc");
    assert_eq!(d.state, "s1");
    let failed = handle_callback_request("GET /signin/callback?error=x HTTP/1.0");
    assert!(failed.finished);
    assert!(failed.handover.is_none());
    assert!(failed.reply.contains("<p>x</p>"));
}

#[test]
fn token_exchange_status() {
    assert_eq!(token_exchange_failure(200, "200 OK", "{}"), None);
    assert_eq!(token_exchange_failure(204, "204 No Content", ""), None);
    assert_eq!(token_exchange_failure(299, "299", ""), None);
    assert_eq!(
        token_exchange_failure(400, "400 Bad Request", "{\"error\":\"invalid_grant\"}").as_deref(),
        Some("Social token 交换失败 400 Bad Request: {\"error\":\"invalid_grant\"}")
    );
    assert!(token_exchange_failure(199, "199", "").is_some());
    assert!(token_exchange_failure(300, "300 Multiple Choices", "").is_some());
}

#[test]
fn portal_url_query_reads_back() {
    let state = "s t&a=b+c/é";
    let challenge = "E9Melhoa2OwvFrEMTJguCHaoeK1t8URWbuGJSstw-cM";
    let redirect = "http://127.0.0.1:3128/oauth/callback?x=1&y=2";
    let url = build_portal_url(state, challenge, redirect);
    let query: Vec<char> = url.split_once('?').unwrap().1.chars().collect();
    let pairs = parse_query_string(&query);
    let as_strings: Vec<(String, String)> = pairs
        .iter()
        .map(|(k, v)| (k.iter().collect(), v.iter().collect()))
        .collect();
    let expected: Vec<(String, String)> = [
        ("state", state),
        ("code_challenge", challenge),
        ("code_challenge_method", "S256"),
        ("redirect_uri", redirect),
        ("redirect_from", "KiroIDE"),
    ]
    .iter()
    .map(|(k, v)| (k.to_string(), v.to_string()))
    .collect();
    assert_eq!(as_strings, expected);
    let key: Vec<char> = "redirect_uri".chars().collect();
    let got: String = query_get(&pairs, &key).unwrap().iter().collect();
    assert_eq!(got, redirect);
}

#[test]
fn base64_standard_padding() {
    for n in 0..40usize {
        let data: Vec<u8> = (0..n).map(|i| (i * 91 + 7) as u8).collect();
        let s = base64_encode_standard(&data);
        let pad = s.chars().rev().take_while(|&c| c == '=').count();
        assert_eq!(pad, (3 - n % 3) % 3);
        assert!(s[..s.len() - pad].chars().all(|c| c.is_ascii_alphanumeric() || c == '+' || c == '/'));
    }
}
