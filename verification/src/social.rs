//! The social-login (Portal PKCE OAuth) flow: PKCE verifier and challenge,
//! the portal URL, and the local callback that brings back the code.

use vstd::prelude::*;
use vstd::utf8::encode_utf8;

use crate::base64::{base64url, base64url_encode, is_url_safe_char, lemma_base64url_shape};
use crate::query::{parse_query_string, query_get, query_param};
use crate::text::{
    chars_end_with, chars_equal, chars_of, chars_start_with, chars_start_with_at, ends_with, find_char, find_first,
    starts_with, string_from_chars, sub_chars, decimal, decimal_string,
};
use crate::trusted::{random_byte, sha256, sha256_digest, url_encode, url_encoded, uuid_v4_bytes};

verus! {

/// The portal (web entry) where the user signs in.
pub const KIRO_PORTAL_URL: &'static str = "https://app.kiro.dev";

/// The default Kiro auth service endpoint.
pub const KIRO_AUTH_ENDPOINT: &'static str = "https://prod.us-east-1.auth.desktop.kiro.dev";

/// What the OAuth callback brings back.
#[derive(Debug, Clone)]
pub struct OAuthCallbackData {
    pub code: String,
    pub login_option: String,
    pub path: String,
    /// The OAuth `state` parameter (checked against CSRF).
    pub state: String,
}

/// The contents of an `OAuthCallbackData`.
pub struct CallbackFields {
    pub code: Seq<char>,
    pub login_option: Seq<char>,
    pub path: Seq<char>,
    pub state: Seq<char>,
}

impl View for OAuthCallbackData {
    type V = CallbackFields;

    open spec fn view(&self) -> CallbackFields {
        CallbackFields {
            code: self.code@,
            login_option: self.login_option@,
            path: self.path@,
            state: self.state@,
        }
    }
}

/// Whether `path` is one of the two callback paths the portal redirects to.
pub open spec fn is_callback_path(path: Seq<char>) -> bool {
    path == "/oauth/callback"@ || path == "/signin/callback"@
}

/// The callback that `path_and_query` (such as `/oauth/callback?code=..`)
/// carries: the path must be a callback path followed by `?` and a query
/// with a `code` and without an `error`; `login_option` and `state` default
/// to empty.
pub open spec fn callback_of(pq: Seq<char>) -> Option<CallbackFields> {
    match find_first(pq, '?') {
        None => None,
        Some(i) => {
            let path = pq.take(i);
            let q = pq.skip(i + 1);
            if !is_callback_path(path) {
                None
            } else if query_param(q, "error"@) is Some {
                None
            } else {
                match query_param(q, "code"@) {
                    None => None,
                    Some(code) => Some(
                        CallbackFields {
                            code,
                            login_option: match query_param(q, "login_option"@) {
                                Some(v) => v,
                                None => seq![],
                            },
                            path,
                            state: match query_param(q, "state"@) {
                                Some(v) => v,
                                None => seq![],
                            },
                        },
                    ),
                }
            }
        },
    }
}

fn value_or_empty(v: Option<Vec<char>>) -> (res: String)
    ensures
        res@ == match v {
            Some(x) => x@,
            None => Seq::<char>::empty(),
        },
{
    match v {
        Some(x) => string_from_chars(x.as_slice()),
        None => String::new(),
    }
}

fn parse_callback_chars(pq: &[char]) -> (res: Option<OAuthCallbackData>)
    ensures
        match res {
            Some(d) => callback_of(pq@) == Some(d@),
            None => callback_of(pq@) is None,
        },
{
    let found = find_char(pq, '?');
    let idx = match found {
        Some(i) => i,
        None => {
            return None;
        },
    };
    proof {
        crate::text::lemma_find_first(pq@, '?');
    }
    let len = pq.len();
    let path = sub_chars(pq, 0, idx);
    let query = sub_chars(pq, idx + 1, len);
    assert(path@ =~= pq@.take(idx as int));
    assert(query@ =~= pq@.skip(idx + 1));
    let oauth = chars_of("/oauth/callback");
    let signin = chars_of("/signin/callback");
    if !chars_equal(path.as_slice(), oauth.as_slice()) && !chars_equal(
        path.as_slice(),
        signin.as_slice(),
    ) {
        return None;
    }
    let params = parse_query_string(query.as_slice());
    let error_key = chars_of("error");
    if query_get(&params, error_key.as_slice()).is_some() {
        return None;
    }
    let code_key = chars_of("code");
    let code = match query_get(&params, code_key.as_slice()) {
        Some(c) => c,
        None => {
            return None;
        },
    };
    let login_key = chars_of("login_option");
    let state_key = chars_of("state");
    let login_option = value_or_empty(query_get(&params, login_key.as_slice()));
    let state = value_or_empty(query_get(&params, state_key.as_slice()));
    Some(
        OAuthCallbackData {
            code: string_from_chars(code.as_slice()),
            login_option,
            path: string_from_chars(path.as_slice()),
            state,
        },
    )
}

/// The callback carried by a request target such as
/// `/oauth/callback?code=..&state=..`; `None` when it is no successful
/// callback (another path, no `?`, no `code`, or an `error` parameter).
pub fn parse_callback(path_and_query: &str) -> (res: Option<OAuthCallbackData>)
    ensures
        match res {
            Some(d) => callback_of(path_and_query@) == Some(d@),
            None => callback_of(path_and_query@) is None,
        },
{
    let pq = chars_of(path_and_query);
    parse_callback_chars(pq.as_slice())
}


/// The first line of an HTTP request as `str::lines` gives it: up to the
/// first `\n`, without a `\r` just before it; the whole text if it holds no
/// `\n`.
pub open spec fn first_line(r: Seq<char>) -> Seq<char> {
    match find_first(r, '\n') {
        None => r,
        Some(k) => {
            let l = r.take(k);
            if l.len() > 0 && l.last() == '\r' {
                l.drop_last()
            } else {
                l
            }
        },
    }
}

/// The target of a `GET <target> HTTP/1.1` (or `HTTP/1.0`) request line.
pub open spec fn get_target(line: Seq<char>) -> Option<Seq<char>> {
    if !starts_with(line, "GET "@) {
        None
    } else {
        let rest = line.skip(4);
        if ends_with(rest, " HTTP/1.1"@) {
            Some(rest.take(rest.len() - 9))
        } else if ends_with(rest, " HTTP/1.0"@) {
            Some(rest.take(rest.len() - 9))
        } else {
            None
        }
    }
}

/// The target of a request line is exactly the text between `GET ` and the
/// protocol version, whatever it holds.
pub proof fn lemma_get_target(t: Seq<char>)
    ensures
        get_target("GET "@ + t + " HTTP/1.1"@) == Some(t),
        get_target("GET "@ + t + " HTTP/1.0"@) == Some(t),
{
    reveal_strlit("GET ");
    reveal_strlit(" HTTP/1.1");
    reveal_strlit(" HTTP/1.0");
    let a = "GET "@ + t + " HTTP/1.1"@;
    let b = "GET "@ + t + " HTTP/1.0"@;
    assert(a.take(4) =~= "GET "@);
    assert(b.take(4) =~= "GET "@);
    let ra = a.skip(4);
    let rb = b.skip(4);
    assert(ra =~= t + " HTTP/1.1"@);
    assert(rb =~= t + " HTTP/1.0"@);
    assert(ra.skip(ra.len() - 9) =~= " HTTP/1.1"@);
    assert(ra.take(ra.len() - 9) =~= t);
    assert(rb.skip(rb.len() - 9) =~= " HTTP/1.0"@);
    assert(!ends_with(rb, " HTTP/1.1"@)) by {
        assert(rb.skip(rb.len() - 9)[8] != " HTTP/1.1"@[8]);
    }
    assert(rb.take(rb.len() - 9) =~= t);
}

/// The first line of a request is the text before its first line break,
/// whether the break is `\r\n` or `\n`, and the whole text when there is
/// none.
pub proof fn lemma_first_line(l: Seq<char>, rest: Seq<char>)
    requires
        forall|j: int| 0 <= j < l.len() ==> l[j] != '\n' && l[j] != '\r',
    ensures
        first_line(l + seq!['\r', '\n'] + rest) == l,
        first_line(l + seq!['\n'] + rest) == l,
        first_line(l) == l,
{
    let a = l + seq!['\r', '\n'] + rest;
    let b = l + seq!['\n'] + rest;
    assert forall|j: int| 0 <= j < l.len() + 1 implies a[j] != '\n' by {
        if j < l.len() {
            assert(a[j] == l[j]);
        }
    }
    crate::text::lemma_find_first_at(a, '\n', l.len() as int + 1);
    assert(a.take(l.len() as int + 1) =~= l.push('\r'));
    assert(l.push('\r').drop_last() =~= l);
    assert forall|j: int| 0 <= j < l.len() implies b[j] != '\n' by {
        assert(b[j] == l[j]);
    }
    crate::text::lemma_find_first_at(b, '\n', l.len() as int);
    assert(b.take(l.len() as int) =~= l);
    if l.len() > 0 {
        assert(l.last() == l[l.len() - 1]);
    }
    crate::text::lemma_find_first_none(l, '\n');
}

/// What the callback server does with one request.
pub enum CallbackRoute {
    /// A successful callback: answer with the success page, hand over the
    /// data and stop listening.
    Completed(OAuthCallbackData),
    /// A callback that reports a failure: answer with the failure page,
    /// showing the given message (`error_description`, else `error`) or a
    /// generic one when there is none, and stop listening.
    Failed(Option<String>),
    /// Anything else: answer 404 and keep listening.
    NotFound,
}

/// The contents of a `CallbackRoute`.
pub enum CallbackRouteView {
    Completed(CallbackFields),
    Failed(Option<Seq<char>>),
    NotFound,
}

impl View for CallbackRoute {
    type V = CallbackRouteView;

    open spec fn view(&self) -> CallbackRouteView {
        match self {
            CallbackRoute::Completed(d) => CallbackRouteView::Completed(d@),
            CallbackRoute::Failed(m) => CallbackRouteView::Failed(
                match m {
                    Some(s) => Some(s@),
                    None => None,
                },
            ),
            CallbackRoute::NotFound => CallbackRouteView::NotFound,
        }
    }
}

/// The message of a failed callback: `error_description`, else `error`,
/// from the text between the first and the second `?` of the target.
pub open spec fn failure_message(pq: Seq<char>) -> Option<Seq<char>> {
    let pieces = crate::query::split_on(pq, '?');
    if pieces.len() < 2 {
        None
    } else {
        let q = pieces[1];
        match query_param(q, "error_description"@) {
            Some(d) => Some(d),
            None => query_param(q, "error"@),
        }
    }
}

/// How the callback server answers the request text `r`.
pub open spec fn route_of(r: Seq<char>) -> CallbackRouteView {
    match get_target(first_line(r)) {
        None => CallbackRouteView::NotFound,
        Some(pq) => match callback_of(pq) {
            Some(c) => CallbackRouteView::Completed(c),
            None => if starts_with(pq, "/oauth/callback"@) || starts_with(pq, "/signin/callback"@) {
                CallbackRouteView::Failed(failure_message(pq))
            } else {
                CallbackRouteView::NotFound
            },
        },
    }
}

proof fn lemma_split_single(s: Seq<char>, sep: char)
    requires
        find_first(s, sep) is None,
    ensures
        crate::query::split_on(s, sep).len() == 1,
{
    crate::text::lemma_find_first(s, sep);
    crate::query::lemma_split_on_no_sep(s, sep);
}

proof fn lemma_split_second(s: Seq<char>, sep: char, i: int, end: int)
    requires
        find_first(s, sep) == Some(i),
        0 <= end <= s.skip(i + 1).len(),
        match find_first(s.skip(i + 1), sep) {
            Some(j) => end == j,
            None => end == s.skip(i + 1).len(),
        },
    ensures
        crate::query::split_on(s, sep).len() >= 2,
        crate::query::split_on(s, sep)[1] == s.skip(i + 1).take(end),
{
    crate::text::lemma_find_first(s, sep);
    let a = s.take(i);
    let b = s.skip(i + 1);
    assert(s =~= a.push(sep) + b);
    crate::query::lemma_split_on_concat(a, b, sep);
    crate::query::lemma_split_on_no_sep(a, sep);
    crate::text::lemma_find_first(b, sep);
    match find_first(b, sep) {
        Some(j) => {
            let b1 = b.take(j);
            let b2 = b.skip(j + 1);
            assert(b =~= b1.push(sep) + b2);
            crate::query::lemma_split_on_concat(b1, b2, sep);
            crate::query::lemma_split_on_no_sep(b1, sep);
        },
        None => {
            crate::query::lemma_split_on_no_sep(b, sep);
            assert(b.take(end) =~= b);
        },
    }
}

fn first_line_chars(r: &[char]) -> (res: Vec<char>)
    ensures
        res@ == first_line(r@),
{
    let found = find_char(r, '\n');
    proof {
        crate::text::lemma_find_first(r@, '\n');
    }
    match found {
        None => sub_chars(r, 0, r.len()),
        Some(k) => {
            if k > 0 && r[k - 1] == '\r' {
                let l = sub_chars(r, 0, k - 1);
                assert(l@ =~= r@.take(k as int).drop_last());
                l
            } else {
                sub_chars(r, 0, k)
            }
        },
    }
}

fn get_target_chars(line: &[char]) -> (res: Option<Vec<char>>)
    ensures
        match res {
            Some(t) => get_target(line@) == Some(t@),
            None => get_target(line@) is None,
        },
{
    let get = chars_of("GET ");
    if !chars_start_with(line, get.as_slice()) {
        return None;
    }
    proof {
        reveal_strlit("GET ");
        reveal_strlit(" HTTP/1.1");
        reveal_strlit(" HTTP/1.0");
    }
    let rest = sub_chars(line, 4, line.len());
    assert(rest@ =~= line@.skip(4));
    let v11 = chars_of(" HTTP/1.1");
    let v10 = chars_of(" HTTP/1.0");
    if chars_end_with(rest.as_slice(), v11.as_slice()) {
        Some(sub_chars(rest.as_slice(), 0, rest.len() - 9))
    } else if chars_end_with(rest.as_slice(), v10.as_slice()) {
        Some(sub_chars(rest.as_slice(), 0, rest.len() - 9))
    } else {
        None
    }
}

fn failure_message_chars(pq: &[char]) -> (res: Option<String>)
    ensures
        match res {
            Some(m) => failure_message(pq@) == Some(m@),
            None => failure_message(pq@) is None,
        },
{
    let len = pq.len();
    let first = find_char(pq, '?');
    proof {
        crate::text::lemma_find_first(pq@, '?');
    }
    let start = match first {
        Some(i) => {
            assert(i < len);
            i + 1
        },
        None => {
            proof {
                lemma_split_single(pq@, '?');
            }
            return None;
        },
    };
    let after = sub_chars(pq, start, len);
    let second = find_char(after.as_slice(), '?');
    proof {
        crate::text::lemma_find_first(after@, '?');
    }
    let end = match second {
        Some(j) => j,
        None => after.len(),
    };
    let q = sub_chars(after.as_slice(), 0, end);
    proof {
        lemma_split_second(pq@, '?', start - 1, end as int);
    }
    let params = parse_query_string(q.as_slice());
    let desc_key = chars_of("error_description");
    match query_get(&params, desc_key.as_slice()) {
        Some(d) => Some(string_from_chars(d.as_slice())),
        None => {
            let err_key = chars_of("error");
            match query_get(&params, err_key.as_slice()) {
                Some(e) => Some(string_from_chars(e.as_slice())),
                None => None,
            }
        },
    }
}

/// What the local callback server does with the (lossily decoded) text of
/// one incoming request: which page to answer with, whether it stops
/// listening, and the callback it hands over.
pub fn route_callback_request(request: &str) -> (res: CallbackRoute)
    ensures
        res@ == route_of(request@),
{
    let r = chars_of(request);
    let line = first_line_chars(r.as_slice());
    let target = match get_target_chars(line.as_slice()) {
        Some(t) => t,
        None => {
            return CallbackRoute::NotFound;
        },
    };
    match parse_callback_chars(target.as_slice()) {
        Some(d) => CallbackRoute::Completed(d),
        None => {
            let oauth = chars_of("/oauth/callback");
            let signin = chars_of("/signin/callback");
            if chars_start_with(target.as_slice(), oauth.as_slice()) || chars_start_with(
                target.as_slice(),
                signin.as_slice(),
            ) {
                CallbackRoute::Failed(failure_message_chars(target.as_slice()))
            } else {
                CallbackRoute::NotFound
            }
        },
    }
}


/// The portal URL the user opens in a browser to sign in.
pub open spec fn portal_url(state: Seq<char>, code_challenge: Seq<char>, redirect_uri: Seq<char>) -> Seq<char> {
    KIRO_PORTAL_URL@ + "/signin?"@ + "state="@ + url_encoded(state) + "&code_challenge="@
        + url_encoded(code_challenge) + "&code_challenge_method=S256&redirect_uri="@
        + url_encoded(redirect_uri) + "&redirect_from=KiroIDE"@
}

/// Builds the portal URL the user opens in a browser: the sign-in page with
/// the percent-encoded `state`, PKCE challenge (method `S256`) and redirect
/// URI.
pub fn build_portal_url(state: &str, code_challenge: &str, redirect_uri: &str) -> (res: String)
    ensures
        res@ == portal_url(state@, code_challenge@, redirect_uri@),
{
    let mut out = String::from_str(KIRO_PORTAL_URL);
    out.append("/signin?");
    out.append("state=");
    let s = url_encode(state);
    out.append(s.as_str());
    out.append("&code_challenge=");
    let c = url_encode(code_challenge);
    out.append(c.as_str());
    out.append("&code_challenge_method=S256&redirect_uri=");
    let r = url_encode(redirect_uri);
    out.append(r.as_str());
    out.append("&redirect_from=KiroIDE");
    out
}

/// The 32 verifier bytes made from 32 random bytes and the 16 bytes of a
/// random UUID: byte `i` is `random[i] + i` (wrapping) XOR `uuid[i % 16]`.
pub open spec fn mix_entropy(random: Seq<u8>, uuid: Seq<u8>) -> Seq<u8> {
    Seq::new(32, |i: int| (((random[i] + i) % 256) as u8) ^ uuid[i % 16])
}

/// The PKCE pair for the verifier bytes `bytes`: the verifier is their
/// unpadded URL-safe base64, the challenge the same encoding of the SHA-256
/// digest of the verifier's (UTF-8) bytes.
pub open spec fn pkce_pair(bytes: Seq<u8>) -> (Seq<char>, Seq<char>) {
    let verifier = base64url(bytes);
    (verifier, base64url(sha256_digest(encode_utf8(verifier))))
}

/// The PKCE verifier and challenge made from the given entropy.
pub fn pkce_from_entropy(random: &[u8], uuid: &[u8]) -> (res: (String, String))
    requires
        random@.len() == 32,
        uuid@.len() == 16,
    ensures
        (res.0@, res.1@) == pkce_pair(mix_entropy(random@, uuid@)),
        res.0@.len() == 43,
        res.1@.len() == 43,
{
    let mut bytes: Vec<u8> = Vec::new();
    let mut i: usize = 0;
    while i < 32
        invariant
            i <= 32,
            random@.len() == 32,
            uuid@.len() == 16,
            bytes@ == mix_entropy(random@, uuid@).take(i as int),
        decreases 32 - i,
    {
        let b = random[i].wrapping_add(i as u8) ^ uuid[i % 16];
        bytes.push(b);
        assert(bytes@ =~= mix_entropy(random@, uuid@).take(i + 1));
        i = i + 1;
    }
    assert(bytes@ =~= mix_entropy(random@, uuid@));
    let verifier = base64url_encode(bytes.as_slice());
    let digest = sha256(verifier.as_str().as_bytes());
    let challenge = base64url_encode(digest.as_slice());
    proof {
        lemma_base64url_shape(bytes@);
        lemma_base64url_shape(digest@);
    }
    (verifier, challenge)
}

/// Generates a fresh PKCE verifier and challenge from random bytes and a
/// random UUID. Whatever the randomness gave, the verifier is the unpadded
/// URL-safe base64 of 32 bytes (43 characters of the URL-safe alphabet) and
/// the challenge is the S256 transform of it.
pub fn generate_pkce() -> (res: (String, String))
    ensures
        exists|bytes: Seq<u8>| bytes.len() == 32 && (res.0@, res.1@) == pkce_pair(bytes),
        res.0@.len() == 43,
        res.1@.len() == 43,
        forall|i: int| 0 <= i < res.0@.len() ==> is_url_safe_char(#[trigger] res.0@[i]),
        forall|i: int| 0 <= i < res.1@.len() ==> is_url_safe_char(#[trigger] res.1@[i]),
        res.1@ == base64url(sha256_digest(encode_utf8(res.0@))),
{
    let mut random: Vec<u8> = Vec::new();
    let mut i: usize = 0;
    while i < 32
        invariant
            i <= 32,
            random@.len() == i,
        decreases 32 - i,
    {
        random.push(random_byte());
        i = i + 1;
    }
    let uuid = uuid_v4_bytes();
    let res = pkce_from_entropy(random.as_slice(), uuid.as_slice());
    proof {
        let bytes = mix_entropy(random@, uuid@);
        lemma_base64url_shape(bytes);
        lemma_base64url_shape(sha256_digest(encode_utf8(res.0@)));
    }
    res
}


/// `s` with every leading repetition of `p` removed, as
/// `str::trim_start_matches` gives it.
pub open spec fn trim_start_matches(s: Seq<char>, p: Seq<char>) -> Seq<char>
    decreases s.len(),
{
    if p.len() > 0 && starts_with(s, p) {
        trim_start_matches(s.skip(p.len() as int), p)
    } else {
        s
    }
}

fn trim_start_matches_chars(s: &[char], p: &[char]) -> (res: Vec<char>)
    ensures
        res@ == trim_start_matches(s@, p@),
{
    let n = s.len();
    let m = p.len();
    let mut i: usize = 0;
    assert(s@.skip(0) =~= s@);
    if m > 0 {
        while chars_start_with_at(s, i, p)
            invariant
                i <= n,
                n == s@.len(),
                m == p@.len(),
                m > 0,
                trim_start_matches(s@, p@) == trim_start_matches(s@.skip(i as int), p@),
            decreases n - i,
        {
            assert(s@.skip(i as int).skip(m as int) =~= s@.skip(i + m));
            i = i + m;
        }
    }
    let out = sub_chars(s, i, n);
    assert(out@ =~= s@.skip(i as int));
    out
}

/// The HTTP request that trades an authorization code for tokens.
pub struct TokenExchangeRequest {
    /// `<auth endpoint>/oauth/token`
    pub url: String,
    /// `KiroIDE-<version>`
    pub user_agent: String,
    /// The endpoint without its `https://` prefix.
    pub host: String,
    pub code: String,
    pub code_verifier: String,
    pub redirect_uri: String,
}

/// Everything the token exchange sends for the given authorization code:
/// the token URL, the `User-Agent` and `host` headers and the JSON body's
/// fields (the invitation code is always absent).
pub fn token_exchange_request(
    auth_endpoint: &str,
    code: &str,
    code_verifier: &str,
    full_redirect_uri: &str,
    kiro_version: &str,
) -> (res: TokenExchangeRequest)
    ensures
        res.url@ == auth_endpoint@ + "/oauth/token"@,
        res.user_agent@ == "KiroIDE-"@ + kiro_version@,
        res.host@ == trim_start_matches(auth_endpoint@, "https://"@),
        res.code@ == code@,
        res.code_verifier@ == code_verifier@,
        res.redirect_uri@ == full_redirect_uri@,
{
    let url = String::from_str(auth_endpoint).concat("/oauth/token");
    let user_agent = String::from_str("KiroIDE-").concat(kiro_version);
    let endpoint = chars_of(auth_endpoint);
    let scheme = chars_of("https://");
    let host_chars = trim_start_matches_chars(endpoint.as_slice(), scheme.as_slice());
    TokenExchangeRequest {
        url,
        user_agent,
        host: string_from_chars(host_chars.as_slice()),
        code: String::from_str(code),
        code_verifier: String::from_str(code_verifier),
        redirect_uri: String::from_str(full_redirect_uri),
    }
}


/// The page shown after a successful sign-in.
pub open spec fn success_page() -> Seq<char> {
    "<html><head><meta charset='utf-8'><title>登录成功</title></head><body style='font-family:sans-serif;text-align:center;padding:60px'><h2>&#10003; 登录成功</h2><p>Token 已更新，请返回 Kiro Admin UI。</p><p style='color:#888;font-size:13px'>此标签页可以关闭。</p></body></html>"@
}

/// The page shown after a failed sign-in, with its message.
pub open spec fn failure_page(message: Seq<char>) -> Seq<char> {
    "<html><head><meta charset='utf-8'><title>登录失败</title></head><body style='font-family:sans-serif;text-align:center;padding:60px'><h2>&#10007; 登录失败</h2><p>"@
        + message + "</p><p style='color:#888;font-size:13px'>请关闭此标签页并重试。</p></body></html>"@
}

/// The message of a failed sign-in that names no error.
pub open spec fn unknown_error() -> Seq<char> {
    "未知错误"@
}

/// A `200 OK` HTML reply carrying `body`, its `Content-Length` the number of
/// UTF-8 bytes of `body` (as `str::len` reports it).
pub open spec fn html_reply(body: Seq<char>) -> Seq<char> {
    "HTTP/1.1 200 OK\r\nContent-Type: text/html; charset=utf-8\r\nContent-Length: "@ + decimal(
        (encode_utf8(body).len() as usize) as nat,
    ) + "\r\nConnection: close\r\n\r\n"@ + body
}

/// The reply to any request that is no callback.
pub open spec fn not_found_reply() -> Seq<char> {
    "HTTP/1.1 404 Not Found\r\nContent-Length: 0\r\n\r\n"@
}

/// The reply the callback server sends for a route.
pub open spec fn reply_of(route: CallbackRouteView) -> Seq<char> {
    match route {
        CallbackRouteView::Completed(_) => html_reply(success_page()),
        CallbackRouteView::Failed(m) => html_reply(
            failure_page(
                match m {
                    Some(t) => t,
                    None => unknown_error(),
                },
            ),
        ),
        CallbackRouteView::NotFound => not_found_reply(),
    }
}

/// A `200 OK` HTML reply carrying `body`.
pub fn html_response(body: &str) -> (res: String)
    ensures
        res@ == html_reply(body@),
{
    let len = body.len();
    let mut out = String::from_str(
        "HTTP/1.1 200 OK\r\nContent-Type: text/html; charset=utf-8\r\nContent-Length: ",
    );
    let n = decimal_string(len as u64);
    out.append(n.as_str());
    out.append("\r\nConnection: close\r\n\r\n");
    out.append(body);
    out
}

/// The reply the callback server sends for `route`.
pub fn callback_reply(route: &CallbackRoute) -> (res: String)
    ensures
        res@ == reply_of(route@),
{
    match route {
        CallbackRoute::Completed(_) => html_response(
            "<html><head><meta charset='utf-8'><title>登录成功</title></head><body style='font-family:sans-serif;text-align:center;padding:60px'><h2>&#10003; 登录成功</h2><p>Token 已更新，请返回 Kiro Admin UI。</p><p style='color:#888;font-size:13px'>此标签页可以关闭。</p></body></html>",
        ),
        CallbackRoute::Failed(m) => {
            let mut page = String::from_str(
                "<html><head><meta charset='utf-8'><title>登录失败</title></head><body style='font-family:sans-serif;text-align:center;padding:60px'><h2>&#10007; 登录失败</h2><p>",
            );
            match m {
                Some(t) => page.append(t.as_str()),
                None => page.append("未知错误"),
            }
            page.append("</p><p style='color:#888;font-size:13px'>请关闭此标签页并重试。</p></body></html>");
            html_response(page.as_str())
        },
        CallbackRoute::NotFound => String::from_str("HTTP/1.1 404 Not Found\r\nContent-Length: 0\r\n\r\n"),
    }
}

/// What the callback server does with one request.
pub struct CallbackStep {
    /// The bytes to write back.
    pub reply: String,
    /// The callback to hand over, if the request completed the sign-in.
    pub handover: Option<OAuthCallbackData>,
    /// Whether the server stops listening after replying.
    pub finished: bool,
}

/// Whether a route ends the server's listening.
pub open spec fn route_stops(route: CallbackRouteView) -> bool {
    !(route is NotFound)
}

/// Handles the text of one request: the reply, the callback to hand over
/// and whether to stop.
pub fn handle_callback_request(request: &str) -> (res: CallbackStep)
    ensures
        res.reply@ == reply_of(route_of(request@)),
        res.finished == route_stops(route_of(request@)),
        match route_of(request@) {
            CallbackRouteView::Completed(c) => res.handover matches Some(d) && d@ == c,
            _ => res.handover is None,
        },
{
    let route = route_callback_request(request);
    let reply = callback_reply(&route);
    match route {
        CallbackRoute::Completed(d) => CallbackStep { reply, handover: Some(d), finished: true },
        CallbackRoute::Failed(_) => CallbackStep { reply, handover: None, finished: true },
        CallbackRoute::NotFound => CallbackStep { reply, handover: None, finished: false },
    }
}

/// What the server does with requests arriving one after another: the
/// replies it writes, up to and including the first one that stops it, and
/// the callback it hands over (at most one).
pub open spec fn serve(requests: Seq<Seq<char>>) -> (Seq<Seq<char>>, Option<CallbackFields>)
    decreases requests.len(),
{
    if requests.len() == 0 {
        (seq![], None)
    } else {
        let route = route_of(requests[0]);
        match route {
            CallbackRouteView::Completed(c) => (seq![reply_of(route)], Some(c)),
            CallbackRouteView::Failed(_) => (seq![reply_of(route)], None),
            CallbackRouteView::NotFound => {
                let (rest, sent) = serve(requests.drop_first());
                (seq![not_found_reply()] + rest, sent)
            },
        }
    }
}

/// Requests before the first stopping one get a 404 and nothing is handed
/// over for them; the first stopping request (if any) gets its 200 page,
/// ends the serving, and hands over its callback exactly when it completed
/// the sign-in.
pub proof fn lemma_serve(requests: Seq<Seq<char>>, k: int)
    requires
        0 <= k <= requests.len(),
        forall|i: int| 0 <= i < k ==> !route_stops(#[trigger] route_of(requests[i])),
        k < requests.len() ==> route_stops(route_of(requests[k])),
    ensures
        serve(requests).0.len() == if k < requests.len() {
            k + 1
        } else {
            k
        },
        forall|i: int| 0 <= i < k ==> #[trigger] serve(requests).0[i] == not_found_reply(),
        k < requests.len() ==> serve(requests).0[k] == reply_of(route_of(requests[k])),
        serve(requests).1 == if k < requests.len() {
            match route_of(requests[k]) {
                CallbackRouteView::Completed(c) => Some(c),
                _ => None,
            }
        } else {
            None::<CallbackFields>
        },
    decreases requests.len(),
{
    if requests.len() > 0 && k > 0 {
        assert forall|i: int| 0 <= i < k - 1 implies !route_stops(
            #[trigger] route_of(requests.drop_first()[i]),
        ) by {
            assert(requests.drop_first()[i] == requests[i + 1]);
            assert(!route_stops(route_of(requests[i + 1])));
        }
        assert(!route_stops(route_of(requests[0])));
        if k - 1 < requests.drop_first().len() {
            assert(requests.drop_first()[k - 1] == requests[k]);
        }
        lemma_serve(requests.drop_first(), k - 1);
        let (rest, sent) = serve(requests.drop_first());
        assert forall|i: int| 0 <= i < k implies #[trigger] serve(requests).0[i] == not_found_reply() by {
            if i > 0 {
                assert(serve(requests).0[i] == rest[i - 1]);
            }
        }
        if k < requests.len() {
            assert(serve(requests).0[k] == rest[k - 1]);
        }
    }
}

/// The error a token exchange ends with when the auth service answers with
/// a status outside 200..=299: the status (as displayed, such as
/// `400 Bad Request`) and the response body; `None` for a success status,
/// whose body is then read as the token response.
pub fn token_exchange_failure(status_code: u16, status_text: &str, body: &str) -> (res: Option<String>)
    ensures
        (200 <= status_code <= 299) <==> res is None,
        res matches Some(m) ==> m@ == "Social token 交换失败 "@ + status_text@ + ": "@ + body@,
{
    if 200 <= status_code && status_code <= 299 {
        None
    } else {
        let mut m = String::from_str("Social token 交换失败 ");
        m.append(status_text);
        m.append(": ");
        m.append(body);
        Some(m)
    }
}

} // verus!
