//! The proxy pool: proxies an administrator registers by URL, each with an
//! id, an optional label and an enabled flag, kept apart from credentials.

use vstd::prelude::*;

use crate::text::{
    chars_of, chars_start_with, find_char, find_first, lemma_find_first, starts_with,
    string_from_chars, sub_chars, trim, trim_chars, decimal, decimal_string,
};

verus! {

/// The value an entry's `enabled` flag takes when the stored entry omits it.
pub fn default_true() -> (res: bool)
    ensures
        res,
{
    true
}

/// Why a proxy URL is refused.
#[derive(Debug, Clone, Copy, PartialEq, Eq, Structural)]
pub enum ProxyUrlError {
    /// The scheme is none of `http://`, `https://`, `socks5://`, `socks4://`.
    InvalidScheme,
    /// The host part (after the scheme and any `user:pass@`) has no `:port`.
    MissingPort,
}

/// The length of the accepted scheme that `u` begins with, if any.
pub open spec fn scheme_len(u: Seq<char>) -> Option<int> {
    if starts_with(u, "http://"@) {
        Some(7)
    } else if starts_with(u, "https://"@) {
        Some(8)
    } else if starts_with(u, "socks5://"@) {
        Some(9)
    } else if starts_with(u, "socks4://"@) {
        Some(9)
    } else {
        None
    }
}

/// Index of the last occurrence of `c` in `s`.
pub open spec fn find_last(s: Seq<char>, c: char) -> Option<int>
    decreases s.len(),
{
    if s.len() == 0 {
        None
    } else if s.last() == c {
        Some(s.len() - 1)
    } else {
        find_last(s.drop_last(), c)
    }
}

proof fn lemma_find_last_bounds(s: Seq<char>, c: char)
    ensures
        find_last(s, c) matches Some(k) ==> 0 <= k < s.len() && s[k] == c,
    decreases s.len(),
{
    if s.len() > 0 && s.last() != c {
        lemma_find_last_bounds(s.drop_last(), c);
    }
}

/// `find_last` gives the largest index holding `c`, or `None` when none
/// does.
proof fn lemma_find_last(s: Seq<char>, c: char)
    ensures
        find_last(s, c) matches Some(k) ==> 0 <= k < s.len() && s[k] == c && forall|j: int|
            k < j < s.len() ==> s[j] != c,
        find_last(s, c) is None ==> forall|j: int| 0 <= j < s.len() ==> s[j] != c,
    decreases s.len(),
{
    if s.len() > 0 && s.last() != c {
        lemma_find_last(s.drop_last(), c);
        assert forall|j: int| 0 <= j < s.len() - 1 implies s[j] == s.drop_last()[j] by {}
    }
}

/// After an accepted scheme, whatever the rest `h` of the URL: the port
/// check reads `h` alone (never the scheme's own `:`), accepting exactly
/// when some `:` in `h` comes after every `@` (the end of `user:pass@`).
/// A URL starting with none of the four schemes is refused for its scheme.
pub proof fn lemma_proxy_url_port(h: Seq<char>)
    ensures
        ({
            let verdict = if exists|j: int|
                0 <= j < h.len() && h[j] == ':' && forall|k: int| j < k < h.len() ==> h[k] != '@' {
                Ok::<(), ProxyUrlError>(())
            } else {
                Err(ProxyUrlError::MissingPort)
            };
            &&& proxy_url_check("http://"@ + h) == verdict
            &&& proxy_url_check("https://"@ + h) == verdict
            &&& proxy_url_check("socks5://"@ + h) == verdict
            &&& proxy_url_check("socks4://"@ + h) == verdict
        }),
        (forall|j: int| 0 <= j < h.len() ==> h[j] != ':') ==> {
            &&& proxy_url_check("http://"@ + h) == Err::<(), ProxyUrlError>(ProxyUrlError::MissingPort)
            &&& proxy_url_check("https://"@ + h) == Err::<(), ProxyUrlError>(ProxyUrlError::MissingPort)
            &&& proxy_url_check("socks5://"@ + h) == Err::<(), ProxyUrlError>(ProxyUrlError::MissingPort)
            &&& proxy_url_check("socks4://"@ + h) == Err::<(), ProxyUrlError>(ProxyUrlError::MissingPort)
        },
{
    reveal_strlit("http://");
    reveal_strlit("https://");
    reveal_strlit("socks5://");
    reveal_strlit("socks4://");
    lemma_host_port(h);
    lemma_scheme_prefix("http://"@, h);
    lemma_scheme_prefix("https://"@, h);
    lemma_scheme_prefix("socks5://"@, h);
    lemma_scheme_prefix("socks4://"@, h);
    assert(("http://"@ + h).take(7) =~= "http://"@);
    assert(("https://"@ + h).take(7) != "http://"@) by {
        assert(("https://"@ + h).take(7)[4] != "http://"@[4]);
    }
    assert(("https://"@ + h).take(8) =~= "https://"@);
    assert(("socks5://"@ + h).take(7) != "http://"@) by {
        assert(("socks5://"@ + h).take(7)[0] != "http://"@[0]);
    }
    assert(("socks5://"@ + h).take(8) != "https://"@) by {
        assert(("socks5://"@ + h).take(8)[0] != "https://"@[0]);
    }
    assert(("socks5://"@ + h).take(9) =~= "socks5://"@);
    assert(("socks4://"@ + h).take(7) != "http://"@) by {
        assert(("socks4://"@ + h).take(7)[0] != "http://"@[0]);
    }
    assert(("socks4://"@ + h).take(8) != "https://"@) by {
        assert(("socks4://"@ + h).take(8)[0] != "https://"@[0]);
    }
    assert(("socks4://"@ + h).take(9) != "socks5://"@) by {
        assert(("socks4://"@ + h).take(9)[5] != "socks5://"@[5]);
    }
    assert(("socks4://"@ + h).take(9) =~= "socks4://"@);
}

proof fn lemma_scheme_prefix(p: Seq<char>, h: Seq<char>)
    ensures
        (p + h).skip(p.len() as int) == h,
{
    assert((p + h).skip(p.len() as int) =~= h);
}

/// The host part of `h` has a `:` exactly when some `:` of `h` follows
/// every `@`.
proof fn lemma_host_port(h: Seq<char>)
    ensures
        find_first(host_part(h), ':') is Some <==> exists|j: int|
            0 <= j < h.len() && h[j] == ':' && forall|k: int| j < k < h.len() ==> h[k] != '@',
{
    lemma_find_last(h, '@');
    let hp = host_part(h);
    lemma_find_first(hp, ':');
    match find_last(h, '@') {
        Some(a) => {
            if let Some(i) = find_first(hp, ':') {
                assert(h[a + 1 + i] == hp[i]);
                assert forall|k: int| a + 1 + i < k < h.len() implies h[k] != '@' by {}
            }
            if exists|j: int|
                0 <= j < h.len() && h[j] == ':' && forall|k: int| j < k < h.len() ==> h[k] != '@' {
                let j = choose|j: int|
                    0 <= j < h.len() && h[j] == ':' && forall|k: int| j < k < h.len() ==> h[k] != '@';
                assert(j > a) by {
                    if j < a {
                        assert(h[a] == '@');
                    }
                }
                assert(hp[j - a - 1] == h[j]);
            }
        },
        None => {
            if let Some(i) = find_first(hp, ':') {
                assert(h[i] == ':');
            }
            if exists|j: int|
                0 <= j < h.len() && h[j] == ':' && forall|k: int| j < k < h.len() ==> h[k] != '@' {
                let j = choose|j: int|
                    0 <= j < h.len() && h[j] == ':' && forall|k: int| j < k < h.len() ==> h[k] != '@';
                assert(hp[j] == ':');
            }
        },
    }
}

/// The host part of what follows the scheme: the text after the last `@`
/// (which ends any `user:pass@`), or all of it.
pub open spec fn host_part(after_scheme: Seq<char>) -> Seq<char> {
    match find_last(after_scheme, '@') {
        Some(k) => after_scheme.skip(k + 1),
        None => after_scheme,
    }
}

/// The verdict on a proxy URL: an accepted scheme, and a `:` (the port) in
/// the host part.
pub open spec fn proxy_url_check(u: Seq<char>) -> Result<(), ProxyUrlError> {
    match scheme_len(u) {
        None => Err(ProxyUrlError::InvalidScheme),
        Some(n) => if find_first(host_part(u.skip(n)), ':') is Some {
            Ok(())
        } else {
            Err(ProxyUrlError::MissingPort)
        },
    }
}

fn find_last_char(s: &[char], c: char) -> (res: Option<usize>)
    ensures
        match res {
            Some(k) => find_last(s@, c) == Some(k as int),
            None => find_last(s@, c) is None,
        },
{
    let mut i: usize = s.len();
    assert(s@.take(i as int) =~= s@);
    while i > 0
        invariant
            i <= s@.len(),
            find_last(s@, c) == find_last(s@.take(i as int), c),
        decreases i,
    {
        let ghost t = s@.take(i as int);
        if s[i - 1] == c {
            assert(t.last() == c);
            return Some(i - 1);
        }
        assert(t.drop_last() =~= s@.take(i - 1));
        i = i - 1;
    }
    None
}

fn check_proxy_url_chars(u: &[char]) -> (res: Result<(), ProxyUrlError>)
    ensures
        res == proxy_url_check(u@),
{
    let http = chars_of("http://");
    let https = chars_of("https://");
    let socks5 = chars_of("socks5://");
    let socks4 = chars_of("socks4://");
    proof {
        reveal_strlit("http://");
        reveal_strlit("https://");
        reveal_strlit("socks5://");
        reveal_strlit("socks4://");
    }
    let n: usize = if chars_start_with(u, http.as_slice()) {
        7
    } else if chars_start_with(u, https.as_slice()) {
        8
    } else if chars_start_with(u, socks5.as_slice()) {
        9
    } else if chars_start_with(u, socks4.as_slice()) {
        9
    } else {
        return Err(ProxyUrlError::InvalidScheme);
    };
    let after = sub_chars(u, n, u.len());
    assert(after@ =~= u@.skip(n as int));
    let at = find_last_char(after.as_slice(), '@');
    proof {
        lemma_find_last_bounds(after@, '@');
    }
    let alen = after.len();
    let host = match at {
        Some(k) => {
            assert(k < alen);
            let h = sub_chars(after.as_slice(), k + 1, alen);
            assert(h@ =~= after@.skip(k + 1));
            h
        },
        None => after,
    };
    match find_char(host.as_slice(), ':') {
        Some(_) => Ok(()),
        None => Err(ProxyUrlError::MissingPort),
    }
}

/// Checks that a proxy URL has one of the schemes `http://`, `https://`,
/// `socks5://`, `socks4://` and a port after the host (after `user:pass@`
/// when there is one).
pub fn validate_proxy_url(url: &str) -> (res: Result<(), ProxyUrlError>)
    ensures
        res == proxy_url_check(url@),
{
    let u = chars_of(url);
    check_proxy_url_chars(u.as_slice())
}


/// A stored proxy.
#[derive(Debug, Clone)]
pub struct ProxyEntry {
    pub id: u64,
    pub url: String,
    pub label: Option<String>,
    pub enabled: bool,
}

/// The contents of a `ProxyEntry`.
pub struct ProxyRecord {
    pub id: u64,
    pub url: Seq<char>,
    pub label: Option<Seq<char>>,
    pub enabled: bool,
}

/// The view of an optional string.
pub open spec fn opt_view(o: Option<String>) -> Option<Seq<char>> {
    match o {
        Some(s) => Some(s@),
        None => None,
    }
}

impl View for ProxyEntry {
    type V = ProxyRecord;

    open spec fn view(&self) -> ProxyRecord {
        ProxyRecord { id: self.id, url: self.url@, label: opt_view(self.label), enabled: self.enabled }
    }
}

/// The contents of a list of entries.
pub open spec fn records(v: Seq<ProxyEntry>) -> Seq<ProxyRecord> {
    v.map_values(|e: ProxyEntry| e@)
}

fn copy_string(s: &String) -> (res: String)
    ensures
        res@ == s@,
{
    s.clone()
}

fn copy_entry(e: &ProxyEntry) -> (res: ProxyEntry)
    ensures
        res@ == e@,
{
    let label = match &e.label {
        Some(l) => Some(copy_string(l)),
        None => None,
    };
    ProxyEntry { id: e.id, url: copy_string(&e.url), label, enabled: e.enabled }
}

/// What looking up a proxy's URL by id finds.
pub enum GetUrlResult {
    /// The proxy exists and is enabled: its URL.
    Url(String),
    /// No proxy has this id.
    NotFound,
    /// The proxy exists but is disabled.
    Disabled,
}

/// The contents of a `GetUrlResult`.
pub enum UrlLookup {
    Url(Seq<char>),
    NotFound,
    Disabled,
}

impl View for GetUrlResult {
    type V = UrlLookup;

    open spec fn view(&self) -> UrlLookup {
        match self {
            GetUrlResult::Url(u) => UrlLookup::Url(u@),
            GetUrlResult::NotFound => UrlLookup::NotFound,
            GetUrlResult::Disabled => UrlLookup::Disabled,
        }
    }
}

/// Why a pool operation is refused.
#[derive(Debug, Clone)]
pub enum ProxyPoolError {
    /// The URL is empty (after trimming).
    EmptyUrl,
    /// The URL (trimmed, given here) fails validation.
    InvalidUrl(ProxyUrlError, String),
    /// A proxy with this URL (trimmed, given here) is already in the pool.
    DuplicateUrl(String),
    /// No proxy has this id.
    NotFound(u64),
}

/// The contents of a `ProxyPoolError`.
pub enum PoolFault {
    EmptyUrl,
    InvalidUrl(ProxyUrlError, Seq<char>),
    DuplicateUrl(Seq<char>),
    NotFound(u64),
}

impl View for ProxyPoolError {
    type V = PoolFault;

    open spec fn view(&self) -> PoolFault {
        match self {
            ProxyPoolError::EmptyUrl => PoolFault::EmptyUrl,
            ProxyPoolError::InvalidUrl(k, u) => PoolFault::InvalidUrl(*k, u@),
            ProxyPoolError::DuplicateUrl(u) => PoolFault::DuplicateUrl(u@),
            ProxyPoolError::NotFound(id) => PoolFault::NotFound(*id),
        }
    }
}

/// The text an administrator sees for a refusal.
pub open spec fn fault_message(f: PoolFault) -> Seq<char> {
    match f {
        PoolFault::EmptyUrl => "代理 URL 不能为空"@,
        PoolFault::InvalidUrl(ProxyUrlError::InvalidScheme, u) => "代理 URL scheme 无效，支持: http/https/socks4/socks5（收到: "@
            + u + "）"@,
        PoolFault::InvalidUrl(ProxyUrlError::MissingPort, u) => "代理 URL 缺少端口号: "@ + u,
        PoolFault::DuplicateUrl(u) => "代理 URL 已存在: "@ + u,
        PoolFault::NotFound(id) => "代理不存在: "@ + decimal(id as nat),
    }
}

impl ProxyPoolError {
    /// The text an administrator sees for this refusal.
    pub fn message(&self) -> (res: String)
        ensures
            res@ == fault_message(self@),
    {
        match self {
            ProxyPoolError::EmptyUrl => String::from_str("代理 URL 不能为空"),
            ProxyPoolError::InvalidUrl(ProxyUrlError::InvalidScheme, u) => {
                let mut m = String::from_str("代理 URL scheme 无效，支持: http/https/socks4/socks5（收到: ");
                m.append(u.as_str());
                m.append("）");
                m
            },
            ProxyPoolError::InvalidUrl(ProxyUrlError::MissingPort, u) => String::from_str(
                "代理 URL 缺少端口号: ",
            ).concat(u.as_str()),
            ProxyPoolError::DuplicateUrl(u) => String::from_str("代理 URL 已存在: ").concat(u.as_str()),
            ProxyPoolError::NotFound(id) => {
                let d = decimal_string(*id);
                String::from_str("代理不存在: ").concat(d.as_str())
            },
        }
    }
}

/// The contents of a list of strings.
pub open spec fn string_views(v: Seq<String>) -> Seq<Seq<char>> {
    v.map_values(|s: String| s@)
}

/// The contents of a list of errors.
pub open spec fn faults(v: Seq<ProxyPoolError>) -> Seq<PoolFault> {
    v.map_values(|e: ProxyPoolError| e@)
}

/// The state of the pool: its entries in insertion order and the id the next
/// added proxy receives.
pub struct PoolState {
    pub entries: Seq<ProxyRecord>,
    pub next_id: u64,
}

/// Whether some entry has the URL `u`.
pub open spec fn has_url(entries: Seq<ProxyRecord>, u: Seq<char>) -> bool {
    exists|i: int| 0 <= i < entries.len() && #[trigger] entries[i].url == u
}

/// Whether some entry has the id `id`.
pub open spec fn has_id(entries: Seq<ProxyRecord>, id: u64) -> bool {
    exists|i: int| 0 <= i < entries.len() && #[trigger] entries[i].id == id
}

/// The id after `n`, wrapping to 0 past `u64::MAX` as the id counter does.
pub open spec fn next_after(n: u64) -> u64 {
    if n == u64::MAX {
        0
    } else {
        (n + 1) as u64
    }
}

/// The position of the first entry with id `id`.
pub open spec fn first_with_id(entries: Seq<ProxyRecord>, id: u64) -> Option<int>
    decreases entries.len(),
{
    if entries.len() == 0 {
        None
    } else if entries[0].id == id {
        Some(0)
    } else {
        match first_with_id(entries.drop_first(), id) {
            Some(i) => Some(i + 1),
            None => None,
        }
    }
}

/// `first_with_id` is the smallest position holding the id, or `None` when
/// none does.
pub proof fn lemma_first_with_id(entries: Seq<ProxyRecord>, id: u64)
    ensures
        first_with_id(entries, id) matches Some(i) ==> 0 <= i < entries.len() && entries[i].id
            == id && forall|j: int| 0 <= j < i ==> entries[j].id != id,
        first_with_id(entries, id) is None ==> forall|j: int|
            0 <= j < entries.len() ==> entries[j].id != id,
    decreases entries.len(),
{
    if entries.len() > 0 && entries[0].id != id {
        lemma_first_with_id(entries.drop_first(), id);
        assert forall|j: int| 1 <= j < entries.len() implies entries[j] == entries.drop_first()[j
            - 1] by {}
    }
}

/// The smallest position holding the id determines `first_with_id`.
pub proof fn lemma_first_with_id_at(entries: Seq<ProxyRecord>, id: u64, i: int)
    requires
        0 <= i < entries.len(),
        entries[i].id == id,
        forall|j: int| 0 <= j < i ==> entries[j].id != id,
    ensures
        first_with_id(entries, id) == Some(i),
    decreases entries.len(),
{
    if i > 0 {
        assert forall|j: int| 0 <= j < i - 1 implies entries.drop_first()[j].id != id by {
            assert(entries.drop_first()[j] == entries[j + 1]);
        }
        lemma_first_with_id_at(entries.drop_first(), id, i - 1);
    }
}

/// No position holds the id, so `first_with_id` is `None`.
pub proof fn lemma_first_with_id_none(entries: Seq<ProxyRecord>, id: u64)
    requires
        forall|j: int| 0 <= j < entries.len() ==> entries[j].id != id,
    ensures
        first_with_id(entries, id) is None,
    decreases entries.len(),
{
    if entries.len() > 0 {
        assert forall|j: int| 0 <= j < entries.drop_first().len() implies entries.drop_first()[j].id
            != id by {
            assert(entries.drop_first()[j] == entries[j + 1]);
        }
        lemma_first_with_id_none(entries.drop_first(), id);
    }
}

/// What `get_url` answers for `id`.
pub open spec fn url_of(entries: Seq<ProxyRecord>, id: u64) -> UrlLookup {
    match first_with_id(entries, id) {
        None => UrlLookup::NotFound,
        Some(i) => if !entries[i].enabled {
            UrlLookup::Disabled
        } else {
            UrlLookup::Url(entries[i].url)
        },
    }
}

/// The entries without those whose id is `id`.
pub open spec fn without_id(entries: Seq<ProxyRecord>, id: u64) -> Seq<ProxyRecord>
    decreases entries.len(),
{
    if entries.len() == 0 {
        seq![]
    } else {
        let rest = without_id(entries.drop_last(), id);
        if entries.last().id == id {
            rest
        } else {
            rest.push(entries.last())
        }
    }
}

/// Deleting by id keeps exactly the entries whose id differs, in their
/// order: `without_id` is the filter on "id is not `id`".
pub proof fn lemma_without_id_is_filter(entries: Seq<ProxyRecord>, id: u64)
    ensures
        without_id(entries, id) == entries.filter(|r: ProxyRecord| r.id != id),
    decreases entries.len(),
{
    reveal(Seq::filter);
    if entries.len() > 0 {
        lemma_without_id_is_filter(entries.drop_last(), id);
    }
}

/// The outcome of adding the URL `url` (as given, before trimming) with
/// `label` to the pool `pool`: the new state and the added entry or the
/// refusal. The URL is trimmed; an empty one, one that fails validation, and
/// one already in the pool are refused; otherwise the entry gets the next id
/// and is enabled.
pub open spec fn add_outcome(pool: PoolState, url: Seq<char>, label: Option<Seq<char>>) -> (
    PoolState,
    Result<ProxyRecord, PoolFault>,
) {
    let u = trim(url);
    if u.len() == 0 {
        (pool, Err(PoolFault::EmptyUrl))
    } else {
        match proxy_url_check(u) {
            Err(k) => (pool, Err(PoolFault::InvalidUrl(k, u))),
            Ok(_) => if has_url(pool.entries, u) {
                (pool, Err(PoolFault::DuplicateUrl(u)))
            } else {
                let r = ProxyRecord { id: pool.next_id, url: u, label, enabled: true };
                (PoolState { entries: pool.entries.push(r), next_id: next_after(pool.next_id) }, Ok(r))
            },
        }
    }
}

/// What one line of a batch does.
pub enum BatchItem {
    /// Blank, or a `#` comment: ignored.
    Skipped,
    Added(ProxyRecord),
    Rejected(PoolFault),
}

/// The outcome of one line of a batch: like `add_outcome` without a label,
/// except that blank lines and lines starting with `#` (after trimming) are
/// skipped silently.
pub open spec fn batch_step(pool: PoolState, url: Seq<char>) -> (PoolState, BatchItem) {
    let u = trim(url);
    if u.len() == 0 || starts_with(u, "#"@) {
        (pool, BatchItem::Skipped)
    } else {
        match proxy_url_check(u) {
            Err(k) => (pool, BatchItem::Rejected(PoolFault::InvalidUrl(k, u))),
            Ok(_) => if has_url(pool.entries, u) {
                (pool, BatchItem::Rejected(PoolFault::DuplicateUrl(u)))
            } else {
                let r = ProxyRecord { id: pool.next_id, url: u, label: None, enabled: true };
                (
                    PoolState { entries: pool.entries.push(r), next_id: next_after(pool.next_id) },
                    BatchItem::Added(r),
                )
            },
        }
    }
}

/// The outcome of a batch of lines taken in order: the final state, the
/// entries added and the refusals, each in line order.
pub open spec fn batch_outcome(pool: PoolState, urls: Seq<Seq<char>>) -> (
    PoolState,
    Seq<ProxyRecord>,
    Seq<PoolFault>,
)
    decreases urls.len(),
{
    if urls.len() == 0 {
        (pool, seq![], seq![])
    } else {
        let (p, added, errors) = batch_outcome(pool, urls.drop_last());
        let (p2, item) = batch_step(p, urls.last());
        match item {
            BatchItem::Skipped => (p2, added, errors),
            BatchItem::Added(r) => (p2, added.push(r), errors),
            BatchItem::Rejected(f) => (p2, added, errors.push(f)),
        }
    }
}

/// The largest id among the entries, 0 when there are none.
pub open spec fn max_id(entries: Seq<ProxyRecord>) -> u64
    decreases entries.len(),
{
    if entries.len() == 0 {
        0
    } else {
        let m = max_id(entries.drop_last());
        if entries.last().id > m {
            entries.last().id
        } else {
            m
        }
    }
}

/// The proxy pool.
pub struct ProxyPoolManager {
    entries: Vec<ProxyEntry>,
    next_id: u64,
}

impl View for ProxyPoolManager {
    type V = PoolState;

    closed spec fn view(&self) -> PoolState {
        PoolState { entries: records(self.entries@), next_id: self.next_id }
    }
}


/// The contents of an `add` result.
pub open spec fn added_view(r: Result<ProxyEntry, ProxyPoolError>) -> Result<ProxyRecord, PoolFault> {
    match r {
        Ok(e) => Ok(e@),
        Err(f) => Err(f@),
    }
}

/// The contents of a unit result.
pub open spec fn unit_view(r: Result<(), ProxyPoolError>) -> Result<(), PoolFault> {
    match r {
        Ok(_) => Ok(()),
        Err(f) => Err(f@),
    }
}

proof fn lemma_has_id_push(s: Seq<ProxyRecord>, r: ProxyRecord, id: u64)
    ensures
        has_id(s.push(r), id) == (has_id(s, id) || r.id == id),
{
    if has_id(s, id) {
        let j = choose|j: int| 0 <= j < s.len() && #[trigger] s[j].id == id;
        assert(s.push(r)[j] == s[j]);
    }
    if r.id == id {
        assert(s.push(r)[s.len() as int] == r);
    }
    if has_id(s.push(r), id) {
        let j = choose|j: int| 0 <= j < s.push(r).len() && #[trigger] s.push(r)[j].id == id;
        if j < s.len() {
            assert(s.push(r)[j] == s[j]);
        }
    }
}

/// Some entry holds the largest id.
pub proof fn lemma_max_id_attained(entries: Seq<ProxyRecord>)
    requires
        entries.len() > 0,
    ensures
        exists|i: int| 0 <= i < entries.len() && entries[i].id == max_id(entries),
    decreases entries.len(),
{
    let k = entries.len() - 1;
    assert(entries.last() == entries[k]);
    if entries.len() == 1 {
        assert(max_id(entries.drop_last()) == 0);
        assert(entries[k].id == max_id(entries));
    } else {
        lemma_max_id_attained(entries.drop_last());
        let i = choose|i: int| 0 <= i < entries.drop_last().len() && entries.drop_last()[i].id
            == max_id(entries.drop_last());
        assert(entries[i] == entries.drop_last()[i]);
        if entries.last().id > max_id(entries.drop_last()) {
            assert(entries[k].id == max_id(entries));
        } else {
            assert(entries[i].id == max_id(entries));
        }
    }
}

/// Every id is at most `max_id`.
pub proof fn lemma_max_id_bound(entries: Seq<ProxyRecord>)
    ensures
        forall|i: int| 0 <= i < entries.len() ==> entries[i].id <= max_id(entries),
    decreases entries.len(),
{
    if entries.len() > 0 {
        lemma_max_id_bound(entries.drop_last());
        assert forall|i: int| 0 <= i < entries.len() implies entries[i].id <= max_id(entries) by {
            if i < entries.len() - 1 {
                assert(entries[i] == entries.drop_last()[i]);
            }
        }
    }
}

impl ProxyPoolManager {
    /// A pool holding the given (stored) entries; the next id is one more
    /// than the largest of theirs, 1 for an empty pool.
    pub fn new(entries: Vec<ProxyEntry>) -> (res: Self)
        requires
            forall|i: int| 0 <= i < entries@.len() ==> entries@[i].id < u64::MAX,
        ensures
            res@.entries == records(entries@),
            res@.next_id == max_id(records(entries@)) + 1,
    {
        let mut m: u64 = 0;
        let n = entries.len();
        let mut i: usize = 0;
        while i < n
            invariant
                i <= n,
                n == entries@.len(),
                m == max_id(records(entries@).take(i as int)),
                forall|j: int| 0 <= j < entries@.len() ==> entries@[j].id < u64::MAX,
            decreases n - i,
        {
            let ghost t = records(entries@).take(i + 1);
            assert(t.drop_last() =~= records(entries@).take(i as int));
            assert(t.last() == entries@[i as int]@);
            if entries[i].id > m {
                m = entries[i].id;
            }
            i = i + 1;
        }
        assert(records(entries@).take(n as int) =~= records(entries@));
        proof {
            lemma_max_id_bound(records(entries@));
            if n > 0 {
                assert(records(entries@)[0].id <= m);
            }
        }
        assert(m < u64::MAX || n == 0) by {
            if n > 0 {
                lemma_max_id_attained(records(entries@));
            }
        }
        ProxyPoolManager { entries, next_id: m + 1 }
    }

    /// The entries, in insertion order.
    pub fn list(&self) -> (res: Vec<ProxyEntry>)
        ensures
            records(res@) == self@.entries,
    {
        let mut out: Vec<ProxyEntry> = Vec::new();
        let n = self.entries.len();
        let mut i: usize = 0;
        while i < n
            invariant
                i <= n,
                n == self.entries@.len(),
                records(out@) == records(self.entries@).take(i as int),
            decreases n - i,
        {
            let e = copy_entry(&self.entries[i]);
            let ghost before = records(out@);
            out.push(e);
            assert(records(out@) =~= before.push(e@));
            assert(records(self.entries@).take(i + 1) =~= records(self.entries@).take(i as int).push(
                self.entries@[i as int]@,
            ));
            i = i + 1;
        }
        assert(records(self.entries@).take(n as int) =~= records(self.entries@));
        out
    }

    fn url_in_use(&self, u: &String) -> (res: bool)
        ensures
            res == has_url(self@.entries, u@),
            res <==> exists|i: int| 0 <= i < self@.entries.len() && self@.entries[i].url == u@,
    {
        let n = self.entries.len();
        let mut i: usize = 0;
        while i < n
            invariant
                i <= n,
                n == self.entries@.len(),
                forall|j: int| 0 <= j < i ==> self.entries@[j].url@ != u@,
            decreases n - i,
        {
            if self.entries[i].url == *u {
                assert(self@.entries[i as int].url == u@);
                return true;
            }
            i = i + 1;
        }
        assert forall|j: int| 0 <= j < self@.entries.len() implies #[trigger] self@.entries[j].url
            != u@ by {
            assert(self@.entries[j] == self.entries@[j]@);
        }
        false
    }

    fn insert_new(&mut self, url: String, label: Option<String>) -> (res: ProxyEntry)
        ensures
            res@ == (ProxyRecord { id: old(self)@.next_id, url: url@, label: opt_view(label), enabled: true }),
            final(self)@ == (PoolState {
                entries: old(self)@.entries.push(res@),
                next_id: next_after(old(self)@.next_id),
            }),
    {
        let id = self.next_id;
        let entry = ProxyEntry { id, url, label, enabled: true };
        let stored = copy_entry(&entry);
        self.entries.push(stored);
        self.next_id = self.next_id.wrapping_add(1);
        assert(records(self.entries@) =~= records(old(self).entries@).push(entry@));
        entry
    }

    /// Adds a proxy: the URL is trimmed and must be non-empty, pass
    /// `validate_proxy_url` and not be in the pool yet; the new entry gets
    /// the next id and is enabled.
    pub fn add(&mut self, url: String, label: Option<String>) -> (res: Result<ProxyEntry, ProxyPoolError>)
        ensures
            (final(self)@, added_view(res)) == add_outcome(old(self)@, url@, opt_view(label)),
    {
        let raw = chars_of(url.as_str());
        let u = trim_chars(raw.as_slice());
        let trimmed = string_from_chars(u.as_slice());
        if u.len() == 0 {
            return Err(ProxyPoolError::EmptyUrl);
        }
        match check_proxy_url_chars(u.as_slice()) {
            Err(k) => {
                return Err(ProxyPoolError::InvalidUrl(k, trimmed));
            },
            Ok(_) => {},
        }
        if self.url_in_use(&trimmed) {
            return Err(ProxyPoolError::DuplicateUrl(trimmed));
        }
        Ok(self.insert_new(trimmed, label))
    }

    fn batch_line(&mut self, url: &String) -> (res: Option<Result<ProxyEntry, ProxyPoolError>>)
        ensures
            batch_step(old(self)@, url@) == (final(self)@, match res {
                None => BatchItem::Skipped,
                Some(Ok(e)) => BatchItem::Added(e@),
                Some(Err(f)) => BatchItem::Rejected(f@),
            }),
    {
        let raw = chars_of(url.as_str());
        let u = trim_chars(raw.as_slice());
        let hash = chars_of("#");
        if u.len() == 0 || chars_start_with(u.as_slice(), hash.as_slice()) {
            return None;
        }
        let trimmed = string_from_chars(u.as_slice());
        match check_proxy_url_chars(u.as_slice()) {
            Err(k) => {
                return Some(Err(ProxyPoolError::InvalidUrl(k, trimmed)));
            },
            Ok(_) => {},
        }
        if self.url_in_use(&trimmed) {
            return Some(Err(ProxyPoolError::DuplicateUrl(trimmed)));
        }
        Some(Ok(self.insert_new(trimmed, None)))
    }

    /// Adds proxies from a list of lines in one pass: each line is trimmed;
    /// blank lines and `#` comments are skipped; the others are added as by
    /// `add` (without a label) or refused, and the refusals are collected.
    pub fn batch_add(&mut self, urls: Vec<String>) -> (res: (Vec<ProxyEntry>, Vec<ProxyPoolError>))
        ensures
            (final(self)@, records(res.0@), faults(res.1@)) == batch_outcome(
                old(self)@,
                string_views(urls@),
            ),
    {
        let mut added: Vec<ProxyEntry> = Vec::new();
        let mut errors: Vec<ProxyPoolError> = Vec::new();
        let n = urls.len();
        let mut i: usize = 0;
        assert(string_views(urls@).take(0) =~= Seq::<Seq<char>>::empty());
        assert(records(added@) =~= Seq::<ProxyRecord>::empty());
        assert(faults(errors@) =~= Seq::<PoolFault>::empty());
        while i < n
            invariant
                i <= n,
                n == urls@.len(),
                (self@, records(added@), faults(errors@)) == batch_outcome(
                    old(self)@,
                    string_views(urls@).take(i as int),
                ),
            decreases n - i,
        {
            let ghost t = string_views(urls@).take(i + 1);
            assert(t.drop_last() =~= string_views(urls@).take(i as int));
            assert(t.last() == urls@[i as int]@);
            let ghost ra = records(added@);
            let ghost fe = faults(errors@);
            match self.batch_line(&urls[i]) {
                None => {},
                Some(Ok(e)) => {
                    added.push(e);
                    assert(records(added@) =~= ra.push(e@));
                },
                Some(Err(f)) => {
                    errors.push(f);
                    assert(faults(errors@) =~= fe.push(f@));
                },
            }
            i = i + 1;
        }
        assert(string_views(urls@).take(n as int) =~= string_views(urls@));
        (added, errors)
    }

    /// Removes every proxy with id `id`; refused when there is none.
    pub fn delete(&mut self, id: u64) -> (res: Result<(), ProxyPoolError>)
        ensures
            final(self)@.entries == without_id(old(self)@.entries, id),
            final(self)@.entries == old(self)@.entries.filter(|r: ProxyRecord| r.id != id),
            final(self)@.next_id == old(self)@.next_id,
            unit_view(res) == if has_id(old(self)@.entries, id) {
                Ok(())
            } else {
                Err(PoolFault::NotFound(id))
            },
    {
        let mut old_entries: Vec<ProxyEntry> = Vec::new();
        std::mem::swap(&mut old_entries, &mut self.entries);
        let mut kept: Vec<ProxyEntry> = Vec::new();
        let n = old_entries.len();
        let mut found = false;
        let mut i: usize = 0;
        while i < n
            invariant
                i <= n,
                n == old_entries@.len(),
                records(old_entries@) == old(self)@.entries,
                records(kept@) == without_id(records(old_entries@).take(i as int), id),
                found == has_id(records(old_entries@).take(i as int), id),
            decreases n - i,
        {
            let ghost t = records(old_entries@).take(i + 1);
            let ghost prev = records(old_entries@).take(i as int);
            assert(t.drop_last() =~= prev);
            assert(t.last() == old_entries@[i as int]@);
            let e = copy_entry(&old_entries[i]);
            proof {
                lemma_has_id_push(prev, e@, id);
                assert(prev.push(e@) =~= t);
            }
            if e.id == id {
                found = true;
            } else {
                let ghost before = records(kept@);
                kept.push(e);
                assert(records(kept@) =~= before.push(e@));
            }
            i = i + 1;
        }
        assert(records(old_entries@).take(n as int) =~= records(old_entries@));
        proof {
            lemma_without_id_is_filter(old(self)@.entries, id);
        }
        self.entries = kept;
        if found {
            Ok(())
        } else {
            Err(ProxyPoolError::NotFound(id))
        }
    }

    fn position_of(&self, id: u64) -> (res: Option<usize>)
        ensures
            match res {
                Some(i) => first_with_id(self@.entries, id) == Some(i as int),
                None => first_with_id(self@.entries, id) is None,
            },
    {
        let n = self.entries.len();
        let mut i: usize = 0;
        while i < n
            invariant
                i <= n,
                n == self.entries@.len(),
                forall|j: int| 0 <= j < i ==> self@.entries[j].id != id,
            decreases n - i,
        {
            if self.entries[i].id == id {
                proof {
                    lemma_first_with_id_at(self@.entries, id, i as int);
                }
                return Some(i);
            }
            i = i + 1;
        }
        proof {
            lemma_first_with_id_none(self@.entries, id);
        }
        None
    }

    /// Sets the enabled flag of the (first) proxy with id `id`; refused when
    /// there is none.
    pub fn set_enabled(&mut self, id: u64, enabled: bool) -> (res: Result<(), ProxyPoolError>)
        ensures
            match first_with_id(old(self)@.entries, id) {
                Some(i) => {
                    &&& res is Ok
                    &&& final(self)@.entries == old(self)@.entries.update(
                        i,
                        ProxyRecord { enabled, ..old(self)@.entries[i] },
                    )
                },
                None => {
                    &&& unit_view(res) == Err::<(), PoolFault>(PoolFault::NotFound(id))
                    &&& final(self)@.entries == old(self)@.entries
                },
            },
            final(self)@.next_id == old(self)@.next_id,
    {
        match self.position_of(id) {
            None => Err(ProxyPoolError::NotFound(id)),
            Some(i) => {
                proof {
                    lemma_first_with_id(old(self)@.entries, id);
                }
                let mut e = copy_entry(&self.entries[i]);
                e.enabled = enabled;
                let ghost ev = e@;
                self.entries.set(i, e);
                assert(records(self.entries@) =~= records(old(self).entries@).update(i as int, ev));
                Ok(())
            },
        }
    }

    /// The URL of the proxy with id `id`, telling a missing proxy from a
    /// disabled one.
    pub fn get_url(&self, id: u64) -> (res: GetUrlResult)
        ensures
            res@ == url_of(self@.entries, id),
    {
        match self.position_of(id) {
            None => GetUrlResult::NotFound,
            Some(i) => {
                proof {
                    lemma_first_with_id(self@.entries, id);
                }
                assert(self@.entries[i as int] == self.entries@[i as int]@);
                if !self.entries[i].enabled {
                    GetUrlResult::Disabled
                } else {
                    GetUrlResult::Url(copy_string(&self.entries[i].url))
                }
            },
        }
    }
}

} // verus!
