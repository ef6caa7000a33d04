# kiro_admin

Verified core of the Kiro admin service, written in Verus.

- `src/proxy_pool.rs` — the proxy pool (add, batch add, delete, enable/disable,
  URL lookup), proxy URL validation and the refusal messages, with exact
  contracts over `PoolState`.
- `src/proxy_laws.rs` — what holds across pool operations: no duplicate ids or
  URLs, lookups that see the last add, delete or enable/disable, and a batch
  add that is the same as adding its lines one by one.
- `src/social.rs` — the social-login (PKCE) flow: verifier and challenge, the
  portal URL, callback parsing, routing and replies, and the token exchange's
  request and status check.
- `src/base64.rs`, `src/query.rs`, `src/text.rs` — base64 / base64url, query
  strings and character helpers used by the above.
- `src/url_laws.rs` — percent-encoding read back by the query-string reader:
  the portal URL's query string parses back to the parameters it carries.
- `src/admin.rs` — admin key checks (constant-time comparison, the key store
  and its updates, flags).
- `src/trusted.rs` — the calls into `urlencoding`, `sha2`, `fastrand` and `uuid`.
- `app/` — the lock and file around the pool, and the local callback server.
