//! Verified core of the Kiro admin service: proxy pool bookkeeping, proxy URL
//! validation, the social-login (PKCE) helpers and the admin key checks.

pub mod admin;
pub mod base64;
pub mod proxy_laws;
pub mod proxy_pool;
pub mod query;
pub mod social;
pub mod text;
pub mod trusted;
pub mod url_laws;
