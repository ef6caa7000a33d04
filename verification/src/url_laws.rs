//! What percent-encoding and the query-string reader do to each other: an
//! encoded value reads back as itself, so the portal URL's query string
//! parses back to the parameters it was built from.

use vstd::prelude::*;
use vstd::utf8::{
    decode_utf8, encode_utf8, encode_utf8_decode_utf8, encode_utf8_valid_utf8, is_ascii_chars,
    is_ascii_chars_encode_utf8, valid_utf8,
};

use crate::query::{
    decode_value, lemma_split_on_concat, lemma_split_on_no_sep, parse_pair, query_pairs,
    query_param, split_on, lookup,
};
use crate::social::{portal_url, KIRO_PORTAL_URL};
use crate::text::{find_first, lemma_find_first_at};
use crate::trusted::{
    hex_digit_upper, hex_value, is_unreserved_byte, percent_decode, percent_encode, url_decoded,
    url_encoded,
};

verus! {

/// The bytes of a string of ASCII characters, one per character.
pub open spec fn ascii_bytes(cs: Seq<char>) -> Seq<u8> {
    cs.map_values(|c: char| c as u8)
}

/// Percent-encoding writes ASCII only, and never `&` or `+`.
pub proof fn lemma_percent_encode_safe(b: Seq<u8>)
    ensures
        is_ascii_chars(percent_encode(b)),
        forall|i: int|
            0 <= i < percent_encode(b).len() ==> #[trigger] percent_encode(b)[i] != '&'
                && percent_encode(b)[i] != '+',
    decreases b.len(),
{
    if b.len() > 0 {
        lemma_percent_encode_safe(b.skip(1));
        let x = b[0];
        let hi = x >> 4;
        let lo = x & 15;
        assert((x >> 4) < 16 && (x & 15) < 16) by (bit_vector);
        let rest = percent_encode(b.skip(1));
        let head = if is_unreserved_byte(b[0]) {
            seq![b[0] as char]
        } else {
            seq!['%', hex_digit_upper(hi), hex_digit_upper(lo)]
        };
        assert(percent_encode(b) == head + rest);
        assert forall|i: int| 0 <= i < percent_encode(b).len() implies '\0' <= #[trigger] percent_encode(
            b,
        )[i] <= '\u{7f}' && percent_encode(b)[i] != '&' && percent_encode(b)[i] != '+' by {
            if i >= head.len() {
                assert(percent_encode(b)[i] == rest[i - head.len()]);
            }
        }
    }
}

/// Decoding bytes that hold no `%` changes nothing.
pub proof fn lemma_percent_decode_plain(b: Seq<u8>)
    requires
        forall|i: int| 0 <= i < b.len() ==> b[i] != 37,
    ensures
        percent_decode(b) == b,
    decreases b.len(),
{
    if b.len() > 0 {
        lemma_percent_decode_plain(b.skip(1));
        assert(seq![b[0]] + b.skip(1) =~= b);
    }
}

/// Percent-decoding undoes percent-encoding.
pub proof fn lemma_percent_round_trip(b: Seq<u8>)
    ensures
        percent_decode(ascii_bytes(percent_encode(b))) == b,
    decreases b.len(),
{
    if b.len() > 0 {
        lemma_percent_round_trip(b.skip(1));
        let x = b[0];
        let hi = x >> 4;
        let lo = x & 15;
        assert((x >> 4) < 16 && (x & 15) < 16 && (x >> 4) * 16 + (x & 15) == x) by (bit_vector);
        let rest = percent_encode(b.skip(1));
        let head = if is_unreserved_byte(x) {
            seq![x as char]
        } else {
            seq!['%', hex_digit_upper(hi), hex_digit_upper(lo)]
        };
        assert(percent_encode(b) == head + rest);
        let bytes = ascii_bytes(head + rest);
        assert(bytes =~= ascii_bytes(head) + ascii_bytes(rest));
        if is_unreserved_byte(x) {
            assert(bytes[0] == x);
            assert(bytes.skip(1) =~= ascii_bytes(rest));
            assert(seq![x] + b.skip(1) =~= b);
        } else {
            assert(bytes[0] == 37);
            assert(hex_value(bytes[1]) == Some(hi));
            assert(hex_value(bytes[2]) == Some(lo));
            assert(bytes.skip(3) =~= ascii_bytes(rest));
            assert(seq![x] + b.skip(1) =~= b);
        }
    }
}

/// The UTF-8 bytes of ASCII characters are the characters themselves.
proof fn lemma_ascii_utf8(cs: Seq<char>)
    requires
        is_ascii_chars(cs),
    ensures
        encode_utf8(cs) == ascii_bytes(cs),
{
    is_ascii_chars_encode_utf8(cs);
    assert(encode_utf8(cs) =~= ascii_bytes(cs));
}

/// A query value read back from its percent-encoding is the value itself.
pub proof fn lemma_decode_value_of_encoded(s: Seq<char>)
    ensures
        decode_value(url_encoded(s)) == s,
{
    let e = url_encoded(s);
    lemma_percent_encode_safe(encode_utf8(s));
    let spaced = e.map_values(|c: char| if c == '+' { ' ' } else { c });
    assert(spaced =~= e);
    lemma_ascii_utf8(e);
    lemma_percent_round_trip(encode_utf8(s));
    encode_utf8_valid_utf8(s);
    encode_utf8_decode_utf8(s);
    assert(url_decoded(e) == Some(s));
}

/// An ASCII value with no `%` and no `+` reads back as itself.
pub proof fn lemma_decode_value_plain(v: Seq<char>)
    requires
        is_ascii_chars(v),
        forall|i: int| 0 <= i < v.len() ==> v[i] != '%' && v[i] != '+',
    ensures
        decode_value(v) == v,
{
    let spaced = v.map_values(|c: char| if c == '+' { ' ' } else { c });
    assert(spaced =~= v);
    lemma_ascii_utf8(v);
    assert forall|i: int| 0 <= i < ascii_bytes(v).len() implies ascii_bytes(v)[i] != 37 by {
        assert(v[i] != '%');
    }
    lemma_percent_decode_plain(ascii_bytes(v));
    encode_utf8_valid_utf8(v);
    encode_utf8_decode_utf8(v);
    assert(url_decoded(v) == Some(v));
}

/// `key=value` reads back as the key and the decoded value, provided the
/// key holds no `=`.
proof fn lemma_parse_pair_of(key: Seq<char>, value: Seq<char>)
    requires
        forall|j: int| 0 <= j < key.len() ==> key[j] != '=',
    ensures
        parse_pair(key.push('=') + value) == (key, decode_value(value)),
{
    let piece = key.push('=') + value;
    assert(piece[key.len() as int] == '=');
    assert forall|j: int| 0 <= j < key.len() implies piece[j] != '=' by {
        assert(piece[j] == key[j]);
    }
    lemma_find_first_at(piece, '=', key.len() as int);
    assert(piece.take(key.len() as int) =~= key);
    assert(piece.skip(key.len() as int + 1) =~= value);
}

/// `key=value` holds no `&` when neither part does.
proof fn lemma_no_amp(key: Seq<char>, value: Seq<char>)
    requires
        forall|j: int| 0 <= j < key.len() ==> key[j] != '&',
        forall|j: int| 0 <= j < value.len() ==> value[j] != '&',
    ensures
        forall|j: int| 0 <= j < (key.push('=') + value).len() ==> (key.push('=') + value)[j] != '&',
{
    let piece = key.push('=') + value;
    assert forall|j: int| 0 <= j < piece.len() implies piece[j] != '&' by {
        if j < key.len() {
            assert(piece[j] == key[j]);
        } else if j > key.len() {
            assert(piece[j] == value[j - key.len() - 1]);
        }
    }
}

/// The query string of a URL: what follows its first `?` (empty where it
/// has none).
pub open spec fn url_query(u: Seq<char>) -> Seq<char> {
    match find_first(u, '?') {
        Some(i) => u.skip(i + 1),
        None => seq![],
    }
}

/// The parameters the portal URL carries, in the order it writes them.
pub open spec fn portal_params(state: Seq<char>, code_challenge: Seq<char>, redirect_uri: Seq<char>) -> Seq<
    (Seq<char>, Seq<char>),
> {
    seq![
        ("state"@, state),
        ("code_challenge"@, code_challenge),
        ("code_challenge_method"@, "S256"@),
        ("redirect_uri"@, redirect_uri),
        ("redirect_from"@, "KiroIDE"@),
    ]
}

/// The query string the portal URL carries, as its five `key=value` pieces
/// joined by `&`.
pub open spec fn portal_query(es: Seq<char>, ec: Seq<char>, er: Seq<char>) -> Seq<char> {
    let p1 = "state"@.push('=') + es;
    let p2 = "code_challenge"@.push('=') + ec;
    let p3 = "code_challenge_method"@.push('=') + "S256"@;
    let p4 = "redirect_uri"@.push('=') + er;
    let p5 = "redirect_from"@.push('=') + "KiroIDE"@;
    p1.push('&') + (p2.push('&') + (p3.push('&') + (p4.push('&') + p5)))
}

/// The portal URL is the sign-in page, one `?`, and its query string.
#[verifier::rlimit(50)]
proof fn lemma_portal_url_shape(state: Seq<char>, code_challenge: Seq<char>, redirect_uri: Seq<char>)
    ensures
        url_query(portal_url(state, code_challenge, redirect_uri)) == portal_query(
            url_encoded(state),
            url_encoded(code_challenge),
            url_encoded(redirect_uri),
        ),
{
    reveal_strlit("https://app.kiro.dev");
    reveal_strlit("/signin?");
    reveal_strlit("state=");
    reveal_strlit("&code_challenge=");
    reveal_strlit("&code_challenge_method=S256&redirect_uri=");
    reveal_strlit("&redirect_from=KiroIDE");
    reveal_strlit("state");
    reveal_strlit("code_challenge");
    reveal_strlit("code_challenge_method");
    reveal_strlit("S256");
    reveal_strlit("redirect_uri");
    reveal_strlit("redirect_from");
    reveal_strlit("KiroIDE");
    let u = portal_url(state, code_challenge, redirect_uri);
    let prefix = KIRO_PORTAL_URL@ + "/signin?"@;
    assert(prefix.len() == 28);
    assert(u[27] == '?');
    assert forall|j: int| 0 <= j < 27 implies u[j] != '?' by {
        assert(u[j] == prefix[j]);
    }
    lemma_find_first_at(u, '?', 27);
    assert(u.skip(28) =~= portal_query(
        url_encoded(state),
        url_encoded(code_challenge),
        url_encoded(redirect_uri),
    ));
}

/// The portal URL's query string parses back to the parameters it was built
/// from, whatever the state, challenge and redirect URI: the pairs come out
/// in order with their values decoded, and looking each key up gives its
/// value.
pub proof fn lemma_portal_url_query(state: Seq<char>, code_challenge: Seq<char>, redirect_uri: Seq<char>)
    ensures
        query_pairs(url_query(portal_url(state, code_challenge, redirect_uri))) == portal_params(
            state,
            code_challenge,
            redirect_uri,
        ),
        query_param(url_query(portal_url(state, code_challenge, redirect_uri)), "state"@) == Some(state),
        query_param(url_query(portal_url(state, code_challenge, redirect_uri)), "code_challenge"@)
            == Some(code_challenge),
        query_param(url_query(portal_url(state, code_challenge, redirect_uri)), "code_challenge_method"@)
            == Some("S256"@),
        query_param(url_query(portal_url(state, code_challenge, redirect_uri)), "redirect_uri"@)
            == Some(redirect_uri),
        query_param(url_query(portal_url(state, code_challenge, redirect_uri)), "redirect_from"@)
            == Some("KiroIDE"@),
{
    lemma_portal_url_shape(state, code_challenge, redirect_uri);
    lemma_portal_query_pairs(state, code_challenge, redirect_uri);
    lemma_portal_params_lookup(state, code_challenge, redirect_uri);
}

/// Looking up each key of the portal parameters gives its value.
proof fn lemma_portal_params_lookup(state: Seq<char>, code_challenge: Seq<char>, redirect_uri: Seq<char>)
    ensures
        lookup(portal_params(state, code_challenge, redirect_uri), "state"@) == Some(state),
        lookup(portal_params(state, code_challenge, redirect_uri), "code_challenge"@) == Some(code_challenge),
        lookup(portal_params(state, code_challenge, redirect_uri), "code_challenge_method"@) == Some("S256"@),
        lookup(portal_params(state, code_challenge, redirect_uri), "redirect_uri"@) == Some(redirect_uri),
        lookup(portal_params(state, code_challenge, redirect_uri), "redirect_from"@) == Some("KiroIDE"@),
{
    reveal_strlit("state");
    reveal_strlit("code_challenge");
    reveal_strlit("code_challenge_method");
    reveal_strlit("redirect_uri");
    reveal_strlit("redirect_from");
    let ps = portal_params(state, code_challenge, redirect_uri);
    let s4 = ps.drop_last();
    let s3 = s4.drop_last();
    let s2 = s3.drop_last();
    let s1 = s2.drop_last();
    assert(s1.drop_last() =~= Seq::<(Seq<char>, Seq<char>)>::empty());
    assert("state"@.len() != "code_challenge"@.len() && "state"@.len() != "code_challenge_method"@.len());
    assert("state"@.len() != "redirect_uri"@.len() && "state"@.len() != "redirect_from"@.len());
    assert("code_challenge"@.len() != "code_challenge_method"@.len());
    assert("code_challenge"@.len() != "redirect_uri"@.len());
    assert("code_challenge"@.len() != "redirect_from"@.len());
    assert(lookup(s1, "state"@) == Some(state));
    assert(lookup(s2, "state"@) == Some(state));
    assert(lookup(s3, "state"@) == Some(state));
    assert(lookup(s4, "state"@) == Some(state));
    assert(lookup(s2, "code_challenge"@) == Some(code_challenge));
    assert(lookup(s3, "code_challenge"@) == Some(code_challenge));
    assert(lookup(s4, "code_challenge"@) == Some(code_challenge));
    assert("code_challenge_method"@.len() != "redirect_uri"@.len());
    assert("code_challenge_method"@.len() != "redirect_from"@.len());
    assert(lookup(s3, "code_challenge_method"@) == Some("S256"@));
    assert(lookup(s4, "code_challenge_method"@) == Some("S256"@));
    assert("redirect_uri"@.len() != "redirect_from"@.len());
    assert(lookup(s4, "redirect_uri"@) == Some(redirect_uri));
}

/// The portal query string splits into its five pieces, each of which reads
/// back as its key and value.
proof fn lemma_portal_query_pairs(state: Seq<char>, code_challenge: Seq<char>, redirect_uri: Seq<char>)
    ensures
        query_pairs(
            portal_query(url_encoded(state), url_encoded(code_challenge), url_encoded(redirect_uri)),
        ) == portal_params(state, code_challenge, redirect_uri),
{
    reveal_strlit("state");
    reveal_strlit("code_challenge");
    reveal_strlit("code_challenge_method");
    reveal_strlit("S256");
    reveal_strlit("redirect_uri");
    reveal_strlit("redirect_from");
    reveal_strlit("KiroIDE");
    let es = url_encoded(state);
    let ec = url_encoded(code_challenge);
    let er = url_encoded(redirect_uri);
    let p1 = "state"@.push('=') + es;
    let p2 = "code_challenge"@.push('=') + ec;
    let p3 = "code_challenge_method"@.push('=') + "S256"@;
    let p4 = "redirect_uri"@.push('=') + er;
    let p5 = "redirect_from"@.push('=') + "KiroIDE"@;
    let r4 = p4.push('&') + p5;
    let r3 = p3.push('&') + r4;
    let r2 = p2.push('&') + r3;
    let q = p1.push('&') + r2;
    assert(q == portal_query(es, ec, er));

    lemma_percent_encode_safe(encode_utf8(state));
    lemma_percent_encode_safe(encode_utf8(code_challenge));
    lemma_percent_encode_safe(encode_utf8(redirect_uri));
    lemma_no_amp("state"@, es);
    lemma_no_amp("code_challenge"@, ec);
    lemma_no_amp("code_challenge_method"@, "S256"@);
    lemma_no_amp("redirect_uri"@, er);
    lemma_no_amp("redirect_from"@, "KiroIDE"@);
    lemma_split_on_no_sep(p1, '&');
    lemma_split_on_no_sep(p2, '&');
    lemma_split_on_no_sep(p3, '&');
    lemma_split_on_no_sep(p4, '&');
    lemma_split_on_no_sep(p5, '&');
    lemma_split_on_concat(p4, p5, '&');
    lemma_split_on_concat(p3, r4, '&');
    lemma_split_on_concat(p2, r3, '&');
    lemma_split_on_concat(p1, r2, '&');
    assert(split_on(q, '&') =~= seq![p1, p2, p3, p4, p5]);

    lemma_parse_pair_of("state"@, es);
    lemma_parse_pair_of("code_challenge"@, ec);
    lemma_parse_pair_of("code_challenge_method"@, "S256"@);
    lemma_parse_pair_of("redirect_uri"@, er);
    lemma_parse_pair_of("redirect_from"@, "KiroIDE"@);
    lemma_decode_value_of_encoded(state);
    lemma_decode_value_of_encoded(code_challenge);
    lemma_decode_value_of_encoded(redirect_uri);
    lemma_decode_value_plain("S256"@);
    lemma_decode_value_plain("KiroIDE"@);
    assert(query_pairs(q) =~= portal_params(state, code_challenge, redirect_uri));
}

} // verus!
