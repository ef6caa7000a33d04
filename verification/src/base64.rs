//! Base64 encoding (RFC 4648): the standard alphabet with `=` padding, and the
//! unpadded URL-safe form that PKCE verifiers and challenges use.

use vstd::prelude::*;

use crate::text::string_from_chars;

verus! {

/// The character of the standard alphabet for the 6-bit value `v`.
pub open spec fn sextet_to_char(v: u8) -> char {
    if v < 26 {
        ((v + 65) as u8) as char
    } else if v < 52 {
        ((v - 26 + 97) as u8) as char
    } else if v < 62 {
        ((v - 52 + 48) as u8) as char
    } else if v == 62 {
        '+'
    } else {
        '/'
    }
}

/// The byte at position `i` of `d`, or 0 past its end.
pub open spec fn byte_or_zero(d: Seq<u8>, i: int) -> u8 {
    if i < d.len() {
        d[i]
    } else {
        0
    }
}

/// The four output characters of the group of (up to three) bytes at the
/// start of `d`, with `=` where the group is short.
pub open spec fn encode_group(d: Seq<u8>) -> Seq<char> {
    let b0 = byte_or_zero(d, 0);
    let b1 = byte_or_zero(d, 1);
    let b2 = byte_or_zero(d, 2);
    seq![
        sextet_to_char(b0 >> 2),
        sextet_to_char(((b0 & 3) << 4) | (b1 >> 4)),
        if d.len() > 1 { sextet_to_char(((b1 & 15) << 2) | (b2 >> 6)) } else { '=' },
        if d.len() > 2 { sextet_to_char(b2 & 63) } else { '=' },
    ]
}

/// Standard base64 of `d`, padded with `=` to a multiple of four characters.
pub open spec fn base64_standard(d: Seq<u8>) -> Seq<char>
    decreases d.len(),
{
    if d.len() == 0 {
        seq![]
    } else if d.len() <= 3 {
        encode_group(d)
    } else {
        encode_group(d) + base64_standard(d.skip(3))
    }
}

/// `s` with `+` turned into `-`, `/` into `_`, and every `=` removed.
pub open spec fn to_url_safe(s: Seq<char>) -> Seq<char>
    decreases s.len(),
{
    if s.len() == 0 {
        seq![]
    } else {
        let rest = to_url_safe(s.drop_last());
        let c = s.last();
        if c == '=' {
            rest
        } else if c == '+' {
            rest.push('-')
        } else if c == '/' {
            rest.push('_')
        } else {
            rest
                .push(c)
        }
    }
}

/// Unpadded URL-safe base64 (RFC 4648 section 5) of `d`.
pub open spec fn base64url(d: Seq<u8>) -> Seq<char> {
    to_url_safe(base64_standard(d))
}

/// The characters of the URL-safe alphabet.
pub open spec fn is_url_safe_char(c: char) -> bool {
    ||| ('A' <= c && c <= 'Z')
    ||| ('a' <= c && c <= 'z')
    ||| ('0' <= c && c <= '9')
    ||| c == '-'
    ||| c == '_'
}

fn sextet_char(v: u8) -> (c: char)
    requires
        v < 64,
    ensures
        c == sextet_to_char(v),
{
    if v < 26 {
        (v + 65) as char
    } else if v < 52 {
        (v - 26 + 97) as char
    } else if v < 62 {
        (v - 52 + 48) as char
    } else if v == 62 {
        '+'
    } else {
        '/'
    }
}

proof fn lemma_group_split(d: Seq<u8>)
    requires
        d.len() > 0,
    ensures
        d.len() <= 3 ==> base64_standard(d) == encode_group(d),
        d.len() > 3 ==> base64_standard(d) == encode_group(d) + base64_standard(d.skip(3)),
{
}

fn encode_standard_chars(data: &[u8]) -> (out: Vec<char>)
    ensures
        out@ == base64_standard(data@),
{
    let n = data.len();
    let mut out: Vec<char> = Vec::new();
    let mut i: usize = 0;
    assert(data@.skip(0) =~= data@);
    while i < n
        invariant
            i <= n,
            n == data@.len(),
            base64_standard(data@) == out@ + base64_standard(data@.skip(i as int)),
        decreases n - i,
    {
        let rest = Ghost(data@.skip(i as int));
        let b0 = data[i];
        let b1: u8 = if n - i > 1 { data[i + 1] } else { 0 };
        let b2: u8 = if n - i > 2 { data[i + 2] } else { 0 };
        proof {
            assert(b0 == byte_or_zero(rest@, 0));
            assert(b1 == byte_or_zero(rest@, 1));
            assert(b2 == byte_or_zero(rest@, 2));
            assert((b0 >> 2) < 64u8) by (bit_vector);
            assert((((b0 & 3) << 4) | (b1 >> 4)) < 64u8) by (bit_vector);
            assert((((b1 & 15) << 2) | (b2 >> 6)) < 64u8) by (bit_vector);
            assert((b2 & 63) < 64u8) by (bit_vector);
            lemma_group_split(rest@);
        }
        let ghost before = out@;
        out.push(sextet_char(b0 >> 2));
        out.push(sextet_char(((b0 & 3) << 4) | (b1 >> 4)));
        if n - i > 1 {
            out.push(sextet_char(((b1 & 15) << 2) | (b2 >> 6)));
        } else {
            out.push('=');
        }
        if n - i > 2 {
            out.push(sextet_char(b2 & 63));
        } else {
            out.push('=');
        }
        assert(out@ =~= before + encode_group(rest@));
        if n - i > 3 {
            assert(rest@.skip(3) =~= data@.skip(i + 3));
            i = i + 3;
        } else {
            assert(data@.skip(n as int) =~= Seq::<u8>::empty());
            assert(out@ + base64_standard(data@.skip(n as int)) =~= out@);
            i = n;
        }
    }
    assert(data@.skip(n as int) =~= Seq::<u8>::empty());
    assert(out@ + base64_standard(data@.skip(n as int)) =~= out@);
    out
}

/// Standard base64 of `data`, padded with `=`.
pub fn base64_encode_standard(data: &[u8]) -> (res: String)
    ensures
        res@ == base64_standard(data@),
{
    let cs = encode_standard_chars(data);
    string_from_chars(cs.as_slice())
}

fn url_safe_chars(s: &[char]) -> (out: Vec<char>)
    ensures
        out@ == to_url_safe(s@),
{
    let mut out: Vec<char> = Vec::new();
    let n = s.len();
    let mut i: usize = 0;
    while i < n
        invariant
            i <= n,
            n == s@.len(),
            out@ == to_url_safe(s@.take(i as int)),
        decreases n - i,
    {
        let c = s[i];
        assert(s@.take(i + 1).drop_last() =~= s@.take(i as int));
        if c == '+' {
            out.push('-');
        } else if c == '/' {
            out.push('_');
        } else if c != '=' {
            out.push(c);
        }
        i = i + 1;
    }
    assert(s@.take(n as int) =~= s@);
    out
}

/// Unpadded URL-safe base64 of `data`: the standard encoding with `+` turned
/// into `-`, `/` into `_`, and the padding removed.
pub fn base64url_encode(data: &[u8]) -> (res: String)
    ensures
        res@ == base64url(data@),
{
    let std = encode_standard_chars(data);
    let url = url_safe_chars(std.as_slice());
    string_from_chars(url.as_slice())
}


proof fn lemma_url_safe_append(a: Seq<char>, b: Seq<char>)
    ensures
        to_url_safe(a + b) == to_url_safe(a) + to_url_safe(b),
    decreases b.len(),
{
    if b.len() == 0 {
        assert(a + b =~= a);
        assert(to_url_safe(b) =~= Seq::<char>::empty());
        assert(to_url_safe(a) + to_url_safe(b) =~= to_url_safe(a));
    } else {
        assert((a + b).drop_last() =~= a + b.drop_last());
        assert((a + b).last() == b.last());
        lemma_url_safe_append(a, b.drop_last());
        let c = b.last();
        if c == '=' {
        } else if c == '+' {
            assert(to_url_safe(a) + to_url_safe(b.drop_last()).push('-')
                =~= (to_url_safe(a) + to_url_safe(b.drop_last())).push('-'));
        } else if c == '/' {
            assert(to_url_safe(a) + to_url_safe(b.drop_last()).push('_')
                =~= (to_url_safe(a) + to_url_safe(b.drop_last())).push('_'));
        } else {
            assert(to_url_safe(a) + to_url_safe(b.drop_last()).push(c)
                =~= (to_url_safe(a) + to_url_safe(b.drop_last())).push(c));
        }
    }
}

proof fn lemma_sextet_char(v: u8)
    requires
        v < 64,
    ensures
        sextet_to_char(v) != '=',
        is_url_safe_char(sextet_to_char(v)) || sextet_to_char(v) == '+' || sextet_to_char(v)
            == '/',
{
}

proof fn lemma_group_sextets(d: Seq<u8>)
    ensures
        byte_or_zero(d, 0) >> 2 < 64,
        ((byte_or_zero(d, 0) & 3) << 4) | (byte_or_zero(d, 1) >> 4) < 64,
        ((byte_or_zero(d, 1) & 15) << 2) | (byte_or_zero(d, 2) >> 6) < 64,
        byte_or_zero(d, 2) & 63 < 64,
{
    let b0 = byte_or_zero(d, 0);
    let b1 = byte_or_zero(d, 1);
    let b2 = byte_or_zero(d, 2);
    assert((b0 >> 2) < 64u8) by (bit_vector);
    assert((((b0 & 3) << 4) | (b1 >> 4)) < 64u8) by (bit_vector);
    assert((((b1 & 15) << 2) | (b2 >> 6)) < 64u8) by (bit_vector);
    assert((b2 & 63) < 64u8) by (bit_vector);
}

spec fn url_char(c: char) -> char {
    if c == '+' {
        '-'
    } else if c == '/' {
        '_'
    } else {
        c
    }
}

proof fn lemma_url_safe_char_step(s: Seq<char>, c: char)
    requires
        c != '=',
        is_url_safe_char(c) || c == '+' || c == '/',
    ensures
        to_url_safe(s.push(c)) == to_url_safe(s).push(url_char(c)),
        is_url_safe_char(url_char(c)),
{
    assert(s.push(c).drop_last() =~= s);
}

/// The URL-safe form of one group: its sextet characters mapped, padding gone.
proof fn lemma_url_safe_group(d: Seq<u8>)
    requires
        d.len() > 0,
    ensures
        to_url_safe(encode_group(d)).len() == if d.len() >= 3 {
            4int
        } else {
            d.len() + 1int
        },
        forall|i: int|
            0 <= i < to_url_safe(encode_group(d)).len() ==> is_url_safe_char(
                #[trigger] to_url_safe(encode_group(d))[i],
            ),
{
    lemma_group_sextets(d);
    let g = encode_group(d);
    let b0 = byte_or_zero(d, 0);
    let b1 = byte_or_zero(d, 1);
    let b2 = byte_or_zero(d, 2);
    let c0 = sextet_to_char(b0 >> 2);
    let c1 = sextet_to_char(((b0 & 3) << 4) | (b1 >> 4));
    let c2 = sextet_to_char(((b1 & 15) << 2) | (b2 >> 6));
    let c3 = sextet_to_char(b2 & 63);
    lemma_sextet_char(b0 >> 2);
    lemma_sextet_char(((b0 & 3) << 4) | (b1 >> 4));
    lemma_sextet_char(((b1 & 15) << 2) | (b2 >> 6));
    lemma_sextet_char(b2 & 63);
    let e: Seq<char> = seq![];
    assert(to_url_safe(e) =~= e);
    let m0 = url_char(c0);
    let m1 = url_char(c1);
    let m2 = url_char(c2);
    let m3 = url_char(c3);
    lemma_url_safe_char_step(e, c0);
    assert(e.push(c0) =~= seq![c0]);
    assert(to_url_safe(seq![c0]) =~= seq![m0]);
    lemma_url_safe_char_step(seq![c0], c1);
    assert(seq![c0].push(c1) =~= seq![c0, c1]);
    assert(to_url_safe(seq![c0, c1]) =~= seq![m0, m1]);
    if d.len() >= 3 {
        lemma_url_safe_char_step(seq![c0, c1], c2);
        assert(seq![c0, c1].push(c2) =~= seq![c0, c1, c2]);
        assert(to_url_safe(seq![c0, c1, c2]) =~= seq![m0, m1, m2]);
        lemma_url_safe_char_step(seq![c0, c1, c2], c3);
        assert(seq![c0, c1, c2].push(c3) =~= g);
        assert(to_url_safe(g) =~= seq![m0, m1, m2, m3]);
    } else if d.len() == 2 {
        lemma_url_safe_char_step(seq![c0, c1], c2);
        assert(seq![c0, c1].push(c2) =~= g.drop_last());
        assert(g.last() == '=');
        assert(to_url_safe(g) =~= seq![m0, m1, m2]);
    } else {
        assert(g.drop_last().drop_last() =~= seq![c0, c1]);
        assert(g.last() == '=');
        assert(g.drop_last().last() == '=');
        assert(to_url_safe(g.drop_last()) =~= seq![m0, m1]);
        assert(to_url_safe(g) =~= seq![m0, m1]);
    }
}

/// Standard base64 turns every started group of three bytes into four
/// characters.
pub proof fn lemma_base64_standard_length(d: Seq<u8>)
    ensures
        base64_standard(d).len() == 4 * ((d.len() + 2) / 3),
    decreases d.len(),
{
    if d.len() > 3 {
        lemma_base64_standard_length(d.skip(3));
    }
}

/// Unpadded URL-safe base64 of `n` bytes has `ceil(4n / 3)` characters, all of
/// them from the URL-safe alphabet (letters, digits, `-`, `_`).
pub proof fn lemma_base64url_shape(d: Seq<u8>)
    ensures
        base64url(d).len() == (4 * d.len() + 2) / 3,
        forall|i: int| 0 <= i < base64url(d).len() ==> is_url_safe_char(#[trigger] base64url(d)[i]),
    decreases d.len(),
{
    if d.len() == 0 {
        assert(base64_standard(d) =~= Seq::<char>::empty());
    } else {
        lemma_url_safe_group(d);
        if d.len() <= 3 {
        } else {
            lemma_base64url_shape(d.skip(3));
            lemma_url_safe_append(encode_group(d), base64_standard(d.skip(3)));
            let a = to_url_safe(encode_group(d));
            let b = base64url(d.skip(3));
            assert forall|i: int| 0 <= i < (a + b).len() implies is_url_safe_char(
                #[trigger] (a + b)[i],
            ) by {
                if i < a.len() {
                    assert((a + b)[i] == a[i]);
                } else {
                    assert((a + b)[i] == b[i - a.len()]);
                }
            }
        }
    }
}


/// The characters of the standard alphabet.
pub open spec fn is_standard_char(c: char) -> bool {
    ||| ('A' <= c && c <= 'Z')
    ||| ('a' <= c && c <= 'z')
    ||| ('0' <= c && c <= '9')
    ||| c == '+'
    ||| c == '/'
}

/// The number of `=` that pad the encoding of `n` bytes.
pub open spec fn padding_len(n: nat) -> int {
    (3 - (n % 3) as int) % 3
}

proof fn lemma_sextet_standard(v: u8)
    requires
        v < 64,
    ensures
        is_standard_char(sextet_to_char(v)),
{
}

/// Standard base64 of `n` bytes is `4 * ceil(n / 3)` characters of the
/// standard alphabet followed by exactly `(3 - n % 3) % 3` padding `=`.
pub proof fn lemma_base64_standard_padding(d: Seq<u8>)
    ensures
        ({
            let r = base64_standard(d);
            let pad = padding_len(d.len());
            &&& r.len() == 4 * ((d.len() + 2) / 3)
            &&& forall|i: int| 0 <= i < r.len() - pad ==> is_standard_char(#[trigger] r[i])
            &&& forall|i: int| r.len() - pad <= i < r.len() ==> #[trigger] r[i] == '='
        }),
    decreases d.len(),
{
    lemma_base64_standard_length(d);
    if d.len() > 0 {
        lemma_group_sextets(d);
        let b0 = byte_or_zero(d, 0);
        let b1 = byte_or_zero(d, 1);
        let b2 = byte_or_zero(d, 2);
        lemma_sextet_standard(b0 >> 2);
        lemma_sextet_standard(((b0 & 3) << 4) | (b1 >> 4));
        lemma_sextet_standard(((b1 & 15) << 2) | (b2 >> 6));
        lemma_sextet_standard(b2 & 63);
        let g = encode_group(d);
        if d.len() > 3 {
            lemma_base64_standard_padding(d.skip(3));
            let rest = base64_standard(d.skip(3));
            let r = g + rest;
            assert(padding_len(d.len()) == padding_len(d.skip(3).len()));
            assert forall|i: int| 0 <= i < r.len() - padding_len(d.len()) implies is_standard_char(
                #[trigger] r[i],
            ) by {
                if i >= 4 {
                    assert(r[i] == rest[i - 4]);
                }
            }
            assert forall|i: int| r.len() - padding_len(d.len()) <= i < r.len() implies #[trigger] r[i]
                == '=' by {
                assert(r[i] == rest[i - 4]);
            }
        }
    }
}

/// The value of a character of the standard alphabet.
pub open spec fn char_value(c: char) -> Option<u8> {
    if 'A' <= c && c <= 'Z' {
        Some(((c as u32) - 65) as u8)
    } else if 'a' <= c && c <= 'z' {
        Some(((c as u32) - 97 + 26) as u8)
    } else if '0' <= c && c <= '9' {
        Some(((c as u32) - 48 + 52) as u8)
    } else if c == '+' {
        Some(62)
    } else if c == '/' {
        Some(63)
    } else {
        None
    }
}

/// Standard base64 decoding (RFC 4648, with padding), refusing
/// non-canonical input: a padded final group must leave its unused low
/// bits zero.
pub open spec fn base64_decode(s: Seq<char>) -> Option<Seq<u8>>
    decreases s.len(),
{
    if s.len() == 0 {
        Some(seq![])
    } else if s.len() < 4 {
        None
    } else {
        match (char_value(s[0]), char_value(s[1])) {
            (Some(x0), Some(x1)) => {
                let v0 = ((x0 << 2) | (x1 >> 4)) as u8;
                if s[2] == '=' && s[3] == '=' {
                    if s.len() == 4 && x1 & 15 == 0 {
                        Some(seq![v0])
                    } else {
                        None
                    }
                } else {
                    match char_value(s[2]) {
                        Some(x2) => {
                            let v1 = ((x1 << 4) | (x2 >> 2)) as u8;
                            if s[3] == '=' {
                                if s.len() == 4 && x2 & 3 == 0 {
                                    Some(seq![v0, v1])
                                } else {
                                    None
                                }
                            } else {
                                match (char_value(s[3]), base64_decode(s.skip(4))) {
                                    (Some(x3), Some(rest)) => Some(
                                        seq![v0, v1, ((x2 << 6) | x3) as u8] + rest,
                                    ),
                                    _ => None,
                                }
                            }
                        },
                        None => None,
                    }
                }
            },
            _ => None,
        }
    }
}

proof fn lemma_char_value(v: u8)
    requires
        v < 64,
    ensures
        char_value(sextet_to_char(v)) == Some(v),
        sextet_to_char(v) != '=',
{
}

/// Decoding standard base64 gives back the bytes encoded.
pub proof fn lemma_base64_round_trip(d: Seq<u8>)
    ensures
        base64_decode(base64_standard(d)) == Some(d),
    decreases d.len(),
{
    if d.len() == 0 {
        assert(base64_standard(d) =~= Seq::<char>::empty());
        assert(d =~= Seq::<u8>::empty());
    } else {
        lemma_group_sextets(d);
        let b0 = byte_or_zero(d, 0);
        let b1 = byte_or_zero(d, 1);
        let b2 = byte_or_zero(d, 2);
        let x0 = b0 >> 2;
        let x1 = ((b0 & 3) << 4) | (b1 >> 4);
        let x2 = ((b1 & 15) << 2) | (b2 >> 6);
        let x3 = b2 & 63;
        lemma_char_value(x0);
        lemma_char_value(x1);
        lemma_char_value(x2);
        lemma_char_value(x3);
        assert(((x0 << 2) | (x1 >> 4)) == b0 && ((x1 << 4) | (x2 >> 2)) == b1 && ((x2 << 6) | x3)
            == b2) by (bit_vector)
            requires
                x0 == b0 >> 2,
                x1 == ((b0 & 3) << 4) | (b1 >> 4),
                x2 == ((b1 & 15) << 2) | (b2 >> 6),
                x3 == b2 & 63,
        ;
        let s = base64_standard(d);
        if d.len() == 1 {
            assert(b1 == 0);
            assert((x1 & 15) == 0) by (bit_vector)
                requires
                    x1 == ((b0 & 3) << 4) | (0u8 >> 4),
            ;
            assert(d =~= seq![b0]);
        } else if d.len() == 2 {
            assert(b2 == 0);
            assert((x2 & 3) == 0) by (bit_vector)
                requires
                    x2 == ((b1 & 15) << 2) | (0u8 >> 6),
            ;
            assert(d =~= seq![b0, b1]);
        } else if d.len() == 3 {
            assert(s.skip(4) =~= Seq::<char>::empty());
            assert(d =~= seq![b0, b1, b2]);
        } else {
            lemma_base64_round_trip(d.skip(3));
            assert(s.skip(4) =~= base64_standard(d.skip(3)));
            assert(d =~= seq![b0, b1, b2] + d.skip(3));
        }
    }
}

proof fn lemma_url_safe_plain(s: Seq<char>)
    requires
        forall|i: int| 0 <= i < s.len() ==> s[i] != '=',
    ensures
        to_url_safe(s) == s.map_values(
            |c: char|
                if c == '+' {
                    '-'
                } else if c == '/' {
                    '_'
                } else {
                    c
                },
        ),
    decreases s.len(),
{
    if s.len() > 0 {
        assert(s.last() == s[s.len() - 1]);
        assert forall|i: int| 0 <= i < s.drop_last().len() implies s.drop_last()[i] != '=' by {
            assert(s.drop_last()[i] == s[i]);
        }
        lemma_url_safe_plain(s.drop_last());
        assert(to_url_safe(s) =~= s.map_values(
            |c: char|
                if c == '+' {
                    '-'
                } else if c == '/' {
                    '_'
                } else {
                    c
                },
        ));
    } else {
        assert(to_url_safe(s) =~= s.map_values(
            |c: char|
                if c == '+' {
                    '-'
                } else if c == '/' {
                    '_'
                } else {
                    c
                },
        ));
    }
}

proof fn lemma_url_safe_pad(s: Seq<char>)
    requires
        forall|i: int| 0 <= i < s.len() ==> s[i] == '=',
    ensures
        to_url_safe(s) == Seq::<char>::empty(),
    decreases s.len(),
{
    if s.len() > 0 {
        assert(s.last() == s[s.len() - 1]);
        assert forall|i: int| 0 <= i < s.drop_last().len() implies s.drop_last()[i] == '=' by {
            assert(s.drop_last()[i] == s[i]);
        }
        lemma_url_safe_pad(s.drop_last());
    } else {
        assert(to_url_safe(s) =~= Seq::<char>::empty());
    }
}

/// Unpadded URL-safe base64 is the standard encoding with its `=` padding
/// dropped and `+`, `/` written `-`, `_`; every other character is kept as
/// it is, in place.
pub proof fn lemma_base64url_from_standard(d: Seq<u8>)
    ensures
        ({
            let s = base64_standard(d);
            let n = s.len() - padding_len(d.len());
            &&& base64url(d).len() == n
            &&& forall|i: int|
                0 <= i < n ==> #[trigger] base64url(d)[i] == if s[i] == '+' {
                    '-'
                } else if s[i] == '/' {
                    '_'
                } else {
                    s[i]
                }
        }),
{
    lemma_base64_standard_padding(d);
    let s = base64_standard(d);
    let n = s.len() - padding_len(d.len());
    let head = s.take(n);
    let tail = s.skip(n);
    assert(head + tail =~= s);
    assert forall|i: int| 0 <= i < head.len() implies head[i] != '=' by {
        assert(is_standard_char(s[i]));
    }
    assert forall|i: int| 0 <= i < tail.len() implies tail[i] == '=' by {
        assert(tail[i] == s[n + i]);
    }
    lemma_url_safe_plain(head);
    lemma_url_safe_pad(tail);
    lemma_url_safe_append(head, tail);
    assert(to_url_safe(head) + to_url_safe(tail) =~= to_url_safe(head));
}

/// The standard-alphabet character a URL-safe character stands for: `-` is
/// `+`, `_` is `/`; `+`, `/` and `=` have no place in the URL-safe form.
pub open spec fn from_url_char(c: char) -> char {
    if c == '-' {
        '+'
    } else if c == '_' {
        '/'
    } else if c == '+' || c == '/' || c == '=' {
        '!'
    } else {
        c
    }
}

/// Unpadded URL-safe base64 decoding (RFC 4648 section 5): the alphabet
/// mapped back, the padding restored from the length, then standard
/// decoding.
pub open spec fn base64url_decode(s: Seq<char>) -> Option<Seq<u8>> {
    let mapped = s.map_values(|c: char| from_url_char(c));
    if s.len() % 4 == 1 {
        None
    } else if s.len() % 4 == 2 {
        base64_decode(mapped + seq!['=', '='])
    } else if s.len() % 4 == 3 {
        base64_decode(mapped + seq!['='])
    } else {
        base64_decode(mapped)
    }
}

/// Decoding unpadded URL-safe base64 gives back the bytes encoded: the PKCE
/// verifier and challenge are exact encodings of their bytes.
pub proof fn lemma_base64url_round_trip(d: Seq<u8>)
    ensures
        base64url_decode(base64url(d)) == Some(d),
{
    lemma_base64_standard_padding(d);
    lemma_base64url_from_standard(d);
    lemma_base64_round_trip(d);
    let s = base64_standard(d);
    let u = base64url(d);
    let n = s.len() - padding_len(d.len());
    let mapped = u.map_values(|c: char| from_url_char(c));
    assert forall|i: int| 0 <= i < n implies mapped[i] == s[i] by {
        assert(is_standard_char(s[i]));
        assert(u[i] == if s[i] == '+' {
            '-'
        } else if s[i] == '/' {
            '_'
        } else {
            s[i]
        });
    }
    let k = (d.len() + 2) / 3;
    assert(s.len() == 4 * k);
    if d.len() % 3 == 0 {
        assert(padding_len(d.len()) == 0);
        assert(u.len() % 4 == 0);
        assert(mapped =~= s);
    } else if d.len() % 3 == 1 {
        assert(padding_len(d.len()) == 2);
        assert(u.len() % 4 == 2);
        assert(mapped + seq!['=', '='] =~= s);
    } else {
        assert(padding_len(d.len()) == 1);
        assert(u.len() % 4 == 3);
        assert(mapped + seq!['='] =~= s);
    }
}

} // verus!
