//! Query strings (`k1=v1&k2=v2`) as the OAuth callback sends them.

use vstd::prelude::*;

use crate::text::{
    chars_equal, chars_of, find_char, find_first, string_from_chars, sub_chars,
};
use crate::trusted::{url_decode, url_decoded};

verus! {

/// `s` cut at every `sep`, as `str::split` gives it: `n` separators give
/// `n + 1` pieces, empty ones included.
pub open spec fn split_on(s: Seq<char>, sep: char) -> Seq<Seq<char>>
    decreases s.len(),
{
    if s.len() == 0 {
        seq![seq![]]
    } else {
        let p = split_on(s.drop_last(), sep);
        if s.last() == sep {
            p.push(seq![])
        } else {
            p.update(p.len() - 1, p.last().push(s.last()))
        }
    }
}

/// `split_on` always yields at least one piece.
pub proof fn lemma_split_on_nonempty(s: Seq<char>, sep: char)
    ensures
        split_on(s, sep).len() >= 1,
    decreases s.len(),
{
    if s.len() > 0 {
        lemma_split_on_nonempty(s.drop_last(), sep);
    }
}

/// A string without the separator is a single piece.
pub proof fn lemma_split_on_no_sep(a: Seq<char>, sep: char)
    requires
        forall|j: int| 0 <= j < a.len() ==> a[j] != sep,
    ensures
        split_on(a, sep) == seq![a],
    decreases a.len(),
{
    if a.len() == 0 {
        assert(a =~= Seq::<char>::empty());
        assert(split_on(a, sep) =~= seq![a]);
    } else {
        assert(a.last() == a[a.len() - 1]);
        assert forall|j: int| 0 <= j < a.drop_last().len() implies a.drop_last()[j] != sep by {
            assert(a.drop_last()[j] == a[j]);
        }
        lemma_split_on_no_sep(a.drop_last(), sep);
        assert(a.drop_last().push(a.last()) =~= a);
        assert(split_on(a, sep) =~= seq![a]);
    }
}

/// Splitting at a separator splits the pieces: the pieces of `a`, then those
/// of `b`.
pub proof fn lemma_split_on_concat(a: Seq<char>, b: Seq<char>, sep: char)
    ensures
        split_on(a.push(sep) + b, sep) == split_on(a, sep) + split_on(b, sep),
    decreases b.len(),
{
    let s = a.push(sep) + b;
    if b.len() == 0 {
        assert(s =~= a.push(sep));
        assert(a.push(sep).drop_last() =~= a);
        assert(split_on(a, sep).push(seq![]) =~= split_on(a, sep) + split_on(b, sep));
    } else {
        assert(s.drop_last() =~= a.push(sep) + b.drop_last());
        assert(s.last() == b.last());
        lemma_split_on_concat(a, b.drop_last(), sep);
        lemma_split_on_nonempty(b.drop_last(), sep);
        let p = split_on(a, sep);
        let q = split_on(b.drop_last(), sep);
        if b.last() == sep {
            assert((p + q).push(seq![]) =~= p + q.push(seq![]));
        } else {
            assert((p + q).update((p + q).len() - 1, (p + q).last().push(b.last())) =~= p
                + q.update(q.len() - 1, q.last().push(b.last())));
        }
    }
}

/// A query value as the callback reads it: `+` taken as a space, then
/// percent-decoded; where the decoded bytes are not UTF-8 the value keeps
/// its spaces and stays undecoded.
pub open spec fn decode_value(v: Seq<char>) -> Seq<char> {
    let spaced = v.map_values(|c: char| if c == '+' { ' ' } else { c });
    match url_decoded(spaced) {
        Some(d) => d,
        None => spaced,
    }
}

/// One `key=value` piece: the key runs to the first `=`; without `=` the
/// whole piece is the key and the value is empty.
pub open spec fn parse_pair(piece: Seq<char>) -> (Seq<char>, Seq<char>) {
    match find_first(piece, '=') {
        Some(i) => (piece.take(i), decode_value(piece.skip(i + 1))),
        None => (piece, seq![]),
    }
}

/// The `(key, value)` pairs of a query string, in order.
pub open spec fn query_pairs(q: Seq<char>) -> Seq<(Seq<char>, Seq<char>)> {
    split_on(q, '&').map_values(|p: Seq<char>| parse_pair(p))
}

/// The value of `key` among `pairs`: the last pair with that key wins, as it
/// does when the pairs are collected into a map.
pub open spec fn lookup(pairs: Seq<(Seq<char>, Seq<char>)>, key: Seq<char>) -> Option<Seq<char>>
    decreases pairs.len(),
{
    if pairs.len() == 0 {
        None
    } else if pairs.last().0 == key {
        Some(pairs.last().1)
    } else {
        lookup(pairs.drop_last(), key)
    }
}

/// The parsed query string `q` as a map from key to value.
pub open spec fn query_param(q: Seq<char>, key: Seq<char>) -> Option<Seq<char>> {
    lookup(query_pairs(q), key)
}

/// The pieces joined back with `sep` between them.
pub open spec fn join_with(pieces: Seq<Seq<char>>, sep: char) -> Seq<char>
    decreases pieces.len(),
{
    if pieces.len() == 0 {
        seq![]
    } else if pieces.len() == 1 {
        pieces[0]
    } else {
        join_with(pieces.drop_last(), sep).push(sep) + pieces.last()
    }
}

/// Splitting loses nothing and cuts at every separator: no piece holds the
/// separator, and joining the pieces with it gives the string back.
pub proof fn lemma_split_on_join(s: Seq<char>, sep: char)
    ensures
        join_with(split_on(s, sep), sep) == s,
        forall|k: int, j: int|
            0 <= k < split_on(s, sep).len() && 0 <= j < split_on(s, sep)[k].len() ==> #[trigger] split_on(
                s,
                sep,
            )[k][j] != sep,
    decreases s.len(),
{
    if s.len() == 0 {
        assert(split_on(s, sep) =~= seq![seq![]]);
        assert(s =~= Seq::<char>::empty());
    } else {
        let p = split_on(s.drop_last(), sep);
        lemma_split_on_join(s.drop_last(), sep);
        lemma_split_on_nonempty(s.drop_last(), sep);
        let c = s.last();
        if c == sep {
            let q = p.push(seq![]);
            assert(q.drop_last() =~= p);
            assert(join_with(q, sep) =~= s);
            assert forall|k: int, j: int|
                0 <= k < q.len() && 0 <= j < q[k].len() implies #[trigger] q[k][j] != sep by {
                assert(q[k] == p[k]);
            }
        } else {
            let q = p.update(p.len() - 1, p.last().push(c));
            if p.len() == 1 {
                assert(join_with(p, sep) == p[0]);
                assert(join_with(q, sep) == q[0]);
                assert(join_with(q, sep) =~= s);
            } else {
                assert(q.drop_last() =~= p.drop_last());
                assert(join_with(p.drop_last(), sep).push(sep) + p.last().push(c) =~= (join_with(
                    p.drop_last(),
                    sep,
                ).push(sep) + p.last()).push(c));
                assert(join_with(q, sep) =~= s);
            }
            assert forall|k: int, j: int|
                0 <= k < q.len() && 0 <= j < q[k].len() implies #[trigger] q[k][j] != sep by {
                if k < p.len() - 1 {
                    assert(q[k] == p[k]);
                } else if j < p.last().len() {
                    assert(q[k][j] == p[p.len() - 1][j]);
                }
            }
        }
    }
}

/// The value looked up for `key` is that of the last pair with the key, as
/// when the pairs are collected into a map; `None` when no pair has it.
pub proof fn lemma_lookup_last(pairs: Seq<(Seq<char>, Seq<char>)>, key: Seq<char>)
    ensures
        lookup(pairs, key) matches Some(v) ==> exists|i: int|
            0 <= i < pairs.len() && #[trigger] pairs[i] == (key, v) && forall|j: int|
                i < j < pairs.len() ==> pairs[j].0 != key,
        lookup(pairs, key) is None ==> forall|j: int| 0 <= j < pairs.len() ==> pairs[j].0 != key,
    decreases pairs.len(),
{
    if pairs.len() > 0 {
        let n = pairs.len() - 1;
        assert(pairs.last() == pairs[n]);
        if pairs.last().0 != key {
            lemma_lookup_last(pairs.drop_last(), key);
            assert forall|j: int| 0 <= j < n implies pairs[j] == pairs.drop_last()[j] by {}
            if let Some(v) = lookup(pairs, key) {
                let i = choose|i: int|
                    0 <= i < pairs.drop_last().len() && #[trigger] pairs.drop_last()[i] == (key, v)
                        && forall|j: int| i < j < pairs.drop_last().len() ==> pairs.drop_last()[j].0 != key;
                assert(pairs[i] == (key, v));
                assert forall|j: int| i < j < pairs.len() implies pairs[j].0 != key by {
                    if j < n {
                        assert(pairs[j] == pairs.drop_last()[j]);
                    }
                }
            }
        } else {
            assert(pairs[n] == (key, pairs.last().1));
        }
    }
}

/// The views of a list of character-string pairs.
pub open spec fn pairs_view(v: Seq<(Vec<char>, Vec<char>)>) -> Seq<(Seq<char>, Seq<char>)> {
    v.map_values(|p: (Vec<char>, Vec<char>)| (p.0@, p.1@))
}

/// The views of a list of character strings.
pub open spec fn pieces_view(v: Seq<Vec<char>>) -> Seq<Seq<char>> {
    v.map_values(|p: Vec<char>| p@)
}

fn split_chars(s: &[char], sep: char) -> (res: Vec<Vec<char>>)
    ensures
        pieces_view(res@) == split_on(s@, sep),
{
    let mut pieces: Vec<Vec<char>> = Vec::new();
    let mut cur: Vec<char> = Vec::new();
    let n = s.len();
    let mut i: usize = 0;
    assert(s@.take(0) =~= Seq::<char>::empty());
    assert(pieces_view(pieces@).push(cur@) =~= split_on(s@.take(0), sep));
    while i < n
        invariant
            i <= n,
            n == s@.len(),
            pieces_view(pieces@).push(cur@) == split_on(s@.take(i as int), sep),
        decreases n - i,
    {
        let c = s[i];
        assert(s@.take(i + 1).drop_last() =~= s@.take(i as int));
        assert(s@.take(i + 1).last() == c);
        proof {
            lemma_split_on_nonempty(s@.take(i as int), sep);
        }
        if c == sep {
            let done = cur;
            pieces.push(done);
            cur = Vec::new();
            assert(pieces_view(pieces@).push(cur@) =~= split_on(s@.take(i + 1), sep));
        } else {
            let ghost before = pieces_view(pieces@).push(cur@);
            cur.push(c);
            assert(pieces_view(pieces@).push(cur@) =~= before.update(
                before.len() - 1,
                before.last().push(c),
            ));
        }
        i = i + 1;
    }
    assert(s@.take(n as int) =~= s@);
    let ghost before = pieces_view(pieces@).push(cur@);
    pieces.push(cur);
    assert(pieces_view(pieces@) =~= before);
    pieces
}

fn plus_to_space(v: &[char]) -> (res: Vec<char>)
    ensures
        res@ == v@.map_values(|c: char| if c == '+' { ' ' } else { c }),
{
    let mut out: Vec<char> = Vec::new();
    let n = v.len();
    let mut i: usize = 0;
    while i < n
        invariant
            i <= n,
            n == v@.len(),
            out@ == v@.take(i as int).map_values(|c: char| if c == '+' { ' ' } else { c }),
        decreases n - i,
    {
        if v[i] == '+' {
            out.push(' ');
        } else {
            out.push(v[i]);
        }
        assert(out@ =~= v@.take(i + 1).map_values(|c: char| if c == '+' { ' ' } else { c }));
        i = i + 1;
    }
    assert(v@.take(n as int) =~= v@);
    out
}

fn decode_value_chars(v: &[char]) -> (res: Vec<char>)
    ensures
        res@ == decode_value(v@),
{
    let spaced = plus_to_space(v);
    let as_string = string_from_chars(spaced.as_slice());
    match url_decode(as_string.as_str()) {
        Some(decoded) => chars_of(decoded.as_str()),
        None => spaced,
    }
}

fn parse_pair_chars(piece: &[char]) -> (res: (Vec<char>, Vec<char>))
    ensures
        (res.0@, res.1@) == parse_pair(piece@),
{
    let found = find_char(piece, '=');
    proof {
        crate::text::lemma_find_first(piece@, '=');
    }
    match found {
        Some(i) => {
            let len = piece.len();
            assert(i < len);
            let key = sub_chars(piece, 0, i);
            let raw = sub_chars(piece, i + 1, len);
            assert(key@ =~= piece@.take(i as int));
            assert(raw@ =~= piece@.skip(i + 1));
            let value = decode_value_chars(raw.as_slice());
            (key, value)
        },
        None => {
            let key = sub_chars(piece, 0, piece.len());
            assert(key@ =~= piece@);
            (key, Vec::new())
        },
    }
}

/// The `(key, value)` pairs of the query string `query`, in order.
pub fn parse_query_string(query: &[char]) -> (res: Vec<(Vec<char>, Vec<char>)>)
    ensures
        pairs_view(res@) == query_pairs(query@),
{
    let pieces = split_chars(query, '&');
    let mut out: Vec<(Vec<char>, Vec<char>)> = Vec::new();
    let n = pieces.len();
    let mut i: usize = 0;
    while i < n
        invariant
            i <= n,
            n == pieces@.len(),
            pieces_view(pieces@) == split_on(query@, '&'),
            pairs_view(out@) == pieces_view(pieces@).take(i as int).map_values(
                |p: Seq<char>| parse_pair(p),
            ),
        decreases n - i,
    {
        let pair = parse_pair_chars(pieces[i].as_slice());
        assert(pieces_view(pieces@)[i as int] == pieces@[i as int]@);
        let ghost before = pairs_view(out@);
        out.push(pair);
        assert(pairs_view(out@) =~= before.push((pair.0@, pair.1@)));
        assert(pairs_view(out@) =~= pieces_view(pieces@).take(i + 1).map_values(
            |p: Seq<char>| parse_pair(p),
        ));
        i = i + 1;
    }
    assert(pieces_view(pieces@).take(n as int) =~= pieces_view(pieces@));
    out
}

/// The value of `key` in `pairs`, the last pair with that key winning.
pub fn query_get(pairs: &Vec<(Vec<char>, Vec<char>)>, key: &[char]) -> (res: Option<Vec<char>>)
    ensures
        match res {
            Some(v) => lookup(pairs_view(pairs@), key@) == Some(v@),
            None => lookup(pairs_view(pairs@), key@) is None,
        },
{
    let mut i: usize = pairs.len();
    assert(pairs_view(pairs@).take(i as int) =~= pairs_view(pairs@));
    while i > 0
        invariant
            i <= pairs@.len(),
            lookup(pairs_view(pairs@), key@) == lookup(pairs_view(pairs@).take(i as int), key@),
        decreases i,
    {
        let ghost t = pairs_view(pairs@).take(i as int);
        assert(t.last() == (pairs@[i - 1].0@, pairs@[i - 1].1@));
        if chars_equal(pairs[i - 1].0.as_slice(), key) {
            let v = sub_chars(pairs[i - 1].1.as_slice(), 0, pairs[i - 1].1.len());
            assert(v@ =~= pairs@[i - 1].1@);
            return Some(v);
        }
        assert(t.drop_last() =~= pairs_view(pairs@).take(i - 1));
        i = i - 1;
    }
    None
}

} // verus!
