//! What holds of the proxy pool across operations: the pool stays free of
//! duplicate ids and URLs, and a lookup sees what the last change did.

use vstd::prelude::*;

use crate::proxy_pool::{
    add_outcome, batch_outcome, batch_step, first_with_id, has_id, has_url, lemma_first_with_id,
    lemma_first_with_id_at, lemma_first_with_id_none, lemma_max_id_attained, lemma_max_id_bound, max_id, next_after,
    proxy_url_check, url_of, without_id, BatchItem, PoolFault, PoolState, ProxyRecord, UrlLookup,
};
use crate::text::{lemma_trim_idempotent, starts_with, trim};

verus! {

/// The pool's invariant: ids are distinct, URLs are distinct, and every id
/// is below the next id to hand out.
pub open spec fn well_formed(pool: PoolState) -> bool {
    &&& forall|i: int, j: int|
        0 <= i < j < pool.entries.len() ==> #[trigger] pool.entries[i].id
            != #[trigger] pool.entries[j].id
    &&& forall|i: int, j: int|
        0 <= i < j < pool.entries.len() ==> #[trigger] pool.entries[i].url
            != #[trigger] pool.entries[j].url
    &&& forall|i: int| 0 <= i < pool.entries.len() ==> #[trigger] pool.entries[i].id < pool.next_id
}

proof fn lemma_push_well_formed(pool: PoolState, r: ProxyRecord)
    requires
        well_formed(pool),
        r.id == pool.next_id,
        pool.next_id < u64::MAX,
        !has_url(pool.entries, r.url),
    ensures
        well_formed(PoolState { entries: pool.entries.push(r), next_id: next_after(pool.next_id) }),
{
    let s = pool.entries.push(r);
    assert forall|i: int, j: int| 0 <= i < j < s.len() implies #[trigger] s[i].id != #[trigger] s[j].id
        && s[i].url != s[j].url by {
        assert(s[i] == pool.entries[i]);
        if j < pool.entries.len() {
            assert(s[j] == pool.entries[j]);
        } else {
            assert(s[j] == r);
            assert(pool.entries[i].url != r.url);
        }
    }
    assert forall|i: int| 0 <= i < s.len() implies #[trigger] s[i].id < next_after(pool.next_id) by {
        if i < pool.entries.len() {
            assert(s[i] == pool.entries[i]);
        }
    }
}

/// Adding a proxy keeps the pool free of duplicate ids and URLs, as long as
/// the id counter does not wrap around.
pub proof fn lemma_add_keeps_well_formed(pool: PoolState, url: Seq<char>, label: Option<Seq<char>>)
    requires
        well_formed(pool),
        pool.next_id < u64::MAX,
    ensures
        well_formed(add_outcome(pool, url, label).0),
{
    let u = trim(url);
    if u.len() > 0 && proxy_url_check(u) is Ok && !has_url(pool.entries, u) {
        lemma_push_well_formed(pool, ProxyRecord { id: pool.next_id, url: u, label, enabled: true });
    }
}

/// A batch moves the id counter by at most one per line, appends exactly the
/// entries it reports as added, and reports no more outcomes than lines.
pub proof fn lemma_batch_accounting(pool: PoolState, urls: Seq<Seq<char>>)
    requires
        pool.next_id + urls.len() <= u64::MAX,
    ensures
        batch_outcome(pool, urls).0.next_id == pool.next_id + batch_outcome(pool, urls).1.len(),
        batch_outcome(pool, urls).0.entries == pool.entries + batch_outcome(pool, urls).1,
        batch_outcome(pool, urls).1.len() + batch_outcome(pool, urls).2.len() <= urls.len(),
    decreases urls.len(),
{
    if urls.len() > 0 {
        lemma_batch_accounting(pool, urls.drop_last());
        let (p, added, errors) = batch_outcome(pool, urls.drop_last());
        let (p2, item) = batch_step(p, urls.last());
        if let BatchItem::Added(r) = item {
            assert(p2.entries =~= pool.entries + added.push(r));
        }
    }
}

/// Every entry a batch adds passed validation, and a batch keeps the pool
/// free of duplicate ids and URLs, as long as the id counter does not wrap.
pub proof fn lemma_batch_keeps_well_formed(pool: PoolState, urls: Seq<Seq<char>>)
    requires
        well_formed(pool),
        pool.next_id + urls.len() < u64::MAX,
    ensures
        well_formed(batch_outcome(pool, urls).0),
        forall|k: int|
            0 <= k < batch_outcome(pool, urls).1.len() ==> proxy_url_check(
                #[trigger] batch_outcome(pool, urls).1[k].url,
            ) is Ok,
    decreases urls.len(),
{
    if urls.len() > 0 {
        lemma_batch_keeps_well_formed(pool, urls.drop_last());
        lemma_batch_accounting(pool, urls.drop_last());
        let (p, added, errors) = batch_outcome(pool, urls.drop_last());
        let (p2, item) = batch_step(p, urls.last());
        if let BatchItem::Added(r) = item {
            lemma_push_well_formed(p, r);
            assert forall|k: int| 0 <= k < added.push(r).len() implies proxy_url_check(
                #[trigger] added.push(r)[k].url,
            ) is Ok by {
                if k < added.len() {
                    assert(added.push(r)[k] == added[k]);
                }
            }
        }
    }
}

proof fn lemma_without_id_members(s: Seq<ProxyRecord>, id: u64)
    ensures
        forall|k: int| 0 <= k < without_id(s, id).len() ==> #[trigger] without_id(s, id)[k].id != id,
        forall|k: int| 0 <= k < without_id(s, id).len() ==> s.contains(#[trigger] without_id(s, id)[k]),
    decreases s.len(),
{
    if s.len() > 0 {
        lemma_without_id_members(s.drop_last(), id);
        let w = without_id(s.drop_last(), id);
        assert forall|k: int| 0 <= k < without_id(s, id).len() implies #[trigger] without_id(
            s,
            id,
        )[k].id != id && s.contains(without_id(s, id)[k]) by {
            if k < w.len() {
                assert(without_id(s, id)[k] == w[k]);
                assert(s.drop_last().contains(w[k]));
                let j = choose|j: int| 0 <= j < s.drop_last().len() && s.drop_last()[j] == w[k];
                assert(s[j] == s.drop_last()[j]);
            } else {
                assert(without_id(s, id)[k] == s.last());
                assert(s[s.len() - 1] == s.last());
            }
        }
    }
}

proof fn lemma_without_id_well_formed(pool: PoolState, id: u64)
    requires
        well_formed(pool),
    ensures
        well_formed(PoolState { entries: without_id(pool.entries, id), next_id: pool.next_id }),
    decreases pool.entries.len(),
{
    let s = pool.entries;
    if s.len() > 0 {
        let sub = PoolState { entries: s.drop_last(), next_id: pool.next_id };
        assert forall|i: int, j: int| 0 <= i < j < sub.entries.len() implies #[trigger] sub.entries[i].id
            != #[trigger] sub.entries[j].id && sub.entries[i].url != sub.entries[j].url by {
            assert(sub.entries[i] == s[i]);
            assert(sub.entries[j] == s[j]);
        }
        assert forall|i: int| 0 <= i < sub.entries.len() implies #[trigger] sub.entries[i].id
            < sub.next_id by {
            assert(sub.entries[i] == s[i]);
        }
        lemma_without_id_well_formed(sub, id);
        lemma_without_id_members(s.drop_last(), id);
        let w = without_id(s.drop_last(), id);
        let last = s.last();
        if last.id != id {
            let r = w.push(last);
            assert forall|i: int, j: int| 0 <= i < j < r.len() implies #[trigger] r[i].id
                != #[trigger] r[j].id && r[i].url != r[j].url by {
                assert(r[i] == w[i]);
                if j < w.len() {
                    assert(r[j] == w[j]);
                } else {
                    assert(r[j] == last);
                    assert(s.drop_last().contains(w[i]));
                    let m = choose|m: int| 0 <= m < s.drop_last().len() && s.drop_last()[m] == w[i];
                    assert(s[m] == s.drop_last()[m]);
                    assert(s[s.len() - 1] == last);
                }
            }
            assert forall|i: int| 0 <= i < r.len() implies #[trigger] r[i].id < pool.next_id by {
                if i < w.len() {
                    assert(r[i] == w[i]);
                } else {
                    assert(s[s.len() - 1] == last);
                }
            }
        }
    }
}

/// Deleting keeps the pool free of duplicate ids and URLs.
pub proof fn lemma_delete_keeps_well_formed(pool: PoolState, id: u64)
    requires
        well_formed(pool),
    ensures
        well_formed(PoolState { entries: without_id(pool.entries, id), next_id: pool.next_id }),
{
    lemma_without_id_well_formed(pool, id);
}

/// Enabling or disabling an entry keeps the pool free of duplicate ids and
/// URLs.
pub proof fn lemma_set_enabled_keeps_well_formed(pool: PoolState, i: int, enabled: bool)
    requires
        well_formed(pool),
        0 <= i < pool.entries.len(),
    ensures
        well_formed(
            PoolState {
                entries: pool.entries.update(i, ProxyRecord { enabled, ..pool.entries[i] }),
                next_id: pool.next_id,
            },
        ),
{
    let s = pool.entries.update(i, ProxyRecord { enabled, ..pool.entries[i] });
    assert forall|a: int, b: int| 0 <= a < b < s.len() implies #[trigger] s[a].id != #[trigger] s[b].id
        && s[a].url != s[b].url by {
        assert(s[a].id == pool.entries[a].id && s[a].url == pool.entries[a].url);
        assert(s[b].id == pool.entries[b].id && s[b].url == pool.entries[b].url);
    }
    assert forall|a: int| 0 <= a < s.len() implies #[trigger] s[a].id < pool.next_id by {
        assert(s[a].id == pool.entries[a].id);
    }
}

/// A pool made from stored entries with distinct ids and distinct URLs is
/// well formed: the next id exceeds every stored one.
pub proof fn lemma_new_well_formed(entries: Seq<ProxyRecord>)
    requires
        forall|i: int, j: int| 0 <= i < j < entries.len() ==> #[trigger] entries[i].id != #[trigger] entries[j].id,
        forall|i: int, j: int| 0 <= i < j < entries.len() ==> #[trigger] entries[i].url != #[trigger] entries[j].url,
        forall|i: int| 0 <= i < entries.len() ==> #[trigger] entries[i].id < u64::MAX,
    ensures
        well_formed(PoolState { entries, next_id: (max_id(entries) + 1) as u64 }),
{
    lemma_max_id_bound(entries);
    if entries.len() > 0 {
        lemma_max_id_attained(entries);
    }
}

/// After a proxy is added, looking up its id gives its URL.
pub proof fn lemma_get_after_add(pool: PoolState, url: Seq<char>, label: Option<Seq<char>>)
    requires
        well_formed(pool),
    ensures
        add_outcome(pool, url, label).1 matches Ok(r) ==> url_of(add_outcome(pool, url, label).0.entries, r.id)
            == UrlLookup::Url(r.url),
{
    if let Ok(r) = add_outcome(pool, url, label).1 {
        let s = add_outcome(pool, url, label).0.entries;
        assert(s == pool.entries.push(r));
        assert forall|j: int| 0 <= j < s.len() - 1 implies s[j].id != r.id by {
            assert(s[j] == pool.entries[j]);
        }
        lemma_first_with_id_at(s, r.id, s.len() - 1);
    }
}

/// Adding a URL that was just added is refused as a duplicate.
pub proof fn lemma_add_twice_is_duplicate(
    pool: PoolState,
    url: Seq<char>,
    label: Option<Seq<char>>,
    label2: Option<Seq<char>>,
)
    ensures
        add_outcome(pool, url, label).1 is Ok ==> add_outcome(add_outcome(pool, url, label).0, url, label2).1
            == Err::<ProxyRecord, PoolFault>(PoolFault::DuplicateUrl(trim(url))),
{
    if let Ok(r) = add_outcome(pool, url, label).1 {
        let s = add_outcome(pool, url, label).0.entries;
        assert(s[s.len() - 1] == r);
        assert(s[s.len() - 1].url == trim(url));
        assert(has_url(s, trim(url)));
    }
}

/// After a delete, the id is gone: a lookup finds nothing and a second
/// delete is refused.
pub proof fn lemma_get_after_delete(entries: Seq<ProxyRecord>, id: u64)
    ensures
        url_of(without_id(entries, id), id) == UrlLookup::NotFound,
        !has_id(without_id(entries, id), id),
{
    lemma_without_id_members(entries, id);
    lemma_first_with_id_none(without_id(entries, id), id);
}

/// After the enabled flag of an entry is set, looking up its id answers its
/// URL when enabled and `Disabled` when not.
pub proof fn lemma_get_after_set_enabled(entries: Seq<ProxyRecord>, id: u64, enabled: bool)
    ensures
        first_with_id(entries, id) matches Some(i) ==> url_of(
            entries.update(i, ProxyRecord { enabled, ..entries[i] }),
            id,
        ) == if enabled {
            UrlLookup::Url(entries[i].url)
        } else {
            UrlLookup::Disabled
        },
{
    lemma_first_with_id(entries, id);
    if let Some(i) = first_with_id(entries, id) {
        let s = entries.update(i, ProxyRecord { enabled, ..entries[i] });
        assert forall|j: int| 0 <= j < i implies s[j].id != id by {
            assert(s[j] == entries[j]);
        }
        lemma_first_with_id_at(s, id, i);
    }
}


/// Whether a batch line is skipped: blank, or a `#` comment, once trimmed.
pub open spec fn is_skipped_line(u: Seq<char>) -> bool {
    trim(u).len() == 0 || starts_with(trim(u), "#"@)
}

/// The lines of a batch that are not skipped, in order.
pub open spec fn kept_lines(urls: Seq<Seq<char>>) -> Seq<Seq<char>>
    decreases urls.len(),
{
    if urls.len() == 0 {
        seq![]
    } else if is_skipped_line(urls.last()) {
        kept_lines(urls.drop_last())
    } else {
        kept_lines(urls.drop_last()).push(urls.last())
    }
}

/// Adding the lines `ks` one after another, each without a label: the final
/// state, the entries added and the refusals, in order.
pub open spec fn adds_in_turn(pool: PoolState, ks: Seq<Seq<char>>) -> (
    PoolState,
    Seq<ProxyRecord>,
    Seq<PoolFault>,
)
    decreases ks.len(),
{
    if ks.len() == 0 {
        (pool, seq![], seq![])
    } else {
        let (p, added, errors) = adds_in_turn(pool, ks.drop_last());
        let (p2, r) = add_outcome(p, ks.last(), None);
        match r {
            Ok(e) => (p2, added.push(e), errors),
            Err(f) => (p2, added, errors.push(f)),
        }
    }
}

/// A batch does what adding its non-skipped lines one after another (without
/// a label) does: the same final pool, the same entries added and the same
/// refusals, in order.
pub proof fn lemma_batch_is_adds_in_turn(pool: PoolState, urls: Seq<Seq<char>>)
    ensures
        batch_outcome(pool, urls) == adds_in_turn(pool, kept_lines(urls)),
    decreases urls.len(),
{
    if urls.len() > 0 {
        lemma_batch_is_adds_in_turn(pool, urls.drop_last());
        if !is_skipped_line(urls.last()) {
            let k = kept_lines(urls);
            assert(k.drop_last() =~= kept_lines(urls.drop_last()));
            assert(k.last() == urls.last());
        }
    }
}

/// Every non-skipped line of a batch yields exactly one outcome (an added
/// entry or a refusal) and skipped lines yield none.
pub proof fn lemma_batch_partition(pool: PoolState, urls: Seq<Seq<char>>)
    ensures
        batch_outcome(pool, urls).1.len() + batch_outcome(pool, urls).2.len() == kept_lines(
            urls,
        ).len(),
        batch_outcome(pool, urls).0.entries == pool.entries + batch_outcome(pool, urls).1,
    decreases urls.len(),
{
    if urls.len() > 0 {
        lemma_batch_partition(pool, urls.drop_last());
        let (p, added, errors) = batch_outcome(pool, urls.drop_last());
        let (p2, item) = batch_step(p, urls.last());
        if let BatchItem::Added(r) = item {
            assert(p2.entries =~= pool.entries + added.push(r));
        }
    }
}

/// Line `i` of a batch is added exactly when it is not skipped, passes
/// validation, and its trimmed URL is neither in the pool before the batch
/// nor among the entries the earlier lines added; otherwise a non-skipped
/// line is refused.
pub proof fn lemma_batch_line(pool: PoolState, urls: Seq<Seq<char>>, i: int)
    requires
        0 <= i < urls.len(),
    ensures
        ({
            let before = batch_outcome(pool, urls.take(i));
            let item = batch_step(before.0, urls[i]).1;
            &&& is_skipped_line(urls[i]) <==> item is Skipped
            &&& item is Added <==> (!is_skipped_line(urls[i]) && proxy_url_check(trim(urls[i])) is Ok
                && !has_url(pool.entries + before.1, trim(urls[i])))
        }),
{
    lemma_batch_partition(pool, urls.take(i));
}

/// Without a wrap of the id counter, a batch on a well-formed pool adds
/// entries with consecutive ids starting at the pool's next id (so above
/// every id it held), trimmed non-empty URLs, no label, and enabled.
pub proof fn lemma_batch_added_entries(pool: PoolState, urls: Seq<Seq<char>>)
    requires
        well_formed(pool),
        pool.next_id + urls.len() <= u64::MAX,
    ensures
        forall|k: int|
            0 <= k < batch_outcome(pool, urls).1.len() ==> {
                let e = #[trigger] batch_outcome(pool, urls).1[k];
                &&& e.id == pool.next_id + k
                &&& e.url == trim(e.url)
                &&& e.url.len() > 0
                &&& e.label is None
                &&& e.enabled
            },
        forall|k: int, j: int|
            0 <= k < batch_outcome(pool, urls).1.len() && 0 <= j < pool.entries.len()
                ==> #[trigger] pool.entries[j].id < #[trigger] batch_outcome(pool, urls).1[k].id,
    decreases urls.len(),
{
    if urls.len() > 0 {
        lemma_batch_added_entries(pool, urls.drop_last());
        lemma_batch_accounting(pool, urls.drop_last());
        let (p, added, errors) = batch_outcome(pool, urls.drop_last());
        let (p2, item) = batch_step(p, urls.last());
        if let BatchItem::Added(r) = item {
            lemma_trim_idempotent(urls.last());
            let a2 = added.push(r);
            assert forall|k: int| 0 <= k < a2.len() implies {
                let e = #[trigger] a2[k];
                &&& e.id == pool.next_id + k
                &&& e.url == trim(e.url)
                &&& e.url.len() > 0
                &&& e.label is None
                &&& e.enabled
            } by {
                if k < added.len() {
                    assert(a2[k] == added[k]);
                }
            }
            assert forall|k: int, j: int| 0 <= k < a2.len() && 0 <= j < pool.entries.len()
                implies #[trigger] pool.entries[j].id < #[trigger] a2[k].id by {
                if k < added.len() {
                    assert(a2[k] == added[k]);
                }
            }
        }
    }
}

/// A URL is refused as a duplicate only when it equals a stored URL: a
/// non-empty, valid trimmed URL that differs from every stored URL is added
/// with the next id (by `add` and by a batch line alike), and one equal to a
/// stored URL is refused as a duplicate.
pub proof fn lemma_duplicate_means_equal_url(pool: PoolState, url: Seq<char>, label: Option<Seq<char>>)
    requires
        trim(url).len() > 0,
        proxy_url_check(trim(url)) is Ok,
    ensures
        (forall|i: int| 0 <= i < pool.entries.len() ==> pool.entries[i].url != trim(url)) ==> {
            let r = ProxyRecord { id: pool.next_id, url: trim(url), label, enabled: true };
            &&& add_outcome(pool, url, label) == (
                PoolState { entries: pool.entries.push(r), next_id: next_after(pool.next_id) },
                Ok::<ProxyRecord, PoolFault>(r),
            )
            &&& !starts_with(trim(url), "#"@) ==> batch_step(pool, url).1 == BatchItem::Added(
                ProxyRecord { id: pool.next_id, url: trim(url), label: None, enabled: true },
            )
        },
        (exists|i: int| 0 <= i < pool.entries.len() && pool.entries[i].url == trim(url)) ==> {
            &&& add_outcome(pool, url, label).1 == Err::<ProxyRecord, PoolFault>(
                PoolFault::DuplicateUrl(trim(url)),
            )
            &&& add_outcome(pool, url, label).0 == pool
            &&& !starts_with(trim(url), "#"@) ==> batch_step(pool, url) == (
                pool,
                BatchItem::Rejected(PoolFault::DuplicateUrl(trim(url))),
            )
        },
{
}

} // verus!
