//! The query engine: public result items, query parameters, conversion of
//! local and remote hits, the type filter on remote hits, stable descending
//! ranking by term hits, and pagination.

use vstd::prelude::*;

use crate::index::{opt_view, LocalItemSnap};
use crate::index::SearchResultItem as LocalResultItem;
use crate::remote::SearchResultItem as RemoteResultItem;
use crate::index::keys_contain;
use crate::magnet::{fixed_tracker, default_trackers, Link, LinkSnap};
use crate::mime::{mime_first, mime_full_first, mime_top_levels, mime_tops};
use crate::remote::{item_tokens, remote_views, score_count, RemoteItemSnap};
use crate::text::{nonempty_fields, retain_nonempty, seq_views, split_on, split_spaces, uspace_pred};
use crate::types::{DateTime, FileSize, NormalizedToken};

verus! {

/// One public search hit, as the HTTP layer serializes it: a local hit
/// carries the object key, a remote one the torrent name and file path;
/// both carry the score, the info-hash, a MIME guess, a timestamp, and a
/// magnet link.
pub struct SearchResultItem {
    pub replica_s3_key: Option<String>,
    pub search_term_hits: usize,
    pub info_hash: String,
    pub file_path: Option<String>,
    pub file_size: FileSize,
    pub torrent_name: Option<String>,
    pub mime_type: Option<String>,
    pub last_modified: DateTime,
    pub replica_link: Link,
}

/// The mathematical value of a public search hit.
#[verifier::ext_equal]
pub ghost struct ItemSnap {
    pub replica_s3_key: Option<Seq<char>>,
    pub search_term_hits: nat,
    pub info_hash: Seq<char>,
    pub file_path: Option<Seq<char>>,
    pub file_size: FileSize,
    pub torrent_name: Option<Seq<char>>,
    pub mime_type: Option<Seq<char>>,
    pub last_modified: DateTime,
    pub replica_link: LinkSnap,
}

impl View for SearchResultItem {
    type V = ItemSnap;

    open spec fn view(&self) -> ItemSnap {
        ItemSnap {
            replica_s3_key: opt_view(self.replica_s3_key),
            search_term_hits: self.search_term_hits as nat,
            info_hash: self.info_hash@,
            file_path: opt_view(self.file_path),
            file_size: self.file_size,
            torrent_name: opt_view(self.torrent_name),
            mime_type: opt_view(self.mime_type),
            last_modified: self.last_modified,
            replica_link: self.replica_link@,
        }
    }
}

/// The views of public search hits.
pub open spec fn item_views(s: Seq<SearchResultItem>) -> Seq<ItemSnap> {
    Seq::new(s.len(), |i: int| s[i]@)
}

/// A query as it arrives at the HTTP layer: the raw term string, paging,
/// and an optional MIME top-level filter.
pub struct SearchQuery {
    pub s: String,
    pub offset: Option<usize>,
    pub limit: Option<usize>,
    pub type_: Option<String>,
}

/// The query terms: the raw string split at Unicode whitespace, empties
/// dropped.
pub open spec fn query_terms(s: Seq<char>) -> Seq<Seq<char>> {
    nonempty_fields(split_on(s, uspace_pred()))
}

impl SearchQuery {
    /// The query terms of the raw string.
    pub fn terms(&self) -> (r: Vec<String>)
        ensures
            seq_views(r@) == query_terms(self.s@),
    {
        retain_nonempty(split_spaces(self.s.as_str()))
    }

    /// The index-level query: the terms split out, paging and type kept.
    pub fn into_query(self) -> (r: crate::index::Query)
        ensures
            seq_views(r.terms@) == query_terms(self.s@),
            r.offset == self.offset,
            r.limit == self.limit,
            opt_view(r.type_) == opt_view(self.type_),
    {
        let terms = self.terms();
        crate::index::Query { terms, offset: self.offset, limit: self.limit, type_: self.type_ }
    }
}

/// What a local hit becomes: key, score and record carried over, the MIME
/// type taken from the filter when one was given (else guessed from the
/// key), and a magnet link with the hex info-hash, the key as display
/// name, a `replica:` exact source, the bucket URL as acceptable source,
/// and the fixed tracker.
pub open spec fn local_snap(t: LocalItemSnap, ty: Option<Seq<char>>) -> ItemSnap {
    ItemSnap {
        replica_s3_key: Some(t.s3_key),
        search_term_hits: t.token_hits,
        info_hash: crate::types::hex_of(t.info_hash),
        file_path: None,
        file_size: t.size,
        torrent_name: None,
        mime_type: match ty {
            Some(m) => Some(m),
            None => mime_first(t.s3_key),
        },
        last_modified: t.last_modified,
        replica_link: LinkSnap {
            info_hash: Some(crate::types::hex_of(t.info_hash)),
            display_name: Some(t.s3_key),
            trackers: seq![fixed_tracker()],
            acceptable_source: Some(
                "https://getlantern-replica.s3-ap-southeast-1.amazonaws.com/"@ + t.s3_key,
            ),
            exact_source: Some("replica:"@ + t.s3_key),
        },
    }
}

/// What a remote hit becomes: scored by how many folded query terms occur
/// among the folded tokens of its torrent name and file path, its MIME
/// guessed from the file path, and a magnet link with the info-hash and a
/// `name/path` display name, without trackers or sources.
pub open spec fn remote_snap(t: RemoteItemSnap, qs: Seq<Seq<char>>) -> ItemSnap {
    ItemSnap {
        replica_s3_key: None,
        search_term_hits: score_count(item_tokens(t.torrent_name, t.file_path), qs),
        info_hash: t.info_hash,
        file_path: Some(t.file_path),
        file_size: t.size,
        torrent_name: Some(t.torrent_name),
        mime_type: mime_first(t.file_path),
        last_modified: t.age,
        replica_link: LinkSnap {
            info_hash: Some(t.info_hash),
            display_name: Some(t.torrent_name + "/"@ + t.file_path),
            trackers: Seq::<Seq<char>>::empty(),
            acceptable_source: None,
            exact_source: None,
        },
    }
}

/// Whether a remote hit passes the type filter: always without one, else
/// exactly when the filter type is among the MIME top-level guesses for
/// the file path.
pub open spec fn remote_type_ok(path: Seq<char>, ty: Option<Seq<char>>) -> bool {
    match ty {
        None => true,
        Some(m) => mime_tops(path).contains(m),
    }
}

/// The remote hits that pass the type filter, converted, in order.
pub open spec fn remote_kept(
    ts: Seq<RemoteItemSnap>,
    ty: Option<Seq<char>>,
    qs: Seq<Seq<char>>,
) -> Seq<ItemSnap>
    decreases ts.len(),
{
    if ts.len() == 0 {
        Seq::<ItemSnap>::empty()
    } else {
        (if remote_type_ok(ts[0].file_path, ty) {
            seq![remote_snap(ts[0], qs)]
        } else {
            Seq::<ItemSnap>::empty()
        }) + remote_kept(ts.drop_first(), ty, qs)
    }
}

proof fn lemma_remote_kept_snoc(
    ts: Seq<RemoteItemSnap>,
    ty: Option<Seq<char>>,
    qs: Seq<Seq<char>>,
    t: RemoteItemSnap,
)
    ensures
        remote_kept(ts.push(t), ty, qs) == remote_kept(ts, ty, qs) + (if remote_type_ok(
            t.file_path,
            ty,
        ) {
            seq![remote_snap(t, qs)]
        } else {
            Seq::<ItemSnap>::empty()
        }),
    decreases ts.len(),
{
    let tail = (if remote_type_ok(t.file_path, ty) {
        seq![remote_snap(t, qs)]
    } else {
        Seq::<ItemSnap>::empty()
    });
    if ts.len() == 0 {
        assert(ts.push(t)[0] == t);
        assert(ts.push(t).drop_first() =~= Seq::<RemoteItemSnap>::empty());
        assert(remote_kept(ts.push(t), ty, qs) == tail + remote_kept(
            ts.push(t).drop_first(),
            ty,
            qs,
        ));
        assert(remote_kept(ts.push(t).drop_first(), ty, qs) == Seq::<ItemSnap>::empty());
        assert(tail + Seq::<ItemSnap>::empty() =~= tail);
        assert(remote_kept(ts, ty, qs) + tail =~= tail);
    } else {
        lemma_remote_kept_snoc(ts.drop_first(), ty, qs, t);
        assert(ts.push(t).drop_first() =~= ts.drop_first().push(t));
        assert(ts.push(t)[0] == ts[0]);
        assert(remote_kept(ts.push(t), ty, qs) =~= remote_kept(ts, ty, qs) + tail);
    }
}

impl SearchResultItem {
    /// Converts one upstream hit, scoring it against the folded query terms.
    pub fn from_bittorrent(
        t: &crate::remote::SearchResultItem,
        terms: &Vec<NormalizedToken>,
    ) -> (r: Self)
        ensures
            r@ == remote_snap(t@, crate::index::tok_views(terms@)),
    {
        let hits = t.score(terms);
        let mut dn = t.torrent_name.clone();
        dn.append("/");
        dn.append(t.file_path.as_str());
        let r = SearchResultItem {
            replica_s3_key: None,
            search_term_hits: hits,
            info_hash: t.info_hash.clone(),
            file_path: Some(t.file_path.clone()),
            file_size: t.size,
            torrent_name: Some(t.torrent_name.clone()),
            mime_type: mime_full_first(t.path_str()),
            last_modified: t.age,
            replica_link: Link {
                info_hash: Some(t.info_hash.clone()),
                display_name: Some(dn),
                trackers: Vec::new(),
                acceptable_source: None,
                exact_source: None,
            },
        };
        proof {
            assert(seq_views(r.replica_link.trackers@) =~= Seq::<Seq<char>>::empty());
            assert(r@ =~= remote_snap(t@, crate::index::tok_views(terms@)));
        }
        r
    }

    /// Converts one local hit; with a type filter its type is the filter's
    /// (the key is in that bucket), else the first MIME guess for the key.
    pub fn from_search_index(
        t: &crate::index::SearchResultItem,
        search_type: Option<String>,
    ) -> (r: Self)
        ensures
            r@ == local_snap(t@, opt_view(search_type)),
    {
        let hex = t.info_hash.hex();
        let mut xs = String::from_str("replica:");
        xs.append(t.s3_key.as_str());
        let mut acc = String::from_str("https://getlantern-replica.s3-ap-southeast-1.amazonaws.com/");
        acc.append(t.s3_key.as_str());
        let mime = match &search_type {
            Some(m) => Some(m.clone()),
            None => mime_full_first(t.s3_key.as_str()),
        };
        let r = SearchResultItem {
            replica_s3_key: Some(t.s3_key.clone()),
            search_term_hits: t.token_hits,
            info_hash: hex,
            file_path: None,
            file_size: t.size,
            torrent_name: None,
            mime_type: mime,
            last_modified: t.last_modified,
            replica_link: Link {
                info_hash: Some(t.info_hash.hex()),
                display_name: Some(t.s3_key.clone()),
                trackers: default_trackers(),
                acceptable_source: Some(acc),
                exact_source: Some(xs),
            },
        };
        proof {
            assert(r@ =~= local_snap(t@, opt_view(search_type)));
        }
        r
    }
}

/// Ranking: each item inserted behind every already-ranked item of equal
/// or higher score, so the order is descending by score and items of equal
/// score keep their arrival order.
pub open spec fn stable_insert(sorted: Seq<ItemSnap>, x: ItemSnap) -> Seq<ItemSnap>
    decreases sorted.len(),
{
    if sorted.len() == 0 {
        seq![x]
    } else if sorted.last().search_term_hits >= x.search_term_hits {
        sorted.push(x)
    } else {
        stable_insert(sorted.drop_last(), x).push(sorted.last())
    }
}

/// The ranking of a whole result list, item by item.
pub open spec fn rank_items(s: Seq<ItemSnap>) -> Seq<ItemSnap>
    decreases s.len(),
{
    if s.len() == 0 {
        Seq::<ItemSnap>::empty()
    } else {
        stable_insert(rank_items(s.drop_last()), s.last())
    }
}

/// Descending score order.
pub open spec fn sorted_desc(s: Seq<ItemSnap>) -> bool {
    forall|i: int, j: int|
        0 <= i < j < s.len() ==> (#[trigger] s[i]).search_term_hits >= (
        #[trigger] s[j]).search_term_hits
}

/// Every element of an insertion is the inserted item or one of the list's.
proof fn lemma_insert_elements(s: Seq<ItemSnap>, x: ItemSnap, i: int)
    requires
        0 <= i < stable_insert(s, x).len(),
    ensures
        stable_insert(s, x)[i] == x || s.contains(stable_insert(s, x)[i]),
    decreases s.len(),
{
    if s.len() == 0 {
    } else if s.last().search_term_hits >= x.search_term_hits {
        if i < s.len() {
            assert(s[i] == stable_insert(s, x)[i]);
            assert(s.contains(s[i]));
        }
    } else {
        let r = stable_insert(s.drop_last(), x).push(s.last());
        if i < r.len() - 1 {
            lemma_insert_elements(s.drop_last(), x, i);
            if s.drop_last().contains(r[i]) {
                let w = choose|w: int|
                    0 <= w < s.drop_last().len() && s.drop_last()[w] == r[i];
                assert(s[w] == r[i]);
                assert(s.contains(r[i]));
            }
        } else {
            assert(r[i] == s.last());
            assert(s[s.len() - 1] == s.last());
            assert(s.contains(s.last()));
        }
    }
}

/// Insertion keeps the list sorted.
proof fn lemma_insert_sorted(s: Seq<ItemSnap>, x: ItemSnap)
    requires
        sorted_desc(s),
    ensures
        sorted_desc(stable_insert(s, x)),
    decreases s.len(),
{
    if s.len() == 0 {
    } else if s.last().search_term_hits >= x.search_term_hits {
        let r = s.push(x);
        assert forall|i: int, j: int|
            0 <= i < j < r.len() implies (#[trigger] r[i]).search_term_hits >= (
        #[trigger] r[j]).search_term_hits by {
            if j == r.len() - 1 {
                assert(r[j] == x);
                if i < s.len() - 1 {
                    assert(s[i].search_term_hits >= s[s.len() - 1].search_term_hits);
                }
                assert(r[i] == s[i]);
            } else {
                assert(r[i] == s[i] && r[j] == s[j]);
            }
        }
    } else {
        let dl = s.drop_last();
        assert(forall|i: int, j: int|
            0 <= i < j < dl.len() ==> (#[trigger] dl[i]).search_term_hits >= (
            #[trigger] dl[j]).search_term_hits);
        lemma_insert_sorted(dl, x);
        let t = stable_insert(dl, x);
        assert forall|i: int| 0 <= i < t.len() implies (#[trigger] t[i]).search_term_hits
            >= s.last().search_term_hits by {
            lemma_insert_elements(dl, x, i);
            if t[i] != x {
                let w = choose|w: int| 0 <= w < dl.len() && dl[w] == t[i];
                assert(s[w] == dl[w]);
                assert(s[w].search_term_hits >= s[s.len() - 1].search_term_hits);
            }
        }
        let r = t.push(s.last());
        assert forall|i: int, j: int|
            0 <= i < j < r.len() implies (#[trigger] r[i]).search_term_hits >= (
        #[trigger] r[j]).search_term_hits by {
            if j == r.len() - 1 {
                assert(r[i] == t[i]);
            } else {
                assert(r[i] == t[i] && r[j] == t[j]);
            }
        }
    }
}

/// The ranking is sorted: scores never increase along the result.
pub proof fn lemma_rank_sorted(s: Seq<ItemSnap>)
    ensures
        sorted_desc(rank_items(s)),
    decreases s.len(),
{
    if s.len() != 0 {
        lemma_rank_sorted(s.drop_last());
        lemma_insert_sorted(rank_items(s.drop_last()), s.last());
    }
}

/// The items of one score.
pub open spec fn hits_pred(h: nat) -> spec_fn(ItemSnap) -> bool {
    |it: ItemSnap| it.search_term_hits == h
}

proof fn lemma_insert_filter(s: Seq<ItemSnap>, x: ItemSnap, h: nat)
    ensures
        stable_insert(s, x).filter(hits_pred(h)) == (if x.search_term_hits == h {
            s.filter(hits_pred(h)).push(x)
        } else {
            s.filter(hits_pred(h))
        }),
    decreases s.len(),
{
    reveal_with_fuel(Seq::<_>::filter, 2);
    if s.len() == 0 {
        assert(stable_insert(s, x) =~= seq![x]);
        assert(seq![x].drop_last() =~= Seq::<ItemSnap>::empty());
        assert(s.filter(hits_pred(h)) =~= Seq::<ItemSnap>::empty());
    } else if s.last().search_term_hits >= x.search_term_hits {
        let r = s.push(x);
        assert(r.drop_last() =~= s);
        assert(r.last() == x);
    } else {
        let dl = s.drop_last();
        lemma_insert_filter(dl, x, h);
        let t = stable_insert(dl, x);
        let r = t.push(s.last());
        assert(r.drop_last() =~= t);
        assert(r.last() == s.last());
        if x.search_term_hits == h {
            assert(s.last().search_term_hits != h);
            assert(!hits_pred(h)(s.last()));
            assert(r.filter(hits_pred(h)) == t.filter(hits_pred(h)));
            assert(s.filter(hits_pred(h)) == dl.filter(hits_pred(h)));
        } else {
            if hits_pred(h)(s.last()) {
                assert(r.filter(hits_pred(h)) == t.filter(hits_pred(h)).push(s.last()));
                assert(s.filter(hits_pred(h)) == dl.filter(hits_pred(h)).push(s.last()));
            } else {
                assert(r.filter(hits_pred(h)) == t.filter(hits_pred(h)));
                assert(s.filter(hits_pred(h)) == dl.filter(hits_pred(h)));
            }
        }
    }
}

/// The ranking keeps arrival order within one score: the subsequence of the
/// items scoring `h` is the same before and after ranking, for every `h`.
pub proof fn lemma_rank_stable(s: Seq<ItemSnap>, h: nat)
    ensures
        rank_items(s).filter(hits_pred(h)) == s.filter(hits_pred(h)),
    decreases s.len(),
{
    reveal_with_fuel(Seq::<_>::filter, 2);
    if s.len() != 0 {
        lemma_rank_stable(s.drop_last(), h);
        lemma_insert_filter(rank_items(s.drop_last()), s.last(), h);
    }
}

/// Ties break the same way on every query of one index state: two scored
/// lists that agree on the items of one score (as two queries tying the
/// same keys produce, since `get_matches` emits candidates in stored order
/// whatever the terms are) are ranked with that score's items in the same
/// order.
pub proof fn lemma_tie_order_query_independent(s1: Seq<ItemSnap>, s2: Seq<ItemSnap>, h: nat)
    requires
        s1.filter(hits_pred(h)) == s2.filter(hits_pred(h)),
    ensures
        rank_items(s1).filter(hits_pred(h)) == rank_items(s2).filter(hits_pred(h)),
{
    lemma_rank_stable(s1, h);
    lemma_rank_stable(s2, h);
}

/// Inserting at the boundary of the strictly-lower suffix is what
/// `stable_insert` does.
proof fn lemma_insert_at(s: Seq<ItemSnap>, x: ItemSnap, j: int)
    requires
        0 <= j <= s.len(),
        forall|idx: int|
            j <= idx < s.len() ==> (#[trigger] s[idx]).search_term_hits < x.search_term_hits,
        j > 0 ==> s[j - 1].search_term_hits >= x.search_term_hits,
    ensures
        stable_insert(s, x) == s.take(j) + seq![x] + s.skip(j),
    decreases s.len() - j,
{
    if j == s.len() {
        if s.len() == 0 {
            assert(stable_insert(s, x) =~= s.take(j) + seq![x] + s.skip(j));
        } else {
            assert(s.last().search_term_hits >= x.search_term_hits);
            assert(stable_insert(s, x) =~= s.take(j) + seq![x] + s.skip(j));
        }
    } else {
        assert(s[s.len() - 1].search_term_hits < x.search_term_hits);
        let dl = s.drop_last();
        assert(forall|idx: int|
            j <= idx < dl.len() ==> (#[trigger] dl[idx]).search_term_hits
                < x.search_term_hits);
        if j > 0 {
            assert(dl[j - 1] == s[j - 1]);
        }
        lemma_insert_at(dl, x, j);
        assert(stable_insert(s, x) == stable_insert(dl, x).push(s.last()));
        assert((dl.take(j) + seq![x] + dl.skip(j)).push(s.last()) =~= s.take(j) + seq![x]
            + s.skip(j));
    }
}

/// Inserts one item into an already ranked list, behind its equals.
fn insert_ranked(v: &mut Vec<SearchResultItem>, x: SearchResultItem)
    ensures
        item_views(final(v)@) == stable_insert(item_views(old(v)@), x@),
{
    let mut j: usize = v.len();
    while j > 0 && v[j - 1].search_term_hits < x.search_term_hits
        invariant
            0 <= j <= v@.len(),
            forall|idx: int|
                j <= idx < v@.len() ==> (#[trigger] v@[idx]@).search_term_hits
                    < x@.search_term_hits,
        decreases j,
    {
        j -= 1;
    }
    proof {
        let iv = item_views(v@);
        assert(forall|idx: int|
            j <= idx < iv.len() ==> (#[trigger] iv[idx]).search_term_hits
                < x@.search_term_hits);
        if j > 0 {
            assert(iv[j - 1] == v@[j - 1]@);
        }
        lemma_insert_at(iv, x@, j as int);
    }
    let ghost ov = v@;
    v.insert(j, x);
    proof {
        assert(item_views(v@) =~= item_views(ov).take(j as int) + seq![v@[j as int]@]
            + item_views(ov).skip(j as int));
    }
}

/// Ranks a result list: descending by term hits, ties in arrival order.
pub fn rank_results(items: Vec<SearchResultItem>) -> (r: Vec<SearchResultItem>)
    ensures
        item_views(r@) == rank_items(item_views(items@)),
{
    let ghost orig = item_views(items@);
    let mut items = items;
    let mut out: Vec<SearchResultItem> = Vec::new();
    proof {
        assert(orig.take(0) =~= Seq::<ItemSnap>::empty());
        assert(item_views(out@) =~= rank_items(orig.take(0)));
        assert(item_views(items@) =~= orig.skip(0));
    }
    let ghost mut k: int = 0;
    while items.len() > 0
        invariant
            0 <= k <= orig.len(),
            item_views(items@) == orig.skip(k),
            item_views(out@) == rank_items(orig.take(k)),
        decreases items@.len(),
    {
        let ghost oi = items@;
        proof {
            assert(item_views(oi).len() == oi.len());
        }
        let x = items.remove(0);
        proof {
            assert(x == oi[0]);
            assert(x@ == item_views(oi)[0]);
            assert(x@ == orig.skip(k)[0]);
            assert(x@ == orig[k]);
            assert(items@ =~= oi.drop_first());
            assert forall|j: int| 0 <= j < item_views(items@).len() implies item_views(items@)[j]
                == orig.skip(k + 1)[j] by {
                assert(item_views(items@)[j] == items@[j]@);
                assert(items@[j] == oi[j + 1]);
                assert(item_views(oi)[j + 1] == oi[j + 1]@);
                assert(item_views(oi)[j + 1] == orig.skip(k)[j + 1]);
                assert(orig.skip(k)[j + 1] == orig[k + 1 + j]);
                assert(orig.skip(k + 1)[j] == orig[k + 1 + j]);
            }
            assert(item_views(items@) =~= orig.skip(k + 1));
            assert(orig.take(k + 1).drop_last() =~= orig.take(k));
            assert(orig.take(k + 1).last() == orig[k]);
        }
        insert_ranked(&mut out, x);
        proof {
            k = k + 1;
        }
    }
    proof {
        assert(orig.take(orig.len() as int) =~= orig);
        assert(k == orig.len());
    }
    out
}

/// The page `offset..offset+limit` of a list: everything from `offset` on,
/// at most `limit` items; past the end the page is empty.
pub open spec fn page(s: Seq<ItemSnap>, off: nat, lim: nat) -> Seq<ItemSnap> {
    if off >= s.len() {
        Seq::<ItemSnap>::empty()
    } else {
        let rest = s.skip(off as int);
        if lim < rest.len() {
            rest.take(lim as int)
        } else {
            rest
        }
    }
}

/// Applies offset and limit to a ranked list.
pub fn page_results(items: Vec<SearchResultItem>, offset: usize, limit: usize) -> (r: Vec<
    SearchResultItem,
>)
    ensures
        item_views(r@) == page(item_views(items@), offset as nat, limit as nat),
{
    let ghost orig = item_views(items@);
    let mut items = items;
    let mut skipped: usize = 0;
    proof {
        assert(item_views(items@) =~= orig.skip(0));
    }
    while skipped < offset && items.len() > 0
        invariant
            0 <= skipped <= offset,
            skipped <= orig.len(),
            item_views(items@) == orig.skip(skipped as int),
        decreases offset - skipped,
    {
        let ghost oi = items@;
        proof {
            assert(item_views(oi).len() == oi.len());
            assert(skipped < orig.len());
        }
        items.remove(0);
        proof {
            assert(items@ =~= oi.drop_first());
            assert forall|j: int| 0 <= j < item_views(items@).len() implies item_views(items@)[j]
                == orig.skip(skipped + 1)[j] by {
                assert(item_views(items@)[j] == items@[j]@);
                assert(items@[j] == oi[j + 1]);
                assert(item_views(oi)[j + 1] == oi[j + 1]@);
                assert(item_views(oi)[j + 1] == orig.skip(skipped as int)[j + 1]);
                assert(orig.skip(skipped as int)[j + 1] == orig[skipped + 1 + j]);
                assert(orig.skip(skipped + 1)[j] == orig[skipped + 1 + j]);
            }
            assert(item_views(items@) =~= orig.skip(skipped + 1));
        }
        skipped += 1;
    }
    let mut out: Vec<SearchResultItem> = Vec::new();
    if items.len() == 0 {
        proof {
            assert(item_views(items@).len() == 0);
            assert(orig.skip(skipped as int).len() == 0);
            assert(skipped == orig.len());
            assert(item_views(out@) =~= Seq::<ItemSnap>::empty());
            if (offset as nat) < orig.len() {
                assert(skipped < offset);
                assert(false);
            }
        }
        return out;
    }
    proof {
        assert(item_views(items@).len() > 0);
        assert(skipped < orig.len());
        assert(skipped == offset);
        assert((offset as nat) < orig.len());
    }
    let ghost rest = orig.skip(offset as int);
    let mut taken: usize = 0;
    while taken < limit && items.len() > 0
        invariant
            0 <= taken <= limit,
            taken <= rest.len(),
            rest == orig.skip(offset as int),
            (offset as nat) < orig.len(),
            item_views(out@) == rest.take(taken as int),
            item_views(out@).len() == taken,
            item_views(items@) == rest.skip(taken as int),
        decreases limit - taken,
    {
        let ghost oi = items@;
        proof {
            assert(item_views(oi).len() == oi.len());
            assert(taken < rest.len());
        }
        let x = items.remove(0);
        proof {
            assert(x == oi[0]);
            assert(x@ == item_views(oi)[0]);
            assert(x@ == rest.skip(taken as int)[0]);
            assert(x@ == rest[taken as int]);
            assert(items@ =~= oi.drop_first());
            assert forall|j: int| 0 <= j < item_views(items@).len() implies item_views(items@)[j]
                == rest.skip(taken + 1)[j] by {
                assert(item_views(items@)[j] == items@[j]@);
                assert(items@[j] == oi[j + 1]);
                assert(item_views(oi)[j + 1] == oi[j + 1]@);
                assert(item_views(oi)[j + 1] == rest.skip(taken as int)[j + 1]);
                assert(rest.skip(taken as int)[j + 1] == rest[taken + 1 + j]);
                assert(rest.skip(taken + 1)[j] == rest[taken + 1 + j]);
            }
            assert(item_views(items@) =~= rest.skip(taken + 1));
        }
        out.push(x);
        proof {
            assert(item_views(out@) =~= rest.take(taken + 1));
        }
        taken += 1;
    }
    proof {
        if taken == limit {
            if (limit as nat) < rest.len() {
                assert(item_views(out@) == rest.take(limit as int));
            } else {
                assert(taken == rest.len());
                assert(rest.take(taken as int) =~= rest);
                assert(item_views(out@) == rest);
            }
        } else {
            assert(item_views(items@).len() == 0);
            assert(rest.skip(taken as int).len() == 0);
            assert(taken == rest.len());
            assert(rest.take(taken as int) =~= rest);
            if (limit as nat) < rest.len() {
                assert(false);
            }
            assert(item_views(out@) == rest);
        }
    }
    out
}


/// The folded query terms of a raw query string.
pub open spec fn folded_terms(s: Seq<char>) -> Seq<Seq<char>> {
    crate::index::norm_views(query_terms(s))
}

/// The default offset: zero.
pub open spec fn offset_or_default(o: Option<usize>) -> nat {
    match o {
        Some(v) => v as nat,
        None => 0,
    }
}

/// The default limit: twenty items.
pub open spec fn limit_or_default(o: Option<usize>) -> nat {
    match o {
        Some(v) => v as nat,
        None => 20,
    }
}

fn clone_opt_string(o: &Option<String>) -> (r: Option<String>)
    ensures
        opt_view(r) == opt_view(*o),
{
    match o {
        Some(s) => Some(s.clone()),
        None => None,
    }
}

/// The views of local search hits.
pub open spec fn local_item_views(s: Seq<LocalResultItem>) -> Seq<LocalItemSnap> {
    Seq::new(s.len(), |i: int| s[i]@)
}

/// What executing a query over fetched results yields: the local hits and
/// the type-matching remote hits converted and merged (local first), ranked
/// by descending term hits with ties in arrival order, then the requested
/// page of that ranking.
pub open spec fn response_spec(locv: Seq<LocalItemSnap>, remv: Seq<RemoteItemSnap>, s: Seq<char>, ty: Option<Seq<char>>, off: Option<usize>, lim: Option<usize>) -> Seq<ItemSnap> {
    let qs = folded_terms(s);
    let locs = Seq::new(locv.len(), |i: int| local_snap(locv[i], ty));
    let rems = remote_kept(remv, ty, qs);
    page(rank_items(locs + rems), offset_or_default(off), limit_or_default(lim))
}

/// The converted local hits, in order.
pub open spec fn local_snaps(hits: Seq<LocalResultItem>, ty: Option<Seq<char>>) -> Seq<ItemSnap> {
    Seq::new(hits.len(), |i: int| local_snap(hits[i]@, ty))
}

/// `response_spec`, taken at the values of the argument vectors and query.
pub open spec fn response_of(hits: Seq<LocalResultItem>, rem: Seq<RemoteResultItem>, q: SearchQuery) -> Seq<ItemSnap> {
    response_spec(local_item_views(hits), remote_views(rem), q.s@, opt_view(q.type_), q.offset, q.limit)
}

/// Appends the converted local hits, in order.
fn convert_local(hits: &Vec<LocalResultItem>, ty: &Option<String>, out: &mut Vec<SearchResultItem>)
    ensures
        item_views(final(out)@) == item_views(old(out)@) + local_snaps(hits@, opt_view(*ty)),
{
    let ghost locs = local_snaps(hits@, opt_view(*ty));
    let n = hits.len();
    let mut i: usize = 0;
    proof {
        assert(item_views(out@) + locs.take(0) =~= item_views(out@));
    }
    while i < n
        invariant
            0 <= i <= n,
            n == hits@.len(),
            locs == local_snaps(hits@, opt_view(*ty)),
            item_views(out@) == item_views(old(out)@) + locs.take(i as int),
        decreases n - i,
    {
        let item = SearchResultItem::from_search_index(&hits[i], clone_opt_string(ty));
        proof {
            assert(item@ == locs[i as int]);
            assert(item_views(out@.push(item)) =~= item_views(out@).push(item@));
            assert(locs.take(i + 1) =~= locs.take(i as int).push(locs[i as int]));
            assert(item_views(old(out)@) + locs.take(i as int).push(locs[i as int]) =~= (
            item_views(old(out)@) + locs.take(i as int)).push(locs[i as int]));
        }
        out.push(item);
        i += 1;
    }
    proof {
        assert(locs.take(n as int) =~= locs);
    }
}

/// Appends the converted remote hits that pass the type filter, in order.
fn convert_remote(
    rems: &Vec<RemoteResultItem>,
    ty: &Option<String>,
    qtoks: &Vec<NormalizedToken>,
    out: &mut Vec<SearchResultItem>,
)
    ensures
        item_views(final(out)@) == item_views(old(out)@) + remote_kept(
            remote_views(rems@),
            opt_view(*ty),
            crate::index::tok_views(qtoks@),
        ),
{
    let ghost remv = remote_views(rems@);
    let ghost tyv = opt_view(*ty);
    let ghost qs = crate::index::tok_views(qtoks@);
    let n = rems.len();
    let mut k: usize = 0;
    proof {
        assert(remv.take(0) =~= Seq::<RemoteItemSnap>::empty());
        assert(remote_kept(remv.take(0), tyv, qs) =~= Seq::<ItemSnap>::empty());
        assert(item_views(out@) + remote_kept(remv.take(0), tyv, qs) =~= item_views(out@));
    }
    while k < n
        invariant
            0 <= k <= n,
            n == rems@.len(),
            remv == remote_views(rems@),
            tyv == opt_view(*ty),
            qs == crate::index::tok_views(qtoks@),
            item_views(out@) == item_views(old(out)@) + remote_kept(remv.take(k as int), tyv, qs),
        decreases n - k,
    {
        let keep: bool = match ty {
            None => true,
            Some(m) => {
                let tops = mime_top_levels(rems[k].path_str());
                keys_contain(&tops, m.as_str())
            },
        };
        proof {
            assert(keep == remote_type_ok(remv[k as int].file_path, tyv));
            assert(remv.take(k + 1) =~= remv.take(k as int).push(remv[k as int]));
            lemma_remote_kept_snoc(remv.take(k as int), tyv, qs, remv[k as int]);
        }
        if keep {
            let item = SearchResultItem::from_bittorrent(&rems[k], qtoks);
            proof {
                assert(item@ == remote_snap(remv[k as int], qs));
                assert(item_views(out@.push(item)) =~= item_views(out@).push(item@));
                assert(remote_kept(remv.take(k as int), tyv, qs) + seq![item@]
                    =~= remote_kept(remv.take(k as int), tyv, qs).push(item@));
                assert(item_views(old(out)@) + remote_kept(remv.take(k + 1), tyv, qs) =~= (
                item_views(old(out)@) + remote_kept(remv.take(k as int), tyv, qs)).push(item@));
            }
            out.push(item);
        } else {
            proof {
                assert(remote_kept(remv.take(k as int), tyv, qs) + Seq::<ItemSnap>::empty()
                    =~= remote_kept(remv.take(k as int), tyv, qs));
                assert(item_views(out@) =~= item_views(old(out)@) + remote_kept(
                    remv.take(k + 1),
                    tyv,
                    qs,
                ));
            }
        }
        k += 1;
    }
    proof {
        assert(remv.take(n as int) =~= remv);
    }
}

/// Folds each query term.
fn fold_terms(terms: &Vec<String>) -> (r: Vec<NormalizedToken>)
    ensures
        crate::index::tok_views(r@) == crate::index::norm_views(seq_views(terms@)),
{
    let ghost qs = crate::index::norm_views(seq_views(terms@));
    let mut qtoks: Vec<NormalizedToken> = Vec::new();
    let mut qi: usize = 0;
    while qi < terms.len()
        invariant
            0 <= qi <= terms@.len(),
            qs == crate::index::norm_views(seq_views(terms@)),
            qtoks@.len() == qi,
            forall|j: int| 0 <= j < qi ==> (#[trigger] qtoks@[j]@) == qs[j],
        decreases terms@.len() - qi,
    {
        qtoks.push(NormalizedToken::new(terms[qi].as_str()));
        qi += 1;
    }
    proof {
        assert(crate::index::tok_views(qtoks@) =~= qs);
    }
    qtoks
}

/// Executes a query over already-fetched results, exactly as
/// `response_spec` says. A failed upstream search hands an empty remote
/// list here, so local results still come back.
pub fn search_response_items(
    local_hits: &Vec<LocalResultItem>,
    remote_items: &Vec<RemoteResultItem>,
    query: &SearchQuery,
) -> (r: Vec<SearchResultItem>)
    ensures
        item_views(r@) == response_of(local_hits@, remote_items@, *query),
{
    let terms = query.terms();
    let qtoks = fold_terms(&terms);
    let mut combined: Vec<SearchResultItem> = Vec::new();
    proof {
        assert(item_views(combined@) =~= Seq::<ItemSnap>::empty());
    }
    convert_local(local_hits, &query.type_, &mut combined);
    proof {
        assert(Seq::<ItemSnap>::empty() + local_snaps(local_hits@, opt_view(query.type_))
            =~= local_snaps(local_hits@, opt_view(query.type_)));
    }
    convert_remote(remote_items, &query.type_, &qtoks, &mut combined);
    let ranked = rank_results(combined);
    let off: usize = match query.offset {
        Some(o) => o,
        None => 0,
    };
    let lim: usize = match query.limit {
        Some(l) => l,
        None => 20,
    };
    let r = page_results(ranked, off, lim);
    proof {
        let locv = local_item_views(local_hits@);
        let ty = opt_view(query.type_);
        assert(local_snaps(local_hits@, ty) =~= Seq::new(
            locv.len(),
            |i: int| local_snap(locv[i], ty),
        ));
        assert(folded_terms(query.s@) == crate::index::norm_views(seq_views(terms@)));
        assert(offset_or_default(query.offset) == off as nat);
        assert(limit_or_default(query.limit) == lim as nat);
    }
    r
}


} // verus!
