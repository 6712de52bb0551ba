//! The in-memory inverted index: a tokenizing, MIME-aware index of object
//! keys with insert, delete and query, and deterministic result order
//! (insertion order), so equal-score keys come out the same way on every
//! query of one process.

use vstd::prelude::*;

use crate::error::ErrorKind;
use crate::mime::{mime_top_levels, mime_tops};
use crate::text::{lower_seq, seq_views, str_eq};
use crate::tokenize::{key_norm_tokens, key_tokens, tokenize_object_key, valid_key};
use crate::types::{DateTime, FileSize, InfoHash, NormalizedToken};

verus! {

/// What the index records for one key.
pub struct KeyInfo {
    pub size: FileSize,
    pub last_modified: DateTime,
    pub info_hash: InfoHash,
}

/// The mathematical value of a `KeyInfo`.
pub ghost struct KeyInfoSnap {
    pub size: FileSize,
    pub last_modified: DateTime,
    pub info_hash: Seq<u8>,
}

impl View for KeyInfo {
    type V = KeyInfoSnap;

    open spec fn view(&self) -> KeyInfoSnap {
        KeyInfoSnap {
            size: self.size,
            last_modified: self.last_modified,
            info_hash: self.info_hash@,
        }
    }
}

impl KeyInfo {
    /// An owned copy recording the same values.
    pub fn duplicate(&self) -> (r: Self)
        ensures
            r@ == self@,
    {
        KeyInfo {
            size: self.size,
            last_modified: self.last_modified,
            info_hash: self.info_hash.duplicate(),
        }
    }
}

struct KeyEntry {
    key: String,
    info: KeyInfo,
}

/// One posting: a label (a normalized token, or a MIME top-level) and the
/// keys filed under it, in insertion order.
struct Posting {
    label: String,
    keys: Vec<String>,
}

spec fn labels_distinct(ps: Seq<Posting>) -> bool {
    forall|i: int, j: int| 0 <= i < j < ps.len() ==> ps[i].label@ != ps[j].label@
}

spec fn strings_distinct(ks: Seq<String>) -> bool {
    forall|a: int, b: int| 0 <= a < b < ks.len() ==> ks[a]@ != ks[b]@
}

spec fn postings_keys_distinct(ps: Seq<Posting>) -> bool {
    forall|i: int| 0 <= i < ps.len() ==> strings_distinct(#[trigger] ps[i].keys@)
}

spec fn postings_nonempty(ps: Seq<Posting>) -> bool {
    forall|i: int| 0 <= i < ps.len() ==> (#[trigger] ps[i].keys@.len()) > 0
}

spec fn has_label(ps: Seq<Posting>, t: Seq<char>) -> bool {
    exists|i: int| 0 <= i < ps.len() && ps[i].label@ == t
}

spec fn label_idx(ps: Seq<Posting>, t: Seq<char>) -> int {
    choose|i: int| 0 <= i < ps.len() && ps[i].label@ == t
}

/// The keys filed under label `t`, empty when no posting for `t` is stored.
spec fn posting_of(ps: Seq<Posting>, t: Seq<char>) -> Seq<Seq<char>> {
    if has_label(ps, t) {
        seq_views(ps[label_idx(ps, t)].keys@)
    } else {
        Seq::<Seq<char>>::empty()
    }
}

/// With distinct labels, the posting of entry `i`'s label is entry `i`.
proof fn lemma_posting_at(ps: Seq<Posting>, i: int)
    requires
        labels_distinct(ps),
        0 <= i < ps.len(),
    ensures
        has_label(ps, ps[i].label@),
        label_idx(ps, ps[i].label@) == i,
        posting_of(ps, ps[i].label@) == seq_views(ps[i].keys@),
{
    assert(has_label(ps, ps[i].label@));
    let j = label_idx(ps, ps[i].label@);
    assert(0 <= j < ps.len() && ps[j].label@ == ps[i].label@);
    if i < j {
        assert(ps[i].label@ != ps[j].label@);
    } else if j < i {
        assert(ps[j].label@ != ps[i].label@);
    }
}

/// Replacing entry `i` with one of the same label changes only that posting.
proof fn lemma_posting_update(ps: Seq<Posting>, i: int, e: Posting)
    requires
        labels_distinct(ps),
        0 <= i < ps.len(),
        e.label@ == ps[i].label@,
    ensures
        labels_distinct(ps.update(i, e)),
        posting_of(ps.update(i, e), e.label@) == seq_views(e.keys@),
        forall|t: Seq<char>|
            t != e.label@ ==> #[trigger] posting_of(ps.update(i, e), t) == posting_of(ps, t),
{
    let nps = ps.update(i, e);
    assert(forall|j: int| 0 <= j < ps.len() && j != i ==> nps[j] == ps[j]);
    lemma_posting_at(nps, i);
    assert forall|t: Seq<char>| t != e.label@ implies #[trigger] posting_of(nps, t) == posting_of(
        ps,
        t,
    ) by {
        if has_label(ps, t) {
            let j = label_idx(ps, t);
            lemma_posting_at(ps, j);
            assert(j != i);
            lemma_posting_at(nps, j);
        } else {
            assert(forall|j: int| 0 <= j < nps.len() ==> (#[trigger] nps[j].label@) != t);
            assert(!has_label(nps, t));
        }
    }
}

/// Appending a posting under a fresh label changes only that posting.
proof fn lemma_posting_push(ps: Seq<Posting>, e: Posting)
    requires
        labels_distinct(ps),
        !has_label(ps, e.label@),
    ensures
        labels_distinct(ps.push(e)),
        posting_of(ps.push(e), e.label@) == seq_views(e.keys@),
        forall|t: Seq<char>|
            t != e.label@ ==> #[trigger] posting_of(ps.push(e), t) == posting_of(ps, t),
{
    let nps = ps.push(e);
    assert(forall|j: int| 0 <= j < ps.len() ==> nps[j] == ps[j]);
    assert(forall|j: int| 0 <= j < ps.len() ==> (#[trigger] ps[j].label@) != e.label@);
    assert(labels_distinct(nps));
    lemma_posting_at(nps, ps.len() as int);
    assert forall|t: Seq<char>| t != e.label@ implies #[trigger] posting_of(nps, t) == posting_of(
        ps,
        t,
    ) by {
        if has_label(ps, t) {
            let j = label_idx(ps, t);
            lemma_posting_at(ps, j);
            lemma_posting_at(nps, j);
        } else {
            assert(forall|j: int| 0 <= j < nps.len() ==> (#[trigger] nps[j].label@) != t);
            assert(!has_label(nps, t));
        }
    }
}

/// Dropping entry `i` empties its posting and changes no other.
proof fn lemma_posting_drop(ps: Seq<Posting>, i: int)
    requires
        labels_distinct(ps),
        0 <= i < ps.len(),
    ensures
        labels_distinct(ps.remove(i)),
        posting_of(ps.remove(i), ps[i].label@) == Seq::<Seq<char>>::empty(),
        forall|t: Seq<char>|
            t != ps[i].label@ ==> #[trigger] posting_of(ps.remove(i), t) == posting_of(ps, t),
{
    let nps = ps.remove(i);
    assert(forall|j: int| 0 <= j < i ==> nps[j] == ps[j]);
    assert(forall|j: int| i <= j < nps.len() ==> nps[j] == ps[j + 1]);
    assert forall|a: int, b: int| 0 <= a < b < nps.len() implies nps[a].label@ != nps[b].label@ by {
        let pa: int = if a < i {
            a
        } else {
            a + 1
        };
        let pb: int = if b < i {
            b
        } else {
            b + 1
        };
        assert(ps[pa].label@ != ps[pb].label@);
    }
    assert forall|j: int| 0 <= j < nps.len() implies (#[trigger] nps[j].label@)
        != ps[i].label@ by {
        let pj: int = if j < i {
            j
        } else {
            j + 1
        };
        assert(nps[j] == ps[pj]);
    }
    assert(!has_label(nps, ps[i].label@));
    assert forall|t: Seq<char>| t != ps[i].label@ implies #[trigger] posting_of(nps, t)
        == posting_of(ps, t) by {
        if has_label(ps, t) {
            let j = label_idx(ps, t);
            lemma_posting_at(ps, j);
            let nj: int = if j < i {
                j
            } else {
                j - 1
            };
            assert(nps[nj] == ps[j]);
            lemma_posting_at(nps, nj);
        } else {
            assert forall|j: int| 0 <= j < nps.len() implies (#[trigger] nps[j].label@) != t by {
                let pj: int = if j < i {
                    j
                } else {
                    j + 1
                };
                assert(nps[j] == ps[pj]);
            }
            assert(!has_label(nps, t));
        }
    }
}

/// Finds the posting with the given label, if one is stored.
fn find_label(ps: &Vec<Posting>, t: &str) -> (r: Option<usize>)
    ensures
        match r {
            Some(i) => i < ps@.len() && ps@[i as int].label@ == t@,
            None => !has_label(ps@, t@),
        },
{
    let mut i: usize = 0;
    while i < ps.len()
        invariant
            0 <= i <= ps@.len(),
            forall|j: int| 0 <= j < i ==> (#[trigger] ps@[j].label@) != t@,
        decreases ps@.len() - i,
    {
        if str_eq(ps[i].label.as_str(), t) {
            return Some(i);
        }
        i += 1;
    }
    None
}

/// Whether `key` occurs among `ks`.
pub(crate) fn keys_contain(ks: &Vec<String>, key: &str) -> (r: bool)
    ensures
        r == seq_views(ks@).contains(key@),
{
    let mut i: usize = 0;
    while i < ks.len()
        invariant
            0 <= i <= ks@.len(),
            forall|j: int| 0 <= j < i ==> (#[trigger] ks@[j]@) != key@,
        decreases ks@.len() - i,
    {
        if str_eq(ks[i].as_str(), key) {
            proof {
                assert(seq_views(ks@)[i as int] == ks@[i as int]@);
            }
            return true;
        }
        i += 1;
    }
    proof {
        if seq_views(ks@).contains(key@) {
            let j = choose|j: int| 0 <= j < seq_views(ks@).len() && seq_views(ks@)[j] == key@;
            assert(ks@[j]@ == key@);
        }
    }
    false
}

/// Finds the position of `key` among `ks`, if present.
fn find_key_pos(ks: &Vec<String>, key: &str) -> (r: Option<usize>)
    ensures
        match r {
            Some(i) => i < ks@.len() && ks@[i as int]@ == key@,
            None => !seq_views(ks@).contains(key@),
        },
{
    let mut i: usize = 0;
    while i < ks.len()
        invariant
            0 <= i <= ks@.len(),
            forall|j: int| 0 <= j < i ==> (#[trigger] ks@[j]@) != key@,
        decreases ks@.len() - i,
    {
        if str_eq(ks[i].as_str(), key) {
            return Some(i);
        }
        i += 1;
    }
    proof {
        if seq_views(ks@).contains(key@) {
            let j = choose|j: int| 0 <= j < seq_views(ks@).len() && seq_views(ks@)[j] == key@;
            assert(ks@[j]@ == key@);
        }
    }
    None
}

/// Files `key` under `label`, creating the posting if needed; a key already
/// filed there stays filed once.
fn posting_add(ps: &mut Vec<Posting>, label: &String, key: &String)
    requires
        labels_distinct(old(ps)@),
        postings_keys_distinct(old(ps)@),
    ensures
        labels_distinct(final(ps)@),
        postings_keys_distinct(final(ps)@),
        postings_nonempty(old(ps)@) ==> postings_nonempty(final(ps)@),
        forall|t: Seq<char>| #[trigger]
            posting_of(final(ps)@, t) == (if t == label@ && !posting_of(old(ps)@, t).contains(
                key@,
            ) {
                posting_of(old(ps)@, t).push(key@)
            } else {
                posting_of(old(ps)@, t)
            }),
{
    let ghost ops = ps@;
    match find_label(ps, label.as_str()) {
        Some(i) => {
            proof {
                lemma_posting_at(ops, i as int);
            }
            if keys_contain(&ps[i].keys, key.as_str()) {
                proof {
                    assert forall|t: Seq<char>| true implies #[trigger] posting_of(ps@, t) == (
                    if t == label@ && !posting_of(ops, t).contains(key@) {
                        posting_of(ops, t).push(key@)
                    } else {
                        posting_of(ops, t)
                    }) by {
                        assert(posting_of(ops, label@).contains(key@));
                    }
                }
            } else {
                let mut entry = ps.remove(i);
                entry.keys.push(key.clone());
                proof {
                    assert(seq_views(entry.keys@) =~= seq_views(ops[i as int].keys@).push(key@));
                    assert(ops.remove(i as int).insert(i as int, entry) =~= ops.update(
                        i as int,
                        entry,
                    ));
                    lemma_posting_update(ops, i as int, entry);
                    let oks = ops[i as int].keys@;
                    assert(strings_distinct(oks));
                    assert forall|a: int, b: int|
                        0 <= a < b < entry.keys@.len() implies entry.keys@[a]@
                        != entry.keys@[b]@ by {
                        if b == oks.len() as int {
                            assert(seq_views(oks)[a] == oks[a]@);
                            assert(entry.keys@[a] == oks[a]);
                            assert(entry.keys@[b]@ == key@);
                            if oks[a]@ == key@ {
                                assert(seq_views(oks).contains(key@));
                            }
                        } else {
                            assert(entry.keys@[a] == oks[a] && entry.keys@[b] == oks[b]);
                        }
                    }
                    assert(strings_distinct(entry.keys@));
                }
                ps.insert(i, entry);
                proof {
                    let nps = ps@;
                    assert(nps =~= ops.update(i as int, entry));
                    assert forall|ii: int| 0 <= ii < nps.len() implies strings_distinct(
                        #[trigger] nps[ii].keys@,
                    ) by {
                        if ii != i as int {
                            assert(nps[ii] == ops[ii]);
                        }
                    }
                    if postings_nonempty(ops) {
                        assert forall|ii: int|
                            0 <= ii < nps.len() implies (#[trigger] nps[ii].keys@.len()) > 0 by {
                            if ii != i as int {
                                assert(nps[ii] == ops[ii]);
                            }
                        }
                    }
                }
            }
        },
        None => {
            let entry = Posting { label: label.clone(), keys: vec![key.clone()] };
            proof {
                assert(seq_views(entry.keys@) =~= seq![key@]);
                lemma_posting_push(ops, entry);
            }
            ps.push(entry);
            proof {
                let nps = ps@;
                assert forall|ii: int| 0 <= ii < nps.len() implies strings_distinct(
                    #[trigger] nps[ii].keys@,
                ) by {
                    if ii < ops.len() {
                        assert(nps[ii] == ops[ii]);
                    }
                }
                if postings_nonempty(ops) {
                    assert forall|ii: int|
                        0 <= ii < nps.len() implies (#[trigger] nps[ii].keys@.len()) > 0 by {
                        if ii < ops.len() {
                            assert(nps[ii] == ops[ii]);
                        }
                    }
                }
                assert forall|t: Seq<char>| true implies #[trigger] posting_of(ps@, t) == (if t
                    == label@ && !posting_of(ops, t).contains(key@) {
                    posting_of(ops, t).push(key@)
                } else {
                    posting_of(ops, t)
                }) by {
                    if t == label@ {
                        assert(posting_of(ops, t) =~= Seq::<Seq<char>>::empty());
                        assert(posting_of(ps@, t) =~= posting_of(ops, t).push(key@));
                    }
                }
            }
        },
    }
}

/// Unfiles `key` from the posting under `label`; a posting left empty is
/// dropped when `drop_empty` asks for it.
fn posting_remove(ps: &mut Vec<Posting>, label: &String, key: &String, drop_empty: bool)
    requires
        labels_distinct(old(ps)@),
        postings_keys_distinct(old(ps)@),
    ensures
        labels_distinct(final(ps)@),
        postings_keys_distinct(final(ps)@),
        forall|t: Seq<char>| #[trigger]
            posting_of(final(ps)@, t) == (if t == label@ {
                posting_of(old(ps)@, t).remove_value(key@)
            } else {
                posting_of(old(ps)@, t)
            }),
        drop_empty && postings_nonempty(old(ps)@) ==> postings_nonempty(final(ps)@),
        !drop_empty && postings_nonempty(old(ps)@) && posting_of(old(ps)@, label@).len() > 1
            ==> postings_nonempty(final(ps)@),
        !drop_empty && postings_nonempty(old(ps)@) ==> (forall|i: int|
            0 <= i < final(ps)@.len() && (#[trigger] final(ps)@[i].label@) != label@
                ==> final(ps)@[i].keys@.len() > 0),
{
    let ghost ops = ps@;
    match find_label(ps, label.as_str()) {
        Some(i) => {
            proof {
                lemma_posting_at(ops, i as int);
            }
            match find_key_pos(&ps[i].keys, key.as_str()) {
                Some(j) => {
                    let mut entry = ps.remove(i);
                    entry.keys.remove(j);
                    proof {
                        let oks = seq_views(ops[i as int].keys@);
                        assert(seq_views(entry.keys@) =~= oks.remove(j as int));
                        assert forall|a: int, b: int|
                            0 <= a < b < entry.keys@.len() implies entry.keys@[a]@
                            != entry.keys@[b]@ by {
                            let pa: int = if a < j {
                                a
                            } else {
                                a + 1
                            };
                            let pb: int = if b < j {
                                b
                            } else {
                                b + 1
                            };
                            assert(ops[i as int].keys@[pa]@ != ops[i as int].keys@[pb]@);
                        }
                        // the removed slot held `key`, and keys are distinct, so
                        // removing the slot is removing the first occurrence
                        assert(oks[j as int] == key@);
                        assert forall|a: int| 0 <= a < j implies oks[a] != key@ by {
                            assert(ops[i as int].keys@[a]@ != ops[i as int].keys@[j as int]@);
                        }
                        lemma_remove_value_at(oks, j as int);
                    }
                    if entry.keys.len() == 0 && drop_empty {
                        proof {
                            lemma_posting_drop(ops, i as int);
                            assert(ps@ =~= ops.remove(i as int));
                            assert(posting_of(ops, label@).remove_value(key@) =~= Seq::<
                                Seq<char>,
                            >::empty());
                            assert forall|ii: int| 0 <= ii < ps@.len() implies strings_distinct(
                                #[trigger] ps@[ii].keys@,
                            ) by {
                                let pii: int = if ii < i as int {
                                    ii
                                } else {
                                    ii + 1
                                };
                                assert(ps@[ii] == ops[pii]);
                            }
                            if postings_nonempty(ops) {
                                assert forall|ii: int|
                                    0 <= ii < ps@.len() implies (#[trigger] ps@[ii].keys@.len())
                                    > 0 by {
                                    let pii: int = if ii < i as int {
                                        ii
                                    } else {
                                        ii + 1
                                    };
                                    assert(ps@[ii] == ops[pii]);
                                }
                            }
                        }
                    } else {
                        proof {
                            assert(ops.remove(i as int).insert(i as int, entry) =~= ops.update(
                                i as int,
                                entry,
                            ));
                            lemma_posting_update(ops, i as int, entry);
                        }
                        ps.insert(i, entry);
                        proof {
                            let nps = ps@;
                            assert(nps =~= ops.update(i as int, entry));
                            assert forall|ii: int| 0 <= ii < nps.len() implies strings_distinct(
                                #[trigger] nps[ii].keys@,
                            ) by {
                                if ii != i as int {
                                    assert(nps[ii] == ops[ii]);
                                }
                            }
                            if postings_nonempty(ops) {
                                assert forall|ii: int|
                                    0 <= ii < nps.len() && nps[ii].label@ != label@ implies (
                                #[trigger] nps[ii].keys@.len()) > 0 by {
                                    assert(nps[ii] == ops[ii]);
                                }
                                if posting_of(ops, label@).len() > 1 {
                                    assert(entry.keys@.len() > 0);
                                    assert(postings_nonempty(nps));
                                }
                            }
                        }
                    }
                },
                None => {
                    proof {
                        assert(!posting_of(ops, label@).contains(key@));
                        lemma_remove_value_absent(posting_of(ops, label@), key@);
                        assert forall|t: Seq<char>| true implies #[trigger] posting_of(ps@, t) == (
                        if t == label@ {
                            posting_of(ops, t).remove_value(key@)
                        } else {
                            posting_of(ops, t)
                        }) by {}
                    }
                },
            }
        },
        None => {
            proof {
                assert(posting_of(ops, label@) =~= Seq::<Seq<char>>::empty());
                lemma_remove_value_absent(posting_of(ops, label@), key@);
            }
        },
    }
}

spec fn views_distinct(s: Seq<Seq<char>>) -> bool {
    forall|a: int, b: int| 0 <= a < b < s.len() ==> s[a] != s[b]
}

/// A sequence of distinct strings has distinct views.
proof fn lemma_seq_views_distinct(ks: Seq<String>)
    requires
        strings_distinct(ks),
    ensures
        views_distinct(seq_views(ks)),
{
}

/// What `remove_value` keeps: every element other than the removed one.
proof fn lemma_remove_value_keeps(s: Seq<Seq<char>>, v: Seq<char>, x: Seq<char>)
    requires
        s.contains(x),
        x != v,
    ensures
        s.remove_value(v).contains(x),
{
    s.index_of_first_ensures(v);
    let m = choose|m: int| 0 <= m < s.len() && s[m] == x;
    match s.index_of_first(v) {
        Some(j) => {
            let r = s.remove(j);
            if m < j {
                assert(r[m] == x);
            } else {
                assert(m != j);
                assert(r[m - 1] == x);
            }
        },
        None => {},
    }
}

/// What `remove_value` admits: only elements of the original sequence.
proof fn lemma_remove_value_subset(s: Seq<Seq<char>>, v: Seq<char>, x: Seq<char>)
    requires
        s.remove_value(v).contains(x),
    ensures
        s.contains(x),
{
    s.index_of_first_ensures(v);
    match s.index_of_first(v) {
        Some(j) => {
            let r = s.remove(j);
            let m = choose|m: int| 0 <= m < r.len() && r[m] == x;
            if m < j {
                assert(s[m] == x);
            } else {
                assert(s[m + 1] == x);
            }
        },
        None => {},
    }
}

/// On a duplicate-free sequence, `remove_value` leaves no occurrence behind.
proof fn lemma_remove_value_gone(s: Seq<Seq<char>>, v: Seq<char>)
    requires
        views_distinct(s),
    ensures
        !s.remove_value(v).contains(v),
{
    s.index_of_first_ensures(v);
    match s.index_of_first(v) {
        Some(j) => {
            let r = s.remove(j);
            if r.contains(v) {
                let m = choose|m: int| 0 <= m < r.len() && r[m] == v;
                if m < j {
                    assert(s[m] == s[j]);
                } else {
                    assert(s[m + 1] == s[j]);
                }
                assert(false);
            }
        },
        None => {},
    }
}

/// Removing a value at its first occurrence is `remove_value`.
proof fn lemma_remove_value_at(s: Seq<Seq<char>>, j: int)
    requires
        0 <= j < s.len(),
        forall|a: int| 0 <= a < j ==> s[a] != s[j],
    ensures
        s.remove_value(s[j]) == s.remove(j),
{
    let index = s.index_of_first(s[j]);
    s.index_of_first_ensures(s[j]);
    assert(s.contains(s[j]));
    match index {
        Some(k) => {
            if k < j {
                assert(s[k] == s[j]);
            }
            if j < k {
                assert(false);
            }
            assert(k == j);
        },
        None => {
            assert(false);
        },
    }
}

/// `remove_value` of an absent value changes nothing.
proof fn lemma_remove_value_absent(s: Seq<Seq<char>>, v: Seq<char>)
    requires
        !s.contains(v),
    ensures
        s.remove_value(v) == s,
{
    s.index_of_first_ensures(v);
}

/// The views of a sequence of normalized tokens.
pub open spec fn tok_views(ts: Seq<NormalizedToken>) -> Seq<Seq<char>> {
    Seq::new(ts.len(), |i: int| ts[i]@)
}

/// An index-level query: terms, paging, and an optional MIME top-level
/// filter.
pub struct Query {
    pub terms: Vec<String>,
    pub offset: Option<usize>,
    pub limit: Option<usize>,
    pub type_: Option<String>,
}

/// One scored key from the local index: the key, how many query terms
/// matched it, and its stored record.
pub struct SearchResultItem {
    pub s3_key: String,
    pub token_hits: usize,
    pub size: FileSize,
    pub last_modified: DateTime,
    pub info_hash: InfoHash,
}

/// The mathematical value of a local search hit.
#[verifier::ext_equal]
pub ghost struct LocalItemSnap {
    pub s3_key: Seq<char>,
    pub token_hits: nat,
    pub size: FileSize,
    pub last_modified: DateTime,
    pub info_hash: Seq<u8>,
}

impl View for SearchResultItem {
    type V = LocalItemSnap;

    open spec fn view(&self) -> LocalItemSnap {
        LocalItemSnap {
            s3_key: self.s3_key@,
            token_hits: self.token_hits as nat,
            size: self.size,
            last_modified: self.last_modified,
            info_hash: self.info_hash@,
        }
    }
}

/// The view of an optional string.
pub open spec fn opt_view(o: Option<String>) -> Option<Seq<char>> {
    match o {
        None => None,
        Some(s) => Some(s@),
    }
}

/// Case-folding of each of a sequence of term texts.
pub open spec fn norm_views(qs: Seq<Seq<char>>) -> Seq<Seq<char>> {
    Seq::new(qs.len(), |i: int| lower_seq(qs[i]))
}

/// A posting's key views are distinct.
proof fn lemma_posting_views_distinct(ps: Seq<Posting>, t: Seq<char>)
    requires
        labels_distinct(ps),
        postings_keys_distinct(ps),
    ensures
        views_distinct(posting_of(ps, t)),
{
    if has_label(ps, t) {
        let i = label_idx(ps, t);
        assert(0 <= i < ps.len() && ps[i].label@ == t);
        lemma_seq_views_distinct(ps[i].keys@);
    }
}

/// Membership in a pushed sequence: the old members plus the new element.
proof fn lemma_contains_push(s: Seq<Seq<char>>, x: Seq<char>, t: Seq<char>)
    ensures
        s.push(x).contains(t) <==> (s.contains(t) || t == x),
{
    if s.push(x).contains(t) {
        let j = choose|j: int| 0 <= j < s.push(x).len() && s.push(x)[j] == t;
        if j < s.len() {
            assert(s[j] == t);
        }
    }
    if s.contains(t) {
        let j = choose|j: int| 0 <= j < s.len() && s[j] == t;
        assert(s.push(x)[j] == t);
    }
    if t == x {
        assert(s.push(x)[s.len() as int] == t);
    }
}

/// Replaces the record of `key` if an entry holds it, else appends an entry.
fn upsert_entry(es: &mut Vec<KeyEntry>, key: &str, key_s: String, info: KeyInfo)
    requires
        key_s@ == key@,
        forall|i: int, j: int|
            0 <= i < j < old(es)@.len() ==> (#[trigger] old(es)@[i].key@) != (#[trigger] old(
                es,
            )@[j].key@),
    ensures
        ({
            let oes = old(es)@;
            let nes = final(es)@;
            if exists|i: int| 0 <= i < oes.len() && (#[trigger] oes[i].key@) == key@ {
                nes.len() == oes.len() && (forall|j: int|
                    0 <= j < oes.len() && (#[trigger] oes[j].key@) != key@ ==> nes[j] == oes[j])
                    && (forall|j: int|
                    0 <= j < oes.len() && (#[trigger] oes[j].key@) == key@ ==> nes[j].key@ == key@
                        && nes[j].info@ == info@)
            } else {
                nes.len() == oes.len() + 1 && (forall|j: int|
                    0 <= j < oes.len() ==> #[trigger] nes[j] == oes[j]) && nes[oes.len() as int].key@
                    == key@ && nes[oes.len() as int].info@ == info@
            }
        }),
{
    let ghost oes = es@;
    match find_entry(es, key) {
        Some(i) => {
            let mut e = es.remove(i);
            e.info = info;
            let ghost ge = e;
            es.insert(i, e);
            proof {
                assert(es@ =~= oes.update(i as int, ge));
                assert forall|j: int|
                    0 <= j < oes.len() && (#[trigger] oes[j].key@) == key@ implies j == i as int by {
                    if j < i as int {
                        assert(oes[j].key@ != oes[i as int].key@);
                    } else if (i as int) < j {
                        assert(oes[i as int].key@ != oes[j].key@);
                    }
                }
            }
        },
        None => {
            es.push(KeyEntry { key: key_s, info });
        },
    }
}

/// Finds the entry holding `key`, if the key is indexed.
fn find_entry(es: &Vec<KeyEntry>, key: &str) -> (r: Option<usize>)
    ensures
        match r {
            Some(i) => i < es@.len() && es@[i as int].key@ == key@,
            None => forall|j: int| 0 <= j < es@.len() ==> (#[trigger] es@[j].key@) != key@,
        },
{
    let mut i: usize = 0;
    while i < es.len()
        invariant
            0 <= i <= es@.len(),
            forall|j: int| 0 <= j < i ==> (#[trigger] es@[j].key@) != key@,
        decreases es@.len() - i,
    {
        if str_eq(es[i].key.as_str(), key) {
            return Some(i);
        }
        i += 1;
    }
    None
}

/// The inverted index: all indexed keys with their records, the postings
/// from normalized tokens to keys, and the buckets from MIME top-level
/// types to keys. Iteration order everywhere is insertion order, so results
/// at the same rank always come out the same within one process.
pub struct Index {
    all_keys: Vec<KeyEntry>,
    terms: Vec<Posting>,
    keys_by_type: Vec<Posting>,
}

impl Index {
    /// The indexed keys, in insertion order.
    pub closed spec fn keys(self) -> Seq<Seq<char>> {
        Seq::new(self.all_keys@.len(), |i: int| self.all_keys@[i].key@)
    }

    /// Whether `k` is indexed.
    pub open spec fn contains_key(self, k: Seq<char>) -> bool {
        self.keys().contains(k)
    }

    spec fn key_idx(self, k: Seq<char>) -> int {
        choose|i: int| 0 <= i < self.all_keys@.len() && self.all_keys@[i].key@ == k
    }

    /// The record stored for `k` (meaningful when `k` is indexed).
    pub closed spec fn info_at(self, k: Seq<char>) -> KeyInfoSnap {
        self.all_keys@[self.key_idx(k)].info@
    }

    /// The keys filed under normalized token `t`, empty when none is.
    pub closed spec fn posting(self, t: Seq<char>) -> Seq<Seq<char>> {
        posting_of(self.terms@, t)
    }

    /// Whether key `k` is filed under token `t`.
    pub open spec fn posting_has(self, t: Seq<char>, k: Seq<char>) -> bool {
        self.posting(t).contains(k)
    }

    /// The keys filed under MIME top-level `m`, in insertion order.
    pub closed spec fn type_keys(self, m: Seq<char>) -> Seq<Seq<char>> {
        posting_of(self.keys_by_type@, m)
    }

    /// Internal consistency. Keys are distinct and well formed. Postings
    /// have distinct labels and distinct keys, none is empty, and they hold
    /// exactly the indexed keys carrying the token. Type buckets likewise
    /// hold exactly the indexed keys guessed to that top-level type, except
    /// that an emptied bucket may stay.
    pub closed spec fn wf(self) -> bool {
        &&& (forall|i: int, j: int|
            0 <= i < j < self.all_keys@.len() ==> (#[trigger] self.all_keys@[i].key@)
                != (#[trigger] self.all_keys@[j].key@))
        &&& (forall|i: int|
            0 <= i < self.all_keys@.len() ==> valid_key(#[trigger] self.all_keys@[i].key@))
        &&& labels_distinct(self.terms@)
        &&& postings_keys_distinct(self.terms@)
        &&& postings_nonempty(self.terms@)
        &&& labels_distinct(self.keys_by_type@)
        &&& postings_keys_distinct(self.keys_by_type@)
        &&& (forall|i: int, j: int|
            0 <= i < self.terms@.len() && 0 <= j < self.terms@[i].keys@.len()
                ==> self.contains_key(#[trigger] self.terms@[i].keys@[j]@) && key_norm_tokens(
                self.terms@[i].keys@[j]@,
            ).contains(self.terms@[i].label@))
        &&& (forall|a: int, ti: int|
            0 <= a < self.all_keys@.len() && 0 <= ti < key_norm_tokens(
                self.all_keys@[a].key@,
            ).len() ==> self.posting_has(
                #[trigger] key_norm_tokens(self.all_keys@[a].key@)[ti],
                self.all_keys@[a].key@,
            ))
        &&& (forall|i: int, j: int|
            0 <= i < self.keys_by_type@.len() && 0 <= j < self.keys_by_type@[i].keys@.len()
                ==> self.contains_key(#[trigger] self.keys_by_type@[i].keys@[j]@) && mime_tops(
                self.keys_by_type@[i].keys@[j]@,
            ).contains(self.keys_by_type@[i].label@))
        &&& (forall|a: int, mi: int|
            0 <= a < self.all_keys@.len() && 0 <= mi < mime_tops(self.all_keys@[a].key@).len()
                ==> self.type_keys(#[trigger] mime_tops(self.all_keys@[a].key@)[mi]).contains(
                self.all_keys@[a].key@,
            ))
    }

    /// Indexed entries are reachable through `key_idx`, uniquely.
    proof fn lemma_key_idx(self, k: Seq<char>)
        requires
            forall|i: int, j: int|
                0 <= i < j < self.all_keys@.len() ==> (#[trigger] self.all_keys@[i].key@)
                    != (#[trigger] self.all_keys@[j].key@),
            self.contains_key(k),
        ensures
            0 <= self.key_idx(k) < self.all_keys@.len(),
            self.all_keys@[self.key_idx(k)].key@ == k,
            forall|i: int|
                0 <= i < self.all_keys@.len() && (#[trigger] self.all_keys@[i].key@) == k ==> i
                    == self.key_idx(k),
    {
        let w = choose|w: int| 0 <= w < self.keys().len() && self.keys()[w] == k;
        assert(self.all_keys@[w].key@ == k);
        let i = self.key_idx(k);
        assert(0 <= i < self.all_keys@.len() && self.all_keys@[i].key@ == k);
        assert forall|j: int|
            0 <= j < self.all_keys@.len() && (#[trigger] self.all_keys@[j].key@) == k implies j
            == i by {
            if j < i {
                assert(self.all_keys@[j].key@ != self.all_keys@[i].key@);
            } else if i < j {
                assert(self.all_keys@[i].key@ != self.all_keys@[j].key@);
            }
        }
    }

    /// Every stored entry's key is an indexed key.
    proof fn lemma_keys_at(self, i: int)
        requires
            0 <= i < self.all_keys@.len(),
        ensures
            self.contains_key(self.all_keys@[i].key@),
    {
        assert(self.keys()[i] == self.all_keys@[i].key@);
    }

    /// The posting invariant, in one sentence: a key is filed under a token
    /// exactly when the key is indexed and the token is one of the key's
    /// normalized tokens.
    pub proof fn lemma_posting_iff(self, t: Seq<char>, k: Seq<char>)
        requires
            self.wf(),
        ensures
            self.posting_has(t, k) <==> (self.contains_key(k) && key_norm_tokens(k).contains(t)),
    {
        if self.posting_has(t, k) {
            assert(has_label(self.terms@, t));
            let i = label_idx(self.terms@, t);
            lemma_posting_at(self.terms@, i);
            let sv = seq_views(self.terms@[i].keys@);
            let j = choose|j: int| 0 <= j < sv.len() && sv[j] == k;
            assert(self.terms@[i].keys@[j]@ == k);
            assert(self.contains_key(k) && key_norm_tokens(k).contains(t));
        }
        if self.contains_key(k) && key_norm_tokens(k).contains(t) {
            self.lemma_key_idx(k);
            let a = self.key_idx(k);
            let ti = choose|ti: int|
                0 <= ti < key_norm_tokens(k).len() && key_norm_tokens(k)[ti] == t;
            assert(self.posting_has(key_norm_tokens(self.all_keys@[a].key@)[ti], k));
        }
    }

    /// The bucket invariant, in one sentence: a key is filed under a MIME
    /// top-level exactly when the key is indexed and that top-level is among
    /// the guesses for the key.
    pub proof fn lemma_type_iff(self, m: Seq<char>, k: Seq<char>)
        requires
            self.wf(),
        ensures
            self.type_keys(m).contains(k) <==> (self.contains_key(k) && mime_tops(k).contains(m)),
    {
        if self.type_keys(m).contains(k) {
            assert(has_label(self.keys_by_type@, m));
            let i = label_idx(self.keys_by_type@, m);
            lemma_posting_at(self.keys_by_type@, i);
            let sv = seq_views(self.keys_by_type@[i].keys@);
            let j = choose|j: int| 0 <= j < sv.len() && sv[j] == k;
            assert(self.keys_by_type@[i].keys@[j]@ == k);
            assert(self.contains_key(k) && mime_tops(k).contains(m));
        }
        if self.contains_key(k) && mime_tops(k).contains(m) {
            self.lemma_key_idx(k);
            let a = self.key_idx(k);
            let mi = choose|mi: int| 0 <= mi < mime_tops(k).len() && mime_tops(k)[mi] == m;
            assert(self.type_keys(mime_tops(self.all_keys@[a].key@)[mi]).contains(k));
        }
    }

    /// An empty index.
    pub fn new() -> (r: Self)
        ensures
            r.wf(),
            r.keys() == Seq::<Seq<char>>::empty(),
            forall|t: Seq<char>| #[trigger] r.posting(t) == Seq::<Seq<char>>::empty(),
            forall|m: Seq<char>| #[trigger] r.type_keys(m) == Seq::<Seq<char>>::empty(),
    {
        let r = Index { all_keys: Vec::new(), terms: Vec::new(), keys_by_type: Vec::new() };
        proof {
            assert(r.keys() =~= Seq::<Seq<char>>::empty());
            assert forall|t: Seq<char>| #[trigger] r.posting(t) == Seq::<Seq<char>>::empty() by {
                assert(!has_label(r.terms@, t));
            }
            assert forall|m: Seq<char>| #[trigger] r.type_keys(m) == Seq::<
                Seq<char>,
            >::empty() by {
                assert(!has_label(r.keys_by_type@, m));
            }
        }
        r
    }

    /// The normalized tokens of a key: its raw tokens, case-folded. Fails
    /// with the invalid error exactly on malformed keys.
    pub fn normalized_tokens(&self, s: &str) -> (r: Result<Vec<NormalizedToken>, ErrorKind>)
        ensures
            match r {
                Ok(v) => valid_key(s@) && tok_views(v@) == key_norm_tokens(s@),
                Err(e) => !valid_key(s@) && e == ErrorKind::Invalid,
            },
    {
        let raw = match tokenize_object_key(s) {
            Ok(v) => v,
            Err(e) => {
                return Err(e);
            },
        };
        let mut out: Vec<NormalizedToken> = Vec::new();
        let mut i: usize = 0;
        while i < raw.len()
            invariant
                0 <= i <= raw@.len(),
                seq_views(raw@) == key_tokens(s@),
                out@.len() == i,
                forall|j: int| 0 <= j < i ==> (#[trigger] out@[j]@) == lower_seq(raw@[j]@),
            decreases raw@.len() - i,
        {
            out.push(NormalizedToken::new(raw[i].as_str()));
            i += 1;
        }
        proof {
            assert forall|j: int| 0 <= j < out@.len() implies tok_views(out@)[j]
                == key_norm_tokens(s@)[j] by {
                assert(key_tokens(s@)[j] == seq_views(raw@)[j]);
            }
            assert(tok_views(out@) =~= key_norm_tokens(s@));
        }
        Ok(out)
    }

    /// Indexes `key` with `info`. A malformed key is rejected as invalid and
    /// nothing changes. A key already indexed has its record replaced while
    /// postings, buckets and the candidate order stay as they are; a new key
    /// joins the end of the candidate order and is filed under each of its
    /// normalized tokens and each of its guessed MIME top-level types.
    pub fn add_key(&mut self, key: &str, info: KeyInfo) -> (r: Result<(), ErrorKind>)
        requires
            old(self).wf(),
        ensures
            final(self).wf(),
            match r {
                Ok(()) => ({
                    let pre = *old(self);
                    let fin = *final(self);
                    &&& valid_key(key@)
                    &&& fin.keys() == (if pre.contains_key(key@) {
                        pre.keys()
                    } else {
                        pre.keys().push(key@)
                    })
                    &&& fin.info_at(key@) == info@
                    &&& (forall|k2: Seq<char>|
                        k2 != key@ && pre.contains_key(k2) ==> #[trigger] fin.info_at(k2)
                            == pre.info_at(k2))
                    &&& (forall|m: Seq<char>| #[trigger]
                        fin.type_keys(m) == (if mime_tops(key@).contains(m) && !pre.contains_key(
                            key@,
                        ) {
                            pre.type_keys(m).push(key@)
                        } else {
                            pre.type_keys(m)
                        }))
                }),
                Err(e) => e == ErrorKind::Invalid && !valid_key(key@) && *final(self) == *old(
                    self,
                ),
            },
    {
        let toks = match self.normalized_tokens(key) {
            Ok(v) => v,
            Err(e) => {
                return Err(e);
            },
        };
        let key_s = String::from_str(key);
        let ghost pre = *self;
        let ghost ntoks = tok_views(toks@);
        let key_clone = key_s.clone();
        upsert_entry(&mut self.all_keys, key, key_clone, info);
        let ghost mid = *self;
        proof {
            assert(forall|i: int|
                0 <= i < pre.all_keys@.len() ==> pre.keys()[i] == (
                #[trigger] pre.all_keys@[i].key@));
            assert(forall|i: int|
                0 <= i < mid.all_keys@.len() ==> mid.keys()[i] == (
                #[trigger] mid.all_keys@[i].key@));
            if exists|i: int|
                0 <= i < pre.all_keys@.len() && (#[trigger] pre.all_keys@[i].key@) == key@ {
                let w = choose|i: int|
                    0 <= i < pre.all_keys@.len() && (#[trigger] pre.all_keys@[i].key@) == key@;
                assert(pre.keys()[w] == key@);
                assert(pre.contains_key(key@));
                assert forall|j: int| 0 <= j < mid.all_keys@.len() implies (
                #[trigger] mid.all_keys@[j].key@) == pre.all_keys@[j].key@ by {
                    if pre.all_keys@[j].key@ == key@ {
                    } else {
                        assert(mid.all_keys@[j] == pre.all_keys@[j]);
                    }
                }
                assert(mid.keys() =~= pre.keys());
            } else {
                if pre.contains_key(key@) {
                    let w = choose|w: int| 0 <= w < pre.keys().len() && pre.keys()[w] == key@;
                    assert(pre.all_keys@[w].key@ == key@);
                    assert(false);
                }
                assert(mid.keys() =~= pre.keys().push(key@));
            }
            assert forall|i: int, j: int| 0 <= i < j < mid.all_keys@.len() implies (
            #[trigger] mid.all_keys@[i].key@) != (#[trigger] mid.all_keys@[j].key@) by {
                assert(mid.keys()[i] == mid.all_keys@[i].key@);
                assert(mid.keys()[j] == mid.all_keys@[j].key@);
                if mid.keys() == pre.keys() {
                    assert(pre.all_keys@[i].key@ != pre.all_keys@[j].key@);
                } else {
                    if j < pre.all_keys@.len() {
                        assert(pre.all_keys@[i].key@ != pre.all_keys@[j].key@);
                    } else {
                        assert(mid.all_keys@[j].key@ == key@);
                        assert(!pre.contains_key(key@));
                        assert(pre.keys()[i] == pre.all_keys@[i].key@);
                        if pre.all_keys@[i].key@ == key@ {
                            assert(pre.keys().contains(key@));
                            assert(false);
                        }
                    }
                }
            }
            assert forall|i: int| 0 <= i < mid.all_keys@.len() implies valid_key(
                #[trigger] mid.all_keys@[i].key@,
            ) by {
                if mid.keys() == pre.keys() {
                    assert(mid.all_keys@[i].key@ == pre.all_keys@[i].key@);
                } else if i < pre.all_keys@.len() {
                    assert(mid.all_keys@[i] == pre.all_keys@[i]);
                }
            }
        }
        let ghost oterms = self.terms@;
        let mut ti: usize = 0;
        while ti < toks.len()
            invariant
                0 <= ti <= toks@.len(),
                ntoks == tok_views(toks@),
                key_s@ == key@,
                self.all_keys@ == mid.all_keys@,
                self.keys_by_type@ == mid.keys_by_type@,
                oterms == pre.terms@,
                labels_distinct(self.terms@),
                postings_keys_distinct(self.terms@),
                postings_nonempty(self.terms@),
                forall|t: Seq<char>| #[trigger]
                    posting_of(self.terms@, t) == (if ntoks.take(ti as int).contains(t)
                        && !posting_of(oterms, t).contains(key@) {
                        posting_of(oterms, t).push(key@)
                    } else {
                        posting_of(oterms, t)
                    }),
            decreases toks@.len() - ti,

        {
            let label = toks[ti].clone_string();
            let ghost cur = self.terms@;
            posting_add(&mut self.terms, &label, &key_s);
            proof {
                assert(ntoks.take(ti + 1) =~= ntoks.take(ti as int).push(ntoks[ti as int]));
                assert(label@ == ntoks[ti as int]);
                assert forall|t: Seq<char>| true implies #[trigger] posting_of(self.terms@, t) == (
                if ntoks.take(ti + 1).contains(t) && !posting_of(oterms, t).contains(key@) {
                    posting_of(oterms, t).push(key@)
                } else {
                    posting_of(oterms, t)
                }) by {
                    lemma_contains_push(ntoks.take(ti as int), ntoks[ti as int], t);
                    if t == label@ {
                        if ntoks.take(ti as int).contains(t) {
                            if !posting_of(oterms, t).contains(key@) {
                                assert(posting_of(cur, t) == posting_of(oterms, t).push(key@));
                                lemma_contains_push(posting_of(oterms, t), key@, key@);
                                assert(posting_of(cur, t).contains(key@));
                            } else {
                                assert(posting_of(cur, t) == posting_of(oterms, t));
                            }
                        } else {
                            assert(posting_of(cur, t) == posting_of(oterms, t));
                        }
                    }
                }
            }
            ti += 1;
        }
        proof {
            assert(ntoks.take(toks@.len() as int) =~= ntoks);
        }
        let tops = mime_top_levels(key);
        let ghost obuckets = self.keys_by_type@;
        let ghost mtops = seq_views(tops@);
        let mut mi: usize = 0;
        while mi < tops.len()
            invariant
                0 <= mi <= tops@.len(),
                mtops == seq_views(tops@),
                mtops == mime_tops(key@),
                key_s@ == key@,
                self.all_keys@ == mid.all_keys@,
                oterms == pre.terms@,
                obuckets == pre.keys_by_type@,
                forall|t: Seq<char>| #[trigger]
                    posting_of(self.terms@, t) == (if ntoks.contains(t) && !posting_of(
                        oterms,
                        t,
                    ).contains(key@) {
                        posting_of(oterms, t).push(key@)
                    } else {
                        posting_of(oterms, t)
                    }),
                labels_distinct(self.terms@),
                postings_keys_distinct(self.terms@),
                postings_nonempty(self.terms@),
                labels_distinct(self.keys_by_type@),
                postings_keys_distinct(self.keys_by_type@),
                forall|m: Seq<char>| #[trigger]
                    posting_of(self.keys_by_type@, m) == (if mtops.take(mi as int).contains(m)
                        && !posting_of(obuckets, m).contains(key@) {
                        posting_of(obuckets, m).push(key@)
                    } else {
                        posting_of(obuckets, m)
                    }),
            decreases tops@.len() - mi,
        {
            let ghost cur = self.keys_by_type@;
            posting_add(&mut self.keys_by_type, &tops[mi], &key_s);
            proof {
                assert(mtops.take(mi + 1) =~= mtops.take(mi as int).push(mtops[mi as int]));
                assert(tops@[mi as int]@ == mtops[mi as int]);
                assert forall|m: Seq<char>| true implies #[trigger] posting_of(
                    self.keys_by_type@,
                    m,
                ) == (if mtops.take(mi + 1).contains(m) && !posting_of(obuckets, m).contains(
                    key@,
                ) {
                    posting_of(obuckets, m).push(key@)
                } else {
                    posting_of(obuckets, m)
                }) by {
                    lemma_contains_push(mtops.take(mi as int), mtops[mi as int], m);
                    if m == mtops[mi as int] {
                        if mtops.take(mi as int).contains(m) {
                            if !posting_of(obuckets, m).contains(key@) {
                                assert(posting_of(cur, m) == posting_of(obuckets, m).push(key@));
                                lemma_contains_push(posting_of(obuckets, m), key@, key@);
                                assert(posting_of(cur, m).contains(key@));
                            } else {
                                assert(posting_of(cur, m) == posting_of(obuckets, m));
                            }
                        } else {
                            assert(posting_of(cur, m) == posting_of(obuckets, m));
                        }
                    }
                }
            }
            mi += 1;
        }
        proof {
            assert(mtops.take(tops@.len() as int) =~= mtops);
            let fin = *self;
            assert(fin.keys() == mid.keys());
            assert forall|k2: Seq<char>| pre.contains_key(k2) || k2 == key@ implies #[trigger] fin.contains_key(k2) by {
                if pre.contains_key(k2) {
                    let w = choose|w: int| 0 <= w < pre.keys().len() && pre.keys()[w] == k2;
                    assert(fin.keys()[w] == k2);
                } else {
                    if pre.contains_key(key@) {
                        let w = choose|w: int|
                            0 <= w < pre.keys().len() && pre.keys()[w] == key@;
                        assert(fin.keys()[w] == key@);
                    } else {
                        assert(fin.keys()[pre.keys().len() as int] == key@);
                    }
                }
            }
            assert forall|k2: Seq<char>| fin.contains_key(k2) implies pre.contains_key(k2) || k2
                == key@ by {
                let w = choose|w: int| 0 <= w < fin.keys().len() && fin.keys()[w] == k2;
                if !pre.contains_key(key@) && w == pre.keys().len() {
                } else {
                    assert(pre.keys()[w] == k2);
                }
            }
            // the new record is stored, and other records are untouched
            fin.lemma_key_idx(key@);
            if pre.contains_key(key@) {
                let w = choose|i: int|
                    0 <= i < pre.all_keys@.len() && (#[trigger] pre.all_keys@[i].key@) == key@;
                assert(fin.all_keys@[w].key@ == key@ && fin.all_keys@[w].info@ == info@);
                assert(fin.key_idx(key@) == w);
            } else {
                assert(fin.all_keys@[pre.all_keys@.len() as int].key@ == key@);
                assert(fin.key_idx(key@) == pre.all_keys@.len() as int);
            }
            assert(fin.info_at(key@) == info@);
            assert forall|k2: Seq<char>| k2 != key@ && pre.contains_key(k2) implies #[trigger] fin.info_at(k2) == pre.info_at(k2) by {
                pre.lemma_key_idx(k2);
                let w = pre.key_idx(k2);
                assert(fin.all_keys@[w] == pre.all_keys@[w]);
                fin.lemma_key_idx(k2);
                assert(fin.key_idx(k2) == w);
            }
            // postings hold exactly the indexed keys that carry the token
            assert forall|i: int, j: int|
                0 <= i < fin.terms@.len() && 0 <= j < fin.terms@[i].keys@.len() implies fin.contains_key(#[trigger] fin.terms@[i].keys@[j]@) && key_norm_tokens(
                fin.terms@[i].keys@[j]@,
            ).contains(fin.terms@[i].label@) by {
                let ll = fin.terms@[i].label@;
                let k2 = fin.terms@[i].keys@[j]@;
                lemma_posting_at(fin.terms@, i);
                assert(seq_views(fin.terms@[i].keys@)[j] == k2);
                assert(posting_of(fin.terms@, ll).contains(k2));
                if ntoks.contains(ll) && !posting_of(oterms, ll).contains(key@) {
                    lemma_contains_push(posting_of(oterms, ll), key@, k2);
                    if posting_of(oterms, ll).contains(k2) {
                        pre.lemma_posting_iff(ll, k2);
                    } else {
                        assert(k2 == key@);
                        assert(key_norm_tokens(key@).contains(ll));
                    }
                } else {
                    pre.lemma_posting_iff(ll, k2);
                }
            }
            assert forall|a: int, t2: int|
                0 <= a < fin.all_keys@.len() && 0 <= t2 < key_norm_tokens(
                    fin.all_keys@[a].key@,
                ).len() implies fin.posting_has(
                #[trigger] key_norm_tokens(fin.all_keys@[a].key@)[t2],
                fin.all_keys@[a].key@,
            ) by {
                let k2 = fin.all_keys@[a].key@;
                let t = key_norm_tokens(k2)[t2];
                assert(key_norm_tokens(k2).contains(t));
                if k2 == key@ {
                    assert(ntoks.contains(t));
                    if !posting_of(oterms, t).contains(key@) {
                        assert(posting_of(fin.terms@, t) == posting_of(oterms, t).push(key@));
                        lemma_contains_push(posting_of(oterms, t), key@, key@);
                    } else {
                        assert(posting_of(fin.terms@, t).contains(key@));
                    }
                } else {
                    assert(fin.keys()[a] == k2);
                    assert(fin.contains_key(k2));
                    assert(pre.contains_key(k2));
                    pre.lemma_posting_iff(t, k2);
                    assert(posting_of(oterms, t).contains(k2));
                    if ntoks.contains(t) && !posting_of(oterms, t).contains(key@) {
                        lemma_contains_push(posting_of(oterms, t), key@, k2);
                    }
                }
            }
            // buckets hold exactly the indexed keys guessed to the type
            assert forall|i: int, j: int|
                0 <= i < fin.keys_by_type@.len() && 0 <= j
                    < fin.keys_by_type@[i].keys@.len() implies fin.contains_key(
                #[trigger] fin.keys_by_type@[i].keys@[j]@,
            ) && mime_tops(fin.keys_by_type@[i].keys@[j]@).contains(
                fin.keys_by_type@[i].label@,
            ) by {
                let ll = fin.keys_by_type@[i].label@;
                let k2 = fin.keys_by_type@[i].keys@[j]@;
                lemma_posting_at(fin.keys_by_type@, i);
                assert(seq_views(fin.keys_by_type@[i].keys@)[j] == k2);
                assert(posting_of(fin.keys_by_type@, ll).contains(k2));
                if mtops.contains(ll) && !posting_of(obuckets, ll).contains(key@) {
                    lemma_contains_push(posting_of(obuckets, ll), key@, k2);
                    if posting_of(obuckets, ll).contains(k2) {
                        pre.lemma_type_iff(ll, k2);
                    } else {
                        assert(k2 == key@);
                        assert(mime_tops(key@).contains(ll));
                    }
                } else {
                    pre.lemma_type_iff(ll, k2);
                }
            }
            assert forall|a: int, m2: int|
                0 <= a < fin.all_keys@.len() && 0 <= m2 < mime_tops(
                    fin.all_keys@[a].key@,
                ).len() implies fin.type_keys(
                #[trigger] mime_tops(fin.all_keys@[a].key@)[m2],
            ).contains(fin.all_keys@[a].key@) by {
                let k2 = fin.all_keys@[a].key@;
                let m = mime_tops(k2)[m2];
                assert(mime_tops(k2).contains(m));
                if k2 == key@ {
                    assert(mtops.contains(m));
                    if !posting_of(obuckets, m).contains(key@) {
                        assert(posting_of(fin.keys_by_type@, m) == posting_of(
                            obuckets,
                            m,
                        ).push(key@));
                        lemma_contains_push(posting_of(obuckets, m), key@, key@);
                    } else {
                        assert(posting_of(fin.keys_by_type@, m).contains(key@));
                    }
                } else {
                    assert(fin.keys()[a] == k2);
                    assert(pre.contains_key(k2));
                    pre.lemma_type_iff(m, k2);
                    assert(posting_of(obuckets, m).contains(k2));
                    if mtops.contains(m) && !posting_of(obuckets, m).contains(key@) {
                        lemma_contains_push(posting_of(obuckets, m), key@, k2);
                    }
                }
            }
            assert(fin.wf());
            // the promised bucket change
            assert forall|m: Seq<char>| true implies #[trigger] fin.type_keys(m) == (if mime_tops(
                key@,
            ).contains(m) && !pre.contains_key(key@) {
                pre.type_keys(m).push(key@)
            } else {
                pre.type_keys(m)
            }) by {
                pre.lemma_type_iff(m, key@);
            }
        }
        Ok(())
    }

    /// Removes `key` from the index. A key not indexed is a not-found error
    /// and nothing changes. Otherwise the key leaves the candidate order,
    /// every posting that held it (a posting left empty is dropped), and
    /// every type bucket that held it (an emptied bucket stays).
    pub fn remove_key(&mut self, key: &str) -> (r: Result<(), ErrorKind>)
        requires
            old(self).wf(),
        ensures
            final(self).wf(),
            match r {
                Ok(()) => ({
                    let pre = *old(self);
                    let fin = *final(self);
                    &&& pre.contains_key(key@)
                    &&& fin.keys() == pre.keys().remove_value(key@)
                    &&& !fin.contains_key(key@)
                    &&& (forall|k2: Seq<char>|
                        k2 != key@ ==> (#[trigger] fin.contains_key(k2)) == pre.contains_key(k2))
                    &&& (forall|k2: Seq<char>|
                        k2 != key@ && pre.contains_key(k2) ==> #[trigger] fin.info_at(k2)
                            == pre.info_at(k2))
                    &&& (forall|m: Seq<char>| #[trigger]
                        fin.type_keys(m) == pre.type_keys(m).remove_value(key@))
                }),
                Err(e) => e == ErrorKind::NotFound && !old(self).contains_key(key@) && *final(self)
                    == *old(self),
            },
    {
        let ghost pre = *self;
        let pos = match find_entry(&self.all_keys, key) {
            Some(i) => i,
            None => {
                proof {
                    if pre.contains_key(key@) {
                        let w = choose|w: int|
                            0 <= w < pre.keys().len() && pre.keys()[w] == key@;
                        assert(pre.all_keys@[w].key@ == key@);
                        assert(false);
                    }
                }
                return Err(ErrorKind::NotFound);
            },
        };
        let toks = match self.normalized_tokens(key) {
            Ok(v) => v,
            Err(_) => {
                proof {
                    assert(valid_key(pre.all_keys@[pos as int].key@));
                    assert(false);
                }
                return Err(ErrorKind::NotFound);
            },
        };
        let ghost ntoks = tok_views(toks@);
        let _removed = self.all_keys.remove(pos);
        let ghost mid = *self;
        proof {
            assert(forall|i: int|
                0 <= i < pre.all_keys@.len() ==> pre.keys()[i] == (
                #[trigger] pre.all_keys@[i].key@));
            assert(forall|i: int|
                0 <= i < mid.all_keys@.len() ==> mid.keys()[i] == (
                #[trigger] mid.all_keys@[i].key@));
            assert(mid.keys() =~= pre.keys().remove(pos as int));
            assert(pre.keys()[pos as int] == key@);
            assert forall|a: int| 0 <= a < pos implies pre.keys()[a] != pre.keys()[pos as int] by {
                assert(pre.all_keys@[a].key@ != pre.all_keys@[pos as int].key@);
            }
            lemma_remove_value_at(pre.keys(), pos as int);
            assert(mid.keys() == pre.keys().remove_value(key@));
            assert forall|a: int, b: int| 0 <= a < b < pre.keys().len() implies pre.keys()[a]
                != pre.keys()[b] by {
                assert(pre.all_keys@[a].key@ != pre.all_keys@[b].key@);
            }
            assert(views_distinct(pre.keys()));
            lemma_remove_value_gone(pre.keys(), key@);
            assert(!mid.contains_key(key@));
            assert forall|i: int, j: int| 0 <= i < j < mid.all_keys@.len() implies (
            #[trigger] mid.all_keys@[i].key@) != (#[trigger] mid.all_keys@[j].key@) by {
                let pi: int = if i < pos as int {
                    i
                } else {
                    i + 1
                };
                let pj: int = if j < pos as int {
                    j
                } else {
                    j + 1
                };
                assert(mid.all_keys@[i] == pre.all_keys@[pi]);
                assert(mid.all_keys@[j] == pre.all_keys@[pj]);
                assert(pre.all_keys@[pi].key@ != pre.all_keys@[pj].key@);
            }
            assert forall|i: int| 0 <= i < mid.all_keys@.len() implies valid_key(
                #[trigger] mid.all_keys@[i].key@,
            ) by {
                let pi: int = if i < pos as int {
                    i
                } else {
                    i + 1
                };
                assert(mid.all_keys@[i] == pre.all_keys@[pi]);
            }
        }
        let key_s = String::from_str(key);
        let ghost oterms = self.terms@;
        let mut ti: usize = 0;
        while ti < toks.len()
            invariant
                0 <= ti <= toks@.len(),
                ntoks == tok_views(toks@),
                key_s@ == key@,
                self.all_keys@ == mid.all_keys@,
                self.keys_by_type@ == pre.keys_by_type@,
                oterms == pre.terms@,
                labels_distinct(oterms),
                postings_keys_distinct(oterms),
                labels_distinct(self.terms@),
                postings_keys_distinct(self.terms@),
                postings_nonempty(self.terms@),
                forall|t: Seq<char>| #[trigger]
                    posting_of(self.terms@, t) == (if ntoks.take(ti as int).contains(t) {
                        posting_of(oterms, t).remove_value(key@)
                    } else {
                        posting_of(oterms, t)
                    }),
            decreases toks@.len() - ti,
        {
            let label = toks[ti].clone_string();
            let ghost cur = self.terms@;
            posting_remove(&mut self.terms, &label, &key_s, true);
            proof {
                assert(ntoks.take(ti + 1) =~= ntoks.take(ti as int).push(ntoks[ti as int]));
                assert(label@ == ntoks[ti as int]);
                assert forall|t: Seq<char>| true implies #[trigger] posting_of(self.terms@, t) == (
                if ntoks.take(ti + 1).contains(t) {
                    posting_of(oterms, t).remove_value(key@)
                } else {
                    posting_of(oterms, t)
                }) by {
                    lemma_contains_push(ntoks.take(ti as int), ntoks[ti as int], t);
                    if t == label@ {
                        if ntoks.take(ti as int).contains(t) {
                            assert(posting_of(cur, t) == posting_of(oterms, t).remove_value(key@));
                            lemma_posting_views_distinct(oterms, t);
                            lemma_remove_value_gone(posting_of(oterms, t), key@);
                            lemma_remove_value_absent(posting_of(cur, t), key@);
                        }
                    }
                }
            }
            ti += 1;
        }
        proof {
            assert(ntoks.take(toks@.len() as int) =~= ntoks);
        }
        let tops = mime_top_levels(key);
        let ghost obuckets = self.keys_by_type@;
        let ghost mtops = seq_views(tops@);
        let mut mi: usize = 0;
        while mi < tops.len()
            invariant
                0 <= mi <= tops@.len(),
                mtops == seq_views(tops@),
                mtops == mime_tops(key@),
                key_s@ == key@,
                self.all_keys@ == mid.all_keys@,
                oterms == pre.terms@,
                obuckets == pre.keys_by_type@,
                labels_distinct(obuckets),
                postings_keys_distinct(obuckets),
                forall|t: Seq<char>| #[trigger]
                    posting_of(self.terms@, t) == (if ntoks.contains(t) {
                        posting_of(oterms, t).remove_value(key@)
                    } else {
                        posting_of(oterms, t)
                    }),
                labels_distinct(self.terms@),
                postings_keys_distinct(self.terms@),
                postings_nonempty(self.terms@),
                labels_distinct(self.keys_by_type@),
                postings_keys_distinct(self.keys_by_type@),
                forall|m: Seq<char>| #[trigger]
                    posting_of(self.keys_by_type@, m) == (if mtops.take(mi as int).contains(m) {
                        posting_of(obuckets, m).remove_value(key@)
                    } else {
                        posting_of(obuckets, m)
                    }),
            decreases tops@.len() - mi,
        {
            let ghost cur = self.keys_by_type@;
            posting_remove(&mut self.keys_by_type, &tops[mi], &key_s, false);
            proof {
                assert(mtops.take(mi + 1) =~= mtops.take(mi as int).push(mtops[mi as int]));
                assert(tops@[mi as int]@ == mtops[mi as int]);
                assert forall|m: Seq<char>| true implies #[trigger] posting_of(
                    self.keys_by_type@,
                    m,
                ) == (if mtops.take(mi + 1).contains(m) {
                    posting_of(obuckets, m).remove_value(key@)
                } else {
                    posting_of(obuckets, m)
                }) by {
                    lemma_contains_push(mtops.take(mi as int), mtops[mi as int], m);
                    if m == mtops[mi as int] {
                        if mtops.take(mi as int).contains(m) {
                            assert(posting_of(cur, m) == posting_of(obuckets, m).remove_value(
                                key@,
                            ));
                            lemma_posting_views_distinct(obuckets, m);
                            lemma_remove_value_gone(posting_of(obuckets, m), key@);
                            lemma_remove_value_absent(posting_of(cur, m), key@);
                        }
                    }
                }
            }
            mi += 1;
        }
        proof {
            assert(mtops.take(tops@.len() as int) =~= mtops);
            let fin = *self;
            assert(fin.keys() == mid.keys());
            assert(fin.keys() == pre.keys().remove_value(key@));
            assert(!fin.contains_key(key@));
            assert forall|k2: Seq<char>| k2 != key@ implies (#[trigger] fin.contains_key(k2))
                == pre.contains_key(k2) by {
                if pre.contains_key(k2) {
                    lemma_remove_value_keeps(pre.keys(), key@, k2);
                }
                if fin.contains_key(k2) {
                    lemma_remove_value_subset(pre.keys(), key@, k2);
                }
            }
            assert forall|k2: Seq<char>| k2 != key@ && pre.contains_key(k2) implies #[trigger] fin.info_at(k2) == pre.info_at(k2) by {
                pre.lemma_key_idx(k2);
                let w = pre.key_idx(k2);
                assert(w != pos as int);
                let nw: int = if w < pos as int {
                    w
                } else {
                    w - 1
                };
                assert(fin.all_keys@[nw] == pre.all_keys@[w]);
                assert(fin.contains_key(k2));
                fin.lemma_key_idx(k2);
                assert(fin.key_idx(k2) == nw);
            }
            // postings hold exactly the indexed keys that carry the token
            assert forall|i: int, j: int|
                0 <= i < fin.terms@.len() && 0 <= j < fin.terms@[i].keys@.len() implies fin.contains_key(#[trigger] fin.terms@[i].keys@[j]@) && key_norm_tokens(
                fin.terms@[i].keys@[j]@,
            ).contains(fin.terms@[i].label@) by {
                let ll = fin.terms@[i].label@;
                let k2 = fin.terms@[i].keys@[j]@;
                lemma_posting_at(fin.terms@, i);
                assert(seq_views(fin.terms@[i].keys@)[j] == k2);
                assert(posting_of(fin.terms@, ll).contains(k2));
                if ntoks.contains(ll) {
                    lemma_remove_value_subset(posting_of(oterms, ll), key@, k2);
                    lemma_posting_views_distinct(oterms, ll);
                    lemma_remove_value_gone(posting_of(oterms, ll), key@);
                    assert(k2 != key@);
                } else {
                    pre.lemma_posting_iff(ll, k2);
                    if k2 == key@ {
                        assert(key_norm_tokens(key@).contains(ll));
                        assert(ntoks.contains(ll));
                        assert(false);
                    }
                }
                pre.lemma_posting_iff(ll, k2);
                assert(pre.contains_key(k2) && key_norm_tokens(k2).contains(ll));
            }
            assert forall|a: int, t2: int|
                0 <= a < fin.all_keys@.len() && 0 <= t2 < key_norm_tokens(
                    fin.all_keys@[a].key@,
                ).len() implies fin.posting_has(
                #[trigger] key_norm_tokens(fin.all_keys@[a].key@)[t2],
                fin.all_keys@[a].key@,
            ) by {
                let k2 = fin.all_keys@[a].key@;
                let t = key_norm_tokens(k2)[t2];
                assert(fin.keys()[a] == k2);
                assert(fin.contains_key(k2));
                assert(k2 != key@);
                assert(pre.contains_key(k2));
                pre.lemma_posting_iff(t, k2);
                assert(posting_of(oterms, t).contains(k2));
                if ntoks.contains(t) {
                    lemma_remove_value_keeps(posting_of(oterms, t), key@, k2);
                }
            }
            // buckets hold exactly the indexed keys guessed to the type
            assert forall|i: int, j: int|
                0 <= i < fin.keys_by_type@.len() && 0 <= j
                    < fin.keys_by_type@[i].keys@.len() implies fin.contains_key(
                #[trigger] fin.keys_by_type@[i].keys@[j]@,
            ) && mime_tops(fin.keys_by_type@[i].keys@[j]@).contains(
                fin.keys_by_type@[i].label@,
            ) by {
                let ll = fin.keys_by_type@[i].label@;
                let k2 = fin.keys_by_type@[i].keys@[j]@;
                lemma_posting_at(fin.keys_by_type@, i);
                assert(seq_views(fin.keys_by_type@[i].keys@)[j] == k2);
                assert(posting_of(fin.keys_by_type@, ll).contains(k2));
                if mtops.contains(ll) {
                    lemma_remove_value_subset(posting_of(obuckets, ll), key@, k2);
                    lemma_posting_views_distinct(obuckets, ll);
                    lemma_remove_value_gone(posting_of(obuckets, ll), key@);
                    assert(k2 != key@);
                } else {
                    pre.lemma_type_iff(ll, k2);
                    if k2 == key@ {
                        assert(mime_tops(key@).contains(ll));
                        assert(false);
                    }
                }
                pre.lemma_type_iff(ll, k2);
                assert(pre.contains_key(k2) && mime_tops(k2).contains(ll));
            }
            assert forall|a: int, m2: int|
                0 <= a < fin.all_keys@.len() && 0 <= m2 < mime_tops(
                    fin.all_keys@[a].key@,
                ).len() implies fin.type_keys(
                #[trigger] mime_tops(fin.all_keys@[a].key@)[m2],
            ).contains(fin.all_keys@[a].key@) by {
                let k2 = fin.all_keys@[a].key@;
                let m = mime_tops(k2)[m2];
                assert(fin.keys()[a] == k2);
                assert(fin.contains_key(k2));
                assert(k2 != key@);
                assert(pre.contains_key(k2));
                pre.lemma_type_iff(m, k2);
                assert(posting_of(obuckets, m).contains(k2));
                if mtops.contains(m) {
                    lemma_remove_value_keeps(posting_of(obuckets, m), key@, k2);
                }
            }
            assert(fin.wf());
            // the promised bucket change
            assert forall|m: Seq<char>| true implies #[trigger] fin.type_keys(m) == pre.type_keys(
                m,
            ).remove_value(key@) by {
                if !mtops.contains(m) {
                    pre.lemma_type_iff(m, key@);
                    assert(!posting_of(obuckets, m).contains(key@));
                    lemma_remove_value_absent(posting_of(obuckets, m), key@);
                }
            }
        }
        Ok(())
    }

    /// The hit count of key `k` for the normalized query tokens `qs`: one
    /// for each query token under which `k` is filed (a duplicated query
    /// term counts each time; a token occurring several times in a key
    /// still counts once, since filing is membership).
    pub open spec fn hit_count(self, qs: Seq<Seq<char>>, k: Seq<char>) -> nat
        decreases qs.len(),
    {
        if qs.len() == 0 {
            0
        } else {
            self.hit_count(qs.drop_last(), k) + (if self.posting_has(qs.last(), k) {
                1nat
            } else {
                0nat
            })
        }
    }

    /// The candidate keys of a query: all keys without a type filter, the
    /// type's bucket with one (a type nobody guessed yields no candidates).
    pub open spec fn candidates(self, type_filter: Option<Seq<char>>) -> Seq<Seq<char>> {
        match type_filter {
            None => self.keys(),
            Some(m) => self.type_keys(m),
        }
    }

    /// Whether `key` is filed under the posting for `token`.
    fn posting_contains_key(&self, token: &str, key: &String) -> (r: bool)
        requires
            labels_distinct(self.terms@),
        ensures
            r == self.posting_has(token@, key@),
    {
        match find_label(&self.terms, token) {
            Some(i) => {
                proof {
                    lemma_posting_at(self.terms@, i as int);
                }
                keys_contain(&self.terms[i].keys, key.as_str())
            },
            None => {
                proof {
                    assert(!has_label(self.terms@, token@));
                }
                false
            },
        }
    }

    /// The number of query tokens under which `key` is filed.
    fn score_key(&self, qtoks: &Vec<NormalizedToken>, key: &String) -> (r: usize)
        requires
            labels_distinct(self.terms@),
        ensures
            r == self.hit_count(tok_views(qtoks@), key@),
    {
        let qs = Ghost(tok_views(qtoks@));
        let mut hits: usize = 0;
        let mut i: usize = 0;
        proof {
            assert(qs@.take(0) =~= Seq::<Seq<char>>::empty());
        }
        while i < qtoks.len()
            invariant
                0 <= i <= qtoks@.len(),
                qs@ == tok_views(qtoks@),
                labels_distinct(self.terms@),
                hits <= i,
                hits == self.hit_count(qs@.take(i as int), key@),
            decreases qtoks@.len() - i,
        {
            let hit = self.posting_contains_key(qtoks[i].as_str(), key);
            proof {
                assert(qs@.take(i + 1).drop_last() =~= qs@.take(i as int));
                assert(qs@.take(i + 1).last() == qs@[i as int]);
                assert(qs@[i as int] == qtoks@[i as int]@);
            }
            if hit {
                hits += 1;
            }
            i += 1;
        }
        proof {
            assert(qs@.take(qtoks@.len() as int) =~= qs@);
        }
        hits
    }

    /// Scores every candidate key: the hit count over the case-folded query
    /// terms, with the candidates taken from all keys, or from the filter
    /// type's bucket when one is given. Items carry the stored record and
    /// come out in stored (insertion) order, the same on every call, so
    /// ranking ties downstream are stable; sorting happens in the query
    /// engine.
    pub fn get_matches(&self, terms: &Vec<String>, type_filter: &Option<String>) -> (r: Vec<
        SearchResultItem,
    >)
        requires
            self.wf(),
        ensures
            ({
                let cands = self.candidates(opt_view(*type_filter));
                let qs = norm_views(seq_views(terms@));
                &&& r@.len() == cands.len()
                &&& (forall|i: int|
                    0 <= i < r@.len() ==> ((#[trigger] r@[i]).s3_key@ == cands[i]
                        && self.contains_key(cands[i]) && r@[i].token_hits == self.hit_count(
                        qs,
                        cands[i],
                    ) && r@[i].size == self.info_at(cands[i]).size && r@[i].last_modified
                        == self.info_at(cands[i]).last_modified && r@[i].info_hash@ == self.info_at(
                        cands[i],
                    ).info_hash))
            }),
    {
        let ghost qs = norm_views(seq_views(terms@));
        let mut qtoks: Vec<NormalizedToken> = Vec::new();
        let mut qi: usize = 0;
        while qi < terms.len()
            invariant
                0 <= qi <= terms@.len(),
                qtoks@.len() == qi,
                forall|j: int| 0 <= j < qi ==> (#[trigger] qtoks@[j]@) == qs[j],
                qs == norm_views(seq_views(terms@)),
            decreases terms@.len() - qi,
        {
            qtoks.push(NormalizedToken::new(terms[qi].as_str()));
            qi += 1;
        }
        proof {
            assert(tok_views(qtoks@) =~= qs);
        }
        let mut out: Vec<SearchResultItem> = Vec::new();
        match type_filter {
            None => {
                let ghost cands = self.keys();
                let n = self.all_keys.len();
                let mut i: usize = 0;
                while i < n
                    invariant
                        0 <= i <= n,
                        n == self.all_keys@.len(),
                        self.wf(),
                        tok_views(qtoks@) == qs,
                        out@.len() == i,
                        cands == self.keys(),
                        forall|j: int|
                            0 <= j < i ==> ((#[trigger] out@[j]).s3_key@ == cands[j]
                                && out@[j].token_hits == self.hit_count(qs, cands[j]) && out@[j].size
                                == self.info_at(cands[j]).size && out@[j].last_modified
                                == self.info_at(cands[j]).last_modified && out@[j].info_hash@
                                == self.info_at(cands[j]).info_hash),
                    decreases n - i,
                {
                    let hits = self.score_key(&qtoks, &self.all_keys[i].key);
                    let item = SearchResultItem {
                        s3_key: self.all_keys[i].key.clone(),
                        token_hits: hits,
                        size: self.all_keys[i].info.size,
                        last_modified: self.all_keys[i].info.last_modified,
                        info_hash: self.all_keys[i].info.info_hash.duplicate(),
                    };
                    proof {
                        assert(cands[i as int] == self.all_keys@[i as int].key@);
                        self.lemma_keys_at(i as int);
                        self.lemma_key_idx(cands[i as int]);
                        assert(self.key_idx(cands[i as int]) == i as int);
                    }
                    out.push(item);
                    i += 1;
                }
                proof {
                    assert forall|i2: int| 0 <= i2 < out@.len() implies self.contains_key(
                        self.candidates(opt_view(*type_filter))[i2],
                    ) by {
                        self.lemma_keys_at(i2);
                    }
                }
            },
            Some(t) => {
                let ghost m = t@;
                match find_label(&self.keys_by_type, t.as_str()) {
                    None => {
                        proof {
                            assert(self.type_keys(m) =~= Seq::<Seq<char>>::empty());
                        }
                    },
                    Some(bi) => {
                        proof {
                            lemma_posting_at(self.keys_by_type@, bi as int);
                        }
                        let n = self.keys_by_type[bi].keys.len();
                        let ghost cands = self.type_keys(m);
                        let mut i: usize = 0;
                        while i < n
                            invariant
                                0 <= i <= n,
                                bi < self.keys_by_type@.len(),
                                self.keys_by_type@[bi as int].label@ == m,
                                n == self.keys_by_type@[bi as int].keys@.len(),
                                self.wf(),
                                tok_views(qtoks@) == qs,
                                out@.len() == i,
                                cands == self.type_keys(m),
                                cands == seq_views(self.keys_by_type@[bi as int].keys@),
                                forall|j: int|
                                    0 <= j < i ==> ((#[trigger] out@[j]).s3_key@ == cands[j]
                                        && self.contains_key(cands[j]) && out@[j].token_hits
                                        == self.hit_count(qs, cands[j]) && out@[j].size
                                        == self.info_at(cands[j]).size && out@[j].last_modified
                                        == self.info_at(cands[j]).last_modified && out@[j].info_hash@
                                        == self.info_at(cands[j]).info_hash),
                            decreases n - i,
                        {
                            let bkey = &self.keys_by_type[bi].keys[i];
                            proof {
                                assert(self.contains_key(
                                    self.keys_by_type@[bi as int].keys@[i as int]@,
                                ));
                                assert(cands[i as int] == bkey@);
                            }
                            let ei = match find_entry(&self.all_keys, bkey.as_str()) {
                                Some(ei) => ei,
                                None => {
                                    proof {
                                        let w = choose|w: int|
                                            0 <= w < self.keys().len() && self.keys()[w] == bkey@;
                                        assert(self.all_keys@[w].key@ == bkey@);
                                        assert(false);
                                    }
                                    0
                                },
                            };
                            let hits = self.score_key(&qtoks, bkey);
                            let item = SearchResultItem {
                                s3_key: self.all_keys[ei].key.clone(),
                                token_hits: hits,
                                size: self.all_keys[ei].info.size,
                                last_modified: self.all_keys[ei].info.last_modified,
                                info_hash: self.all_keys[ei].info.info_hash.duplicate(),
                            };
                            proof {
                                self.lemma_key_idx(bkey@);
                                assert(self.key_idx(bkey@) == ei as int);
                            }
                            out.push(item);
                            i += 1;
                        }
                    },
                }
            },
        }
        out
    }

    /// One invariant of the index, stated over a single-term query: a query
    /// for token `t` scores key `k` one exactly when `k` is indexed and `t`
    /// is among its folded tokens (membership in the stored posting), and
    /// zero otherwise.
    pub proof fn lemma_single_term_score(self, t: Seq<char>, k: Seq<char>)
        requires
            self.wf(),
        ensures
            self.hit_count(seq![t], k) == (if self.contains_key(k) && key_norm_tokens(k).contains(
                t,
            ) {
                1nat
            } else {
                0nat
            }),
    {
        self.lemma_posting_iff(t, k);
        assert(seq![t].drop_last() =~= Seq::<Seq<char>>::empty());
        assert(self.hit_count(Seq::<Seq<char>>::empty(), k) == 0);
        assert(seq![t].last() == t);
    }

    /// A key that is not indexed sits in no posting and scores zero on every
    /// query; with the removal contract this says a removed key is returned
    /// by no token.
    pub proof fn lemma_absent_key_unscored(self, qs: Seq<Seq<char>>, k: Seq<char>)
        requires
            self.wf(),
            !self.contains_key(k),
        ensures
            self.hit_count(qs, k) == 0,
            forall|t: Seq<char>| !(#[trigger] self.posting_has(t, k)),
        decreases qs.len(),
    {
        assert forall|t: Seq<char>| !(#[trigger] self.posting_has(t, k)) by {
            self.lemma_posting_iff(t, k);
        }
        if qs.len() > 0 {
            self.lemma_absent_key_unscored(qs.drop_last(), k);
        }
    }

    /// For a key whose MIME guesses include top-level `m`, the candidates of
    /// the `m`-filtered query hold the key exactly when the unfiltered
    /// candidates do: the type filter never hides a key of that type.
    pub proof fn lemma_type_filter_candidates(self, m: Seq<char>, k: Seq<char>)
        requires
            self.wf(),
            mime_tops(k).contains(m),
        ensures
            self.candidates(Some(m)).contains(k) == self.candidates(None).contains(k),
    {
        self.lemma_type_iff(m, k);
    }
}

/// Postings are a function of the key set alone: two consistent indexes
/// holding the same keys agree on every posting membership and every hit
/// count. In particular, adding a key a second time (which leaves the key
/// set unchanged) yields the same postings as adding it once.
pub proof fn lemma_postings_determined_by_keys(a: Index, b: Index)
    requires
        a.wf(),
        b.wf(),
        forall|k: Seq<char>| #[trigger] a.contains_key(k) == b.contains_key(k),
    ensures
        forall|t: Seq<char>, k: Seq<char>| #[trigger]
            a.posting_has(t, k) == #[trigger] b.posting_has(t, k),
{
    assert forall|t: Seq<char>, k: Seq<char>| #[trigger]
        a.posting_has(t, k) == #[trigger] b.posting_has(t, k) by {
        a.lemma_posting_iff(t, k);
        b.lemma_posting_iff(t, k);
        assert(a.contains_key(k) == b.contains_key(k));
    }
}

/// Adding a key that was absent and then removing it restores the index:
/// the hypotheses are what the contracts of `add_key` (on a fresh key) and
/// `remove_key` give for the mid and end states, and the conclusion is that
/// the end state holds the keys of the start state, files every key under
/// the same tokens and types, and keeps every record. Only an emptied MIME
/// bucket may remain, which no contract observes.
pub proof fn lemma_add_remove_restores(pre: Index, mid: Index, post: Index, k: Seq<char>)
    requires
        pre.wf(),
        mid.wf(),
        post.wf(),
        !pre.contains_key(k),
        mid.keys() == pre.keys().push(k),
        forall|k2: Seq<char>|
            k2 != k && pre.contains_key(k2) ==> #[trigger] mid.info_at(k2) == pre.info_at(k2),
        post.keys() == mid.keys().remove_value(k),
        forall|k2: Seq<char>|
            k2 != k && mid.contains_key(k2) ==> #[trigger] post.info_at(k2) == mid.info_at(k2),
    ensures
        post.keys() == pre.keys(),
        forall|k2: Seq<char>| #[trigger] post.contains_key(k2) == pre.contains_key(k2),
        forall|t: Seq<char>, k2: Seq<char>| #[trigger]
            post.posting_has(t, k2) == #[trigger] pre.posting_has(t, k2),
        forall|k2: Seq<char>|
            pre.contains_key(k2) ==> #[trigger] post.info_at(k2) == pre.info_at(k2),
        forall|m: Seq<char>, k2: Seq<char>| #[trigger]
            post.type_keys(m).contains(k2) == #[trigger] pre.type_keys(m).contains(k2),
{
    assert forall|a: int| 0 <= a < pre.keys().len() implies pre.keys()[a] != k by {
        if pre.keys()[a] == k {
            assert(pre.contains_key(k));
        }
    }
    assert(mid.keys()[pre.keys().len() as int] == k);
    lemma_remove_value_at(mid.keys(), pre.keys().len() as int);
    assert(post.keys() =~= pre.keys());
    assert forall|k2: Seq<char>| #[trigger] post.contains_key(k2) == pre.contains_key(k2) by {}
    lemma_postings_determined_by_keys(pre, post);
    assert forall|k2: Seq<char>| pre.contains_key(k2) implies #[trigger] post.info_at(k2)
        == pre.info_at(k2) by {
        assert(k2 != k);
        let w = choose|w: int| 0 <= w < pre.keys().len() && pre.keys()[w] == k2;
        assert(mid.keys()[w] == k2);
        assert(mid.contains_key(k2));
    }
    assert forall|m: Seq<char>, k2: Seq<char>| #[trigger]
        post.type_keys(m).contains(k2) == #[trigger] pre.type_keys(m).contains(k2) by {
        pre.lemma_type_iff(m, k2);
        post.lemma_type_iff(m, k2);
    }
}

} // verus!
