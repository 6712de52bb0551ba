//! The upstream client's file-listing cache and its rules: a listing is
//! answered from the cache when present; a miss is fetched (through the
//! single-flight group) and a successful fetch is stored; a failed fetch is
//! never cached, so the next call retries.

use vstd::prelude::*;

use crate::remote::{duplicate_files, file_views, File, FileSnap};
use crate::text::str_eq;

verus! {

struct CacheEntry {
    hash: String,
    files: Vec<File>,
}

/// The memoized file listings, keyed by info-hash.
pub struct FileListCache {
    entries: Vec<CacheEntry>,
}

impl FileListCache {
    /// Whether a listing for `h` is cached.
    pub closed spec fn has(self, h: Seq<char>) -> bool {
        exists|i: int| 0 <= i < self.entries@.len() && self.entries@[i].hash@ == h
    }

    spec fn idx_of(self, h: Seq<char>) -> int {
        choose|i: int| 0 <= i < self.entries@.len() && self.entries@[i].hash@ == h
    }

    /// The cached listing for `h` (meaningful when one is cached).
    pub closed spec fn files_at(self, h: Seq<char>) -> Seq<FileSnap> {
        file_views(self.entries@[self.idx_of(h)].files@)
    }

    /// The cached hashes are distinct.
    pub closed spec fn wf(self) -> bool {
        forall|i: int, j: int|
            0 <= i < j < self.entries@.len() ==> (#[trigger] self.entries@[i].hash@) != (
            #[trigger] self.entries@[j].hash@)
    }

    proof fn lemma_idx(self, h: Seq<char>)
        requires
            self.wf(),
            self.has(h),
        ensures
            0 <= self.idx_of(h) < self.entries@.len(),
            self.entries@[self.idx_of(h)].hash@ == h,
            forall|i: int|
                0 <= i < self.entries@.len() && (#[trigger] self.entries@[i].hash@) == h ==> i
                    == self.idx_of(h),
    {
        let w = self.idx_of(h);
        assert(0 <= w < self.entries@.len() && self.entries@[w].hash@ == h);
        assert forall|i: int|
            0 <= i < self.entries@.len() && (#[trigger] self.entries@[i].hash@) == h implies i
            == w by {
            if i < w {
                assert(self.entries@[i].hash@ != self.entries@[w].hash@);
            } else if w < i {
                assert(self.entries@[w].hash@ != self.entries@[i].hash@);
            }
        }
    }

    /// An empty cache.
    pub fn new() -> (r: Self)
        ensures
            r.wf(),
            forall|h: Seq<char>| !(#[trigger] r.has(h)),
    {
        FileListCache { entries: Vec::new() }
    }

    fn find(&self, h: &str) -> (r: Option<usize>)
        ensures
            match r {
                Some(i) => i < self.entries@.len() && self.entries@[i as int].hash@ == h@,
                None => !self.has(h@),
            },
    {
        let mut i: usize = 0;
        while i < self.entries.len()
            invariant
                0 <= i <= self.entries@.len(),
                forall|j: int| 0 <= j < i ==> (#[trigger] self.entries@[j].hash@) != h@,
            decreases self.entries@.len() - i,
        {
            if str_eq(self.entries[i].hash.as_str(), h) {
                return Some(i);
            }
            i += 1;
        }
        None
    }

    /// The first step of a listing request: a cached listing answers at
    /// once; a miss asks the caller to fetch, through the single-flight
    /// group under the same key.
    pub fn lookup(&self, info_hash: &str) -> (r: Option<Vec<File>>)
        requires
            self.wf(),
        ensures
            match r {
                Some(fs) => self.has(info_hash@) && file_views(fs@) == self.files_at(info_hash@),
                None => !self.has(info_hash@),
            },
    {
        match self.find(info_hash) {
            Some(i) => {
                proof {
                    self.lemma_idx(info_hash@);
                }
                Some(duplicate_files(&self.entries[i].files))
            },
            None => None,
        }
    }

    /// What a finished fetch leaves in the cache: a successful listing is
    /// stored under its info-hash (replacing any entry), a failed fetch
    /// changes nothing, so the next call retries instead of seeing a
    /// cached failure.
    pub fn record_fetch(&mut self, info_hash: &str, fetched: Option<Vec<File>>)
        requires
            old(self).wf(),
        ensures
            final(self).wf(),
            fetched is None ==> *final(self) == *old(self),
            fetched matches Some(fs) ==> final(self).has(info_hash@) && final(self).files_at(
                info_hash@,
            ) == file_views(fs@),
            fetched is Some ==> (forall|h2: Seq<char>|
                h2 != info_hash@ ==> (#[trigger] final(self).has(h2)) == old(self).has(h2)),
            fetched is Some ==> (forall|h2: Seq<char>|
                h2 != info_hash@ && old(self).has(h2) ==> (#[trigger] final(self).files_at(h2))
                    == old(self).files_at(h2)),
    {
        match fetched {
            Some(fs) => {
                let ghost oes = self.entries@;
                let ghost fsv = file_views(fs@);
                match self.find(info_hash) {
                    Some(i) => {
                        let mut e = self.entries.remove(i);
                        e.files = fs;
                        let ghost ge = e;
                        self.entries.insert(i, e);
                        proof {
                            assert(self.entries@ =~= oes.update(i as int, ge));
                            assert(ge.hash@ == info_hash@);
                            assert(file_views(ge.files@) == fsv);
                            assert(forall|j: int|
                                0 <= j < oes.len() ==> (#[trigger] self.entries@[j].hash@)
                                    == oes[j].hash@);
                            assert(self.wf());
                            assert(self.entries@[i as int].hash@ == info_hash@);
                            assert(self.has(info_hash@));
                            self.lemma_idx(info_hash@);
                            assert(self.idx_of(info_hash@) == i as int);
                            assert(self.entries@[i as int] == ge);
                            assert(self.files_at(info_hash@) == fsv);
                            assert forall|h2: Seq<char>| h2 != info_hash@ implies (
                            #[trigger] self.has(h2)) == old(self).has(h2) && (old(self).has(h2)
                                ==> self.files_at(h2) == old(self).files_at(h2)) by {
                                if old(self).has(h2) {
                                    old(self).lemma_idx(h2);
                                    let w = old(self).idx_of(h2);
                                    assert(self.entries@[w].hash@ == h2);
                                    self.lemma_idx(h2);
                                    assert(self.idx_of(h2) == w);
                                    assert(w != i as int);
                                    assert(self.entries@[w] == oes[w]);
                                }
                                if self.has(h2) {
                                    self.lemma_idx(h2);
                                    let w = self.idx_of(h2);
                                    assert(w != i as int);
                                    assert(oes[w].hash@ == h2);
                                }
                            }
                            assert forall|h2: Seq<char>|
                                h2 != info_hash@ && old(self).has(h2) implies (
                            #[trigger] self.files_at(h2)) == old(self).files_at(h2) by {
                                old(self).lemma_idx(h2);
                                let w = old(self).idx_of(h2);
                                assert(self.entries@[w].hash@ == h2);
                                self.lemma_idx(h2);
                                assert(self.idx_of(h2) == w);
                                assert(self.entries@[w] == oes[w]);
                            }
                        }
                    },
                    None => {
                        let entry = CacheEntry { hash: String::from_str(info_hash), files: fs };
                        self.entries.push(entry);
                        proof {
                            assert(self.entries@[oes.len() as int].hash@ == info_hash@);
                            assert(self.has(info_hash@));
                            assert(file_views(self.entries@[oes.len() as int].files@) == fsv);
                            assert forall|i: int, j: int|
                                0 <= i < j < self.entries@.len() implies (
                            #[trigger] self.entries@[i].hash@) != (
                            #[trigger] self.entries@[j].hash@) by {
                                if j < oes.len() as int {
                                    assert(oes[i].hash@ != oes[j].hash@);
                                } else {
                                    assert(self.entries@[i].hash@ == oes[i].hash@);
                                    if oes[i].hash@ == info_hash@ {
                                        assert(old(self).has(info_hash@));
                                    }
                                }
                            }
                            self.lemma_idx(info_hash@);
                            assert(self.idx_of(info_hash@) == oes.len() as int);
                            assert(self.files_at(info_hash@) == fsv);
                            assert forall|h2: Seq<char>| h2 != info_hash@ implies (
                            #[trigger] self.has(h2)) == old(self).has(h2) && (old(self).has(h2)
                                ==> self.files_at(h2) == old(self).files_at(h2)) by {
                                if old(self).has(h2) {
                                    old(self).lemma_idx(h2);
                                    let w = old(self).idx_of(h2);
                                    assert(self.entries@[w].hash@ == h2);
                                    self.lemma_idx(h2);
                                    assert(self.idx_of(h2) == w);
                                    assert(self.entries@[w] == oes[w]);
                                }
                                if self.has(h2) {
                                    self.lemma_idx(h2);
                                    let w = self.idx_of(h2);
                                    assert(w != oes.len() as int);
                                    assert(oes[w].hash@ == h2);
                                }
                            }
                            assert forall|h2: Seq<char>|
                                h2 != info_hash@ && old(self).has(h2) implies (
                            #[trigger] self.files_at(h2)) == old(self).files_at(h2) by {
                                old(self).lemma_idx(h2);
                                let w = old(self).idx_of(h2);
                                assert(self.entries@[w].hash@ == h2);
                                self.lemma_idx(h2);
                                assert(self.idx_of(h2) == w);
                                assert(self.entries@[w] == oes[w]);
                            }
                        }
                    },
                }
            },
            None => {},
        }
    }
}

} // verus!
