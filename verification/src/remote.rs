//! Results from the upstream BitTorrent metadata backend: torrent
//! summaries, their file listings, the per-file result items a search
//! emits, and the term scoring of those items.

use vstd::prelude::*;

use crate::index::{keys_contain, tok_views};
use crate::text::{lower_seq, lowercase, sep_pred, seq_views, split_name, split_on};
use crate::types::{DateTime, Epoch, FileSize, NormalizedToken};

verus! {

/// One torrent summary as the upstream backend reports it. The logic reads
/// the info-hash, the name and the discovery time; the backend's relevance
/// score is floating point and is not carried into the core.
pub struct Torrent {
    pub info_hash: String,
    pub id: u64,
    pub name: String,
    pub size: u64,
    pub discovered_on: Epoch,
    pub n_files: u64,
}

/// The mathematical value of a torrent summary.
#[verifier::ext_equal]
pub ghost struct TorrentSnap {
    pub info_hash: Seq<char>,
    pub name: Seq<char>,
    pub discovered_on: i64,
}

impl View for Torrent {
    type V = TorrentSnap;

    open spec fn view(&self) -> TorrentSnap {
        TorrentSnap {
            info_hash: self.info_hash@,
            name: self.name@,
            discovered_on: self.discovered_on.0,
        }
    }
}

/// One file of a torrent's listing.
pub struct File {
    pub size: FileSize,
    pub path: String,
}

/// The mathematical value of a file entry.
#[verifier::ext_equal]
pub ghost struct FileSnap {
    pub size: FileSize,
    pub path: Seq<char>,
}

impl View for File {
    type V = FileSnap;

    open spec fn view(&self) -> FileSnap {
        FileSnap { size: self.size, path: self.path@ }
    }
}

impl File {
    /// An owned copy of the entry.
    pub fn duplicate(&self) -> (r: Self)
        ensures
            r@ == self@,
    {
        File { size: self.size, path: self.path.clone() }
    }
}

/// The views of a file list.
pub open spec fn file_views(fs: Seq<File>) -> Seq<FileSnap> {
    Seq::new(fs.len(), |i: int| fs[i]@)
}

/// An owned copy of a file list.
pub fn duplicate_files(fs: &Vec<File>) -> (r: Vec<File>)
    ensures
        file_views(r@) == file_views(fs@),
{
    let mut r: Vec<File> = Vec::new();
    let mut i: usize = 0;
    while i < fs.len()
        invariant
            0 <= i <= fs@.len(),
            r@.len() == i,
            forall|j: int| 0 <= j < i ==> (#[trigger] r@[j]@) == fs@[j]@,
        decreases fs@.len() - i,
    {
        r.push(fs[i].duplicate());
        i += 1;
    }
    proof {
        assert(file_views(r@) =~= file_views(fs@));
    }
    r
}

/// One remote search hit: one file of one torrent.
pub struct SearchResultItem {
    pub torrent_name: String,
    pub info_hash: String,
    pub file_path: String,
    pub size: FileSize,
    pub age: DateTime,
}

/// The mathematical value of a remote search hit.
#[verifier::ext_equal]
pub ghost struct RemoteItemSnap {
    pub torrent_name: Seq<char>,
    pub info_hash: Seq<char>,
    pub file_path: Seq<char>,
    pub size: FileSize,
    pub age: DateTime,
}

impl View for SearchResultItem {
    type V = RemoteItemSnap;

    open spec fn view(&self) -> RemoteItemSnap {
        RemoteItemSnap {
            torrent_name: self.torrent_name@,
            info_hash: self.info_hash@,
            file_path: self.file_path@,
            size: self.size,
            age: self.age,
        }
    }
}

/// The folded tokens of a remote hit: its torrent name and file path, each
/// split at whitespace or punctuation, all fields case-folded.
pub open spec fn item_tokens(name: Seq<char>, path: Seq<char>) -> Seq<Seq<char>> {
    let raw = split_on(name, sep_pred()) + split_on(path, sep_pred());
    Seq::new(raw.len(), |i: int| lower_seq(raw[i]))
}

/// How many of the query tokens occur among `toks` (a duplicated query
/// token counts each time; membership counts once however often a token
/// occurs in `toks`).
pub open spec fn score_count(toks: Seq<Seq<char>>, terms: Seq<Seq<char>>) -> nat
    decreases terms.len(),
{
    if terms.len() == 0 {
        0
    } else {
        score_count(toks, terms.drop_last()) + (if toks.contains(terms.last()) {
            1nat
        } else {
            0nat
        })
    }
}

impl SearchResultItem {
    /// Counts how many of the folded query terms occur in the combined
    /// folded tokens of the torrent name and the file path.
    pub fn score(&self, terms: &Vec<NormalizedToken>) -> (r: usize)
        ensures
            r == score_count(
                item_tokens(self.torrent_name@, self.file_path@),
                tok_views(terms@),
            ),
    {
        let ghost toks_spec = item_tokens(self.torrent_name@, self.file_path@);
        let name_fields = split_name(self.torrent_name.as_str());
        let path_fields = split_name(self.path_str());
        let ghost raw = split_on(self.torrent_name@, sep_pred()) + split_on(
            self.file_path@,
            sep_pred(),
        );
        let mut toks: Vec<String> = Vec::new();
        let nn = name_fields.len();
        let mut i: usize = 0;
        while i < nn
            invariant
                0 <= i <= nn,
                nn == name_fields@.len(),
                seq_views(name_fields@) == split_on(self.torrent_name@, sep_pred()),
                toks_spec == item_tokens(self.torrent_name@, self.file_path@),
                raw == split_on(self.torrent_name@, sep_pred()) + split_on(
                    self.file_path@,
                    sep_pred(),
                ),
                toks@.len() == i,
                forall|j: int| 0 <= j < i ==> (#[trigger] toks@[j]@) == toks_spec[j],
            decreases nn - i,
        {
            toks.push(lowercase(name_fields[i].as_str()));
            proof {
                assert(raw[i as int] == seq_views(name_fields@)[i as int]);
            }
            i += 1;
        }
        let np = path_fields.len();
        let mut k: usize = 0;
        while k < np
            invariant
                0 <= k <= np,
                nn == name_fields@.len(),
                np == path_fields@.len(),
                seq_views(path_fields@) == split_on(self.file_path@, sep_pred()),
                toks_spec == item_tokens(self.torrent_name@, self.file_path@),
                raw == split_on(self.torrent_name@, sep_pred()) + split_on(
                    self.file_path@,
                    sep_pred(),
                ),
                nn == split_on(self.torrent_name@, sep_pred()).len(),
                toks@.len() == nn + k,
                forall|j: int| 0 <= j < nn + k ==> (#[trigger] toks@[j]@) == toks_spec[j],
            decreases np - k,
        {
            toks.push(lowercase(path_fields[k].as_str()));
            proof {
                assert(raw[nn + k] == seq_views(path_fields@)[k as int]);
            }
            k += 1;
        }
        proof {
            assert(seq_views(toks@) =~= toks_spec);
        }
        let qs = Ghost(tok_views(terms@));
        let mut hits: usize = 0;
        let mut t: usize = 0;
        proof {
            assert(qs@.take(0) =~= Seq::<Seq<char>>::empty());
        }
        while t < terms.len()
            invariant
                0 <= t <= terms@.len(),
                qs@ == tok_views(terms@),
                seq_views(toks@) == toks_spec,
                hits <= t,
                hits == score_count(toks_spec, qs@.take(t as int)),
            decreases terms@.len() - t,
        {
            let hit = keys_contain(&toks, terms[t].as_str());
            proof {
                assert(qs@.take(t + 1).drop_last() =~= qs@.take(t as int));
                assert(qs@.take(t + 1).last() == qs@[t as int]);
                assert(qs@[t as int] == terms@[t as int]@);
            }
            if hit {
                hits += 1;
            }
            t += 1;
        }
        proof {
            assert(qs@.take(terms@.len() as int) =~= qs@);
        }
        hits
    }

    /// The file path text.
    pub fn path_str(&self) -> (r: &str)
        ensures
            r@ == self.file_path@,
    {
        self.file_path.as_str()
    }
}

/// The items of one successfully listed torrent: one per file, carrying the
/// torrent's name and info-hash and the file's path and size, aged at the
/// torrent's discovery time.
pub open spec fn torrent_items(t: TorrentSnap, fs: Option<Seq<FileSnap>>) -> Seq<RemoteItemSnap> {
    match fs {
        None => Seq::<RemoteItemSnap>::empty(),
        Some(files) => Seq::new(
            files.len(),
            |i: int|
                RemoteItemSnap {
                    torrent_name: t.name,
                    info_hash: t.info_hash,
                    file_path: files[i].path,
                    size: files[i].size,
                    age: DateTime { unix_secs: t.discovered_on, subsec_nanos: 0 },
                },
        ),
    }
}

/// The items of a whole search: the torrents' items in order, with the
/// torrents whose listing failed skipped.
pub open spec fn assemble_spec(
    ts: Seq<TorrentSnap>,
    ls: Seq<Option<Seq<FileSnap>>>,
) -> Seq<RemoteItemSnap>
    decreases ts.len(),
{
    if ts.len() == 0 {
        Seq::<RemoteItemSnap>::empty()
    } else {
        torrent_items(ts[0], ls[0]) + assemble_spec(ts.drop_first(), ls.drop_first())
    }
}

proof fn lemma_assemble_snoc(ts: Seq<TorrentSnap>, ls: Seq<Option<Seq<FileSnap>>>, t: TorrentSnap, l: Option<Seq<FileSnap>>)
    requires
        ts.len() == ls.len(),
    ensures
        assemble_spec(ts.push(t), ls.push(l)) == assemble_spec(ts, ls) + torrent_items(t, l),
    decreases ts.len(),
{
    if ts.len() == 0 {
        assert(ts.push(t)[0] == t);
        assert(ls.push(l)[0] == l);
        assert(ts.push(t).drop_first() =~= Seq::<TorrentSnap>::empty());
        assert(ls.push(l).drop_first() =~= Seq::<Option<Seq<FileSnap>>>::empty());
        assert(assemble_spec(ts.push(t), ls.push(l)) == torrent_items(t, l) + assemble_spec(
            ts.push(t).drop_first(),
            ls.push(l).drop_first(),
        ));
        assert(assemble_spec(ts.push(t).drop_first(), ls.push(l).drop_first()) == Seq::<
            RemoteItemSnap,
        >::empty());
        assert(torrent_items(t, l) + Seq::<RemoteItemSnap>::empty() =~= torrent_items(t, l));
        assert(assemble_spec(ts, ls) + torrent_items(t, l) =~= torrent_items(t, l));
    } else {
        lemma_assemble_snoc(ts.drop_first(), ls.drop_first(), t, l);
        assert(ts.push(t).drop_first() =~= ts.drop_first().push(t));
        assert(ls.push(l).drop_first() =~= ls.drop_first().push(l));
        assert(ts.push(t)[0] == ts[0]);
        assert(ls.push(l)[0] == ls[0]);
        assert(assemble_spec(ts.push(t), ls.push(l)) == torrent_items(ts[0], ls[0]) + (
        assemble_spec(ts.drop_first(), ls.drop_first()) + torrent_items(t, l)));
        assert(torrent_items(ts[0], ls[0]) + (assemble_spec(ts.drop_first(), ls.drop_first())
            + torrent_items(t, l)) =~= (torrent_items(ts[0], ls[0]) + assemble_spec(
            ts.drop_first(),
            ls.drop_first(),
        )) + torrent_items(t, l));
    }
}

/// The views of torrents and listings.
pub open spec fn torrent_views(ts: Seq<Torrent>) -> Seq<TorrentSnap> {
    Seq::new(ts.len(), |i: int| ts[i]@)
}

/// The views of per-torrent listing outcomes.
pub open spec fn listing_views(ls: Seq<Option<Vec<File>>>) -> Seq<Option<Seq<FileSnap>>> {
    Seq::new(
        ls.len(),
        |i: int|
            match ls[i] {
                Some(fs) => Some(file_views(fs@)),
                None => None,
            },
    )
}

/// The views of remote items.
pub open spec fn remote_views(rs: Seq<SearchResultItem>) -> Seq<RemoteItemSnap> {
    Seq::new(rs.len(), |i: int| rs[i]@)
}

/// Builds the result items of one search from the torrents and each one's
/// file-listing outcome: one item per file of each successfully listed
/// torrent, in order; a failed listing skips only its torrent.
pub fn assemble_search_results(torrents: &Vec<Torrent>, listings: &Vec<Option<Vec<File>>>) -> (r:
    Vec<SearchResultItem>)
    requires
        torrents@.len() == listings@.len(),
    ensures
        remote_views(r@) == assemble_spec(torrent_views(torrents@), listing_views(listings@)),
{
    let mut out: Vec<SearchResultItem> = Vec::new();
    let n = torrents.len();
    let mut i: usize = 0;
    proof {
        assert(torrent_views(torrents@).take(0) =~= Seq::<TorrentSnap>::empty());
        assert(listing_views(listings@).take(0) =~= Seq::<Option<Seq<FileSnap>>>::empty());
        assert(remote_views(out@) =~= assemble_spec(
            torrent_views(torrents@).take(0),
            listing_views(listings@).take(0),
        ));
    }
    while i < n
        invariant
            0 <= i <= n,
            n == torrents@.len(),
            n == listings@.len(),
            remote_views(out@) == assemble_spec(
                torrent_views(torrents@).take(i as int),
                listing_views(listings@).take(i as int),
            ),
        decreases n - i,
    {
        let ghost tv = torrent_views(torrents@);
        let ghost lv = listing_views(listings@);
        match &listings[i] {
            Some(files) => {
                let ghost items0 = remote_views(out@);
                let nf = files.len();
                let mut j: usize = 0;
                while j < nf
                    invariant
                        0 <= j <= nf,
                        0 <= i < n,
                        n == torrents@.len(),
                        n == listings@.len(),
                        nf == files@.len(),
                        listings@[i as int] matches Some(fs) && fs@ == files@,
                        tv == torrent_views(torrents@),
                        lv == listing_views(listings@),
                        items0 == assemble_spec(tv.take(i as int), lv.take(i as int)),
                        remote_views(out@) == items0 + torrent_items(
                            tv[i as int],
                            lv[i as int],
                        ).take(j as int),
                    decreases nf - j,
                {
                    let item = SearchResultItem {
                        torrent_name: torrents[i].name.clone(),
                        info_hash: torrents[i].info_hash.clone(),
                        file_path: files[j].path.clone(),
                        size: files[j].size,
                        age: DateTime::from_epoch(torrents[i].discovered_on),
                    };
                    proof {
                        assert(torrent_items(tv[i as int], lv[i as int])[j as int]
                            == item@);
                        assert(remote_views(out@.push(item)) =~= remote_views(out@).push(item@));
                        assert(torrent_items(tv[i as int], lv[i as int]).take(j + 1)
                            =~= torrent_items(tv[i as int], lv[i as int]).take(j as int).push(
                            item@,
                        ));
                        assert(items0 + torrent_items(tv[i as int], lv[i as int]).take(j as int).push(item@)
                            =~= (items0 + torrent_items(tv[i as int], lv[i as int]).take(
                            j as int,
                        )).push(item@));
                    }
                    out.push(item);
                    j += 1;
                }
                proof {
                    assert(torrent_items(tv[i as int], lv[i as int]).take(nf as int)
                        =~= torrent_items(tv[i as int], lv[i as int]));
                    assert(tv.take(i + 1) =~= tv.take(i as int).push(tv[i as int]));
                    assert(lv.take(i + 1) =~= lv.take(i as int).push(lv[i as int]));
                    lemma_assemble_snoc(tv.take(i as int), lv.take(i as int), tv[i as int], lv[i as int]);
                }
            },
            None => {
                proof {
                    assert(torrent_items(tv[i as int], lv[i as int]) =~= Seq::<
                        RemoteItemSnap,
                    >::empty());
                    assert(tv.take(i + 1) =~= tv.take(i as int).push(tv[i as int]));
                    assert(lv.take(i + 1) =~= lv.take(i as int).push(lv[i as int]));
                    lemma_assemble_snoc(tv.take(i as int), lv.take(i as int), tv[i as int], lv[i as int]);
                    assert(remote_views(out@) =~= assemble_spec(tv.take(i + 1), lv.take(i + 1)));
                }
            },
        }
        i += 1;
    }
    proof {
        assert(torrent_views(torrents@).take(n as int) =~= torrent_views(torrents@));
        assert(listing_views(listings@).take(n as int) =~= listing_views(listings@));
    }
    out
}

} // verus!
