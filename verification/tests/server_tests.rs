use replica_search::index::{Index, KeyInfo};
use replica_search::remote;
use replica_search::server::{search_response_items, SearchQuery, SearchResultItem};
use replica_search::types::{DateTime, Epoch, InfoHash, NormalizedToken};

fn info(size: i64) -> KeyInfo {
    KeyInfo {
        size,
        last_modified: DateTime { unix_secs: 1_579_051_463, subsec_nanos: 0 },
        info_hash: InfoHash::new(vec![7u8; 20]).unwrap(),
    }
}

fn key(uuid_fill: char, name: &str) -> String {
    let f = uuid_fill;
    format!(
        "{f}{f}{f}{f}{f}{f}{f}{f}-{f}{f}{f}{f}-4{f}{f}{f}-8{f}{f}{f}-{f}{f}{f}{f}{f}{f}{f}{f}{f}{f}{f}{f}/{name}"
    )
}

fn query(s: &str, offset: Option<usize>, limit: Option<usize>, type_: Option<&str>) -> SearchQuery {
    SearchQuery {
        s: s.to_string(),
        offset,
        limit,
        type_: type_.map(str::to_owned),
    }
}

fn run(idx: &Index, remote_items: Vec<remote::SearchResultItem>, q: &SearchQuery) -> Vec<
    SearchResultItem,
> {
    let local = idx.get_matches(&q.terms(), &q.type_);
    search_response_items(&local, &remote_items, q)
}

#[test]
fn basic_insert_query() {
    let mut idx = Index::new();
    let k = "11111111-1111-4111-8111-111111111111/Project Gutenberg Vol 1.epub".to_string();
    idx.add_key(
        &k,
        KeyInfo {
            size: 1024,
            last_modified: DateTime::parse_from_s3("2020-01-15T01:24:23Z").unwrap(),
            info_hash: InfoHash::new(vec![7u8; 20]).unwrap(),
        },
    )
    .unwrap();
    let q = query("gutenberg", None, None, None);
    let out = run(&idx, vec![], &q);
    assert_eq!(out.len(), 1);
    assert_eq!(out[0].search_term_hits, 1);
    assert_eq!(out[0].mime_type.as_deref(), Some("application/epub+zip"));
    assert_eq!(out[0].replica_s3_key.as_deref(), Some(k.as_str()));
    assert_eq!(out[0].file_size, 1024);
    let link = out[0].replica_link.to_string();
    assert!(link.starts_with("magnet:?xt=urn:btih:0707070707070707070707070707070707070707&dn="));
    assert!(link.contains("&xs=replica%3A"));
    assert!(link.contains("&tr=http%3A%2F%2Fs3-tracker.ap-southeast-1.amazonaws.com%3A6969%2Fannounce"));
}

#[test]
fn ranking_tie_break_is_stable() {
    let mut idx = Index::new();
    let k1 = key('a', "alpha beta");
    let k2 = key('b', "alpha beta");
    idx.add_key(&k1, info(1)).unwrap();
    idx.add_key(&k2, info(2)).unwrap();
    let order = |s: &str| -> Vec<String> {
        run(&idx, vec![], &query(s, None, None, None))
            .into_iter()
            .map(|i| i.replica_s3_key.unwrap())
            .collect()
    };
    let by_alpha = order("alpha");
    let by_beta = order("beta");
    assert_eq!(by_alpha.len(), 2);
    assert_eq!(by_alpha, by_beta);
}

#[test]
fn pagination_tiles_without_duplicates() {
    let mut idx = Index::new();
    let mut keys = Vec::new();
    for i in 0..30 {
        let k = key('a', &format!("doc number{} file", i));
        idx.add_key(&k, info(i as i64)).unwrap();
        keys.push(k);
    }
    let page = |off: usize| -> Vec<String> {
        run(&idx, vec![], &query("doc", Some(off), Some(10), None))
            .into_iter()
            .map(|i| i.replica_s3_key.unwrap())
            .collect()
    };
    let p0 = page(0);
    let p1 = page(10);
    let p2 = page(20);
    assert_eq!(p1.len(), 10);
    let mut union: Vec<String> = p0.into_iter().chain(p1).chain(p2).collect();
    assert_eq!(union.len(), 30);
    union.sort();
    union.dedup();
    assert_eq!(union.len(), 30);
    assert!(page(30).is_empty());
}

#[test]
fn default_limit_is_twenty() {
    let mut idx = Index::new();
    for i in 0..25 {
        idx.add_key(&key('a', &format!("doc item{}", i)), info(i as i64)).unwrap();
    }
    let out = run(&idx, vec![], &query("doc", None, None, None));
    assert_eq!(out.len(), 20);
}

fn remote_item(name: &str, path: &str, size: i64) -> remote::SearchResultItem {
    remote::SearchResultItem {
        torrent_name: name.to_string(),
        info_hash: "feedbeef".to_string(),
        file_path: path.to_string(),
        size,
        age: DateTime::from_epoch(Epoch(1_500_000_000)),
    }
}

#[test]
fn remote_items_scored_and_merged_behind_higher_local() {
    let mut idx = Index::new();
    let k = key('a', "alpha beta gamma");
    idx.add_key(&k, info(1)).unwrap();
    let r = remote_item("Alpha Collection", "video/beta.mp4", 77);
    let out = run(&idx, vec![r], &query("alpha beta gamma", None, None, None));
    assert_eq!(out.len(), 2);
    // the local key matches three terms, the remote item two
    assert_eq!(out[0].replica_s3_key.as_deref(), Some(k.as_str()));
    assert_eq!(out[0].search_term_hits, 3);
    assert_eq!(out[1].torrent_name.as_deref(), Some("Alpha Collection"));
    assert_eq!(out[1].search_term_hits, 2);
    assert_eq!(out[1].file_path.as_deref(), Some("video/beta.mp4"));
    assert_eq!(out[1].mime_type.as_deref(), Some("video/mp4"));
    assert_eq!(
        out[1].replica_link.to_string(),
        "magnet:?xt=urn:btih:feedbeef&dn=Alpha+Collection%2Fvideo%2Fbeta.mp4"
    );
}

#[test]
fn remote_items_filtered_by_type() {
    let idx = Index::new();
    let song = remote_item("T", "song.mp3", 1);
    let clip = remote_item("T", "clip.mp4", 2);
    let out = run(&idx, vec![song, clip], &query("t", None, None, Some("video")));
    assert_eq!(out.len(), 1);
    assert_eq!(out[0].file_path.as_deref(), Some("clip.mp4"));
}

#[test]
fn remote_score_counts_each_term_once_over_combined_tokens() {
    let item = remote_item("Alpha Beta", "gamma.mp3", 1);
    let toks: Vec<NormalizedToken> =
        ["alpha", "gamma", "zzz"].iter().map(|t| NormalizedToken::new(t)).collect();
    assert_eq!(item.score(&toks), 2);
}

#[test]
fn query_terms_split_on_whitespace() {
    let q = query("  alpha\tbeta  ", None, None, None);
    assert_eq!(q.terms(), vec!["alpha", "beta"]);
    let empty = query("   ", None, None, None);
    assert!(empty.terms().is_empty());
}

#[test]
fn query_terms_split_on_unicode_whitespace() {
    // vertical tab, no-break space, ideographic space: all term separators
    let q = query("alpha\u{0B}beta\u{A0}gamma\u{3000}delta", None, None, None);
    assert_eq!(q.terms(), vec!["alpha", "beta", "gamma", "delta"]);
    // the same split as the platform's whitespace split
    let s = "one\u{85}two\u{2028}three \u{202F} four";
    let q2 = query(s, None, None, None);
    let expected: Vec<&str> = s.split_whitespace().collect();
    assert_eq!(q2.terms(), expected);
}

#[test]
fn http_query_becomes_index_query() {
    let q = query("alpha  beta", Some(3), Some(7), Some("audio"));
    let iq = q.into_query();
    assert_eq!(iq.terms, vec!["alpha", "beta"]);
    assert_eq!(iq.offset, Some(3));
    assert_eq!(iq.limit, Some(7));
    assert_eq!(iq.type_.as_deref(), Some("audio"));
}
