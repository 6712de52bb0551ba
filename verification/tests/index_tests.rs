use replica_search::error::ErrorKind;
use replica_search::index::{Index, KeyInfo};
use replica_search::types::{DateTime, InfoHash};

fn info(size: i64) -> KeyInfo {
    KeyInfo {
        size,
        last_modified: DateTime { unix_secs: 1_579_051_463, subsec_nanos: 0 },
        info_hash: InfoHash::new(vec![7u8; 20]).unwrap(),
    }
}

fn key(uuid_fill: char, name: &str) -> String {
    let f = uuid_fill;
    format!(
        "{f}{f}{f}{f}{f}{f}{f}{f}-{f}{f}{f}{f}-4{f}{f}{f}-8{f}{f}{f}-{f}{f}{f}{f}{f}{f}{f}{f}{f}{f}{f}{f}/{name}"
    )
}

fn terms(ts: &[&str]) -> Vec<String> {
    ts.iter().map(|t| t.to_string()).collect()
}

#[test]
fn single_term_scores_by_token_membership() {
    let mut idx = Index::new();
    let k = key('a', "Alpha Beta.txt");
    idx.add_key(&k, info(10)).unwrap();
    let hits = idx.get_matches(&terms(&["ALPHA"]), &None);
    assert_eq!(hits.len(), 1);
    assert_eq!(hits[0].s3_key, k);
    assert_eq!(hits[0].token_hits, 1);
    assert_eq!(hits[0].size, 10);
    let misses = idx.get_matches(&terms(&["gamma"]), &None);
    assert_eq!(misses.len(), 1);
    assert_eq!(misses[0].token_hits, 0);
}

#[test]
fn add_key_rejects_malformed() {
    let mut idx = Index::new();
    assert_eq!(idx.add_key("too short", info(1)), Err(ErrorKind::Invalid));
    assert_eq!(idx.get_matches(&terms(&["short"]), &None).len(), 0);
}

#[test]
fn remove_restores_empty_state() {
    let mut idx = Index::new();
    let k = key('a', "alpha beta");
    idx.add_key(&k, info(1)).unwrap();
    idx.remove_key(&k).unwrap();
    assert_eq!(idx.get_matches(&terms(&["alpha"]), &None).len(), 0);
    assert_eq!(idx.remove_key(&k), Err(ErrorKind::NotFound));
}

#[test]
fn re_adding_replaces_record_without_duplicates() {
    let mut idx = Index::new();
    let k = key('a', "alpha beta");
    idx.add_key(&k, info(1)).unwrap();
    idx.add_key(&k, info(2)).unwrap();
    let hits = idx.get_matches(&terms(&["alpha"]), &None);
    assert_eq!(hits.len(), 1);
    assert_eq!(hits[0].size, 2);
    assert_eq!(hits[0].token_hits, 1);
}

#[test]
fn type_filter_keeps_exactly_the_typed_keys() {
    let mut idx = Index::new();
    let song = key('a', "song.mp3");
    let clip = key('b', "clip.mp4");
    idx.add_key(&song, info(1)).unwrap();
    idx.add_key(&clip, info(2)).unwrap();
    let video = idx.get_matches(&terms(&["song"]), &Some("video".to_string()));
    assert_eq!(video.len(), 1);
    assert_eq!(video[0].s3_key, clip);
    assert_eq!(video[0].token_hits, 0);
    let audio = idx.get_matches(&terms(&["song"]), &Some("audio".to_string()));
    assert_eq!(audio.len(), 1);
    assert_eq!(audio[0].s3_key, song);
    assert_eq!(audio[0].token_hits, 1);
    let unknown = idx.get_matches(&terms(&["song"]), &Some("model".to_string()));
    assert_eq!(unknown.len(), 0);
}

#[test]
fn duplicate_query_terms_count_twice() {
    let mut idx = Index::new();
    let k = key('a', "alpha");
    idx.add_key(&k, info(1)).unwrap();
    let hits = idx.get_matches(&terms(&["alpha", "alpha"]), &None);
    assert_eq!(hits[0].token_hits, 2);
}

#[test]
fn candidates_keep_insertion_order() {
    let mut idx = Index::new();
    let k1 = key('a', "doc one");
    let k2 = key('b', "doc two");
    let k3 = key('c', "doc three");
    idx.add_key(&k1, info(1)).unwrap();
    idx.add_key(&k2, info(2)).unwrap();
    idx.add_key(&k3, info(3)).unwrap();
    let by_doc: Vec<String> =
        idx.get_matches(&terms(&["doc"]), &None).into_iter().map(|h| h.s3_key).collect();
    let by_one: Vec<String> =
        idx.get_matches(&terms(&["one"]), &None).into_iter().map(|h| h.s3_key).collect();
    assert_eq!(by_doc, vec![k1.clone(), k2.clone(), k3.clone()]);
    assert_eq!(by_one, by_doc);
}
