use replica_search::singleflight::Group;
use replica_search::upstream::FileListCache;
use replica_search::remote::{assemble_search_results, File, Torrent};
use replica_search::types::Epoch;

#[test]
fn first_call_leads_and_later_calls_follow() {
    let mut g = Group::new();
    assert!(g.begin("k"));
    assert!(!g.begin("k"));
    assert!(!g.begin("k"));
    assert!(g.begin("other"));
    g.complete("k");
    assert!(g.begin("k"));
    g.complete("k");
    g.complete("other");
}

#[test]
fn completing_an_idle_key_is_harmless() {
    let mut g = Group::new();
    g.complete("never started");
    assert!(g.begin("never started"));
}

fn files(paths: &[(&str, i64)]) -> Vec<File> {
    paths.iter().map(|(p, s)| File { path: p.to_string(), size: *s }).collect()
}

#[test]
fn cache_misses_then_memoizes_success_only() {
    let mut c = FileListCache::new();
    assert!(c.lookup("aa").is_none());
    c.record_fetch("aa", None);
    assert!(c.lookup("aa").is_none());
    c.record_fetch("aa", Some(files(&[("x.mp4", 5)])));
    let got = c.lookup("aa").expect("cached");
    assert_eq!(got.len(), 1);
    assert_eq!(got[0].path, "x.mp4");
    assert_eq!(got[0].size, 5);
    assert!(c.lookup("bb").is_none());
    c.record_fetch("aa", Some(files(&[("y.mp4", 6)])));
    let updated = c.lookup("aa").expect("cached");
    assert_eq!(updated[0].path, "y.mp4");
}

fn torrent(name: &str, hash: &str) -> Torrent {
    Torrent {
        info_hash: hash.to_string(),
        id: 1,
        name: name.to_string(),
        size: 10,
        discovered_on: Epoch(1_500_000_000),
        n_files: 2,
    }
}

#[test]
fn assemble_skips_failed_listings_only() {
    let torrents = vec![torrent("one", "aa"), torrent("two", "bb"), torrent("three", "cc")];
    let listings = vec![
        Some(files(&[("a.txt", 1), ("b.txt", 2)])),
        None,
        Some(files(&[("c.txt", 3)])),
    ];
    let items = assemble_search_results(&torrents, &listings);
    assert_eq!(items.len(), 3);
    assert_eq!(items[0].torrent_name, "one");
    assert_eq!(items[0].file_path, "a.txt");
    assert_eq!(items[0].size, 1);
    assert_eq!(items[1].file_path, "b.txt");
    assert_eq!(items[2].torrent_name, "three");
    assert_eq!(items[2].info_hash, "cc");
    assert_eq!(items[2].age.unix_secs, 1_500_000_000);
}
