use replica_search::magnet::Link;

fn link(
    info_hash: Option<&str>,
    display_name: Option<&str>,
    trackers: &[&str],
    acceptable_source: Option<&str>,
    exact_source: Option<&str>,
) -> Link {
    Link {
        info_hash: info_hash.map(str::to_owned),
        display_name: display_name.map(str::to_owned),
        trackers: trackers.iter().map(|t| t.to_string()).collect(),
        acceptable_source: acceptable_source.map(str::to_owned),
        exact_source: exact_source.map(str::to_owned),
    }
}

#[test]
fn test_link_to_string() {
    let ih = "abcd";
    let dn = "yo";
    let l = Link {
        info_hash: Some(ih.to_owned()),
        display_name: Some(dn.to_owned()),
        trackers: vec!["a".to_string(), "b".to_string()],
        ..Default::default()
    };
    assert_eq!(l.to_string(), "magnet:?xt=urn:btih:abcd&dn=yo&tr=a&tr=b");
}

#[test]
fn test_no_infohash() {
    let l = Link {
        info_hash: None,
        display_name: Some("hello there!".to_string()),
        trackers: vec![],
        ..Default::default()
    };
    assert_eq!(l.to_string(), "magnet:?dn=hello+there%21");
}

#[test]
fn link_value_encoding_escapes_separators() {
    let l = link(None, Some("a&b=c d+e%f"), &[], None, None);
    assert_eq!(l.to_string(), "magnet:?dn=a%26b%3Dc+d%2Be%25f");
}

#[test]
fn link_all_fields_in_order() {
    let l = link(Some("ff00"), Some("n"), &["t1", "t2"], Some("acc"), Some("ex"));
    assert_eq!(
        l.to_string(),
        "magnet:?xt=urn:btih:ff00&dn=n&xs=ex&as=acc&tr=t1&tr=t2"
    );
}

#[test]
fn empty_link_renders_bare_prefix() {
    let l = link(None, None, &[], None, None);
    assert_eq!(l.to_string(), "magnet:?");
    let back = Link::parse("magnet:?").expect("parses");
    assert_eq!(back.info_hash, None);
    assert_eq!(back.display_name, None);
    assert!(back.trackers.is_empty());
}

#[test]
fn magnet_round_trip_restores_every_field() {
    let l = link(
        Some("abcdef0123456789abcdef0123456789abcdef01"),
        Some("Some File (v2)!.mp4"),
        &["http://s3-tracker.ap-southeast-1.amazonaws.com:6969/announce", "udp://x/y z"],
        Some("https://example.invalid/a b"),
        Some("replica:some key"),
    );
    let text = l.to_string();
    let back = Link::parse(&text).expect("round trip parses");
    assert_eq!(back.info_hash, l.info_hash);
    assert_eq!(back.display_name, l.display_name);
    assert_eq!(back.trackers, l.trackers);
    assert_eq!(back.acceptable_source, l.acceptable_source);
    assert_eq!(back.exact_source, l.exact_source);
}

#[test]
fn magnet_round_trip_non_ascii_value() {
    let l = link(Some("abcd"), Some("süß \u{1F600}"), &[], None, None);
    let text = l.to_string();
    assert!(text.is_ascii());
    let back = Link::parse(&text).expect("parses");
    assert_eq!(back.display_name.as_deref(), Some("süß \u{1F600}"));
}

#[test]
fn parse_rejects_malformed() {
    assert!(Link::parse("http://example.invalid").is_none());
    assert!(Link::parse("magnet:?zz=1").is_none());
    assert!(Link::parse("magnet:?dn=%2").is_none());
    assert!(Link::parse("magnet:?dn=%zz").is_none());
}
