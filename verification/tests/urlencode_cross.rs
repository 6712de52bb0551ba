//! Cross-checks the library's form-url-encoding against the url crate's
//! serializer on the same values.

use replica_search::magnet::Link;

#[test]
fn encoding_matches_the_url_crate() {
    let values = [
        "hello there!",
        "a&b=c d+e%f",
        "süß \u{1F600}",
        "*-._~:/?#[]@",
        "",
        "plain",
    ];
    for v in values {
        let l = Link {
            info_hash: None,
            display_name: Some(v.to_string()),
            trackers: vec![],
            acceptable_source: None,
            exact_source: None,
        };
        let mine = l.to_string();
        let theirs: String = url::form_urlencoded::Serializer::new(String::new())
            .append_pair("dn", v)
            .finish();
        assert_eq!(mine, format!("magnet:?{}", theirs));
    }
}
