use replica_search::error::ErrorKind;
use replica_search::index::Index;
use replica_search::ingest::{
    apply_event, listing_key_info, listing_page, notification_topic_arn, parse_record, queue_arn,
    queue_name, queue_policy, replica_bucket, Event, ListedObject, RawRecord,
};
use replica_search::types::{extract_infohash, InfoHash};

fn record(event_name: &str, key: &str, time: &str) -> RawRecord {
    RawRecord {
        event_name: event_name.to_string(),
        key: key.to_string(),
        size: 321,
        event_time: time.to_string(),
    }
}

const KEY: &str = "11111111-1111-4111-8111-111111111111/some file.txt";

#[test]
fn parse_record_reads_created_events() {
    for name in ["ObjectCreated:Put", "ObjectCreated:CompleteMultipartUpload"] {
        let ev = parse_record(&record(name, KEY, "2020-01-15T01:24:23Z")).expect("parses");
        match ev {
            Event::Added { key, size, time } => {
                assert_eq!(key, KEY);
                assert_eq!(size, 321);
                assert_eq!(time.unix_secs, 1579051463);
            },
            Event::Removed { .. } => panic!("wrong event"),
        }
    }
}

#[test]
fn parse_record_reads_removed_events() {
    let ev = parse_record(&record("ObjectRemoved:Delete", KEY, "ignored")).expect("parses");
    match ev {
        Event::Removed { key } => assert_eq!(key, KEY),
        Event::Added { .. } => panic!("wrong event"),
    }
}

#[test]
fn parse_record_rejects_unknown_names_and_bad_times() {
    assert!(matches!(
        parse_record(&record("ObjectTagged:Put", KEY, "2020-01-15T01:24:23Z")),
        Err(ErrorKind::Invalid)
    ));
    assert!(matches!(
        parse_record(&record("ObjectCreated:Put", KEY, "yesterday")),
        Err(ErrorKind::Parse)
    ));
}

#[test]
fn live_delete_removes_key_from_queries() {
    let mut idx = Index::new();
    let hash = InfoHash::new(vec![9u8; 20]).unwrap();
    let added = parse_record(&record("ObjectCreated:Put", KEY, "2020-01-15T01:24:23Z")).unwrap();
    apply_event(&mut idx, &added, Some(hash)).unwrap();
    let terms = vec!["some".to_string()];
    assert_eq!(idx.get_matches(&terms, &None).len(), 1);
    let removed = parse_record(&record("ObjectRemoved:Delete", KEY, "x")).unwrap();
    apply_event(&mut idx, &removed, None).unwrap();
    assert_eq!(idx.get_matches(&terms, &None).len(), 0);
    assert_eq!(idx.get_matches(&terms, &Some("text".to_string())).len(), 0);
}

#[test]
fn listing_record_parses_time_or_falls_back() {
    let h = InfoHash::new(vec![1u8; 20]).unwrap();
    let r = listing_key_info(7, "2020-01-15T01:24:23.000Z", h);
    assert_eq!(r.size, 7);
    assert_eq!(r.last_modified.unix_secs, 1579051463);
    let h2 = InfoHash::new(vec![1u8; 20]).unwrap();
    let fallback = listing_key_info(7, "garbage", h2);
    // falls back to the current clock, which is well past that instant
    assert!(fallback.last_modified.unix_secs > 1579051463);
}

#[test]
fn infohash_extraction_hashes_the_info_dictionary() {
    let torrent =
        b"d4:infod6:lengthi1e4:name1:a12:piece lengthi16384e6:pieces20:AAAAAAAAAAAAAAAAAAAAee";
    let h = extract_infohash(&torrent.to_vec()).expect("parses");
    assert_eq!(h.hex(), "96a0c2b54d79fdf0f3a567ccae8edb15960951b0");
    assert_eq!(extract_infohash(&b"not a torrent".to_vec()).map(|h| h.hex()), Err(ErrorKind::Parse));
}

#[test]
fn queue_topic_and_policy_texts() {
    assert_eq!(queue_name("abc123"), "replica_search_queue-abc123");
    assert_eq!(
        queue_arn("replica_search_queue-abc123"),
        "arn:aws:sqs:ap-southeast-1:670960738222:replica_search_queue-abc123"
    );
    assert_eq!(
        notification_topic_arn(),
        "arn:aws:sns:ap-southeast-1:670960738222:replica-search-events"
    );
    assert_eq!(replica_bucket(), "getlantern-replica");
    let policy = queue_policy("arn:aws:sqs:ap-southeast-1:670960738222:q");
    assert_eq!(
        policy,
        "{\"Id\":\"arn:aws:sqs:ap-southeast-1:670960738222:q/SQSDefaultPolicy\",\
         \"Statement\":[{\"Action\":\"SQS:SendMessage\",\"Condition\":{\"ArnEquals\":\
         {\"aws:SourceArn\":\"arn:aws:sns:ap-southeast-1:670960738222:replica-search-events\"}},\
         \"Effect\":\"Allow\",\"Principal\":{\"AWS\":\"*\"},\
         \"Resource\":\"arn:aws:sqs:ap-southeast-1:670960738222:q\",\"Sid\":\"SNSSend\"},\
         {\"Action\":\"SQS:ReceiveMessage\",\"Effect\":\"Allow\",\"Principal\":{\"AWS\":\"*\"},\
         \"Resource\":\"arn:aws:sqs:ap-southeast-1:670960738222:q\",\"Sid\":\"SearcherRead\"}],\
         \"Version\":\"2012-10-17\"}"
    );
}

fn listed(key: &str) -> ListedObject {
    ListedObject { key: key.to_string(), size: 1, last_modified: "2020-01-15T01:24:23Z".to_string() }
}

#[test]
fn listing_pages_fold_in_order_until_no_token() {
    let mut acc = Vec::new();
    let more = listing_page(&mut acc, vec![listed("a"), listed("b")], &Some("tok".to_string()));
    assert!(!more);
    let done = listing_page(&mut acc, vec![listed("c")], &None);
    assert!(done);
    let keys: Vec<&str> = acc.iter().map(|o| o.key.as_str()).collect();
    assert_eq!(keys, vec!["a", "b", "c"]);
}
