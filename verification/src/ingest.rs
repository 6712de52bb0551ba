//! Ingestion logic: the change events of the bucket-notification queue and
//! their application to the index, the record built for one listed object,
//! the fold of listing pages, and the queue, topic and policy texts. The
//! queue receive loop, the JSON envelope decode and the store calls stay at
//! the I/O boundary; every decision they need is here, with a contract.

use vstd::prelude::*;

use crate::error::ErrorKind;
use crate::index::{Index, KeyInfo, KeyInfoSnap};
use crate::text::str_eq;
use crate::tokenize::valid_key;
use crate::types::{rfc3339_instant, DateTime, FileSize, InfoHash};

verus! {

/// One flattened change record from the queue envelope: the event name and
/// the object's key, size and event time, as plain values.
pub struct RawRecord {
    pub event_name: String,
    pub key: String,
    pub size: FileSize,
    pub event_time: String,
}

/// One change applied to the index: an object appeared, or one left.
pub enum Event {
    Added { key: String, size: FileSize, time: DateTime },
    Removed { key: String },
}

/// The event names announcing a new object.
pub open spec fn created_name(s: Seq<char>) -> bool {
    s == "ObjectCreated:Put"@ || s == "ObjectCreated:CompleteMultipartUpload"@
}

/// The event name announcing a removed object.
pub open spec fn removed_name(s: Seq<char>) -> bool {
    s == "ObjectRemoved:Delete"@
}

/// Reads one change record: the two created names become `Added` with the
/// event time parsed as RFC 3339, the removed name becomes `Removed`, any
/// other name is invalid, and an unparseable time on a created event is a
/// parse error. Success holds exactly on the removed name or on a created
/// name with a parseable time.
pub fn parse_record(rec: &RawRecord) -> (r: Result<Event, ErrorKind>)
    ensures
        match r {
            Ok(ev) => match ev {
                Event::Added { key, size, time } => created_name(rec.event_name@) && key@
                    == rec.key@ && size == rec.size && rfc3339_instant(rec.event_time@) == Some(
                    (time.unix_secs, time.subsec_nanos),
                ),
                Event::Removed { key } => removed_name(rec.event_name@) && key@ == rec.key@,
            },
            Err(e) => !removed_name(rec.event_name@) && (created_name(rec.event_name@) ==> e
                == ErrorKind::Parse && rfc3339_instant(rec.event_time@) is None) && (!created_name(
                rec.event_name@,
            ) ==> e == ErrorKind::Invalid),
        },
{
    proof {
        reveal_strlit("ObjectCreated:Put");
        reveal_strlit("ObjectCreated:CompleteMultipartUpload");
        reveal_strlit("ObjectRemoved:Delete");
        assert(("ObjectCreated:Put"@).len() == 17);
        assert(("ObjectCreated:CompleteMultipartUpload"@).len() == 37);
        assert(("ObjectRemoved:Delete"@).len() == 20);
        assert("ObjectCreated:Put"@ != "ObjectRemoved:Delete"@);
        assert("ObjectCreated:CompleteMultipartUpload"@ != "ObjectRemoved:Delete"@);
    }
    let name = rec.event_name.as_str();
    if str_eq(name, "ObjectCreated:Put") || str_eq(name, "ObjectCreated:CompleteMultipartUpload") {
        match DateTime::parse_from_s3(rec.event_time.as_str()) {
            Ok(time) => Ok(
                Event::Added { key: rec.key.clone(), size: rec.size, time },
            ),
            Err(_) => Err(ErrorKind::Parse),
        }
    } else if str_eq(name, "ObjectRemoved:Delete") {
        Ok(Event::Removed { key: rec.key.clone() })
    } else {
        Err(ErrorKind::Invalid)
    }
}

/// Applies one event to the index: an `Added` event indexes the key with
/// the resolved info-hash (rejecting a malformed key as invalid), a
/// `Removed` event removes it (a key never indexed is not found; removal
/// needs no hash). Errors are the caller's to log and skip; the index
/// stays consistent either way.
pub fn apply_event(index: &mut Index, ev: &Event, info_hash: Option<InfoHash>) -> (r: Result<
    (),
    ErrorKind,
>)
    requires
        old(index).wf(),
        *ev is Added ==> info_hash is Some,
    ensures
        final(index).wf(),
        match *ev {
            Event::Added { ref key, size, time } => {
                &&& (r is Ok <==> valid_key(key@))
                &&& (r is Ok ==> final(index).contains_key(key@) && final(index).info_at(key@)
                    == (KeyInfoSnap { size, last_modified: time, info_hash: info_hash->0@ }))
                &&& (r is Err ==> r == Err::<(), ErrorKind>(ErrorKind::Invalid) && *final(index)
                    == *old(index))
            },
            Event::Removed { ref key } => {
                &&& (r is Ok <==> old(index).contains_key(key@))
                &&& (r is Ok ==> !final(index).contains_key(key@) && final(index).keys() == old(
                    index,
                ).keys().remove_value(key@))
                &&& (r is Err ==> r == Err::<(), ErrorKind>(ErrorKind::NotFound) && *final(index)
                    == *old(index))
            },
        },
{
    match ev {
        Event::Added { key, size, time } => {
            let hash = match info_hash {
                Some(h) => h,
                None => {
                    proof {
                        assert(false);
                    }
                    return Err(ErrorKind::Invalid);
                },
            };
            let info = KeyInfo { size: *size, last_modified: *time, info_hash: hash };
            let r = index.add_key(key.as_str(), info);
            proof {
                if r is Ok {
                    if old(index).contains_key(key@) {
                        let w = choose|w: int|
                            0 <= w < old(index).keys().len() && old(index).keys()[w] == key@;
                        assert(index.keys()[w] == key@);
                    } else {
                        assert(index.keys()[old(index).keys().len() as int] == key@);
                    }
                    assert(index.contains_key(key@));
                }
            }
            r
        },
        Event::Removed { key } => index.remove_key(key.as_str()),
    }
}

/// One listed object from the bucket, as plain values.
pub struct ListedObject {
    pub key: String,
    pub size: FileSize,
    pub last_modified: String,
}

/// The record for one listed object: its size and info-hash, and its
/// last-modified text parsed as RFC 3339; a text that does not parse falls
/// back to the current time (for the caller to log).
pub fn listing_key_info(size: FileSize, last_modified: &str, info_hash: InfoHash) -> (r: KeyInfo)
    ensures
        r.size == size,
        r.info_hash@ == info_hash@,
        rfc3339_instant(last_modified@) matches Some(p) ==> r.last_modified == (DateTime {
            unix_secs: p.0,
            subsec_nanos: p.1,
        }),
{
    let time = match DateTime::parse_from_s3(last_modified) {
        Ok(t) => t,
        Err(_) => DateTime::now(),
    };
    KeyInfo { size, last_modified: time, info_hash }
}

/// Folds one page of the bucket listing into the accumulator: the page's
/// objects are appended in order, and listing is done exactly when no
/// continuation token came back.
pub fn listing_page(acc: &mut Vec<ListedObject>, page: Vec<ListedObject>, next_token: &Option<
    String,
>) -> (done: bool)
    ensures
        final(acc)@ == old(acc)@ + page@,
        done == (next_token is None),
{
    let ghost pg = page@;
    let mut page = page;
    proof {
        assert(acc@ + pg.take(0) =~= acc@);
    }
    let ghost mut moved: int = 0;
    while page.len() > 0
        invariant
            0 <= moved <= pg.len(),
            page@ == pg.skip(moved),
            acc@ == old(acc)@ + pg.take(moved),
        decreases page@.len(),
    {
        let ghost op = page@;
        let x = page.remove(0);
        proof {
            assert(x == op[0]);
            assert(x == pg[moved]);
            assert(page@ =~= pg.skip(moved + 1));
            assert(pg.take(moved + 1) =~= pg.take(moved).push(pg[moved]));
            assert(old(acc)@ + pg.take(moved).push(pg[moved]) =~= (old(acc)@ + pg.take(
                moved,
            )).push(pg[moved]));
        }
        acc.push(x);
        proof {
            moved = moved + 1;
        }
    }
    proof {
        assert(pg.skip(moved).len() == 0);
        assert(moved == pg.len());
        assert(pg.take(moved) =~= pg);
    }
    match next_token {
        Some(_) => false,
        None => true,
    }
}

/// The resource policy attached to the per-process queue, rendered as a
/// compact JSON document with sorted keys: the fixed notification topic may
/// send, and receiving is open.
pub open spec fn queue_policy_text(queue_arn: Seq<char>) -> Seq<char> {
    "{\"Id\":\""@ + queue_arn
        + "/SQSDefaultPolicy\",\"Statement\":[{\"Action\":\"SQS:SendMessage\",\"Condition\":{\"ArnEquals\":{\"aws:SourceArn\":\"arn:aws:sns:ap-southeast-1:670960738222:replica-search-events\"}},\"Effect\":\"Allow\",\"Principal\":{\"AWS\":\"*\"},\"Resource\":\""@
        + queue_arn + "\",\"Sid\":\"SNSSend\"},{\"Action\":\"SQS:ReceiveMessage\",\"Effect\":\"Allow\",\"Principal\":{\"AWS\":\"*\"},\"Resource\":\""@
        + queue_arn + "\",\"Sid\":\"SearcherRead\"}],\"Version\":\"2012-10-17\"}"@
}

/// Renders the queue policy for one queue ARN.
pub fn queue_policy(queue_arn: &str) -> (r: String)
    ensures
        r@ == queue_policy_text(queue_arn@),
{
    let mut s = String::from_str("{\"Id\":\"");
    s.append(queue_arn);
    s.append(
        "/SQSDefaultPolicy\",\"Statement\":[{\"Action\":\"SQS:SendMessage\",\"Condition\":{\"ArnEquals\":{\"aws:SourceArn\":\"arn:aws:sns:ap-southeast-1:670960738222:replica-search-events\"}},\"Effect\":\"Allow\",\"Principal\":{\"AWS\":\"*\"},\"Resource\":\"",
    );
    s.append(queue_arn);
    s.append(
        "\",\"Sid\":\"SNSSend\"},{\"Action\":\"SQS:ReceiveMessage\",\"Effect\":\"Allow\",\"Principal\":{\"AWS\":\"*\"},\"Resource\":\"",
    );
    s.append(queue_arn);
    s.append("\",\"Sid\":\"SearcherRead\"}],\"Version\":\"2012-10-17\"}");
    s
}

/// The ARN of the per-process queue with the given name.
pub open spec fn queue_arn_text(name: Seq<char>) -> Seq<char> {
    "arn:aws:sqs:ap-southeast-1:670960738222:"@ + name
}

/// Renders the queue ARN for a queue name.
pub fn queue_arn(queue_name: &str) -> (r: String)
    ensures
        r@ == queue_arn_text(queue_name@),
{
    let mut s = String::from_str("arn:aws:sqs:ap-southeast-1:670960738222:");
    s.append(queue_name);
    s
}

/// The fixed bucket-notification topic ARN.
pub open spec fn topic_arn_text() -> Seq<char> {
    "arn:aws:sns:ap-southeast-1:670960738222:replica-search-events"@
}

/// Renders the notification topic ARN.
pub fn notification_topic_arn() -> (r: String)
    ensures
        r@ == topic_arn_text(),
{
    String::from_str("arn:aws:sns:ap-southeast-1:670960738222:replica-search-events")
}

/// The name of the per-process queue for a random suffix.
pub open spec fn queue_name_text(suffix: Seq<char>) -> Seq<char> {
    "replica_search_queue-"@ + suffix
}

/// Renders the per-process queue name from a random suffix.
pub fn queue_name(suffix: &str) -> (r: String)
    ensures
        r@ == queue_name_text(suffix@),
{
    let mut s = String::from_str("replica_search_queue-");
    s.append(suffix);
    s
}

/// The fixed bucket name.
pub fn replica_bucket() -> (r: String)
    ensures
        r@ == "getlantern-replica"@,
{
    String::from_str("getlantern-replica")
}

} // verus!
