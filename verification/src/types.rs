//! Plain value types of the library: normalized tokens, timestamps,
//! epoch seconds, and 20-byte info-hashes with their hex rendering.

use vstd::prelude::*;
use vstd::utf8::*;

use crate::error::ErrorKind;
use crate::text::{lemma_ascii_bytes_decode, lower_seq, lowercase, string_from_utf8};

verus! {

/// An object size in bytes.
pub type FileSize = i64;

/// A token folded to its ASCII-lowercase form. Folding is pure, so insertion
/// into the index and lookup agree on the folded form.
pub struct NormalizedToken {
    folded: String,
}

impl View for NormalizedToken {
    type V = Seq<char>;

    closed spec fn view(&self) -> Seq<char> {
        self.folded@
    }
}

impl NormalizedToken {
    /// Folds a raw token; the result is exactly the lowercased input.
    pub fn new(s: &str) -> (r: Self)
        ensures
            r@ == lower_seq(s@),
    {
        NormalizedToken { folded: lowercase(s) }
    }

    /// The folded text.
    pub fn as_str(&self) -> (r: &str)
        ensures
            r@ == self@,
    {
        self.folded.as_str()
    }

    /// The folded text as an owned string.
    pub fn clone_string(&self) -> (r: String)
        ensures
            r@ == self@,
    {
        self.folded.clone()
    }
}

/// Seconds since the Unix epoch, as the upstream backend reports discovery
/// times.
#[derive(Clone, Copy, Debug, PartialEq, Eq, Structural)]
pub struct Epoch(pub i64);

/// A point in time: whole seconds since the Unix epoch plus the nanoseconds
/// into the current second. RFC 3339 text is turned into this form at the
/// boundary, so the logic only ever sees plain integers.
#[derive(Clone, Copy, Debug, PartialEq, Eq, Structural)]
pub struct DateTime {
    pub unix_secs: i64,
    pub subsec_nanos: u32,
}

/// What chrono's RFC 3339 parser extracts from a timestamp text: the instant
/// as seconds and nanoseconds since the Unix epoch, or nothing when the text
/// does not parse. Parsing depends on the text alone.
pub uninterp spec fn rfc3339_instant(s: Seq<char>) -> Option<(i64, u32)>;

impl DateTime {
    /// Relies on `chrono::Utc::now`: some instant; nothing is promised of it
    /// beyond the nanosecond field staying below two seconds' worth (chrono
    /// represents a leap second as nanoseconds above one billion).
    #[verifier::external_body]
    pub fn now() -> (r: Self)
        ensures
            r.subsec_nanos < 2_000_000_000,
    {
        let t = chrono::Utc::now();
        DateTime { unix_secs: t.timestamp(), subsec_nanos: t.timestamp_subsec_nanos() }
    }

    /// Relies on `chrono::DateTime::parse_from_rfc3339`: whether a timestamp
    /// text parses, and to which instant, depends on the text alone.
    #[verifier::external_body]
    pub fn parse_from_s3(s: &str) -> (r: Result<Self, ErrorKind>)
        ensures
            match r {
                Ok(dt) => rfc3339_instant(s@) == Some((dt.unix_secs, dt.subsec_nanos)),
                Err(e) => e == ErrorKind::Parse && rfc3339_instant(s@) is None,
            },
    {
        match chrono::DateTime::parse_from_rfc3339(s) {
            Ok(t) => Ok(
                DateTime { unix_secs: t.timestamp(), subsec_nanos: t.timestamp_subsec_nanos() },
            ),
            Err(_) => Err(ErrorKind::Parse),
        }
    }

    /// The instant at a whole number of seconds since the Unix epoch, as the
    /// upstream backend reports discovery times.
    pub fn from_epoch(e: Epoch) -> (r: Self)
        ensures
            r.unix_secs == e.0,
            r.subsec_nanos == 0,
    {
        DateTime { unix_secs: e.0, subsec_nanos: 0 }
    }
}

/// One lowercase hex digit for a value below 16.
pub open spec fn hex_digit(v: u8) -> char {
    if v < 10 {
        (0x30 + v) as char
    } else {
        (0x57 + v) as char
    }
}

/// Lowercase hex of a byte sequence: two digits per byte, high digit first.
pub open spec fn hex_of(bs: Seq<u8>) -> Seq<char> {
    Seq::new(
        2 * bs.len(),
        |i: int|
            if i % 2 == 0 {
                hex_digit(bs[i / 2] / 16)
            } else {
                hex_digit(bs[i / 2] % 16)
            },
    )
}

fn hex_digit_byte(v: u8) -> (r: u8)
    requires
        v < 16,
    ensures
        r < 0x80,
        r as char == hex_digit(v),
{
    if v < 10 {
        0x30 + v
    } else {
        0x57 + v
    }
}

/// A 20-byte BitTorrent info-hash, rendered in lowercase hex on the wire.
pub struct InfoHash {
    bytes: Vec<u8>,
}

impl View for InfoHash {
    type V = Seq<u8>;

    closed spec fn view(&self) -> Seq<u8> {
        self.bytes@
    }
}

impl InfoHash {
    /// A well-formed info-hash holds exactly 20 bytes.
    pub open spec fn well_formed(&self) -> bool {
        self@.len() == 20
    }

    /// Wraps 20 bytes; anything of another length is invalid.
    pub fn new(bytes: Vec<u8>) -> (r: Result<Self, ErrorKind>)
        ensures
            match r {
                Ok(h) => h@ == bytes@ && bytes@.len() == 20,
                Err(e) => e == ErrorKind::Invalid && bytes@.len() != 20,
            },
    {
        if bytes.len() == 20 {
            Ok(InfoHash { bytes })
        } else {
            Err(ErrorKind::Invalid)
        }
    }

    /// An owned copy with the same bytes.
    pub fn duplicate(&self) -> (r: Self)
        ensures
            r@ == self@,
    {
        let mut out: Vec<u8> = Vec::new();
        let n = self.bytes.len();
        let mut i: usize = 0;
        while i < n
            invariant
                n == self.bytes@.len(),
                0 <= i <= n,
                out@ == self.bytes@.take(i as int),
            decreases n - i,
        {
            out.push(self.bytes[i]);
            proof {
                assert(self.bytes@.take(i + 1) =~= self.bytes@.take(i as int).push(
                    self.bytes@[i as int],
                ));
            }
            i += 1;
        }
        proof {
            assert(self.bytes@.take(n as int) =~= self.bytes@);
        }
        InfoHash { bytes: out }
    }

    /// The lowercase hex rendering of the hash bytes.
    pub fn hex(&self) -> (r: String)
        ensures
            r@ == hex_of(self@),
    {
        let mut out: Vec<u8> = Vec::new();
        let n = self.bytes.len();
        let mut i: usize = 0;
        while i < n
            invariant
                n == self.bytes@.len(),
                0 <= i <= n,
                out@.len() == 2 * i,
                forall|j: int|
                    0 <= j < out@.len() ==> out@[j] < 0x80 && (#[trigger] out@[j]) as char
                        == hex_of(self@)[j],
            decreases n - i,
        {
            let b = self.bytes[i];
            out.push(hex_digit_byte(b / 16));
            out.push(hex_digit_byte(b % 16));
            i += 1;
        }
        proof {
            lemma_ascii_bytes_decode(out@);
            assert(decode_utf8(out@) =~= hex_of(self@));
        }
        let r = string_from_utf8(out);
        proof {
            encode_utf8_decode_utf8(r@);
        }
        r
    }
}

/// What `bip_metainfo::Metainfo::from_bytes` extracts from torrent metadata:
/// the 20-byte info-hash of a parseable torrent file, or nothing when the
/// bytes do not parse. The result is a function of the bytes alone.
pub uninterp spec fn metainfo_hash(bytes: Seq<u8>) -> Option<Seq<u8>>;

/// Relies on bip_metainfo: `Metainfo::from_bytes` parses torrent metadata
/// and `.info().info_hash()` is the 20-byte info-hash of its info
/// dictionary; both depend on the bytes alone.
#[verifier::external_body]
fn parse_metainfo_hash(bytes: &Vec<u8>) -> (r: Option<InfoHash>)
    ensures
        match r {
            Some(h) => metainfo_hash(bytes@) == Some(h@) && h@.len() == 20,
            None => metainfo_hash(bytes@) is None,
        },
{
    match bip_metainfo::Metainfo::from_bytes(bytes.as_slice()) {
        Ok(m) => Some(InfoHash { bytes: m.info().info_hash().as_ref().to_vec() }),
        Err(_) => None,
    }
}

/// Extracts the info-hash from fetched torrent metadata bytes; malformed
/// metadata is a `Parse` error, exactly when the bytes do not parse.
pub fn extract_infohash(bytes: &Vec<u8>) -> (r: Result<InfoHash, ErrorKind>)
    ensures
        match r {
            Ok(h) => metainfo_hash(bytes@) == Some(h@) && h.well_formed(),
            Err(e) => e == ErrorKind::Parse && metainfo_hash(bytes@) is None,
        },
{
    match parse_metainfo_hash(bytes) {
        Some(h) => Ok(h),
        None => Err(ErrorKind::Parse),
    }
}

} // verus!
