use vstd::prelude::*;

verus! {

/// The failure kinds that operations of this library report.
///
/// `Invalid` is malformed input, `NotFound` a missing key, `Network` an I/O
/// failure talking to the object store, queue, topic or upstream, `Parse` a
/// malformed payload (JSON, RFC 3339, UUID, torrent metadata), and
/// `Cancelled` a shutdown.
#[derive(Clone, Copy, Debug, PartialEq, Eq, Structural)]
pub enum ErrorKind {
    Invalid,
    NotFound,
    Network,
    Parse,
    Cancelled,
}

} // verus!
