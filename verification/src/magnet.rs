//! Magnet links: formatting a link as `magnet:?` plus `&`-joined fields,
//! and parsing one back. The `xt=urn:btih:` prefix keeps its colons literal
//! (a deliberate deviation from strict form-url-encoding); every value is
//! form-url-encoded. Formatting and parsing are proved inverse.

use vstd::prelude::*;
use vstd::utf8::*;

use crate::index::opt_view;
use crate::text::{lemma_ascii_bytes_decode, seq_views, string_from_utf8};
use crate::urlencode::{
    dec_bytes, dec_vec, enc_append, enc_bytes, lemma_dec_enc, lemma_enc_bytes_clean,
};

verus! {

/// A magnet link: the info-hash, an optional display name, trackers, and
/// optional acceptable and exact sources.
pub struct Link {
    pub info_hash: Option<String>,
    pub display_name: Option<String>,
    pub trackers: Vec<String>,
    pub acceptable_source: Option<String>,
    pub exact_source: Option<String>,
}

/// The mathematical value of a `Link`.
#[verifier::ext_equal]
pub ghost struct LinkSnap {
    pub info_hash: Option<Seq<char>>,
    pub display_name: Option<Seq<char>>,
    pub trackers: Seq<Seq<char>>,
    pub acceptable_source: Option<Seq<char>>,
    pub exact_source: Option<Seq<char>>,
}

impl View for Link {
    type V = LinkSnap;

    open spec fn view(&self) -> LinkSnap {
        LinkSnap {
            info_hash: opt_view(self.info_hash),
            display_name: opt_view(self.display_name),
            trackers: seq_views(self.trackers@),
            acceptable_source: opt_view(self.acceptable_source),
            exact_source: opt_view(self.exact_source),
        }
    }
}

/// A link with nothing set.
pub open spec fn empty_link() -> LinkSnap {
    LinkSnap {
        info_hash: None,
        display_name: None,
        trackers: Seq::<Seq<char>>::empty(),
        acceptable_source: None,
        exact_source: None,
    }
}

/// The bytes of `magnet:?`.
pub open spec fn magnet_prefix() -> Seq<u8> {
    seq![0x6Du8, 0x61, 0x67, 0x6E, 0x65, 0x74, 0x3A, 0x3F]
}

/// The bytes of `xt=urn:btih:`; the colons stay literal.
pub open spec fn xt_prefix() -> Seq<u8> {
    seq![0x78u8, 0x74, 0x3D, 0x75, 0x72, 0x6E, 0x3A, 0x62, 0x74, 0x69, 0x68, 0x3A]
}

/// The bytes of `dn=`.
pub open spec fn dn_prefix() -> Seq<u8> {
    seq![0x64u8, 0x6E, 0x3D]
}

/// The bytes of `xs=`.
pub open spec fn xs_prefix() -> Seq<u8> {
    seq![0x78u8, 0x73, 0x3D]
}

/// The bytes of `as=`.
pub open spec fn as_prefix() -> Seq<u8> {
    seq![0x61u8, 0x73, 0x3D]
}

/// The bytes of `tr=`.
pub open spec fn tr_prefix() -> Seq<u8> {
    seq![0x74u8, 0x72, 0x3D]
}

/// A value as it appears in the query: its UTF-8 bytes, form-url-encoded.
pub open spec fn enc_value(s: Seq<char>) -> Seq<u8> {
    enc_bytes(encode_utf8(s))
}

/// The segment of an optional field: its key prefix and encoded value, or
/// nothing.
pub open spec fn opt_seg(prefix: Seq<u8>, o: Option<Seq<char>>) -> Seq<Seq<u8>> {
    match o {
        Some(s) => seq![prefix + enc_value(s)],
        None => Seq::<Seq<u8>>::empty(),
    }
}

/// One `tr=` segment per tracker, in order.
pub open spec fn tr_segs(ts: Seq<Seq<char>>) -> Seq<Seq<u8>> {
    Seq::new(ts.len(), |i: int| tr_prefix() + enc_value(ts[i]))
}

/// The query segments of a link: `xt`, then `dn`, `xs`, `as` when present,
/// then the trackers.
pub open spec fn link_segments(l: LinkSnap) -> Seq<Seq<u8>> {
    opt_seg(xt_prefix(), l.info_hash) + opt_seg(dn_prefix(), l.display_name) + opt_seg(
        xs_prefix(),
        l.exact_source,
    ) + opt_seg(as_prefix(), l.acceptable_source) + tr_segs(l.trackers)
}

/// Segments joined with `&`.
pub open spec fn join_amp(segs: Seq<Seq<u8>>) -> Seq<u8>
    decreases segs.len(),
{
    if segs.len() == 0 {
        Seq::<u8>::empty()
    } else if segs.len() == 1 {
        segs[0]
    } else {
        segs[0] + seq![0x26u8] + join_amp(segs.drop_first())
    }
}

/// The full rendering of a link, as bytes (all of them ASCII).
pub open spec fn link_bytes(l: LinkSnap) -> Seq<u8> {
    magnet_prefix() + join_amp(link_segments(l))
}

/// The full rendering of a link, as text.
pub open spec fn link_text(l: LinkSnap) -> Seq<char> {
    decode_utf8(link_bytes(l))
}

/// Joining one more segment appends `&` and the segment (no `&` after an
/// empty list).
proof fn lemma_join_push(segs: Seq<Seq<u8>>, seg: Seq<u8>)
    ensures
        join_amp(segs.push(seg)) == (if segs.len() == 0 {
            seg
        } else {
            join_amp(segs) + seq![0x26u8] + seg
        }),
    decreases segs.len(),
{
    if segs.len() == 0 {
        assert(segs.push(seg) =~= seq![seg]);
    } else if segs.len() == 1 {
        let two = segs.push(seg);
        assert(two.len() == 2);
        assert(two[0] == segs[0]);
        assert(two.drop_first() =~= seq![seg]);
        assert(join_amp(seq![seg]) == seg);
        assert(join_amp(two) == two[0] + seq![0x26u8] + join_amp(two.drop_first()));
        assert(join_amp(segs) == segs[0]);
    } else {
        lemma_join_push(segs.drop_first(), seg);
        assert(segs.push(seg).drop_first() =~= segs.drop_first().push(seg));
        assert(segs.push(seg)[0] == segs[0]);
        assert(join_amp(segs.push(seg)) =~= join_amp(segs) + seq![0x26u8] + seg);
    }
}

fn push_magnet_prefix(out: &mut Vec<u8>)
    ensures
        final(out)@ == old(out)@ + magnet_prefix(),
{
    out.push(0x6D);
    out.push(0x61);
    out.push(0x67);
    out.push(0x6E);
    out.push(0x65);
    out.push(0x74);
    out.push(0x3A);
    out.push(0x3F);
    proof {
        assert(out@ =~= old(out)@ + magnet_prefix());
    }
}

fn push_xt_prefix(out: &mut Vec<u8>)
    ensures
        final(out)@ == old(out)@ + xt_prefix(),
{
    out.push(0x78);
    out.push(0x74);
    out.push(0x3D);
    out.push(0x75);
    out.push(0x72);
    out.push(0x6E);
    out.push(0x3A);
    out.push(0x62);
    out.push(0x74);
    out.push(0x69);
    out.push(0x68);
    out.push(0x3A);
    proof {
        assert(out@ =~= old(out)@ + xt_prefix());
    }
}

fn push_key3(out: &mut Vec<u8>, a: u8, b: u8)
    ensures
        final(out)@ == old(out)@ + seq![a, b, 0x3Du8],
{
    out.push(a);
    out.push(b);
    out.push(0x3D);
    proof {
        assert(out@ =~= old(out)@ + seq![a, b, 0x3Du8]);
    }
}

/// All bytes of a piece-plus-encoded-value segment are ASCII and `&`-free.
proof fn lemma_seg_clean(prefix: Seq<u8>, v: Seq<char>)
    requires
        forall|i: int| 0 <= i < prefix.len() ==> (#[trigger] prefix[i]) < 0x80 && prefix[i] != 0x26,
    ensures
        forall|i: int|
            0 <= i < (prefix + enc_value(v)).len() ==> ((#[trigger] (prefix + enc_value(v))[i])
                < 0x80 && (prefix + enc_value(v))[i] != 0x26),
{
    lemma_enc_bytes_clean(encode_utf8(v));
    assert forall|i: int| 0 <= i < (prefix + enc_value(v)).len() implies ((#[trigger] (prefix
        + enc_value(v))[i]) < 0x80 && (prefix + enc_value(v))[i] != 0x26) by {
        if i < prefix.len() {
            assert((prefix + enc_value(v))[i] == prefix[i]);
        } else {
            assert((prefix + enc_value(v))[i] == enc_value(v)[i - prefix.len()]);
        }
    }
}

/// The one fixed tracker of the store's torrents.
pub open spec fn fixed_tracker() -> Seq<char> {
    "http://s3-tracker.ap-southeast-1.amazonaws.com:6969/announce"@
}

/// The fixed tracker list: one announce endpoint.
pub fn default_trackers() -> (r: Vec<String>)
    ensures
        seq_views(r@) == seq![fixed_tracker()],
{
    let mut r: Vec<String> = Vec::new();
    r.push(String::from_str("http://s3-tracker.ap-southeast-1.amazonaws.com:6969/announce"));
    proof {
        assert(seq_views(r@) =~= seq![fixed_tracker()]);
    }
    r
}

impl Default for Link {
    /// A link with nothing set.
    fn default() -> (r: Self)
        ensures
            r@ == empty_link(),
    {
        Link::empty()
    }
}

impl Link {
    /// A link with nothing set.
    pub fn empty() -> (r: Self)
        ensures
            r@ == empty_link(),
    {
        let r = Link {
            info_hash: None,
            display_name: None,
            trackers: Vec::new(),
            acceptable_source: None,
            exact_source: None,
        };
        proof {
            assert(r@ =~= empty_link());
        }
        r
    }

    /// Renders the link: `magnet:?`, then the present fields as `&`-joined
    /// `key=value` pairs (`xt` carrying the literal `urn:btih:` prefix),
    /// every value form-url-encoded, trackers last and in order.
    #[verifier::rlimit(80)]
    #[verifier::spinoff_prover]
    pub fn to_string(&self) -> (r: String)
        ensures
            r@ == link_text(self@),
            encode_utf8(r@) == link_bytes(self@),
    {
        let mut out: Vec<u8> = Vec::new();
        push_magnet_prefix(&mut out);
        let ghost mut segs: Seq<Seq<u8>> = Seq::<Seq<u8>>::empty();
        let mut first: bool = true;
        proof {
            assert(out@ =~= magnet_prefix() + join_amp(segs));
            assert(forall|j: int| 0 <= j < out@.len() ==> (#[trigger] out@[j]) < 0x80);
        }
        match &self.info_hash {
            Some(ih) => {
                push_xt_prefix(&mut out);
                let vb = ih.as_str().as_bytes_vec();
                enc_append(&mut out, &vb);
                proof {
                    let seg = xt_prefix() + enc_value(ih@);
                    lemma_join_push(segs, seg);
                    segs = segs.push(seg);
                    assert(join_amp(segs) == seg);
                    assert(out@ =~= magnet_prefix() + join_amp(segs));
                    lemma_seg_clean(xt_prefix(), ih@);
                    assert(forall|j: int| 0 <= j < out@.len() ==> (#[trigger] out@[j]) < 0x80);
                }
                first = false;
            },
            None => {},
        }
        proof {
            assert(segs =~= opt_seg(xt_prefix(), self@.info_hash));
            assert(first == (segs.len() == 0));
        }
        let ghost segs1 = segs;
        match &self.display_name {
            Some(dn) => {
                if !first {
                    out.push(0x26);
                }
                push_key3(&mut out, 0x64, 0x6E);
                let vb = dn.as_str().as_bytes_vec();
                enc_append(&mut out, &vb);
                proof {
                    let seg = dn_prefix() + enc_value(dn@);
                    assert(seq![0x64u8, 0x6E, 0x3Du8] =~= dn_prefix());
                    lemma_join_push(segs, seg);
                    segs = segs.push(seg);
                    assert(out@ =~= magnet_prefix() + join_amp(segs));
                    lemma_seg_clean(dn_prefix(), dn@);
                    assert(forall|j: int| 0 <= j < out@.len() ==> (#[trigger] out@[j]) < 0x80);
                }
                first = false;
            },
            None => {},
        }
        proof {
            assert(segs =~= segs1 + opt_seg(dn_prefix(), self@.display_name));
            assert(first == (segs.len() == 0));
        }
        let ghost segs2 = segs;
        match &self.exact_source {
            Some(xs) => {
                if !first {
                    out.push(0x26);
                }
                push_key3(&mut out, 0x78, 0x73);
                let vb = xs.as_str().as_bytes_vec();
                enc_append(&mut out, &vb);
                proof {
                    let seg = xs_prefix() + enc_value(xs@);
                    assert(seq![0x78u8, 0x73, 0x3Du8] =~= xs_prefix());
                    lemma_join_push(segs, seg);
                    segs = segs.push(seg);
                    assert(out@ =~= magnet_prefix() + join_amp(segs));
                    lemma_seg_clean(xs_prefix(), xs@);
                    assert(forall|j: int| 0 <= j < out@.len() ==> (#[trigger] out@[j]) < 0x80);
                }
                first = false;
            },
            None => {},
        }
        proof {
            assert(segs =~= segs2 + opt_seg(xs_prefix(), self@.exact_source));
            assert(first == (segs.len() == 0));
        }
        let ghost segs3 = segs;
        match &self.acceptable_source {
            Some(acc) => {
                if !first {
                    out.push(0x26);
                }
                push_key3(&mut out, 0x61, 0x73);
                let vb = acc.as_str().as_bytes_vec();
                enc_append(&mut out, &vb);
                proof {
                    let seg = as_prefix() + enc_value(acc@);
                    assert(seq![0x61u8, 0x73, 0x3Du8] =~= as_prefix());
                    lemma_join_push(segs, seg);
                    segs = segs.push(seg);
                    assert(out@ =~= magnet_prefix() + join_amp(segs));
                    lemma_seg_clean(as_prefix(), acc@);
                    assert(forall|j: int| 0 <= j < out@.len() ==> (#[trigger] out@[j]) < 0x80);
                }
                first = false;
            },
            None => {},
        }
        proof {
            assert(segs =~= segs3 + opt_seg(as_prefix(), self@.acceptable_source));
            assert(first == (segs.len() == 0));
        }
        let ghost segs4 = segs;
        let ghost trs = seq_views(self.trackers@);
        let n = self.trackers.len();
        let mut i: usize = 0;
        proof {
            assert(tr_segs(trs.take(0)) =~= Seq::<Seq<u8>>::empty());
            assert(segs =~= segs4 + tr_segs(trs.take(0)));
        }
        while i < n
            invariant
                0 <= i <= n,
                n == self.trackers@.len(),
                trs == seq_views(self.trackers@),
                segs == segs4 + tr_segs(trs.take(i as int)),
                first == (segs.len() == 0),
                out@ == magnet_prefix() + join_amp(segs),
                forall|j: int| 0 <= j < out@.len() ==> (#[trigger] out@[j]) < 0x80,
            decreases n - i,
        {
            if !first {
                out.push(0x26);
            }
            push_key3(&mut out, 0x74, 0x72);
            let vb = self.trackers[i].as_str().as_bytes_vec();
            enc_append(&mut out, &vb);
            proof {
                let seg = tr_prefix() + enc_value(trs[i as int]);
                assert(seq![0x74u8, 0x72, 0x3Du8] =~= tr_prefix());
                lemma_join_push(segs, seg);
                segs = segs.push(seg);
                assert(tr_segs(trs.take(i + 1)) =~= tr_segs(trs.take(i as int)).push(seg));
                assert(segs =~= segs4 + tr_segs(trs.take(i + 1)));
                assert(out@ =~= magnet_prefix() + join_amp(segs));
                lemma_seg_clean(tr_prefix(), trs[i as int]);
                assert(forall|j: int| 0 <= j < out@.len() ==> (#[trigger] out@[j]) < 0x80);
            }
            first = false;
            i += 1;
        }
        proof {
            assert(trs.take(n as int) =~= trs);
            assert(segs =~= link_segments(self@));
            assert(out@ == link_bytes(self@));
            lemma_ascii_bytes_decode(out@);
        }
        let r = string_from_utf8(out);
        proof {
            encode_utf8_decode_utf8(r@);
        }
        r
    }
}

/// The views of a sequence of byte vectors.
pub open spec fn byte_views(v: Seq<Vec<u8>>) -> Seq<Seq<u8>> {
    Seq::new(v.len(), |i: int| v[i]@)
}

/// Splitting a byte string at every `&`, keeping empty fields.
pub open spec fn split_amp(bs: Seq<u8>) -> Seq<Seq<u8>>
    decreases bs.len(),
{
    if bs.len() == 0 {
        seq![Seq::<u8>::empty()]
    } else if bs[0] == 0x26 {
        seq![Seq::<u8>::empty()] + split_amp(bs.drop_first())
    } else {
        let rest = split_amp(bs.drop_first());
        seq![seq![bs[0]] + rest[0]] + rest.drop_first()
    }
}

/// The decoding of a value: url-decoded bytes, read back as UTF-8 text.
pub open spec fn dec_value(bs: Seq<u8>) -> Option<Seq<char>> {
    match dec_bytes(bs) {
        Some(raw) => if valid_utf8(raw) {
            Some(decode_utf8(raw))
        } else {
            None
        },
        None => None,
    }
}

/// Reading one query segment into a link under construction: the key picks
/// the field, the decoded value fills it (`tr` appends); an unknown key or
/// an undecodable value fails.
pub open spec fn parse_seg(seg: Seq<u8>, acc: LinkSnap) -> Option<LinkSnap> {
    if seg.len() >= 12 && seg.take(12) == xt_prefix() {
        match dec_value(seg.skip(12)) {
            Some(v) => Some(LinkSnap { info_hash: Some(v), ..acc }),
            None => None,
        }
    } else if seg.len() >= 3 && seg.take(3) == dn_prefix() {
        match dec_value(seg.skip(3)) {
            Some(v) => Some(LinkSnap { display_name: Some(v), ..acc }),
            None => None,
        }
    } else if seg.len() >= 3 && seg.take(3) == xs_prefix() {
        match dec_value(seg.skip(3)) {
            Some(v) => Some(LinkSnap { exact_source: Some(v), ..acc }),
            None => None,
        }
    } else if seg.len() >= 3 && seg.take(3) == as_prefix() {
        match dec_value(seg.skip(3)) {
            Some(v) => Some(LinkSnap { acceptable_source: Some(v), ..acc }),
            None => None,
        }
    } else if seg.len() >= 3 && seg.take(3) == tr_prefix() {
        match dec_value(seg.skip(3)) {
            Some(v) => Some(LinkSnap { trackers: acc.trackers.push(v), ..acc }),
            None => None,
        }
    } else {
        None
    }
}

/// Reading the query segments left to right.
pub open spec fn parse_segs(segs: Seq<Seq<u8>>, acc: LinkSnap) -> Option<LinkSnap>
    decreases segs.len(),
{
    if segs.len() == 0 {
        Some(acc)
    } else {
        match parse_seg(segs[0], acc) {
            Some(a2) => parse_segs(segs.drop_first(), a2),
            None => None,
        }
    }
}

/// What parsing a magnet text yields: nothing without the `magnet:?`
/// prefix, the empty link for an empty query, else the fields read from the
/// `&`-split query segments.
pub open spec fn link_parse(text: Seq<char>) -> Option<LinkSnap> {
    let bs = encode_utf8(text);
    if bs.len() < 8 || bs.take(8) != magnet_prefix() {
        None
    } else if bs.len() == 8 {
        Some(empty_link())
    } else {
        parse_segs(split_amp(bs.skip(8)), empty_link())
    }
}

/// A byte string free of `&` is a single field.
proof fn lemma_split_amp_clean(bs: Seq<u8>)
    requires
        forall|j: int| 0 <= j < bs.len() ==> (#[trigger] bs[j]) != 0x26,
    ensures
        split_amp(bs) == seq![bs],
    decreases bs.len(),
{
    if bs.len() == 0 {
        assert(bs =~= Seq::<u8>::empty());
        assert(split_amp(bs) =~= seq![bs]);
    } else {
        lemma_split_amp_clean(bs.drop_first());
        assert(seq![bs[0]] + bs.drop_first() =~= bs);
        assert(split_amp(bs) =~= seq![bs]);
    }
}

/// Splitting at the first `&`.
proof fn lemma_split_amp_at(bs: Seq<u8>, d: int)
    requires
        0 <= d < bs.len(),
        bs[d] == 0x26,
        forall|j: int| 0 <= j < d ==> (#[trigger] bs[j]) != 0x26,
    ensures
        split_amp(bs) == seq![bs.take(d)] + split_amp(bs.skip(d + 1)),
    decreases d,
{
    if d == 0 {
        assert(bs.take(0) =~= Seq::<u8>::empty());
        assert(bs.skip(1) =~= bs.drop_first());
        assert(split_amp(bs) =~= seq![bs.take(0)] + split_amp(bs.skip(1)));
    } else {
        let t = bs.drop_first();
        assert(forall|j: int| 0 <= j < d - 1 ==> (#[trigger] t[j]) != 0x26);
        lemma_split_amp_at(t, d - 1);
        assert(split_amp(t).len() >= 1) by {
            lemma_split_amp_len(t);
        }
        assert(seq![bs[0]] + t.take(d - 1) =~= bs.take(d));
        assert(t.skip(d) =~= bs.skip(d + 1));
        assert(split_amp(bs) =~= seq![bs.take(d)] + split_amp(bs.skip(d + 1)));
    }
}

proof fn lemma_split_amp_len(bs: Seq<u8>)
    ensures
        split_amp(bs).len() >= 1,
    decreases bs.len(),
{
    if bs.len() != 0 {
        lemma_split_amp_len(bs.drop_first());
    }
}

/// Splitting a join at `&` gives the segments back, when no segment is
/// empty or holds an `&`.
proof fn lemma_split_join(segs: Seq<Seq<u8>>)
    requires
        segs.len() >= 1,
        forall|si: int| 0 <= si < segs.len() ==> (#[trigger] segs[si]).len() > 0,
        forall|si: int, j: int|
            0 <= si < segs.len() && 0 <= j < segs[si].len() ==> (#[trigger] segs[si][j]) != 0x26,
    ensures
        split_amp(join_amp(segs)) == segs,
    decreases segs.len(),
{
    if segs.len() == 1 {
        lemma_split_amp_clean(segs[0]);
        assert(split_amp(join_amp(segs)) =~= segs);
    } else {
        let rest = segs.drop_first();
        let jn = join_amp(segs);
        let d = segs[0].len() as int;
        assert(jn =~= segs[0] + seq![0x26u8] + join_amp(rest));
        assert(jn[d] == 0x26);
        assert forall|j: int| 0 <= j < d implies (#[trigger] jn[j]) != 0x26 by {
            assert(jn[j] == segs[0][j]);
        }
        lemma_split_amp_at(jn, d);
        assert(jn.take(d) =~= segs[0]);
        assert(jn.skip(d + 1) =~= join_amp(rest));
        lemma_split_join(rest);
        assert(seq![segs[0]] + rest =~= segs);
    }
}

/// Parsing segments in two runs is parsing the first run, then the second
/// from where it left off.
proof fn lemma_parse_segs_concat(a: Seq<Seq<u8>>, b: Seq<Seq<u8>>, acc: LinkSnap)
    ensures
        parse_segs(a + b, acc) == (match parse_segs(a, acc) {
            Some(m) => parse_segs(b, m),
            None => None,
        }),
    decreases a.len(),
{
    if a.len() == 0 {
        assert(a + b =~= b);
    } else {
        assert((a + b)[0] == a[0]);
        assert((a + b).drop_first() =~= a.drop_first() + b);
        match parse_seg(a[0], acc) {
            Some(a2) => {
                lemma_parse_segs_concat(a.drop_first(), b, a2);
            },
            None => {},
        }
    }
}

proof fn lemma_parse_single(seg: Seq<u8>, acc: LinkSnap)
    ensures
        parse_segs(seq![seg], acc) == parse_seg(seg, acc),
{
    assert(seq![seg].drop_first() =~= Seq::<Seq<u8>>::empty());
    match parse_seg(seg, acc) {
        Some(m) => {
            assert(parse_segs(seq![seg], acc) == parse_segs(Seq::<Seq<u8>>::empty(), m));
        },
        None => {},
    }
}

/// Decoding an encoded value restores it.
proof fn lemma_dec_enc_value(v: Seq<char>)
    ensures
        dec_value(enc_value(v)) == Some(v),
{
    lemma_dec_enc(encode_utf8(v));
    encode_utf8_valid_utf8(v);
    encode_utf8_decode_utf8(v);
}

/// Reading back an `xt` segment.
proof fn lemma_parse_xt(v: Seq<char>, acc: LinkSnap)
    ensures
        parse_seg(xt_prefix() + enc_value(v), acc) == Some(LinkSnap { info_hash: Some(v), ..acc }),
{
    let seg = xt_prefix() + enc_value(v);
    assert(seg.take(12) =~= xt_prefix());
    assert(seg.skip(12) =~= enc_value(v));
    lemma_dec_enc_value(v);
}

/// Reading back a `dn` segment.
proof fn lemma_parse_dn(v: Seq<char>, acc: LinkSnap)
    ensures
        parse_seg(dn_prefix() + enc_value(v), acc) == Some(
            LinkSnap { display_name: Some(v), ..acc },
        ),
{
    let seg = dn_prefix() + enc_value(v);
    assert(seg[0] == 0x64);
    if seg.len() >= 12 && seg.take(12) == xt_prefix() {
        assert(seg.take(12)[0] == seg[0]);
        assert(false);
    }
    assert(seg.take(3) =~= dn_prefix());
    assert(seg.skip(3) =~= enc_value(v));
    lemma_dec_enc_value(v);
}

/// Reading back an `xs` segment.
proof fn lemma_parse_xs(v: Seq<char>, acc: LinkSnap)
    ensures
        parse_seg(xs_prefix() + enc_value(v), acc) == Some(
            LinkSnap { exact_source: Some(v), ..acc },
        ),
{
    let seg = xs_prefix() + enc_value(v);
    assert(seg[0] == 0x78 && seg[1] == 0x73);
    if seg.len() >= 12 && seg.take(12) == xt_prefix() {
        assert(seg.take(12)[1] == seg[1]);
        assert(false);
    }
    assert(seg.take(3) =~= xs_prefix());
    if seg.take(3) == dn_prefix() {
        assert(seg.take(3)[0] == seg[0]);
        assert(false);
    }
    assert(seg.skip(3) =~= enc_value(v));
    lemma_dec_enc_value(v);
}

/// Reading back an `as` segment.
proof fn lemma_parse_as(v: Seq<char>, acc: LinkSnap)
    ensures
        parse_seg(as_prefix() + enc_value(v), acc) == Some(
            LinkSnap { acceptable_source: Some(v), ..acc },
        ),
{
    let seg = as_prefix() + enc_value(v);
    assert(seg[0] == 0x61);
    if seg.len() >= 12 && seg.take(12) == xt_prefix() {
        assert(seg.take(12)[0] == seg[0]);
        assert(false);
    }
    assert(seg.take(3) =~= as_prefix());
    if seg.take(3) == dn_prefix() {
        assert(seg.take(3)[0] == seg[0]);
        assert(false);
    }
    if seg.take(3) == xs_prefix() {
        assert(seg.take(3)[0] == seg[0]);
        assert(false);
    }
    assert(seg.skip(3) =~= enc_value(v));
    lemma_dec_enc_value(v);
}

/// Reading back a `tr` segment.
proof fn lemma_parse_tr(v: Seq<char>, acc: LinkSnap)
    ensures
        parse_seg(tr_prefix() + enc_value(v), acc) == Some(
            LinkSnap { trackers: acc.trackers.push(v), ..acc },
        ),
{
    let seg = tr_prefix() + enc_value(v);
    assert(seg[0] == 0x74 && seg[1] == 0x72);
    if seg.len() >= 12 && seg.take(12) == xt_prefix() {
        assert(seg.take(12)[0] == seg[0]);
        assert(false);
    }
    assert(seg.take(3) =~= tr_prefix());
    if seg.take(3) == dn_prefix() {
        assert(seg.take(3)[0] == seg[0]);
        assert(false);
    }
    if seg.take(3) == xs_prefix() {
        assert(seg.take(3)[0] == seg[0]);
        assert(false);
    }
    if seg.take(3) == as_prefix() {
        assert(seg.take(3)[0] == seg[0]);
        assert(false);
    }
    assert(seg.skip(3) =~= enc_value(v));
    lemma_dec_enc_value(v);
}

/// Reading back the tracker segments appends the trackers, in order.
proof fn lemma_parse_tr_segs(ts: Seq<Seq<char>>, acc: LinkSnap)
    ensures
        parse_segs(tr_segs(ts), acc) == Some(LinkSnap { trackers: acc.trackers + ts, ..acc }),
    decreases ts.len(),
{
    if ts.len() == 0 {
        assert(tr_segs(ts) =~= Seq::<Seq<u8>>::empty());
        assert(acc.trackers + ts =~= acc.trackers);
        assert(LinkSnap { trackers: acc.trackers + ts, ..acc } =~= acc);
    } else {
        let first = ts[0];
        lemma_parse_tr(first, acc);
        let acc2 = LinkSnap { trackers: acc.trackers.push(first), ..acc };
        assert(tr_segs(ts)[0] == tr_prefix() + enc_value(first));
        assert(tr_segs(ts).drop_first() =~= tr_segs(ts.drop_first()));
        lemma_parse_tr_segs(ts.drop_first(), acc2);
        assert(acc2.trackers + ts.drop_first() =~= acc.trackers + ts);
        assert(LinkSnap { trackers: acc2.trackers + ts.drop_first(), ..acc2 } =~= LinkSnap {
            trackers: acc.trackers + ts,
            ..acc
        });
    }
}

/// Reading back the segments of a formatted link restores the link.
proof fn lemma_parse_format_segs(l: LinkSnap)
    ensures
        parse_segs(link_segments(l), empty_link()) == Some(l),
{
    let e = empty_link();
    let a = opt_seg(xt_prefix(), l.info_hash);
    let b = opt_seg(dn_prefix(), l.display_name);
    let c = opt_seg(xs_prefix(), l.exact_source);
    let d = opt_seg(as_prefix(), l.acceptable_source);
    let ee = tr_segs(l.trackers);
    let acc1 = LinkSnap { info_hash: l.info_hash, ..e };
    assert(parse_segs(a, e) == Some(acc1)) by {
        match l.info_hash {
            Some(v) => {
                lemma_parse_single(xt_prefix() + enc_value(v), e);
                lemma_parse_xt(v, e);
            },
            None => {
                assert(acc1 =~= e);
            },
        }
    }
    let acc2 = LinkSnap { display_name: l.display_name, ..acc1 };
    assert(parse_segs(b, acc1) == Some(acc2)) by {
        match l.display_name {
            Some(v) => {
                lemma_parse_single(dn_prefix() + enc_value(v), acc1);
                lemma_parse_dn(v, acc1);
            },
            None => {
                assert(acc2 =~= acc1);
            },
        }
    }
    let acc3 = LinkSnap { exact_source: l.exact_source, ..acc2 };
    assert(parse_segs(c, acc2) == Some(acc3)) by {
        match l.exact_source {
            Some(v) => {
                lemma_parse_single(xs_prefix() + enc_value(v), acc2);
                lemma_parse_xs(v, acc2);
            },
            None => {
                assert(acc3 =~= acc2);
            },
        }
    }
    let acc4 = LinkSnap { acceptable_source: l.acceptable_source, ..acc3 };
    assert(parse_segs(d, acc3) == Some(acc4)) by {
        match l.acceptable_source {
            Some(v) => {
                lemma_parse_single(as_prefix() + enc_value(v), acc3);
                lemma_parse_as(v, acc3);
            },
            None => {
                assert(acc4 =~= acc3);
            },
        }
    }
    lemma_parse_tr_segs(l.trackers, acc4);
    assert(parse_segs(ee, acc4) == Some(LinkSnap { trackers: acc4.trackers + l.trackers, ..acc4 }));
    assert(LinkSnap { trackers: acc4.trackers + l.trackers, ..acc4 } =~= l);
    lemma_parse_segs_concat(a, b, e);
    lemma_parse_segs_concat(a + b, c, e);
    lemma_parse_segs_concat(a + b + c, d, e);
    lemma_parse_segs_concat(a + b + c + d, ee, e);
    assert(parse_segs(a + b, e) == Some(acc2));
    assert(parse_segs(a + b + c, e) == Some(acc3));
    assert(parse_segs(a + b + c + d, e) == Some(acc4));
    assert(link_segments(l) == a + b + c + d + ee);
}

/// Every segment of a formatted link is non-empty, ASCII, and free of `&`.
proof fn lemma_segments_clean(l: LinkSnap)
    ensures
        forall|si: int|
            0 <= si < link_segments(l).len() ==> (#[trigger] link_segments(l)[si]).len() > 0,
        forall|si: int, j: int|
            0 <= si < link_segments(l).len() && 0 <= j < link_segments(l)[si].len() ==> (
            #[trigger] link_segments(l)[si][j]) != 0x26 && link_segments(l)[si][j] < 0x80,
{
    let a = opt_seg(xt_prefix(), l.info_hash);
    let b = opt_seg(dn_prefix(), l.display_name);
    let c = opt_seg(xs_prefix(), l.exact_source);
    let d = opt_seg(as_prefix(), l.acceptable_source);
    let ee = tr_segs(l.trackers);
    let segs = link_segments(l);
    assert forall|si: int| 0 <= si < segs.len() implies (#[trigger] segs[si]).len() > 0 && (
    forall|j: int| 0 <= j < segs[si].len() ==> (#[trigger] segs[si][j]) != 0x26 && segs[si][j]
        < 0x80) by {
        let la = a.len() as int;
        let lb = b.len() as int;
        let lc = c.len() as int;
        let ld = d.len() as int;
        if si < la {
            let v = l.info_hash->0;
            assert(segs[si] == xt_prefix() + enc_value(v));
            lemma_seg_clean(xt_prefix(), v);
        } else if si < la + lb {
            let v = l.display_name->0;
            assert(segs[si] == dn_prefix() + enc_value(v));
            lemma_seg_clean(dn_prefix(), v);
        } else if si < la + lb + lc {
            let v = l.exact_source->0;
            assert(segs[si] == xs_prefix() + enc_value(v));
            lemma_seg_clean(xs_prefix(), v);
        } else if si < la + lb + lc + ld {
            let v = l.acceptable_source->0;
            assert(segs[si] == as_prefix() + enc_value(v));
            lemma_seg_clean(as_prefix(), v);
        } else {
            let k = si - (la + lb + lc + ld);
            assert(segs[si] == ee[k]);
            assert(ee[k] == tr_prefix() + enc_value(l.trackers[k]));
            lemma_seg_clean(tr_prefix(), l.trackers[k]);
        }
    }
}

/// The magnet round trip: parsing a formatted link restores the link, for
/// every link value.
pub proof fn lemma_magnet_roundtrip(l: LinkSnap)
    ensures
        link_parse(link_text(l)) == Some(l),
{
    lemma_segments_clean(l);
    let segs = link_segments(l);
    let jn = join_amp(segs);
    let lb = link_bytes(l);
    assert forall|j: int| 0 <= j < jn.len() implies (#[trigger] jn[j]) < 0x80 by {
        lemma_join_ascii(segs, j);
    }
    assert(forall|j: int| 0 <= j < lb.len() ==> (#[trigger] lb[j]) < 0x80) by {
        assert(forall|j: int|
            0 <= j < lb.len() ==> lb[j] == (if j < 8 {
                magnet_prefix()[j]
            } else {
                jn[j - 8]
            }));
    }
    lemma_ascii_bytes_decode(lb);
    decode_utf8_encode_utf8(lb);
    assert(encode_utf8(link_text(l)) == lb);
    assert(lb.take(8) =~= magnet_prefix());
    assert(lb.skip(8) =~= jn);
    if segs.len() == 0 {
        assert(lb.len() == 8);
        assert(l.info_hash is None && l.display_name is None && l.exact_source is None
            && l.acceptable_source is None);
        assert(l.trackers =~= Seq::<Seq<char>>::empty());
        assert(l =~= empty_link());
    } else {
        assert(segs[0].len() > 0);
        assert(jn.len() > 0) by {
            if segs.len() == 1 {
            } else {
                assert(jn == segs[0] + seq![0x26u8] + join_amp(segs.drop_first()));
            }
        }
        assert(lb.len() > 8);
        lemma_split_join(segs);
        lemma_parse_format_segs(l);
    }
}

/// Every byte of a join of ASCII, `&`-free segments is ASCII.
proof fn lemma_join_ascii(segs: Seq<Seq<u8>>, j: int)
    requires
        forall|si: int, k: int|
            0 <= si < segs.len() && 0 <= k < segs[si].len() ==> (#[trigger] segs[si][k]) < 0x80,
        0 <= j < join_amp(segs).len(),
    ensures
        join_amp(segs)[j] < 0x80,
    decreases segs.len(),
{
    if segs.len() == 0 {
    } else if segs.len() == 1 {
        assert(join_amp(segs)[j] == segs[0][j]);
    } else {
        let head = segs[0];
        let jn = join_amp(segs);
        assert(jn == head + seq![0x26u8] + join_amp(segs.drop_first()));
        if j < head.len() {
            assert(jn[j] == head[j]);
        } else if j == head.len() {
            assert(jn[j] == 0x26);
        } else {
            assert(jn[j] == join_amp(segs.drop_first())[j - head.len() - 1]);
            assert(forall|si: int, k: int|
                0 <= si < segs.drop_first().len() && 0 <= k < segs.drop_first()[si].len() ==> (
                #[trigger] segs.drop_first()[si][k]) < 0x80);
            lemma_join_ascii(segs.drop_first(), j - head.len() - 1);
        }
    }
}

fn magnet_vec() -> (r: Vec<u8>)
    ensures
        r@ == magnet_prefix(),
{
    let mut r: Vec<u8> = Vec::new();
    push_magnet_prefix(&mut r);
    proof {
        assert(r@ =~= magnet_prefix());
    }
    r
}

fn xt_vec() -> (r: Vec<u8>)
    ensures
        r@ == xt_prefix(),
{
    let mut r: Vec<u8> = Vec::new();
    push_xt_prefix(&mut r);
    proof {
        assert(r@ =~= xt_prefix());
    }
    r
}

fn key3_vec(a: u8, b: u8) -> (r: Vec<u8>)
    ensures
        r@ == seq![a, b, 0x3Du8],
{
    let mut r: Vec<u8> = Vec::new();
    push_key3(&mut r, a, b);
    proof {
        assert(r@ =~= seq![a, b, 0x3Du8]);
    }
    r
}

/// Whether `seg` starts with the bytes of `p`.
fn has_prefix(seg: &Vec<u8>, p: &Vec<u8>) -> (r: bool)
    ensures
        r == (seg@.len() >= p@.len() && seg@.take(p@.len() as int) == p@),
{
    let pl = p.len();
    if seg.len() < pl {
        return false;
    }
    let mut i: usize = 0;
    while i < pl
        invariant
            0 <= i <= pl,
            pl == p@.len(),
            seg@.len() >= pl,
            forall|j: int| 0 <= j < i ==> (#[trigger] seg@[j]) == p@[j],
        decreases pl - i,
    {
        if seg[i] != p[i] {
            proof {
                if seg@.take(pl as int) == p@ {
                    assert(seg@.take(pl as int)[i as int] == seg@[i as int]);
                }
            }
            return false;
        }
        i += 1;
    }
    proof {
        assert(seg@.take(pl as int) =~= p@);
    }
    true
}

/// The bytes of `bs` from `a` (inclusive) to `b` (exclusive), as an owned
/// vector.
fn copy_range(bs: &Vec<u8>, a: usize, b: usize) -> (r: Vec<u8>)
    requires
        a <= b <= bs@.len(),
    ensures
        r@ == bs@.subrange(a as int, b as int),
{
    let mut r: Vec<u8> = Vec::new();
    let mut i: usize = a;
    while i < b
        invariant
            a <= i <= b <= bs@.len(),
            r@ == bs@.subrange(a as int, i as int),
        decreases b - i,
    {
        r.push(bs[i]);
        proof {
            assert(bs@.subrange(a as int, i + 1) =~= bs@.subrange(a as int, i as int).push(
                bs@[i as int],
            ));
        }
        i += 1;
    }
    r
}

/// Decodes the value part of a segment, from offset `from` on.
fn decode_value(seg: &Vec<u8>, from: usize) -> (r: Option<String>)
    requires
        from <= seg@.len(),
    ensures
        match r {
            Some(s) => dec_value(seg@.skip(from as int)) == Some(s@),
            None => dec_value(seg@.skip(from as int)) is None,
        },
{
    let sub = copy_range(seg, from, seg.len());
    proof {
        assert(sub@ =~= seg@.skip(from as int));
    }
    match dec_vec(&sub) {
        Some(raw) => {
            let ghost rawv = raw@;
            match crate::text::string_from_utf8_opt(raw) {
                Some(s) => {
                    proof {
                        encode_utf8_decode_utf8(s@);
                    }
                    Some(s)
                },
                None => None,
            }
        },
        None => None,
    }
}

/// Splits the bytes of `bs` from offset `from` at every `&`.
fn split_amp_exec(bs: &Vec<u8>, from: usize) -> (r: Vec<Vec<u8>>)
    requires
        from <= bs@.len(),
    ensures
        byte_views(r@) == split_amp(bs@.skip(from as int)),
{
    let n = bs.len();
    let mut r: Vec<Vec<u8>> = Vec::new();
    proof {
        assert(byte_views(r@) =~= Seq::<Seq<u8>>::empty());
        assert(byte_views(r@) + split_amp(bs@.skip(from as int)) =~= split_amp(
            bs@.skip(from as int),
        ));
    }
    let mut start: usize = from;
    let mut i: usize = from;
    while i < n
        invariant
            n == bs@.len(),
            from <= start <= i <= n,
            forall|j: int| start <= j < i ==> (#[trigger] bs@[j]) != 0x26,
            split_amp(bs@.skip(from as int)) == byte_views(r@) + split_amp(
                bs@.skip(start as int),
            ),
        decreases n - i,
    {
        if bs[i] == 0x26 {
            let seg = copy_range(bs, start, i);
            proof {
                let tail = bs@.skip(start as int);
                assert forall|j: int| 0 <= j < i - start implies (#[trigger] tail[j]) != 0x26 by {
                    assert(tail[j] == bs@[start + j]);
                }
                assert(tail[i - start] == bs@[i as int]);
                lemma_split_amp_at(tail, i - start);
                assert(tail.take(i - start) =~= bs@.subrange(start as int, i as int));
                assert(tail.skip(i - start + 1) =~= bs@.skip(i + 1));
                assert(byte_views(r@.push(seg)) =~= byte_views(r@) + seq![seg@]);
                assert(byte_views(r@) + (seq![tail.take(i - start)] + split_amp(bs@.skip(i + 1)))
                    =~= (byte_views(r@) + seq![seg@]) + split_amp(bs@.skip(i + 1)));
            }
            r.push(seg);
            start = i + 1;
        }
        i += 1;
    }
    let seg = copy_range(bs, start, n);
    proof {
        let tail = bs@.skip(start as int);
        assert forall|j: int| 0 <= j < tail.len() implies (#[trigger] tail[j]) != 0x26 by {
            assert(tail[j] == bs@[start + j]);
        }
        lemma_split_amp_clean(tail);
        assert(tail =~= bs@.subrange(start as int, n as int));
        assert(byte_views(r@.push(seg)) =~= byte_views(r@) + seq![seg@]);
    }
    r.push(seg);
    r
}

impl Link {
    /// Parses a magnet text back into a link: nothing without the
    /// `magnet:?` prefix, the empty link for an empty query, else each
    /// `&`-separated `key=value` pair read into its field, exactly as the
    /// parsing specification says.
    #[verifier::rlimit(80)]
    #[verifier::spinoff_prover]
    pub fn parse(s: &str) -> (r: Option<Link>)
        ensures
            match r {
                Some(l) => link_parse(s@) == Some(l@),
                None => link_parse(s@) is None,
            },
    {
        let bs = s.as_bytes_vec();
        let mp = magnet_vec();
        if !has_prefix(&bs, &mp) {
            return None;
        }
        if bs.len() == 8 {
            let l = Link::empty();
            return Some(l);
        }
        let segs = split_amp_exec(&bs, 8);
        let ghost sspec = split_amp(bs@.skip(8));
        let xtv = xt_vec();
        let dnv = key3_vec(0x64, 0x6E);
        let xsv = key3_vec(0x78, 0x73);
        let asv = key3_vec(0x61, 0x73);
        let trv = key3_vec(0x74, 0x72);
        proof {
            assert(dnv@ =~= dn_prefix());
            assert(xsv@ =~= xs_prefix());
            assert(asv@ =~= as_prefix());
            assert(trv@ =~= tr_prefix());
        }
        let mut link = Link::empty();
        let n = segs.len();
        let mut i: usize = 0;
        proof {
            assert(sspec.skip(0) =~= sspec);
        }
        while i < n
            invariant
                0 <= i <= n,
                n == segs@.len(),
                byte_views(segs@) == sspec,
                bs@ == encode_utf8(s@),
                bs@.len() > 8,
                bs@.take(8) == magnet_prefix(),
                sspec == split_amp(bs@.skip(8)),
                xtv@ == xt_prefix(),
                dnv@ == dn_prefix(),
                xsv@ == xs_prefix(),
                asv@ == as_prefix(),
                trv@ == tr_prefix(),
                parse_segs(sspec, empty_link()) == parse_segs(sspec.skip(i as int), link@),
            decreases n - i,
        {
            let ghost sg = sspec[i as int];
            let ghost lv = link@;
            proof {
                assert(segs@[i as int]@ == sg);
                assert(sspec.skip(i as int)[0] == sg);
                assert(sspec.skip(i as int).drop_first() =~= sspec.skip(i + 1));
            }
            let seg = &segs[i];
            if has_prefix(seg, &xtv) {
                match decode_value(seg, 12) {
                    Some(v) => {
                        link.info_hash = Some(v);
                        proof {
                            assert(parse_seg(sg, lv) == Some(link@)) by {
                                assert(link@ =~= LinkSnap { info_hash: Some(v@), ..lv });
                            }
                        }
                    },
                    None => {
                        proof {
                            assert(parse_seg(sg, lv) is None);
                            assert(parse_segs(sspec.skip(i as int), link@) is None);
                            assert(parse_segs(sspec, empty_link()) is None);
                            assert(link_parse(s@) is None);
                        }
                        return None;
                    },
                }
            } else if has_prefix(seg, &dnv) {
                match decode_value(seg, 3) {
                    Some(v) => {
                        link.display_name = Some(v);
                        proof {
                            assert(parse_seg(sg, lv) == Some(link@)) by {
                                assert(link@ =~= LinkSnap { display_name: Some(v@), ..lv });
                            }
                        }
                    },
                    None => {
                        proof {
                            assert(parse_seg(sg, lv) is None);
                            assert(parse_segs(sspec.skip(i as int), link@) is None);
                            assert(parse_segs(sspec, empty_link()) is None);
                            assert(link_parse(s@) is None);
                        }
                        return None;
                    },
                }
            } else if has_prefix(seg, &xsv) {
                match decode_value(seg, 3) {
                    Some(v) => {
                        link.exact_source = Some(v);
                        proof {
                            assert(parse_seg(sg, lv) == Some(link@)) by {
                                assert(link@ =~= LinkSnap { exact_source: Some(v@), ..lv });
                            }
                        }
                    },
                    None => {
                        proof {
                            assert(parse_seg(sg, lv) is None);
                            assert(parse_segs(sspec.skip(i as int), link@) is None);
                            assert(parse_segs(sspec, empty_link()) is None);
                            assert(link_parse(s@) is None);
                        }
                        return None;
                    },
                }
            } else if has_prefix(seg, &asv) {
                match decode_value(seg, 3) {
                    Some(v) => {
                        link.acceptable_source = Some(v);
                        proof {
                            assert(parse_seg(sg, lv) == Some(link@)) by {
                                assert(link@ =~= LinkSnap { acceptable_source: Some(v@), ..lv });
                            }
                        }
                    },
                    None => {
                        proof {
                            assert(parse_seg(sg, lv) is None);
                            assert(parse_segs(sspec.skip(i as int), link@) is None);
                            assert(parse_segs(sspec, empty_link()) is None);
                            assert(link_parse(s@) is None);
                        }
                        return None;
                    },
                }
            } else if has_prefix(seg, &trv) {
                match decode_value(seg, 3) {
                    Some(v) => {
                        let ghost vv = v@;
                        link.trackers.push(v);
                        proof {
                            assert(parse_seg(sg, lv) == Some(link@)) by {
                                assert(seq_views(link.trackers@) =~= lv.trackers.push(vv));
                                assert(link@ =~= LinkSnap { trackers: lv.trackers.push(vv), ..lv });
                            }
                        }
                    },
                    None => {
                        proof {
                            assert(parse_seg(sg, lv) is None);
                            assert(parse_segs(sspec.skip(i as int), link@) is None);
                            assert(parse_segs(sspec, empty_link()) is None);
                            assert(link_parse(s@) is None);
                        }
                        return None;
                    },
                }
            } else {
                proof {
                    assert(parse_seg(sg, lv) is None);
                    assert(parse_segs(sspec.skip(i as int), link@) is None);
                    assert(parse_segs(sspec, empty_link()) is None);
                    assert(link_parse(s@) is None);
                }
                return None;
            }
            i += 1;
        }
        proof {
            assert(sspec.skip(n as int) =~= Seq::<Seq<u8>>::empty());
        }
        Some(link)
    }
}

} // verus!
