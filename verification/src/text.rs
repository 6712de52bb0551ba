//! Character classes, ASCII lowercasing, and splitting of names into raw
//! tokens. Names are split at ASCII whitespace or ASCII punctuation; query
//! strings are split at Unicode whitespace.

use vstd::prelude::*;
use vstd::utf8::*;

verus! {

/// ASCII whitespace: space, tab, line feed, form feed, carriage return.
pub open spec fn is_space(c: char) -> bool {
    let u = c as u32;
    u == 0x20 || u == 0x09 || u == 0x0A || u == 0x0C || u == 0x0D
}

/// ASCII punctuation: the four ranges `!`..`/`, `:`..`@`, `[`..`` ` ``, `{`..`~`.
pub open spec fn is_punct(c: char) -> bool {
    let u = c as u32;
    (0x21 <= u && u <= 0x2F) || (0x3A <= u && u <= 0x40) || (0x5B <= u && u <= 0x60) || (0x7B <= u
        && u <= 0x7E)
}

/// The characters at which object names are split into raw tokens.
pub open spec fn is_separator(c: char) -> bool {
    is_space(c) || is_punct(c)
}

/// The Unicode White_Space class, at which query strings are split: the
/// ASCII whitespace characters plus next line, no-break space, the Ogham
/// space mark, the typographic spaces, the line and paragraph separators,
/// the narrow no-break space, the medium mathematical space, and the
/// ideographic space.
pub open spec fn is_unicode_space(c: char) -> bool {
    let u = c as u32;
    (0x09 <= u && u <= 0x0D) || u == 0x20 || u == 0x85 || u == 0xA0 || u == 0x1680 || (0x2000 <= u
        && u <= 0x200A) || u == 0x2028 || u == 0x2029 || u == 0x202F || u == 0x205F || u == 0x3000
}

/// ASCII lowercasing of one character; everything outside `A`..`Z` is kept.
pub open spec fn lower_char(c: char) -> char {
    if 0x41 <= c as u32 && c as u32 <= 0x5A {
        (c as u32 + 32) as char
    } else {
        c
    }
}

/// ASCII lowercasing of a character sequence.
pub open spec fn lower_seq(s: Seq<char>) -> Seq<char> {
    Seq::new(s.len(), |i: int| lower_char(s[i]))
}

/// The views of a sequence of strings.
pub open spec fn seq_views(v: Seq<String>) -> Seq<Seq<char>> {
    Seq::new(v.len(), |i: int| v[i]@)
}

/// The split class for names: whitespace or punctuation.
pub open spec fn sep_pred() -> spec_fn(char) -> bool {
    |c: char| is_separator(c)
}

/// The split class for query strings: Unicode whitespace.
pub open spec fn uspace_pred() -> spec_fn(char) -> bool {
    |c: char| is_unicode_space(c)
}

/// Splitting a character sequence at every character satisfying `p`,
/// keeping empty fields, exactly as `str::split` does.
pub open spec fn split_on(s: Seq<char>, p: spec_fn(char) -> bool) -> Seq<Seq<char>>
    decreases s.len(),
{
    if s.len() == 0 {
        seq![Seq::<char>::empty()]
    } else if p(s[0]) {
        seq![Seq::<char>::empty()] + split_on(s.drop_first(), p)
    } else {
        let rest = split_on(s.drop_first(), p);
        seq![seq![s[0]] + rest[0]] + rest.drop_first()
    }
}

/// The fields of a split with the empty ones dropped.
pub open spec fn nonempty_fields(fs: Seq<Seq<char>>) -> Seq<Seq<char>> {
    fs.filter(|f: Seq<char>| f.len() != 0)
}

pub proof fn lemma_split_on_len(s: Seq<char>, p: spec_fn(char) -> bool)
    ensures
        split_on(s, p).len() >= 1,
    decreases s.len(),
{
    if s.len() != 0 {
        lemma_split_on_len(s.drop_first(), p);
    }
}

/// A sequence free of split characters is a single field.
pub proof fn lemma_split_on_clean(s: Seq<char>, p: spec_fn(char) -> bool)
    requires
        forall|j: int| 0 <= j < s.len() ==> !p(s[j]),
    ensures
        split_on(s, p) == seq![s],
    decreases s.len(),
{
    if s.len() == 0 {
        assert(s =~= Seq::<char>::empty());
    } else {
        lemma_split_on_clean(s.drop_first(), p);
        assert(seq![s[0]] + s.drop_first() =~= s);
        assert(split_on(s, p) =~= seq![s]);
    }
}

/// Splitting at the first split character: the part before it is the first
/// field, and the rest splits on its own.
pub proof fn lemma_split_on_at_sep(s: Seq<char>, p: spec_fn(char) -> bool, d: int)
    requires
        0 <= d < s.len(),
        p(s[d]),
        forall|j: int| 0 <= j < d ==> !p(s[j]),
    ensures
        split_on(s, p) == seq![s.take(d)] + split_on(s.skip(d + 1), p),
    decreases d,
{
    if d == 0 {
        assert(s.take(0) =~= Seq::<char>::empty());
        assert(s.skip(1) =~= s.drop_first());
        assert(split_on(s, p) =~= seq![s.take(0)] + split_on(s.skip(1), p));
    } else {
        let t = s.drop_first();
        assert(forall|j: int| 0 <= j < d - 1 ==> !p(t[j]));
        lemma_split_on_at_sep(t, p, d - 1);
        lemma_split_on_len(t.skip(d), p);
        assert(seq![s[0]] + t.take(d - 1) =~= s.take(d));
        assert(t.skip(d) =~= s.skip(d + 1));
        assert(split_on(s, p) =~= seq![s.take(d)] + split_on(s.skip(d + 1), p));
    }
}

/// Whether one character is in the name-splitting class.
pub fn char_is_separator(c: char) -> (r: bool)
    ensures
        r == is_separator(c),
{
    let u = c as u32;
    (u == 0x20 || u == 0x09 || u == 0x0A || u == 0x0C || u == 0x0D) || (0x21 <= u && u <= 0x2F) || (
    0x3A <= u && u <= 0x40) || (0x5B <= u && u <= 0x60) || (0x7B <= u && u <= 0x7E)
}

/// Whether one character is Unicode whitespace.
pub fn char_is_unicode_space(c: char) -> (r: bool)
    ensures
        r == is_unicode_space(c),
{
    let u = c as u32;
    (0x09 <= u && u <= 0x0D) || u == 0x20 || u == 0x85 || u == 0xA0 || u == 0x1680 || (0x2000 <= u
        && u <= 0x200A) || u == 0x2028 || u == 0x2029 || u == 0x202F || u == 0x205F || u == 0x3000
}

/// Splits a name at ASCII whitespace or punctuation, keeping empty fields.
pub fn split_name(s: &str) -> (r: Vec<String>)
    ensures
        seq_views(r@) == split_on(s@, sep_pred()),
{
    let n = s.unicode_len();
    let mut r: Vec<String> = Vec::new();
    proof {
        assert(seq_views(r@) =~= Seq::<Seq<char>>::empty());
        assert(s@.skip(0) =~= s@);
        assert(seq_views(r@) + split_on(s@, sep_pred()) =~= split_on(s@, sep_pred()));
    }
    let mut start: usize = 0;
    let mut i: usize = 0;
    while i < n
        invariant
            n == s@.len(),
            0 <= start <= i <= n,
            forall|j: int| start <= j < i ==> !is_separator(s@[j]),
            split_on(s@, sep_pred()) == seq_views(r@) + split_on(
                s@.skip(start as int),
                sep_pred(),
            ),
        decreases n - i,
    {
        if char_is_separator(s.get_char(i)) {
            let tok = String::from_str(s.substring_char(start, i));
            proof {
                let tail = s@.skip(start as int);
                lemma_split_on_at_sep(tail, sep_pred(), i - start);
                assert(tail.take(i - start) =~= s@.subrange(start as int, i as int));
                assert(tail.skip(i - start + 1) =~= s@.skip(i + 1));
                assert(seq_views(r@.push(tok)) =~= seq_views(r@) + seq![tok@]);
                assert(seq_views(r@) + (seq![tail.take(i - start)] + split_on(
                    s@.skip(i + 1),
                    sep_pred(),
                )) =~= (seq_views(r@) + seq![tok@]) + split_on(s@.skip(i + 1), sep_pred()));
            }
            r.push(tok);
            start = i + 1;
        }
        i += 1;
    }
    let tok = String::from_str(s.substring_char(start, n));
    proof {
        let tail = s@.skip(start as int);
        lemma_split_on_clean(tail, sep_pred());
        assert(tail =~= s@.subrange(start as int, n as int));
        assert(seq_views(r@.push(tok)) =~= seq_views(r@) + seq![tok@]);
    }
    r.push(tok);
    r
}

/// Splits a query string at Unicode whitespace, keeping empty fields.
pub fn split_spaces(s: &str) -> (r: Vec<String>)
    ensures
        seq_views(r@) == split_on(s@, uspace_pred()),
{
    let n = s.unicode_len();
    let mut r: Vec<String> = Vec::new();
    proof {
        assert(seq_views(r@) =~= Seq::<Seq<char>>::empty());
        assert(s@.skip(0) =~= s@);
        assert(seq_views(r@) + split_on(s@, uspace_pred()) =~= split_on(s@, uspace_pred()));
    }
    let mut start: usize = 0;
    let mut i: usize = 0;
    while i < n
        invariant
            n == s@.len(),
            0 <= start <= i <= n,
            forall|j: int| start <= j < i ==> !is_unicode_space(s@[j]),
            split_on(s@, uspace_pred()) == seq_views(r@) + split_on(
                s@.skip(start as int),
                uspace_pred(),
            ),
        decreases n - i,
    {
        if char_is_unicode_space(s.get_char(i)) {
            let tok = String::from_str(s.substring_char(start, i));
            proof {
                let tail = s@.skip(start as int);
                lemma_split_on_at_sep(tail, uspace_pred(), i - start);
                assert(tail.take(i - start) =~= s@.subrange(start as int, i as int));
                assert(tail.skip(i - start + 1) =~= s@.skip(i + 1));
                assert(seq_views(r@.push(tok)) =~= seq_views(r@) + seq![tok@]);
                assert(seq_views(r@) + (seq![tail.take(i - start)] + split_on(
                    s@.skip(i + 1),
                    uspace_pred(),
                )) =~= (seq_views(r@) + seq![tok@]) + split_on(s@.skip(i + 1), uspace_pred()));
            }
            r.push(tok);
            start = i + 1;
        }
        i += 1;
    }
    let tok = String::from_str(s.substring_char(start, n));
    proof {
        let tail = s@.skip(start as int);
        lemma_split_on_clean(tail, uspace_pred());
        assert(tail =~= s@.subrange(start as int, n as int));
        assert(seq_views(r@.push(tok)) =~= seq_views(r@) + seq![tok@]);
    }
    r.push(tok);
    r
}

/// ASCII lowercasing of one byte of a UTF-8 encoding. Bytes of multi-byte
/// encodings are all at least `0x80`, so only ASCII letters are touched.
pub open spec fn lower_byte(b: u8) -> u8 {
    if 0x41 <= b && b <= 0x5A {
        (b + 32) as u8
    } else {
        b
    }
}

/// ASCII lowercasing of a byte sequence.
pub open spec fn lower_bytes(bs: Seq<u8>) -> Seq<u8> {
    Seq::new(bs.len(), |i: int| lower_byte(bs[i]))
}

/// Lowercasing commutes with encoding a single scalar.
proof fn lemma_lower_scalar(c: char)
    ensures
        lower_bytes(encode_scalar(c as u32)) == encode_scalar(lower_char(c) as u32),
{
    char_is_scalar(c);
    let u = c as u32;
    if has_width_1_encoding(u) {
        let b1 = leading_byte_width_1(u);
        assert(b1 == u as u8) by (bit_vector)
            requires
                u <= 0x7F && b1 == (u & 0x7F) as u8,
        ;
        if 0x41 <= u && u <= 0x5A {
            let l = lower_char(c);
            assert(l as u32 == u + 32);
            let lb = leading_byte_width_1(l as u32);
            assert(lb == (b1 + 32) as u8) by (bit_vector)
                requires
                    0x41 <= u && u <= 0x5A && b1 == (u & 0x7F) as u8 && lb == ((u + 32) as u32
                        & 0x7F) as u8,
            ;
            assert(lower_bytes(encode_scalar(u)) =~= seq![lower_byte(b1)]);
            assert(encode_scalar(l as u32) =~= seq![lb]);
        } else {
            assert(!(0x41 <= b1 && b1 <= 0x5A)) by (bit_vector)
                requires
                    u <= 0x7F && !(0x41 <= u && u <= 0x5A) && b1 == (u & 0x7F) as u8,
            ;
            assert(lower_bytes(encode_scalar(u)) =~= seq![b1]);
        }
    } else {
        assert(lower_char(c) == c);
        if has_width_2_encoding(u) {
            let b1 = leading_byte_width_2(u);
            let b2 = last_continuation_byte(u);
            assert(b1 >= 0xC0 && b2 >= 0x80) by (bit_vector)
                requires
                    b1 == 0xC0 | ((u >> 6) & 0x1F) as u8 && b2 == 0x80 | (u & 0x3F) as u8,
            ;
            assert(lower_bytes(encode_scalar(u)) =~= seq![b1, b2]);
        } else if has_width_3_encoding(u) {
            let b1 = leading_byte_width_3(u);
            let b2 = second_last_continuation_byte(u);
            let b3 = last_continuation_byte(u);
            assert(b1 >= 0xC0 && b2 >= 0x80 && b3 >= 0x80) by (bit_vector)
                requires
                    b1 == 0xE0 | ((u >> 12) & 0x0F) as u8 && b2 == 0x80 | ((u >> 6) & 0x3F) as u8
                        && b3 == 0x80 | (u & 0x3F) as u8,
            ;
            assert(lower_bytes(encode_scalar(u)) =~= seq![b1, b2, b3]);
        } else {
            let b1 = leading_byte_width_4(u);
            let b2 = third_last_continuation_byte(u);
            let b3 = second_last_continuation_byte(u);
            let b4 = last_continuation_byte(u);
            assert(b1 >= 0xC0 && b2 >= 0x80 && b3 >= 0x80 && b4 >= 0x80) by (bit_vector)
                requires
                    b1 == 0xF0 | ((u >> 18) & 0x7) as u8 && b2 == 0x80 | ((u >> 12) & 0x3F) as u8
                        && b3 == 0x80 | ((u >> 6) & 0x3F) as u8 && b4 == 0x80 | (u & 0x3F) as u8,
            ;
            assert(lower_bytes(encode_scalar(u)) =~= seq![b1, b2, b3, b4]);
        }
    }
}

/// Lowercasing commutes with UTF-8 encoding.
proof fn lemma_lower_encode(s: Seq<char>)
    ensures
        lower_bytes(encode_utf8(s)) == encode_utf8(lower_seq(s)),
    decreases s.len(),
{
    if s.len() == 0 {
        assert(lower_seq(s) =~= Seq::<char>::empty());
        assert(lower_bytes(encode_utf8(s)) =~= encode_utf8(lower_seq(s)));
    } else {
        let c = s[0];
        let rest = s.drop_first();
        lemma_lower_encode(rest);
        lemma_lower_scalar(c);
        let head = encode_scalar(c as u32);
        let tail = encode_utf8(rest);
        assert(lower_bytes(head + tail) =~= lower_bytes(head) + lower_bytes(tail));
        assert(lower_seq(s) =~= seq![lower_char(c)] + lower_seq(rest));
        assert(encode_utf8(seq![lower_char(c)] + lower_seq(rest)) == encode_scalar(
            lower_char(c) as u32,
        ) + encode_utf8((seq![lower_char(c)] + lower_seq(rest)).drop_first()));
        assert((seq![lower_char(c)] + lower_seq(rest)).drop_first() =~= lower_seq(rest));
    }
}

/// Whether two texts are equal, compared character by character.
pub(crate) fn str_eq(a: &str, b: &str) -> (r: bool)
    ensures
        r == (a@ == b@),
{
    let n = a.unicode_len();
    let m = b.unicode_len();
    if n != m {
        proof {
            if a@ == b@ {
                assert(a@.len() == b@.len());
            }
        }
        return false;
    }
    let mut i: usize = 0;
    while i < n
        invariant
            n == a@.len(),
            n == b@.len(),
            0 <= i <= n,
            forall|j: int| 0 <= j < i ==> a@[j] == b@[j],
        decreases n - i,
    {
        if a.get_char(i) != b.get_char(i) {
            proof {
                if a@ == b@ {
                    assert(a@[i as int] == b@[i as int]);
                }
            }
            return false;
        }
        i += 1;
    }
    proof {
        assert(a@ =~= b@);
    }
    true
}

/// A sequence of bytes below `0x80` is valid UTF-8 and decodes byte by byte.
pub proof fn lemma_ascii_bytes_decode(bs: Seq<u8>)
    requires
        forall|i: int| 0 <= i < bs.len() ==> bs[i] < 0x80,
    ensures
        valid_utf8(bs),
        decode_utf8(bs) == Seq::new(bs.len(), |i: int| bs[i] as char),
{
    let cs = Seq::new(bs.len(), |i: int| bs[i] as char);
    assert(forall|i: int| 0 <= i < cs.len() ==> (#[trigger] cs[i]) as u32 == bs[i]);
    assert(is_ascii_chars(cs));
    is_ascii_chars_encode_utf8(cs);
    assert(encode_utf8(cs) =~= bs);
    encode_utf8_valid_utf8(cs);
    encode_utf8_decode_utf8(cs);
}

/// Relies on `String::from_utf8`: building a string from the bytes of a
/// valid UTF-8 encoding yields exactly the string those bytes encode.
#[verifier::external_body]
pub(crate) fn string_from_utf8(v: Vec<u8>) -> (r: String)
    requires
        valid_utf8(v@),
    ensures
        encode_utf8(r@) == v@,
{
    match String::from_utf8(v) {
        Ok(s) => s,
        Err(_) => String::new(),
    }
}

/// Relies on `String::from_utf8`: building a string from bytes succeeds
/// exactly on valid UTF-8 and yields the string those bytes encode.
#[verifier::external_body]
pub(crate) fn string_from_utf8_opt(v: Vec<u8>) -> (r: Option<String>)
    ensures
        match r {
            Some(s) => valid_utf8(v@) && encode_utf8(s@) == v@,
            None => !valid_utf8(v@),
        },
{
    String::from_utf8(v).ok()
}

/// ASCII lowercasing of a string; characters outside `A`..`Z` are kept.
pub fn lowercase(s: &str) -> (r: String)
    ensures
        r@ == lower_seq(s@),
{
    let bs = s.as_bytes_vec();
    let mut out: Vec<u8> = Vec::new();
    let n = bs.len();
    let mut i: usize = 0;
    while i < n
        invariant
            n == bs@.len(),
            0 <= i <= n,
            bs@ == encode_utf8(s@),
            out@ == lower_bytes(bs@.take(i as int)),
        decreases n - i,
    {
        let b = bs[i];
        let nb: u8 = if 0x41 <= b && b <= 0x5A {
            b + 32
        } else {
            b
        };
        proof {
            assert(lower_bytes(bs@.take(i + 1)) =~= lower_bytes(bs@.take(i as int)).push(
                lower_byte(bs@[i as int]),
            ));
        }
        out.push(nb);
        i += 1;
    }
    proof {
        assert(bs@.take(n as int) =~= bs@);
        lemma_lower_encode(s@);
        encode_utf8_valid_utf8(lower_seq(s@));
    }
    let r = string_from_utf8(out);
    proof {
        encode_utf8_decode_utf8(r@);
        encode_utf8_decode_utf8(lower_seq(s@));
    }
    r
}

/// Keeps only the non-empty strings, in order.
pub fn retain_nonempty(v: Vec<String>) -> (r: Vec<String>)
    ensures
        seq_views(r@) == nonempty_fields(seq_views(v@)),
{
    let mut r: Vec<String> = Vec::new();
    let mut i: usize = 0;
    while i < v.len()
        invariant
            0 <= i <= v@.len(),
            seq_views(r@) == nonempty_fields(seq_views(v@).take(i as int)),
        decreases v@.len() - i,
    {
        let keep = !v[i].as_str().is_empty();
        proof {
            let pred = |f: Seq<char>| f.len() != 0;
            let pre = seq_views(v@).take(i as int);
            let one = seq![v@[i as int]@];
            Seq::filter_distributes_over_add(pre, one, pred);
            reveal_with_fuel(Seq::<_>::filter, 2);
            assert(pre + one =~= seq_views(v@).take(i + 1));
            if pred(v@[i as int]@) {
                assert(one.filter(pred) =~= seq![v@[i as int]@]);
            } else {
                assert(one.filter(pred) =~= Seq::<Seq<char>>::empty());
            }
        }
        if keep {
            let tok = String::from_str(v[i].as_str());
            proof {
                assert(seq_views(r@.push(tok)) =~= seq_views(r@).push(tok@));
            }
            r.push(tok);
        }
        i += 1;
    }
    proof {
        assert(seq_views(v@).take(v@.len() as int) =~= seq_views(v@));
    }
    r
}

} // verus!
