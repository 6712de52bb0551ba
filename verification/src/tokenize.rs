//! The UUID-aware tokenizer for object keys. A key is `UUID "/" Name`: 36
//! characters of canonical UUID, one separator character, and an arbitrary
//! name. The name is split at ASCII whitespace or punctuation and empty
//! tokens are dropped.

use vstd::prelude::*;
use vstd::utf8::*;

use crate::error::ErrorKind;
use crate::text::{
    lower_seq, nonempty_fields, retain_nonempty, sep_pred, seq_views, split_name, split_on,
};

verus! {

/// An ASCII hex digit, either case.
pub open spec fn is_hex_digit(c: char) -> bool {
    let u = c as u32;
    (0x30 <= u && u <= 0x39) || (0x41 <= u && u <= 0x46) || (0x61 <= u && u <= 0x66)
}

/// What position `i` of a canonical UUID must hold: a hyphen at 8, 13, 18
/// and 23, a hex digit everywhere else.
pub open spec fn uuid_position_ok(c: char, i: int) -> bool {
    if i == 8 || i == 13 || i == 18 || i == 23 {
        c == '-'
    } else {
        is_hex_digit(c)
    }
}

/// The canonical hyphenated UUID form: 36 characters in five hex groups.
pub open spec fn is_canonical_uuid(u: Seq<char>) -> bool {
    u.len() == 36 && forall|i: int| 0 <= i < 36 ==> uuid_position_ok(#[trigger] u[i], i)
}

/// A well-formed object key: at least 37 characters, the first 36 of them a
/// canonical UUID. The 37th character is the separator and is not examined.
pub open spec fn valid_key(k: Seq<char>) -> bool {
    k.len() >= 37 && is_canonical_uuid(k.take(36))
}

/// The name part of a key: everything after the UUID and the separator.
pub open spec fn key_name(k: Seq<char>) -> Seq<char> {
    k.skip(37)
}

/// The raw tokens of a key: the name split at whitespace or punctuation,
/// with empty tokens dropped.
pub open spec fn key_tokens(k: Seq<char>) -> Seq<Seq<char>> {
    nonempty_fields(split_on(key_name(k), sep_pred()))
}

/// The normalized tokens of a key: its raw tokens, case-folded.
pub open spec fn key_norm_tokens(k: Seq<char>) -> Seq<Seq<char>> {
    Seq::new(key_tokens(k).len(), |i: int| lower_seq(key_tokens(k)[i]))
}

/// Whether one character is an ASCII hex digit.
pub fn char_is_hex_digit(c: char) -> (r: bool)
    ensures
        r == is_hex_digit(c),
{
    let u = c as u32;
    (0x30 <= u && u <= 0x39) || (0x41 <= u && u <= 0x46) || (0x61 <= u && u <= 0x66)
}

/// Splits a key's name into its raw tokens. Keys shorter than 37 characters,
/// or whose first 36 characters are not a canonical UUID, are rejected as
/// invalid; this holds exactly of the malformed keys. The returned tokens do
/// not include the UUID prefix.
pub fn tokenize_object_key(key: &str) -> (r: Result<Vec<String>, ErrorKind>)
    ensures
        r is Ok <==> valid_key(key@),
        match r {
            Ok(toks) => seq_views(toks@) == key_tokens(key@),
            Err(e) => e == ErrorKind::Invalid,
        },
{
    let n = key.unicode_len();
    if n < 37 {
        return Err(ErrorKind::Invalid);
    }
    let mut i: usize = 0;
    while i < 36
        invariant
            n == key@.len(),
            n >= 37,
            0 <= i <= 36,
            forall|j: int| 0 <= j < i ==> uuid_position_ok(#[trigger] key@[j], j),
        decreases 36 - i,
    {
        let c = key.get_char(i);
        let ok: bool = if i == 8 || i == 13 || i == 18 || i == 23 {
            c == '-'
        } else {
            char_is_hex_digit(c)
        };
        if !ok {
            proof {
                assert(key@.take(36)[i as int] == key@[i as int]);
            }
            return Err(ErrorKind::Invalid);
        }
        i += 1;
    }
    proof {
        assert(forall|j: int| 0 <= j < 36 ==> key@.take(36)[j] == key@[j]);
        assert(is_canonical_uuid(key@.take(36)));
    }
    let name = key.substring_char(37, n);
    let fields = split_name(name);
    proof {
        assert(name@ =~= key_name(key@));
    }
    Ok(retain_nonempty(fields))
}

/// The UTF-8 encoding of a sequence has at least one byte per character.
pub proof fn lemma_encode_len_ge(s: Seq<char>)
    ensures
        encode_utf8(s).len() >= s.len(),
    decreases s.len(),
{
    if s.len() != 0 {
        lemma_encode_len_ge(s.drop_first());
    }
}

/// A key shorter than 37 bytes is shorter than 37 characters, so it is not a
/// well-formed key and the tokenizer rejects it by its contract.
pub proof fn lemma_short_key_invalid(k: Seq<char>)
    requires
        encode_utf8(k).len() < 37,
    ensures
        !valid_key(k),
{
    lemma_encode_len_ge(k);
}

} // verus!
