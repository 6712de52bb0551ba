//! Form-url-encoding of byte strings (the `application/x-www-form-urlencoded`
//! byte serializer): `*`, `-`, `.`, `_`, digits and ASCII letters stay, a
//! space becomes `+`, and every other byte becomes `%` and two uppercase hex
//! digits. Decoding inverts it; the two are proved inverse.

use vstd::prelude::*;

verus! {

/// The bytes a form-url-encoder keeps unchanged.
pub open spec fn is_unreserved(b: u8) -> bool {
    (0x30 <= b && b <= 0x39) || (0x41 <= b && b <= 0x5A) || (0x61 <= b && b <= 0x7A) || b == 0x2A
        || b == 0x2D || b == 0x2E || b == 0x5F
}

/// One uppercase hex digit for a value below 16.
pub open spec fn hex_upper(v: u8) -> u8 {
    if v < 10 {
        (0x30 + v) as u8
    } else {
        (0x37 + v) as u8
    }
}

/// The encoding of one byte.
pub open spec fn enc_byte(b: u8) -> Seq<u8> {
    if is_unreserved(b) {
        seq![b]
    } else if b == 0x20 {
        seq![0x2Bu8]
    } else {
        seq![0x25u8, hex_upper(b / 16), hex_upper(b % 16)]
    }
}

/// The encoding of a byte string.
pub open spec fn enc_bytes(bs: Seq<u8>) -> Seq<u8>
    decreases bs.len(),
{
    if bs.len() == 0 {
        Seq::<u8>::empty()
    } else {
        enc_byte(bs[0]) + enc_bytes(bs.drop_first())
    }
}

/// The value of one hex digit byte, either case.
pub open spec fn hex_val(b: u8) -> Option<u8> {
    if 0x30 <= b && b <= 0x39 {
        Some((b - 0x30) as u8)
    } else if 0x41 <= b && b <= 0x46 {
        Some((b - 0x37) as u8)
    } else if 0x61 <= b && b <= 0x66 {
        Some((b - 0x57) as u8)
    } else {
        None
    }
}

/// The decoding of an encoded byte string: `+` back to space, `%` and two
/// hex digits back to one byte, anything else kept; a `%` without two hex
/// digits fails.
pub open spec fn dec_bytes(bs: Seq<u8>) -> Option<Seq<u8>>
    decreases bs.len(),
{
    if bs.len() == 0 {
        Some(Seq::<u8>::empty())
    } else if bs[0] == 0x2B {
        match dec_bytes(bs.drop_first()) {
            Some(r) => Some(seq![0x20u8] + r),
            None => None,
        }
    } else if bs[0] == 0x25 {
        if bs.len() >= 3 && hex_val(bs[1]) is Some && hex_val(bs[2]) is Some {
            match dec_bytes(bs.skip(3)) {
                Some(r) => Some(
                    seq![(hex_val(bs[1]).unwrap() * 16 + hex_val(bs[2]).unwrap()) as u8] + r,
                ),
                None => None,
            }
        } else {
            None
        }
    } else {
        match dec_bytes(bs.drop_first()) {
            Some(r) => Some(seq![bs[0]] + r),
            None => None,
        }
    }
}

/// Encoding distributes over concatenation.
pub proof fn lemma_enc_concat(a: Seq<u8>, b: Seq<u8>)
    ensures
        enc_bytes(a + b) == enc_bytes(a) + enc_bytes(b),
    decreases a.len(),
{
    if a.len() == 0 {
        assert(a + b =~= b);
        assert(enc_bytes(a) + enc_bytes(b) =~= enc_bytes(b));
    } else {
        lemma_enc_concat(a.drop_first(), b);
        assert((a + b).drop_first() =~= a.drop_first() + b);
        assert(enc_bytes(a + b) =~= enc_bytes(a) + enc_bytes(b));
    }
}

/// Every encoded byte is ASCII and is neither `&`, `=`, nor `%` except as
/// an escape lead; in particular the separators of a magnet query never
/// occur inside an encoded value.
pub proof fn lemma_enc_bytes_clean(bs: Seq<u8>)
    ensures
        forall|i: int|
            0 <= i < enc_bytes(bs).len() ==> (#[trigger] enc_bytes(bs)[i]) < 0x80 && enc_bytes(
                bs,
            )[i] != 0x26 && enc_bytes(bs)[i] != 0x3D,
    decreases bs.len(),
{
    if bs.len() != 0 {
        lemma_enc_bytes_clean(bs.drop_first());
        let head = enc_byte(bs[0]);
        assert(forall|i: int|
            0 <= i < head.len() ==> (#[trigger] head[i]) < 0x80 && head[i] != 0x26 && head[i]
                != 0x3D);
        assert(forall|i: int|
            0 <= i < enc_bytes(bs).len() ==> enc_bytes(bs)[i] == (if i < head.len() {
                head[i]
            } else {
                enc_bytes(bs.drop_first())[i - head.len()]
            }));
    }
}

/// Decoding inverts encoding.
pub proof fn lemma_dec_enc(bs: Seq<u8>)
    ensures
        dec_bytes(enc_bytes(bs)) == Some(bs),
    decreases bs.len(),
{
    if bs.len() == 0 {
        assert(dec_bytes(enc_bytes(bs)) == Some(Seq::<u8>::empty()));
        assert(Seq::<u8>::empty() =~= bs);
    } else {
        let b = bs[0];
        let rest = bs.drop_first();
        lemma_dec_enc(rest);
        let e = enc_bytes(bs);
        assert(e =~= enc_byte(b) + enc_bytes(rest));
        if is_unreserved(b) {
            assert(b != 0x2B && b != 0x25);
            assert(e.drop_first() =~= enc_bytes(rest));
            assert(seq![b] + rest =~= bs);
        } else if b == 0x20 {
            assert(e[0] == 0x2B);
            assert(e.drop_first() =~= enc_bytes(rest));
            assert(seq![0x20u8] + rest =~= bs);
        } else {
            let hi = hex_upper(b / 16);
            let lo = hex_upper(b % 16);
            assert(e[0] == 0x25 && e[1] == hi && e[2] == lo);
            assert(hex_val(hi) == Some((b / 16) as u8));
            assert(hex_val(lo) == Some((b % 16) as u8));
            assert(e.skip(3) =~= enc_bytes(rest));
            assert((b / 16) * 16 + (b % 16) == b) by (nonlinear_arith);
            assert(seq![b] + rest =~= bs);
        }
    }
}

/// One uppercase hex digit, executable.
fn hex_upper_byte(v: u8) -> (r: u8)
    requires
        v < 16,
    ensures
        r == hex_upper(v),
{
    if v < 10 {
        0x30 + v
    } else {
        0x37 + v
    }
}

/// The value of one hex digit byte, executable.
fn hex_val_byte(b: u8) -> (r: Option<u8>)
    ensures
        r == hex_val(b),
{
    if 0x30 <= b && b <= 0x39 {
        Some(b - 0x30)
    } else if 0x41 <= b && b <= 0x46 {
        Some(b - 0x37)
    } else if 0x61 <= b && b <= 0x66 {
        Some(b - 0x57)
    } else {
        None
    }
}

/// Appends the encoding of `bs` to `out`.
pub fn enc_append(out: &mut Vec<u8>, bs: &Vec<u8>)
    ensures
        final(out)@ == old(out)@ + enc_bytes(bs@),
{
    let n = bs.len();
    let mut i: usize = 0;
    proof {
        assert(bs@.take(0) =~= Seq::<u8>::empty());
        assert(old(out)@ + enc_bytes(bs@.take(0)) =~= old(out)@);
    }
    while i < n
        invariant
            0 <= i <= n,
            n == bs@.len(),
            out@ == old(out)@ + enc_bytes(bs@.take(i as int)),
        decreases n - i,
    {
        let b = bs[i];
        proof {
            assert(bs@.take(i + 1) =~= bs@.take(i as int) + seq![bs@[i as int]]);
            lemma_enc_concat(bs@.take(i as int), seq![bs@[i as int]]);
            assert(seq![bs@[i as int]].drop_first() =~= Seq::<u8>::empty());
            assert(enc_bytes(seq![bs@[i as int]]) =~= enc_byte(bs@[i as int]) + enc_bytes(
                Seq::<u8>::empty(),
            ));
            assert(enc_bytes(seq![bs@[i as int]]) =~= enc_byte(bs@[i as int]));
        }
        if (0x30 <= b && b <= 0x39) || (0x41 <= b && b <= 0x5A) || (0x61 <= b && b <= 0x7A) || b
            == 0x2A || b == 0x2D || b == 0x2E || b == 0x5F {
            out.push(b);
            proof {
                assert(out@ =~= old(out)@ + enc_bytes(bs@.take(i + 1)));
            }
        } else if b == 0x20 {
            out.push(0x2B);
            proof {
                assert(out@ =~= old(out)@ + enc_bytes(bs@.take(i + 1)));
            }
        } else {
            out.push(0x25);
            out.push(hex_upper_byte(b / 16));
            out.push(hex_upper_byte(b % 16));
            proof {
                assert(out@ =~= old(out)@ + enc_bytes(bs@.take(i + 1)));
            }
        }
        i += 1;
    }
    proof {
        assert(bs@.take(n as int) =~= bs@);
    }
}

/// Decodes a form-url-encoded byte string; a stray escape fails, exactly as
/// the decoding specification says.
pub fn dec_vec(bs: &Vec<u8>) -> (r: Option<Vec<u8>>)
    ensures
        match r {
            Some(v) => dec_bytes(bs@) == Some(v@),
            None => dec_bytes(bs@) is None,
        },
{
    let n = bs.len();
    let mut out: Vec<u8> = Vec::new();
    let mut i: usize = 0;
    proof {
        assert(bs@.skip(0) =~= bs@);
        assert forall|rest: Seq<u8>| true implies Seq::<u8>::empty() + rest =~= rest by {}
        match dec_bytes(bs@) {
            Some(rest) => {
                assert(Seq::<u8>::empty() + rest =~= rest);
            },
            None => {},
        }
    }
    while i < n
        invariant
            0 <= i <= n,
            n == bs@.len(),
            dec_bytes(bs@) == (match dec_bytes(bs@.skip(i as int)) {
                Some(rest) => Some(out@ + rest),
                None => None,
            }),
        decreases n - i,
    {
        let ghost tail = bs@.skip(i as int);
        proof {
            assert(tail[0] == bs@[i as int]);
            assert(tail.drop_first() =~= bs@.skip(i + 1));
        }
        let b = bs[i];
        if b == 0x2B {
            out.push(0x20);
            proof {
                assert forall|rest: Seq<u8>|
                    dec_bytes(bs@.skip(i + 1)) == Some(rest) implies out@ + rest =~= (out@.drop_last()
                    + (seq![0x20u8] + rest)) by {}
                match dec_bytes(bs@.skip(i + 1)) {
                    Some(rest) => {
                        assert(dec_bytes(tail) == Some(seq![0x20u8] + rest));
                        assert(out@.drop_last() + (seq![0x20u8] + rest) =~= out@ + rest);
                    },
                    None => {
                        assert(dec_bytes(tail) is None);
                    },
                }
            }
            i += 1;
        } else if b == 0x25 {
            if n - i > 2 {
                let h1 = hex_val_byte(bs[i + 1]);
                let h2 = hex_val_byte(bs[i + 2]);
                proof {
                    assert(tail.len() >= 3);
                    assert(tail[1] == bs@[i + 1]);
                    assert(tail[2] == bs@[i + 2]);
                    assert(tail.skip(3) =~= bs@.skip(i + 3));
                }
                match (h1, h2) {
                    (Some(v1), Some(v2)) => {
                        let decoded: u8 = v1 * 16 + v2;
                        out.push(decoded);
                        proof {
                            match dec_bytes(bs@.skip(i + 3)) {
                                Some(rest) => {
                                    assert(dec_bytes(tail) == Some(seq![decoded] + rest));
                                    assert(out@.drop_last() + (seq![decoded] + rest) =~= out@
                                        + rest);
                                },
                                None => {
                                    assert(dec_bytes(tail) is None);
                                },
                            }
                        }
                        i += 3;
                    },
                    _ => {
                        proof {
                            assert(dec_bytes(tail) is None);
                        }
                        return None;
                    },
                }
            } else {
                proof {
                    if tail.len() >= 3 {
                        assert(false);
                    }
                    assert(dec_bytes(tail) is None);
                }
                return None;
            }
        } else {
            out.push(b);
            proof {
                match dec_bytes(bs@.skip(i + 1)) {
                    Some(rest) => {
                        assert(dec_bytes(tail) == Some(seq![b] + rest));
                        assert(out@.drop_last() + (seq![b] + rest) =~= out@ + rest);
                    },
                    None => {
                        assert(dec_bytes(tail) is None);
                    },
                }
            }
            i += 1;
        }
    }
    proof {
        assert(bs@.skip(n as int) =~= Seq::<u8>::empty());
        assert(out@ + Seq::<u8>::empty() =~= out@);
    }
    Some(out)
}

} // verus!
