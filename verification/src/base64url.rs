//! Unpadded URL-safe base64, the framing of both halves of a signed
//! token.  The encoder's image is characterised exactly: decoding is
//! proved to invert encoding, and a decoded result always re-encodes to
//! the input, so the codec accepts canonical encodings only.

use vstd::prelude::*;

verus! {

/// The alphabet: `A`-`Z`, `a`-`z`, `0`-`9`, `-`, `_`.
pub open spec fn b64_char(n: int) -> u8 {
    if n < 26 {
        (0x41 + n) as u8
    } else if n < 52 {
        (0x61 + (n - 26)) as u8
    } else if n < 62 {
        (0x30 + (n - 52)) as u8
    } else if n == 62 {
        0x2D
    } else {
        0x5F
    }
}

/// The value of an alphabet byte, `-1` outside the alphabet.
pub open spec fn b64_val(b: u8) -> int {
    if 0x41 <= b && b <= 0x5A {
        b - 0x41
    } else if 0x61 <= b && b <= 0x7A {
        b - 0x61 + 26
    } else if 0x30 <= b && b <= 0x39 {
        b - 0x30 + 52
    } else if b == 0x2D {
        62
    } else if b == 0x5F {
        63
    } else {
        -1
    }
}

pub open spec fn enc3(b0: u8, b1: u8, b2: u8) -> Seq<u8> {
    seq![
        b64_char((b0 >> 2) as int),
        b64_char((((b0 & 3) << 4) | (b1 >> 4)) as int),
        b64_char((((b1 & 15) << 2) | (b2 >> 6)) as int),
        b64_char((b2 & 63) as int),
    ]
}

pub open spec fn enc2(b0: u8, b1: u8) -> Seq<u8> {
    seq![
        b64_char((b0 >> 2) as int),
        b64_char((((b0 & 3) << 4) | (b1 >> 4)) as int),
        b64_char(((b1 & 15) << 2) as int),
    ]
}

pub open spec fn enc1(b0: u8) -> Seq<u8> {
    seq![b64_char((b0 >> 2) as int), b64_char(((b0 & 3) << 4) as int)]
}

/// The unpadded base64url encoding of a byte sequence, as the sequence
/// of the encoding's own bytes.
pub open spec fn b64_encode_bytes(s: Seq<u8>) -> Seq<u8>
    decreases s.len(),
{
    if s.len() >= 3 {
        enc3(s[0], s[1], s[2]) + b64_encode_bytes(s.skip(3))
    } else if s.len() == 2 {
        enc2(s[0], s[1])
    } else if s.len() == 1 {
        enc1(s[0])
    } else {
        Seq::empty()
    }
}

/// Encoding appends group-wise: a whole number of 3-byte groups in front
/// encodes independently of what follows.
proof fn lemma_enc_append(a: Seq<u8>, t: Seq<u8>)
    requires
        a.len() % 3 == 0,
    ensures
        b64_encode_bytes(a + t) == b64_encode_bytes(a) + b64_encode_bytes(t),
    decreases a.len(),
{
    if a.len() == 0 {
        assert(a + t =~= t);
        assert(b64_encode_bytes(a) + b64_encode_bytes(t) =~= b64_encode_bytes(t));
    } else {
        let u = a + t;
        assert(u.len() >= 3);
        assert(u[0] == a[0] && u[1] == a[1] && u[2] == a[2]);
        assert(u.skip(3) =~= a.skip(3) + t);
        lemma_enc_append(a.skip(3), t);
        assert(b64_encode_bytes(a) == enc3(a[0], a[1], a[2]) + b64_encode_bytes(a.skip(3)));
        assert(b64_encode_bytes(u) =~= b64_encode_bytes(a) + b64_encode_bytes(t));
    }
}

proof fn lemma_shift_bounds(b0: u8, b1: u8, b2: u8)
    by (bit_vector)
    ensures
        (b0 >> 2) < 64,
        (((b0 & 3) << 4) | (b1 >> 4)) < 64,
        (((b1 & 15) << 2) | (b2 >> 6)) < 64,
        (b2 & 63) < 64,
        ((b0 & 3) << 4) < 64,
        ((b1 & 15) << 2) < 64,
{
}

/// Recovering three bytes from the four 6-bit values of their encoding.
proof fn lemma_unpack3(v0: u8, v1: u8, v2: u8, v3: u8, x: u8, y: u8, z: u8)
    by (bit_vector)
    requires
        v0 < 64,
        v1 < 64,
        v2 < 64,
        v3 < 64,
        x == (v0 << 2) | (v1 >> 4),
        y == ((v1 & 15) << 4) | (v2 >> 2),
        z == ((v2 & 3) << 6) | v3,
    ensures
        (x >> 2) == v0,
        (((x & 3) << 4) | (y >> 4)) == v1,
        (((y & 15) << 2) | (z >> 6)) == v2,
        (z & 63) == v3,
{
}

/// Recovering two bytes from a canonical 3-value tail.
proof fn lemma_unpack2(v0: u8, v1: u8, v2: u8, x: u8, y: u8)
    by (bit_vector)
    requires
        v0 < 64,
        v1 < 64,
        v2 < 64,
        v2 & 3 == 0,
        x == (v0 << 2) | (v1 >> 4),
        y == ((v1 & 15) << 4) | (v2 >> 2),
    ensures
        (x >> 2) == v0,
        (((x & 3) << 4) | (y >> 4)) == v1,
        ((y & 15) << 2) == v2,
{
}

/// Recovering one byte from a canonical 2-value tail.
proof fn lemma_unpack1(v0: u8, v1: u8, x: u8)
    by (bit_vector)
    requires
        v0 < 64,
        v1 < 64,
        v1 & 15 == 0,
        x == (v0 << 2) | (v1 >> 4),
    ensures
        (x >> 2) == v0,
        ((x & 3) << 4) == v1,
{
}

/// The alphabet map and its inverse agree.
proof fn lemma_char_val(n: int)
    requires
        0 <= n < 64,
    ensures
        b64_val(b64_char(n)) == n,
{
}

proof fn lemma_val_char(b: u8)
    requires
        b64_val(b) != -1,
    ensures
        0 <= b64_val(b) < 64,
        b64_char(b64_val(b)) == b,
{
}

fn b64_char_of(n: u8) -> (r: u8)
    requires
        n < 64,
    ensures
        r == b64_char(n as int),
{
    if n < 26 {
        0x41 + n
    } else if n < 52 {
        0x61 + (n - 26)
    } else if n < 62 {
        0x30 + (n - 52)
    } else if n == 62 {
        0x2D
    } else {
        0x5F
    }
}

fn b64_val_of(b: u8) -> (r: Option<u8>)
    ensures
        match r {
            Option::Some(v) => b64_val(b) == v as int && v < 64,
            Option::None => b64_val(b) == -1,
        },
{
    if 0x41 <= b && b <= 0x5A {
        Option::Some(b - 0x41)
    } else if 0x61 <= b && b <= 0x7A {
        Option::Some(b - 0x61 + 26)
    } else if 0x30 <= b && b <= 0x39 {
        Option::Some(b - 0x30 + 52)
    } else if b == 0x2D {
        Option::Some(62)
    } else if b == 0x5F {
        Option::Some(63)
    } else {
        Option::None
    }
}

/// Encodes a byte sequence as unpadded base64url.
pub fn b64_encode(s: &[u8]) -> (r: Vec<u8>)
    ensures
        r@ == b64_encode_bytes(s@),
{
    let n = s.len();
    let mut out: Vec<u8> = Vec::new();
    let mut i: usize = 0;
    proof {
        assert(s@.skip(0) =~= s@);
        assert(out@ + b64_encode_bytes(s@.skip(0)) =~= b64_encode_bytes(s@));
    }
    while n - i >= 3
        invariant
            n == s@.len(),
            i <= n,
            i % 3 == 0,
            out@ + b64_encode_bytes(s@.skip(i as int)) == b64_encode_bytes(s@),
        decreases n - i,
    {
        let b0 = s[i];
        let b1 = s[i + 1];
        let b2 = s[i + 2];
        proof {
            lemma_shift_bounds(b0, b1, b2);
        }
        let ghost out0 = out@;
        out.push(b64_char_of(b0 >> 2));
        out.push(b64_char_of(((b0 & 3) << 4) | (b1 >> 4)));
        out.push(b64_char_of(((b1 & 15) << 2) | (b2 >> 6)));
        out.push(b64_char_of(b2 & 63));
        proof {
            let rest = s@.skip(i as int);
            assert(rest[0] == b0 && rest[1] == b1 && rest[2] == b2);
            assert(rest.skip(3) =~= s@.skip(i + 3));
            assert(out@ =~= out0 + enc3(b0, b1, b2));
            assert(b64_encode_bytes(rest) == enc3(b0, b1, b2) + b64_encode_bytes(rest.skip(3)));
            assert(out@ + b64_encode_bytes(s@.skip(i + 3)) =~= out0 + b64_encode_bytes(rest));
        }
        i += 3;
    }
    let ghost out0 = out@;
    let ghost rest = s@.skip(i as int);
    if n - i == 1 {
        let b0 = s[i];
        proof {
            lemma_shift_bounds(b0, 0, 0);
        }
        out.push(b64_char_of(b0 >> 2));
        out.push(b64_char_of((b0 & 3) << 4));
        proof {
            assert(rest.len() == 1 && rest[0] == b0);
            assert(out@ =~= out0 + enc1(b0));
        }
    } else if n - i == 2 {
        let b0 = s[i];
        let b1 = s[i + 1];
        proof {
            lemma_shift_bounds(b0, b1, 0);
        }
        out.push(b64_char_of(b0 >> 2));
        out.push(b64_char_of(((b0 & 3) << 4) | (b1 >> 4)));
        out.push(b64_char_of((b1 & 15) << 2));
        proof {
            assert(rest.len() == 2 && rest[0] == b0 && rest[1] == b1);
            assert(out@ =~= out0 + enc2(b0, b1));
        }
    } else {
        proof {
            assert(rest.len() == 0);
            assert(out@ =~= out0 + b64_encode_bytes(rest));
        }
    }
    out
}

/// Decodes unpadded base64url.  Exactly the encoder's outputs are
/// accepted: a decoded value re-encodes to the input, and every encoded
/// sequence decodes back to what was encoded.
pub fn b64_decode(s: &[u8]) -> (r: Option<Vec<u8>>)
    ensures
        (match r {
            Option::Some(d) => s@ == b64_encode_bytes(d@),
            Option::None => true,
        }),
        forall|b: Seq<u8>|
            s@ == #[trigger] b64_encode_bytes(b) ==> (r matches Option::Some(d) && d@ == b),
{
    let n = s.len();
    let mut out: Vec<u8> = Vec::new();
    let mut i: usize = 0;
    proof {
        assert(s@.subrange(0, 0) =~= Seq::<u8>::empty());
        assert forall|b: Seq<u8>| s@ == #[trigger] b64_encode_bytes(b) implies {
            &&& out@.len() <= b.len()
            &&& out@ == b.take(out@.len() as int)
            &&& s@.skip(0) == b64_encode_bytes(b.skip(0))
        } by {
            assert(out@ =~= b.take(0));
            assert(b.skip(0) =~= b);
            assert(s@.skip(0) =~= s@);
        }
    }
    while n - i >= 4
        invariant
            n == s@.len(),
            i <= n,
            i % 4 == 0,
            out@.len() % 3 == 0,
            b64_encode_bytes(out@) == s@.subrange(0, i as int),
            forall|b: Seq<u8>|
                s@ == #[trigger] b64_encode_bytes(b) ==> {
                    &&& out@.len() <= b.len()
                    &&& out@ == b.take(out@.len() as int)
                    &&& s@.skip(i as int) == b64_encode_bytes(b.skip(out@.len() as int))
                },
        decreases n - i,
    {
        let ghost out0 = out@;
        let v0 = match b64_val_of(s[i]) {
            Option::Some(v) => v,
            Option::None => {
                proof {
                    b64_decode_bad_char(s@, i as int, i as int, out0);
                }
                return Option::None;
            },
        };
        let v1 = match b64_val_of(s[i + 1]) {
            Option::Some(v) => v,
            Option::None => {
                proof {
                    b64_decode_bad_char(s@, i as int, i + 1 as int, out0);
                }
                return Option::None;
            },
        };
        let v2 = match b64_val_of(s[i + 2]) {
            Option::Some(v) => v,
            Option::None => {
                proof {
                    b64_decode_bad_char(s@, i as int, i + 2 as int, out0);
                }
                return Option::None;
            },
        };
        let v3 = match b64_val_of(s[i + 3]) {
            Option::Some(v) => v,
            Option::None => {
                proof {
                    b64_decode_bad_char(s@, i as int, i + 3 as int, out0);
                }
                return Option::None;
            },
        };
        let x = (v0 << 2) | (v1 >> 4);
        let y = ((v1 & 15) << 4) | (v2 >> 2);
        let z = ((v2 & 3) << 6) | v3;
        out.push(x);
        out.push(y);
        out.push(z);
        proof {
            lemma_unpack3(v0, v1, v2, v3, x, y, z);
            lemma_char_val((x >> 2) as int);
            lemma_char_val(((((x & 3) << 4) | (y >> 4))) as int);
            lemma_char_val(((((y & 15) << 2) | (z >> 6))) as int);
            lemma_char_val((z & 63) as int);
            lemma_val_char(s@[i as int]);
            lemma_val_char(s@[i + 1]);
            lemma_val_char(s@[i + 2]);
            lemma_val_char(s@[i + 3]);
            assert(enc3(x, y, z) =~= s@.subrange(i as int, i + 4));
            assert(out@ =~= out0 + seq![x, y, z]);
            lemma_enc_append(out0, seq![x, y, z]);
            assert(b64_encode_bytes(seq![x, y, z]) == enc3(x, y, z) + b64_encode_bytes(
                seq![x, y, z].skip(3),
            ));
            assert(seq![x, y, z].skip(3) =~= Seq::<u8>::empty());
            assert(b64_encode_bytes(out@) =~= s@.subrange(0, i + 4));
            assert forall|b: Seq<u8>| s@ == #[trigger] b64_encode_bytes(b) implies {
                &&& out@.len() <= b.len()
                &&& out@ == b.take(out@.len() as int)
                &&& s@.skip(i + 4) == b64_encode_bytes(b.skip(out@.len() as int))
            } by {
                let t = b.skip(out0.len() as int);
                assert(s@.skip(i as int) == b64_encode_bytes(t));
                assert(b64_encode_bytes(t).len() >= 4);
                if t.len() == 0 {
                    assert(false);
                } else if t.len() == 1 {
                    assert(false);
                } else if t.len() == 2 {
                    assert(false);
                }
                assert(enc3(t[0], t[1], t[2]) =~= s@.subrange(i as int, i + 4));
                lemma_shift_bounds(t[0], t[1], t[2]);
                lemma_char_val((t[0] >> 2) as int);
                lemma_char_val((((t[0] & 3) << 4) | (t[1] >> 4)) as int);
                lemma_char_val((((t[1] & 15) << 2) | (t[2] >> 6)) as int);
                lemma_char_val((t[2] & 63) as int);
                assert(v0 == t[0] >> 2);
                assert(v1 == ((t[0] & 3) << 4) | (t[1] >> 4));
                assert(v2 == ((t[1] & 15) << 2) | (t[2] >> 6));
                assert(v3 == t[2] & 63);
                lemma_pack3(t[0], t[1], t[2], v0, v1, v2, v3, x, y, z);
                assert(out@ =~= b.take(out@.len() as int));
                assert(t.skip(3) =~= b.skip(out@.len() as int));
                assert(b64_encode_bytes(t) == enc3(t[0], t[1], t[2]) + b64_encode_bytes(
                    t.skip(3),
                ));
                assert(s@.skip(i + 4) =~= b64_encode_bytes(t).skip(4));
                assert(b64_encode_bytes(t).skip(4) =~= b64_encode_bytes(t.skip(3)));
            }
        }
        i += 4;
    }
    let ghost out0 = out@;
    if n - i == 0 {
        proof {
            assert forall|b: Seq<u8>| s@ == #[trigger] b64_encode_bytes(b) implies out@ == b by {
                let t = b.skip(out0.len() as int);
                assert(b64_encode_bytes(t).len() == 0);
                if t.len() >= 3 {
                    assert(false);
                } else if t.len() == 2 {
                    assert(false);
                } else if t.len() == 1 {
                    assert(false);
                }
                assert(b.take(out0.len() as int) =~= b);
            }
            assert(s@.subrange(0, i as int) =~= s@);
        }
        Option::Some(out)
    } else if n - i == 2 {
        let v0 = match b64_val_of(s[i]) {
            Option::Some(v) => v,
            Option::None => {
                proof {
                    b64_decode_bad_tail2(s@, i as int, out0);
                }
                return Option::None;
            },
        };
        let v1 = match b64_val_of(s[i + 1]) {
            Option::Some(v) => v,
            Option::None => {
                proof {
                    b64_decode_bad_tail2(s@, i as int, out0);
                }
                return Option::None;
            },
        };
        if v1 & 15 != 0 {
            proof {
                assert(v1 & 15 == v1 % 16) by (bit_vector);
                b64_decode_bad_tail2(s@, i as int, out0);
            }
            return Option::None;
        }
        let x = (v0 << 2) | (v1 >> 4);
        out.push(x);
        proof {
            lemma_unpack1(v0, v1, x);
            lemma_char_val((x >> 2) as int);
            lemma_char_val(((x & 3) << 4) as int);
            lemma_val_char(s@[i as int]);
            lemma_val_char(s@[i + 1]);
            assert(enc1(x) =~= s@.subrange(i as int, i + 2));
            assert(out@ =~= out0 + seq![x]);
            lemma_enc_append(out0, seq![x]);
            assert(b64_encode_bytes(seq![x]) == enc1(x));
            assert(b64_encode_bytes(out@) =~= s@);
            assert forall|b: Seq<u8>| s@ == #[trigger] b64_encode_bytes(b) implies out@ == b by {
                let t = b.skip(out0.len() as int);
                assert(s@.skip(i as int) == b64_encode_bytes(t));
                assert(b64_encode_bytes(t).len() == 2);
                if t.len() >= 3 {
                    assert(false);
                } else if t.len() == 2 {
                    assert(false);
                } else if t.len() == 0 {
                    assert(false);
                }
                lemma_shift_bounds(t[0], 0, 0);
                lemma_char_val((t[0] >> 2) as int);
                lemma_char_val(((t[0] & 3) << 4) as int);
                assert(v0 == t[0] >> 2);
                assert(v1 == (t[0] & 3) << 4);
                lemma_pack1(t[0], v0, v1, x);
                assert(out@ =~= b);
            }
        }
        Option::Some(out)
    } else if n - i == 3 {
        let v0 = match b64_val_of(s[i]) {
            Option::Some(v) => v,
            Option::None => {
                proof {
                    b64_decode_bad_tail3(s@, i as int, out0);
                }
                return Option::None;
            },
        };
        let v1 = match b64_val_of(s[i + 1]) {
            Option::Some(v) => v,
            Option::None => {
                proof {
                    b64_decode_bad_tail3(s@, i as int, out0);
                }
                return Option::None;
            },
        };
        let v2 = match b64_val_of(s[i + 2]) {
            Option::Some(v) => v,
            Option::None => {
                proof {
                    b64_decode_bad_tail3(s@, i as int, out0);
                }
                return Option::None;
            },
        };
        if v2 & 3 != 0 {
            proof {
                assert(v2 & 3 == v2 % 4) by (bit_vector);
                b64_decode_bad_tail3(s@, i as int, out0);
            }
            return Option::None;
        }
        let x = (v0 << 2) | (v1 >> 4);
        let y = ((v1 & 15) << 4) | (v2 >> 2);
        out.push(x);
        out.push(y);
        proof {
            lemma_unpack2(v0, v1, v2, x, y);
            lemma_char_val((x >> 2) as int);
            lemma_char_val((((x & 3) << 4) | (y >> 4)) as int);
            lemma_char_val(((y & 15) << 2) as int);
            lemma_val_char(s@[i as int]);
            lemma_val_char(s@[i + 1]);
            lemma_val_char(s@[i + 2]);
            assert(enc2(x, y) =~= s@.subrange(i as int, i + 3));
            assert(out@ =~= out0 + seq![x, y]);
            lemma_enc_append(out0, seq![x, y]);
            assert(b64_encode_bytes(seq![x, y]) == enc2(x, y));
            assert(b64_encode_bytes(out@) =~= s@);
            assert forall|b: Seq<u8>| s@ == #[trigger] b64_encode_bytes(b) implies out@ == b by {
                let t = b.skip(out0.len() as int);
                assert(s@.skip(i as int) == b64_encode_bytes(t));
                assert(b64_encode_bytes(t).len() == 3);
                if t.len() >= 3 {
                    assert(false);
                } else if t.len() == 1 {
                    assert(false);
                } else if t.len() == 0 {
                    assert(false);
                }
                lemma_shift_bounds(t[0], t[1], 0);
                lemma_char_val((t[0] >> 2) as int);
                lemma_char_val((((t[0] & 3) << 4) | (t[1] >> 4)) as int);
                lemma_char_val(((t[1] & 15) << 2) as int);
                assert(v0 == t[0] >> 2);
                assert(v1 == ((t[0] & 3) << 4) | (t[1] >> 4));
                assert(v2 == (t[1] & 15) << 2);
                lemma_pack2(t[0], t[1], v0, v1, v2, x, y);
                assert(out@ =~= b);
            }
        }
        Option::Some(out)
    } else {
        proof {
            b64_decode_bad_tail1(s@, i as int, out0);
        }
        Option::None
    }
}

/// Packing three bytes and unpacking them again is the identity.
proof fn lemma_pack3(b0: u8, b1: u8, b2: u8, v0: u8, v1: u8, v2: u8, v3: u8, x: u8, y: u8, z: u8)
    by (bit_vector)
    requires
        v0 == b0 >> 2,
        v1 == ((b0 & 3) << 4) | (b1 >> 4),
        v2 == ((b1 & 15) << 2) | (b2 >> 6),
        v3 == b2 & 63,
        x == (v0 << 2) | (v1 >> 4),
        y == ((v1 & 15) << 4) | (v2 >> 2),
        z == ((v2 & 3) << 6) | v3,
    ensures
        x == b0,
        y == b1,
        z == b2,
{
}

proof fn lemma_pack2(b0: u8, b1: u8, v0: u8, v1: u8, v2: u8, x: u8, y: u8)
    by (bit_vector)
    requires
        v0 == b0 >> 2,
        v1 == ((b0 & 3) << 4) | (b1 >> 4),
        v2 == (b1 & 15) << 2,
        x == (v0 << 2) | (v1 >> 4),
        y == ((v1 & 15) << 4) | (v2 >> 2),
    ensures
        x == b0,
        y == b1,
{
}

proof fn lemma_pack1(b0: u8, v0: u8, v1: u8, x: u8)
    by (bit_vector)
    requires
        v0 == b0 >> 2,
        v1 == (b0 & 3) << 4,
        x == (v0 << 2) | (v1 >> 4),
    ensures
        x == b0,
{
}

/// No encoder output has an out-of-alphabet byte, so a bad byte refutes
/// every premise of the decoder's completeness clause.
proof fn b64_decode_bad_char(s: Seq<u8>, i: int, k: int, out0: Seq<u8>)
    requires
        0 <= i <= k < s.len(),
        b64_val(s[k]) == -1,
        forall|b: Seq<u8>|
            s == #[trigger] b64_encode_bytes(b) ==> s.skip(i) == b64_encode_bytes(
                b.skip(out0.len() as int),
            ),
    ensures
        forall|b: Seq<u8>| s != #[trigger] b64_encode_bytes(b),
{
    assert forall|b: Seq<u8>| s != #[trigger] b64_encode_bytes(b) by {
        if s == b64_encode_bytes(b) {
            let t = b.skip(out0.len() as int);
            assert(s.skip(i) == b64_encode_bytes(t));
            assert(b64_encode_bytes(t)[k - i] == s[k]);
            lemma_enc_all_valid(t, k - i);
        }
    }
}

proof fn b64_decode_bad_tail1(s: Seq<u8>, i: int, out0: Seq<u8>)
    requires
        0 <= i <= s.len(),
        s.len() - i == 1,
        forall|b: Seq<u8>|
            s == #[trigger] b64_encode_bytes(b) ==> s.skip(i) == b64_encode_bytes(
                b.skip(out0.len() as int),
            ),
    ensures
        forall|b: Seq<u8>| s != #[trigger] b64_encode_bytes(b),
{
    assert forall|b: Seq<u8>| s != #[trigger] b64_encode_bytes(b) by {
        if s == b64_encode_bytes(b) {
            let t = b.skip(out0.len() as int);
            assert(s.skip(i) == b64_encode_bytes(t));
            assert(b64_encode_bytes(t).len() == 1);
            if t.len() >= 3 {
                assert(false);
            } else if t.len() == 2 {
                assert(false);
            } else if t.len() == 1 {
                assert(false);
            } else {
                assert(false);
            }
        }
    }
}

proof fn b64_decode_bad_tail2(s: Seq<u8>, i: int, out0: Seq<u8>)
    requires
        0 <= i,
        s.len() - i == 2,
        b64_val(s[i]) == -1 || b64_val(s[i + 1]) == -1 || (b64_val(s[i + 1]) >= 0 && b64_val(
            s[i + 1],
        ) % 16 != 0),
        forall|b: Seq<u8>|
            s == #[trigger] b64_encode_bytes(b) ==> s.skip(i) == b64_encode_bytes(
                b.skip(out0.len() as int),
            ),
    ensures
        forall|b: Seq<u8>| s != #[trigger] b64_encode_bytes(b),
{
    assert forall|b: Seq<u8>| s != #[trigger] b64_encode_bytes(b) by {
        if s == b64_encode_bytes(b) {
            let t = b.skip(out0.len() as int);
            assert(s.skip(i) == b64_encode_bytes(t));
            assert(b64_encode_bytes(t).len() == 2);
            if t.len() >= 3 {
                assert(false);
            } else if t.len() == 2 {
                assert(false);
            } else if t.len() == 0 {
                assert(false);
            } else {
                lemma_shift_bounds(t[0], 0, 0);
                lemma_char_val((t[0] >> 2) as int);
                lemma_char_val(((t[0] & 3) << 4) as int);
                assert(s[i] == b64_char((t[0] >> 2) as int));
                assert(s[i + 1] == b64_char(((t[0] & 3) << 4) as int));
                lemma_low_bits_tail1(t[0]);
            }
        }
    }
}

proof fn b64_decode_bad_tail3(s: Seq<u8>, i: int, out0: Seq<u8>)
    requires
        0 <= i,
        s.len() - i == 3,
        b64_val(s[i]) == -1 || b64_val(s[i + 1]) == -1 || b64_val(s[i + 2]) == -1 || (b64_val(
            s[i + 2],
        ) >= 0 && b64_val(s[i + 2]) % 4 != 0),
        forall|b: Seq<u8>|
            s == #[trigger] b64_encode_bytes(b) ==> s.skip(i) == b64_encode_bytes(
                b.skip(out0.len() as int),
            ),
    ensures
        forall|b: Seq<u8>| s != #[trigger] b64_encode_bytes(b),
{
    assert forall|b: Seq<u8>| s != #[trigger] b64_encode_bytes(b) by {
        if s == b64_encode_bytes(b) {
            let t = b.skip(out0.len() as int);
            assert(s.skip(i) == b64_encode_bytes(t));
            assert(b64_encode_bytes(t).len() == 3);
            if t.len() >= 3 {
                assert(false);
            } else if t.len() == 1 {
                assert(false);
            } else if t.len() == 0 {
                assert(false);
            } else {
                lemma_shift_bounds(t[0], t[1], 0);
                lemma_char_val((t[0] >> 2) as int);
                lemma_char_val((((t[0] & 3) << 4) | (t[1] >> 4)) as int);
                lemma_char_val(((t[1] & 15) << 2) as int);
                assert(s[i] == b64_char((t[0] >> 2) as int));
                assert(s[i + 1] == b64_char((((t[0] & 3) << 4) | (t[1] >> 4)) as int));
                assert(s[i + 2] == b64_char(((t[1] & 15) << 2) as int));
                lemma_low_bits_tail2(t[1]);
            }
        }
    }
}

proof fn lemma_low_bits_tail1(b0: u8)
    by (bit_vector)
    ensures
        ((b0 & 3) << 4) % 16 == 0,
{
}

proof fn lemma_low_bits_tail2(b1: u8)
    by (bit_vector)
    ensures
        ((b1 & 15) << 2) % 4 == 0,
{
}

/// Every byte of an encoding lies in the alphabet.
proof fn lemma_enc_all_valid(b: Seq<u8>, k: int)
    requires
        0 <= k < b64_encode_bytes(b).len(),
    ensures
        b64_val(b64_encode_bytes(b)[k]) != -1,
    decreases b.len(),
{
    if b.len() >= 3 {
        lemma_shift_bounds(b[0], b[1], b[2]);
        if k < 4 {
            lemma_char_val((b[0] >> 2) as int);
            lemma_char_val((((b[0] & 3) << 4) | (b[1] >> 4)) as int);
            lemma_char_val((((b[1] & 15) << 2) | (b[2] >> 6)) as int);
            lemma_char_val((b[2] & 63) as int);
        } else {
            lemma_enc_all_valid(b.skip(3), k - 4);
        }
    } else if b.len() == 2 {
        lemma_shift_bounds(b[0], b[1], 0);
        lemma_char_val((b[0] >> 2) as int);
        lemma_char_val((((b[0] & 3) << 4) | (b[1] >> 4)) as int);
        lemma_char_val(((b[1] & 15) << 2) as int);
    } else if b.len() == 1 {
        lemma_shift_bounds(b[0], 0, 0);
        lemma_char_val((b[0] >> 2) as int);
        lemma_char_val(((b[0] & 3) << 4) as int);
    }
}

/// The alphabet never contains a dot, so a dot splits a token
/// unambiguously before its encoded parts.
pub proof fn lemma_enc_no_dot(b: Seq<u8>, k: int)
    requires
        0 <= k < b64_encode_bytes(b).len(),
    ensures
        b64_encode_bytes(b)[k] != 0x2E,
{
    lemma_enc_all_valid(b, k);
}

/// Every byte of an encoding is plain ASCII.
pub proof fn lemma_enc_ascii(b: Seq<u8>, k: int)
    requires
        0 <= k < b64_encode_bytes(b).len(),
    ensures
        b64_encode_bytes(b)[k] < 0x80,
{
    lemma_enc_all_valid(b, k);
}

} // verus!
