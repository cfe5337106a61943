//! The byte-level wire form of token claims: one JSON object with the
//! fields email, role, id, exp and token_type in that order, the email
//! escaped, the numbers in plain decimal.  The builder produces exactly
//! the canonical form, and the parser is proved to recover every
//! canonical form.

use vstd::prelude::*;
use vstd::utf8::encode_utf8;

use crate::jwt::{Claims, ClaimsV, TokenType};
use crate::user::Role;

verus! {

/// A lowercase hexadecimal digit.
pub open spec fn hex_digit(n: int) -> u8 {
    if n < 10 {
        (0x30 + n) as u8
    } else {
        (0x57 + n) as u8
    }
}

/// The value of a lowercase hexadecimal digit, `-1` otherwise.
pub open spec fn hex_val(b: u8) -> int {
    if 0x30 <= b && b <= 0x39 {
        b - 0x30
    } else if 0x61 <= b && b <= 0x66 {
        b - 0x57
    } else {
        -1
    }
}

/// String escaping: a quote or backslash gets a backslash in front, a
/// control byte becomes its six-byte hexadecimal escape, every other
/// byte stands for itself — so the form is standard JSON throughout.
pub open spec fn esc_bytes(s: Seq<u8>) -> Seq<u8>
    decreases s.len(),
{
    if s.len() == 0 {
        Seq::empty()
    } else {
        (if s[0] == 0x22 || s[0] == 0x5C {
            seq![0x5Cu8, s[0]]
        } else if s[0] < 0x20 {
            seq![
                0x5Cu8,
                0x75,
                0x30,
                0x30,
                hex_digit((s[0] >> 4) as int),
                hex_digit((s[0] & 15) as int),
            ]
        } else {
            seq![s[0]]
        }) + esc_bytes(s.drop_first())
    }
}

/// A byte splits into its two hexadecimal parts and is rebuilt from
/// them.
proof fn lemma_hex_parts(b: u8)
    by (bit_vector)
    ensures
        (b >> 4) < 16,
        (b & 15) < 16,
        (b >> 4) * 16 + (b & 15) == b,
{
}

/// The hexadecimal digit map and its inverse agree.
proof fn lemma_hex_roundtrip(n: int)
    requires
        0 <= n < 16,
    ensures
        hex_val(hex_digit(n)) == n,
{
}

fn hex_digit_of(n: u8) -> (r: u8)
    requires
        n < 16,
    ensures
        r == hex_digit(n as int),
{
    if n < 10 {
        0x30 + n
    } else {
        0x57 + n
    }
}

fn hex_val_of(b: u8) -> (r: Option<u8>)
    ensures
        match r {
            Option::Some(v) => hex_val(b) == v as int && v < 16,
            Option::None => hex_val(b) == -1,
        },
{
    if 0x30 <= b && b <= 0x39 {
        Option::Some(b - 0x30)
    } else if 0x61 <= b && b <= 0x66 {
        Option::Some(b - 0x57)
    } else {
        Option::None
    }
}

/// Decimal digits of a non-negative number, most significant first.
pub open spec fn dec_u64_bytes(n: int) -> Seq<u8>
    decreases n,
{
    if n < 10 {
        seq![(0x30 + n) as u8]
    } else {
        dec_u64_bytes(n / 10) + seq![(0x30 + n % 10) as u8]
    }
}

/// Decimal form of a signed number.
pub open spec fn dec_i64_bytes(v: int) -> Seq<u8> {
    if v < 0 {
        seq![0x2Du8] + dec_u64_bytes(-v)
    } else {
        dec_u64_bytes(v)
    }
}

pub open spec fn is_digit(b: u8) -> bool {
    0x30 <= b <= 0x39
}

// The fixed pieces of the object, as bytes:  {"email":"  ","role":"
// ","id":  ,"exp":  ,"token_type":"  "}
pub open spec fn lit_email() -> Seq<u8> {
    seq![0x7Bu8, 0x22, 0x65, 0x6D, 0x61, 0x69, 0x6C, 0x22, 0x3A, 0x22]
}

pub open spec fn lit_role() -> Seq<u8> {
    seq![0x22u8, 0x2C, 0x22, 0x72, 0x6F, 0x6C, 0x65, 0x22, 0x3A, 0x22]
}

pub open spec fn lit_id() -> Seq<u8> {
    seq![0x22u8, 0x2C, 0x22, 0x69, 0x64, 0x22, 0x3A]
}

pub open spec fn lit_exp() -> Seq<u8> {
    seq![0x2Cu8, 0x22, 0x65, 0x78, 0x70, 0x22, 0x3A]
}

pub open spec fn lit_kind() -> Seq<u8> {
    seq![0x2Cu8, 0x22, 0x74, 0x6F, 0x6B, 0x65, 0x6E, 0x5F, 0x74, 0x79, 0x70, 0x65, 0x22, 0x3A, 0x22]
}

pub open spec fn lit_close() -> Seq<u8> {
    seq![0x22u8, 0x7D]
}

/// ADMIN or USER.
pub open spec fn role_bytes(r: Role) -> Seq<u8> {
    if r is ADMIN {
        seq![0x41u8, 0x44, 0x4D, 0x49, 0x4E]
    } else {
        seq![0x55u8, 0x53, 0x45, 0x52]
    }
}

/// AccessToken or RefreshToken.
pub open spec fn kind_bytes(t: TokenType) -> Seq<u8> {
    if t is AccessToken {
        seq![0x41u8, 0x63, 0x63, 0x65, 0x73, 0x73, 0x54, 0x6F, 0x6B, 0x65, 0x6E]
    } else {
        seq![0x52u8, 0x65, 0x66, 0x72, 0x65, 0x73, 0x68, 0x54, 0x6F, 0x6B, 0x65, 0x6E]
    }
}

/// Whether the integer fields of a claims image fit their machine type.
pub open spec fn claims_v_wf(c: ClaimsV) -> bool {
    &&& i64::MIN <= c.id <= i64::MAX
    &&& i64::MIN <= c.exp <= i64::MAX
}

/// The canonical byte form of a claims value.
pub open spec fn claims_bytes(c: ClaimsV) -> Seq<u8> {
    lit_email() + esc_bytes(encode_utf8(c.email)) + lit_role() + role_bytes(c.role) + lit_id()
        + dec_i64_bytes(c.id) + lit_exp() + dec_i64_bytes(c.exp) + lit_kind() + kind_bytes(
        c.token_type,
    ) + lit_close()
}

/// Escaping appends piece-wise.
proof fn lemma_esc_append(a: Seq<u8>, b: Seq<u8>)
    ensures
        esc_bytes(a + b) == esc_bytes(a) + esc_bytes(b),
    decreases a.len(),
{
    if a.len() == 0 {
        assert(a + b =~= b);
        assert(esc_bytes(a) + esc_bytes(b) =~= esc_bytes(b));
    } else {
        let u = a + b;
        assert(u[0] == a[0]);
        assert(u.drop_first() =~= a.drop_first() + b);
        lemma_esc_append(a.drop_first(), b);
        assert(esc_bytes(u) =~= esc_bytes(a) + esc_bytes(b));
    }
}

fn push_bytes(out: &mut Vec<u8>, lit: &[u8])
    ensures
        final(out)@ == old(out)@ + lit@,
{
    let n = lit.len();
    let mut i: usize = 0;
    proof {
        assert(out@ =~= old(out)@ + lit@.take(0));
    }
    while i < n
        invariant
            n == lit@.len(),
            i <= n,
            out@ == old(out)@ + lit@.take(i as int),
        decreases n - i,
    {
        out.push(lit[i]);
        proof {
            assert(lit@.take(i + 1) =~= lit@.take(i as int).push(lit@[i as int]));
            assert(out@ =~= old(out)@ + lit@.take(i + 1));
        }
        i += 1;
    }
    proof {
        assert(lit@.take(n as int) =~= lit@);
    }
}

fn push_escaped(out: &mut Vec<u8>, raw: &[u8])
    ensures
        final(out)@ == old(out)@ + esc_bytes(raw@),
{
    let n = raw.len();
    let mut i: usize = 0;
    proof {
        assert(out@ =~= old(out)@ + esc_bytes(raw@.take(0)));
    }
    while i < n
        invariant
            n == raw@.len(),
            i <= n,
            out@ == old(out)@ + esc_bytes(raw@.take(i as int)),
        decreases n - i,
    {
        let b = raw[i];
        if b == 0x22 || b == 0x5C {
            out.push(0x5C);
            out.push(b);
        } else if b < 0x20 {
            proof {
                lemma_hex_parts(b);
            }
            out.push(0x5C);
            out.push(0x75);
            out.push(0x30);
            out.push(0x30);
            out.push(hex_digit_of(b >> 4));
            out.push(hex_digit_of(b & 15));
        } else {
            out.push(b);
        }
        proof {
            assert(raw@.take(i + 1) =~= raw@.take(i as int) + seq![raw@[i as int]]);
            lemma_esc_append(raw@.take(i as int), seq![raw@[i as int]]);
            assert(seq![b].drop_first() =~= Seq::<u8>::empty());
            assert(esc_bytes(Seq::<u8>::empty()) =~= Seq::<u8>::empty());
            assert(seq![b][0] == b);
            if b == 0x22 || b == 0x5C {
                assert(esc_bytes(seq![b]) =~= seq![0x5Cu8, b]);
                assert(out@ =~= old(out)@ + esc_bytes(raw@.take(i + 1)));
            } else if b < 0x20 {
                assert(esc_bytes(seq![b]) =~= seq![
                    0x5Cu8,
                    0x75,
                    0x30,
                    0x30,
                    hex_digit((b >> 4) as int),
                    hex_digit((b & 15) as int),
                ]);
                assert(out@ =~= old(out)@ + esc_bytes(raw@.take(i + 1)));
            } else {
                assert(esc_bytes(seq![b]) =~= seq![b]);
                assert(out@ =~= old(out)@ + esc_bytes(raw@.take(i + 1)));
            }
        }
        i += 1;
    }
    proof {
        assert(raw@.take(n as int) =~= raw@);
    }
}

fn push_dec_u64(out: &mut Vec<u8>, n: u64)
    ensures
        final(out)@ == old(out)@ + dec_u64_bytes(n as int),
    decreases n,
{
    if n < 10 {
        out.push(0x30 + n as u8);
        proof {
            assert(out@ =~= old(out)@ + dec_u64_bytes(n as int));
        }
    } else {
        push_dec_u64(out, n / 10);
        out.push(0x30 + (n % 10) as u8);
        proof {
            assert(out@ =~= old(out)@ + dec_u64_bytes((n / 10) as int) + seq![
                (0x30 + (n as int) % 10) as u8,
            ]);
            assert(out@ =~= old(out)@ + dec_u64_bytes(n as int));
        }
    }
}

fn push_dec_i64(out: &mut Vec<u8>, v: i64)
    ensures
        final(out)@ == old(out)@ + dec_i64_bytes(v as int),
{
    if v < 0 {
        out.push(0x2D);
        let m: u64 = if v == i64::MIN {
            9223372036854775808u64
        } else {
            (-v) as u64
        };
        proof {
            assert(m as int == -(v as int));
        }
        push_dec_u64(out, m);
        proof {
            assert(out@ =~= old(out)@ + dec_i64_bytes(v as int));
        }
    } else {
        push_dec_u64(out, v as u64);
    }
}

// What follows the email's closing quote: the role literal without its
// leading quote.
pub open spec fn lit_role_tail() -> Seq<u8> {
    seq![0x2Cu8, 0x22, 0x72, 0x6F, 0x6C, 0x65, 0x22, 0x3A, 0x22]
}

// Cumulative field offsets inside the canonical form.
pub open spec fn off_email_end(c: ClaimsV) -> int {
    10 + esc_bytes(encode_utf8(c.email)).len() as int + 1
}

pub open spec fn off_role(c: ClaimsV) -> int {
    off_email_end(c) + 9
}

pub open spec fn off_lit_id(c: ClaimsV) -> int {
    off_role(c) + role_bytes(c.role).len() as int
}

pub open spec fn off_id(c: ClaimsV) -> int {
    off_lit_id(c) + 7
}

pub open spec fn off_lit_exp(c: ClaimsV) -> int {
    off_id(c) + dec_i64_bytes(c.id).len()
}

pub open spec fn off_exp(c: ClaimsV) -> int {
    off_lit_exp(c) + 7
}

pub open spec fn off_lit_kind(c: ClaimsV) -> int {
    off_exp(c) + dec_i64_bytes(c.exp).len() as int
}

pub open spec fn off_kind(c: ClaimsV) -> int {
    off_lit_kind(c) + 15
}

pub open spec fn off_close(c: ClaimsV) -> int {
    off_kind(c) + kind_bytes(c.token_type).len() as int
}

/// Where each field of the canonical form lies.
#[verifier::rlimit(60)]
proof fn lemma_claims_layout(s: Seq<u8>, c: ClaimsV)
    requires
        s == claims_bytes(c),
    ensures
        s.len() == off_close(c) + 2,
        s.subrange(0, 10) == lit_email(),
        s.skip(10) == esc_bytes(encode_utf8(c.email)) + seq![0x22u8] + s.skip(off_email_end(c)),
        s.subrange(off_email_end(c), off_role(c)) == lit_role_tail(),
        s.subrange(off_role(c), off_lit_id(c)) == role_bytes(c.role),
        s.subrange(off_lit_id(c), off_id(c)) == lit_id(),
        s.skip(off_id(c)) == dec_i64_bytes(c.id) + s.skip(off_lit_exp(c)),
        s[off_lit_exp(c)] == 0x2C,
        s.subrange(off_lit_exp(c), off_exp(c)) == lit_exp(),
        s.skip(off_exp(c)) == dec_i64_bytes(c.exp) + s.skip(off_lit_kind(c)),
        s[off_lit_kind(c)] == 0x2C,
        s.subrange(off_lit_kind(c), off_kind(c)) == lit_kind(),
        s.subrange(off_kind(c), off_close(c)) == kind_bytes(c.token_type),
        s.subrange(off_close(c), off_close(c) + 2) == lit_close(),
{
    let em = esc_bytes(encode_utf8(c.email));
    let rb = role_bytes(c.role);
    let di = dec_i64_bytes(c.id);
    let de = dec_i64_bytes(c.exp);
    let kb = kind_bytes(c.token_type);
    assert(s =~= lit_email() + em + lit_role() + rb + lit_id() + di + lit_exp() + de + lit_kind()
        + kb + lit_close());
    assert(s.subrange(0, 10) =~= lit_email());
    assert(lit_role() =~= seq![0x22u8] + lit_role_tail());
    assert(s.skip(10) =~= em + seq![0x22u8] + s.skip(off_email_end(c)));
    assert(s.subrange(off_email_end(c), off_role(c)) =~= lit_role_tail());
    assert(s.subrange(off_role(c), off_lit_id(c)) =~= rb);
    assert(s.subrange(off_lit_id(c), off_id(c)) =~= lit_id());
    assert(s.skip(off_id(c)) =~= di + s.skip(off_lit_exp(c)));
    assert(s.subrange(off_lit_exp(c), off_exp(c)) =~= lit_exp());
    assert(s[off_lit_exp(c)] == lit_exp()[0]);
    assert(s.skip(off_exp(c)) =~= de + s.skip(off_lit_kind(c)));
    assert(s.subrange(off_lit_kind(c), off_kind(c)) =~= lit_kind());
    assert(s[off_lit_kind(c)] == lit_kind()[0]);
    assert(s.subrange(off_kind(c), off_close(c)) =~= kb);
    assert(s.subrange(off_close(c), off_close(c) + 2) =~= lit_close());
}

/// Matches a fixed byte sequence at a position; succeeds exactly when it
/// is there in full.
fn expect_bytes(s: &[u8], pos: usize, lit: &[u8]) -> (r: Option<usize>)
    requires
        pos <= s@.len(),
    ensures
        match r {
            Option::Some(p) => p == pos + lit@.len() && p <= s@.len() && s@.subrange(
                pos as int,
                p as int,
            ) == lit@,
            Option::None => !(pos + lit@.len() <= s@.len() && s@.subrange(
                pos as int,
                pos + lit@.len(),
            ) == lit@),
        },
{
    let m = lit.len();
    let n = s.len();
    if n - pos < m {
        return Option::None;
    }
    let mut k: usize = 0;
    while k < m
        invariant
            n == s@.len(),
            pos + m <= n,
            k <= m,
            m == lit@.len(),
            forall|t: int| 0 <= t < k ==> s@[pos + t] == lit@[t],
        decreases m - k,
    {
        if s[pos + k] != lit[k] {
            proof {
                if s@.subrange(pos as int, pos + m) == lit@ {
                    assert(s@.subrange(pos as int, pos + m)[k as int] == s@[pos + k]);
                }
            }
            return Option::None;
        }
        k += 1;
    }
    proof {
        assert(s@.subrange(pos as int, pos + m) =~= lit@);
    }
    Option::Some(pos + m)
}

/// In a canonical escaped-string layout the first byte of the string
/// pins the shape of the escape at the front of the input.
proof fn lemma_scan_shape(s: Seq<u8>, pos: int, e: Seq<u8>, rest: Seq<u8>)
    requires
        0 <= pos <= s.len(),
        s.skip(pos) == esc_bytes(e) + seq![0x22u8] + rest,
        e.len() > 0,
    ensures
        (e[0] == 0x22 || e[0] == 0x5C) ==> {
            &&& esc_bytes(e) == seq![0x5Cu8, e[0]] + esc_bytes(e.drop_first())
            &&& s[pos] == 0x5C
            &&& pos + 2 <= s.len()
            &&& s[pos + 1] == e[0]
            &&& s.skip(pos + 2) == esc_bytes(e.drop_first()) + seq![0x22u8] + rest
        },
        (!(e[0] == 0x22 || e[0] == 0x5C) && e[0] < 0x20) ==> {
            &&& esc_bytes(e) == seq![
                0x5Cu8,
                0x75,
                0x30,
                0x30,
                hex_digit((e[0] >> 4) as int),
                hex_digit((e[0] & 15) as int),
            ] + esc_bytes(e.drop_first())
            &&& s[pos] == 0x5C
            &&& pos + 7 <= s.len()
            &&& s[pos + 1] == 0x75
            &&& s[pos + 2] == 0x30
            &&& s[pos + 3] == 0x30
            &&& s[pos + 4] == hex_digit((e[0] >> 4) as int)
            &&& s[pos + 5] == hex_digit((e[0] & 15) as int)
            &&& s.skip(pos + 6) == esc_bytes(e.drop_first()) + seq![0x22u8] + rest
        },
        (!(e[0] == 0x22 || e[0] == 0x5C) && e[0] >= 0x20) ==> {
            &&& esc_bytes(e) == seq![e[0]] + esc_bytes(e.drop_first())
            &&& s[pos] == e[0]
            &&& s.skip(pos + 1) == esc_bytes(e.drop_first()) + seq![0x22u8] + rest
        },
{
    if e[0] == 0x22 || e[0] == 0x5C {
        assert(esc_bytes(e) =~= seq![0x5Cu8, e[0]] + esc_bytes(e.drop_first()));
        assert(s.skip(pos)[0] == 0x5C);
        assert(s.skip(pos)[1] == e[0]);
        assert(s.skip(pos + 2) =~= s.skip(pos).skip(2));
        assert(s.skip(pos).skip(2) =~= esc_bytes(e.drop_first()) + seq![0x22u8] + rest);
    } else if e[0] < 0x20 {
        assert(esc_bytes(e) =~= seq![
            0x5Cu8,
            0x75,
            0x30,
            0x30,
            hex_digit((e[0] >> 4) as int),
            hex_digit((e[0] & 15) as int),
        ] + esc_bytes(e.drop_first()));
        assert(s.skip(pos)[0] == 0x5C);
        assert(s.skip(pos)[1] == 0x75);
        assert(s.skip(pos)[2] == 0x30);
        assert(s.skip(pos)[3] == 0x30);
        assert(s.skip(pos)[4] == hex_digit((e[0] >> 4) as int));
        assert(s.skip(pos)[5] == hex_digit((e[0] & 15) as int));
        assert(s.skip(pos + 6) =~= s.skip(pos).skip(6));
        assert(s.skip(pos).skip(6) =~= esc_bytes(e.drop_first()) + seq![0x22u8] + rest);
    } else {
        assert(esc_bytes(e) =~= seq![e[0]] + esc_bytes(e.drop_first()));
        assert(s.skip(pos)[0] == e[0]);
        assert(s.skip(pos + 1) =~= s.skip(pos).skip(1));
        assert(s.skip(pos).skip(1) =~= esc_bytes(e.drop_first()) + seq![0x22u8] + rest);
    }
}

/// Reads an escaped string up to its closing quote.  Every escaped form
/// is recovered: whenever the bytes at `pos` are `esc_bytes(e)` followed
/// by a quote, the call returns `e` and the position after the quote.
fn scan_string(s: &[u8], pos: usize) -> (r: Option<(Vec<u8>, usize)>)
    requires
        pos <= s@.len(),
    ensures
        r matches Option::Some(q) ==> q.1 <= s@.len(),
        forall|e: Seq<u8>, rest: Seq<u8>|
            s@.skip(pos as int) == #[trigger] (esc_bytes(e) + seq![0x22u8] + rest) ==> (r matches
                Option::Some(q) && q.0@ == e && q.1 == pos + esc_bytes(e).len() + 1),
    decreases s@.len() - pos,
{
    if pos >= s.len() {
        proof {
            assert forall|e: Seq<u8>, rest: Seq<u8>|
                s@.skip(pos as int) == #[trigger] (esc_bytes(e) + seq![0x22u8] + rest) implies
                false by {
                assert((esc_bytes(e) + seq![0x22u8] + rest).len() >= 1);
            }
        }
        return Option::None;
    }
    let b = s[pos];
    if b == 0x22 {
        let out: Vec<u8> = Vec::new();
        let p2 = pos + 1;
        proof {
            assert forall|e: Seq<u8>, rest: Seq<u8>|
                s@.skip(pos as int) == #[trigger] (esc_bytes(e) + seq![0x22u8] + rest) implies
                out@ == e && p2 == pos + esc_bytes(e).len() + 1 && p2 <= s@.len() by {
                if e.len() > 0 {
                    lemma_scan_shape(s@, pos as int, e, rest);
                    assert(false);
                }
                assert(esc_bytes(e) =~= Seq::<u8>::empty());
                assert(out@ =~= e);
            }
        }
        return Option::Some((out, p2));
    }
    if b == 0x5C {
        if s.len() - pos < 2 {
            proof {
                assert forall|e: Seq<u8>, rest: Seq<u8>|
                    s@.skip(pos as int) == #[trigger] (esc_bytes(e) + seq![0x22u8] + rest) implies
                    false by {
                    if e.len() == 0 {
                        assert(s@.skip(pos as int)[0] == 0x22);
                    } else {
                        lemma_scan_shape(s@, pos as int, e, rest);
                    }
                }
            }
            return Option::None;
        }
        let c = s[pos + 1];
        if c == 0x75 {
            // the six-byte escape of a control byte
            if s.len() - pos < 7 {
                proof {
                    assert forall|e: Seq<u8>, rest: Seq<u8>|
                        s@.skip(pos as int) == #[trigger] (esc_bytes(e) + seq![0x22u8] + rest)
                        implies false by {
                        if e.len() == 0 {
                            assert(s@.skip(pos as int)[0] == 0x22);
                        } else {
                            lemma_scan_shape(s@, pos as int, e, rest);
                        }
                    }
                }
                return Option::None;
            }
            if s[pos + 2] != 0x30 || s[pos + 3] != 0x30 {
                proof {
                    assert forall|e: Seq<u8>, rest: Seq<u8>|
                        s@.skip(pos as int) == #[trigger] (esc_bytes(e) + seq![0x22u8] + rest)
                        implies false by {
                        if e.len() == 0 {
                            assert(s@.skip(pos as int)[0] == 0x22);
                        } else {
                            lemma_scan_shape(s@, pos as int, e, rest);
                        }
                    }
                }
                return Option::None;
            }
            let hv = match hex_val_of(s[pos + 4]) {
                Option::Some(v) => v,
                Option::None => {
                    proof {
                        assert forall|e: Seq<u8>, rest: Seq<u8>|
                            s@.skip(pos as int) == #[trigger] (esc_bytes(e) + seq![0x22u8] + rest)
                            implies false by {
                            if e.len() == 0 {
                                assert(s@.skip(pos as int)[0] == 0x22);
                            } else {
                                lemma_scan_shape(s@, pos as int, e, rest);
                                if !(e[0] == 0x22 || e[0] == 0x5C) && e[0] < 0x20 {
                                    lemma_hex_parts(e[0]);
                                    lemma_hex_roundtrip((e[0] >> 4) as int);
                                }
                            }
                        }
                    }
                    return Option::None;
                },
            };
            let lv = match hex_val_of(s[pos + 5]) {
                Option::Some(v) => v,
                Option::None => {
                    proof {
                        assert forall|e: Seq<u8>, rest: Seq<u8>|
                            s@.skip(pos as int) == #[trigger] (esc_bytes(e) + seq![0x22u8] + rest)
                            implies false by {
                            if e.len() == 0 {
                                assert(s@.skip(pos as int)[0] == 0x22);
                            } else {
                                lemma_scan_shape(s@, pos as int, e, rest);
                                if !(e[0] == 0x22 || e[0] == 0x5C) && e[0] < 0x20 {
                                    lemma_hex_parts(e[0]);
                                    lemma_hex_roundtrip((e[0] & 15) as int);
                                }
                            }
                        }
                    }
                    return Option::None;
                },
            };
            let decoded = hv * 16 + lv;
            match scan_string(s, pos + 6) {
                Option::Some((o, p2)) => {
                    let ghost o0 = o@;
                    let mut o = o;
                    o.insert(0, decoded);
                    proof {
                        assert forall|e: Seq<u8>, rest: Seq<u8>|
                            s@.skip(pos as int) == #[trigger] (esc_bytes(e) + seq![0x22u8] + rest)
                            implies o@ == e && p2 == pos + esc_bytes(e).len() + 1 && p2
                            <= s@.len() by {
                            if e.len() == 0 {
                                assert(s@.skip(pos as int)[0] == 0x22);
                                assert(false);
                            }
                            lemma_scan_shape(s@, pos as int, e, rest);
                            if e[0] == 0x22 || e[0] == 0x5C {
                                assert(false);
                            }
                            if e[0] >= 0x20 {
                                assert(false);
                            }
                            lemma_hex_parts(e[0]);
                            lemma_hex_roundtrip((e[0] >> 4) as int);
                            lemma_hex_roundtrip((e[0] & 15) as int);
                            assert(hv == e[0] >> 4);
                            assert(lv == e[0] & 15);
                            assert(decoded == e[0]);
                            assert(o0 == e.drop_first());
                            assert(o@ =~= e);
                        }
                    }
                    Option::Some((o, p2))
                },
                Option::None => {
                    proof {
                        assert forall|e: Seq<u8>, rest: Seq<u8>|
                            s@.skip(pos as int) == #[trigger] (esc_bytes(e) + seq![0x22u8] + rest)
                            implies false by {
                            if e.len() == 0 {
                                assert(s@.skip(pos as int)[0] == 0x22);
                                assert(false);
                            }
                            lemma_scan_shape(s@, pos as int, e, rest);
                        }
                    }
                    Option::None
                },
            }
        } else {
            // an escaped quote or backslash
            match scan_string(s, pos + 2) {
                Option::Some((o, p2)) => {
                    let ghost o0 = o@;
                    let mut o = o;
                    o.insert(0, c);
                    proof {
                        assert forall|e: Seq<u8>, rest: Seq<u8>|
                            s@.skip(pos as int) == #[trigger] (esc_bytes(e) + seq![0x22u8] + rest)
                            implies o@ == e && p2 == pos + esc_bytes(e).len() + 1 && p2
                            <= s@.len() by {
                            if e.len() == 0 {
                                assert(s@.skip(pos as int)[0] == 0x22);
                                assert(false);
                            }
                            lemma_scan_shape(s@, pos as int, e, rest);
                            if !(e[0] == 0x22 || e[0] == 0x5C) {
                                assert(false);
                            }
                            assert(s@[pos + 1] == e[0]);
                            assert(o0 == e.drop_first());
                            assert(o@ =~= e);
                        }
                    }
                    Option::Some((o, p2))
                },
                Option::None => {
                    proof {
                        assert forall|e: Seq<u8>, rest: Seq<u8>|
                            s@.skip(pos as int) == #[trigger] (esc_bytes(e) + seq![0x22u8] + rest)
                            implies false by {
                            if e.len() == 0 {
                                assert(s@.skip(pos as int)[0] == 0x22);
                                assert(false);
                            }
                            lemma_scan_shape(s@, pos as int, e, rest);
                        }
                    }
                    Option::None
                },
            }
        }
    } else {
        match scan_string(s, pos + 1) {
            Option::Some((o, p2)) => {
                let ghost o0 = o@;
                let mut o = o;
                o.insert(0, b);
                proof {
                    assert forall|e: Seq<u8>, rest: Seq<u8>|
                        s@.skip(pos as int) == #[trigger] (esc_bytes(e) + seq![0x22u8] + rest)
                        implies o@ == e && p2 == pos + esc_bytes(e).len() + 1 && p2 <= s@.len() by {
                        if e.len() == 0 {
                            assert(s@.skip(pos as int)[0] == 0x22);
                            assert(false);
                        }
                        lemma_scan_shape(s@, pos as int, e, rest);
                        if e[0] == 0x22 || e[0] == 0x5C {
                            assert(false);
                        }
                        if e[0] < 0x20 {
                            assert(false);
                        }
                        assert(b == e[0]);
                        assert(o0 == e.drop_first());
                        assert(o@ =~= e);
                    }
                }
                Option::Some((o, p2))
            },
            Option::None => {
                proof {
                    assert forall|e: Seq<u8>, rest: Seq<u8>|
                        s@.skip(pos as int) == #[trigger] (esc_bytes(e) + seq![0x22u8] + rest)
                        implies false by {
                        if e.len() == 0 {
                            assert(s@.skip(pos as int)[0] == 0x22);
                            assert(false);
                        }
                        lemma_scan_shape(s@, pos as int, e, rest);
                    }
                }
                Option::None
            },
        }
    }
}

/// Every byte of a decimal form is a digit.
proof fn lemma_dec_digits(v: int, k: int)
    requires
        0 <= v,
        0 <= k < dec_u64_bytes(v).len(),
    ensures
        is_digit(dec_u64_bytes(v)[k]),
    decreases v,
{
    if v < 10 {
    } else {
        if k < dec_u64_bytes(v / 10).len() {
            lemma_dec_digits(v / 10, k);
        }
    }
}

/// A decimal form is never empty.
proof fn lemma_dec_len_pos(n: int)
    ensures
        dec_u64_bytes(n).len() >= 1,
{
    if n < 10 {
    } else {
        assert(dec_u64_bytes(n) == dec_u64_bytes(n / 10) + seq![(0x30 + n % 10) as u8]);
    }
}

fn digit_run_end(s: &[u8], pos: usize) -> (r: usize)
    requires
        pos <= s@.len(),
    ensures
        pos <= r <= s@.len(),
        forall|t: int| pos <= t < r ==> is_digit(s@[t]),
        r < s@.len() ==> !is_digit(s@[r as int]),
{
    let n = s.len();
    let mut r = pos;
    while r < n && s[r] >= 0x30 && s[r] <= 0x39
        invariant
            n == s@.len(),
            pos <= r <= n,
            forall|t: int| pos <= t < r ==> is_digit(s@[t]),
        decreases n - r,
    {
        r += 1;
    }
    r
}

/// Converts a digit run back to its value; every decimal form in range
/// is recovered.
fn digits_value(s: &[u8], start: usize, end: usize) -> (r: Option<u64>)
    requires
        start < end <= s@.len(),
        forall|t: int| start <= t < end ==> is_digit(s@[t]),
    ensures
        forall|v: int|
            (0 <= v <= u64::MAX && s@.subrange(start as int, end as int) == #[trigger]
                dec_u64_bytes(v)) ==> (r matches Option::Some(w) && w as int == v),
    decreases end - start,
{
    if end - start == 1 {
        let d = s[start];
        let w = (d - 0x30) as u64;
        proof {
            assert forall|v: int|
                (0 <= v <= u64::MAX && s@.subrange(start as int, end as int) == #[trigger]
                    dec_u64_bytes(v)) implies w as int == v by {
                if v >= 10 {
                    assert(dec_u64_bytes(v) == dec_u64_bytes(v / 10) + seq![
                        (0x30 + v % 10) as u8,
                    ]);
                    lemma_dec_len_pos(v / 10);
                    assert(false);
                }
                assert(dec_u64_bytes(v)[0] == (0x30 + v) as u8);
                assert(s@.subrange(start as int, end as int)[0] == d);
            }
        }
        return Option::Some(w);
    }
    let last = s[end - 1];
    let dd = (last - 0x30) as u64;
    match digits_value(s, start, end - 1) {
        Option::Some(w1) => {
            if w1 > (0xFFFF_FFFF_FFFF_FFFFu64 - dd) / 10 {
                proof {
                    assert forall|v: int|
                        (0 <= v <= u64::MAX && s@.subrange(start as int, end as int) == #[trigger]
                            dec_u64_bytes(v)) implies false by {
                        digits_prefix(s@, start as int, end as int, v, w1 as int, dd as int);
                    }
                }
                return Option::None;
            }
            let w = w1 * 10 + dd;
            proof {
                assert forall|v: int|
                    (0 <= v <= u64::MAX && s@.subrange(start as int, end as int) == #[trigger]
                        dec_u64_bytes(v)) implies w as int == v by {
                    digits_prefix(s@, start as int, end as int, v, w1 as int, dd as int);
                }
            }
            Option::Some(w)
        },
        Option::None => {
            proof {
                assert forall|v: int|
                    (0 <= v <= u64::MAX && s@.subrange(start as int, end as int) == #[trigger]
                        dec_u64_bytes(v)) implies false by {
                    if v < 10 {
                        assert(dec_u64_bytes(v).len() == 1);
                        assert(false);
                    }
                    assert(dec_u64_bytes(v) == dec_u64_bytes(v / 10) + seq![
                        (0x30 + v % 10) as u8,
                    ]);
                    assert(s@.subrange(start as int, end - 1) =~= dec_u64_bytes(v / 10));
                }
            }
            Option::None
        },
    }
}

/// In a multi-digit decimal form the prefix is the decimal form of the
/// quotient, and the whole value stays within the accumulator's bound.
proof fn digits_prefix(s: Seq<u8>, start: int, end: int, v: int, w1: int, dd: int)
    requires
        0 <= start < end <= s.len(),
        end - start >= 2,
        0 <= v <= u64::MAX,
        s.subrange(start, end) == dec_u64_bytes(v),
        forall|u: int|
            (0 <= u <= u64::MAX && s.subrange(start, end - 1) == #[trigger] dec_u64_bytes(u))
                ==> w1 == u,
        dd == s[end - 1] - 0x30,
    ensures
        v >= 10,
        w1 == v / 10,
        dd == v % 10,
        w1 <= (u64::MAX - dd) / 10,
        w1 * 10 + dd == v,
{
    if v < 10 {
        assert(dec_u64_bytes(v).len() == 1);
        assert(false);
    }
    assert(dec_u64_bytes(v) == dec_u64_bytes(v / 10) + seq![(0x30 + v % 10) as u8]);
    assert(s.subrange(start, end - 1) =~= dec_u64_bytes(v / 10));
    assert(w1 == v / 10);
    assert(dec_u64_bytes(v)[end - 1 - start] == (0x30 + v % 10) as u8);
    assert(s.subrange(start, end)[end - 1 - start] == s[end - 1]);
    assert(dd == v % 10);
    assert(w1 * 10 + dd == v);
    assert(10 * (v / 10) + v % 10 == v);
    assert(w1 <= (u64::MAX - dd) / 10) by (nonlinear_arith)
        requires
            w1 * 10 + dd == v,
            0 <= dd <= 9,
            0 <= v <= u64::MAX,
            w1 >= 0,
    ;
}

/// Reads a decimal integer; every in-range decimal form followed by a
/// non-digit is recovered.
fn parse_i64(s: &[u8], pos: usize) -> (r: Option<(i64, usize)>)
    requires
        pos <= s@.len(),
    ensures
        r matches Option::Some(q) ==> q.1 <= s@.len(),
        forall|v: int, rest: Seq<u8>|
            (i64::MIN <= v <= i64::MAX && s@.skip(pos as int) == #[trigger] (dec_i64_bytes(v)
                + rest) && (rest.len() == 0 || !is_digit(rest[0]))) ==> (r matches Option::Some(q)
                && q.0 as int == v && q.1 == pos + dec_i64_bytes(v).len()),
{
    let n = s.len();
    if pos < n && s[pos] == 0x2D {
        let start = pos + 1;
        let end = digit_run_end(s, start);
        if end == start {
            proof {
                assert forall|v: int, rest: Seq<u8>|
                    (i64::MIN <= v <= i64::MAX && s@.skip(pos as int) == #[trigger] (dec_i64_bytes(
                        v,
                    ) + rest) && (rest.len() == 0 || !is_digit(rest[0]))) implies false by {
                    parse_i64_neg_shape(s@, pos as int, v, rest);
                    lemma_dec_len_pos(-v);
                    lemma_dec_digits(-v, 0);
                    assert(s@.skip(pos + 1).len() >= 1);
                    assert(s@.skip(pos + 1)[0] == dec_u64_bytes(-v)[0]);
                    assert(s@.skip(pos + 1)[0] == s@[pos + 1]);
                    assert(is_digit(s@[pos + 1]));
                }
            }
            return Option::None;
        }
        match digits_value(s, start, end) {
            Option::Some(m) => {
                if m > 9223372036854775808u64 {
                    proof {
                        assert forall|v: int, rest: Seq<u8>|
                            (i64::MIN <= v <= i64::MAX && s@.skip(pos as int) == #[trigger] (
                            dec_i64_bytes(v) + rest) && (rest.len() == 0 || !is_digit(rest[0])))
                            implies false by {
                            parse_i64_neg_shape(s@, pos as int, v, rest);
                            parse_run_exact(s@, start as int, end as int, -v, rest);
                        }
                    }
                    return Option::None;
                }
                let w: i64 = if m == 9223372036854775808u64 {
                    i64::MIN
                } else {
                    -(m as i64)
                };
                proof {
                    assert forall|v: int, rest: Seq<u8>|
                        (i64::MIN <= v <= i64::MAX && s@.skip(pos as int) == #[trigger] (
                        dec_i64_bytes(v) + rest) && (rest.len() == 0 || !is_digit(rest[0])))
                        implies w as int == v && end as int == pos + dec_i64_bytes(v).len() by {
                        parse_i64_neg_shape(s@, pos as int, v, rest);
                        parse_run_exact(s@, start as int, end as int, -v, rest);
                        assert(m as int == -v);
                    }
                }
                Option::Some((w, end))
            },
            Option::None => {
                proof {
                    assert forall|v: int, rest: Seq<u8>|
                        (i64::MIN <= v <= i64::MAX && s@.skip(pos as int) == #[trigger] (
                        dec_i64_bytes(v) + rest) && (rest.len() == 0 || !is_digit(rest[0])))
                        implies false by {
                        parse_i64_neg_shape(s@, pos as int, v, rest);
                        parse_run_exact(s@, start as int, end as int, -v, rest);
                    }
                }
                Option::None
            },
        }
    } else {
        let end = digit_run_end(s, pos);
        if end == pos {
            proof {
                assert forall|v: int, rest: Seq<u8>|
                    (i64::MIN <= v <= i64::MAX && s@.skip(pos as int) == #[trigger] (dec_i64_bytes(
                        v,
                    ) + rest) && (rest.len() == 0 || !is_digit(rest[0]))) implies false by {
                    parse_i64_pos_shape(s@, pos as int, v, rest);
                    lemma_dec_len_pos(v);
                    lemma_dec_digits(v, 0);
                    assert(s@.skip(pos as int)[0] == dec_u64_bytes(v)[0]);
                    assert(is_digit(s@[pos as int]));
                }
            }
            return Option::None;
        }
        match digits_value(s, pos, end) {
            Option::Some(m) => {
                if m > 9223372036854775807u64 {
                    proof {
                        assert forall|v: int, rest: Seq<u8>|
                            (i64::MIN <= v <= i64::MAX && s@.skip(pos as int) == #[trigger] (
                            dec_i64_bytes(v) + rest) && (rest.len() == 0 || !is_digit(rest[0])))
                            implies false by {
                            parse_i64_pos_shape(s@, pos as int, v, rest);
                            parse_run_exact(s@, pos as int, end as int, v, rest);
                        }
                    }
                    return Option::None;
                }
                let w: i64 = m as i64;
                proof {
                    assert forall|v: int, rest: Seq<u8>|
                        (i64::MIN <= v <= i64::MAX && s@.skip(pos as int) == #[trigger] (
                        dec_i64_bytes(v) + rest) && (rest.len() == 0 || !is_digit(rest[0])))
                        implies w as int == v && end as int == pos + dec_i64_bytes(v).len() by {
                        parse_i64_pos_shape(s@, pos as int, v, rest);
                        parse_run_exact(s@, pos as int, end as int, v, rest);
                    }
                }
                Option::Some((w, end))
            },
            Option::None => {
                proof {
                    assert forall|v: int, rest: Seq<u8>|
                        (i64::MIN <= v <= i64::MAX && s@.skip(pos as int) == #[trigger] (
                        dec_i64_bytes(v) + rest) && (rest.len() == 0 || !is_digit(rest[0])))
                        implies false by {
                        parse_i64_pos_shape(s@, pos as int, v, rest);
                        parse_run_exact(s@, pos as int, end as int, v, rest);
                    }
                }
                Option::None
            },
        }
    }
}

/// A negative decimal form starts with the sign and its digits follow.
proof fn parse_i64_neg_shape(s: Seq<u8>, pos: int, v: int, rest: Seq<u8>)
    requires
        0 <= pos < s.len(),
        s[pos] == 0x2D,
        s.skip(pos) == dec_i64_bytes(v) + rest,
    ensures
        v < 0,
        s.skip(pos + 1) == dec_u64_bytes(-v) + rest,
{
    if v >= 0 {
        lemma_dec_len_pos(v);
        lemma_dec_digits(v, 0);
        assert(s.skip(pos)[0] == dec_u64_bytes(v)[0]);
        assert(false);
    }
    assert(dec_i64_bytes(v) == seq![0x2Du8] + dec_u64_bytes(-v));
    assert(s.skip(pos + 1) =~= s.skip(pos).skip(1));
    assert(s.skip(pos).skip(1) =~= dec_u64_bytes(-v) + rest);
}

/// A non-negative decimal form starts with a digit.
proof fn parse_i64_pos_shape(s: Seq<u8>, pos: int, v: int, rest: Seq<u8>)
    requires
        0 <= pos <= s.len(),
        pos < s.len() ==> s[pos] != 0x2D,
        s.skip(pos) == dec_i64_bytes(v) + rest,
    ensures
        v >= 0,
        s.skip(pos) == dec_u64_bytes(v) + rest,
        pos < s.len(),
{
    if v < 0 {
        lemma_dec_len_pos(-v);
        assert(dec_i64_bytes(v) == seq![0x2Du8] + dec_u64_bytes(-v));
        assert(dec_i64_bytes(v).len() >= 2);
        assert(s.skip(pos).len() >= 2);
        assert(s.skip(pos)[0] == 0x2D);
        assert(s[pos] == 0x2D);
        assert(false);
    }
    lemma_dec_len_pos(v);
    assert(s.skip(pos).len() >= 1);
}

/// The digit run at a decimal form covers exactly its digits.
proof fn parse_run_exact(s: Seq<u8>, start: int, end: int, m: int, rest: Seq<u8>)
    requires
        0 <= start <= end <= s.len(),
        m >= 0,
        s.skip(start) == dec_u64_bytes(m) + rest,
        rest.len() == 0 || !is_digit(rest[0]),
        forall|t: int| start <= t < end ==> is_digit(s[t]),
        end < s.len() ==> !is_digit(s[end]),
        start < end || end == start,
    ensures
        end == start + dec_u64_bytes(m).len(),
        end > start ==> s.subrange(start, end) == dec_u64_bytes(m),
{
    let d = dec_u64_bytes(m);
    if end < start + d.len() {
        if end == s.len() {
            assert(false);
        } else {
            assert(s.skip(start)[end - start] == d[end - start]);
            lemma_dec_digits(m, end - start);
            assert(false);
        }
    }
    if end > start + d.len() {
        assert(s.skip(start)[d.len() as int] == rest[0]);
        assert(is_digit(s[start + d.len()]));
        assert(false);
    }
    if end > start {
        assert(s.subrange(start, end) =~= d);
    }
}

/// The canonical byte form of these claims, exactly `claims_bytes`.
pub fn claims_to_bytes(c: &Claims) -> (r: Vec<u8>)
    ensures
        r@ == claims_bytes(c@),
{
    let mut out: Vec<u8> = Vec::new();
    let l1: [u8; 10] = [0x7B, 0x22, 0x65, 0x6D, 0x61, 0x69, 0x6C, 0x22, 0x3A, 0x22];
    let l2: [u8; 10] = [0x22, 0x2C, 0x22, 0x72, 0x6F, 0x6C, 0x65, 0x22, 0x3A, 0x22];
    let l3: [u8; 7] = [0x22, 0x2C, 0x22, 0x69, 0x64, 0x22, 0x3A];
    let l4: [u8; 7] = [0x2C, 0x22, 0x65, 0x78, 0x70, 0x22, 0x3A];
    let l5: [u8; 15] = [
        0x2C,
        0x22,
        0x74,
        0x6F,
        0x6B,
        0x65,
        0x6E,
        0x5F,
        0x74,
        0x79,
        0x70,
        0x65,
        0x22,
        0x3A,
        0x22,
    ];
    let l6: [u8; 2] = [0x22, 0x7D];
    proof {
        assert(l1@ =~= lit_email());
        assert(l2@ =~= lit_role());
        assert(l3@ =~= lit_id());
        assert(l4@ =~= lit_exp());
        assert(l5@ =~= lit_kind());
        assert(l6@ =~= lit_close());
    }
    push_bytes(&mut out, l1.as_slice());
    let email_raw = c.email.as_str().as_bytes();
    push_escaped(&mut out, email_raw);
    push_bytes(&mut out, l2.as_slice());
    match c.role {
        Role::ADMIN => {
            let rb: [u8; 5] = [0x41, 0x44, 0x4D, 0x49, 0x4E];
            proof {
                assert(rb@ =~= role_bytes(Role::ADMIN));
            }
            push_bytes(&mut out, rb.as_slice());
        },
        Role::USER => {
            let rb: [u8; 4] = [0x55, 0x53, 0x45, 0x52];
            proof {
                assert(rb@ =~= role_bytes(Role::USER));
            }
            push_bytes(&mut out, rb.as_slice());
        },
    }
    push_bytes(&mut out, l3.as_slice());
    push_dec_i64(&mut out, c.id);
    push_bytes(&mut out, l4.as_slice());
    push_dec_i64(&mut out, c.exp);
    push_bytes(&mut out, l5.as_slice());
    match c.token_type {
        TokenType::AccessToken => {
            let kb: [u8; 11] = [0x41, 0x63, 0x63, 0x65, 0x73, 0x73, 0x54, 0x6F, 0x6B, 0x65, 0x6E];
            proof {
                assert(kb@ =~= kind_bytes(TokenType::AccessToken));
            }
            push_bytes(&mut out, kb.as_slice());
        },
        TokenType::RefreshToken => {
            let kb: [u8; 12] = [
                0x52,
                0x65,
                0x66,
                0x72,
                0x65,
                0x73,
                0x68,
                0x54,
                0x6F,
                0x6B,
                0x65,
                0x6E,
            ];
            proof {
                assert(kb@ =~= kind_bytes(TokenType::RefreshToken));
            }
            push_bytes(&mut out, kb.as_slice());
        },
    }
    push_bytes(&mut out, l6.as_slice());
    proof {
        assert(out@ =~= claims_bytes(c@));
    }
    out
}

/// Parses the canonical byte form back into claims.  The parser is
/// exact in both directions: the canonical form of any well-formed
/// claims value is recovered field by field, and whatever comes out
/// re-encodes to precisely the input — nothing else is accepted.
#[verifier::rlimit(100)]
pub fn claims_from_bytes(s: &[u8]) -> (r: Option<Claims>)
    ensures
        r matches Option::Some(d) ==> s@ == claims_bytes(d@) && claims_v_wf(d@),
        forall|c: ClaimsV|
            (claims_v_wf(c) && s@ == #[trigger] claims_bytes(c)) ==> (r matches Option::Some(d)
                && d@ == c),
{
    let n = s.len();
    let l1: [u8; 10] = [0x7B, 0x22, 0x65, 0x6D, 0x61, 0x69, 0x6C, 0x22, 0x3A, 0x22];
    let l2: [u8; 9] = [0x2C, 0x22, 0x72, 0x6F, 0x6C, 0x65, 0x22, 0x3A, 0x22];
    let l3: [u8; 7] = [0x22, 0x2C, 0x22, 0x69, 0x64, 0x22, 0x3A];
    let l4: [u8; 7] = [0x2C, 0x22, 0x65, 0x78, 0x70, 0x22, 0x3A];
    let l5: [u8; 15] = [
        0x2C,
        0x22,
        0x74,
        0x6F,
        0x6B,
        0x65,
        0x6E,
        0x5F,
        0x74,
        0x79,
        0x70,
        0x65,
        0x22,
        0x3A,
        0x22,
    ];
    let l6: [u8; 2] = [0x22, 0x7D];
    let adm: [u8; 5] = [0x41, 0x44, 0x4D, 0x49, 0x4E];
    let usr: [u8; 4] = [0x55, 0x53, 0x45, 0x52];
    let acc: [u8; 11] = [0x41, 0x63, 0x63, 0x65, 0x73, 0x73, 0x54, 0x6F, 0x6B, 0x65, 0x6E];
    let rfr: [u8; 12] = [0x52, 0x65, 0x66, 0x72, 0x65, 0x73, 0x68, 0x54, 0x6F, 0x6B, 0x65, 0x6E];
    proof {
        assert(l1@ =~= lit_email());
        assert(l2@ =~= lit_role_tail());
        assert(l3@ =~= lit_id());
        assert(l4@ =~= lit_exp());
        assert(l5@ =~= lit_kind());
        assert(l6@ =~= lit_close());
        assert(adm@ =~= role_bytes(Role::ADMIN));
        assert(usr@ =~= role_bytes(Role::USER));
        assert(acc@ =~= kind_bytes(TokenType::AccessToken));
        assert(rfr@ =~= kind_bytes(TokenType::RefreshToken));
    }
    let p1 = match expect_bytes(s, 0, l1.as_slice()) {
        Option::Some(p) => p,
        Option::None => {
            proof {
                assert forall|c: ClaimsV| claims_v_wf(c) && s@ == #[trigger] claims_bytes(c)
                    implies false by {
                    lemma_claims_layout(s@, c);
                }
            }
            return Option::None;
        },
    };
    let sc = scan_string(s, p1);
    let (email_bytes, p2) = match sc {
        Option::Some(q) => q,
        Option::None => {
            proof {
                assert forall|c: ClaimsV| claims_v_wf(c) && s@ == #[trigger] claims_bytes(c)
                    implies false by {
                    lemma_claims_layout(s@, c);
                }
            }
            return Option::None;
        },
    };
    let p3 = match expect_bytes(s, p2, l2.as_slice()) {
        Option::Some(p) => p,
        Option::None => {
            proof {
                assert forall|c: ClaimsV| claims_v_wf(c) && s@ == #[trigger] claims_bytes(c)
                    implies false by {
                    lemma_claims_layout(s@, c);
                    assert(p2 == off_email_end(c));
                }
            }
            return Option::None;
        },
    };
    let (role, p4) = match expect_bytes(s, p3, adm.as_slice()) {
        Option::Some(p) => (Role::ADMIN, p),
        Option::None => {
            match expect_bytes(s, p3, usr.as_slice()) {
                Option::Some(p) => (Role::USER, p),
                Option::None => {
                    proof {
                        assert forall|c: ClaimsV| claims_v_wf(c) && s@ == #[trigger] claims_bytes(
                            c,
                        ) implies false by {
                            lemma_claims_layout(s@, c);
                            assert(p2 == off_email_end(c));
                            assert(p3 == off_role(c));
                        }
                    }
                    return Option::None;
                },
            }
        },
    };
    let p5 = match expect_bytes(s, p4, l3.as_slice()) {
        Option::Some(p) => p,
        Option::None => {
            proof {
                assert forall|c: ClaimsV| claims_v_wf(c) && s@ == #[trigger] claims_bytes(c)
                    implies false by {
                    lemma_claims_layout(s@, c);
                    assert(p2 == off_email_end(c));
                    assert(p3 == off_role(c));
                    claims_role_agrees(s@, c, p3 as int, role, p4 as int);
                }
            }
            return Option::None;
        },
    };
    let pi = parse_i64(s, p5);
    let (id_val, p6) = match pi {
        Option::Some(q) => q,
        Option::None => {
            proof {
                assert forall|c: ClaimsV| claims_v_wf(c) && s@ == #[trigger] claims_bytes(c)
                    implies false by {
                    lemma_claims_layout(s@, c);
                    assert(p2 == off_email_end(c));
                    assert(p3 == off_role(c));
                    claims_role_agrees(s@, c, p3 as int, role, p4 as int);
                    assert(p5 == off_id(c));
                    claims_id_rest(s@, c);
                }
            }
            return Option::None;
        },
    };
    let p7 = match expect_bytes(s, p6, l4.as_slice()) {
        Option::Some(p) => p,
        Option::None => {
            proof {
                assert forall|c: ClaimsV| claims_v_wf(c) && s@ == #[trigger] claims_bytes(c)
                    implies false by {
                    lemma_claims_layout(s@, c);
                    assert(p2 == off_email_end(c));
                    assert(p3 == off_role(c));
                    claims_role_agrees(s@, c, p3 as int, role, p4 as int);
                    assert(p5 == off_id(c));
                    claims_id_rest(s@, c);
                    assert(p6 == off_lit_exp(c));
                }
            }
            return Option::None;
        },
    };
    let pe = parse_i64(s, p7);
    let (exp_val, p8) = match pe {
        Option::Some(q) => q,
        Option::None => {
            proof {
                assert forall|c: ClaimsV| claims_v_wf(c) && s@ == #[trigger] claims_bytes(c)
                    implies false by {
                    lemma_claims_layout(s@, c);
                    assert(p2 == off_email_end(c));
                    assert(p3 == off_role(c));
                    claims_role_agrees(s@, c, p3 as int, role, p4 as int);
                    assert(p5 == off_id(c));
                    claims_id_rest(s@, c);
                    assert(p6 == off_lit_exp(c));
                    assert(p7 == off_exp(c));
                    claims_exp_rest(s@, c);
                }
            }
            return Option::None;
        },
    };
    let p9 = match expect_bytes(s, p8, l5.as_slice()) {
        Option::Some(p) => p,
        Option::None => {
            proof {
                assert forall|c: ClaimsV| claims_v_wf(c) && s@ == #[trigger] claims_bytes(c)
                    implies false by {
                    lemma_claims_layout(s@, c);
                    assert(p2 == off_email_end(c));
                    assert(p3 == off_role(c));
                    claims_role_agrees(s@, c, p3 as int, role, p4 as int);
                    assert(p5 == off_id(c));
                    claims_id_rest(s@, c);
                    assert(p6 == off_lit_exp(c));
                    assert(p7 == off_exp(c));
                    claims_exp_rest(s@, c);
                    assert(p8 == off_lit_kind(c));
                }
            }
            return Option::None;
        },
    };
    let (kind, p10) = match expect_bytes(s, p9, acc.as_slice()) {
        Option::Some(p) => (TokenType::AccessToken, p),
        Option::None => {
            match expect_bytes(s, p9, rfr.as_slice()) {
                Option::Some(p) => (TokenType::RefreshToken, p),
                Option::None => {
                    proof {
                        assert forall|c: ClaimsV| claims_v_wf(c) && s@ == #[trigger] claims_bytes(
                            c,
                        ) implies false by {
                            lemma_claims_layout(s@, c);
                            assert(p2 == off_email_end(c));
                            assert(p3 == off_role(c));
                            claims_role_agrees(s@, c, p3 as int, role, p4 as int);
                            assert(p5 == off_id(c));
                            claims_id_rest(s@, c);
                            assert(p6 == off_lit_exp(c));
                            assert(p7 == off_exp(c));
                            claims_exp_rest(s@, c);
                            assert(p8 == off_lit_kind(c));
                            assert(p9 == off_kind(c));
                        }
                    }
                    return Option::None;
                },
            }
        },
    };
    let p11 = match expect_bytes(s, p10, l6.as_slice()) {
        Option::Some(p) => p,
        Option::None => {
            proof {
                assert forall|c: ClaimsV| claims_v_wf(c) && s@ == #[trigger] claims_bytes(c)
                    implies false by {
                    lemma_claims_layout(s@, c);
                    assert(p2 == off_email_end(c));
                    assert(p3 == off_role(c));
                    claims_role_agrees(s@, c, p3 as int, role, p4 as int);
                    assert(p5 == off_id(c));
                    claims_id_rest(s@, c);
                    assert(p6 == off_lit_exp(c));
                    assert(p7 == off_exp(c));
                    claims_exp_rest(s@, c);
                    assert(p8 == off_lit_kind(c));
                    assert(p9 == off_kind(c));
                    claims_kind_agrees(s@, c, p9 as int, kind, p10 as int);
                    assert(p10 == off_close(c));
                }
            }
            return Option::None;
        },
    };
    if p11 != n {
        proof {
            assert forall|c: ClaimsV| claims_v_wf(c) && s@ == #[trigger] claims_bytes(c)
                implies false by {
                lemma_claims_layout(s@, c);
                assert(p2 == off_email_end(c));
                assert(p3 == off_role(c));
                claims_role_agrees(s@, c, p3 as int, role, p4 as int);
                assert(p5 == off_id(c));
                claims_id_rest(s@, c);
                assert(p6 == off_lit_exp(c));
                assert(p7 == off_exp(c));
                claims_exp_rest(s@, c);
                assert(p8 == off_lit_kind(c));
                assert(p9 == off_kind(c));
                claims_kind_agrees(s@, c, p9 as int, kind, p10 as int);
                assert(p10 == off_close(c));
                assert(p11 == off_close(c) + 2);
            }
        }
        return Option::None;
    }
    let email = match crate::utils::string_from_utf8(email_bytes) {
        Option::Some(e) => e,
        Option::None => {
            proof {
                assert forall|c: ClaimsV| claims_v_wf(c) && s@ == #[trigger] claims_bytes(c)
                    implies false by {
                    lemma_claims_layout(s@, c);
                    vstd::utf8::encode_utf8_valid_utf8(c.email);
                }
            }
            return Option::None;
        },
    };
    let out = Claims { email, role, id: id_val, exp: exp_val, token_type: kind };
    proof {
        assert forall|c: ClaimsV| claims_v_wf(c) && s@ == #[trigger] claims_bytes(c) implies out@
            == c by {
            lemma_claims_layout(s@, c);
            assert(p2 == off_email_end(c));
            assert(p3 == off_role(c));
            claims_role_agrees(s@, c, p3 as int, role, p4 as int);
            assert(p5 == off_id(c));
            claims_id_rest(s@, c);
            assert(id_val as int == c.id);
            assert(p6 == off_lit_exp(c));
            assert(p7 == off_exp(c));
            claims_exp_rest(s@, c);
            assert(exp_val as int == c.exp);
            assert(p8 == off_lit_kind(c));
            assert(p9 == off_kind(c));
            claims_kind_agrees(s@, c, p9 as int, kind, p10 as int);
            assert(email_bytes@ == encode_utf8(c.email));
            vstd::utf8::encode_utf8_decode_utf8(out.email@);
            vstd::utf8::encode_utf8_decode_utf8(c.email);
            assert(out.email@ == c.email);
        }
    }
    // the exactness check: only the canonical form of the parsed claims
    // is accepted, so the result always re-encodes to the input
    let reencoded = claims_to_bytes(&out);
    if !crate::utils::bytes_eq(reencoded.as_slice(), s) {
        proof {
            assert forall|c: ClaimsV| claims_v_wf(c) && s@ == #[trigger] claims_bytes(c)
                implies false by {
                assert(out@ == c);
                assert(reencoded@ == claims_bytes(c));
            }
        }
        return Option::None;
    }
    Option::Some(out)
}

/// The role field of the canonical form pins which branch matched.
proof fn claims_role_agrees(s: Seq<u8>, c: ClaimsV, p3: int, role: Role, p4: int)
    requires
        s == claims_bytes(c),
        p3 == off_role(c),
        (role is ADMIN && p4 == p3 + 5 && p3 + 5 <= s.len() && s.subrange(p3, p3 + 5)
            == role_bytes(Role::ADMIN)) || (role is USER && p4 == p3 + 4 && p3 + 4 <= s.len()
            && s.subrange(p3, p3 + 4) == role_bytes(Role::USER)),
    ensures
        role == c.role,
        p4 == off_lit_id(c),
{
    lemma_claims_layout(s, c);
    if role is ADMIN && c.role is USER {
        assert(s.subrange(p3, p3 + 5)[0] == s[p3]);
        assert(s.subrange(off_role(c), off_lit_id(c))[0] == s[p3]);
        assert(false);
    }
    if role is USER && c.role is ADMIN {
        assert(s.subrange(p3, p3 + 4)[0] == s[p3]);
        assert(s.subrange(off_role(c), off_lit_id(c))[0] == s[p3]);
        assert(false);
    }
}

/// The kind field of the canonical form pins which branch matched.
proof fn claims_kind_agrees(s: Seq<u8>, c: ClaimsV, p9: int, kind: TokenType, p10: int)
    requires
        s == claims_bytes(c),
        p9 == off_kind(c),
        (kind is AccessToken && p10 == p9 + 11 && p9 + 11 <= s.len() && s.subrange(p9, p9 + 11)
            == kind_bytes(TokenType::AccessToken)) || (kind is RefreshToken && p10 == p9 + 12 && p9
            + 12 <= s.len() && s.subrange(p9, p9 + 12) == kind_bytes(TokenType::RefreshToken)),
    ensures
        kind == c.token_type,
        p10 == off_close(c),
{
    lemma_claims_layout(s, c);
    if kind is AccessToken && c.token_type is RefreshToken {
        assert(s.subrange(p9, p9 + 11)[0] == s[p9]);
        assert(s.subrange(off_kind(c), off_close(c))[0] == s[p9]);
        assert(false);
    }
    if kind is RefreshToken && c.token_type is AccessToken {
        assert(s.subrange(p9, p9 + 12)[0] == s[p9]);
        assert(s.subrange(off_kind(c), off_close(c))[0] == s[p9]);
        assert(false);
    }
}

/// What follows the id field starts with a comma, never a digit.
proof fn claims_id_rest(s: Seq<u8>, c: ClaimsV)
    requires
        s == claims_bytes(c),
    ensures
        s.skip(off_lit_exp(c)).len() > 0,
        !is_digit(s.skip(off_lit_exp(c))[0]),
{
    lemma_claims_layout(s, c);
    assert(s.skip(off_lit_exp(c))[0] == s[off_lit_exp(c)]);
}

/// What follows the exp field starts with a comma, never a digit.
proof fn claims_exp_rest(s: Seq<u8>, c: ClaimsV)
    requires
        s == claims_bytes(c),
    ensures
        s.skip(off_lit_kind(c)).len() > 0,
        !is_digit(s.skip(off_lit_kind(c))[0]),
{
    lemma_claims_layout(s, c);
    assert(s.skip(off_lit_kind(c))[0] == s[off_lit_kind(c)]);
}

} // verus!
