//! The textual serialization of a record collection.
//!
//! The format is line-oriented, length-prefixed text. Every number is a
//! canonical decimal (no leading zeros, `-` only for negatives) on a
//! line of its own; every string field is a byte-count line followed by
//! the field's UTF-8 bytes and a closing newline. A collection is its
//! record count followed by the records in order. The encoding is
//! canonical: the parser accepts exactly the byte strings the
//! serializer produces, which gives an exact round trip.

use vstd::prelude::*;
use crate::records::{SshKey, SshKeyView};
use crate::cipher::{bytes_to_string, subvec};

verus! {

use vstd::utf8::{encode_utf8, decode_utf8, valid_utf8};

/// The canonical decimal digits of `n`, most significant first.
pub open spec fn dec_digits(n: nat) -> Seq<u8>
    decreases n,
{
    if n < 10 {
        seq![(48 + n) as u8]
    } else {
        dec_digits(n / 10).push((48 + n % 10) as u8)
    }
}

/// The canonical decimal of a possibly negative number.
pub open spec fn dec_int(n: int) -> Seq<u8> {
    if n >= 0 {
        dec_digits(n as nat)
    } else {
        seq![45u8] + dec_digits((-n) as nat)
    }
}

/// `pat` occurs in `b` exactly at position `pos`.
pub open spec fn starts_with_at(b: Seq<u8>, pat: Seq<u8>, pos: int) -> bool {
    0 <= pos && pos + pat.len() <= b.len() && b.subrange(pos, pos + pat.len()) == pat
}

proof fn lemma_dec_digits_are_digits(n: nat)
    ensures
        dec_digits(n).len() >= 1,
        forall|i: int|
            0 <= i < dec_digits(n).len() ==> 48 <= #[trigger] dec_digits(n)[i] <= 57,
    decreases n,
{
    if n >= 10 {
        lemma_dec_digits_are_digits(n / 10);
    }
}

proof fn lemma_dec_digits_len1(n: nat)
    ensures
        (dec_digits(n).len() == 1) <==> (n < 10),
    decreases n,
{
    if n >= 10 {
        lemma_dec_digits_len1(n / 10);
    }
}

proof fn lemma_dec_digits_leading(n: nat)
    requires
        n >= 1,
    ensures
        dec_digits(n)[0] != 48,
    decreases n,
{
    if n >= 10 {
        lemma_dec_digits_leading(n / 10);
        lemma_dec_digits_are_digits(n / 10);
    }
}

proof fn lemma_dec_digits_inj(a: nat, b: nat)
    requires
        dec_digits(a) == dec_digits(b),
    ensures
        a == b,
    decreases a,
{
    lemma_dec_digits_len1(a);
    lemma_dec_digits_len1(b);
    if a < 10 && b < 10 {
        assert(dec_digits(a)[0] == (48 + a) as u8);
        assert(dec_digits(b)[0] == (48 + b) as u8);
        assert(48 + a < 256 && 48 + b < 256);
        assert(dec_digits(a)[0] == dec_digits(b)[0]);
    } else if a >= 10 && b >= 10 {
        assert(dec_digits(a).last() == dec_digits(b).last());
        assert(dec_digits(a).last() == (48 + a % 10) as u8);
        assert(48 + a % 10 < 256 && 48 + b % 10 < 256);
        assert(a % 10 == b % 10);
        assert(dec_digits(a).drop_last() =~= dec_digits(a / 10));
        assert(dec_digits(b).drop_last() =~= dec_digits(b / 10));
        lemma_dec_digits_inj(a / 10, b / 10);
    } else {
        assert(dec_digits(a).len() == dec_digits(b).len());
        assert(false);
    }
}

proof fn lemma_dec_digits_step(a: nat, d: nat)
    requires
        a >= 1,
        d < 10,
    ensures
        dec_digits(a * 10 + d) == dec_digits(a).push((48 + d) as u8),
{
    let m = a * 10 + d;
    assert(m >= 10) by (nonlinear_arith)
        requires
            a >= 1,
            d < 10,
            m == a * 10 + d,
    ;
    assert(m / 10 == a && m % 10 == d) by (nonlinear_arith)
        requires
            m == a * 10 + d,
            a >= 1,
            0 <= d < 10,
    ;
}

proof fn lemma_dec_prefix_le(a: nat, v: nat)
    requires
        dec_digits(a).len() <= dec_digits(v).len(),
        dec_digits(v).subrange(0, dec_digits(a).len() as int) == dec_digits(a),
    ensures
        a <= v,
    decreases v,
{
    if dec_digits(a).len() == dec_digits(v).len() {
        assert(dec_digits(v).subrange(0, dec_digits(v).len() as int) =~= dec_digits(v));
        lemma_dec_digits_inj(a, v);
    } else {
        lemma_dec_digits_len1(a);
        lemma_dec_digits_len1(v);
        assert(v >= 10);
        assert(dec_digits(v).drop_last() =~= dec_digits(v / 10));
        assert(dec_digits(v / 10).subrange(0, dec_digits(a).len() as int) =~= dec_digits(a));
        lemma_dec_prefix_le(a, v / 10);
    }
}

/// Two newline-terminated lines of newline-free bytes that start at the
/// same position of the same byte string are the same line.
proof fn lemma_line_unique(b: Seq<u8>, x: Seq<u8>, y: Seq<u8>, pos: int)
    requires
        starts_with_at(b, x.push(10u8), pos),
        starts_with_at(b, y.push(10u8), pos),
        forall|i: int| 0 <= i < x.len() ==> #[trigger] x[i] != 10,
        forall|i: int| 0 <= i < y.len() ==> #[trigger] y[i] != 10,
    ensures
        x == y,
{
    if x.len() < y.len() {
        assert(b[pos + x.len()] == x.push(10u8)[x.len() as int]);
        assert(b[pos + x.len()] == y.push(10u8)[x.len() as int]);
        assert(y[x.len() as int] == 10);
        assert(false);
    } else if y.len() < x.len() {
        assert(b[pos + y.len()] == y.push(10u8)[y.len() as int]);
        assert(b[pos + y.len()] == x.push(10u8)[y.len() as int]);
        assert(x[y.len() as int] == 10);
        assert(false);
    } else {
        assert forall|i: int| 0 <= i < x.len() implies x[i] == y[i] by {
            assert(x.push(10u8)[i] == b[pos + i]);
            assert(y.push(10u8)[i] == b[pos + i]);
        }
        assert(x =~= y);
    }
}

/// The canonical decimal line of `v`, as bytes.
fn u64_to_dec(v: u64) -> (r: Vec<u8>)
    ensures
        r@ == dec_digits(v as nat),
    decreases v,
{
    if v < 10 {
        let mut r: Vec<u8> = Vec::new();
        r.push(48 + v as u8);
        proof {
            assert(r@ =~= dec_digits(v as nat));
        }
        r
    } else {
        let mut r = u64_to_dec(v / 10);
        r.push(48 + (v % 10) as u8);
        r
    }
}

/// The canonical decimal of a signed number, as bytes.
fn i64_to_dec(v: i64) -> (r: Vec<u8>)
    ensures
        r@ == dec_int(v as int),
{
    if v >= 0 {
        u64_to_dec(v as u64)
    } else {
        let mag: u64 = ((-(v + 1)) as u64) + 1;
        proof {
            assert(mag as nat == (-(v as int)) as nat);
        }
        let mut r: Vec<u8> = Vec::new();
        r.push(45);
        let mut digits = u64_to_dec(mag);
        r.append(&mut digits);
        proof {
            assert(r@ =~= seq![45u8] + dec_digits((-(v as int)) as nat));
        }
        r
    }
}

/// Parse one canonical decimal line. On success the consumed bytes are
/// exactly `dec_digits(value)` and the closing newline; the second
/// clause says that wherever such a line stands, parsing finds it.
fn parse_dec_u64(bytes: &Vec<u8>, pos: usize) -> (r: Option<(u64, usize)>)
    requires
        pos <= bytes@.len(),
    ensures
        r matches Some(p) ==> pos < p.1 <= bytes@.len() && bytes@.subrange(pos as int, p.1 as int)
            == dec_digits(p.0 as nat).push(10u8),
        forall|v: nat|
            v <= u64::MAX && starts_with_at(bytes@, #[trigger] dec_digits(v).push(10u8), pos as int)
                ==> (r matches Some(p) && p.0 == v && p.1 == pos + dec_digits(v).len() + 1),
{
    let n = bytes.len();
    if pos >= n {
        proof {
            assert forall|v: nat|
                v <= u64::MAX && starts_with_at(
                    bytes@,
                    #[trigger] dec_digits(v).push(10u8),
                    pos as int,
                ) implies false by {
                lemma_dec_digits_are_digits(v);
            }
        }
        return None;
    }
    let b0 = bytes[pos];
    if !(48 <= b0 && b0 <= 57) {
        proof {
            assert forall|v: nat|
                v <= u64::MAX && starts_with_at(
                    bytes@,
                    #[trigger] dec_digits(v).push(10u8),
                    pos as int,
                ) implies false by {
                lemma_dec_digits_are_digits(v);
                assert(bytes@[pos as int] == dec_digits(v).push(10u8)[0]);
            }
        }
        return None;
    }
    let mut acc: u64 = (b0 - 48) as u64;
    let mut cur: usize = pos + 1;
    proof {
        assert(bytes@.subrange(pos as int, cur as int) =~= dec_digits(acc as nat));
    }
    loop
        invariant
            pos < cur <= n,
            n == bytes@.len(),
            acc <= u64::MAX,
            bytes@.subrange(pos as int, cur as int) == dec_digits(acc as nat),
            acc == 0 ==> cur == pos + 1,
        decreases n - cur,
    {
        proof {
            lemma_dec_digits_are_digits(acc as nat);
        }
        if cur >= n {
            proof {
                assert forall|v: nat|
                    v <= u64::MAX && starts_with_at(
                        bytes@,
                        #[trigger] dec_digits(v).push(10u8),
                        pos as int,
                    ) implies false by {
                    lemma_dec_digits_are_digits(v);
                    lemma_no_room(bytes@, acc as nat, v, pos as int, cur as int);
                    lemma_dec_digits_are_digits(acc as nat);
                }
            }
            return None;
        }
        let b = bytes[cur];
        if b == 10 {
            proof {
                assert(bytes@.subrange(pos as int, (cur + 1) as int) =~= dec_digits(
                    acc as nat,
                ).push(10u8));
                assert forall|v: nat|
                    v <= u64::MAX && starts_with_at(
                        bytes@,
                        #[trigger] dec_digits(v).push(10u8),
                        pos as int,
                    ) implies v == acc as nat && pos + dec_digits(v).len() + 1 == cur + 1 by {
                    lemma_dec_digits_are_digits(v);
                    lemma_dec_digits_are_digits(acc as nat);
                    assert(starts_with_at(bytes@, dec_digits(acc as nat).push(10u8), pos as int));
                    lemma_line_unique(bytes@, dec_digits(acc as nat), dec_digits(v), pos as int);
                    lemma_dec_digits_inj(acc as nat, v);
                }
            }
            return Some((acc, cur + 1));
        }
        if !(48 <= b && b <= 57) {
            proof {
                assert forall|v: nat|
                    v <= u64::MAX && starts_with_at(
                        bytes@,
                        #[trigger] dec_digits(v).push(10u8),
                        pos as int,
                    ) implies false by {
                    lemma_dec_digits_are_digits(v);
                    lemma_mid_byte(bytes@, acc as nat, v, pos as int, cur as int);
                }
            }
            return None;
        }
        let d = b - 48;
        if acc == 0 {
            proof {
                assert forall|v: nat|
                    v <= u64::MAX && starts_with_at(
                        bytes@,
                        #[trigger] dec_digits(v).push(10u8),
                        pos as int,
                    ) implies false by {
                    lemma_dec_digits_are_digits(v);
                    let line = dec_digits(v).push(10u8);
                    assert(bytes@.subrange(pos as int, pos + line.len())[0] == line[0]);
                    assert(dec_digits(v)[0] == bytes@[pos as int]);
                    assert(dec_digits(0nat) =~= seq![48u8]);
                    assert(bytes@.subrange(pos as int, cur as int)[0] == bytes@[pos as int]);
                    assert(bytes@[pos as int] == 48);
                    if v >= 1 {
                        lemma_dec_digits_leading(v);
                    }
                    assert(v == 0);
                    assert(bytes@.subrange(pos as int, pos + line.len())[1] == line[1]);
                    assert(bytes@[(pos + 1) as int] == 10);
                }
            }
            return None;
        }
        if acc > (u64::MAX - d as u64) / 10 {
            proof {
                assert forall|v: nat|
                    v <= u64::MAX && starts_with_at(
                        bytes@,
                        #[trigger] dec_digits(v).push(10u8),
                        pos as int,
                    ) implies false by {
                    lemma_dec_digits_are_digits(v);
                    lemma_mid_byte(bytes@, acc as nat, v, pos as int, cur as int);
                    lemma_dec_digits_step(acc as nat, d as nat);
                    assert(bytes@.subrange(pos as int, (cur + 1) as int) =~= dec_digits(
                        acc as nat,
                    ).push(b));
                    assert(dec_digits(v).subrange(0, (cur + 1 - pos) as int) =~= bytes@.subrange(
                        pos as int,
                        (cur + 1) as int,
                    ));
                    lemma_dec_prefix_le(acc as nat * 10 + d as nat, v);
                    let big = (u64::MAX - d as u64) / 10;
                    assert(big * 10 + (u64::MAX - d as u64) % 10 == u64::MAX - d as u64);
                    assert(acc as nat * 10 >= (big as nat + 1) * 10) by (nonlinear_arith)
                        requires
                            acc as nat >= big as nat + 1,
                    ;
                    assert((big as nat + 1) * 10 == big as nat * 10 + 10);
                }
            }
            return None;
        }
        proof {
            lemma_dec_digits_step(acc as nat, d as nat);
            assert(bytes@.subrange(pos as int, (cur + 1) as int) =~= dec_digits(acc as nat).push(
                b,
            ));
        }
        acc = acc * 10 + d as u64;
        cur = cur + 1;
    }
}

/// A canonical decimal prefix that is still followed by more input
/// cannot be a whole canonical decimal line of the same text when the
/// byte after the prefix is not a newline; this pins the hypothetical
/// line's digits to extend the prefix.
proof fn lemma_mid_byte(b: Seq<u8>, a: nat, v: nat, pos: int, cur: int)
    requires
        0 <= pos < cur <= b.len(),
        cur < b.len(),
        b.subrange(pos, cur) == dec_digits(a),
        starts_with_at(b, dec_digits(v).push(10u8), pos),
        b[cur] != 10,
    ensures
        cur - pos < dec_digits(v).len(),
        dec_digits(v).subrange(0, cur - pos) == dec_digits(a),
        dec_digits(v)[cur - pos] == b[cur],
{
    lemma_dec_digits_are_digits(a);
    lemma_dec_digits_are_digits(v);
    let line = dec_digits(v).push(10u8);
    if cur - pos > dec_digits(v).len() {
        assert(b[pos + dec_digits(v).len()] == line[dec_digits(v).len() as int]);
        assert(dec_digits(a)[dec_digits(v).len() - 0 - pos + pos - pos] == 10 || true);
        assert(b.subrange(pos, cur)[dec_digits(v).len() as int] == 10);
        assert(false);
    }
    if cur - pos == dec_digits(v).len() {
        assert(b[cur] == line[cur - pos]);
        assert(false);
    }
    assert forall|i: int| 0 <= i < cur - pos implies dec_digits(v)[i] == dec_digits(a)[i] by {
        assert(b[pos + i] == line[i]);
        assert(b.subrange(pos, cur)[i] == b[pos + i]);
    }
    assert(dec_digits(v).subrange(0, cur - pos) =~= dec_digits(a));
    assert(b[cur] == line[cur - pos]);
}

/// A whole decimal line that fits before `cur` puts its newline among
/// the bytes consumed so far.
proof fn lemma_no_room(b: Seq<u8>, a: nat, v: nat, pos: int, cur: int)
    requires
        0 <= pos < cur <= b.len(),
        cur == b.len(),
        b.subrange(pos, cur) == dec_digits(a),
        starts_with_at(b, dec_digits(v).push(10u8), pos),
    ensures
        dec_digits(v).len() < cur - pos,
        dec_digits(a)[dec_digits(v).len() as int] == 10,
{
    lemma_dec_digits_are_digits(a);
    lemma_dec_digits_are_digits(v);
    let line = dec_digits(v).push(10u8);
    assert(pos + line.len() <= b.len());
    assert(dec_digits(v).len() + 1 <= cur - pos);
    assert(b[pos + dec_digits(v).len()] == line[dec_digits(v).len() as int]);
    assert(b.subrange(pos, cur)[dec_digits(v).len() as int] == 10);
}

/// Parse one canonical signed decimal line.
fn parse_dec_i64(bytes: &Vec<u8>, pos: usize) -> (r: Option<(i64, usize)>)
    requires
        pos <= bytes@.len(),
    ensures
        r matches Some(p) ==> pos < p.1 <= bytes@.len() && bytes@.subrange(pos as int, p.1 as int)
            == dec_int(p.0 as int).push(10u8),
        forall|v: int|
            i64::MIN <= v <= i64::MAX && starts_with_at(
                bytes@,
                #[trigger] dec_int(v).push(10u8),
                pos as int,
            ) ==> (r matches Some(p) && p.0 == v && p.1 == pos + dec_int(v).len() + 1),
{
    let n = bytes.len();
    if pos < n && bytes[pos] == 45 {
        match parse_dec_u64(bytes, pos + 1) {
            Some((mag, np)) => {
                if mag == 0 {
                    proof {
                        assert forall|v: int|
                            i64::MIN <= v <= i64::MAX && starts_with_at(
                                bytes@,
                                #[trigger] dec_int(v).push(10u8),
                                pos as int,
                            ) implies false by {
                            lemma_neg_shape(bytes@, v, pos as int);
                            lemma_dec_digits_leading((-v) as nat);
                            assert(starts_with_at(
                                bytes@,
                                dec_digits((-v) as nat).push(10u8),
                                (pos + 1) as int,
                            ));
                            assert(dec_digits(mag as nat) =~= seq![48u8]);
                            assert(bytes@[(pos + 1) as int] == 48);
                        }
                    }
                    return None;
                }
                if mag <= 9223372036854775807u64 {
                    let v: i64 = -(mag as i64);
                    proof {
                        assert(dec_int(v as int) =~= seq![45u8] + dec_digits(mag as nat));
                        assert(bytes@.subrange(pos as int, np as int) =~= dec_int(v as int).push(
                            10u8,
                        ));
                        assert forall|w: int|
                            i64::MIN <= w <= i64::MAX && starts_with_at(
                                bytes@,
                                #[trigger] dec_int(w).push(10u8),
                                pos as int,
                            ) implies w == v as int && pos + dec_int(w).len() + 1 == np by {
                            lemma_neg_shape(bytes@, w, pos as int);
                            assert(starts_with_at(
                                bytes@,
                                dec_digits((-w) as nat).push(10u8),
                                (pos + 1) as int,
                            ));
                        }
                    }
                    return Some((v, np));
                } else if mag == 9223372036854775808u64 {
                    let v: i64 = i64::MIN;
                    proof {
                        assert(dec_int(v as int) =~= seq![45u8] + dec_digits(mag as nat));
                        assert(bytes@.subrange(pos as int, np as int) =~= dec_int(v as int).push(
                            10u8,
                        ));
                        assert forall|w: int|
                            i64::MIN <= w <= i64::MAX && starts_with_at(
                                bytes@,
                                #[trigger] dec_int(w).push(10u8),
                                pos as int,
                            ) implies w == v as int && pos + dec_int(w).len() + 1 == np by {
                            lemma_neg_shape(bytes@, w, pos as int);
                            assert(starts_with_at(
                                bytes@,
                                dec_digits((-w) as nat).push(10u8),
                                (pos + 1) as int,
                            ));
                        }
                    }
                    return Some((v, np));
                } else {
                    proof {
                        assert forall|w: int|
                            i64::MIN <= w <= i64::MAX && starts_with_at(
                                bytes@,
                                #[trigger] dec_int(w).push(10u8),
                                pos as int,
                            ) implies false by {
                            lemma_neg_shape(bytes@, w, pos as int);
                            assert(starts_with_at(
                                bytes@,
                                dec_digits((-w) as nat).push(10u8),
                                (pos + 1) as int,
                            ));
                        }
                    }
                    return None;
                }
            },
            None => {
                proof {
                    assert forall|w: int|
                        i64::MIN <= w <= i64::MAX && starts_with_at(
                            bytes@,
                            #[trigger] dec_int(w).push(10u8),
                            pos as int,
                        ) implies false by {
                        lemma_neg_shape(bytes@, w, pos as int);
                        assert(starts_with_at(
                            bytes@,
                            dec_digits((-w) as nat).push(10u8),
                            (pos + 1) as int,
                        ));
                    }
                }
                return None;
            },
        }
    }
    match parse_dec_u64(bytes, pos) {
        Some((mag, np)) => {
            if mag <= 9223372036854775807u64 {
                let v: i64 = mag as i64;
                proof {
                    assert(dec_int(v as int) == dec_digits(mag as nat));
                    assert forall|w: int|
                        i64::MIN <= w <= i64::MAX && starts_with_at(
                            bytes@,
                            #[trigger] dec_int(w).push(10u8),
                            pos as int,
                        ) implies w == v as int && pos + dec_int(w).len() + 1 == np by {
                        lemma_pos_shape(bytes@, w, pos as int);
                    }
                }
                Some((v, np))
            } else {
                proof {
                    assert forall|w: int|
                        i64::MIN <= w <= i64::MAX && starts_with_at(
                            bytes@,
                            #[trigger] dec_int(w).push(10u8),
                            pos as int,
                        ) implies false by {
                        lemma_pos_shape(bytes@, w, pos as int);
                    }
                }
                None
            }
        },
        None => {
            proof {
                assert forall|w: int|
                    i64::MIN <= w <= i64::MAX && starts_with_at(
                        bytes@,
                        #[trigger] dec_int(w).push(10u8),
                        pos as int,
                    ) implies false by {
                    lemma_pos_shape(bytes@, w, pos as int);
                }
            }
            None
        },
    }
}

/// When the byte at `pos` is `-`, a decimal line there is negative and
/// its digits follow the sign.
proof fn lemma_neg_shape(b: Seq<u8>, w: int, pos: int)
    requires
        starts_with_at(b, dec_int(w).push(10u8), pos),
        0 <= pos < b.len(),
        b[pos] == 45,
    ensures
        w < 0,
        starts_with_at(b, dec_digits((-w) as nat).push(10u8), pos + 1),
        dec_int(w).len() == 1 + dec_digits((-w) as nat).len(),
{
    let line = dec_int(w).push(10u8);
    if w >= 0 {
        lemma_dec_digits_are_digits(w as nat);
        assert(b[pos] == line[0]);
        assert(false);
    }
    let digits = dec_digits((-w) as nat);
    assert(dec_int(w) == seq![45u8] + digits);
    assert forall|i: int| 0 <= i < digits.push(10u8).len() implies b[pos + 1 + i] == digits.push(
        10u8,
    )[i] by {
        assert(b[pos + 1 + i] == line[1 + i]);
    }
    assert(b.subrange(pos + 1, pos + 1 + digits.push(10u8).len() as int) =~= digits.push(10u8));
}

/// When the byte at `pos` is not `-`, a decimal line there is the plain
/// digits of a non-negative number.
proof fn lemma_pos_shape(b: Seq<u8>, w: int, pos: int)
    requires
        starts_with_at(b, dec_int(w).push(10u8), pos),
        0 <= pos <= b.len(),
        pos < b.len() ==> b[pos] != 45,
    ensures
        w >= 0,
        starts_with_at(b, dec_digits(w as nat).push(10u8), pos),
{
    let line = dec_int(w).push(10u8);
    assert(pos < b.len());
    if w < 0 {
        assert(b[pos] == line[0]);
        assert(dec_int(w)[0] == 45);
        assert(false);
    }
}

/// The encoding of one string field: its UTF-8 byte count as a decimal
/// line, then its UTF-8 bytes as a line.
#[verifier::opaque]
pub open spec fn field_bytes(s: Seq<char>) -> Seq<u8> {
    dec_digits(encode_utf8(s).len()).push(10u8) + encode_utf8(s).push(10u8)
}

/// The encoding of an optional tag: a `-` line when absent, a `+` line
/// followed by the tag field when present.
#[verifier::opaque]
pub open spec fn tag_bytes(t: Option<Seq<char>>) -> Seq<u8> {
    match t {
        None => seq![45u8, 10u8],
        Some(s) => seq![43u8, 10u8] + field_bytes(s),
    }
}

/// The encoding of one record: five fields and two timestamp lines, in
/// a fixed order.
#[verifier::opaque]
pub open spec fn record_bytes(v: SshKeyView) -> Seq<u8> {
    field_bytes(v.id) + field_bytes(v.name) + tag_bytes(v.tag) + field_bytes(v.key) + field_bytes(
        v.key_type,
    ) + dec_int(v.created).push(10u8) + dec_int(v.last_modified).push(10u8)
}

/// The encodings of a sequence of records, in order.
pub open spec fn records_bytes(c: Seq<SshKeyView>) -> Seq<u8>
    decreases c.len(),
{
    if c.len() == 0 {
        Seq::empty()
    } else {
        record_bytes(c[0]) + records_bytes(c.drop_first())
    }
}

/// The encoding of a whole collection: its record count as a decimal
/// line, then the records.
pub open spec fn spec_serialize(c: Seq<SshKeyView>) -> Seq<u8> {
    dec_digits(c.len()).push(10u8) + records_bytes(c)
}

/// The record values of a sequence of records.
pub open spec fn key_views(c: Seq<SshKey>) -> Seq<SshKeyView> {
    c.map_values(|k: SshKey| k@)
}

/// A record value whose timestamps fit the machine representation.
pub open spec fn wf_view(v: SshKeyView) -> bool {
    i64::MIN <= v.created <= i64::MAX && i64::MIN <= v.last_modified <= i64::MAX
}

/// Every record value of `c` is representable.
pub open spec fn wf_views(c: Seq<SshKeyView>) -> bool {
    forall|i: int| 0 <= i < c.len() ==> wf_view(#[trigger] c[i])
}

proof fn lemma_starts_split(b: Seq<u8>, p1: Seq<u8>, p2: Seq<u8>, pos: int)
    requires
        starts_with_at(b, p1 + p2, pos),
    ensures
        starts_with_at(b, p1, pos),
        starts_with_at(b, p2, pos + p1.len()),
{
    assert(b.subrange(pos, pos + p1.len()) =~= p1) by {
        assert forall|i: int| 0 <= i < p1.len() implies b.subrange(pos, pos + p1.len())[i]
            == p1[i] by {
            assert(b[pos + i] == (p1 + p2)[i]);
        }
    }
    assert(b.subrange(pos + p1.len(), pos + p1.len() + p2.len()) =~= p2) by {
        assert forall|i: int| 0 <= i < p2.len() implies b.subrange(
            pos + p1.len(),
            pos + p1.len() + p2.len(),
        )[i] == p2[i] by {
            assert(b[pos + p1.len() + i] == (p1 + p2)[p1.len() + i]);
        }
    }
}

proof fn lemma_starts_join(b: Seq<u8>, p1: Seq<u8>, p2: Seq<u8>, pos: int)
    requires
        starts_with_at(b, p1, pos),
        starts_with_at(b, p2, pos + p1.len()),
    ensures
        starts_with_at(b, p1 + p2, pos),
{
    assert(b.subrange(pos, pos + (p1 + p2).len()) =~= p1 + p2) by {
        assert forall|i: int| 0 <= i < p1.len() + p2.len() implies b.subrange(
            pos,
            pos + (p1 + p2).len(),
        )[i] == (p1 + p2)[i] by {
            if i < p1.len() {
                assert(b.subrange(pos, pos + p1.len())[i] == p1[i]);
            } else {
                assert(b.subrange(pos + p1.len(), pos + p1.len() + p2.len())[i - p1.len()]
                    == p2[i - p1.len()]);
            }
        }
    }
}

/// Append the bytes of `data` to `out`.
fn push_bytes(out: &mut Vec<u8>, data: &Vec<u8>)
    ensures
        final(out)@ == old(out)@ + data@,
{
    let mut i: usize = 0;
    while i < data.len()
        invariant
            i <= data@.len(),
            out@ =~= old(out)@ + data@.take(i as int),
        decreases data@.len() - i,
    {
        out.push(data[i]);
        assert(out@ =~= old(out)@ + data@.take((i + 1) as int));
        i = i + 1;
    }
    proof {
        assert(data@.take(data@.len() as int) =~= data@);
    }
}

/// Append one string field to `out`.
fn push_field(out: &mut Vec<u8>, s: &String)
    ensures
        final(out)@ == old(out)@ + field_bytes(s@),
{
    let bytes = s.as_str().as_bytes_vec();
    let mut digits = u64_to_dec(bytes.len() as u64);
    out.append(&mut digits);
    out.push(10);
    push_bytes(out, &bytes);
    out.push(10);
    proof {
        reveal(field_bytes);
        assert(out@ =~= old(out)@ + field_bytes(s@));
    }
}

/// Append one signed decimal line to `out`.
fn push_int_line(out: &mut Vec<u8>, v: i64)
    ensures
        final(out)@ == old(out)@ + dec_int(v as int).push(10u8),
{
    let mut digits = i64_to_dec(v);
    out.append(&mut digits);
    out.push(10);
    proof {
        assert(out@ =~= old(out)@ + dec_int(v as int).push(10u8));
    }
}

/// Append one record to `out`.
fn push_record(out: &mut Vec<u8>, k: &SshKey)
    ensures
        final(out)@ == old(out)@ + record_bytes(k@),
{
    push_field(out, &k.id);
    push_field(out, &k.name);
    match &k.tag {
        None => {
            out.push(45);
            out.push(10);
        },
        Some(t) => {
            out.push(43);
            out.push(10);
            push_field(out, t);
        },
    }
    push_field(out, &k.key);
    push_field(out, &k.key_type);
    push_int_line(out, k.created);
    push_int_line(out, k.last_modified);
    proof {
        reveal(record_bytes);
        reveal(tag_bytes);
        assert(out@ =~= old(out)@ + record_bytes(k@));
    }
}

proof fn lemma_records_snoc(c: Seq<SshKeyView>, v: SshKeyView)
    ensures
        records_bytes(c.push(v)) == records_bytes(c) + record_bytes(v),
    decreases c.len(),
{
    if c.len() == 0 {
        let single = c.push(v);
        assert(single[0] == v);
        assert(single.drop_first() =~= Seq::<SshKeyView>::empty());
        assert(records_bytes(single.drop_first()) == Seq::<u8>::empty());
        assert(records_bytes(single) =~= record_bytes(v));
        assert(records_bytes(c) + record_bytes(v) =~= record_bytes(v));
    } else {
        let whole = c.push(v);
        assert(whole[0] == c[0]);
        assert(whole.drop_first() =~= c.drop_first().push(v));
        lemma_records_snoc(c.drop_first(), v);
        assert(record_bytes(c[0]) + (records_bytes(c.drop_first()) + record_bytes(v))
            =~= record_bytes(c[0]) + records_bytes(c.drop_first()) + record_bytes(v));
    }
}

proof fn lemma_records_concat(a: Seq<SshKeyView>, b: Seq<SshKeyView>)
    ensures
        records_bytes(a + b) == records_bytes(a) + records_bytes(b),
    decreases a.len(),
{
    if a.len() == 0 {
        assert(a + b =~= b);
        assert(records_bytes(a) + records_bytes(b) =~= records_bytes(b));
    } else {
        assert((a + b)[0] == a[0]);
        assert((a + b).drop_first() =~= a.drop_first() + b);
        lemma_records_concat(a.drop_first(), b);
        assert(record_bytes(a[0]) + (records_bytes(a.drop_first()) + records_bytes(b))
            =~= record_bytes(a[0]) + records_bytes(a.drop_first()) + records_bytes(b));
    }
}

/// Serialize a collection to its canonical textual byte form.
pub fn serialize_collection(keys: &Vec<SshKey>) -> (r: Vec<u8>)
    ensures
        r@ == spec_serialize(key_views(keys@)),
{
    let mut out: Vec<u8> = Vec::new();
    let mut digits = u64_to_dec(keys.len() as u64);
    out.append(&mut digits);
    out.push(10);
    proof {
        assert(key_views(keys@).len() == keys@.len());
        assert(out@ =~= dec_digits(key_views(keys@).len()).push(10u8));
    }
    let ghost header = out@;
    let mut i: usize = 0;
    while i < keys.len()
        invariant
            i <= keys@.len(),
            header == dec_digits(key_views(keys@).len()).push(10u8),
            out@ == header + records_bytes(key_views(keys@.take(i as int))),
        decreases keys@.len() - i,
    {
        push_record(&mut out, &keys[i]);
        proof {
            lemma_records_snoc(key_views(keys@.take(i as int)), keys@[i as int]@);
            assert(key_views(keys@.take((i + 1) as int)) =~= key_views(keys@.take(i as int)).push(
                keys@[i as int]@,
            ));
            assert(header + (records_bytes(key_views(keys@.take(i as int))) + record_bytes(
                keys@[i as int]@,
            )) =~= header + records_bytes(key_views(keys@.take(i as int))) + record_bytes(
                keys@[i as int]@,
            ));
        }
        i = i + 1;
    }
    proof {
        assert(keys@.take(keys@.len() as int) =~= keys@);
    }
    out
}

/// Parse one string field. On success the consumed bytes are exactly the
/// field encoding of the returned text; wherever a field encoding
/// stands, parsing finds it.
fn parse_field(bytes: &Vec<u8>, pos: usize) -> (r: Option<(String, usize)>)
    requires
        pos <= bytes@.len(),
    ensures
        r matches Some(p) ==> pos < p.1 <= bytes@.len() && bytes@.subrange(pos as int, p.1 as int)
            == field_bytes(p.0@),
        forall|t: Seq<char>|
            starts_with_at(bytes@, #[trigger] field_bytes(t), pos as int) ==> (r matches Some(p)
                && p.0@ == t && p.1 == pos + field_bytes(t).len()),
{
    broadcast use vstd::utf8::encode_utf8_valid_utf8;
    broadcast use vstd::utf8::encode_utf8_decode_utf8;

    proof {
        reveal(field_bytes);
    }
    let n = bytes.len();
    match parse_dec_u64(bytes, pos) {
        None => {
            proof {
                assert forall|t: Seq<char>|
                    starts_with_at(bytes@, #[trigger] field_bytes(t), pos as int) implies false by {
                    let enc = encode_utf8(t);
                    lemma_starts_split(
                        bytes@,
                        dec_digits(enc.len()).push(10u8),
                        enc.push(10u8),
                        pos as int,
                    );
                    assert(enc.len() <= bytes@.len());
                }
            }
            None
        },
        Some((len64, np)) => {
            proof {
                assert forall|t: Seq<char>|
                    starts_with_at(bytes@, #[trigger] field_bytes(t), pos as int) implies (
                    encode_utf8(t).len() == len64 as nat && starts_with_at(
                        bytes@,
                        encode_utf8(t).push(10u8),
                        np as int,
                    )) by {
                    let enc = encode_utf8(t);
                    lemma_starts_split(
                        bytes@,
                        dec_digits(enc.len()).push(10u8),
                        enc.push(10u8),
                        pos as int,
                    );
                    assert(enc.len() <= bytes@.len());
                }
            }
            if len64 > (n - np) as u64 {
                proof {
                    assert forall|t: Seq<char>|
                        starts_with_at(
                            bytes@,
                            #[trigger] field_bytes(t),
                            pos as int,
                        ) implies false by {}
                }
                return None;
            }
            let flen = len64 as usize;
            if np + flen >= n {
                proof {
                    assert forall|t: Seq<char>|
                        starts_with_at(
                            bytes@,
                            #[trigger] field_bytes(t),
                            pos as int,
                        ) implies false by {
                        let enc = encode_utf8(t);
                        assert(pos + field_bytes(t).len() <= bytes@.len());
                    }
                }
                return None;
            }
            let seg = subvec(bytes, np, np + flen);
            if bytes[np + flen] != 10 {
                proof {
                    assert forall|t: Seq<char>|
                        starts_with_at(
                            bytes@,
                            #[trigger] field_bytes(t),
                            pos as int,
                        ) implies false by {
                        let enc = encode_utf8(t);
                        assert(bytes@[np + enc.len()] == enc.push(10u8)[enc.len() as int]);
                    }
                }
                return None;
            }
            let ghost segv = seg@;
            match bytes_to_string(seg) {
                None => {
                    proof {
                        assert forall|t: Seq<char>|
                            starts_with_at(
                                bytes@,
                                #[trigger] field_bytes(t),
                                pos as int,
                            ) implies false by {
                            let enc = encode_utf8(t);
                            assert(enc + seq![10u8] =~= enc.push(10u8));
                            lemma_starts_split(bytes@, enc, seq![10u8], np as int);
                            assert(segv =~= enc);
                        }
                    }
                    None
                },
                Some(s) => {
                    let np2 = np + flen + 1;
                    proof {
                        assert(bytes@.subrange(np as int, (np + flen) as int) == segv);
                        assert(encode_utf8(s@) == segv);
                        assert(bytes@.subrange(pos as int, np2 as int) =~= dec_digits(
                            segv.len(),
                        ).push(10u8) + segv.push(10u8));
                        assert(bytes@.subrange(pos as int, np2 as int) == field_bytes(s@));
                        assert forall|t: Seq<char>|
                            starts_with_at(
                                bytes@,
                                #[trigger] field_bytes(t),
                                pos as int,
                            ) implies s@ == t && np2 == pos + field_bytes(t).len() by {
                            let enc = encode_utf8(t);
                            assert(enc + seq![10u8] =~= enc.push(10u8));
                            lemma_starts_split(bytes@, enc, seq![10u8], np as int);
                            assert(segv =~= enc);
                            assert(decode_utf8(encode_utf8(t)) == t);
                            assert(decode_utf8(encode_utf8(s@)) == s@);
                        }
                    }
                    Some((s, np2))
                },
            }
        },
    }
}

/// Parse an optional tag: a `-` line, or a `+` line and a field.
fn parse_tag(bytes: &Vec<u8>, pos: usize) -> (r: Option<(Option<String>, usize)>)
    requires
        pos <= bytes@.len(),
    ensures
        r matches Some(p) ==> pos < p.1 <= bytes@.len() && bytes@.subrange(pos as int, p.1 as int)
            == tag_bytes(p.0.deep_view()),
        forall|t: Option<Seq<char>>|
            starts_with_at(bytes@, #[trigger] tag_bytes(t), pos as int) ==> (r matches Some(p)
                && p.0.deep_view() == t && p.1 == pos + tag_bytes(t).len()),
{
    proof {
        reveal(tag_bytes);
    }
    let n = bytes.len();
    if pos >= n || n - pos < 2 {
        proof {
            assert forall|t: Option<Seq<char>>|
                starts_with_at(bytes@, #[trigger] tag_bytes(t), pos as int) implies false by {
                assert(tag_bytes(t).len() >= 2);
            }
        }
        return None;
    }
    let b0 = bytes[pos];
    let b1 = bytes[pos + 1];
    if b0 == 45 && b1 == 10 {
        let res: Option<(Option<String>, usize)> = Some((None, pos + 2));
        proof {
            let p = res->0;
            assert(p.0.deep_view() is None);
            assert(bytes@.subrange(pos as int, (pos + 2) as int) =~= tag_bytes(p.0.deep_view()));
            assert forall|t: Option<Seq<char>>|
                starts_with_at(bytes@, #[trigger] tag_bytes(t), pos as int) implies (
            p.0.deep_view() == t && pos + 2 == pos + tag_bytes(t).len()) by {
                if t is Some {
                    assert(bytes@[pos as int] == tag_bytes(t)[0]);
                }
            }
        }
        return res;
    }
    if b0 == 43 && b1 == 10 {
        match parse_field(bytes, pos + 2) {
            Some((f, np)) => {
                let res: Option<(Option<String>, usize)> = Some((Some(f), np));
                proof {
                    let p = res->0;
                    assert(p.0.deep_view() == Some(f@));
                    assert(bytes@.subrange(pos as int, (pos + 2) as int) =~= seq![43u8, 10u8]);
                    lemma_starts_join(bytes@, seq![43u8, 10u8], field_bytes(f@), pos as int);
                    assert(bytes@.subrange(pos as int, np as int) == tag_bytes(p.0.deep_view()));
                    assert forall|t: Option<Seq<char>>|
                        starts_with_at(bytes@, #[trigger] tag_bytes(t), pos as int) implies (
                    p.0.deep_view() == t && np == pos + tag_bytes(t).len()) by {
                        if t is None {
                            assert(bytes@[pos as int] == tag_bytes(t)[0]);
                        } else {
                            lemma_starts_split(
                                bytes@,
                                seq![43u8, 10u8],
                                field_bytes(t->0),
                                pos as int,
                            );
                        }
                    }
                }
                return res;
            },
            None => {
                proof {
                    assert forall|t: Option<Seq<char>>|
                        starts_with_at(bytes@, #[trigger] tag_bytes(t), pos as int) implies false by {
                        if t is None {
                            assert(bytes@[pos as int] == tag_bytes(t)[0]);
                            assert(bytes@[(pos + 1) as int] == tag_bytes(t)[1]);
                        } else {
                            lemma_starts_split(
                                bytes@,
                                seq![43u8, 10u8],
                                field_bytes(t->0),
                                pos as int,
                            );
                        }
                    }
                }
                return None;
            },
        }
    }
    proof {
        assert forall|t: Option<Seq<char>>|
            starts_with_at(bytes@, #[trigger] tag_bytes(t), pos as int) implies false by {
            assert(bytes@[pos as int] == tag_bytes(t)[0]);
            assert(bytes@[(pos + 1) as int] == tag_bytes(t)[1]);
        }
    }
    None
}

proof fn lemma_record_split(b: Seq<u8>, v: SshKeyView, pos: int)
    requires
        starts_with_at(b, record_bytes(v), pos),
    ensures
        starts_with_at(b, field_bytes(v.id), pos),
        starts_with_at(b, field_bytes(v.name), pos + field_bytes(v.id).len()),
        starts_with_at(
            b,
            tag_bytes(v.tag),
            pos + field_bytes(v.id).len() + field_bytes(v.name).len(),
        ),
        starts_with_at(
            b,
            field_bytes(v.key),
            pos + field_bytes(v.id).len() + field_bytes(v.name).len() + tag_bytes(v.tag).len(),
        ),
        starts_with_at(
            b,
            field_bytes(v.key_type),
            pos + field_bytes(v.id).len() + field_bytes(v.name).len() + tag_bytes(v.tag).len()
                + field_bytes(v.key).len(),
        ),
        starts_with_at(
            b,
            dec_int(v.created).push(10u8),
            pos + field_bytes(v.id).len() + field_bytes(v.name).len() + tag_bytes(v.tag).len()
                + field_bytes(v.key).len() + field_bytes(v.key_type).len(),
        ),
        starts_with_at(
            b,
            dec_int(v.last_modified).push(10u8),
            pos + field_bytes(v.id).len() + field_bytes(v.name).len() + tag_bytes(v.tag).len()
                + field_bytes(v.key).len() + field_bytes(v.key_type).len() + dec_int(
                v.created,
            ).push(10u8).len(),
        ),
{
    reveal(record_bytes);
    let a1 = field_bytes(v.id);
    let a2 = field_bytes(v.name);
    let a3 = tag_bytes(v.tag);
    let a4 = field_bytes(v.key);
    let a5 = field_bytes(v.key_type);
    let a6 = dec_int(v.created).push(10u8);
    let a7 = dec_int(v.last_modified).push(10u8);
    assert(record_bytes(v) == a1 + a2 + a3 + a4 + a5 + a6 + a7);
    lemma_starts_split(b, a1 + a2 + a3 + a4 + a5 + a6, a7, pos);
    lemma_starts_split(b, a1 + a2 + a3 + a4 + a5, a6, pos);
    lemma_starts_split(b, a1 + a2 + a3 + a4, a5, pos);
    lemma_starts_split(b, a1 + a2 + a3, a4, pos);
    lemma_starts_split(b, a1 + a2, a3, pos);
    lemma_starts_split(b, a1, a2, pos);
}

proof fn lemma_record_join(b: Seq<u8>, v: SshKeyView, pos: int)
    requires
        starts_with_at(b, field_bytes(v.id), pos),
        starts_with_at(b, field_bytes(v.name), pos + field_bytes(v.id).len()),
        starts_with_at(
            b,
            tag_bytes(v.tag),
            pos + field_bytes(v.id).len() + field_bytes(v.name).len(),
        ),
        starts_with_at(
            b,
            field_bytes(v.key),
            pos + field_bytes(v.id).len() + field_bytes(v.name).len() + tag_bytes(v.tag).len(),
        ),
        starts_with_at(
            b,
            field_bytes(v.key_type),
            pos + field_bytes(v.id).len() + field_bytes(v.name).len() + tag_bytes(v.tag).len()
                + field_bytes(v.key).len(),
        ),
        starts_with_at(
            b,
            dec_int(v.created).push(10u8),
            pos + field_bytes(v.id).len() + field_bytes(v.name).len() + tag_bytes(v.tag).len()
                + field_bytes(v.key).len() + field_bytes(v.key_type).len(),
        ),
        starts_with_at(
            b,
            dec_int(v.last_modified).push(10u8),
            pos + field_bytes(v.id).len() + field_bytes(v.name).len() + tag_bytes(v.tag).len()
                + field_bytes(v.key).len() + field_bytes(v.key_type).len() + dec_int(
                v.created,
            ).push(10u8).len(),
        ),
    ensures
        starts_with_at(b, record_bytes(v), pos),
{
    let a1 = field_bytes(v.id);
    let a2 = field_bytes(v.name);
    let a3 = tag_bytes(v.tag);
    let a4 = field_bytes(v.key);
    let a5 = field_bytes(v.key_type);
    let a6 = dec_int(v.created).push(10u8);
    let a7 = dec_int(v.last_modified).push(10u8);
    lemma_starts_join(b, a1, a2, pos);
    lemma_starts_join(b, a1 + a2, a3, pos);
    lemma_starts_join(b, a1 + a2 + a3, a4, pos);
    lemma_starts_join(b, a1 + a2 + a3 + a4, a5, pos);
    lemma_starts_join(b, a1 + a2 + a3 + a4 + a5, a6, pos);
    lemma_starts_join(b, a1 + a2 + a3 + a4 + a5 + a6, a7, pos);
    reveal(record_bytes);
    assert(record_bytes(v) == a1 + a2 + a3 + a4 + a5 + a6 + a7);
}

/// Parse one record. On success the consumed bytes are exactly the
/// record's encoding; wherever a representable record's encoding
/// stands, parsing finds it.
#[verifier::rlimit(100)]
#[verifier::spinoff_prover]
fn parse_record(bytes: &Vec<u8>, pos: usize) -> (r: Option<(SshKey, usize)>)
    requires
        pos <= bytes@.len(),
    ensures
        r matches Some(p) ==> pos < p.1 <= bytes@.len() && bytes@.subrange(pos as int, p.1 as int)
            == record_bytes(p.0@),
        forall|v: SshKeyView|
            wf_view(v) && starts_with_at(bytes@, #[trigger] record_bytes(v), pos as int) ==> (
            r matches Some(p) && p.0@ == v && p.1 == pos + record_bytes(v).len()),
{
    let (id, p1) = match parse_field(bytes, pos) {
        Some(x) => x,
        None => {
            proof {
                assert forall|v: SshKeyView|
                    wf_view(v) && starts_with_at(
                        bytes@,
                        #[trigger] record_bytes(v),
                        pos as int,
                    ) implies false by {
                    lemma_record_split(bytes@, v, pos as int);
                }
            }
            return None;
        },
    };
    let (name, p2) = match parse_field(bytes, p1) {
        Some(x) => x,
        None => {
            proof {
                assert forall|v: SshKeyView|
                    wf_view(v) && starts_with_at(
                        bytes@,
                        #[trigger] record_bytes(v),
                        pos as int,
                    ) implies false by {
                    lemma_record_split(bytes@, v, pos as int);
                }
            }
            return None;
        },
    };
    proof {
        assert forall|v: SshKeyView|
            wf_view(v) && starts_with_at(bytes@, #[trigger] record_bytes(v), pos as int) implies (
        id@ == v.id && name@ == v.name && p2 == pos + field_bytes(v.id).len() + field_bytes(
            v.name,
        ).len() && starts_with_at(bytes@, tag_bytes(v.tag), p2 as int)) by {
            lemma_record_split(bytes@, v, pos as int);
        }
    }
    let (tag, p3) = match parse_tag(bytes, p2) {
        Some(x) => x,
        None => {
            proof {
                assert forall|v: SshKeyView|
                    wf_view(v) && starts_with_at(
                        bytes@,
                        #[trigger] record_bytes(v),
                        pos as int,
                    ) implies false by {}
            }
            return None;
        },
    };
    proof {
        assert forall|v: SshKeyView|
            wf_view(v) && starts_with_at(bytes@, #[trigger] record_bytes(v), pos as int) implies (
        tag.deep_view() == v.tag && p3 == p2 + tag_bytes(v.tag).len() && starts_with_at(
            bytes@,
            field_bytes(v.key),
            p3 as int,
        )) by {
            lemma_record_split(bytes@, v, pos as int);
        }
    }
    let (key, p4) = match parse_field(bytes, p3) {
        Some(x) => x,
        None => {
            proof {
                assert forall|v: SshKeyView|
                    wf_view(v) && starts_with_at(
                        bytes@,
                        #[trigger] record_bytes(v),
                        pos as int,
                    ) implies false by {}
            }
            return None;
        },
    };
    let (key_type, p5) = match parse_field(bytes, p4) {
        Some(x) => x,
        None => {
            proof {
                assert forall|v: SshKeyView|
                    wf_view(v) && starts_with_at(
                        bytes@,
                        #[trigger] record_bytes(v),
                        pos as int,
                    ) implies false by {
                    lemma_record_split(bytes@, v, pos as int);
                }
            }
            return None;
        },
    };
    let (created, p6) = match parse_dec_i64(bytes, p5) {
        Some(x) => x,
        None => {
            proof {
                assert forall|v: SshKeyView|
                    wf_view(v) && starts_with_at(
                        bytes@,
                        #[trigger] record_bytes(v),
                        pos as int,
                    ) implies false by {
                    lemma_record_split(bytes@, v, pos as int);
                }
            }
            return None;
        },
    };
    let (last_modified, p7) = match parse_dec_i64(bytes, p6) {
        Some(x) => x,
        None => {
            proof {
                assert forall|v: SshKeyView|
                    wf_view(v) && starts_with_at(
                        bytes@,
                        #[trigger] record_bytes(v),
                        pos as int,
                    ) implies false by {
                    lemma_record_split(bytes@, v, pos as int);
                }
            }
            return None;
        },
    };
    let rec = SshKey { id, name, tag, key, key_type, created, last_modified };
    let res: Option<(SshKey, usize)> = Some((rec, p7));
    proof {
        let p = res->0;
        let k = p.0;
        if k.tag is Some {
            assert(k@.tag == Some(k.tag->0@));
            assert(k.tag.deep_view() == Some(k.tag->0.deep_view()));
        } else {
            assert(k@.tag is None && k.tag.deep_view() is None);
        }
        assert(k@.tag == p.0.tag.deep_view());
        assert(starts_with_at(bytes@, field_bytes(k@.id), pos as int));
        assert(starts_with_at(bytes@, field_bytes(k@.name), p1 as int));
        assert(starts_with_at(bytes@, tag_bytes(k@.tag), p2 as int));
        assert(starts_with_at(bytes@, field_bytes(k@.key), p3 as int));
        assert(starts_with_at(bytes@, field_bytes(k@.key_type), p4 as int));
        assert(starts_with_at(bytes@, dec_int(k@.created).push(10u8), p5 as int));
        assert(starts_with_at(bytes@, dec_int(k@.last_modified).push(10u8), p6 as int));
        lemma_record_join(bytes@, k@, pos as int);
        reveal(record_bytes);
        assert(p.1 == pos + record_bytes(k@).len());
        assert(bytes@.subrange(pos as int, p.1 as int) == record_bytes(k@));
        assert forall|v: SshKeyView|
            wf_view(v) && starts_with_at(bytes@, #[trigger] record_bytes(v), pos as int) implies (
        k@ == v && p.1 == pos + record_bytes(v).len()) by {
            lemma_record_split(bytes@, v, pos as int);
            assert(k@.id == v.id && k@.name == v.name && k@.tag == v.tag && k@.key == v.key
                && k@.key_type == v.key_type && k@.created == v.created && k@.last_modified
                == v.last_modified);
        }
    }
    res
}

/// Parse a whole collection: the record count, that many records, and
/// nothing after them.
///
/// The first clause makes the parse exact: whatever it accepts is the
/// canonical serialization of what it returns. The second is the round
/// trip: the serialization of any representable collection parses back
/// to it, record for record.
#[verifier::rlimit(100)]
#[verifier::spinoff_prover]
pub fn parse_collection(bytes: &Vec<u8>) -> (r: Option<Vec<SshKey>>)
    ensures
        r matches Some(ks) ==> bytes@ == spec_serialize(key_views(ks@)),
        forall|c: Seq<SshKeyView>|
            wf_views(c) && bytes@ == #[trigger] spec_serialize(c) ==> (r matches Some(ks)
                && key_views(ks@) == c),
{
    let n = bytes.len();
    let (count, pos0) = match parse_dec_u64(bytes, 0) {
        Some(x) => x,
        None => {
            proof {
                assert forall|c: Seq<SshKeyView>|
                    wf_views(c) && bytes@ == #[trigger] spec_serialize(c) implies false by {
                    assert(bytes@.subrange(0, bytes@.len() as int) =~= bytes@);
                    assert(starts_with_at(bytes@, spec_serialize(c), 0));
                    lemma_starts_split(bytes@, dec_digits(c.len()).push(10u8), records_bytes(c), 0);
                    lemma_records_min_len(c);
                }
            }
            return None;
        },
    };
    proof {
        assert forall|c: Seq<SshKeyView>|
            wf_views(c) && bytes@ == #[trigger] spec_serialize(c) implies (count == c.len() && pos0
            == dec_digits(c.len()).len() + 1 && starts_with_at(
            bytes@,
            records_bytes(c),
            pos0 as int,
        )) by {
            lemma_records_min_len(c);
            assert(bytes@.subrange(0, bytes@.len() as int) =~= bytes@);
            assert(starts_with_at(bytes@, spec_serialize(c), 0));
            lemma_starts_split(bytes@, dec_digits(c.len()).push(10u8), records_bytes(c), 0);
        }
    }
    let mut acc: Vec<SshKey> = Vec::new();
    let mut pos: usize = pos0;
    let mut k: u64 = 0;
    while k < count
        invariant
            pos0 <= pos <= n,
            n == bytes@.len(),
            k <= count,
            acc@.len() == k,
            bytes@.subrange(pos0 as int, pos as int) == records_bytes(key_views(acc@)),
            forall|i: int|
                0 <= i < acc@.len() ==> wf_view(#[trigger] key_views(acc@)[i]),
            forall|c: Seq<SshKeyView>|
                wf_views(c) && bytes@ == #[trigger] spec_serialize(c) ==> count == c.len() && pos0
                    == dec_digits(c.len()).len() + 1 && key_views(acc@) == c.take(k as int) && pos
                    == pos0 + records_bytes(c.take(k as int)).len(),
        decreases count - k,
    {
        let ghost prev_views = key_views(acc@);
        proof {
            assert forall|c: Seq<SshKeyView>|
                wf_views(c) && bytes@ == #[trigger] spec_serialize(c) implies (wf_view(
                c[k as int],
            ) && starts_with_at(bytes@, record_bytes(c[k as int]), pos as int)) by {
                assert(bytes@.subrange(0, bytes@.len() as int) =~= bytes@);
                assert(starts_with_at(bytes@, spec_serialize(c), 0));
                lemma_starts_split(bytes@, dec_digits(c.len()).push(10u8), records_bytes(c), 0);
                assert(c =~= c.take(k as int) + c.skip(k as int));
                lemma_records_concat(c.take(k as int), c.skip(k as int));
                lemma_starts_split(
                    bytes@,
                    records_bytes(c.take(k as int)),
                    records_bytes(c.skip(k as int)),
                    pos0 as int,
                );
                assert(c.skip(k as int)[0] == c[k as int]);
                assert(records_bytes(c.skip(k as int)) == record_bytes(c[k as int])
                    + records_bytes(c.skip(k as int).drop_first()));
                lemma_starts_split(
                    bytes@,
                    record_bytes(c[k as int]),
                    records_bytes(c.skip(k as int).drop_first()),
                    pos as int,
                );
            }
        }
        let (rec, np) = match parse_record(bytes, pos) {
            Some(x) => x,
            None => {
                return None;
            },
        };
        proof {
            lemma_records_snoc(prev_views, rec@);
            assert(key_views(acc@.push(rec)) =~= prev_views.push(rec@));
            lemma_starts_join(
                bytes@,
                records_bytes(prev_views),
                record_bytes(rec@),
                pos0 as int,
            );
            assert(starts_with_at(bytes@, records_bytes(prev_views), pos0 as int));
            assert forall|c: Seq<SshKeyView>|
                wf_views(c) && bytes@ == #[trigger] spec_serialize(c) implies (key_views(
                acc@.push(rec),
            ) == c.take((k + 1) as int) && np == pos0 + records_bytes(
                c.take((k + 1) as int),
            ).len()) by {
                assert(rec@ == c[k as int]);
                assert(c.take((k + 1) as int) =~= c.take(k as int).push(c[k as int]));
                lemma_records_snoc(c.take(k as int), c[k as int]);
            }
        }
        acc.push(rec);
        pos = np;
        k = k + 1;
    }
    if pos != n {
        proof {
            assert forall|c: Seq<SshKeyView>|
                wf_views(c) && bytes@ == #[trigger] spec_serialize(c) implies false by {
                assert(c.take(k as int) =~= c);
                assert(bytes@.len() == pos0 + records_bytes(c).len());
            }
        }
        return None;
    }
    proof {
        assert(bytes@.subrange(0, pos0 as int) == dec_digits(count as nat).push(10u8));
        assert(key_views(acc@).len() == count as nat);
        assert(bytes@ =~= bytes@.subrange(0, pos0 as int) + bytes@.subrange(pos0 as int, n as int));
        assert(bytes@ == spec_serialize(key_views(acc@)));
        assert forall|c: Seq<SshKeyView>|
            wf_views(c) && bytes@ == #[trigger] spec_serialize(c) implies key_views(acc@)
            == c by {
            assert(c.take(k as int) =~= c);
        }
    }
    Some(acc)
}

proof fn lemma_records_min_len(c: Seq<SshKeyView>)
    ensures
        records_bytes(c).len() >= c.len(),
    decreases c.len(),
{
    if c.len() > 0 {
        reveal(record_bytes);
        reveal(field_bytes);
        lemma_records_min_len(c.drop_first());
        lemma_dec_digits_are_digits(encode_utf8(c[0].id).len());
    }
}

} // verus!
