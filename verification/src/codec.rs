//! The record codec: a record is persisted as a pretty-printed JSON object
//! with exactly the four record fields, in a fixed order and with a fixed
//! canonical escaping. Encoding is total; decoding is strict and accepts
//! exactly the canonical encodings, failing closed on anything else.
//!
//! Inside a string field, `"` is written `\"`, `\` is written `\\`, and a
//! control byte below 0x20 is written `\u00` followed by two lowercase hex
//! digits. Every other byte stands for itself.

use vstd::prelude::*;

use crate::record::{DecodeError, Record, RecordView};

verus! {

/// The lowercase hex digit of a nibble.
pub open spec fn hex_digit(n: u8) -> u8
    recommends
        n < 16,
{
    if n < 10 {
        (48 + n) as u8
    } else {
        (87 + n) as u8
    }
}

/// The canonical escape of one byte of field content.
pub open spec fn esc_byte(b: u8) -> Seq<u8> {
    if b == 34 {
        seq![92u8, 34u8]
    } else if b == 92 {
        seq![92u8, 92u8]
    } else if b < 32 {
        seq![92u8, 117u8, 48u8, 48u8, hex_digit(b / 16), hex_digit(b % 16)]
    } else {
        seq![b]
    }
}

/// The canonical escape of a whole field.
pub open spec fn esc(s: Seq<u8>) -> Seq<u8>
    decreases s.len(),
{
    if s.len() == 0 {
        seq![]
    } else {
        esc_byte(s[0]) + esc(s.drop_first())
    }
}

/// The bytes of `{\n  "id": "`.
pub open spec fn lit_open() -> Seq<u8> {
    seq![123u8, 10u8, 32u8, 32u8, 34u8, 105u8, 100u8, 34u8, 58u8, 32u8, 34u8]
}

/// The bytes of `",\n  "first_name": "`.
pub open spec fn lit_first() -> Seq<u8> {
    seq![
        34u8,
        44u8,
        10u8,
        32u8,
        32u8,
        34u8,
        102u8,
        105u8,
        114u8,
        115u8,
        116u8,
        95u8,
        110u8,
        97u8,
        109u8,
        101u8,
        34u8,
        58u8,
        32u8,
        34u8,
    ]
}

/// The bytes of `",\n  "last_name": "`.
pub open spec fn lit_last() -> Seq<u8> {
    seq![
        34u8,
        44u8,
        10u8,
        32u8,
        32u8,
        34u8,
        108u8,
        97u8,
        115u8,
        116u8,
        95u8,
        110u8,
        97u8,
        109u8,
        101u8,
        34u8,
        58u8,
        32u8,
        34u8,
    ]
}

/// The bytes of `",\n  "created_at": "`.
pub open spec fn lit_created() -> Seq<u8> {
    seq![
        34u8,
        44u8,
        10u8,
        32u8,
        32u8,
        34u8,
        99u8,
        114u8,
        101u8,
        97u8,
        116u8,
        101u8,
        100u8,
        95u8,
        97u8,
        116u8,
        34u8,
        58u8,
        32u8,
        34u8,
    ]
}

/// The bytes of `"\n}`.
pub open spec fn lit_close() -> Seq<u8> {
    seq![34u8, 10u8, 125u8]
}

/// The canonical encoding of a record.
pub open spec fn encode_spec(rv: RecordView) -> Seq<u8> {
    lit_open() + esc(rv.id) + lit_first() + esc(rv.first_name) + lit_last() + esc(rv.last_name)
        + lit_created() + esc(rv.created_at) + lit_close()
}

/// Whether some record encodes to exactly these bytes.
pub open spec fn decodable(b: Seq<u8>) -> bool {
    exists|rv: RecordView| b == encode_spec(rv)
}

/// The record these bytes spell, where one exists.
pub open spec fn record_of(b: Seq<u8>) -> RecordView {
    choose|rv: RecordView| b == encode_spec(rv)
}

/// Splitting a subrange at an interior point splits its bytes.
pub proof fn lemma_subrange_split(s: Seq<u8>, a: int, b: int, c: int)
    requires
        0 <= a <= b <= c <= s.len(),
    ensures
        s.subrange(a, c) == s.subrange(a, b) + s.subrange(b, c),
{
    assert(s.subrange(a, c) =~= s.subrange(a, b) + s.subrange(b, c));
}

/// Equal-length prefixes of equal concatenations agree, as do the tails.
pub proof fn lemma_cancel_prefix(x: Seq<u8>, y: Seq<u8>, t1: Seq<u8>, t2: Seq<u8>)
    requires
        x + t1 == y + t2,
        x.len() == y.len(),
    ensures
        x == y,
        t1 == t2,
{
    assert forall|i: int| 0 <= i < x.len() implies x[i] == y[i] by {
        assert((x + t1)[i] == x[i]);
        assert((y + t2)[i] == y[i]);
    }
    assert(x =~= y);
    assert((x + t1).len() == x.len() + t1.len());
    assert((y + t2).len() == y.len() + t2.len());
    assert(t1.len() == t2.len());
    assert forall|i: int| 0 <= i < t1.len() implies t1[i] == t2[i] by {
        assert((x + t1)[x.len() + i] == t1[i]);
        assert((y + t2)[y.len() + i] == t2[i]);
    }
    assert(t1 =~= t2);
}

/// Escaping one more byte appends that byte's escape.
pub proof fn lemma_esc_push(s: Seq<u8>, b: u8)
    ensures
        esc(s.push(b)) == esc(s) + esc_byte(b),
    decreases s.len(),
{
    if s.len() == 0 {
        assert(s.push(b).drop_first() =~= s);
        assert(esc(s.push(b)) =~= esc(s) + esc_byte(b));
    } else {
        assert(s.push(b).drop_first() =~= s.drop_first().push(b));
        lemma_esc_push(s.drop_first(), b);
        assert(esc_byte(s[0]) + (esc(s.drop_first()) + esc_byte(b)) =~= (esc_byte(s[0]) + esc(
            s.drop_first(),
        )) + esc_byte(b));
        assert(esc(s.push(b)) == esc_byte(s.push(b)[0]) + esc(s.push(b).drop_first()));
    }
}

/// The first byte of an escape unit is never a quote and never a control
/// byte, and the unit is never empty.
pub proof fn lemma_esc_byte_first(b: u8)
    ensures
        1 <= esc_byte(b).len() <= 6,
        esc_byte(b)[0] != 34,
        esc_byte(b)[0] >= 32,
{
}

/// Two escape units that open the same byte stream are the same unit for
/// the same byte: the escape code is prefix-free.
pub proof fn lemma_esc_unit(a: u8, b: u8, t1: Seq<u8>, t2: Seq<u8>)
    requires
        esc_byte(a) + t1 == esc_byte(b) + t2,
    ensures
        a == b,
        t1 == t2,
{
    let s = esc_byte(a) + t1;
    assert(s[0] == esc_byte(a)[0] && s[0] == esc_byte(b)[0]);
    let a_esc = a == 34 || a == 92 || a < 32;
    let b_esc = b == 34 || b == 92 || b < 32;
    if a_esc != b_esc {
        // one unit starts with a backslash, the other with a plain byte
        // that cannot be a backslash
        assert(false);
    } else if a_esc {
        assert(s[1] == esc_byte(a)[1] && s[1] == esc_byte(b)[1]);
        if a < 32 && b < 32 {
            assert(s[4] == hex_digit(a / 16) && s[4] == hex_digit(b / 16));
            assert(s[5] == hex_digit(a % 16) && s[5] == hex_digit(b % 16));
            assert(a / 16 == b / 16 && a % 16 == b % 16);
            assert(a == b) by (bit_vector)
                requires
                    a / 16 == b / 16 && a % 16 == b % 16,
            ;
        } else {
            // the second byte tells the quote, backslash and control units
            // apart
            assert(a == b);
        }
    } else {
        assert(a == b);
    }
    lemma_cancel_prefix(esc_byte(a), esc_byte(b), t1, t2);
}

/// Where an escaped prefix and an escaped field meet inside one byte
/// stream, the prefix is a prefix of the field and stops on a unit
/// boundary: either it is the whole field and the stream continues with the
/// closing quote, or the stream continues with the escape unit of the next
/// field byte.
pub proof fn lemma_esc_align(col: Seq<u8>, v: Seq<u8>, tail: Seq<u8>, rest: Seq<u8>) -> (k: int)
    requires
        esc(col) + tail == esc(v) + seq![34u8] + rest,
    ensures
        0 <= k <= v.len(),
        col == v.take(k),
        k < v.len() ==> tail.len() >= esc_byte(v[k]).len() && tail.take(
            esc_byte(v[k]).len() as int,
        ) == esc_byte(v[k]),
        k == v.len() ==> tail == seq![34u8] + rest,
    decreases col.len(),
{
    if col.len() == 0 {
        assert(esc(col) =~= Seq::<u8>::empty());
        assert(tail =~= esc(v) + seq![34u8] + rest);
        if v.len() == 0 {
            assert(esc(v) =~= Seq::<u8>::empty());
            assert(col =~= v.take(0));
            assert(tail =~= seq![34u8] + rest);
            0
        } else {
            let u = esc_byte(v[0]);
            lemma_esc_byte_first(v[0]);
            assert(esc(v) == u + esc(v.drop_first()));
            assert(tail =~= (u + esc(v.drop_first())) + seq![34u8] + rest);
            assert(tail.len() >= u.len());
            assert(tail.take(u.len() as int) =~= u);
            assert(col =~= v.take(0));
            0
        }
    } else {
        if v.len() == 0 {
            lemma_esc_byte_first(col[0]);
            assert(esc(col) == esc_byte(col[0]) + esc(col.drop_first()));
            assert((esc(col) + tail)[0] == esc_byte(col[0])[0]);
            assert((esc(v) + seq![34u8] + rest)[0] == 34);
            assert(false);
            0
        } else {
            assert(esc(col) == esc_byte(col[0]) + esc(col.drop_first()));
            assert(esc(v) == esc_byte(v[0]) + esc(v.drop_first()));
            assert(esc_byte(col[0]) + (esc(col.drop_first()) + tail) =~= esc(col) + tail);
            assert(esc_byte(v[0]) + (esc(v.drop_first()) + seq![34u8] + rest) =~= esc(v)
                + seq![34u8] + rest);
            lemma_esc_unit(
                col[0],
                v[0],
                esc(col.drop_first()) + tail,
                esc(v.drop_first()) + seq![34u8] + rest,
            );
            let k1 = lemma_esc_align(col.drop_first(), v.drop_first(), tail, rest);
            let k = k1 + 1;
            assert(col =~= v.take(k)) by {
                assert(col.drop_first() == v.drop_first().take(k1));
                assert(col[0] == v[0]);
                assert forall|m: int| 0 <= m < col.len() implies col[m] == v.take(k)[m] by {
                    if m > 0 {
                        assert(col[m] == col.drop_first()[m - 1]);
                        assert(v.drop_first().take(k1)[m - 1] == v[m]);
                    }
                }
            }
            if k < v.len() {
                assert(v.drop_first()[k1] == v[k]);
            }
            k
        }
    }
}

/// Appends the canonical escape of `s` onto `out`.
fn push_escaped(out: &mut Vec<u8>, s: &Vec<u8>)
    ensures
        final (out)@ == old(out)@ + esc(s@),
{
    let ghost orig = out@;
    let mut i: usize = 0;
    while i < s.len()
        invariant
            0 <= i <= s@.len(),
            out@ == orig + esc(s@.take(i as int)),
        decreases s@.len() - i,
    {
        let b = s[i];
        proof {
            lemma_esc_push(s@.take(i as int), b);
            assert(s@.take(i + 1 as int) =~= s@.take(i as int).push(b));
        }
        if b == 34 {
            out.push(92);
            out.push(34);
            proof {
                assert(out@ =~= orig + esc(s@.take(i + 1 as int)));
            }
        } else if b == 92 {
            out.push(92);
            out.push(92);
            proof {
                assert(out@ =~= orig + esc(s@.take(i + 1 as int)));
            }
        } else if b < 32 {
            let hi = b / 16;
            let lo = b % 16;
            out.push(92);
            out.push(117);
            out.push(48);
            out.push(48);
            out.push(if hi < 10 { 48 + hi } else { 87 + hi });
            out.push(if lo < 10 { 48 + lo } else { 87 + lo });
            proof {
                assert(out@ =~= orig + esc(s@.take(i + 1 as int)));
            }
        } else {
            out.push(b);
            proof {
                assert(out@ =~= orig + esc(s@.take(i + 1 as int)));
            }
        }
        i = i + 1;
    }
    proof {
        assert(s@.take(s@.len() as int) =~= s@);
    }
}

/// Appends a fixed run of bytes onto `out`.
fn push_array<const N: usize>(out: &mut Vec<u8>, a: &[u8; N])
    ensures
        final (out)@ == old(out)@ + a@,
{
    let ghost orig = out@;
    let mut k: usize = 0;
    while k < N
        invariant
            0 <= k <= N,
            out@ == orig + a@.take(k as int),
        decreases N - k,
    {
        out.push(a[k]);
        proof {
            assert(a@.take(k + 1 as int) =~= a@.take(k as int).push(a@[k as int]));
            assert(out@ =~= orig + a@.take(k + 1 as int));
        }
        k = k + 1;
    }
    proof {
        assert(a@.take(N as int) =~= a@);
    }
}

/// The bytes of `{\n  "id": "`, as a vector.
fn lit_open_vec() -> (v: Vec<u8>)
    ensures
        v@ == lit_open(),
{
    let mut v: Vec<u8> = Vec::new();
    push_array(&mut v, &[123u8, 10, 32, 32, 34, 105, 100, 34, 58, 32, 34]);
    proof {
        assert(v@ =~= lit_open());
    }
    v
}

/// The bytes of `",\n  "first_name": "`, as a vector.
fn lit_first_vec() -> (v: Vec<u8>)
    ensures
        v@ == lit_first(),
{
    let mut v: Vec<u8> = Vec::new();
    push_array(
        &mut v,
        &[34u8, 44, 10, 32, 32, 34, 102, 105, 114, 115, 116, 95, 110, 97, 109, 101, 34, 58, 32, 34],
    );
    proof {
        assert(v@ =~= lit_first());
    }
    v
}

/// The bytes of `",\n  "last_name": "`, as a vector.
fn lit_last_vec() -> (v: Vec<u8>)
    ensures
        v@ == lit_last(),
{
    let mut v: Vec<u8> = Vec::new();
    push_array(
        &mut v,
        &[34u8, 44, 10, 32, 32, 34, 108, 97, 115, 116, 95, 110, 97, 109, 101, 34, 58, 32, 34],
    );
    proof {
        assert(v@ =~= lit_last());
    }
    v
}

/// The bytes of `",\n  "created_at": "`, as a vector.
fn lit_created_vec() -> (v: Vec<u8>)
    ensures
        v@ == lit_created(),
{
    let mut v: Vec<u8> = Vec::new();
    push_array(
        &mut v,
        &[34u8, 44, 10, 32, 32, 34, 99, 114, 101, 97, 116, 101, 100, 95, 97, 116, 34, 58, 32, 34],
    );
    proof {
        assert(v@ =~= lit_created());
    }
    v
}

/// The bytes of `"\n}`, as a vector.
fn lit_close_vec() -> (v: Vec<u8>)
    ensures
        v@ == lit_close(),
{
    let mut v: Vec<u8> = Vec::new();
    push_array(&mut v, &[34u8, 10, 125]);
    proof {
        assert(v@ =~= lit_close());
    }
    v
}

/// No escape unit begins at position `i` of `bytes`.
pub open spec fn no_unit_at(bytes: Seq<u8>, i: int) -> bool {
    forall|b: u8|
        !(i + (#[trigger] esc_byte(b)).len() <= bytes.len() && bytes.subrange(
            i,
            i + esc_byte(b).len(),
        ) == esc_byte(b))
}

/// Where neither a quote nor any escape unit begins, no reading of the
/// bytes from `start` as an escaped field up to a closing quote exists.
proof fn lemma_none_when_stuck(bytes: Seq<u8>, start: int, i: int, col: Seq<u8>)
    requires
        0 <= start <= i <= bytes.len(),
        bytes.subrange(start, i) == esc(col),
        no_unit_at(bytes, i),
        i < bytes.len() ==> bytes[i] != 34,
    ensures
        forall|w: Seq<u8>, jj: int|
            !(start <= jj < bytes.len() && bytes.subrange(start, jj) == #[trigger] esc(w)
                && #[trigger] bytes[jj] == 34),
{
    assert forall|w: Seq<u8>, jj: int|
        !(start <= jj < bytes.len() && bytes.subrange(start, jj) == #[trigger] esc(w)
            && #[trigger] bytes[jj] == 34) by {
        if start <= jj < bytes.len() && bytes.subrange(start, jj) == esc(w) && bytes[jj] == 34 {
            lemma_subrange_split(bytes, start, i, bytes.len() as int);
            lemma_subrange_split(bytes, start, jj, bytes.len() as int);
            assert(bytes.subrange(jj, bytes.len() as int) =~= seq![34u8] + bytes.subrange(
                jj + 1,
                bytes.len() as int,
            ));
            assert(esc(w) + (seq![34u8] + bytes.subrange(jj + 1, bytes.len() as int)) =~= esc(w)
                + seq![34u8] + bytes.subrange(jj + 1, bytes.len() as int));
            let tail = bytes.subrange(i, bytes.len() as int);
            let k = lemma_esc_align(col, w, tail, bytes.subrange(jj + 1, bytes.len() as int));
            if k < w.len() {
                let u = esc_byte(w[k]);
                lemma_esc_byte_first(w[k]);
                assert(tail.take(u.len() as int) == u);
                assert(bytes.subrange(i, i + u.len()) =~= tail.take(u.len() as int));
                assert(false);
            } else {
                assert(tail == seq![34u8] + bytes.subrange(jj + 1, bytes.len() as int));
                assert(tail[0] == 34);
                assert(bytes[i] == 34 && i < bytes.len());
                assert(false);
            }
        }
    }
}

/// Parses one escaped field beginning at `start`, up to its terminating
/// quote. At most one reading exists; the contract names it and refuses
/// every other.
#[verifier::loop_isolation(false)]
fn parse_str(bytes: &Vec<u8>, start: usize) -> (r: Option<(Vec<u8>, usize)>)
    requires
        start <= bytes@.len(),
    ensures
        r matches Some((v, j)) ==> start <= j < bytes@.len() && bytes@[j as int] == 34
            && bytes@.subrange(start as int, j as int) == esc(v@),
        r matches Some((v, j)) ==> forall|w: Seq<u8>, jj: int|
            start <= jj < bytes@.len() && bytes@.subrange(start as int, jj) == #[trigger] esc(w)
                && #[trigger] bytes@[jj] == 34 ==> w == v@ && jj == j,
        r is None ==> forall|w: Seq<u8>, jj: int|
            !(start <= jj < bytes@.len() && bytes@.subrange(start as int, jj) == #[trigger] esc(w)
                && #[trigger] bytes@[jj] == 34),
{
    let ghost gb = bytes@;
    let mut out: Vec<u8> = Vec::new();
    let mut i: usize = start;
    while i < bytes.len()
        invariant
            start <= i <= bytes@.len(),
            bytes@.subrange(start as int, i as int) == esc(out@),
        decreases bytes@.len() - i,
    {
        let b = bytes[i];
        if b == 34 {
            proof {
                lemma_subrange_split(gb, start as int, i as int, gb.len() as int);
                assert(gb.subrange(i as int, gb.len() as int) =~= seq![34u8] + gb.subrange(
                    i + 1,
                    gb.len() as int,
                ));
                assert forall|w: Seq<u8>, jj: int|
                    start <= jj < gb.len() && gb.subrange(start as int, jj) == #[trigger] esc(w)
                        && #[trigger] gb[jj] == 34 implies w == out@ && jj == i by {
                    lemma_subrange_split(gb, start as int, jj, gb.len() as int);
                    assert(gb.subrange(jj, gb.len() as int) =~= seq![34u8] + gb.subrange(
                        jj + 1,
                        gb.len() as int,
                    ));
                    assert(esc(w) + (seq![34u8] + gb.subrange(jj + 1, gb.len() as int)) =~= esc(w)
                        + seq![34u8] + gb.subrange(jj + 1, gb.len() as int));
                    let tail = seq![34u8] + gb.subrange(i + 1, gb.len() as int);
                    assert(esc(out@) + tail =~= gb.subrange(start as int, gb.len() as int));
                    let k = lemma_esc_align(out@, w, tail, gb.subrange(jj + 1, gb.len() as int));
                    if k < w.len() {
                        lemma_esc_byte_first(w[k]);
                        assert(tail.take(esc_byte(w[k]).len() as int)[0] == tail[0]);
                        assert(false);
                    }
                    assert(w == out@);
                    assert(tail == seq![34u8] + gb.subrange(jj + 1, gb.len() as int));
                    assert(tail.len() == 1 + (gb.len() - (i + 1)));
                    assert(jj == i);
                }
            }
            return Some((out, i));
        } else if b == 92 {
            if i + 1 >= bytes.len() {
                proof {
                    assert forall|c: u8|
                        !(i + (#[trigger] esc_byte(c)).len() <= gb.len() && gb.subrange(
                            i as int,
                            i + esc_byte(c).len(),
                        ) == esc_byte(c)) by {
                        lemma_esc_byte_first(c);
                        if i + esc_byte(c).len() <= gb.len() && gb.subrange(
                            i as int,
                            i + esc_byte(c).len(),
                        ) == esc_byte(c) {
                            assert(esc_byte(c)[0] == gb.subrange(i as int, i + esc_byte(c).len())[0]);
                            assert(esc_byte(c)[0] == 92);
                            assert(esc_byte(c).len() >= 2);
                            assert(false);
                        }
                    }
                    lemma_none_when_stuck(gb, start as int, i as int, out@);
                }
                return None;
            }
            let c = bytes[i + 1];
            if c == 34 || c == 92 {
                let ghost oldout = out@;
                out.push(c);
                proof {
                    lemma_esc_push(oldout, c);
                    lemma_subrange_split(gb, start as int, i as int, i + 2);
                    assert(gb.subrange(i as int, i + 2) =~= esc_byte(c));
                    assert(gb.subrange(start as int, i + 2) == esc(out@));
                }
                i = i + 2;
            } else if c == 117 {
                let ok6 = bytes.len() - i >= 6;
                let mut good = false;
                let mut val: u8 = 0;
                if ok6 {
                    let d2 = bytes[i + 2];
                    let d3 = bytes[i + 3];
                    let d4 = bytes[i + 4];
                    let d5 = bytes[i + 5];
                    if d2 == 48 && d3 == 48 && (d4 == 48 || d4 == 49) && ((48 <= d5 && d5 <= 57)
                        || (97 <= d5 && d5 <= 102)) {
                        good = true;
                        let hi: u8 = d4 - 48;
                        let lo: u8 = if d5 <= 57 {
                            d5 - 48
                        } else {
                            d5 - 87
                        };
                        val = hi * 16 + lo;
                        proof {
                            assert(val < 32);
                            if hi == 0 {
                                assert(val == lo);
                                assert(val / 16 == 0 && val % 16 == lo);
                            } else {
                                assert(val == 16 + lo);
                                assert(val / 16 == 1 && val % 16 == lo);
                            }
                            assert(hex_digit(val / 16) == d4);
                            assert(hex_digit(val % 16) == d5);
                        }
                    }
                }
                if !good {
                    proof {
                        assert forall|cc: u8|
                            !(i + (#[trigger] esc_byte(cc)).len() <= gb.len() && gb.subrange(
                                i as int,
                                i + esc_byte(cc).len(),
                            ) == esc_byte(cc)) by {
                            lemma_esc_byte_first(cc);
                            if i + esc_byte(cc).len() <= gb.len() && gb.subrange(
                                i as int,
                                i + esc_byte(cc).len(),
                            ) == esc_byte(cc) {
                                let u = esc_byte(cc);
                                assert(u[0] == gb.subrange(i as int, i + u.len())[0]);
                                assert(u[0] == 92);
                                assert(u[1] == gb[i + 1]);
                                assert(u[1] == 117);
                                assert(cc < 32);
                                assert(u.len() == 6);
                                assert(u[2] == 48 && u[3] == 48);
                                assert(u[4] == hex_digit(cc / 16));
                                assert(u[5] == hex_digit(cc % 16));
                                assert(cc / 16 == 0 || cc / 16 == 1);
                                assert(u[4] == 48 || u[4] == 49);
                                assert(cc % 16 < 16);
                                assert((48 <= u[5] && u[5] <= 57) || (97 <= u[5] && u[5] <= 102));
                                assert(gb[i + 2] == u[2] && gb[i + 3] == u[3] && gb[i + 4] == u[4]
                                    && gb[i + 5] == u[5]);
                                assert(false);
                            }
                        }
                        lemma_none_when_stuck(gb, start as int, i as int, out@);
                    }
                    return None;
                }
                let ghost oldout = out@;
                out.push(val);
                proof {
                    lemma_esc_push(oldout, val);
                    lemma_subrange_split(gb, start as int, i as int, i + 6);
                    assert(gb.subrange(i as int, i + 6) =~= esc_byte(val));
                    assert(gb.subrange(start as int, i + 6) == esc(out@));
                }
                i = i + 6;
            } else {
                proof {
                    assert forall|cc: u8|
                        !(i + (#[trigger] esc_byte(cc)).len() <= gb.len() && gb.subrange(
                            i as int,
                            i + esc_byte(cc).len(),
                        ) == esc_byte(cc)) by {
                        lemma_esc_byte_first(cc);
                        if i + esc_byte(cc).len() <= gb.len() && gb.subrange(
                            i as int,
                            i + esc_byte(cc).len(),
                        ) == esc_byte(cc) {
                            let u = esc_byte(cc);
                            assert(u[0] == gb.subrange(i as int, i + u.len())[0]);
                            assert(u[0] == 92);
                            assert(u[1] == gb[i + 1]);
                            assert(u[1] == 34 || u[1] == 92 || u[1] == 117);
                            assert(false);
                        }
                    }
                    lemma_none_when_stuck(gb, start as int, i as int, out@);
                }
                return None;
            }
        } else if b < 32 {
            proof {
                assert forall|cc: u8|
                    !(i + (#[trigger] esc_byte(cc)).len() <= gb.len() && gb.subrange(
                        i as int,
                        i + esc_byte(cc).len(),
                    ) == esc_byte(cc)) by {
                    lemma_esc_byte_first(cc);
                    if i + esc_byte(cc).len() <= gb.len() && gb.subrange(
                        i as int,
                        i + esc_byte(cc).len(),
                    ) == esc_byte(cc) {
                        assert(esc_byte(cc)[0] == gb.subrange(i as int, i + esc_byte(cc).len())[0]);
                        assert(esc_byte(cc)[0] >= 32);
                        assert(false);
                    }
                }
                lemma_none_when_stuck(gb, start as int, i as int, out@);
            }
            return None;
        } else {
            let ghost oldout = out@;
            out.push(b);
            proof {
                lemma_esc_push(oldout, b);
                lemma_subrange_split(gb, start as int, i as int, i + 1);
                assert(gb.subrange(i as int, i + 1) =~= esc_byte(b));
                assert(gb.subrange(start as int, i + 1) == esc(out@));
            }
            i = i + 1;
        }
    }
    proof {
        assert forall|cc: u8|
            !(i + (#[trigger] esc_byte(cc)).len() <= gb.len() && gb.subrange(
                i as int,
                i + esc_byte(cc).len(),
            ) == esc_byte(cc)) by {
            lemma_esc_byte_first(cc);
        }
        lemma_none_when_stuck(gb, start as int, i as int, out@);
    }
    None
}

/// Whether `lit` stands at position `at` of `bytes`.
#[verifier::loop_isolation(false)]
fn expect(bytes: &Vec<u8>, at: usize, lit: &Vec<u8>) -> (r: bool)
    requires
        at <= bytes@.len(),
    ensures
        r <==> (at + lit@.len() <= bytes@.len() && bytes@.subrange(at as int, at + lit@.len())
            == lit@),
{
    if bytes.len() - at < lit.len() {
        return false;
    }
    let mut k: usize = 0;
    while k < lit.len()
        invariant
            at + lit@.len() <= bytes@.len(),
            0 <= k <= lit@.len(),
            forall|m: int| 0 <= m < k ==> bytes@[at + m] == lit@[m],
        decreases lit@.len() - k,
    {
        if bytes[at + k] != lit[k] {
            proof {
                if bytes@.subrange(at as int, at + lit@.len()) == lit@ {
                    assert(bytes@.subrange(at as int, at + lit@.len())[k as int] == lit@[k as int]);
                }
            }
            return false;
        }
        k = k + 1;
    }
    proof {
        assert(bytes@.subrange(at as int, at + lit@.len()) =~= lit@);
    }
    true
}

/// Where the identifier field ends inside an encoding.
pub open spec fn off_id_end(rv: RecordView) -> int {
    11 + esc(rv.id).len() as int
}

/// Where the first-name field ends inside an encoding.
pub open spec fn off_first_end(rv: RecordView) -> int {
    off_id_end(rv) + 20 + esc(rv.first_name).len() as int
}

/// Where the last-name field ends inside an encoding.
pub open spec fn off_last_end(rv: RecordView) -> int {
    off_first_end(rv) + 19 + esc(rv.last_name).len() as int
}

/// Where the timestamp field ends inside an encoding.
pub open spec fn off_created_end(rv: RecordView) -> int {
    off_last_end(rv) + 20 + esc(rv.created_at).len() as int
}

/// Where each piece of an encoding stands.
#[verifier::rlimit(30)]
pub proof fn lemma_encode_parts(rv: RecordView)
    ensures
        encode_spec(rv).len() == off_created_end(rv) + 3,
        encode_spec(rv).subrange(0, 11) == lit_open(),
        encode_spec(rv).subrange(11, off_id_end(rv)) == esc(rv.id),
        encode_spec(rv).subrange(off_id_end(rv), off_id_end(rv) + 20) == lit_first(),
        encode_spec(rv).subrange(off_id_end(rv) + 20, off_first_end(rv)) == esc(rv.first_name),
        encode_spec(rv).subrange(off_first_end(rv), off_first_end(rv) + 19) == lit_last(),
        encode_spec(rv).subrange(off_first_end(rv) + 19, off_last_end(rv)) == esc(rv.last_name),
        encode_spec(rv).subrange(off_last_end(rv), off_last_end(rv) + 20) == lit_created(),
        encode_spec(rv).subrange(off_last_end(rv) + 20, off_created_end(rv)) == esc(rv.created_at),
        encode_spec(rv).subrange(off_created_end(rv), off_created_end(rv) + 3) == lit_close(),
{
    let e = encode_spec(rv);
    assert(e.len() == off_created_end(rv) + 3);
    assert(e.subrange(0, 11) =~= lit_open());
    assert(e.subrange(11, off_id_end(rv)) =~= esc(rv.id));
    assert(e.subrange(off_id_end(rv), off_id_end(rv) + 20) =~= lit_first());
    assert(e.subrange(off_id_end(rv) + 20, off_first_end(rv)) =~= esc(rv.first_name));
    assert(e.subrange(off_first_end(rv), off_first_end(rv) + 19) =~= lit_last());
    assert(e.subrange(off_first_end(rv) + 19, off_last_end(rv)) =~= esc(rv.last_name));
    assert(e.subrange(off_last_end(rv), off_last_end(rv) + 20) =~= lit_created());
    assert(e.subrange(off_last_end(rv) + 20, off_created_end(rv)) =~= esc(rv.created_at));
    assert(e.subrange(off_created_end(rv), off_created_end(rv) + 3) =~= lit_close());
}

/// Two escaped fields that start at one position and both stop on a
/// closing quote are the same field stopping at the same place.
pub proof fn lemma_field_step(e: Seq<u8>, p: int, f1: Seq<u8>, f2: Seq<u8>, q1: int, q2: int)
    requires
        0 <= p <= q1 < e.len(),
        p <= q2 < e.len(),
        e.subrange(p, q1) == esc(f1),
        e.subrange(p, q2) == esc(f2),
        e[q1] == 34,
        e[q2] == 34,
    ensures
        f1 == f2,
        q1 == q2,
{
    lemma_subrange_split(e, p, q1, e.len() as int);
    lemma_subrange_split(e, p, q2, e.len() as int);
    assert(e.subrange(q1, e.len() as int) =~= seq![34u8] + e.subrange(q1 + 1, e.len() as int));
    assert(e.subrange(q2, e.len() as int) =~= seq![34u8] + e.subrange(q2 + 1, e.len() as int));
    let t1 = seq![34u8] + e.subrange(q1 + 1, e.len() as int);
    assert(esc(f1) + t1 =~= e.subrange(p, e.len() as int));
    assert(esc(f2) + seq![34u8] + e.subrange(q2 + 1, e.len() as int) =~= e.subrange(
        p,
        e.len() as int,
    ));
    let k = lemma_esc_align(f1, f2, t1, e.subrange(q2 + 1, e.len() as int));
    if k < f2.len() {
        lemma_esc_byte_first(f2[k]);
        assert(t1.take(esc_byte(f2[k]).len() as int)[0] == t1[0]);
        assert(false);
    }
    assert(f1 == f2);
    assert(t1 == seq![34u8] + e.subrange(q2 + 1, e.len() as int));
    assert(t1.len() == 1 + (e.len() - (q1 + 1)));
}

/// No two records share an encoding.
#[verifier::rlimit(60)]
pub proof fn lemma_encode_injective(rv1: RecordView, rv2: RecordView)
    requires
        encode_spec(rv1) == encode_spec(rv2),
    ensures
        rv1 == rv2,
{
    let e = encode_spec(rv1);
    lemma_encode_parts(rv1);
    lemma_encode_parts(rv2);
    assert(e[off_id_end(rv1)] == 34) by {
        assert(e.subrange(off_id_end(rv1), off_id_end(rv1) + 20)[0] == e[off_id_end(rv1)]);
    }
    assert(e[off_id_end(rv2)] == 34) by {
        assert(e.subrange(off_id_end(rv2), off_id_end(rv2) + 20)[0] == e[off_id_end(rv2)]);
    }
    lemma_field_step(e, 11, rv1.id, rv2.id, off_id_end(rv1), off_id_end(rv2));
    assert(e[off_first_end(rv1)] == 34) by {
        assert(e.subrange(off_first_end(rv1), off_first_end(rv1) + 19)[0] == e[off_first_end(rv1)]);
    }
    assert(e[off_first_end(rv2)] == 34) by {
        assert(e.subrange(off_first_end(rv2), off_first_end(rv2) + 19)[0] == e[off_first_end(rv2)]);
    }
    lemma_field_step(
        e,
        off_id_end(rv1) + 20,
        rv1.first_name,
        rv2.first_name,
        off_first_end(rv1),
        off_first_end(rv2),
    );
    assert(e[off_last_end(rv1)] == 34) by {
        assert(e.subrange(off_last_end(rv1), off_last_end(rv1) + 20)[0] == e[off_last_end(rv1)]);
    }
    assert(e[off_last_end(rv2)] == 34) by {
        assert(e.subrange(off_last_end(rv2), off_last_end(rv2) + 20)[0] == e[off_last_end(rv2)]);
    }
    lemma_field_step(
        e,
        off_first_end(rv1) + 19,
        rv1.last_name,
        rv2.last_name,
        off_last_end(rv1),
        off_last_end(rv2),
    );
    assert(e[off_created_end(rv1)] == 34) by {
        assert(e.subrange(off_created_end(rv1), off_created_end(rv1) + 3)[0] == e[off_created_end(
            rv1,
        )]);
    }
    assert(e[off_created_end(rv2)] == 34) by {
        assert(e.subrange(off_created_end(rv2), off_created_end(rv2) + 3)[0] == e[off_created_end(
            rv2,
        )]);
    }
    lemma_field_step(
        e,
        off_last_end(rv1) + 20,
        rv1.created_at,
        rv2.created_at,
        off_created_end(rv1),
        off_created_end(rv2),
    );
    assert(rv1 =~= rv2);
}

/// The record a canonical encoding names is the record that was encoded.
pub proof fn lemma_record_of(b: Seq<u8>, rv: RecordView)
    requires
        b == encode_spec(rv),
    ensures
        decodable(b),
        record_of(b) == rv,
{
    assert(decodable(b));
    let rv2 = record_of(b);
    assert(b == encode_spec(rv2));
    lemma_encode_injective(rv, rv2);
}

/// Encodes a record into its canonical persisted form.
pub fn encode(r: &Record) -> (out: Vec<u8>)
    ensures
        out@ == encode_spec(r@),
{
    let mut out: Vec<u8> = Vec::new();
    push_array(&mut out, &[123u8, 10, 32, 32, 34, 105, 100, 34, 58, 32, 34]);
    proof {
        assert(out@ =~= lit_open());
    }
    push_escaped(&mut out, &r.id);
    push_array(
        &mut out,
        &[34u8, 44, 10, 32, 32, 34, 102, 105, 114, 115, 116, 95, 110, 97, 109, 101, 34, 58, 32, 34],
    );
    proof {
        assert(out@ =~= lit_open() + esc(r@.id) + lit_first());
    }
    push_escaped(&mut out, &r.first_name);
    push_array(
        &mut out,
        &[34u8, 44, 10, 32, 32, 34, 108, 97, 115, 116, 95, 110, 97, 109, 101, 34, 58, 32, 34],
    );
    proof {
        assert(out@ =~= lit_open() + esc(r@.id) + lit_first() + esc(r@.first_name) + lit_last());
    }
    push_escaped(&mut out, &r.last_name);
    push_array(
        &mut out,
        &[34u8, 44, 10, 32, 32, 34, 99, 114, 101, 97, 116, 101, 100, 95, 97, 116, 34, 58, 32, 34],
    );
    push_escaped(&mut out, &r.created_at);
    push_array(&mut out, &[34u8, 10, 125]);
    proof {
        assert(out@ =~= encode_spec(r@));
    }
    out
}

/// Inside an encoding, the identifier field follows the opening literal,
/// stops on a quote, and the first-name literal follows it.
pub proof fn lemma_witness_id(rv: RecordView)
    ensures
        11 <= off_id_end(rv) < encode_spec(rv).len(),
        encode_spec(rv).subrange(0, 11) == lit_open(),
        encode_spec(rv).subrange(11, off_id_end(rv)) == esc(rv.id),
        encode_spec(rv)[off_id_end(rv)] == 34,
        encode_spec(rv).subrange(off_id_end(rv), off_id_end(rv) + 20) == lit_first(),
{
    lemma_encode_parts(rv);
    assert(encode_spec(rv).subrange(off_id_end(rv), off_id_end(rv) + 20)[0] == encode_spec(rv)[off_id_end(rv)]);
}

/// Inside an encoding, the first-name field follows its literal, stops on a
/// quote, and the last-name literal follows it.
pub proof fn lemma_witness_first(rv: RecordView)
    ensures
        off_id_end(rv) + 20 <= off_first_end(rv) < encode_spec(rv).len(),
        encode_spec(rv).subrange(off_id_end(rv) + 20, off_first_end(rv)) == esc(rv.first_name),
        encode_spec(rv)[off_first_end(rv)] == 34,
        encode_spec(rv).subrange(off_first_end(rv), off_first_end(rv) + 19) == lit_last(),
{
    lemma_encode_parts(rv);
    assert(encode_spec(rv).subrange(off_first_end(rv), off_first_end(rv) + 19)[0] == encode_spec(rv)[off_first_end(rv)]);
}

/// Inside an encoding, the last-name field follows its literal, stops on a
/// quote, and the timestamp literal follows it.
pub proof fn lemma_witness_last(rv: RecordView)
    ensures
        off_first_end(rv) + 19 <= off_last_end(rv) < encode_spec(rv).len(),
        encode_spec(rv).subrange(off_first_end(rv) + 19, off_last_end(rv)) == esc(rv.last_name),
        encode_spec(rv)[off_last_end(rv)] == 34,
        encode_spec(rv).subrange(off_last_end(rv), off_last_end(rv) + 20) == lit_created(),
{
    lemma_encode_parts(rv);
    assert(encode_spec(rv).subrange(off_last_end(rv), off_last_end(rv) + 20)[0] == encode_spec(rv)[off_last_end(rv)]);
}

/// Inside an encoding, the timestamp field follows its literal, stops on a
/// quote, and the closing literal ends the bytes.
pub proof fn lemma_witness_created(rv: RecordView)
    ensures
        off_last_end(rv) + 20 <= off_created_end(rv) < encode_spec(rv).len(),
        encode_spec(rv).subrange(off_last_end(rv) + 20, off_created_end(rv)) == esc(rv.created_at),
        encode_spec(rv)[off_created_end(rv)] == 34,
        encode_spec(rv).subrange(off_created_end(rv), off_created_end(rv) + 3) == lit_close(),
        encode_spec(rv).len() == off_created_end(rv) + 3,
{
    lemma_encode_parts(rv);
    assert(encode_spec(rv).subrange(off_created_end(rv), off_created_end(rv) + 3)[0] == encode_spec(rv)[off_created_end(rv)]);
}

/// Under the hypothesis that the bytes are an encoding of `rv`, the one
/// reading of the identifier field is `rv.id`, ending where the encoding
/// puts it.
proof fn lemma_stage_id(gb: Seq<u8>, rv: RecordView, idv: Seq<u8>, j1: int)
    requires
        gb == encode_spec(rv),
        forall|w: Seq<u8>, jj: int|
            11 <= jj < gb.len() && gb.subrange(11, jj) == #[trigger] esc(w) && #[trigger] gb[jj]
                == 34 ==> w == idv && jj == j1,
    ensures
        idv == rv.id,
        j1 == off_id_end(rv),
{
    lemma_witness_id(rv);
    assert(gb[off_id_end(rv)] == 34);
}

/// As `lemma_stage_id`, for the first-name field.
proof fn lemma_stage_first(gb: Seq<u8>, rv: RecordView, firstv: Seq<u8>, j2: int)
    requires
        gb == encode_spec(rv),
        forall|w: Seq<u8>, jj: int|
            off_id_end(rv) + 20 <= jj < gb.len() && gb.subrange(off_id_end(rv) + 20, jj)
                == #[trigger] esc(w) && #[trigger] gb[jj] == 34 ==> w == firstv && jj == j2,
    ensures
        firstv == rv.first_name,
        j2 == off_first_end(rv),
{
    lemma_witness_first(rv);
    assert(gb[off_first_end(rv)] == 34);
}

/// As `lemma_stage_id`, for the last-name field.
proof fn lemma_stage_last(gb: Seq<u8>, rv: RecordView, lastv: Seq<u8>, j3: int)
    requires
        gb == encode_spec(rv),
        forall|w: Seq<u8>, jj: int|
            off_first_end(rv) + 19 <= jj < gb.len() && gb.subrange(off_first_end(rv) + 19, jj)
                == #[trigger] esc(w) && #[trigger] gb[jj] == 34 ==> w == lastv && jj == j3,
    ensures
        lastv == rv.last_name,
        j3 == off_last_end(rv),
{
    lemma_witness_last(rv);
    assert(gb[off_last_end(rv)] == 34);
}

/// As `lemma_stage_id`, for the timestamp field.
proof fn lemma_stage_created(gb: Seq<u8>, rv: RecordView, createdv: Seq<u8>, j4: int)
    requires
        gb == encode_spec(rv),
        forall|w: Seq<u8>, jj: int|
            off_last_end(rv) + 20 <= jj < gb.len() && gb.subrange(off_last_end(rv) + 20, jj)
                == #[trigger] esc(w) && #[trigger] gb[jj] == 34 ==> w == createdv && jj == j4,
    ensures
        createdv == rv.created_at,
        j4 == off_created_end(rv),
{
    lemma_witness_created(rv);
    assert(gb[off_created_end(rv)] == 34);
}

/// Decodes a persisted record. Exactly the canonical encodings decode;
/// everything else is refused, so a decoded record re-encodes to the very
/// bytes that were read.
#[verifier::rlimit(100)]
pub fn decode(bytes: &Vec<u8>) -> (r: Result<Record, DecodeError>)
    ensures
        r matches Ok(rec) ==> bytes@ == encode_spec(rec@),
        r is Err ==> forall|rv: RecordView| bytes@ != encode_spec(rv),
{
    let n = bytes.len();
    let ghost gb = bytes@;
    let l0 = lit_open_vec();
    if !expect(bytes, 0, &l0) {
        proof {
            assert forall|rv: RecordView| gb != encode_spec(rv) by {
                if gb == encode_spec(rv) {
                    lemma_witness_id(rv);
                }
            }
        }
        return Err(DecodeError);
    }
    let pr1 = parse_str(bytes, 11);
    if pr1.is_none() {
        proof {
            assert forall|rv: RecordView| gb != encode_spec(rv) by {
                if gb == encode_spec(rv) {
                    lemma_witness_id(rv);
                    assert(gb[off_id_end(rv)] == 34);
                }
            }
        }
        return Err(DecodeError);
    }
    let (idv, j1) = pr1.unwrap();
    let l1 = lit_first_vec();
    if !expect(bytes, j1, &l1) {
        proof {
            assert forall|rv: RecordView| gb != encode_spec(rv) by {
                if gb == encode_spec(rv) {
                    lemma_stage_id(gb, rv, idv@, j1 as int);
                    lemma_witness_id(rv);
                }
            }
        }
        return Err(DecodeError);
    }
    let pr2 = parse_str(bytes, j1 + 20);
    if pr2.is_none() {
        proof {
            assert forall|rv: RecordView| gb != encode_spec(rv) by {
                if gb == encode_spec(rv) {
                    lemma_stage_id(gb, rv, idv@, j1 as int);
                    lemma_witness_first(rv);
                    assert(gb[off_first_end(rv)] == 34);
                }
            }
        }
        return Err(DecodeError);
    }
    let (firstv, j2) = pr2.unwrap();
    let l2 = lit_last_vec();
    if !expect(bytes, j2, &l2) {
        proof {
            assert forall|rv: RecordView| gb != encode_spec(rv) by {
                if gb == encode_spec(rv) {
                    lemma_stage_id(gb, rv, idv@, j1 as int);
                    lemma_stage_first(gb, rv, firstv@, j2 as int);
                    lemma_witness_first(rv);
                }
            }
        }
        return Err(DecodeError);
    }
    let pr3 = parse_str(bytes, j2 + 19);
    if pr3.is_none() {
        proof {
            assert forall|rv: RecordView| gb != encode_spec(rv) by {
                if gb == encode_spec(rv) {
                    lemma_stage_id(gb, rv, idv@, j1 as int);
                    lemma_stage_first(gb, rv, firstv@, j2 as int);
                    lemma_witness_last(rv);
                    assert(gb[off_last_end(rv)] == 34);
                }
            }
        }
        return Err(DecodeError);
    }
    let (lastv, j3) = pr3.unwrap();
    let l3 = lit_created_vec();
    if !expect(bytes, j3, &l3) {
        proof {
            assert forall|rv: RecordView| gb != encode_spec(rv) by {
                if gb == encode_spec(rv) {
                    lemma_stage_id(gb, rv, idv@, j1 as int);
                    lemma_stage_first(gb, rv, firstv@, j2 as int);
                    lemma_stage_last(gb, rv, lastv@, j3 as int);
                    lemma_witness_last(rv);
                }
            }
        }
        return Err(DecodeError);
    }
    let pr4 = parse_str(bytes, j3 + 20);
    if pr4.is_none() {
        proof {
            assert forall|rv: RecordView| gb != encode_spec(rv) by {
                if gb == encode_spec(rv) {
                    lemma_stage_id(gb, rv, idv@, j1 as int);
                    lemma_stage_first(gb, rv, firstv@, j2 as int);
                    lemma_stage_last(gb, rv, lastv@, j3 as int);
                    lemma_witness_created(rv);
                    assert(gb[off_created_end(rv)] == 34);
                }
            }
        }
        return Err(DecodeError);
    }
    let (createdv, j4) = pr4.unwrap();
    let l4 = lit_close_vec();
    let close_ok = expect(bytes, j4, &l4);
    if !(close_ok && j4 + 3 == n) {
        proof {
            assert forall|rv: RecordView| gb != encode_spec(rv) by {
                if gb == encode_spec(rv) {
                    lemma_stage_id(gb, rv, idv@, j1 as int);
                    lemma_stage_first(gb, rv, firstv@, j2 as int);
                    lemma_stage_last(gb, rv, lastv@, j3 as int);
                    lemma_stage_created(gb, rv, createdv@, j4 as int);
                    lemma_witness_created(rv);
                }
            }
        }
        return Err(DecodeError);
    }
    let rec = Record { id: idv, first_name: firstv, last_name: lastv, created_at: createdv };
    proof {
        lemma_subrange_split(gb, 0, 11, j1 as int);
        lemma_subrange_split(gb, 0, j1 as int, j1 + 20);
        lemma_subrange_split(gb, 0, j1 + 20, j2 as int);
        lemma_subrange_split(gb, 0, j2 as int, j2 + 19);
        lemma_subrange_split(gb, 0, j2 + 19, j3 as int);
        lemma_subrange_split(gb, 0, j3 as int, j3 + 20);
        lemma_subrange_split(gb, 0, j3 + 20, j4 as int);
        lemma_subrange_split(gb, 0, j4 as int, j4 + 3);
        assert(gb.subrange(0, gb.len() as int) =~= gb);
        assert(gb == encode_spec(rec@));
    }
    Ok(rec)
}

} // verus!
