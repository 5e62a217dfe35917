use vstd::prelude::*;
use vstd::utf8::*;

use crate::keys::{bytes_lt, key_lt};

verus! {

proof fn lemma_lead_ranges(x: u32)
    by (bit_vector)
    ensures
        x <= 0x7Fu32 ==> ((x & 0x7Fu32) as u8) <= 0x7Fu8 && (x & 0x7Fu32) as u8 == x as u8,
        0x80u32 <= x <= 0x7FFu32 ==> 0xC0u8 <= (0xC0u8 | ((x >> 6u32) & 0x1Fu32) as u8) <= 0xDFu8,
        0x800u32 <= x <= 0xFFFFu32 ==> 0xE0u8 <= (0xE0u8 | ((x >> 12u32) & 0x0Fu32) as u8)
            <= 0xEFu8,
        0x10000u32 <= x <= 0x10FFFFu32 ==> 0xF0u8 <= (0xF0u8 | ((x >> 18u32) & 0x7u32) as u8)
            <= 0xF7u8,
{
}

proof fn lemma_width1_order(x: u32, y: u32)
    by (bit_vector)
    requires
        x <= 0x7Fu32,
        y <= 0x7Fu32,
        x < y,
    ensures
        ((x & 0x7Fu32) as u8) < ((y & 0x7Fu32) as u8),
{
}

proof fn lemma_width2_order(x: u32, y: u32)
    by (bit_vector)
    requires
        0x80u32 <= x <= 0x7FFu32,
        0x80u32 <= y <= 0x7FFu32,
        x < y,
    ensures
        (0xC0u8 | ((x >> 6u32) & 0x1Fu32) as u8) < (0xC0u8 | ((y >> 6u32) & 0x1Fu32) as u8) || (
        (0xC0u8 | ((x >> 6u32) & 0x1Fu32) as u8) == (0xC0u8 | ((y >> 6u32) & 0x1Fu32) as u8) && (
        0x80u8 | (x & 0x3Fu32) as u8) < (0x80u8 | (y & 0x3Fu32) as u8)),
{
}

proof fn lemma_width3_order(x: u32, y: u32)
    by (bit_vector)
    requires
        0x800u32 <= x <= 0xFFFFu32,
        0x800u32 <= y <= 0xFFFFu32,
        x < y,
    ensures
        (0xE0u8 | ((x >> 12u32) & 0x0Fu32) as u8) < (0xE0u8 | ((y >> 12u32) & 0x0Fu32) as u8) || (
        (0xE0u8 | ((x >> 12u32) & 0x0Fu32) as u8) == (0xE0u8 | ((y >> 12u32) & 0x0Fu32) as u8) && (
        0x80u8 | ((x >> 6u32) & 0x3Fu32) as u8) < (0x80u8 | ((y >> 6u32) & 0x3Fu32) as u8)) || (
        (0xE0u8 | ((x >> 12u32) & 0x0Fu32) as u8) == (0xE0u8 | ((y >> 12u32) & 0x0Fu32) as u8) && (
        0x80u8 | ((x >> 6u32) & 0x3Fu32) as u8) == (0x80u8 | ((y >> 6u32) & 0x3Fu32) as u8) && (
        0x80u8 | (x & 0x3Fu32) as u8) < (0x80u8 | (y & 0x3Fu32) as u8)),
{
}

proof fn lemma_width4_order(x: u32, y: u32)
    by (bit_vector)
    requires
        0x10000u32 <= x <= 0x10FFFFu32,
        0x10000u32 <= y <= 0x10FFFFu32,
        x < y,
    ensures
        (0xF0u8 | ((x >> 18u32) & 0x7u32) as u8) < (0xF0u8 | ((y >> 18u32) & 0x7u32) as u8) || (
        (0xF0u8 | ((x >> 18u32) & 0x7u32) as u8) == (0xF0u8 | ((y >> 18u32) & 0x7u32) as u8) && (
        0x80u8 | ((x >> 12u32) & 0x3Fu32) as u8) < (0x80u8 | ((y >> 12u32) & 0x3Fu32) as u8)) || (
        (0xF0u8 | ((x >> 18u32) & 0x7u32) as u8) == (0xF0u8 | ((y >> 18u32) & 0x7u32) as u8) && (
        0x80u8 | ((x >> 12u32) & 0x3Fu32) as u8) == (0x80u8 | ((y >> 12u32) & 0x3Fu32) as u8) && (
        0x80u8 | ((x >> 6u32) & 0x3Fu32) as u8) < (0x80u8 | ((y >> 6u32) & 0x3Fu32) as u8)) || (
        (0xF0u8 | ((x >> 18u32) & 0x7u32) as u8) == (0xF0u8 | ((y >> 18u32) & 0x7u32) as u8) && (
        0x80u8 | ((x >> 12u32) & 0x3Fu32) as u8) == (0x80u8 | ((y >> 12u32) & 0x3Fu32) as u8) && (
        0x80u8 | ((x >> 6u32) & 0x3Fu32) as u8) == (0x80u8 | ((y >> 6u32) & 0x3Fu32) as u8) && (
        0x80u8 | (x & 0x3Fu32) as u8) < (0x80u8 | (y & 0x3Fu32) as u8)),
{
}

/// `u` comes before `v` where they first differ, at position `i`.
proof fn lemma_lt_at(u: Seq<u8>, v: Seq<u8>, i: int)
    requires
        0 <= i < u.len(),
        i < v.len(),
        u.take(i) == v.take(i),
        u[i] < v[i],
    ensures
        bytes_lt(u, v),
    decreases i,
{
    if i > 0 {
        assert(u[0] == u.take(i)[0]);
        assert(v[0] == v.take(i)[0]);
        assert(u.drop_first().take(i - 1) =~= u.take(i).drop_first());
        assert(v.drop_first().take(i - 1) =~= v.take(i).drop_first());
        lemma_lt_at(u.drop_first(), v.drop_first(), i - 1);
    }
}

/// Two scalars in code point order have encodings that differ first at a
/// position where the first encoding holds the smaller byte.
proof fn lemma_scalar_order(x: u32, y: u32) -> (i: int)
    requires
        is_scalar(x),
        is_scalar(y),
        x < y,
    ensures
        0 <= i < encode_scalar(x).len(),
        i < encode_scalar(y).len(),
        encode_scalar(x).take(i) == encode_scalar(y).take(i),
        encode_scalar(x)[i] < encode_scalar(y)[i],
{
    let ex = encode_scalar(x);
    let ey = encode_scalar(y);
    lemma_lead_ranges(x);
    lemma_lead_ranges(y);
    let same_width = (has_width_1_encoding(x) && has_width_1_encoding(y)) || (has_width_2_encoding(
        x,
    ) && has_width_2_encoding(y)) || (has_width_3_encoding(x) && has_width_3_encoding(y)) || (
    has_width_4_encoding(x) && has_width_4_encoding(y));
    if !same_width {
        assert(ex[0] < ey[0]);
        assert(ex.take(0) =~= ey.take(0));
        0
    } else if has_width_1_encoding(x) {
        lemma_width1_order(x, y);
        assert(ex.take(0) =~= ey.take(0));
        0
    } else if has_width_2_encoding(x) {
        lemma_width2_order(x, y);
        if ex[0] < ey[0] {
            assert(ex.take(0) =~= ey.take(0));
            0
        } else {
            assert(ex.take(1) =~= ey.take(1));
            1
        }
    } else if has_width_3_encoding(x) {
        lemma_width3_order(x, y);
        if ex[0] < ey[0] {
            assert(ex.take(0) =~= ey.take(0));
            0
        } else if ex[1] < ey[1] {
            assert(ex.take(1) =~= ey.take(1));
            1
        } else {
            assert(ex.take(2) =~= ey.take(2));
            2
        }
    } else {
        lemma_width4_order(x, y);
        if ex[0] < ey[0] {
            assert(ex.take(0) =~= ey.take(0));
            0
        } else if ex[1] < ey[1] {
            assert(ex.take(1) =~= ey.take(1));
            1
        } else if ex[2] < ey[2] {
            assert(ex.take(2) =~= ey.take(2));
            2
        } else {
            assert(ex.take(3) =~= ey.take(3));
            3
        }
    }
}

proof fn lemma_common_prefix(p: Seq<u8>, u: Seq<u8>, v: Seq<u8>)
    requires
        bytes_lt(u, v),
    ensures
        bytes_lt(p + u, p + v),
    decreases p.len(),
{
    if p.len() > 0 {
        assert((p + u).drop_first() =~= p.drop_first() + u);
        assert((p + v).drop_first() =~= p.drop_first() + v);
        lemma_common_prefix(p.drop_first(), u, v);
    }
}

/// Keys in character order have UTF-8 encodings in byte order: comparing
/// code points is comparing the bytes that encode them.
pub proof fn lemma_encoding_keeps_order(a: Seq<char>, b: Seq<char>)
    requires
        key_lt(a, b),
    ensures
        bytes_lt(encode_utf8(a), encode_utf8(b)),
    decreases a.len(),
{
    if a.len() > 0 {
        char_is_scalar(a[0]);
    }
    if b.len() > 0 {
        char_is_scalar(b[0]);
    }
    if a.len() == 0 {
        assert(encode_scalar(b[0] as u32).len() > 0);
    } else if a[0] == b[0] {
        lemma_encoding_keeps_order(a.drop_first(), b.drop_first());
        lemma_common_prefix(
            encode_scalar(a[0] as u32),
            encode_utf8(a.drop_first()),
            encode_utf8(b.drop_first()),
        );
    } else {
        let x = a[0] as u32;
        let y = b[0] as u32;
        assert(is_scalar(x));
        assert(is_scalar(y));
        let i = lemma_scalar_order(x, y);
        let u = encode_utf8(a);
        let v = encode_utf8(b);
        assert(u.take(i) =~= encode_scalar(x).take(i));
        assert(v.take(i) =~= encode_scalar(y).take(i));
        assert(u[i] == encode_scalar(x)[i]);
        assert(v[i] == encode_scalar(y)[i]);
        lemma_lt_at(u, v, i);
    }
}

} // verus!
