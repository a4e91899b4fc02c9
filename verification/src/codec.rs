//! Canvas persistence: a self-contained binary form for the canvas
//! object list, with serialization and deserialization proved to round
//! trip. Image objects are not persisted — their textures live in the
//! rendering layer and cannot be — so reloading a saved canvas drops
//! them, as the design documents.

use vstd::prelude::*;
use crate::geom::{Point, valid_point, MAX_COORD};
use crate::state::{
    CanvasObject, Color, DrawingStroke, InsertedShape, InsertedText, ObjectView, ShapeType,
    StrokeView, TextView, objects_view, valid_canvas_v, valid_object, valid_object_v,
    valid_objects_v, copy_object, MAX_OBJECTS,
};
use vstd::string::StrSliceExecFns;

verus! {

/// The little-endian base-256 encoding of `v` in `n` bytes.
pub open spec fn enc_le(v: int, n: nat) -> Seq<u8>
    decreases n,
{
    if n == 0 {
        Seq::empty()
    } else {
        seq![(v % 256) as u8] + enc_le(v / 256, (n - 1) as nat)
    }
}

/// The value of a little-endian base-256 byte sequence.
pub open spec fn dec_le(s: Seq<u8>) -> int
    decreases s.len(),
{
    if s.len() == 0 {
        0
    } else {
        s[0] + 256 * dec_le(s.drop_first())
    }
}

/// Powers of 256.
pub open spec fn pow256(n: nat) -> int
    decreases n,
{
    if n == 0 {
        1
    } else {
        256 * pow256((n - 1) as nat)
    }
}

/// The value of the eighth power of 256, spelled out.
pub proof fn lemma_pow256_values()
    ensures
        pow256(7) == 0x100_0000_0000_0000,
        pow256(8) == 0x1_0000_0000_0000_0000,
{
    assert(pow256(0) == 1);
    assert(pow256(1) == 256);
    assert(pow256(2) == 0x1_0000);
    assert(pow256(3) == 0x100_0000);
    assert(pow256(4) == 0x1_0000_0000);
    assert(pow256(5) == 0x100_0000_0000);
    assert(pow256(6) == 0x1_0000_0000_0000);
    assert(pow256(7) == 0x100_0000_0000_0000);
    assert(pow256(8) == 0x1_0000_0000_0000_0000);
}

/// Powers of 256 are positive.
pub proof fn lemma_pow256_pos(n: nat)
    ensures
        pow256(n) >= 1,
    decreases n,
{
    if n > 0 {
        lemma_pow256_pos((n - 1) as nat);
    }
}

/// The encoding is `n` bytes long.
pub proof fn lemma_enc_le_len(v: int, n: nat)
    ensures
        enc_le(v, n).len() == n,
    decreases n,
{
    if n > 0 {
        lemma_enc_le_len(v / 256, (n - 1) as nat);
    }
}

/// A decoded value is non-negative and below the base raised to the
/// length.
pub proof fn lemma_dec_le_bounds(s: Seq<u8>)
    ensures
        0 <= dec_le(s) < pow256(s.len()),
    decreases s.len(),
{
    if s.len() > 0 {
        lemma_dec_le_bounds(s.drop_first());
        let rest = dec_le(s.drop_first());
        assert(256 * rest <= 256 * (pow256((s.len() - 1) as nat) - 1)) by (nonlinear_arith)
            requires
                rest <= pow256((s.len() - 1) as nat) - 1,
        ;
        assert(0 <= 256 * rest) by (nonlinear_arith)
            requires
                0 <= rest,
        ;
    }
}

/// Decoding inverts encoding, for values in range.
pub proof fn lemma_dec_of_enc(v: int, n: nat)
    requires
        0 <= v < pow256(n),
    ensures
        dec_le(enc_le(v, n)) == v,
    decreases n,
{
    if n == 0 {
    } else {
        let q = v / 256;
        let r = v % 256;
        vstd::arithmetic::div_mod::lemma_fundamental_div_mod(v, 256);
        assert(0 <= r < 256);
        assert(v == 256 * q + r);
        assert(0 <= q && q < pow256((n - 1) as nat)) by (nonlinear_arith)
            requires
                v == 256 * q + r,
                0 <= v,
                0 <= r < 256,
                v < 256 * pow256((n - 1) as nat),
        ;
        lemma_dec_of_enc(q, (n - 1) as nat);
        lemma_enc_le_len(q, (n - 1) as nat);
        let e = enc_le(v, n);
        assert(e[0] == r as u8);
        assert(e.drop_first() =~= enc_le(q, (n - 1) as nat));
        assert(dec_le(e) == r + 256 * q);
    }
}

/// Append the eight-byte little-endian form of `v`.
fn push_u64(out: &mut Vec<u8>, v: u64)
    ensures
        final(out)@ == old(out)@ + enc_le(v as int, 8),
{
    let ghost base = old(out)@;
    let mut x: u64 = v;
    let mut k: usize = 0;
    proof {
        assert(base + enc_le(v as int, 8) =~= out@ + enc_le(x as int, 8));
    }
    while k < 8
        invariant
            0 <= k <= 8,
            base + enc_le(v as int, 8) == out@ + enc_le(x as int, (8 - k) as nat),
        decreases 8 - k,
    {
        let ghost pre = out@;
        proof {
            assert(enc_le(x as int, (8 - k) as nat) == seq![(x as int % 256) as u8] + enc_le(
                x as int / 256,
                (8 - k - 1) as nat,
            ));
        }
        let b: u8 = (x % 256) as u8;
        out.push(b);
        x = x / 256;
        k = k + 1;
        proof {
            assert(pre + (seq![b] + enc_le(x as int, (8 - k) as nat)) =~= out@ + enc_le(
                x as int,
                (8 - k) as nat,
            ));
        }
    }
    proof {
        assert(out@ + enc_le(x as int, 0) =~= out@);
    }
}

/// The first eight bytes of `s` decode to a value, leaving the rest:
/// `None` when fewer than eight bytes remain.
pub open spec fn parse_u64(s: Seq<u8>) -> Option<(int, Seq<u8>)> {
    if s.len() >= 8 {
        Some((dec_le(s.subrange(0, 8)), s.subrange(8, s.len() as int)))
    } else {
        None
    }
}

/// Parsing after an eight-byte encoding yields the value and the rest.
pub proof fn lemma_parse_u64_of_enc(v: int, rest: Seq<u8>)
    requires
        0 <= v < pow256(8),
    ensures
        parse_u64(enc_le(v, 8) + rest) == Some((v, rest)),
{
    lemma_enc_le_len(v, 8);
    let s = enc_le(v, 8) + rest;
    assert(s.subrange(0, 8) =~= enc_le(v, 8));
    assert(s.subrange(8, s.len() as int) =~= rest);
    lemma_dec_of_enc(v, 8);
}

/// Read eight little-endian bytes at `pos`.
fn read_u64(bytes: &Vec<u8>, pos: usize) -> (r: Option<(u64, usize)>)
    ensures
        match r {
            Some((v, p2)) => {
                &&& parse_u64(bytes@.subrange(pos as int, bytes@.len() as int)) == Some(
                    (v as int, bytes@.subrange(p2 as int, bytes@.len() as int)),
                )
                &&& pos <= p2 <= bytes@.len()
            },
            None => pos <= bytes@.len() ==> parse_u64(
                bytes@.subrange(pos as int, bytes@.len() as int),
            ) is None,
        },
{
    if pos > bytes.len() || bytes.len() - pos < 8 {
        proof {
            if pos <= bytes@.len() {
                assert(bytes@.subrange(pos as int, bytes@.len() as int).len() < 8);
            }
        }
        return None;
    }
    let n: usize = bytes.len();
    let ghost tail = bytes@.subrange(pos as int, bytes@.len() as int);
    let ghost first8 = tail.subrange(0, 8);
    proof {
        lemma_dec_le_bounds(first8);
        lemma_pow256_values();
        assert(first8.len() == 8);
    }
    let mut v: u64 = 0;
    let mut mult: u64 = 1;
    let mut k: usize = 0;
    proof {
        assert(first8.subrange(0, 8) =~= first8);
        assert(pow256(0) == 1);
        assert(pow256(0) * dec_le(first8.subrange(0, 8)) == dec_le(first8))
            by (nonlinear_arith)
            requires
                pow256(0) == 1,
                first8.subrange(0, 8) == first8,
        ;
    }
    while k < 8
        invariant
            0 <= k <= 8,
            n == bytes@.len(),
            pos + 8 <= n,
            tail == bytes@.subrange(pos as int, bytes@.len() as int),
            first8 == tail.subrange(0, 8),
            0 <= dec_le(first8) < 0x1_0000_0000_0000_0000,
            pow256(8) == 0x1_0000_0000_0000_0000,
            k < 8 ==> mult == pow256(k as nat),
            dec_le(first8) == v + pow256(k as nat) * dec_le(first8.subrange(k as int, 8)),
            0 <= v,
        decreases 8 - k,
    {
        let b: u8 = bytes[pos + k];
        proof {
            assert(first8[k as int] == tail[k as int]);
            assert(tail[k as int] == bytes@[pos + k]);
            let sub = first8.subrange(k as int, 8);
            assert(sub[0] == first8[k as int]);
            assert(sub.drop_first() =~= first8.subrange(k + 1 as int, 8));
            assert(dec_le(sub) == b + 256 * dec_le(first8.subrange(k + 1 as int, 8)));
            lemma_pow256_pos(k as nat);
            lemma_dec_le_bounds(first8.subrange(k + 1 as int, 8));
            assert(pow256(k as nat) * dec_le(sub) == pow256(k as nat) * b + (pow256(k as nat)
                * 256) * dec_le(first8.subrange(k + 1 as int, 8))) by (nonlinear_arith)
                requires
                    dec_le(sub) == b + 256 * dec_le(first8.subrange(k + 1 as int, 8)),
            ;
            assert(pow256(k as nat) * 256 == pow256((k + 1) as nat)) by (nonlinear_arith)
                requires
                    pow256((k + 1) as nat) == 256 * pow256(k as nat),
            ;
            assert(0 <= pow256((k + 1) as nat) * dec_le(first8.subrange(k + 1 as int, 8)))
                by (nonlinear_arith)
                requires
                    0 <= pow256((k + 1) as nat),
                    0 <= dec_le(first8.subrange(k + 1 as int, 8)),
            ;
            assert(0 <= pow256(k as nat) * b) by (nonlinear_arith)
                requires
                    0 <= pow256(k as nat),
                    0 <= b,
            ;
            assert(v + pow256(k as nat) * b <= dec_le(first8));
            assert((b as int) * pow256(k as nat) == pow256(k as nat) * b) by (nonlinear_arith);
        }
        v = v + (b as u64) * mult;
        k = k + 1;
        if k < 8 {
            proof {
                lemma_pow256_pos(k as nat);
                assert(pow256((k - 1) as nat) * 256 <= pow256(7)) by {
                    lemma_pow256_mono(k as nat, 7);
                    assert(pow256((k - 1) as nat) * 256 == 256 * pow256((k - 1) as nat))
                        by (nonlinear_arith);
                }
                lemma_pow256_values();
            }
            mult = mult * 256;
        }
    }
    proof {
        assert(first8.subrange(8, 8) =~= Seq::<u8>::empty());
        assert(pow256(8) * 0 == 0) by (nonlinear_arith);
        assert(v == dec_le(first8));
    }
    Some((v, pos + 8))
}

/// Powers of 256 grow with the exponent.
pub proof fn lemma_pow256_mono(a: nat, b: nat)
    requires
        a <= b,
    ensures
        pow256(a) <= pow256(b),
    decreases b,
{
    if a < b {
        lemma_pow256_mono(a, (b - 1) as nat);
        lemma_pow256_pos((b - 1) as nat);
        assert(pow256((b - 1) as nat) <= 256 * pow256((b - 1) as nat)) by (nonlinear_arith)
            requires
                pow256((b - 1) as nat) >= 1,
        ;
    }
}

/// The eight-byte encoding of a signed value, offset into the unsigned
/// range.
pub open spec fn enc_i(v: int) -> Seq<u8> {
    enc_le(v + 0x8000_0000_0000_0000, 8)
}

/// Parse a signed value: an unsigned one shifted back down.
pub open spec fn parse_i64(s: Seq<u8>) -> Option<(int, Seq<u8>)> {
    match parse_u64(s) {
        Some((v, r)) => Some((v - 0x8000_0000_0000_0000, r)),
        None => None,
    }
}

/// Parsing after a signed encoding yields the value and the rest.
pub proof fn lemma_parse_i64_of_enc(v: int, rest: Seq<u8>)
    requires
        -0x8000_0000_0000_0000 <= v < 0x8000_0000_0000_0000,
    ensures
        parse_i64(enc_i(v) + rest) == Some((v, rest)),
{
    lemma_pow256_values();
    lemma_parse_u64_of_enc(v + 0x8000_0000_0000_0000, rest);
}

/// Append the eight-byte form of a signed value.
fn push_i64(out: &mut Vec<u8>, v: i64)
    ensures
        final(out)@ == old(out)@ + enc_i(v as int),
{
    let u: u64 = ((v as i128) + 0x8000_0000_0000_0000) as u64;
    push_u64(out, u);
}

/// Read a signed value at `pos`.
fn read_i64(bytes: &Vec<u8>, pos: usize) -> (r: Option<(i64, usize)>)
    ensures
        match r {
            Some((v, p2)) => {
                &&& parse_i64(bytes@.subrange(pos as int, bytes@.len() as int)) == Some(
                    (v as int, bytes@.subrange(p2 as int, bytes@.len() as int)),
                )
                &&& pos <= p2 <= bytes@.len()
            },
            None => pos <= bytes@.len() ==> parse_i64(
                bytes@.subrange(pos as int, bytes@.len() as int),
            ) is None,
        },
{
    match read_u64(bytes, pos) {
        Option::Some((u, p2)) => {
            let v: i64 = ((u as i128) - 0x8000_0000_0000_0000) as i64;
            Some((v, p2))
        },
        Option::None => None,
    }
}

/// The encoding of a point: its two coordinates.
pub open spec fn enc_point(p: Point) -> Seq<u8> {
    enc_i(p.x as int) + enc_i(p.y as int)
}

/// Parse a point.
pub open spec fn parse_point(s: Seq<u8>) -> Option<(Point, Seq<u8>)> {
    match parse_i64(s) {
        Some((x, r)) => match parse_i64(r) {
            Some((y, r2)) => Some((Point { x: x as i64, y: y as i64 }, r2)),
            None => None,
        },
        None => None,
    }
}

/// Parsing after an encoded point yields the point and the rest.
pub proof fn lemma_parse_point_of_enc(p: Point, rest: Seq<u8>)
    ensures
        parse_point(enc_point(p) + rest) == Some((p, rest)),
{
    assert(enc_point(p) + rest =~= enc_i(p.x as int) + (enc_i(p.y as int) + rest));
    lemma_parse_i64_of_enc(p.x as int, enc_i(p.y as int) + rest);
    lemma_parse_i64_of_enc(p.y as int, rest);
}

/// Append an encoded point.
fn write_point(out: &mut Vec<u8>, p: Point)
    ensures
        final(out)@ == old(out)@ + enc_point(p),
{
    push_i64(out, p.x);
    push_i64(out, p.y);
    proof {
        assert(out@ =~= old(out)@ + enc_point(p));
    }
}

/// Read a point at `pos`.
fn read_point(bytes: &Vec<u8>, pos: usize) -> (r: Option<(Point, usize)>)
    ensures
        match r {
            Some((p, p2)) => {
                &&& parse_point(bytes@.subrange(pos as int, bytes@.len() as int)) == Some(
                    (p, bytes@.subrange(p2 as int, bytes@.len() as int)),
                )
                &&& pos <= p2 <= bytes@.len()
            },
            None => pos <= bytes@.len() ==> parse_point(
                bytes@.subrange(pos as int, bytes@.len() as int),
            ) is None,
        },
{
    match read_i64(bytes, pos) {
        Option::Some((x, p1)) => match read_i64(bytes, p1) {
            Option::Some((y, p2)) => Some((Point { x, y }, p2)),
            Option::None => None,
        },
        Option::None => None,
    }
}

/// The encoding of a color: its four channels.
pub open spec fn enc_color(c: Color) -> Seq<u8> {
    enc_le(c.r as int, 8) + enc_le(c.g as int, 8) + enc_le(c.b as int, 8) + enc_le(c.a as int, 8)
}

/// Parse a color; channel values must fit a byte.
pub open spec fn parse_color(s: Seq<u8>) -> Option<(Color, Seq<u8>)> {
    match parse_u64(s) {
        Some((r, s1)) => match parse_u64(s1) {
            Some((g, s2)) => match parse_u64(s2) {
                Some((b, s3)) => match parse_u64(s3) {
                    Some((a, s4)) => if 0 <= r < 256 && 0 <= g < 256 && 0 <= b < 256 && 0 <= a
                        < 256 {
                        Some(
                            (
                                Color { r: r as u8, g: g as u8, b: b as u8, a: a as u8 },
                                s4,
                            ),
                        )
                    } else {
                        None
                    },
                    None => None,
                },
                None => None,
            },
            None => None,
        },
        None => None,
    }
}

/// Parsing after an encoded color yields the color and the rest.
pub proof fn lemma_parse_color_of_enc(c: Color, rest: Seq<u8>)
    ensures
        parse_color(enc_color(c) + rest) == Some((c, rest)),
{
    lemma_pow256_values();
    let sg = enc_le(c.g as int, 8) + (enc_le(c.b as int, 8) + (enc_le(c.a as int, 8) + rest));
    let sb = enc_le(c.b as int, 8) + (enc_le(c.a as int, 8) + rest);
    let sa = enc_le(c.a as int, 8) + rest;
    assert(enc_color(c) + rest =~= enc_le(c.r as int, 8) + sg);
    lemma_parse_u64_of_enc(c.r as int, sg);
    assert(sg =~= enc_le(c.g as int, 8) + sb);
    lemma_parse_u64_of_enc(c.g as int, sb);
    lemma_parse_u64_of_enc(c.b as int, sa);
    lemma_parse_u64_of_enc(c.a as int, rest);
}

/// Append an encoded color.
fn write_color(out: &mut Vec<u8>, c: Color)
    ensures
        final(out)@ == old(out)@ + enc_color(c),
{
    push_u64(out, c.r as u64);
    push_u64(out, c.g as u64);
    push_u64(out, c.b as u64);
    push_u64(out, c.a as u64);
    proof {
        assert(out@ =~= old(out)@ + enc_color(c));
    }
}

/// Read a color at `pos`.
fn read_color(bytes: &Vec<u8>, pos: usize) -> (r: Option<(Color, usize)>)
    ensures
        match r {
            Some((c, p2)) => {
                &&& parse_color(bytes@.subrange(pos as int, bytes@.len() as int)) == Some(
                    (c, bytes@.subrange(p2 as int, bytes@.len() as int)),
                )
                &&& pos <= p2 <= bytes@.len()
            },
            None => pos <= bytes@.len() ==> parse_color(
                bytes@.subrange(pos as int, bytes@.len() as int),
            ) is None,
        },
{
    let r1 = read_u64(bytes, pos);
    match r1 {
        Option::Some((r, p1)) => match read_u64(bytes, p1) {
            Option::Some((g, p2)) => match read_u64(bytes, p2) {
                Option::Some((b, p3)) => match read_u64(bytes, p3) {
                    Option::Some((a, p4)) => {
                        if r < 256 && g < 256 && b < 256 && a < 256 {
                            Some(
                                (
                                    Color {
                                        r: r as u8,
                                        g: g as u8,
                                        b: b as u8,
                                        a: a as u8,
                                    },
                                    p4,
                                ),
                            )
                        } else {
                            None
                        }
                    },
                    Option::None => None,
                },
                Option::None => None,
            },
            Option::None => None,
        },
        Option::None => None,
    }
}

/// Relies on `char::from_u32` from the standard library: it returns the
/// character for every valid Unicode scalar value, and `None` exactly on
/// surrogates and values past the Unicode range.
pub assume_specification[ char::from_u32 ](v: u32) -> (r: Option<char>)
    ensures
        match r {
            Some(c) => c as u32 == v,
            None => !vstd::utf8::is_scalar(v),
        },
        vstd::utf8::is_scalar(v) ==> r is Some,
;

/// Relies on `String::push` from the standard library: it appends one
/// character to the string.
pub assume_specification[ String::push ](s: &mut String, ch: char)
    ensures
        final(s)@ == old(s)@.push(ch),
;

/// The encoding of a point sequence, in order.
pub open spec fn enc_points(s: Seq<Point>) -> Seq<u8>
    decreases s.len(),
{
    if s.len() == 0 {
        Seq::empty()
    } else {
        enc_point(s[0]) + enc_points(s.drop_first())
    }
}

/// The encoding of a width sequence, in order.
pub open spec fn enc_widths(s: Seq<i64>) -> Seq<u8>
    decreases s.len(),
{
    if s.len() == 0 {
        Seq::empty()
    } else {
        enc_i(s[0] as int) + enc_widths(s.drop_first())
    }
}

/// The encoding of a character sequence: one Unicode scalar per
/// character.
pub open spec fn enc_chars(s: Seq<char>) -> Seq<u8>
    decreases s.len(),
{
    if s.len() == 0 {
        Seq::empty()
    } else {
        enc_le((s[0] as u32) as int, 8) + enc_chars(s.drop_first())
    }
}

/// Parse `n` points.
pub open spec fn parse_points(s: Seq<u8>, n: int) -> Option<(Seq<Point>, Seq<u8>)>
    decreases n,
{
    if n <= 0 {
        Some((Seq::empty(), s))
    } else {
        match parse_point(s) {
            Some((p, r)) => match parse_points(r, n - 1) {
                Some((ps, r2)) => Some((seq![p] + ps, r2)),
                None => None,
            },
            None => None,
        }
    }
}

/// Parse `n` widths.
pub open spec fn parse_widths(s: Seq<u8>, n: int) -> Option<(Seq<i64>, Seq<u8>)>
    decreases n,
{
    if n <= 0 {
        Some((Seq::empty(), s))
    } else {
        match parse_i64(s) {
            Some((w, r)) => match parse_widths(r, n - 1) {
                Some((ws, r2)) => Some((seq![w as i64] + ws, r2)),
                None => None,
            },
            None => None,
        }
    }
}

/// Parse one character: an in-range Unicode scalar.
pub open spec fn parse_char(s: Seq<u8>) -> Option<(char, Seq<u8>)> {
    match parse_u64(s) {
        Some((v, r)) => if 0 <= v < 0x1_0000_0000 && vstd::utf8::is_scalar(v as u32) {
            Some(((v as u32) as char, r))
        } else {
            None
        },
        None => None,
    }
}

/// Parse `n` characters.
pub open spec fn parse_chars(s: Seq<u8>, n: int) -> Option<(Seq<char>, Seq<u8>)>
    decreases n,
{
    if n <= 0 {
        Some((Seq::empty(), s))
    } else {
        match parse_char(s) {
            Some((c, r)) => match parse_chars(r, n - 1) {
                Some((cs, r2)) => Some((seq![c] + cs, r2)),
                None => None,
            },
            None => None,
        }
    }
}

/// The wire tag for a shape kind.
pub open spec fn shape_tag(k: ShapeType) -> int {
    match k {
        ShapeType::Line => 1,
        ShapeType::Arrow => 2,
        ShapeType::Rectangle => 3,
        ShapeType::Triangle => 4,
        ShapeType::Circle => 5,
    }
}

/// The shape kind for a wire tag.
pub open spec fn tag_shape(v: int) -> Option<ShapeType> {
    if v == 1 {
        Some(ShapeType::Line)
    } else if v == 2 {
        Some(ShapeType::Arrow)
    } else if v == 3 {
        Some(ShapeType::Rectangle)
    } else if v == 4 {
        Some(ShapeType::Triangle)
    } else if v == 5 {
        Some(ShapeType::Circle)
    } else {
        None
    }
}

/// The encoding of one object. Strokes carry their point count once,
/// since a well-formed stroke has one width per point. Images encode to
/// nothing: their textures cannot be persisted.
pub open spec fn enc_obj(o: ObjectView) -> Seq<u8> {
    match o {
        ObjectView::Stroke(sv) => enc_le(1, 8) + enc_le(sv.points.len() as int, 8) + enc_points(
            sv.points,
        ) + enc_widths(sv.widths) + enc_color(sv.color) + enc_i(sv.base_width as int),
        ObjectView::Text(t) => enc_le(2, 8) + enc_le(t.text.len() as int, 8) + enc_chars(t.text)
            + enc_point(t.pos) + enc_color(t.color) + enc_i(t.font_size as int),
        ObjectView::Shape(s) => enc_le(3, 8) + enc_le(shape_tag(s.shape_type), 8) + enc_point(
            s.pos,
        ) + enc_i(s.size as int) + enc_color(s.color) + enc_i(s.rotation as int),
        ObjectView::Image(_) => Seq::empty(),
    }
}

/// Parse one stroke body (after its tag).
pub open spec fn parse_stroke_body(r0: Seq<u8>) -> Option<(ObjectView, Seq<u8>)> {
    match parse_u64(r0) {
        Some((n, r1)) => match parse_points(r1, n) {
            Some((pts, r2)) => match parse_widths(r2, n) {
                Some((ws, r3)) => match parse_color(r3) {
                    Some((c, r4)) => match parse_i64(r4) {
                        Some((base, r5)) => Some(
                            (
                                ObjectView::Stroke(
                                    StrokeView {
                                        points: pts,
                                        widths: ws,
                                        color: c,
                                        base_width: base as i64,
                                    },
                                ),
                                r5,
                            ),
                        ),
                        None => None,
                    },
                    None => None,
                },
                None => None,
            },
            None => None,
        },
        None => None,
    }
}

/// Parse one text body (after its tag).
pub open spec fn parse_text_body(r0: Seq<u8>) -> Option<(ObjectView, Seq<u8>)> {
    match parse_u64(r0) {
        Some((n, r1)) => match parse_chars(r1, n) {
            Some((cs, r2)) => match parse_point(r2) {
                Some((p, r3)) => match parse_color(r3) {
                    Some((c, r4)) => match parse_i64(r4) {
                        Some((f, r5)) => Some(
                            (
                                ObjectView::Text(
                                    TextView { text: cs, pos: p, color: c, font_size: f as i64 },
                                ),
                                r5,
                            ),
                        ),
                        None => None,
                    },
                    None => None,
                },
                None => None,
            },
            None => None,
        },
        None => None,
    }
}

/// Parse one shape body (after its tag).
pub open spec fn parse_shape_body(r0: Seq<u8>) -> Option<(ObjectView, Seq<u8>)> {
    match parse_u64(r0) {
        Some((kt, r1)) => match tag_shape(kt) {
            Some(kind) => match parse_point(r1) {
                Some((p, r2)) => match parse_i64(r2) {
                    Some((sz, r3)) => match parse_color(r3) {
                        Some((c, r4)) => match parse_i64(r4) {
                            Some((rot, r5)) => Some(
                                (
                                    ObjectView::Shape(
                                        InsertedShape {
                                            shape_type: kind,
                                            pos: p,
                                            size: sz as i64,
                                            color: c,
                                            rotation: rot as i64,
                                        },
                                    ),
                                    r5,
                                ),
                            ),
                            None => None,
                        },
                        None => None,
                    },
                    None => None,
                },
                None => None,
            },
            None => None,
        },
        None => None,
    }
}

/// Parse one object: a tag, then the matching body.
pub open spec fn parse_obj(s: Seq<u8>) -> Option<(ObjectView, Seq<u8>)> {
    match parse_u64(s) {
        Some((tag, r0)) => if tag == 1 {
            parse_stroke_body(r0)
        } else if tag == 2 {
            parse_text_body(r0)
        } else if tag == 3 {
            parse_shape_body(r0)
        } else {
            None
        },
        None => None,
    }
}

/// The encoding of an object list: each object in order, images
/// contributing nothing.
pub open spec fn enc_objs(s: Seq<ObjectView>) -> Seq<u8>
    decreases s.len(),
{
    if s.len() == 0 {
        Seq::empty()
    } else {
        enc_obj(s[0]) + enc_objs(s.drop_first())
    }
}

/// How many objects of the list are persisted: all but the images.
pub open spec fn count_persisted(s: Seq<ObjectView>) -> int
    decreases s.len(),
{
    if s.len() == 0 {
        0
    } else {
        (if s[0] is Image {
            0int
        } else {
            1int
        }) + count_persisted(s.drop_first())
    }
}

/// Parse `n` objects.
pub open spec fn parse_objs(s: Seq<u8>, n: int) -> Option<(Seq<ObjectView>, Seq<u8>)>
    decreases n,
{
    if n <= 0 {
        Some((Seq::empty(), s))
    } else {
        match parse_obj(s) {
            Some((o, r)) => match parse_objs(r, n - 1) {
                Some((os, r2)) => Some((seq![o] + os, r2)),
                None => None,
            },
            None => None,
        }
    }
}

/// No object of the list is an image.
pub open spec fn no_images(s: Seq<ObjectView>) -> bool {
    forall|i: int| 0 <= i < s.len() ==> !((#[trigger] s[i]) is Image)
}

/// The full canvas encoding: the persisted object count, then the
/// objects.
pub open spec fn enc_canvas(s: Seq<ObjectView>) -> Seq<u8> {
    enc_le(count_persisted(s), 8) + enc_objs(s)
}

/// The full canvas parse: the count, then exactly that many objects,
/// consuming all bytes, yielding only well-formed image-free canvases.
pub open spec fn dec_canvas(bytes: Seq<u8>) -> Option<Seq<ObjectView>> {
    match parse_u64(bytes) {
        Some((n, r)) => match parse_objs(r, n) {
            Some((objs, r2)) => if r2.len() == 0 && valid_canvas_v(objs) && no_images(objs) {
                Some(objs)
            } else {
                None
            },
            None => None,
        },
        None => None,
    }
}

/// Parsing after an encoded point sequence yields it back.
pub proof fn lemma_parse_points_of_enc(pts: Seq<Point>, rest: Seq<u8>)
    ensures
        parse_points(enc_points(pts) + rest, pts.len() as int) == Some((pts, rest)),
    decreases pts.len(),
{
    if pts.len() == 0 {
        assert(enc_points(pts) + rest =~= rest);
        assert(parse_points(rest, 0) == Some((Seq::<Point>::empty(), rest)));
        assert(pts =~= Seq::<Point>::empty());
    } else {
        let tail_enc = enc_points(pts.drop_first());
        assert(enc_points(pts) + rest =~= enc_point(pts[0]) + (tail_enc + rest));
        lemma_parse_point_of_enc(pts[0], tail_enc + rest);
        lemma_parse_points_of_enc(pts.drop_first(), rest);
        assert(seq![pts[0]] + pts.drop_first() =~= pts);
    }
}

/// Parsing after an encoded width sequence yields it back.
pub proof fn lemma_parse_widths_of_enc(ws: Seq<i64>, rest: Seq<u8>)
    ensures
        parse_widths(enc_widths(ws) + rest, ws.len() as int) == Some((ws, rest)),
    decreases ws.len(),
{
    if ws.len() == 0 {
        assert(enc_widths(ws) + rest =~= rest);
        assert(ws =~= Seq::<i64>::empty());
    } else {
        let tail_enc = enc_widths(ws.drop_first());
        assert(enc_widths(ws) + rest =~= enc_i(ws[0] as int) + (tail_enc + rest));
        lemma_parse_i64_of_enc(ws[0] as int, tail_enc + rest);
        lemma_parse_widths_of_enc(ws.drop_first(), rest);
        assert(seq![ws[0]] + ws.drop_first() =~= ws);
    }
}

/// Parsing after an encoded character sequence yields it back.
pub proof fn lemma_parse_chars_of_enc(cs: Seq<char>, rest: Seq<u8>)
    ensures
        parse_chars(enc_chars(cs) + rest, cs.len() as int) == Some((cs, rest)),
    decreases cs.len(),
{
    if cs.len() == 0 {
        assert(enc_chars(cs) + rest =~= rest);
        assert(cs =~= Seq::<char>::empty());
    } else {
        let c = cs[0];
        let tail_enc = enc_chars(cs.drop_first());
        assert(enc_chars(cs) + rest =~= enc_le((c as u32) as int, 8) + (tail_enc + rest));
        lemma_pow256_values();
        vstd::utf8::char_is_scalar(c);
        lemma_parse_u64_of_enc((c as u32) as int, tail_enc + rest);
        vstd::utf8::char_u32_cast(c, c as u32);
        lemma_parse_chars_of_enc(cs.drop_first(), rest);
        assert(seq![c] + cs.drop_first() =~= cs);
    }
}

/// Parsing after one encoded stroke body yields it back.
#[verifier::rlimit(100)]
#[verifier::spinoff_prover]
pub proof fn lemma_parse_stroke_of_enc(sv: StrokeView, rest: Seq<u8>)
    requires
        sv.widths.len() == sv.points.len(),
        sv.points.len() < 0x1_0000_0000_0000_0000,
    ensures
        parse_stroke_body(
            enc_le(sv.points.len() as int, 8) + enc_points(sv.points) + enc_widths(sv.widths)
                + enc_color(sv.color) + enc_i(sv.base_width as int) + rest,
        ) == Some((ObjectView::Stroke(sv), rest)),
{
    lemma_pow256_values();
    let n = sv.points.len() as int;
    let e_n = enc_le(n, 8);
    let e_p = enc_points(sv.points);
    let e_w = enc_widths(sv.widths);
    let e_c = enc_color(sv.color);
    let e_b = enc_i(sv.base_width as int);
    let whole = e_n + e_p + e_w + e_c + e_b + rest;
    let s2 = e_p + (e_w + (e_c + (e_b + rest)));
    assert(whole =~= e_n + s2);
    lemma_parse_u64_of_enc(n, s2);
    let s3 = e_w + (e_c + (e_b + rest));
    assert(s2 =~= e_p + s3);
    lemma_parse_points_of_enc(sv.points, s3);
    let s4 = e_c + (e_b + rest);
    assert(s3 =~= e_w + s4);
    lemma_parse_widths_of_enc(sv.widths, s4);
    lemma_parse_color_of_enc(sv.color, e_b + rest);
    lemma_parse_i64_of_enc(sv.base_width as int, rest);
}

/// Parsing after one encoded text body yields it back.
#[verifier::rlimit(100)]
#[verifier::spinoff_prover]
pub proof fn lemma_parse_text_of_enc(t: TextView, rest: Seq<u8>)
    requires
        t.text.len() < 0x1_0000_0000_0000_0000,
    ensures
        parse_text_body(
            enc_le(t.text.len() as int, 8) + enc_chars(t.text) + enc_point(t.pos) + enc_color(
                t.color,
            ) + enc_i(t.font_size as int) + rest,
        ) == Some((ObjectView::Text(t), rest)),
{
    lemma_pow256_values();
    let n = t.text.len() as int;
    let e_n = enc_le(n, 8);
    let e_t = enc_chars(t.text);
    let e_p = enc_point(t.pos);
    let e_c = enc_color(t.color);
    let e_f = enc_i(t.font_size as int);
    let whole = e_n + e_t + e_p + e_c + e_f + rest;
    let s2 = e_t + (e_p + (e_c + (e_f + rest)));
    assert(whole =~= e_n + s2);
    lemma_parse_u64_of_enc(n, s2);
    let s3 = e_p + (e_c + (e_f + rest));
    assert(s2 =~= e_t + s3);
    lemma_parse_chars_of_enc(t.text, s3);
    lemma_parse_point_of_enc(t.pos, e_c + (e_f + rest));
    lemma_parse_color_of_enc(t.color, e_f + rest);
    lemma_parse_i64_of_enc(t.font_size as int, rest);
}

/// Parsing after one encoded shape body yields it back.
#[verifier::rlimit(100)]
#[verifier::spinoff_prover]
pub proof fn lemma_parse_shape_of_enc(sh: InsertedShape, rest: Seq<u8>)
    ensures
        parse_shape_body(
            enc_le(shape_tag(sh.shape_type), 8) + enc_point(sh.pos) + enc_i(sh.size as int)
                + enc_color(sh.color) + enc_i(sh.rotation as int) + rest,
        ) == Some((ObjectView::Shape(sh), rest)),
{
    lemma_pow256_values();
    let e_k = enc_le(shape_tag(sh.shape_type), 8);
    let e_p = enc_point(sh.pos);
    let e_s = enc_i(sh.size as int);
    let e_c = enc_color(sh.color);
    let e_r = enc_i(sh.rotation as int);
    let whole = e_k + e_p + e_s + e_c + e_r + rest;
    let s2 = e_p + (e_s + (e_c + (e_r + rest)));
    assert(whole =~= e_k + s2);
    lemma_parse_u64_of_enc(shape_tag(sh.shape_type), s2);
    assert(tag_shape(shape_tag(sh.shape_type)) == Some(sh.shape_type));
    lemma_parse_point_of_enc(sh.pos, e_s + (e_c + (e_r + rest)));
    lemma_parse_i64_of_enc(sh.size as int, e_c + (e_r + rest));
    lemma_parse_color_of_enc(sh.color, e_r + rest);
    lemma_parse_i64_of_enc(sh.rotation as int, rest);
}

/// Parsing after one encoded well-formed, non-image object yields it
/// back.
#[verifier::rlimit(100)]
#[verifier::spinoff_prover]
pub proof fn lemma_parse_obj_of_enc(o: ObjectView, rest: Seq<u8>)
    requires
        valid_object_v(o),
        !(o is Image),
    ensures
        parse_obj(enc_obj(o) + rest) == Some((o, rest)),
{
    lemma_pow256_values();
    match o {
        ObjectView::Stroke(sv) => {
            let body = enc_le(sv.points.len() as int, 8) + enc_points(sv.points) + enc_widths(
                sv.widths,
            ) + enc_color(sv.color) + enc_i(sv.base_width as int);
            assert(enc_obj(o) + rest =~= enc_le(1, 8) + (body + rest));
            lemma_parse_u64_of_enc(1, body + rest);
            lemma_parse_stroke_of_enc(sv, rest);
            assert(body + rest =~= enc_le(sv.points.len() as int, 8) + enc_points(sv.points)
                + enc_widths(sv.widths) + enc_color(sv.color) + enc_i(sv.base_width as int)
                + rest);
        },
        ObjectView::Text(t) => {
            let body = enc_le(t.text.len() as int, 8) + enc_chars(t.text) + enc_point(t.pos)
                + enc_color(t.color) + enc_i(t.font_size as int);
            assert(enc_obj(o) + rest =~= enc_le(2, 8) + (body + rest));
            lemma_parse_u64_of_enc(2, body + rest);
            lemma_parse_text_of_enc(t, rest);
            assert(body + rest =~= enc_le(t.text.len() as int, 8) + enc_chars(t.text) + enc_point(
                t.pos,
            ) + enc_color(t.color) + enc_i(t.font_size as int) + rest);
        },
        ObjectView::Shape(sh) => {
            let body = enc_le(shape_tag(sh.shape_type), 8) + enc_point(sh.pos) + enc_i(
                sh.size as int,
            ) + enc_color(sh.color) + enc_i(sh.rotation as int);
            assert(enc_obj(o) + rest =~= enc_le(3, 8) + (body + rest));
            lemma_parse_u64_of_enc(3, body + rest);
            lemma_parse_shape_of_enc(sh, rest);
            assert(body + rest =~= enc_le(shape_tag(sh.shape_type), 8) + enc_point(sh.pos)
                + enc_i(sh.size as int) + enc_color(sh.color) + enc_i(sh.rotation as int) + rest);
        },
        ObjectView::Image(_) => {},
    }
}

/// The objects of the list that persistence keeps: everything but the
/// images, in order.
pub open spec fn persisted(s: Seq<ObjectView>) -> Seq<ObjectView>
    decreases s.len(),
{
    if s.len() == 0 {
        s
    } else if s[0] is Image {
        persisted(s.drop_first())
    } else {
        seq![s[0]] + persisted(s.drop_first())
    }
}

/// The persisted objects are the well-formed, image-free subsequence,
/// exactly `count_persisted` long and never longer than the input.
pub proof fn lemma_persisted_props(s: Seq<ObjectView>)
    requires
        valid_objects_v(s),
    ensures
        valid_objects_v(persisted(s)),
        no_images(persisted(s)),
        persisted(s).len() == count_persisted(s),
        persisted(s).len() <= s.len(),
        no_images(s) ==> persisted(s) == s,
    decreases s.len(),
{
    if s.len() == 0 {
        assert(no_images(persisted(s)));
    } else {
        assert(valid_objects_v(s.drop_first())) by {
            assert(forall|i: int|
                0 <= i < s.len() - 1 ==> s.drop_first()[i] == #[trigger] s[(i + 1)]);
        }
        lemma_persisted_props(s.drop_first());
        if s[0] is Image {
            assert(s[0] is Image);
        } else {
            let rest = persisted(s.drop_first());
            let whole = seq![s[0]] + rest;
            assert(valid_object_v(s[0]));
            assert(forall|i: int| 1 <= i < whole.len() ==> whole[i] == rest[(i - 1)]);
            assert(valid_objects_v(whole));
            assert(no_images(whole));
        }
        if no_images(s) {
            assert(!(s[0] is Image));
            assert(no_images(s.drop_first())) by {
                assert(forall|i: int|
                    0 <= i < s.len() - 1 ==> s.drop_first()[i] == #[trigger] s[(i + 1)]);
            }
            assert(seq![s[0]] + s.drop_first() =~= s);
        }
    }
}

/// Parsing after any encoded well-formed object list yields its
/// persisted objects: the images contributed no bytes and no count.
#[verifier::rlimit(100)]
#[verifier::spinoff_prover]
pub proof fn lemma_parse_objs_of_enc_general(s: Seq<ObjectView>, rest: Seq<u8>)
    requires
        valid_objects_v(s),
    ensures
        parse_objs(enc_objs(s) + rest, count_persisted(s)) == Some((persisted(s), rest)),
    decreases s.len(),
{
    lemma_persisted_props(s);
    if s.len() == 0 {
        assert(enc_objs(s) + rest =~= rest);
        assert(persisted(s) =~= Seq::<ObjectView>::empty());
    } else {
        assert(valid_objects_v(s.drop_first())) by {
            assert(forall|i: int|
                0 <= i < s.len() - 1 ==> s.drop_first()[i] == #[trigger] s[(i + 1)]);
        }
        lemma_parse_objs_of_enc_general(s.drop_first(), rest);
        if s[0] is Image {
            assert(enc_obj(s[0]) =~= Seq::<u8>::empty());
            assert(enc_objs(s) + rest =~= enc_objs(s.drop_first()) + rest);
        } else {
            let tail_enc = enc_objs(s.drop_first());
            assert(enc_objs(s) + rest =~= enc_obj(s[0]) + (tail_enc + rest));
            assert(valid_object_v(s[0]));
            lemma_parse_obj_of_enc(s[0], tail_enc + rest);
            lemma_persisted_props(s.drop_first());
        }
    }
}

/// Serialization round-trips: deserializing the bytes of any
/// well-formed canvas yields the canvas with its images removed —
/// object for object, and the exact canvas when it held no image.
pub proof fn lemma_codec_round_trip(s: Seq<ObjectView>)
    requires
        valid_canvas_v(s),
    ensures
        dec_canvas(enc_canvas(s)) == Some(persisted(s)),
        no_images(s) ==> dec_canvas(enc_canvas(s)) == Some(s),
{
    lemma_pow256_values();
    lemma_persisted_props(s);
    let body = enc_objs(s) + Seq::<u8>::empty();
    assert(enc_canvas(s) =~= enc_le(count_persisted(s), 8) + body);
    lemma_parse_u64_of_enc(count_persisted(s), body);
    lemma_parse_objs_of_enc_general(s, Seq::empty());
    assert(body =~= enc_objs(s) + Seq::<u8>::empty());
}

/// Append one encoded object; images contribute nothing.
fn write_object(out: &mut Vec<u8>, o: &CanvasObject)
    requires
        valid_object(*o),
    ensures
        final(out)@ == old(out)@ + enc_obj(o@),
{
    match o {
        CanvasObject::Stroke(s) => {
            let ghost target = old(out)@ + enc_obj(o@);
            push_u64(out, 1);
            push_u64(out, s.points.len() as u64);
            let ghost pts = s.points@;
            let ghost ws = s.widths@;
            let n: usize = s.points.len();
            proof {
                assert(out@ + (enc_points(pts) + (enc_widths(ws) + (enc_color(s.color) + enc_i(
                    s.base_width as int,
                )))) =~= target);
                assert(pts.subrange(0, n as int) =~= pts);
                assert(enc_points(pts.subrange(0int, n as int)) == enc_points(pts));
            }
            let mut i: usize = 0;
            while i < n
                invariant
                    0 <= i <= n,
                    n == pts.len(),
                    pts == s.points@,
                    ws == s.widths@,
                    out@ + (enc_points(pts.subrange(i as int, n as int)) + (enc_widths(ws) + (
                    enc_color(s.color) + enc_i(s.base_width as int)))) == target,
                decreases n - i,
            {
                let ghost tail = pts.subrange(i as int, n as int);
                proof {
                    assert(tail[0] == pts[i as int]);
                    assert(tail.drop_first() =~= pts.subrange(i + 1 as int, n as int));
                    assert(enc_points(tail) == enc_point(pts[i as int]) + enc_points(
                        pts.subrange(i + 1 as int, n as int),
                    ));
                }
                write_point(out, s.points[i]);
                i = i + 1;
                proof {
                    assert(out@ + (enc_points(pts.subrange(i as int, n as int)) + (enc_widths(ws)
                        + (enc_color(s.color) + enc_i(s.base_width as int)))) =~= target);
                }
            }
            proof {
                assert(pts.subrange(n as int, n as int) =~= Seq::<Point>::empty());
                assert(ws.subrange(0int, n as int) =~= ws);
            }
            let mut j: usize = 0;
            while j < n
                invariant
                    0 <= j <= n,
                    n == ws.len(),
                    ws == s.widths@,
                    out@ + (enc_widths(ws.subrange(j as int, n as int)) + (enc_color(s.color)
                        + enc_i(s.base_width as int))) == target,
                decreases n - j,
            {
                let ghost tail = ws.subrange(j as int, n as int);
                proof {
                    assert(tail[0] == ws[j as int]);
                    assert(tail.drop_first() =~= ws.subrange(j + 1 as int, n as int));
                    assert(enc_widths(tail) == enc_i(ws[j as int] as int) + enc_widths(
                        ws.subrange(j + 1 as int, n as int),
                    ));
                }
                push_i64(out, s.widths[j]);
                j = j + 1;
                proof {
                    assert(out@ + (enc_widths(ws.subrange(j as int, n as int)) + (enc_color(
                        s.color,
                    ) + enc_i(s.base_width as int))) =~= target);
                }
            }
            proof {
                assert(ws.subrange(n as int, n as int) =~= Seq::<i64>::empty());
            }
            write_color(out, s.color);
            push_i64(out, s.base_width);
            proof {
                assert(out@ =~= target);
            }
        },
        CanvasObject::Text(t) => {
            let ghost target = old(out)@ + enc_obj(o@);
            proof {
                assert(crate::state::valid_text_v(t@));
            }
            push_u64(out, 2);
            let len: usize = t.text.as_str().unicode_len();
            push_u64(out, len as u64);
            let ghost cs = t.text@;
            proof {
                assert(out@ + (enc_chars(cs) + (enc_point(t.pos) + (enc_color(t.color) + enc_i(
                    t.font_size as int,
                )))) =~= target);
                assert(cs.subrange(0int, len as int) =~= cs);
            }
            let mut i: usize = 0;
            while i < len
                invariant
                    0 <= i <= len,
                    len == cs.len(),
                    cs == t.text@,
                    out@ + (enc_chars(cs.subrange(i as int, len as int)) + (enc_point(t.pos) + (
                    enc_color(t.color) + enc_i(t.font_size as int)))) == target,
                decreases len - i,
            {
                let ghost tail = cs.subrange(i as int, len as int);
                proof {
                    assert(tail[0] == cs[i as int]);
                    assert(tail.drop_first() =~= cs.subrange(i + 1 as int, len as int));
                    assert(enc_chars(tail) == enc_le((cs[i as int] as u32) as int, 8) + enc_chars(
                        cs.subrange(i + 1 as int, len as int),
                    ));
                }
                let c: char = t.text.as_str().get_char(i);
                push_u64(out, (c as u32) as u64);
                i = i + 1;
                proof {
                    assert(out@ + (enc_chars(cs.subrange(i as int, len as int)) + (enc_point(
                        t.pos,
                    ) + (enc_color(t.color) + enc_i(t.font_size as int)))) =~= target);
                }
            }
            proof {
                assert(cs.subrange(len as int, len as int) =~= Seq::<char>::empty());
            }
            write_point(out, t.pos);
            write_color(out, t.color);
            push_i64(out, t.font_size);
            proof {
                assert(out@ =~= target);
            }
        },
        CanvasObject::Shape(sh) => {
            let ghost target = old(out)@ + enc_obj(o@);
            push_u64(out, 3);
            let tag: u64 = match sh.shape_type {
                ShapeType::Line => 1,
                ShapeType::Arrow => 2,
                ShapeType::Rectangle => 3,
                ShapeType::Triangle => 4,
                ShapeType::Circle => 5,
            };
            push_u64(out, tag);
            write_point(out, sh.pos);
            push_i64(out, sh.size);
            write_color(out, sh.color);
            push_i64(out, sh.rotation);
            proof {
                assert(out@ =~= target);
            }
        },
        CanvasObject::Image(_) => {
            proof {
                assert(out@ =~= old(out)@ + enc_obj(o@));
            }
        },
    }
}

/// Serialize the whole canvas: the persisted object count, then each
/// non-image object in order.
pub fn serialize_canvas(objects: &Vec<CanvasObject>) -> (out: Vec<u8>)
    requires
        valid_canvas_v(objects_view(objects@)),
    ensures
        out@ == enc_canvas(objects_view(objects@)),
{
    let ghost cv = objects_view(objects@);
    let n: usize = objects.len();
    let mut count: u64 = 0;
    let mut i: usize = 0;
    proof {
        assert(cv.subrange(0int, n as int) =~= cv);
    }
    while i < n
        invariant
            0 <= i <= n,
            n == cv.len(),
            cv == objects_view(objects@),
            count <= i,
            count + count_persisted(cv.subrange(i as int, n as int)) == count_persisted(cv),
        decreases n - i,
    {
        let ghost tail = cv.subrange(i as int, n as int);
        proof {
            assert(tail[0] == cv[i as int]);
            assert(tail.drop_first() =~= cv.subrange(i + 1 as int, n as int));
            assert(cv[i as int] == objects@[i as int]@);
        }
        let is_image: bool = match &objects[i] {
            CanvasObject::Image(_) => true,
            _ => false,
        };
        if !is_image {
            count = count + 1;
        }
        i = i + 1;
    }
    proof {
        assert(cv.subrange(n as int, n as int) =~= Seq::<ObjectView>::empty());
    }
    let mut out: Vec<u8> = Vec::new();
    push_u64(&mut out, count);
    let ghost target = enc_canvas(cv);
    proof {
        assert(out@ + enc_objs(cv.subrange(0int, n as int)) =~= target);
    }
    let mut j: usize = 0;
    while j < n
        invariant
            0 <= j <= n,
            n == cv.len(),
            cv == objects_view(objects@),
            valid_canvas_v(cv),
            out@ + enc_objs(cv.subrange(j as int, n as int)) == target,
        decreases n - j,
    {
        let ghost tail = cv.subrange(j as int, n as int);
        proof {
            assert(tail[0] == cv[j as int]);
            assert(tail.drop_first() =~= cv.subrange(j + 1 as int, n as int));
            assert(enc_objs(tail) == enc_obj(cv[j as int]) + enc_objs(
                cv.subrange(j + 1 as int, n as int),
            ));
            assert(cv[j as int] == objects@[j as int]@);
            assert(valid_object_v(cv[j as int]));
        }
        write_object(&mut out, &objects[j]);
        proof {
            assert(out@ + enc_objs(cv.subrange(j + 1 as int, n as int)) =~= target);
        }
        j = j + 1;
    }
    proof {
        assert(cv.subrange(n as int, n as int) =~= Seq::<ObjectView>::empty());
        assert(out@ =~= target);
    }
    out
}

/// Read one character at `pos`.
fn read_char(bytes: &Vec<u8>, pos: usize) -> (r: Option<(char, usize)>)
    ensures
        match r {
            Some((c, p2)) => {
                &&& parse_char(bytes@.subrange(pos as int, bytes@.len() as int)) == Some(
                    (c, bytes@.subrange(p2 as int, bytes@.len() as int)),
                )
                &&& pos <= p2 <= bytes@.len()
            },
            None => pos <= bytes@.len() ==> parse_char(
                bytes@.subrange(pos as int, bytes@.len() as int),
            ) is None,
        },
{
    match read_u64(bytes, pos) {
        Option::Some((v, p2)) => {
            if v < 0x1_0000_0000 {
                match char::from_u32(v as u32) {
                    Option::Some(c) => {
                        proof {
                            vstd::utf8::char_is_scalar(c);
                            vstd::utf8::char_u32_cast(c, v as u32);
                        }
                        Some((c, p2))
                    },
                    Option::None => None,
                }
            } else {
                None
            }
        },
        Option::None => None,
    }
}

/// A parsed prefix joined onto the front of a point-sequence parse.
pub open spec fn with_points_prefix(
    acc: Seq<Point>,
    r: Option<(Seq<Point>, Seq<u8>)>,
) -> Option<(Seq<Point>, Seq<u8>)> {
    match r {
        Some((v, rest)) => Some((acc + v, rest)),
        None => None,
    }
}

/// Read `n` points at `pos`.
fn read_points(bytes: &Vec<u8>, pos: usize, n: u64) -> (r: Option<(Vec<Point>, usize)>)
    ensures
        match r {
            Some((v, p2)) => {
                &&& parse_points(bytes@.subrange(pos as int, bytes@.len() as int), n as int)
                    == Some((v@, bytes@.subrange(p2 as int, bytes@.len() as int)))
                &&& pos <= p2 <= bytes@.len()
            },
            None => pos <= bytes@.len() ==> parse_points(
                bytes@.subrange(pos as int, bytes@.len() as int),
                n as int,
            ) is None,
        },
{
    if pos > bytes.len() {
        return None;
    }
    let ghost tail0 = bytes@.subrange(pos as int, bytes@.len() as int);
    let mut acc: Vec<Point> = Vec::new();
    let mut p: usize = pos;
    let mut i: u64 = 0;
    proof {
        match parse_points(tail0, n as int) {
            Some((v, rest)) => {
                assert(acc@ + v =~= v);
            },
            None => {},
        }
        assert(parse_points(tail0, n as int) == with_points_prefix(
            acc@,
            parse_points(bytes@.subrange(p as int, bytes@.len() as int), n as int - i),
        ));
    }
    while i < n
        invariant
            0 <= i <= n,
            pos <= p <= bytes@.len(),
            tail0 == bytes@.subrange(pos as int, bytes@.len() as int),
            parse_points(tail0, n as int) == with_points_prefix(
                acc@,
                parse_points(bytes@.subrange(p as int, bytes@.len() as int), n as int - i),
            ),
        decreases n - i,
    {
        let ghost cur = bytes@.subrange(p as int, bytes@.len() as int);
        match read_point(bytes, p) {
            Option::Some((pt, p2)) => {
                proof {
                    let nxt = bytes@.subrange(p2 as int, bytes@.len() as int);
                    assert(parse_points(cur, n as int - i) == (match parse_points(
                        nxt,
                        n as int - i - 1,
                    ) {
                        Some((ps, r2)) => Some((seq![pt] + ps, r2)),
                        None => None,
                    }));
                    match parse_points(nxt, n as int - i - 1) {
                        Some((ps, r2)) => {
                            assert(acc@ + (seq![pt] + ps) =~= acc@.push(pt) + ps);
                        },
                        None => {},
                    }
                }
                acc.push(pt);
                p = p2;
                i = i + 1;
            },
            Option::None => {
                return None;
            },
        }
    }
    proof {
        let fin = bytes@.subrange(p as int, bytes@.len() as int);
        assert(parse_points(fin, 0) == Some((Seq::<Point>::empty(), fin)));
        assert(acc@ + Seq::<Point>::empty() =~= acc@);
    }
    Some((acc, p))
}

/// A parsed prefix joined onto the front of a width-sequence parse.
pub open spec fn with_widths_prefix(
    acc: Seq<i64>,
    r: Option<(Seq<i64>, Seq<u8>)>,
) -> Option<(Seq<i64>, Seq<u8>)> {
    match r {
        Some((v, rest)) => Some((acc + v, rest)),
        None => None,
    }
}

/// Read `n` widths at `pos`.
fn read_widths(bytes: &Vec<u8>, pos: usize, n: u64) -> (r: Option<(Vec<i64>, usize)>)
    ensures
        match r {
            Some((v, p2)) => {
                &&& parse_widths(bytes@.subrange(pos as int, bytes@.len() as int), n as int)
                    == Some((v@, bytes@.subrange(p2 as int, bytes@.len() as int)))
                &&& pos <= p2 <= bytes@.len()
            },
            None => pos <= bytes@.len() ==> parse_widths(
                bytes@.subrange(pos as int, bytes@.len() as int),
                n as int,
            ) is None,
        },
{
    if pos > bytes.len() {
        return None;
    }
    let ghost tail0 = bytes@.subrange(pos as int, bytes@.len() as int);
    let mut acc: Vec<i64> = Vec::new();
    let mut p: usize = pos;
    let mut i: u64 = 0;
    proof {
        match parse_widths(tail0, n as int) {
            Some((v, rest)) => {
                assert(acc@ + v =~= v);
            },
            None => {},
        }
    }
    while i < n
        invariant
            0 <= i <= n,
            pos <= p <= bytes@.len(),
            tail0 == bytes@.subrange(pos as int, bytes@.len() as int),
            parse_widths(tail0, n as int) == with_widths_prefix(
                acc@,
                parse_widths(bytes@.subrange(p as int, bytes@.len() as int), n as int - i),
            ),
        decreases n - i,
    {
        let ghost cur = bytes@.subrange(p as int, bytes@.len() as int);
        match read_i64(bytes, p) {
            Option::Some((w, p2)) => {
                proof {
                    let nxt = bytes@.subrange(p2 as int, bytes@.len() as int);
                    match parse_widths(nxt, n as int - i - 1) {
                        Some((ws, r2)) => {
                            assert(acc@ + (seq![w] + ws) =~= acc@.push(w) + ws);
                        },
                        None => {},
                    }
                }
                acc.push(w);
                p = p2;
                i = i + 1;
            },
            Option::None => {
                return None;
            },
        }
    }
    proof {
        let fin = bytes@.subrange(p as int, bytes@.len() as int);
        assert(parse_widths(fin, 0) == Some((Seq::<i64>::empty(), fin)));
        assert(acc@ + Seq::<i64>::empty() =~= acc@);
    }
    Some((acc, p))
}

/// A parsed prefix joined onto the front of a character-sequence parse.
pub open spec fn with_chars_prefix(
    acc: Seq<char>,
    r: Option<(Seq<char>, Seq<u8>)>,
) -> Option<(Seq<char>, Seq<u8>)> {
    match r {
        Some((v, rest)) => Some((acc + v, rest)),
        None => None,
    }
}

/// Read `n` characters at `pos`, building a string.
fn read_chars(bytes: &Vec<u8>, pos: usize, n: u64) -> (r: Option<(String, usize)>)
    ensures
        match r {
            Some((v, p2)) => {
                &&& parse_chars(bytes@.subrange(pos as int, bytes@.len() as int), n as int)
                    == Some((v@, bytes@.subrange(p2 as int, bytes@.len() as int)))
                &&& pos <= p2 <= bytes@.len()
            },
            None => pos <= bytes@.len() ==> parse_chars(
                bytes@.subrange(pos as int, bytes@.len() as int),
                n as int,
            ) is None,
        },
{
    if pos > bytes.len() {
        return None;
    }
    let ghost tail0 = bytes@.subrange(pos as int, bytes@.len() as int);
    let mut acc: String = String::new();
    let mut p: usize = pos;
    let mut i: u64 = 0;
    proof {
        match parse_chars(tail0, n as int) {
            Some((v, rest)) => {
                assert(acc@ + v =~= v);
            },
            None => {},
        }
    }
    while i < n
        invariant
            0 <= i <= n,
            pos <= p <= bytes@.len(),
            tail0 == bytes@.subrange(pos as int, bytes@.len() as int),
            parse_chars(tail0, n as int) == with_chars_prefix(
                acc@,
                parse_chars(bytes@.subrange(p as int, bytes@.len() as int), n as int - i),
            ),
        decreases n - i,
    {
        let ghost cur = bytes@.subrange(p as int, bytes@.len() as int);
        match read_char(bytes, p) {
            Option::Some((c, p2)) => {
                proof {
                    let nxt = bytes@.subrange(p2 as int, bytes@.len() as int);
                    match parse_chars(nxt, n as int - i - 1) {
                        Some((cs, r2)) => {
                            assert(acc@ + (seq![c] + cs) =~= acc@.push(c) + cs);
                        },
                        None => {},
                    }
                }
                acc.push(c);
                p = p2;
                i = i + 1;
            },
            Option::None => {
                return None;
            },
        }
    }
    proof {
        let fin = bytes@.subrange(p as int, bytes@.len() as int);
        assert(parse_chars(fin, 0) == Some((Seq::<char>::empty(), fin)));
        assert(acc@ + Seq::<char>::empty() =~= acc@);
    }
    Some((acc, p))
}

/// Read one object at `pos`.
#[verifier::rlimit(100)]
#[verifier::spinoff_prover]
fn read_object(bytes: &Vec<u8>, pos: usize) -> (r: Option<(CanvasObject, usize)>)
    ensures
        match r {
            Some((o, p2)) => {
                &&& parse_obj(bytes@.subrange(pos as int, bytes@.len() as int)) == Some(
                    (o@, bytes@.subrange(p2 as int, bytes@.len() as int)),
                )
                &&& pos <= p2 <= bytes@.len()
            },
            None => pos <= bytes@.len() ==> parse_obj(
                bytes@.subrange(pos as int, bytes@.len() as int),
            ) is None,
        },
{
    let tag = match read_u64(bytes, pos) {
        Option::Some(t) => t,
        Option::None => {
            return None;
        },
    };
    let (tag_v, p0) = tag;
    if tag_v == 1 {
        let (n, p1) = match read_u64(bytes, p0) {
            Option::Some(x) => x,
            Option::None => {
                return None;
            },
        };
        let (points, p2) = match read_points(bytes, p1, n) {
            Option::Some(x) => x,
            Option::None => {
                return None;
            },
        };
        let (widths, p3) = match read_widths(bytes, p2, n) {
            Option::Some(x) => x,
            Option::None => {
                return None;
            },
        };
        let (color, p4) = match read_color(bytes, p3) {
            Option::Some(x) => x,
            Option::None => {
                return None;
            },
        };
        let (base_width, p5) = match read_i64(bytes, p4) {
            Option::Some(x) => x,
            Option::None => {
                return None;
            },
        };
        Some((CanvasObject::Stroke(DrawingStroke { points, widths, color, base_width }), p5))
    } else if tag_v == 2 {
        let (n, p1) = match read_u64(bytes, p0) {
            Option::Some(x) => x,
            Option::None => {
                return None;
            },
        };
        let (text, p2) = match read_chars(bytes, p1, n) {
            Option::Some(x) => x,
            Option::None => {
                return None;
            },
        };
        let (pos2, p3) = match read_point(bytes, p2) {
            Option::Some(x) => x,
            Option::None => {
                return None;
            },
        };
        let (color, p4) = match read_color(bytes, p3) {
            Option::Some(x) => x,
            Option::None => {
                return None;
            },
        };
        let (font_size, p5) = match read_i64(bytes, p4) {
            Option::Some(x) => x,
            Option::None => {
                return None;
            },
        };
        Some((CanvasObject::Text(InsertedText { text, pos: pos2, color, font_size }), p5))
    } else if tag_v == 3 {
        let (kt, p1) = match read_u64(bytes, p0) {
            Option::Some(x) => x,
            Option::None => {
                return None;
            },
        };
        let shape_type = if kt == 1 {
            ShapeType::Line
        } else if kt == 2 {
            ShapeType::Arrow
        } else if kt == 3 {
            ShapeType::Rectangle
        } else if kt == 4 {
            ShapeType::Triangle
        } else if kt == 5 {
            ShapeType::Circle
        } else {
            return None;
        };
        let (pos2, p2) = match read_point(bytes, p1) {
            Option::Some(x) => x,
            Option::None => {
                return None;
            },
        };
        let (size, p3) = match read_i64(bytes, p2) {
            Option::Some(x) => x,
            Option::None => {
                return None;
            },
        };
        let (color, p4) = match read_color(bytes, p3) {
            Option::Some(x) => x,
            Option::None => {
                return None;
            },
        };
        let (rotation, p5) = match read_i64(bytes, p4) {
            Option::Some(x) => x,
            Option::None => {
                return None;
            },
        };
        Some((CanvasObject::Shape(InsertedShape { shape_type, pos: pos2, size, color, rotation }), p5))
    } else {
        None
    }
}

/// Exact validity test for one parsed object, rejecting images.
fn check_object(o: &CanvasObject) -> (r: bool)
    ensures
        r == (valid_object_v(o@) && !(o@ is Image)),
{
    match o {
        CanvasObject::Stroke(s) => {
            let n: usize = s.points.len();
            if n < 1 || n > crate::state::MAX_STROKE_POINTS || s.widths.len() != n {
                return false;
            }
            if !(s.base_width > 0 && s.base_width <= crate::state::MAX_WIDTH) {
                return false;
            }
            let mut i: usize = 0;
            while i < n
                invariant
                    0 <= i <= n,
                    n == s.points@.len(),
                    n == s.widths@.len(),
                    o@ is Stroke && o@->Stroke_0 == s@,
                    1 <= n <= crate::state::MAX_STROKE_POINTS,
                    0 < s.base_width <= crate::state::MAX_WIDTH,
                    forall|k: int| 0 <= k < i ==> valid_point(#[trigger] s.points@[k]),
                    forall|k: int|
                        0 <= k < i ==> 0 <= #[trigger] s.widths@[k]
                            <= crate::state::MAX_POINT_WIDTH,
                decreases n - i,
            {
                let p = s.points[i];
                if !(p.x >= -MAX_COORD && p.x <= MAX_COORD && p.y >= -MAX_COORD && p.y
                    <= MAX_COORD) {
                    proof {
                        assert(!valid_point(s.points@[i as int]));
                    }
                    return false;
                }
                let w = s.widths[i];
                if !(w >= 0 && w <= crate::state::MAX_POINT_WIDTH) {
                    proof {
                        assert(!(0 <= s.widths@[i as int] <= crate::state::MAX_POINT_WIDTH));
                    }
                    return false;
                }
                i = i + 1;
            }
            true
        },
        CanvasObject::Image(_) => false,
        CanvasObject::Text(t) => {
            if !(t.pos.x >= -MAX_COORD && t.pos.x <= MAX_COORD && t.pos.y >= -MAX_COORD && t.pos.y
                <= MAX_COORD) {
                return false;
            }
            if !(t.font_size > 0 && t.font_size <= crate::state::MAX_WIDTH) {
                return false;
            }
            t.text.as_str().unicode_len() <= 100_000
        },
        CanvasObject::Shape(s) => {
            s.pos.x >= -MAX_COORD && s.pos.x <= MAX_COORD && s.pos.y >= -MAX_COORD && s.pos.y
                <= MAX_COORD && s.size > 0 && s.size <= MAX_COORD && s.rotation >= 0 && s.rotation
                < crate::state::FULL_TURN_MRAD
        },
    }
}

/// A parsed prefix joined onto the front of an object-sequence parse.
pub open spec fn with_objs_prefix(
    acc: Seq<ObjectView>,
    r: Option<(Seq<ObjectView>, Seq<u8>)>,
) -> Option<(Seq<ObjectView>, Seq<u8>)> {
    match r {
        Some((v, rest)) => Some((acc + v, rest)),
        None => None,
    }
}

/// Deserialize a canvas: the persisted count, that many objects, no
/// trailing bytes, and every object well-formed and image-free —
/// otherwise nothing.
pub fn deserialize_canvas(bytes: &Vec<u8>) -> (r: Option<Vec<CanvasObject>>)
    ensures
        match r {
            Some(v) => {
                &&& dec_canvas(bytes@) == Some(objects_view(v@))
                &&& valid_canvas_v(objects_view(v@))
                &&& no_images(objects_view(v@))
            },
            None => dec_canvas(bytes@) is None,
        },
{
    let (n, p0) = match read_u64(bytes, 0) {
        Option::Some(x) => x,
        Option::None => {
            proof {
                assert(bytes@.subrange(0, bytes@.len() as int) =~= bytes@);
            }
            return None;
        },
    };
    proof {
        assert(bytes@.subrange(0, bytes@.len() as int) =~= bytes@);
    }
    let ghost after_count = bytes@.subrange(p0 as int, bytes@.len() as int);
    let mut acc: Vec<CanvasObject> = Vec::new();
    let mut p: usize = p0;
    let mut i: u64 = 0;
    proof {
        match parse_objs(after_count, n as int) {
            Some((v, rest)) => {
                assert(objects_view(acc@) + v =~= v);
            },
            None => {},
        }
        assert(objects_view(acc@) =~= Seq::<ObjectView>::empty());
    }
    while i < n
        invariant
            0 <= i <= n,
            p0 <= p <= bytes@.len(),
            after_count == bytes@.subrange(p0 as int, bytes@.len() as int),
            parse_u64(bytes@) == Some((n as int, after_count)),
            parse_objs(after_count, n as int) == with_objs_prefix(
                objects_view(acc@),
                parse_objs(bytes@.subrange(p as int, bytes@.len() as int), n as int - i),
            ),
        decreases n - i,
    {
        let ghost cur = bytes@.subrange(p as int, bytes@.len() as int);
        match read_object(bytes, p) {
            Option::Some((o, p2)) => {
                proof {
                    let nxt = bytes@.subrange(p2 as int, bytes@.len() as int);
                    match parse_objs(nxt, n as int - i - 1) {
                        Some((os, r2)) => {
                            assert(objects_view(acc@) + (seq![o@] + os) =~= objects_view(
                                acc@.push(o),
                            ) + os);
                        },
                        None => {
                        },
                    }
                    assert(objects_view(acc@.push(o)) =~= objects_view(acc@).push(o@));
                }
                acc.push(o);
                p = p2;
                i = i + 1;
            },
            Option::None => {
                proof {
                    let cur2 = bytes@.subrange(p as int, bytes@.len() as int);
                    assert(parse_objs(cur2, n as int - i) is None);
                }
                return None;
            },
        }
    }
    proof {
        let fin = bytes@.subrange(p as int, bytes@.len() as int);
        assert(parse_objs(fin, 0) == Some((Seq::<ObjectView>::empty(), fin)));
        assert(objects_view(acc@) + Seq::<ObjectView>::empty() =~= objects_view(acc@));
    }
    if p != bytes.len() {
        proof {
            assert(bytes@.subrange(p as int, bytes@.len() as int).len() > 0);
        }
        return None;
    }
    if acc.len() > MAX_OBJECTS {
        return None;
    }
    let m: usize = acc.len();
    let mut j: usize = 0;
    while j < m
        invariant
            0 <= j <= m,
            m == acc@.len(),
            m <= MAX_OBJECTS,
            p == bytes@.len(),
            parse_u64(bytes@) == Some((n as int, after_count)),
            parse_objs(after_count, n as int) == Some(
                (objects_view(acc@), bytes@.subrange(p as int, bytes@.len() as int)),
            ),
            forall|k: int|
                0 <= k < j ==> valid_object_v(#[trigger] objects_view(acc@)[k]) && !(
                objects_view(acc@)[k] is Image),
        decreases m - j,
    {
        if !check_object(&acc[j]) {
            proof {
                assert(acc@[j as int]@ == objects_view(acc@)[j as int]);
                assert(bytes@.subrange(p as int, bytes@.len() as int).len() == 0);
            }
            return None;
        }
        j = j + 1;
    }
    proof {
        assert(valid_canvas_v(objects_view(acc@)));
        assert(no_images(objects_view(acc@)));
        assert(bytes@.subrange(p as int, bytes@.len() as int).len() == 0);
    }
    Some(acc)
}

} // verus!
