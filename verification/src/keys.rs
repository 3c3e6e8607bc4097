//! Deterministic 64-bit identity hashing.
//!
//! Geometry and content keys are FNV-1a digests over a stream of 64-bit
//! words encoding the identifying fields. The exact algorithm is not a
//! compatibility surface; what matters, and what is proved, is that the
//! digest is a pure function of the encoded fields, so an unchanged
//! declaration keeps its identity across frames.

use vstd::prelude::*;
use crate::geom::{Anchor, BBox, Vec2Fx, Vec3Fx};
use crate::units::Val;

verus! {

pub const FNV_OFFSET: u64 = 0xcbf2_9ce4_8422_2325;

pub const FNV_PRIME: u64 = 0x100_0000_01b3;

pub open spec fn fnv_step(h: u64, w: u64) -> u64 {
    vstd::wrapping::u64_specs::wrapping_mul(h ^ w, FNV_PRIME)
}

pub open spec fn fnv_from(h: u64, ws: Seq<u64>) -> u64
    decreases ws.len(),
{
    if ws.len() == 0 {
        h
    } else {
        fnv_from(fnv_step(h, ws[0]), ws.drop_first())
    }
}

/// The digest of a word stream.
pub open spec fn fnv_words(ws: Seq<u64>) -> u64 {
    fnv_from(FNV_OFFSET, ws)
}

pub fn fnv1a(ws: &Vec<u64>) -> (r: u64)
    ensures
        r == fnv_words(ws@),
{
    let mut h: u64 = FNV_OFFSET;
    let mut i: usize = 0;
    proof {
        assert(ws@.skip(0) =~= ws@);
    }
    while i < ws.len()
        invariant
            0 <= i <= ws.len(),
            fnv_from(h, ws@.skip(i as int)) == fnv_words(ws@),
        decreases ws.len() - i,
    {
        proof {
            assert(ws@.skip(i as int).drop_first() =~= ws@.skip(i as int + 1));
            assert(ws@.skip(i as int)[0] == ws@[i as int]);
        }
        h = (h ^ ws[i]).wrapping_mul(FNV_PRIME);
        i = i + 1;
    }
    proof {
        assert(ws@.skip(ws@.len() as int) =~= Seq::<u64>::empty());
    }
    h
}

// ---- word encodings of the identifying fields ----

pub open spec fn word_i64(x: i64) -> u64 {
    x as u64
}

pub open spec fn vec2_words(v: Vec2Fx) -> Seq<u64> {
    seq![word_i64(v.x), word_i64(v.y)]
}

pub open spec fn vec3_words(v: Vec3Fx) -> Seq<u64> {
    seq![word_i64(v.x), word_i64(v.y), word_i64(v.z)]
}

pub open spec fn bbox_words(b: BBox) -> Seq<u64> {
    seq![word_i64(b.min_x), word_i64(b.min_y), word_i64(b.max_x), word_i64(b.max_y)]
}

pub open spec fn val_words(v: Val) -> Seq<u64> {
    match v {
        Val::Auto => seq![0u64, 0u64],
        Val::Px(n) => seq![1u64, word_i64(n)],
        Val::Percent(n) => seq![2u64, word_i64(n)],
        Val::Vw(n) => seq![3u64, word_i64(n)],
        Val::Vh(n) => seq![4u64, word_i64(n)],
        Val::VMin(n) => seq![5u64, word_i64(n)],
        Val::VMax(n) => seq![6u64, word_i64(n)],
    }
}

pub open spec fn anchor_words(a: Anchor) -> Seq<u64> {
    match a {
        Anchor::Center => seq![0u64, 0u64, 0u64],
        Anchor::BottomLeft => seq![1u64, 0u64, 0u64],
        Anchor::BottomCenter => seq![2u64, 0u64, 0u64],
        Anchor::BottomRight => seq![3u64, 0u64, 0u64],
        Anchor::CenterLeft => seq![4u64, 0u64, 0u64],
        Anchor::CenterRight => seq![5u64, 0u64, 0u64],
        Anchor::TopLeft => seq![6u64, 0u64, 0u64],
        Anchor::TopCenter => seq![7u64, 0u64, 0u64],
        Anchor::TopRight => seq![8u64, 0u64, 0u64],
        Anchor::Custom(x, y) => seq![9u64, word_i64(x), word_i64(y)],
    }
}

pub open spec fn opt_vec3_words(v: Option<Vec3Fx>) -> Seq<u64> {
    match v {
        Option::None => seq![0u64, 0u64, 0u64, 0u64],
        Option::Some(p) => seq![1u64] + vec3_words(p),
    }
}

pub open spec fn opt_index_words(v: Option<usize>) -> Seq<u64> {
    match v {
        Option::None => seq![0u64, 0u64],
        Option::Some(i) => seq![1u64, i as u64],
    }
}

/// UTF-8 bytes of a text, one word per byte, prefixed by the byte count.
pub open spec fn text_words(t: Seq<char>) -> Seq<u64> {
    let bytes = vstd::utf8::encode_utf8(t);
    seq![bytes.len() as u64] + bytes.map_values(|b: u8| b as u64)
}

pub fn push_word(out: &mut Vec<u64>, w: u64)
    ensures
        final(out)@ == old(out)@ + seq![w],
{
    out.push(w);
}

pub fn push_vec2(out: &mut Vec<u64>, v: Vec2Fx)
    ensures
        final(out)@ == old(out)@ + vec2_words(v),
{
    out.push(v.x as u64);
    out.push(v.y as u64);
    proof {
        assert(out@ =~= old(out)@ + vec2_words(v));
    }
}

pub fn push_bbox(out: &mut Vec<u64>, b: BBox)
    ensures
        final(out)@ == old(out)@ + bbox_words(b),
{
    out.push(b.min_x as u64);
    out.push(b.min_y as u64);
    out.push(b.max_x as u64);
    out.push(b.max_y as u64);
    proof {
        assert(out@ =~= old(out)@ + bbox_words(b));
    }
}

pub fn push_val(out: &mut Vec<u64>, v: Val)
    ensures
        final(out)@ == old(out)@ + val_words(v),
{
    match v {
        Val::Auto => {
            out.push(0);
            out.push(0);
        }
        Val::Px(n) => {
            out.push(1);
            out.push(n as u64);
        }
        Val::Percent(n) => {
            out.push(2);
            out.push(n as u64);
        }
        Val::Vw(n) => {
            out.push(3);
            out.push(n as u64);
        }
        Val::Vh(n) => {
            out.push(4);
            out.push(n as u64);
        }
        Val::VMin(n) => {
            out.push(5);
            out.push(n as u64);
        }
        Val::VMax(n) => {
            out.push(6);
            out.push(n as u64);
        }
    }
    proof {
        assert(out@ =~= old(out)@ + val_words(v));
    }
}

pub fn push_anchor(out: &mut Vec<u64>, a: &Anchor)
    ensures
        final(out)@ == old(out)@ + anchor_words(*a),
{
    match *a {
        Anchor::Center => {
            out.push(0);
            out.push(0);
            out.push(0);
        }
        Anchor::BottomLeft => {
            out.push(1);
            out.push(0);
            out.push(0);
        }
        Anchor::BottomCenter => {
            out.push(2);
            out.push(0);
            out.push(0);
        }
        Anchor::BottomRight => {
            out.push(3);
            out.push(0);
            out.push(0);
        }
        Anchor::CenterLeft => {
            out.push(4);
            out.push(0);
            out.push(0);
        }
        Anchor::CenterRight => {
            out.push(5);
            out.push(0);
            out.push(0);
        }
        Anchor::TopLeft => {
            out.push(6);
            out.push(0);
            out.push(0);
        }
        Anchor::TopCenter => {
            out.push(7);
            out.push(0);
            out.push(0);
        }
        Anchor::TopRight => {
            out.push(8);
            out.push(0);
            out.push(0);
        }
        Anchor::Custom(x, y) => {
            out.push(9);
            out.push(x as u64);
            out.push(y as u64);
        }
    }
    proof {
        assert(out@ =~= old(out)@ + anchor_words(*a));
    }
}

pub fn push_opt_vec3(out: &mut Vec<u64>, v: &Option<Vec3Fx>)
    ensures
        final(out)@ == old(out)@ + opt_vec3_words(*v),
{
    match v {
        Option::None => {
            out.push(0);
            out.push(0);
            out.push(0);
            out.push(0);
        }
        Option::Some(p) => {
            out.push(1);
            out.push(p.x as u64);
            out.push(p.y as u64);
            out.push(p.z as u64);
        }
    }
    proof {
        assert(out@ =~= old(out)@ + opt_vec3_words(*v));
    }
}

pub fn push_opt_index(out: &mut Vec<u64>, v: Option<usize>)
    ensures
        final(out)@ == old(out)@ + opt_index_words(v),
{
    match v {
        Option::None => {
            out.push(0);
            out.push(0);
        }
        Option::Some(i) => {
            out.push(1);
            out.push(i as u64);
        }
    }
    proof {
        assert(out@ =~= old(out)@ + opt_index_words(v));
    }
}

pub fn push_text(out: &mut Vec<u64>, t: &String)
    ensures
        final(out)@ == old(out)@ + text_words(t@),
{
    let bytes: &[u8] = t.as_str().as_bytes();
    out.push(bytes.len() as u64);
    let mut i: usize = 0;
    while i < bytes.len()
        invariant
            0 <= i <= bytes@.len(),
            bytes@ == vstd::utf8::encode_utf8(t@),
            out@ == old(out)@ + seq![bytes@.len() as u64] + bytes@.map_values(|b: u8| b as u64).take(
                i as int,
            ),
        decreases bytes@.len() - i,
    {
        let b = bytes[i];
        out.push(b as u64);
        proof {
            let mapped = bytes@.map_values(|b: u8| b as u64);
            assert(mapped.take(i as int).push(b as u64) =~= mapped.take(i as int + 1));
            assert(out@ =~= old(out)@ + seq![bytes@.len() as u64] + mapped.take(i as int + 1));
        }
        i = i + 1;
    }
    proof {
        let mapped = bytes@.map_values(|b: u8| b as u64);
        assert(mapped.take(bytes@.len() as int) =~= mapped);
        assert(out@ =~= old(out)@ + text_words(t@));
    }
}

} // verus!
