use vstd::prelude::*;
use crate::case_matcher::chars_of;

verus! {

/// The two bytes of one 16-bit code unit, in big- or little-endian order.
pub open spec fn unit_bytes(u: int, big: bool) -> Seq<u8> {
    if big {
        seq![(u / 256) as u8, (u % 256) as u8]
    } else {
        seq![(u % 256) as u8, (u / 256) as u8]
    }
}

/// The UTF-16 encoding of one character: one code unit inside the Basic
/// Multilingual Plane, a surrogate pair outside it.
pub open spec fn char_utf16_bytes(c: char, big: bool) -> Seq<u8> {
    let v = c as u32 as int;
    if v < 0x10000 {
        unit_bytes(v, big)
    } else {
        unit_bytes(0xD800 + (v - 0x10000) / 0x400, big) + unit_bytes(
            0xDC00 + (v - 0x10000) % 0x400,
            big,
        )
    }
}

/// The UTF-16 encoding of a text, as bytes in the given order.
pub open spec fn utf16_bytes(s: Seq<char>, big: bool) -> Seq<u8>
    decreases s.len(),
{
    if s.len() == 0 {
        Seq::empty()
    } else {
        utf16_bytes(s.drop_last(), big) + char_utf16_bytes(s.last(), big)
    }
}

fn push_unit(out: &mut Vec<u8>, u: u32, big: bool)
    ensures
        final(out)@ == old(out)@ + unit_bytes(u as int, big),
{
    if big {
        out.push((u / 256) as u8);
        out.push((u % 256) as u8);
    } else {
        out.push((u % 256) as u8);
        out.push((u / 256) as u8);
    }
    assert(final(out)@ =~= old(out)@ + unit_bytes(u as int, big));
}

/// Appends the UTF-16 encoding of `s` to `out`.
pub(crate) fn push_utf16(out: &mut Vec<u8>, s: &str, big: bool)
    ensures
        final(out)@ == old(out)@ + utf16_bytes(s@, big),
{
    let cs = chars_of(s);
    let n = cs.len();
    let mut i: usize = 0;
    while i < n
        invariant
            i <= n,
            n == s@.len(),
            cs@ == s@,
            out@ == old(out)@ + utf16_bytes(s@.subrange(0, i as int), big),
        decreases n - i,
    {
        let c = cs[i];
        let v = c as u32;
        let ghost mid = out@;
        if v < 0x10000 {
            push_unit(out, v, big);
        } else {
            push_unit(out, 0xD800 + (v - 0x10000) / 0x400, big);
            push_unit(out, 0xDC00 + (v - 0x10000) % 0x400, big);
        }
        proof {
            let t = s@.subrange(0, i + 1);
            assert(t.drop_last() =~= s@.subrange(0, i as int));
            assert(out@ =~= mid + char_utf16_bytes(c, big));
        }
        i = i + 1;
    }
    assert(s@.subrange(0, n as int) =~= s@);
}

/// The UTF-16LE encoding of `text`.
pub fn get_le_16_bytes(text: &str) -> (r: Vec<u8>)
    ensures
        r@ == utf16_bytes(text@, false),
{
    let mut r: Vec<u8> = Vec::new();
    push_utf16(&mut r, text, false);
    assert(r@ =~= utf16_bytes(text@, false));
    r
}

/// The UTF-16BE encoding of `text`.
pub fn get_be_16_bytes(text: &str) -> (r: Vec<u8>)
    ensures
        r@ == utf16_bytes(text@, true),
{
    let mut r: Vec<u8> = Vec::new();
    push_utf16(&mut r, text, true);
    assert(r@ =~= utf16_bytes(text@, true));
    r
}

} // verus!
