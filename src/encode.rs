//! Appending UTF-8 encodings to the output.
use vstd::prelude::*;
use vstd::utf8::{
    encode_scalar, encode_utf8, has_width_1_encoding, has_width_2_encoding, has_width_3_encoding,
    is_scalar,
};

verus! {

/// Appends the UTF-8 encoding of the scalar value `v`.
pub fn push_scalar(out: &mut Vec<u8>, v: u32)
    requires
        is_scalar(v),
    ensures
        final(out)@ == old(out)@ + encode_scalar(v),
{
    let ghost before = out@;
    if v <= 0x7F {
        out.push((v & 0x7F) as u8);
        assert(has_width_1_encoding(v));
    } else if v <= 0x7FF {
        out.push(0xC0u8 | ((v >> 6) & 0x1F) as u8);
        out.push(0x80u8 | (v & 0x3F) as u8);
        assert(has_width_2_encoding(v));
    } else if v <= 0xFFFF {
        out.push(0xE0u8 | ((v >> 12) & 0x0F) as u8);
        out.push(0x80u8 | ((v >> 6) & 0x3F) as u8);
        out.push(0x80u8 | (v & 0x3F) as u8);
        assert(has_width_3_encoding(v));
    } else {
        out.push(0xF0u8 | ((v >> 18) & 0x7) as u8);
        out.push(0x80u8 | ((v >> 12) & 0x3F) as u8);
        out.push(0x80u8 | ((v >> 6) & 0x3F) as u8);
        out.push(0x80u8 | (v & 0x3F) as u8);
    }
    assert(out@ =~= before + encode_scalar(v));
}

/// Appends the UTF-8 encoding of the characters `cs`.
pub fn push_chars(out: &mut Vec<u8>, cs: &Vec<char>)
    ensures
        final(out)@ == old(out)@ + encode_utf8(cs@),
{
    let ghost before = out@;
    let mut i: usize = 0;
    assert(cs@.subrange(0, cs@.len() as int) =~= cs@);
    while i < cs.len()
        invariant
            i <= cs@.len(),
            before + encode_utf8(cs@) == out@ + encode_utf8(cs@.subrange(i as int, cs@.len() as int)),
        decreases cs@.len() - i,
    {
        let ghost rest = cs@.subrange(i as int, cs@.len() as int);
        let ghost prev = out@;
        assert(rest.drop_first() =~= cs@.subrange(i + 1, cs@.len() as int));
        let c = cs[i];
        proof {
            vstd::utf8::char_is_scalar(c);
        }
        push_scalar(out, c as u32);
        i = i + 1;
        assert(prev + encode_utf8(rest) =~= out@ + encode_utf8(rest.drop_first()));
    }
    assert(cs@.subrange(i as int, cs@.len() as int) =~= Seq::<char>::empty());
    assert(out@ + encode_utf8(Seq::<char>::empty()) =~= out@);
}

} // verus!
