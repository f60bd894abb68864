use vstd::prelude::*;

verus! {

/// Unsigned LEB128 encoding of `v`, least significant group first.
pub open spec fn spec_uleb(v: nat) -> Seq<u8>
    decreases v,
{
    if v < 128 {
        seq![v as u8]
    } else {
        seq![((v % 128) + 128) as u8] + spec_uleb(v / 128)
    }
}

/// Appends the unsigned LEB128 encoding of `v` to `out`.
pub fn uleb(v: u32, out: &mut Vec<u8>)
    ensures
        final(out)@ == old(out)@ + spec_uleb(v as nat),
{
    let mut v = v;
    let ghost v0 = v as nat;
    let ghost start = old(out)@;
    loop
        invariant_except_break
            start + spec_uleb(v0) == out@ + spec_uleb(v as nat),
        ensures
            out@ == start + spec_uleb(v0),
        decreases v,
    {
        let mut b = (v & 0x7f) as u8;
        let ghost vv = v;
        let ghost old_out = out@;
        assert((vv & 0x7f) as u8 as nat == (vv as nat) % 128 && vv >> 7 == vv / 128) by (bit_vector);
        v >>= 7;
        if v != 0 {
            assert(b < 128 ==> (b | 0x80) as nat == b as nat + 128) by (bit_vector);
            b |= 0x80;
        }
        out.push(b);
        assert(v != 0 ==> out@ + spec_uleb(v as nat) =~= old_out + spec_uleb(vv as nat));
        if v == 0 {
            break;
        }
    }
}

} // verus!

verus! {

/// Signed LEB128 encoding of `v`: seven-bit groups, least significant first, until the
/// remaining value is all sign bits and the last group's bit 6 agrees with that sign.
pub open spec fn spec_sleb(v: int) -> Seq<u8>
    decreases (if v < 0 { -v } else { v }),
{
    let b = v % 128;
    let rest = v / 128;
    let sign = b >= 64;
    if (rest == 0 && !sign) || (rest == -1 && sign) {
        seq![b as u8]
    } else {
        seq![(b + 128) as u8] + spec_sleb(rest)
    }
}

/// Appends the signed LEB128 encoding of `v` to `out`.
pub fn sleb(v: i64, out: &mut Vec<u8>)
    ensures
        final(out)@ == old(out)@ + spec_sleb(v as int),
{
    let mut v = v;
    let ghost v0 = v as int;
    let ghost start = old(out)@;
    loop
        invariant_except_break
            start + spec_sleb(v0) == out@ + spec_sleb(v as int),
        ensures
            out@ == start + spec_sleb(v0),
        decreases (if v < 0 { -(v as int) } else { v as int }),
    {
        let ghost vv = v;
        let ghost old_out = out@;
        let b = (v & 0x7f) as u8;
        assert((vv & 0x7f) as u8 as int == (vv as int) % 128 && (vv >> 7) as int == (vv as int) / 128) by (bit_vector);
        v >>= 7;
        let sign = b & 0x40 != 0;
        assert(b < 128 ==> ((b & 0x40 != 0) == (b >= 64)) && (b | 0x80) as int == b as int + 128) by (bit_vector);
        if (v == 0 && !sign) || (v == -1 && sign) {
            out.push(b);
            break;
        }
        out.push(b | 0x80);
        assert(out@ + spec_sleb(v as int) =~= old_out + spec_sleb(vv as int));
    }
}

} // verus!
