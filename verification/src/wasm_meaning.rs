use vstd::prelude::*;
use crate::floor_b::{is_prefix, lemma_prefix_refl, lemma_prefix_trans};
use crate::json::{Json, spec_is_p, spec_pcar, spec_pcdr};
use crate::leb::{spec_sleb, spec_uleb};
use crate::wasm::read_uleb;
use crate::self_contained::lemma_read_uleb_enc;
use crate::ntag::{ADD, EQ, LET, LIT, NEWBOX, OFN, SUB, VAR};
use crate::stage_e::{arr_len, lemma_parts};
use crate::stage_g::{GS, Kind, close_s, emit_bytes, gslot, kget, kset, memop_s, opu_s, sp_arith_g, sp_let_g, sp_val_g, var_g, with_kind};
use crate::stage_e::{Bind, look_s};
use crate::self_contained::bytes_at;
use crate::wasm::{b64_chunk, b64_from, b64_s, b64_table};

verus! {

/// The value of a closed object program of integer literals, `add`, `sub` (both wrapping) and
/// `eq` (1 for equal operands, else 0); `None` for any other program.
pub open spec fn int_val(n: Json) -> Option<i64>
    decreases n,
{
    if !spec_is_p(n) || !(spec_pcar(n) is Num) {
        None
    } else {
        proof {
            lemma_parts(n);
        }
        let tag = spec_pcar(n)->Num_0;
        let arg = spec_pcdr(n);
        if tag == LIT {
            if arg is Num {
                Some(arg->Num_0)
            } else {
                None
            }
        } else if (tag == ADD || tag == SUB || tag == EQ) && arr_len(arg) >= 3 {
            proof {
                lemma_parts(arg);
            }
            match (int_val(spec_pcar(arg)), int_val(spec_pcdr(arg))) {
                (Some(a), Some(b)) => Some(
                    if tag == ADD {
                        a.wrapping_add(b)
                    } else if tag == SUB {
                        a.wrapping_sub(b)
                    } else if a == b {
                        1i64
                    } else {
                        0i64
                    },
                ),
                _ => None,
            }
        } else {
            None
        }
    }
}

/// Reading a signed LEB128 number at `i`: seven-bit groups, least significant first, the last
/// group's bit 6 giving the sign; the value and the position after it.
pub open spec fn sleb_read(bs: Seq<u8>, i: int) -> Option<(int, int)>
    decreases bs.len() - i,
{
    if i < 0 || i >= bs.len() {
        None
    } else {
        let b = bs[i] as int;
        if b < 128 {
            Some((if b >= 64 { b - 128 } else { b }, i + 1))
        } else {
            match sleb_read(bs, i + 1) {
                Some((r, j)) => Some((b - 128 + 128 * r, j)),
                None => None,
            }
        }
    }
}

proof fn lemma_sleb_read_adv(bs: Seq<u8>, i: int)
    ensures
        sleb_read(bs, i) matches Some((_, j)) ==> i < j,
    decreases bs.len() - i,
{
    if 0 <= i < bs.len() && bs[i] >= 128 {
        lemma_sleb_read_adv(bs, i + 1);
    }
}

/// WebAssembly's integer instructions on an i64 operand stack, from position `i` up to `end`:
/// `i64.const` (0x42), `i64.add` (0x7C), `i64.sub` (0x7D), both wrapping, `i64.eq` (0x51)
/// giving 1 for equal operands and 0 otherwise, `i64.extend_i32_u` (0xAD). `None` for anything
/// else, or where the code does not end exactly at `end`.
pub open spec fn run_i64(bs: Seq<u8>, i: int, end: int, st: Seq<i64>) -> Option<Seq<i64>>
    decreases end - i,
{
    let n = st.len();
    if i == end {
        Some(st)
    } else if i > end || i < 0 || i >= bs.len() {
        None
    } else if bs[i] == 0x42 {
        match sleb_read(bs, i + 1) {
            Some((v, j)) => if j <= i || j > end || v < i64::MIN || v > i64::MAX {
                None
            } else {
                run_i64(bs, j, end, st.push(v as i64))
            },
            None => None,
        }
    } else if (bs[i] == 0x7C || bs[i] == 0x7D || bs[i] == 0x51) && n >= 2 {
        let a = st[n - 2];
        let b = st[n - 1];
        let r = if bs[i] == 0x7C {
            a.wrapping_add(b)
        } else if bs[i] == 0x7D {
            a.wrapping_sub(b)
        } else if a == b {
            1i64
        } else {
            0i64
        };
        run_i64(bs, i + 1, end, st.take(n - 2).push(r))
    } else if bs[i] == 0xAD && n >= 1 {
        run_i64(bs, i + 1, end, st.take(n - 1).push((st[n - 1] as u32) as i64))
    } else {
        None
    }
}

/// Reading back a signed LEB128 encoding gives the number and the position after it.
pub proof fn lemma_sleb_read_enc(bs: Seq<u8>, i: int, v: int)
    requires
        0 <= i,
        i + spec_sleb(v).len() <= bs.len(),
        bs.subrange(i, i + spec_sleb(v).len()) == spec_sleb(v),
    ensures
        sleb_read(bs, i) == Some((v, i + spec_sleb(v).len())),
    decreases (if v < 0 { -v } else { v }),
{
    let e = spec_sleb(v);
    let b = v % 128;
    let rest = v / 128;
    assert(bs[i] == e[0]) by {
        assert(bs.subrange(i, i + e.len())[0] == bs[i]);
    }
    vstd::arithmetic::div_mod::lemma_fundamental_div_mod(v, 128);
    let sign = b >= 64;
    if (rest == 0 && !sign) || (rest == -1 && sign) {
        assert(e == seq![b as u8]);
    } else {
        let tail = spec_sleb(rest);
        assert(e == seq![(b + 128) as u8] + tail);
        assert(bs.subrange(i + 1, i + 1 + tail.len()) =~= tail) by {
            assert forall|k: int| 0 <= k < tail.len() implies bs.subrange(i + 1, i + 1 + tail.len())[k] == tail[k] by {
                assert(bs.subrange(i, i + e.len())[k + 1] == e[k + 1]);
            }
        }
        lemma_sleb_read_enc(bs, i + 1, rest);
    }
}

/// Running up to `mid` and then on to `end` is running up to `end`.
proof fn lemma_run_i64_cat(bs: Seq<u8>, i: int, mid: int, end: int, st: Seq<i64>)
    requires
        run_i64(bs, i, mid, st) is Some,
        mid <= end,
    ensures
        run_i64(bs, i, end, st) == run_i64(bs, mid, end, run_i64(bs, i, mid, st).unwrap()),
    decreases mid - i,
{
    let n = st.len();
    if i != mid {
        if bs[i] == 0x42 {
            let (v, j) = sleb_read(bs, i + 1).unwrap();
            lemma_run_i64_cat(bs, j, mid, end, st.push(v as i64));
        } else if (bs[i] == 0x7C || bs[i] == 0x7D || bs[i] == 0x51) && n >= 2 {
            let a = st[n - 2];
            let b = st[n - 1];
            let r = if bs[i] == 0x7C {
                a.wrapping_add(b)
            } else if bs[i] == 0x7D {
                a.wrapping_sub(b)
            } else if a == b {
                1i64
            } else {
                0i64
            };
            lemma_run_i64_cat(bs, i + 1, mid, end, st.take(n - 2).push(r));
        } else {
            lemma_run_i64_cat(bs, i + 1, mid, end, st.take(n - 1).push((st[n - 1] as u32) as i64));
        }
    }
}

proof fn lemma_prefix_cat(a: Seq<u8>, x: Seq<u8>)
    ensures
        is_prefix(a, a + x),
{
    assert((a + x).subrange(0, a.len() as int) =~= a);
}

/// Stage G only appends code for a closed integer program, and gives it the integer shape.
proof fn lemma_g_prefix(s: GS, d: u32, n: Json)
    requires
        int_val(n) is Some,
        sp_val_g(s, d, n) matches Some(Ok(_)),
    ensures
        is_prefix(s.b, sp_val_g(s, d, n)->0->Ok_0.0.b),
        sp_val_g(s, d, n)->0->Ok_0.1 == Kind::Int,
    decreases n,
{
    reveal(sp_val_g);
    reveal(sp_arith_g);
    lemma_parts(n);
    let tag = spec_pcar(n)->Num_0;
    let arg = spec_pcdr(n);
    let s2 = sp_val_g(s, d, n)->0->Ok_0.0;
    if tag == LIT {
        lemma_prefix_cat(s.b, seq![0x42u8] + spec_sleb(arg->Num_0 as int));
    } else {
        lemma_parts(arg);
        assert(sp_val_g(s, d, n) == sp_arith_g(s, d, tag, arg, n));
        assert(sp_val_g(s, d, spec_pcar(arg)) matches Some(Ok(_)));
        let sa = sp_val_g(s, d, spec_pcar(arg))->0->Ok_0.0;
        assert(sp_val_g(sa, d, spec_pcdr(arg)) matches Some(Ok(_)));
        let sb = sp_val_g(sa, d, spec_pcdr(arg))->0->Ok_0.0;
        lemma_g_prefix(s, d, spec_pcar(arg));
        lemma_g_prefix(sa, d, spec_pcdr(arg));
        let tail: Seq<u8> = if tag == ADD { seq![0x7Cu8] } else if tag == SUB { seq![0x7Du8] } else { seq![0x51u8, 0xADu8] };
        assert(s2 == emit_bytes(sb, tail));
        lemma_prefix_cat(sb.b, tail);
        lemma_prefix_trans(s.b, sa.b, sb.b);
        lemma_prefix_trans(s.b, sb.b, s2.b);
    }
}

/// The wasm stage G lays out for a closed integer program, run on any operand stack, pushes the
/// program's value.
proof fn lemma_g_val(s: GS, d: u32, n: Json, bs: Seq<u8>, st: Seq<i64>)
    requires
        int_val(n) is Some,
        sp_val_g(s, d, n) matches Some(Ok((s2, _))) && is_prefix(s2.b, bs),
    ensures
        run_i64(bs, s.b.len() as int, sp_val_g(s, d, n)->0->Ok_0.0.b.len() as int, st) == Some(st.push(int_val(n).unwrap())),
    decreases n,
{
    reveal(sp_val_g);
    reveal(sp_arith_g);
    lemma_parts(n);
    lemma_g_prefix(s, d, n);
    let tag = spec_pcar(n)->Num_0;
    let arg = spec_pcdr(n);
    let s2 = sp_val_g(s, d, n)->0->Ok_0.0;
    let p = s.b.len() as int;
    if tag == LIT {
        let k = arg->Num_0;
        let e = spec_sleb(k as int);
        assert(s2.b == s.b + (seq![0x42u8] + e));
        assert(bs[p] == 0x42u8) by {
            assert(bs.subrange(0, s2.b.len() as int)[p] == bs[p]);
        }
        assert(bs.subrange(p + 1, p + 1 + e.len()) =~= e) by {
            assert forall|j: int| 0 <= j < e.len() implies bs.subrange(p + 1, p + 1 + e.len())[j] == e[j] by {
                assert(bs.subrange(0, s2.b.len() as int)[p + 1 + j] == bs[p + 1 + j]);
                assert(s2.b[p + 1 + j] == e[j]);
            }
        }
        lemma_sleb_read_enc(bs, p + 1, k as int);
        assert((k as int) as i64 == k);
        let end = s2.b.len() as int;
        assert(end == p + 1 + e.len());
        assert(run_i64(bs, end, end, st.push(k)) == Some(st.push(k)));
        assert(run_i64(bs, p, end, st) == run_i64(bs, end, end, st.push((k as int) as i64)));
        assert(int_val(n) == Some(k));
    } else {
        lemma_parts(arg);
        let a = spec_pcar(arg);
        let b = spec_pcdr(arg);
        assert(sp_val_g(s, d, n) == sp_arith_g(s, d, tag, arg, n));
        assert(sp_val_g(s, d, a) matches Some(Ok(_)));
        let sa = sp_val_g(s, d, a)->0->Ok_0.0;
        assert(sp_val_g(sa, d, b) matches Some(Ok(_)));
        let sb = sp_val_g(sa, d, b)->0->Ok_0.0;
        lemma_g_prefix(s, d, a);
        lemma_g_prefix(sa, d, b);
        let tail: Seq<u8> = if tag == ADD { seq![0x7Cu8] } else if tag == SUB { seq![0x7Du8] } else { seq![0x51u8, 0xADu8] };
        assert(s2 == emit_bytes(sb, tail));
        lemma_prefix_cat(sb.b, tail);
        lemma_prefix_trans(sb.b, s2.b, bs);
        lemma_prefix_trans(sa.b, sb.b, bs);
        let x = int_val(a).unwrap();
        let y = int_val(b).unwrap();
        lemma_g_val(s, d, a, bs, st);
        lemma_g_val(sa, d, b, bs, st.push(x));
        let q = sb.b.len() as int;
        assert(bs[q] == tail[0]) by {
            assert(bs.subrange(0, s2.b.len() as int)[q] == bs[q]);
            assert(s2.b[q] == tail[0]);
        }
        if tag == EQ {
            assert(bs[q + 1] == 0xADu8) by {
                assert(bs.subrange(0, s2.b.len() as int)[q + 1] == bs[q + 1]);
                assert(s2.b[q + 1] == tail[1]);
            }
        }
        let st2 = st.push(x).push(y);
        assert(st2.take(st2.len() - 2) =~= st);
        lemma_run_i64_cat(bs, p, sa.b.len() as int, s2.b.len() as int, st);
        lemma_run_i64_cat(bs, sa.b.len() as int, q, s2.b.len() as int, st.push(x));
        let end = s2.b.len() as int;
        assert(run_i64(bs, p, end, st) == run_i64(bs, q, end, st2));
        if tag == EQ {
            let r: i64 = if x == y { 1 } else { 0 };
            assert(st.push(r).take(st.len() as int) =~= st);
            assert(((r as u32) as i64) == r);
            assert(end == q + 2);
            assert(run_i64(bs, q, end, st2) == run_i64(bs, q + 1, end, st.push(r)));
            assert(run_i64(bs, q + 1, end, st.push(r)) == run_i64(bs, q + 2, end, st.push(r)));
            assert(int_val(n) == Some(r));
        } else {
            assert(end == q + 1);
            let r = if tag == ADD { x.wrapping_add(y) } else { x.wrapping_sub(y) };
            assert(st2.take(st2.len() - 2).push(r) =~= st.push(r));
            assert(run_i64(bs, q, end, st2) == run_i64(bs, q + 1, end, st.push(r)));
            assert(int_val(n) == Some(r));
        }
    }
}

/// Stage G computes what the object program means: for a closed program of integer literals,
/// `add`, `sub` and `eq`, the wasm it lays out, run on any operand stack, leaves the program's
/// value on top of that stack (so `eq` leaves 1 exactly for equal operands), and its shape is
/// the integer shape.
pub proof fn law_stage_g_computes(s: GS, d: u32, n: Json, st: Seq<i64>)
    requires
        int_val(n) is Some,
        sp_val_g(s, d, n) is Some,
        sp_val_g(s, d, n)->0 is Ok,
    ensures
        sp_val_g(s, d, n) matches Some(Ok((s2, k))) && k == Kind::Int && is_prefix(s.b, s2.b)
            && run_i64(s2.b, s.b.len() as int, s2.b.len() as int, st) == Some(st.push(int_val(n).unwrap())),
{
    let s2 = sp_val_g(s, d, n)->0->Ok_0.0;
    lemma_prefix_refl(s2.b);
    lemma_g_prefix(s, d, n);
    lemma_g_val(s, d, n, s2.b, st);
}

} // verus!

verus! {

/// Signed LEB128 reads back as written: reading the encoding of any number gives the number
/// and the length of the encoding.
pub proof fn law_sleb_reads_back(v: int)
    ensures
        sleb_read(spec_sleb(v), 0) == Some((v, spec_sleb(v).len() as int)),
{
    let e = spec_sleb(v);
    assert(e.subrange(0, e.len() as int) =~= e);
    lemma_sleb_read_enc(e, 0, v);
}

} // verus!

verus! {

/// The six-bit value base64's alphabet gives a character: `A`–`Z` 0–25, `a`–`z` 26–51, `0`–`9`
/// 52–61, `+` 62, `/` 63; `None` for any other character.
pub open spec fn sextet(c: char) -> Option<int> {
    let v = c as u32 as int;
    if 65 <= v <= 90 {
        Some(v - 65)
    } else if 97 <= v <= 122 {
        Some(v - 97 + 26)
    } else if 48 <= v <= 57 {
        Some(v - 48 + 52)
    } else if c == '+' {
        Some(62)
    } else if c == '/' {
        Some(63)
    } else {
        None
    }
}

/// Decoding base64 text: each group of four characters gives three bytes, or fewer where it ends
/// with `=` padding, which only the last group may hold.
pub open spec fn b64_decode(t: Seq<char>) -> Option<Seq<u8>>
    decreases t.len(),
{
    if t.len() == 0 {
        Some(Seq::empty())
    } else if t.len() < 4 {
        None
    } else {
        match (sextet(t[0]), sextet(t[1])) {
            (Some(v0), Some(v1)) => {
                let b0 = (v0 * 4 + v1 / 16) as u8;
                if t[2] == '=' {
                    if t[3] == '=' && t.len() == 4 {
                        Some(seq![b0])
                    } else {
                        None
                    }
                } else {
                    match sextet(t[2]) {
                        Some(v2) => {
                            let b1 = ((v1 % 16) * 16 + v2 / 4) as u8;
                            if t[3] == '=' {
                                if t.len() == 4 {
                                    Some(seq![b0, b1])
                                } else {
                                    None
                                }
                            } else {
                                match sextet(t[3]) {
                                    Some(v3) => match b64_decode(t.skip(4)) {
                                        Some(r) => Some(seq![b0, b1, ((v2 % 4) * 64 + v3) as u8] + r),
                                        None => None,
                                    },
                                    None => None,
                                }
                            }
                        },
                        None => None,
                    }
                }
            },
            _ => None,
        }
    }
}

proof fn lemma_table_sextets()
    ensures
        forall|g: int| 0 <= g < 64 ==> sextet(#[trigger] b64_table()[g]) == Some(g),
{
    let t = b64_table();
    assert forall|g: int| 0 <= g < 64 implies sextet(#[trigger] b64_table()[g]) == Some(g) by {
        if g == 0 {
            assert(t[0] == 'A');
        } else if g == 1 {
            assert(t[1] == 'B');
        } else if g == 2 {
            assert(t[2] == 'C');
        } else if g == 3 {
            assert(t[3] == 'D');
        } else if g == 4 {
            assert(t[4] == 'E');
        } else if g == 5 {
            assert(t[5] == 'F');
        } else if g == 6 {
            assert(t[6] == 'G');
        } else if g == 7 {
            assert(t[7] == 'H');
        } else if g == 8 {
            assert(t[8] == 'I');
        } else if g == 9 {
            assert(t[9] == 'J');
        } else if g == 10 {
            assert(t[10] == 'K');
        } else if g == 11 {
            assert(t[11] == 'L');
        } else if g == 12 {
            assert(t[12] == 'M');
        } else if g == 13 {
            assert(t[13] == 'N');
        } else if g == 14 {
            assert(t[14] == 'O');
        } else if g == 15 {
            assert(t[15] == 'P');
        } else if g == 16 {
            assert(t[16] == 'Q');
        } else if g == 17 {
            assert(t[17] == 'R');
        } else if g == 18 {
            assert(t[18] == 'S');
        } else if g == 19 {
            assert(t[19] == 'T');
        } else if g == 20 {
            assert(t[20] == 'U');
        } else if g == 21 {
            assert(t[21] == 'V');
        } else if g == 22 {
            assert(t[22] == 'W');
        } else if g == 23 {
            assert(t[23] == 'X');
        } else if g == 24 {
            assert(t[24] == 'Y');
        } else if g == 25 {
            assert(t[25] == 'Z');
        } else if g == 26 {
            assert(t[26] == 'a');
        } else if g == 27 {
            assert(t[27] == 'b');
        } else if g == 28 {
            assert(t[28] == 'c');
        } else if g == 29 {
            assert(t[29] == 'd');
        } else if g == 30 {
            assert(t[30] == 'e');
        } else if g == 31 {
            assert(t[31] == 'f');
        } else if g == 32 {
            assert(t[32] == 'g');
        } else if g == 33 {
            assert(t[33] == 'h');
        } else if g == 34 {
            assert(t[34] == 'i');
        } else if g == 35 {
            assert(t[35] == 'j');
        } else if g == 36 {
            assert(t[36] == 'k');
        } else if g == 37 {
            assert(t[37] == 'l');
        } else if g == 38 {
            assert(t[38] == 'm');
        } else if g == 39 {
            assert(t[39] == 'n');
        } else if g == 40 {
            assert(t[40] == 'o');
        } else if g == 41 {
            assert(t[41] == 'p');
        } else if g == 42 {
            assert(t[42] == 'q');
        } else if g == 43 {
            assert(t[43] == 'r');
        } else if g == 44 {
            assert(t[44] == 's');
        } else if g == 45 {
            assert(t[45] == 't');
        } else if g == 46 {
            assert(t[46] == 'u');
        } else if g == 47 {
            assert(t[47] == 'v');
        } else if g == 48 {
            assert(t[48] == 'w');
        } else if g == 49 {
            assert(t[49] == 'x');
        } else if g == 50 {
            assert(t[50] == 'y');
        } else if g == 51 {
            assert(t[51] == 'z');
        } else if g == 52 {
            assert(t[52] == '0');
        } else if g == 53 {
            assert(t[53] == '1');
        } else if g == 54 {
            assert(t[54] == '2');
        } else if g == 55 {
            assert(t[55] == '3');
        } else if g == 56 {
            assert(t[56] == '4');
        } else if g == 57 {
            assert(t[57] == '5');
        } else if g == 58 {
            assert(t[58] == '6');
        } else if g == 59 {
            assert(t[59] == '7');
        } else if g == 60 {
            assert(t[60] == '8');
        } else if g == 61 {
            assert(t[61] == '9');
        } else if g == 62 {
            assert(t[62] == '+');
        } else if g == 63 {
            assert(t[63] == '/');
        }
    }
}

/// The four six-bit groups of three bytes give the bytes back.
proof fn lemma_groups(a: int, b: int, c: int)
    requires
        0 <= a < 256,
        0 <= b < 256,
        0 <= c < 256,
    ensures
        ({
            let n = a * 65536 + b * 256 + c;
            let g0 = (n / 262144) % 64;
            let g1 = (n / 4096) % 64;
            let g2 = (n / 64) % 64;
            let g3 = n % 64;
            &&& 0 <= g0 < 64 && 0 <= g1 < 64 && 0 <= g2 < 64 && 0 <= g3 < 64
            &&& g0 * 4 + g1 / 16 == a
            &&& (g1 % 16) * 16 + g2 / 4 == b
            &&& (g2 % 4) * 64 + g3 == c
        }),
{
    let n = a * 65536 + b * 256 + c;
    vstd::arithmetic::div_mod::lemma_fundamental_div_mod_converse(n, 262144, a / 4, (a % 4) * 65536 + b * 256 + c);
    assert(n == (a / 4) * 262144 + ((a % 4) * 65536 + b * 256 + c)) by (nonlinear_arith)
        requires n == a * 65536 + b * 256 + c, a == (a / 4) * 4 + a % 4;
    vstd::arithmetic::div_mod::lemma_fundamental_div_mod(a, 4);
    vstd::arithmetic::div_mod::lemma_fundamental_div_mod(b, 16);
    vstd::arithmetic::div_mod::lemma_fundamental_div_mod(c, 64);
    let q1 = a * 16 + b / 16;
    assert(n == q1 * 4096 + ((b % 16) * 256 + c)) by (nonlinear_arith)
        requires n == a * 65536 + b * 256 + c, b == (b / 16) * 16 + b % 16, q1 == a * 16 + b / 16;
    vstd::arithmetic::div_mod::lemma_fundamental_div_mod_converse(n, 4096, q1, (b % 16) * 256 + c);
    assert(q1 == (a / 4) * 64 + ((a % 4) * 16 + b / 16)) by (nonlinear_arith)
        requires q1 == a * 16 + b / 16, a == (a / 4) * 4 + a % 4;
    vstd::arithmetic::div_mod::lemma_fundamental_div_mod_converse(q1, 64, a / 4, (a % 4) * 16 + b / 16);
    let q2 = a * 1024 + b * 4 + c / 64;
    assert(n == q2 * 64 + c % 64) by (nonlinear_arith)
        requires n == a * 65536 + b * 256 + c, c == (c / 64) * 64 + c % 64, q2 == a * 1024 + b * 4 + c / 64;
    vstd::arithmetic::div_mod::lemma_fundamental_div_mod_converse(n, 64, q2, c % 64);
    assert(q2 == q1 * 64 + ((b % 16) * 4 + c / 64)) by (nonlinear_arith)
        requires q2 == a * 1024 + b * 4 + c / 64, q1 == a * 16 + b / 16, b == (b / 16) * 16 + b % 16;
    vstd::arithmetic::div_mod::lemma_fundamental_div_mod_converse(q2, 64, q1, (b % 16) * 4 + c / 64);
    let g1 = (a % 4) * 16 + b / 16;
    vstd::arithmetic::div_mod::lemma_fundamental_div_mod_converse(g1, 16, a % 4, b / 16);
    let g2 = (b % 16) * 4 + c / 64;
    vstd::arithmetic::div_mod::lemma_fundamental_div_mod_converse(g2, 4, b % 16, c / 64);
}

/// Decoding the text from chunk `i` on gives the bytes from `i` on.
proof fn lemma_b64_decode_from(d: Seq<u8>, i: int)
    requires
        0 <= i <= d.len(),
    ensures
        b64_decode(b64_from(d, i)) == Some(d.subrange(i, d.len() as int)),
    decreases d.len() - i,
{
    if i == d.len() {
        assert(d.subrange(i, d.len() as int) =~= Seq::<u8>::empty());
    } else {
        let k = d.len() - i;
        let a = d[i] as int;
        let b = if k > 1 { d[i + 1] as int } else { 0 };
        let c = if k > 2 { d[i + 2] as int } else { 0 };
        let n = d[i] * 65536 + (if k > 1 { d[i + 1] * 256 } else { 0 }) + (if k > 2 { d[i + 2] as int } else { 0 });
        assert(n == a * 65536 + b * 256 + c);
        lemma_groups(a, b, c);
        lemma_table_sextets();
        let ch = b64_chunk(d, i);
        let rest = b64_from(d, i + 3);
        let whole = b64_from(d, i);
        assert(whole == ch + rest);
        assert(whole[0] == ch[0] && whole[1] == ch[1] && whole[2] == ch[2] && whole[3] == ch[3]);
        let t = b64_table();
        assert(sextet(t[(n / 262144) % 64]) == Some((n / 262144) % 64));
        assert(sextet(t[(n / 4096) % 64]) == Some((n / 4096) % 64));
        if k > 1 {
            assert(sextet(t[(n / 64) % 64]) == Some((n / 64) % 64));
            assert(t[(n / 64) % 64] != '=');
        }
        if k > 2 {
            assert(sextet(t[n % 64]) == Some(n % 64));
            assert(t[n % 64] != '=');
            lemma_b64_decode_from(d, i + 3);
            assert(whole.skip(4) =~= rest);
            assert(seq![a as u8, b as u8, c as u8] + d.subrange(i + 3, d.len() as int) =~= d.subrange(i, d.len() as int));
        } else {
            assert(rest =~= Seq::<char>::empty());
            if k > 1 {
                assert(seq![a as u8, b as u8] =~= d.subrange(i, d.len() as int));
            } else {
                assert(seq![a as u8] =~= d.subrange(i, d.len() as int));
            }
        }
    }
}

/// Base64 text decodes back to the bytes it encodes: decoding `b64`'s text with the standard
/// alphabet gives the data back.
pub proof fn law_b64_decodes_back(d: Seq<u8>)
    ensures
        b64_decode(b64_s(d)) == Some(d),
{
    lemma_b64_decode_from(d, 0);
    assert(d.subrange(0, d.len() as int) =~= d);
}

} // verus!

verus! {

/// The value of an object program of integer literals, `add`, `sub`, `eq`, variables and
/// bindings, in bindings `env` (the last binding of a name counts).
pub open spec fn int_val_in(n: Json, env: Seq<(i64, i64)>) -> Option<i64>
    decreases n,
{
    if !spec_is_p(n) || !(spec_pcar(n) is Num) {
        None
    } else {
        proof {
            lemma_parts(n);
        }
        let tag = spec_pcar(n)->Num_0;
        let arg = spec_pcdr(n);
        if tag == LIT {
            if arg is Num {
                Some(arg->Num_0)
            } else {
                None
            }
        } else if (tag == ADD || tag == SUB || tag == EQ) && arr_len(arg) >= 3 {
            proof {
                lemma_parts(arg);
            }
            match (int_val_in(spec_pcar(arg), env), int_val_in(spec_pcdr(arg), env)) {
                (Some(a), Some(b)) => Some(
                    if tag == ADD {
                        a.wrapping_add(b)
                    } else if tag == SUB {
                        a.wrapping_sub(b)
                    } else if a == b {
                        1i64
                    } else {
                        0i64
                    },
                ),
                _ => None,
            }
        } else if tag == VAR {
            if arg is Num {
                int_lookup(env, arg->Num_0)
            } else {
                None
            }
        } else if tag == LET && arr_len(arg) >= 3 && spec_pcar(arg) is Num && arr_len(spec_pcdr(arg)) >= 3 {
            proof {
                lemma_parts(arg);
                lemma_parts(spec_pcdr(arg));
            }
            match int_val_in(spec_pcar(spec_pcdr(arg)), env) {
                Some(v) => int_val_in(spec_pcdr(spec_pcdr(arg)), env.push((spec_pcar(arg)->Num_0, v))),
                None => None,
            }
        } else {
            None
        }
    }
}

/// The value of the last binding of `id`.
pub open spec fn int_lookup(env: Seq<(i64, i64)>, id: i64) -> Option<i64>
    decreases env.len(),
{
    if env.len() == 0 {
        None
    } else if env.last().0 == id {
        Some(env.last().1)
    } else {
        int_lookup(env.drop_last(), id)
    }
}

/// WebAssembly's integer instructions, as `run_i64`, with locals: `local.get` (0x20) pushes a
/// local, `local.set` (0x21) pops into one.
pub open spec fn run_w(bs: Seq<u8>, i: int, end: int, st: Seq<i64>, loc: Map<int, i64>) -> Option<(Seq<i64>, Map<int, i64>)>
    decreases end - i,
{
    let n = st.len();
    if i == end {
        Some((st, loc))
    } else if i > end || i < 0 || i >= bs.len() {
        None
    } else if bs[i] == 0x42 {
        match sleb_read(bs, i + 1) {
            Some((v, j)) => if j <= i || j > end || v < i64::MIN || v > i64::MAX {
                None
            } else {
                run_w(bs, j, end, st.push(v as i64), loc)
            },
            None => None,
        }
    } else if bs[i] == 0x20 || bs[i] == 0x21 {
        match read_uleb(bs, i + 1, 0, 0) {
            Some(Some((x, j))) => if j <= i || j > end {
                None
            } else if bs[i] == 0x20 {
                if loc.contains_key(x as int) {
                    run_w(bs, j, end, st.push(loc[x as int]), loc)
                } else {
                    None
                }
            } else if n >= 1 {
                run_w(bs, j, end, st.drop_last(), loc.insert(x as int, st.last()))
            } else {
                None
            },
            _ => None,
        }
    } else if (bs[i] == 0x7C || bs[i] == 0x7D || bs[i] == 0x51) && n >= 2 {
        let a = st[n - 2];
        let b = st[n - 1];
        let r = if bs[i] == 0x7C {
            a.wrapping_add(b)
        } else if bs[i] == 0x7D {
            a.wrapping_sub(b)
        } else if a == b {
            1i64
        } else {
            0i64
        };
        run_w(bs, i + 1, end, st.take(n - 2).push(r), loc)
    } else if bs[i] == 0xAD && n >= 1 {
        run_w(bs, i + 1, end, st.take(n - 1).push((st[n - 1] as u32) as i64), loc)
    } else {
        None
    }
}

} // verus!

verus! {

/// Whether `n` is built only of integer literals, `add`, `sub`, `eq`, variables and bindings of
/// values, each with its parts.
pub open spec fn gfrag(n: Json) -> bool
    decreases n,
{
    spec_is_p(n) && spec_pcar(n) is Num && {
        let tag = spec_pcar(n)->Num_0;
        let arg = spec_pcdr(n);
        if tag == LIT || tag == VAR {
            arg is Num
        } else if tag == ADD || tag == SUB || tag == EQ {
            arr_len(arg) >= 3 && {
                proof {
                    lemma_parts(n);
                    lemma_parts(arg);
                }
                gfrag(spec_pcar(arg)) && gfrag(spec_pcdr(arg))
            }
        } else if tag == LET {
            arr_len(arg) >= 3 && spec_pcar(arg) is Num && arr_len(spec_pcdr(arg)) >= 3 && {
                proof {
                    lemma_parts(n);
                    lemma_parts(arg);
                    lemma_parts(spec_pcdr(arg));
                }
                gfrag(spec_pcar(spec_pcdr(arg))) && gfrag(spec_pcdr(spec_pcdr(arg)))
            }
        } else {
            false
        }
    }
}

/// The emitter's bindings `cenv` stand for the program's bindings `env`: the same names in the
/// same order, each bound to a local below `ns` of the integer shape that holds its value.
pub open spec fn genv_ok(cenv: Seq<(i64, Bind)>, env: Seq<(i64, i64)>, loc: Map<int, i64>, kinds: Seq<Option<Kind>>, ns: u32) -> bool {
    &&& cenv.len() == env.len()
    &&& forall|k: int| 0 <= k < cenv.len() ==> #[trigger] gbind_ok(cenv[k], env[k], loc, kinds, ns)
}

/// One binding of the emitter standing for one of the program: the same name, a local below
/// `ns` of the integer shape holding the value.
pub open spec fn gbind_ok(cb: (i64, Bind), b: (i64, i64), loc: Map<int, i64>, kinds: Seq<Option<Kind>>, ns: u32) -> bool {
    &&& cb.0 == b.0
    &&& cb.1 matches Bind::Slot(x) && x < ns && loc.contains_key(x as int) && loc[x as int] == b.1 && kget(kinds, x) == Kind::Int
}

proof fn lemma_genv_look(cenv: Seq<(i64, Bind)>, env: Seq<(i64, i64)>, loc: Map<int, i64>, kinds: Seq<Option<Kind>>, ns: u32, id: i64)
    requires
        genv_ok(cenv, env, loc, kinds, ns),
    ensures
        match look_s(cenv, id) {
            Some(Bind::Slot(x)) => x < ns && loc.contains_key(x as int) && int_lookup(env, id) == Some(loc[x as int]) && kget(kinds, x) == Kind::Int,
            None => int_lookup(env, id) is None,
            _ => false,
        },
    decreases cenv.len(),
{
    if cenv.len() > 0 {
        let k = cenv.len() - 1;
        assert(gbind_ok(cenv[k], env[k], loc, kinds, ns));
        assert(cenv.last() == cenv[k] && env.last() == env[k]);
        if cenv.last().0 != id {
            assert forall|q: int| 0 <= q < cenv.drop_last().len() implies #[trigger] gbind_ok(cenv.drop_last()[q], env.drop_last()[q], loc, kinds, ns) by {
                assert(cenv.drop_last()[q] == cenv[q]);
                assert(env.drop_last()[q] == env[q]);
                assert(gbind_ok(cenv[q], env[q], loc, kinds, ns));
            }
            lemma_genv_look(cenv.drop_last(), env.drop_last(), loc, kinds, ns, id);
        }
    }
}

/// Running up to `mid` and then on to `end` is running up to `end`.
proof fn lemma_run_w_cat(bs: Seq<u8>, i: int, mid: int, end: int, st: Seq<i64>, loc: Map<int, i64>)
    requires
        run_w(bs, i, mid, st, loc) is Some,
        mid <= end,
    ensures
        run_w(bs, i, end, st, loc) == run_w(bs, mid, end, run_w(bs, i, mid, st, loc).unwrap().0, run_w(bs, i, mid, st, loc).unwrap().1),
    decreases mid - i,
{
    let n = st.len();
    if i != mid {
        if bs[i] == 0x42 {
            let (v, j) = sleb_read(bs, i + 1).unwrap();
            lemma_run_w_cat(bs, j, mid, end, st.push(v as i64), loc);
        } else if bs[i] == 0x20 || bs[i] == 0x21 {
            let (x, j) = read_uleb(bs, i + 1, 0, 0).unwrap().unwrap();
            if bs[i] == 0x20 {
                lemma_run_w_cat(bs, j, mid, end, st.push(loc[x as int]), loc);
            } else {
                lemma_run_w_cat(bs, j, mid, end, st.drop_last(), loc.insert(x as int, st.last()));
            }
        } else if (bs[i] == 0x7C || bs[i] == 0x7D || bs[i] == 0x51) && n >= 2 {
            let a = st[n - 2];
            let b = st[n - 1];
            let r = if bs[i] == 0x7C {
                a.wrapping_add(b)
            } else if bs[i] == 0x7D {
                a.wrapping_sub(b)
            } else if a == b {
                1i64
            } else {
                0i64
            };
            lemma_run_w_cat(bs, i + 1, mid, end, st.take(n - 2).push(r), loc);
        } else {
            lemma_run_w_cat(bs, i + 1, mid, end, st.take(n - 1).push((st[n - 1] as u32) as i64), loc);
        }
    }
}

/// An instruction with an unsigned immediate, `o` then `x`, standing at `p`.
proof fn lemma_run_w_ub(bs: Seq<u8>, p: int, o: u8, x: u32, st: Seq<i64>, loc: Map<int, i64>)
    requires
        bytes_at(bs, p, seq![o] + spec_uleb(x as nat)),
        o == 0x20u8 || o == 0x21u8,
        o == 0x20u8 ==> loc.contains_key(x as int),
        o == 0x21u8 ==> st.len() >= 1,
    ensures
        run_w(bs, p, p + 1 + spec_uleb(x as nat).len(), st, loc) == Some(
            if o == 0x20u8 { (st.push(loc[x as int]), loc) } else { (st.drop_last(), loc.insert(x as int, st.last())) },
        ),
{
    let u = spec_uleb(x as nat);
    let w = seq![o] + u;
    assert(bs[p] == o) by {
        assert(bs.subrange(p, p + w.len())[0] == bs[p]);
    }
    assert(bytes_at(bs, p + 1, u)) by {
        assert(bs.subrange(p + 1, p + 1 + u.len()) =~= u) by {
            assert forall|k: int| 0 <= k < u.len() implies bs.subrange(p + 1, p + 1 + u.len())[k] == u[k] by {
                assert(bs.subrange(p, p + w.len())[k + 1] == w[k + 1]);
            }
        }
    }
    lemma_read_uleb_enc(bs, p + 1, x as nat);
    let end = p + 1 + u.len();
    let r = if o == 0x20u8 { (st.push(loc[x as int]), loc) } else { (st.drop_last(), loc.insert(x as int, st.last())) };
    assert(run_w(bs, end, end, r.0, r.1) == Some(r));
}

/// What stage G's layout of a program of the fragment keeps: code only appended, bindings and
/// regions as they were, slots only added, shapes of existing slots kept.
#[verifier::spinoff_prover]
#[verifier::rlimit(100)]
proof fn lemma_g_grow(s: GS, d: u32, n: Json)
    requires
        gfrag(n),
        s.regions.len() == 0,
        sp_val_g(s, d, n) matches Some(Ok(_)),
    ensures
        ({
            let s2 = sp_val_g(s, d, n)->0->Ok_0.0;
            &&& is_prefix(s.b, s2.b)
            &&& s2.env == s.env
            &&& s2.regions.len() == 0
            &&& s2.nslots >= s.nslots
            &&& forall|x: u32| x < s.nslots ==> #[trigger] kget(s2.kinds, x) == kget(s.kinds, x)
        }),
    decreases n,
{
    reveal(sp_val_g);
    reveal(sp_arith_g);
    reveal(sp_let_g);
    lemma_parts(n);
    let tag = spec_pcar(n)->Num_0;
    let arg = spec_pcdr(n);
    let s2 = sp_val_g(s, d, n)->0->Ok_0.0;
    if tag == LIT {
        lemma_prefix_cat(s.b, seq![0x42u8] + spec_sleb(arg->Num_0 as int));
    } else if tag == VAR {
        let id = arg->Num_0;
        assert(sp_val_g(s, d, n) == var_g(s, id));
        if let Some(Bind::Slot(x)) = look_s(s.env, id) {
            lemma_prefix_cat(s.b, seq![0x20u8] + spec_uleb(x as nat));
        } else {
            assert(s.outer.len() >= 0);
            match crate::stage_g::outer_find(s.outer, id) {
                Some(crate::stage_g::Where::Param(p)) => lemma_prefix_cat(s.b, seq![0x20u8] + spec_uleb(p as nat)),
                Some(crate::stage_g::Where::Mem(x)) => {
                    let s1 = emit_bytes(s, seq![0x41u8] + spec_sleb((x as i64) as int * 8));
                    lemma_prefix_cat(s.b, seq![0x41u8] + spec_sleb((x as i64) as int * 8));
                    assert(s2 == memop_s(s1, 0x29, 0x03, 0));
                    assert(s2.b.subrange(0, s1.b.len() as int) =~= s1.b);
                    lemma_prefix_trans(s.b, s1.b, s2.b);
                },
                None => {},
            }
        }
    } else if tag == LET {
        lemma_parts(arg);
        lemma_parts(spec_pcdr(arg));
        let id = spec_pcar(arg)->Num_0;
        let val = spec_pcar(spec_pcdr(arg));
        let body = spec_pcdr(spec_pcdr(arg));
        lemma_gfrag_tag(val);
        assert(sp_let_g(s, d, arg) matches Some(Ok(_)));
        let (s1, k) = sp_val_g(s, d, val)->0->Ok_0;
        lemma_g_grow(s, d, val);
        let (s2a, sl) = gslot(s1).unwrap();
        let s3 = with_kind(opu_s(s2a, 0x21, sl), sl, k);
        let s5 = sp_let_g(s, d, arg)->0->Ok_0;
        assert(s5 == GS { env: s3.env.push((id, Bind::Slot(sl))), ..s3 });
        lemma_prefix_cat(s1.b, seq![0x21u8] + spec_uleb(sl as nat));
        lemma_g_grow(s5, d, body);
        let (s6, kb) = sp_val_g(s5, d, body)->0->Ok_0;
        assert(s2 == close_s(s6, kb != Kind::Int).unwrap());
        lemma_prefix_trans(s.b, s1.b, s5.b);
        lemma_prefix_trans(s.b, s5.b, s6.b);
        assert(crate::stage_e::pop_env(s6.env) =~= s.env);
        assert forall|x: u32| x < s.nslots implies #[trigger] kget(s2.kinds, x) == kget(s.kinds, x) by {
            assert(kget(s5.kinds, x) == kget(s1.kinds, x));
        }
    } else {
        lemma_parts(arg);
        assert(sp_val_g(s, d, n) == sp_arith_g(s, d, tag, arg, n));
        let sa = sp_val_g(s, d, spec_pcar(arg))->0->Ok_0.0;
        let sb = sp_val_g(sa, d, spec_pcdr(arg))->0->Ok_0.0;
        lemma_g_grow(s, d, spec_pcar(arg));
        lemma_g_grow(sa, d, spec_pcdr(arg));
        let tail: Seq<u8> = if tag == ADD { seq![0x7Cu8] } else if tag == SUB { seq![0x7Du8] } else { seq![0x51u8, 0xADu8] };
        assert(s2 == emit_bytes(sb, tail));
        lemma_prefix_cat(sb.b, tail);
        lemma_prefix_trans(s.b, sa.b, sb.b);
        lemma_prefix_trans(s.b, sb.b, s2.b);
    }
}

proof fn lemma_gfrag_tag(n: Json)
    requires
        gfrag(n),
    ensures
        spec_is_p(n) && spec_pcar(n) is Num && spec_pcar(n)->Num_0 != OFN && spec_pcar(n)->Num_0 != NEWBOX,
{
}

} // verus!

verus! {

/// The locals below `ns` that `loc` holds, `loc2` holds alike.
pub open spec fn keeps_below(loc: Map<int, i64>, loc2: Map<int, i64>, ns: int) -> bool {
    forall|x: int| 0 <= x < ns && #[trigger] loc.contains_key(x) ==> loc2.contains_key(x) && loc2[x] == loc[x]
}

proof fn lemma_keeps_trans(a: Map<int, i64>, b: Map<int, i64>, c: Map<int, i64>, n1: int, n2: int)
    requires
        keeps_below(a, b, n1),
        keeps_below(b, c, n2),
        n1 <= n2,
    ensures
        keeps_below(a, c, n1),
{
    assert forall|x: int| 0 <= x < n1 && #[trigger] a.contains_key(x) implies c.contains_key(x) && c[x] == a[x] by {
        assert(b.contains_key(x));
    }
}

proof fn lemma_genv_keep(cenv: Seq<(i64, Bind)>, env: Seq<(i64, i64)>, loc: Map<int, i64>, kinds: Seq<Option<Kind>>, ns: u32, loc2: Map<int, i64>, kinds2: Seq<Option<Kind>>, ns2: u32)
    requires
        genv_ok(cenv, env, loc, kinds, ns),
        ns <= ns2,
        keeps_below(loc, loc2, ns as int),
        forall|x: u32| x < ns ==> #[trigger] kget(kinds2, x) == kget(kinds, x),
    ensures
        genv_ok(cenv, env, loc2, kinds2, ns2),
{
    assert forall|k: int| 0 <= k < cenv.len() implies #[trigger] gbind_ok(cenv[k], env[k], loc2, kinds2, ns2) by {
        assert(gbind_ok(cenv[k], env[k], loc, kinds, ns));
        if let Bind::Slot(x) = cenv[k].1 {
            assert(loc.contains_key(x as int));
            assert(loc2.contains_key(x as int));
        }
    }
}

/// The wasm stage G lays out for a program of the fragment, run where the locals hold the
/// bindings, pushes the program's value and keeps the locals below the slots taken so far.
#[verifier::spinoff_prover]
#[verifier::rlimit(100)]
proof fn lemma_g_val_env(s: GS, d: u32, n: Json, env: Seq<(i64, i64)>, bs: Seq<u8>, st: Seq<i64>, loc: Map<int, i64>)
    requires
        gfrag(n),
        int_val_in(n, env) is Some,
        s.regions.len() == 0,
        sp_val_g(s, d, n) matches Some(Ok((s2, _))) && is_prefix(s2.b, bs),
        genv_ok(s.env, env, loc, s.kinds, s.nslots),
    ensures
        sp_val_g(s, d, n)->0->Ok_0.1 == Kind::Int,
        run_w(bs, s.b.len() as int, sp_val_g(s, d, n)->0->Ok_0.0.b.len() as int, st, loc) matches Some((st2, loc2))
            && st2 == st.push(int_val_in(n, env).unwrap())
            && keeps_below(loc, loc2, s.nslots as int),
    decreases n, 1int,
{
    reveal(sp_val_g);
    reveal(sp_arith_g);
    reveal(sp_let_g);
    lemma_parts(n);
    lemma_g_grow(s, d, n);
    let tag = spec_pcar(n)->Num_0;
    let arg = spec_pcdr(n);
    let (s2, k) = sp_val_g(s, d, n)->0->Ok_0;
    let p = s.b.len() as int;
    let end = s2.b.len() as int;
    if tag == LIT {
        let kk = arg->Num_0;
        let e = spec_sleb(kk as int);
        assert(s2.b == s.b + (seq![0x42u8] + e));
        assert(bs[p] == 0x42u8) by {
            assert(bs.subrange(0, s2.b.len() as int)[p] == bs[p]);
        }
        assert(bs.subrange(p + 1, p + 1 + e.len()) =~= e) by {
            assert forall|j: int| 0 <= j < e.len() implies bs.subrange(p + 1, p + 1 + e.len())[j] == e[j] by {
                assert(bs.subrange(0, s2.b.len() as int)[p + 1 + j] == bs[p + 1 + j]);
                assert(s2.b[p + 1 + j] == e[j]);
            }
        }
        lemma_sleb_read_enc(bs, p + 1, kk as int);
        assert((kk as int) as i64 == kk);
        assert(end == p + 1 + e.len());
        assert(run_w(bs, end, end, st.push(kk), loc) == Some((st.push(kk), loc)));
        assert(run_w(bs, p, end, st, loc) == run_w(bs, end, end, st.push((kk as int) as i64), loc));
        assert(int_val_in(n, env) == Some(kk));
    } else if tag == VAR {
        let id = arg->Num_0;
        lemma_genv_look(s.env, env, loc, s.kinds, s.nslots, id);
        let x = look_s(s.env, id)->Some_0->Slot_0;
        assert(sp_val_g(s, d, n) == var_g(s, id));
        assert(s2 == opu_s(s, 0x20, x));
        let w = seq![0x20u8] + spec_uleb(x as nat);
        assert(s2.b == s.b + w);
        assert(bytes_at(bs, p, w)) by {
            assert(bs.subrange(p, p + w.len()) =~= w) by {
                assert forall|j: int| 0 <= j < w.len() implies bs.subrange(p, p + w.len())[j] == w[j] by {
                    assert(bs.subrange(0, s2.b.len() as int)[p + j] == bs[p + j]);
                    assert(s2.b[p + j] == w[j]);
                }
            }
        }
        lemma_run_w_ub(bs, p, 0x20u8, x, st, loc);
        assert(int_val_in(n, env) == int_lookup(env, id));
        assert(end == p + w.len());
    } else if tag == LET {
        lemma_g_let(s, d, n, env, bs, st, loc);
    } else {
        lemma_g_arith(s, d, n, env, bs, st, loc);
    }
}

/// `lemma_g_val_env` for a binding.
#[verifier::spinoff_prover]
#[verifier::rlimit(100)]
proof fn lemma_g_let(s: GS, d: u32, n: Json, env: Seq<(i64, i64)>, bs: Seq<u8>, st: Seq<i64>, loc: Map<int, i64>)
    requires
        gfrag(n),
        spec_pcar(n)->Num_0 == LET,
        int_val_in(n, env) is Some,
        s.regions.len() == 0,
        sp_val_g(s, d, n) matches Some(Ok((s2, _))) && is_prefix(s2.b, bs),
        genv_ok(s.env, env, loc, s.kinds, s.nslots),
    ensures
        sp_val_g(s, d, n)->0->Ok_0.1 == Kind::Int,
        run_w(bs, s.b.len() as int, sp_val_g(s, d, n)->0->Ok_0.0.b.len() as int, st, loc) matches Some((st2, loc2))
            && st2 == st.push(int_val_in(n, env).unwrap())
            && keeps_below(loc, loc2, s.nslots as int),
    decreases n, 0int,
{
    reveal(sp_val_g);
    reveal(sp_arith_g);
    reveal(sp_let_g);
    lemma_parts(n);
    lemma_g_grow(s, d, n);
    let tag = spec_pcar(n)->Num_0;
    let arg = spec_pcdr(n);
    let (s2, k) = sp_val_g(s, d, n)->0->Ok_0;
    let p = s.b.len() as int;
    let end = s2.b.len() as int;
        lemma_parts(arg);
        lemma_parts(spec_pcdr(arg));
        let id = spec_pcar(arg)->Num_0;
        let val = spec_pcar(spec_pcdr(arg));
        let body = spec_pcdr(spec_pcdr(arg));
        lemma_gfrag_tag(val);
        assert(sp_let_g(s, d, arg) matches Some(Ok(_)));
        let (s1, kv) = sp_val_g(s, d, val)->0->Ok_0;
        lemma_g_grow(s, d, val);
        let (s2a, sl) = gslot(s1).unwrap();
        let s3 = with_kind(opu_s(s2a, 0x21, sl), sl, kv);
        let s5 = sp_let_g(s, d, arg)->0->Ok_0;
        assert(s5 == GS { env: s3.env.push((id, Bind::Slot(sl))), ..s3 });
        lemma_g_grow(s5, d, body);
        let (s6, kb) = sp_val_g(s5, d, body)->0->Ok_0;
        assert(s2 == close_s(s6, kb != Kind::Int).unwrap());
        assert(s2.b == s6.b);
        let w = seq![0x21u8] + spec_uleb(sl as nat);
        assert(s5.b == s1.b + w);
        lemma_prefix_cat(s1.b, w);
        lemma_prefix_trans(s5.b, s6.b, bs);
        lemma_prefix_trans(s1.b, s5.b, bs);
        let v = int_val_in(val, env).unwrap();
        lemma_g_val_env(s, d, val, env, bs, st, loc);
        let (st1, loc1) = run_w(bs, p, s1.b.len() as int, st, loc).unwrap();
        let q = s1.b.len() as int;
        assert(bytes_at(bs, q, w)) by {
            assert(bs.subrange(q, q + w.len()) =~= w) by {
                assert forall|j: int| 0 <= j < w.len() implies bs.subrange(q, q + w.len())[j] == w[j] by {
                    assert(bs.subrange(0, s5.b.len() as int)[q + j] == bs[q + j]);
                    assert(s5.b[q + j] == w[j]);
                }
            }
        }
        lemma_run_w_ub(bs, q, 0x21u8, sl, st1, loc1);
        let loc1b = loc1.insert(sl as int, v);
        assert(st1.drop_last() =~= st);
        let env1 = env.push((id, v));
        // the bindings for the body
        assert(sl == s1.nslots && s5.nslots == sl + 1);
        assert forall|kk: int| 0 <= kk < s5.env.len() implies #[trigger] gbind_ok(s5.env[kk], env1[kk], loc1b, s5.kinds, s5.nslots) by {
            if kk < s.env.len() {
                assert(s5.env[kk] == s.env[kk]);
                assert(env1[kk] == env[kk]);
                assert(gbind_ok(s.env[kk], env[kk], loc, s.kinds, s.nslots));
                if let Bind::Slot(x) = s.env[kk].1 {
                    assert(loc1.contains_key(x as int));
                    assert(kget(s1.kinds, x) == kget(s.kinds, x));
                    assert(kget(s5.kinds, x) == kget(s1.kinds, x));
                }
            } else {
                assert(kget(s5.kinds, sl) == kv);
            }
        }
        assert(genv_ok(s5.env, env1, loc1b, s5.kinds, s5.nslots));
        lemma_g_val_env(s5, d, body, env1, bs, st, loc1b);
        lemma_run_w_cat(bs, p, q, end, st, loc);
        lemma_run_w_cat(bs, q, s5.b.len() as int, end, st1, loc1);
        let (st3, loc3) = run_w(bs, s5.b.len() as int, end, st, loc1b).unwrap();
        assert(run_w(bs, p, end, st, loc) == Some((st3, loc3)));
        assert(int_val_in(n, env) == int_val_in(body, env1));
        assert(keeps_below(loc1, loc1b, s.nslots as int));
        lemma_keeps_trans(loc, loc1, loc1b, s.nslots as int, s.nslots as int);
        lemma_keeps_trans(loc, loc1b, loc3, s.nslots as int, s5.nslots as int);
}

/// `lemma_g_val_env` for `add`, `sub` and `eq`.
#[verifier::spinoff_prover]
#[verifier::rlimit(100)]
proof fn lemma_g_arith(s: GS, d: u32, n: Json, env: Seq<(i64, i64)>, bs: Seq<u8>, st: Seq<i64>, loc: Map<int, i64>)
    requires
        gfrag(n),
        spec_pcar(n)->Num_0 == ADD || spec_pcar(n)->Num_0 == SUB || spec_pcar(n)->Num_0 == EQ,
        int_val_in(n, env) is Some,
        s.regions.len() == 0,
        sp_val_g(s, d, n) matches Some(Ok((s2, _))) && is_prefix(s2.b, bs),
        genv_ok(s.env, env, loc, s.kinds, s.nslots),
    ensures
        sp_val_g(s, d, n)->0->Ok_0.1 == Kind::Int,
        run_w(bs, s.b.len() as int, sp_val_g(s, d, n)->0->Ok_0.0.b.len() as int, st, loc) matches Some((st2, loc2))
            && st2 == st.push(int_val_in(n, env).unwrap())
            && keeps_below(loc, loc2, s.nslots as int),
    decreases n, 0int,
{
    reveal(sp_val_g);
    reveal(sp_arith_g);
    reveal(sp_let_g);
    lemma_parts(n);
    lemma_g_grow(s, d, n);
    let tag = spec_pcar(n)->Num_0;
    let arg = spec_pcdr(n);
    let (s2, k) = sp_val_g(s, d, n)->0->Ok_0;
    let p = s.b.len() as int;
    let end = s2.b.len() as int;
        lemma_parts(arg);
        let a = spec_pcar(arg);
        let b = spec_pcdr(arg);
        assert(sp_val_g(s, d, n) == sp_arith_g(s, d, tag, arg, n));
        let sa = sp_val_g(s, d, a)->0->Ok_0.0;
        let sb = sp_val_g(sa, d, b)->0->Ok_0.0;
        lemma_g_grow(s, d, a);
        lemma_g_grow(sa, d, b);
        let tail: Seq<u8> = if tag == ADD { seq![0x7Cu8] } else if tag == SUB { seq![0x7Du8] } else { seq![0x51u8, 0xADu8] };
        assert(s2 == emit_bytes(sb, tail));
        lemma_prefix_cat(sb.b, tail);
        lemma_prefix_trans(sb.b, s2.b, bs);
        lemma_prefix_trans(sa.b, sb.b, bs);
        let x = int_val_in(a, env).unwrap();
        let y = int_val_in(b, env).unwrap();
        lemma_g_val_env(s, d, a, env, bs, st, loc);
        let (st1, loc1) = run_w(bs, p, sa.b.len() as int, st, loc).unwrap();
        lemma_genv_keep(sa.env, env, loc, s.kinds, s.nslots, loc1, sa.kinds, sa.nslots);
        lemma_g_val_env(sa, d, b, env, bs, st.push(x), loc1);
        let (st2, loc2) = run_w(bs, sa.b.len() as int, sb.b.len() as int, st.push(x), loc1).unwrap();
        assert(st2 == st.push(x).push(y));
        let q = sb.b.len() as int;
        assert(bs[q] == tail[0]) by {
            assert(bs.subrange(0, s2.b.len() as int)[q] == bs[q]);
            assert(s2.b[q] == tail[0]);
        }
        if tag == EQ {
            assert(bs[q + 1] == 0xADu8) by {
                assert(bs.subrange(0, s2.b.len() as int)[q + 1] == bs[q + 1]);
                assert(s2.b[q + 1] == tail[1]);
            }
        }
        let stx = st.push(x).push(y);
        assert(stx.take(stx.len() - 2) =~= st);
        lemma_run_w_cat(bs, p, sa.b.len() as int, end, st, loc);
        lemma_run_w_cat(bs, sa.b.len() as int, q, end, st.push(x), loc1);
        if tag == EQ {
            let r: i64 = if x == y { 1 } else { 0 };
            assert(st.push(r).take(st.len() as int) =~= st);
            assert(((r as u32) as i64) == r);
            assert(end == q + 2);
            assert(run_w(bs, q, end, stx, loc2) == run_w(bs, q + 1, end, st.push(r), loc2));
            assert(run_w(bs, q + 1, end, st.push(r), loc2) == run_w(bs, q + 2, end, st.push(r), loc2));
            assert(int_val_in(n, env) == Some(r));
            assert(run_w(bs, p, end, st, loc) == Some((st.push(r), loc2)));
        } else {
            assert(end == q + 1);
            let r = if tag == ADD { x.wrapping_add(y) } else { x.wrapping_sub(y) };
            assert(stx.take(stx.len() - 2).push(r) =~= st.push(r));
            assert(run_w(bs, q, end, stx, loc2) == run_w(bs, q + 1, end, st.push(r), loc2));
            assert(int_val_in(n, env) == Some(r));
            assert(run_w(bs, p, end, st, loc) == Some((st.push(r), loc2)));
        }
        lemma_keeps_trans(loc, loc1, loc2, s.nslots as int, sa.nslots as int);
    }

/// Stage G computes what the object program means, with bindings: for a closed program of
/// integer literals, `add`, `sub`, `eq`, variables and bindings of values, laid out by an
/// emitter with no bindings or open regions, the wasm, run on any operand stack and any locals,
/// leaves the program's value on top of that stack (a variable gives the value of its nearest
/// binding), and its shape is the integer shape.
pub proof fn law_stage_g_computes_bindings(s: GS, d: u32, n: Json, st: Seq<i64>, loc: Map<int, i64>)
    requires
        gfrag(n),
        int_val_in(n, Seq::empty()) is Some,
        s.env.len() == 0,
        s.regions.len() == 0,
        sp_val_g(s, d, n) is Some,
        sp_val_g(s, d, n)->0 is Ok,
    ensures
        sp_val_g(s, d, n)->0->Ok_0.1 == Kind::Int,
        is_prefix(s.b, sp_val_g(s, d, n)->0->Ok_0.0.b),
        run_w(sp_val_g(s, d, n)->0->Ok_0.0.b, s.b.len() as int, sp_val_g(s, d, n)->0->Ok_0.0.b.len() as int, st, loc) matches Some((st2, _))
            && st2 == st.push(int_val_in(n, Seq::empty()).unwrap()),
{
    let s2 = sp_val_g(s, d, n)->0->Ok_0.0;
    lemma_prefix_refl(s2.b);
    lemma_g_grow(s, d, n);
    assert(genv_ok(s.env, Seq::empty(), loc, s.kinds, s.nslots));
    lemma_g_val_env(s, d, n, Seq::empty(), s2.b, st, loc);
}

} // verus!
