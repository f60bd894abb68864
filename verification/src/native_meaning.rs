use vstd::prelude::*;
use crate::arena::{vv, Val};
use crate::stage_e::{EState, Op, step_e};
use crate::meaning::steps_e;
use crate::stage_f::{disp, fetch_s, preamble, xor_rr_s, fits_i32, fused_s, leaves_top, le32, le64, load_s, pin_of, plain_s, rex_s, spill_s, tail_s};
use crate::value::V;

verus! {

/// The part of an x86-64 machine that stage F's integer code touches: `rax`, `rcx`, the other
/// general registers by number (`rdx` 2, `rsi` 6, `r8` to `r11` 8 to 11), the zero flag, the
/// machine stack (its top last), and the 64-bit words at byte offsets from `rdi`.
pub struct X86 {
    pub rax: i64,
    pub rcx: i64,
    pub gp: Map<int, i64>,
    pub zf: bool,
    pub stk: Seq<i64>,
    pub mem: Map<int, i64>,
}

/// General register `k`.
pub open spec fn getr(x: X86, k: int) -> Option<i64> {
    if k == 0 {
        Some(x.rax)
    } else if k == 1 {
        Some(x.rcx)
    } else if x.gp.contains_key(k) {
        Some(x.gp[k])
    } else {
        None
    }
}

/// The machine with general register `k` set to `v`.
pub open spec fn setr(x: X86, k: int, v: i64) -> X86 {
    if k == 0 {
        X86 { rax: v, ..x }
    } else if k == 1 {
        X86 { rcx: v, ..x }
    } else {
        X86 { gp: x.gp.insert(k, v), ..x }
    }
}

/// Whether a byte is a REX prefix with 64-bit operands (W), possibly extending the ModRM `reg`
/// (R) or `rm` (B) field.
pub open spec fn rex_w(b: u8) -> bool {
    b == 0x48u8 || b == 0x4Cu8 || b == 0x49u8
}

/// The register a register-direct ModRM byte names in its `reg` field, under REX prefix `p`.
pub open spec fn modrm_reg(p: u8, m: u8) -> int {
    (m as int - 0xC0) / 8 + if p == 0x4Cu8 { 8int } else { 0 }
}

/// The register a register-direct ModRM byte names in its `rm` field, under REX prefix `p`.
pub open spec fn modrm_rm(p: u8, m: u8) -> int {
    (m as int - 0xC0) % 8 + if p == 0x49u8 { 8int } else { 0 }
}

/// The little-endian 32-bit number at `i`.
pub open spec fn rd32(bs: Seq<u8>, i: int) -> i32 {
    ((bs[i] as u32) | ((bs[i + 1] as u32) << 8u32) | ((bs[i + 2] as u32) << 16u32) | ((bs[i + 3] as u32) << 24u32)) as i32
}

/// The little-endian 64-bit number at `i`.
pub open spec fn rd64(bs: Seq<u8>, i: int) -> i64 {
    ((bs[i] as u64) | ((bs[i + 1] as u64) << 8u64) | ((bs[i + 2] as u64) << 16u64) | ((bs[i + 3] as u64) << 24u64)
        | ((bs[i + 4] as u64) << 32u64) | ((bs[i + 5] as u64) << 40u64) | ((bs[i + 6] as u64) << 48u64)
        | ((bs[i + 7] as u64) << 56u64)) as i64
}

/// Whether `bs` holds the bytes `w` at `i`.
pub open spec fn at(bs: Seq<u8>, i: int, w: Seq<u8>) -> bool {
    0 <= i && i + w.len() <= bs.len() && forall|k: int| 0 <= k < w.len() ==> bs[i + k] == #[trigger] w[k]
}

/// `al` set to `b`, the rest of `rax` kept.
pub open spec fn set_al(rax: i64, b: bool) -> i64 {
    (rax & !0xffi64) | (if b { 1i64 } else { 0i64 })
}

/// The byte at `i`, or none past the end.
pub open spec fn byte(bs: Seq<u8>, i: int) -> Option<u8> {
    if 0 <= i < bs.len() {
        Some(bs[i])
    } else {
        None
    }
}

/// One x86-64 instruction at `i`, as the processor runs it: the machine after it and where the
/// next one starts. Known are `push rax`, `pop rax`, `pop rcx`, `mov rax, imm32` (sign
/// extended), `mov rax, imm64`, `mov rax, [rdi+d32]`, `mov [rdi+d32], rax`, `add rsp, 8`,
/// `add`/`sub rax, imm32`, `add`/`sub rax, [rdi+d32]`, `mov`/`add`/`sub` between general
/// registers, `xor r, r` (which clears `r`), `cmp rax, rcx`, `sete al`, `setne al`, `movzx rax,
/// al`, `test rax, rax`, `jz`/`jnz rel32` and `jmp rel32`; `None` for anything else.
pub open spec fn x86_step(bs: Seq<u8>, i: int, x: X86) -> Option<(X86, int)> {
    let n = x.stk.len();
    let b0 = byte(bs, i);
    let b1 = byte(bs, i + 1);
    let b2 = byte(bs, i + 2);
    let b3 = byte(bs, i + 3);
    if b0 == Some(0x50u8) {
        Some((X86 { stk: x.stk.push(x.rax), ..x }, i + 1))
    } else if b0 == Some(0x58u8) && n > 0 {
        Some((X86 { rax: x.stk.last(), stk: x.stk.drop_last(), ..x }, i + 1))
    } else if b0 == Some(0x59u8) && n > 0 {
        Some((X86 { rcx: x.stk.last(), stk: x.stk.drop_last(), ..x }, i + 1))
    } else if b0 == Some(0x48u8) && b1 == Some(0xC7u8) && b2 == Some(0xC0u8) && i + 7 <= bs.len() {
        Some((X86 { rax: rd32(bs, i + 3) as i64, ..x }, i + 7))
    } else if b0 == Some(0x48u8) && b1 == Some(0xB8u8) && i + 10 <= bs.len() {
        Some((X86 { rax: rd64(bs, i + 2), ..x }, i + 10))
    } else if b0 == Some(0x48u8) && b1 == Some(0x8Bu8) && b2 == Some(0x87u8) && i + 7 <= bs.len()
        && x.mem.contains_key(rd32(bs, i + 3) as int) {
        Some((X86 { rax: x.mem[rd32(bs, i + 3) as int], ..x }, i + 7))
    } else if b0 == Some(0x48u8) && b1 == Some(0x89u8) && b2 == Some(0x87u8) && i + 7 <= bs.len() {
        Some((X86 { mem: x.mem.insert(rd32(bs, i + 3) as int, x.rax), ..x }, i + 7))
    } else if b0 == Some(0x48u8) && b1 == Some(0x83u8) && b2 == Some(0xC4u8) && b3 == Some(0x08u8) && n > 0 {
        Some((X86 { stk: x.stk.drop_last(), ..x }, i + 4))
    } else if b0 == Some(0x48u8) && (b1 == Some(0x05u8) || b1 == Some(0x2Du8)) && i + 6 <= bs.len() {
        let v = rd32(bs, i + 2) as i64;
        Some((X86 { rax: if b1 == Some(0x05u8) { x.rax.wrapping_add(v) } else { x.rax.wrapping_sub(v) }, ..x }, i + 6))
    } else if b0 == Some(0x48u8) && (b1 == Some(0x03u8) || b1 == Some(0x2Bu8)) && b2 == Some(0x87u8) && i + 7 <= bs.len()
        && x.mem.contains_key(rd32(bs, i + 3) as int) {
        let v = x.mem[rd32(bs, i + 3) as int];
        Some((X86 { rax: if b1 == Some(0x03u8) { x.rax.wrapping_add(v) } else { x.rax.wrapping_sub(v) }, ..x }, i + 7))
    } else if i + 3 <= bs.len() && rex_w(bs[i]) && bs[i + 2] >= 0xC0u8
        && (bs[i + 1] == 0x89u8 || bs[i + 1] == 0x01u8 || bs[i + 1] == 0x29u8) {
        let src = modrm_reg(bs[i], bs[i + 2]);
        let dst = modrm_rm(bs[i], bs[i + 2]);
        match (getr(x, src), getr(x, dst)) {
            (Some(a), Some(b)) => Some((setr(x, dst, if bs[i + 1] == 0x89u8 {
                a
            } else if bs[i + 1] == 0x01u8 {
                b.wrapping_add(a)
            } else {
                b.wrapping_sub(a)
            }), i + 3)),
            _ => None,
        }
    } else if b0 == Some(0x48u8) && b1 == Some(0x39u8) && b2 == Some(0xC8u8) {
        Some((X86 { zf: x.rax == x.rcx, ..x }, i + 3))
    } else if b0 == Some(0x0Fu8) && b1 == Some(0x94u8) && b2 == Some(0xC0u8) {
        Some((X86 { rax: set_al(x.rax, x.zf), ..x }, i + 3))
    } else if b0 == Some(0x0Fu8) && b1 == Some(0x95u8) && b2 == Some(0xC0u8) {
        Some((X86 { rax: set_al(x.rax, !x.zf), ..x }, i + 3))
    } else if b0 == Some(0x48u8) && b1 == Some(0x0Fu8) && b2 == Some(0xB6u8) && b3 == Some(0xC0u8) {
        Some((X86 { rax: x.rax & 0xffi64, ..x }, i + 4))
    } else if i + 3 <= bs.len() && (bs[i] == 0x48u8 || bs[i] == 0x4Du8) && bs[i + 1] == 0x31u8 && bs[i + 2] >= 0xC0u8
        && (bs[i + 2] as int - 0xC0) / 8 == (bs[i + 2] as int - 0xC0) % 8 {
        Some((setr(x, (bs[i + 2] as int - 0xC0) % 8 + if bs[i] == 0x4Du8 { 8int } else { 0 }, 0), i + 3))
    } else if b0 == Some(0x48u8) && b1 == Some(0x85u8) && b2 == Some(0xC0u8) {
        Some((X86 { zf: x.rax == 0, ..x }, i + 3))
    } else if b0 == Some(0x0Fu8) && (b1 == Some(0x84u8) || b1 == Some(0x85u8)) && i + 6 <= bs.len() {
        let taken = if b1 == Some(0x84u8) { x.zf } else { !x.zf };
        Some((x, if taken { i + 6 + rd32(bs, i + 2) as int } else { i + 6 }))
    } else if b0 == Some(0xE9u8) && i + 5 <= bs.len() {
        Some((x, i + 5 + rd32(bs, i + 1) as int))
    } else {
        None
    }
}

/// Running the instructions from `i` until `end`.
pub open spec fn x86_run(bs: Seq<u8>, i: int, end: int, x: X86) -> Option<X86>
    decreases end - i,
{
    if i == end {
        Some(x)
    } else if i > end {
        None
    } else {
        match x86_step(bs, i, x) {
            Some((x2, j)) => if j <= i || j > end {
                None
            } else {
                x86_run(bs, j, end, x2)
            },
            None => None,
        }
    }
}

/// The integer an integer value holds.
pub open spec fn int_of(v: Val) -> i64 {
    match v {
        Val::I(k) => k,
        _ => 0,
    }
}

/// Whether every value is an integer.
pub open spec fn all_int(s: Seq<Val>) -> bool {
    forall|k: int| 0 <= k < s.len() ==> (#[trigger] s[k]) is I
}

/// The integers of `s`.
pub open spec fn ints(s: Seq<Val>) -> Seq<i64> {
    Seq::new(s.len(), |k: int| int_of(s[k]))
}

/// Where the value of slot `s` lives: in its pinned register, or in the word at offset `8 * s`
/// from `rdi`.
pub open spec fn slot_holds(x: X86, pins: Seq<(u32, u8)>, s: int, v: i64) -> bool {
    match pin_of(pins, s as u32) {
        Some(r) => x.gp.contains_key(r as int) && x.gp[r as int] == v,
        None => x.mem.contains_key(8 * s) && x.mem[8 * s] == v,
    }
}

/// The registers slots may be pinned to (`rdx`, `rsi`, `r8` to `r11`), each holding one slot.
pub open spec fn pins_fine(pins: Seq<(u32, u8)>) -> bool {
    &&& forall|s: u32| #[trigger] pin_of(pins, s) matches Some(r) ==> (r == 2 || r == 6 || 8 <= r <= 11)
    &&& forall|s1: u32, s2: u32| #[trigger] pin_of(pins, s1) is Some && pin_of(pins, s1) == #[trigger] pin_of(pins, s2) ==> s1 == s2
}

/// The machine stands for stage E's state `m` (integers only): each slot where `pins` puts it;
/// the operand stack on the machine stack above `base`, its top in `rax` where `t` says so.
pub open spec fn stands_for(x: X86, m: EState, t: bool, base: Seq<i64>, pins: Seq<(u32, u8)>) -> bool {
    &&& all_int(m.st)
    &&& all_int(m.sl)
    &&& m.sl.len() <= 0x1000_0000
    &&& forall|s: int| 0 <= s < m.sl.len() ==> #[trigger] slot_holds(x, pins, s, int_of(m.sl[s]))
    &&& if t {
        m.st.len() > 0 && x.rax == int_of(m.st.last()) && x.stk == base + ints(m.st.drop_last())
    } else {
        x.stk == base + ints(m.st)
    }
}

proof fn lemma_rd32(bs: Seq<u8>, i: int, v: i32)
    requires
        at(bs, i, le32(v)),
    ensures
        rd32(bs, i) == v,
{
    let w = le32(v);
    assert(bs[i] == w[0] && bs[i + 1] == w[1] && bs[i + 2] == w[2] && bs[i + 3] == w[3]);
    let x = v as u32;
    assert(((x as u8 as u32) | (((x >> 8u32) as u8 as u32) << 8u32) | (((x >> 16u32) as u8 as u32) << 16u32) | (((x >> 24u32) as u8 as u32) << 24u32)) == x) by (bit_vector);
    assert((v as u32) as i32 == v) by (bit_vector);
}

proof fn lemma_rd64(bs: Seq<u8>, i: int, v: i64)
    requires
        at(bs, i, le64(v)),
    ensures
        rd64(bs, i) == v,
{
    let w = le64(v);
    assert(bs[i] == w[0] && bs[i + 1] == w[1] && bs[i + 2] == w[2] && bs[i + 3] == w[3]);
    assert(bs[i + 4] == w[4] && bs[i + 5] == w[5] && bs[i + 6] == w[6] && bs[i + 7] == w[7]);
    let x = v as u64;
    assert(((x as u8 as u64) | (((x >> 8u64) as u8 as u64) << 8u64) | (((x >> 16u64) as u8 as u64) << 16u64) | (((x >> 24u64) as u8 as u64) << 24u64)
        | (((x >> 32u64) as u8 as u64) << 32u64) | (((x >> 40u64) as u8 as u64) << 40u64) | (((x >> 48u64) as u8 as u64) << 48u64)
        | (((x >> 56u64) as u8 as u64) << 56u64)) == x) by (bit_vector);
    assert((v as u64) as i64 == v) by (bit_vector);
}

proof fn lemma_disp(s: u32)
    requires
        s < 0x1000_0000,
    ensures
        disp(s) as int == 8 * s,
{
    assert(0 <= (s as i32) * 8 <= i32::MAX);
    assert((s as i32) as int * 8 == 8 * (s as int));
}


proof fn lemma_stk_pop(base: Seq<i64>, st: Seq<Val>)
    requires
        st.len() > 0,
    ensures
        (base + ints(st)).len() > 0,
        (base + ints(st)).last() == int_of(st.last()),
        (base + ints(st)).drop_last() == base + ints(st.drop_last()),
{
    assert((base + ints(st)).drop_last() =~= base + ints(st.drop_last()));
}

proof fn lemma_stk_push(base: Seq<i64>, st: Seq<Val>, v: Val)
    ensures
        base + ints(st.push(v)) == (base + ints(st)).push(int_of(v)),
{
    assert(base + ints(st.push(v)) =~= (base + ints(st)).push(int_of(v)));
}

/// What a piece must do: run to its end from a machine standing for `m`, and leave one standing
/// for the state stage E's step reaches.
pub open spec fn piece_ok(code: Seq<Op>, i: int, t: bool, label: Seq<usize>, here: usize, m: EState, x: X86, base: Seq<i64>, pins: Seq<(u32, u8)>) -> bool {
    plain_s(code, i, t, pins, label, here, 0) matches Some(Ok(bs))
        && x86_run(bs, 0, bs.len() as int, x) matches Some(x2)
        && stands_for(x2, step_e(code, m).unwrap(), leaves_top(code[i]), base, pins)
}

/// The common ground of the pieces: stage E can step at `i`, the machine stands for its state.
pub open spec fn piece_pre(code: Seq<Op>, i: int, t: bool, m: EState, x: X86, base: Seq<i64>, pins: Seq<(u32, u8)>) -> bool {
    &&& 0 <= i < code.len()
    &&& m.pc == i
    &&& pins_fine(pins)
    &&& stands_for(x, m, t, base, pins)
    &&& step_e(code, m) is Some
}

/// The slots stay where they were while registers other than the pinned ones and the stack
/// change.
proof fn lemma_slots_kept(x: X86, y: X86, m: EState, m2: EState, pins: Seq<(u32, u8)>)
    requires
        x.gp == y.gp,
        x.mem == y.mem,
        m2.sl == m.sl,
        forall|s: int| 0 <= s < m.sl.len() ==> #[trigger] slot_holds(x, pins, s, int_of(m.sl[s])),
    ensures
        forall|s: int| 0 <= s < m2.sl.len() ==> #[trigger] slot_holds(y, pins, s, int_of(m2.sl[s])),
{
    assert forall|s: int| 0 <= s < m2.sl.len() implies #[trigger] slot_holds(y, pins, s, int_of(m2.sl[s])) by {
        assert(slot_holds(x, pins, s, int_of(m.sl[s])));
    }
}

#[verifier::spinoff_prover]
proof fn lemma_piece_eq(code: Seq<Op>, i: int, t: bool, label: Seq<usize>, here: usize, m: EState, x: X86, base: Seq<i64>, pins: Seq<(u32, u8)>)
    requires
        piece_pre(code, i, t, m, x, base, pins),
        code[i] == Op::Eq,
    ensures
        piece_ok(code, i, t, label, here, m, x, base, pins),
{
    reveal_with_fuel(x86_run, 7);
    let n = m.st.len();
    let a = int_of(m.st[n - 2]);
    let b = int_of(m.st[n - 1]);
    assert(m.st[n - 2] is I && m.st[n - 1] is I);
    let m2 = step_e(code, m).unwrap();
    let r: i64 = if a == b { 1 } else { 0 };
    assert(vv(m.ar, m.st[n - 2]) == V::I(a));
    assert(vv(m.ar, m.st[n - 1]) == V::I(b));
    assert(m2.st == m.st.take(n - 2).push(Val::I(r)));
    assert(((((b & !0xffi64) | 1i64) & 0xffi64) == 1i64) && ((((b & !0xffi64) | 0i64) & 0xffi64) == 0i64)) by (bit_vector);
    let rest = m.st.take(n - 2);
    assert(m.st.drop_last().drop_last() =~= rest);
    assert(m2.st.drop_last() =~= rest);
    let bs = plain_s(code, i, t, pins, label, here, 0).unwrap().unwrap();
    let tail = seq![0x59u8, 0x48u8, 0x39u8, 0xC8u8, 0x0Fu8, 0x94u8, 0xC0u8, 0x48u8, 0x0Fu8, 0xB6u8, 0xC0u8];
    if t {
        assert(bs =~= tail);
        lemma_stk_pop(base, m.st.drop_last());
        let x1 = X86 { rcx: a, stk: base + ints(rest), ..x };
        assert(x86_step(bs, 0, x) == Some((x1, 1int)));
        let x2 = X86 { zf: b == a, ..x1 };
        assert(x86_step(bs, 1, x1) == Some((x2, 4int)));
        let x3 = X86 { rax: set_al(b, b == a), ..x2 };
        assert(x86_step(bs, 4, x2) == Some((x3, 7int)));
        let x4 = X86 { rax: r, ..x3 };
        assert(x86_step(bs, 7, x3) == Some((x4, 11int)));
        assert(x86_run(bs, 11, 11, x4) == Some(x4));
        assert(x86_run(bs, 7, 11, x3) == Some(x4));
        assert(x86_run(bs, 4, 11, x2) == Some(x4));
        assert(x86_run(bs, 1, 11, x1) == Some(x4));
        assert(x86_run(bs, 0, 11, x) == Some(x4));
        lemma_slots_kept(x, x4, m, m2, pins);
        assert(stands_for(x4, m2, true, base, pins));
    } else {
        assert(bs =~= seq![0x58u8] + tail);
        lemma_stk_pop(base, m.st);
        lemma_stk_pop(base, m.st.drop_last());
        let x0 = X86 { rax: b, stk: base + ints(m.st.drop_last()), ..x };
        assert(x86_step(bs, 0, x) == Some((x0, 1int)));
        let x1 = X86 { rcx: a, stk: base + ints(rest), ..x0 };
        assert(x86_step(bs, 1, x0) == Some((x1, 2int)));
        let x2 = X86 { zf: b == a, ..x1 };
        assert(x86_step(bs, 2, x1) == Some((x2, 5int)));
        let x3 = X86 { rax: set_al(b, b == a), ..x2 };
        assert(x86_step(bs, 5, x2) == Some((x3, 8int)));
        let x4 = X86 { rax: r, ..x3 };
        assert(x86_step(bs, 8, x3) == Some((x4, 12int)));
        assert(x86_run(bs, 12, 12, x4) == Some(x4));
        assert(x86_run(bs, 8, 12, x3) == Some(x4));
        assert(x86_run(bs, 5, 12, x2) == Some(x4));
        assert(x86_run(bs, 2, 12, x1) == Some(x4));
        assert(x86_run(bs, 1, 12, x0) == Some(x4));
        assert(x86_run(bs, 0, 12, x) == Some(x4));
        lemma_slots_kept(x, x4, m, m2, pins);
        assert(stands_for(x4, m2, true, base, pins));
    }
}


#[verifier::spinoff_prover]
proof fn lemma_piece_lit(code: Seq<Op>, i: int, t: bool, label: Seq<usize>, here: usize, m: EState, x: X86, base: Seq<i64>, pins: Seq<(u32, u8)>)
    requires
        piece_pre(code, i, t, m, x, base, pins),
        code[i] is Lit,
    ensures
        piece_ok(code, i, t, label, here, m, x, base, pins),
{
    reveal_with_fuel(x86_run, 4);
    let k = code[i]->Lit_0;
    let m2 = step_e(code, m).unwrap();
    assert(m2.st == m.st.push(Val::I(k)));
    assert(m2.st.drop_last() =~= m.st);
    let bs = plain_s(code, i, t, pins, label, here, 0).unwrap().unwrap();
    let sp: Seq<u8> = if t { seq![0x50u8] } else { Seq::empty() };
    let p = sp.len() as int;
    let x0 = X86 { stk: base + ints(m.st), ..x };
    if t {
        lemma_stk_pop(base, m.st);
        assert(base + ints(m.st) =~= (base + ints(m.st.drop_last())).push(x.rax));
        assert(x86_step(bs, 0, x) == Some((x0, 1int)));
    } else {
        assert(x0 == x);
    }
    if fits_i32(k) {
        let w = le32(k as i32);
        assert(bs =~= sp + seq![0x48u8, 0xC7u8, 0xC0u8] + w);
        assert(at(bs, p + 3, w));
        lemma_rd32(bs, p + 3, k as i32);
        let x1 = X86 { rax: k, ..x0 };
        assert(x86_step(bs, p, x0) == Some((x1, p + 7)));
        assert(x86_run(bs, p + 7, p + 7, x1) == Some(x1));
        assert(x86_run(bs, p, p + 7, x0) == Some(x1));
        assert(x86_run(bs, 0, p + 7, x) == Some(x1));
        lemma_slots_kept(x, x1, m, m2, pins);
    } else {
        let w = le64(k);
        assert(bs =~= sp + seq![0x48u8, 0xB8u8] + w);
        assert(at(bs, p + 2, w));
        lemma_rd64(bs, p + 2, k);
        let x1 = X86 { rax: k, ..x0 };
        assert(x86_step(bs, p, x0) == Some((x1, p + 10)));
        assert(x86_run(bs, p + 10, p + 10, x1) == Some(x1));
        assert(x86_run(bs, p, p + 10, x0) == Some(x1));
        assert(x86_run(bs, 0, p + 10, x) == Some(x1));
        lemma_slots_kept(x, x1, m, m2, pins);
    }
}

#[verifier::spinoff_prover]
#[verifier::rlimit(100)]
proof fn lemma_piece_load(code: Seq<Op>, i: int, t: bool, label: Seq<usize>, here: usize, m: EState, x: X86, base: Seq<i64>, pins: Seq<(u32, u8)>)
    requires
        piece_pre(code, i, t, m, x, base, pins),
        code[i] is Load,
    ensures
        piece_ok(code, i, t, label, here, m, x, base, pins),
{
    reveal_with_fuel(x86_run, 4);
    let sl = code[i]->Load_0;
    let m2 = step_e(code, m).unwrap();
    assert(m2.st == m.st.push(m.sl[sl as int]));
    assert(m2.st.drop_last() =~= m.st);
    assert(m.sl[sl as int] is I);
    let v = int_of(m.sl[sl as int]);
    assert(slot_holds(x, pins, sl as int, v));
    let bs = plain_s(code, i, t, pins, label, here, 0).unwrap().unwrap();
    let sp: Seq<u8> = if t { seq![0x50u8] } else { Seq::empty() };
    let p = sp.len() as int;
    let x0 = X86 { stk: base + ints(m.st), ..x };
    if t {
        lemma_stk_pop(base, m.st);
        assert(base + ints(m.st) =~= (base + ints(m.st.drop_last())).push(x.rax));
        assert(x86_step(bs, 0, x) == Some((x0, 1int)));
    } else {
        assert(x0 == x);
    }
    let x1 = X86 { rax: v, ..x0 };
    match pin_of(pins, sl) {
        Some(r) => {
            let w = seq![rex_s(true, r), 0x89u8, (0xC0 + 8 * (r % 8)) as u8];
            assert(bs =~= sp + w);
            assert(modrm_reg(bs[p], bs[p + 2]) == r as int && modrm_rm(bs[p], bs[p + 2]) == 0);
            assert(x86_step(bs, p, x0) == Some((x1, p + 3)));
            assert(x86_run(bs, p + 3, p + 3, x1) == Some(x1));
            assert(x86_run(bs, p, p + 3, x0) == Some(x1));
            assert(x86_run(bs, 0, p + 3, x) == Some(x1));
        },
        None => {
            lemma_disp(sl);
            let w = le32(disp(sl));
            assert(bs =~= sp + seq![0x48u8, 0x8Bu8, 0x87u8] + w);
            assert(at(bs, p + 3, w));
            lemma_rd32(bs, p + 3, disp(sl));
            assert(x86_step(bs, p, x0) == Some((x1, p + 7)));
            assert(x86_run(bs, p + 7, p + 7, x1) == Some(x1));
            assert(x86_run(bs, p, p + 7, x0) == Some(x1));
            assert(x86_run(bs, 0, p + 7, x) == Some(x1));
        },
    }
    assert forall|q: int| 0 <= q < m2.sl.len() implies #[trigger] slot_holds(x1, pins, q, int_of(m2.sl[q])) by {
        assert(slot_holds(x, pins, q, int_of(m.sl[q])));
    }
}

#[verifier::spinoff_prover]
#[verifier::rlimit(100)]
proof fn lemma_piece_store(code: Seq<Op>, i: int, t: bool, label: Seq<usize>, here: usize, m: EState, x: X86, base: Seq<i64>, pins: Seq<(u32, u8)>)
    requires
        piece_pre(code, i, t, m, x, base, pins),
        code[i] is Store,
    ensures
        piece_ok(code, i, t, label, here, m, x, base, pins),
{
    reveal_with_fuel(x86_run, 4);
    let sl = code[i]->Store_0;
    let n = m.st.len();
    let m2 = step_e(code, m).unwrap();
    let v = m.st[n - 1];
    assert(m2.st == m.st.take(n - 1));
    assert(m2.st =~= m.st.drop_last());
    assert(m2.sl == m.sl.update(sl as int, v));
    assert(v is I);
    let bs = plain_s(code, i, t, pins, label, here, 0).unwrap().unwrap();
    let lp: Seq<u8> = if t { Seq::empty() } else { seq![0x58u8] };
    let p = lp.len() as int;
    lemma_stk_pop(base, m.st);
    let x0 = X86 { rax: int_of(v), stk: base + ints(m.st.drop_last()), ..x };
    if !t {
        assert(x86_step(bs, 0, x) == Some((x0, 1int)));
    } else {
        assert(x0 == x);
    }
    let x1 = match pin_of(pins, sl) {
        Some(r) => X86 { gp: x.gp.insert(r as int, int_of(v)), ..x0 },
        None => X86 { mem: x.mem.insert(8 * (sl as int), int_of(v)), ..x0 },
    };
    match pin_of(pins, sl) {
        Some(r) => {
            let w = seq![rex_s(false, r), 0x89u8, (0xC0 + r % 8) as u8];
            assert(bs =~= lp + w);
            assert(slot_holds(x, pins, sl as int, int_of(m.sl[sl as int])));
            assert(x0.gp.contains_key(r as int));
            assert(r == 2 || r == 6 || 8 <= r <= 11);
            assert(modrm_reg(bs[p], bs[p + 2]) == 0 && modrm_rm(bs[p], bs[p + 2]) == r as int);
            assert(x86_step(bs, p, x0) == Some((x1, p + 3)));
            assert(x86_run(bs, p + 3, p + 3, x1) == Some(x1));
            assert(x86_run(bs, p, p + 3, x0) == Some(x1));
            assert(x86_run(bs, 0, p + 3, x) == Some(x1));
        },
        None => {
            lemma_disp(sl);
            let w = le32(disp(sl));
            assert(bs =~= lp + seq![0x48u8, 0x89u8, 0x87u8] + w);
            assert(at(bs, p + 3, w));
            lemma_rd32(bs, p + 3, disp(sl));
            assert(x86_step(bs, p, x0) == Some((x1, p + 7)));
            assert(x86_run(bs, p + 7, p + 7, x1) == Some(x1));
            assert(x86_run(bs, p, p + 7, x0) == Some(x1));
            assert(x86_run(bs, 0, p + 7, x) == Some(x1));
        },
    }
    assert(all_int(m2.sl));
    assert(all_int(m2.st));
    assert forall|q: int| 0 <= q < m2.sl.len() implies #[trigger] slot_holds(x1, pins, q, int_of(m2.sl[q])) by {
        assert(slot_holds(x, pins, q, int_of(m.sl[q])));
        if q != sl as int {
            if pin_of(pins, q as u32) is Some && pin_of(pins, sl) is Some {
                assert(pin_of(pins, q as u32) != pin_of(pins, sl));
            }
        }
    }
    assert(stands_for(x1, m2, false, base, pins));
}

#[verifier::spinoff_prover]
proof fn lemma_piece_dup(code: Seq<Op>, i: int, t: bool, label: Seq<usize>, here: usize, m: EState, x: X86, base: Seq<i64>, pins: Seq<(u32, u8)>)
    requires
        piece_pre(code, i, t, m, x, base, pins),
        code[i] is Dup,
    ensures
        piece_ok(code, i, t, label, here, m, x, base, pins),
{
    reveal_with_fuel(x86_run, 4);
    let n = m.st.len();
    let m2 = step_e(code, m).unwrap();
    assert(m2.st == m.st.push(m.st[n - 1]));
    assert(m2.st.drop_last() =~= m.st);
    let bs = plain_s(code, i, t, pins, label, here, 0).unwrap().unwrap();
    lemma_stk_pop(base, m.st);
    let top = int_of(m.st[n - 1]);
    if t {
        assert(bs =~= seq![0x50u8]);
        assert(base + ints(m.st) =~= (base + ints(m.st.drop_last())).push(x.rax));
        let x1 = X86 { stk: base + ints(m.st), ..x };
        assert(x86_step(bs, 0, x) == Some((x1, 1int)));
        assert(x86_run(bs, 0, 1, x) == Some(x1));
        lemma_slots_kept(x, x1, m, m2, pins);
    } else {
        assert(bs =~= seq![0x58u8, 0x50u8]);
        let x0 = X86 { rax: top, stk: base + ints(m.st.drop_last()), ..x };
        assert(x86_step(bs, 0, x) == Some((x0, 1int)));
        assert(base + ints(m.st) =~= (base + ints(m.st.drop_last())).push(top));
        let x1 = X86 { stk: base + ints(m.st), ..x0 };
        assert(x86_step(bs, 1, x0) == Some((x1, 2int)));
        assert(x86_run(bs, 1, 2, x0) == Some(x1));
        assert(x86_run(bs, 0, 2, x) == Some(x1));
        lemma_slots_kept(x, x1, m, m2, pins);
    }
}

#[verifier::spinoff_prover]
proof fn lemma_piece_pop(code: Seq<Op>, i: int, t: bool, label: Seq<usize>, here: usize, m: EState, x: X86, base: Seq<i64>, pins: Seq<(u32, u8)>)
    requires
        piece_pre(code, i, t, m, x, base, pins),
        code[i] is Pop,
        m.st.len() > 0,
    ensures
        piece_ok(code, i, t, label, here, m, x, base, pins),
{
    reveal_with_fuel(x86_run, 4);
    let n = m.st.len();
    let m2 = step_e(code, m).unwrap();
    assert(m2.st =~= m.st.drop_last());
    let bs = plain_s(code, i, t, pins, label, here, 0).unwrap().unwrap();
    lemma_stk_pop(base, m.st);
    if t {
        assert(bs =~= Seq::<u8>::empty());
        lemma_slots_kept(x, x, m, m2, pins);
    } else {
        assert(bs =~= seq![0x48u8, 0x83u8, 0xC4u8, 0x08u8]);
        let x1 = X86 { stk: base + ints(m.st.drop_last()), ..x };
        assert(x86_step(bs, 0, x) == Some((x1, 4int)));
        assert(x86_run(bs, 0, 4, x) == Some(x1));
        lemma_slots_kept(x, x1, m, m2, pins);
    }
}

#[verifier::spinoff_prover]
#[verifier::rlimit(100)]
proof fn lemma_piece_arith(code: Seq<Op>, i: int, t: bool, label: Seq<usize>, here: usize, m: EState, x: X86, base: Seq<i64>, pins: Seq<(u32, u8)>)
    requires
        piece_pre(code, i, t, m, x, base, pins),
        code[i] is Add || code[i] is Sub,
    ensures
        piece_ok(code, i, t, label, here, m, x, base, pins),
{
    reveal_with_fuel(x86_run, 6);
    let n = m.st.len();
    assert(m.st[n - 2] is I && m.st[n - 1] is I);
    let a = int_of(m.st[n - 2]);
    let b = int_of(m.st[n - 1]);
    let r = if code[i] is Add { a.wrapping_add(b) } else { a.wrapping_sub(b) };
    let m2 = step_e(code, m).unwrap();
    assert(m2.st == m.st.take(n - 2).push(Val::I(r)));
    let rest = m.st.take(n - 2);
    assert(m.st.drop_last().drop_last() =~= rest);
    assert(m2.st.drop_last() =~= rest);
    let bs = plain_s(code, i, t, pins, label, here, 0).unwrap().unwrap();
    let lp: Seq<u8> = if t { Seq::empty() } else { seq![0x58u8] };
    let p = lp.len() as int;
    lemma_stk_pop(base, m.st);
    lemma_stk_pop(base, m.st.drop_last());
    let x0 = X86 { rax: b, stk: base + ints(m.st.drop_last()), ..x };
    if !t {
        assert(x86_step(bs, 0, x) == Some((x0, 1int)));
    } else {
        assert(x0 == x);
    }
    if code[i] is Add {
        assert(bs =~= lp + seq![0x59u8, 0x48u8, 0x01u8, 0xC8u8]);
        let x1 = X86 { rcx: a, stk: base + ints(rest), ..x0 };
        assert(x86_step(bs, p, x0) == Some((x1, p + 1)));
        let x2 = X86 { rax: b.wrapping_add(a), ..x1 };
        assert(x86_step(bs, p + 1, x1) == Some((x2, p + 4)));
        assert(b.wrapping_add(a) == r);
        assert(x86_run(bs, p + 4, p + 4, x2) == Some(x2));
        assert(x86_run(bs, p + 1, p + 4, x1) == Some(x2));
        assert(x86_run(bs, p, p + 4, x0) == Some(x2));
        assert(x86_run(bs, 0, p + 4, x) == Some(x2));
        lemma_slots_kept(x, x2, m, m2, pins);
    } else {
        assert(bs =~= lp + seq![0x48u8, 0x89u8, 0xC1u8, 0x58u8, 0x48u8, 0x29u8, 0xC8u8]);
        let x1 = X86 { rcx: b, ..x0 };
        assert(x86_step(bs, p, x0) == Some((x1, p + 3)));
        let x2 = X86 { rax: a, stk: base + ints(rest), ..x1 };
        assert(x86_step(bs, p + 3, x1) == Some((x2, p + 4)));
        let x3 = X86 { rax: a.wrapping_sub(b), ..x2 };
        assert(x86_step(bs, p + 4, x2) == Some((x3, p + 7)));
        assert(x86_run(bs, p + 7, p + 7, x3) == Some(x3));
        assert(x86_run(bs, p + 4, p + 7, x2) == Some(x3));
        assert(x86_run(bs, p + 3, p + 7, x1) == Some(x3));
        assert(x86_run(bs, p, p + 7, x0) == Some(x3));
        assert(x86_run(bs, 0, p + 7, x) == Some(x3));
        lemma_slots_kept(x, x3, m, m2, pins);
    }
}

/// Stage F's machine code means what stage E's code means: for every integer instruction
/// (a literal, a slot read or write, `dup`, `pop`, `add`, `sub`, `eq`), laid out with no slot
/// pinned to a register, the bytes, run by the processor from a machine that stands for stage
/// E's state (slots in memory at `rdi`, the operand stack on the machine stack, its top in `rax`
/// where the layout says so), leave a machine that stands for the state stage E's step
/// reaches, with the top in `rax` where the next instruction expects it. So `eq` leaves 1
/// exactly for equal integers. It holds for slots below 2^28, whose offsets fit the
/// displacement, and for a `pop` with something on the stack.
pub proof fn law_stage_f_means_stage_e(code: Seq<Op>, i: int, t: bool, label: Seq<usize>, here: usize, m: EState, x: X86, base: Seq<i64>, pins: Seq<(u32, u8)>)
    requires
        piece_pre(code, i, t, m, x, base, pins),
        code[i] is Lit || code[i] is Load || code[i] is Store || code[i] is Dup || code[i] is Pop || code[i] is Add
            || code[i] is Sub || code[i] is Eq,
        code[i] is Pop ==> m.st.len() > 0,
    ensures
        piece_ok(code, i, t, label, here, m, x, base, pins),
{
    match code[i] {
        Op::Lit(_) => lemma_piece_lit(code, i, t, label, here, m, x, base, pins),
        Op::Load(_) => lemma_piece_load(code, i, t, label, here, m, x, base, pins),
        Op::Store(_) => lemma_piece_store(code, i, t, label, here, m, x, base, pins),
        Op::Dup => lemma_piece_dup(code, i, t, label, here, m, x, base, pins),
        Op::Pop => lemma_piece_pop(code, i, t, label, here, m, x, base, pins),
        Op::Eq => lemma_piece_eq(code, i, t, label, here, m, x, base, pins),
        _ => lemma_piece_arith(code, i, t, label, here, m, x, base, pins),
    }
}


/// Running up to `mid` and then on to `end` is running up to `end`.
proof fn lemma_x86_cat(bs: Seq<u8>, i: int, mid: int, end: int, x: X86)
    requires
        x86_run(bs, i, mid, x) is Some,
        mid <= end,
    ensures
        x86_run(bs, i, end, x) == x86_run(bs, mid, end, x86_run(bs, i, mid, x).unwrap()),
    decreases mid - i,
{
    if i != mid {
        let (x2, j) = x86_step(bs, i, x).unwrap();
        lemma_x86_cat(bs, j, mid, end, x2);
    }
}

/// `bs` holds `w` from `p` on.
pub open spec fn holds_at(bs: Seq<u8>, p: int, w: Seq<u8>) -> bool {
    0 <= p && p + w.len() <= bs.len() && bs.subrange(p, p + w.len()) == w
}

proof fn lemma_holds_at(bs: Seq<u8>, p: int, w: Seq<u8>)
    requires
        holds_at(bs, p, w),
    ensures
        forall|k: int| 0 <= k < w.len() ==> bs[p + k] == #[trigger] w[k],
        at(bs, p, w),
{
    assert forall|k: int| 0 <= k < w.len() implies bs[p + k] == #[trigger] w[k] by {
        assert(bs.subrange(p, p + w.len())[k] == bs[p + k]);
    }
}

proof fn lemma_holds_sub(bs: Seq<u8>, p: int, w: Seq<u8>, a: int, b: int)
    requires
        holds_at(bs, p, w),
        0 <= a <= b <= w.len(),
    ensures
        holds_at(bs, p + a, w.subrange(a, b)),
{
    lemma_holds_at(bs, p, w);
    assert(bs.subrange(p + a, p + b) =~= w.subrange(a, b));
}

/// Fetching slot `s` into `rax`.
#[verifier::spinoff_prover]
#[verifier::rlimit(100)]
proof fn lemma_fetch(bs: Seq<u8>, p: int, pins: Seq<(u32, u8)>, s: u32, x: X86, v: i64)
    requires
        holds_at(bs, p, fetch_s(pins, s)),
        slot_holds(x, pins, s as int, v),
        s < 0x1000_0000,
        pins_fine(pins),
    ensures
        x86_run(bs, p, p + fetch_s(pins, s).len(), x) == Some(X86 { rax: v, ..x }),
{
    reveal_with_fuel(x86_run, 2);
    let w = fetch_s(pins, s);
    lemma_holds_at(bs, p, w);
    let x1 = X86 { rax: v, ..x };
    match pin_of(pins, s) {
        Some(r) => {
            assert(r == 2 || r == 6 || 8 <= r <= 11);
            assert(modrm_reg(bs[p], bs[p + 2]) == r as int && modrm_rm(bs[p], bs[p + 2]) == 0);
            assert(x86_step(bs, p, x) == Some((x1, p + 3)));
            assert(x86_run(bs, p + 3, p + 3, x1) == Some(x1));
        },
        None => {
            lemma_disp(s);
            lemma_holds_sub(bs, p, w, 3, 7);
            assert(w.subrange(3, 7) =~= le32(disp(s)));
            lemma_rd32(bs, p + 3, disp(s));
            assert(w[0] == 0x48u8 && w[1] == 0x8Bu8 && w[2] == 0x87u8);
            assert(bs[p] == 0x48u8 && bs[p + 1] == 0x8Bu8 && bs[p + 2] == 0x87u8);
            assert(rd32(bs, p + 3) as int == 8 * (s as int));
            assert(x.mem.contains_key(8 * (s as int)));
            assert(x86_step(bs, p, x) == Some((x1, p + 7)));
            assert(x86_run(bs, p + 7, p + 7, x1) == Some(x1));
        },
    }
}

/// Adding or subtracting the literal or the slot `op` names.
#[verifier::spinoff_prover]
#[verifier::rlimit(100)]
proof fn lemma_tail(bs: Seq<u8>, p: int, pins: Seq<(u32, u8)>, op: Op, add: bool, x: X86, v: i64)
    requires
        holds_at(bs, p, tail_s(op, add, pins)),
        op matches Op::Lit(k) ==> fits_i32(k) && v == k,
        op matches Op::Load(s) ==> s < 0x1000_0000 && slot_holds(x, pins, s as int, v),
        op is Lit || op is Load,
        pins_fine(pins),
    ensures
        x86_run(bs, p, p + tail_s(op, add, pins).len(), x)
            == Some(X86 { rax: if add { x.rax.wrapping_add(v) } else { x.rax.wrapping_sub(v) }, ..x }),
{
    reveal_with_fuel(x86_run, 2);
    let w = tail_s(op, add, pins);
    lemma_holds_at(bs, p, w);
    let x1 = X86 { rax: if add { x.rax.wrapping_add(v) } else { x.rax.wrapping_sub(v) }, ..x };
    match op {
        Op::Lit(k) => {
            lemma_holds_sub(bs, p, w, 2, 6);
            assert(w.subrange(2, 6) =~= le32(k as i32));
            lemma_rd32(bs, p + 2, k as i32);
            assert(w[0] == 0x48u8 && w[1] == (if add { 0x05u8 } else { 0x2Du8 }));
            assert(bs[p] == 0x48u8 && bs[p + 1] == (if add { 0x05u8 } else { 0x2Du8 }));
            assert((k as i32) as i64 == k);
            assert(x86_step(bs, p, x) == Some((x1, p + 6)));
            assert(x86_run(bs, p + 6, p + 6, x1) == Some(x1));
        },
        Op::Load(s) => match pin_of(pins, s) {
            Some(r) => {
                assert(r == 2 || r == 6 || 8 <= r <= 11);
                assert(modrm_reg(bs[p], bs[p + 2]) == r as int && modrm_rm(bs[p], bs[p + 2]) == 0);
                assert(x86_step(bs, p, x) == Some((x1, p + 3)));
                assert(x86_run(bs, p + 3, p + 3, x1) == Some(x1));
            },
            None => {
                lemma_disp(s);
                lemma_holds_sub(bs, p, w, 3, 7);
                assert(w.subrange(3, 7) =~= le32(disp(s)));
                lemma_rd32(bs, p + 3, disp(s));
                assert(w[0] == 0x48u8 && w[1] == (if add { 0x03u8 } else { 0x2Bu8 }) && w[2] == 0x87u8);
                assert(bs[p] == 0x48u8 && bs[p + 1] == (if add { 0x03u8 } else { 0x2Bu8 }) && bs[p + 2] == 0x87u8);
                assert(rd32(bs, p + 3) as int == 8 * (s as int));
                assert(x.mem.contains_key(8 * (s as int)));
                assert(x86_step(bs, p, x) == Some((x1, p + 7)));
                assert(x86_run(bs, p + 7, p + 7, x1) == Some(x1));
            },
        },
        _ => {},
    }
}

/// Stage F's fused three mean what stage E's three do: where `Load a`, then a literal fitting
/// 32 bits or `Load b`, then `Add` or `Sub` stand at `i`, the fused bytes, run from a machine
/// that stands for stage E's state, leave one that stands for the state after the three steps,
/// the sum or difference in `rax`. It holds for slots below 2^28.
#[verifier::spinoff_prover]
#[verifier::rlimit(100)]
pub proof fn law_stage_f_fused_means_stage_e(code: Seq<Op>, i: int, t: bool, m: EState, x: X86, base: Seq<i64>, pins: Seq<(u32, u8)>)
    requires
        0 <= i,
        i + 2 < code.len(),
        m.pc == i,
        pins_fine(pins),
        stands_for(x, m, t, base, pins),
        code[i] is Load,
        code[i + 1] is Load || (code[i + 1] matches Op::Lit(k) && fits_i32(k)),
        code[i + 2] is Add || code[i + 2] is Sub,
        steps_e(code, m, 3) is Some,
    ensures
        x86_run(fused_s(code, i, t, pins), 0, fused_s(code, i, t, pins).len() as int, x) matches Some(x2)
            && stands_for(x2, steps_e(code, m, 3).unwrap(), true, base, pins),
{
    reveal_with_fuel(steps_e, 4);
    reveal_with_fuel(x86_run, 2);
    let bs = fused_s(code, i, t, pins);
    let a = code[i]->Load_0;
    let add = code[i + 2] is Add;
    let m1 = step_e(code, m).unwrap();
    let m2 = step_e(code, m1).unwrap();
    let m3 = step_e(code, m2).unwrap();
    assert(steps_e(code, m, 3) == Some(m3));
    let va = int_of(m.sl[a as int]);
    assert(m.sl[a as int] is I);
    assert(slot_holds(x, pins, a as int, va));
    let vb: i64 = match code[i + 1] {
        Op::Lit(k) => k,
        Op::Load(b) => int_of(m.sl[b as int]),
        _ => 0,
    };
    if let Op::Load(b) = code[i + 1] {
        assert(m.sl[b as int] is I);
        assert(m1.sl == m.sl);
        assert(slot_holds(x, pins, b as int, vb));
    }
    let n = m.st.len();
    assert(m1.st == m.st.push(Val::I(va)));
    assert(m2.st == m1.st.push(Val::I(vb)));
    let r = if add { va.wrapping_add(vb) } else { va.wrapping_sub(vb) };
    assert(m3.st =~= m.st.push(Val::I(r)));
    assert(m3.sl == m.sl);
    let sp = spill_s(t);
    let f = fetch_s(pins, a);
    let tl = tail_s(code[i + 1], add, pins);
    assert(bs == sp + f + tl);
    let p = sp.len() as int;
    let q = p + f.len();
    let x0 = X86 { stk: base + ints(m.st), ..x };
    if t {
        lemma_stk_pop(base, m.st);
        assert(base + ints(m.st) =~= (base + ints(m.st.drop_last())).push(x.rax));
        assert(x86_step(bs, 0, x) == Some((x0, 1int)));
        assert(x86_run(bs, 1, 1, x0) == Some(x0));
        assert(x86_run(bs, 0, 1, x) == Some(x0));
    } else {
        assert(x0 == x);
        assert(x86_run(bs, 0, 0, x) == Some(x0));
    }
    assert(holds_at(bs, p, f)) by {
        assert(bs.subrange(p, p + f.len()) =~= f);
    }
    assert(holds_at(bs, q, tl)) by {
        assert(bs.subrange(q, q + tl.len()) =~= tl);
    }
    assert(slot_holds(x0, pins, a as int, va));
    lemma_fetch(bs, p, pins, a, x0, va);
    let x1 = X86 { rax: va, ..x0 };
    if let Op::Load(b) = code[i + 1] {
        assert(slot_holds(x1, pins, b as int, vb));
    }
    lemma_tail(bs, q, pins, code[i + 1], add, x1, vb);
    let x2 = X86 { rax: r, ..x1 };
    lemma_x86_cat(bs, 0, p, bs.len() as int, x);
    lemma_x86_cat(bs, p, q, bs.len() as int, x0);
    lemma_slots_kept(x, x2, m, m3, pins);
    assert(m3.st.drop_last() =~= m.st);
    assert(all_int(m3.st));
}


/// `k` instructions run from position `i`, wherever they jump: the machine and where it stands.
pub open spec fn x86_steps(bs: Seq<u8>, i: int, x: X86, k: nat) -> Option<(X86, int)>
    decreases k,
{
    if k == 0 {
        Some((x, i))
    } else {
        match x86_step(bs, i, x) {
            Some((x2, j)) => x86_steps(bs, j, x2, (k - 1) as nat),
            None => None,
        }
    }
}

/// Stage F's jumps mean what stage E's do: the bytes of a `Jz` or `Jmp` at `i`, standing in
/// the whole code at `here`, run from a machine that stands for stage E's state, leave one that
/// stands for the state after stage E's step (with the top of the stack in memory), at the label
/// of the target where stage E jumps (a `Jz` on zero, a `Jmp` always) and just after the bytes
/// where it does not. It holds where positions stay below 2^30.
#[verifier::spinoff_prover]
#[verifier::rlimit(100)]
pub proof fn law_stage_f_jump_means_stage_e(code: Seq<Op>, i: int, t: bool, label: Seq<usize>, here: usize, m: EState, x: X86, base: Seq<i64>, pins: Seq<(u32, u8)>, full: Seq<u8>)
    requires
        piece_pre(code, i, t, m, x, base, pins),
        code[i] is Jz || code[i] is Jmp,
        plain_s(code, i, t, pins, label, here, 0) matches Some(Ok(bs)) && holds_at(full, here as int, bs),
        forall|k: int| 0 <= k < label.len() ==> #[trigger] label[k] < 0x4000_0000,
        here < 0x4000_0000,
    ensures
        ({
            let bs = plain_s(code, i, t, pins, label, here, 0)->0->Ok_0;
            let m2 = step_e(code, m).unwrap();
            let tg: u32 = match code[i] {
                Op::Jz(g) => g,
                Op::Jmp(g) => g,
                _ => 0,
            };
            let jumps = code[i] is Jmp || m.st.last() == Val::I(0);
            let steps: nat = if code[i] is Jz { if t { 2nat } else { 3nat } } else { if t { 2nat } else { 1nat } };
            x86_steps(full, here as int, x, steps) matches Some((x2, pc2))
                && stands_for(x2, m2, false, base, pins)
                && pc2 == if jumps { label[tg as int] as int } else { here + bs.len() }
        }),
{
    reveal_with_fuel(x86_steps, 4);
    let bs = plain_s(code, i, t, pins, label, here, 0)->0->Ok_0;
    let m2 = step_e(code, m).unwrap();
    let n = m.st.len();
    let h = here as int;
    lemma_holds_at(full, h, bs);
    match code[i] {
        Op::Jz(tg) => {
            let pre = load_s(t) + seq![0x48u8, 0x85u8, 0xC0u8, 0x0Fu8, 0x84u8];
            let end = h + pre.len() + 4;
            let rel = label[tg as int] as int - end;
            assert((label[tg as int] as i64) as int == label[tg as int] as int);
            assert(bs == pre + le32((rel as i64) as i32));
            let p = (pre.len() - 5) as int;
            let lp = pre.len() as int;
            lemma_holds_sub(full, h, bs, lp, lp + 4);
            assert(bs.subrange(lp, lp + 4) =~= le32((rel as i64) as i32));
            lemma_holds_at(full, h + pre.len(), le32((rel as i64) as i32));
            lemma_rd32(full, h + pre.len(), (rel as i64) as i32);
            lemma_stk_pop(base, m.st);
            let top = int_of(m.st[n - 1]);
            assert(m.st[n - 1] is I);
            let x0 = X86 { rax: top, stk: base + ints(m.st.drop_last()), ..x };
            assert(m2.st =~= m.st.drop_last());
            if !t {
                assert(full[h] == bs[0]);
                assert(x86_step(full, h, x) == Some((x0, h + 1)));
            } else {
                assert(x0 == x);
            }
            assert(full[h + p] == 0x48u8 && full[h + p + 1] == 0x85u8 && full[h + p + 2] == 0xC0u8) by {
                assert(bs[p] == 0x48u8 && bs[p + 1] == 0x85u8 && bs[p + 2] == 0xC0u8);
            }
            assert(full[h + p + 3] == 0x0Fu8 && full[h + p + 4] == 0x84u8) by {
                assert(bs[p + 3] == 0x0Fu8 && bs[p + 4] == 0x84u8);
            }
            let x1 = X86 { zf: top == 0, ..x0 };
            assert(x86_step(full, h + p, x0) == Some((x1, h + p + 3)));
            assert((m.st.last() == Val::I(0)) == (top == 0));
            assert(x86_step(full, h + p + 3, x1) == Some((x1, if top == 0 { label[tg as int] as int } else { h + bs.len() })));
            lemma_slots_kept(x, x1, m, m2, pins);
        },
        _ => {
            let tg = code[i]->Jmp_0;
            let pre = spill_s(t) + seq![0xE9u8];
            let end = h + pre.len() + 4;
            let rel = label[tg as int] as int - end;
            assert((label[tg as int] as i64) as int == label[tg as int] as int);
            assert(bs == pre + le32((rel as i64) as i32));
            let p = (pre.len() - 1) as int;
            let lp = pre.len() as int;
            lemma_holds_sub(full, h, bs, lp, lp + 4);
            assert(bs.subrange(lp, lp + 4) =~= le32((rel as i64) as i32));
            lemma_holds_at(full, h + pre.len(), le32((rel as i64) as i32));
            lemma_rd32(full, h + pre.len(), (rel as i64) as i32);
            let x0 = X86 { stk: base + ints(m.st), ..x };
            assert(m2.st == m.st);
            if t {
                lemma_stk_pop(base, m.st);
                assert(base + ints(m.st) =~= (base + ints(m.st.drop_last())).push(x.rax));
                assert(full[h] == bs[0]);
                assert(x86_step(full, h, x) == Some((x0, h + 1)));
            } else {
                assert(x0 == x);
            }
            assert(full[h + p] == 0xE9u8) by {
                assert(bs[p] == 0xE9u8);
            }
            assert(x86_step(full, h + p, x0) == Some((x0, label[tg as int] as int)));
            lemma_slots_kept(x, x0, m, m2, pins);
        },
    }
}


proof fn lemma_preamble_bytes(pins: Seq<(u32, u8)>, n: int, j: int)
    requires
        0 <= j < n <= pins.len(),
    ensures
        preamble(pins, n).len() == 3 * n,
        preamble(pins, n).subrange(3 * j, 3 * j + 3) == xor_rr_s(pins[j].1),
    decreases n,
{
    lemma_preamble_len3(pins, n);
    lemma_preamble_len3(pins, n - 1);
    if j < n - 1 {
        lemma_preamble_bytes(pins, n - 1, j);
        assert(preamble(pins, n).subrange(3 * j, 3 * j + 3) =~= preamble(pins, n - 1).subrange(3 * j, 3 * j + 3));
    } else {
        assert(preamble(pins, n).subrange(3 * j, 3 * j + 3) =~= xor_rr_s(pins[j].1));
    }
}

proof fn lemma_preamble_len3(pins: Seq<(u32, u8)>, n: int)
    requires
        0 <= n <= pins.len(),
    ensures
        preamble(pins, n).len() == 3 * n,
    decreases n,
{
    if n > 0 {
        lemma_preamble_len3(pins, n - 1);
    }
}

/// Within code `bs` that begins with the preamble, its first `k` instructions clear the first
/// `k` pinned registers and touch nothing else.
#[verifier::spinoff_prover]
#[verifier::rlimit(100)]
proof fn lemma_preamble(bs: Seq<u8>, pins: Seq<(u32, u8)>, k: int, x: X86)
    requires
        0 <= k <= pins.len(),
        bs == preamble(pins, pins.len() as int),
        forall|j: int| 0 <= j < pins.len() ==> (#[trigger] pins[j]).1 == 2 || pins[j].1 == 6 || 8 <= pins[j].1 <= 11,
    ensures
        x86_run(bs, 0, 3 * k, x) matches Some(x2)
            && x2.rax == x.rax && x2.rcx == x.rcx && x2.stk == x.stk && x2.mem == x.mem && x2.zf == x.zf
            && (forall|j: int| 0 <= j < k ==> #[trigger] x2.gp.contains_key(pins[j].1 as int) && x2.gp[pins[j].1 as int] == 0),
    decreases k,
{
    reveal_with_fuel(x86_run, 2);
    if k == 0 {
        assert(x86_run(bs, 0, 0, x) == Some(x));
    } else {
        lemma_preamble(bs, pins, k - 1, x);
        let x1 = x86_run(bs, 0, 3 * (k - 1), x).unwrap();
        let r = pins[k - 1].1;
        let w = xor_rr_s(r);
        lemma_preamble_bytes(pins, pins.len() as int, k - 1);
        let p = 3 * (k - 1);
        assert(bs[p] == w[0] && bs[p + 1] == w[1] && bs[p + 2] == w[2]) by {
            assert(bs.subrange(p, p + 3)[0] == bs[p]);
            assert(bs.subrange(p, p + 3)[1] == bs[p + 1]);
            assert(bs.subrange(p, p + 3)[2] == bs[p + 2]);
        }
        let x2 = setr(x1, r as int, 0);
        assert(x86_step(bs, p, x1) == Some((x2, p + 3)));
        assert(x86_run(bs, p + 3, p + 3, x2) == Some(x2));
        assert(x86_run(bs, p, p + 3, x1) == Some(x2));
        lemma_x86_cat(bs, 0, p, p + 3, x);
        assert forall|j: int| 0 <= j < k implies #[trigger] x2.gp.contains_key(pins[j].1 as int) && x2.gp[pins[j].1 as int] == 0 by {
            if j < k - 1 {
                assert(x1.gp.contains_key(pins[j].1 as int));
            }
        }
    }
}

/// Stage F's preamble clears the registers slots are pinned to, and touches nothing else: run
/// from any machine, it leaves every pinned register zero (as every slot is at the start of a
/// run of stage E) and the rest of the machine as it was.
pub proof fn law_preamble_clears_pins(pins: Seq<(u32, u8)>, x: X86)
    requires
        forall|j: int| 0 <= j < pins.len() ==> (#[trigger] pins[j]).1 == 2 || pins[j].1 == 6 || 8 <= pins[j].1 <= 11,
    ensures
        x86_run(preamble(pins, pins.len() as int), 0, preamble(pins, pins.len() as int).len() as int, x) matches Some(x2)
            && x2.rax == x.rax && x2.rcx == x.rcx && x2.stk == x.stk && x2.mem == x.mem
            && forall|j: int| 0 <= j < pins.len() ==> #[trigger] x2.gp.contains_key(pins[j].1 as int) && x2.gp[pins[j].1 as int] == 0,
{
    lemma_preamble_len3(pins, pins.len() as int);
    lemma_preamble(preamble(pins, pins.len() as int), pins, pins.len() as int, x);
}

} // verus!
