use vstd::prelude::*;
use crate::json::Json;
use crate::landing::{law_stage_e_jumps_land_inside, op_jump};
use crate::stage_e::{CompS, Op, sp_val};
use crate::stage_f::{fuse_from, fuse_plan, fusable, jit_s, one_s, op_target, pass_from, pins_ok, preamble, target_marks, leaves_top, spill_s};

verus! {

/// The most instructions whose layout this module bounds.
pub open spec fn max_code() -> nat {
    0x10_0000
}

/// A bound on every position the layout reaches.
pub open spec fn max_pos() -> nat {
    0x1000_0000
}

/// Every jump of `code` goes at most one past its last instruction.
pub open spec fn targets_ok(code: Seq<Op>) -> bool {
    forall|k: int| 0 <= k < code.len() ==> (#[trigger] op_target(code[k]) matches Some(t) ==> t <= code.len())
}

/// A fusion plan in which every fused three lies inside the code.
pub open spec fn plan_ok(code: Seq<Op>, fuse: Seq<u8>) -> bool {
    &&& fuse.len() == code.len()
    &&& forall|k: int| 0 <= k < fuse.len() && #[trigger] fuse[k] == 1 ==> k + 2 < code.len()
}

proof fn lemma_fuse_from(code: Seq<Op>, marks: Seq<bool>, i: int, fuse: Seq<u8>)
    requires
        plan_ok(code, fuse),
    ensures
        plan_ok(code, fuse_from(code, marks, i, fuse)),
    decreases code.len() - i,
{
    if 0 <= i < code.len() {
        if fusable(code, marks, i) {
            let f2 = fuse.update(i, 1).update(i + 1, 2).update(i + 2, 2);
            assert forall|k: int| 0 <= k < f2.len() && #[trigger] f2[k] == 1 implies k + 2 < code.len() by {
                if k != i && k != i + 1 && k != i + 2 {
                    assert(f2[k] == fuse[k]);
                }
            }
            lemma_fuse_from(code, marks, i + 3, f2);
        } else {
            lemma_fuse_from(code, marks, i + 1, fuse);
        }
    }
}

proof fn lemma_preamble_len(pins: Seq<(u32, u8)>, k: int)
    ensures
        preamble(pins, k).len() == if k <= 0 || k > pins.len() { 0 } else { 3 * k },
    decreases k,
{
    if k > 0 && k <= pins.len() {
        lemma_preamble_len(pins, k - 1);
    }
}

/// Where the code and its plan are sound and the positions small, one instruction's layout
/// exists and takes at most sixteen bytes.
proof fn lemma_piece(code: Seq<Op>, i: int, t: bool, pins: Seq<(u32, u8)>, fuse: Seq<u8>, label: Seq<usize>, here: usize)
    requires
        0 <= i < code.len(),
        plan_ok(code, fuse),
        targets_ok(code),
        label.len() == code.len() + 1,
        forall|k: int| 0 <= k < label.len() ==> #[trigger] label[k] <= max_pos(),
        here <= max_pos() - 64,
    ensures
        one_s(code, i, t, pins, fuse, label, here, 0) is Some,
        one_s(code, i, t, pins, fuse, label, here, 0) matches Some(Ok(p)) ==> p.len() <= 16,
{
    if fuse[i] != 2 && fuse[i] != 1 {
        if let Some(tg) = op_target(code[i]) {
            assert(tg <= code.len());
            assert(label[tg] <= max_pos());
        }
    }
}

/// A layout pass from `i` exists, reaching positions below the bound, and keeps the labels below
/// it.
proof fn lemma_pass_some(code: Seq<Op>, pins: Seq<(u32, u8)>, fuse: Seq<u8>, marks: Seq<bool>, i: int, out: Seq<u8>, tos: bool, label: Seq<usize>)
    requires
        0 <= i <= code.len(),
        code.len() <= max_code(),
        plan_ok(code, fuse),
        targets_ok(code),
        marks.len() == code.len() + 1,
        label.len() == code.len() + 1,
        forall|k: int| 0 <= k < label.len() ==> #[trigger] label[k] <= max_pos(),
        out.len() <= 18 + 17 * i,
    ensures
        pass_from(code, pins, fuse, marks, i, out, tos, label) is Some,
        pass_from(code, pins, fuse, marks, i, out, tos, label) matches Some(Ok((o, l))) ==> l.len() == label.len()
            && forall|k: int| 0 <= k < l.len() ==> #[trigger] l[k] <= max_pos(),
    decreases code.len() - i,
{
    let n = code.len() as int;
    let spill = tos && marks[i];
    let out1 = out + spill_s(spill);
    assert(out1.len() <= 19 + 17 * i);
    assert(17 * i <= 17 * n);
    if i >= n {
        let l = label.update(n, out1.len() as usize);
        assert forall|k: int| 0 <= k < l.len() implies #[trigger] l[k] <= max_pos() by {
            if k != n {
                assert(l[k] == label[k]);
            }
        }
    } else {
        let tos1 = tos && !spill;
        let label1 = label.update(i, out1.len() as usize);
        assert forall|k: int| 0 <= k < label1.len() implies #[trigger] label1[k] <= max_pos() by {
            if k != i {
                assert(label1[k] == label[k]);
            }
        }
        lemma_piece(code, i, tos1, pins, fuse, label1, out1.len() as usize);
        if let Some(Ok(piece)) = one_s(code, i, tos1, pins, fuse, label1, out1.len() as usize, 0) {
            let next = if fuse[i] == 1 {
                true
            } else if fuse[i] == 2 {
                tos1
            } else {
                leaves_top(code[i])
            };
            lemma_pass_some(code, pins, fuse, marks, i + 1, out1 + piece, next, label1);
        }
    }
}

/// Stage F lays out every code whose jumps stay inside it, up to `max_code` instructions, with
/// every pinning: it either gives machine code or refuses an instruction that needs pairs.
pub proof fn law_jit_lays_out(code: Seq<Op>, pins: Seq<(u32, u8)>)
    requires
        code.len() <= max_code(),
        targets_ok(code),
        pins_ok(code, pins),
    ensures
        jit_s(code, pins) is Some,
{
    let marks = target_marks(code);
    let fuse = fuse_plan(code);
    let pre = preamble(pins, pins.len() as int);
    let zero = Seq::new((code.len() + 1) as nat, |i: int| 0usize);
    lemma_fuse_from(code, marks, 0, Seq::new(code.len(), |i: int| 0u8));
    lemma_preamble_len(pins, pins.len() as int);
    lemma_pass_some(code, pins, fuse, marks, 0, pre, false, zero);
    if let Some(Ok((_, label))) = pass_from(code, pins, fuse, marks, 0, pre, false, zero) {
        lemma_pass_some(code, pins, fuse, marks, 0, pre, false, label);
    }
}

/// Stage F lays out whatever the specialiser lays out from nothing, up to `max_code`
/// instructions: the code's jumps land inside it, so every pinning gives a layout.
pub proof fn law_stage_f_takes_stage_e(n: Json, s: CompS)
    requires
        sp_val(CompS { code: Seq::empty(), env: Seq::empty(), nslots: 0, fns: Seq::empty() }, 0, n) == Some(Ok::<CompS, crate::stage_e::CompileError>(s)),
        s.code.len() <= max_code(),
    ensures
        forall|p: Seq<(u32, u8)>| pins_ok(s.code, p) ==> #[trigger] jit_s(s.code, p) is Some,
{
    let s0 = CompS { code: Seq::empty(), env: Seq::empty(), nslots: 0, fns: Seq::empty() };
    law_stage_e_jumps_land_inside(s0, 0, n);
    assert forall|k: int| 0 <= k < s.code.len() implies (#[trigger] op_target(s.code[k]) matches Some(t) ==> t <= s.code.len()) by {
        assert(op_jump(s.code[k]) matches Some(t) ==> t <= s.code.len());
    }
    assert forall|p: Seq<(u32, u8)>| pins_ok(s.code, p) implies #[trigger] jit_s(s.code, p) is Some by {
        law_jit_lays_out(s.code, p);
    }
}

} // verus!
