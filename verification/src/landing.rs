use vstd::prelude::*;
use crate::json::{Json, spec_is_p, spec_pcar, spec_pcdr};
use crate::ntag::{ADD, CAR, CDR, CONS, EQ, IF, LET, OAPP, OFN, PAIRP, SETBOX, SUB, WHILE};
use crate::stage_e::{Bind, CompS, Op, arr_len, here_s, lemma_parts, look_s, push_op, slot_s, sp_box, sp_call, sp_eff, sp_let, sp_val, with_code};

verus! {

/// Where a jump goes.
pub open spec fn op_jump(o: Op) -> Option<u32> {
    match o {
        Op::Jz(t) | Op::Jmp(t) => Some(t),
        _ => None,
    }
}

/// Every jump of `code` lands inside it or just past its end.
pub open spec fn lands_inside(code: Seq<Op>) -> bool {
    forall|k: int| 0 <= k < code.len() ==> (#[trigger] op_jump(code[k]) matches Some(t) ==> t <= code.len())
}

/// What a specialising step keeps: the code only grows, and jumps that landed inside still do.
pub open spec fn keeps(s: CompS, s2: CompS) -> bool {
    &&& s2.code.len() >= s.code.len()
    &&& lands_inside(s.code) ==> lands_inside(s2.code)
}

proof fn lemma_here_le(s: CompS)
    ensures
        here_s(s) as int <= s.code.len(),
{
}

proof fn lemma_push(s: CompS, o: Op)
    requires
        op_jump(o) matches Some(t) ==> t <= s.code.len() + 1,
    ensures
        keeps(s, push_op(s, o)),
{
    let c = push_op(s, o).code;
    if lands_inside(s.code) {
        assert forall|k: int| 0 <= k < c.len() implies (#[trigger] op_jump(c[k]) matches Some(t) ==> t <= c.len()) by {
            if k < s.code.len() {
                assert(c[k] == s.code[k]);
            }
        }
    }
}

proof fn lemma_patch(s: CompS, at: int, o: Op)
    requires
        0 <= at < s.code.len(),
        op_jump(o) matches Some(t) ==> t <= s.code.len(),
    ensures
        keeps(s, with_code(s, s.code.update(at, o))),
{
    let c = s.code.update(at, o);
    if lands_inside(s.code) {
        assert forall|k: int| 0 <= k < c.len() implies (#[trigger] op_jump(c[k]) matches Some(t) ==> t <= c.len()) by {
            if k != at {
                assert(c[k] == s.code[k]);
            }
        }
    }
}

proof fn lemma_let(s: CompS, d: u32, arg: Json)
    ensures
        sp_let(s, d, arg) matches Some(Ok((s2, _, _))) ==> keeps(s, s2),
    decreases 8 - d, arg, 2int,
{
    if !(arr_len(arg) < 3 || !(spec_pcar(arg) is Num) || arr_len(spec_pcdr(arg)) < 2) {
        lemma_parts(arg);
        lemma_parts(spec_pcdr(arg));
        let val = spec_pcar(spec_pcdr(arg));
        if !(spec_is_p(val) && !(spec_pcar(val) is Num)) && !(spec_is_p(val) && spec_pcar(val)->Num_0 == OFN) {
            if let Some((s1, sl)) = slot_s(s) {
                if spec_is_p(val) {
                    lemma_parts(val);
                }
                let boxed = spec_is_p(val) && spec_pcar(val)->Num_0 == crate::ntag::NEWBOX;
                let v = if boxed { spec_pcdr(val) } else { val };
                lemma_val(s1, d, v);
                if let Some(Ok(s2)) = sp_val(s1, d, v) {
                    lemma_push(s2, Op::Store(sl));
                }
            }
        }
    }
}

proof fn lemma_call(s: CompS, d: u32, arg: Json)
    ensures
        sp_call(s, d, arg) matches Some(Ok(s2)) ==> keeps(s, s2),
    decreases 8 - d, arg, 2int,
{
    if arr_len(arg) >= 2 {
        lemma_parts(arg);
        let f = spec_pcar(arg);
        if spec_is_p(f) && spec_pcar(f) is Num && spec_pcdr(f) is Num {
            if let Some(Bind::Fn(idx)) = look_s(s.env, spec_pcdr(f)->Num_0) {
                if d < 8 && idx < s.fns.len() && arr_len(arg) >= 3 {
                    let (param, body, elen) = s.fns[idx as int];
                    lemma_val(s, d, spec_pcdr(arg));
                    if let Some(Ok(s1)) = sp_val(s, d, spec_pcdr(arg)) {
                        if let Some((s2, sl)) = slot_s(s1) {
                            if elen <= s2.env.len() {
                                let s4 = CompS {
                                    code: s2.code.push(Op::Store(sl)),
                                    env: s2.env.take(elen as int).push((param, Bind::Slot(sl))),
                                    nslots: s2.nslots,
                                    fns: s2.fns,
                                };
                                lemma_push(s2, Op::Store(sl));
                                assert(keeps(s2, s4));
                                lemma_val(s4, (d + 1) as u32, body);
                            }
                        }
                    }
                }
            }
        }
    }
}

pub proof fn lemma_val(s: CompS, d: u32, n: Json)
    ensures
        sp_val(s, d, n) matches Some(Ok(s2)) ==> keeps(s, s2),
    decreases 8 - d, n, 0int,
{
    if spec_is_p(n) && spec_pcar(n) is Num {
        lemma_parts(n);
        let tag = spec_pcar(n)->Num_0;
        let arg = spec_pcdr(n);
        if tag == ADD || tag == SUB || tag == EQ || tag == CONS {
            if arr_len(arg) >= 3 {
                lemma_parts(arg);
                lemma_val(s, d, spec_pcar(arg));
                if let Some(Ok(s1)) = sp_val(s, d, spec_pcar(arg)) {
                    lemma_val(s1, d, spec_pcdr(arg));
                    if let Some(Ok(s2)) = sp_val(s1, d, spec_pcdr(arg)) {
                        lemma_push(s2, Op::Add);
                        lemma_push(s2, Op::Sub);
                        lemma_push(s2, Op::Eq);
                        lemma_push(s2, Op::Cons);
                    }
                }
            }
        } else if tag == CAR || tag == CDR || tag == PAIRP {
            lemma_val(s, d, arg);
            if let Some(Ok(s1)) = sp_val(s, d, arg) {
                lemma_push(s1, Op::Car);
                lemma_push(s1, Op::Cdr);
                lemma_push(s1, Op::IsPair);
            }
        } else if tag == OAPP {
            lemma_call(s, d, arg);
        } else if tag == LET {
            if arr_len(arg) >= 3 {
                lemma_let(s, d, arg);
                if let Some(Ok((s1, _, _))) = sp_let(s, d, arg) {
                    if arr_len(spec_pcdr(arg)) >= 3 {
                        lemma_parts(arg);
                        lemma_parts(spec_pcdr(arg));
                        lemma_val(s1, d, spec_pcdr(spec_pcdr(arg)));
                    }
                }
            }
        } else if tag == IF {
            if arr_len(arg) >= 3 && arr_len(spec_pcdr(arg)) >= 3 {
                lemma_parts(arg);
                lemma_parts(spec_pcdr(arg));
                lemma_val(s, d, spec_pcar(arg));
                if let Some(Ok(s1)) = sp_val(s, d, spec_pcar(arg)) {
                    let jf = here_s(s1);
                    lemma_here_le(s1);
                    let s1b = push_op(s1, Op::Jz(0));
                    lemma_push(s1, Op::Jz(0));
                    lemma_val(s1b, d, spec_pcar(spec_pcdr(arg)));
                    if let Some(Ok(s2)) = sp_val(s1b, d, spec_pcar(spec_pcdr(arg))) {
                        let je = here_s(s2);
                        lemma_here_le(s2);
                        let s2b = push_op(s2, Op::Jmp(0));
                        lemma_push(s2, Op::Jmp(0));
                        lemma_here_le(s2b);
                        let s2c = with_code(s2b, s2b.code.update(jf as int, Op::Jz(here_s(s2b))));
                        lemma_patch(s2b, jf as int, Op::Jz(here_s(s2b)));
                        lemma_val(s2c, d, spec_pcdr(spec_pcdr(arg)));
                        if let Some(Ok(s3)) = sp_val(s2c, d, spec_pcdr(spec_pcdr(arg))) {
                            lemma_here_le(s3);
                            lemma_patch(s3, je as int, Op::Jmp(here_s(s3)));
                        }
                    }
                }
            }
        } else if tag == crate::ntag::GETBOX {
            if let Some(Ok(x)) = sp_box(s, arg) {
                lemma_push(s, Op::Load(x));
            }
        } else if tag == SETBOX {
            if arr_len(arg) >= 3 {
                lemma_parts(arg);
                if let Some(Ok(x)) = sp_box(s, spec_pcar(arg)) {
                    lemma_val(s, d, spec_pcdr(arg));
                    if let Some(Ok(s1)) = sp_val(s, d, spec_pcdr(arg)) {
                        lemma_push(s1, Op::Dup);
                        lemma_push(push_op(s1, Op::Dup), Op::Store(x));
                    }
                }
            }
        } else if tag == WHILE {
            if let Some((s0, it)) = slot_s(s) {
                if arr_len(arg) >= 3 {
                    lemma_parts(arg);
                    let s1a = push_op(s0, Op::Lit(0));
                    let s1 = push_op(s1a, Op::Store(it));
                    lemma_push(s0, Op::Lit(0));
                    lemma_push(s1a, Op::Store(it));
                    let top = here_s(s1);
                    lemma_here_le(s1);
                    lemma_val(s1, d, spec_pcar(arg));
                    if let Some(Ok(s2)) = sp_val(s1, d, spec_pcar(arg)) {
                        let jf = here_s(s2);
                        lemma_here_le(s2);
                        let s2b = push_op(s2, Op::Jz(0));
                        lemma_push(s2, Op::Jz(0));
                        lemma_eff(s2b, d, spec_pcdr(arg));
                        if let Some(Ok(s3)) = sp_eff(s2b, d, spec_pcdr(arg)) {
                            let a = push_op(s3, Op::Load(it));
                            let b = push_op(a, Op::Lit(1));
                            let c = push_op(b, Op::Add);
                            let e = push_op(c, Op::Store(it));
                            let s4 = push_op(e, Op::Jmp(top));
                            lemma_push(s3, Op::Load(it));
                            lemma_push(a, Op::Lit(1));
                            lemma_push(b, Op::Add);
                            lemma_push(c, Op::Store(it));
                            lemma_push(e, Op::Jmp(top));
                            lemma_here_le(s4);
                            let s5 = with_code(s4, s4.code.update(jf as int, Op::Jz(here_s(s4))));
                            lemma_patch(s4, jf as int, Op::Jz(here_s(s4)));
                            lemma_push(s5, Op::Load(it));
                        }
                    }
                }
            }
        }
    }
}

proof fn lemma_eff(s: CompS, d: u32, n: Json)
    ensures
        sp_eff(s, d, n) matches Some(Ok(s2)) ==> keeps(s, s2),
    decreases 8 - d, n, 1int,
{
    if spec_is_p(n) && spec_pcar(n) is Num {
        lemma_parts(n);
        let tag = spec_pcar(n)->Num_0;
        let arg = spec_pcdr(n);
        if tag == CONS {
            if arr_len(arg) >= 3 {
                lemma_parts(arg);
                lemma_eff(s, d, spec_pcar(arg));
                if let Some(Ok(s1)) = sp_eff(s, d, spec_pcar(arg)) {
                    lemma_eff(s1, d, spec_pcdr(arg));
                }
            }
        } else if tag == LET {
            if arr_len(arg) >= 3 {
                lemma_let(s, d, arg);
                if let Some(Ok((s1, _, _))) = sp_let(s, d, arg) {
                    if arr_len(spec_pcdr(arg)) >= 3 {
                        lemma_parts(arg);
                        lemma_parts(spec_pcdr(arg));
                        lemma_eff(s1, d, spec_pcdr(spec_pcdr(arg)));
                    }
                }
            }
        } else if tag == SETBOX {
            if arr_len(arg) >= 3 {
                lemma_parts(arg);
                if let Some(Ok(x)) = sp_box(s, spec_pcar(arg)) {
                    lemma_val(s, d, spec_pcdr(arg));
                    if let Some(Ok(s1)) = sp_val(s, d, spec_pcdr(arg)) {
                        lemma_push(s1, Op::Store(x));
                    }
                }
            }
        } else {
            lemma_val(s, d, n);
            if let Some(Ok(s1)) = sp_val(s, d, n) {
                lemma_push(s1, Op::Pop);
            }
        }
    }
}

/// The specialiser's jumps land inside the code it lays out: laying out a node, as a value or
/// for its effect, from code whose jumps land inside it, gives code whose jumps land inside it
/// or just past its end. So stage F always finds the label a jump names.
pub proof fn law_stage_e_jumps_land_inside(s: CompS, d: u32, n: Json)
    requires
        lands_inside(s.code),
    ensures
        sp_val(s, d, n) matches Some(Ok(s2)) ==> lands_inside(s2.code),
        sp_eff(s, d, n) matches Some(Ok(s2)) ==> lands_inside(s2.code),
{
    lemma_val(s, d, n);
    lemma_eff(s, d, n);
}

} // verus!
