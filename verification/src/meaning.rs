use vstd::prelude::*;
use crate::arena::{below, lemma_vv_bound, lemma_vv_grow, lemma_vv_prefix, vv, wf_arena, Val};
use crate::floor_b::{is_prefix, lemma_prefix_index, lemma_prefix_refl, lemma_prefix_trans};
use crate::floor_d::stack_below;
use crate::landing::lemma_val as lemma_len_grows;
use crate::json::{Json, spec_is_p, spec_pcar, spec_pcdr};
use crate::ntag::{ADD, CAR, CDR, CONS, EQ, IF, LET, LIT, NEWBOX, NIL, OFN, PAIRP, SUB, VAR};
use crate::stage_e::{Bind, CompS, EState, Op, arr_len, here_s, look_s, pop_env, slot_s, sp_let, with_env, lemma_parts, push_op, with_code, lemma_run_e_unique, lemma_step_e_sound, result_e, run_e_n, run_e_spec, sound_e, sp_val, start_e, step_e};
use crate::value::V;

verus! {

/// The value of a closed object program built from literals, arithmetic, equality, pairs and
/// branches, as the object language defines it: `add`/`sub` wrap on integers, `eq` gives 1 for
/// equal values and 0 otherwise, `car`/`cdr` take a pair's first and second element, `pair?`
/// tests for a pair, `if` takes its first arm for any condition but the integer zero. `None`
/// for any other program, or one that applies an operation to the wrong kind of value.
pub open spec fn obj_val_in(n: Json, env: Seq<(i64, V)>) -> Option<V>
    decreases n,
{
    if !spec_is_p(n) || !(spec_pcar(n) is Num) {
        None
    } else {
        proof {
            lemma_parts(n);
        }
        let tag = spec_pcar(n)->Num_0;
        let arg = spec_pcdr(n);
        if tag == LIT {
            if arg is Num {
                Some(V::I(arg->Num_0))
            } else {
                None
            }
        } else if tag == ADD || tag == SUB || tag == EQ || tag == CONS {
            if arr_len(arg) < 3 {
                None
            } else {
                proof {
                    lemma_parts(arg);
                }
                match (obj_val_in(spec_pcar(arg), env), obj_val_in(spec_pcdr(arg), env)) {
                    (Some(a), Some(b)) => if tag == ADD || tag == SUB {
                        match (a, b) {
                            (V::I(x), V::I(y)) => Some(V::I(if tag == ADD { x.wrapping_add(y) } else { x.wrapping_sub(y) })),
                            _ => None,
                        }
                    } else if tag == EQ {
                        Some(V::I(if a == b { 1 } else { 0 }))
                    } else {
                        Some(V::P(Box::new(a), Box::new(b)))
                    },
                    _ => None,
                }
            }
        } else if tag == NIL {
            Some(V::Nil)
        } else if tag == VAR {
            if arg is Num {
                lookup(env, arg->Num_0)
            } else {
                None
            }
        } else if tag == LET {
            if arr_len(arg) < 3 || !(spec_pcar(arg) is Num) || arr_len(spec_pcdr(arg)) < 3 {
                None
            } else {
                proof {
                    lemma_parts(arg);
                    lemma_parts(spec_pcdr(arg));
                }
                match obj_val_in(spec_pcar(spec_pcdr(arg)), env) {
                    Some(v) => obj_val_in(spec_pcdr(spec_pcdr(arg)), env.push((spec_pcar(arg)->Num_0, v))),
                    None => None,
                }
            }
        } else if tag == IF {
            if arr_len(arg) < 3 || arr_len(spec_pcdr(arg)) < 3 {
                None
            } else {
                proof {
                    lemma_parts(arg);
                    lemma_parts(spec_pcdr(arg));
                }
                match obj_val_in(spec_pcar(arg), env) {
                    Some(c) => if c != V::I(0) {
                        obj_val_in(spec_pcar(spec_pcdr(arg)), env)
                    } else {
                        obj_val_in(spec_pcdr(spec_pcdr(arg)), env)
                    },
                    None => None,
                }
            }
        } else if tag == CAR || tag == CDR || tag == PAIRP {
            match obj_val_in(arg, env) {
                Some(a) => if tag == PAIRP {
                    Some(V::I(if a is P { 1 } else { 0 }))
                } else {
                    match a {
                        V::P(h, t) => Some(if tag == CAR { *h } else { *t }),
                        _ => None,
                    }
                },
                None => None,
            }
        } else {
            None
        }
    }
}

/// The value of a closed program.
pub open spec fn obj_val(n: Json) -> Option<V> {
    obj_val_in(n, Seq::empty())
}

/// The value the last binding of `id` in `env` gives it.
pub open spec fn lookup(env: Seq<(i64, V)>, id: i64) -> Option<V>
    decreases env.len(),
{
    if env.len() == 0 {
        None
    } else if env.last().0 == id {
        Some(env.last().1)
    } else {
        lookup(env.drop_last(), id)
    }
}

/// Whether `n` is built only of literals, arithmetic, equality, pairs, branches, variables and
/// bindings of values, each with its parts.
pub open spec fn frag(n: Json) -> bool
    decreases n,
{
    spec_is_p(n) && spec_pcar(n) is Num && {
        let tag = spec_pcar(n)->Num_0;
        let arg = spec_pcdr(n);
        if tag == LIT {
            arg is Num
        } else if tag == NIL {
            true
        } else if tag == VAR {
            arg is Num
        } else if tag == LET {
            arr_len(arg) >= 3 && spec_pcar(arg) is Num && arr_len(spec_pcdr(arg)) >= 3 && {
                proof {
                    lemma_parts(n);
                    lemma_parts(arg);
                    lemma_parts(spec_pcdr(arg));
                }
                frag(spec_pcar(spec_pcdr(arg))) && frag(spec_pcdr(spec_pcdr(arg)))
            }
        } else if tag == ADD || tag == SUB || tag == EQ || tag == CONS {
            arr_len(arg) >= 3 && {
                proof {
                    lemma_parts(n);
                    lemma_parts(arg);
                }
                frag(spec_pcar(arg)) && frag(spec_pcdr(arg))
            }
        } else if tag == CAR || tag == CDR || tag == PAIRP {
            proof {
                lemma_parts(n);
            }
            frag(arg)
        } else if tag == IF {
            arr_len(arg) >= 3 && arr_len(spec_pcdr(arg)) >= 3 && {
                proof {
                    lemma_parts(n);
                    lemma_parts(arg);
                    lemma_parts(spec_pcdr(arg));
                }
                frag(spec_pcar(arg)) && frag(spec_pcar(spec_pcdr(arg))) && frag(spec_pcdr(spec_pcdr(arg)))
            }
        } else {
            false
        }
    }
}

/// How many pairs evaluating `n` in `env` builds.
pub open spec fn obj_cells_in(n: Json, env: Seq<(i64, V)>) -> nat
    decreases n,
{
    if !spec_is_p(n) || !(spec_pcar(n) is Num) {
        0
    } else {
        proof {
            lemma_parts(n);
        }
        let tag = spec_pcar(n)->Num_0;
        let arg = spec_pcdr(n);
        if (tag == ADD || tag == SUB || tag == EQ || tag == CONS) && arr_len(arg) >= 3 {
            proof {
                lemma_parts(arg);
            }
            obj_cells_in(spec_pcar(arg), env) + obj_cells_in(spec_pcdr(arg), env) + if tag == CONS { 1nat } else { 0nat }
        } else if tag == CAR || tag == CDR || tag == PAIRP {
            obj_cells_in(arg, env)
        } else if tag == IF && arr_len(arg) >= 3 && arr_len(spec_pcdr(arg)) >= 3 {
            proof {
                lemma_parts(arg);
                lemma_parts(spec_pcdr(arg));
            }
            obj_cells_in(spec_pcar(arg), env) + if obj_val_in(spec_pcar(arg), env) != Some(V::I(0)) {
                obj_cells_in(spec_pcar(spec_pcdr(arg)), env)
            } else {
                obj_cells_in(spec_pcdr(spec_pcdr(arg)), env)
            }
        } else if tag == LET && arr_len(arg) >= 3 && spec_pcar(arg) is Num && arr_len(spec_pcdr(arg)) >= 3 {
            proof {
                lemma_parts(arg);
                lemma_parts(spec_pcdr(arg));
            }
            let val = spec_pcar(spec_pcdr(arg));
            obj_cells_in(val, env) + match obj_val_in(val, env) {
                Some(v) => obj_cells_in(spec_pcdr(spec_pcdr(arg)), env.push((spec_pcar(arg)->Num_0, v))),
                None => 0,
            }
        } else {
            0
        }
    }
}

/// How many pairs evaluating a closed program builds.
pub open spec fn obj_cells(n: Json) -> nat {
    obj_cells_in(n, Seq::empty())
}

/// `k` instructions of stage E run from `m`.
pub open spec fn steps_e(code: Seq<Op>, m: EState, k: nat) -> Option<EState>
    decreases k,
{
    if k == 0 {
        Some(m)
    } else {
        match step_e(code, m) {
            Some(m2) => steps_e(code, m2, (k - 1) as nat),
            None => None,
        }
    }
}

proof fn lemma_steps_e_trans(code: Seq<Op>, m: EState, a: nat, b: nat)
    requires
        steps_e(code, m, a) is Some,
    ensures
        steps_e(code, m, a + b) == steps_e(code, steps_e(code, m, a).unwrap(), b),
    decreases a,
{
    if a > 0 {
        lemma_steps_e_trans(code, step_e(code, m).unwrap(), (a - 1) as nat, b);
        assert((a + b - 1) as nat == (a - 1) as nat + b);
    }
}

/// One step, as a run of one.
proof fn lemma_one_e(code: Seq<Op>, m: EState)
    requires
        step_e(code, m) is Some,
    ensures
        steps_e(code, m, 1) == step_e(code, m),
{
    assert(steps_e(code, step_e(code, m).unwrap(), 0) == step_e(code, m));
}

/// What running the code laid out for `n` in `env` from `m` leaves in `m2`: its value pushed,
/// the slots below `ns` kept, and one new cell per pair built.
pub open spec fn e_post(n: Json, env: Seq<(i64, V)>, ns: u32, m: EState, m2: EState, end: int) -> bool {
    &&& m2.pc == end
    &&& m2.st.len() == m.st.len() + 1
    &&& m2.st.drop_last() == m.st
    &&& obj_val_in(n, env) == Some(vv(m2.ar, m2.st.last()))
    &&& m2.sl.len() == m.sl.len()
    &&& forall|x: int| 0 <= x < ns ==> #[trigger] m2.sl[x] == m.sl[x]
    &&& m2.ar.len() == m.ar.len() + obj_cells_in(n, env)
    &&& sound_e(m2)
    &&& is_prefix(m.ar, m2.ar)
}

/// The specialiser's bindings `cenv` stand for the program's bindings `env`: the same names in
/// the same order, each bound to a slot below `ns` that holds its value.
pub open spec fn env_ok(cenv: Seq<(i64, Bind)>, env: Seq<(i64, V)>, sl: Seq<Val>, ar: Seq<(Val, Val)>, ns: u32) -> bool {
    &&& cenv.len() == env.len()
    &&& ns <= sl.len()
    &&& forall|k: int| 0 <= k < cenv.len() ==> #[trigger] cenv[k].0 == env[k].0 && (cenv[k].1 matches Bind::Slot(x)
        && x < ns && vv(ar, sl[x as int]) == env[k].1)
}

proof fn lemma_env_look(cenv: Seq<(i64, Bind)>, env: Seq<(i64, V)>, sl: Seq<Val>, ar: Seq<(Val, Val)>, ns: u32, id: i64)
    requires
        env_ok(cenv, env, sl, ar, ns),
    ensures
        match look_s(cenv, id) {
            Some(Bind::Slot(x)) => x < ns && lookup(env, id) == Some(vv(ar, sl[x as int])),
            None => lookup(env, id) is None,
            _ => false,
        },
    decreases cenv.len(),
{
    if cenv.len() > 0 {
        let k = cenv.len() - 1;
        assert(cenv[k].0 == env[k].0);
        assert(cenv.last() == cenv[k] && env.last() == env[k]);
        if cenv.last().0 != id {
            assert forall|q: int| 0 <= q < cenv.drop_last().len() implies #[trigger] cenv.drop_last()[q].0 == env.drop_last()[q].0
                && (cenv.drop_last()[q].1 matches Bind::Slot(x) && x < ns && vv(ar, sl[x as int]) == env.drop_last()[q].1) by {
                assert(cenv[q].0 == env[q].0);
            }
            lemma_env_look(cenv.drop_last(), env.drop_last(), sl, ar, ns, id);
        }
    }
}

proof fn lemma_env_keep(cenv: Seq<(i64, Bind)>, env: Seq<(i64, V)>, sl: Seq<Val>, ar: Seq<(Val, Val)>, ns: u32, sl2: Seq<Val>, ar2: Seq<(Val, Val)>, ns2: u32)
    requires
        env_ok(cenv, env, sl, ar, ns),
        ns <= ns2 <= sl2.len(),
        sl2.len() == sl.len(),
        forall|x: int| 0 <= x < ns ==> #[trigger] sl2[x] == sl[x],
        wf_arena(ar),
        wf_arena(ar2),
        is_prefix(ar, ar2),
        stack_below(sl, ar.len() as int),
    ensures
        env_ok(cenv, env, sl2, ar2, ns2),
{
    assert forall|k: int| 0 <= k < cenv.len() implies #[trigger] cenv[k].0 == env[k].0 && (cenv[k].1 matches Bind::Slot(x)
        && x < ns2 && vv(ar2, sl2[x as int]) == env[k].1) by {
        assert(cenv[k].0 == env[k].0);
        if let Bind::Slot(x) = cenv[k].1 {
            assert(sl2[x as int] == sl[x as int]);
            assert(below(sl[x as int], ar.len() as int));
            lemma_vv_grow(ar, ar2, sl[x as int]);
        }
    }
}

/// `code` holds what `c` holds from `lo` up to `hi`.
pub open spec fn agrees(code: Seq<Op>, c: Seq<Op>, lo: int, hi: int) -> bool {
    &&& hi <= code.len()
    &&& hi <= c.len()
    &&& forall|k: int| lo <= k < hi ==> #[trigger] code[k] == c[k]
}

proof fn lemma_prefix_push_seq(a: Seq<Op>, x: Op)
    ensures
        is_prefix(a, a.push(x)),
{
    assert(a.push(x).subrange(0, a.len() as int) =~= a);
}

proof fn lemma_prefix_update(a: Seq<Op>, b: Seq<Op>, k: int, x: Op)
    requires
        is_prefix(a, b),
        a.len() <= k < b.len(),
    ensures
        is_prefix(a, b.update(k, x)),
{
    assert(b.update(k, x).subrange(0, a.len() as int) =~= b.subrange(0, a.len() as int));
}

/// A program of the fragment is a pair node neither a closure nor a new box.
proof fn lemma_frag_tag(n: Json)
    requires
        frag(n),
    ensures
        spec_is_p(n) && spec_pcar(n) is Num && spec_pcar(n)->Num_0 != OFN && spec_pcar(n)->Num_0 != NEWBOX,
{
}

/// The specialiser only appends to the code for a program of the fragment (what it patches lies
/// in what it laid out itself), takes no slot back, and leaves the bindings as they were.
proof fn lemma_e_prefix(s: CompS, d: u32, n: Json)
    requires
        frag(n),
        sp_val(s, d, n) is Some,
        sp_val(s, d, n)->0 is Ok,
        sp_val(s, d, n)->0->Ok_0.code.len() <= u32::MAX,
    ensures
        is_prefix(s.code, sp_val(s, d, n)->0->Ok_0.code),
        sp_val(s, d, n)->0->Ok_0.env == s.env,
        sp_val(s, d, n)->0->Ok_0.nslots >= s.nslots,
    decreases n,
{
    lemma_parts(n);
    let tag = spec_pcar(n)->Num_0;
    let arg = spec_pcdr(n);
    let s2 = sp_val(s, d, n)->0->Ok_0;
    if tag == LIT || tag == NIL || tag == VAR {
        assert(s2.code =~= s.code.push(s2.code.last()));
        lemma_prefix_push_seq(s.code, s2.code.last());
    } else if tag == ADD || tag == SUB || tag == EQ || tag == CONS {
        lemma_parts(arg);
        let a = spec_pcar(arg);
        let b = spec_pcdr(arg);
        let sa = sp_val(s, d, a)->0->Ok_0;
        let sb = sp_val(sa, d, b)->0->Ok_0;
        lemma_len_grows(s, d, a);
        lemma_len_grows(sa, d, b);
        assert(s2.code == sb.code.push(s2.code.last()));
        lemma_e_prefix(s, d, a);
        lemma_e_prefix(sa, d, b);
        lemma_prefix_push_seq(sb.code, s2.code.last());
        lemma_prefix_trans(s.code, sa.code, sb.code);
        lemma_prefix_trans(s.code, sb.code, s2.code);
    } else if tag == LET {
        lemma_parts(arg);
        lemma_parts(spec_pcdr(arg));
        let val = spec_pcar(spec_pcdr(arg));
        let body = spec_pcdr(spec_pcdr(arg));
        lemma_parts(val);
        lemma_frag_tag(val);
        assert(sp_let(s, d, arg) matches Some(Ok(_)));
        let (sa, sl) = slot_s(s).unwrap();
        assert(sp_val(sa, d, val) matches Some(Ok(_)));
        let sb = sp_val(sa, d, val)->0->Ok_0;
        let s1 = sp_let(s, d, arg)->0->Ok_0.0;
        assert(s1.code == sb.code.push(Op::Store(sl)));
        let sc = sp_val(s1, d, body)->0->Ok_0;
        lemma_len_grows(sa, d, val);
        lemma_len_grows(s1, d, body);
        assert(s2 == with_env(sc, pop_env(sc.env)));
        lemma_e_prefix(sa, d, val);
        lemma_prefix_push_seq(sb.code, Op::Store(sl));
        lemma_e_prefix(s1, d, body);
        lemma_prefix_trans(s.code, sb.code, s1.code);
        lemma_prefix_trans(s.code, s1.code, sc.code);
        assert(pop_env(sc.env) =~= s.env);
    } else if tag == IF {
        lemma_parts(arg);
        lemma_parts(spec_pcdr(arg));
        let c = spec_pcar(arg);
        let t = spec_pcar(spec_pcdr(arg));
        let f = spec_pcdr(spec_pcdr(arg));
        let s1 = sp_val(s, d, c)->0->Ok_0;
        let jf = here_s(s1);
        let s1b = push_op(s1, Op::Jz(0));
        let s2t = sp_val(s1b, d, t)->0->Ok_0;
        let je = here_s(s2t);
        let s2b = push_op(s2t, Op::Jmp(0));
        let s2c = with_code(s2b, s2b.code.update(jf as int, Op::Jz(here_s(s2b))));
        let s3 = sp_val(s2c, d, f)->0->Ok_0;
        lemma_len_grows(s, d, c);
        lemma_len_grows(s1b, d, t);
        lemma_len_grows(s2c, d, f);
        assert(s2 == with_code(s3, s3.code.update(je as int, Op::Jmp(here_s(s3)))));
        lemma_e_prefix(s, d, c);
        lemma_prefix_push_seq(s1.code, Op::Jz(0));
        lemma_e_prefix(s1b, d, t);
        lemma_prefix_push_seq(s2t.code, Op::Jmp(0));
        lemma_e_prefix(s2c, d, f);
        lemma_prefix_trans(s.code, s1.code, s1b.code);
        lemma_prefix_trans(s.code, s1b.code, s2t.code);
        lemma_prefix_trans(s.code, s2t.code, s2b.code);
        lemma_prefix_update(s.code, s2b.code, jf as int, Op::Jz(here_s(s2b)));
        lemma_prefix_trans(s.code, s2c.code, s3.code);
        lemma_prefix_update(s.code, s3.code, je as int, Op::Jmp(here_s(s3)));
    } else {
        let sa = sp_val(s, d, arg)->0->Ok_0;
        lemma_len_grows(s, d, arg);
        assert(s2.code == sa.code.push(s2.code.last()));
        lemma_e_prefix(s, d, arg);
        lemma_prefix_push_seq(sa.code, s2.code.last());
        lemma_prefix_trans(s.code, sa.code, s2.code);
    }
}

/// The code the specialiser lays out for a program of the fragment, run on stage E's machine
/// where the code holds what was laid out and the slots hold the bindings, pushes the program's
/// value.
#[verifier::spinoff_prover]
#[verifier::rlimit(100)]
proof fn lemma_e_val(s: CompS, d: u32, n: Json, env: Seq<(i64, V)>, code: Seq<Op>, m: EState) -> (k: nat)
    requires
        frag(n),
        obj_val_in(n, env) is Some,
        sp_val(s, d, n) is Some,
        sp_val(s, d, n)->0 is Ok,
        sp_val(s, d, n)->0->Ok_0.code.len() <= u32::MAX,
        sp_val(s, d, n)->0->Ok_0.nslots <= m.sl.len(),
        agrees(code, sp_val(s, d, n)->0->Ok_0.code, s.code.len() as int, sp_val(s, d, n)->0->Ok_0.code.len() as int),
        m.pc == s.code.len(),
        sound_e(m),
        env_ok(s.env, env, m.sl, m.ar, s.nslots),
        m.ar.len() + obj_cells_in(n, env) < 0xffff_ffff,
    ensures
        steps_e(code, m, k) is Some,
        e_post(n, env, s.nslots, m, steps_e(code, m, k).unwrap(), sp_val(s, d, n)->0->Ok_0.code.len() as int),
    decreases n,
{
    lemma_parts(n);
    let tag = spec_pcar(n)->Num_0;
    let arg = spec_pcdr(n);
    let s2 = sp_val(s, d, n)->0->Ok_0;
    lemma_prefix_refl(m.ar);
    lemma_e_prefix(s, d, n);
    if tag == LIT || tag == NIL || tag == VAR {
        if tag == VAR {
            lemma_env_look(s.env, env, m.sl, m.ar, s.nslots, arg->Num_0);
        }
        assert(code[m.pc] == s2.code[m.pc]);
        let m2 = step_e(code, m).unwrap();
        lemma_one_e(code, m);
        lemma_step_e_sound(code, m);
        assert(m2.st.drop_last() =~= m.st);
        1
    } else if tag == ADD || tag == SUB || tag == EQ || tag == CONS {
        lemma_parts(arg);
        let a = spec_pcar(arg);
        let b = spec_pcdr(arg);
        let sa = sp_val(s, d, a)->0->Ok_0;
        let sb = sp_val(sa, d, b)->0->Ok_0;
        lemma_len_grows(s, d, a);
        lemma_len_grows(sa, d, b);
        assert(s2.code == sb.code.push(s2.code.last()));
        assert(s2.nslots == sb.nslots);
        lemma_e_prefix(s, d, a);
        lemma_e_prefix(sa, d, b);
        lemma_prefix_push_seq(sb.code, s2.code.last());
        lemma_prefix_trans(sa.code, sb.code, s2.code);
        assert forall|q: int| s.code.len() <= q < sa.code.len() implies #[trigger] code[q] == sa.code[q] by {
            lemma_prefix_index(sa.code, s2.code, q);
        }
        assert forall|q: int| sa.code.len() <= q < sb.code.len() implies #[trigger] code[q] == sb.code[q] by {
            lemma_prefix_index(sb.code, s2.code, q);
        }
        let k1 = lemma_e_val(s, d, a, env, code, m);
        let m1 = steps_e(code, m, k1).unwrap();
        lemma_env_keep(sa.env, env, m.sl, m.ar, s.nslots, m1.sl, m1.ar, sa.nslots);
        let k2 = lemma_e_val(sa, d, b, env, code, m1);
        let m2 = steps_e(code, m1, k2).unwrap();
        lemma_prefix_trans(m.ar, m1.ar, m2.ar);
        let x = m2.st[m2.st.len() - 2];
        let y = m2.st.last();
        assert(m2.st.drop_last() == m1.st);
        assert(x == m1.st.last());
        assert(below(x, m1.ar.len() as int));
        lemma_vv_grow(m1.ar, m2.ar, x);
        assert(code[sb.code.len() as int] == s2.code[sb.code.len() as int]);
        let m3 = step_e(code, m2).unwrap();
        lemma_step_e_sound(code, m2);
        lemma_one_e(code, m2);
        lemma_steps_e_trans(code, m, k1, k2);
        lemma_steps_e_trans(code, m, k1 + k2, 1);
        lemma_prefix_trans(m.ar, m2.ar, m3.ar);
        assert(m3.st.drop_last() =~= m.st);
        if tag == CONS {
            let l = m2.ar.len() as int;
            assert(below(y, l));
            lemma_vv_prefix(m2.ar, m3.ar, x, l);
            lemma_vv_prefix(m2.ar, m3.ar, y, l);
            assert(m3.ar[l] == (x, y));
        }
        k1 + k2 + 1
    } else if tag == LET {
        lemma_parts(arg);
        lemma_parts(spec_pcdr(arg));
        let id = spec_pcar(arg)->Num_0;
        let val = spec_pcar(spec_pcdr(arg));
        let body = spec_pcdr(spec_pcdr(arg));
        lemma_parts(val);
        lemma_frag_tag(val);
        assert(sp_let(s, d, arg) matches Some(Ok(_)));
        let (sa, sl) = slot_s(s).unwrap();
        assert(sp_val(sa, d, val) matches Some(Ok(_)));
        let sb = sp_val(sa, d, val)->0->Ok_0;
        let s1 = sp_let(s, d, arg)->0->Ok_0.0;
        assert(s1.code == sb.code.push(Op::Store(sl)));
        assert(s1.env == sb.env.push((id, Bind::Slot(sl))));
        assert(s1.nslots == sb.nslots);
        let sc = sp_val(s1, d, body)->0->Ok_0;
        lemma_len_grows(sa, d, val);
        lemma_len_grows(s1, d, body);
        assert(s2 == with_env(sc, pop_env(sc.env)));
        lemma_e_prefix(sa, d, val);
        lemma_e_prefix(s1, d, body);
        lemma_prefix_push_seq(sb.code, Op::Store(sl));
        lemma_prefix_trans(sb.code, s1.code, sc.code);
        assert forall|q: int| s.code.len() <= q < sb.code.len() implies #[trigger] code[q] == sb.code[q] by {
            lemma_prefix_index(sb.code, sc.code, q);
        }
        assert forall|q: int| s1.code.len() <= q < sc.code.len() implies #[trigger] code[q] == sc.code[q] by {
        }
        assert(code[sb.code.len() as int] == Op::Store(sl)) by {
            lemma_prefix_index(s1.code, sc.code, sb.code.len() as int);
        }
        let v = obj_val_in(val, env).unwrap();
        let env1 = env.push((id, v));
        // the value
        lemma_env_keep(s.env, env, m.sl, m.ar, s.nslots, m.sl, m.ar, sa.nslots);
        let k1 = lemma_e_val(sa, d, val, env, code, m);
        let m1 = steps_e(code, m, k1).unwrap();
        // stored in the fresh slot
        let m1b = step_e(code, m1).unwrap();
        lemma_step_e_sound(code, m1);
        lemma_one_e(code, m1);
        lemma_steps_e_trans(code, m, k1, 1);
        assert(m1b.st =~= m.st);
        assert(m1b.sl == m1.sl.update(sl as int, m1.st.last()));
        assert(m1b.ar == m1.ar);
        // the bindings, with the new one
        lemma_env_keep(s.env, env, m.sl, m.ar, s.nslots, m1b.sl, m1b.ar, s1.nslots);
        assert forall|q: int| 0 <= q < s1.env.len() implies #[trigger] s1.env[q].0 == env1[q].0 && (s1.env[q].1 matches Bind::Slot(x)
            && x < s1.nslots && vv(m1b.ar, m1b.sl[x as int]) == env1[q].1) by {
            if q < s.env.len() {
                assert(s1.env[q] == s.env[q]);
                assert(env1[q] == env[q]);
            }
        }
        assert(env_ok(s1.env, env1, m1b.sl, m1b.ar, s1.nslots));
        // the body
        let k2 = lemma_e_val(s1, d, body, env1, code, m1b);
        let m2 = steps_e(code, m1b, k2).unwrap();
        lemma_steps_e_trans(code, m, k1 + 1, k2);
        lemma_prefix_trans(m.ar, m1.ar, m2.ar);
        assert forall|x: int| 0 <= x < s.nslots implies #[trigger] m2.sl[x] == m.sl[x] by {
            assert(m1.sl[x] == m.sl[x]);
            assert(m1b.sl[x] == m1.sl[x]);
        }
        k1 + 1 + k2
    } else if tag == IF {
        lemma_parts(arg);
        lemma_parts(spec_pcdr(arg));
        let c = spec_pcar(arg);
        let t = spec_pcar(spec_pcdr(arg));
        let f = spec_pcdr(spec_pcdr(arg));
        let s1 = sp_val(s, d, c)->0->Ok_0;
        let jf = here_s(s1);
        let s1b = push_op(s1, Op::Jz(0));
        let s2t = sp_val(s1b, d, t)->0->Ok_0;
        let je = here_s(s2t);
        let s2b = push_op(s2t, Op::Jmp(0));
        let s2c = with_code(s2b, s2b.code.update(jf as int, Op::Jz(here_s(s2b))));
        let s3 = sp_val(s2c, d, f)->0->Ok_0;
        lemma_len_grows(s, d, c);
        lemma_len_grows(s1b, d, t);
        lemma_len_grows(s2c, d, f);
        assert(s2 == with_code(s3, s3.code.update(je as int, Op::Jmp(here_s(s3)))));
        lemma_e_prefix(s, d, c);
        lemma_e_prefix(s1b, d, t);
        lemma_e_prefix(s2c, d, f);
        lemma_prefix_push_seq(s1.code, Op::Jz(0));
        lemma_prefix_push_seq(s2t.code, Op::Jmp(0));
        lemma_prefix_trans(s1.code, s1b.code, s2t.code);
        lemma_prefix_trans(s1.code, s2t.code, s2b.code);
        let lc = s1.code.len() as int;
        let lt = s2t.code.len() as int;
        let lf = s3.code.len() as int;
        assert(jf as int == lc && je as int == lt);
        assert forall|q: int| s.code.len() <= q < lc implies #[trigger] code[q] == s1.code[q] by {
            lemma_prefix_index(s2c.code, s3.code, q);
            lemma_prefix_index(s1.code, s2b.code, q);
        }
        assert forall|q: int| lc + 1 <= q < lt implies #[trigger] code[q] == s2t.code[q] by {
            lemma_prefix_index(s2c.code, s3.code, q);
            lemma_prefix_index(s2t.code, s2b.code, q);
        }
        assert forall|q: int| lt + 1 <= q < lf implies #[trigger] code[q] == s3.code[q] by {
        }
        assert(code[lc] == Op::Jz((lt + 1) as u32)) by {
            lemma_prefix_index(s2c.code, s3.code, lc);
        }
        assert(code[lt] == Op::Jmp(lf as u32));
        let k1 = lemma_e_val(s, d, c, env, code, m);
        let m1 = steps_e(code, m, k1).unwrap();
        let cv = m1.st.last();
        assert(below(cv, m1.ar.len() as int));
        let m2 = step_e(code, m1).unwrap();
        lemma_step_e_sound(code, m1);
        lemma_one_e(code, m1);
        lemma_steps_e_trans(code, m, k1, 1);
        assert(m2.st =~= m.st);
        assert((cv == Val::I(0)) == (vv(m1.ar, cv) == V::I(0)));
        lemma_env_keep(s.env, env, m.sl, m.ar, s.nslots, m2.sl, m2.ar, s1.nslots);
        if cv != Val::I(0) {
            assert(m2.pc == lc + 1);
            let k2 = lemma_e_val(s1b, d, t, env, code, m2);
            let m3 = steps_e(code, m2, k2).unwrap();
            let m4 = step_e(code, m3).unwrap();
            lemma_step_e_sound(code, m3);
            lemma_one_e(code, m3);
            lemma_steps_e_trans(code, m, k1 + 1, k2);
            lemma_steps_e_trans(code, m, k1 + 1 + k2, 1);
            lemma_prefix_trans(m.ar, m1.ar, m3.ar);
            assert(m4.pc == lf);
            assert forall|x: int| 0 <= x < s.nslots implies #[trigger] m4.sl[x] == m.sl[x] by {
                assert(m1.sl[x] == m.sl[x]);
            }
            k1 + 1 + k2 + 1
        } else {
            assert(m2.pc == lt + 1);
            lemma_env_keep(s.env, env, m.sl, m.ar, s.nslots, m2.sl, m2.ar, s2c.nslots);
            let k2 = lemma_e_val(s2c, d, f, env, code, m2);
            lemma_steps_e_trans(code, m, k1 + 1, k2);
            lemma_prefix_trans(m.ar, m1.ar, steps_e(code, m2, k2).unwrap().ar);
            assert forall|x: int| 0 <= x < s.nslots implies #[trigger] steps_e(code, m2, k2).unwrap().sl[x] == m.sl[x] by {
                assert(m1.sl[x] == m.sl[x]);
            }
            k1 + 1 + k2
        }
    } else {
        let sa = sp_val(s, d, arg)->0->Ok_0;
        lemma_len_grows(s, d, arg);
        assert(s2.code == sa.code.push(s2.code.last()));
        lemma_e_prefix(s, d, arg);
        lemma_prefix_push_seq(sa.code, s2.code.last());
        assert forall|q: int| s.code.len() <= q < sa.code.len() implies #[trigger] code[q] == sa.code[q] by {
            lemma_prefix_index(sa.code, s2.code, q);
        }
        let k1 = lemma_e_val(s, d, arg, env, code, m);
        let m1 = steps_e(code, m, k1).unwrap();
        assert(code[sa.code.len() as int] == s2.code[sa.code.len() as int]);
        let x = m1.st.last();
        assert(below(x, m1.ar.len() as int));
        let m3 = step_e(code, m1).unwrap();
        lemma_step_e_sound(code, m1);
        lemma_one_e(code, m1);
        lemma_steps_e_trans(code, m, k1, 1);
        lemma_prefix_trans(m.ar, m1.ar, m3.ar);
        assert(m3.st.drop_last() =~= m.st);
        if let Val::P(cc) = x {
            let ar = m1.ar;
            assert(below(ar[cc as int].0, cc as int));
            assert(below(ar[cc as int].1, cc as int));
            lemma_vv_bound(ar, ar[cc as int].0, cc as int, ar.len() as int);
            lemma_vv_bound(ar, ar[cc as int].1, cc as int, ar.len() as int);
        }
        k1 + 1
    }
}

/// Running stage E's machine `k` steps from the start of `code` to its end is a finished run.
proof fn lemma_run_e_from_steps(code: Seq<Op>, m: EState, k: nat)
    requires
        steps_e(code, m, k) matches Some(f) && f.pc == code.len(),
    ensures
        run_e_n(code, m, k) == Some((steps_e(code, m, k).unwrap(), k)),
    decreases k,
{
    if k > 0 {
        let m2 = step_e(code, m).unwrap();
        lemma_run_e_from_steps(code, m2, (k - 1) as nat);
    }
}

/// Stage E computes what the object program means: specialising a closed program of literals,
/// arithmetic, equality, pairs, branches, variables and bindings of values from a fresh
/// specialiser, and running the code on stage E's
/// machine with any well-formed arena that has room for its pairs, stops with the program's
/// value on top of the stack. So `cdr` takes a pair's second element, `eq` gives 1 exactly
/// for equal values, a branch takes the arm its condition picks, and a variable gives the value
/// of its nearest binding. It holds where the code
/// fits the 32-bit jump targets.
pub proof fn law_stage_e_computes(n: Json, s2: CompS, ar: Seq<(Val, Val)>)
    requires
        frag(n),
        obj_val(n) is Some,
        s2.code.len() <= u32::MAX,
        sp_val(CompS { code: Seq::empty(), env: Seq::empty(), nslots: 0, fns: Seq::empty() }, 0, n) == Some(Ok::<CompS, crate::stage_e::CompileError>(s2)),
        wf_arena(ar),
        ar.len() + obj_cells(n) < 0xffff_ffff,
    ensures
        run_e_spec(s2.code, s2.nslots, ar) matches Some((f, _)) && obj_val(n) == Some(vv(f.ar, result_e(f))),
{
    let s0 = CompS { code: Seq::empty(), env: Seq::empty(), nslots: 0, fns: Seq::empty() };
    let m = start_e(s2.nslots, ar);
    assert(sound_e(m));
    assert(agrees(s2.code, s2.code, 0, s2.code.len() as int));
    assert(env_ok(s0.env, Seq::<(i64, V)>::empty(), m.sl, m.ar, 0));
    let k = lemma_e_val(s0, 0, n, Seq::empty(), s2.code, m);
    let f = steps_e(s2.code, m, k).unwrap();
    lemma_run_e_from_steps(s2.code, m, k);
    let c = choose|c: nat| #[trigger] run_e_n(s2.code, m, c) is Some;
    lemma_run_e_unique(s2.code, m, k, c);
    assert(f.st.len() > 0);
}

} // verus!
