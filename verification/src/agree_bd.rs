use vstd::prelude::*;
use crate::arena::{below, lemma_vv_bound, lemma_vv_grow, lemma_vv_prefix, regs_below, regs_view, vv, wf_arena, Val};
use crate::floor_b::{N, StB, ev_b_spec, ex_b_spec, ex_list_b, is_prefix, lemma_ex_b_fuel, lemma_prefix_refl, lemma_prefix_trans, run_b_spec};
use crate::floor_c::{cells_ev, cells_ex, cells_list, cells_run, lemma_regs_view_grow};
use crate::floor_d::{DState, Ins, expr_code, expr_ok, halted, lemma_run_n_unique, lemma_step_sound, list_code, list_ok, reg_val, restart, run_d_spec, run_n, sound_d, start_d, step_d, stmt_code, stmt_ok};

verus! {

/// `k` instructions run from `m`, with no new round begun.
pub open spec fn steps(code: Seq<Ins>, m: DState, k: nat) -> Option<DState>
    decreases k,
{
    if k == 0 {
        Some(m)
    } else {
        match step_d(code, m) {
            Some(m2) => steps(code, m2, (k - 1) as nat),
            None => None,
        }
    }
}

/// `seg` stands in `code` from position `p` on.
pub open spec fn placed(code: Seq<Ins>, p: int, seg: Seq<Ins>) -> bool {
    &&& 0 <= p
    &&& p + seg.len() <= code.len()
    &&& forall|j: int| 0 <= j < seg.len() ==> code[p + j] == #[trigger] seg[j]
}

proof fn lemma_placed_sub(code: Seq<Ins>, p: int, seg: Seq<Ins>, a: int, b: int)
    requires
        placed(code, p, seg),
        0 <= a <= b <= seg.len(),
    ensures
        placed(code, p + a, seg.subrange(a, b)),
{
    assert forall|j: int| 0 <= j < b - a implies code[p + a + j] == #[trigger] seg.subrange(a, b)[j] by {
        assert(seg[a + j] == seg.subrange(a, b)[j]);
    }
}

pub proof fn lemma_steps_trans(code: Seq<Ins>, m: DState, a: nat, b: nat)
    requires
        steps(code, m, a) is Some,
    ensures
        steps(code, m, a + b) == steps(code, steps(code, m, a).unwrap(), b),
    decreases a,
{
    if a > 0 {
        lemma_steps_trans(code, step_d(code, m).unwrap(), (a - 1) as nat, b);
        assert((a + b - 1) as nat == (a - 1) as nat + b);
    }
}

/// Steps keep the machine sound, only add cells, and keep the number of registers.
proof fn lemma_steps_sound(code: Seq<Ins>, m: DState, k: nat)
    requires
        sound_d(m),
        steps(code, m, k) is Some,
    ensures
        sound_d(steps(code, m, k).unwrap()),
        is_prefix(m.ar, steps(code, m, k).unwrap().ar),
        steps(code, m, k).unwrap().regs.len() == m.regs.len(),
    decreases k,
{
    if k == 0 {
        lemma_prefix_refl(m.ar);
    } else {
        let m2 = step_d(code, m).unwrap();
        lemma_step_sound(code, m);
        lemma_steps_sound(code, m2, (k - 1) as nat);
        lemma_prefix_trans(m.ar, m2.ar, steps(code, m, k).unwrap().ar);
    }
}

/// A run that begins with `k` plain steps.
pub proof fn lemma_run_n_steps(code: Seq<Ins>, m: DState, k: nat, n: nat)
    requires
        steps(code, m, k) is Some,
        run_n(code, steps(code, m, k).unwrap(), n) is Some,
    ensures
        run_n(code, m, k + n) == (match run_n(code, steps(code, m, k).unwrap(), n) {
            Some((f, i, r)) => Some((f, i + k, r)),
            None => None,
        }),
    decreases k,
{
    if k > 0 {
        let m2 = step_d(code, m).unwrap();
        lemma_run_n_steps(code, m2, (k - 1) as nat, n);
        assert(!halted(code, m));
        assert((k + n - 1) as nat == (k - 1) as nat + n);
    }
}

/// What running the code of an expression from `m` leaves in `m2`: the value pushed, all else
/// kept but the cells that building pairs added.
pub open spec fn ev_post(ns: Seq<N>, i: int, m: DState, m2: DState) -> bool {
    &&& m2.pc == m.pc + expr_code(ns, i).len()
    &&& m2.st.len() == m.st.len() + 1
    &&& m2.st.drop_last() == m.st
    &&& ev_b_spec(ns, i, regs_view(m.regs, m.ar)) == Some(vv(m2.ar, m2.st.last()))
    &&& m2.regs == m.regs
    &&& m2.fuel == m.fuel
    &&& m2.resp == m.resp
    &&& m2.ar.len() == m.ar.len() + cells_ev(ns, i, regs_view(m.regs, m.ar))
    &&& sound_d(m2)
    &&& is_prefix(m.ar, m2.ar)
}

/// The code of an expression, run on floor D, pushes the value floor B gives it.
proof fn lemma_expr_d(ns: Seq<N>, i: int, code: Seq<Ins>, m: DState) -> (k: nat)
    requires
        expr_ok(ns, i),
        placed(code, m.pc, expr_code(ns, i)),
        sound_d(m),
        ev_b_spec(ns, i, regs_view(m.regs, m.ar)) is Some,
        m.ar.len() + cells_ev(ns, i, regs_view(m.regs, m.ar)) < 0xffff_ffff,
    ensures
        steps(code, m, k) is Some,
        ev_post(ns, i, m, steps(code, m, k).unwrap()),
    decreases i,
{
    let rv = regs_view(m.regs, m.ar);
    let p = m.pc;
    let seg = expr_code(ns, i);
    assert(code[p + 0] == seg[0]);
    match ns[i] {
        N::Lit(_) | N::Var(_) | N::Nil => {
            let m2 = step_d(code, m).unwrap();
            assert(steps(code, m2, 0) == Some(m2));
            lemma_step_sound(code, m);
            assert(m2.st.drop_last() =~= m.st);
            1
        },
        N::Add(x, y) | N::Sub(x, y) | N::Eq(x, y) | N::Cons(x, y) => {
            let cx = expr_code(ns, x as int);
            let cy = expr_code(ns, y as int);
            assert(seg == cx + cy + seq![seg.last()]);
            assert(seg.subrange(0, cx.len() as int) =~= cx);
            assert(seg.subrange(cx.len() as int, (cx.len() + cy.len()) as int) =~= cy);
            lemma_placed_sub(code, p, seg, 0, cx.len() as int);
            lemma_placed_sub(code, p, seg, cx.len() as int, (cx.len() + cy.len()) as int);
            let k1 = lemma_expr_d(ns, x as int, code, m);
            let m1 = steps(code, m, k1).unwrap();
            lemma_regs_view_grow(m.regs, m.ar, m1.ar);
            let k2 = lemma_expr_d(ns, y as int, code, m1);
            let m2 = steps(code, m1, k2).unwrap();
            lemma_regs_view_grow(m1.regs, m1.ar, m2.ar);
            lemma_prefix_trans(m.ar, m1.ar, m2.ar);
            let n = m2.st.len() as int;
            let a = m2.st[n - 2];
            let b = m2.st[n - 1];
            assert(m2.st.drop_last() == m1.st);
            assert(a == m1.st.last());
            assert(below(a, m1.ar.len() as int));
            lemma_vv_grow(m1.ar, m2.ar, a);
            assert(code[p + (seg.len() - 1)] == seg[seg.len() - 1]);
            assert(m2.pc == p + seg.len() - 1);
            let m3 = step_d(code, m2).unwrap();
            lemma_step_sound(code, m2);
            assert(steps(code, m3, 0) == Some(m3));
            assert(steps(code, m2, 1) == Some(m3));
            lemma_steps_trans(code, m, k1, k2);
            lemma_steps_trans(code, m, k1 + k2, 1);
            lemma_prefix_trans(m.ar, m2.ar, m3.ar);
            assert(m3.st.drop_last() =~= m.st);
            if ns[i] is Cons {
                let l = m2.ar.len() as int;
                assert(below(b, l));
                lemma_vv_prefix(m2.ar, m3.ar, a, l);
                lemma_vv_prefix(m2.ar, m3.ar, b, l);
                assert(m3.ar[l] == (a, b));
            }
            k1 + k2 + 1
        },
        N::Car(x) | N::Cdr(x) | N::IsPair(x) => {
            let cx = expr_code(ns, x as int);
            assert(seg == cx + seq![seg.last()]);
            assert(seg.subrange(0, cx.len() as int) =~= cx);
            lemma_placed_sub(code, p, seg, 0, cx.len() as int);
            let k1 = lemma_expr_d(ns, x as int, code, m);
            let m1 = steps(code, m, k1).unwrap();
            let n = m1.st.len() as int;
            let a = m1.st[n - 1];
            assert(below(a, m1.ar.len() as int));
            assert(code[p + (seg.len() - 1)] == seg[seg.len() - 1]);
            let m3 = step_d(code, m1).unwrap();
            lemma_step_sound(code, m1);
            assert(steps(code, m3, 0) == Some(m3));
            assert(steps(code, m1, 1) == Some(m3));
            lemma_steps_trans(code, m, k1, 1);
            lemma_prefix_trans(m.ar, m1.ar, m3.ar);
            assert(m3.st.drop_last() =~= m.st);
            if let Val::P(c) = a {
                let ar = m1.ar;
                assert(below(ar[c as int].0, c as int));
                assert(below(ar[c as int].1, c as int));
                lemma_vv_bound(ar, ar[c as int].0, c as int, ar.len() as int);
                lemma_vv_bound(ar, ar[c as int].1, c as int, ar.len() as int);
            }
            k1 + 1
        },
        _ => 0,
    }
}

/// The floor-B state that a floor-D machine stands for.
pub open spec fn st_of(m: DState) -> StB {
    (regs_view(m.regs, m.ar), m.fuel, m.resp)
}

/// What running the code of a statement from `m` leaves in `m2`: the state floor B reaches,
/// the stack as it was, and the cells that building pairs added.
pub open spec fn ex_post(target: Option<StB>, cells: nat, len: int, m: DState, m2: DState) -> bool {
    &&& m2.pc == m.pc + len
    &&& m2.st == m.st
    &&& target == Some(st_of(m2))
    &&& m2.ar.len() == m.ar.len() + cells
    &&& m2.regs.len() == m.regs.len()
    &&& sound_d(m2)
    &&& is_prefix(m.ar, m2.ar)
}

/// The code of a statement, run on floor D, changes the state as floor B does.
proof fn lemma_stmt_d(ns: Seq<N>, i: int, code: Seq<Ins>, m: DState) -> (k: nat)
    requires
        stmt_ok(ns, i),
        placed(code, m.pc, stmt_code(ns, i, m.pc)),
        m.pc + stmt_code(ns, i, m.pc).len() <= u32::MAX,
        m.regs.len() <= i32::MAX,
        sound_d(m),
        ex_b_spec(ns, i, st_of(m)) is Some,
        m.ar.len() + cells_ex(ns, i, st_of(m)) < 0xffff_ffff,
    ensures
        steps(code, m, k) is Some,
        ex_post(ex_b_spec(ns, i, st_of(m)), cells_ex(ns, i, st_of(m)), stmt_code(ns, i, m.pc).len() as int, m, steps(code, m, k).unwrap()),
    decreases i, 1int, 0int,
{
    let p = m.pc;
    let seg = stmt_code(ns, i, p);
    lemma_prefix_refl(m.ar);
    match ns[i] {
        N::Block(ss) => {
            lemma_list_d(ns, i, ss@, code, m)
        },
        N::Assign(slot, e) => {
            let ce = expr_code(ns, e as int);
            assert(seg == ce + seq![Ins::Store(slot)]);
            assert(seg.subrange(0, ce.len() as int) =~= ce);
            lemma_placed_sub(code, p, seg, 0, ce.len() as int);
            let k1 = lemma_expr_d(ns, e as int, code, m);
            let m1 = steps(code, m, k1).unwrap();
            lemma_regs_view_grow(m.regs, m.ar, m1.ar);
            assert(code[p + (seg.len() - 1)] == seg[seg.len() - 1]);
            let m2 = step_d(code, m1).unwrap();
            lemma_step_sound(code, m1);
            assert(steps(code, m2, 0) == Some(m2));
            assert(steps(code, m1, 1) == Some(m2));
            lemma_steps_trans(code, m, k1, 1);
            assert(m2.st =~= m.st);
            assert(regs_view(m2.regs, m2.ar) =~= regs_view(m.regs, m.ar).update(slot as int, Some(vv(m1.ar, m1.st.last()))));
            k1 + 1
        },
        N::If(c, t, f) => {
            let cc = expr_code(ns, c as int);
            let lc = cc.len() as int;
            let tc = stmt_code(ns, t as int, p + cc.len() + 1);
            let fb = p + cc.len() + 1 + tc.len() + 1;
            let fc = stmt_code(ns, f as int, fb);
            assert(seg == cc + seq![Ins::JmpF(fb as u32)] + tc + seq![Ins::Jmp((fb + fc.len()) as u32)] + fc);
            assert(seg.subrange(0, cc.len() as int) =~= cc);
            assert(seg.subrange(lc + 1, lc + 1 + tc.len()) =~= tc);
            assert(seg.subrange(fb - p, seg.len() as int) =~= fc);
            lemma_placed_sub(code, p, seg, 0, cc.len() as int);
            lemma_placed_sub(code, p, seg, lc + 1, lc + 1 + tc.len());
            lemma_placed_sub(code, p, seg, fb - p, seg.len() as int);
            assert(code[p + cc.len()] == seg[cc.len() as int]);
            assert(code[p + (lc + 1 + tc.len())] == seg[lc + 1 + tc.len()]);
            let k1 = lemma_expr_d(ns, c as int, code, m);
            let m1 = steps(code, m, k1).unwrap();
            lemma_regs_view_grow(m.regs, m.ar, m1.ar);
            let cv = m1.st.last();
            assert(below(cv, m1.ar.len() as int));
            let m2 = step_d(code, m1).unwrap();
            lemma_step_sound(code, m1);
            assert(steps(code, m2, 0) == Some(m2));
            assert(steps(code, m1, 1) == Some(m2));
            lemma_steps_trans(code, m, k1, 1);
            assert(m2.st =~= m.st);
            assert(st_of(m2) == st_of(m));
            if cv != Val::I(0) {
                assert(m2.pc == p + cc.len() + 1);
                let k2 = lemma_stmt_d(ns, t as int, code, m2);
                let m3 = steps(code, m2, k2).unwrap();
                let m4 = step_d(code, m3).unwrap();
                lemma_step_sound(code, m3);
                assert(steps(code, m4, 0) == Some(m4));
                assert(steps(code, m3, 1) == Some(m4));
                lemma_steps_trans(code, m, k1 + 1, k2);
                lemma_steps_trans(code, m, k1 + 1 + k2, 1);
                lemma_prefix_trans(m.ar, m1.ar, m3.ar);
                k1 + 1 + k2 + 1
            } else {
                assert(m2.pc == fb);
                let k2 = lemma_stmt_d(ns, f as int, code, m2);
                lemma_steps_trans(code, m, k1 + 1, k2);
                lemma_prefix_trans(m.ar, m1.ar, steps(code, m2, k2).unwrap().ar);
                k1 + 1 + k2
            }
        },
        N::Respawn(g) => {
            assert(code[p + 0] == seg[0]);
            let m2 = step_d(code, m).unwrap();
            assert(steps(code, m2, 0) == Some(m2));
            if let Some(s) = g {
                assert(m.regs[s as int] matches Some(v) ==> below(v, m.ar.len() as int));
            }
            1
        },
        _ => {
            let ce = expr_code(ns, i);
            assert(seg == ce + seq![Ins::Drop]);
            assert(seg.subrange(0, ce.len() as int) =~= ce);
            lemma_placed_sub(code, p, seg, 0, ce.len() as int);
            let k1 = lemma_expr_d(ns, i, code, m);
            let m1 = steps(code, m, k1).unwrap();
            lemma_regs_view_grow(m.regs, m.ar, m1.ar);
            assert(code[p + (seg.len() - 1)] == seg[seg.len() - 1]);
            let m2 = step_d(code, m1).unwrap();
            lemma_step_sound(code, m1);
            assert(steps(code, m2, 0) == Some(m2));
            assert(steps(code, m1, 1) == Some(m2));
            lemma_steps_trans(code, m, k1, 1);
            assert(m2.st =~= m.st);
            k1 + 1
        },
    }
}

/// The code of a list of statements, run on floor D, changes the state as floor B does.
proof fn lemma_list_d(ns: Seq<N>, i: int, ss: Seq<u32>, code: Seq<Ins>, m: DState) -> (k: nat)
    requires
        list_ok(ns, i, ss),
        placed(code, m.pc, list_code(ns, i, ss, m.pc)),
        m.pc + list_code(ns, i, ss, m.pc).len() <= u32::MAX,
        m.regs.len() <= i32::MAX,
        sound_d(m),
        ex_list_b(ns, i, ss, st_of(m)) is Some,
        m.ar.len() + cells_list(ns, i, ss, st_of(m)) < 0xffff_ffff,
    ensures
        steps(code, m, k) is Some,
        ex_post(ex_list_b(ns, i, ss, st_of(m)), cells_list(ns, i, ss, st_of(m)), list_code(ns, i, ss, m.pc).len() as int, m, steps(code, m, k).unwrap()),
    decreases i, 0int, ss.len(),
{
    lemma_prefix_refl(m.ar);
    if ss.len() == 0 {
        assert(steps(code, m, 0) == Some(m));
        0
    } else {
        let p = m.pc;
        let seg = list_code(ns, i, ss, p);
        let h = stmt_code(ns, ss[0] as int, p);
        let rest = list_code(ns, i, ss.drop_first(), p + h.len());
        assert(seg == h + rest);
        assert(seg.subrange(0, h.len() as int) =~= h);
        assert(seg.subrange(h.len() as int, seg.len() as int) =~= rest);
        lemma_placed_sub(code, p, seg, 0, h.len() as int);
        lemma_placed_sub(code, p, seg, h.len() as int, seg.len() as int);
        let k1 = lemma_stmt_d(ns, ss[0] as int, code, m);
        let m1 = steps(code, m, k1).unwrap();
        let k2 = lemma_list_d(ns, i, ss.drop_first(), code, m1);
        lemma_steps_trans(code, m, k1, k2);
        lemma_prefix_trans(m.ar, m1.ar, steps(code, m1, k2).unwrap().ar);
        k1 + k2
    }
}

/// Rounds of the code of `root` on floor D, from the start of a round, end as floor B's run does.
proof fn lemma_run_bd(ns: Seq<N>, root: int, code: Seq<Ins>, m: DState, vs: u32) -> (n: nat)
    requires
        code == stmt_code(ns, root, 0),
        stmt_ok(ns, root),
        code.len() <= u32::MAX,
        m.regs.len() <= i32::MAX,
        m.pc == 0,
        m.st.len() == 0,
        !m.resp,
        sound_d(m),
        run_b_spec(ns, root, regs_view(m.regs, m.ar), m.fuel, vs) is Some,
        m.ar.len() + cells_run(ns, root, regs_view(m.regs, m.ar), m.fuel) < 0xffff_ffff,
    ensures
        run_n(code, m, n) matches Some((f, _, _)) && reg_val(f.regs, vs as int) matches Some(x)
            && run_b_spec(ns, root, regs_view(m.regs, m.ar), m.fuel, vs) == Some(vv(f.ar, x)),
    decreases m.fuel,
{
    let st = st_of(m);
    assert(placed(code, 0, code));
    let k = lemma_stmt_d(ns, root, code, m);
    let m2 = steps(code, m, k).unwrap();
    lemma_ex_b_fuel(ns, root, st);
    if m2.resp {
        let m3 = restart(m2);
        assert(m3.st =~= Seq::<Val>::empty());
        let n1 = lemma_run_bd(ns, root, code, m3, vs);
        assert(!halted(code, m2));
        assert(run_n(code, m2, n1 + 1) == (match run_n(code, m3, n1) {
            Some((f, i, r)) => Some((f, i, r + 1)),
            None => None,
        }));
        lemma_run_n_steps(code, m, k, n1 + 1);
        k + n1 + 1
    } else {
        assert(halted(code, m2));
        assert(run_n(code, m2, 0) == Some((m2, 0nat, 0nat)));
        lemma_run_n_steps(code, m, k, 0);
        k
    }
}

/// Floors B and D agree: where floor B's run from node `root` gives a value, running the linear
/// code laid out for `root` on floor D, from registers that stand for floor B's, stops with a
/// register `vs` that stands for that value. It holds where the code fits the 32-bit jump
/// targets, the register slots fit the respawn guard's 31 bits, and the arena does not fill.
pub proof fn law_floors_b_d_agree(ns: Seq<N>, root: u32, regs: Seq<Option<Val>>, ar: Seq<(Val, Val)>, fuel: i64, vs: u32)
    requires
        stmt_ok(ns, root as int),
        stmt_code(ns, root as int, 0).len() <= u32::MAX,
        regs.len() <= i32::MAX,
        wf_arena(ar),
        regs_below(regs, ar.len() as int),
        ar.len() + cells_run(ns, root as int, regs_view(regs, ar), fuel) < 0xffff_ffff,
        run_b_spec(ns, root as int, regs_view(regs, ar), fuel, vs) is Some,
    ensures
        run_d_spec(stmt_code(ns, root as int, 0), regs, ar, fuel) matches Some((m, _, _))
            && reg_val(m.regs, vs as int) matches Some(x)
            && run_b_spec(ns, root as int, regs_view(regs, ar), fuel, vs) == Some(vv(m.ar, x)),
{
    let code = stmt_code(ns, root as int, 0);
    let m = start_d(regs, ar, fuel);
    assert(sound_d(m));
    let n = lemma_run_bd(ns, root as int, code, m, vs);
    assert(run_n(code, m, n) is Some);
    let c = choose|c: nat| #[trigger] run_n(code, m, c) is Some;
    lemma_run_n_unique(code, m, n, c);
}

} // verus!
