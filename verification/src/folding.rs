use vstd::prelude::*;
use crate::agree_ab::{law_floors_a_b_agree, strict};
use crate::agree_bd::{law_floors_b_d_agree, lemma_run_n_steps, steps};
use crate::arena::{regs_below, regs_view, vv, wf_arena, Val};
use crate::floor_a::{RegMap, run_a_spec};
use crate::floor_b::{N, enc, host_slots, run_b_spec};
use crate::json::Json;
use crate::names::distinct_names;
use crate::words::w_vs;
use crate::floor_c::cells_run;
use crate::floor_d::{DState, Ins, expr_code, fold_from, list_code, stmt_code, stmt_ok, halted, is_target, jump_target, lemma_run_n_unique, reg_val, restart, run_d_spec, run_n, start_d, step_d, target_before};

verus! {

/// How many places an instruction takes: a folded run takes those of the instructions it
/// replaced.
pub open spec fn width(x: Ins) -> int {
    match x {
        Ins::EqK(_, _) => 3,
        Ins::EqKJmpF(_, _, _) => 4,
        _ => 1,
    }
}

/// Whether place `q` of `f` lies inside a folded run that starts before it.
pub open spec fn inner(f: Seq<Ins>, q: int) -> bool {
    ||| 1 <= q <= f.len() && width(f[q - 1]) > 1
    ||| 2 <= q <= f.len() + 1 && width(f[q - 2]) > 2
    ||| 3 <= q <= f.len() + 2 && width(f[q - 3]) > 3
}

/// Whether `c` holds no folded run.
pub open spec fn unfolded(c: Seq<Ins>) -> bool {
    forall|k: int| 0 <= k < c.len() ==> width(#[trigger] c[k]) == 1
}

/// How place `p` of the folded code `f` relates to the code `c0` it was folded from: a place
/// inside a run is a `Nop` no jump lands on; a run stands for the instructions it replaced;
/// every other instruction is kept.
pub open spec fn place_ok(c0: Seq<Ins>, f: Seq<Ins>, p: int) -> bool {
    if inner(f, p) {
        f[p] == Ins::Nop && !is_target(c0, p)
    } else {
        match f[p] {
            Ins::EqK(s, k) => p + 2 < f.len() && c0[p] == Ins::Load(s) && c0[p + 1] == Ins::Lit(k)
                && c0[p + 2] == Ins::Eq,
            Ins::EqKJmpF(s, k, t) => p + 3 < f.len() && c0[p] == Ins::Load(s) && c0[p + 1] == Ins::Lit(k)
                && c0[p + 2] == Ins::Eq && c0[p + 3] == Ins::JmpF(t),
            _ => f[p] == c0[p],
        }
    }
}

/// `f` is `c0` with runs folded in place.
pub open spec fn folds_to(c0: Seq<Ins>, f: Seq<Ins>) -> bool {
    &&& f.len() == c0.len()
    &&& unfolded(c0)
    &&& forall|p: int| 0 <= p < f.len() ==> #[trigger] place_ok(c0, f, p)
}

/// Whether the machine may stand at `pc` of `f`: not inside a folded run.
pub open spec fn good(f: Seq<Ins>, pc: int) -> bool {
    !(0 <= pc < f.len() && inner(f, pc))
}

/// Folding from `i` on, with the places before `i` already related to `c0` and no run
/// reaching past `i`, relates the whole code to `c0`.
proof fn lemma_fold_from(c0: Seq<Ins>, code: Seq<Ins>, i: int)
    requires
        unfolded(c0),
        code.len() == c0.len(),
        0 <= i <= code.len(),
        forall|p: int| 0 <= p < i ==> #[trigger] place_ok(c0, code, p),
        forall|p: int| i <= p < code.len() ==> #[trigger] code[p] == c0[p],
        forall|p: int| 0 <= p < i ==> p + width(#[trigger] code[p]) <= i,
    ensures
        folds_to(c0, fold_from(c0, code, i).0),
    decreases code.len() - i,
{
    let n = code.len() as int;
    assert forall|p: int| i <= p < n implies !inner(code, p) by {
        assert(width(c0[p]) == 1);
        if p >= 1 {
            assert(p - 1 < i ==> p - 1 + width(code[p - 1]) <= i);
            assert(p - 1 >= i ==> width(code[p - 1]) == width(c0[p - 1]));
        }
        if p >= 2 {
            assert(p - 2 < i ==> p - 2 + width(code[p - 2]) <= i);
            assert(p - 2 >= i ==> width(code[p - 2]) == width(c0[p - 2]));
        }
        if p >= 3 {
            assert(p - 3 < i ==> p - 3 + width(code[p - 3]) <= i);
            assert(p - 3 >= i ==> width(code[p - 3]) == width(c0[p - 3]));
        }
    }
    if i + 2 >= n {
        assert forall|p: int| 0 <= p < n implies #[trigger] place_ok(c0, code, p) by {
            if p >= i {
                assert(width(c0[p]) == 1);
            }
        }
    } else if code[i] is Load && code[i + 1] is Lit && code[i + 2] is Eq && !is_target(c0, i + 1)
        && !is_target(c0, i + 2) {
        let s = code[i]->Load_0;
        let k = code[i + 1]->Lit_0;
        if i + 3 < n && code[i + 3] is JmpF && !is_target(c0, i + 3) {
            let c2 = code.update(i, Ins::EqKJmpF(s, k, code[i + 3]->JmpF_0)).update(i + 1, Ins::Nop).update(
                i + 2,
                Ins::Nop,
            ).update(i + 3, Ins::Nop);
            assert forall|p: int| 0 <= p < i + 4 implies #[trigger] place_ok(c0, c2, p) by {
                if p < i {
                    assert(place_ok(c0, code, p));
                } else if p == i {
                    if p >= 1 {
                        assert(p - 1 + width(code[p - 1]) <= i);
                    }
                    if p >= 2 {
                        assert(p - 2 + width(code[p - 2]) <= i);
                    }
                    if p >= 3 {
                        assert(p - 3 + width(code[p - 3]) <= i);
                    }
                    assert(code[i + 3] == c0[i + 3]);
                } else {
                    assert(inner(c2, p));
                }
            }
            assert forall|p: int| 0 <= p < i + 4 implies p + width(#[trigger] c2[p]) <= i + 4 by {
                if p < i {
                    assert(p + width(code[p]) <= i);
                }
            }
            lemma_fold_from(c0, c2, i + 4);
        } else {
            let c2 = code.update(i, Ins::EqK(s, k)).update(i + 1, Ins::Nop).update(i + 2, Ins::Nop);
            assert forall|p: int| 0 <= p < i + 3 implies #[trigger] place_ok(c0, c2, p) by {
                if p < i {
                    assert(place_ok(c0, code, p));
                } else if p == i {
                    if p >= 1 {
                        assert(p - 1 + width(code[p - 1]) <= i);
                    }
                    if p >= 2 {
                        assert(p - 2 + width(code[p - 2]) <= i);
                    }
                    if p >= 3 {
                        assert(p - 3 + width(code[p - 3]) <= i);
                    }
                } else {
                    assert(inner(c2, p));
                }
            }
            assert forall|p: int| 0 <= p < i + 3 implies p + width(#[trigger] c2[p]) <= i + 3 by {
                if p < i {
                    assert(p + width(code[p]) <= i);
                }
            }
            lemma_fold_from(c0, c2, i + 3);
        }
    } else {
        assert forall|p: int| 0 <= p < i + 1 implies #[trigger] place_ok(c0, code, p) by {
            if p == i {
                assert(width(c0[p]) == 1);
            }
        }
        assert forall|p: int| 0 <= p < i + 1 implies p + width(#[trigger] code[p]) <= i + 1 by {
            if p == i {
                assert(width(c0[p]) == 1);
            }
        }
        lemma_fold_from(c0, code, i + 1);
    }
}

/// Folding relates the folded code to the code it came from.
pub proof fn lemma_folds_to(c0: Seq<Ins>)
    requires
        unfolded(c0),
    ensures
        folds_to(c0, fold_from(c0, c0, 0).0),
{
    lemma_fold_from(c0, c0, 0);
}

/// One step of the folded code from a place outside any run: where it gets stuck, the code it
/// came from gets stuck too; else that code reaches the same state in `j` steps, again outside
/// any run.
proof fn lemma_sim_step(c0: Seq<Ins>, f: Seq<Ins>, m: DState) -> (j: nat)
    requires
        folds_to(c0, f),
        good(f, m.pc),
        0 <= m.pc < f.len(),
    ensures
        step_d(f, m) is None ==> step_d(c0, m) is None,
        step_d(f, m) is Some ==> j >= 1 && steps(c0, m, j) == step_d(f, m) && good(f, step_d(f, m).unwrap().pc),
{
    let p = m.pc;
    let n = f.len() as int;
    assert(place_ok(c0, f, p));
    match f[p] {
        Ins::EqK(s, k) => {
            assert(inner(f, p + 1) && inner(f, p + 2));
            assert(place_ok(c0, f, p + 1) && place_ok(c0, f, p + 2));
            if step_d(f, m) is Some {
                let m1 = step_d(c0, m).unwrap();
                let m2 = step_d(c0, m1).unwrap();
                let m3 = step_d(c0, m2).unwrap();
                assert(m3.st =~= step_d(f, m).unwrap().st);
                assert(m3 == step_d(f, m).unwrap());
                assert(steps(c0, m3, 0) == Some(m3));
                assert(steps(c0, m2, 1) == Some(m3));
                assert(steps(c0, m1, 2) == Some(m3));
            }
            3
        },
        Ins::EqKJmpF(s, k, t) => {
            assert(inner(f, p + 1) && inner(f, p + 2) && inner(f, p + 3));
            assert(place_ok(c0, f, p + 1) && place_ok(c0, f, p + 2) && place_ok(c0, f, p + 3));
            if step_d(f, m) is Some {
                let m1 = step_d(c0, m).unwrap();
                let m2 = step_d(c0, m1).unwrap();
                let m3 = step_d(c0, m2).unwrap();
                let m4 = step_d(c0, m3).unwrap();
                assert(m4.st =~= step_d(f, m).unwrap().st);
                assert(m4 == step_d(f, m).unwrap());
                assert(steps(c0, m4, 0) == Some(m4));
                assert(steps(c0, m3, 1) == Some(m4));
                assert(steps(c0, m2, 2) == Some(m4));
                assert(steps(c0, m1, 3) == Some(m4));
                assert(jump_target(c0[p + 3]) == Some(t as int));
                assert(target_before(c0, t as int, n));
                if 0 <= t < n {
                    assert(place_ok(c0, f, t as int));
                }
            }
            4
        },
        _ => {
            assert(width(c0[p]) == 1);
            assert(step_d(f, m) == step_d(c0, m));
            if step_d(f, m) is Some {
                let m2 = step_d(f, m).unwrap();
                assert(steps(c0, m2, 0) == Some(m2));
                if let Some(t) = jump_target(c0[p]) {
                    assert(target_before(c0, t, n));
                    if 0 <= t < n {
                        assert(place_ok(c0, f, t));
                    }
                }
            }
            1
        },
    }
}

/// Where `j` steps lead from `m`, a run from `m` goes on from there.
proof fn lemma_run_n_after(code: Seq<Ins>, m: DState, j: nat, n: nat)
    requires
        steps(code, m, j) is Some,
        run_n(code, m, n) is Some,
    ensures
        j <= n,
        run_n(code, m, n).unwrap().1 >= j,
        run_n(code, steps(code, m, j).unwrap(), (n - j) as nat) == (match run_n(code, m, n) {
            Some((x, i, r)) => Some((x, (i - j) as nat, r)),
            None => None,
        }),
    decreases j,
{
    if j > 0 {
        let m1 = step_d(code, m).unwrap();
        assert(!halted(code, m));
        lemma_run_n_after(code, m1, (j - 1) as nat, (n - 1) as nat);
        assert((n - 1 - (j - 1)) as nat == (n - j) as nat);
    }
}

/// Where the folded code stops, the code it came from stops in the same state, after as many
/// rounds and at least as many instructions.
proof fn lemma_sim_fwd(c0: Seq<Ins>, f: Seq<Ins>, m: DState, n: nat) -> (n2: nat)
    requires
        folds_to(c0, f),
        good(f, m.pc),
        run_n(f, m, n) is Some,
    ensures
        run_n(c0, m, n2) is Some,
        run_n(c0, m, n2).unwrap().0 == run_n(f, m, n).unwrap().0,
        run_n(c0, m, n2).unwrap().2 == run_n(f, m, n).unwrap().2,
        run_n(c0, m, n2).unwrap().1 >= run_n(f, m, n).unwrap().1,
    decreases n,
{
    if halted(f, m) {
        0
    } else if m.pc >= f.len() {
        let n1 = lemma_sim_fwd(c0, f, restart(m), (n - 1) as nat);
        n1 + 1
    } else {
        let j = lemma_sim_step(c0, f, m);
        let m2 = step_d(f, m).unwrap();
        let n1 = lemma_sim_fwd(c0, f, m2, (n - 1) as nat);
        lemma_run_n_steps(c0, m, j, n1);
        j + n1
    }
}

/// Where the code stops, the folded code stops too.
proof fn lemma_sim_bwd(c0: Seq<Ins>, f: Seq<Ins>, m: DState, n: nat) -> (n2: nat)
    requires
        folds_to(c0, f),
        good(f, m.pc),
        run_n(c0, m, n) is Some,
    ensures
        run_n(f, m, n2) is Some,
    decreases n,
{
    if halted(c0, m) {
        0
    } else if m.pc >= c0.len() {
        let n1 = lemma_sim_bwd(c0, f, restart(m), (n - 1) as nat);
        n1 + 1
    } else {
        let j = lemma_sim_step(c0, f, m);
        let m2 = step_d(f, m).unwrap();
        lemma_run_n_after(c0, m, j, n);
        let n1 = lemma_sim_bwd(c0, f, m2, (n - j) as nat);
        n1 + 1
    }
}

/// Folding keeps what a run of floor D comes to: code that holds no folded run, and the same
/// code with its runs folded, either both stop or neither does, and where they stop it is in
/// the same state (registers, arena, stack, fuel), after the same rounds, the folded code having
/// run no more instructions.
pub proof fn law_fold_keeps_run(code: Seq<Ins>, regs: Seq<Option<Val>>, ar: Seq<(Val, Val)>, fuel: i64)
    requires
        unfolded(code),
    ensures
        (run_d_spec(fold_from(code, code, 0).0, regs, ar, fuel) is Some) == (run_d_spec(code, regs, ar, fuel) is Some),
        run_d_spec(code, regs, ar, fuel) matches Some((m, i, r)) ==> run_d_spec(fold_from(code, code, 0).0, regs, ar, fuel) matches Some((m2, i2, r2))
            && m2 == m && r2 == r && i2 <= i,
{
    let f = fold_from(code, code, 0).0;
    lemma_folds_to(code);
    let m0 = start_d(regs, ar, fuel);
    assert(good(f, 0));
    if run_d_spec(code, regs, ar, fuel) is Some {
        let c = choose|c: nat| #[trigger] run_n(code, m0, c) is Some;
        let nf = lemma_sim_bwd(code, f, m0, c);
        assert(run_n(f, m0, nf) is Some);
    }
    if run_d_spec(f, regs, ar, fuel) is Some {
        let cf = choose|c: nat| #[trigger] run_n(f, m0, c) is Some;
        let nc = lemma_sim_fwd(code, f, m0, cf);
        assert(run_n(code, m0, nc) is Some);
        let c = choose|c: nat| #[trigger] run_n(code, m0, c) is Some;
        lemma_run_n_unique(code, m0, nc, c);
    }
}

proof fn lemma_expr_unfolded(ns: Seq<N>, i: int)
    ensures
        unfolded(expr_code(ns, i)),
    decreases i,
{
    if 0 <= i < ns.len() {
        match ns[i] {
            N::Add(x, y) | N::Sub(x, y) | N::Eq(x, y) | N::Cons(x, y) => if x < i && y < i {
                lemma_expr_unfolded(ns, x as int);
                lemma_expr_unfolded(ns, y as int);
                let c = expr_code(ns, i);
                let cx = expr_code(ns, x as int);
                let cy = expr_code(ns, y as int);
                assert forall|k: int| 0 <= k < c.len() implies width(#[trigger] c[k]) == 1 by {
                    if k < cx.len() {
                        assert(c[k] == cx[k]);
                    } else if k < cx.len() + cy.len() {
                        assert(c[k] == cy[k - cx.len()]);
                    }
                }
            },
            N::Car(x) | N::Cdr(x) | N::IsPair(x) => if x < i {
                lemma_expr_unfolded(ns, x as int);
                let c = expr_code(ns, i);
                let cx = expr_code(ns, x as int);
                assert forall|k: int| 0 <= k < c.len() implies width(#[trigger] c[k]) == 1 by {
                    if k < cx.len() {
                        assert(c[k] == cx[k]);
                    }
                }
            },
            _ => {},
        }
    }
}

proof fn lemma_cat_unfolded(a: Seq<Ins>, b: Seq<Ins>)
    requires
        unfolded(a),
        unfolded(b),
    ensures
        unfolded(a + b),
{
    assert forall|k: int| 0 <= k < (a + b).len() implies width(#[trigger] (a + b)[k]) == 1 by {
        if k < a.len() {
            assert((a + b)[k] == a[k]);
        } else {
            assert((a + b)[k] == b[k - a.len()]);
        }
    }
}

/// The code laid out for a statement holds no folded run.
proof fn lemma_stmt_unfolded(ns: Seq<N>, i: int, base: int)
    ensures
        unfolded(stmt_code(ns, i, base)),
    decreases i, 1int, 0int,
{
    if 0 <= i < ns.len() {
        match ns[i] {
            N::Block(ss) => lemma_list_unfolded(ns, i, ss@, base),
            N::Assign(slot, e) => if e < i {
                lemma_expr_unfolded(ns, e as int);
                lemma_cat_unfolded(expr_code(ns, e as int), seq![Ins::Store(slot)]);
            },
            N::If(c, t, f) => if c < i && t < i && f < i {
                let cc = expr_code(ns, c as int);
                let tc = stmt_code(ns, t as int, base + cc.len() + 1);
                let fb = base + cc.len() + 1 + tc.len() + 1;
                let fc = stmt_code(ns, f as int, fb);
                lemma_expr_unfolded(ns, c as int);
                lemma_stmt_unfolded(ns, t as int, base + cc.len() + 1);
                lemma_stmt_unfolded(ns, f as int, fb);
                lemma_cat_unfolded(cc, seq![Ins::JmpF(fb as u32)]);
                lemma_cat_unfolded(cc + seq![Ins::JmpF(fb as u32)], tc);
                lemma_cat_unfolded(cc + seq![Ins::JmpF(fb as u32)] + tc, seq![Ins::Jmp((fb + fc.len()) as u32)]);
                lemma_cat_unfolded(cc + seq![Ins::JmpF(fb as u32)] + tc + seq![Ins::Jmp((fb + fc.len()) as u32)], fc);
            },
            N::Respawn(_) => {},
            _ => {
                lemma_expr_unfolded(ns, i);
                lemma_cat_unfolded(expr_code(ns, i), seq![Ins::Drop]);
            },
        }
    }
}

proof fn lemma_list_unfolded(ns: Seq<N>, i: int, ss: Seq<u32>, base: int)
    ensures
        unfolded(list_code(ns, i, ss, base)),
    decreases i, 0int, ss.len(),
{
    if ss.len() > 0 && 0 <= ss[0] < i {
        let h = stmt_code(ns, ss[0] as int, base);
        lemma_stmt_unfolded(ns, ss[0] as int, base);
        lemma_list_unfolded(ns, i, ss.drop_first(), base + h.len());
        lemma_cat_unfolded(h, list_code(ns, i, ss.drop_first(), base + h.len()));
    }
}

/// Floor D with folded code agrees with floor B: where floor B's run from node `root` gives a
/// value, running the code laid out for `root` with its runs folded stops with a register `vs`
/// that stands for that value; under the limits of `law_floors_b_d_agree`.
pub proof fn law_folded_floor_d_agrees(ns: Seq<N>, root: u32, regs: Seq<Option<Val>>, ar: Seq<(Val, Val)>, fuel: i64, vs: u32)
    requires
        stmt_ok(ns, root as int),
        stmt_code(ns, root as int, 0).len() <= u32::MAX,
        regs.len() <= i32::MAX,
        wf_arena(ar),
        regs_below(regs, ar.len() as int),
        ar.len() + cells_run(ns, root as int, regs_view(regs, ar), fuel) < 0xffff_ffff,
        run_b_spec(ns, root as int, regs_view(regs, ar), fuel, vs) is Some,
    ensures
        run_d_spec(fold_from(stmt_code(ns, root as int, 0), stmt_code(ns, root as int, 0), 0).0, regs, ar, fuel) matches Some((m, _, _))
            && reg_val(m.regs, vs as int) matches Some(x)
            && run_b_spec(ns, root as int, regs_view(regs, ar), fuel, vs) == Some(vv(m.ar, x)),
{
    let code = stmt_code(ns, root as int, 0);
    law_floors_b_d_agree(ns, root, regs, ar, fuel, vs);
    lemma_stmt_unfolded(ns, root as int, 0);
    law_fold_keeps_run(code, regs, ar, fuel);
}

/// The ladder's claim, end to end: floor A running the machine `m` and floor D running the
/// folded linear code laid out from its folding agree. Where floor A's run gives a value, the
/// folded code, run from registers that stand for floor A's, stops with register `vs` standing
/// for that value; under the conditions of `law_floors_a_b_agree` and `law_floors_b_d_agree`.
pub proof fn law_floors_a_d_agree(ns: Seq<N>, names: Seq<Seq<char>>, root: u32, m: Json, ra: RegMap, regs: Seq<Option<Val>>, ar: Seq<(Val, Val)>, fuel: i64, vs: u32)
    requires
        enc(ns, names, root as int, m),
        strict(m),
        distinct_names(names),
        vs < names.len(),
        names[vs as int] == w_vs(),
        regs_view(regs, ar) == host_slots(names, ra),
        stmt_ok(ns, root as int),
        stmt_code(ns, root as int, 0).len() <= u32::MAX,
        regs.len() <= i32::MAX,
        wf_arena(ar),
        regs_below(regs, ar.len() as int),
        ar.len() + cells_run(ns, root as int, regs_view(regs, ar), fuel) < 0xffff_ffff,
        run_a_spec(m, ra, fuel) is Some,
    ensures
        run_d_spec(fold_from(stmt_code(ns, root as int, 0), stmt_code(ns, root as int, 0), 0).0, regs, ar, fuel) matches Some((md, _, _))
            && reg_val(md.regs, vs as int) matches Some(x)
            && run_a_spec(m, ra, fuel) == Some(vv(md.ar, x)),
{
    law_floors_a_b_agree(ns, names, root as int, m, ra, fuel, vs);
    law_folded_floor_d_agrees(ns, root, regs, ar, fuel, vs);
}

} // verus!

verus! {

/// The fuel plus one where a round is due never grows in a step, and fuel never goes below
/// zero once it is not negative; negative fuel is never spent.
proof fn lemma_step_fuel(code: Seq<Ins>, m: DState)
    requires
        step_d(code, m) is Some,
    ensures
        ({
            let m2 = step_d(code, m).unwrap();
            &&& m2.fuel as int + (if m2.resp { 1int } else { 0 }) <= m.fuel as int + (if m.resp { 1int } else { 0 })
            &&& m.fuel >= 0 ==> m2.fuel >= 0
            &&& m.fuel < 0 ==> m2.fuel == m.fuel && m2.resp == m.resp
        }),
{
}

/// Each new round spends what a respawn put aside.
proof fn lemma_run_rounds(code: Seq<Ins>, m: DState, n: nat)
    requires
        run_n(code, m, n) is Some,
    ensures
        m.fuel >= 0 ==> run_n(code, m, n).unwrap().2 <= m.fuel as int + (if m.resp { 1int } else { 0 }),
        m.fuel < 0 && !m.resp ==> run_n(code, m, n).unwrap().2 == 0,
    decreases n,
{
    if !halted(code, m) {
        if m.pc >= code.len() {
            lemma_run_rounds(code, restart(m), (n - 1) as nat);
        } else {
            lemma_step_fuel(code, m);
            lemma_run_rounds(code, step_d(code, m).unwrap(), (n - 1) as nat);
        }
    }
}

/// A run of floor D begins no more rounds after the first than it has fuel: every later round
/// is paid for by one unit of fuel, and with no fuel there is one round only.
pub proof fn law_rounds_within_fuel(code: Seq<Ins>, regs: Seq<Option<Val>>, ar: Seq<(Val, Val)>, fuel: i64)
    ensures
        run_d_spec(code, regs, ar, fuel) matches Some((_, _, r)) ==> r <= (if fuel > 0 { fuel as int } else { 0 }),
{
    let m0 = start_d(regs, ar, fuel);
    if run_d_spec(code, regs, ar, fuel) is Some {
        let c = choose|c: nat| #[trigger] run_n(code, m0, c) is Some;
        lemma_run_rounds(code, m0, c);
    }
}

} // verus!
