use vstd::prelude::*;
use crate::arena::{Arena, Val, below, cons_a, eq_v, lemma_push_wf, regs_below, truthy_v, vv, wf_arena};
use crate::floor_b::{N, is_prefix, lemma_prefix_refl, lemma_prefix_trans};
use crate::value::V;

verus! {

/// An instruction of floor D: a linear code over an operand stack.
#[derive(Clone, Copy, PartialEq, Eq, Structural)]
pub enum Ins {
    Lit(i64),
    Load(u32),
    Add,
    Sub,
    Eq,
    NilV,
    Cons,
    Car,
    Cdr,
    IsPair,
    Store(u32),
    JmpF(u32),
    Jmp(u32),
    Respawn(i32),
    Drop,
    /// `Load(s); Lit(k); Eq` in one step.
    EqK(u32, i64),
    /// `Load(s); Lit(k); Eq; JmpF(t)` in one step.
    EqKJmpF(u32, i64, u32),
    /// A place left by a folded run; it is stepped over, never run.
    Nop,
}

/// The state of the machine of floor D.
pub struct DState {
    pub pc: int,
    pub st: Seq<Val>,
    pub regs: Seq<Option<Val>>,
    pub ar: Seq<(Val, Val)>,
    pub fuel: i64,
    pub resp: bool,
}

/// The register in slot `s`, if the slot exists and is set.
pub open spec fn reg_val(regs: Seq<Option<Val>>, s: int) -> Option<Val> {
    if 0 <= s < regs.len() {
        regs[s]
    } else {
        None
    }
}

/// The state with the program counter at `pc` and the stack `st`, all else kept.
pub open spec fn goto(m: DState, pc: int, st: Seq<Val>) -> DState {
    DState { pc, st, regs: m.regs, ar: m.ar, fuel: m.fuel, resp: m.resp }
}

/// The integer 1 for true and 0 for false.
pub open spec fn flag(b: bool) -> Val {
    Val::I(if b { 1 } else { 0 })
}

/// One instruction at `m.pc`; `None` where the instruction cannot run (an empty stack, an unset
/// register, arithmetic on a non-integer, a pair operation on a non-pair, a full arena).
pub open spec fn step_d(code: Seq<Ins>, m: DState) -> Option<DState> {
    let n = m.st.len();
    let pc = m.pc;
    if pc < 0 || pc >= code.len() {
        None
    } else {
        match code[pc] {
            Ins::Lit(k) => Some(goto(m, pc + 1, m.st.push(Val::I(k)))),
            Ins::Load(s) => match reg_val(m.regs, s as int) {
                Some(v) => Some(goto(m, pc + 1, m.st.push(v))),
                None => None,
            },
            Ins::Add | Ins::Sub => if n >= 2 {
                match (m.st[n - 2], m.st[n - 1]) {
                    (Val::I(x), Val::I(y)) => Some(goto(m, pc + 1, m.st.take(n - 2).push(
                        Val::I(if code[pc] is Add { x.wrapping_add(y) } else { x.wrapping_sub(y) }),
                    ))),
                    _ => None,
                }
            } else {
                None
            },
            Ins::Eq => if n >= 2 {
                Some(goto(m, pc + 1, m.st.take(n - 2).push(flag(vv(m.ar, m.st[n - 2]) == vv(m.ar, m.st[n - 1])))))
            } else {
                None
            },
            Ins::NilV => Some(goto(m, pc + 1, m.st.push(Val::Nil))),
            Ins::Cons => if n >= 2 && m.ar.len() < 0xffff_ffff {
                Some(DState {
                    pc: pc + 1,
                    st: m.st.take(n - 2).push(Val::P(m.ar.len() as u32)),
                    regs: m.regs,
                    ar: m.ar.push((m.st[n - 2], m.st[n - 1])),
                    fuel: m.fuel,
                    resp: m.resp,
                })
            } else {
                None
            },
            Ins::Car | Ins::Cdr => if n >= 1 {
                match m.st[n - 1] {
                    Val::P(c) => if c < m.ar.len() {
                        Some(goto(m, pc + 1, m.st.take(n - 1).push(
                            if code[pc] is Car { m.ar[c as int].0 } else { m.ar[c as int].1 },
                        )))
                    } else {
                        None
                    },
                    _ => None,
                }
            } else {
                None
            },
            Ins::IsPair => if n >= 1 {
                Some(goto(m, pc + 1, m.st.take(n - 1).push(flag(m.st[n - 1] is P))))
            } else {
                None
            },
            Ins::Store(s) => if n >= 1 && s < m.regs.len() {
                Some(DState {
                    pc: pc + 1,
                    st: m.st.take(n - 1),
                    regs: m.regs.update(s as int, Some(m.st[n - 1])),
                    ar: m.ar,
                    fuel: m.fuel,
                    resp: m.resp,
                })
            } else {
                None
            },
            Ins::Drop => Some(goto(m, pc + 1, if n > 0 { m.st.take(n - 1) } else { m.st })),
            Ins::JmpF(t) => if n >= 1 {
                Some(goto(m, if m.st[n - 1] == Val::I(0) { t as int } else { pc + 1 }, m.st.take(n - 1)))
            } else {
                None
            },
            Ins::Jmp(t) => Some(goto(m, t as int, m.st)),
            Ins::Respawn(g) => if g >= 0 {
                match reg_val(m.regs, g as int) {
                    None => None,
                    Some(v) => if v == Val::I(0) {
                        Some(goto(m, pc + 1, m.st))
                    } else {
                        Some(spend(m))
                    },
                }
            } else {
                Some(spend(m))
            },
            Ins::Nop => Some(goto(m, pc + 1, m.st)),
            Ins::EqK(s, k) => match reg_val(m.regs, s as int) {
                Some(a) => Some(goto(m, pc + 3, m.st.push(flag(vv(m.ar, a) == V::I(k))))),
                None => None,
            },
            Ins::EqKJmpF(s, k, t) => match reg_val(m.regs, s as int) {
                Some(a) => Some(goto(m, if vv(m.ar, a) == V::I(k) { pc + 4 } else { t as int }, m.st)),
                None => None,
            },
        }
    }
}

/// A respawn that goes through: the next instruction, spending one fuel for another round if
/// there is any.
pub open spec fn spend(m: DState) -> DState {
    if m.fuel > 0 {
        DState { pc: m.pc + 1, st: m.st, regs: m.regs, ar: m.ar, fuel: (m.fuel - 1) as i64, resp: true }
    } else {
        goto(m, m.pc + 1, m.st)
    }
}

/// A new round: from the first instruction, with an empty stack and no respawn due.
pub open spec fn restart(m: DState) -> DState {
    DState { pc: 0, st: Seq::empty(), regs: m.regs, ar: m.ar, fuel: m.fuel, resp: false }
}

/// Whether the machine has stopped: past the last instruction with no respawn due.
pub open spec fn halted(code: Seq<Ins>, m: DState) -> bool {
    m.pc >= code.len() && !m.resp
}

/// Running from `m` until it stops, in at most `n` steps: the final state, the instructions
/// run, and the rounds begun after the first.
pub open spec fn run_n(code: Seq<Ins>, m: DState, n: nat) -> Option<(DState, nat, nat)>
    decreases n,
{
    if halted(code, m) {
        Some((m, 0, 0))
    } else if n == 0 {
        None
    } else if m.pc >= code.len() {
        match run_n(code, restart(m), (n - 1) as nat) {
            Some((f, i, r)) => Some((f, i, r + 1)),
            None => None,
        }
    } else {
        match step_d(code, m) {
            Some(m2) => match run_n(code, m2, (n - 1) as nat) {
                Some((f, i, r)) => Some((f, i + 1, r)),
                None => None,
            },
            None => None,
        }
    }
}

/// The starting state of a run.
pub open spec fn start_d(regs: Seq<Option<Val>>, ar: Seq<(Val, Val)>, fuel: i64) -> DState {
    DState { pc: 0, st: Seq::empty(), regs, ar, fuel, resp: false }
}

/// Whether a run from `m` stops.
pub open spec fn stops(code: Seq<Ins>, m: DState) -> bool {
    exists|n: nat| #[trigger] run_n(code, m, n) is Some
}

/// The run of `code` from the given registers, arena and fuel, where it stops: the final state,
/// the instructions run, and the rounds begun after the first. `None` where it gets stuck or
/// never stops.
pub open spec fn run_d_spec(code: Seq<Ins>, regs: Seq<Option<Val>>, ar: Seq<(Val, Val)>, fuel: i64) -> Option<(DState, nat, nat)> {
    let m = start_d(regs, ar, fuel);
    if stops(code, m) {
        run_n(code, m, choose|n: nat| #[trigger] run_n(code, m, n) is Some)
    } else {
        None
    }
}

/// A run's outcome does not depend on how many steps it was allowed, once it stops.
pub proof fn lemma_run_n_unique(code: Seq<Ins>, m: DState, n1: nat, n2: nat)
    requires
        run_n(code, m, n1) is Some,
        run_n(code, m, n2) is Some,
    ensures
        run_n(code, m, n1) == run_n(code, m, n2),
    decreases n1,
{
    if !halted(code, m) && n1 > 0 && n2 > 0 {
        if m.pc >= code.len() {
            lemma_run_n_unique(code, restart(m), (n1 - 1) as nat, (n2 - 1) as nat);
        } else {
            lemma_run_n_unique(code, step_d(code, m).unwrap(), (n1 - 1) as nat, (n2 - 1) as nat);
        }
    }
}

/// Every stack value refers only to cells before `n`.
pub open spec fn stack_below(st: Seq<Val>, n: int) -> bool {
    forall|i: int| 0 <= i < st.len() ==> below(#[trigger] st[i], n)
}

/// The machine's values refer only to existing cells, each cell only to earlier ones.
pub open spec fn sound_d(m: DState) -> bool {
    &&& wf_arena(m.ar)
    &&& stack_below(m.st, m.ar.len() as int)
    &&& regs_below(m.regs, m.ar.len() as int)
}

/// A step keeps the machine sound and only adds cells.
pub proof fn lemma_step_sound(code: Seq<Ins>, m: DState)
    requires
        sound_d(m),
        step_d(code, m) is Some,
    ensures
        sound_d(step_d(code, m).unwrap()),
        is_prefix(m.ar, step_d(code, m).unwrap().ar),
        step_d(code, m).unwrap().regs.len() == m.regs.len(),
{
    let m2 = step_d(code, m).unwrap();
    let n = m.st.len();
    lemma_prefix_refl(m.ar);
    match code[m.pc] {
        Ins::Cons => {
            lemma_push_wf(m.ar, m.st[n - 2], m.st[n - 1]);
            assert(below(m.st[n - 2], m.ar.len() as int));
            assert(below(m.st[n - 1], m.ar.len() as int));
            assert(is_prefix(m.ar, m2.ar));
            assert forall|s: int| 0 <= s < m2.regs.len() implies (#[trigger] m2.regs[s] matches Some(v) ==> below(v, m2.ar.len() as int)) by {
                assert(m.regs[s] matches Some(v) ==> below(v, m.ar.len() as int));
            }
        },
        Ins::Car | Ins::Cdr => {
            if let Val::P(c) = m.st[n - 1] {
                assert(below(m.ar[c as int].0, c as int));
            }
        },
        Ins::Load(s) => {
            assert(m.regs[s as int] matches Some(v) ==> below(v, m.ar.len() as int));
        },
        Ins::Store(s) => {
            assert(below(m.st[n - 1], m.ar.len() as int));
        },
        _ => {},
    }
}

/// The machine state the running variables of `exec_d` stand for.
pub open spec fn dstate(pc: usize, st: Seq<Val>, regs: Seq<Option<Val>>, ar: Seq<(Val, Val)>, fuel: i64, resp: bool) -> DState {
    DState { pc: pc as int, st, regs, ar, fuel, resp }
}

/// Runs the instruction at `pc`, as `step_d` says.
fn step_exec(code: &[Ins], pc: &mut usize, st: &mut Vec<Val>, regs: &mut Vec<Option<Val>>, ar: &mut Arena, fuel: &mut i64, respawn: &mut bool)
    requires
        code@.len() + 4 <= usize::MAX,
        sound_d(dstate(*old(pc), old(st)@, old(regs)@, old(ar)@, *old(fuel), *old(respawn))),
        step_d(code@, dstate(*old(pc), old(st)@, old(regs)@, old(ar)@, *old(fuel), *old(respawn))) is Some,
    ensures
        step_d(code@, dstate(*old(pc), old(st)@, old(regs)@, old(ar)@, *old(fuel), *old(respawn)))
            == Some(dstate(*final(pc), final(st)@, final(regs)@, final(ar)@, *final(fuel), *final(respawn))),
{
    let i = *pc;
    let ghost n = st@.len() as int;
    let ghost st0 = st@;
    match code[i] {
        Ins::Lit(k) => {
            st.push(Val::I(k));
            *pc = i + 1;
        },
        Ins::Load(s) => {
            let v = regs[s as usize].unwrap();
            st.push(v);
            *pc = i + 1;
        },
        Ins::Add | Ins::Sub => {
            let is_add = code[i] == Ins::Add;
            let b = st.pop().unwrap();
            let a = st.pop().unwrap();
            assert(st@ =~= st0.take(n - 2));
            match (a, b) {
                (Val::I(x), Val::I(y)) => st.push(Val::I(if is_add { x.wrapping_add(y) } else { x.wrapping_sub(y) })),
                _ => {
                    proof { assert(false); }
                },
            }
            *pc = i + 1;
        },
        Ins::Eq => {
            let b = st.pop().unwrap();
            let a = st.pop().unwrap();
            assert(st@ =~= st0.take(n - 2));
            assert(below(st0[n - 2], ar@.len() as int) && below(st0[n - 1], ar@.len() as int));
            let e = eq_v(ar, a, b);
            st.push(Val::I(if e { 1 } else { 0 }));
            *pc = i + 1;
        },
        Ins::NilV => {
            st.push(Val::Nil);
            *pc = i + 1;
        },
        Ins::Cons => {
            let d = st.pop().unwrap();
            let a = st.pop().unwrap();
            assert(st@ =~= st0.take(n - 2));
            let p = cons_a(ar, a, d);
            st.push(p);
            *pc = i + 1;
        },
        Ins::Car | Ins::Cdr => {
            let is_car = code[i] == Ins::Car;
            let v = st.pop().unwrap();
            assert(st@ =~= st0.take(n - 1));
            match v {
                Val::P(c) => {
                    let cell = ar[c as usize];
                    st.push(if is_car { cell.0 } else { cell.1 });
                },
                _ => {
                    proof { assert(false); }
                },
            }
            *pc = i + 1;
        },
        Ins::IsPair => {
            let v = st.pop().unwrap();
            assert(st@ =~= st0.take(n - 1));
            st.push(Val::I(if let Val::P(_) = v { 1 } else { 0 }));
            *pc = i + 1;
        },
        Ins::Store(s) => {
            let v = st.pop().unwrap();
            assert(st@ =~= st0.take(n - 1));
            regs.set(s as usize, Some(v));
            *pc = i + 1;
        },
        Ins::Drop => {
            st.pop();
            assert(n > 0 ==> st@ =~= st0.take(n - 1));
            *pc = i + 1;
        },
        Ins::JmpF(t) => {
            let v = st.pop().unwrap();
            assert(st@ =~= st0.take(n - 1));
            if !truthy_v(v) {
                *pc = t as usize;
            } else {
                *pc = i + 1;
            }
        },
        Ins::Jmp(t) => {
            *pc = t as usize;
        },
        Ins::Respawn(g) => {
            if g >= 0 && !truthy_v(regs[g as usize].unwrap()) {
                *pc = i + 1;
                return;
            }
            if *fuel > 0 {
                *fuel -= 1;
                *respawn = true;
            }
            *pc = i + 1;
        },
        Ins::Nop => {
            *pc = i + 1;
        },
        Ins::EqK(s, k) => {
            let a = regs[s as usize].unwrap();
            assert(regs@[s as int] matches Some(v) ==> below(v, ar@.len() as int));
            let e = eq_v(ar, a, Val::I(k));
            st.push(Val::I(if e { 1 } else { 0 }));
            *pc = i + 3;
        },
        Ins::EqKJmpF(s, k, t) => {
            let a = regs[s as usize].unwrap();
            assert(regs@[s as int] matches Some(v) ==> below(v, ar@.len() as int));
            if eq_v(ar, a, Val::I(k)) {
                *pc = i + 4;
            } else {
                *pc = t as usize;
            }
        },
    }
}

/// Runs `code` in rounds until no respawn is due, and gives the register in slot `vs` with, when
/// `COUNT`, the instructions run and the rounds begun.
pub fn exec_d<const COUNT: bool>(code: &[Ins], regs: Vec<Option<Val>>, ar: &mut Arena, fuel: i64, vs: u32) -> (r: (Option<Val>, u64, u64))
    requires
        code@.len() + 4 <= usize::MAX,
        run_d_spec(code@, regs@, old(ar)@, fuel) is Some,
        wf_arena(old(ar)@),
        regs_below(regs@, old(ar)@.len() as int),
        COUNT ==> run_d_spec(code@, regs@, old(ar)@, fuel).unwrap().1 <= u64::MAX,
        COUNT ==> run_d_spec(code@, regs@, old(ar)@, fuel).unwrap().2 + 1 <= u64::MAX,
    ensures
        wf_arena(final(ar)@),
        is_prefix(old(ar)@, final(ar)@),
        final(ar)@ == run_d_spec(code@, regs@, old(ar)@, fuel).unwrap().0.ar,
        r.0 == reg_val(run_d_spec(code@, regs@, old(ar)@, fuel).unwrap().0.regs, vs as int),
        r.1 == (if COUNT { run_d_spec(code@, regs@, old(ar)@, fuel).unwrap().1 } else { 0 }),
        r.2 == (if COUNT { run_d_spec(code@, regs@, old(ar)@, fuel).unwrap().2 + 1 } else { 0 }),
{
    let ghost m0 = start_d(regs@, ar@, fuel);
    let ghost n0 = choose|n: nat| #[trigger] run_n(code@, m0, n) is Some;
    let ghost fin = run_n(code@, m0, n0).unwrap();
    let ghost ar0 = ar@;
    proof { lemma_prefix_refl(ar0); }
    let mut regs = regs;
    let mut fuel = fuel;
    let mut st: Vec<Val> = Vec::with_capacity(64);
    let mut ins: u64 = 0;
    let mut rounds: u64 = if COUNT { 1 } else { 0 };
    let mut respawn = false;
    let mut pc: usize = 0;
    let ghost mut nr: nat = n0;
    let ghost mut gi: nat = 0;
    let ghost mut gr: nat = 0;
    loop
        invariant
            code@.len() + 4 <= usize::MAX,
            sound_d(dstate(pc, st@, regs@, ar@, fuel, respawn)),
            is_prefix(ar0, ar@),
            gi <= fin.1,
            gr <= fin.2,
            run_n(code@, dstate(pc, st@, regs@, ar@, fuel, respawn), nr) == Some((fin.0, (fin.1 - gi) as nat, (fin.2 - gr) as nat)),
            COUNT ==> fin.1 <= u64::MAX && fin.2 + 1 <= u64::MAX,
            ins == (if COUNT { gi } else { 0 }),
            rounds == (if COUNT { gr + 1 } else { 0 }),
        ensures
            halted(code@, dstate(pc, st@, regs@, ar@, fuel, respawn)),
        decreases nr,
    {
        let ghost cur = dstate(pc, st@, regs@, ar@, fuel, respawn);
        if pc >= code.len() {
            if !respawn {
                break;
            }
            respawn = false;
            st.clear();
            pc = 0;
            if COUNT {
                rounds += 1;
            }
            proof {
                assert(dstate(pc, st@, regs@, ar@, fuel, respawn) == restart(cur));
                nr = (nr - 1) as nat;
                gr = gr + 1;
            }
            continue;
        }
        if COUNT {
            ins += 1;
        }
        let ghost ar1 = ar@;
        proof { lemma_step_sound(code@, cur); }
        step_exec(code, &mut pc, &mut st, &mut regs, ar, &mut fuel, &mut respawn);
        proof {
            lemma_prefix_trans(ar0, ar1, ar@);
            nr = (nr - 1) as nat;
            gi = gi + 1;
        }
    }
    proof {
        lemma_run_n_unique(code@, m0, n0, choose|n: nat| #[trigger] run_n(code@, m0, n) is Some);
    }
    let out = if (vs as usize) < regs.len() { regs[vs as usize] } else { None };
    (out, ins, rounds)
}

/// Runs `code` in rounds until no respawn is due, and gives the value in slot `vs`.
pub fn run_d(code: &[Ins], regs: Vec<Option<Val>>, ar: &mut Arena, fuel: i64, vs: u32) -> (r: Val)
    requires
        code@.len() + 4 <= usize::MAX,
        run_d_spec(code@, regs@, old(ar)@, fuel) is Some,
        reg_val(run_d_spec(code@, regs@, old(ar)@, fuel).unwrap().0.regs, vs as int) is Some,
        wf_arena(old(ar)@),
        regs_below(regs@, old(ar)@.len() as int),
    ensures
        wf_arena(final(ar)@),
        is_prefix(old(ar)@, final(ar)@),
        final(ar)@ == run_d_spec(code@, regs@, old(ar)@, fuel).unwrap().0.ar,
        reg_val(run_d_spec(code@, regs@, old(ar)@, fuel).unwrap().0.regs, vs as int) == Some(r),
{
    exec_d::<false>(code, regs, ar, fuel, vs).0.unwrap()
}

/// Counts a run of `code`: the instructions run and the rounds begun.
pub fn count_d(code: &[Ins], regs: Vec<Option<Val>>, ar: &mut Arena, fuel: i64) -> (r: (u64, u64))
    requires
        code@.len() + 4 <= usize::MAX,
        run_d_spec(code@, regs@, old(ar)@, fuel) is Some,
        run_d_spec(code@, regs@, old(ar)@, fuel).unwrap().1 <= u64::MAX,
        run_d_spec(code@, regs@, old(ar)@, fuel).unwrap().2 + 1 <= u64::MAX,
        wf_arena(old(ar)@),
        regs_below(regs@, old(ar)@.len() as int),
    ensures
        wf_arena(final(ar)@),
        is_prefix(old(ar)@, final(ar)@),
        final(ar)@ == run_d_spec(code@, regs@, old(ar)@, fuel).unwrap().0.ar,
        r == (run_d_spec(code@, regs@, old(ar)@, fuel).unwrap().1 as u64, (run_d_spec(code@, regs@, old(ar)@, fuel).unwrap().2 + 1) as u64),
{
    let (_, ins, rounds) = exec_d::<true>(code, regs, ar, fuel, u32::MAX);
    (ins, rounds)
}

/// Whether node `i` can be laid out as an expression: every node under it is an expression
/// node whose children come before it.
pub open spec fn expr_ok(ns: Seq<N>, i: int) -> bool
    decreases i,
{
    if i < 0 || i >= ns.len() {
        false
    } else {
        match ns[i] {
            N::Lit(_) | N::Var(_) | N::Nil => true,
            N::Add(x, y) | N::Sub(x, y) | N::Eq(x, y) | N::Cons(x, y) =>
                x < i && y < i && expr_ok(ns, x as int) && expr_ok(ns, y as int),
            N::Car(x) | N::Cdr(x) | N::IsPair(x) => x < i && expr_ok(ns, x as int),
            _ => false,
        }
    }
}

/// The code for node `i` as an expression: its operands in order, then its operation.
pub open spec fn expr_code(ns: Seq<N>, i: int) -> Seq<Ins>
    decreases i,
{
    if i < 0 || i >= ns.len() {
        Seq::empty()
    } else {
        match ns[i] {
            N::Lit(k) => seq![Ins::Lit(k)],
            N::Var(s) => seq![Ins::Load(s)],
            N::Nil => seq![Ins::NilV],
            N::Add(x, y) | N::Sub(x, y) | N::Eq(x, y) | N::Cons(x, y) => if x < i && y < i {
                expr_code(ns, x as int) + expr_code(ns, y as int) + seq![
                    match ns[i] {
                        N::Add(_, _) => Ins::Add,
                        N::Sub(_, _) => Ins::Sub,
                        N::Eq(_, _) => Ins::Eq,
                        _ => Ins::Cons,
                    },
                ]
            } else {
                Seq::empty()
            },
            N::Car(x) | N::Cdr(x) | N::IsPair(x) => if x < i {
                expr_code(ns, x as int) + seq![
                    match ns[i] {
                        N::Car(_) => Ins::Car,
                        N::Cdr(_) => Ins::Cdr,
                        _ => Ins::IsPair,
                    },
                ]
            } else {
                Seq::empty()
            },
            _ => Seq::empty(),
        }
    }
}

/// Lays out node `i` as an expression at the end of `out`.
pub fn emit_expr(ns: &[N], i: u32, out: &mut Vec<Ins>)
    requires
        expr_ok(ns@, i as int),
    ensures
        final(out)@ == old(out)@ + expr_code(ns@, i as int),
    decreases i,
{
    let ghost o = out@;
    match &ns[i as usize] {
        N::Lit(k) => out.push(Ins::Lit(*k)),
        N::Var(s) => out.push(Ins::Load(*s)),
        N::Nil => out.push(Ins::NilV),
        N::Add(x, y) => {
            emit_expr(ns, *x, out);
            emit_expr(ns, *y, out);
            out.push(Ins::Add);
        },
        N::Sub(x, y) => {
            emit_expr(ns, *x, out);
            emit_expr(ns, *y, out);
            out.push(Ins::Sub);
        },
        N::Eq(x, y) => {
            emit_expr(ns, *x, out);
            emit_expr(ns, *y, out);
            out.push(Ins::Eq);
        },
        N::Cons(x, y) => {
            emit_expr(ns, *x, out);
            emit_expr(ns, *y, out);
            out.push(Ins::Cons);
        },
        N::Car(x) => {
            emit_expr(ns, *x, out);
            out.push(Ins::Car);
        },
        N::Cdr(x) => {
            emit_expr(ns, *x, out);
            out.push(Ins::Cdr);
        },
        N::IsPair(x) => {
            emit_expr(ns, *x, out);
            out.push(Ins::IsPair);
        },
        _ => {
            proof { assert(false); }
        },
    }
    assert(out@ =~= o + expr_code(ns@, i as int));
}

/// Whether node `i` can be laid out as a statement: blocks, assignments, branches and respawns
/// whose parts come before them and can be laid out, or an expression.
pub open spec fn stmt_ok(ns: Seq<N>, i: int) -> bool
    decreases i, 1int, 0int,
{
    if i < 0 || i >= ns.len() {
        false
    } else {
        match ns[i] {
            N::Block(ss) => list_ok(ns, i, ss@),
            N::Assign(_, e) => e < i && expr_ok(ns, e as int),
            N::If(c, t, f) => c < i && t < i && f < i && expr_ok(ns, c as int) && stmt_ok(ns, t as int)
                && stmt_ok(ns, f as int),
            N::Respawn(_) => true,
            _ => expr_ok(ns, i),
        }
    }
}

/// Whether the nodes `ss`, children of node `i`, can each be laid out as a statement.
pub open spec fn list_ok(ns: Seq<N>, i: int, ss: Seq<u32>) -> bool
    decreases i, 0int, ss.len(),
{
    if ss.len() == 0 {
        true
    } else {
        0 <= ss[0] < i && stmt_ok(ns, ss[0] as int) && list_ok(ns, i, ss.drop_first())
    }
}

/// The code for node `i` as a statement laid out from position `base`: a branch jumps forward
/// over the arm it does not take; a bare expression drops its value.
pub open spec fn stmt_code(ns: Seq<N>, i: int, base: int) -> Seq<Ins>
    decreases i, 1int, 0int,
{
    if i < 0 || i >= ns.len() {
        Seq::empty()
    } else {
        match ns[i] {
            N::Block(ss) => list_code(ns, i, ss@, base),
            N::Assign(slot, e) => if e < i {
                expr_code(ns, e as int) + seq![Ins::Store(slot)]
            } else {
                Seq::empty()
            },
            N::If(c, t, f) => if c < i && t < i && f < i {
                let cc = expr_code(ns, c as int);
                let tc = stmt_code(ns, t as int, base + cc.len() + 1);
                let fb = base + cc.len() + 1 + tc.len() + 1;
                let fc = stmt_code(ns, f as int, fb);
                cc + seq![Ins::JmpF(fb as u32)] + tc + seq![Ins::Jmp((fb + fc.len()) as u32)] + fc
            } else {
                Seq::empty()
            },
            N::Respawn(g) => seq![
                Ins::Respawn(
                    match g {
                        Some(s) => s as i32,
                        None => -1i32,
                    },
                ),
            ],
            _ => expr_code(ns, i) + seq![Ins::Drop],
        }
    }
}

/// The code for the nodes `ss`, children of node `i`, one after another from position `base`.
pub open spec fn list_code(ns: Seq<N>, i: int, ss: Seq<u32>, base: int) -> Seq<Ins>
    decreases i, 0int, ss.len(),
{
    if ss.len() == 0 {
        Seq::empty()
    } else if 0 <= ss[0] < i {
        let h = stmt_code(ns, ss[0] as int, base);
        h + list_code(ns, i, ss.drop_first(), base + h.len())
    } else {
        Seq::empty()
    }
}

/// Lays out node `i` as a statement at the end of `out`.
pub fn emit_stmt(ns: &[N], i: u32, out: &mut Vec<Ins>)
    requires
        stmt_ok(ns@, i as int),
    ensures
        final(out)@ == old(out)@ + stmt_code(ns@, i as int, old(out)@.len() as int),
    decreases i, 1int, 0int,
{
    let ghost o = out@;
    match &ns[i as usize] {
        N::Block(ss) => {
            let mut k: usize = 0;
            assert(ss@.subrange(0, ss@.len() as int) =~= ss@);
            while k < ss.len()
                invariant
                    k <= ss@.len(),
                    ns@[i as int] == N::Block(*ss),
                    0 <= i < ns@.len(),
                    list_ok(ns@, i as int, ss@.subrange(k as int, ss@.len() as int)),
                    o + list_code(ns@, i as int, ss@, o.len() as int)
                        == out@ + list_code(ns@, i as int, ss@.subrange(k as int, ss@.len() as int), out@.len() as int),
                decreases ss@.len() - k,
            {
                let ghost rest = ss@.subrange(k as int, ss@.len() as int);
                let ghost o1 = out@;
                assert(rest.drop_first() =~= ss@.subrange(k + 1, ss@.len() as int));
                assert(rest[0] == ss@[k as int]);
                emit_stmt(ns, ss[k], out);
                assert(o1 + list_code(ns@, i as int, rest, o1.len() as int)
                    =~= out@ + list_code(ns@, i as int, ss@.subrange(k + 1, ss@.len() as int), out@.len() as int));
                k += 1;
            }
            assert(ss@.subrange(k as int, ss@.len() as int) =~= Seq::<u32>::empty());
            assert(out@ =~= o + list_code(ns@, i as int, ss@, o.len() as int));
        },
        N::Assign(slot, e) => {
            emit_expr(ns, *e, out);
            out.push(Ins::Store(*slot));
            assert(out@ =~= o + stmt_code(ns@, i as int, o.len() as int));
        },
        N::If(c, t, f) => {
            emit_expr(ns, *c, out);
            let jf = out.len();
            out.push(Ins::JmpF(0));
            emit_stmt(ns, *t, out);
            let je = out.len();
            out.push(Ins::Jmp(0));
            let at_f = out.len() as u32;
            out.set(jf, Ins::JmpF(at_f));
            let ghost o2 = out@;
            emit_stmt(ns, *f, out);
            let end = out.len() as u32;
            out.set(je, Ins::Jmp(end));
            proof {
                let cc = expr_code(ns@, *c as int);
                let tc = stmt_code(ns@, *t as int, (o.len() + cc.len() + 1) as int);
                let fb = (o.len() + cc.len() + 1 + tc.len() + 1) as int;
                let fc = stmt_code(ns@, *f as int, fb);
                assert(o2.len() == fb);
                assert(out@ =~= o + (cc + seq![Ins::JmpF(fb as u32)] + tc + seq![Ins::Jmp((fb + fc.len()) as u32)] + fc));
            }
        },
        N::Respawn(g) => {
            out.push(Ins::Respawn(match g {
                Some(s) => *s as i32,
                None => -1,
            }));
            assert(out@ =~= o + stmt_code(ns@, i as int, o.len() as int));
        },
        _ => {
            emit_expr(ns, i, out);
            out.push(Ins::Drop);
            assert(out@ =~= o + stmt_code(ns@, i as int, o.len() as int));
        },
    }
}

/// Where a plain jump goes.
pub open spec fn jump_target(x: Ins) -> Option<int> {
    match x {
        Ins::JmpF(t) | Ins::Jmp(t) => Some(t as int),
        _ => None,
    }
}

/// Whether one of the first `n` instructions is a plain jump to `p`.
pub open spec fn target_before(code: Seq<Ins>, p: int, n: int) -> bool {
    exists|k: int| 0 <= k < n && #[trigger] jump_target(code[k]) == Some(p)
}

/// Whether some plain jump of `code` goes to `p`.
pub open spec fn is_target(code: Seq<Ins>, p: int) -> bool {
    target_before(code, p, code.len() as int)
}

/// Whether every plain jump goes at most one past the last instruction.
pub open spec fn targets_in(code: Seq<Ins>) -> bool {
    forall|k: int| 0 <= k < code.len() ==> (#[trigger] jump_target(code[k]) matches Some(t) ==> t <= code.len())
}

/// Folding runs from position `i` of `code`, left to right, with the jump targets of `code0`:
/// `Load Lit Eq JmpF` becomes `EqKJmpF` and `Load Lit Eq` becomes `EqK`, followed by `Nop`s in
/// the places they took, unless a jump lands inside the run. Gives the folded code and the runs
/// folded.
pub open spec fn fold_from(code0: Seq<Ins>, code: Seq<Ins>, i: int) -> (Seq<Ins>, nat)
    decreases code.len() - i,
{
    if i < 0 || i + 2 >= code.len() {
        (code, 0)
    } else if code[i] is Load && code[i + 1] is Lit && code[i + 2] is Eq && !is_target(code0, i + 1)
        && !is_target(code0, i + 2) {
        let s = code[i]->Load_0;
        let k = code[i + 1]->Lit_0;
        if i + 3 < code.len() && code[i + 3] is JmpF && !is_target(code0, i + 3) {
            let c2 = code.update(i, Ins::EqKJmpF(s, k, code[i + 3]->JmpF_0)).update(i + 1, Ins::Nop).update(
                i + 2,
                Ins::Nop,
            ).update(i + 3, Ins::Nop);
            let r = fold_from(code0, c2, i + 4);
            (r.0, r.1 + 1)
        } else {
            let c2 = code.update(i, Ins::EqK(s, k)).update(i + 1, Ins::Nop).update(i + 2, Ins::Nop);
            let r = fold_from(code0, c2, i + 3);
            (r.0, r.1 + 1)
        }
    } else {
        fold_from(code0, code, i + 1)
    }
}

/// Folds runs of `code` in place, moving no instruction, and gives how many were folded.
pub fn fold_runs(code: &mut Vec<Ins>) -> (n: usize)
    requires
        targets_in(old(code)@),
        old(code)@.len() + 4 <= usize::MAX,
    ensures
        (final(code)@, n as nat) == fold_from(old(code)@, old(code)@, 0),
        final(code)@.len() == old(code)@.len(),
{
    let ghost c0 = code@;
    let len = code.len();
    let mut marks: Vec<bool> = Vec::new();
    while marks.len() < len + 1
        invariant
            marks@.len() <= len + 1,
            len == c0.len(),
            len + 4 <= usize::MAX,
            forall|p: int| 0 <= p < marks@.len() ==> !#[trigger] marks@[p],
        decreases len + 1 - marks@.len(),
    {
        marks.push(false);
    }
    let mut j: usize = 0;
    while j < len
        invariant
            j <= len,
            len == c0.len(),
            code@ == c0,
            targets_in(c0),
            marks@.len() == len + 1,
            forall|p: int| 0 <= p <= len ==> #[trigger] marks@[p] == target_before(c0, p, j as int),
        decreases len - j,
    {
        let ghost m0 = marks@;
        match code[j] {
            Ins::JmpF(t) | Ins::Jmp(t) => {
                assert(jump_target(c0[j as int]) == Some(t as int));
                marks.set(t as usize, true);
            },
            _ => {},
        }
        assert forall|p: int| 0 <= p <= len implies #[trigger] marks@[p] == target_before(c0, p, j + 1) by {
            if marks@[p] {
                if !m0[p] {
                    assert(jump_target(c0[j as int]) == Some(p));
                }
            } else {
                if target_before(c0, p, j + 1) {
                    let k = choose|k: int| 0 <= k < j + 1 && #[trigger] jump_target(c0[k]) == Some(p);
                    if k < j {
                        assert(target_before(c0, p, j as int));
                    }
                }
            }
        }
        j += 1;
    }
    let mut n: usize = 0;
    let mut i: usize = 0;
    while i + 2 < code.len()
        invariant
            len == c0.len(),
            len + 4 <= usize::MAX,
            code@.len() == len,
            i <= len,
            n <= i,
            marks@.len() == len + 1,
            forall|p: int| 0 <= p <= len ==> #[trigger] marks@[p] == is_target(c0, p),
            fold_from(c0, c0, 0) == (fold_from(c0, code@, i as int).0, (fold_from(c0, code@, i as int).1 + n) as nat),
        decreases len - i,
    {
        let three = match (code[i], code[i + 1], code[i + 2]) {
            (Ins::Load(_), Ins::Lit(_), Ins::Eq) => true,
            _ => false,
        } && !marks[i + 1] && !marks[i + 2];
        if !three {
            i += 1;
            continue;
        }
        let (s, k) = match (code[i], code[i + 1]) {
            (Ins::Load(s), Ins::Lit(k)) => (s, k),
            _ => {
                proof { assert(false); }
                (0, 0)
            },
        };
        let four = i + 3 < code.len() && match code[i + 3] {
            Ins::JmpF(_) => true,
            _ => false,
        } && !marks[i + 3];
        if four {
            let t = match code[i + 3] {
                Ins::JmpF(t) => t,
                _ => {
                    proof { assert(false); }
                    0
                },
            };
            code.set(i, Ins::EqKJmpF(s, k, t));
            code.set(i + 1, Ins::Nop);
            code.set(i + 2, Ins::Nop);
            code.set(i + 3, Ins::Nop);
            i += 4;
        } else {
            code.set(i, Ins::EqK(s, k));
            code.set(i + 1, Ins::Nop);
            code.set(i + 2, Ins::Nop);
            i += 3;
        }
        n += 1;
    }
    n
}

} // verus!
