use vstd::prelude::*;
use crate::chars::{copy_chars, same_chars};
use crate::json::{Json, spec_to_v, to_v};
use crate::regs::Regs;
use crate::value::{V, clone_v, deep_eq, is_pair, spec_truthy, truthy};
use crate::words::{w_add, w_car, w_cdr, w_cons, w_eq, w_if, w_let, w_lit, w_nilop, w_pairp, w_respawn, w_seq, w_set, w_sub, w_var, w_vs};

verus! {

/// The registers' table of the machine.
pub type RegMap = Map<Seq<char>, V>;

/// The value of expression `n` under `regs`; `None` where evaluating it would stop the run
/// (a missing register, a short node, arithmetic on a non-integer, an unknown operation).
pub open spec fn ev_a(n: Json, regs: RegMap) -> Option<V>
    decreases n,
{
    match n {
        Json::Arr(a) => {
            if a@.len() == 0 {
                None
            } else if !(a@[0] is Str) {
                Some(V::I(0))
            } else {
                let op = a@[0]->Str_0@;
                if op == w_lit() {
                    if a@.len() < 2 {
                        None
                    } else {
                        match a@[1] {
                            Json::Num(k) => Some(V::I(k)),
                            _ => Some(V::I(0)),
                        }
                    }
                } else if op == w_var() {
                    if a@.len() < 2 {
                        None
                    } else {
                        match a@[1] {
                            Json::Str(k) => if regs.contains_key(k@) {
                                Some(regs[k@])
                            } else {
                                None
                            },
                            _ => Some(V::I(0)),
                        }
                    }
                } else if op == w_add() || op == w_sub() || op == w_eq() || op == w_cons() {
                    if a@.len() < 3 {
                        None
                    } else {
                        match (ev_a(a@[1], regs), ev_a(a@[2], regs)) {
                            (Some(x), Some(y)) => {
                                if op == w_eq() {
                                    Some(V::I(if x == y { 1 } else { 0 }))
                                } else if op == w_cons() {
                                    Some(V::P(Box::new(x), Box::new(y)))
                                } else {
                                    match (x, y) {
                                        (V::I(p), V::I(q)) => Some(
                                            V::I(if op == w_add() { p.wrapping_add(q) } else { p.wrapping_sub(q) }),
                                        ),
                                        _ => None,
                                    }
                                }
                            },
                            _ => None,
                        }
                    }
                } else if op == w_nilop() {
                    Some(V::Nil)
                } else if op == w_car() || op == w_cdr() || op == w_pairp() {
                    if a@.len() < 2 {
                        None
                    } else {
                        match ev_a(a@[1], regs) {
                            Some(x) => if op == w_pairp() {
                                Some(V::I(if x is P { 1 } else { 0 }))
                            } else {
                                match x {
                                    V::P(h, t) => Some(if op == w_car() { *h } else { *t }),
                                    _ => None,
                                }
                            },
                            None => None,
                        }
                    }
                } else {
                    None
                }
            }
        },
        _ => Some(V::I(0)),
    }
}

/// The machine state that statements change: registers, fuel, and whether a respawn is due.
pub type StA = (RegMap, i64, bool);

/// The state after statement `n`; `None` where running it would stop the run.
pub open spec fn ex_a(n: Json, st: StA) -> Option<StA>
    decreases n,
{
    let (regs, fuel, resp) = st;
    match n {
        Json::Arr(a) => {
            if a@.len() == 0 {
                None
            } else if !(a@[0] is Str) {
                Some(st)
            } else {
                let op = a@[0]->Str_0@;
                if op == w_seq() {
                    if a@.len() < 2 {
                        None
                    } else {
                        match a@[1] {
                            Json::Arr(ss) => ex_list_a(ss@, st),
                            _ => Some(st),
                        }
                    }
                } else if op == w_set() || op == w_let() {
                    if a@.len() < 3 {
                        None
                    } else {
                        match ev_a(a@[2], regs) {
                            None => None,
                            Some(v) => match a@[1] {
                                Json::Str(k) => Some((regs.insert(k@, v), fuel, resp)),
                                _ => Some(st),
                            },
                        }
                    }
                } else if op == w_if() {
                    if a@.len() < 2 {
                        None
                    } else {
                        match ev_a(a@[1], regs) {
                            None => None,
                            Some(c) => if spec_truthy(c) {
                                if a@.len() < 3 {
                                    None
                                } else {
                                    ex_a(a@[2], st)
                                }
                            } else {
                                if a@.len() < 4 {
                                    None
                                } else {
                                    ex_a(a@[3], st)
                                }
                            },
                        }
                    }
                } else if op == w_respawn() {
                    if a@.len() > 1 && a@[1] is Str && !regs.contains_key(a@[1]->Str_0@) {
                        None
                    } else if a@.len() > 1 && a@[1] is Str && !spec_truthy(regs[a@[1]->Str_0@]) {
                        Some(st)
                    } else if fuel <= 0 {
                        Some(st)
                    } else {
                        Some((regs, (fuel - 1) as i64, true))
                    }
                } else {
                    match ev_a(n, regs) {
                        None => None,
                        Some(_) => Some(st),
                    }
                }
            }
        },
        _ => Some(st),
    }
}

/// The state after the statements `ss`, in order.
pub open spec fn ex_list_a(ss: Seq<Json>, st: StA) -> Option<StA>
    decreases ss,
{
    if ss.len() == 0 {
        Some(st)
    } else {
        match ex_a(ss[0], st) {
            None => None,
            Some(st2) => ex_list_a(ss.drop_first(), st2),
        }
    }
}

} // verus!

verus! {

/// Evaluates expression `n` under `regs`.
pub fn ev(n: &Json, regs: &Regs) -> (r: V)
    requires
        regs.wf(),
        ev_a(*n, regs@) is Some,
    ensures
        ev_a(*n, regs@) == Some(r),
    decreases n,
{
    let a = match n {
        Json::Arr(a) => a,
        _ => return V::I(0),
    };
    let op: &Vec<char> = match &a[0] {
        Json::Str(s) => s,
        _ => return V::I(0),
    };
    let op = op.as_slice();
    if same_chars(op, &['l', 'i', 't']) {
        match &a[1] {
            Json::Num(k) => V::I(*k),
            _ => V::I(0),
        }
    } else if same_chars(op, &['v', 'a', 'r']) {
        match &a[1] {
            Json::Str(k) => clone_v(regs.get(k.as_slice())),
            _ => V::I(0),
        }
    } else if same_chars(op, &['a', 'd', 'd']) || same_chars(op, &['s', 'u', 'b']) {
        let add = same_chars(op, &['a', 'd', 'd']);
        let x = ev(&a[1], regs);
        let y = ev(&a[2], regs);
        match (x, y) {
            (V::I(p), V::I(q)) => V::I(if add { p.wrapping_add(q) } else { p.wrapping_sub(q) }),
            _ => { proof { assert(false); } V::I(0) }
        }
    } else if same_chars(op, &['e', 'q']) {
        let x = ev(&a[1], regs);
        let y = ev(&a[2], regs);
        V::I(if deep_eq(&x, &y) { 1 } else { 0 })
    } else if same_chars(op, &['n', 'i', 'l']) {
        V::Nil
    } else if same_chars(op, &['c', 'o', 'n', 's']) {
        let x = ev(&a[1], regs);
        let y = ev(&a[2], regs);
        V::P(Box::new(x), Box::new(y))
    } else if same_chars(op, &['c', 'a', 'r']) || same_chars(op, &['c', 'd', 'r']) {
        let car = same_chars(op, &['c', 'a', 'r']);
        match ev(&a[1], regs) {
            V::P(h, t) => if car { *h } else { *t },
            _ => { proof { assert(false); } V::I(0) }
        }
    } else if same_chars(op, &['p', 'a', 'i', 'r']) {
        let x = ev(&a[1], regs);
        V::I(if is_pair(&x) { 1 } else { 0 })
    } else {
        proof { assert(false); }
        V::I(0)
    }
}

/// Runs statement `n`, changing the registers, the fuel and the respawn flag.
pub fn ex(n: &Json, regs: &mut Regs, fuel: &mut i64, respawn: &mut bool)
    requires
        old(regs).wf(),
        ex_a(*n, (old(regs)@, *old(fuel), *old(respawn))) is Some,
    ensures
        final(regs).wf(),
        ex_a(*n, (old(regs)@, *old(fuel), *old(respawn))) == Some((final(regs)@, *final(fuel), *final(respawn))),
    decreases n,
{
    let a = match n {
        Json::Arr(a) => a,
        _ => return,
    };
    let op: &Vec<char> = match &a[0] {
        Json::Str(s) => s,
        _ => return,
    };
    let op = op.as_slice();
    if same_chars(op, &['s', 'e', 'q']) {
        if let Json::Arr(ss) = &a[1] {
            let mut i: usize = 0;
            let ghost target = ex_a(*n, (old(regs)@, *old(fuel), *old(respawn)));
            assert(ss@.subrange(0, ss@.len() as int) =~= ss@);
            while i < ss.len()
                invariant
                    i <= ss@.len(),
                    regs.wf(),
                    a@[1] == Json::Arr(*ss),
                    n == Json::Arr(*a),
                    a@.len() >= 2,
                    ex_list_a(ss@.subrange(i as int, ss@.len() as int), (regs@, *fuel, *respawn)) == target,
                    target is Some,
                decreases ss@.len() - i,
            {
                let ghost rest = ss@.subrange(i as int, ss@.len() as int);
                assert(rest.drop_first() =~= ss@.subrange(i + 1, ss@.len() as int));
                assert(rest[0] == ss@[i as int]);
                proof {
                    assert(decreases_to!(*n => n->Arr_0));
                    assert(decreases_to!(*a => a@));
                    assert(decreases_to!(a@ => a@[1]));
                    assert(decreases_to!(a@[1] => a@[1]->Arr_0));
                    assert(decreases_to!(*ss => ss@));
                    assert(decreases_to!(ss@ => ss@[i as int]));
                    assert(decreases_to!(*n => ss@[i as int]));
                }
                ex(&ss[i], regs, fuel, respawn);
                i += 1;
            }
            assert(ss@.subrange(i as int, ss@.len() as int) =~= Seq::<Json>::empty());
        }
    } else if same_chars(op, &['s', 'e', 't']) || same_chars(op, &['l', 'e', 't']) {
        let v = ev(&a[2], regs);
        if let Json::Str(k) = &a[1] {
            regs.insert(copy_chars(k.as_slice()), v);
        }
    } else if same_chars(op, &['i', 'f']) {
        let c = ev(&a[1], regs);
        if truthy(&c) {
            ex(&a[2], regs, fuel, respawn);
        } else {
            ex(&a[3], regs, fuel, respawn);
        }
    } else if same_chars(op, &['r', 'e', 's', 'p', 'a', 'w', 'n']) {
        if a.len() > 1 {
            if let Json::Str(g) = &a[1] {
                if !truthy(regs.get(g.as_slice())) {
                    return;
                }
            }
        }
        if *fuel <= 0 {
            return;
        }
        *fuel -= 1;
        *respawn = true;
    } else {
        ev(n, regs);
    }
}

/// The result of running the machine `m` from `regs` until no respawn is due: the register
/// `vs`; `None` where the run stops on the way.
pub open spec fn run_a_spec(m: Json, regs: RegMap, fuel: i64) -> Option<V>
    decreases fuel,
{
    match ex_a(m, (regs, fuel, false)) {
        None => None,
        Some((r, f, resp)) => if resp {
            if 0 <= f < fuel {
                run_a_spec(m, r, f)
            } else {
                None
            }
        } else if r.contains_key(w_vs()) {
            Some(r[w_vs()])
        } else {
            None
        },
    }
}

/// Running a statement never adds fuel, spends it only while it is positive, and raises the
/// respawn flag only by spending some.
pub proof fn lemma_ex_a_fuel(n: Json, st: StA)
    ensures
        ex_a(n, st) matches Some((_, f, resp)) ==> f <= st.1 && (f < st.1 ==> f >= 0) && (resp ==> st.2 || f < st.1),
    decreases n,
{
    match n {
        Json::Arr(a) => {
            if a@.len() > 0 && a@[0] is Str {
                let op = a@[0]->Str_0@;
                if op == w_seq() {
                    if a@.len() >= 2 {
                        if let Json::Arr(ss) = a@[1] {
                            lemma_ex_list_a_fuel(ss@, st);
                        }
                    }
                } else if op == w_if() {
                    if a@.len() >= 3 {
                        lemma_ex_a_fuel(a@[2], st);
                    }
                    if a@.len() >= 4 {
                        lemma_ex_a_fuel(a@[3], st);
                    }
                }
            }
        },
        _ => {},
    }
}

pub proof fn lemma_ex_list_a_fuel(ss: Seq<Json>, st: StA)
    ensures
        ex_list_a(ss, st) matches Some((_, f, resp)) ==> f <= st.1 && (f < st.1 ==> f >= 0) && (resp ==> st.2 || f < st.1),
    decreases ss,
{
    if ss.len() > 0 {
        lemma_ex_a_fuel(ss[0], st);
        if let Some(st2) = ex_a(ss[0], st) {
            lemma_ex_list_a_fuel(ss.drop_first(), st2);
        }
    }
}

/// Runs the machine `m` from `regs` until no respawn is due, and gives the register `vs`.
pub fn run_a(machine: &Json, regs: Regs, fuel: i64) -> (r: V)
    requires
        regs.wf(),
        run_a_spec(*machine, regs@, fuel) is Some,
    ensures
        run_a_spec(*machine, regs@, fuel) == Some(r),
{
    let ghost target = run_a_spec(*machine, regs@, fuel);
    let mut regs = regs;
    let mut fuel = fuel;
    let mut respawn = true;
    while respawn
        invariant
            regs.wf(),
            target is Some,
            respawn ==> run_a_spec(*machine, regs@, fuel) == target,
            !respawn ==> regs@.contains_key(w_vs()) && target == Some(regs@[w_vs()]),
        decreases (if respawn { if fuel >= 0 { fuel as int + 2 } else { 1 } } else { 0 }),
    {
        let ghost f0 = fuel;
        respawn = false;
        proof { lemma_ex_a_fuel(*machine, (regs@, fuel, false)); }
        ex(machine, &mut regs, &mut fuel, &mut respawn);
    }
    clone_v(regs.get(&['v', 's']))
}

/// The registers that a host object describes: each member's value decoded, later members
/// replacing earlier ones of the same name.
pub open spec fn host_map(kvs: Seq<(Vec<char>, Json)>) -> RegMap
    decreases kvs.len(),
{
    if kvs.len() == 0 {
        Map::empty()
    } else {
        host_map(kvs.drop_last()).insert(kvs.last().0@, spec_to_v(kvs.last().1)->0)
    }
}

/// Whether every member of a host object decodes.
pub open spec fn host_ok(obj: Json) -> bool {
    obj is Obj ==> forall|k: int| 0 <= k < obj->Obj_0@.len() ==> (#[trigger] spec_to_v(obj->Obj_0@[k].1)) is Some
}

/// The registers that a host object describes; any other node describes none.
pub open spec fn spec_host_a(obj: Json) -> RegMap {
    match obj {
        Json::Obj(kvs) => host_map(kvs@),
        _ => Map::empty(),
    }
}

/// Registers loaded from a host object.
pub fn host_a(obj: &Json) -> (r: Regs)
    requires
        host_ok(*obj),
    ensures
        r.wf(),
        r@ == spec_host_a(*obj),
{
    let mut m = Regs::new();
    if let Json::Obj(kvs) = obj {
        let mut i: usize = 0;
        while i < kvs.len()
            invariant
                i <= kvs@.len(),
                m.wf(),
                *obj == Json::Obj(*kvs),
                host_ok(*obj),
                m@ == host_map(kvs@.subrange(0, i as int)),
            decreases kvs@.len() - i,
        {
            let v = to_v(&kvs[i].1);
            m.insert(copy_chars(kvs[i].0.as_slice()), v);
            assert(kvs@.subrange(0, i + 1).drop_last() =~= kvs@.subrange(0, i as int));
            i += 1;
        }
        assert(kvs@.subrange(0, i as int) =~= kvs@);
    }
    m
}

} // verus!
