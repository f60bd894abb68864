use vstd::prelude::*;
use crate::arena::{Arena, Val, below, cons_a, eq_v, lemma_push_wf, lemma_vv_grow, lemma_vv_prefix, regs_below, regs_view, to_val, truthy_v, vv, wf_arena, jsize_v};
use crate::floor_b::{N, StB, ev_b_spec, ex_b_spec, ex_list_b, is_prefix, lemma_ex_b_fuel, lemma_prefix_refl, lemma_prefix_trans, reg_spec, run_b_spec};
use crate::value::{V, spec_truthy};

verus! {

/// How many pair cells evaluating node `i` allocates: one per pair built.
pub open spec fn cells_ev(ns: Seq<N>, i: int, regs: Seq<Option<V>>) -> nat
    decreases i,
{
    if i < 0 || i >= ns.len() {
        0
    } else {
        match ns[i] {
            N::Add(x, y) | N::Sub(x, y) | N::Eq(x, y) => if x < i && y < i {
                cells_ev(ns, x as int, regs) + cells_ev(ns, y as int, regs)
            } else {
                0
            },
            N::Cons(x, y) => if x < i && y < i {
                cells_ev(ns, x as int, regs) + cells_ev(ns, y as int, regs) + 1
            } else {
                0
            },
            N::Car(x) | N::Cdr(x) | N::IsPair(x) => if x < i {
                cells_ev(ns, x as int, regs)
            } else {
                0
            },
            _ => 0,
        }
    }
}

/// How many pair cells running node `i` as a statement allocates.
pub open spec fn cells_ex(ns: Seq<N>, i: int, st: StB) -> nat
    decreases i, 1int, 0int,
{
    let (regs, fuel, resp) = st;
    if i < 0 || i >= ns.len() {
        0
    } else {
        match ns[i] {
            N::Block(ss) => cells_list(ns, i, ss@, st),
            N::Assign(slot, e) => if e < i {
                cells_ev(ns, e as int, regs)
            } else {
                0
            },
            N::If(c, t, f) => if c < i {
                cells_ev(ns, c as int, regs) + match ev_b_spec(ns, c as int, regs) {
                    Some(cv) => if spec_truthy(cv) {
                        if t < i {
                            cells_ex(ns, t as int, st)
                        } else {
                            0
                        }
                    } else if f < i {
                        cells_ex(ns, f as int, st)
                    } else {
                        0
                    },
                    None => 0,
                }
            } else {
                0
            },
            N::Respawn(_) => 0,
            _ => cells_ev(ns, i, regs),
        }
    }
}

/// How many pair cells running the nodes `ss` in order allocates.
pub open spec fn cells_list(ns: Seq<N>, i: int, ss: Seq<u32>, st: StB) -> nat
    decreases i, 0int, ss.len(),
{
    if ss.len() == 0 {
        0
    } else if 0 <= ss[0] < i {
        cells_ex(ns, ss[0] as int, st) + match ex_b_spec(ns, ss[0] as int, st) {
            Some(st2) => cells_list(ns, i, ss.drop_first(), st2),
            None => 0,
        }
    } else {
        0
    }
}

/// How many pair cells a whole run allocates.
pub open spec fn cells_run(ns: Seq<N>, root: int, regs: Seq<Option<V>>, fuel: i64) -> nat
    decreases fuel,
{
    cells_ex(ns, root, (regs, fuel, false)) + match ex_b_spec(ns, root, (regs, fuel, false)) {
        Some((r, f, resp)) => if resp && 0 <= f < fuel {
            cells_run(ns, root, r, f)
        } else {
            0
        },
        None => 0,
    }
}

/// The value in slot `s`.
pub fn reg_c(regs: &[Option<Val>], s: u32) -> (r: Val)
    requires
        s < regs@.len(),
        regs@[s as int] is Some,
    ensures
        regs@[s as int] == Some(r),
{
    regs[s as usize].unwrap()
}

pub proof fn lemma_regs_view_grow(regs: Seq<Option<Val>>, ar: Seq<(Val, Val)>, ar2: Seq<(Val, Val)>)
    requires
        wf_arena(ar),
        wf_arena(ar2),
        is_prefix(ar, ar2),
        regs_below(regs, ar.len() as int),
    ensures
        regs_view(regs, ar2) == regs_view(regs, ar),
        regs_below(regs, ar2.len() as int),
{
    assert forall|s: int| 0 <= s < regs.len() implies regs_view(regs, ar2)[s] == regs_view(regs, ar)[s] by {
        if let Some(v) = regs[s] {
            lemma_vv_grow(ar, ar2, v);
        }
    }
    assert(regs_view(regs, ar2) =~= regs_view(regs, ar));
}

/// Evaluates node `i` with values in the arena: it computes what floor B computes, adding one
/// cell per pair built.
pub fn ev_c(ns: &[N], i: u32, regs: &[Option<Val>], ar: &mut Arena) -> (r: Val)
    requires
        ev_b_spec(ns@, i as int, regs_view(regs@, old(ar)@)) is Some,
        wf_arena(old(ar)@),
        regs_below(regs@, old(ar)@.len() as int),
        old(ar)@.len() + cells_ev(ns@, i as int, regs_view(regs@, old(ar)@)) < 0xffff_ffff,
    ensures
        wf_arena(final(ar)@),
        is_prefix(old(ar)@, final(ar)@),
        final(ar)@.len() == old(ar)@.len() + cells_ev(ns@, i as int, regs_view(regs@, old(ar)@)),
        below(r, final(ar)@.len() as int),
        ev_b_spec(ns@, i as int, regs_view(regs@, old(ar)@)) == Some(vv(final(ar)@, r)),
    decreases i,
{
    let ghost ar0 = ar@;
    let ghost rv = regs_view(regs@, ar0);
    proof { lemma_prefix_refl(ar0); }
    match &ns[i as usize] {
        N::Lit(k) => Val::I(*k),
        N::Var(s) => {
            let v = reg_c(regs, *s);
            proof { assert(regs@[*s as int] == Some(v)); }
            v
        },
        N::Nil => Val::Nil,
        N::Add(x, y) | N::Sub(x, y) | N::Eq(x, y) | N::Cons(x, y) => {
            let a = ev_c(ns, *x, regs, ar);
            let ghost ar1 = ar@;
            proof { lemma_regs_view_grow(regs@, ar0, ar1); }
            let b = ev_c(ns, *y, regs, ar);
            let ghost ar2 = ar@;
            proof {
                lemma_regs_view_grow(regs@, ar1, ar2);
                lemma_vv_grow(ar1, ar2, a);
                lemma_prefix_trans(ar0, ar1, ar2);
            }
            match &ns[i as usize] {
                N::Add(_, _) => match (a, b) {
                    (Val::I(p), Val::I(q)) => Val::I(p.wrapping_add(q)),
                    _ => { proof { assert(false); } Val::I(0) }
                },
                N::Sub(_, _) => match (a, b) {
                    (Val::I(p), Val::I(q)) => Val::I(p.wrapping_sub(q)),
                    _ => { proof { assert(false); } Val::I(0) }
                },
                N::Eq(_, _) => Val::I(if eq_v(ar, a, b) { 1 } else { 0 }),
                _ => {
                    let r = cons_a(ar, a, b);
                    proof {
                        lemma_push_wf(ar2, a, b);
                        lemma_prefix_trans(ar0, ar2, ar@);
                        lemma_vv_prefix(ar2, ar@, a, ar2.len() as int);
                        lemma_vv_prefix(ar2, ar@, b, ar2.len() as int);
                        assert(ar@[ar2.len() as int] == (a, b));
                    }
                    r
                },
            }
        },
        N::Car(x) | N::Cdr(x) | N::IsPair(x) => {
            let a = ev_c(ns, *x, regs, ar);
            match &ns[i as usize] {
                N::IsPair(_) => Val::I(
                    match a {
                        Val::P(_) => 1,
                        _ => 0,
                    },
                ),
                N::Car(_) => match a {
                    Val::P(p) => {
                        proof { assert(below(ar@[p as int].0, p as int)); crate::arena::lemma_vv_bound(ar@, ar@[p as int].0, p as int, ar@.len() as int); }
                        ar[p as usize].0
                    },
                    _ => { proof { assert(false); } Val::I(0) }
                },
                _ => match a {
                    Val::P(p) => {
                        proof { assert(below(ar@[p as int].1, p as int)); crate::arena::lemma_vv_bound(ar@, ar@[p as int].1, p as int, ar@.len() as int); }
                        ar[p as usize].1
                    },
                    _ => { proof { assert(false); } Val::I(0) }
                },
            }
        },
        _ => { proof { assert(false); } Val::I(0) }
    }
}

} // verus!

verus! {

/// Runs node `i` as a statement with values in the arena: it changes the registers as floor B
/// does, adding one cell per pair built.
pub fn ex_c(ns: &[N], i: u32, regs: &mut Vec<Option<Val>>, ar: &mut Arena, fuel: &mut i64, respawn: &mut bool)
    requires
        ex_b_spec(ns@, i as int, (regs_view(old(regs)@, old(ar)@), *old(fuel), *old(respawn))) is Some,
        wf_arena(old(ar)@),
        regs_below(old(regs)@, old(ar)@.len() as int),
        old(ar)@.len() + cells_ex(ns@, i as int, (regs_view(old(regs)@, old(ar)@), *old(fuel), *old(respawn))) < 0xffff_ffff,
    ensures
        wf_arena(final(ar)@),
        is_prefix(old(ar)@, final(ar)@),
        final(ar)@.len() == old(ar)@.len() + cells_ex(ns@, i as int, (regs_view(old(regs)@, old(ar)@), *old(fuel), *old(respawn))),
        regs_below(final(regs)@, final(ar)@.len() as int),
        ex_b_spec(ns@, i as int, (regs_view(old(regs)@, old(ar)@), *old(fuel), *old(respawn)))
            == Some((regs_view(final(regs)@, final(ar)@), *final(fuel), *final(respawn))),
    decreases i, 1int, 0int,
{
    let ghost ar0 = ar@;
    proof { lemma_prefix_refl(ar0); }
    match &ns[i as usize] {
        N::Block(ss) => {
            let mut k: usize = 0;
            let ghost st0 = (regs_view(regs@, ar@), *fuel, *respawn);
            let ghost target = ex_b_spec(ns@, i as int, st0);
            let ghost total = cells_ex(ns@, i as int, st0);
            assert(ss@.subrange(0, ss@.len() as int) =~= ss@);
            while k < ss.len()
                invariant
                    k <= ss@.len(),
                    ns@[i as int] == N::Block(*ss),
                    0 <= i < ns@.len(),
                    wf_arena(ar@),
                    is_prefix(ar0, ar@),
                    regs_below(regs@, ar@.len() as int),
                    ex_list_b(ns@, i as int, ss@.subrange(k as int, ss@.len() as int), (regs_view(regs@, ar@), *fuel, *respawn)) == target,
                    ar@.len() + cells_list(ns@, i as int, ss@.subrange(k as int, ss@.len() as int), (regs_view(regs@, ar@), *fuel, *respawn)) == ar0.len() + total,
                    ar0.len() + total < 0xffff_ffff,
                    target is Some,
                decreases ss@.len() - k,
            {
                let ghost rest = ss@.subrange(k as int, ss@.len() as int);
                assert(rest.drop_first() =~= ss@.subrange(k + 1, ss@.len() as int));
                assert(rest[0] == ss@[k as int]);
                let ghost ar1 = ar@;
                ex_c(ns, ss[k], regs, ar, fuel, respawn);
                proof { lemma_prefix_trans(ar0, ar1, ar@); }
                k += 1;
            }
            assert(ss@.subrange(k as int, ss@.len() as int) =~= Seq::<u32>::empty());
        },
        N::Assign(slot, e) => {
            let v = ev_c(ns, *e, regs, ar);
            let ghost ar1 = ar@;
            proof { lemma_regs_view_grow(regs@, ar0, ar1); }
            let ghost old_regs = regs@;
            regs.set(*slot as usize, Some(v));
            proof {
                assert(regs_view(regs@, ar@) =~= regs_view(old_regs, ar@).update(*slot as int, Some(vv(ar@, v))));
            }
        },
        N::If(c, t, f) => {
            let cv = ev_c(ns, *c, regs, ar);
            let ghost ar1 = ar@;
            proof {
                lemma_regs_view_grow(regs@, ar0, ar1);
                assert(spec_truthy(vv(ar@, cv)) == (cv != Val::I(0)));
            }
            if truthy_v(cv) {
                ex_c(ns, *t, regs, ar, fuel, respawn);
            } else {
                ex_c(ns, *f, regs, ar, fuel, respawn);
            }
            proof { lemma_prefix_trans(ar0, ar1, ar@); }
        },
        N::Respawn(g) => {
            if let Some(g) = g {
                let gv = reg_c(regs.as_slice(), *g);
                proof { assert(spec_truthy(vv(ar@, gv)) == (gv != Val::I(0))); }
                if !truthy_v(gv) {
                    return;
                }
            }
            if *fuel <= 0 {
                return;
            }
            *fuel -= 1;
            *respawn = true;
        },
        _ => {
            ev_c(ns, i, regs.as_slice(), ar);
            proof { lemma_regs_view_grow(regs@, ar0, ar@); }
        },
    }
}

/// Runs from node `root` until no respawn is due, with values in the arena, and gives the value
/// in slot `vs`: what floor B gives, adding one cell per pair built.
pub fn run_c(ns: &[N], root: u32, regs: Vec<Option<Val>>, ar: &mut Arena, fuel: i64, vs: u32) -> (r: Val)
    requires
        run_b_spec(ns@, root as int, regs_view(regs@, old(ar)@), fuel, vs) is Some,
        wf_arena(old(ar)@),
        regs_below(regs@, old(ar)@.len() as int),
        old(ar)@.len() + cells_run(ns@, root as int, regs_view(regs@, old(ar)@), fuel) < 0xffff_ffff,
    ensures
        wf_arena(final(ar)@),
        is_prefix(old(ar)@, final(ar)@),
        final(ar)@.len() == old(ar)@.len() + cells_run(ns@, root as int, regs_view(regs@, old(ar)@), fuel),
        below(r, final(ar)@.len() as int),
        run_b_spec(ns@, root as int, regs_view(regs@, old(ar)@), fuel, vs) == Some(vv(final(ar)@, r)),
{
    let ghost ar0 = ar@;
    let ghost target = run_b_spec(ns@, root as int, regs_view(regs@, ar0), fuel, vs);
    let ghost total = cells_run(ns@, root as int, regs_view(regs@, ar0), fuel);
    proof { lemma_prefix_refl(ar0); }
    let mut regs = regs;
    let mut fuel = fuel;
    let mut respawn = true;
    while respawn
        invariant
            target is Some,
            wf_arena(ar@),
            is_prefix(ar0, ar@),
            regs_below(regs@, ar@.len() as int),
            ar0.len() + total < 0xffff_ffff,
            respawn ==> run_b_spec(ns@, root as int, regs_view(regs@, ar@), fuel, vs) == target,
            respawn ==> ar@.len() + cells_run(ns@, root as int, regs_view(regs@, ar@), fuel) == ar0.len() + total,
            !respawn ==> target == reg_spec(regs_view(regs@, ar@), vs),
            !respawn ==> ar@.len() == ar0.len() + total,
        decreases (if respawn { if fuel >= 0 { fuel as int + 2 } else { 1 } } else { 0 }),
    {
        respawn = false;
        proof { lemma_ex_b_fuel(ns@, root as int, (regs_view(regs@, ar@), fuel, false)); }
        let ghost ar1 = ar@;
        ex_c(ns, root, &mut regs, ar, &mut fuel, &mut respawn);
        proof { lemma_prefix_trans(ar0, ar1, ar@); }
    }
    let v = reg_c(regs.as_slice(), vs);
    v
}

} // verus!

verus! {

/// A bound on the cells that decoding the members of a host object adds.
pub open spec fn host_cells(kvs: Seq<(Vec<char>, crate::json::Json)>) -> nat
    decreases kvs.len(),
{
    if kvs.len() == 0 {
        0
    } else {
        host_cells(kvs.drop_last()) + jsize_v(kvs.last().1)
    }
}

pub proof fn lemma_host_cells_take(kvs: Seq<(Vec<char>, crate::json::Json)>, k: int)
    requires
        0 <= k <= kvs.len(),
    ensures
        host_cells(kvs.take(k)) <= host_cells(kvs),
        k < kvs.len() ==> host_cells(kvs.take(k + 1)) == host_cells(kvs.take(k)) + jsize_v(kvs[k].1),
    decreases kvs.len() - k,
{
    if k < kvs.len() {
        assert(kvs.take(k + 1).drop_last() =~= kvs.take(k));
        lemma_host_cells_take(kvs, k + 1);
    } else {
        assert(kvs.take(k) =~= kvs);
    }
}

/// Registers loaded from a host object into the arena: every member key is given a slot in
/// `nm`, and each slot holds (in the arena) the decoded value of the last member of its name.
pub fn host_cd(obj: &crate::json::Json, nm: &mut crate::names::Names, ar: &mut Arena) -> (regs: Vec<Option<Val>>)
    requires
        crate::floor_a::host_ok(*obj),
        old(nm).wf(),
        obj matches crate::json::Json::Obj(kvs) ==> old(nm)@.len() + kvs@.len() < 0xffff_ffff
            && old(ar)@.len() + host_cells(kvs@) < 0xffff_ffff,
        wf_arena(old(ar)@),
    ensures
        final(nm).wf(),
        wf_arena(final(ar)@),
        is_prefix(old(ar)@, final(ar)@),
        regs_below(regs@, final(ar)@.len() as int),
        (final(nm)@, regs_view(regs@, final(ar)@)) == crate::floor_b::spec_host_b(*obj, old(nm)@),
{
    let ghost names0 = nm@;
    let ghost ar0 = ar@;
    proof { lemma_prefix_refl(ar0); }
    if let crate::json::Json::Obj(kvs) = obj {
        let mut i: usize = 0;
        assert(kvs@.take(0) =~= Seq::<(Vec<char>, crate::json::Json)>::empty());
        while i < kvs.len()
            invariant
                i <= kvs@.len(),
                nm.wf(),
                nm@ == crate::floor_b::names_after(names0, kvs@.take(i as int)),
                names0.len() + kvs@.len() < 0xffff_ffff,
            decreases kvs@.len() - i,
        {
            proof {
                crate::floor_b::lemma_names_after(names0, kvs@.take(i as int));
                assert(kvs@.take(i + 1).drop_last() =~= kvs@.take(i as int));
            }
            nm.intern(kvs[i].0.as_slice());
            i += 1;
        }
        assert(kvs@.take(i as int) =~= kvs@);
    }
    let mut regs: Vec<Option<Val>> = Vec::new();
    let n = nm.len();
    while regs.len() < n
        invariant
            regs@.len() <= n,
            n == nm@.len(),
            forall|s: int| 0 <= s < regs@.len() ==> regs@[s] is None,
        decreases n - regs@.len(),
    {
        regs.push(None);
    }
    let ghost nn = nm@;
    assert(crate::floor_b::host_slots(nn, Map::empty()) =~= regs_view(regs@, ar@));
    if let crate::json::Json::Obj(kvs) = obj {
        proof { crate::floor_b::lemma_names_after(names0, kvs@); }
        let mut i: usize = 0;
        assert(kvs@.take(0) =~= Seq::<(Vec<char>, crate::json::Json)>::empty());
        proof { lemma_host_cells_take(kvs@, 0); }
        while i < kvs.len()
            invariant
                i <= kvs@.len(),
                nm.wf(),
                nm@ == nn,
                regs@.len() == nn.len(),
                nn == crate::floor_b::names_after(names0, kvs@),
                forall|k: int| 0 <= k < kvs@.len() ==> nn.contains(#[trigger] kvs@[k].0@),
                crate::floor_a::host_ok(*obj),
                *obj == crate::json::Json::Obj(*kvs),
                names0.len() + kvs@.len() < 0xffff_ffff,
                ar0.len() + host_cells(kvs@) < 0xffff_ffff,
                ar@.len() <= ar0.len() + host_cells(kvs@.take(i as int)),
                wf_arena(ar@),
                is_prefix(ar0, ar@),
                regs_below(regs@, ar@.len() as int),
                regs_view(regs@, ar@) == crate::floor_b::host_slots(nn, crate::floor_a::host_map(kvs@.take(i as int))),
            decreases kvs@.len() - i,
        {
            proof {
                crate::floor_b::lemma_names_after(names0, kvs@);
                assert(nn.contains(kvs@[i as int].0@));
                lemma_host_cells_take(kvs@, i as int);
                lemma_host_cells_take(kvs@, i + 1);
            }
            let s = nm.intern(kvs[i].0.as_slice());
            let ghost ar1 = ar@;
            let v = to_val(&kvs[i].1, ar);
            proof {
                lemma_regs_view_grow(regs@, ar1, ar@);
                lemma_prefix_trans(ar0, ar1, ar@);
            }
            let ghost old_regs = regs@;
            regs.set(s as usize, Some(v));
            proof {
                let m0 = crate::floor_a::host_map(kvs@.take(i as int));
                assert(kvs@.take(i + 1).drop_last() =~= kvs@.take(i as int));
                assert(crate::floor_a::host_map(kvs@.take(i + 1)) == m0.insert(kvs@[i as int].0@, crate::json::spec_to_v(kvs@[i as int].1)->0));
                assert forall|q: int| 0 <= q < nn.len() implies regs_view(regs@, ar@)[q] == crate::floor_b::host_slots(nn, crate::floor_a::host_map(kvs@.take(i + 1)))[q] by {
                    if q != s as int {
                        assert(nn[q] != nn[s as int]);
                        assert(regs@[q] == old_regs[q]);
                        assert(regs_view(old_regs, ar@)[q] == crate::floor_b::host_slots(nn, m0)[q]);
                    } else {
                        assert(regs@[q] == Some(v));
                        assert(nn[q] == kvs@[i as int].0@);
                        assert(vv(ar@, v) == crate::json::spec_to_v(kvs@[i as int].1)->0);
                    }
                }
                assert(regs_view(regs@, ar@) =~= crate::floor_b::host_slots(nn, crate::floor_a::host_map(kvs@.take(i + 1))));
                assert forall|q: int| 0 <= q < regs@.len() implies (#[trigger] regs@[q] matches Some(w) ==> below(w, ar@.len() as int)) by {
                    if q != s as int {
                        assert(regs@[q] == old_regs[q]);
                    }
                }
            }
            i += 1;
        }
        assert(kvs@.take(i as int) =~= kvs@);
    }
    regs
}

} // verus!
