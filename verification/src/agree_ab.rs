use vstd::prelude::*;
use crate::floor_a::{RegMap, StA, ev_a, ex_a, ex_list_a, lemma_ex_a_fuel, run_a_spec};
use crate::floor_b::{N, enc, enc_list, ev_b_spec, ex_b_spec, ex_list_b, host_slots, op_name, reg_spec, run_b_spec};
use crate::json::Json;
use crate::names::distinct_names;
use crate::words::{w_add, w_car, w_cdr, w_cons, w_eq, w_if, w_let, w_pairp, w_respawn, w_seq, w_set, w_sub, w_var, w_vs};

verus! {

/// Whether every register operand in `j` is written as a string (the two floors disagree on
/// what a non-string operand names).
pub open spec fn strict(j: Json) -> bool
    decreases j,
{
    match j {
        Json::Arr(a) => (a@.len() > 0 && a@[0] is Str) ==> {
            let op = op_name(a@);
            &&& (op == w_var() || op == w_set() || op == w_let()) ==> a@.len() >= 2 && a@[1] is Str
            &&& (op == w_set() || op == w_let()) ==> (a@.len() >= 3 ==> strict(a@[2]))
            &&& (op == w_add() || op == w_sub() || op == w_eq() || op == w_cons() || op == w_car() || op == w_cdr() || op == w_pairp() || op == w_if()) ==> (a@.len() >= 2 ==> strict(a@[1]))
            &&& (op == w_add() || op == w_sub() || op == w_eq() || op == w_cons() || op == w_if()) ==> (a@.len() >= 3 ==> strict(a@[2]))
            &&& op == w_if() ==> (a@.len() >= 4 ==> strict(a@[3]))
            &&& (op == w_seq() && a@.len() >= 2) ==> (a@[1] matches Json::Arr(ss) ==> strict_list(ss@))
        },
        _ => true,
    }
}

/// Whether each of `ss` is strict.
pub open spec fn strict_list(ss: Seq<Json>) -> bool
    decreases ss,
{
    ss.len() == 0 || (strict_list(ss.drop_last()) && strict(ss.last()))
}

/// Evaluating a folded expression gives what evaluating its source gives, when the slots hold
/// what the named registers hold.
pub proof fn lemma_ev_agree(ns: Seq<N>, names: Seq<Seq<char>>, r: int, j: Json, ra: RegMap)
    requires
        enc(ns, names, r, j),
        strict(j),
        distinct_names(names),
    ensures
        ev_b_spec(ns, r, host_slots(names, ra)) == ev_a(j, ra),
    decreases j,
{
    let rb = host_slots(names, ra);
    match j {
        Json::Arr(a) => {
            if a@[0] is Str {
                let op = op_name(a@);
                if op == w_add() || op == w_sub() || op == w_eq() || op == w_cons() {
                    match ns[r] {
                        N::Add(x, y) | N::Sub(x, y) | N::Eq(x, y) | N::Cons(x, y) => {
                            lemma_ev_agree(ns, names, x as int, a@[1], ra);
                            lemma_ev_agree(ns, names, y as int, a@[2], ra);
                        },
                        _ => {},
                    }
                } else if op == w_car() || op == w_cdr() || op == w_pairp() {
                    match ns[r] {
                        N::Car(x) | N::Cdr(x) | N::IsPair(x) => {
                            lemma_ev_agree(ns, names, x as int, a@[1], ra);
                        },
                        _ => {},
                    }
                }
            }
        },
        _ => {},
    }
}

/// The floor-B state that stands for a floor-A state.
pub open spec fn st_b(names: Seq<Seq<char>>, st: StA) -> (Seq<Option<crate::value::V>>, i64, bool) {
    (host_slots(names, st.0), st.1, st.2)
}

/// Running a folded statement changes the slots as running its source changes the registers.
pub proof fn lemma_ex_agree(ns: Seq<N>, names: Seq<Seq<char>>, r: int, j: Json, st: StA)
    requires
        enc(ns, names, r, j),
        strict(j),
        distinct_names(names),
    ensures
        ex_b_spec(ns, r, st_b(names, st)) == (match ex_a(j, st) {
            Some(s2) => Some(st_b(names, s2)),
            None => None,
        }),
    decreases j,
{
    let (ra, fuel, resp) = st;
    match j {
        Json::Arr(a) => {
            if a@[0] is Str {
                let op = op_name(a@);
                if op == w_seq() {
                    if let N::Block(v) = ns[r] {
                        if let Json::Arr(ss) = a@[1] {
                            assert(decreases_to!(j => j->Arr_0));
                            assert(decreases_to!(a@[1] => a@[1]->Arr_0));
                            lemma_ex_list_agree(ns, names, r, v@, ss@, st);
                            assert(ex_b_spec(ns, r, st_b(names, st)) == ex_list_b(ns, r, v@, st_b(names, st)));
                            assert(ex_a(j, st) == ex_list_a(ss@, st));
                        } else {
                            assert(v@ =~= Seq::<u32>::empty());
                        }
                    }
                    assert(ex_b_spec(ns, r, st_b(names, st)) == (match ex_a(j, st) {
                        Some(s2) => Some(st_b(names, s2)),
                        None => None,
                    }));
                } else if op == w_set() || op == w_let() {
                    if let N::Assign(sl, e) = ns[r] {
                        lemma_ev_agree(ns, names, e as int, a@[2], ra);
                        if let Some(val) = ev_a(a@[2], ra) {
                            let k = a@[1]->Str_0@;
                            assert(host_slots(names, ra.insert(k, val)) =~= host_slots(names, ra).update(sl as int, Some(val))) by {
                                assert forall|q: int| 0 <= q < names.len() implies host_slots(names, ra.insert(k, val))[q]
                                    == host_slots(names, ra).update(sl as int, Some(val))[q] by {
                                    if q != sl as int {
                                        if q < sl { assert(names[q] != names[sl as int]); } else { assert(names[sl as int] != names[q]); }
                                    }
                                }
                            }
                        }
                    }
                    assert(ex_b_spec(ns, r, st_b(names, st)) == (match ex_a(j, st) {
                        Some(s2) => Some(st_b(names, s2)),
                        None => None,
                    }));
                } else if op == w_if() {
                    if let N::If(c, t, f) = ns[r] {
                        lemma_ev_agree(ns, names, c as int, a@[1], ra);
                        lemma_ex_agree(ns, names, t as int, a@[2], st);
                        lemma_ex_agree(ns, names, f as int, a@[3], st);
                    }
                    assert(ex_b_spec(ns, r, st_b(names, st)) == (match ex_a(j, st) {
                        Some(s2) => Some(st_b(names, s2)),
                        None => None,
                    }));
                } else if op == w_respawn() {
                    if let N::Respawn(Some(g)) = ns[r] {
                        assert(reg_spec(host_slots(names, ra), g) == if ra.contains_key(names[g as int]) {
                            Some(ra[names[g as int]])
                        } else {
                            None
                        });
                    }
                    assert(ex_b_spec(ns, r, st_b(names, st)) == (match ex_a(j, st) {
                        Some(s2) => Some(st_b(names, s2)),
                        None => None,
                    }));
                } else {
                    lemma_ev_agree(ns, names, r, j, ra);
                }
            } else {
                lemma_ev_agree(ns, names, r, j, ra);
            }
        },
        _ => {
            lemma_ev_agree(ns, names, r, j, ra);
        },
    }
}

pub proof fn lemma_enc_list_at(ns: Seq<N>, names: Seq<Seq<char>>, r: int, v: Seq<u32>, ss: Seq<Json>, k: int)
    requires
        enc_list(ns, names, r, v, ss),
        0 <= k < ss.len(),
    ensures
        v.len() == ss.len(),
        v[k] < r,
        enc(ns, names, v[k] as int, ss[k]),
    decreases ss.len(),
{
    if k < ss.len() - 1 {
        lemma_enc_list_at(ns, names, r, v.drop_last(), ss.drop_last(), k);
    }
}

pub proof fn lemma_strict_list_at(ss: Seq<Json>, k: int)
    requires
        strict_list(ss),
        0 <= k < ss.len(),
    ensures
        strict(ss[k]),
    decreases ss.len(),
{
    if k < ss.len() - 1 {
        lemma_strict_list_at(ss.drop_last(), k);
    }
}

/// Running folded statements in order agrees with running their sources in order.
pub proof fn lemma_ex_list_agree(ns: Seq<N>, names: Seq<Seq<char>>, r: int, v: Seq<u32>, ss: Seq<Json>, st: StA)
    requires
        enc_list(ns, names, r, v, ss),
        strict_list(ss),
        distinct_names(names),
        0 <= r,
    ensures
        ex_list_b(ns, r, v, st_b(names, st)) == (match ex_list_a(ss, st) {
            Some(s2) => Some(st_b(names, s2)),
            None => None,
        }),
    decreases ss, 1int,
{
    lemma_ex_list_agree_from(ns, names, r, v, ss, st, 0);
    assert(v.subrange(0, v.len() as int) =~= v);
    assert(ss.subrange(0, ss.len() as int) =~= ss);
}

/// The same, for the statements from position `k` on.
pub proof fn lemma_ex_list_agree_from(ns: Seq<N>, names: Seq<Seq<char>>, r: int, v: Seq<u32>, ss: Seq<Json>, st: StA, k: int)
    requires
        enc_list(ns, names, r, v, ss),
        strict_list(ss),
        distinct_names(names),
        0 <= k <= ss.len(),
        0 <= r,
    ensures
        ex_list_b(ns, r, v.subrange(k, v.len() as int), st_b(names, st)) == (match ex_list_a(ss.subrange(k, ss.len() as int), st) {
            Some(s2) => Some(st_b(names, s2)),
            None => None,
        }),
    decreases ss, 0int, ss.len() - k,
{
    if k < ss.len() {
        lemma_enc_list_at(ns, names, r, v, ss, k);
        lemma_strict_list_at(ss, k);
        let vs = v.subrange(k, v.len() as int);
        let sss = ss.subrange(k, ss.len() as int);
        assert(vs[0] == v[k]);
        assert(sss[0] == ss[k]);
        assert(vs.drop_first() =~= v.subrange(k + 1, v.len() as int));
        assert(sss.drop_first() =~= ss.subrange(k + 1, ss.len() as int));
        lemma_ex_agree(ns, names, v[k] as int, ss[k], st);
        if let Some(s2) = ex_a(ss[k], st) {
            lemma_ex_list_agree_from(ns, names, r, v, ss, s2, k + 1);
        }
    } else {
        lemma_enc_list_at_len(ns, names, r, v, ss);
        assert(v.subrange(k, v.len() as int) =~= Seq::<u32>::empty());
        assert(ss.subrange(k, ss.len() as int) =~= Seq::<Json>::empty());
    }
}

pub proof fn lemma_enc_list_at_len(ns: Seq<N>, names: Seq<Seq<char>>, r: int, v: Seq<u32>, ss: Seq<Json>)
    requires
        enc_list(ns, names, r, v, ss),
    ensures
        v.len() == ss.len(),
{
}

} // verus!

verus! {

/// Floors A and B agree on a whole run: running the folded machine from slots that hold what
/// the host's registers hold gives what running the machine itself gives, with the same fuel,
/// when the slot `vs` is named `vs`.
pub proof fn law_floors_a_b_agree(ns: Seq<N>, names: Seq<Seq<char>>, root: int, m: Json, ra: RegMap, fuel: i64, vs: u32)
    requires
        enc(ns, names, root, m),
        strict(m),
        distinct_names(names),
        vs < names.len(),
        names[vs as int] == w_vs(),
    ensures
        run_b_spec(ns, root, host_slots(names, ra), fuel, vs) == run_a_spec(m, ra, fuel),
    decreases fuel,
{
    lemma_ex_agree(ns, names, root, m, (ra, fuel, false));
    lemma_ex_a_fuel(m, (ra, fuel, false));
    match ex_a(m, (ra, fuel, false)) {
        Some((r, f, resp)) => {
            if resp && 0 <= f < fuel {
                law_floors_a_b_agree(ns, names, root, m, r, f, vs);
            }
        },
        None => {},
    }
}

} // verus!
