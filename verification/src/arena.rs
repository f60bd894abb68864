use vstd::prelude::*;
use crate::floor_b::{is_prefix, lemma_prefix_index};
use crate::json::{Json, spec_to_v, str_is};
use crate::value::V;

verus! {

/// A value of floors C and D: an integer, the empty list, or the index of a pair cell.
#[derive(Clone, Copy, PartialEq, Eq, Structural)]
pub enum Val {
    I(i64),
    Nil,
    P(u32),
}

/// Pair cells: the car and the cdr of each.
pub type Arena = Vec<(Val, Val)>;

/// `v` refers to no cell at or after `n`.
pub open spec fn below(v: Val, n: int) -> bool {
    v matches Val::P(i) ==> i < n
}

/// Every cell refers only to cells before it.
pub open spec fn wf_arena(ar: Seq<(Val, Val)>) -> bool {
    forall|i: int| 0 <= i < ar.len() ==> below(#[trigger] ar[i].0, i) && below(ar[i].1, i)
}

/// The value that `v` stands for, reading cells before `n`.
pub open spec fn vv_below(ar: Seq<(Val, Val)>, v: Val, n: int) -> V
    decreases n,
{
    match v {
        Val::I(k) => V::I(k),
        Val::Nil => V::Nil,
        Val::P(i) => if 0 <= i < n && i < ar.len() {
            V::P(Box::new(vv_below(ar, ar[i as int].0, i as int)), Box::new(vv_below(ar, ar[i as int].1, i as int)))
        } else {
            V::Nil
        },
    }
}

/// The value that `v` stands for in `ar`.
pub open spec fn vv(ar: Seq<(Val, Val)>, v: Val) -> V {
    vv_below(ar, v, ar.len() as int)
}

/// The registers of floor B that registers of floor C stand for.
pub open spec fn regs_view(regs: Seq<Option<Val>>, ar: Seq<(Val, Val)>) -> Seq<Option<V>> {
    Seq::new(regs.len(), |s: int| match regs[s] {
        Some(v) => Some(vv(ar, v)),
        None => None,
    })
}

/// Every register refers only to existing cells.
pub open spec fn regs_below(regs: Seq<Option<Val>>, n: int) -> bool {
    forall|s: int| 0 <= s < regs.len() ==> (#[trigger] regs[s] matches Some(v) ==> below(v, n))
}

pub proof fn lemma_vv_bound(ar: Seq<(Val, Val)>, v: Val, n: int, m: int)
    requires
        wf_arena(ar),
        below(v, n),
        n <= m <= ar.len(),
    ensures
        vv_below(ar, v, n) == vv_below(ar, v, m),
    decreases n,
{
    if let Val::P(i) = v {
        if 0 <= i {
            assert(below(ar[i as int].0, i as int));
        }
    }
}

pub proof fn lemma_vv_prefix(ar: Seq<(Val, Val)>, ar2: Seq<(Val, Val)>, v: Val, n: int)
    requires
        is_prefix(ar, ar2),
        n <= ar.len(),
    ensures
        vv_below(ar2, v, n) == vv_below(ar, v, n),
    decreases n,
{
    if let Val::P(i) = v {
        if 0 <= i < n {
            lemma_prefix_index(ar, ar2, i as int);
            lemma_vv_prefix(ar, ar2, ar[i as int].0, i as int);
            lemma_vv_prefix(ar, ar2, ar[i as int].1, i as int);
        }
    }
}

/// A value keeps its meaning when cells are added after the ones it refers to.
pub proof fn lemma_vv_grow(ar: Seq<(Val, Val)>, ar2: Seq<(Val, Val)>, v: Val)
    requires
        wf_arena(ar),
        wf_arena(ar2),
        is_prefix(ar, ar2),
        below(v, ar.len() as int),
    ensures
        vv(ar2, v) == vv(ar, v),
{
    lemma_vv_bound(ar2, v, ar.len() as int, ar2.len() as int);
    lemma_vv_prefix(ar, ar2, v, ar.len() as int);
}

/// Adds a pair cell and gives a value referring to it.
pub fn cons_a(ar: &mut Arena, a: Val, d: Val) -> (r: Val)
    requires
        old(ar)@.len() < 0xffff_ffff,
    ensures
        final(ar)@ == old(ar)@.push((a, d)),
        r == Val::P(old(ar)@.len() as u32),
{
    ar.push((a, d));
    Val::P((ar.len() - 1) as u32)
}

/// Truth of a value: everything but the integer zero is true.
pub fn truthy_v(v: Val) -> (r: bool)
    ensures
        r == (v != Val::I(0)),
{
    match v {
        Val::I(n) => n != 0,
        _ => true,
    }
}

/// The size of the cell reference in `v`, for termination.
pub open spec fn vmeasure(v: Val) -> int {
    match v {
        Val::P(i) => i + 1,
        _ => 0,
    }
}

/// Structural equality of the values two arena values stand for.
pub fn eq_v(ar: &Arena, a: Val, b: Val) -> (r: bool)
    requires
        wf_arena(ar@),
        below(a, ar@.len() as int),
        below(b, ar@.len() as int),
    ensures
        r == (vv(ar@, a) == vv(ar@, b)),
    decreases vmeasure(a) + vmeasure(b),
{
    match (a, b) {
        (Val::I(x), Val::I(y)) => x == y,
        (Val::Nil, Val::Nil) => true,
        (Val::P(x), Val::P(y)) => {
            let (a1, a2) = ar[x as usize];
            let (b1, b2) = ar[y as usize];
            proof {
                assert(below(ar@[x as int].0, x as int));
                assert(below(ar@[y as int].0, y as int));
                lemma_vv_bound(ar@, a1, x as int, ar@.len() as int);
                lemma_vv_bound(ar@, a2, x as int, ar@.len() as int);
                lemma_vv_bound(ar@, b1, y as int, ar@.len() as int);
                lemma_vv_bound(ar@, b2, y as int, ar@.len() as int);
            }
            eq_v(ar, a1, b1) && eq_v(ar, a2, b2)
        },
        _ => false,
    }
}

/// A deep copy of what `v` stands for.
pub fn val_to_v(ar: &Arena, v: Val) -> (r: V)
    requires
        wf_arena(ar@),
        below(v, ar@.len() as int),
    ensures
        r == vv(ar@, v),
    decreases vmeasure(v),
{
    match v {
        Val::I(n) => V::I(n),
        Val::Nil => V::Nil,
        Val::P(i) => {
            let (a, d) = ar[i as usize];
            proof {
                assert(below(ar@[i as int].0, i as int));
                lemma_vv_bound(ar@, a, i as int, ar@.len() as int);
                lemma_vv_bound(ar@, d, i as int, ar@.len() as int);
            }
            V::P(Box::new(val_to_v(ar, a)), Box::new(val_to_v(ar, d)))
        },
    }
}

/// Adding a cell of existing values keeps the arena well formed.
pub proof fn lemma_push_wf(ar: Seq<(Val, Val)>, a: Val, d: Val)
    requires
        wf_arena(ar),
        below(a, ar.len() as int),
        below(d, ar.len() as int),
    ensures
        wf_arena(ar.push((a, d))),
        is_prefix(ar, ar.push((a, d))),
{
    assert(ar.push((a, d)).subrange(0, ar.len() as int) =~= ar);
    assert forall|i: int| 0 <= i < ar.push((a, d)).len() implies below(#[trigger] ar.push((a, d))[i].0, i) && below(ar.push((a, d))[i].1, i) by {
        if i < ar.len() {
            assert(ar.push((a, d))[i] == ar[i]);
            assert(below(ar[i].0, i) && below(ar[i].1, i));
        } else {
            assert(ar.push((a, d))[i] == (a, d));
        }
    }
}

/// How many pairs value `v` is built of.
pub open spec fn pair_count(v: V) -> nat
    decreases v,
{
    match v {
        V::P(h, t) => 1 + pair_count(*h) + pair_count(*t),
        _ => 0,
    }
}

/// Decodes a value into the arena: numbers are integers, `[⟨N⟩]` the empty list, `[⟨P⟩, a, d]`
/// a new cell after the cells of `a` and `d` (one cell per pair), anything else zero.
pub fn to_val(j: &Json, ar: &mut Arena) -> (r: Val)
    requires
        spec_to_v(*j) is Some,
        wf_arena(old(ar)@),
        old(ar)@.len() + jsize_v(*j) < 0xffff_ffff,
    ensures
        wf_arena(final(ar)@),
        is_prefix(old(ar)@, final(ar)@),
        below(r, final(ar)@.len() as int),
        final(ar)@.len() <= old(ar)@.len() + jsize_v(*j),
        final(ar)@.len() == old(ar)@.len() + pair_count(spec_to_v(*j)->0),
        vv(final(ar)@, r) == spec_to_v(*j)->0,
    decreases j,
{
    let ghost ar0 = ar@;
    proof { crate::floor_b::lemma_prefix_refl(ar0); }
    match j {
        Json::Num(n) => Val::I(*n),
        Json::Arr(a) => {
            if str_is(&a[0], &['\u{27E8}', 'N', '\u{27E9}']) {
                Val::Nil
            } else if str_is(&a[0], &['\u{27E8}', 'P', '\u{27E9}']) {
                let x = to_val(&a[1], ar);
                let ghost ar1 = ar@;
                let y = to_val(&a[2], ar);
                let ghost ar2 = ar@;
                proof {
                    crate::floor_b::lemma_prefix_trans(ar0, ar1, ar2);
                    lemma_vv_grow(ar1, ar2, x);
                }
                let r = cons_a(ar, x, y);
                proof {
                    lemma_push_wf(ar2, x, y);
                    crate::floor_b::lemma_prefix_trans(ar0, ar2, ar@);
                    lemma_vv_grow(ar2, ar@, x);
                    lemma_vv_grow(ar2, ar@, y);
                    lemma_vv_prefix(ar2, ar@, x, ar2.len() as int);
                    lemma_vv_prefix(ar2, ar@, y, ar2.len() as int);
                    assert(ar@[ar2.len() as int] == (x, y));
                }
                r
            } else {
                Val::I(0)
            }
        },
        _ => Val::I(0),
    }
}

/// A bound on the cells that decoding `j` adds: one per JSON node.
pub open spec fn jsize_v(j: Json) -> nat
    decreases j,
{
    match j {
        Json::Arr(a) => 1 + if a@.len() >= 3 { jsize_v(a@[1]) + jsize_v(a@[2]) } else { 0 },
        _ => 1,
    }
}

} // verus!
