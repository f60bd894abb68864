use vstd::prelude::*;
use crate::chars::same_chars;
use crate::floor_a::{host_map, host_ok};
use crate::json::{Json, sof, spec_sof, spec_to_v, to_v};
use crate::names::{Names, distinct_names};
use crate::value::{V, clone_v, deep_eq, is_pair, spec_truthy, truthy};
use crate::words::{w_add, w_car, w_cdr, w_cons, w_eq, w_if, w_let, w_lit, w_nilop, w_pairp, w_respawn, w_seq, w_set, w_sub, w_var};

verus! {

/// A folded node of the machine: operations as variants, registers as slots, children as
/// indices of earlier nodes.
pub enum N {
    Lit(i64),
    Var(u32),
    Add(u32, u32),
    Sub(u32, u32),
    Eq(u32, u32),
    Cons(u32, u32),
    Nil,
    Car(u32),
    Cdr(u32),
    IsPair(u32),
    Block(Vec<u32>),
    Assign(u32, u32),
    If(u32, u32, u32),
    Respawn(Option<u32>),
}

/// The operation name of an array node, if it has one.
pub open spec fn op_name(a: Seq<Json>) -> Seq<char> {
    a[0]->Str_0@
}

/// Whether folding `j` succeeds: every array node is non-empty, has the elements its operation
/// reads, and names a known operation.
pub open spec fn buildable(j: Json) -> bool
    decreases j,
{
    match j {
        Json::Arr(a) => a@.len() > 0 && (!(a@[0] is Str) || {
            let op = op_name(a@);
            if op == w_lit() || op == w_var() {
                a@.len() >= 2
            } else if op == w_nilop() || op == w_respawn() {
                true
            } else if op == w_car() || op == w_cdr() || op == w_pairp() {
                a@.len() >= 2 && buildable(a@[1])
            } else if op == w_add() || op == w_sub() || op == w_eq() || op == w_cons() {
                a@.len() >= 3 && buildable(a@[1]) && buildable(a@[2])
            } else if op == w_seq() {
                a@.len() >= 2 && (a@[1] matches Json::Arr(ss) ==> buildable_list(ss@))
            } else if op == w_set() || op == w_let() {
                a@.len() >= 3 && buildable(a@[2])
            } else if op == w_if() {
                a@.len() >= 4 && buildable(a@[1]) && buildable(a@[2]) && buildable(a@[3])
            } else {
                false
            }
        }),
        _ => true,
    }
}

/// Whether folding each of `ss` succeeds.
pub open spec fn buildable_list(ss: Seq<Json>) -> bool
    decreases ss,
{
    ss.len() == 0 || (buildable_list(ss.drop_last()) && buildable(ss.last()))
}

/// A bound on the nodes that folding `j` creates: one per JSON node.
pub open spec fn jsize(j: Json) -> nat
    decreases j,
{
    match j {
        Json::Arr(a) => 1 + jsize_list(a@),
        _ => 1,
    }
}

/// The sum of the bounds of `s`.
pub open spec fn jsize_list(s: Seq<Json>) -> nat
    decreases s,
{
    if s.len() == 0 {
        0
    } else {
        jsize_list(s.drop_last()) + jsize(s.last())
    }
}

/// Node `r` of `ns` is the folding of `j`, with register names by slot in `names`: the same
/// operation, the same constants and names, and children that are earlier nodes folding the
/// children of `j`.
pub open spec fn enc(ns: Seq<N>, names: Seq<Seq<char>>, r: int, j: Json) -> bool
    decreases j,
{
    0 <= r < ns.len() && match j {
        Json::Arr(a) => a@.len() > 0 && if !(a@[0] is Str) {
            ns[r] == N::Lit(0)
        } else {
            let op = op_name(a@);
            if op == w_lit() {
                a@.len() >= 2 && ns[r] == N::Lit(
                    match a@[1] {
                        Json::Num(k) => k,
                        _ => 0,
                    },
                )
            } else if op == w_var() {
                &&& a@.len() >= 2
                &&& ns[r] matches N::Var(s)
                &&& s < names.len() && names[s as int] == spec_sof(a@[1])
            } else if op == w_nilop() {
                ns[r] == N::Nil
            } else if op == w_add() || op == w_sub() || op == w_eq() || op == w_cons() {
                &&& a@.len() >= 3
                &&& match ns[r] {
                    N::Add(x, y) => op == w_add() && x < r && y < r && enc(ns, names, x as int, a@[1]) && enc(ns, names, y as int, a@[2]),
                    N::Sub(x, y) => op == w_sub() && x < r && y < r && enc(ns, names, x as int, a@[1]) && enc(ns, names, y as int, a@[2]),
                    N::Eq(x, y) => op == w_eq() && x < r && y < r && enc(ns, names, x as int, a@[1]) && enc(ns, names, y as int, a@[2]),
                    N::Cons(x, y) => op == w_cons() && x < r && y < r && enc(ns, names, x as int, a@[1]) && enc(ns, names, y as int, a@[2]),
                    _ => false,
                }
            } else if op == w_car() || op == w_cdr() || op == w_pairp() {
                &&& a@.len() >= 2
                &&& match ns[r] {
                    N::Car(x) => op == w_car() && x < r && enc(ns, names, x as int, a@[1]),
                    N::Cdr(x) => op == w_cdr() && x < r && enc(ns, names, x as int, a@[1]),
                    N::IsPair(x) => op == w_pairp() && x < r && enc(ns, names, x as int, a@[1]),
                    _ => false,
                }
            } else if op == w_seq() {
                &&& a@.len() >= 2
                &&& ns[r] matches N::Block(v)
                &&& match a@[1] {
                    Json::Arr(ss) => enc_list(ns, names, r, v@, ss@),
                    _ => v@.len() == 0,
                }
            } else if op == w_set() || op == w_let() {
                &&& a@.len() >= 3
                &&& ns[r] matches N::Assign(sl, e)
                &&& sl < names.len() && names[sl as int] == spec_sof(a@[1])
                &&& e < r && enc(ns, names, e as int, a@[2])
            } else if op == w_if() {
                &&& a@.len() >= 4
                &&& ns[r] matches N::If(c, t, f)
                &&& c < r && t < r && f < r
                &&& enc(ns, names, c as int, a@[1]) && enc(ns, names, t as int, a@[2]) && enc(ns, names, f as int, a@[3])
            } else if op == w_respawn() {
                &&& ns[r] matches N::Respawn(g)
                &&& if a@.len() > 1 && a@[1] is Str {
                    &&& g matches Some(s)
                    &&& s < names.len() && names[s as int] == a@[1]->Str_0@
                } else {
                    g is None
                }
            } else {
                false
            }
        },
        _ => ns[r] == N::Lit(0),
    }
}

} // verus!

verus! {

/// How many nodes folding `j` adds: one for `j` itself, after the nodes of the children that its
/// operation folds.
pub open spec fn nodes(j: Json) -> nat
    decreases j,
{
    match j {
        Json::Arr(a) => if a@.len() == 0 || !(a@[0] is Str) {
            1
        } else {
            let op = op_name(a@);
            if (op == w_add() || op == w_sub() || op == w_eq() || op == w_cons()) && a@.len() >= 3 {
                1 + nodes(a@[1]) + nodes(a@[2])
            } else if (op == w_car() || op == w_cdr() || op == w_pairp()) && a@.len() >= 2 {
                1 + nodes(a@[1])
            } else if op == w_seq() && a@.len() >= 2 {
                match a@[1] {
                    Json::Arr(ss) => {
                        proof {
                            assert(decreases_to!(j => a));
                            assert(decreases_to!(a@[1] => ss));
                        }
                        1 + nodes_list(ss@)
                    },
                    _ => 1,
                }
            } else if (op == w_set() || op == w_let()) && a@.len() >= 3 {
                1 + nodes(a@[2])
            } else if op == w_if() && a@.len() >= 4 {
                1 + nodes(a@[1]) + nodes(a@[2]) + nodes(a@[3])
            } else {
                1
            }
        },
        _ => 1,
    }
}

/// How many nodes folding each of `ss` in order adds.
pub open spec fn nodes_list(ss: Seq<Json>) -> nat
    decreases ss,
{
    if ss.len() == 0 {
        0
    } else {
        nodes_list(ss.drop_last()) + nodes(ss.last())
    }
}

/// The folding of `j` lies in `ns` from position `b` on, children first: the nodes of each
/// child it folds, one child after another, then its own node, which names each child by the
/// last node of that child's stretch.
pub open spec fn laid(ns: Seq<N>, b: int, j: Json) -> bool
    decreases j,
{
    let r = b + nodes(j) - 1;
    &&& 0 <= b
    &&& b + nodes(j) <= ns.len()
    &&& match j {
        Json::Arr(a) => if a@.len() == 0 || !(a@[0] is Str) {
            true
        } else {
            let op = op_name(a@);
            if (op == w_add() || op == w_sub() || op == w_eq() || op == w_cons()) && a@.len() >= 3 {
                let x = b + nodes(a@[1]) - 1;
                let y = b + nodes(a@[1]) + nodes(a@[2]) - 1;
                &&& match ns[r] {
                    N::Add(p, q) | N::Sub(p, q) | N::Eq(p, q) | N::Cons(p, q) => p == x && q == y,
                    _ => false,
                }
                &&& laid(ns, b, a@[1])
                &&& laid(ns, b + nodes(a@[1]), a@[2])
            } else if (op == w_car() || op == w_cdr() || op == w_pairp()) && a@.len() >= 2 {
                &&& match ns[r] {
                    N::Car(p) | N::Cdr(p) | N::IsPair(p) => p == b + nodes(a@[1]) - 1,
                    _ => false,
                }
                &&& laid(ns, b, a@[1])
            } else if op == w_seq() && a@.len() >= 2 {
                match a@[1] {
                    Json::Arr(ss) => {
                        proof {
                            assert(decreases_to!(j => a));
                            assert(decreases_to!(a@[1] => ss));
                        }
                        ns[r] matches N::Block(v) && laid_list(ns, b, ss@, v@)
                    },
                    _ => true,
                }
            } else if (op == w_set() || op == w_let()) && a@.len() >= 3 {
                &&& ns[r] matches N::Assign(_, e)
                &&& e == b + nodes(a@[2]) - 1
                &&& laid(ns, b, a@[2])
            } else if op == w_if() && a@.len() >= 4 {
                &&& ns[r] matches N::If(c, t, f)
                &&& c == b + nodes(a@[1]) - 1
                &&& t == b + nodes(a@[1]) + nodes(a@[2]) - 1
                &&& f == b + nodes(a@[1]) + nodes(a@[2]) + nodes(a@[3]) - 1
                &&& laid(ns, b, a@[1])
                &&& laid(ns, b + nodes(a@[1]), a@[2])
                &&& laid(ns, b + nodes(a@[1]) + nodes(a@[2]), a@[3])
            } else {
                true
            }
        },
        _ => true,
    }
}

/// The foldings of `ss` lie in `ns` from position `b` on, one after another, and `v` holds the
/// last node of each.
pub open spec fn laid_list(ns: Seq<N>, b: int, ss: Seq<Json>, v: Seq<u32>) -> bool
    decreases ss,
{
    &&& v.len() == ss.len()
    &&& (ss.len() == 0 || {
        &&& laid_list(ns, b, ss.drop_last(), v.drop_last())
        &&& v.last() == b + nodes_list(ss) - 1
        &&& laid(ns, b + nodes_list(ss.drop_last()), ss.last())
    })
}

/// `names` with `k` added at the end, unless it is there already.
pub open spec fn add_name(names: Seq<Seq<char>>, k: Seq<char>) -> Seq<Seq<char>> {
    if names.contains(k) {
        names
    } else {
        names.push(k)
    }
}

/// The register names known after folding `j`: those of `names`, then each new name of `j` in
/// the order the folding meets it.
pub open spec fn names_of(j: Json, names: Seq<Seq<char>>) -> Seq<Seq<char>>
    decreases j,
{
    match j {
        Json::Arr(a) => if a@.len() == 0 || !(a@[0] is Str) {
            names
        } else {
            let op = op_name(a@);
            if op == w_var() && a@.len() >= 2 {
                add_name(names, spec_sof(a@[1]))
            } else if (op == w_add() || op == w_sub() || op == w_eq() || op == w_cons()) && a@.len() >= 3 {
                names_of(a@[2], names_of(a@[1], names))
            } else if (op == w_car() || op == w_cdr() || op == w_pairp()) && a@.len() >= 2 {
                names_of(a@[1], names)
            } else if op == w_seq() && a@.len() >= 2 {
                match a@[1] {
                    Json::Arr(ss) => {
                        proof {
                            assert(decreases_to!(j => a));
                            assert(decreases_to!(a@[1] => ss));
                        }
                        names_list(ss@, names)
                    },
                    _ => names,
                }
            } else if (op == w_set() || op == w_let()) && a@.len() >= 3 {
                names_of(a@[2], add_name(names, spec_sof(a@[1])))
            } else if op == w_if() && a@.len() >= 4 {
                names_of(a@[3], names_of(a@[2], names_of(a@[1], names)))
            } else if op == w_respawn() && a@.len() > 1 && a@[1] is Str {
                add_name(names, a@[1]->Str_0@)
            } else {
                names
            }
        },
        _ => names,
    }
}

/// The register names known after folding each of `ss` in order.
pub open spec fn names_list(ss: Seq<Json>, names: Seq<Seq<char>>) -> Seq<Seq<char>>
    decreases ss,
{
    if ss.len() == 0 {
        names
    } else {
        names_of(ss.last(), names_list(ss.drop_last(), names))
    }
}

/// A stretch laid out in `ns` stays laid out when nodes are added after it.
pub proof fn lemma_laid_extend(ns: Seq<N>, b: int, j: Json, ns2: Seq<N>)
    requires
        laid(ns, b, j),
        is_prefix(ns, ns2),
    ensures
        laid(ns2, b, j),
    decreases j,
{
    let r = b + nodes(j) - 1;
    lemma_prefix_index(ns, ns2, r);
    if let Json::Arr(a) = j {
        if a@.len() > 0 && a@[0] is Str {
            let op = op_name(a@);
            if (op == w_add() || op == w_sub() || op == w_eq() || op == w_cons()) && a@.len() >= 3 {
                lemma_laid_extend(ns, b, a@[1], ns2);
                lemma_laid_extend(ns, b + nodes(a@[1]), a@[2], ns2);
            } else if (op == w_car() || op == w_cdr() || op == w_pairp()) && a@.len() >= 2 {
                lemma_laid_extend(ns, b, a@[1], ns2);
            } else if op == w_seq() && a@.len() >= 2 {
                if let Json::Arr(ss) = a@[1] {
                    assert(decreases_to!(j => a));
                    assert(decreases_to!(a@[1] => ss));
                    if let N::Block(v) = ns[r] {
                        lemma_laid_list_extend(ns, b, ss@, v@, ns2);
                    }
                }
            } else if (op == w_set() || op == w_let()) && a@.len() >= 3 {
                lemma_laid_extend(ns, b, a@[2], ns2);
            } else if op == w_if() && a@.len() >= 4 {
                lemma_laid_extend(ns, b, a@[1], ns2);
                lemma_laid_extend(ns, b + nodes(a@[1]), a@[2], ns2);
                lemma_laid_extend(ns, b + nodes(a@[1]) + nodes(a@[2]), a@[3], ns2);
            }
        }
    }
}

pub proof fn lemma_laid_list_extend(ns: Seq<N>, b: int, ss: Seq<Json>, v: Seq<u32>, ns2: Seq<N>)
    requires
        laid_list(ns, b, ss, v),
        is_prefix(ns, ns2),
    ensures
        laid_list(ns2, b, ss, v),
    decreases ss,
{
    if ss.len() > 0 {
        lemma_laid_list_extend(ns, b, ss.drop_last(), v.drop_last(), ns2);
        lemma_laid_extend(ns, b + nodes_list(ss.drop_last()), ss.last(), ns2);
    }
}

} // verus!

verus! {

/// The nodes `v`, all before `r`, are the foldings of `ss`, one by one.
pub open spec fn enc_list(ns: Seq<N>, names: Seq<Seq<char>>, r: int, v: Seq<u32>, ss: Seq<Json>) -> bool
    decreases ss,
{
    &&& v.len() == ss.len()
    &&& (ss.len() == 0 || {
        &&& v.last() < r
        &&& enc(ns, names, v.last() as int, ss.last())
        &&& enc_list(ns, names, r, v.drop_last(), ss.drop_last())
    })
}

/// `a` is an initial part of `b`.
pub open spec fn is_prefix<T>(a: Seq<T>, b: Seq<T>) -> bool {
    a.len() <= b.len() && b.subrange(0, a.len() as int) == a
}

pub proof fn lemma_prefix_index<T>(a: Seq<T>, b: Seq<T>, i: int)
    requires
        is_prefix(a, b),
        0 <= i < a.len(),
    ensures
        b[i] == a[i],
{
    assert(b.subrange(0, a.len() as int)[i] == b[i]);
}

pub proof fn lemma_prefix_trans<T>(a: Seq<T>, b: Seq<T>, c: Seq<T>)
    requires
        is_prefix(a, b),
        is_prefix(b, c),
    ensures
        is_prefix(a, c),
{
    assert(c.subrange(0, a.len() as int) =~= a) by {
        assert forall|i: int| 0 <= i < a.len() implies c.subrange(0, a.len() as int)[i] == a[i] by {
            lemma_prefix_index(a, b, i);
            lemma_prefix_index(b, c, i);
        }
    }
}

/// A folding stays a folding when nodes and names are added after it.
pub proof fn lemma_enc_extend(ns: Seq<N>, names: Seq<Seq<char>>, r: int, j: Json, ns2: Seq<N>, names2: Seq<Seq<char>>)
    requires
        enc(ns, names, r, j),
        is_prefix(ns, ns2),
        is_prefix(names, names2),
    ensures
        enc(ns2, names2, r, j),
    decreases j,
{
    lemma_prefix_index(ns, ns2, r);
    match j {
        Json::Arr(a) => {
            if a@[0] is Str {
                let op = op_name(a@);
                if op == w_var() {
                    if let N::Var(s) = ns[r] {
                        lemma_prefix_index(names, names2, s as int);
                    }
                } else if op == w_add() || op == w_sub() || op == w_eq() || op == w_cons() {
                    match ns[r] {
                        N::Add(x, y) | N::Sub(x, y) | N::Eq(x, y) | N::Cons(x, y) => {
                            lemma_enc_extend(ns, names, x as int, a@[1], ns2, names2);
                            lemma_enc_extend(ns, names, y as int, a@[2], ns2, names2);
                        },
                        _ => {},
                    }
                } else if op == w_car() || op == w_cdr() || op == w_pairp() {
                    match ns[r] {
                        N::Car(x) | N::Cdr(x) | N::IsPair(x) => {
                            lemma_enc_extend(ns, names, x as int, a@[1], ns2, names2);
                        },
                        _ => {},
                    }
                } else if op == w_seq() {
                    if let N::Block(v) = ns[r] {
                        if let Json::Arr(ss) = a@[1] {
                            assert(decreases_to!(j => j->Arr_0));
                            assert(decreases_to!(a@[1] => a@[1]->Arr_0));
                            lemma_enc_list_extend(ns, names, r, v@, ss@, ns2, names2, r);
                        }
                    }
                } else if op == w_set() || op == w_let() {
                    if let N::Assign(sl, e) = ns[r] {
                        lemma_prefix_index(names, names2, sl as int);
                        lemma_enc_extend(ns, names, e as int, a@[2], ns2, names2);
                    }
                } else if op == w_if() {
                    if let N::If(c, t, f) = ns[r] {
                        lemma_enc_extend(ns, names, c as int, a@[1], ns2, names2);
                        lemma_enc_extend(ns, names, t as int, a@[2], ns2, names2);
                        lemma_enc_extend(ns, names, f as int, a@[3], ns2, names2);
                    }
                } else if op == w_respawn() {
                    if let N::Respawn(Some(s)) = ns[r] {
                        lemma_prefix_index(names, names2, s as int);
                    }
                }
            }
        },
        _ => {},
    }
}

pub proof fn lemma_enc_list_extend(ns: Seq<N>, names: Seq<Seq<char>>, r: int, v: Seq<u32>, ss: Seq<Json>, ns2: Seq<N>, names2: Seq<Seq<char>>, r2: int)
    requires
        enc_list(ns, names, r, v, ss),
        is_prefix(ns, ns2),
        is_prefix(names, names2),
        r <= r2,
    ensures
        enc_list(ns2, names2, r2, v, ss),
    decreases ss,
{
    if ss.len() > 0 {
        lemma_enc_extend(ns, names, v.last() as int, ss.last(), ns2, names2);
        lemma_enc_list_extend(ns, names, r, v.drop_last(), ss.drop_last(), ns2, names2, r2);
    }
}

pub proof fn lemma_buildable_list(s: Seq<Json>, k: int)
    requires
        buildable_list(s),
        0 <= k < s.len(),
    ensures
        buildable(s[k]),
    decreases s.len(),
{
    if k < s.len() - 1 {
        lemma_buildable_list(s.drop_last(), k);
    }
}

pub proof fn lemma_jsize_take(s: Seq<Json>, k: int)
    requires
        0 <= k <= s.len(),
    ensures
        jsize_list(s.take(k)) <= jsize_list(s),
        k < s.len() ==> jsize_list(s.take(k + 1)) == jsize_list(s.take(k)) + jsize(s[k]),
    decreases s.len() - k,
{
    if k < s.len() {
        assert(s.take(k + 1).drop_last() =~= s.take(k));
        lemma_jsize_take(s, k + 1);
    } else {
        assert(s.take(k) =~= s);
    }
}

pub proof fn lemma_jsize_parts(a: Seq<Json>, n: int)
    requires
        1 <= n <= 4,
        n <= a.len(),
    ensures
        n >= 2 ==> jsize(a[1]) <= jsize_list(a),
        n >= 3 ==> jsize(a[1]) + jsize(a[2]) <= jsize_list(a),
        n >= 4 ==> jsize(a[1]) + jsize(a[2]) + jsize(a[3]) <= jsize_list(a),
{
    lemma_jsize_take(a, 0);
    lemma_jsize_take(a, 1);
    lemma_jsize_take(a, n);
    if n >= 2 {
        lemma_jsize_take(a, 2);
    }
    if n >= 3 {
        lemma_jsize_take(a, 3);
    }
    if n >= 4 {
        lemma_jsize_take(a, 4);
    }
}

pub proof fn lemma_prefix_push<T>(a: Seq<T>, x: T)
    ensures
        is_prefix(a, a.push(x)),
{
    assert(a.push(x).subrange(0, a.len() as int) =~= a);
}

pub proof fn lemma_prefix_refl<T>(a: Seq<T>)
    ensures
        is_prefix(a, a),
{
    assert(a.subrange(0, a.len() as int) =~= a);
}

/// Folds each of `ss` into `ns` in order; the result holds their indices.
pub fn build_list(ss: &Vec<Json>, ns: &mut Vec<N>, nm: &mut Names) -> (v: Vec<u32>)
    requires
        buildable_list(ss@),
        old(nm).wf(),
        old(ns)@.len() + jsize_list(ss@) <= 0xffff_ffff,
        old(nm)@.len() + jsize_list(ss@) < 0xffff_ffff,
    ensures
        final(nm).wf(),
        enc_list(final(ns)@, final(nm)@, final(ns)@.len() as int, v@, ss@),
        is_prefix(old(ns)@, final(ns)@),
        is_prefix(old(nm)@, final(nm)@),
        final(ns)@.len() <= old(ns)@.len() + jsize_list(ss@),
        final(nm)@.len() <= old(nm)@.len() + jsize_list(ss@),
        final(ns)@.len() == old(ns)@.len() + nodes_list(ss@),
        laid_list(final(ns)@, old(ns)@.len() as int, ss@, v@),
        final(nm)@ == names_list(ss@, old(nm)@),
    decreases ss,
{
    let ghost ns0 = ns@;
    let ghost nm0 = nm@;
    let mut v: Vec<u32> = Vec::new();
    let mut i: usize = 0;
    proof {
        lemma_jsize_take(ss@, 0);
        assert(ss@.take(0) =~= Seq::<Json>::empty());
        lemma_prefix_refl(ns0);
        lemma_prefix_refl(nm0);
    }
    while i < ss.len()
        invariant
            i <= ss@.len(),
            nm.wf(),
            is_prefix(ns0, ns@),
            is_prefix(nm0, nm@),
            ns0 == old(ns)@,
            nm0 == old(nm)@,
            ns@.len() <= ns0.len() + jsize_list(ss@.take(i as int)),
            nm@.len() <= nm0.len() + jsize_list(ss@.take(i as int)),
            ns0.len() + jsize_list(ss@) <= 0xffff_ffff,
            nm0.len() + jsize_list(ss@) < 0xffff_ffff,
            buildable_list(ss@),
            enc_list(ns@, nm@, ns@.len() as int, v@, ss@.take(i as int)),
            ns@.len() == ns0.len() + nodes_list(ss@.take(i as int)),
            laid_list(ns@, ns0.len() as int, ss@.take(i as int), v@),
            nm@ == names_list(ss@.take(i as int), nm0),
        decreases ss@.len() - i,
    {
        proof {
            lemma_jsize_take(ss@, i as int);
            lemma_jsize_take(ss@, i + 1);
            lemma_buildable_list(ss@, i as int);
        }
        let ghost ns1 = ns@;
        let ghost nm1 = nm@;
        let ghost v0 = v@;
        let x = build(&ss[i], ns, nm);
        v.push(x);
        proof {
            lemma_enc_list_extend(ns1, nm1, ns1.len() as int, v0, ss@.take(i as int), ns@, nm@, ns@.len() as int);
            assert(v@.drop_last() =~= v0);
            assert(ss@.take(i + 1).drop_last() =~= ss@.take(i as int));
            assert(ss@.take(i + 1).last() == ss@[i as int]);
            lemma_prefix_trans(ns0, ns1, ns@);
            lemma_prefix_trans(nm0, nm1, nm@);
            lemma_laid_list_extend(ns1, ns0.len() as int, ss@.take(i as int), v0, ns@);
            assert(v@.last() == x);
        }
        i += 1;
    }
    proof {
        assert(ss@.take(i as int) =~= ss@);
    }
    v
}

/// Folds the machine tree `j` into `ns`, naming its registers in `nm`; the result is the index
/// of the node for `j`, whose children come before it.
#[verifier::spinoff_prover]
#[verifier::rlimit(100)]
pub fn build(j: &Json, ns: &mut Vec<N>, nm: &mut Names) -> (r: u32)
    requires
        buildable(*j),
        old(nm).wf(),
        old(ns)@.len() + jsize(*j) <= 0xffff_ffff,
        old(nm)@.len() + jsize(*j) < 0xffff_ffff,
    ensures
        final(nm).wf(),
        enc(final(ns)@, final(nm)@, r as int, *j),
        is_prefix(old(ns)@, final(ns)@),
        is_prefix(old(nm)@, final(nm)@),
        final(ns)@.len() <= old(ns)@.len() + jsize(*j),
        final(nm)@.len() <= old(nm)@.len() + jsize(*j),
        r as int == final(ns)@.len() - 1,
        final(ns)@.len() == old(ns)@.len() + nodes(*j),
        laid(final(ns)@, old(ns)@.len() as int, *j),
        final(nm)@ == names_of(*j, old(nm)@),
    decreases j,
{
    let ghost ns0 = ns@;
    let ghost nm0 = nm@;
    let a = match j {
        Json::Arr(a) => a,
        _ => {
            ns.push(N::Lit(0));
            proof { lemma_prefix_push(ns0, N::Lit(0)); lemma_prefix_refl(nm0); }
            return (ns.len() - 1) as u32;
        },
    };
    let op: &Vec<char> = match &a[0] {
        Json::Str(s) => s,
        _ => {
            ns.push(N::Lit(0));
            proof { lemma_prefix_push(ns0, N::Lit(0)); lemma_prefix_refl(nm0); }
            return (ns.len() - 1) as u32;
        },
    };
    proof {
        lemma_jsize_parts(a@, if a@.len() >= 4 { 4 } else { a@.len() as int });
        lemma_prefix_refl(ns0);
        lemma_prefix_refl(nm0);
    }
    let op = op.as_slice();
    let ghost nmi = nm@;
    let node = if same_chars(op, &['l', 'i', 't']) {
        N::Lit(match &a[1] {
            Json::Num(k) => *k,
            _ => 0,
        })
    } else if same_chars(op, &['v', 'a', 'r']) {
        let s = nm.intern(sof(&a[1]));
        proof { assert(nm@.subrange(0, nmi.len() as int) == nmi); }
        N::Var(s)
    } else if same_chars(op, &['n', 'i', 'l']) {
        N::Nil
    } else if same_chars(op, &['a', 'd', 'd']) || same_chars(op, &['s', 'u', 'b']) || same_chars(op, &['e', 'q'])
        || same_chars(op, &['c', 'o', 'n', 's']) {
        let x = build(&a[1], ns, nm);
        let ghost ns1 = ns@;
        let ghost nm1 = nm@;
        let y = build(&a[2], ns, nm);
        proof {
            lemma_enc_extend(ns1, nm1, x as int, a@[1], ns@, nm@);
            lemma_prefix_trans(ns0, ns1, ns@);
            lemma_prefix_trans(nm0, nm1, nm@);
            lemma_laid_extend(ns1, ns0.len() as int, a@[1], ns@);
        }
        if same_chars(op, &['a', 'd', 'd']) {
            N::Add(x, y)
        } else if same_chars(op, &['s', 'u', 'b']) {
            N::Sub(x, y)
        } else if same_chars(op, &['e', 'q']) {
            N::Eq(x, y)
        } else {
            N::Cons(x, y)
        }
    } else if same_chars(op, &['c', 'a', 'r']) || same_chars(op, &['c', 'd', 'r']) || same_chars(op, &['p', 'a', 'i', 'r']) {
        let x = build(&a[1], ns, nm);
        if same_chars(op, &['c', 'a', 'r']) {
            N::Car(x)
        } else if same_chars(op, &['c', 'd', 'r']) {
            N::Cdr(x)
        } else {
            N::IsPair(x)
        }
    } else if same_chars(op, &['s', 'e', 'q']) {
        match &a[1] {
            Json::Arr(ss) => {
                proof {
                    assert(jsize(a@[1]) == 1 + jsize_list(ss@));
                    assert(decreases_to!(*j => j->Arr_0));
                    assert(decreases_to!(a@[1] => a@[1]->Arr_0));
                }
                N::Block(build_list(ss, ns, nm))
            },
            _ => N::Block(Vec::new()),
        }
    } else if same_chars(op, &['s', 'e', 't']) || same_chars(op, &['l', 'e', 't']) {
        let slot = nm.intern(sof(&a[1]));
        let ghost ns1 = ns@;
        let ghost nm1 = nm@;
        let e = build(&a[2], ns, nm);
        proof {
            lemma_prefix_index(nm1, nm@, slot as int);
            lemma_prefix_trans(nm0, nm1, nm@);
        }
        N::Assign(slot, e)
    } else if same_chars(op, &['i', 'f']) {
        let c = build(&a[1], ns, nm);
        let ghost ns1 = ns@;
        let ghost nm1 = nm@;
        let t = build(&a[2], ns, nm);
        let ghost ns2 = ns@;
        let ghost nm2 = nm@;
        let f = build(&a[3], ns, nm);
        proof {
            lemma_laid_extend(ns1, ns0.len() as int, a@[1], ns2);
            lemma_laid_extend(ns2, ns0.len() as int, a@[1], ns@);
            lemma_laid_extend(ns2, ns1.len() as int, a@[2], ns@);
            lemma_enc_extend(ns1, nm1, c as int, a@[1], ns2, nm2);
            lemma_enc_extend(ns2, nm2, c as int, a@[1], ns@, nm@);
            lemma_enc_extend(ns2, nm2, t as int, a@[2], ns@, nm@);
            lemma_prefix_trans(ns0, ns1, ns2);
            lemma_prefix_trans(ns0, ns2, ns@);
            lemma_prefix_trans(nm0, nm1, nm2);
            lemma_prefix_trans(nm0, nm2, nm@);
        }
        N::If(c, t, f)
    } else if same_chars(op, &['r', 'e', 's', 'p', 'a', 'w', 'n']) {
        let g = if a.len() > 1 {
            match &a[1] {
                Json::Str(s) => Some(nm.intern(s.as_slice())),
                _ => None,
            }
        } else {
            None
        };
        N::Respawn(g)
    } else {
        proof { assert(false); }
        N::Nil
    };
    let ghost ns_before = ns@;
    let ghost gnode = node;
    ns.push(node);
    proof {
        lemma_prefix_push(ns_before, gnode);
        lemma_prefix_trans(ns0, ns_before, ns@);
        lemma_prefix_refl(nm@);
    }
    let r = (ns.len() - 1) as u32;
    proof {
        let nsf = ns@;
        let nmf = nm@;
        assert(nsf[r as int] == gnode);
        match gnode {
            N::Add(x, y) | N::Sub(x, y) | N::Eq(x, y) | N::Cons(x, y) => {
                lemma_enc_extend(ns_before, nmf, x as int, a@[1], nsf, nmf);
                lemma_enc_extend(ns_before, nmf, y as int, a@[2], nsf, nmf);
                lemma_laid_extend(ns_before, ns0.len() as int, a@[1], nsf);
                lemma_laid_extend(ns_before, x + 1, a@[2], nsf);
            },
            N::Car(x) | N::Cdr(x) | N::IsPair(x) => {
                lemma_enc_extend(ns_before, nmf, x as int, a@[1], nsf, nmf);
                lemma_laid_extend(ns_before, ns0.len() as int, a@[1], nsf);
            },
            N::Assign(sl, e) => {
                lemma_enc_extend(ns_before, nmf, e as int, a@[2], nsf, nmf);
                lemma_laid_extend(ns_before, ns0.len() as int, a@[2], nsf);
            },
            N::If(c, t, f) => {
                lemma_enc_extend(ns_before, nmf, c as int, a@[1], nsf, nmf);
                lemma_enc_extend(ns_before, nmf, t as int, a@[2], nsf, nmf);
                lemma_enc_extend(ns_before, nmf, f as int, a@[3], nsf, nmf);
                lemma_laid_extend(ns_before, ns0.len() as int, a@[1], nsf);
                lemma_laid_extend(ns_before, c + 1, a@[2], nsf);
                lemma_laid_extend(ns_before, t + 1, a@[3], nsf);
            },
            N::Block(v) => {
                if let Json::Arr(ss) = a@[1] {
                    lemma_enc_list_extend(ns_before, nmf, ns_before.len() as int, v@, ss@, nsf, nmf, r as int);
                    lemma_laid_list_extend(ns_before, ns0.len() as int, ss@, v@, nsf);
                }
            },
            _ => {},
        }
    }
    r
}

} // verus!

verus! {

/// Registers by slot; `None` is a register not yet set.
pub type RegsB = Seq<Option<V>>;

/// The value in slot `s`, if the slot exists and is set.
pub open spec fn reg_spec(regs: RegsB, s: u32) -> Option<V> {
    if s < regs.len() {
        regs[s as int]
    } else {
        None
    }
}

/// The value of node `i` as an expression; `None` where evaluating it would stop the run.
pub open spec fn ev_b_spec(ns: Seq<N>, i: int, regs: RegsB) -> Option<V>
    decreases i,
{
    if i < 0 || i >= ns.len() {
        None
    } else {
        match ns[i] {
            N::Lit(k) => Some(V::I(k)),
            N::Var(s) => reg_spec(regs, s),
            N::Add(x, y) | N::Sub(x, y) => if x < i && y < i {
                match (ev_b_spec(ns, x as int, regs), ev_b_spec(ns, y as int, regs)) {
                    (Some(V::I(p)), Some(V::I(q))) => Some(
                        V::I(if ns[i] is Add { p.wrapping_add(q) } else { p.wrapping_sub(q) }),
                    ),
                    _ => None,
                }
            } else {
                None
            },
            N::Eq(x, y) | N::Cons(x, y) => if x < i && y < i {
                match (ev_b_spec(ns, x as int, regs), ev_b_spec(ns, y as int, regs)) {
                    (Some(p), Some(q)) => Some(
                        if ns[i] is Eq {
                            V::I(if p == q { 1 } else { 0 })
                        } else {
                            V::P(Box::new(p), Box::new(q))
                        },
                    ),
                    _ => None,
                }
            } else {
                None
            },
            N::Nil => Some(V::Nil),
            N::Car(x) | N::Cdr(x) | N::IsPair(x) => if x < i {
                match ev_b_spec(ns, x as int, regs) {
                    Some(p) => if ns[i] is IsPair {
                        Some(V::I(if p is P { 1 } else { 0 }))
                    } else {
                        match p {
                            V::P(h, t) => Some(if ns[i] is Car { *h } else { *t }),
                            _ => None,
                        }
                    },
                    None => None,
                }
            } else {
                None
            },
            _ => None,
        }
    }
}

/// Registers, fuel and the respawn flag of floor B.
pub type StB = (RegsB, i64, bool);

/// A respawn that is not held back by its guard: spend one fuel, if there is any.
pub open spec fn fuel_step<R>(st: (R, i64, bool)) -> Option<(R, i64, bool)> {
    if st.1 <= 0 {
        Some(st)
    } else {
        Some((st.0, (st.1 - 1) as i64, true))
    }
}

/// The state after running node `i` as a statement; `None` where that would stop the run.
pub open spec fn ex_b_spec(ns: Seq<N>, i: int, st: StB) -> Option<StB>
    decreases i, 1int, 0int,
{
    let (regs, fuel, resp) = st;
    if i < 0 || i >= ns.len() {
        None
    } else {
        match ns[i] {
            N::Block(ss) => ex_list_b(ns, i, ss@, st),
            N::Assign(slot, e) => if e < i {
                match ev_b_spec(ns, e as int, regs) {
                    Some(v) => if slot < regs.len() {
                        Some((regs.update(slot as int, Some(v)), fuel, resp))
                    } else {
                        None
                    },
                    None => None,
                }
            } else {
                None
            },
            N::If(c, t, f) => if c < i {
                match ev_b_spec(ns, c as int, regs) {
                    None => None,
                    Some(cv) => if spec_truthy(cv) {
                        if t < i {
                            ex_b_spec(ns, t as int, st)
                        } else {
                            None
                        }
                    } else {
                        if f < i {
                            ex_b_spec(ns, f as int, st)
                        } else {
                            None
                        }
                    },
                }
            } else {
                None
            },
            N::Respawn(g) => match g {
                Some(s) => match reg_spec(regs, s) {
                    None => None,
                    Some(gv) => if !spec_truthy(gv) {
                        Some(st)
                    } else {
                        fuel_step(st)
                    },
                },
                None => fuel_step(st),
            },
            _ => match ev_b_spec(ns, i, regs) {
                Some(_) => Some(st),
                None => None,
            },
        }
    }
}

/// The state after running the nodes `ss`, children of node `i`, in order.
pub open spec fn ex_list_b(ns: Seq<N>, i: int, ss: Seq<u32>, st: StB) -> Option<StB>
    decreases i, 0int, ss.len(),
{
    if ss.len() == 0 {
        Some(st)
    } else if 0 <= ss[0] < i {
        match ex_b_spec(ns, ss[0] as int, st) {
            None => None,
            Some(st2) => ex_list_b(ns, i, ss.drop_first(), st2),
        }
    } else {
        None
    }
}

/// The result of running from node `root` until no respawn is due: the value in slot `vs`.
pub open spec fn run_b_spec(ns: Seq<N>, root: int, regs: RegsB, fuel: i64, vs: u32) -> Option<V>
    decreases fuel,
{
    match ex_b_spec(ns, root, (regs, fuel, false)) {
        None => None,
        Some((r, f, resp)) => if resp {
            if 0 <= f < fuel {
                run_b_spec(ns, root, r, f, vs)
            } else {
                None
            }
        } else {
            reg_spec(r, vs)
        },
    }
}

pub proof fn lemma_ex_b_fuel(ns: Seq<N>, i: int, st: StB)
    ensures
        ex_b_spec(ns, i, st) matches Some((r, f, resp)) ==> f <= st.1 && (f < st.1 ==> f >= 0) && (resp ==> st.2 || f < st.1) && r.len() == st.0.len(),
    decreases i, 1int, 0int,
{
    if 0 <= i < ns.len() {
        match ns[i] {
            N::Block(ss) => lemma_ex_list_b_fuel(ns, i, ss@, st),
            N::If(c, t, f) => {
                if t < i {
                    lemma_ex_b_fuel(ns, t as int, st);
                }
                if f < i {
                    lemma_ex_b_fuel(ns, f as int, st);
                }
            },
            _ => {},
        }
    }
}

pub proof fn lemma_ex_list_b_fuel(ns: Seq<N>, i: int, ss: Seq<u32>, st: StB)
    ensures
        ex_list_b(ns, i, ss, st) matches Some((r, f, resp)) ==> f <= st.1 && (f < st.1 ==> f >= 0) && (resp ==> st.2 || f < st.1) && r.len() == st.0.len(),
    decreases i, 0int, ss.len(),
{
    if ss.len() > 0 && 0 <= ss[0] < i {
        lemma_ex_b_fuel(ns, ss[0] as int, st);
        if let Some(st2) = ex_b_spec(ns, ss[0] as int, st) {
            lemma_ex_list_b_fuel(ns, i, ss.drop_first(), st2);
        }
    }
}

/// The value set in slot `s`.
pub fn reg_b(regs: &[Option<V>], s: u32) -> (r: &V)
    requires
        reg_spec(regs@, s) is Some,
    ensures
        reg_spec(regs@, s) == Some(*r),
{
    regs[s as usize].as_ref().unwrap()
}

} // verus!

verus! {

/// Evaluates node `i` as an expression.
pub fn ev_b(ns: &[N], i: u32, regs: &[Option<V>]) -> (r: V)
    requires
        ev_b_spec(ns@, i as int, regs@) is Some,
    ensures
        ev_b_spec(ns@, i as int, regs@) == Some(r),
    decreases i,
{
    match &ns[i as usize] {
        N::Lit(k) => V::I(*k),
        N::Var(s) => clone_v(reg_b(regs, *s)),
        N::Add(x, y) => match (ev_b(ns, *x, regs), ev_b(ns, *y, regs)) {
            (V::I(a), V::I(b)) => V::I(a.wrapping_add(b)),
            _ => { proof { assert(false); } V::I(0) }
        },
        N::Sub(x, y) => match (ev_b(ns, *x, regs), ev_b(ns, *y, regs)) {
            (V::I(a), V::I(b)) => V::I(a.wrapping_sub(b)),
            _ => { proof { assert(false); } V::I(0) }
        },
        N::Eq(x, y) => {
            let a = ev_b(ns, *x, regs);
            let b = ev_b(ns, *y, regs);
            V::I(if deep_eq(&a, &b) { 1 } else { 0 })
        },
        N::Nil => V::Nil,
        N::Cons(x, y) => {
            let a = ev_b(ns, *x, regs);
            let b = ev_b(ns, *y, regs);
            V::P(Box::new(a), Box::new(b))
        },
        N::Car(x) => match ev_b(ns, *x, regs) {
            V::P(a, _) => *a,
            _ => { proof { assert(false); } V::I(0) }
        },
        N::Cdr(x) => match ev_b(ns, *x, regs) {
            V::P(_, d) => *d,
            _ => { proof { assert(false); } V::I(0) }
        },
        N::IsPair(x) => {
            let a = ev_b(ns, *x, regs);
            V::I(if is_pair(&a) { 1 } else { 0 })
        },
        _ => { proof { assert(false); } V::I(0) }
    }
}

/// Runs node `i` as a statement.
pub fn ex_b(ns: &[N], i: u32, regs: &mut Vec<Option<V>>, fuel: &mut i64, respawn: &mut bool)
    requires
        ex_b_spec(ns@, i as int, (old(regs)@, *old(fuel), *old(respawn))) is Some,
    ensures
        ex_b_spec(ns@, i as int, (old(regs)@, *old(fuel), *old(respawn))) == Some((final(regs)@, *final(fuel), *final(respawn))),
    decreases i, 1int, 0int,
{
    match &ns[i as usize] {
        N::Block(ss) => {
            let mut k: usize = 0;
            let ghost target = ex_b_spec(ns@, i as int, (old(regs)@, *old(fuel), *old(respawn)));
            assert(ss@.subrange(0, ss@.len() as int) =~= ss@);
            while k < ss.len()
                invariant
                    k <= ss@.len(),
                    ns@[i as int] == N::Block(*ss),
                    0 <= i < ns@.len(),
                    ex_list_b(ns@, i as int, ss@.subrange(k as int, ss@.len() as int), (regs@, *fuel, *respawn)) == target,
                    target is Some,
                decreases ss@.len() - k,
            {
                let ghost rest = ss@.subrange(k as int, ss@.len() as int);
                assert(rest.drop_first() =~= ss@.subrange(k + 1, ss@.len() as int));
                assert(rest[0] == ss@[k as int]);
                ex_b(ns, ss[k], regs, fuel, respawn);
                k += 1;
            }
            assert(ss@.subrange(k as int, ss@.len() as int) =~= Seq::<u32>::empty());
        },
        N::Assign(slot, e) => {
            let v = ev_b(ns, *e, regs);
            regs.set(*slot as usize, Some(v));
        },
        N::If(c, t, f) => {
            let cv = ev_b(ns, *c, regs);
            if truthy(&cv) {
                ex_b(ns, *t, regs, fuel, respawn)
            } else {
                ex_b(ns, *f, regs, fuel, respawn)
            }
        },
        N::Respawn(g) => {
            if let Some(g) = g {
                if !truthy(reg_b(regs, *g)) {
                    return;
                }
            }
            if *fuel <= 0 {
                return;
            }
            *fuel -= 1;
            *respawn = true;
        },
        _ => {
            ev_b(ns, i, regs);
        },
    }
}

/// Runs from node `root` until no respawn is due, and gives the value in slot `vs`.
pub fn run_b(ns: &[N], root: u32, regs: Vec<Option<V>>, fuel: i64, vs: u32) -> (r: V)
    requires
        run_b_spec(ns@, root as int, regs@, fuel, vs) is Some,
    ensures
        run_b_spec(ns@, root as int, regs@, fuel, vs) == Some(r),
{
    let ghost target = run_b_spec(ns@, root as int, regs@, fuel, vs);
    let mut regs = regs;
    let mut fuel = fuel;
    let mut respawn = true;
    while respawn
        invariant
            target is Some,
            respawn ==> run_b_spec(ns@, root as int, regs@, fuel, vs) == target,
            !respawn ==> target == reg_spec(regs@, vs),
        decreases (if respawn { if fuel >= 0 { fuel as int + 2 } else { 1 } } else { 0 }),
    {
        respawn = false;
        proof { lemma_ex_b_fuel(ns@, root as int, (regs@, fuel, false)); }
        ex_b(ns, root, &mut regs, &mut fuel, &mut respawn);
    }
    clone_v(reg_b(regs.as_slice(), vs))
}

/// The names known after interning the keys `kvs` in order.
pub open spec fn names_after(names: Seq<Seq<char>>, kvs: Seq<(Vec<char>, Json)>) -> Seq<Seq<char>>
    decreases kvs.len(),
{
    if kvs.len() == 0 {
        names
    } else {
        let prev = names_after(names, kvs.drop_last());
        if prev.contains(kvs.last().0@) {
            prev
        } else {
            prev.push(kvs.last().0@)
        }
    }
}

/// Slots for `names`, set from the registers that the host members describe.
pub open spec fn host_slots(names: Seq<Seq<char>>, m: Map<Seq<char>, V>) -> RegsB {
    Seq::new(names.len(), |s: int| if m.contains_key(names[s]) { Some(m[names[s]]) } else { None })
}

/// The registers of floor B for a host object: every member key gets a slot, and each slot
/// holds what the host's registers hold under its name.
pub open spec fn spec_host_b(obj: Json, names: Seq<Seq<char>>) -> (Seq<Seq<char>>, RegsB) {
    match obj {
        Json::Obj(kvs) => {
            let nn = names_after(names, kvs@);
            (nn, host_slots(nn, host_map(kvs@)))
        },
        _ => (names, host_slots(names, Map::empty())),
    }
}

} // verus!

verus! {

pub proof fn lemma_names_after(names: Seq<Seq<char>>, kvs: Seq<(Vec<char>, Json)>)
    ensures
        is_prefix(names, names_after(names, kvs)),
        names_after(names, kvs).len() <= names.len() + kvs.len(),
        distinct_names(names) ==> distinct_names(names_after(names, kvs)),
        forall|k: int| 0 <= k < kvs.len() ==> names_after(names, kvs).contains(#[trigger] kvs[k].0@),
    decreases kvs.len(),
{
    if kvs.len() == 0 {
        lemma_prefix_refl(names);
    } else {
        let prev = names_after(names, kvs.drop_last());
        lemma_names_after(names, kvs.drop_last());
        let key = kvs.last().0@;
        if !prev.contains(key) {
            lemma_prefix_push(prev, key);
            lemma_prefix_trans(names, prev, prev.push(key));
            if distinct_names(names) {
                assert(distinct_names(prev.push(key))) by {
                    assert forall|a: int, b: int| 0 <= a < b < prev.push(key).len() implies #[trigger] prev.push(key)[a] != #[trigger] prev.push(key)[b] by {
                        if b == prev.len() {
                            assert(prev[a] != key);
                        } else {
                            assert(prev[a] != prev[b]);
                        }
                    }
                }
            }
        }
        let nn = names_after(names, kvs);
        assert forall|k: int| 0 <= k < kvs.len() implies nn.contains(#[trigger] kvs[k].0@) by {
            if k < kvs.len() - 1 {
                assert(kvs.drop_last()[k] == kvs[k]);
                assert(prev.contains(kvs[k].0@));
                let w = choose|w: int| 0 <= w < prev.len() && prev[w] == kvs[k].0@;
                if !prev.contains(key) {
                    assert(prev.push(key)[w] == kvs[k].0@);
                }
            } else {
                if !prev.contains(key) {
                    assert(prev.push(key)[prev.len() as int] == key);
                }
            }
        }
    }
}

/// Registers loaded from a host object: every member key is given a slot in `nm`, and each
/// slot holds the decoded value of the last member of its name, or nothing.
pub fn host_b(obj: &Json, nm: &mut Names) -> (regs: Vec<Option<V>>)
    requires
        host_ok(*obj),
        old(nm).wf(),
        obj matches Json::Obj(kvs) ==> old(nm)@.len() + kvs@.len() < 0xffff_ffff,
    ensures
        final(nm).wf(),
        (final(nm)@, regs@) == spec_host_b(*obj, old(nm)@),
{
    let ghost names0 = nm@;
    if let Json::Obj(kvs) = obj {
        let mut i: usize = 0;
        assert(kvs@.take(0) =~= Seq::<(Vec<char>, Json)>::empty());
        while i < kvs.len()
            invariant
                i <= kvs@.len(),
                nm.wf(),
                nm@ == names_after(names0, kvs@.take(i as int)),
                names0.len() + kvs@.len() < 0xffff_ffff,
            decreases kvs@.len() - i,
        {
            proof {
                lemma_names_after(names0, kvs@.take(i as int));
                assert(kvs@.take(i + 1).drop_last() =~= kvs@.take(i as int));
            }
            nm.intern(kvs[i].0.as_slice());
            i += 1;
        }
        assert(kvs@.take(i as int) =~= kvs@);
    }
    let mut regs: Vec<Option<V>> = Vec::new();
    let n = nm.len();
    while regs.len() < n
        invariant
            regs@.len() <= n,
            n == nm@.len(),
            forall|s: int| 0 <= s < regs@.len() ==> regs@[s] is None,
        decreases n - regs@.len(),
    {
        regs.push(None);
    }
    let ghost nn = nm@;
    assert(host_slots(nn, Map::empty()) =~= regs@);
    if let Json::Obj(kvs) = obj {
        proof { lemma_names_after(names0, kvs@); }
        let mut i: usize = 0;
        assert(kvs@.take(0) =~= Seq::<(Vec<char>, Json)>::empty());
        while i < kvs.len()
            invariant
                i <= kvs@.len(),
                nm.wf(),
                nm@ == nn,
                nn == names_after(names0, kvs@),
                forall|k: int| 0 <= k < kvs@.len() ==> nn.contains(#[trigger] kvs@[k].0@),
                host_ok(*obj),
                *obj == Json::Obj(*kvs),
                names0.len() + kvs@.len() < 0xffff_ffff,
                regs@ == host_slots(nn, host_map(kvs@.take(i as int))),
            decreases kvs@.len() - i,
        {
            proof {
                lemma_names_after(names0, kvs@);
                assert(nn.contains(kvs@[i as int].0@));
            }
            let s = nm.intern(kvs[i].0.as_slice());
            let v = to_v(&kvs[i].1);
            regs.set(s as usize, Some(v));
            proof {
                let m0 = host_map(kvs@.take(i as int));
                assert(kvs@.take(i + 1).drop_last() =~= kvs@.take(i as int));
                assert(host_map(kvs@.take(i + 1)) == m0.insert(kvs@[i as int].0@, spec_to_v(kvs@[i as int].1)->0));
                assert forall|q: int| 0 <= q < nn.len() implies regs@[q] == host_slots(nn, host_map(kvs@.take(i + 1)))[q] by {
                    if q != s as int {
                        assert(nn[q] != nn[s as int]);
                    }
                }
                assert(regs@ =~= host_slots(nn, host_map(kvs@.take(i + 1))));
            }
            i += 1;
        }
        assert(kvs@.take(i as int) =~= kvs@);
    }
    regs
}

} // verus!
