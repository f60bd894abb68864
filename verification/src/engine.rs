use vstd::prelude::*;
use crate::chars::same_chars;
use crate::json::Json;
use crate::leb::spec_sleb;
use crate::stage_g::{GS, GenError, WComp, Where, emit_bytes, opu_s, put1, put3, put_s, put_u, sp_val_g, ub};

verus! {

/// The value of the first member named `k` among `kvs`.
pub open spec fn first_member(kvs: Seq<(Vec<char>, Json)>, k: Seq<char>) -> Option<Json>
    decreases kvs.len(),
{
    if kvs.len() == 0 {
        None
    } else if kvs[0].0@ == k {
        Some(kvs[0].1)
    } else {
        first_member(kvs.drop_first(), k)
    }
}

/// The member named `k` of object `j`, the first where there are several; `None` for a
/// missing member or a document that is no object.
pub open spec fn member(j: Json, k: Seq<char>) -> Option<Json> {
    match j {
        Json::Obj(kvs) => first_member(kvs@, k),
        _ => None,
    }
}

/// The id that `ids` gives name `k`, where it gives a number.
pub open spec fn id_of(ids: Json, k: Seq<char>) -> Option<i64> {
    match member(ids, k) {
        Some(Json::Num(n)) => Some(n),
        _ => None,
    }
}

/// The first member of object `j` named `k`.
pub fn get_member<'a>(j: &'a Json, k: &[char]) -> (r: Option<&'a Json>)
    ensures
        match r {
            Some(v) => member(*j, k@) == Some(*v),
            None => member(*j, k@) is None,
        },
{
    match j {
        Json::Obj(kvs) => {
            let mut i: usize = 0;
            assert(member(*j, k@) == first_member(kvs@, k@));
            assert(kvs@.subrange(0, kvs@.len() as int) =~= kvs@);
            while i < kvs.len()
                invariant
                    i <= kvs@.len(),
                    member(*j, k@) == first_member(kvs@, k@),
                    first_member(kvs@, k@) == first_member(kvs@.subrange(i as int, kvs@.len() as int), k@),
                decreases kvs@.len() - i,
            {
                let ghost rest = kvs@.subrange(i as int, kvs@.len() as int);
                assert(rest.drop_first() =~= kvs@.subrange(i + 1, kvs@.len() as int));
                assert(rest[0] == kvs@[i as int]);
                if same_chars(kvs[i].0.as_slice(), k) {
                    assert(rest[0].0@ == k@);
                    assert(first_member(rest, k@) == Some(rest[0].1));
                    let v = &kvs[i].1;
                    assert(*v == rest[0].1);
                    return Some(v);
                }
                i += 1;
            }
            assert(kvs@.subrange(i as int, kvs@.len() as int) =~= Seq::<(Vec<char>, Json)>::empty());
            None
        },
        _ => None,
    }
}

/// Whether every state name and the input have an id.
pub open spec fn ids_known(ids: Json, state: Seq<Vec<char>>, input: Seq<char>) -> bool {
    &&& forall|i: int| 0 <= i < state.len() ==> #[trigger] id_of(ids, state[i]@) is Some
    &&& id_of(ids, input) is Some
}

/// Where the engine's step finds the variables of its host: state variable `i` in linear
/// memory at slot `i`, the input in parameter 0.
pub open spec fn engine_outer_s(ids: Json, state: Seq<Vec<char>>, input: Seq<char>) -> Seq<(i64, Where)> {
    Seq::new(state.len(), |i: int| (id_of(ids, state[i]@)->0, Where::Mem(i as u32))).push(
        (id_of(ids, input)->0, Where::Param(0)),
    )
}

/// The host variables of the engine's step: each state name, looked up in `ids`, lives at its
/// index in linear memory, and the input name in parameter 0. `None` where a name has no
/// numeric id.
pub fn engine_outer(ids: &Json, state: &[Vec<char>], input: &[char]) -> (r: Option<Vec<(i64, Where)>>)
    requires
        state@.len() <= u32::MAX,
    ensures
        r is Some <==> ids_known(*ids, state@, input@),
        r matches Some(v) ==> v@ == engine_outer_s(*ids, state@, input@),
{
    let mut out: Vec<(i64, Where)> = Vec::new();
    let mut i: usize = 0;
    while i < state.len()
        invariant
            i <= state@.len() <= u32::MAX,
            out@.len() == i,
            forall|k: int| 0 <= k < i ==> #[trigger] id_of(*ids, state@[k]@) is Some,
            forall|k: int| 0 <= k < i ==> #[trigger] out@[k] == (id_of(*ids, state@[k]@)->0, Where::Mem(k as u32)),
        decreases state@.len() - i,
    {
        let id = match get_member(ids, state[i].as_slice()) {
            Some(Json::Num(n)) => *n,
            _ => {
                assert(id_of(*ids, state@[i as int]@) is None);
                return None;
            },
        };
        out.push((id, Where::Mem(i as u32)));
        i += 1;
    }
    let id = match get_member(ids, input) {
        Some(Json::Num(n)) => *n,
        _ => return None,
    };
    out.push((id, Where::Param(0)));
    assert(out@ =~= engine_outer_s(*ids, state@, input@));
    Some(out)
}

/// A fresh emitter's state with host variables `outer` and three slots taken.
pub open spec fn engine_gs(outer: Seq<(i64, Where)>) -> GS {
    GS {
        no_intern: false,
        b: Seq::empty(),
        env: Seq::empty(),
        nslots: 3,
        outer,
        fns: Seq::empty(),
        kinds: Seq::empty(),
        heap: None,
        own: 0,
        peak: true,
        regions: Seq::empty(),
        foreign_list_write: false,
        root: None,
        owned: Seq::empty(),
        pool: Seq::empty(),
        tstr: None,
        mem: false,
    }
}

/// The emitter set up for the engine's step: the host variables `outer`, and three slots taken
/// (0 the event parameter, 1 and 2 the new state, held until both values are laid out).
pub fn engine_comp<'a>(outer: Vec<(i64, Where)>) -> (r: WComp<'a>)
    ensures
        r@ == engine_gs(outer@),
        r.depth == 0,
{
    let mut r = WComp::new();
    r.outer = outer;
    r.nslots = 3;
    assert(r@ =~= engine_gs(outer@));
    r
}

/// The write-back of the step: the value in local 1 stored at address 0 and the one in local 2
/// at address 8 (as `i64.store`), then local 1, the new total, as the result.
pub open spec fn write_back() -> Seq<u8> {
    seq![0x41u8] + spec_sleb(0) + ub(0x20, 1) + seq![0x37u8, 0x03u8, 0x00u8] + seq![0x41u8] + spec_sleb(8) + ub(0x20, 2)
        + seq![0x37u8, 0x03u8, 0x00u8] + ub(0x20, 1)
}

/// The engine's step: the next total laid out and set to local 1, then the next wraps laid out
/// (still reading the old state) and set to local 2, then both written back; see `write_back`.
pub open spec fn step_s(s: GS, d: u32, next_total: Json, next_wraps: Json) -> Option<Result<GS, GenError>> {
    match sp_val_g(s, d, next_total) {
        None => None,
        Some(Err(e)) => Some(Err(e)),
        Some(Ok((s1, _))) => match sp_val_g(opu_s(s1, 0x21, 1), d, next_wraps) {
            None => None,
            Some(Err(e)) => Some(Err(e)),
            Some(Ok((s2, _))) => Some(Ok(emit_bytes(opu_s(s2, 0x21, 2), write_back()))),
        },
    }
}

/// Lays out the engine's step body; see `step_s`.
pub fn engine_step<'a>(wc: &mut WComp<'a>, next_total: &'a Json, next_wraps: &'a Json) -> (r: Result<(), GenError>)
    requires
        step_s(old(wc)@, old(wc).depth, *next_total, *next_wraps) is Some,
    ensures
        final(wc).depth == old(wc).depth,
        match r {
            Ok(()) => step_s(old(wc)@, old(wc).depth, *next_total, *next_wraps) == Some(Ok::<GS, GenError>(final(wc)@)),
            Err(e) => step_s(old(wc)@, old(wc).depth, *next_total, *next_wraps) == Some(Err::<GS, GenError>(e)),
        },
{
    match wc.emit_val(next_total) {
        Err(e) => return Err(e),
        Ok(_) => {},
    }
    wc.op_u(0x21, 1);
    match wc.emit_val(next_wraps) {
        Err(e) => return Err(e),
        Ok(_) => {},
    }
    wc.op_u(0x21, 2);
    let mut v: Vec<u8> = Vec::new();
    put1(&mut v, 0x41);
    put_s(&mut v, 0);
    put_u(&mut v, 0x20, 1);
    put3(&mut v, 0x37, 0x03, 0x00);
    put1(&mut v, 0x41);
    put_s(&mut v, 8);
    put_u(&mut v, 0x20, 2);
    put3(&mut v, 0x37, 0x03, 0x00);
    put_u(&mut v, 0x20, 1);
    assert(v@ =~= write_back());
    wc.take_bytes(&mut v);
    Ok(())
}

} // verus!
