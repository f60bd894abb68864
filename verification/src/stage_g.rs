use vstd::prelude::*;
use crate::json::{Json, is_p, pcar, pcdr, pnum, spec_is_p, spec_pcar, spec_pcdr};
use crate::leb::{sleb, spec_sleb, spec_uleb, uleb};
use crate::ntag::{ADD, CAR, CDR, CONS, EQ, GETBOX, IF, LET, LIT, NEWBOX, NIL, OAPP, OFN, PAIRP, SETBOX, SUB, VAR, WHILE};
use crate::stage_e::{Bind, arr_len, lemma_parts, look_s};

verus! {

/// Whether box `t` keeps sole ownership of its list in `n`, in context `ctx` (0: anywhere
/// else, 1: looked into by `car`/`cdr`/`pair?`, 2: the cdr of a `cons`, where the list moves).
/// A read of the box is allowed only in contexts 1 and 2; an unknown node claims nothing.
/// `None` where the walk would fail on a malformed node.
pub open spec fn scan_s(n: Json, t: i64, ctx: u8) -> Option<bool>
    decreases n,
{
    if !spec_is_p(n) {
        Some(true)
    } else if !(spec_pcar(n) is Num) {
        None
    } else {
        proof {
            lemma_parts(n);
        }
        let tag = spec_pcar(n)->Num_0;
        let a = spec_pcdr(n);
        if tag == GETBOX {
            if spec_is_p(a) && !(spec_pcar(a) is Num) {
                None
            } else if spec_is_p(a) && spec_pcar(a)->Num_0 == VAR && !(spec_pcdr(a) is Num) {
                None
            } else if spec_is_p(a) && spec_pcar(a)->Num_0 == VAR && spec_pcdr(a)->Num_0 == t {
                Some(ctx != 0)
            } else {
                scan_s(a, t, 0)
            }
        } else if tag == CAR || tag == CDR || tag == PAIRP {
            scan_s(a, t, 1)
        } else if tag == CONS || tag == ADD || tag == SUB || tag == EQ || tag == OAPP || tag == SETBOX || tag == WHILE {
            if arr_len(a) < 2 {
                None
            } else {
                proof {
                    lemma_parts(a);
                }
                match scan_s(spec_pcar(a), t, 0) {
                    None => None,
                    Some(false) => Some(false),
                    Some(true) => if arr_len(a) < 3 {
                        None
                    } else {
                        scan_s(spec_pcdr(a), t, if tag == CONS { 2 } else { 0 })
                    },
                }
            }
        } else if tag == LET {
            if arr_len(a) < 3 || arr_len(spec_pcdr(a)) < 2 {
                None
            } else {
                proof {
                    lemma_parts(a);
                    lemma_parts(spec_pcdr(a));
                }
                match scan_s(spec_pcar(spec_pcdr(a)), t, 0) {
                    None => None,
                    Some(false) => Some(false),
                    Some(true) => if arr_len(spec_pcdr(a)) < 3 {
                        None
                    } else {
                        scan_s(spec_pcdr(spec_pcdr(a)), t, 0)
                    },
                }
            }
        } else if tag == IF {
            if arr_len(a) < 2 {
                None
            } else {
                proof {
                    lemma_parts(a);
                }
                match scan_s(spec_pcar(a), t, 0) {
                    None => None,
                    Some(false) => Some(false),
                    Some(true) => if arr_len(a) < 3 || arr_len(spec_pcdr(a)) < 2 {
                        None
                    } else {
                        proof {
                            lemma_parts(spec_pcdr(a));
                        }
                        match scan_s(spec_pcar(spec_pcdr(a)), t, 0) {
                            None => None,
                            Some(false) => Some(false),
                            Some(true) => if arr_len(spec_pcdr(a)) < 3 {
                                None
                            } else {
                                scan_s(spec_pcdr(spec_pcdr(a)), t, 0)
                            },
                        }
                    },
                }
            }
        } else if tag == OFN {
            if arr_len(a) < 3 {
                None
            } else {
                proof {
                    lemma_parts(a);
                }
                scan_s(spec_pcdr(a), t, 0)
            }
        } else if tag == NEWBOX {
            scan_s(a, t, 0)
        } else if tag == LIT || tag == VAR || tag == NIL {
            Some(true)
        } else {
            Some(false)
        }
    }
}

/// Whether box `t` keeps sole ownership of its list in `n`; see `scan_s`.
pub fn scan_owned(n: &Json, t: i64, ctx: u8) -> (r: bool)
    requires
        scan_s(*n, t, ctx) is Some,
    ensures
        scan_s(*n, t, ctx) == Some(r),
    decreases n,
{
    if !is_p(n) {
        return true;
    }
    proof {
        lemma_parts(*n);
    }
    let tag = pnum(pcar(n));
    let a = pcdr(n);
    if tag == GETBOX {
        if is_p(a) && pnum(pcar(a)) == VAR && pnum(pcdr(a)) == t {
            return ctx != 0;
        }
        scan_owned(a, t, 0)
    } else if tag == CAR || tag == CDR || tag == PAIRP {
        scan_owned(a, t, 1)
    } else if tag == CONS {
        proof {
            lemma_parts(*a);
        }
        scan_owned(pcar(a), t, 0) && scan_owned(pcdr(a), t, 2)
    } else if tag == ADD || tag == SUB || tag == EQ || tag == OAPP || tag == SETBOX || tag == WHILE {
        proof {
            lemma_parts(*a);
        }
        scan_owned(pcar(a), t, 0) && scan_owned(pcdr(a), t, 0)
    } else if tag == LET {
        proof {
            lemma_parts(*a);
            lemma_parts(spec_pcdr(*a));
        }
        scan_owned(pcar(pcdr(a)), t, 0) && scan_owned(pcdr(pcdr(a)), t, 0)
    } else if tag == IF {
        proof {
            lemma_parts(*a);
        }
        if !scan_owned(pcar(a), t, 0) {
            return false;
        }
        proof {
            lemma_parts(spec_pcdr(*a));
        }
        scan_owned(pcar(pcdr(a)), t, 0) && scan_owned(pcdr(pcdr(a)), t, 0)
    } else if tag == OFN {
        proof {
            lemma_parts(*a);
        }
        scan_owned(pcdr(a), t, 0)
    } else if tag == NEWBOX {
        scan_owned(a, t, 0)
    } else if tag == LIT || tag == VAR || tag == NIL {
        true
    } else {
        false
    }
}

/// The statically known shape of a value: an integer, a list of cells, or a packed string
/// (address in the high half, length in the low half).
#[derive(Clone, Copy, Debug, PartialEq, Eq, Structural)]
pub enum Kind {
    Int,
    List,
    Str,
}

/// The name of a shape.
pub open spec fn kname_s(k: Kind) -> &'static str {
    match k {
        Kind::Int => "int",
        Kind::List => "list",
        Kind::Str => "str",
    }
}

/// The name of a shape.
pub fn kname(k: Kind) -> (r: &'static str)
    ensures
        r == kname_s(k),
{
    match k {
        Kind::Int => "int",
        Kind::List => "list",
        Kind::Str => "str",
    }
}

/// Where a variable of an enclosing host lives: at a slot of linear memory, or in a parameter.
#[derive(Clone, Copy, Debug, PartialEq, Eq, Structural)]
pub enum Where {
    Mem(u32),
    Param(u32),
}

/// The state of the wasm emitter, with closure bodies and the root by value.
#[verifier::ext_equal]
pub struct GS {
    pub no_intern: bool,
    pub b: Seq<u8>,
    pub env: Seq<(i64, Bind)>,
    pub nslots: u32,
    pub outer: Seq<(i64, Where)>,
    pub fns: Seq<(i64, Json, usize)>,
    pub kinds: Seq<Option<Kind>>,
    pub heap: Option<(u32, u32, u32)>,
    pub own: u8,
    pub peak: bool,
    pub regions: Seq<(u32, u32)>,
    pub foreign_list_write: bool,
    pub root: Option<Json>,
    pub owned: Seq<Option<i64>>,
    pub pool: Seq<u8>,
    pub tstr: Option<u32>,
    pub mem: bool,
}

/// The state with `bs` added to the code.
pub open spec fn emit_bytes(s: GS, bs: Seq<u8>) -> GS {
    GS { b: s.b + bs, ..s }
}

/// Where a shape check sits, for the message of a refusal.
#[derive(Clone, Copy, Debug, PartialEq, Eq, Structural)]
pub enum Site {
    AddSub,
    Eq,
    ConsCar,
    ConsCdr,
    CarCdrPairp,
    IfCond,
    Setbox,
    WhileCond,
}

/// Why an object program could not be laid out as wasm.
#[derive(Clone, Copy, Debug, PartialEq, Eq, Structural)]
pub enum GenError {
    /// A node that is not an encoded pair.
    NotNode,
    /// A variable bound nowhere, here or in the host.
    Unbound(i64),
    /// A box handle used as a value.
    BoxAsValue,
    /// A closure used as a value.
    FnAsValue,
    /// A closure outside a binding.
    FnOutsideLet,
    /// A new box outside a binding.
    NewboxOutsideLet,
    /// A tag the emitter does not know.
    NoTag(i64),
    /// A callee that is not a variable.
    CalleeNotVar,
    /// A callee not statically bound to a closure.
    CalleeNotStatic,
    /// Inlining nested too deep.
    TooDeep,
    /// A box handle that is not a variable.
    HandleNotVar,
    /// A box handle not statically bound to a box.
    HandleNotStatic,
    /// A shape other than the one needed: needed, got, where.
    Shape(Kind, Kind, Site),
    /// Prepending to a packed string a head that is not a byte literal.
    PrependNotByte,
    /// The two arms of a branch give different shapes.
    BranchShapes,
}

/// The result of an emitting step: `None` where it would fail on a malformed node or run out
/// of slots, else the new state with a shape, or the reason it refuses.
pub type GR = Option<Result<(GS, Kind), GenError>>;

/// A shape check: `need` must be `got`.
pub open spec fn want_s(need: Kind, got: Kind, site: Site) -> Result<(), GenError> {
    if need == got {
        Ok(())
    } else {
        Err(GenError::Shape(need, got, site))
    }
}

/// The state with an instruction `o` and its unsigned immediate `x`.
pub open spec fn opu_s(s: GS, o: u8, x: u32) -> GS {
    emit_bytes(s, seq![o] + spec_uleb(x as nat))
}

/// The state with a memory instruction: opcode, alignment, offset; linear memory is then in
/// use.
pub open spec fn memop_s(s: GS, o: u8, align: u8, off: u32) -> GS {
    GS { mem: true, b: s.b + seq![o, align] + spec_uleb(off as nat), ..s }
}

/// A fresh slot; `None` where the slots are used up.
pub open spec fn gslot(s: GS) -> Option<(GS, u32)> {
    if s.nslots < u32::MAX {
        Some((GS { nslots: (s.nslots + 1) as u32, ..s }, s.nslots))
    } else {
        None
    }
}

/// Two fresh slots.
pub open spec fn gslot2(s: GS) -> Option<(GS, u32, u32)> {
    match gslot(s) {
        None => None,
        Some((s1, a)) => match gslot(s1) {
            None => None,
            Some((s2, b)) => Some((s2, a, b)),
        },
    }
}

/// The shapes by slot with slot `x` set to `k`.
pub open spec fn kset(ks: Seq<Option<Kind>>, x: u32, k: Kind) -> Seq<Option<Kind>> {
    (if x < ks.len() {
        ks
    } else {
        ks + Seq::new((x + 1 - ks.len()) as nat, |i: int| None::<Kind>)
    }).update(x as int, Some(k))
}

/// The shape of slot `x`: an integer unless recorded otherwise.
pub open spec fn kget(ks: Seq<Option<Kind>>, x: u32) -> Kind {
    if x < ks.len() && ks[x as int] is Some {
        ks[x as int].unwrap()
    } else {
        Kind::Int
    }
}

/// The owners by slot with slot `x` owned by variable `id`.
pub open spec fn oset(os: Seq<Option<i64>>, x: u32, id: i64) -> Seq<Option<i64>> {
    (if x < os.len() {
        os
    } else {
        os + Seq::new((x + 1 - os.len()) as nat, |i: int| None::<i64>)
    }).update(x as int, Some(id))
}

/// Whether slot `x` is recorded as owned.
pub open spec fn ohas(os: Seq<Option<i64>>, x: u32) -> bool {
    x < os.len() && os[x as int] is Some
}

/// The state with slot `x` recorded as having shape `k`.
pub open spec fn with_kind(s: GS, x: u32, k: Kind) -> GS {
    GS { kinds: kset(s.kinds, x, k), ..s }
}

/// The heap locals (bump pointer and two spares), taken from three fresh slots the first time.
pub open spec fn heap_g(s: GS) -> Option<(GS, (u32, u32, u32))> {
    match s.heap {
        Some(h) => Some((s, h)),
        None => if s.nslots < u32::MAX - 2 {
            let h = (s.nslots, (s.nslots + 1) as u32, (s.nslots + 2) as u32);
            Some((GS { nslots: (s.nslots + 3) as u32, heap: Some(h), ..s }, h))
        } else {
            None
        },
    }
}

/// The local for a packed string read twice, taken from a fresh slot the first time.
pub open spec fn tmp_g(s: GS) -> Option<(GS, u32)> {
    match s.tstr {
        Some(t) => Some((s, t)),
        None => match gslot(s) {
            None => None,
            Some((s1, t)) => Some((GS { tstr: Some(t), ..s1 }, t)),
        },
    }
}

/// The peak gauge: where enabled, store the bump pointer at address 0 when it passes what is
/// stored there.
pub open spec fn peak_s(s: GS, hp: u32) -> GS {
    if !s.peak {
        s
    } else {
        let s1 = opu_s(emit_bytes(s, seq![0x02u8, 0x40u8]), 0x20, hp);
        let s2 = memop_s(emit_bytes(s1, seq![0x41u8, 0x00u8]), 0x29, 0x03, 0);
        let s3 = opu_s(emit_bytes(s2, seq![0x55u8, 0x45u8]), 0x0D, 0);
        let s4 = opu_s(emit_bytes(s3, seq![0x41u8, 0x00u8]), 0x20, hp);
        emit_bytes(memop_s(s4, 0x37, 0x03, 0), seq![0x0Bu8])
    }
}

/// An instruction with an unsigned immediate, as bytes.
pub open spec fn ub(o: u8, x: u32) -> Seq<u8> {
    seq![o] + spec_uleb(x as nat)
}

/// A memory instruction (opcode, alignment, offset), as bytes.
pub open spec fn mb(o: u8, align: u8, off: u32) -> Seq<u8> {
    seq![o, align] + spec_uleb(off as nat)
}

/// The copy loop of a prepend, up to the bump of the heap pointer: `sv` takes the packed
/// string, `dst` the heap pointer, `len` and `src` its halves; the new head byte from `ta` goes
/// to `dst` and the `len` old bytes follow it.
pub open spec fn prepend_copy(hp: u32, ta: u32, sv: u32, len: u32, src: u32, dst: u32, i: u32) -> Seq<u8> {
    ub(0x21, sv) + ub(0x20, hp) + ub(0x21, dst) + ub(0x20, sv) + seq![0x42u8] + spec_sleb(0xFFFF_FFFF) + seq![0x83u8] + ub(0x21, len)
        + ub(0x20, sv) + seq![0x42u8, 32u8, 0x88u8] + ub(0x21, src) + ub(0x20, dst) + seq![0xA7u8] + ub(0x20, ta) + mb(0x3C, 0x00, 0)
        + seq![0x42u8, 0x00u8] + ub(0x21, i) + seq![0x02u8, 0x40u8, 0x03u8, 0x40u8] + ub(0x20, i) + ub(0x20, len) + seq![0x51u8]
        + ub(0x0D, 1) + ub(0x20, dst) + ub(0x20, i) + seq![0x7Cu8, 0x42u8, 0x01u8, 0x7Cu8, 0xA7u8] + ub(0x20, src) + ub(0x20, i)
        + seq![0x7Cu8, 0xA7u8] + mb(0x31, 0x00, 0) + mb(0x3C, 0x00, 0) + ub(0x20, i) + seq![0x42u8, 0x01u8, 0x7Cu8] + ub(0x21, i)
        + ub(0x0C, 0) + seq![0x0Bu8, 0x0Bu8] + ub(0x20, hp) + ub(0x20, len) + seq![0x42u8, 0x10u8, 0x7Cu8, 0x42u8] + spec_sleb(-16)
        + seq![0x83u8, 0x7Cu8] + ub(0x21, hp)
}

/// The value of a prepend: `(dst << 32) | (len + 1)`.
pub open spec fn prepend_value(len: u32, dst: u32) -> Seq<u8> {
    ub(0x20, dst) + seq![0x42u8, 32u8, 0x86u8] + ub(0x20, len) + seq![0x42u8, 0x01u8, 0x7Cu8, 0x84u8]
}

/// Prepending the byte in `ta` to the packed string on the stack: copy to the heap, bump the
/// heap pointer by the length plus one rounded up to 16, gauge the peak, and leave the new
/// packed string. Five fresh slots hold the parts.
pub open spec fn prepend_s(s: GS, hp: u32, ta: u32) -> Option<GS> {
    if s.nslots >= u32::MAX - 4 {
        None
    } else {
        let sv = s.nslots;
        let len = (s.nslots + 1) as u32;
        let src = (s.nslots + 2) as u32;
        let dst = (s.nslots + 3) as u32;
        let i = (s.nslots + 4) as u32;
        let s1 = GS { nslots: (s.nslots + 5) as u32, mem: true, b: s.b + prepend_copy(hp, ta, sv, len, src, dst, i), ..s };
        Some(emit_bytes(peak_s(s1, hp), prepend_value(len, dst)))
    }
}

/// The first position from `i` at which `bytes` occurs in `pool`.
pub open spec fn first_at(pool: Seq<u8>, bytes: Seq<u8>, i: int) -> Option<int>
    decreases pool.len() + 1 - i,
{
    if i < 0 || i + bytes.len() > pool.len() {
        None
    } else if pool.subrange(i, i + bytes.len()) == bytes {
        Some(i)
    } else {
        first_at(pool, bytes, i + 1)
    }
}

/// Placing a string in the pool, once: where it already occurs, there; else at the end. Gives
/// the packed value `((16 + position) << 32) | length`.
pub open spec fn intern_g(s: GS, bytes: Seq<u8>) -> (GS, i64) {
    let (s1, at) = match first_at(s.pool, bytes, 0) {
        Some(i) => (s, i),
        None => (GS { pool: s.pool + bytes, ..s }, s.pool.len() as int),
    };
    (s1, (((16 + at) as i64) << 32u64) | (bytes.len() as i64))
}

/// The byte a node denotes where it is a literal in 0..=255; `None` outside where it fails on
/// a malformed node.
pub open spec fn static_byte_s(n: Json) -> Option<Option<i64>> {
    if !spec_is_p(n) {
        Some(None)
    } else if !(spec_pcar(n) is Num) {
        None
    } else if spec_pcar(n)->Num_0 != LIT {
        Some(None)
    } else if !(spec_pcdr(n) is Num) {
        None
    } else {
        let v = spec_pcdr(n)->Num_0;
        Some(if 0 <= v <= 255 { Some(v) } else { None })
    }
}

/// The bytes of a static chain of `cons` nodes from `cur`, after `out`: each car a literal in
/// 0..=255, ended by `nil`, at least two and at most 65535 bytes.
pub open spec fn static_str_s(cur: Json, out: Seq<u8>) -> Option<Option<Seq<u8>>>
    decreases cur,
{
    if !spec_is_p(cur) {
        Some(None)
    } else if !(spec_pcar(cur) is Num) {
        None
    } else if spec_pcar(cur)->Num_0 == NIL {
        Some(if out.len() >= 2 { Some(out) } else { None })
    } else if spec_pcar(cur)->Num_0 == CONS {
        proof {
            lemma_parts(cur);
        }
        let p = spec_pcdr(cur);
        if arr_len(p) < 2 {
            None
        } else {
            let a = spec_pcar(p);
            if !spec_is_p(a) {
                Some(None)
            } else if !(spec_pcar(a) is Num) {
                None
            } else if spec_pcar(a)->Num_0 != LIT {
                Some(None)
            } else if !(spec_pcdr(a) is Num) {
                None
            } else if !(0 <= spec_pcdr(a)->Num_0 <= 255) {
                Some(None)
            } else if arr_len(p) < 3 {
                None
            } else {
                let out2 = out.push(spec_pcdr(a)->Num_0 as u8);
                if out2.len() > 65535 {
                    Some(None)
                } else {
                    proof {
                        lemma_parts(p);
                    }
                    static_str_s(spec_pcdr(p), out2)
                }
            }
        }
    } else {
        Some(None)
    }
}

/// The slot of the box that handle `h` names.
pub open spec fn box_g(s: GS, h: Json) -> Option<Result<u32, GenError>> {
    if !spec_is_p(h) {
        Some(Err(GenError::HandleNotVar))
    } else if !(spec_pcar(h) is Num) {
        None
    } else if spec_pcar(h)->Num_0 != VAR {
        Some(Err(GenError::HandleNotVar))
    } else if !(spec_pcdr(h) is Num) {
        None
    } else {
        match look_s(s.env, spec_pcdr(h)->Num_0) {
            Some(Bind::Boxed(x)) => Some(Ok(x)),
            _ => Some(Err(GenError::HandleNotStatic)),
        }
    }
}

/// Leaving a binding's scope: where the binding is the box whose region is innermost, the
/// region closes, and unless a list left it or was written from inside, the heap pointer goes
/// back to where it was. The binding is dropped.
pub open spec fn close_s(s: GS, carries: bool) -> Option<GS> {
    let mine = s.regions.len() > 0 && s.env.len() > 0 && s.env.last().1 == Bind::Boxed(s.regions.last().1);
    if mine {
        let mark = s.regions.last().0;
        let s1 = GS { regions: s.regions.drop_last(), ..s };
        if !s.foreign_list_write && !carries {
            match heap_g(s1) {
                None => None,
                Some((s2, (hp, _, _))) => {
                    let s3 = opu_s(opu_s(s2, 0x20, mark), 0x21, hp);
                    Some(GS { env: s3.env.drop_last(), ..s3 })
                },
            }
        } else {
            Some(GS { env: s1.env.drop_last(), ..s1 })
        }
    } else {
        Some(GS { env: crate::stage_e::pop_env(s.env), ..s })
    }
}

/// Where the host keeps variable `id`: its first entry.
pub open spec fn outer_find(outer: Seq<(i64, Where)>, id: i64) -> Option<Where>
    decreases outer.len(),
{
    if outer.len() == 0 {
        None
    } else if outer[0].0 == id {
        Some(outer[0].1)
    } else {
        outer_find(outer.drop_first(), id)
    }
}

/// Binding `arg` = `(id, (val, body))` without the body. A closure is recorded with the length
/// of the bindings it closes over. Otherwise the value (the content, for a new box) is laid out
/// into a fresh slot whose shape is recorded; a box of a list is owned where the ownership walk
/// of the root allows, and with regions an owned box also opens a region marking the heap
/// pointer.
#[verifier::opaque]
pub open spec fn sp_let_g(s: GS, d: u32, arg: Json) -> Option<Result<GS, GenError>>
    decreases 8 - d, arg, 2int,
{
    if arr_len(arg) < 3 || !(spec_pcar(arg) is Num) || arr_len(spec_pcdr(arg)) < 2 {
        None
    } else {
        proof {
            lemma_parts(arg);
            lemma_parts(spec_pcdr(arg));
        }
        let id = spec_pcar(arg)->Num_0;
        let val = spec_pcar(spec_pcdr(arg));
        if spec_is_p(val) && !(spec_pcar(val) is Num) {
            None
        } else if spec_is_p(val) && spec_pcar(val)->Num_0 == OFN {
            let pv = spec_pcdr(val);
            if arr_len(pv) < 3 || !(spec_pcar(pv) is Num) {
                None
            } else {
                let fns2 = s.fns.push((spec_pcar(pv)->Num_0, spec_pcdr(pv), s.env.len() as usize));
                Some(Ok(GS { fns: fns2, env: s.env.push((id, Bind::Fn((fns2.len() - 1) as u32))), ..s }))
            }
        } else {
            let boxed = spec_is_p(val) && spec_pcar(val)->Num_0 == NEWBOX;
            proof {
                if spec_is_p(val) {
                    lemma_parts(val);
                }
            }
            match sp_val_g(s, d, if boxed { spec_pcdr(val) } else { val }) {
                None => None,
                Some(Err(e)) => Some(Err(e)),
                Some(Ok((s1, k))) => match gslot(s1) {
                    None => None,
                    Some((s2, sl)) => {
                        let s3 = with_kind(opu_s(s2, 0x21, sl), sl, k);
                        let tries = s3.own > 0 && boxed && k == Kind::List && s3.root is Some;
                        let scan = if tries { scan_s(s3.root.unwrap(), id, 0) } else { Some(false) };
                        match scan {
                            None => None,
                            Some(owns) => {
                                let s4 = if owns { GS { owned: oset(s3.owned, sl, id), ..s3 } } else { s3 };
                                let s5 = GS { env: s4.env.push((id, if boxed { Bind::Boxed(sl) } else { Bind::Slot(sl) })), ..s4 };
                                if s5.own == 2 && boxed && k == Kind::List && ohas(s5.owned, sl) {
                                    match heap_g(s5) {
                                        None => None,
                                        Some((s6, (hp, _, _))) => match gslot(s6) {
                                            None => None,
                                            Some((s7, mark)) => {
                                                let s8 = opu_s(opu_s(s7, 0x20, hp), 0x21, mark);
                                                Some(Ok(GS { regions: s8.regions.push((mark, sl)), ..s8 }))
                                            },
                                        },
                                    }
                                } else {
                                    Some(Ok(s5))
                                }
                            },
                        }
                    },
                },
            }
        }
    }
}

/// Both arms of a value branch `arg` = `(c, (t, f))`, each leaving its value in slot `sv`:
/// the then arm, a jump out, the end of the inner block, the else arm, the end of the outer.
/// Gives the two shapes.
#[verifier::opaque]
pub open spec fn sp_both_g(s: GS, d: u32, arg: Json, sv: u32) -> Option<Result<(GS, Kind, Kind), GenError>>
    decreases 8 - d, arg, 2int,
{
    if arr_len(arg) < 3 || arr_len(spec_pcdr(arg)) < 2 {
        None
    } else {
        proof {
            lemma_parts(arg);
            lemma_parts(spec_pcdr(arg));
        }
        match sp_val_g(s, d, spec_pcar(spec_pcdr(arg))) {
            None => None,
            Some(Err(e)) => Some(Err(e)),
            Some(Ok((s1, t))) => if arr_len(spec_pcdr(arg)) < 3 {
                None
            } else {
                let s2 = emit_bytes(s1, ub(0x21, sv) + ub(0x0C, 1) + seq![0x0Bu8]);
                match sp_val_g(s2, d, spec_pcdr(spec_pcdr(arg))) {
                    None => None,
                    Some(Err(e)) => Some(Err(e)),
                    Some(Ok((s3, f))) => Some(Ok((emit_bytes(s3, ub(0x21, sv) + seq![0x0Bu8]), t, f))),
                }
            },
        }
    }
}

/// Inlining the application `arg` = `(callee, argument)`, as in stage E, recording the
/// argument's shape on its slot.
#[verifier::opaque]
pub open spec fn sp_app_g(s: GS, d: u32, arg: Json) -> GR
    decreases 8 - d, arg, 2int,
{
    if arr_len(arg) < 2 {
        None
    } else {
        proof {
            lemma_parts(arg);
        }
        let f = spec_pcar(arg);
        if !spec_is_p(f) {
            Some(Err(GenError::CalleeNotVar))
        } else if !(spec_pcar(f) is Num) {
            None
        } else if spec_pcar(f)->Num_0 != VAR {
            Some(Err(GenError::CalleeNotVar))
        } else if !(spec_pcdr(f) is Num) {
            None
        } else {
            match look_s(s.env, spec_pcdr(f)->Num_0) {
                Some(Bind::Fn(idx)) => if d >= 8 {
                    Some(Err(GenError::TooDeep))
                } else if idx >= s.fns.len() || arr_len(arg) < 3 {
                    None
                } else {
                    let (param, body, elen) = s.fns[idx as int];
                    match sp_val_g(s, d, spec_pcdr(arg)) {
                        None => None,
                        Some(Err(e)) => Some(Err(e)),
                        Some(Ok((s1, ka))) => match gslot(s1) {
                            None => None,
                            Some((s2, sl)) => {
                                let s3 = with_kind(opu_s(s2, 0x21, sl), sl, ka);
                                if elen > s3.env.len() {
                                    None
                                } else {
                                    let caller = s3.env.subrange(elen as int, s3.env.len() as int);
                                    let s4 = GS { env: s3.env.take(elen as int).push((param, Bind::Slot(sl))), ..s3 };
                                    match sp_val_g(s4, (d + 1) as u32, body) {
                                        None => None,
                                        Some(Err(e)) => Some(Err(e)),
                                        Some(Ok((s5, k))) => Some(Ok((GS { env: crate::stage_e::trunc_env(s5.env, elen as int) + caller, ..s5 }, k))),
                                    }
                                }
                            },
                        },
                    }
                },
                _ => Some(Err(GenError::CalleeNotStatic)),
            }
        }
    }
}

/// The end of a pair laid out in cells, once the cdr has shape `dk`: a packed string gets the
/// car (which must be a byte literal) prepended; a list gets a new 16-byte cell holding the car
/// (in `ta`) and the cdr (stored to `td`), the heap pointer bumped by 16 and the peak gauged.
#[verifier::opaque]
pub open spec fn cell_tail_s(s4: GS, dk: Kind, arg: Json, hp: u32, ta: u32, td: u32) -> GR {
    if dk == Kind::Str {
        match static_byte_s(spec_pcar(arg)) {
            None => None,
            Some(Some(_)) => match prepend_s(s4, hp, ta) {
                None => None,
                Some(s5) => Some(Ok((s5, Kind::Str))),
            },
            Some(None) => Some(Err(GenError::PrependNotByte)),
        }
    } else {
        match want_s(Kind::List, dk, Site::ConsCdr) {
            Err(e) => Some(Err(e)),
            Ok(_) => {
                let s5 = opu_s(s4, 0x21, td);
                let s6 = memop_s(emit_bytes(s5, ub(0x20, hp) + seq![0xA7u8] + ub(0x20, ta)), 0x37, 0x03, 0);
                let s7 = memop_s(emit_bytes(s6, ub(0x20, hp) + seq![0xA7u8] + ub(0x20, td)), 0x37, 0x03, 8);
                let s8 = emit_bytes(s7, ub(0x20, hp) + ub(0x20, hp) + seq![0x42u8, 0x10u8, 0x7Cu8] + ub(0x21, hp));
                Some(Ok((peak_s(s8, hp), Kind::List)))
            },
        }
    }
}

/// A pair `n` = `(cons, (a, rest))` laid out in cells: the car must be an integer and goes to a
/// fresh slot, the heap locals are taken, then the cdr is laid out; see `cell_tail_s`.
#[verifier::opaque]
pub open spec fn sp_cells_g(s: GS, d: u32, n: Json) -> GR
    decreases 8 - d, n, 1int,
{
    let arg = spec_pcdr(n);
    if !spec_is_p(n) || arr_len(arg) < 2 {
        None
    } else {
        proof {
            lemma_parts(n);
            lemma_parts(arg);
        }
        match sp_val_g(s, d, spec_pcar(arg)) {
            None => None,
            Some(Err(e)) => Some(Err(e)),
            Some(Ok((s1, a))) => match want_s(Kind::Int, a, Site::ConsCar) {
                Err(e) => Some(Err(e)),
                Ok(_) => match heap_g(s1) {
                    None => None,
                    Some((s2, (hp, _, _))) => match gslot2(s2) {
                        None => None,
                        Some((s3, ta, td)) => if arr_len(arg) < 3 {
                            None
                        } else {
                            match sp_val_g(opu_s(s3, 0x21, ta), d, spec_pcdr(arg)) {
                                None => None,
                                Some(Err(e)) => Some(Err(e)),
                                Some(Ok((s4, dk))) => cell_tail_s(s4, dk, arg, hp, ta, td),
                            }
                        },
                    },
                },
            },
        }
    }
}

/// A pair `n` laid out as a value: a static string (where packing is on) goes to the pool as a
/// packed string; otherwise it is laid out in cells.
#[verifier::opaque]
pub open spec fn sp_cons_g(s: GS, d: u32, n: Json) -> GR
    decreases 8 - d, n, 2int,
{
    let st = if s.no_intern { Some(None) } else { static_str_s(n, Seq::empty()) };
    match st {
        None => None,
        Some(Some(bytes)) => if s.pool.len() + bytes.len() >= 0x7000_0000 {
            None
        } else {
            let (s1, v) = intern_g(s, bytes);
            Some(Ok((emit_bytes(s1, seq![0x42u8] + spec_sleb(v as int)), Kind::Str)))
        },
        Some(None) => sp_cells_g(s, d, n),
    }
}

/// A static string has at least two bytes.
pub proof fn lemma_static_str_len(cur: Json, out: Seq<u8>)
    ensures
        static_str_s(cur, out) matches Some(Some(r)) ==> r.len() >= 2,
    decreases cur,
{
    if spec_is_p(cur) && spec_pcar(cur) is Num && spec_pcar(cur)->Num_0 == CONS {
        lemma_parts(cur);
        let p = spec_pcdr(cur);
        if arr_len(p) >= 3 {
            lemma_parts(p);
            let a = spec_pcar(p);
            if spec_is_p(a) && spec_pcdr(a) is Num {
                lemma_static_str_len(spec_pcdr(p), out.push(spec_pcdr(a)->Num_0 as u8));
            }
        }
    }
}

/// `car`, `cdr` or `pair?` (tag `tag`) of `arg`: on a list, a load from the cell or a test for
/// a non-zero address; on a packed string, its first byte, the rest (or nil where it is
/// empty), or a test for a non-zero length.
#[verifier::opaque]
pub open spec fn sp_cxr_g(s: GS, d: u32, tag: i64, arg: Json, n: Json) -> GR
    decreases 8 - d, n, 2int,
{
    if !spec_is_p(n) || arg != spec_pcdr(n) {
        None
    } else {
        proof {
            lemma_parts(n);
        }
        match sp_val_g(s, d, arg) {
            None => None,
            Some(Err(e)) => Some(Err(e)),
            Some(Ok((s1, x))) => if x != Kind::Str {
                match want_s(Kind::List, x, Site::CarCdrPairp) {
                    Err(e) => Some(Err(e)),
                    Ok(_) => if tag == CAR || tag == CDR {
                        Some(Ok((
                            memop_s(emit_bytes(s1, seq![0xA7u8]), 0x29, 0x03, if tag == CAR { 0 } else { 8 }),
                            if tag == CAR { Kind::Int } else { Kind::List },
                        )))
                    } else {
                        Some(Ok((emit_bytes(s1, seq![0x42u8, 0x00u8, 0x52u8, 0xADu8]), Kind::Int)))
                    },
                }
            } else if tag == CAR {
                Some(Ok((emit_bytes(memop_s(emit_bytes(s1, seq![0x42u8, 32u8, 0x88u8, 0xA7u8]), 0x2D, 0x00, 0), seq![0xADu8]), Kind::Int)))
            } else if tag == CDR {
                match tmp_g(s1) {
                    None => None,
                    Some((s2, t)) => Some(Ok((
                        emit_bytes(
                            s2,
                            ub(0x22, t) + seq![0x42u8] + spec_sleb(0xFFFF_FFFF) + seq![0x7Cu8, 0x42u8, 0x00u8] + ub(0x20, t) + seq![0x42u8]
                                + spec_sleb(0xFFFF_FFFF) + seq![0x83u8, 0x42u8, 0x00u8, 0x52u8, 0x1Bu8],
                        ),
                        Kind::Str,
                    ))),
                }
            } else {
                Some(Ok((emit_bytes(s1, seq![0x42u8] + spec_sleb(0xFFFF_FFFF) + seq![0x83u8, 0x42u8, 0x00u8, 0x52u8, 0xADu8]), Kind::Int)))
            },
        }
    }
}

/// A variable `id`: a slot of this program (with its recorded shape), or a parameter or memory
/// slot of the host; closures and box handles are refused as values.
pub open spec fn var_g(s: GS, id: i64) -> GR {
    match look_s(s.env, id) {
        Some(Bind::Slot(x)) => Some(Ok((opu_s(s, 0x20, x), kget(s.kinds, x)))),
        Some(Bind::Fn(_)) => Some(Err(GenError::FnAsValue)),
        Some(Bind::Boxed(_)) => Some(Err(GenError::BoxAsValue)),
        None => match outer_find(s.outer, id) {
            Some(Where::Param(p)) => Some(Ok((opu_s(s, 0x20, p), Kind::Int))),
            Some(Where::Mem(x)) => Some(Ok((
                memop_s(emit_bytes(s, seq![0x41u8] + spec_sleb((x as i64) as int * 8)), 0x29, 0x03, 0),
                Kind::Int,
            ))),
            None => Some(Err(GenError::Unbound(id))),
        },
    }
}

/// A value branch `arg` = `(c, (t, f))` with two blocks and the arms' values in a fresh slot.
/// Where the arms differ only as list against packed string, both are laid out again with
/// string packing off, from the same place in the code.
#[verifier::opaque]
pub open spec fn sp_if_g(s: GS, d: u32, arg: Json, n: Json) -> GR
    decreases 8 - d, n, 2int,
{
    if !spec_is_p(n) || arg != spec_pcdr(n) || arr_len(arg) < 2 {
        None
    } else {
        proof {
            lemma_parts(n);
            lemma_parts(arg);
        }
        match gslot(s) {
            None => None,
            Some((s1, sv)) => match sp_val_g(emit_bytes(s1, seq![0x02u8, 0x40u8, 0x02u8, 0x40u8]), d, spec_pcar(arg)) {
                None => None,
                Some(Err(e)) => Some(Err(e)),
                Some(Ok((s2, c))) => match want_s(Kind::Int, c, Site::IfCond) {
                    Err(e) => Some(Err(e)),
                    Ok(_) => {
                        let s3 = emit_bytes(s2, seq![0x42u8, 0x00u8, 0x52u8, 0x45u8] + ub(0x0D, 0));
                        let mark = s3.b.len();
                        match sp_both_g(s3, d, arg, sv) {
                            None => None,
                            Some(Err(e)) => Some(Err(e)),
                            Some(Ok((s4, t, f))) => {
                                let again = if t == f {
                                    Some(Ok((s4, t)))
                                } else if !((t == Kind::Str && f == Kind::List) || (t == Kind::List && f == Kind::Str)) {
                                    Some(Err(GenError::BranchShapes))
                                } else {
                                    let s5 = GS { b: s4.b.take(mark as int), no_intern: true, ..s4 };
                                    match sp_both_g(s5, d, arg, sv) {
                                        None => None,
                                        Some(Err(e)) => Some(Err(e)),
                                        Some(Ok((s6, t2, f2))) => if t2 != f2 {
                                            Some(Err(GenError::BranchShapes))
                                        } else {
                                            Some(Ok((GS { no_intern: s4.no_intern, ..s6 }, t2)))
                                        },
                                    }
                                };
                                match again {
                                    None => None,
                                    Some(Err(e)) => Some(Err(e)),
                                    Some(Ok((s7, k))) => Some(Ok((with_kind(opu_s(s7, 0x20, sv), sv, k), k))),
                                }
                            },
                        }
                    },
                },
            },
        }
    }
}

/// A loop `arg` = `(c, body)`: its value is the number of rounds, counted in a fresh slot; a
/// block around a loop, leaving when the condition is zero, the body for its effect.
#[verifier::opaque]
pub open spec fn sp_while_g(s: GS, d: u32, arg: Json, n: Json) -> GR
    decreases 8 - d, n, 2int,
{
    if !spec_is_p(n) || arg != spec_pcdr(n) || arr_len(arg) < 2 {
        None
    } else {
        proof {
            lemma_parts(n);
            lemma_parts(arg);
        }
        match gslot(s) {
            None => None,
            Some((s0, it)) => {
                let s1 = emit_bytes(with_kind(s0, it, Kind::Int), seq![0x42u8, 0x00u8] + ub(0x21, it) + seq![0x02u8, 0x40u8, 0x03u8, 0x40u8]);
                match sp_val_g(s1, d, spec_pcar(arg)) {
                    None => None,
                    Some(Err(e)) => Some(Err(e)),
                    Some(Ok((s2, c))) => match want_s(Kind::Int, c, Site::WhileCond) {
                        Err(e) => Some(Err(e)),
                        Ok(_) => if arr_len(arg) < 3 { None } else { match sp_eff_g(emit_bytes(s2, seq![0x42u8, 0x00u8, 0x51u8] + ub(0x0D, 1)), d, spec_pcdr(arg)) {
                            None => None,
                            Some(Err(e)) => Some(Err(e)),
                            Some(Ok(s3)) => Some(Ok((
                                emit_bytes(
                                    s3,
                                    ub(0x20, it) + seq![0x42u8, 0x01u8, 0x7Cu8] + ub(0x21, it) + ub(0x0C, 0) + seq![0x0Bu8, 0x0Bu8] + ub(0x20, it),
                                ),
                                Kind::Int,
                            ))),
                        } },
                    },
                }
            },
        }
    }
}

/// Integer addition, subtraction or comparison `n` = `(tag, (a, b))`: both operands must be
/// integers; comparison widens its result to i64.
#[verifier::opaque]
pub open spec fn sp_arith_g(s: GS, d: u32, tag: i64, arg: Json, n: Json) -> GR
    decreases 8 - d, n, 2int,
{
    if !spec_is_p(n) || arg != spec_pcdr(n) || arr_len(arg) < 2 {
        None
    } else {
        proof {
            lemma_parts(n);
            lemma_parts(arg);
        }
        match sp_val_g(s, d, spec_pcar(arg)) {
            None => None,
            Some(Err(e)) => Some(Err(e)),
            Some(Ok((s1, a))) => if arr_len(arg) < 3 {
                None
            } else {
                match sp_val_g(s1, d, spec_pcdr(arg)) {
                    None => None,
                    Some(Err(e)) => Some(Err(e)),
                    Some(Ok((s2, b))) => {
                        let site = if tag == EQ { Site::Eq } else { Site::AddSub };
                        match want_s(Kind::Int, a, site) {
                            Err(e) => Some(Err(e)),
                            Ok(_) => match want_s(Kind::Int, b, site) {
                                Err(e) => Some(Err(e)),
                                Ok(_) => Some(Ok((
                                    emit_bytes(
                                        s2,
                                        if tag == ADD {
                                            seq![0x7Cu8]
                                        } else if tag == SUB {
                                            seq![0x7Du8]
                                        } else {
                                            seq![0x51u8, 0xADu8]
                                        },
                                    ),
                                    Kind::Int,
                                ))),
                            },
                        }
                    },
                }
            },
        }
    }
}

/// A box write `n` = `(setbox, (h, v))` as a value: `v` must have the shape recorded for the
/// box's slot; the value is stored and kept.
#[verifier::opaque]
pub open spec fn sp_setval_g(s: GS, d: u32, arg: Json, n: Json) -> GR
    decreases 8 - d, n, 2int,
{
    if !spec_is_p(n) || arg != spec_pcdr(n) || arr_len(arg) < 2 {
        None
    } else {
        proof {
            lemma_parts(n);
            lemma_parts(arg);
        }
        match box_g(s, spec_pcar(arg)) {
            None => None,
            Some(Err(e)) => Some(Err(e)),
            Some(Ok(x)) => if arr_len(arg) < 3 {
                None
            } else {
                match sp_val_g(s, d, spec_pcdr(arg)) {
                    None => None,
                    Some(Err(e)) => Some(Err(e)),
                    Some(Ok((s1, k))) => match want_s(kget(s.kinds, x), k, Site::Setbox) {
                        Err(e) => Some(Err(e)),
                        Ok(_) => Some(Ok((opu_s(s1, 0x22, x), k))),
                    },
                }
            },
        }
    }
}

/// Laying out node `n` as wasm that leaves its value on the stack, with `d` inlinings open;
/// gives the value's shape.
#[verifier::opaque]
pub open spec fn sp_val_g(s: GS, d: u32, n: Json) -> GR
    decreases 8 - d, n, 3int,
{
    if !spec_is_p(n) {
        Some(Err(GenError::NotNode))
    } else if !(spec_pcar(n) is Num) {
        None
    } else {
        proof {
            lemma_parts(n);
        }
        let tag = spec_pcar(n)->Num_0;
        let arg = spec_pcdr(n);
        if tag == LIT {
            if arg is Num {
                Some(Ok((emit_bytes(s, seq![0x42u8] + spec_sleb(arg->Num_0 as int)), Kind::Int)))
            } else {
                None
            }
        } else if tag == ADD || tag == SUB || tag == EQ {
            sp_arith_g(s, d, tag, arg, n)
        } else if tag == NIL {
            Some(Ok((emit_bytes(s, seq![0x42u8, 0x00u8]), Kind::List)))
        } else if tag == CONS {
            sp_cons_g(s, d, n)
        } else if tag == CAR || tag == CDR || tag == PAIRP {
            sp_cxr_g(s, d, tag, arg, n)
        } else if tag == OAPP {
            sp_app_g(s, d, arg)
        } else if tag == OFN {
            Some(Err(GenError::FnOutsideLet))
        } else if tag == VAR {
            if arg is Num {
                var_g(s, arg->Num_0)
            } else {
                None
            }
        } else if tag == LET {
            if arr_len(arg) < 3 {
                None
            } else {
                match sp_let_g(s, d, arg) {
                    None => None,
                    Some(Err(e)) => Some(Err(e)),
                    Some(Ok(s1)) => if arr_len(spec_pcdr(arg)) < 3 {
                        None
                    } else {
                        proof {
                            lemma_parts(arg);
                            lemma_parts(spec_pcdr(arg));
                        }
                        match sp_val_g(s1, d, spec_pcdr(spec_pcdr(arg))) {
                            None => None,
                            Some(Err(e)) => Some(Err(e)),
                            Some(Ok((s2, k))) => match close_s(s2, k != Kind::Int) {
                                None => None,
                                Some(s3) => Some(Ok((s3, k))),
                            },
                        }
                    },
                }
            }
        } else if tag == IF {
            sp_if_g(s, d, arg, n)
        } else if tag == GETBOX {
            match box_g(s, arg) {
                None => None,
                Some(Err(e)) => Some(Err(e)),
                Some(Ok(x)) => Some(Ok((opu_s(s, 0x20, x), kget(s.kinds, x)))),
            }
        } else if tag == SETBOX {
            sp_setval_g(s, d, arg, n)
        } else if tag == WHILE {
            sp_while_g(s, d, arg, n)
        } else if tag == NEWBOX {
            Some(Err(GenError::NewboxOutsideLet))
        } else {
            Some(Err(GenError::NoTag(tag)))
        }
    }
}

/// Whether a box write `x := v` consumes the head of `x`'s own list: `v` is `cdr(getbox(x))`.
/// `None` where the test would fail on a malformed node.
pub open spec fn consume_s(s: GS, v: Json, x: u32) -> Option<bool> {
    if !spec_is_p(v) {
        Some(false)
    } else if !(spec_pcar(v) is Num) {
        None
    } else if spec_pcar(v)->Num_0 != CDR {
        Some(false)
    } else {
        let inner = spec_pcdr(v);
        if !spec_is_p(inner) {
            Some(false)
        } else if !(spec_pcar(inner) is Num) {
            None
        } else if spec_pcar(inner)->Num_0 != GETBOX {
            Some(false)
        } else {
            match box_g(s, spec_pcdr(inner)) {
                None => None,
                Some(Ok(x2)) => Some(x2 == x),
                Some(Err(_)) => Some(false),
            }
        }
    }
}

/// A box write in effect position, `arg` = `(handle, v)`: writing a heap value from outside the
/// innermost region marks the region as written from inside; with per-cell reclaiming, a
/// write that consumes the head of an owned list pops the cell when it is the last one
/// pushed; otherwise `v` is laid out and stored.
#[verifier::opaque]
pub open spec fn sp_seteff_g(s: GS, d: u32, arg: Json, n: Json) -> Option<Result<GS, GenError>>
    decreases 8 - d, n, 2int,
{
    if !spec_is_p(n) || arg != spec_pcdr(n) || arr_len(arg) < 2 {
        None
    } else {
        proof {
            lemma_parts(n);
            lemma_parts(arg);
        }
        match box_g(s, spec_pcar(arg)) {
            None => None,
            Some(Err(e)) => Some(Err(e)),
            Some(Ok(x)) => if arr_len(arg) < 3 {
                None
            } else {
                let v = spec_pcdr(arg);
                match consume_s(s, v, x) {
                    None => None,
                    Some(consume) => {
                        let foreign = kget(s.kinds, x) != Kind::Int && s.regions.len() > 0 && s.regions.last().1 != x;
                        let s1 = if foreign { GS { foreign_list_write: true, ..s } } else { s };
                        if s1.own == 1 && consume && ohas(s1.owned, x) {
                            match heap_g(s1) {
                                None => None,
                                Some((s2, (hp, ta, _))) => {
                                    let s3 = memop_s(emit_bytes(s2, ub(0x20, x) + ub(0x22, ta) + seq![0xA7u8]), 0x29, 0x03, 8);
                                    Some(Ok(emit_bytes(
                                        s3,
                                        ub(0x21, x) + seq![0x02u8, 0x40u8] + ub(0x20, ta) + seq![0x42u8, 0x10u8, 0x7Cu8] + ub(0x20, hp)
                                            + seq![0x51u8, 0x45u8] + ub(0x0D, 0) + ub(0x20, ta) + ub(0x21, hp) + seq![0x0Bu8],
                                    )))
                                },
                            }
                        } else {
                            match sp_val_g(s1, d, v) {
                                None => None,
                                Some(Err(e)) => Some(Err(e)),
                                Some(Ok((s2, k))) => match want_s(kget(s1.kinds, x), k, Site::Setbox) {
                                    Err(e) => Some(Err(e)),
                                    Ok(_) => Some(Ok(opu_s(s2, 0x21, x))),
                                },
                            }
                        }
                    },
                }
            },
        }
    }
}

/// Laying out node `n` for its effect only: a pair is a sequence, a binding binds around its
/// body, a box write stores, a branch takes one arm; anything else is a value dropped.
#[verifier::opaque]
pub open spec fn sp_eff_g(s: GS, d: u32, n: Json) -> Option<Result<GS, GenError>>
    decreases 8 - d, n, 4int,
{
    if !spec_is_p(n) {
        Some(Err(GenError::NotNode))
    } else if !(spec_pcar(n) is Num) {
        None
    } else {
        proof {
            lemma_parts(n);
        }
        let tag = spec_pcar(n)->Num_0;
        let arg = spec_pcdr(n);
        if tag == CONS {
            if arr_len(arg) < 2 {
                None
            } else {
                proof {
                    lemma_parts(arg);
                }
                match sp_eff_g(s, d, spec_pcar(arg)) {
                    None => None,
                    Some(Err(e)) => Some(Err(e)),
                    Some(Ok(s1)) => if arr_len(arg) < 3 {
                        None
                    } else {
                        sp_eff_g(s1, d, spec_pcdr(arg))
                    },
                }
            }
        } else if tag == LET {
            if arr_len(arg) < 3 {
                None
            } else {
                match sp_let_g(s, d, arg) {
                    None => None,
                    Some(Err(e)) => Some(Err(e)),
                    Some(Ok(s1)) => if arr_len(spec_pcdr(arg)) < 3 {
                        None
                    } else {
                        proof {
                            lemma_parts(arg);
                            lemma_parts(spec_pcdr(arg));
                        }
                        match sp_eff_g(s1, d, spec_pcdr(spec_pcdr(arg))) {
                            None => None,
                            Some(Err(e)) => Some(Err(e)),
                            Some(Ok(s2)) => match close_s(s2, false) {
                                None => None,
                                Some(s3) => Some(Ok(s3)),
                            },
                        }
                    },
                }
            }
        } else if tag == SETBOX {
            sp_seteff_g(s, d, arg, n)
        } else if tag == IF {
            if arr_len(arg) < 2 {
                None
            } else {
                proof {
                    lemma_parts(arg);
                }
                match sp_val_g(emit_bytes(s, seq![0x02u8, 0x40u8, 0x02u8, 0x40u8]), d, spec_pcar(arg)) {
                    None => None,
                    Some(Err(e)) => Some(Err(e)),
                    Some(Ok((s1, c))) => match want_s(Kind::Int, c, Site::IfCond) {
                        Err(e) => Some(Err(e)),
                        Ok(_) => if arr_len(arg) < 3 || arr_len(spec_pcdr(arg)) < 2 {
                            None
                        } else {
                            proof {
                                lemma_parts(spec_pcdr(arg));
                            }
                            match sp_eff_g(emit_bytes(s1, seq![0x42u8, 0x00u8, 0x52u8, 0x45u8] + ub(0x0D, 0)), d, spec_pcar(spec_pcdr(arg))) {
                                None => None,
                                Some(Err(e)) => Some(Err(e)),
                                Some(Ok(s2)) => if arr_len(spec_pcdr(arg)) < 3 {
                                    None
                                } else {
                                    match sp_eff_g(emit_bytes(s2, ub(0x0C, 1) + seq![0x0Bu8]), d, spec_pcdr(spec_pcdr(arg))) {
                                        None => None,
                                        Some(Err(e)) => Some(Err(e)),
                                        Some(Ok(s3)) => Some(Ok(emit_bytes(s3, seq![0x0Bu8]))),
                                    }
                                },
                            }
                        },
                    },
                }
            }
        } else {
            match sp_val_g(s, d, n) {
                None => None,
                Some(Err(e)) => Some(Err(e)),
                Some(Ok((s1, _))) => Some(Ok(emit_bytes(s1, seq![0x1Au8]))),
            }
        }
    }
}

/// The wasm emitter of stage G: the binding rules of stage E, with value shapes tracked
/// statically, pairs on a bump heap in linear memory, static strings packed into a pool, and
/// (where asked) heap reclaiming by ownership.
pub struct WComp<'a> {
    /// Whether static strings are laid out as cells instead of packed.
    pub no_intern: bool,
    pub b: Vec<u8>,
    pub env: Vec<(i64, Bind)>,
    pub nslots: u32,
    pub outer: Vec<(i64, Where)>,
    /// For each closure: its parameter, its body, and how many bindings it closes over.
    pub fns: Vec<(i64, &'a Json, usize)>,
    pub depth: u32,
    /// The shape recorded for each slot.
    pub kinds: Vec<Option<Kind>>,
    /// The heap locals: bump pointer and two spares, once taken.
    pub heap: Option<(u32, u32, u32)>,
    /// Reclaiming: 0 none, 1 cell by cell, 2 by regions.
    pub own: u8,
    /// Whether the peak gauge is laid out.
    pub peak: bool,
    /// Open regions: the slot marking the heap pointer, the owning box's slot.
    pub regions: Vec<(u32, u32)>,
    /// Whether a region was written from inside with a heap value from outside.
    pub foreign_list_write: bool,
    /// The whole program, for the ownership walk.
    pub root: Option<&'a Json>,
    /// The owning variable recorded for each owned box slot.
    pub owned: Vec<Option<i64>>,
    /// The string pool, placed at address 16.
    pub pool: Vec<u8>,
    /// The local for a packed string read twice, once taken.
    pub tstr: Option<u32>,
    /// Whether linear memory is used.
    pub mem: bool,
}

impl<'a> WComp<'a> {
    /// The state, with closure bodies and the root by value.
    pub open spec fn view(&self) -> GS {
        GS {
            no_intern: self.no_intern,
            b: self.b@,
            env: self.env@,
            nslots: self.nslots,
            outer: self.outer@,
            fns: Seq::new(self.fns@.len(), |i: int| (self.fns@[i].0, *self.fns@[i].1, self.fns@[i].2)),
            kinds: self.kinds@,
            heap: self.heap,
            own: self.own,
            peak: self.peak,
            regions: self.regions@,
            foreign_list_write: self.foreign_list_write,
            root: match self.root {
                Some(r) => Some(*r),
                None => None,
            },
            owned: self.owned@,
            pool: self.pool@,
            tstr: self.tstr,
            mem: self.mem,
        }
    }

    /// A fresh emitter: nothing laid out, the peak gauge on, no reclaiming.
    pub fn new() -> (r: WComp<'a>)
        ensures
            r@ == (GS {
                no_intern: false,
                b: Seq::empty(),
                env: Seq::empty(),
                nslots: 0,
                outer: Seq::empty(),
                fns: Seq::empty(),
                kinds: Seq::empty(),
                heap: None,
                own: 0,
                peak: true,
                regions: Seq::empty(),
                foreign_list_write: false,
                root: None,
                owned: Seq::empty(),
                pool: Seq::empty(),
                tstr: None,
                mem: false,
            }),
            r.depth == 0,
    {
        let r = WComp {
            no_intern: false,
            b: Vec::new(),
            env: Vec::new(),
            nslots: 0,
            outer: Vec::new(),
            fns: Vec::new(),
            depth: 0,
            kinds: Vec::new(),
            heap: None,
            own: 0,
            peak: true,
            root: None,
            owned: Vec::new(),
            regions: Vec::new(),
            foreign_list_write: false,
            pool: Vec::new(),
            tstr: None,
            mem: false,
        };
        assert(r@.fns =~= Seq::<(i64, Json, usize)>::empty());
        r
    }

    /// A fresh slot.
    pub fn slot(&mut self) -> (r: u32)
        requires
            old(self).nslots < u32::MAX,
        ensures
            gslot(old(self)@) == Some((final(self)@, r)),
            final(self).depth == old(self).depth,
            final(self).fns == old(self).fns,
            final(self).root == old(self).root,
    {
        let s = self.nslots;
        self.nslots += 1;
        assert(self@ =~= gslot(old(self)@).unwrap().0);
        s
    }

    /// The binding of `id` made last.
    pub fn look(&self, id: i64) -> (r: Option<Bind>)
        ensures
            r == look_s(self.env@, id),
    {
        let mut i = self.env.len();
        assert(self.env@.take(i as int) =~= self.env@);
        while i > 0
            invariant
                i <= self.env@.len(),
                look_s(self.env@, id) == look_s(self.env@.take(i as int), id),
            decreases i,
        {
            i -= 1;
            assert(self.env@.take(i + 1).drop_last() =~= self.env@.take(i as int));
            if self.env[i].0 == id {
                return Some(self.env[i].1);
            }
        }
        None
    }

    /// Lays out an instruction without immediates.
    pub fn op(&mut self, o: u8)
        ensures
            final(self)@ == emit_bytes(old(self)@, seq![o]),
            final(self).depth == old(self).depth,
            final(self).fns == old(self).fns,
            final(self).root == old(self).root,
    {
        self.b.push(o);
        assert(self@ =~= emit_bytes(old(self)@, seq![o]));
    }

    /// Lays out an instruction with an unsigned immediate.
    pub fn op_u(&mut self, o: u8, x: u32)
        ensures
            final(self)@ == opu_s(old(self)@, o, x),
            final(self).depth == old(self).depth,
            final(self).fns == old(self).fns,
            final(self).root == old(self).root,
    {
        self.b.push(o);
        uleb(x, &mut self.b);
        assert(self@ =~= opu_s(old(self)@, o, x));
    }

    /// Lays out a memory instruction; linear memory is then in use.
    pub fn memop(&mut self, o: u8, align: u8, off: u32)
        ensures
            final(self)@ == memop_s(old(self)@, o, align, off),
            final(self).depth == old(self).depth,
            final(self).fns == old(self).fns,
            final(self).root == old(self).root,
    {
        self.mem = true;
        self.b.push(o);
        self.b.push(align);
        uleb(off, &mut self.b);
        assert(self@ =~= memop_s(old(self)@, o, align, off));
    }

    /// Appends raw bytes to the code.
    pub(crate) fn bytes(&mut self, bs: &[u8])
        ensures
            final(self)@ == emit_bytes(old(self)@, bs@),
            final(self).depth == old(self).depth,
            final(self).fns == old(self).fns,
            final(self).root == old(self).root,
    {
        let mut k: usize = 0;
        let ghost b0 = self.b@;
        while k < bs.len()
            invariant
                k <= bs@.len(),
                self.b@ == b0 + bs@.subrange(0, k as int),
                self.depth == old(self).depth,
                self.fns == old(self).fns,
                self.root == old(self).root,
                self@ == (GS { b: self.b@, ..old(self)@ }),
            decreases bs@.len() - k,
        {
            self.b.push(bs[k]);
            assert(bs@.subrange(0, k + 1) =~= bs@.subrange(0, k as int).push(bs@[k as int]));
            k += 1;
        }
        assert(bs@.subrange(0, bs@.len() as int) =~= bs@);
        assert(self@ =~= emit_bytes(old(self)@, bs@));
    }

    /// Appends a signed LEB128 number to the code.
    pub(crate) fn sleb_b(&mut self, v: i64)
        ensures
            final(self)@ == emit_bytes(old(self)@, spec_sleb(v as int)),
            final(self).depth == old(self).depth,
            final(self).fns == old(self).fns,
            final(self).root == old(self).root,
    {
        sleb(v, &mut self.b);
        assert(self@ =~= emit_bytes(old(self)@, spec_sleb(v as int)));
    }

    /// The heap locals, taken from three fresh slots the first time.
    pub fn heap_locals(&mut self) -> (r: (u32, u32, u32))
        requires
            heap_g(old(self)@) is Some,
        ensures
            heap_g(old(self)@) == Some((final(self)@, r)),
            final(self).depth == old(self).depth,
            final(self).fns == old(self).fns,
            final(self).root == old(self).root,
    {
        if let Some(h) = self.heap {
            return h;
        }
        let a = self.slot();
        let b = self.slot();
        let c = self.slot();
        let h = (a, b, c);
        self.heap = Some(h);
        assert(self@ =~= heap_g(old(self)@).unwrap().0);
        h
    }

    /// Puts the initialisation of the heap pointer in front of the code, where the heap is
    /// used: the first 16-byte boundary after the pool (which starts at 16).
    pub fn finish(&mut self)
        requires
            old(self).pool@.len() < 0x1000_0000_0000,
        ensures
            final(self)@ == finish_s(old(self)@),
            final(self).depth == old(self).depth,
    {
        if let Some((hp, _, _)) = self.heap {
            let mut pre: Vec<u8> = Vec::new();
            let base = 16 + ((self.pool.len() as i64 + 15) / 16) * 16;
            pre.push(0x42);
            sleb(base, &mut pre);
            pre.push(0x21);
            uleb(hp, &mut pre);
            let ghost p0 = pre@;
            let mut old_b = Vec::new();
            std::mem::swap(&mut old_b, &mut self.b);
            pre.append(&mut old_b);
            self.b = pre;
            assert(self@ =~= finish_s(old(self)@));
        } else {
            assert(self@ =~= finish_s(old(self)@));
        }
    }

    /// The shape recorded for slot `s`, an integer if none.
    pub fn slot_kind(&self, s: u32) -> (r: Kind)
        ensures
            r == kget(self.kinds@, s),
    {
        if (s as usize) < self.kinds.len() {
            match self.kinds[s as usize] {
                Some(k) => k,
                None => Kind::Int,
            }
        } else {
            Kind::Int
        }
    }

    /// Records shape `k` for slot `s`.
    pub(crate) fn set_kind(&mut self, s: u32, k: Kind)
        ensures
            final(self)@ == with_kind(old(self)@, s, k),
            final(self).depth == old(self).depth,
            final(self).fns == old(self).fns,
            final(self).root == old(self).root,
    {
        let ghost k0 = self.kinds@;
        while self.kinds.len() <= s as usize
            invariant
                k0.len() <= self.kinds@.len(),
                self.kinds@.len() <= if s < k0.len() { k0.len() as int } else { s + 1 },
                self.kinds@ == k0 + Seq::new((self.kinds@.len() - k0.len()) as nat, |i: int| None::<Kind>),
                self.depth == old(self).depth,
                self.fns == old(self).fns,
                self.root == old(self).root,
                self@ == (GS { kinds: self.kinds@, ..old(self)@ }),
            decreases s + 1 - self.kinds@.len(),
        {
            let ghost k1 = self.kinds@;
            self.kinds.push(None);
            assert(self.kinds@ =~= k0 + Seq::new((self.kinds@.len() - k0.len()) as nat, |i: int| None::<Kind>));
        }
        self.kinds.set(s as usize, Some(k));
        assert(self@ =~= with_kind(old(self)@, s, k));
    }

    /// Records slot `s` as owned by variable `id`.
    pub(crate) fn set_owned(&mut self, s: u32, id: i64)
        ensures
            final(self)@ == (GS { owned: oset(old(self)@.owned, s, id), ..old(self)@ }),
            final(self).depth == old(self).depth,
            final(self).fns == old(self).fns,
            final(self).root == old(self).root,
    {
        let ghost k0 = self.owned@;
        while self.owned.len() <= s as usize
            invariant
                k0.len() <= self.owned@.len(),
                self.owned@.len() <= if s < k0.len() { k0.len() as int } else { s + 1 },
                self.owned@ == k0 + Seq::new((self.owned@.len() - k0.len()) as nat, |i: int| None::<i64>),
                self.depth == old(self).depth,
                self.fns == old(self).fns,
                self.root == old(self).root,
                self@ == (GS { owned: self.owned@, ..old(self)@ }),
            decreases s + 1 - self.owned@.len(),
        {
            self.owned.push(None);
            assert(self.owned@ =~= k0 + Seq::new((self.owned@.len() - k0.len()) as nat, |i: int| None::<i64>));
        }
        self.owned.set(s as usize, Some(id));
        assert(self@ =~= (GS { owned: oset(old(self)@.owned, s, id), ..old(self)@ }));
    }

    /// Whether slot `s` is recorded as owned.
    pub(crate) fn is_owned(&self, s: u32) -> (r: bool)
        ensures
            r == ohas(self.owned@, s),
    {
        (s as usize) < self.owned.len() && self.owned[s as usize].is_some()
    }

    /// How many box slots are recorded as owned.
    pub fn owned_count(&self) -> (r: usize)
        ensures
            r == self.owned@.filter(|o: Option<i64>| o is Some).len(),
    {
        let mut n: usize = 0;
        let mut k: usize = 0;
        while k < self.owned.len()
            invariant
                k <= self.owned@.len(),
                n == self.owned@.subrange(0, k as int).filter(|o: Option<i64>| o is Some).len(),
                n <= k,
            decreases self.owned@.len() - k,
        {
            proof {
                let sub = self.owned@.subrange(0, k + 1);
                assert(sub.drop_last() =~= self.owned@.subrange(0, k as int));
                reveal(Seq::filter);
            }
            if self.owned[k].is_some() {
                n += 1;
            }
            k += 1;
        }
        assert(self.owned@.subrange(0, self.owned@.len() as int) =~= self.owned@);
        n
    }
}

/// Putting the initialisation of the heap pointer in front of the code, where the heap is used.
pub open spec fn finish_s(s: GS) -> GS {
    match s.heap {
        Some((hp, _, _)) => GS {
            b: seq![0x42u8] + spec_sleb((16 + ((s.pool.len() + 15) / 16) * 16) as int) + seq![0x21u8] + spec_uleb(hp as nat) + s.b,
            ..s
        },
        None => s,
    }
}

impl<'a> WComp<'a> {
    /// A shape check: `k` is needed where `got` came.
    pub fn want(k: Kind, got: Kind, site: Site) -> (r: Result<(), GenError>)
        ensures
            r == want_s(k, got, site),
    {
        if k == got {
            return Ok(());
        }
        Err(GenError::Shape(k, got, site))
    }

    /// The slot of the box that handle `h` names.
    pub fn box_slot(&self, h: &Json) -> (r: Result<u32, GenError>)
        requires
            box_g(self@, *h) is Some,
        ensures
            box_g(self@, *h) == Some(r),
    {
        if !is_p(h) || pnum(pcar(h)) != VAR {
            return Err(GenError::HandleNotVar);
        }
        match self.look(pnum(pcdr(h))) {
            Some(Bind::Boxed(s)) => Ok(s),
            _ => Err(GenError::HandleNotStatic),
        }
    }

    /// The byte a node denotes where it is a literal in 0..=255.
    pub fn static_byte(n: &Json) -> (r: Option<i64>)
        requires
            static_byte_s(*n) is Some,
        ensures
            static_byte_s(*n) == Some(r),
    {
        if !is_p(n) || pnum(pcar(n)) != LIT {
            return None;
        }
        let v = pnum(pcdr(n));
        if 0 <= v && v <= 255 {
            Some(v)
        } else {
            None
        }
    }

    /// The bytes of a static chain of `cons` nodes from `n`; see `static_str_s`.
    pub fn as_static_str(n: &Json) -> (r: Option<Vec<u8>>)
        requires
            static_str_s(*n, Seq::empty()) is Some,
        ensures
            match r {
                Some(v) => static_str_s(*n, Seq::empty()) == Some(Some(v@)),
                None => static_str_s(*n, Seq::empty()) == Some(None::<Seq<u8>>),
            },
    {
        let mut out: Vec<u8> = Vec::new();
        let mut cur = n;
        loop
            invariant
                static_str_s(*n, Seq::empty()) == static_str_s(*cur, out@),
                static_str_s(*n, Seq::empty()) is Some,
            decreases *cur,
        {
            if !is_p(cur) {
                return None;
            }
            proof {
                lemma_parts(*cur);
            }
            let t = pnum(pcar(cur));
            if t == NIL {
                return if out.len() >= 2 {
                    Some(out)
                } else {
                    None
                };
            } else if t == CONS {
                let p = pcdr(cur);
                proof {
                    lemma_parts(*p);
                }
                let a = pcar(p);
                if !is_p(a) || pnum(pcar(a)) != LIT {
                    return None;
                }
                let v = pnum(pcdr(a));
                if !(0 <= v && v <= 255) {
                    return None;
                }
                out.push(v as u8);
                cur = pcdr(p);
            } else {
                return None;
            }
            if out.len() > 65535 {
                return None;
            }
        }
    }

    /// Places `bytes` in the pool once, and gives the packed value; see `intern_g`.
    pub fn intern(&mut self, bytes: &[u8]) -> (r: i64)
        requires
            bytes@.len() > 0,
            old(self).pool@.len() + bytes@.len() < 0x7000_0000,
        ensures
            intern_g(old(self)@, bytes@) == (final(self)@, r),
            final(self).depth == old(self).depth,
            final(self).fns == old(self).fns,
            final(self).root == old(self).root,
    {
        let n = bytes.len();
        let mut i: usize = 0;
        let mut found: Option<usize> = None;
        while i + n <= self.pool.len() && found.is_none()
            invariant
                n == bytes@.len(),
                n > 0,
                self.pool@.len() + n < 0x7000_0000,
                i <= self.pool@.len() + 1,
                found matches Some(at) ==> first_at(self.pool@, bytes@, 0) == Some(at as int) && at + n <= self.pool@.len(),
                found is None ==> first_at(self.pool@, bytes@, 0) == first_at(self.pool@, bytes@, i as int),
            decreases self.pool@.len() + 1 - i + (if found is None { 1int } else { 0int }),
        {
            let mut k: usize = 0;
            while k < n && self.pool[i + k] == bytes[k]
                invariant
                    k <= n,
                    n == bytes@.len(),
                    i + n <= self.pool@.len(),
                    self.pool@.len() + n < 0x7000_0000,
                    forall|q: int| 0 <= q < k ==> self.pool@[i + q] == bytes@[q],
                decreases n - k,
            {
                k += 1;
            }
            if k == n {
                assert(self.pool@.subrange(i as int, i + n) =~= bytes@);
                found = Some(i);
            } else {
                assert(self.pool@.subrange(i as int, i + n) != bytes@) by {
                    assert(self.pool@.subrange(i as int, i + n)[k as int] != bytes@[k as int]);
                }
                i += 1;
            }
        }
        let at = match found {
            Some(at) => at,
            None => {
                let at = self.pool.len();
                let mut k: usize = 0;
                let ghost p0 = self.pool@;
                while k < n
                    invariant
                        k <= n,
                        n == bytes@.len(),
                        self.pool@ == p0 + bytes@.subrange(0, k as int),
                        self.depth == old(self).depth,
                        self.fns == old(self).fns,
                        self.root == old(self).root,
                        self@ == (GS { pool: self.pool@, ..old(self)@ }),
                    decreases n - k,
                {
                    self.pool.push(bytes[k]);
                    assert(bytes@.subrange(0, k + 1) =~= bytes@.subrange(0, k as int).push(bytes@[k as int]));
                    k += 1;
                }
                assert(bytes@.subrange(0, n as int) =~= bytes@);
                at
            },
        };
        assert(self@ =~= intern_g(old(self)@, bytes@).0);
        (((16 + at) as i64) << 32u64) | (n as i64)
    }

    /// The local for a packed string read twice, taken from a fresh slot the first time.
    pub fn tmp_str(&mut self) -> (r: u32)
        requires
            tmp_g(old(self)@) is Some,
        ensures
            tmp_g(old(self)@) == Some((final(self)@, r)),
            final(self).depth == old(self).depth,
            final(self).fns == old(self).fns,
            final(self).root == old(self).root,
    {
        if let Some(t) = self.tstr {
            return t;
        }
        let t = self.slot();
        self.tstr = Some(t);
        assert(self@ =~= tmp_g(old(self)@).unwrap().0);
        t
    }

    /// Lays out the peak gauge where it is enabled; see `peak_s`.
    pub fn emit_peak(&mut self, hp: u32)
        ensures
            final(self)@ == peak_s(old(self)@, hp),
            final(self).depth == old(self).depth,
            final(self).fns == old(self).fns,
            final(self).root == old(self).root,
    {
        if !self.peak {
            return;
        }
        self.op(0x02);
        self.b.push(0x40);
        self.op_u(0x20, hp);
        self.op(0x41);
        self.b.push(0x00);
        self.memop(0x29, 0x03, 0);
        self.op(0x55);
        self.op(0x45);
        self.op_u(0x0D, 0);
        self.op(0x41);
        self.b.push(0x00);
        self.op_u(0x20, hp);
        self.memop(0x37, 0x03, 0);
        self.op(0x0B);
        assert(self@ =~= peak_s(old(self)@, hp));
    }
}

/// Appends an instruction with an unsigned immediate.
pub(crate) fn put_u(v: &mut Vec<u8>, o: u8, x: u32)
    ensures
        final(v)@ == old(v)@ + ub(o, x),
{
    v.push(o);
    uleb(x, v);
    assert(final(v)@ =~= old(v)@ + ub(o, x));
}

/// Appends a memory instruction.
pub(crate) fn put_m(v: &mut Vec<u8>, o: u8, align: u8, off: u32)
    ensures
        final(v)@ == old(v)@ + mb(o, align, off),
{
    v.push(o);
    v.push(align);
    uleb(off, v);
    assert(final(v)@ =~= old(v)@ + mb(o, align, off));
}

/// Appends one byte.
pub(crate) fn put1(v: &mut Vec<u8>, a: u8)
    ensures
        final(v)@ == old(v)@ + seq![a],
{
    v.push(a);
    assert(final(v)@ =~= old(v)@ + seq![a]);
}

/// Appends two bytes.
pub(crate) fn put2(v: &mut Vec<u8>, a: u8, b: u8)
    ensures
        final(v)@ == old(v)@ + seq![a, b],
{
    v.push(a);
    v.push(b);
    assert(final(v)@ =~= old(v)@ + seq![a, b]);
}

/// Appends three bytes.
pub(crate) fn put3(v: &mut Vec<u8>, a: u8, b: u8, c: u8)
    ensures
        final(v)@ == old(v)@ + seq![a, b, c],
{
    v.push(a);
    v.push(b);
    v.push(c);
    assert(final(v)@ =~= old(v)@ + seq![a, b, c]);
}

/// Appends four bytes.
pub(crate) fn put4(v: &mut Vec<u8>, a: u8, b: u8, c: u8, d: u8)
    ensures
        final(v)@ == old(v)@ + seq![a, b, c, d],
{
    v.push(a);
    v.push(b);
    v.push(c);
    v.push(d);
    assert(final(v)@ =~= old(v)@ + seq![a, b, c, d]);
}

/// Appends five bytes.
pub(crate) fn put5(v: &mut Vec<u8>, a: u8, b: u8, c: u8, d: u8, e: u8)
    ensures
        final(v)@ == old(v)@ + seq![a, b, c, d, e],
{
    v.push(a);
    v.push(b);
    v.push(c);
    v.push(d);
    v.push(e);
    assert(final(v)@ =~= old(v)@ + seq![a, b, c, d, e]);
}

/// Appends a signed LEB128 number.
pub(crate) fn put_s(v: &mut Vec<u8>, x: i64)
    ensures
        final(v)@ == old(v)@ + spec_sleb(x as int),
{
    sleb(x, v);
}

impl<'a> WComp<'a> {
    /// The memory the module needs: sixteen pages where the code touched linear memory or a
    /// string pool has to be placed, else none.
    pub fn pages(&self) -> (r: Option<u32>)
        ensures
            r == (if self.mem || self.pool@.len() > 0 { Some(16u32) } else { None::<u32> }),
    {
        if self.mem || self.pool.len() > 0 {
            Some(16)
        } else {
            None
        }
    }

    /// Appends the bytes of `v` to the code.
    pub(crate) fn take_bytes(&mut self, v: &mut Vec<u8>)
        ensures
            final(self)@ == emit_bytes(old(self)@, old(v)@),
            final(self).depth == old(self).depth,
            final(self).fns == old(self).fns,
            final(self).root == old(self).root,
    {
        self.b.append(v);
        assert(self@ =~= emit_bytes(old(self)@, old(v)@));
    }

    /// Prepends the byte in local `ta` to the packed string on the stack; see `prepend_s`.
    pub fn emit_str_prepend(&mut self, hp: u32, ta: u32)
        requires
            prepend_s(old(self)@, hp, ta) is Some,
        ensures
            prepend_s(old(self)@, hp, ta) == Some(final(self)@),
            final(self).depth == old(self).depth,
            final(self).fns == old(self).fns,
            final(self).root == old(self).root,
    {
        let sv = self.slot();
        let len = self.slot();
        let src = self.slot();
        let dst = self.slot();
        let i = self.slot();
        let mut v: Vec<u8> = Vec::new();
        put_u(&mut v, 0x21, sv);
        assert(Seq::<u8>::empty() + ub(0x21, sv) =~= ub(0x21, sv));
        put_u(&mut v, 0x20, hp);
        put_u(&mut v, 0x21, dst);
        put_u(&mut v, 0x20, sv);
        put1(&mut v, 0x42);
        put_s(&mut v, 0xFFFF_FFFF);
        put1(&mut v, 0x83);
        put_u(&mut v, 0x21, len);
        put_u(&mut v, 0x20, sv);
        put3(&mut v, 0x42, 32, 0x88);
        put_u(&mut v, 0x21, src);
        put_u(&mut v, 0x20, dst);
        put1(&mut v, 0xA7);
        put_u(&mut v, 0x20, ta);
        put_m(&mut v, 0x3C, 0x00, 0);
        put2(&mut v, 0x42, 0x00);
        put_u(&mut v, 0x21, i);
        put4(&mut v, 0x02, 0x40, 0x03, 0x40);
        put_u(&mut v, 0x20, i);
        put_u(&mut v, 0x20, len);
        put1(&mut v, 0x51);
        put_u(&mut v, 0x0D, 1);
        put_u(&mut v, 0x20, dst);
        put_u(&mut v, 0x20, i);
        put5(&mut v, 0x7C, 0x42, 0x01, 0x7C, 0xA7);
        put_u(&mut v, 0x20, src);
        put_u(&mut v, 0x20, i);
        put2(&mut v, 0x7C, 0xA7);
        put_m(&mut v, 0x31, 0x00, 0);
        put_m(&mut v, 0x3C, 0x00, 0);
        put_u(&mut v, 0x20, i);
        put3(&mut v, 0x42, 0x01, 0x7C);
        put_u(&mut v, 0x21, i);
        put_u(&mut v, 0x0C, 0);
        put2(&mut v, 0x0B, 0x0B);
        put_u(&mut v, 0x20, hp);
        put_u(&mut v, 0x20, len);
        put4(&mut v, 0x42, 0x10, 0x7C, 0x42);
        put_s(&mut v, -16);
        put2(&mut v, 0x83, 0x7C);
        put_u(&mut v, 0x21, hp);
        assert(v@ == prepend_copy(hp, ta, sv, len, src, dst, i));
        self.take_bytes(&mut v);
        self.mem = true;
        self.emit_peak(hp);
        let mut w: Vec<u8> = Vec::new();
        put_u(&mut w, 0x20, dst);
        assert(Seq::<u8>::empty() + ub(0x20, dst) =~= ub(0x20, dst));
        put3(&mut w, 0x42, 32, 0x86);
        put_u(&mut w, 0x20, len);
        put4(&mut w, 0x42, 0x01, 0x7C, 0x84);
        assert(w@ == prepend_value(len, dst));
        self.take_bytes(&mut w);
        proof {
            let s0 = old(self)@;
            let s1 = GS { nslots: (s0.nslots + 5) as u32, mem: true, b: s0.b + prepend_copy(hp, ta, sv, len, src, dst, i), ..s0 };
            assert(peak_s(s1, hp) == peak_s(GS { mem: true, ..emit_bytes(gslot(gslot(gslot(gslot(gslot(s0).unwrap().0).unwrap().0).unwrap().0).unwrap().0).unwrap().0, prepend_copy(hp, ta, sv, len, src, dst, i)) }, hp)) by {
                assert(s1 =~= GS { mem: true, ..emit_bytes(gslot(gslot(gslot(gslot(gslot(s0).unwrap().0).unwrap().0).unwrap().0).unwrap().0).unwrap().0, prepend_copy(hp, ta, sv, len, src, dst, i)) });
            }
        }
    }

    /// Leaves a binding's scope; see `close_s`.
    pub fn close_scope(&mut self, carries_list_out: bool)
        requires
            close_s(old(self)@, carries_list_out) is Some,
        ensures
            close_s(old(self)@, carries_list_out) == Some(final(self)@),
            final(self).depth == old(self).depth,
            final(self).fns == old(self).fns,
            final(self).root == old(self).root,
    {
        let mine = match (self.regions.last(), self.env.last()) {
            (Some((_, bs)), Some((_, Bind::Boxed(x)))) => *x == *bs,
            _ => false,
        };
        if mine {
            let (mark, _) = self.regions.pop().unwrap();
            if !self.foreign_list_write && !carries_list_out {
                let (hp, _, _) = self.heap_locals();
                self.op_u(0x20, mark);
                self.op_u(0x21, hp);
            }
        }
        self.env.pop();
        assert(self@ =~= close_s(old(self)@, carries_list_out).unwrap());
    }
}

} // verus!
