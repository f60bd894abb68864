use vstd::prelude::*;
use crate::json::{Json, is_p, pcar, pcdr, pnum, spec_is_p, spec_pcar, spec_pcdr};
use crate::arena::{Arena, Val, below, cons_a, eq_v, lemma_push_wf, truthy_v, vv, wf_arena};
use crate::floor_b::{is_prefix, lemma_prefix_refl, lemma_prefix_trans};
use crate::floor_d::{flag, stack_below};
use crate::ntag::{ADD, CAR, CDR, CONS, EQ, GETBOX, IF, LET, LIT, NEWBOX, NIL, OAPP, OFN, PAIRP, SETBOX, SUB, VAR, WHILE};

verus! {

/// An instruction of the specialised code of stages E and F.
#[derive(Clone, Copy, Debug, PartialEq, Eq, Structural)]
pub enum Op {
    Lit(i64),
    Load(u32),
    Store(u32),
    Dup,
    Pop,
    Add,
    Sub,
    Eq,
    NilV,
    Cons,
    Car,
    Cdr,
    IsPair,
    Jz(u32),
    Jmp(u32),
}

/// What a name is bound to: a slot, a box replaced by the slot holding its content, or a
/// closure (the index of its definition) that is inlined wherever it is applied.
#[derive(Clone, Copy, Debug, PartialEq, Eq, Structural)]
pub enum Bind {
    Slot(u32),
    Boxed(u32),
    Fn(u32),
}

/// Why an object program could not be specialised.
#[derive(Clone, Copy, Debug, PartialEq, Eq, Structural)]
pub enum CompileError {
    /// A node that is not an encoded pair.
    NotNode,
    /// A variable with no binding.
    Unbound(i64),
    /// A box handle used as a value.
    BoxAsValue,
    /// A closure used as a value.
    FnAsValue,
    /// A closure outside a binding.
    FnOutsideLet,
    /// A new box outside a binding.
    NewboxOutsideLet,
    /// A tag the specialiser does not know.
    NoTag(i64),
    /// A callee that is not a variable.
    CalleeNotVar,
    /// A callee not statically bound to a closure.
    CalleeNotStatic,
    /// Inlining nested too deep.
    TooDeep,
    /// A box handle that is not a variable.
    HandleNotVar,
    /// A box handle not statically bound to a box.
    HandleNotStatic,
}

/// The state of the specialiser, with closure bodies by value.
#[verifier::ext_equal]
pub struct CompS {
    pub code: Seq<Op>,
    pub env: Seq<(i64, Bind)>,
    pub nslots: u32,
    pub fns: Seq<(i64, Json, usize)>,
}

/// The length of an array node; -1 for any other node.
pub open spec fn arr_len(j: Json) -> int {
    match j {
        Json::Arr(a) => a@.len() as int,
        _ => -1,
    }
}

/// The binding of `id` made last.
pub open spec fn look_s(env: Seq<(i64, Bind)>, id: i64) -> Option<Bind>
    decreases env.len(),
{
    if env.len() == 0 {
        None
    } else if env.last().0 == id {
        Some(env.last().1)
    } else {
        look_s(env.drop_last(), id)
    }
}

/// The state with `o` added to the code.
pub open spec fn push_op(s: CompS, o: Op) -> CompS {
    CompS { code: s.code.push(o), env: s.env, nslots: s.nslots, fns: s.fns }
}

/// The state with the code replaced.
pub open spec fn with_code(s: CompS, code: Seq<Op>) -> CompS {
    CompS { code, env: s.env, nslots: s.nslots, fns: s.fns }
}

/// The state with the bindings replaced.
pub open spec fn with_env(s: CompS, env: Seq<(i64, Bind)>) -> CompS {
    CompS { code: s.code, env, nslots: s.nslots, fns: s.fns }
}

/// The next position in the code, as a jump target.
pub open spec fn here_s(s: CompS) -> u32 {
    s.code.len() as u32
}

/// A fresh slot; `None` where the slots are used up.
pub open spec fn slot_s(s: CompS) -> Option<(CompS, u32)> {
    if s.nslots < u32::MAX {
        Some((CompS { code: s.code, env: s.env, nslots: (s.nslots + 1) as u32, fns: s.fns }, s.nslots))
    } else {
        None
    }
}

/// The bindings without the last one.
pub open spec fn pop_env(env: Seq<(i64, Bind)>) -> Seq<(i64, Bind)> {
    if env.len() > 0 {
        env.drop_last()
    } else {
        env
    }
}

/// The first `n` bindings, or all of them where there are fewer.
pub open spec fn trunc_env(env: Seq<(i64, Bind)>, n: int) -> Seq<(i64, Bind)> {
    if n < env.len() {
        env.take(n)
    } else {
        env
    }
}

/// The word naming how a binding was made: a closure, a box, a value.
pub open spec fn kind_word(k: nat) -> &'static str {
    if k == 0 {
        "fn"
    } else if k == 1 {
        "box"
    } else {
        "val"
    }
}

/// Each element of an array node is smaller than the node.
pub proof fn lemma_parts(j: Json)
    requires
        j is Arr,
    ensures
        forall|i: int| 0 <= i < j->Arr_0@.len() ==> decreases_to!(j => #[trigger] j->Arr_0@[i]),
{
    let a = j->Arr_0;
    assert forall|i: int| 0 <= i < a@.len() implies decreases_to!(j => #[trigger] j->Arr_0@[i]) by {
        assert(decreases_to!(j => a));
        assert(decreases_to!(a => a@));
        assert(decreases_to!(a@ => a@[i]));
    }
}

/// The slot of the box that handle `h` names.
pub open spec fn sp_box(s: CompS, h: Json) -> Option<Result<u32, CompileError>> {
    if !spec_is_p(h) {
        Some(Err(CompileError::HandleNotVar))
    } else if !(spec_pcar(h) is Num) {
        None
    } else if spec_pcar(h)->Num_0 != VAR {
        Some(Err(CompileError::HandleNotVar))
    } else if !(spec_pcdr(h) is Num) {
        None
    } else {
        match look_s(s.env, spec_pcdr(h)->Num_0) {
            Some(Bind::Boxed(x)) => Some(Ok(x)),
            _ => Some(Err(CompileError::HandleNotStatic)),
        }
    }
}

/// The result of a specialising step: `None` where it would fail on a malformed node, else the
/// new state or the reason it refuses.
pub type CompR = Option<Result<CompS, CompileError>>;

/// Binding `arg` = `(id, (val, body))` without the body: a closure is recorded with the length
/// of the bindings it closes over; a new box binds a slot holding its content; anything else
/// binds a slot holding its value. Gives the state, the id, and how it was bound.
pub open spec fn sp_let(s: CompS, d: u32, arg: Json) -> Option<Result<(CompS, i64, nat), CompileError>>
    decreases 8 - d, arg, 2int,
{
    if arr_len(arg) < 3 || !(spec_pcar(arg) is Num) || arr_len(spec_pcdr(arg)) < 2 {
        None
    } else {
        proof {
            lemma_parts(arg);
            lemma_parts(spec_pcdr(arg));
        }
        let id = spec_pcar(arg)->Num_0;
        let val = spec_pcar(spec_pcdr(arg));
        if spec_is_p(val) && !(spec_pcar(val) is Num) {
            None
        } else if spec_is_p(val) && spec_pcar(val)->Num_0 == OFN {
            let pv = spec_pcdr(val);
            if arr_len(pv) < 3 || !(spec_pcar(pv) is Num) {
                None
            } else {
                let fns2 = s.fns.push((spec_pcar(pv)->Num_0, spec_pcdr(pv), s.env.len() as usize));
                Some(Ok((
                    CompS { code: s.code, env: s.env.push((id, Bind::Fn((fns2.len() - 1) as u32))), nslots: s.nslots, fns: fns2 },
                    id,
                    0,
                )))
            }
        } else {
            match slot_s(s) {
                None => None,
                Some((s1, sl)) => {
                    let boxed = spec_is_p(val) && spec_pcar(val)->Num_0 == NEWBOX;
                    proof {
                        if spec_is_p(val) {
                            lemma_parts(val);
                        }
                    }
                    match sp_val(s1, d, if boxed { spec_pcdr(val) } else { val }) {
                        None => None,
                        Some(Err(e)) => Some(Err(e)),
                        Some(Ok(s2)) => Some(Ok((
                            CompS {
                                code: s2.code.push(Op::Store(sl)),
                                env: s2.env.push((id, if boxed { Bind::Boxed(sl) } else { Bind::Slot(sl) })),
                                nslots: s2.nslots,
                                fns: s2.fns,
                            },
                            id,
                            if boxed { 1nat } else { 2nat },
                        ))),
                    }
                },
            }
        }
    }
}

/// Inlining the application `arg` = `(callee, argument)`: the callee must be a variable bound
/// to a closure and nesting must stay under eight. The argument goes to a fresh slot, read from
/// the caller's bindings; the body is laid out with the bindings the closure was defined with
/// and its parameter, and the caller's later bindings are put back after it.
pub open spec fn sp_call(s: CompS, d: u32, arg: Json) -> CompR
    decreases 8 - d, arg, 2int,
{
    if arr_len(arg) < 2 {
        None
    } else {
        proof {
            lemma_parts(arg);
        }
        let f = spec_pcar(arg);
        if !spec_is_p(f) {
            Some(Err(CompileError::CalleeNotVar))
        } else if !(spec_pcar(f) is Num) {
            None
        } else if spec_pcar(f)->Num_0 != VAR {
            Some(Err(CompileError::CalleeNotVar))
        } else if !(spec_pcdr(f) is Num) {
            None
        } else {
            match look_s(s.env, spec_pcdr(f)->Num_0) {
                Some(Bind::Fn(idx)) => if d >= 8 {
                    Some(Err(CompileError::TooDeep))
                } else if idx >= s.fns.len() || arr_len(arg) < 3 {
                    None
                } else {
                    let (param, body, elen) = s.fns[idx as int];
                    match sp_val(s, d, spec_pcdr(arg)) {
                        None => None,
                        Some(Err(e)) => Some(Err(e)),
                        Some(Ok(s1)) => match slot_s(s1) {
                            None => None,
                            Some((s2, sl)) => if elen > s2.env.len() {
                                None
                            } else {
                                let caller = s2.env.subrange(elen as int, s2.env.len() as int);
                                let s4 = CompS {
                                    code: s2.code.push(Op::Store(sl)),
                                    env: s2.env.take(elen as int).push((param, Bind::Slot(sl))),
                                    nslots: s2.nslots,
                                    fns: s2.fns,
                                };
                                match sp_val(s4, (d + 1) as u32, body) {
                                    None => None,
                                    Some(Err(e)) => Some(Err(e)),
                                    Some(Ok(s5)) => Some(Ok(with_env(s5, trunc_env(s5.env, elen as int) + caller))),
                                }
                            },
                        },
                    }
                },
                _ => Some(Err(CompileError::CalleeNotStatic)),
            }
        }
    }
}

/// Laying out node `n` so that it leaves exactly one value on the stack, with `d` inlinings
/// open.
pub open spec fn sp_val(s: CompS, d: u32, n: Json) -> CompR
    decreases 8 - d, n, 0int,
{
    if !spec_is_p(n) {
        Some(Err(CompileError::NotNode))
    } else if !(spec_pcar(n) is Num) {
        None
    } else {
        proof {
            lemma_parts(n);
        }
        let tag = spec_pcar(n)->Num_0;
        let arg = spec_pcdr(n);
        if tag == LIT {
            if arg is Num {
                Some(Ok(push_op(s, Op::Lit(arg->Num_0))))
            } else {
                None
            }
        } else if tag == ADD || tag == SUB || tag == EQ || tag == CONS {
            if arr_len(arg) < 2 {
                None
            } else {
                proof {
                    lemma_parts(arg);
                }
                match sp_val(s, d, spec_pcar(arg)) {
                    None => None,
                    Some(Err(e)) => Some(Err(e)),
                    Some(Ok(s1)) => if arr_len(arg) < 3 {
                        None
                    } else {
                        match sp_val(s1, d, spec_pcdr(arg)) {
                            None => None,
                            Some(Err(e)) => Some(Err(e)),
                            Some(Ok(s2)) => Some(Ok(push_op(
                                s2,
                                if tag == ADD {
                                    Op::Add
                                } else if tag == SUB {
                                    Op::Sub
                                } else if tag == EQ {
                                    Op::Eq
                                } else {
                                    Op::Cons
                                },
                            ))),
                        }
                    },
                }
            }
        } else if tag == NIL {
            Some(Ok(push_op(s, Op::NilV)))
        } else if tag == CAR || tag == CDR || tag == PAIRP {
            match sp_val(s, d, arg) {
                None => None,
                Some(Err(e)) => Some(Err(e)),
                Some(Ok(s1)) => Some(Ok(push_op(
                    s1,
                    if tag == CAR {
                        Op::Car
                    } else if tag == CDR {
                        Op::Cdr
                    } else {
                        Op::IsPair
                    },
                ))),
            }
        } else if tag == VAR {
            if !(arg is Num) {
                None
            } else {
                match look_s(s.env, arg->Num_0) {
                    Some(Bind::Slot(x)) => Some(Ok(push_op(s, Op::Load(x)))),
                    Some(Bind::Boxed(_)) => Some(Err(CompileError::BoxAsValue)),
                    Some(Bind::Fn(_)) => Some(Err(CompileError::FnAsValue)),
                    None => Some(Err(CompileError::Unbound(arg->Num_0))),
                }
            }
        } else if tag == OAPP {
            sp_call(s, d, arg)
        } else if tag == OFN {
            Some(Err(CompileError::FnOutsideLet))
        } else if tag == LET {
            if arr_len(arg) < 3 {
                None
            } else {
            match sp_let(s, d, arg) {
                None => None,
                Some(Err(e)) => Some(Err(e)),
                Some(Ok((s1, _, _))) => if arr_len(spec_pcdr(arg)) < 3 {
                    None
                } else {
                    proof {
                        lemma_parts(arg);
                        lemma_parts(spec_pcdr(arg));
                    }
                    match sp_val(s1, d, spec_pcdr(spec_pcdr(arg))) {
                        None => None,
                        Some(Err(e)) => Some(Err(e)),
                        Some(Ok(s2)) => Some(Ok(with_env(s2, pop_env(s2.env)))),
                    }
                },
            }
            }
        } else if tag == IF {
            if arr_len(arg) < 2 {
                None
            } else {
                proof {
                    lemma_parts(arg);
                }
                match sp_val(s, d, spec_pcar(arg)) {
                    None => None,
                    Some(Err(e)) => Some(Err(e)),
                    Some(Ok(s1)) => if arr_len(arg) < 3 || arr_len(spec_pcdr(arg)) < 2 {
                        None
                    } else {
                        proof {
                            lemma_parts(spec_pcdr(arg));
                        }
                        let jf = here_s(s1);
                        match sp_val(push_op(s1, Op::Jz(0)), d, spec_pcar(spec_pcdr(arg))) {
                            None => None,
                            Some(Err(e)) => Some(Err(e)),
                            Some(Ok(s2)) => if arr_len(spec_pcdr(arg)) < 3 {
                                None
                            } else {
                                let je = here_s(s2);
                                let s2b = push_op(s2, Op::Jmp(0));
                                let s2c = with_code(s2b, s2b.code.update(jf as int, Op::Jz(here_s(s2b))));
                                match sp_val(s2c, d, spec_pcdr(spec_pcdr(arg))) {
                                    None => None,
                                    Some(Err(e)) => Some(Err(e)),
                                    Some(Ok(s3)) => Some(Ok(with_code(s3, s3.code.update(je as int, Op::Jmp(here_s(s3)))))),
                                }
                            },
                        }
                    },
                }
            }
        } else if tag == GETBOX {
            match sp_box(s, arg) {
                None => None,
                Some(Err(e)) => Some(Err(e)),
                Some(Ok(x)) => Some(Ok(push_op(s, Op::Load(x)))),
            }
        } else if tag == SETBOX {
            if arr_len(arg) < 2 {
                None
            } else {
                proof {
                    lemma_parts(arg);
                }
                match sp_box(s, spec_pcar(arg)) {
                    None => None,
                    Some(Err(e)) => Some(Err(e)),
                    Some(Ok(x)) => if arr_len(arg) < 3 {
                        None
                    } else {
                        match sp_val(s, d, spec_pcdr(arg)) {
                            None => None,
                            Some(Err(e)) => Some(Err(e)),
                            Some(Ok(s1)) => Some(Ok(push_op(push_op(s1, Op::Dup), Op::Store(x)))),
                        }
                    },
                }
            }
        } else if tag == WHILE {
            match slot_s(s) {
                None => None,
                Some((s0, it)) => if arr_len(arg) < 2 {
                    None
                } else {
                    proof {
                        lemma_parts(arg);
                    }
                    let s1 = push_op(push_op(s0, Op::Lit(0)), Op::Store(it));
                    let top = here_s(s1);
                    match sp_val(s1, d, spec_pcar(arg)) {
                        None => None,
                        Some(Err(e)) => Some(Err(e)),
                        Some(Ok(s2)) => if arr_len(arg) < 3 {
                            None
                        } else {
                            let jf = here_s(s2);
                            match sp_eff(push_op(s2, Op::Jz(0)), d, spec_pcdr(arg)) {
                                None => None,
                                Some(Err(e)) => Some(Err(e)),
                                Some(Ok(s3)) => {
                                    let s4 = push_op(push_op(push_op(push_op(push_op(s3, Op::Load(it)), Op::Lit(1)), Op::Add), Op::Store(it)), Op::Jmp(top));
                                    let s5 = with_code(s4, s4.code.update(jf as int, Op::Jz(here_s(s4))));
                                    Some(Ok(push_op(s5, Op::Load(it))))
                                },
                            }
                        },
                    }
                },
            }
        } else if tag == NEWBOX {
            Some(Err(CompileError::NewboxOutsideLet))
        } else {
            Some(Err(CompileError::NoTag(tag)))
        }
    }
}

/// Laying out node `n` for its effect only: a pair is a sequence and allocates nothing, a
/// binding binds around its body, a box write stores without keeping the value; anything else
/// is laid out as a value and dropped.
pub open spec fn sp_eff(s: CompS, d: u32, n: Json) -> CompR
    decreases 8 - d, n, 1int,
{
    if !spec_is_p(n) {
        Some(Err(CompileError::NotNode))
    } else if !(spec_pcar(n) is Num) {
        None
    } else {
        proof {
            lemma_parts(n);
        }
        let tag = spec_pcar(n)->Num_0;
        let arg = spec_pcdr(n);
        if tag == CONS {
            if arr_len(arg) < 2 {
                None
            } else {
                proof {
                    lemma_parts(arg);
                }
                match sp_eff(s, d, spec_pcar(arg)) {
                    None => None,
                    Some(Err(e)) => Some(Err(e)),
                    Some(Ok(s1)) => if arr_len(arg) < 3 {
                        None
                    } else {
                        sp_eff(s1, d, spec_pcdr(arg))
                    },
                }
            }
        } else if tag == LET {
            if arr_len(arg) < 3 {
                None
            } else {
            match sp_let(s, d, arg) {
                None => None,
                Some(Err(e)) => Some(Err(e)),
                Some(Ok((s1, _, _))) => if arr_len(spec_pcdr(arg)) < 3 {
                    None
                } else {
                    proof {
                        lemma_parts(arg);
                        lemma_parts(spec_pcdr(arg));
                    }
                    match sp_eff(s1, d, spec_pcdr(spec_pcdr(arg))) {
                        None => None,
                        Some(Err(e)) => Some(Err(e)),
                        Some(Ok(s2)) => Some(Ok(with_env(s2, pop_env(s2.env)))),
                    }
                },
            }
            }
        } else if tag == SETBOX {
            if arr_len(arg) < 2 {
                None
            } else {
                proof {
                    lemma_parts(arg);
                }
                match sp_box(s, spec_pcar(arg)) {
                    None => None,
                    Some(Err(e)) => Some(Err(e)),
                    Some(Ok(x)) => if arr_len(arg) < 3 {
                        None
                    } else {
                        match sp_val(s, d, spec_pcdr(arg)) {
                            None => None,
                            Some(Err(e)) => Some(Err(e)),
                            Some(Ok(s1)) => Some(Ok(push_op(s1, Op::Store(x)))),
                        }
                    },
                }
            }
        } else {
            match sp_val(s, d, n) {
                None => None,
                Some(Err(e)) => Some(Err(e)),
                Some(Ok(s1)) => Some(Ok(push_op(s1, Op::Pop))),
            }
        }
    }
}

/// Truncating a position to 32 bits never makes it larger.
pub proof fn lemma_trunc_le(x: usize)
    ensures
        (x as u32) as int <= x as int,
{
    assert(x as u32 <= x) by (bit_vector);
}

/// The specialiser of stage E: lays out an object program as straight code over slots,
/// replacing boxes that do not escape by slots and inlining closures whose callee is static.
pub struct Comp<'a> {
    pub code: Vec<Op>,
    pub env: Vec<(i64, Bind)>,
    pub nslots: u32,
    /// For each closure: its parameter, its body, and how many bindings it closes over.
    pub fns: Vec<(i64, &'a Json, usize)>,
    pub depth: u32,
}

impl<'a> Comp<'a> {
    /// The state, with closure bodies by value.
    pub open spec fn view(&self) -> CompS {
        CompS {
            code: self.code@,
            env: self.env@,
            nslots: self.nslots,
            fns: Seq::new(self.fns@.len(), |i: int| (self.fns@[i].0, *self.fns@[i].1, self.fns@[i].2)),
        }
    }

    /// An empty specialiser.
    pub fn new() -> (r: Comp<'a>)
        ensures
            r@ == (CompS { code: Seq::empty(), env: Seq::empty(), nslots: 0, fns: Seq::empty() }),
            r.depth == 0,
    {
        let r = Comp { code: Vec::new(), env: Vec::new(), nslots: 0, fns: Vec::new(), depth: 0 };
        assert(r@ =~= (CompS { code: Seq::empty(), env: Seq::empty(), nslots: 0, fns: Seq::empty() }));
        r
    }

    /// A fresh slot.
    pub fn slot(&mut self) -> (r: u32)
        requires
            old(self).nslots < u32::MAX,
        ensures
            slot_s(old(self)@) == Some((final(self)@, r)),
            final(self).depth == old(self).depth,
            final(self).fns == old(self).fns,
    {
        let s = self.nslots;
        self.nslots += 1;
        assert(self@ =~= slot_s(old(self)@).unwrap().0);
        s
    }

    /// The binding of `id` made last.
    pub fn look(&self, id: i64) -> (r: Option<Bind>)
        ensures
            r == look_s(self.env@, id),
    {
        let mut i = self.env.len();
        assert(self.env@.take(i as int) =~= self.env@);
        while i > 0
            invariant
                i <= self.env@.len(),
                look_s(self.env@, id) == look_s(self.env@.take(i as int), id),
            decreases i,
        {
            i -= 1;
            assert(self.env@.take(i + 1).drop_last() =~= self.env@.take(i as int));
            if self.env[i].0 == id {
                return Some(self.env[i].1);
            }
        }
        None
    }

    /// The next position in the code.
    pub fn here(&self) -> (r: u32)
        ensures
            r == here_s(self@),
    {
        self.code.len() as u32
    }

    /// The slot of the box that handle `h` names.
    pub fn box_slot(&self, h: &Json) -> (r: Result<u32, CompileError>)
        requires
            sp_box(self@, *h) is Some,
        ensures
            sp_box(self@, *h) == Some(r),
    {
        if !is_p(h) || pnum(pcar(h)) != VAR {
            return Err(CompileError::HandleNotVar);
        }
        match self.look(pnum(pcdr(h))) {
            Some(Bind::Boxed(s)) => Ok(s),
            _ => Err(CompileError::HandleNotStatic),
        }
    }
}

impl<'a> Comp<'a> {
    /// Binds `arg` = `(id, (val, body))` without laying out the body; gives the id and how it
    /// was bound (`"fn"`, `"box"` or `"val"`).
    pub fn bind_let(&mut self, arg: &'a Json) -> (r: Result<(i64, &'static str), CompileError>)
        requires
            sp_let(old(self)@, old(self).depth, *arg) is Some,
        ensures
            final(self).depth == old(self).depth,
            final(self).code@.len() >= old(self).code@.len(),
            match r {
                Ok((id, k)) => sp_let(old(self)@, old(self).depth, *arg) matches Some(Ok((s2, id2, kk)))
                    && s2 == final(self)@ && id2 == id && k == kind_word(kk),
                Err(e) => sp_let(old(self)@, old(self).depth, *arg) == Some(Err::<(CompS, i64, nat), CompileError>(e)),
            },
        decreases 8 - old(self).depth, *arg, 2int,
    {
        proof {
            lemma_parts(*arg);
            lemma_parts(spec_pcdr(*arg));
        }
        let id = pnum(pcar(arg));
        let rest = pcdr(arg);
        let val = pcar(rest);
        if is_p(val) && pnum(pcar(val)) == OFN {
            let param = pnum(pcar(pcdr(val)));
            let body = pcdr(pcdr(val));
            let elen = self.env.len();
            let ghost f0 = self@.fns;
            self.fns.push((param, body, elen));
            assert(self@.fns =~= f0.push((param, *body, elen)));
            let fi = (self.fns.len() - 1) as u32;
            self.env.push((id, Bind::Fn(fi)));
            return Ok((id, "fn"));
        }
        let s = self.slot();
        proof {
            if spec_is_p(*val) {
                lemma_parts(*val);
            }
        }
        if is_p(val) && pnum(pcar(val)) == NEWBOX {
            match self.emit_val(pcdr(val)) {
                Err(e) => return Err(e),
                Ok(()) => {},
            }
            self.code.push(Op::Store(s));
            self.env.push((id, Bind::Boxed(s)));
            Ok((id, "box"))
        } else {
            match self.emit_val(val) {
                Err(e) => return Err(e),
                Ok(()) => {},
            }
            self.code.push(Op::Store(s));
            self.env.push((id, Bind::Slot(s)));
            Ok((id, "val"))
        }
    }

    /// Inlines the application `arg` = `(callee, argument)` where the callee is statically a
    /// closure; the body reads the bindings the closure was defined with.
    pub fn inline_call(&mut self, arg: &'a Json) -> (r: Result<(), CompileError>)
        requires
            sp_call(old(self)@, old(self).depth, *arg) is Some,
        ensures
            final(self).depth == old(self).depth,
            final(self).code@.len() >= old(self).code@.len(),
            match r {
                Ok(()) => sp_call(old(self)@, old(self).depth, *arg) == Some(Ok::<CompS, CompileError>(final(self)@)),
                Err(e) => sp_call(old(self)@, old(self).depth, *arg) == Some(Err::<CompS, CompileError>(e)),
            },
        decreases 8 - old(self).depth, *arg, 2int,
    {
        proof {
            lemma_parts(*arg);
        }
        let f = pcar(arg);
        if !is_p(f) || pnum(pcar(f)) != VAR {
            return Err(CompileError::CalleeNotVar);
        }
        let idx = match self.look(pnum(pcdr(f))) {
            Some(Bind::Fn(i)) => i,
            _ => return Err(CompileError::CalleeNotStatic),
        };
        if self.depth >= 8 {
            return Err(CompileError::TooDeep);
        }
        let (param, body, elen) = self.fns[idx as usize];
        assert(self@.fns[idx as int] == (param, *body, elen));
        match self.emit_val(pcdr(arg)) {
            Err(e) => return Err(e),
            Ok(()) => {},
        }
        let s = self.slot();
        self.code.push(Op::Store(s));
        let ghost s2 = self@;
        let mut caller = self.env.split_off(elen);
        let ghost caller0 = caller@;
        self.env.push((param, Bind::Slot(s)));
        self.depth += 1;
        let ghost s4 = self@;
        assert(s4 =~= (CompS {
            code: s2.code,
            env: s2.env.take(elen as int).push((param, Bind::Slot(s))),
            nslots: s2.nslots,
            fns: s2.fns,
        }));
        let r = self.emit_val(body);
        let ghost s5 = self@;
        self.env.truncate(elen);
        self.env.append(&mut caller);
        self.depth -= 1;
        assert(r is Ok ==> self@ =~= with_env(s5, trunc_env(s5.env, elen as int) + caller0));
        r
    }

    /// Lays out node `n` so that it leaves exactly one value on the stack.
    pub fn emit_val(&mut self, n: &'a Json) -> (r: Result<(), CompileError>)
        requires
            sp_val(old(self)@, old(self).depth, *n) is Some,
        ensures
            final(self).depth == old(self).depth,
            final(self).code@.len() >= old(self).code@.len(),
            match r {
                Ok(()) => sp_val(old(self)@, old(self).depth, *n) == Some(Ok::<CompS, CompileError>(final(self)@)),
                Err(e) => sp_val(old(self)@, old(self).depth, *n) == Some(Err::<CompS, CompileError>(e)),
            },
        decreases 8 - old(self).depth, *n, 0int,
    {
        if !is_p(n) {
            return Err(CompileError::NotNode);
        }
        proof {
            lemma_parts(*n);
        }
        let tag = pnum(pcar(n));
        let arg = pcdr(n);
        if tag == LIT {
            let k = pnum(arg);
            self.code.push(Op::Lit(k));
        } else if tag == ADD || tag == SUB || tag == EQ || tag == CONS {
            proof {
                lemma_parts(*arg);
            }
            match self.emit_val(pcar(arg)) {
                Err(e) => return Err(e),
                Ok(()) => {},
            }
            match self.emit_val(pcdr(arg)) {
                Err(e) => return Err(e),
                Ok(()) => {},
            }
            self.code.push(
                if tag == ADD {
                    Op::Add
                } else if tag == SUB {
                    Op::Sub
                } else if tag == EQ {
                    Op::Eq
                } else {
                    Op::Cons
                },
            );
        } else if tag == NIL {
            self.code.push(Op::NilV);
        } else if tag == CAR || tag == CDR || tag == PAIRP {
            match self.emit_val(arg) {
                Err(e) => return Err(e),
                Ok(()) => {},
            }
            self.code.push(
                if tag == CAR {
                    Op::Car
                } else if tag == CDR {
                    Op::Cdr
                } else {
                    Op::IsPair
                },
            );
        } else if tag == VAR {
            match self.look(pnum(arg)) {
                Some(Bind::Slot(s)) => self.code.push(Op::Load(s)),
                Some(Bind::Boxed(_)) => return Err(CompileError::BoxAsValue),
                Some(Bind::Fn(_)) => return Err(CompileError::FnAsValue),
                None => return Err(CompileError::Unbound(pnum(arg))),
            }
        } else if tag == OAPP {
            return self.inline_call(arg);
        } else if tag == OFN {
            return Err(CompileError::FnOutsideLet);
        } else if tag == LET {
            proof {
                lemma_parts(*arg);
            }
            match self.bind_let(arg) {
                Err(e) => return Err(e),
                Ok(_) => {},
            }
            proof {
                lemma_parts(spec_pcdr(*arg));
            }
            match self.emit_val(pcdr(pcdr(arg))) {
                Err(e) => return Err(e),
                Ok(()) => {},
            }
            self.env.pop();
        } else if tag == IF {
            proof {
                lemma_parts(*arg);
            }
            match self.emit_val(pcar(arg)) {
                Err(e) => return Err(e),
                Ok(()) => {},
            }
            proof {
                lemma_parts(spec_pcdr(*arg));
            }
            let jf = self.here();
            proof { lemma_trunc_le(self.code@.len() as usize); }
            self.code.push(Op::Jz(0));
            match self.emit_val(pcar(pcdr(arg))) {
                Err(e) => return Err(e),
                Ok(()) => {},
            }
            let je = self.here();
            proof { lemma_trunc_le(self.code@.len() as usize); }
            self.code.push(Op::Jmp(0));
            let h1 = self.here();
            self.code.set(jf as usize, Op::Jz(h1));
            match self.emit_val(pcdr(pcdr(arg))) {
                Err(e) => return Err(e),
                Ok(()) => {},
            }
            let h2 = self.here();
            self.code.set(je as usize, Op::Jmp(h2));
        } else if tag == GETBOX {
            let s = match self.box_slot(arg) {
                Err(e) => return Err(e),
                Ok(s) => s,
            };
            self.code.push(Op::Load(s));
        } else if tag == SETBOX {
            proof {
                lemma_parts(*arg);
            }
            let s = match self.box_slot(pcar(arg)) {
                Err(e) => return Err(e),
                Ok(s) => s,
            };
            match self.emit_val(pcdr(arg)) {
                Err(e) => return Err(e),
                Ok(()) => {},
            }
            self.code.push(Op::Dup);
            self.code.push(Op::Store(s));
        } else if tag == WHILE {
            let it = self.slot();
            proof {
                lemma_parts(*arg);
            }
            self.code.push(Op::Lit(0));
            self.code.push(Op::Store(it));
            let top = self.here();
            match self.emit_val(pcar(arg)) {
                Err(e) => return Err(e),
                Ok(()) => {},
            }
            let jf = self.here();
            proof { lemma_trunc_le(self.code@.len() as usize); }
            self.code.push(Op::Jz(0));
            match self.emit_eff(pcdr(arg)) {
                Err(e) => return Err(e),
                Ok(()) => {},
            }
            self.code.push(Op::Load(it));
            self.code.push(Op::Lit(1));
            self.code.push(Op::Add);
            self.code.push(Op::Store(it));
            self.code.push(Op::Jmp(top));
            let h = self.here();
            self.code.set(jf as usize, Op::Jz(h));
            self.code.push(Op::Load(it));
        } else if tag == NEWBOX {
            return Err(CompileError::NewboxOutsideLet);
        } else {
            return Err(CompileError::NoTag(tag));
        }
        Ok(())
    }

    /// Lays out node `n` for its effect only, leaving nothing on the stack.
    pub fn emit_eff(&mut self, n: &'a Json) -> (r: Result<(), CompileError>)
        requires
            sp_eff(old(self)@, old(self).depth, *n) is Some,
        ensures
            final(self).depth == old(self).depth,
            final(self).code@.len() >= old(self).code@.len(),
            match r {
                Ok(()) => sp_eff(old(self)@, old(self).depth, *n) == Some(Ok::<CompS, CompileError>(final(self)@)),
                Err(e) => sp_eff(old(self)@, old(self).depth, *n) == Some(Err::<CompS, CompileError>(e)),
            },
        decreases 8 - old(self).depth, *n, 1int,
    {
        if !is_p(n) {
            return Err(CompileError::NotNode);
        }
        proof {
            lemma_parts(*n);
        }
        let tag = pnum(pcar(n));
        let arg = pcdr(n);
        if tag == CONS {
            proof {
                lemma_parts(*arg);
            }
            match self.emit_eff(pcar(arg)) {
                Err(e) => return Err(e),
                Ok(()) => {},
            }
            match self.emit_eff(pcdr(arg)) {
                Err(e) => return Err(e),
                Ok(()) => {},
            }
        } else if tag == LET {
            proof {
                lemma_parts(*arg);
            }
            match self.bind_let(arg) {
                Err(e) => return Err(e),
                Ok(_) => {},
            }
            proof {
                lemma_parts(spec_pcdr(*arg));
            }
            match self.emit_eff(pcdr(pcdr(arg))) {
                Err(e) => return Err(e),
                Ok(()) => {},
            }
            self.env.pop();
        } else if tag == SETBOX {
            proof {
                lemma_parts(*arg);
            }
            let s = match self.box_slot(pcar(arg)) {
                Err(e) => return Err(e),
                Ok(s) => s,
            };
            match self.emit_val(pcdr(arg)) {
                Err(e) => return Err(e),
                Ok(()) => {},
            }
            self.code.push(Op::Store(s));
        } else {
            match self.emit_val(n) {
                Err(e) => return Err(e),
                Ok(()) => {},
            }
            self.code.push(Op::Pop);
        }
        Ok(())
    }
}

/// The state of the machine of stage E.
pub struct EState {
    pub pc: int,
    pub st: Seq<Val>,
    pub sl: Seq<Val>,
    pub ar: Seq<(Val, Val)>,
}

/// The state with the program counter at `pc`, the stack `st` and the slots `sl`.
pub open spec fn egoto(m: EState, pc: int, st: Seq<Val>, sl: Seq<Val>) -> EState {
    EState { pc, st, sl, ar: m.ar }
}

/// One instruction at `m.pc`; `None` where it cannot run (an empty stack, a slot out of range,
/// arithmetic on a non-integer, a pair operation on a non-pair, a full arena).
pub open spec fn step_e(code: Seq<Op>, m: EState) -> Option<EState> {
    let n = m.st.len();
    let pc = m.pc;
    if pc < 0 || pc >= code.len() {
        None
    } else {
        match code[pc] {
            Op::Lit(k) => Some(egoto(m, pc + 1, m.st.push(Val::I(k)), m.sl)),
            Op::Load(s) => if s < m.sl.len() {
                Some(egoto(m, pc + 1, m.st.push(m.sl[s as int]), m.sl))
            } else {
                None
            },
            Op::Store(s) => if n >= 1 && s < m.sl.len() {
                Some(egoto(m, pc + 1, m.st.take(n - 1), m.sl.update(s as int, m.st[n - 1])))
            } else {
                None
            },
            Op::Dup => if n >= 1 {
                Some(egoto(m, pc + 1, m.st.push(m.st[n - 1]), m.sl))
            } else {
                None
            },
            Op::Pop => Some(egoto(m, pc + 1, if n > 0 { m.st.take(n - 1) } else { m.st }, m.sl)),
            Op::Add | Op::Sub => if n >= 2 {
                match (m.st[n - 2], m.st[n - 1]) {
                    (Val::I(x), Val::I(y)) => Some(egoto(m, pc + 1, m.st.take(n - 2).push(
                        Val::I(if code[pc] is Add { x.wrapping_add(y) } else { x.wrapping_sub(y) }),
                    ), m.sl)),
                    _ => None,
                }
            } else {
                None
            },
            Op::Eq => if n >= 2 {
                Some(egoto(m, pc + 1, m.st.take(n - 2).push(flag(vv(m.ar, m.st[n - 2]) == vv(m.ar, m.st[n - 1]))), m.sl))
            } else {
                None
            },
            Op::NilV => Some(egoto(m, pc + 1, m.st.push(Val::Nil), m.sl)),
            Op::Cons => if n >= 2 && m.ar.len() < 0xffff_ffff {
                Some(EState {
                    pc: pc + 1,
                    st: m.st.take(n - 2).push(Val::P(m.ar.len() as u32)),
                    sl: m.sl,
                    ar: m.ar.push((m.st[n - 2], m.st[n - 1])),
                })
            } else {
                None
            },
            Op::Car | Op::Cdr => if n >= 1 {
                match m.st[n - 1] {
                    Val::P(c) => if c < m.ar.len() {
                        Some(egoto(m, pc + 1, m.st.take(n - 1).push(
                            if code[pc] is Car { m.ar[c as int].0 } else { m.ar[c as int].1 },
                        ), m.sl))
                    } else {
                        None
                    },
                    _ => None,
                }
            } else {
                None
            },
            Op::IsPair => if n >= 1 {
                Some(egoto(m, pc + 1, m.st.take(n - 1).push(flag(m.st[n - 1] is P)), m.sl))
            } else {
                None
            },
            Op::Jz(t) => if n >= 1 {
                Some(egoto(m, if m.st[n - 1] == Val::I(0) { t as int } else { pc + 1 }, m.st.take(n - 1), m.sl))
            } else {
                None
            },
            Op::Jmp(t) => Some(egoto(m, t as int, m.st, m.sl)),
        }
    }
}

/// Running from `m` until the program counter leaves the code, in at most `n` steps: the final
/// state and the instructions run.
pub open spec fn run_e_n(code: Seq<Op>, m: EState, n: nat) -> Option<(EState, nat)>
    decreases n,
{
    if m.pc < 0 || m.pc >= code.len() {
        Some((m, 0))
    } else if n == 0 {
        None
    } else {
        match step_e(code, m) {
            Some(m2) => match run_e_n(code, m2, (n - 1) as nat) {
                Some((f, i)) => Some((f, i + 1)),
                None => None,
            },
            None => None,
        }
    }
}

/// The starting state: `nslots` slots holding zero, an empty stack.
pub open spec fn start_e(nslots: u32, ar: Seq<(Val, Val)>) -> EState {
    EState { pc: 0, st: Seq::empty(), sl: Seq::new(nslots as nat, |i: int| Val::I(0)), ar }
}

/// The run of `code` where it stops: the final state and the instructions run; `None` where it
/// gets stuck or never stops.
pub open spec fn run_e_spec(code: Seq<Op>, nslots: u32, ar: Seq<(Val, Val)>) -> Option<(EState, nat)> {
    let m = start_e(nslots, ar);
    if exists|n: nat| #[trigger] run_e_n(code, m, n) is Some {
        run_e_n(code, m, choose|n: nat| #[trigger] run_e_n(code, m, n) is Some)
    } else {
        None
    }
}

/// The value a finished run leaves: the top of the stack, or zero for an empty stack.
pub open spec fn result_e(m: EState) -> Val {
    if m.st.len() > 0 {
        m.st.last()
    } else {
        Val::I(0)
    }
}

/// A run's outcome does not depend on how many steps it was allowed, once it stops.
pub proof fn lemma_run_e_unique(code: Seq<Op>, m: EState, n1: nat, n2: nat)
    requires
        run_e_n(code, m, n1) is Some,
        run_e_n(code, m, n2) is Some,
    ensures
        run_e_n(code, m, n1) == run_e_n(code, m, n2),
    decreases n1,
{
    if 0 <= m.pc < code.len() && n1 > 0 && n2 > 0 {
        lemma_run_e_unique(code, step_e(code, m).unwrap(), (n1 - 1) as nat, (n2 - 1) as nat);
    }
}

/// The machine's values refer only to existing cells, each cell only to earlier ones.
pub open spec fn sound_e(m: EState) -> bool {
    &&& wf_arena(m.ar)
    &&& stack_below(m.st, m.ar.len() as int)
    &&& stack_below(m.sl, m.ar.len() as int)
}

/// A step keeps the machine sound and only adds cells.
pub proof fn lemma_step_e_sound(code: Seq<Op>, m: EState)
    requires
        sound_e(m),
        step_e(code, m) is Some,
    ensures
        sound_e(step_e(code, m).unwrap()),
        is_prefix(m.ar, step_e(code, m).unwrap().ar),
        step_e(code, m).unwrap().sl.len() == m.sl.len(),
{
    let m2 = step_e(code, m).unwrap();
    let n = m.st.len();
    lemma_prefix_refl(m.ar);
    match code[m.pc] {
        Op::Cons => {
            lemma_push_wf(m.ar, m.st[n - 2], m.st[n - 1]);
            assert(below(m.st[n - 2], m.ar.len() as int));
            assert(below(m.st[n - 1], m.ar.len() as int));
            assert(is_prefix(m.ar, m2.ar));
            assert forall|i: int| 0 <= i < m2.sl.len() implies below(#[trigger] m2.sl[i], m2.ar.len() as int) by {
                assert(below(m.sl[i], m.ar.len() as int));
            }
        },
        Op::Car | Op::Cdr => {
            if let Val::P(c) = m.st[n - 1] {
                assert(below(m.ar[c as int].0, c as int));
            }
        },
        Op::Load(s) => {
            assert(below(m.sl[s as int], m.ar.len() as int));
        },
        Op::Store(s) => {
            assert(below(m.st[n - 1], m.ar.len() as int));
        },
        Op::Dup => {
            assert(below(m.st[n - 1], m.ar.len() as int));
        },
        _ => {},
    }
}

/// The machine state the running variables of `run_e` stand for.
pub open spec fn estate(pc: usize, st: Seq<Val>, sl: Seq<Val>, ar: Seq<(Val, Val)>) -> EState {
    EState { pc: pc as int, st, sl, ar }
}

/// Runs the instruction at `pc`, as `step_e` says.
fn step_e_exec(code: &[Op], pc: &mut usize, st: &mut Vec<Val>, sl: &mut Vec<Val>, ar: &mut Arena)
    requires
        sound_e(estate(*old(pc), old(st)@, old(sl)@, old(ar)@)),
        step_e(code@, estate(*old(pc), old(st)@, old(sl)@, old(ar)@)) is Some,
    ensures
        step_e(code@, estate(*old(pc), old(st)@, old(sl)@, old(ar)@))
            == Some(estate(*final(pc), final(st)@, final(sl)@, final(ar)@)),
{
    let i = *pc;
    let ghost n = st@.len() as int;
    let ghost st0 = st@;
    match code[i] {
        Op::Lit(k) => st.push(Val::I(k)),
        Op::Load(s) => {
            let v = sl[s as usize];
            st.push(v);
        },
        Op::Store(s) => {
            let v = st.pop().unwrap();
            assert(st@ =~= st0.take(n - 1));
            sl.set(s as usize, v);
        },
        Op::Dup => {
            let v = *st.last().unwrap();
            st.push(v);
        },
        Op::Pop => {
            st.pop();
            assert(n > 0 ==> st@ =~= st0.take(n - 1));
        },
        Op::Add | Op::Sub => {
            let is_add = code[i] == Op::Add;
            let b = st.pop().unwrap();
            let a = st.pop().unwrap();
            assert(st@ =~= st0.take(n - 2));
            match (a, b) {
                (Val::I(x), Val::I(y)) => st.push(Val::I(if is_add { x.wrapping_add(y) } else { x.wrapping_sub(y) })),
                _ => {
                    proof { assert(false); }
                },
            }
        },
        Op::Eq => {
            let b = st.pop().unwrap();
            let a = st.pop().unwrap();
            assert(st@ =~= st0.take(n - 2));
            assert(below(st0[n - 2], ar@.len() as int) && below(st0[n - 1], ar@.len() as int));
            let e = eq_v(ar, a, b);
            st.push(Val::I(if e { 1 } else { 0 }));
        },
        Op::NilV => st.push(Val::Nil),
        Op::Cons => {
            let d = st.pop().unwrap();
            let a = st.pop().unwrap();
            assert(st@ =~= st0.take(n - 2));
            let p = cons_a(ar, a, d);
            st.push(p);
        },
        Op::Car | Op::Cdr => {
            let is_car = code[i] == Op::Car;
            let v = st.pop().unwrap();
            assert(st@ =~= st0.take(n - 1));
            match v {
                Val::P(c) => {
                    let cell = ar[c as usize];
                    st.push(if is_car { cell.0 } else { cell.1 });
                },
                _ => {
                    proof { assert(false); }
                },
            }
        },
        Op::IsPair => {
            let v = st.pop().unwrap();
            assert(st@ =~= st0.take(n - 1));
            st.push(Val::I(if let Val::P(_) = v { 1 } else { 0 }));
        },
        Op::Jz(t) => {
            let v = st.pop().unwrap();
            assert(st@ =~= st0.take(n - 1));
            if !truthy_v(v) {
                *pc = t as usize;
                return;
            }
        },
        Op::Jmp(t) => {
            *pc = t as usize;
            return;
        },
    }
    *pc = i + 1;
}

/// Runs specialised code over `nslots` slots starting at zero, counting each instruction run
/// into `count`, and gives the value left on top of the stack (zero if none).
pub fn run_e(code: &[Op], nslots: u32, ar: &mut Arena, count: &mut u64) -> (r: Val)
    requires
        run_e_spec(code@, nslots, old(ar)@) is Some,
        wf_arena(old(ar)@),
        *old(count) + run_e_spec(code@, nslots, old(ar)@).unwrap().1 <= u64::MAX,
    ensures
        wf_arena(final(ar)@),
        is_prefix(old(ar)@, final(ar)@),
        final(ar)@ == run_e_spec(code@, nslots, old(ar)@).unwrap().0.ar,
        *final(count) == *old(count) + run_e_spec(code@, nslots, old(ar)@).unwrap().1,
        r == result_e(run_e_spec(code@, nslots, old(ar)@).unwrap().0),
{
    let ghost m0 = start_e(nslots, ar@);
    let ghost n0 = choose|n: nat| #[trigger] run_e_n(code@, m0, n) is Some;
    let ghost fin = run_e_n(code@, m0, n0).unwrap();
    let ghost ar0 = ar@;
    let ghost c0 = *count;
    proof { lemma_prefix_refl(ar0); }
    let mut sl: Vec<Val> = Vec::new();
    while sl.len() < nslots as usize
        invariant
            sl@.len() <= nslots,
            forall|i: int| 0 <= i < sl@.len() ==> #[trigger] sl@[i] == Val::I(0),
        decreases nslots - sl@.len(),
    {
        sl.push(Val::I(0));
    }
    assert(sl@ =~= Seq::new(nslots as nat, |i: int| Val::I(0)));
    let mut st: Vec<Val> = Vec::with_capacity(32);
    let mut pc: usize = 0;
    let ghost mut nr: nat = n0;
    let ghost mut gi: nat = 0;
    while pc < code.len()
        invariant
            sound_e(estate(pc, st@, sl@, ar@)),
            is_prefix(ar0, ar@),
            gi <= fin.1,
            run_e_n(code@, estate(pc, st@, sl@, ar@), nr) == Some((fin.0, (fin.1 - gi) as nat)),
            c0 + fin.1 <= u64::MAX,
            *count == c0 + gi,
        decreases nr,
    {
        let ghost cur = estate(pc, st@, sl@, ar@);
        *count += 1;
        let ghost ar1 = ar@;
        proof { lemma_step_e_sound(code@, cur); }
        step_e_exec(code, &mut pc, &mut st, &mut sl, ar);
        proof {
            lemma_prefix_trans(ar0, ar1, ar@);
            nr = (nr - 1) as nat;
            gi = gi + 1;
        }
    }
    proof {
        lemma_run_e_unique(code@, m0, n0, choose|n: nat| #[trigger] run_e_n(code@, m0, n) is Some);
    }
    match st.pop() {
        Some(v) => v,
        None => Val::I(0),
    }
}

} // verus!
