use vstd::prelude::*;
use crate::json::{Json, is_p, pcar, pcdr, pnum, spec_is_p, spec_pcdr};
use crate::leb::spec_sleb;
use crate::ntag::{ADD, CAR, CDR, CONS, EQ, GETBOX, IF, LET, LIT, NEWBOX, NIL, OAPP, OFN, PAIRP, SETBOX, SUB, VAR, WHILE};
use crate::stage_e::{Bind, lemma_parts};
use crate::stage_g::{
    GS, GenError, Kind, Site, WComp, Where, consume_s, emit_bytes, memop_s, opu_s, outer_find, put1, put2, put3, put4,
    put5, put_s, put_u, sp_app_g, sp_both_g, sp_cons_g, sp_cxr_g, sp_eff_g, sp_if_g, sp_let_g, sp_seteff_g, sp_val_g,
    sp_while_g, ub, var_g, scan_owned, sp_cells_g, cell_tail_s, lemma_static_str_len, static_str_s, sp_arith_g, sp_setval_g,
};

verus! {

impl<'a> WComp<'a> {
    /// Binds `arg` = `(id, (val, body))` without the body; see `sp_let_g`.
    #[verifier::rlimit(100)]
    #[verifier::spinoff_prover]
    pub fn bind_let(&mut self, arg: &'a Json) -> (r: Result<(), GenError>)
        requires
            sp_let_g(old(self)@, old(self).depth, *arg) is Some,
        ensures
            final(self).depth == old(self).depth,
            final(self).b@.len() >= old(self).b@.len(),
            match r {
                Ok(()) => sp_let_g(old(self)@, old(self).depth, *arg) == Some(Ok::<GS, GenError>(final(self)@)),
                Err(e) => sp_let_g(old(self)@, old(self).depth, *arg) == Some(Err::<GS, GenError>(e)),
            },
        decreases 8 - old(self).depth, *arg, 2int,
    {
        proof {
            reveal(sp_let_g);
        }
        proof {
            lemma_parts(*arg);
            lemma_parts(spec_pcdr(*arg));
        }
        let id = pnum(pcar(arg));
        let val = pcar(pcdr(arg));
        if is_p(val) && pnum(pcar(val)) == OFN {
            let param = pnum(pcar(pcdr(val)));
            let body = pcdr(pcdr(val));
            let elen = self.env.len();
            let ghost f0 = self@.fns;
            self.fns.push((param, body, elen));
            assert(self@.fns =~= f0.push((param, *body, elen)));
            let fi = (self.fns.len() - 1) as u32;
            self.env.push((id, Bind::Fn(fi)));
            assert(self@ =~= sp_let_g(old(self)@, old(self).depth, *arg).unwrap().unwrap());
            return Ok(());
        }
        proof {
            if spec_is_p(*val) {
                lemma_parts(*val);
            }
        }
        let boxed = is_p(val) && pnum(pcar(val)) == NEWBOX;
        let k = match self.emit_val(if boxed { pcdr(val) } else { val }) {
            Err(e) => return Err(e),
            Ok(k) => k,
        };
        let s = self.slot();
        self.op_u(0x21, s);
        self.set_kind(s, k);
        if self.own > 0 && boxed && k == Kind::List {
            if let Some(r) = self.root {
                if scan_owned(r, id, 0) {
                    self.set_owned(s, id);
                }
            }
        }
        self.env.push((id, if boxed { Bind::Boxed(s) } else { Bind::Slot(s) }));
        if self.own == 2 && boxed && k == Kind::List && self.is_owned(s) {
            let (hp, _, _) = self.heap_locals();
            let mark = self.slot();
            self.op_u(0x20, hp);
            self.op_u(0x21, mark);
            self.regions.push((mark, s));
        }
        assert(self@ =~= sp_let_g(old(self)@, old(self).depth, *arg).unwrap().unwrap());
        Ok(())
    }

    /// Lays out both arms of a value branch into slot `sv`; see `sp_both_g`.
    #[verifier::rlimit(100)]
    #[verifier::spinoff_prover]
    pub fn emit_both(&mut self, arg: &'a Json, sv: u32) -> (r: Result<(Kind, Kind), GenError>)
        requires
            sp_both_g(old(self)@, old(self).depth, *arg, sv) is Some,
        ensures
            final(self).depth == old(self).depth,
            final(self).b@.len() >= old(self).b@.len(),
            match r {
                Ok((t, f)) => sp_both_g(old(self)@, old(self).depth, *arg, sv) == Some(Ok::<(GS, Kind, Kind), GenError>((final(self)@, t, f))),
                Err(e) => sp_both_g(old(self)@, old(self).depth, *arg, sv) == Some(Err::<(GS, Kind, Kind), GenError>(e)),
            },
        decreases 8 - old(self).depth, *arg, 2int,
    {
        proof {
            reveal(sp_both_g);
        }
        proof {
            lemma_parts(*arg);
            lemma_parts(spec_pcdr(*arg));
        }
        let t = match self.emit_val(pcar(pcdr(arg))) {
            Err(e) => return Err(e),
            Ok(k) => k,
        };
        let ghost s1 = self@;
        self.op_u(0x21, sv);
        self.op_u(0x0C, 1);
        self.op(0x0B);
        assert(self@ =~= emit_bytes(s1, ub(0x21, sv) + ub(0x0C, 1) + seq![0x0Bu8]));
        let f = match self.emit_val(pcdr(pcdr(arg))) {
            Err(e) => return Err(e),
            Ok(k) => k,
        };
        let ghost s3 = self@;
        self.op_u(0x21, sv);
        self.op(0x0B);
        assert(self@ =~= emit_bytes(s3, ub(0x21, sv) + seq![0x0Bu8]));
        Ok((t, f))
    }

    /// Inlines the application `arg`; see `sp_app_g`.
    #[verifier::rlimit(100)]
    #[verifier::spinoff_prover]
    pub fn emit_app(&mut self, arg: &'a Json) -> (r: Result<Kind, GenError>)
        requires
            sp_app_g(old(self)@, old(self).depth, *arg) is Some,
        ensures
            final(self).depth == old(self).depth,
            final(self).b@.len() >= old(self).b@.len(),
            match r {
                Ok(k) => sp_app_g(old(self)@, old(self).depth, *arg) == Some(Ok::<(GS, Kind), GenError>((final(self)@, k))),
                Err(e) => sp_app_g(old(self)@, old(self).depth, *arg) == Some(Err::<(GS, Kind), GenError>(e)),
            },
        decreases 8 - old(self).depth, *arg, 2int,
    {
        proof {
            reveal(sp_app_g);
        }
        proof {
            lemma_parts(*arg);
        }
        let f = pcar(arg);
        if !is_p(f) || pnum(pcar(f)) != VAR {
            return Err(GenError::CalleeNotVar);
        }
        let idx = match self.look(pnum(pcdr(f))) {
            Some(Bind::Fn(i)) => i,
            _ => return Err(GenError::CalleeNotStatic),
        };
        if self.depth >= 8 {
            return Err(GenError::TooDeep);
        }
        let (param, body, elen) = self.fns[idx as usize];
        assert(self@.fns[idx as int] == (param, *body, elen));
        let ka = match self.emit_val(pcdr(arg)) {
            Err(e) => return Err(e),
            Ok(k) => k,
        };
        let s = self.slot();
        self.op_u(0x21, s);
        self.set_kind(s, ka);
        let ghost s3 = self@;
        let mut caller = self.env.split_off(elen);
        let ghost caller0 = caller@;
        self.env.push((param, Bind::Slot(s)));
        assert(self@ =~= (GS { env: s3.env.take(elen as int).push((param, Bind::Slot(s))), ..s3 }));
        self.depth += 1;
        let r = self.emit_val(body);
        self.depth -= 1;
        let ghost s5 = self@;
        self.env.truncate(elen);
        self.env.append(&mut caller);
        assert(r is Ok ==> self@ =~= (GS { env: crate::stage_e::trunc_env(s5.env, elen as int) + caller0, ..s5 }));
        r
    }

    /// Lays out a pair as a value; see `sp_cons_g`.
    #[verifier::rlimit(100)]
    #[verifier::spinoff_prover]
    pub fn emit_cons(&mut self, n: &'a Json) -> (r: Result<Kind, GenError>)
        requires
            sp_cons_g(old(self)@, old(self).depth, *n) is Some,
        ensures
            final(self).depth == old(self).depth,
            final(self).b@.len() >= old(self).b@.len(),
            match r {
                Ok(k) => sp_cons_g(old(self)@, old(self).depth, *n) == Some(Ok::<(GS, Kind), GenError>((final(self)@, k))),
                Err(e) => sp_cons_g(old(self)@, old(self).depth, *n) == Some(Err::<(GS, Kind), GenError>(e)),
            },
        decreases 8 - old(self).depth, *n, 2int,
    {
        proof {
            reveal(sp_cons_g);
        }
        if !self.no_intern {
            if let Some(bytes) = Self::as_static_str(n) {
                proof {
                    lemma_static_str_len(*n, Seq::empty());
                }
                let ghost s0 = self@;
                let v = self.intern(bytes.as_slice());
                let ghost s1 = self@;
                self.op(0x42);
                self.sleb_b(v);
                assert(self@ =~= emit_bytes(s1, seq![0x42u8] + spec_sleb(v as int)));
                return Ok(Kind::Str);
            }
        }
        assert(old(self)@.no_intern || static_str_s(*n, Seq::empty()) == Some(None::<Seq<u8>>));
        assert(sp_cons_g(old(self)@, old(self).depth, *n) == sp_cells_g(old(self)@, old(self).depth, *n));
        self.emit_cells(n)
    }

    /// Lays out a pair in cells; see `sp_cells_g`.
    #[verifier::rlimit(100)]
    #[verifier::spinoff_prover]
    pub fn emit_cells(&mut self, n: &'a Json) -> (r: Result<Kind, GenError>)
        requires
            sp_cells_g(old(self)@, old(self).depth, *n) is Some,
        ensures
            final(self).depth == old(self).depth,
            final(self).b@.len() >= old(self).b@.len(),
            match r {
                Ok(k) => sp_cells_g(old(self)@, old(self).depth, *n) == Some(Ok::<(GS, Kind), GenError>((final(self)@, k))),
                Err(e) => sp_cells_g(old(self)@, old(self).depth, *n) == Some(Err::<(GS, Kind), GenError>(e)),
            },
        decreases 8 - old(self).depth, *n, 1int,
    {
        proof {
            reveal(sp_cells_g);
            lemma_parts(*n);
        }
        let arg = pcdr(n);
        proof {
            lemma_parts(*arg);
        }
        let a = match self.emit_val(pcar(arg)) {
            Err(e) => return Err(e),
            Ok(k) => k,
        };
        match Self::want(Kind::Int, a, Site::ConsCar) {
            Err(e) => return Err(e),
            Ok(_) => {},
        }
        let (hp, _, _) = self.heap_locals();
        let ta = self.slot();
        let td = self.slot();
        self.op_u(0x21, ta);
        let d = match self.emit_val(pcdr(arg)) {
            Err(e) => return Err(e),
            Ok(k) => k,
        };
        self.cell_tail(d, arg, hp, ta, td)
    }

    /// The end of a pair laid out in cells; see `cell_tail_s`.
    #[verifier::rlimit(100)]
    #[verifier::spinoff_prover]
    pub fn cell_tail(&mut self, d: Kind, arg: &Json, hp: u32, ta: u32, td: u32) -> (r: Result<Kind, GenError>)
        requires
            cell_tail_s(old(self)@, d, *arg, hp, ta, td) is Some,
            arg is Arr && arg->Arr_0@.len() >= 3,
        ensures
            final(self).depth == old(self).depth,
            final(self).b@.len() >= old(self).b@.len(),
            match r {
                Ok(k) => cell_tail_s(old(self)@, d, *arg, hp, ta, td) == Some(Ok::<(GS, Kind), GenError>((final(self)@, k))),
                Err(e) => cell_tail_s(old(self)@, d, *arg, hp, ta, td) == Some(Err::<(GS, Kind), GenError>(e)),
            },
    {
        proof {
            reveal(cell_tail_s);
        }
        if d == Kind::Str {
            match Self::static_byte(pcar(arg)) {
                Some(_) => {
                    self.emit_str_prepend(hp, ta);
                    return Ok(Kind::Str);
                },
                None => return Err(GenError::PrependNotByte),
            }
        }
        match Self::want(Kind::List, d, Site::ConsCdr) {
            Err(e) => return Err(e),
            Ok(_) => {},
        }
        let ghost s4 = self@;
        self.op_u(0x21, td);
        let ghost s5 = self@;
        let mut v: Vec<u8> = Vec::new();
        put_u(&mut v, 0x20, hp);
        assert(Seq::<u8>::empty() + ub(0x20, hp) =~= ub(0x20, hp));
        put1(&mut v, 0xA7);
        put_u(&mut v, 0x20, ta);
        self.take_bytes(&mut v);
        self.memop(0x37, 0x03, 0);
        let ghost s6 = self@;
        let mut w: Vec<u8> = Vec::new();
        put_u(&mut w, 0x20, hp);
        assert(Seq::<u8>::empty() + ub(0x20, hp) =~= ub(0x20, hp));
        put1(&mut w, 0xA7);
        put_u(&mut w, 0x20, td);
        self.take_bytes(&mut w);
        self.memop(0x37, 0x03, 8);
        let mut x: Vec<u8> = Vec::new();
        put_u(&mut x, 0x20, hp);
        assert(Seq::<u8>::empty() + ub(0x20, hp) =~= ub(0x20, hp));
        put_u(&mut x, 0x20, hp);
        put3(&mut x, 0x42, 0x10, 0x7C);
        put_u(&mut x, 0x21, hp);
        self.take_bytes(&mut x);
        self.emit_peak(hp);
        Ok(Kind::List)
    }
}

impl<'a> WComp<'a> {
    /// `car`, `cdr` or `pair?` (tag `tag`) of `arg`, the cdr of `n`; see `sp_cxr_g`.
    #[verifier::rlimit(100)]
    #[verifier::spinoff_prover]
    pub fn emit_cxr(&mut self, tag: i64, arg: &'a Json, n: &'a Json) -> (r: Result<Kind, GenError>)
        requires
            sp_cxr_g(old(self)@, old(self).depth, tag, *arg, *n) is Some,
        ensures
            final(self).depth == old(self).depth,
            final(self).b@.len() >= old(self).b@.len(),
            match r {
                Ok(k) => sp_cxr_g(old(self)@, old(self).depth, tag, *arg, *n) == Some(Ok::<(GS, Kind), GenError>((final(self)@, k))),
                Err(e) => sp_cxr_g(old(self)@, old(self).depth, tag, *arg, *n) == Some(Err::<(GS, Kind), GenError>(e)),
            },
        decreases 8 - old(self).depth, *n, 2int,
    {
        proof {
            reveal(sp_cxr_g);
        }
        proof {
            lemma_parts(*n);
        }
        let x = match self.emit_val(arg) {
            Err(e) => return Err(e),
            Ok(k) => k,
        };
        let ghost s1 = self@;
        if x != Kind::Str {
            match Self::want(Kind::List, x, Site::CarCdrPairp) {
                Err(e) => return Err(e),
                Ok(_) => {},
            }
            if tag == CAR || tag == CDR {
                self.op(0xA7);
                self.memop(0x29, 0x03, if tag == CAR { 0 } else { 8 });
                return Ok(if tag == CAR { Kind::Int } else { Kind::List });
            } else {
                self.op(0x42);
                self.b.push(0x00);
                self.op(0x52);
                self.op(0xAD);
                assert(self@ =~= emit_bytes(s1, seq![0x42u8, 0x00u8, 0x52u8, 0xADu8]));
                return Ok(Kind::Int);
            }
        }
        if tag == CAR {
            self.op(0x42);
            self.b.push(32);
            self.op(0x88);
            self.op(0xA7);
            let ghost s2 = self@;
            assert(s2 =~= emit_bytes(s1, seq![0x42u8, 32u8, 0x88u8, 0xA7u8]));
            self.memop(0x2D, 0x00, 0);
            self.op(0xAD);
            Ok(Kind::Int)
        } else if tag == CDR {
            let t = self.tmp_str();
            let ghost s2 = self@;
            let mut v: Vec<u8> = Vec::new();
            put_u(&mut v, 0x22, t);
            assert(Seq::<u8>::empty() + ub(0x22, t) =~= ub(0x22, t));
            put1(&mut v, 0x42);
            put_s(&mut v, 0xFFFF_FFFF);
            put3(&mut v, 0x7C, 0x42, 0x00);
            put_u(&mut v, 0x20, t);
            put1(&mut v, 0x42);
            put_s(&mut v, 0xFFFF_FFFF);
            put5(&mut v, 0x83, 0x42, 0x00, 0x52, 0x1B);
            self.take_bytes(&mut v);
            Ok(Kind::Str)
        } else {
            let mut v: Vec<u8> = Vec::new();
            put1(&mut v, 0x42);
            assert(Seq::<u8>::empty() + seq![0x42u8] =~= seq![0x42u8]);
            put_s(&mut v, 0xFFFF_FFFF);
            put5(&mut v, 0x83, 0x42, 0x00, 0x52, 0xAD);
            self.take_bytes(&mut v);
            Ok(Kind::Int)
        }
    }

    /// A variable as a value; see `var_g`.
    #[verifier::spinoff_prover]
    pub fn emit_var(&mut self, id: i64) -> (r: Result<Kind, GenError>)
        requires
            var_g(old(self)@, id) is Some,
        ensures
            final(self).depth == old(self).depth,
            final(self).b@.len() >= old(self).b@.len(),
            match r {
                Ok(k) => var_g(old(self)@, id) == Some(Ok::<(GS, Kind), GenError>((final(self)@, k))),
                Err(e) => var_g(old(self)@, id) == Some(Err::<(GS, Kind), GenError>(e)),
            },
    {
        match self.look(id) {
            Some(Bind::Slot(s)) => {
                let k = self.slot_kind(s);
                self.op_u(0x20, s);
                Ok(k)
            },
            Some(Bind::Fn(_)) => Err(GenError::FnAsValue),
            Some(Bind::Boxed(_)) => Err(GenError::BoxAsValue),
            None => {
                let mut i: usize = 0;
                assert(self.outer@.subrange(0, self.outer@.len() as int) =~= self.outer@);
                while i < self.outer.len()
                    invariant
                        i <= self.outer@.len(),
                        outer_find(self.outer@, id) == outer_find(self.outer@.subrange(i as int, self.outer@.len() as int), id),
                    ensures
                        i == self.outer@.len() || (i < self.outer@.len() && self.outer@[i as int].0 == id),
                    decreases self.outer@.len() - i,
                {
                    assert(self.outer@.subrange(i as int, self.outer@.len() as int).drop_first() =~= self.outer@.subrange(i + 1, self.outer@.len() as int));
                    if self.outer[i].0 == id {
                        break;
                    }
                    i += 1;
                }
                if i == self.outer.len() {
                    assert(self.outer@.subrange(i as int, self.outer@.len() as int) =~= Seq::<(i64, Where)>::empty());
                    return Err(GenError::Unbound(id));
                }
                assert(self.outer@.subrange(i as int, self.outer@.len() as int)[0] == self.outer@[i as int]);
                match self.outer[i].1 {
                    Where::Param(p) => {
                        self.op_u(0x20, p);
                        Ok(Kind::Int)
                    },
                    Where::Mem(x) => {
                        let ghost s0 = self@;
                        self.op(0x41);
                        self.sleb_b((x as i64) * 8);
                        assert(self@ =~= emit_bytes(s0, seq![0x41u8] + spec_sleb((x as i64) as int * 8)));
                        self.memop(0x29, 0x03, 0);
                        Ok(Kind::Int)
                    },
                }
            },
        }
    }

    /// A value branch; see `sp_if_g`.
    #[verifier::rlimit(100)]
    #[verifier::spinoff_prover]
    pub fn emit_if(&mut self, arg: &'a Json, n: &'a Json) -> (r: Result<Kind, GenError>)
        requires
            sp_if_g(old(self)@, old(self).depth, *arg, *n) is Some,
        ensures
            final(self).depth == old(self).depth,
            final(self).b@.len() >= old(self).b@.len(),
            match r {
                Ok(k) => sp_if_g(old(self)@, old(self).depth, *arg, *n) == Some(Ok::<(GS, Kind), GenError>((final(self)@, k))),
                Err(e) => sp_if_g(old(self)@, old(self).depth, *arg, *n) == Some(Err::<(GS, Kind), GenError>(e)),
            },
        decreases 8 - old(self).depth, *n, 2int,
    {
        proof {
            reveal(sp_if_g);
        }
        proof {
            lemma_parts(*n);
            lemma_parts(*arg);
        }
        let sv = self.slot();
        let ghost s1 = self@;
        self.op(0x02);
        self.b.push(0x40);
        self.op(0x02);
        self.b.push(0x40);
        assert(self@ =~= emit_bytes(s1, seq![0x02u8, 0x40u8, 0x02u8, 0x40u8]));
        let c = match self.emit_val(pcar(arg)) {
            Err(e) => return Err(e),
            Ok(k) => k,
        };
        match Self::want(Kind::Int, c, Site::IfCond) {
            Err(e) => return Err(e),
            Ok(_) => {},
        }
        let ghost s2 = self@;
        self.op(0x42);
        self.b.push(0x00);
        self.op(0x52);
        self.op(0x45);
        self.op_u(0x0D, 0);
        assert(self@ =~= emit_bytes(s2, seq![0x42u8, 0x00u8, 0x52u8, 0x45u8] + ub(0x0D, 0)));
        let mark = self.b.len();
        let (t, f) = match self.emit_both(arg, sv) {
            Err(e) => return Err(e),
            Ok(p) => p,
        };
        let k = if t == f {
            t
        } else {
            if !((t == Kind::Str && f == Kind::List) || (t == Kind::List && f == Kind::Str)) {
                return Err(GenError::BranchShapes);
            }
            self.b.truncate(mark);
            let was = self.no_intern;
            self.no_intern = true;
            let ghost s5 = self@;
            let r = self.emit_both(arg, sv);
            self.no_intern = was;
            let (t2, f2) = match r {
                Err(e) => return Err(e),
                Ok(p) => p,
            };
            if t2 != f2 {
                return Err(GenError::BranchShapes);
            }
            t2
        };
        self.op_u(0x20, sv);
        self.set_kind(sv, k);
        Ok(k)
    }

    /// A loop; see `sp_while_g`.
    #[verifier::rlimit(100)]
    #[verifier::spinoff_prover]
    pub fn emit_while(&mut self, arg: &'a Json, n: &'a Json) -> (r: Result<Kind, GenError>)
        requires
            sp_while_g(old(self)@, old(self).depth, *arg, *n) is Some,
        ensures
            final(self).depth == old(self).depth,
            final(self).b@.len() >= old(self).b@.len(),
            match r {
                Ok(k) => sp_while_g(old(self)@, old(self).depth, *arg, *n) == Some(Ok::<(GS, Kind), GenError>((final(self)@, k))),
                Err(e) => sp_while_g(old(self)@, old(self).depth, *arg, *n) == Some(Err::<(GS, Kind), GenError>(e)),
            },
        decreases 8 - old(self).depth, *n, 2int,
    {
        proof {
            reveal(sp_while_g);
        }
        proof {
            lemma_parts(*n);
            lemma_parts(*arg);
        }
        let it = self.slot();
        self.set_kind(it, Kind::Int);
        let ghost s0 = self@;
        self.op(0x42);
        self.b.push(0x00);
        self.op_u(0x21, it);
        self.op(0x02);
        self.b.push(0x40);
        self.op(0x03);
        self.b.push(0x40);
        assert(self@ =~= emit_bytes(s0, seq![0x42u8, 0x00u8] + ub(0x21, it) + seq![0x02u8, 0x40u8, 0x03u8, 0x40u8]));
        let c = match self.emit_val(pcar(arg)) {
            Err(e) => return Err(e),
            Ok(k) => k,
        };
        match Self::want(Kind::Int, c, Site::WhileCond) {
            Err(e) => return Err(e),
            Ok(_) => {},
        }
        let ghost s2 = self@;
        self.op(0x42);
        self.b.push(0x00);
        self.op(0x51);
        self.op_u(0x0D, 1);
        assert(self@ =~= emit_bytes(s2, seq![0x42u8, 0x00u8, 0x51u8] + ub(0x0D, 1)));
        match self.emit_eff(pcdr(arg)) {
            Err(e) => return Err(e),
            Ok(()) => {},
        }
        let mut v: Vec<u8> = Vec::new();
        put_u(&mut v, 0x20, it);
        assert(Seq::<u8>::empty() + ub(0x20, it) =~= ub(0x20, it));
        put3(&mut v, 0x42, 0x01, 0x7C);
        put_u(&mut v, 0x21, it);
        put_u(&mut v, 0x0C, 0);
        put2(&mut v, 0x0B, 0x0B);
        put_u(&mut v, 0x20, it);
        self.take_bytes(&mut v);
        Ok(Kind::Int)
    }

    /// Lays out an addition, subtraction or comparison; see `sp_arith_g`.
    #[verifier::rlimit(100)]
    #[verifier::spinoff_prover]
    pub fn emit_arith(&mut self, tag: i64, arg: &'a Json, n: &'a Json) -> (r: Result<Kind, GenError>)
        requires
            sp_arith_g(old(self)@, old(self).depth, tag, *arg, *n) is Some,
        ensures
            final(self).depth == old(self).depth,
            final(self).b@.len() >= old(self).b@.len(),
            match r {
                Ok(k) => sp_arith_g(old(self)@, old(self).depth, tag, *arg, *n) == Some(Ok::<(GS, Kind), GenError>((final(self)@, k))),
                Err(e) => sp_arith_g(old(self)@, old(self).depth, tag, *arg, *n) == Some(Err::<(GS, Kind), GenError>(e)),
            },
        decreases 8 - old(self).depth, *n, 2int,
    {
        proof {
            reveal(sp_arith_g);
            lemma_parts(*n);
            lemma_parts(*arg);
        }
        let a = match self.emit_val(pcar(arg)) {
            Err(e) => return Err(e),
            Ok(k) => k,
        };
        let b = match self.emit_val(pcdr(arg)) {
            Err(e) => return Err(e),
            Ok(k) => k,
        };
        let site = if tag == EQ { Site::Eq } else { Site::AddSub };
        match Self::want(Kind::Int, a, site) {
            Err(e) => return Err(e),
            Ok(_) => {},
        }
        match Self::want(Kind::Int, b, site) {
            Err(e) => return Err(e),
            Ok(_) => {},
        }
        if tag == ADD {
            self.op(0x7C);
        } else if tag == SUB {
            self.op(0x7D);
        } else {
            let ghost s2 = self@;
            self.op(0x51);
            self.op(0xAD);
            assert(self@ =~= emit_bytes(s2, seq![0x51u8, 0xADu8]));
        }
        Ok(Kind::Int)
    }

    /// Lays out a box write as a value; see `sp_setval_g`.
    #[verifier::rlimit(100)]
    #[verifier::spinoff_prover]
    pub fn emit_setval(&mut self, arg: &'a Json, n: &'a Json) -> (r: Result<Kind, GenError>)
        requires
            sp_setval_g(old(self)@, old(self).depth, *arg, *n) is Some,
        ensures
            final(self).depth == old(self).depth,
            final(self).b@.len() >= old(self).b@.len(),
            match r {
                Ok(k) => sp_setval_g(old(self)@, old(self).depth, *arg, *n) == Some(Ok::<(GS, Kind), GenError>((final(self)@, k))),
                Err(e) => sp_setval_g(old(self)@, old(self).depth, *arg, *n) == Some(Err::<(GS, Kind), GenError>(e)),
            },
        decreases 8 - old(self).depth, *n, 2int,
    {
        proof {
            reveal(sp_setval_g);
            lemma_parts(*n);
            lemma_parts(*arg);
        }
        let s = match self.box_slot(pcar(arg)) {
            Err(e) => return Err(e),
            Ok(s) => s,
        };
        let want = self.slot_kind(s);
        let k = match self.emit_val(pcdr(arg)) {
            Err(e) => return Err(e),
            Ok(k) => k,
        };
        match Self::want(want, k, Site::Setbox) {
            Err(e) => return Err(e),
            Ok(_) => {},
        }
        self.op_u(0x22, s);
        Ok(k)
    }

    /// Lays out node `n` as a value; see `sp_val_g`. Gives the value's shape.
    #[verifier::rlimit(100)]
    #[verifier::spinoff_prover]
    pub fn emit_val(&mut self, n: &'a Json) -> (r: Result<Kind, GenError>)
        requires
            sp_val_g(old(self)@, old(self).depth, *n) is Some,
        ensures
            final(self).depth == old(self).depth,
            final(self).b@.len() >= old(self).b@.len(),
            match r {
                Ok(k) => sp_val_g(old(self)@, old(self).depth, *n) == Some(Ok::<(GS, Kind), GenError>((final(self)@, k))),
                Err(e) => sp_val_g(old(self)@, old(self).depth, *n) == Some(Err::<(GS, Kind), GenError>(e)),
            },
        decreases 8 - old(self).depth, *n, 3int,
    {
        proof {
            reveal(sp_val_g);
        }
        if !is_p(n) {
            return Err(GenError::NotNode);
        }
        proof {
            lemma_parts(*n);
        }
        let tag = pnum(pcar(n));
        let arg = pcdr(n);
        if tag == LIT {
            let v = pnum(arg);
            let ghost s0 = self@;
            self.op(0x42);
            self.sleb_b(v);
            assert(self@ =~= emit_bytes(s0, seq![0x42u8] + spec_sleb(v as int)));
            Ok(Kind::Int)
        } else if tag == ADD || tag == SUB || tag == EQ {
            self.emit_arith(tag, arg, n)
        } else if tag == NIL {
            let ghost s0 = self@;
            self.op(0x42);
            self.b.push(0x00);
            assert(self@ =~= emit_bytes(s0, seq![0x42u8, 0x00u8]));
            Ok(Kind::List)
        } else if tag == CONS {
            self.emit_cons(n)
        } else if tag == CAR || tag == CDR || tag == PAIRP {
            self.emit_cxr(tag, arg, n)
        } else if tag == OAPP {
            self.emit_app(arg)
        } else if tag == OFN {
            Err(GenError::FnOutsideLet)
        } else if tag == VAR {
            self.emit_var(pnum(arg))
        } else if tag == LET {
            proof {
                lemma_parts(*arg);
            }
            match self.bind_let(arg) {
                Err(e) => return Err(e),
                Ok(()) => {},
            }
            proof {
                lemma_parts(spec_pcdr(*arg));
            }
            let k = match self.emit_val(pcdr(pcdr(arg))) {
                Err(e) => return Err(e),
                Ok(k) => k,
            };
            self.close_scope(k != Kind::Int);
            Ok(k)
        } else if tag == IF {
            self.emit_if(arg, n)
        } else if tag == GETBOX {
            let s = match self.box_slot(arg) {
                Err(e) => return Err(e),
                Ok(s) => s,
            };
            let k = self.slot_kind(s);
            self.op_u(0x20, s);
            Ok(k)
        } else if tag == SETBOX {
            self.emit_setval(arg, n)
        } else if tag == WHILE {
            self.emit_while(arg, n)
        } else if tag == NEWBOX {
            Err(GenError::NewboxOutsideLet)
        } else {
            Err(GenError::NoTag(tag))
        }
    }

    /// Whether a box write consumes its own head; see `consume_s`.
    #[verifier::spinoff_prover]
    fn is_consume(&self, v: &Json, x: u32) -> (r: bool)
        requires
            consume_s(self@, *v, x) is Some,
        ensures
            consume_s(self@, *v, x) == Some(r),
    {
        if !is_p(v) || pnum(pcar(v)) != CDR {
            return false;
        }
        let inner = pcdr(v);
        if !is_p(inner) || pnum(pcar(inner)) != GETBOX {
            return false;
        }
        match self.box_slot(pcdr(inner)) {
            Ok(s2) => s2 == x,
            Err(_) => false,
        }
    }

    /// A box write in effect position; see `sp_seteff_g`.
    #[verifier::rlimit(100)]
    #[verifier::spinoff_prover]
    pub fn emit_seteff(&mut self, arg: &'a Json, n: &'a Json) -> (r: Result<(), GenError>)
        requires
            sp_seteff_g(old(self)@, old(self).depth, *arg, *n) is Some,
        ensures
            final(self).depth == old(self).depth,
            final(self).b@.len() >= old(self).b@.len(),
            match r {
                Ok(()) => sp_seteff_g(old(self)@, old(self).depth, *arg, *n) == Some(Ok::<GS, GenError>(final(self)@)),
                Err(e) => sp_seteff_g(old(self)@, old(self).depth, *arg, *n) == Some(Err::<GS, GenError>(e)),
            },
        decreases 8 - old(self).depth, *n, 2int,
    {
        proof {
            reveal(sp_seteff_g);
        }
        proof {
            lemma_parts(*n);
            lemma_parts(*arg);
        }
        let s = match self.box_slot(pcar(arg)) {
            Err(e) => return Err(e),
            Ok(s) => s,
        };
        let v = pcdr(arg);
        let consume = self.is_consume(v, s);
        let region_other = match self.regions.last() {
            Some((_, bs)) => *bs != s,
            None => false,
        };
        if self.slot_kind(s) != Kind::Int && region_other {
            self.foreign_list_write = true;
        }
        if self.own == 1 && consume && self.is_owned(s) {
            let (hp, ta, _) = self.heap_locals();
            let ghost s2 = self@;
            self.op_u(0x20, s);
            self.op_u(0x22, ta);
            self.op(0xA7);
            assert(self@ =~= emit_bytes(s2, ub(0x20, s) + ub(0x22, ta) + seq![0xA7u8]));
            self.memop(0x29, 0x03, 8);
            let mut w: Vec<u8> = Vec::new();
            put_u(&mut w, 0x21, s);
            assert(Seq::<u8>::empty() + ub(0x21, s) =~= ub(0x21, s));
            put2(&mut w, 0x02, 0x40);
            put_u(&mut w, 0x20, ta);
            put3(&mut w, 0x42, 0x10, 0x7C);
            put_u(&mut w, 0x20, hp);
            put2(&mut w, 0x51, 0x45);
            put_u(&mut w, 0x0D, 0);
            put_u(&mut w, 0x20, ta);
            put_u(&mut w, 0x21, hp);
            put1(&mut w, 0x0B);
            self.take_bytes(&mut w);
        } else {
            let want = self.slot_kind(s);
            let k = match self.emit_val(v) {
                Err(e) => return Err(e),
                Ok(k) => k,
            };
            match Self::want(want, k, Site::Setbox) {
                Err(e) => return Err(e),
                Ok(_) => {},
            }
            self.op_u(0x21, s);
        }
        Ok(())
    }

    /// Lays out node `n` for its effect only; see `sp_eff_g`.
    #[verifier::rlimit(100)]
    #[verifier::spinoff_prover]
    pub fn emit_eff(&mut self, n: &'a Json) -> (r: Result<(), GenError>)
        requires
            sp_eff_g(old(self)@, old(self).depth, *n) is Some,
        ensures
            final(self).depth == old(self).depth,
            final(self).b@.len() >= old(self).b@.len(),
            match r {
                Ok(()) => sp_eff_g(old(self)@, old(self).depth, *n) == Some(Ok::<GS, GenError>(final(self)@)),
                Err(e) => sp_eff_g(old(self)@, old(self).depth, *n) == Some(Err::<GS, GenError>(e)),
            },
        decreases 8 - old(self).depth, *n, 4int,
    {
        proof {
            reveal(sp_eff_g);
        }
        if !is_p(n) {
            return Err(GenError::NotNode);
        }
        proof {
            lemma_parts(*n);
        }
        let tag = pnum(pcar(n));
        let arg = pcdr(n);
        if tag == CONS {
            proof {
                lemma_parts(*arg);
            }
            match self.emit_eff(pcar(arg)) {
                Err(e) => return Err(e),
                Ok(()) => {},
            }
            match self.emit_eff(pcdr(arg)) {
                Err(e) => return Err(e),
                Ok(()) => {},
            }
            Ok(())
        } else if tag == LET {
            proof {
                lemma_parts(*arg);
            }
            match self.bind_let(arg) {
                Err(e) => return Err(e),
                Ok(()) => {},
            }
            proof {
                lemma_parts(spec_pcdr(*arg));
            }
            match self.emit_eff(pcdr(pcdr(arg))) {
                Err(e) => return Err(e),
                Ok(()) => {},
            }
            self.close_scope(false);
            Ok(())
        } else if tag == SETBOX {
            self.emit_seteff(arg, n)
        } else if tag == IF {
            proof {
                lemma_parts(*arg);
            }
            let ghost s0 = self@;
            self.op(0x02);
            self.b.push(0x40);
            self.op(0x02);
            self.b.push(0x40);
            assert(self@ =~= emit_bytes(s0, seq![0x02u8, 0x40u8, 0x02u8, 0x40u8]));
            let c = match self.emit_val(pcar(arg)) {
                Err(e) => return Err(e),
                Ok(k) => k,
            };
            match Self::want(Kind::Int, c, Site::IfCond) {
                Err(e) => return Err(e),
                Ok(_) => {},
            }
            let ghost s1 = self@;
            self.op(0x42);
            self.b.push(0x00);
            self.op(0x52);
            self.op(0x45);
            self.op_u(0x0D, 0);
            assert(self@ =~= emit_bytes(s1, seq![0x42u8, 0x00u8, 0x52u8, 0x45u8] + ub(0x0D, 0)));
            proof {
                lemma_parts(spec_pcdr(*arg));
            }
            match self.emit_eff(pcar(pcdr(arg))) {
                Err(e) => return Err(e),
                Ok(()) => {},
            }
            let ghost s2 = self@;
            self.op_u(0x0C, 1);
            self.op(0x0B);
            assert(self@ =~= emit_bytes(s2, ub(0x0C, 1) + seq![0x0Bu8]));
            match self.emit_eff(pcdr(pcdr(arg))) {
                Err(e) => return Err(e),
                Ok(()) => {},
            }
            self.op(0x0B);
            Ok(())
        } else {
            match self.emit_val(n) {
                Err(e) => return Err(e),
                Ok(_) => {},
            }
            self.op(0x1A);
            Ok(())
        }
    }
}

} // verus!
