use vstd::prelude::*;
use crate::leb::spec_uleb;
use crate::wasm::{code_content, engine_module_s, export_entry, has_import_from, module_d_s, read_uleb, sec, wasm_header, w_kernel, w_memory, w_run, w_step};
use crate::leb::spec_sleb;
use crate::stage_g::{GS, intern_g, first_at};
use crate::wasm_meaning::{lemma_sleb_read_enc, sleb_read};

verus! {

/// The weight of the seven-bit group of an unsigned LEB128 number that starts at bit `sh`.
pub open spec fn group_weight(sh: u32) -> nat {
    if sh == 0 {
        1
    } else if sh == 7 {
        128
    } else if sh == 14 {
        16384
    } else if sh == 21 {
        2097152
    } else {
        268435456
    }
}

/// `seg` stands in `m` from position `i` on.
pub open spec fn bytes_at(m: Seq<u8>, i: int, seg: Seq<u8>) -> bool {
    &&& 0 <= i
    &&& i + seg.len() <= m.len()
    &&& m.subrange(i, i + seg.len()) == seg
}

proof fn lemma_group(acc: usize, y: usize, sh: u32)
    requires
        sh == 0 || sh == 7 || sh == 14 || sh == 21 || sh == 28,
        acc < group_weight(sh),
        y < 128,
        acc + y * group_weight(sh) <= u32::MAX,
    ensures
        acc | (y << sh) == acc + y * group_weight(sh),
        acc + y * group_weight(sh) < 128 * group_weight(sh),
{
    if sh == 0 {
        assert(acc < 1 && y < 128 && sh == 0 ==> acc | (y << sh) == acc + y) by (bit_vector);
    } else if sh == 7 {
        assert(acc < 128 && y < 128 && sh == 7 ==> acc | (y << sh) == acc + y * 128) by (bit_vector);
    } else if sh == 14 {
        assert(acc < 16384 && y < 128 && sh == 14 ==> acc | (y << sh) == acc + y * 16384) by (bit_vector);
    } else if sh == 21 {
        assert(acc < 2097152 && y < 128 && sh == 21 ==> acc | (y << sh) == acc + y * 2097152) by (bit_vector);
    } else {
        assert(y < 16) by (nonlinear_arith)
            requires acc + y * 268435456 <= u32::MAX;
        assert(acc < 268435456 && y < 16 && sh == 28 ==> acc | (y << sh) == acc + y * 268435456) by (bit_vector);
    }
}

/// Reading back an unsigned LEB128 number that fits 32 bits, from its `sh / 7`-th group on,
/// gives the number and the position after it.
proof fn lemma_read_uleb_groups(m: Seq<u8>, i: int, sh: u32, acc: usize, v: nat)
    requires
        sh == 0 || sh == 7 || sh == 14 || sh == 21 || sh == 28,
        acc < group_weight(sh),
        acc + v * group_weight(sh) <= u32::MAX,
        bytes_at(m, i, spec_uleb(v)),
    ensures
        read_uleb(m, i, sh, acc) == Some(Some(((acc + v * group_weight(sh)) as usize, i + spec_uleb(v).len()))),
    decreases v,
{
    let e = spec_uleb(v);
    assert(m[i] == e[0]) by {
        assert(m.subrange(i, i + e.len())[0] == m[i]);
    }
    let x = m[i];
    let w = group_weight(sh);
    if v < 128 {
        assert(x == v as u8);
        assert(x < 128 ==> x & 0x7f == x) by (bit_vector);
        lemma_group(acc, (x & 0x7f) as usize, sh);
    } else {
        let b = v % 128;
        assert(x == (b + 128) as u8);
        assert(x >= 128 ==> x & 0x7f == x - 128) by (bit_vector);
        assert(((x & 0x7f) as usize) == b);
        assert(b * w <= v * w) by (nonlinear_arith)
            requires b <= v;
        lemma_group(acc, b as usize, sh);
        vstd::arithmetic::div_mod::lemma_fundamental_div_mod(v as int, 128);
        if sh == 28 {
            assert(v * w >= 128 * 268435456) by (nonlinear_arith)
                requires v >= 128, w == 268435456;
            assert(false);
        }
        let sh2 = (sh + 7) as u32;
        assert(group_weight(sh2) == 128 * w);
        let acc2 = (acc + b * w) as usize;
        assert(acc + v * w == acc2 + (v / 128) * group_weight(sh2)) by (nonlinear_arith)
            requires
                v == (v / 128) * 128 + b,
                group_weight(sh2) == 128 * w,
                acc2 == acc + b * w;
        let rest = spec_uleb(v / 128);
        assert(e == seq![x] + rest);
        assert(m.subrange(i + 1, i + 1 + rest.len()) =~= rest) by {
            assert forall|j: int| 0 <= j < rest.len() implies m.subrange(i + 1, i + 1 + rest.len())[j] == rest[j] by {
                assert(m.subrange(i, i + e.len())[j + 1] == e[j + 1]);
            }
        }
        lemma_read_uleb_groups(m, i + 1, sh2, acc2, v / 128);
    }
}

/// Reading back the unsigned LEB128 encoding of a number that fits 32 bits gives the number and
/// the position after the encoding.
pub proof fn lemma_read_uleb_enc(m: Seq<u8>, i: int, v: nat)
    requires
        v <= u32::MAX,
        bytes_at(m, i, spec_uleb(v)),
    ensures
        read_uleb(m, i, 0, 0) == Some(Some((v as usize, i + spec_uleb(v).len()))),
{
    lemma_read_uleb_groups(m, i, 0, 0, v);
}

/// The bytes of sections laid out one after another.
pub open spec fn secs_bytes(s: Seq<(u8, Seq<u8>)>) -> Seq<u8>
    decreases s.len(),
{
    if s.len() == 0 {
        Seq::empty()
    } else {
        sec(s[0].0, s[0].1) + secs_bytes(s.drop_first())
    }
}

proof fn lemma_secs_bytes_cat(a: Seq<(u8, Seq<u8>)>, b: Seq<(u8, Seq<u8>)>)
    ensures
        secs_bytes(a + b) == secs_bytes(a) + secs_bytes(b),
    decreases a.len(),
{
    if a.len() == 0 {
        assert(a + b =~= b);
    } else {
        assert((a + b).drop_first() =~= a.drop_first() + b);
        lemma_secs_bytes_cat(a.drop_first(), b);
        assert(secs_bytes(a + b) =~= secs_bytes(a) + secs_bytes(b));
    }
}

proof fn lemma_secs_bytes_one(id: u8, c: Seq<u8>)
    ensures
        secs_bytes(seq![(id, c)]) == sec(id, c),
{
    reveal_with_fuel(secs_bytes, 2);
    assert(seq![(id, c)].drop_first() =~= Seq::<(u8, Seq<u8>)>::empty());
    assert(sec(id, c) + Seq::<u8>::empty() =~= sec(id, c));
}

/// Walking sections none of which is an import section finds none.
proof fn lemma_walk_secs(m: Seq<u8>, i: int, s: Seq<(u8, Seq<u8>)>)
    requires
        bytes_at(m, i, secs_bytes(s)),
        i + secs_bytes(s).len() == m.len(),
        m.len() <= usize::MAX,
        forall|k: int| 0 <= k < s.len() ==> (#[trigger] s[k]).0 != 2 && s[k].1.len() <= u32::MAX,
    ensures
        has_import_from(m, i) == Some(false),
    decreases s.len(),
{
    if s.len() > 0 {
        let (id, c) = s[0];
        let n = c.len();
        let u = spec_uleb(n);
        let whole = secs_bytes(s);
        let rest = secs_bytes(s.drop_first());
        assert(whole == seq![id] + u + c + rest);
        let sub = m.subrange(i, i + whole.len());
        assert(m[i] == id) by {
            assert(sub[0] == m[i]);
        }
        assert(bytes_at(m, i + 1, u)) by {
            assert forall|j: int| 0 <= j < u.len() implies m.subrange(i + 1, i + 1 + u.len())[j] == u[j] by {
                assert(sub[j + 1] == whole[j + 1]);
            }
            assert(m.subrange(i + 1, i + 1 + u.len()) =~= u);
        }
        lemma_read_uleb_enc(m, i + 1, n);
        let j = i + 1 + u.len();
        let next = j + n;
        assert(next == i + sec(id, c).len());
        assert(bytes_at(m, next, rest)) by {
            assert forall|k: int| 0 <= k < rest.len() implies m.subrange(next, next + rest.len())[k] == rest[k] by {
                assert(sub[(next - i) + k] == whole[(next - i) + k]);
            }
            assert(m.subrange(next, next + rest.len()) =~= rest);
        }
        if next < m.len() {
            assert forall|k: int| 0 <= k < s.drop_first().len() implies (#[trigger] s.drop_first()[k]).0 != 2 && s.drop_first()[k].1.len() <= u32::MAX by {
                assert(s.drop_first()[k] == s[k + 1]);
            }
            lemma_walk_secs(m, next, s.drop_first());
        }
    }
}

/// `128` to the power `k`.
pub open spec fn pow128(k: nat) -> nat
    decreases k,
{
    if k == 0 {
        1
    } else {
        128 * pow128((k - 1) as nat)
    }
}

/// A number below `128^k` takes at most `k` groups (and at least one).
proof fn lemma_uleb_len(v: nat, k: nat)
    requires
        v < pow128(k),
    ensures
        spec_uleb(v).len() <= if k == 0 { 1 } else { k },
    decreases k,
{
    if v >= 128 {
        if k <= 1 {
            assert(pow128(0) == 1);
            assert(false);
        }
        let k1 = (k - 1) as nat;
        assert(v / 128 < pow128(k1)) by (nonlinear_arith)
            requires v < 128 * pow128(k1);
        lemma_uleb_len(v / 128, k1);
    }
}

/// A number of 32 bits takes at most five groups.
proof fn lemma_uleb_len32(v: nat)
    requires
        v <= u32::MAX,
    ensures
        1 <= spec_uleb(v).len() <= 5,
{
    reveal_with_fuel(pow128, 6);
    lemma_uleb_len(v, 5);
}

proof fn lemma_secs_bytes_two(a: (u8, Seq<u8>), b: (u8, Seq<u8>))
    ensures
        secs_bytes(seq![a, b]) == sec(a.0, a.1) + sec(b.0, b.1),
{
    assert(seq![a, b] =~= seq![a] + seq![b]);
    lemma_secs_bytes_cat(seq![a], seq![b]);
    lemma_secs_bytes_one(a.0, a.1);
    lemma_secs_bytes_one(b.0, b.1);
}

/// The code section's content is at most twenty bytes more than the code.
proof fn lemma_code_content_len(body: Seq<u8>, nlocals: u32)
    requires
        body.len() < 0x7fff_0000,
    ensures
        code_content(body, nlocals).len() <= body.len() + 20,
{
    lemma_uleb_len32(nlocals as nat);
    let fb = crate::wasm::func_body(body, nlocals);
    lemma_uleb_len32((fb.len() as u32) as nat);
}

/// A section that is not an import section is stepped over.
proof fn lemma_skip_sec(m: Seq<u8>, i: int, id: u8, c: Seq<u8>)
    requires
        bytes_at(m, i, sec(id, c)),
        id != 2,
        c.len() <= u32::MAX,
        m.len() <= usize::MAX,
    ensures
        has_import_from(m, i) == has_import_from(m, i + sec(id, c).len()),
{
    let n = c.len();
    let u = spec_uleb(n);
    let whole = sec(id, c);
    let sub = m.subrange(i, i + whole.len());
    assert(m[i] == id) by {
        assert(sub[0] == m[i]);
    }
    assert(bytes_at(m, i + 1, u)) by {
        assert forall|j: int| 0 <= j < u.len() implies m.subrange(i + 1, i + 1 + u.len())[j] == u[j] by {
            assert(sub[j + 1] == whole[j + 1]);
        }
        assert(m.subrange(i + 1, i + 1 + u.len()) =~= u);
    }
    lemma_read_uleb_enc(m, i + 1, n);
}

proof fn lemma_bytes_ext(p: Seq<u8>, i: int, seg: Seq<u8>, q: Seq<u8>)
    requires
        bytes_at(p, i, seg),
    ensures
        bytes_at(p + q, i, seg),
{
    assert((p + q).subrange(i, i + seg.len()) =~= p.subrange(i, i + seg.len()));
}

proof fn lemma_bytes_tail(p: Seq<u8>, seg: Seq<u8>)
    ensures
        bytes_at(p + seg, p.len() as int, seg),
{
    assert((p + seg).subrange(p.len() as int, (p.len() + seg.len()) as int) =~= seg);
}

#[verifier::spinoff_prover]
proof fn lemma_module_d_len(body: Seq<u8>, nlocals: u32, pages: Option<u32>, pool: Seq<u8>)
    requires
        body.len() < 0x7fff_0000,
        pool.len() < 0x7fff_0000,
    ensures
        module_d_s(body, nlocals, pages, pool).len() <= body.len() + pool.len() + 200,
{
    let d = spec_uleb(1) + spec_uleb(0) + seq![0x41u8] + spec_sleb(16) + seq![0x0Bu8] + spec_uleb((pool.len() as u32) as nat)
        + pool;
    lemma_code_content_len(body, nlocals);
    lemma_uleb_len32(code_content(body, nlocals).len());
    lemma_uleb_len32(pool.len());
    lemma_uleb_len32(d.len());
    if let Some(pg) = pages {
        lemma_uleb_len32(pg as nat);
    }
}

/// The module that `wasm_module_d` builds imports nothing: walking its sections from the end of
/// the header finds no import section. It holds where the code and the string pool fit the
/// 32-bit section lengths.
#[verifier::spinoff_prover]
pub proof fn law_module_d_imports_nothing(body: Seq<u8>, nlocals: u32, pages: Option<u32>, pool: Seq<u8>)
    requires
        body.len() < 0x7fff_0000,
        pool.len() < 0x7fff_0000,
    ensures
        has_import_from(module_d_s(body, nlocals, pages, pool), 8) == Some(false),
{
    let heap = pages is Some;
    let t = spec_uleb(1) + seq![0x60u8] + spec_uleb(0) + spec_uleb(1) + seq![0x7Eu8];
    let f = spec_uleb(1) + spec_uleb(0);
    let e = spec_uleb(if heap { 3 } else { 2 }) + export_entry(w_run(), 0) + export_entry(w_kernel(), 0) + if heap {
        export_entry(w_memory(), 2)
    } else {
        Seq::empty()
    };
    let d = spec_uleb(1) + spec_uleb(0) + seq![0x41u8] + spec_sleb(16) + seq![0x0Bu8] + spec_uleb((pool.len() as u32) as nat)
        + pool;
    let cc = code_content(body, nlocals);
    let s5 = match pages {
        Some(pg) => sec(5, spec_uleb(1) + seq![0x00u8] + spec_uleb(pg as nat)),
        None => Seq::empty(),
    };
    let s11 = if pool.len() > 0 { sec(11, d) } else { Seq::empty() };
    let p1 = wasm_header();
    let p2 = p1 + sec(1, t);
    let p3 = p2 + sec(3, f);
    let p4 = p3 + s5;
    let p5 = p4 + sec(7, e);
    let p6 = p5 + sec(10, cc);
    let m = p6 + s11;
    assert(m == module_d_s(body, nlocals, pages, pool));
    lemma_module_d_len(body, nlocals, pages, pool);
    lemma_code_content_len(body, nlocals);
    lemma_uleb_len32(pool.len());
    lemma_bytes_tail(p1, sec(1, t));
    lemma_bytes_ext(p2, 8, sec(1, t), sec(3, f));
    lemma_bytes_ext(p3, 8, sec(1, t), s5);
    lemma_bytes_ext(p4, 8, sec(1, t), sec(7, e));
    lemma_bytes_ext(p5, 8, sec(1, t), sec(10, cc));
    lemma_bytes_ext(p6, 8, sec(1, t), s11);
    lemma_skip_sec(m, 8, 1, t);
    lemma_bytes_tail(p2, sec(3, f));
    lemma_bytes_ext(p3, p2.len() as int, sec(3, f), s5);
    lemma_bytes_ext(p4, p2.len() as int, sec(3, f), sec(7, e));
    lemma_bytes_ext(p5, p2.len() as int, sec(3, f), sec(10, cc));
    lemma_bytes_ext(p6, p2.len() as int, sec(3, f), s11);
    lemma_skip_sec(m, p2.len() as int, 3, f);
    if let Some(pg) = pages {
        let c5 = spec_uleb(1) + seq![0x00u8] + spec_uleb(pg as nat);
        lemma_uleb_len32(pg as nat);
        lemma_bytes_tail(p3, sec(5, c5));
        lemma_bytes_ext(p4, p3.len() as int, sec(5, c5), sec(7, e));
        lemma_bytes_ext(p5, p3.len() as int, sec(5, c5), sec(10, cc));
        lemma_bytes_ext(p6, p3.len() as int, sec(5, c5), s11);
        lemma_skip_sec(m, p3.len() as int, 5, c5);
    }
    lemma_bytes_tail(p4, sec(7, e));
    lemma_bytes_ext(p5, p4.len() as int, sec(7, e), sec(10, cc));
    lemma_bytes_ext(p6, p4.len() as int, sec(7, e), s11);
    lemma_skip_sec(m, p4.len() as int, 7, e);
    lemma_bytes_tail(p5, sec(10, cc));
    lemma_bytes_ext(p6, p5.len() as int, sec(10, cc), s11);
    lemma_skip_sec(m, p5.len() as int, 10, cc);
    if pool.len() > 0 {
        lemma_uleb_len32(d.len());
        lemma_bytes_tail(p6, sec(11, d));
        lemma_skip_sec(m, p6.len() as int, 11, d);
    }
}

/// The module that `wasm_engine_module` builds imports nothing: walking its sections from the
/// end of the header finds no import section. It holds where the code fits the 32-bit section
/// lengths.
pub proof fn law_engine_module_imports_nothing(body: Seq<u8>, nlocals: u32)
    requires
        body.len() < 0x7fff_0000,
    ensures
        has_import_from(engine_module_s(body, nlocals), 8) == Some(false),
{
    let m = engine_module_s(body, nlocals);
    let t = spec_uleb(1) + seq![0x60u8] + spec_uleb(1) + seq![0x7Eu8] + spec_uleb(1) + seq![0x7Eu8];
    let f = spec_uleb(1) + spec_uleb(0);
    let mem = spec_uleb(1) + seq![0x00u8] + spec_uleb(1);
    let e = spec_uleb(2) + export_entry(w_step(), 0) + export_entry(w_memory(), 2);
    let a = seq![(1u8, t), (3u8, f)];
    let b = seq![(5u8, mem)];
    let c = seq![(7u8, e), (10u8, code_content(body, nlocals))];
    let l = a + b + c;
    lemma_secs_bytes_two((1u8, t), (3u8, f));
    lemma_secs_bytes_one(5u8, mem);
    lemma_secs_bytes_two((7u8, e), (10u8, code_content(body, nlocals)));
    lemma_secs_bytes_cat(a, b);
    lemma_secs_bytes_cat(a + b, c);
    lemma_code_content_len(body, nlocals);
    lemma_uleb_len32(code_content(body, nlocals).len());
    assert(m =~= wasm_header() + secs_bytes(l));
    assert(m.subrange(8, m.len() as int) =~= secs_bytes(l));
    assert forall|k: int| 0 <= k < l.len() implies (#[trigger] l[k]).0 != 2 && l[k].1.len() <= u32::MAX by {
        if k < a.len() {
            assert(l[k] == a[k]);
        } else if k < a.len() + b.len() {
            assert(l[k] == b[k - a.len()]);
        } else {
            assert(l[k] == c[k - a.len() - b.len()]);
        }
    }
    lemma_walk_secs(m, 8, l);
}


/// The data segment of the module's first data section (id 11), found by walking its sections
/// from `i`: where it is placed in memory (the value of its `i32.const` offset expression) and
/// its bytes. `None` where there is no such section or it does not read as one active segment
/// of memory 0.
pub open spec fn data_from(m: Seq<u8>, i: int) -> Option<(int, Seq<u8>)>
    decreases m.len() - i,
{
    if i < 0 || i >= m.len() {
        None
    } else {
        match read_uleb(m, i + 1, 0, 0) {
            Some(Some((n, j))) => if j <= i {
                None
            } else if m[i] == 11 {
                data_content(m, j)
            } else if j + n >= m.len() {
                None
            } else {
                data_from(m, j + n)
            },
            _ => None,
        }
    }
}

/// A data section's content at `j`: one segment, memory 0, offset `i32.const k` ended by
/// `end`, then the bytes with their length.
pub open spec fn data_content(m: Seq<u8>, j: int) -> Option<(int, Seq<u8>)> {
    match read_uleb(m, j, 0, 0) {
        Some(Some((cnt, j1))) => match read_uleb(m, j1, 0, 0) {
            Some(Some((mem, j2))) => if cnt != 1 || mem != 0 || j2 < 0 || j2 >= m.len() || m[j2] != 0x41 {
                None
            } else {
                match sleb_read(m, j2 + 1) {
                    Some((off, j3)) => if j3 < 0 || j3 >= m.len() || m[j3] != 0x0B {
                        None
                    } else {
                        match read_uleb(m, j3 + 1, 0, 0) {
                            Some(Some((len, j4))) => if j4 + len > m.len() {
                                None
                            } else {
                                Some((off, m.subrange(j4, j4 + len)))
                            },
                            _ => None,
                        }
                    },
                    None => None,
                }
            },
            _ => None,
        },
        _ => None,
    }
}

/// A section that is not a data section is stepped over when looking for one.
proof fn lemma_skip_sec_data(m: Seq<u8>, i: int, id: u8, c: Seq<u8>)
    requires
        bytes_at(m, i, sec(id, c)),
        id != 11,
        c.len() <= u32::MAX,
        m.len() <= usize::MAX,
        i + sec(id, c).len() < m.len(),
    ensures
        data_from(m, i) == data_from(m, i + sec(id, c).len()),
{
    let n = c.len();
    let u = spec_uleb(n);
    let whole = sec(id, c);
    let sub = m.subrange(i, i + whole.len());
    assert(m[i] == id) by {
        assert(sub[0] == m[i]);
    }
    assert(bytes_at(m, i + 1, u)) by {
        assert forall|j: int| 0 <= j < u.len() implies m.subrange(i + 1, i + 1 + u.len())[j] == u[j] by {
            assert(sub[j + 1] == whole[j + 1]);
        }
        assert(m.subrange(i + 1, i + 1 + u.len()) =~= u);
    }
    lemma_read_uleb_enc(m, i + 1, n);
    lemma_uleb_len32(n);
}

proof fn lemma_bytes_sub(m: Seq<u8>, i: int, seg: Seq<u8>, a: int, b: int)
    requires
        bytes_at(m, i, seg),
        0 <= a <= b <= seg.len(),
    ensures
        bytes_at(m, i + a, seg.subrange(a, b)),
{
    assert forall|k: int| 0 <= k < b - a implies m.subrange(i + a, i + b)[k] == seg.subrange(a, b)[k] by {
        assert(m.subrange(i, i + seg.len())[a + k] == seg[a + k]);
    }
    assert(m.subrange(i + a, i + b) =~= seg.subrange(a, b));
}

/// Reading the data section that stands at `i`.
#[verifier::spinoff_prover]
proof fn lemma_read_data(m: Seq<u8>, i: int, pool: Seq<u8>)
    requires
        0 < pool.len() < 0x7000_0000,
        bytes_at(m, i, sec(11, spec_uleb(1) + spec_uleb(0) + seq![0x41u8] + spec_sleb(16) + seq![0x0Bu8] + spec_uleb((pool.len() as u32) as nat) + pool)),
        m.len() <= usize::MAX,
    ensures
        data_from(m, i) == Some((16int, pool)),
{
    let d = spec_uleb(1) + spec_uleb(0) + seq![0x41u8] + spec_sleb(16) + seq![0x0Bu8] + spec_uleb((pool.len() as u32) as nat) + pool;
    let whole = sec(11, d);
    lemma_uleb_len32(pool.len());
    lemma_uleb_len32(d.len());
    let u = spec_uleb(d.len());
    let lu = u.len() as int;
    assert(whole == seq![11u8] + u + d);
    assert(m[i] == 11u8) by {
        assert(m.subrange(i, i + whole.len())[0] == m[i]);
    }
    lemma_bytes_sub(m, i, whole, 1, 1 + lu);
    assert(whole.subrange(1, 1 + lu) =~= u);
    lemma_read_uleb_enc(m, i + 1, d.len());
    let j = i + 1 + u.len();
    lemma_bytes_sub(m, i, whole, 1 + lu, whole.len() as int);
    assert(whole.subrange(1 + lu, whole.len() as int) =~= d);
    // d = [1] [0] [0x41] sleb(16) [0x0B] uleb(len) pool
    let e16 = spec_sleb(16);
    assert(e16 == seq![16u8]);
    let ul = spec_uleb(pool.len());
    let lul = ul.len() as int;
    assert(d == seq![1u8, 0u8, 0x41u8, 16u8, 0x0Bu8] + ul + pool);
    let dd = seq![1u8, 0u8, 0x41u8, 16u8, 0x0Bu8] + ul + pool;
    lemma_bytes_sub(m, j, dd, 0, 1);
    assert(dd.subrange(0, 1) =~= spec_uleb(1));
    lemma_read_uleb_enc(m, j, 1);
    lemma_bytes_sub(m, j, dd, 1, 2);
    assert(dd.subrange(1, 2) =~= spec_uleb(0));
    lemma_read_uleb_enc(m, j + 1, 0);
    assert(m[j + 2] == 0x41u8) by {
        assert(m.subrange(j, j + dd.len())[2] == m[j + 2]);
    }
    lemma_bytes_sub(m, j, dd, 3, 4);
    assert(dd.subrange(3, 4) =~= spec_sleb(16));
    lemma_sleb_read_enc(m, j + 3, 16);
    assert(m[j + 4] == 0x0Bu8) by {
        assert(m.subrange(j, j + dd.len())[4] == m[j + 4]);
    }
    lemma_bytes_sub(m, j, dd, 5, 5 + lul);
    assert(dd.subrange(5, 5 + lul) =~= ul);
    lemma_read_uleb_enc(m, j + 5, pool.len());
    lemma_bytes_sub(m, j, dd, 5 + lul, dd.len() as int);
    assert(dd.subrange(5 + lul, dd.len() as int) =~= pool);
}

/// Where `first_at` finds a string, it is there.
proof fn lemma_first_at(pool: Seq<u8>, bytes: Seq<u8>, i: int)
    ensures
        first_at(pool, bytes, i) matches Some(p) ==> 0 <= p && p + bytes.len() <= pool.len() && pool.subrange(p, p + bytes.len()) == bytes,
    decreases pool.len() + 1 - i,
{
    if !(i < 0 || i + bytes.len() > pool.len()) && pool.subrange(i, i + bytes.len()) != bytes {
        lemma_first_at(pool, bytes, i + 1);
    }
}

/// The data segment of the module of stage G places a non-empty string pool at address 16.
#[verifier::spinoff_prover]
proof fn lemma_module_d_data(body: Seq<u8>, nlocals: u32, pages: Option<u32>, pool: Seq<u8>)
    requires
        0 < pool.len() < 0x7000_0000,
        body.len() < 0x7fff_0000,
    ensures
        data_from(module_d_s(body, nlocals, pages, pool), 8) == Some((16int, pool)),
{
    let heap = pages is Some;
    let t = spec_uleb(1) + seq![0x60u8] + spec_uleb(0) + spec_uleb(1) + seq![0x7Eu8];
    let f = spec_uleb(1) + spec_uleb(0);
    let e = spec_uleb(if heap { 3 } else { 2 }) + export_entry(w_run(), 0) + export_entry(w_kernel(), 0) + if heap {
        export_entry(w_memory(), 2)
    } else {
        Seq::empty()
    };
    let d = spec_uleb(1) + spec_uleb(0) + seq![0x41u8] + spec_sleb(16) + seq![0x0Bu8] + spec_uleb((pool.len() as u32) as nat)
        + pool;
    let cc = code_content(body, nlocals);
    let s5 = match pages {
        Some(pg) => sec(5, spec_uleb(1) + seq![0x00u8] + spec_uleb(pg as nat)),
        None => Seq::empty(),
    };
    let p1 = wasm_header();
    let p2 = p1 + sec(1, t);
    let p3 = p2 + sec(3, f);
    let p4 = p3 + s5;
    let p5 = p4 + sec(7, e);
    let p6 = p5 + sec(10, cc);
    let m = p6 + sec(11, d);
    assert(m == module_d_s(body, nlocals, pages, pool));
    lemma_module_d_len(body, nlocals, pages, pool);
    lemma_code_content_len(body, nlocals);
    lemma_uleb_len32(pool.len());
    lemma_uleb_len32(d.len());
    lemma_bytes_tail(p1, sec(1, t));
    lemma_bytes_ext(p2, 8, sec(1, t), sec(3, f));
    lemma_bytes_ext(p3, 8, sec(1, t), s5);
    lemma_bytes_ext(p4, 8, sec(1, t), sec(7, e));
    lemma_bytes_ext(p5, 8, sec(1, t), sec(10, cc));
    lemma_bytes_ext(p6, 8, sec(1, t), sec(11, d));
    lemma_skip_sec_data(m, 8, 1, t);
    lemma_bytes_tail(p2, sec(3, f));
    lemma_bytes_ext(p3, p2.len() as int, sec(3, f), s5);
    lemma_bytes_ext(p4, p2.len() as int, sec(3, f), sec(7, e));
    lemma_bytes_ext(p5, p2.len() as int, sec(3, f), sec(10, cc));
    lemma_bytes_ext(p6, p2.len() as int, sec(3, f), sec(11, d));
    lemma_skip_sec_data(m, p2.len() as int, 3, f);
    if let Some(pg) = pages {
        let c5 = spec_uleb(1) + seq![0x00u8] + spec_uleb(pg as nat);
        lemma_uleb_len32(pg as nat);
        lemma_bytes_tail(p3, sec(5, c5));
        lemma_bytes_ext(p4, p3.len() as int, sec(5, c5), sec(7, e));
        lemma_bytes_ext(p5, p3.len() as int, sec(5, c5), sec(10, cc));
        lemma_bytes_ext(p6, p3.len() as int, sec(5, c5), sec(11, d));
        lemma_skip_sec_data(m, p3.len() as int, 5, c5);
    }
    lemma_bytes_tail(p4, sec(7, e));
    lemma_bytes_ext(p5, p4.len() as int, sec(7, e), sec(10, cc));
    lemma_bytes_ext(p6, p4.len() as int, sec(7, e), sec(11, d));
    lemma_skip_sec_data(m, p4.len() as int, 7, e);
    lemma_bytes_tail(p5, sec(10, cc));
    lemma_bytes_ext(p6, p5.len() as int, sec(10, cc), sec(11, d));
    lemma_skip_sec_data(m, p5.len() as int, 10, cc);
    lemma_bytes_tail(p6, sec(11, d));
    lemma_read_data(m, p6.len() as int, pool);
}

/// The module that stage G builds around its code keeps every interned string where its packed
/// value points: interning `bytes` gives a value whose high half, less the address at which the
/// module's data segment is placed, is where `bytes` stand in the segment, and whose low half
/// is their length. Decoded from the built module's bytes, not from how they were built.
pub proof fn law_interned_strings_in_place(s: GS, bytes: Seq<u8>, body: Seq<u8>, nlocals: u32, pages: Option<u32>)
    requires
        bytes.len() > 0,
        s.pool.len() + bytes.len() < 0x7000_0000,
        body.len() < 0x7fff_0000,
    ensures
        ({
            let (s2, v) = intern_g(s, bytes);
            data_from(module_d_s(body, nlocals, pages, s2.pool), 8) matches Some((addr, data))
                && (v & 0xffff_ffffi64) as int == bytes.len()
                && 0 <= (v >> 32u64) as int - addr
                && (v >> 32u64) as int - addr + bytes.len() <= data.len()
                && data.subrange((v >> 32u64) as int - addr, (v >> 32u64) as int - addr + bytes.len()) == bytes
        }),
{
    let (s2, v) = intern_g(s, bytes);
    let pool = s2.pool;
    lemma_first_at(s.pool, bytes, 0);
    let at: int = match first_at(s.pool, bytes, 0) {
        Some(i) => i,
        None => s.pool.len() as int,
    };
    if first_at(s.pool, bytes, 0) is None {
        assert(pool.subrange(at, at + bytes.len()) =~= bytes);
    }
    assert(pool.len() < 0x7000_0000);
    let hi = (16 + at) as i64;
    let lo = bytes.len() as i64;
    assert(v == (hi << 32u64) | lo);
    assert(0 <= hi < 0x8000_0000 && 0 < lo < 0x8000_0000 ==> ((hi << 32u64) | lo) >> 32u64 == hi && ((hi << 32u64) | lo) & 0xffff_ffffi64 == lo) by (bit_vector);
    lemma_module_d_data(body, nlocals, pages, pool);
}


/// The first section with id `id`, found by walking the sections from `i`: where its content
/// starts and its length.
pub open spec fn section_from(m: Seq<u8>, i: int, id: u8) -> Option<(int, int)>
    decreases m.len() - i,
{
    if i < 0 || i >= m.len() {
        None
    } else {
        match read_uleb(m, i + 1, 0, 0) {
            Some(Some((n, j))) => if j <= i {
                None
            } else if m[i] == id {
                Some((j, n as int))
            } else if j + n >= m.len() {
                None
            } else {
                section_from(m, j + n, id)
            },
            _ => None,
        }
    }
}

/// Reading `cnt` export entries from `j`: each a name (its length, then its bytes), a kind and
/// an index.
pub open spec fn exports_from(m: Seq<u8>, j: int, cnt: nat) -> Option<Seq<(Seq<u8>, u8, int)>>
    decreases cnt,
{
    if cnt == 0 {
        Some(Seq::empty())
    } else {
        match read_uleb(m, j, 0, 0) {
            Some(Some((len, j1))) => if j1 + len + 1 > m.len() {
                None
            } else {
                match read_uleb(m, j1 + len + 1, 0, 0) {
                    Some(Some((idx, j2))) => match exports_from(m, j2, (cnt - 1) as nat) {
                        Some(rest) => Some(seq![(m.subrange(j1, j1 + len), m[j1 + len], idx as int)] + rest),
                        None => None,
                    },
                    _ => None,
                }
            },
            _ => None,
        }
    }
}

/// The exports of a module: its export section's entries.
pub open spec fn exports_of(m: Seq<u8>) -> Option<Seq<(Seq<u8>, u8, int)>> {
    match section_from(m, 8, 7) {
        Some((j, _)) => match read_uleb(m, j, 0, 0) {
            Some(Some((cnt, j1))) => exports_from(m, j1, cnt as nat),
            _ => None,
        },
        None => None,
    }
}

/// A section that is not the one looked for is stepped over.
proof fn lemma_skip_sec_find(m: Seq<u8>, i: int, id: u8, c: Seq<u8>, want: u8)
    requires
        bytes_at(m, i, sec(id, c)),
        id != want,
        c.len() <= u32::MAX,
        m.len() <= usize::MAX,
        i + sec(id, c).len() < m.len(),
    ensures
        section_from(m, i, want) == section_from(m, i + sec(id, c).len(), want),
{
    let n = c.len();
    let u = spec_uleb(n);
    let whole = sec(id, c);
    let sub = m.subrange(i, i + whole.len());
    assert(m[i] == id) by {
        assert(sub[0] == m[i]);
    }
    assert(bytes_at(m, i + 1, u)) by {
        assert forall|j: int| 0 <= j < u.len() implies m.subrange(i + 1, i + 1 + u.len())[j] == u[j] by {
            assert(sub[j + 1] == whole[j + 1]);
        }
        assert(m.subrange(i + 1, i + 1 + u.len()) =~= u);
    }
    lemma_read_uleb_enc(m, i + 1, n);
    lemma_uleb_len32(n);
}

/// Reading one export entry.
proof fn lemma_export_entry(m: Seq<u8>, j: int, name: Seq<u8>, kind: u8, cnt: nat)
    requires
        cnt > 0,
        name.len() < 128,
        bytes_at(m, j, export_entry(name, kind)),
        exports_from(m, j + export_entry(name, kind).len(), (cnt - 1) as nat) is Some,
    ensures
        exports_from(m, j, cnt) == Some(seq![(name, kind, 0int)] + exports_from(m, j + export_entry(name, kind).len(), (cnt - 1) as nat).unwrap()),
{
    let e = export_entry(name, kind);
    let ul = spec_uleb(name.len());
    assert(ul == seq![name.len() as u8]);
    assert(spec_uleb(0) == seq![0u8]);
    assert(e == seq![name.len() as u8] + name + seq![kind] + seq![0u8]);
    lemma_bytes_sub(m, j, e, 0, 1);
    assert(e.subrange(0, 1) =~= spec_uleb(name.len()));
    lemma_read_uleb_enc(m, j, name.len());
    let j1 = j + 1;
    let ln = name.len() as int;
    lemma_bytes_sub(m, j, e, 1, 1 + ln);
    assert(e.subrange(1, 1 + name.len() as int) =~= name);
    assert(m[j1 + name.len()] == kind) by {
        assert(m.subrange(j, j + e.len())[1 + ln] == m[j + 1 + ln]);
    }
    lemma_bytes_sub(m, j, e, 2 + ln, 3 + ln);
    assert(e.subrange(2 + name.len() as int, 3 + name.len() as int) =~= spec_uleb(0));
    lemma_read_uleb_enc(m, j1 + name.len() + 1, 0);
}


/// Reading the export section that stands at `i`: its entries.
#[verifier::spinoff_prover]
#[verifier::rlimit(100)]
proof fn lemma_read_exports(m: Seq<u8>, i: int, heap: bool)
    requires
        bytes_at(m, i, sec(7, spec_uleb(if heap { 3 } else { 2 }) + export_entry(w_run(), 0) + export_entry(w_kernel(), 0)
            + if heap { export_entry(w_memory(), 2) } else { Seq::empty() })),
        m.len() <= usize::MAX,
    ensures
        section_from(m, i, 7) matches Some((j, _)) && read_uleb(m, j, 0, 0) matches Some(Some((cnt, j1)))
            && exports_from(m, j1, cnt as nat) == Some(seq![(w_run(), 0u8, 0int), (w_kernel(), 0u8, 0int)]
                + if heap { seq![(w_memory(), 2u8, 0int)] } else { Seq::empty() }),
{
    let e1 = export_entry(w_run(), 0);
    let e2 = export_entry(w_kernel(), 0);
    let e3 = export_entry(w_memory(), 2);
    let cntb = spec_uleb(if heap { 3 } else { 2 });
    let c = cntb + e1 + e2 + if heap { e3 } else { Seq::empty() };
    let whole = sec(7, c);
    let u = spec_uleb(c.len());
    lemma_uleb_len32(c.len());
    assert(whole == seq![7u8] + u + c);
    assert(m[i] == 7u8) by {
        assert(m.subrange(i, i + whole.len())[0] == m[i]);
    }
    let lu = u.len() as int;
    lemma_bytes_sub(m, i, whole, 1, 1 + lu);
    assert(whole.subrange(1, 1 + lu) =~= u);
    lemma_read_uleb_enc(m, i + 1, c.len());
    let j = i + 1 + lu;
    lemma_bytes_sub(m, i, whole, 1 + lu, whole.len() as int);
    assert(whole.subrange(1 + lu, whole.len() as int) =~= c);
    // the count
    assert(cntb.len() == 1);
    lemma_bytes_sub(m, j, c, 0, 1);
    assert(c.subrange(0, 1) =~= cntb);
    lemma_read_uleb_enc(m, j, if heap { 3 } else { 2 });
    let j1 = j + 1;
    let a = e1.len() as int;
    let b = e2.len() as int;
    lemma_bytes_sub(m, j, c, 1, 1 + a);
    assert(c.subrange(1, 1 + a) =~= e1);
    lemma_bytes_sub(m, j, c, 1 + a, 1 + a + b);
    assert(c.subrange(1 + a, 1 + a + b) =~= e2);
    if heap {
        let cc = e3.len() as int;
        lemma_bytes_sub(m, j, c, 1 + a + b, 1 + a + b + cc);
        assert(c.subrange(1 + a + b, 1 + a + b + cc) =~= e3);
        assert(exports_from(m, j1 + a + b + cc, 0) == Some(Seq::<(Seq<u8>, u8, int)>::empty()));
        lemma_export_entry(m, j1 + a + b, w_memory(), 2, 1);
        lemma_export_entry(m, j1 + a, w_kernel(), 0, 2);
        lemma_export_entry(m, j1, w_run(), 0, 3);
        assert(seq![(w_run(), 0u8, 0int)] + (seq![(w_kernel(), 0u8, 0int)] + (seq![(w_memory(), 2u8, 0int)] + Seq::<(Seq<u8>, u8, int)>::empty()))
            =~= seq![(w_run(), 0u8, 0int), (w_kernel(), 0u8, 0int)] + seq![(w_memory(), 2u8, 0int)]);
    } else {
        assert(exports_from(m, j1 + a + b, 0) == Some(Seq::<(Seq<u8>, u8, int)>::empty()));
        lemma_export_entry(m, j1 + a, w_kernel(), 0, 1);
        lemma_export_entry(m, j1, w_run(), 0, 2);
        assert(seq![(w_run(), 0u8, 0int)] + (seq![(w_kernel(), 0u8, 0int)] + Seq::<(Seq<u8>, u8, int)>::empty())
            =~= seq![(w_run(), 0u8, 0int), (w_kernel(), 0u8, 0int)] + Seq::<(Seq<u8>, u8, int)>::empty());
    }
}

/// The module of stage G exports its function as `run` and as `kernel` (function 0), and its
/// memory as `memory` where it has one (the names spelled in ASCII): those entries, in that order, are what its export
/// section reads as. It holds where the code and the pool fit the 32-bit section lengths.
#[verifier::spinoff_prover]
#[verifier::rlimit(100)]
pub proof fn law_module_d_exports(body: Seq<u8>, nlocals: u32, pages: Option<u32>, pool: Seq<u8>)
    requires
        body.len() < 0x7fff_0000,
        pool.len() < 0x7fff_0000,
    ensures
        exports_of(module_d_s(body, nlocals, pages, pool)) == Some(
            seq![(seq![0x72u8, 0x75u8, 0x6Eu8], 0u8, 0int), (seq![0x6Bu8, 0x65u8, 0x72u8, 0x6Eu8, 0x65u8, 0x6Cu8], 0u8, 0int)]
                + if pages is Some { seq![(seq![0x6Du8, 0x65u8, 0x6Du8, 0x6Fu8, 0x72u8, 0x79u8], 2u8, 0int)] } else { Seq::empty() },
        ),
{
    assert(w_run() =~= seq![0x72u8, 0x75u8, 0x6Eu8]);
    assert(w_kernel() =~= seq![0x6Bu8, 0x65u8, 0x72u8, 0x6Eu8, 0x65u8, 0x6Cu8]);
    assert(w_memory() =~= seq![0x6Du8, 0x65u8, 0x6Du8, 0x6Fu8, 0x72u8, 0x79u8]);
    let heap = pages is Some;
    let t = spec_uleb(1) + seq![0x60u8] + spec_uleb(0) + spec_uleb(1) + seq![0x7Eu8];
    let f = spec_uleb(1) + spec_uleb(0);
    let e = spec_uleb(if heap { 3 } else { 2 }) + export_entry(w_run(), 0) + export_entry(w_kernel(), 0) + if heap {
        export_entry(w_memory(), 2)
    } else {
        Seq::empty()
    };
    let d = spec_uleb(1) + spec_uleb(0) + seq![0x41u8] + spec_sleb(16) + seq![0x0Bu8] + spec_uleb((pool.len() as u32) as nat)
        + pool;
    let cc = code_content(body, nlocals);
    let s5 = match pages {
        Some(pg) => sec(5, spec_uleb(1) + seq![0x00u8] + spec_uleb(pg as nat)),
        None => Seq::empty(),
    };
    let s11 = if pool.len() > 0 { sec(11, d) } else { Seq::empty() };
    let p1 = wasm_header();
    let p2 = p1 + sec(1, t);
    let p3 = p2 + sec(3, f);
    let p4 = p3 + s5;
    let p5 = p4 + sec(7, e);
    let p6 = p5 + sec(10, cc);
    let m = p6 + s11;
    assert(m == module_d_s(body, nlocals, pages, pool));
    lemma_module_d_len(body, nlocals, pages, pool);
    lemma_code_content_len(body, nlocals);
    lemma_bytes_tail(p1, sec(1, t));
    lemma_bytes_ext(p2, 8, sec(1, t), sec(3, f));
    lemma_bytes_ext(p3, 8, sec(1, t), s5);
    lemma_bytes_ext(p4, 8, sec(1, t), sec(7, e));
    lemma_bytes_ext(p5, 8, sec(1, t), sec(10, cc));
    lemma_bytes_ext(p6, 8, sec(1, t), s11);
    lemma_skip_sec_find(m, 8, 1, t, 7);
    lemma_bytes_tail(p2, sec(3, f));
    lemma_bytes_ext(p3, p2.len() as int, sec(3, f), s5);
    lemma_bytes_ext(p4, p2.len() as int, sec(3, f), sec(7, e));
    lemma_bytes_ext(p5, p2.len() as int, sec(3, f), sec(10, cc));
    lemma_bytes_ext(p6, p2.len() as int, sec(3, f), s11);
    lemma_skip_sec_find(m, p2.len() as int, 3, f, 7);
    if let Some(pg) = pages {
        let c5 = spec_uleb(1) + seq![0x00u8] + spec_uleb(pg as nat);
        lemma_uleb_len32(pg as nat);
        lemma_bytes_tail(p3, sec(5, c5));
        lemma_bytes_ext(p4, p3.len() as int, sec(5, c5), sec(7, e));
        lemma_bytes_ext(p5, p3.len() as int, sec(5, c5), sec(10, cc));
        lemma_bytes_ext(p6, p3.len() as int, sec(5, c5), s11);
        lemma_skip_sec_find(m, p3.len() as int, 5, c5, 7);
    }
    lemma_bytes_tail(p4, sec(7, e));
    lemma_bytes_ext(p5, p4.len() as int, sec(7, e), sec(10, cc));
    lemma_bytes_ext(p6, p4.len() as int, sec(7, e), s11);
    lemma_read_exports(m, p4.len() as int, heap);
}

} // verus!
