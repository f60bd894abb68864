use vstd::prelude::*;
use crate::leb::{sleb, spec_sleb, spec_uleb, uleb};

verus! {

/// A section: its id, the length of its content, the content.
pub open spec fn sec(id: u8, c: Seq<u8>) -> Seq<u8> {
    seq![id] + spec_uleb((c.len() as u32) as nat) + c
}

/// Appends a section with id `id` and content `content`.
pub fn section(id: u8, content: Vec<u8>, out: &mut Vec<u8>)
    ensures
        final(out)@ == old(out)@ + sec(id, content@),
{
    let ghost c = content@;
    out.push(id);
    uleb(content.len() as u32, out);
    let mut content = content;
    out.append(&mut content);
    assert(final(out)@ =~= old(out)@ + sec(id, c));
}

/// The bytes of the export name "run".
pub open spec fn w_run() -> Seq<u8> {
    seq![0x72u8, 0x75u8, 0x6Eu8]
}

/// The bytes of the export name "kernel".
pub open spec fn w_kernel() -> Seq<u8> {
    seq![0x6Bu8, 0x65u8, 0x72u8, 0x6Eu8, 0x65u8, 0x6Cu8]
}

/// The bytes of the export name "memory".
pub open spec fn w_memory() -> Seq<u8> {
    seq![0x6Du8, 0x65u8, 0x6Du8, 0x6Fu8, 0x72u8, 0x79u8]
}

/// The bytes of the export name "step".
pub open spec fn w_step() -> Seq<u8> {
    seq![0x73u8, 0x74u8, 0x65u8, 0x70u8]
}

/// The module header: magic and version 1.
pub open spec fn wasm_header() -> Seq<u8> {
    seq![0x00u8, 0x61u8, 0x73u8, 0x6Du8, 0x01u8, 0x00u8, 0x00u8, 0x00u8]
}

/// An export entry: the name's length, the name, the kind, index 0.
pub open spec fn export_entry(name: Seq<u8>, kind: u8) -> Seq<u8> {
    spec_uleb(name.len()) + name + seq![kind] + spec_uleb(0)
}

/// The one function body: `nlocals` locals of type i64, the code, `end`.
pub open spec fn func_body(body: Seq<u8>, nlocals: u32) -> Seq<u8> {
    spec_uleb(1) + spec_uleb(nlocals as nat) + seq![0x7Eu8] + body + seq![0x0Bu8]
}

/// The code section's content: one entry, its size, the body.
pub open spec fn code_content(body: Seq<u8>, nlocals: u32) -> Seq<u8> {
    let fb = func_body(body, nlocals);
    spec_uleb(1) + spec_uleb((fb.len() as u32) as nat) + fb
}

/// The module of stage G: type `() -> i64`, one function, a memory of `pages` pages where
/// given, exports "run" and "kernel" (and "memory" with a memory), the code, and the string
/// pool as data at address 16 where it is not empty.
pub open spec fn module_d_s(body: Seq<u8>, nlocals: u32, pages: Option<u32>, pool: Seq<u8>) -> Seq<u8> {
    let heap = pages is Some;
    let t = spec_uleb(1) + seq![0x60u8] + spec_uleb(0) + spec_uleb(1) + seq![0x7Eu8];
    let f = spec_uleb(1) + spec_uleb(0);
    let e = spec_uleb(if heap { 3 } else { 2 }) + export_entry(w_run(), 0) + export_entry(w_kernel(), 0) + if heap {
        export_entry(w_memory(), 2)
    } else {
        Seq::empty()
    };
    let d = spec_uleb(1) + spec_uleb(0) + seq![0x41u8] + spec_sleb(16) + seq![0x0Bu8] + spec_uleb((pool.len() as u32) as nat)
        + pool;
    wasm_header() + sec(1, t) + sec(3, f) + match pages {
        Some(pg) => sec(5, spec_uleb(1) + seq![0x00u8] + spec_uleb(pg as nat)),
        None => Seq::empty(),
    } + sec(7, e) + sec(10, code_content(body, nlocals)) + if pool.len() > 0 {
        sec(11, d)
    } else {
        Seq::empty()
    }
}

/// Appends an export entry.
fn push_export(e: &mut Vec<u8>, name: &[u8], kind: u8)
    requires
        name@.len() < 128,
    ensures
        final(e)@ == old(e)@ + export_entry(name@, kind),
{
    uleb(name.len() as u32, e);
    let mut k: usize = 0;
    let ghost e1 = e@;
    while k < name.len()
        invariant
            k <= name@.len(),
            e@ == e1 + name@.subrange(0, k as int),
        decreases name@.len() - k,
    {
        e.push(name[k]);
        assert(name@.subrange(0, k + 1) =~= name@.subrange(0, k as int).push(name@[k as int]));
        k += 1;
    }
    e.push(kind);
    uleb(0, e);
    assert(final(e)@ =~= old(e)@ + export_entry(name@, kind));
}

/// Appends the code section for one function with `nlocals` i64 locals and code `body`.
fn push_code(m: &mut Vec<u8>, body: &[u8], nlocals: u32)
    ensures
        final(m)@ == old(m)@ + sec(10, code_content(body@, nlocals)),
{
    let mut fb: Vec<u8> = Vec::new();
    uleb(1, &mut fb);
    uleb(nlocals, &mut fb);
    fb.push(0x7E);
    let mut k: usize = 0;
    let ghost f1 = fb@;
    while k < body.len()
        invariant
            k <= body@.len(),
            fb@ == f1 + body@.subrange(0, k as int),
        decreases body@.len() - k,
    {
        fb.push(body[k]);
        assert(body@.subrange(0, k + 1) =~= body@.subrange(0, k as int).push(body@[k as int]));
        k += 1;
    }
    fb.push(0x0B);
    assert(fb@ =~= func_body(body@, nlocals));
    let ghost fbv = fb@;
    let mut c: Vec<u8> = Vec::new();
    uleb(1, &mut c);
    uleb(fb.len() as u32, &mut c);
    c.append(&mut fb);
    assert(c@ =~= code_content(body@, nlocals));
    section(10, c, m);
}

/// Builds the module of stage G around `body`; see `module_d_s`.
pub fn wasm_module_d(body: &[u8], nlocals: u32, pages: Option<u32>, pool: &[u8]) -> (m: Vec<u8>)
    ensures
        m@ == module_d_s(body@, nlocals, pages, pool@),
{
    let mut m: Vec<u8> = Vec::new();
    m.push(0x00);
    m.push(0x61);
    m.push(0x73);
    m.push(0x6D);
    m.push(0x01);
    m.push(0x00);
    m.push(0x00);
    m.push(0x00);
    let mut t: Vec<u8> = Vec::new();
    uleb(1, &mut t);
    t.push(0x60);
    uleb(0, &mut t);
    uleb(1, &mut t);
    t.push(0x7E);
    section(1, t, &mut m);
    let mut f: Vec<u8> = Vec::new();
    uleb(1, &mut f);
    uleb(0, &mut f);
    section(3, f, &mut m);
    let heap = pages.is_some();
    let ghost m3 = m@;
    if let Some(pg) = pages {
        let mut mem: Vec<u8> = Vec::new();
        uleb(1, &mut mem);
        mem.push(0x00);
        uleb(pg, &mut mem);
        section(5, mem, &mut m);
    }
    let mut e: Vec<u8> = Vec::new();
    uleb(if heap { 3 } else { 2 }, &mut e);
    push_export(&mut e, &[0x72, 0x75, 0x6E], 0);
    push_export(&mut e, &[0x6B, 0x65, 0x72, 0x6E, 0x65, 0x6C], 0);
    if heap {
        push_export(&mut e, &[0x6D, 0x65, 0x6D, 0x6F, 0x72, 0x79], 2);
    }
    section(7, e, &mut m);
    push_code(&mut m, body, nlocals);
    if pool.len() > 0 {
        let mut d: Vec<u8> = Vec::new();
        uleb(1, &mut d);
        uleb(0, &mut d);
        d.push(0x41);
        sleb(16, &mut d);
        d.push(0x0B);
        uleb(pool.len() as u32, &mut d);
        let mut k: usize = 0;
        let ghost d1 = d@;
        while k < pool.len()
            invariant
                k <= pool@.len(),
                d@ == d1 + pool@.subrange(0, k as int),
            decreases pool@.len() - k,
        {
            d.push(pool[k]);
            assert(pool@.subrange(0, k + 1) =~= pool@.subrange(0, k as int).push(pool@[k as int]));
            k += 1;
        }
        section(11, d, &mut m);
    }
    assert(m@ =~= module_d_s(body@, nlocals, pages, pool@));
    m
}

/// The module of stage H, driven by a host: type `(i64) -> i64`, one function, one page of
/// memory, exports "step" and "memory", and the code.
pub open spec fn engine_module_s(body: Seq<u8>, nlocals: u32) -> Seq<u8> {
    let t = spec_uleb(1) + seq![0x60u8] + spec_uleb(1) + seq![0x7Eu8] + spec_uleb(1) + seq![0x7Eu8];
    let f = spec_uleb(1) + spec_uleb(0);
    let mem = spec_uleb(1) + seq![0x00u8] + spec_uleb(1);
    let e = spec_uleb(2) + export_entry(w_step(), 0) + export_entry(w_memory(), 2);
    wasm_header() + sec(1, t) + sec(3, f) + sec(5, mem) + sec(7, e) + sec(10, code_content(body, nlocals))
}

/// Builds the module of stage H around `body`; see `engine_module_s`.
pub fn wasm_engine_module(body: &[u8], nlocals: u32) -> (m: Vec<u8>)
    ensures
        m@ == engine_module_s(body@, nlocals),
{
    let mut m: Vec<u8> = Vec::new();
    m.push(0x00);
    m.push(0x61);
    m.push(0x73);
    m.push(0x6D);
    m.push(0x01);
    m.push(0x00);
    m.push(0x00);
    m.push(0x00);
    let mut t: Vec<u8> = Vec::new();
    uleb(1, &mut t);
    t.push(0x60);
    uleb(1, &mut t);
    t.push(0x7E);
    uleb(1, &mut t);
    t.push(0x7E);
    section(1, t, &mut m);
    let mut f: Vec<u8> = Vec::new();
    uleb(1, &mut f);
    uleb(0, &mut f);
    section(3, f, &mut m);
    let mut mem: Vec<u8> = Vec::new();
    uleb(1, &mut mem);
    mem.push(0x00);
    uleb(1, &mut mem);
    section(5, mem, &mut m);
    let mut e: Vec<u8> = Vec::new();
    uleb(2, &mut e);
    push_export(&mut e, &[0x73, 0x74, 0x65, 0x70], 0);
    push_export(&mut e, &[0x6D, 0x65, 0x6D, 0x6F, 0x72, 0x79], 2);
    section(7, e, &mut m);
    push_code(&mut m, body, nlocals);
    assert(m@ =~= engine_module_s(body@, nlocals));
    m
}

/// Reading an unsigned LEB128 number at `i` as the scanners do, with `sh` bits and value `acc`
/// read so far: the value (bits past the width of `usize` fall off) and the position after it.
/// `Some(None)` where the input ends first; `None` where the shift would reach the width of
/// `usize`.
pub open spec fn read_uleb(m: Seq<u8>, i: int, sh: u32, acc: usize) -> Option<Option<(usize, int)>>
    decreases m.len() - i,
{
    if i < 0 || i >= m.len() {
        Some(None)
    } else if sh >= usize::BITS {
        None
    } else {
        let x = m[i];
        let acc2 = acc | (((x & 0x7f) as usize) << sh);
        if x < 0x80 {
            Some(Some((acc2, i + 1)))
        } else {
            read_uleb(m, i + 1, (sh + 7) as u32, acc2)
        }
    }
}

/// A number read ends after where it starts, within the input.
pub proof fn lemma_read_uleb_adv(m: Seq<u8>, i: int, sh: u32, acc: usize)
    ensures
        read_uleb(m, i, sh, acc) matches Some(Some((v, j))) ==> i < j <= m.len(),
    decreases m.len() - i,
{
    if 0 <= i < m.len() && sh < usize::BITS && m[i] >= 0x80 {
        lemma_read_uleb_adv(m, i + 1, (sh + 7) as u32, acc | (((m[i] & 0x7f) as usize) << sh));
    }
}

/// Reads an unsigned LEB128 number at `i`: the value and the position after it, or `None`
/// where the input ends first.
fn read_u(m: &[u8], i: usize) -> (r: Option<(usize, usize)>)
    requires
        read_uleb(m@, i as int, 0, 0) is Some,
    ensures
        match r {
            Some((v, j)) => read_uleb(m@, i as int, 0, 0) == Some(Some((v, j as int))),
            None => read_uleb(m@, i as int, 0, 0) == Some(None::<(usize, int)>),
        },
{
    let mut n: usize = 0;
    let mut sh: u32 = 0;
    let mut j = i;
    loop
        invariant
            read_uleb(m@, i as int, 0, 0) == read_uleb(m@, j as int, sh, n),
            read_uleb(m@, i as int, 0, 0) is Some,
        decreases m@.len() - j,
    {
        if j >= m.len() {
            return None;
        }
        let x = m[j];
        j += 1;
        n = n | (((x & 0x7f) as usize) << sh);
        sh += 7;
        if x < 0x80 {
            return Some((n, j));
        }
    }
}

/// Whether the sections from position `i` on hold an import section (id 2); reading stops with
/// no where the input ends inside a section header. `None` where a length overflows.
pub open spec fn has_import_from(m: Seq<u8>, i: int) -> Option<bool>
    decreases m.len() - i,
{
    if i < 0 || i >= m.len() {
        Some(false)
    } else {
        match read_uleb(m, i + 1, 0, 0) {
            None => None,
            Some(None) => Some(false),
            Some(Some((n, j))) => if m[i] == 2 {
                Some(true)
            } else if j + n > usize::MAX {
                None
            } else if j + n >= m.len() {
                Some(false)
            } else {
                proof {
                    lemma_read_uleb_adv(m, i + 1, 0, 0);
                }
                has_import_from(m, j + n)
            },
        }
    }
}

/// Whether module `m` has an import section, walking its sections after the header.
pub fn has_import(m: &[u8]) -> (r: bool)
    requires
        has_import_from(m@, 8) is Some,
    ensures
        has_import_from(m@, 8) == Some(r),
{
    let mut i: usize = 8;
    while i < m.len()
        invariant
            has_import_from(m@, 8) == has_import_from(m@, i as int),
            has_import_from(m@, 8) is Some,
        decreases if i <= m@.len() { m@.len() - i + 1 } else { 0 },
    {
        let sid = m[i];
        i += 1;
        let (n, j) = match read_u(m, i) {
            None => return false,
            Some(p) => p,
        };
        if sid == 2 {
            return true;
        }
        proof { lemma_read_uleb_adv(m@, i as int, 0, 0); }
        i = j + n;
    }
    false
}

/// Why a module's code could not be walked.
#[derive(Clone, Copy, Debug, PartialEq, Eq, Structural)]
pub enum ScanError {
    /// An unsigned number runs past the end of the module.
    UlebOut,
    /// A signed number runs past the end of the module.
    SlebOut,
    /// A section runs past the end of the module.
    SectionOut,
    /// A function body runs past the end of the code section.
    BodyOut,
    /// An opcode the walker does not know the immediates of.
    UnknownOp(u8),
}

/// An unsigned number at `i`: the value and the position after it; `Err` where the module ends
/// first, `None` where the shift would reach the width of `usize`.
pub open spec fn u_s(m: Seq<u8>, i: int) -> Option<Result<(usize, int), ScanError>> {
    match read_uleb(m, i, 0, 0) {
        None => None,
        Some(None) => Some(Err(ScanError::UlebOut)),
        Some(Some(p)) => Some(Ok(p)),
    }
}

/// The position after a signed number at `i`; `Err` where the module ends first.
pub open spec fn sk_s(m: Seq<u8>, i: int) -> Result<int, ScanError>
    decreases m.len() - i,
{
    if i < 0 || i >= m.len() {
        Err(ScanError::SlebOut)
    } else if m[i] < 0x80 {
        Ok(i + 1)
    } else {
        sk_s(m, i + 1)
    }
}

/// A skipped signed number ends after where it starts, within the input.
pub proof fn lemma_sk_adv(m: Seq<u8>, i: int)
    ensures
        sk_s(m, i) matches Ok(j) ==> i < j <= m.len(),
    decreases m.len() - i,
{
    if 0 <= i < m.len() && m[i] >= 0x80 {
        lemma_sk_adv(m, i + 1);
    }
}

/// The opcodes without immediates that the emitter produces.
pub open spec fn noimm(op: u8) -> bool {
    op == 0x00 || op == 0x01 || op == 0x05 || op == 0x0B || op == 0x0F || op == 0x1A || op == 0x1B || op == 0x45
        || op == 0x46 || op == 0x51 || op == 0x52 || op == 0x55 || op == 0x6A || op == 0x6B || op == 0x7C || op == 0x7D
        || op == 0x7E || op == 0x7F || op == 0x83 || op == 0x84 || op == 0x86 || op == 0x88 || op == 0xA7 || op == 0xAD
}

/// Walking instructions from `j` to `bend`, counting `if`s (0x04) and instructions on top of
/// `ifs` and `ops`.
pub open spec fn ops_s(m: Seq<u8>, j: int, bend: int, ifs: nat, ops: nat) -> Option<Result<(nat, nat), ScanError>>
    decreases (if j <= bend { bend - j + 1 } else { 0 }),
{
    if j >= bend {
        Some(Ok((ifs, ops)))
    } else if j < 0 || j >= m.len() {
        None
    } else {
        let op = m[j];
        let ifs1 = if op == 0x04 { ifs + 1 } else { ifs };
        let ops1 = ops + 1;
        if noimm(op) {
            ops_s(m, j + 1, bend, ifs1, ops1)
        } else if op == 0x02 || op == 0x03 || op == 0x04 {
            ops_s(m, j + 2, bend, ifs1, ops1)
        } else if op == 0x0C || op == 0x0D || op == 0x20 || op == 0x21 || op == 0x22 {
            match u_s(m, j + 1) {
                None => None,
                Some(Err(e)) => Some(Err(e)),
                Some(Ok((_, j2))) => {
                    proof {
                        lemma_read_uleb_adv(m, j + 1, 0, 0);
                    }
                    ops_s(m, j2, bend, ifs1, ops1)
                },
            }
        } else if op == 0x41 || op == 0x42 {
            match sk_s(m, j + 1) {
                Err(e) => Some(Err(e)),
                Ok(j2) => {
                    proof {
                        lemma_sk_adv(m, j + 1);
                    }
                    ops_s(m, j2, bend, ifs1, ops1)
                },
            }
        } else if 0x28 <= op <= 0x3E {
            match u_s(m, j + 1) {
                None => None,
                Some(Err(e)) => Some(Err(e)),
                Some(Ok((_, j2))) => match u_s(m, j2) {
                    None => None,
                    Some(Err(e)) => Some(Err(e)),
                    Some(Ok((_, j3))) => {
                        proof {
                            lemma_read_uleb_adv(m, j + 1, 0, 0);
                            lemma_read_uleb_adv(m, j2, 0, 0);
                        }
                        ops_s(m, j3, bend, ifs1, ops1)
                    },
                },
            }
        } else {
            Some(Err(ScanError::UnknownOp(op)))
        }
    }
}

/// Skipping local declarations `k..decls` from `j`: each a count and a type byte.
pub open spec fn decls_s(m: Seq<u8>, j: int, k: nat, decls: nat) -> Option<Result<int, ScanError>>
    decreases decls - k,
{
    if k >= decls {
        Some(Ok(j))
    } else {
        match u_s(m, j) {
            None => None,
            Some(Err(e)) => Some(Err(e)),
            Some(Ok((_, j2))) => decls_s(m, j2 + 1, k + 1, decls),
        }
    }
}

/// Walking function bodies `k..cnt` from `j` within a code section ending at `end`.
pub open spec fn entries_s(m: Seq<u8>, j: int, end: int, k: nat, cnt: nat, ifs: nat, ops: nat) -> Option<Result<(nat, nat), ScanError>>
    decreases cnt - k,
{
    if k >= cnt {
        Some(Ok((ifs, ops)))
    } else {
        match u_s(m, j) {
            None => None,
            Some(Err(e)) => Some(Err(e)),
            Some(Ok((sz, j1))) => if j1 + sz > usize::MAX {
                None
            } else if j1 + sz > end {
                Some(Err(ScanError::BodyOut))
            } else {
                match u_s(m, j1) {
                    None => None,
                    Some(Err(e)) => Some(Err(e)),
                    Some(Ok((decls, j2))) => match decls_s(m, j2, 0, decls as nat) {
                        None => None,
                        Some(Err(e)) => Some(Err(e)),
                        Some(Ok(j3)) => match ops_s(m, j3, j1 + sz, ifs, ops) {
                            None => None,
                            Some(Err(e)) => Some(Err(e)),
                            Some(Ok((ifs2, ops2))) => entries_s(m, j1 + sz, end, k + 1, cnt, ifs2, ops2),
                        },
                    },
                }
            },
        }
    }
}

/// Walking the sections from `i`, counting in every code section (id 10).
pub open spec fn secs_s(m: Seq<u8>, i: int, ifs: nat, ops: nat) -> Option<Result<(nat, nat), ScanError>>
    decreases m.len() - i,
{
    if i < 0 || i >= m.len() {
        Some(Ok((ifs, ops)))
    } else {
        match u_s(m, i + 1) {
            None => None,
            Some(Err(e)) => Some(Err(e)),
            Some(Ok((n, j))) => if j + n > usize::MAX {
                None
            } else if j + n > m.len() {
                Some(Err(ScanError::SectionOut))
            } else {
                proof {
                    lemma_read_uleb_adv(m, i + 1, 0, 0);
                }
                if m[i] == 10 {
                    match u_s(m, j) {
                        None => None,
                        Some(Err(e)) => Some(Err(e)),
                        Some(Ok((cnt, j2))) => match entries_s(m, j2, j + n, 0, cnt as nat, ifs, ops) {
                            None => None,
                            Some(Err(e)) => Some(Err(e)),
                            Some(Ok((ifs2, ops2))) => secs_s(m, j + n, ifs2, ops2),
                        },
                    }
                } else {
                    secs_s(m, j + n, ifs, ops)
                }
            },
        }
    }
}

/// The number of `if` instructions (0x04) and of all instructions in the code sections of
/// module `m`.
pub open spec fn ifop_s(m: Seq<u8>) -> Option<Result<(nat, nat), ScanError>> {
    secs_s(m, 8, 0, 0)
}

/// Reads an unsigned number at `i`: the value and the position after it.
fn scan_u(m: &[u8], i: usize) -> (r: Result<(usize, usize), ScanError>)
    requires
        u_s(m@, i as int) is Some,
    ensures
        match u_s(m@, i as int).unwrap() {
            Ok((v, j)) => r == Ok::<(usize, usize), ScanError>((v, j as usize)) && j <= m@.len() && i < j,
            Err(e) => r == Err::<(usize, usize), ScanError>(e),
        },
{
    proof { lemma_read_uleb_adv(m@, i as int, 0, 0); }
    match read_u(m, i) {
        None => Err(ScanError::UlebOut),
        Some(p) => Ok(p),
    }
}

/// Skips a signed number at `i`, giving the position after it.
fn skip_sleb(m: &[u8], i: usize) -> (r: Result<usize, ScanError>)
    ensures
        match sk_s(m@, i as int) {
            Ok(j) => r == Ok::<usize, ScanError>(j as usize) && i < j <= m@.len(),
            Err(e) => r == Err::<usize, ScanError>(e),
        },
{
    proof { lemma_sk_adv(m@, i as int); }
    let mut j = i;
    loop
        invariant
            sk_s(m@, i as int) == sk_s(m@, j as int),
            i <= j,
        decreases (if j <= m@.len() { m@.len() - j + 1 } else { 0 }),
    {
        if j >= m.len() {
            return Err(ScanError::SlebOut);
        }
        let x = m[j];
        j += 1;
        if x < 0x80 {
            return Ok(j);
        }
    }
}

/// Walks the instructions from `j` to `bend`; see `ops_s`.
fn walk_ops(m: &[u8], j: usize, bend: usize, ifs: usize, ops: usize) -> (r: Result<(usize, usize), ScanError>)
    requires
        m@.len() + 2 <= usize::MAX,
        bend <= m@.len(),
        ifs <= ops,
        ops <= j,
        ops_s(m@, j as int, bend as int, ifs as nat, ops as nat) is Some,
    ensures
        match ops_s(m@, j as int, bend as int, ifs as nat, ops as nat).unwrap() {
            Ok((a, b)) => r == Ok::<(usize, usize), ScanError>((a as usize, b as usize)) && a <= b
                && (j <= bend ==> b + j <= ops + bend) && (j > bend ==> b == ops),
            Err(e) => r == Err::<(usize, usize), ScanError>(e),
        },
{
    let ghost target = ops_s(m@, j as int, bend as int, ifs as nat, ops as nat);
    let ghost j0 = j;
    let ghost ops0 = ops;
    let mut pos = j;
    let mut nifs = ifs;
    let mut nops = ops;
    while pos < bend
        invariant
            target == ops_s(m@, j0 as int, bend as int, ifs as nat, ops0 as nat),
            j0 == j,
            ops0 == ops,
            m@.len() + 2 <= usize::MAX,
            bend <= m@.len(),
            nifs <= nops,
            j0 <= bend ==> nops + j0 <= ops0 + (if pos < bend { pos as int } else { bend as int }),
            ops0 <= j0,
            j0 > bend ==> nops == ops0 && pos == j0,
            j0 <= pos,
            target == ops_s(m@, pos as int, bend as int, nifs as nat, nops as nat),
            target is Some,
        decreases (if pos <= bend { bend - pos + 1 } else { 0 }),
    {
        let op = m[pos];
        pos += 1;
        nops += 1;
        if op == 0x04 {
            nifs += 1;
        }
        let noimm_op = op == 0x00 || op == 0x01 || op == 0x05 || op == 0x0B || op == 0x0F || op == 0x1A || op == 0x1B
            || op == 0x45 || op == 0x46 || op == 0x51 || op == 0x52 || op == 0x55 || op == 0x6A || op == 0x6B || op == 0x7C
            || op == 0x7D || op == 0x7E || op == 0x7F || op == 0x83 || op == 0x84 || op == 0x86 || op == 0x88 || op == 0xA7
            || op == 0xAD;
        if noimm_op {
        } else if op == 0x02 || op == 0x03 || op == 0x04 {
            pos += 1;
        } else if op == 0x0C || op == 0x0D || op == 0x20 || op == 0x21 || op == 0x22 {
            match scan_u(m, pos) {
                Err(e) => return Err(e),
                Ok((_, j2)) => pos = j2,
            }
        } else if op == 0x41 || op == 0x42 {
            match skip_sleb(m, pos) {
                Err(e) => return Err(e),
                Ok(j2) => pos = j2,
            }
        } else if 0x28 <= op && op <= 0x3E {
            match scan_u(m, pos) {
                Err(e) => return Err(e),
                Ok((_, j2)) => pos = j2,
            }
            match scan_u(m, pos) {
                Err(e) => return Err(e),
                Ok((_, j3)) => pos = j3,
            }
        } else {
            return Err(ScanError::UnknownOp(op));
        }
    }
    Ok((nifs, nops))
}

/// Skips local declarations `k..decls` from `j`; see `decls_s`.
fn skip_decls(m: &[u8], j: usize, decls: usize) -> (r: Result<usize, ScanError>)
    requires
        m@.len() + 2 <= usize::MAX,
        decls_s(m@, j as int, 0, decls as nat) is Some,
    ensures
        match decls_s(m@, j as int, 0, decls as nat).unwrap() {
            Ok(j2) => r matches Ok(x) && x as int == j2 && j <= j2,
            Err(e) => r == Err::<usize, ScanError>(e),
        },
{
    let ghost target = decls_s(m@, j as int, 0, decls as nat);
    let ghost j0 = j;
    let mut pos = j;
    let mut k: usize = 0;
    while k < decls
        invariant
            m@.len() + 2 <= usize::MAX,
            k <= decls,
            j0 <= pos,
            j0 == j,
            pos <= m@.len() + 1 || pos == j0,
            target == decls_s(m@, j0 as int, 0, decls as nat),
            target == decls_s(m@, pos as int, k as nat, decls as nat),
            target is Some,
        decreases decls - k,
    {
        match scan_u(m, pos) {
            Err(e) => return Err(e),
            Ok((_, j2)) => pos = j2 + 1,
        }
        k += 1;
    }
    Ok(pos)
}

/// Walks function bodies `0..cnt` from `j` within a code section ending at `end`; see
/// `entries_s`.
fn walk_entries(m: &[u8], j: usize, end: usize, cnt: usize, ifs: usize, ops: usize) -> (r: Result<(usize, usize), ScanError>)
    requires
        m@.len() + 2 <= usize::MAX,
        end <= m@.len(),
        ifs <= ops,
        ops <= j,
        entries_s(m@, j as int, end as int, 0, cnt as nat, ifs as nat, ops as nat) is Some,
    ensures
        match entries_s(m@, j as int, end as int, 0, cnt as nat, ifs as nat, ops as nat).unwrap() {
            Ok((a, b)) => r == Ok::<(usize, usize), ScanError>((a as usize, b as usize)) && a <= b && b <= if j <= end { end } else { ops },
            Err(e) => r == Err::<(usize, usize), ScanError>(e),
        },
{
    let ghost target = entries_s(m@, j as int, end as int, 0, cnt as nat, ifs as nat, ops as nat);
    let ghost ops0 = ops;
    let ghost j0 = j;
    let mut pos = j;
    let mut nifs = ifs;
    let mut nops = ops;
    let mut k: usize = 0;
    while k < cnt
        invariant
            m@.len() + 2 <= usize::MAX,
            end <= m@.len(),
            k <= cnt,
            nifs <= nops,
            nops <= pos,
            j0 == j,
            ops0 == ops,
            target == entries_s(m@, j0 as int, end as int, 0, cnt as nat, ifs as nat, ops0 as nat),
            k == 0 ==> pos == j0 && nops == ops0,
            k > 0 ==> pos <= end && nops <= end && j0 <= end,
            target == entries_s(m@, pos as int, end as int, k as nat, cnt as nat, nifs as nat, nops as nat),
            target is Some,
        decreases cnt - k,
    {
        let (sz, j1) = match scan_u(m, pos) {
            Err(e) => return Err(e),
            Ok(p) => p,
        };
        let bend = j1 + sz;
        if bend > end {
            return Err(ScanError::BodyOut);
        }
        let (decls, j2) = match scan_u(m, j1) {
            Err(e) => return Err(e),
            Ok(p) => p,
        };
        assert(pos < j1 && j1 < j2);
        let j3 = match skip_decls(m, j2, decls) {
            Err(e) => return Err(e),
            Ok(x) => x,
        };
        assert(j2 <= j3);
        let (ifs2, ops2) = match walk_ops(m, j3, bend, nifs, nops) {
            Err(e) => return Err(e),
            Ok(p) => p,
        };
        nifs = ifs2;
        nops = ops2;
        pos = bend;
        k += 1;
    }
    Ok((nifs, nops))
}

/// Counts the `if` instructions (0x04) and all instructions in the code sections of module `m`,
/// walking every instruction by its immediates; `Err` where the module cannot be walked.
pub fn ifop_count(m: &[u8]) -> (r: Result<(usize, usize), ScanError>)
    requires
        m@.len() + 2 <= usize::MAX,
        ifop_s(m@) is Some,
    ensures
        match ifop_s(m@).unwrap() {
            Ok((a, b)) => r == Ok::<(usize, usize), ScanError>((a as usize, b as usize)),
            Err(e) => r == Err::<(usize, usize), ScanError>(e),
        },
{
    let ghost target = ifop_s(m@);
    let mut ifs: usize = 0;
    let mut ops: usize = 0;
    let mut i: usize = 8;
    while i < m.len()
        invariant
            m@.len() + 2 <= usize::MAX,
            ifs <= ops,
            ops <= i,
            target == ifop_s(m@),
            target == secs_s(m@, i as int, ifs as nat, ops as nat),
            target is Some,
        decreases (if i <= m@.len() { m@.len() - i + 1 } else { 0 }),
    {
        let sid = m[i];
        i += 1;
        let (n, j) = match scan_u(m, i) {
            Err(e) => return Err(e),
            Ok(p) => p,
        };
        let end = j + n;
        if end > m.len() {
            return Err(ScanError::SectionOut);
        }
        if sid == 10 {
            let (cnt, j2) = match scan_u(m, j) {
                Err(e) => return Err(e),
                Ok(p) => p,
            };
            let (ifs2, ops2) = match walk_entries(m, j2, end, cnt, ifs, ops) {
                Err(e) => return Err(e),
                Ok(p) => p,
            };
            ifs = ifs2;
            ops = ops2;
        }
        i = end;
    }
    Ok((ifs, ops))
}

/// The base64 alphabet.
pub open spec fn b64_table() -> Seq<char> {
    seq![
        'A', 'B', 'C', 'D', 'E', 'F', 'G', 'H', 'I', 'J', 'K', 'L', 'M', 'N', 'O', 'P', 'Q', 'R', 'S', 'T', 'U', 'V',
        'W', 'X', 'Y', 'Z', 'a', 'b', 'c', 'd', 'e', 'f', 'g', 'h', 'i', 'j', 'k', 'l', 'm', 'n', 'o', 'p', 'q', 'r',
        's', 't', 'u', 'v', 'w', 'x', 'y', 'z', '0', '1', '2', '3', '4', '5', '6', '7', '8', '9', '+', '/',
    ]
}

/// The four characters for the chunk of `d` at `i` (up to three bytes, missing bytes read as
/// zero): four six-bit groups, with `=` for the groups past the chunk's end.
pub open spec fn b64_chunk(d: Seq<u8>, i: int) -> Seq<char> {
    let k = d.len() - i;
    let n = d[i] * 65536 + (if k > 1 { d[i + 1] * 256 } else { 0 }) + (if k > 2 { d[i + 2] as int } else { 0 });
    let t = b64_table();
    seq![
        t[(n / 262144) % 64],
        t[(n / 4096) % 64],
        if k > 1 { t[(n / 64) % 64] } else { '=' },
        if k > 2 { t[n % 64] } else { '=' },
    ]
}

/// The base64 text of `d` from position `i` on.
pub open spec fn b64_from(d: Seq<u8>, i: int) -> Seq<char>
    decreases (if i <= d.len() { d.len() - i + 1 } else { 0 }),
{
    if i < 0 || i >= d.len() {
        Seq::empty()
    } else {
        b64_chunk(d, i) + b64_from(d, i + 3)
    }
}

/// The base64 text of `d`, padded with `=`.
pub open spec fn b64_s(d: Seq<u8>) -> Seq<char> {
    b64_from(d, 0)
}

/// The base64 text of `data`, padded with `=`.
pub fn b64(data: &[u8]) -> (r: String)
    ensures
        r@ == b64_s(data@),
{
    let t: [char; 64] = [
        'A', 'B', 'C', 'D', 'E', 'F', 'G', 'H', 'I', 'J', 'K', 'L', 'M', 'N', 'O', 'P', 'Q', 'R', 'S', 'T', 'U', 'V',
        'W', 'X', 'Y', 'Z', 'a', 'b', 'c', 'd', 'e', 'f', 'g', 'h', 'i', 'j', 'k', 'l', 'm', 'n', 'o', 'p', 'q', 'r',
        's', 't', 'u', 'v', 'w', 'x', 'y', 'z', '0', '1', '2', '3', '4', '5', '6', '7', '8', '9', '+', '/',
    ];
    assert(t@ =~= b64_table());
    let mut o: Vec<char> = Vec::new();
    let mut i: usize = 0;
    while i < data.len()
        invariant
            t@ == b64_table(),
            o@ + b64_from(data@, i as int) == b64_s(data@),
        decreases data@.len() - i,
    {
        let k = data.len() - i;
        let b0 = data[i] as u32;
        let b1 = if k > 1 { data[i + 1] as u32 } else { 0 };
        let b2 = if k > 2 { data[i + 2] as u32 } else { 0 };
        let n = (b0 << 16) | (b1 << 8) | b2;
        assert(n == b0 * 65536 + b1 * 256 + b2) by (bit_vector)
            requires
                n == (b0 << 16) | (b1 << 8) | b2,
                b0 < 256,
                b1 < 256,
                b2 < 256,
        ;
        assert(((n >> 18) & 63) == (n / 262144) % 64 && ((n >> 12) & 63) == (n / 4096) % 64 && ((n >> 6) & 63) == (n / 64) % 64
            && (n & 63) == n % 64) by (bit_vector);
        let ghost o0 = o@;
        o.push(t[((n >> 18) & 63) as usize]);
        o.push(t[((n >> 12) & 63) as usize]);
        o.push(if k > 1 { t[((n >> 6) & 63) as usize] } else { '=' });
        o.push(if k > 2 { t[(n & 63) as usize] } else { '=' });
        assert(o@ =~= o0 + b64_chunk(data@, i as int));
        if k <= 3 {
            assert(b64_from(data@, i + 3) =~= Seq::<char>::empty());
            i = data.len();
        } else {
            i += 3;
        }
    }
    assert(o@ =~= b64_s(data@));
    crate::text::string_of(&o)
}

/// Base64 text is four characters for every three bytes begun.
pub proof fn law_b64_length(d: Seq<u8>)
    ensures
        b64_s(d).len() == 4 * ((d.len() + 2) / 3),
{
    lemma_b64_from_len(d, 0);
}

/// The text from position `i` has four characters per chunk left.
pub proof fn lemma_b64_from_len(d: Seq<u8>, i: int)
    requires
        0 <= i,
    ensures
        b64_from(d, i).len() == if i >= d.len() { 0 } else { 4 * ((d.len() - i + 2) / 3) },
    decreases (if i <= d.len() { d.len() - i + 1 } else { 0 }),
{
    if i < d.len() {
        lemma_b64_from_len(d, i + 3);
    }
}

} // verus!

verus! {

/// Why a built module fails the walk for `if`: its code cannot be walked, or it holds `if`s.
#[derive(Clone, Copy, Debug, PartialEq, Eq, Structural)]
pub enum IfopFinding {
    /// The code could not be walked.
    Unscannable(ScanError),
    /// The code holds this many `if` (0x04) instructions.
    HasIf(usize),
}

/// Walks module `m` for `if` instructions: `Ok` with the number of instructions walked where
/// there is none; else what was found.
pub fn no_ifop(m: &[u8]) -> (r: Result<usize, IfopFinding>)
    requires
        m@.len() + 2 <= usize::MAX,
        ifop_s(m@) is Some,
    ensures
        match ifop_s(m@).unwrap() {
            Ok((ifs, ops)) => if ifs as usize > 0 {
                r == Err::<usize, IfopFinding>(IfopFinding::HasIf(ifs as usize))
            } else {
                r == Ok::<usize, IfopFinding>(ops as usize)
            },
            Err(e) => r == Err::<usize, IfopFinding>(IfopFinding::Unscannable(e)),
        },
{
    match ifop_count(m) {
        Err(e) => Err(IfopFinding::Unscannable(e)),
        Ok((n, ops)) => if n > 0 {
            Err(IfopFinding::HasIf(n))
        } else {
            Ok(ops)
        },
    }
}

} // verus!
