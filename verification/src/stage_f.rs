use vstd::prelude::*;
use crate::stage_e::Op;

verus! {

/// The registers that slots may be pinned to, in order: rdx, rsi, r8, r9, r10, r11.
pub open spec fn pin_reg(i: int) -> u8 {
    if i == 0 {
        2
    } else if i == 1 {
        6
    } else if i == 2 {
        8
    } else if i == 3 {
        9
    } else if i == 4 {
        10
    } else {
        11
    }
}

/// The register for rank `i`.
fn pin_at(i: usize) -> (r: u8)
    requires
        i < 6,
    ensures
        r == pin_reg(i as int),
{
    let pin: [u8; 6] = [2, 6, 8, 9, 10, 11];
    pin[i]
}

/// The slot an instruction reads or writes, if any.
pub open spec fn slot_use(op: Op) -> Option<u32> {
    match op {
        Op::Load(s) | Op::Store(s) => Some(s),
        _ => None,
    }
}

/// How many of the first `n` instructions read or write slot `s`.
pub open spec fn uses(code: Seq<Op>, s: u32, n: int) -> nat
    decreases n,
{
    if n <= 0 || code.len() < n {
        0
    } else {
        uses(code, s, n - 1) + if slot_use(code[n - 1]) == Some(s) { 1nat } else { 0nat }
    }
}

/// How many instructions of `code` read or write slot `s`.
pub open spec fn count_uses(code: Seq<Op>, s: u32) -> nat {
    uses(code, s, code.len() as int)
}

/// Slot `a` ranks before slot `b`: it is used more often, or as often with a smaller number.
pub open spec fn ranks_before(code: Seq<Op>, a: u32, b: u32) -> bool {
    count_uses(code, a) > count_uses(code, b) || (count_uses(code, a) == count_uses(code, b) && a < b)
}

/// The slots pinned to registers: the most used slots, at most six, best first, each with the
/// register of its rank.
pub open spec fn pins_ok(code: Seq<Op>, r: Seq<(u32, u8)>) -> bool {
    &&& r.len() <= 6
    &&& forall|i: int| 0 <= i < r.len() ==> count_uses(code, #[trigger] r[i].0) > 0 && r[i].1 == pin_reg(i)
    &&& forall|i: int, j: int| 0 <= i < j < r.len() ==> ranks_before(code, #[trigger] r[i].0, #[trigger] r[j].0)
    &&& forall|s: u32| count_uses(code, s) > 0 && !(exists|i: int| 0 <= i < r.len() && #[trigger] r[i].0 == s) ==> r.len() == 6
        && forall|i: int| 0 <= i < r.len() ==> ranks_before(code, #[trigger] r[i].0, s)
}

/// The pinning is determined: only one assignment of slots to registers meets `pins_ok`, the
/// ranking breaking ties between equally used slots by their number.
pub proof fn law_pins_unique(code: Seq<Op>, r1: Seq<(u32, u8)>, r2: Seq<(u32, u8)>)
    requires
        pins_ok(code, r1),
        pins_ok(code, r2),
    ensures
        r1 == r2,
{
    assert forall|i: int| 0 <= i < r1.len() && 0 <= i < r2.len() implies r1[i] == r2[i] by {
        lemma_pins_prefix(code, r1, r2, i);
    }
    lemma_pins_longer(code, r1, r2);
    lemma_pins_longer(code, r2, r1);
    assert(r1 =~= r2);
}

proof fn lemma_pins_prefix(code: Seq<Op>, r1: Seq<(u32, u8)>, r2: Seq<(u32, u8)>, i: int)
    requires
        pins_ok(code, r1),
        pins_ok(code, r2),
        0 <= i < r1.len(),
        i < r2.len(),
    ensures
        r1[i] == r2[i],
    decreases i,
{
    if i > 0 {
        lemma_pins_prefix(code, r1, r2, i - 1);
    }
    assert forall|j: int| 0 <= j < i implies r1[j] == r2[j] by {
        lemma_pins_prefix(code, r1, r2, j);
    }
    let a = r1[i].0;
    let b = r2[i].0;
    lemma_pins_first_diff(code, r1, r2, i);
    lemma_pins_first_diff(code, r2, r1, i);
    assert(a != b ==> ranks_before(code, a, b) || ranks_before(code, b, a));
}

/// Where two pinnings agree before `i`, the first does not put a better slot at `i`.
proof fn lemma_pins_first_diff(code: Seq<Op>, r1: Seq<(u32, u8)>, r2: Seq<(u32, u8)>, i: int)
    requires
        pins_ok(code, r1),
        pins_ok(code, r2),
        0 <= i < r1.len(),
        i < r2.len(),
        forall|j: int| 0 <= j < i ==> r1[j] == r2[j],
    ensures
        !ranks_before(code, r1[i].0, r2[i].0),
{
    let a = r1[i].0;
    assert(count_uses(code, r1[i].0) > 0);
    if exists|j: int| 0 <= j < r2.len() && #[trigger] r2[j].0 == a {
        let j = choose|j: int| 0 <= j < r2.len() && #[trigger] r2[j].0 == a;
        if j < i {
            assert(r1[j] == r2[j]);
            assert(ranks_before(code, r1[j].0, r1[i].0));
        } else if j > i {
            assert(ranks_before(code, r2[i].0, r2[j].0));
        }
    } else {
        assert(ranks_before(code, r2[i].0, a));
    }
}

/// A pinning that agrees with another where both have entries is not the shorter.
proof fn lemma_pins_longer(code: Seq<Op>, r1: Seq<(u32, u8)>, r2: Seq<(u32, u8)>)
    requires
        pins_ok(code, r1),
        pins_ok(code, r2),
        forall|j: int| 0 <= j < r1.len() && j < r2.len() ==> r1[j] == r2[j],
    ensures
        r1.len() >= r2.len(),
{
    if r1.len() >= r2.len() {
        return;
    }
    let k = r1.len() as int;
    let b = r2[k].0;
    assert(count_uses(code, r2[k].0) > 0);
    if exists|j: int| 0 <= j < r1.len() && #[trigger] r1[j].0 == b {
        let j = choose|j: int| 0 <= j < r1.len() && #[trigger] r1[j].0 == b;
        assert(r1[j] == r2[j]);
        assert(ranks_before(code, r2[j].0, r2[k].0));
    }
}

/// No slot is used more often than there are instructions.
pub proof fn lemma_uses_le(code: Seq<Op>, s: u32, n: int)
    ensures
        uses(code, s, n) <= if n < 0 { 0 } else { n },
    decreases n,
{
    if n > 0 && code.len() >= n {
        lemma_uses_le(code, s, n - 1);
    }
}

/// Counts the uses of each slot: distinct slots with their counts, covering every used slot.
fn slot_counts(code: &[Op]) -> (cs: Vec<(u32, usize)>)
    ensures
        forall|i: int| 0 <= i < cs@.len() ==> #[trigger] cs@[i].1 == count_uses(code@, cs@[i].0) && cs@[i].1 > 0,
        forall|i: int, j: int| 0 <= i < j < cs@.len() ==> #[trigger] cs@[i].0 != #[trigger] cs@[j].0,
        forall|s: u32| count_uses(code@, s) > 0 ==> exists|i: int| 0 <= i < cs@.len() && #[trigger] cs@[i].0 == s,
{
    let mut cs: Vec<(u32, usize)> = Vec::new();
    let mut k: usize = 0;
    while k < code.len()
        invariant
            k <= code@.len(),
            forall|i: int| 0 <= i < cs@.len() ==> #[trigger] cs@[i].1 == uses(code@, cs@[i].0, k as int) && cs@[i].1 > 0,
            forall|i: int, j: int| 0 <= i < j < cs@.len() ==> #[trigger] cs@[i].0 != #[trigger] cs@[j].0,
            forall|s: u32| uses(code@, s, k as int) > 0 ==> exists|i: int| 0 <= i < cs@.len() && #[trigger] cs@[i].0 == s,
        decreases code@.len() - k,
    {
        let ghost c0 = cs@;
        let ghost k1 = (k + 1) as int;
        let su: Option<u32> = match code[k] {
            Op::Load(s) | Op::Store(s) => Some(s),
            _ => None,
        };
        assert(su == slot_use(code@[k as int]));
        if let Some(s) = su {
            let mut j: usize = 0;
            let mut found = false;
            while j < cs.len() && !found
                invariant
                    j <= cs@.len(),
                    cs@ == c0,
                    found ==> j < cs@.len() && cs@[j as int].0 == s,
                    !found ==> forall|i: int| 0 <= i < j ==> #[trigger] cs@[i].0 != s,
                decreases cs@.len() - j + (if found { 0int } else { 1int }),
            {
                if cs[j].0 == s {
                    found = true;
                } else {
                    j += 1;
                }
            }
            if found {
                let c = cs[j].1;
                proof { lemma_uses_le(code@, s, k as int); }
                cs.set(j, (s, c + 1));
                assert forall|i: int| 0 <= i < cs@.len() implies #[trigger] cs@[i].1 == uses(code@, cs@[i].0, k1) && cs@[i].1 > 0 by {
                    assert(c0[i].1 == uses(code@, c0[i].0, k as int));
                }
                assert forall|x: u32| #[trigger] uses(code@, x, k1) > 0 implies exists|i: int| 0 <= i < cs@.len() && #[trigger] cs@[i].0 == x by {
                    if uses(code@, x, k as int) > 0 {
                        let i = choose|i: int| 0 <= i < c0.len() && #[trigger] c0[i].0 == x;
                        assert(cs@[i].0 == x);
                    } else {
                        assert(cs@[j as int].0 == x);
                    }
                }
            } else {
                cs.push((s, 1));
                assert forall|i: int| 0 <= i < cs@.len() implies #[trigger] cs@[i].1 == uses(code@, cs@[i].0, k1) && cs@[i].1 > 0 by {
                    if i < c0.len() {
                        assert(c0[i].1 == uses(code@, c0[i].0, k as int));
                    } else {
                        if uses(code@, s, k as int) > 0 {
                            let i2 = choose|i2: int| 0 <= i2 < c0.len() && #[trigger] c0[i2].0 == s;
                        }
                    }
                }
                assert forall|x: u32| #[trigger] uses(code@, x, k1) > 0 implies exists|i: int| 0 <= i < cs@.len() && #[trigger] cs@[i].0 == x by {
                    if uses(code@, x, k as int) > 0 {
                        let i = choose|i: int| 0 <= i < c0.len() && #[trigger] c0[i].0 == x;
                        assert(cs@[i].0 == x);
                    } else {
                        assert(cs@[c0.len() as int].0 == x);
                    }
                }
            }
        } else {
            assert forall|i: int| 0 <= i < cs@.len() implies #[trigger] cs@[i].1 == uses(code@, cs@[i].0, k1) && cs@[i].1 > 0 by {
                assert(c0[i].1 == uses(code@, c0[i].0, k as int));
            }
            assert forall|x: u32| #[trigger] uses(code@, x, k1) > 0 implies exists|i: int| 0 <= i < cs@.len() && #[trigger] cs@[i].0 == x by {
                assert(uses(code@, x, k as int) > 0);
            }
        }
        k += 1;
    }
    cs
}

/// The slots to pin to registers: the most used slots, at most six, best first (more uses
/// first, then the smaller slot), each with the register of its rank.
pub fn pin_map(code: &[Op]) -> (r: Vec<(u32, u8)>)
    ensures
        pins_ok(code@, r@),
{
    let cs = slot_counts(code);
    let mut taken: Vec<bool> = Vec::new();
    while taken.len() < cs.len()
        invariant
            taken@.len() <= cs@.len(),
            forall|i: int| 0 <= i < taken@.len() ==> !#[trigger] taken@[i],
        decreases cs@.len() - taken@.len(),
    {
        taken.push(false);
    }
    let mut r: Vec<(u32, u8)> = Vec::new();
    loop
        invariant
            taken@.len() == cs@.len(),
            r@.len() <= 6,
            forall|i: int| 0 <= i < cs@.len() ==> #[trigger] cs@[i].1 == count_uses(code@, cs@[i].0) && cs@[i].1 > 0,
            forall|i: int, j: int| 0 <= i < j < cs@.len() ==> #[trigger] cs@[i].0 != #[trigger] cs@[j].0,
            forall|x: u32| count_uses(code@, x) > 0 ==> exists|i: int| 0 <= i < cs@.len() && #[trigger] cs@[i].0 == x,
            forall|i: int| 0 <= i < r@.len() ==> count_uses(code@, #[trigger] r@[i].0) > 0 && r@[i].1 == pin_reg(i),
            forall|i: int, j: int| 0 <= i < j < r@.len() ==> ranks_before(code@, #[trigger] r@[i].0, #[trigger] r@[j].0),
            forall|j: int| 0 <= j < cs@.len() ==> (#[trigger] taken@[j] <==> exists|i: int| 0 <= i < r@.len() && #[trigger] r@[i].0 == cs@[j].0),
            forall|j: int, i: int| 0 <= j < cs@.len() && !taken@[j] && 0 <= i < r@.len() ==> ranks_before(code@, #[trigger] r@[i].0, #[trigger] cs@[j].0),
        ensures
            r@.len() == 6 || forall|j: int| 0 <= j < cs@.len() ==> #[trigger] taken@[j],
        decreases 6 - r@.len(),
    {
        if r.len() >= 6 {
            break;
        }
        let mut best: usize = cs.len();
        let mut j: usize = 0;
        while j < cs.len()
            invariant
                j <= cs@.len(),
                taken@.len() == cs@.len(),
                best <= cs@.len(),
                best < cs@.len() ==> !taken@[best as int] && best < j,
                forall|i: int| 0 <= i < cs@.len() ==> #[trigger] cs@[i].1 == count_uses(code@, cs@[i].0) && cs@[i].1 > 0,
                forall|i: int, k: int| 0 <= i < k < cs@.len() ==> #[trigger] cs@[i].0 != #[trigger] cs@[k].0,
                forall|k: int| 0 <= k < j && !#[trigger] taken@[k] ==> best < cs@.len() && (k == best || ranks_before(code@, cs@[best as int].0, cs@[k].0)),
            decreases cs@.len() - j,
        {
            let ghost b0 = best as int;
            proof {
                if b0 < cs@.len() {
                    assert(cs@[b0].1 == count_uses(code@, cs@[b0].0) && cs@[b0].1 > 0);
                    assert(cs@[j as int].1 == count_uses(code@, cs@[j as int].0));
                    assert(b0 < j);
                    assert(cs@[b0].0 != cs@[j as int].0);
                }
            }
            if !taken[j] && (best == cs.len() || cs[j].1 > cs[best].1 || (cs[j].1 == cs[best].1 && cs[j].0 < cs[best].0)) {
                best = j;
                assert forall|k: int| 0 <= k < j + 1 && !#[trigger] taken@[k] implies best < cs@.len() && (k == best || ranks_before(code@, cs@[best as int].0, cs@[k].0)) by {
                    if k < j && b0 < cs@.len() && k != b0 {
                        assert(ranks_before(code@, cs@[b0].0, cs@[k].0));
                    }
                }
            } else {
                assert forall|k: int| 0 <= k < j + 1 && !#[trigger] taken@[k] implies best < cs@.len() && (k == best || ranks_before(code@, cs@[best as int].0, cs@[k].0)) by {
                    if k == j {
                        assert(!taken@[j as int]);
                        assert(best != cs@.len());
                        assert(b0 < cs@.len());
                    } else {
                        assert(cs@[k].0 == cs@[k].0);
                    }
                }
            }
            j += 1;
        }
        if best == cs.len() {
            assert forall|k: int| 0 <= k < cs@.len() implies #[trigger] taken@[k] by {
                if !taken@[k] {
                    assert(cs@[k].0 == cs@[k].0);
                    assert(best < cs@.len());
                }
            }
            break;
        }
        let ghost r0 = r@;
        let ghost t0 = taken@;
        let ghost b = best as int;
        taken.set(best, true);
        let reg = pin_at(r.len());
        r.push((cs[best].0, reg));
        assert forall|k: int| 0 <= k < cs@.len() implies (#[trigger] taken@[k] <==> exists|i: int| 0 <= i < r@.len() && #[trigger] r@[i].0 == cs@[k].0) by {
            if k == b {
                assert(r@[r0.len() as int].0 == cs@[k].0);
            } else if t0[k] {
                let i = choose|i: int| 0 <= i < r0.len() && #[trigger] r0[i].0 == cs@[k].0;
                assert(r@[i].0 == cs@[k].0);
            } else {
                if exists|i: int| 0 <= i < r@.len() && #[trigger] r@[i].0 == cs@[k].0 {
                    let i = choose|i: int| 0 <= i < r@.len() && #[trigger] r@[i].0 == cs@[k].0;
                    if i < r0.len() {
                        assert(exists|i2: int| 0 <= i2 < r0.len() && #[trigger] r0[i2].0 == cs@[k].0);
                    }
                }
            }
        }
        assert forall|i: int| 0 <= i < r@.len() implies count_uses(code@, #[trigger] r@[i].0) > 0 && r@[i].1 == pin_reg(i) by {
            if i == r0.len() {
                assert(cs@[b].1 == count_uses(code@, cs@[b].0) && cs@[b].1 > 0);
            } else {
                assert(r@[i] == r0[i]);
            }
        }
        assert forall|i: int, k: int| 0 <= i < k < r@.len() implies ranks_before(code@, #[trigger] r@[i].0, #[trigger] r@[k].0) by {
            if k == r0.len() {
                assert(!t0[b]);
                assert(r@[i] == r0[i]);
            } else {
                assert(r@[i] == r0[i] && r@[k] == r0[k]);
            }
        }
        assert forall|k: int, i: int| 0 <= k < cs@.len() && !taken@[k] && 0 <= i < r@.len() implies ranks_before(code@, #[trigger] r@[i].0, #[trigger] cs@[k].0) by {
            if i == r0.len() {
                assert(k != b);
                assert(cs@[b].0 != cs@[k].0);
            } else {
                assert(r@[i] == r0[i]);
            }
        }
    }
    assert forall|x: u32| count_uses(code@, x) > 0 && !(exists|i: int| 0 <= i < r@.len() && #[trigger] r@[i].0 == x) implies r@.len() == 6
        && forall|i: int| 0 <= i < r@.len() ==> ranks_before(code@, #[trigger] r@[i].0, x) by {
        let k = choose|k: int| 0 <= k < cs@.len() && #[trigger] cs@[k].0 == x;
        if taken@[k] {
            let i = choose|i: int| 0 <= i < r@.len() && #[trigger] r@[i].0 == cs@[k].0;
            assert(false);
        }
    }
    r
}

/// The REX prefix of a 64-bit register-to-register move: W, with R (`w_r`) or B set for an
/// extended register.
pub open spec fn rex_s(w_r: bool, r: u8) -> u8 {
    if r >= 8 {
        if w_r {
            0x4C
        } else {
            0x49
        }
    } else {
        0x48
    }
}

/// The REX prefix of a 64-bit move between `rax` and register `r`.
pub fn rex(w_r: bool, r: u8) -> (b: u8)
    ensures
        b == rex_s(w_r, r),
{
    let b = 0x48 | if r >= 8 {
        if w_r {
            0x04
        } else {
            0x01
        }
    } else {
        0
    };
    assert(0x48u8 | 0x04u8 == 0x4Cu8 && 0x48u8 | 0x01u8 == 0x49u8 && 0x48u8 | 0u8 == 0x48u8) by (bit_vector);
    b
}

/// `mov r, rax`.
pub open spec fn mov_r_rax_s(r: u8) -> Seq<u8> {
    seq![rex_s(false, r), 0x89u8, (0xC0 + r % 8) as u8]
}

/// `mov rax, r`.
pub open spec fn mov_rax_r_s(r: u8) -> Seq<u8> {
    seq![rex_s(true, r), 0x89u8, (0xC0 + 8 * (r % 8)) as u8]
}

/// `xor r, r`.
pub open spec fn xor_rr_s(r: u8) -> Seq<u8> {
    seq![if r >= 8 { 0x4Du8 } else { 0x48u8 }, 0x31u8, (0xC0 + 9 * (r % 8)) as u8]
}

/// Appends `mov r, rax`.
pub fn mov_r_rax(r: u8, b: &mut Vec<u8>)
    ensures
        final(b)@ == old(b)@ + mov_r_rax_s(r),
{
    b.push(rex(false, r));
    b.push(0x89);
    assert((0xC0u8 | (r & 7u8)) == 0xC0 + r % 8) by (bit_vector);
    b.push(0xC0 | (r & 7));
    assert(final(b)@ =~= old(b)@ + mov_r_rax_s(r));
}

/// Appends `mov rax, r`.
pub fn mov_rax_r(r: u8, b: &mut Vec<u8>)
    ensures
        final(b)@ == old(b)@ + mov_rax_r_s(r),
{
    b.push(rex(true, r));
    b.push(0x89);
    assert((0xC0u8 | ((r & 7u8) << 3u8)) == 0xC0 + 8 * (r % 8)) by (bit_vector);
    b.push(0xC0 | ((r & 7) << 3));
    assert(final(b)@ =~= old(b)@ + mov_rax_r_s(r));
}

/// Appends `xor r, r`.
pub fn xor_rr(r: u8, b: &mut Vec<u8>)
    ensures
        final(b)@ == old(b)@ + xor_rr_s(r),
{
    assert(0x48u8 | 0x05u8 == 0x4Du8 && 0x48u8 | 0u8 == 0x48u8) by (bit_vector);
    b.push(0x48 | if r >= 8 {
        0x05
    } else {
        0
    });
    b.push(0x31);
    assert((0xC0u8 | ((r & 7u8) << 3u8) | (r & 7u8)) == 0xC0 + 9 * (r % 8)) by (bit_vector);
    b.push(0xC0 | ((r & 7) << 3) | (r & 7));
    assert(final(b)@ =~= old(b)@ + xor_rr_s(r));
}

/// Whether the top of the operand stack is held in `rax`.
#[derive(Clone, Copy)]
pub struct Tos(pub bool);

/// Whether an instruction leaves the top of the stack in `rax`: those that produce a value.
pub open spec fn leaves_top(op: Op) -> bool {
    op is Lit || op is Load || op is Dup || op is Add || op is Sub || op is Eq
}

/// Where the top of the stack is after `op`.
pub fn next_tos(op: &Op) -> (r: Tos)
    ensures
        r.0 == leaves_top(*op),
{
    Tos(match op {
        Op::Lit(_) | Op::Load(_) | Op::Dup | Op::Add | Op::Sub | Op::Eq => true,
        Op::Store(_) | Op::Pop | Op::Jz(_) | Op::Jmp(_) => false,
        _ => false,
    })
}

/// Whether `k` fits a sign-extended 32-bit immediate.
pub open spec fn fits_i32(k: i64) -> bool {
    i32::MIN <= k <= i32::MAX
}

/// Whether the three instructions at `i` can be fused into one: `Load a` then `Load b` or a
/// literal fitting 32 bits, then `Add` or `Sub`, with no jump landing inside.
pub open spec fn fusable(code: Seq<Op>, marks: Seq<bool>, i: int) -> bool {
    &&& 0 <= i
    &&& i + 2 < code.len()
    &&& !marks[i + 1]
    &&& !marks[i + 2]
    &&& code[i] is Load
    &&& (code[i + 2] is Add || code[i + 2] is Sub)
    &&& (code[i + 1] is Load || (code[i + 1] matches Op::Lit(k) && fits_i32(k)))
}

/// Whether the three instructions at `i` can be fused into one; `marks` flags the jump targets.
pub fn can_fuse(code: &[Op], i: usize, marks: &[bool]) -> (r: bool)
    requires
        marks@.len() >= code@.len(),
    ensures
        r == fusable(code@, marks@, i as int),
{
    if i >= code.len() || code.len() - i <= 2 {
        return false;
    }
    if marks[i + 1] || marks[i + 2] {
        return false;
    }
    match code[i] {
        Op::Load(_) => {},
        _ => return false,
    }
    match code[i + 2] {
        Op::Add | Op::Sub => {},
        _ => return false,
    }
    match code[i + 1] {
        Op::Load(_) => true,
        Op::Lit(k) => k >= i32::MIN as i64 && k <= i32::MAX as i64,
        _ => false,
    }
}

/// The four little-endian bytes of `v`.
pub open spec fn le32(v: i32) -> Seq<u8> {
    let x = v as u32;
    seq![x as u8, (x >> 8) as u8, (x >> 16) as u8, (x >> 24) as u8]
}

/// The eight little-endian bytes of `v`.
pub open spec fn le64(v: i64) -> Seq<u8> {
    let x = v as u64;
    seq![x as u8, (x >> 8) as u8, (x >> 16) as u8, (x >> 24) as u8, (x >> 32) as u8, (x >> 40) as u8, (x >> 48) as u8, (x >> 56) as u8]
}

/// Appends the little-endian bytes of `v`.
pub fn d32(v: i32, b: &mut Vec<u8>)
    ensures
        final(b)@ == old(b)@ + le32(v),
{
    let x = v as u32;
    b.push(x as u8);
    b.push((x >> 8) as u8);
    b.push((x >> 16) as u8);
    b.push((x >> 24) as u8);
    assert(final(b)@ =~= old(b)@ + le32(v));
}

/// Appends the little-endian bytes of `v`.
pub fn d64(v: i64, b: &mut Vec<u8>)
    ensures
        final(b)@ == old(b)@ + le64(v),
{
    let x = v as u64;
    b.push(x as u8);
    b.push((x >> 8) as u8);
    b.push((x >> 16) as u8);
    b.push((x >> 24) as u8);
    b.push((x >> 32) as u8);
    b.push((x >> 40) as u8);
    b.push((x >> 48) as u8);
    b.push((x >> 56) as u8);
    assert(final(b)@ =~= old(b)@ + le64(v));
}

/// The register slot `s` is pinned to, if any (the first entry naming it).
pub open spec fn pin_of(pins: Seq<(u32, u8)>, s: u32) -> Option<u8>
    decreases pins.len(),
{
    if pins.len() == 0 {
        None
    } else if pins[0].0 == s {
        Some(pins[0].1)
    } else {
        pin_of(pins.drop_first(), s)
    }
}

/// The register slot `s` is pinned to, if any.
pub fn pin_get(pins: &[(u32, u8)], s: u32) -> (r: Option<u8>)
    ensures
        r == pin_of(pins@, s),
{
    let mut i: usize = 0;
    assert(pins@.subrange(0, pins@.len() as int) =~= pins@);
    while i < pins.len()
        invariant
            i <= pins@.len(),
            pin_of(pins@, s) == pin_of(pins@.subrange(i as int, pins@.len() as int), s),
        decreases pins@.len() - i,
    {
        assert(pins@.subrange(i as int, pins@.len() as int).drop_first() =~= pins@.subrange(i + 1, pins@.len() as int));
        if pins[i].0 == s {
            return Some(pins[i].1);
        }
        i += 1;
    }
    None
}

/// The displacement of slot `s` in the slot array (eight bytes each), wrapping at 32 bits.
pub open spec fn disp(s: u32) -> i32 {
    (s as i32).wrapping_mul(8)
}

/// `mov rax, <slot s>`: from its register if pinned, else from `[rdi + disp]`.
pub open spec fn fetch_s(pins: Seq<(u32, u8)>, s: u32) -> Seq<u8> {
    match pin_of(pins, s) {
        Some(r) => mov_rax_r_s(r),
        None => seq![0x48u8, 0x8Bu8, 0x87u8] + le32(disp(s)),
    }
}

/// Appends `mov rax, <slot s>`.
fn fetch(b: &mut Vec<u8>, s: u32, pins: &[(u32, u8)])
    ensures
        final(b)@ == old(b)@ + fetch_s(pins@, s),
{
    match pin_get(pins, s) {
        Some(r) => mov_rax_r(r, b),
        None => {
            b.push(0x48);
            b.push(0x8B);
            b.push(0x87);
            let d = (s as i32).wrapping_mul(8);
            assert(d == disp(s));
            d32(d, b);
            assert(final(b)@ =~= old(b)@ + fetch_s(pins@, s));
        },
    }
}

/// `pop rax` where the top of the stack is not already in `rax`.
pub open spec fn load_s(t: bool) -> Seq<u8> {
    if t {
        Seq::empty()
    } else {
        seq![0x58u8]
    }
}

/// `push rax` where the top of the stack is in `rax`.
pub open spec fn spill_s(t: bool) -> Seq<u8> {
    if t {
        seq![0x50u8]
    } else {
        Seq::empty()
    }
}

/// A relative jump's bytes: `pre`, then the 32-bit distance from the end of the instruction
/// (at `here + blen + pre.len() + 4`) to the label of `tgt`. `None` where the label does not
/// exist or the arithmetic overflows.
pub open spec fn jump_s(pre: Seq<u8>, tgt: u32, label: Seq<usize>, here: usize, blen: int) -> Option<Seq<u8>> {
    let end = here + blen + pre.len() + 4;
    if tgt >= label.len() || end > usize::MAX {
        None
    } else {
        let rel = (label[tgt as int] as i64) as int - (end as usize as i64) as int;
        if rel < i64::MIN || rel > i64::MAX {
            None
        } else {
            Some(pre + le32((rel as i64) as i32))
        }
    }
}

/// The second half of a fused three: `add`/`sub rax` with the literal or the slot `op` names.
pub open spec fn tail_s(op: Op, add: bool, pins: Seq<(u32, u8)>) -> Seq<u8> {
    match op {
        Op::Lit(k) => seq![0x48u8, if add { 0x05u8 } else { 0x2Du8 }] + le32(k as i32),
        Op::Load(s) => match pin_of(pins, s) {
            Some(r) => seq![rex_s(true, r), if add { 0x01u8 } else { 0x29u8 }, (0xC0 + 8 * (r % 8)) as u8],
            None => seq![0x48u8, if add { 0x03u8 } else { 0x2Bu8 }, 0x87u8] + le32(disp(s)),
        },
        _ => Seq::empty(),
    }
}

/// The bytes for the fused three at `i`: the first slot into `rax` (spilling the old top), then
/// `add`/`sub` with the literal or the second slot.
pub open spec fn fused_s(code: Seq<Op>, i: int, t: bool, pins: Seq<(u32, u8)>) -> Seq<u8> {
    spill_s(t) + match code[i] {
        Op::Load(a) => fetch_s(pins, a),
        _ => Seq::empty(),
    } + tail_s(code[i + 1], code[i + 2] is Add, pins)
}

/// The bytes for the single instruction at `i`; see `one_s`.
pub open spec fn plain_s(code: Seq<Op>, i: int, t: bool, pins: Seq<(u32, u8)>, label: Seq<usize>, here: usize, blen: int) -> Option<Result<Seq<u8>, ()>> {
    match code[i] {
        Op::Lit(k) => Some(Ok(spill_s(t) + if fits_i32(k) {
            seq![0x48u8, 0xC7u8, 0xC0u8] + le32(k as i32)
        } else {
            seq![0x48u8, 0xB8u8] + le64(k)
        })),
        Op::Load(s) => Some(Ok(spill_s(t) + fetch_s(pins, s))),
        Op::Store(s) => Some(Ok(load_s(t) + match pin_of(pins, s) {
            Some(r) => mov_r_rax_s(r),
            None => seq![0x48u8, 0x89u8, 0x87u8] + le32(disp(s)),
        })),
        Op::Dup => Some(Ok(load_s(t) + seq![0x50u8])),
        Op::Pop => Some(Ok(if t { Seq::empty() } else { seq![0x48u8, 0x83u8, 0xC4u8, 0x08u8] })),
        Op::Add => Some(Ok(load_s(t) + seq![0x59u8, 0x48u8, 0x01u8, 0xC8u8])),
        Op::Sub => Some(Ok(load_s(t) + seq![0x48u8, 0x89u8, 0xC1u8, 0x58u8, 0x48u8, 0x29u8, 0xC8u8])),
        Op::Eq => Some(Ok(load_s(t) + seq![0x59u8, 0x48u8, 0x39u8, 0xC8u8, 0x0Fu8, 0x94u8, 0xC0u8, 0x48u8, 0x0Fu8, 0xB6u8, 0xC0u8])),
        Op::Jz(tgt) => match jump_s(load_s(t) + seq![0x48u8, 0x85u8, 0xC0u8, 0x0Fu8, 0x84u8], tgt, label, here, blen) {
            Some(bs) => Some(Ok(bs)),
            None => None,
        },
        Op::Jmp(tgt) => match jump_s(spill_s(t) + seq![0xE9u8], tgt, label, here, blen) {
            Some(bs) => Some(Ok(bs)),
            None => None,
        },
        _ => Some(Err(())),
    }
}

/// The bytes for instruction `i` (or the fused three at `i`), with the top of the stack in
/// `rax` as `t` says, appended to `blen` bytes already laid out from position `here`: nothing
/// where an earlier fusion took it. `Err` for an instruction that needs pairs; `None` where an
/// index is out of range or a jump's arithmetic overflows.
pub open spec fn one_s(code: Seq<Op>, i: int, t: bool, pins: Seq<(u32, u8)>, fuse: Seq<u8>, label: Seq<usize>, here: usize, blen: int) -> Option<Result<Seq<u8>, ()>> {
    if i < 0 || i >= fuse.len() {
        None
    } else if fuse[i] == 2 {
        Some(Ok(Seq::empty()))
    } else if i >= code.len() {
        None
    } else if fuse[i] == 1 {
        if i + 2 >= code.len() {
            None
        } else {
            Some(Ok(fused_s(code, i, t, pins)))
        }
    } else {
        plain_s(code, i, t, pins, label, here, blen)
    }
}

/// Appends the `rel32` of a jump to `label[tgt]` from the end of the instruction being laid out
/// (the bytes so far plus four).
fn jump_rel(b: &mut Vec<u8>, tgt: u32, label: &[usize], here: usize)
    requires
        jump_s(Seq::empty(), tgt, label@, here, old(b)@.len() as int) is Some,
    ensures
        final(b)@ == old(b)@ + jump_s(Seq::empty(), tgt, label@, here, old(b)@.len() as int).unwrap(),
{
    let to = label[tgt as usize] as i64;
    let n = b.len() + 4;
    let end = here + n;
    let rel = to - end as i64;
    d32(rel as i32, b);
    assert(Seq::<u8>::empty() + le32(rel as i32) =~= le32(rel as i32));
}

/// Appends the second half of a fused three.
fn emit_tail(b: &mut Vec<u8>, op: Op, add: bool, pins: &[(u32, u8)])
    ensures
        final(b)@ == old(b)@ + tail_s(op, add, pins@),
{
    let ghost b0 = b@;
    match op {
        Op::Lit(k) => {
            b.push(0x48);
            b.push(if add { 0x05 } else { 0x2D });
            d32(k as i32, b);
        },
        Op::Load(s) => match pin_get(pins, s) {
            Some(r) => {
                b.push(rex(true, r));
                b.push(if add { 0x01 } else { 0x29 });
                assert((0xC0u8 | ((r & 7u8) << 3u8)) == 0xC0 + 8 * (r % 8)) by (bit_vector);
                b.push(0xC0 | ((r & 7) << 3));
            },
            None => {
                b.push(0x48);
                b.push(if add { 0x03 } else { 0x2B });
                b.push(0x87);
                d32((s as i32).wrapping_mul(8), b);
            },
        },
        _ => {},
    }
    assert(b@ =~= b0 + tail_s(op, add, pins@));
}

/// Appends the bytes for the fused three at `i`.
fn emit_fused(b: &mut Vec<u8>, code: &[Op], i: usize, t: Tos, pins: &[(u32, u8)])
    requires
        i + 2 < code@.len(),
    ensures
        final(b)@ == old(b)@ + fused_s(code@, i as int, t.0, pins@),
{
    let ghost b0 = b@;
    if t.0 {
        b.push(0x50);
    }
    if let Op::Load(a) = code[i] {
        fetch(b, a, pins);
    }
    let ghost b1 = b@;
    let add = match code[i + 2] {
        Op::Add => true,
        _ => false,
    };
    emit_tail(b, code[i + 1], add, pins);
    assert(b@ =~= b0 + fused_s(code@, i as int, t.0, pins@));
}

/// Appends the bytes for the single instruction at `i`.
fn emit_plain(b: &mut Vec<u8>, code: &[Op], i: usize, t: Tos, pins: &[(u32, u8)], label: &[usize], here: usize) -> (r: Result<(), String>)
    requires
        i < code@.len(),
        plain_s(code@, i as int, t.0, pins@, label@, here, old(b)@.len() as int) is Some,
    ensures
        match plain_s(code@, i as int, t.0, pins@, label@, here, old(b)@.len() as int).unwrap() {
            Ok(bs) => r is Ok && final(b)@ == old(b)@ + bs,
            Err(_) => r matches Err(m) && m@ == refusal_f()@ && final(b)@ == old(b)@,
        },
{
    let ghost b0 = b@;
    match code[i] {
        Op::Lit(k) => {
            if t.0 {
                b.push(0x50);
            }
            if k >= i32::MIN as i64 && k <= i32::MAX as i64 {
                b.push(0x48);
                b.push(0xC7);
                b.push(0xC0);
                d32(k as i32, b);
            } else {
                b.push(0x48);
                b.push(0xB8);
                d64(k, b);
            }
        },
        Op::Load(s) => {
            if t.0 {
                b.push(0x50);
            }
            fetch(b, s, pins);
        },
        Op::Store(s) => {
            if !t.0 {
                b.push(0x58);
            }
            match pin_get(pins, s) {
                Some(r) => mov_r_rax(r, b),
                None => {
                    b.push(0x48);
                    b.push(0x89);
                    b.push(0x87);
                    d32((s as i32).wrapping_mul(8), b);
                },
            }
        },
        Op::Dup => {
            if !t.0 {
                b.push(0x58);
            }
            b.push(0x50);
        },
        Op::Pop => {
            if !t.0 {
                b.push(0x48);
                b.push(0x83);
                b.push(0xC4);
                b.push(0x08);
            }
        },
        Op::Add => {
            if !t.0 {
                b.push(0x58);
            }
            b.push(0x59);
            b.push(0x48);
            b.push(0x01);
            b.push(0xC8);
        },
        Op::Sub => {
            if !t.0 {
                b.push(0x58);
            }
            b.push(0x48);
            b.push(0x89);
            b.push(0xC1);
            b.push(0x58);
            b.push(0x48);
            b.push(0x29);
            b.push(0xC8);
        },
        Op::Eq => {
            if !t.0 {
                b.push(0x58);
            }
            b.push(0x59);
            b.push(0x48);
            b.push(0x39);
            b.push(0xC8);
            b.push(0x0F);
            b.push(0x94);
            b.push(0xC0);
            b.push(0x48);
            b.push(0x0F);
            b.push(0xB6);
            b.push(0xC0);
        },
        Op::Jz(tgt) => {
            if !t.0 {
                b.push(0x58);
            }
            b.push(0x48);
            b.push(0x85);
            b.push(0xC0);
            b.push(0x0F);
            b.push(0x84);
            assert(b@ =~= b0 + (load_s(t.0) + seq![0x48u8, 0x85u8, 0xC0u8, 0x0Fu8, 0x84u8]));
            jump_rel(b, tgt, label, here);
        },
        Op::Jmp(tgt) => {
            if t.0 {
                b.push(0x50);
            }
            b.push(0xE9);
            assert(b@ =~= b0 + (spill_s(t.0) + seq![0xE9u8]));
            jump_rel(b, tgt, label, here);
        },
        _ => {
            return Err("段F は整数中核のみ(pair が要る)".to_owned());
        },
    }
    assert(b@ =~= b0 + plain_s(code@, i as int, t.0, pins@, label@, here, b0.len() as int).unwrap().unwrap());
    Ok(())
}

/// Appends the bytes for instruction `i` (or the fused three at `i`): see `one_s`. `here` is
/// where `b` starts in the whole code.
pub fn emit_one(b: &mut Vec<u8>, code: &[Op], i: usize, t: Tos, pins: &[(u32, u8)], fuse: &[u8], label: &[usize], here: usize) -> (r: Result<(), String>)
    requires
        one_s(code@, i as int, t.0, pins@, fuse@, label@, here, old(b)@.len() as int) is Some,
    ensures
        match one_s(code@, i as int, t.0, pins@, fuse@, label@, here, old(b)@.len() as int).unwrap() {
            Ok(bs) => r is Ok && final(b)@ == old(b)@ + bs,
            Err(_) => r matches Err(m) && m@ == refusal_f()@ && final(b)@ == old(b)@,
        },
{
    if fuse[i] == 2 {
        assert(b@ =~= old(b)@ + Seq::<u8>::empty());
        return Ok(());
    }
    if fuse[i] == 1 {
        emit_fused(b, code, i, t, pins);
        return Ok(());
    }
    emit_plain(b, code, i, t, pins, label, here)
}

/// Stage F's refusal of an instruction that needs pairs.
pub open spec fn refusal_f() -> &'static str {
    "段F は整数中核のみ(pair が要る)"
}

/// Where a jump goes.
pub open spec fn op_target(op: Op) -> Option<int> {
    match op {
        Op::Jz(t) | Op::Jmp(t) => Some(t as int),
        _ => None,
    }
}

/// Whether one of the first `n` instructions jumps to `p`.
pub open spec fn op_target_before(code: Seq<Op>, p: int, n: int) -> bool {
    exists|k: int| 0 <= k < n && #[trigger] op_target(code[k]) == Some(p)
}

/// For each position up to one past the last instruction, whether some jump lands there.
pub open spec fn target_marks(code: Seq<Op>) -> Seq<bool> {
    Seq::new((code.len() + 1) as nat, |p: int| op_target_before(code, p, code.len() as int))
}

/// The fusion plan from position `i` on, left to right: 1 where three instructions fuse, 2 for
/// the two they take in, 0 elsewhere.
pub open spec fn fuse_from(code: Seq<Op>, marks: Seq<bool>, i: int, fuse: Seq<u8>) -> Seq<u8>
    decreases code.len() - i,
{
    if i < 0 || i >= code.len() {
        fuse
    } else if fusable(code, marks, i) {
        fuse_from(code, marks, i + 3, fuse.update(i, 1).update(i + 1, 2).update(i + 2, 2))
    } else {
        fuse_from(code, marks, i + 1, fuse)
    }
}

/// The fusion plan of `code`.
pub open spec fn fuse_plan(code: Seq<Op>) -> Seq<u8> {
    fuse_from(code, target_marks(code), 0, Seq::new(code.len(), |i: int| 0u8))
}

/// Zeroing the first `k` pinned registers, in order (which is ascending register order).
pub open spec fn preamble(pins: Seq<(u32, u8)>, k: int) -> Seq<u8>
    decreases k,
{
    if k <= 0 || k > pins.len() {
        Seq::empty()
    } else {
        preamble(pins, k - 1) + xor_rr_s(pins[k - 1].1)
    }
}

/// One layout pass from instruction `i`, with `out` laid out so far, the top of the stack in
/// `rax` as `tos` says, and `label` holding this pass's labels before `i` and the previous
/// pass's after. Before a jump target the top is spilled, so that every label is entered with
/// the top on the stack; after the last instruction the top is put in `rax` and `ret` follows.
/// Gives the code and the labels.
pub open spec fn pass_from(code: Seq<Op>, pins: Seq<(u32, u8)>, fuse: Seq<u8>, marks: Seq<bool>, i: int, out: Seq<u8>, tos: bool, label: Seq<usize>) -> Option<Result<(Seq<u8>, Seq<usize>), ()>>
    decreases code.len() - i,
{
    let n = code.len() as int;
    if i < 0 {
        None
    } else if i >= n {
        let spill = tos && marks[n];
        let out1 = out + spill_s(spill);
        let tos1 = tos && !spill;
        Some(Ok((out1 + load_s(tos1) + seq![0xC3u8], label.update(n, out1.len() as usize))))
    } else {
        let spill = tos && marks[i];
        let out1 = out + spill_s(spill);
        let tos1 = tos && !spill;
        let label1 = label.update(i, out1.len() as usize);
        match one_s(code, i, tos1, pins, fuse, label1, out1.len() as usize, 0) {
            None => None,
            Some(Err(_)) => Some(Err(())),
            Some(Ok(piece)) => pass_from(
                code,
                pins,
                fuse,
                marks,
                i + 1,
                out1 + piece,
                if fuse[i] == 1 {
                    true
                } else if fuse[i] == 2 {
                    tos1
                } else {
                    leaves_top(code[i])
                },
                label1,
            ),
        }
    }
}

/// The machine code for `code` with slots pinned as `pins` says: two passes, the first to find
/// the labels (its lengths are final, only jump distances change), the second to lay out the
/// code with them. `Err` where an instruction needs pairs; `None` where a jump's target is
/// past the end or its distance overflows.
pub open spec fn jit_s(code: Seq<Op>, pins: Seq<(u32, u8)>) -> Option<Result<Seq<u8>, ()>> {
    let marks = target_marks(code);
    let fuse = fuse_plan(code);
    let pre = preamble(pins, pins.len() as int);
    match pass_from(code, pins, fuse, marks, 0, pre, false, Seq::new((code.len() + 1) as nat, |i: int| 0usize)) {
        None => None,
        Some(Err(_)) => Some(Err(())),
        Some(Ok((_, label))) => match pass_from(code, pins, fuse, marks, 0, pre, false, label) {
            None => None,
            Some(Err(_)) => Some(Err(())),
            Some(Ok((bs, _))) => Some(Ok(bs)),
        },
    }
}

/// A piece's length does not depend on the labels: a jump's distance always takes four bytes.
proof fn lemma_piece_len(code: Seq<Op>, i: int, t: bool, pins: Seq<(u32, u8)>, fuse: Seq<u8>, la: Seq<usize>, lb: Seq<usize>, here: usize, blen: int)
    requires
        one_s(code, i, t, pins, fuse, la, here, blen) matches Some(Ok(_)),
        one_s(code, i, t, pins, fuse, lb, here, blen) matches Some(Ok(_)),
    ensures
        one_s(code, i, t, pins, fuse, la, here, blen).unwrap().unwrap().len()
            == one_s(code, i, t, pins, fuse, lb, here, blen).unwrap().unwrap().len(),
{
}

/// Two passes from `i` over outputs of the same length, with labels that agree before `i`, lay
/// out pieces of the same lengths and so find the same labels.
proof fn lemma_pass_labels(code: Seq<Op>, pins: Seq<(u32, u8)>, fuse: Seq<u8>, marks: Seq<bool>, i: int, oa: Seq<u8>, ob: Seq<u8>, tos: bool, la: Seq<usize>, lb: Seq<usize>)
    requires
        0 <= i,
        oa.len() == ob.len(),
        la.len() == code.len() + 1,
        lb.len() == code.len() + 1,
        marks.len() == code.len() + 1,
        forall|k: int| 0 <= k < i && k < la.len() ==> la[k] == lb[k],
        pass_from(code, pins, fuse, marks, i, oa, tos, la) matches Some(Ok(_)),
        pass_from(code, pins, fuse, marks, i, ob, tos, lb) matches Some(Ok(_)),
    ensures
        pass_from(code, pins, fuse, marks, i, oa, tos, la).unwrap().unwrap().0.len()
            == pass_from(code, pins, fuse, marks, i, ob, tos, lb).unwrap().unwrap().0.len(),
        pass_from(code, pins, fuse, marks, i, oa, tos, la).unwrap().unwrap().1
            == pass_from(code, pins, fuse, marks, i, ob, tos, lb).unwrap().unwrap().1,
    decreases code.len() - i,
{
    let n = code.len() as int;
    let spill = tos && marks[if i >= n { n } else { i }];
    let oa1 = oa + spill_s(spill);
    let ob1 = ob + spill_s(spill);
    if i >= n {
        assert(la.update(n, oa1.len() as usize) =~= lb.update(n, ob1.len() as usize));
    } else {
        let tos1 = tos && !spill;
        let la1 = la.update(i, oa1.len() as usize);
        let lb1 = lb.update(i, ob1.len() as usize);
        lemma_piece_len(code, i, tos1, pins, fuse, la1, lb1, oa1.len() as usize, 0);
        let pa = one_s(code, i, tos1, pins, fuse, la1, oa1.len() as usize, 0).unwrap().unwrap();
        let pb = one_s(code, i, tos1, pins, fuse, lb1, ob1.len() as usize, 0).unwrap().unwrap();
        let next = if fuse[i] == 1 {
            true
        } else if fuse[i] == 2 {
            tos1
        } else {
            leaves_top(code[i])
        };
        lemma_pass_labels(code, pins, fuse, marks, i + 1, oa1 + pa, ob1 + pb, next, la1, lb1);
    }
}

/// A pass keeps the number of labels.
proof fn lemma_pass_label_len(code: Seq<Op>, pins: Seq<(u32, u8)>, fuse: Seq<u8>, marks: Seq<bool>, i: int, out: Seq<u8>, tos: bool, label: Seq<usize>)
    requires
        0 <= i,
        label.len() == code.len() + 1,
    ensures
        pass_from(code, pins, fuse, marks, i, out, tos, label) matches Some(Ok((_, l))) ==> l.len() == label.len(),
    decreases code.len() - i,
{
    let n = code.len() as int;
    if i < n {
        let spill = tos && marks[i];
        let out1 = out + spill_s(spill);
        let tos1 = tos && !spill;
        let label1 = label.update(i, out1.len() as usize);
        if let Some(Ok(piece)) = one_s(code, i, tos1, pins, fuse, label1, out1.len() as usize, 0) {
            let next = if fuse[i] == 1 {
                true
            } else if fuse[i] == 2 {
                tos1
            } else {
                leaves_top(code[i])
            };
            lemma_pass_label_len(code, pins, fuse, marks, i + 1, out1 + piece, next, label1);
        }
    }
}

/// The two layout passes of `jit_s` agree: where both lay the code out, the second finds every
/// label where the first put it, so the jumps laid out with the first pass's labels land where
/// the second pass put their targets.
pub proof fn law_jit_labels_settle(code: Seq<Op>, pins: Seq<(u32, u8)>)
    ensures
        ({
            let marks = target_marks(code);
            let fuse = fuse_plan(code);
            let pre = preamble(pins, pins.len() as int);
            let zero = Seq::new((code.len() + 1) as nat, |i: int| 0usize);
            pass_from(code, pins, fuse, marks, 0, pre, false, zero) matches Some(Ok((o1, l1)))
                ==> (pass_from(code, pins, fuse, marks, 0, pre, false, l1) matches Some(Ok((o2, l2)))
                ==> l2 == l1 && o2.len() == o1.len())
        }),
{
    let marks = target_marks(code);
    let fuse = fuse_plan(code);
    let pre = preamble(pins, pins.len() as int);
    let zero = Seq::new((code.len() + 1) as nat, |i: int| 0usize);
    if let Some(Ok((o1, l1))) = pass_from(code, pins, fuse, marks, 0, pre, false, zero) {
        lemma_pass_label_len(code, pins, fuse, marks, 0, pre, false, zero);
        if let Some(Ok((o2, l2))) = pass_from(code, pins, fuse, marks, 0, pre, false, l1) {
            lemma_pass_labels(code, pins, fuse, marks, 0, pre, pre, false, zero, l1);
        }
    }
}

/// One layout pass: see `pass_from`.
fn layout_pass(code: &[Op], pins: &Vec<(u32, u8)>, fuse: &Vec<u8>, marks: &Vec<bool>, label: &mut Vec<usize>) -> (r: Result<Vec<u8>, String>)
    requires
        marks@.len() == code@.len() + 1,
        fuse@.len() == code@.len(),
        old(label)@.len() == code@.len() + 1,
        pass_from(code@, pins@, fuse@, marks@, 0, preamble(pins@, pins@.len() as int), false, old(label)@) is Some,
    ensures
        match pass_from(code@, pins@, fuse@, marks@, 0, preamble(pins@, pins@.len() as int), false, old(label)@).unwrap() {
            Ok((bs, lab)) => r matches Ok(v) && v@ == bs && final(label)@ == lab,
            Err(_) => r matches Err(m) && m@ == refusal_f()@,
        },
        final(label)@.len() == old(label)@.len(),
{
    let ghost target = pass_from(code@, pins@, fuse@, marks@, 0, preamble(pins@, pins@.len() as int), false, old(label)@);
    let n = code.len();
    let mut out: Vec<u8> = Vec::with_capacity(256);
    let mut k: usize = 0;
    while k < pins.len()
        invariant
            k <= pins@.len(),
            out@ == preamble(pins@, k as int),
        decreases pins@.len() - k,
    {
        xor_rr(pins[k].1, &mut out);
        k += 1;
    }
    let mut tos = Tos(false);
    let mut i: usize = 0;
    while i < n
        invariant
            n == code@.len(),
            i <= n,
            marks@.len() == n + 1,
            fuse@.len() == n,
            label@.len() == n + 1,
            old(label)@.len() == n + 1,
            target == pass_from(code@, pins@, fuse@, marks@, 0, preamble(pins@, pins@.len() as int), false, old(label)@),
            pass_from(code@, pins@, fuse@, marks@, i as int, out@, tos.0, label@) == target,
            target is Some,
        decreases n - i,
    {
        let ghost out0 = out@;
        let ghost tos0 = tos.0;
        let ghost label0 = label@;
        let ghost spill = tos.0 && marks@[i as int];
        if tos.0 && marks[i] {
            out.push(0x50);
            tos = Tos(false);
        }
        assert(out@ =~= out0 + spill_s(spill));
        label.set(i, out.len());
        let h = out.len();
        let mut piece: Vec<u8> = Vec::new();
        assert(label@ == label0.update(i as int, (out0 + spill_s(spill)).len() as usize));
        assert(tos.0 == (tos0 && !spill));
        let ghost os = one_s(code@, i as int, tos.0, pins@, fuse@, label@, h, 0);
        assert(target == match os {
            None => None,
            Some(Err(_)) => Some(Err(())),
            Some(Ok(pc)) => pass_from(code@, pins@, fuse@, marks@, i + 1, out@ + pc,
                if fuse@[i as int] == 1 { true } else if fuse@[i as int] == 2 { tos.0 } else { leaves_top(code@[i as int]) },
                label@),
        });
        match emit_one(&mut piece, code, i, tos, pins.as_slice(), fuse.as_slice(), label.as_slice(), h) {
            Err(e) => {
                assert(os matches Some(Err(_)));
                return Err(e);
            },
            Ok(()) => {},
        }
        let ghost pc = piece@;
        let ghost out2 = out@;
        out.append(&mut piece);
        assert(out@ =~= out2 + pc);
        tos = if fuse[i] == 1 {
            Tos(true)
        } else if fuse[i] == 2 {
            tos
        } else {
            next_tos(&code[i])
        };
        i += 1;
    }
    let ghost out0 = out@;
    let ghost spill = tos.0 && marks@[n as int];
    if tos.0 && marks[n] {
        out.push(0x50);
        tos = Tos(false);
    }
    assert(out@ =~= out0 + spill_s(spill));
    let ghost out1 = out@;
    label.set(n, out.len());
    if !tos.0 {
        out.push(0x58);
    }
    out.push(0xC3);
    assert(out@ =~= out1 + load_s(tos.0) + seq![0xC3u8]);
    Ok(out)
}

/// Lays out `code` as x86-64 machine code for the System V call `f(slots) -> rax`, with the
/// most used slots pinned to registers and fusable runs fused; `Err` with stage F's refusal
/// where an instruction needs pairs.
pub fn jit(code: &[Op]) -> (r: Result<Vec<u8>, String>)
    requires
        code@.len() + 3 <= usize::MAX,
        forall|p: Seq<(u32, u8)>| pins_ok(code@, p) ==> #[trigger] jit_s(code@, p) is Some,
    ensures
        exists|p: Seq<(u32, u8)>| #[trigger] pins_ok(code@, p) && match jit_s(code@, p).unwrap() {
            Ok(bs) => r matches Ok(v) && v@ == bs,
            Err(_) => r matches Err(m) && m@ == refusal_f()@,
        },
{
    let n = code.len();
    let mut marks: Vec<bool> = Vec::new();
    while marks.len() < n + 1
        invariant
            marks@.len() <= n + 1,
            n == code@.len(),
            n + 3 <= usize::MAX,
            forall|p: int| 0 <= p < marks@.len() ==> !#[trigger] marks@[p],
        decreases n + 1 - marks@.len(),
    {
        marks.push(false);
    }
    let mut k: usize = 0;
    while k < n
        invariant
            k <= n,
            n == code@.len(),
            marks@.len() == n + 1,
            forall|p: int| 0 <= p <= n ==> #[trigger] marks@[p] == op_target_before(code@, p, k as int),
        decreases n - k,
    {
        let ghost m0 = marks@;
        match code[k] {
            Op::Jz(t) | Op::Jmp(t) => {
                assert(op_target(code@[k as int]) == Some(t as int));
                if (t as usize) <= n {
                    marks.set(t as usize, true);
                }
            },
            _ => {},
        }
        assert forall|p: int| 0 <= p <= n implies #[trigger] marks@[p] == op_target_before(code@, p, k + 1) by {
            if marks@[p] {
                if !m0[p] {
                    assert(op_target(code@[k as int]) == Some(p));
                }
            } else {
                if op_target_before(code@, p, k + 1) {
                    let j = choose|j: int| 0 <= j < k + 1 && #[trigger] op_target(code@[j]) == Some(p);
                    if j < k {
                        assert(op_target_before(code@, p, k as int));
                    }
                }
            }
        }
        k += 1;
    }
    assert(marks@ =~= target_marks(code@));
    let pins = pin_map(code);
    let mut fuse: Vec<u8> = Vec::new();
    while fuse.len() < n
        invariant
            fuse@.len() <= n,
            forall|p: int| 0 <= p < fuse@.len() ==> #[trigger] fuse@[p] == 0u8,
        decreases n - fuse@.len(),
    {
        fuse.push(0);
    }
    assert(fuse@ =~= Seq::new(code@.len(), |i: int| 0u8));
    let mut i: usize = 0;
    while i < n
        invariant
            n == code@.len(),
            n + 3 <= usize::MAX,
            fuse@.len() == n,
            marks@ == target_marks(code@),
            fuse_plan(code@) == fuse_from(code@, marks@, i as int, fuse@),
        decreases n - i,
    {
        if can_fuse(code, i, marks.as_slice()) {
            fuse.set(i, 1);
            fuse.set(i + 1, 2);
            fuse.set(i + 2, 2);
            i += 3;
        } else {
            i += 1;
        }
    }
    let mut label: Vec<usize> = Vec::new();
    while label.len() < n + 1
        invariant
            label@.len() <= n + 1,
            n + 3 <= usize::MAX,
            forall|p: int| 0 <= p < label@.len() ==> #[trigger] label@[p] == 0usize,
        decreases n + 1 - label@.len(),
    {
        label.push(0);
    }
    assert(label@ =~= Seq::new((code@.len() + 1) as nat, |i: int| 0usize));
    assert(jit_s(code@, pins@) is Some);
    let _first = match layout_pass(code, &pins, &fuse, &marks, &mut label) {
        Err(e) => return Err(e),
        Ok(v) => v,
    };
    layout_pass(code, &pins, &fuse, &marks, &mut label)
}

} // verus!
