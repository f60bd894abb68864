use vstd::prelude::*;
use crate::chars::same_chars;
use crate::value::V;

verus! {

/// Named registers: a table from names to values, each name held once.
pub struct Regs {
    pub entries: Vec<(Vec<char>, V)>,
}

/// Whether no name occurs twice among `s`.
pub open spec fn distinct_keys(s: Seq<(Vec<char>, V)>) -> bool {
    forall|i: int, j: int| 0 <= i < j < s.len() ==> #[trigger] s[i].0@ != #[trigger] s[j].0@
}

/// Whether `k` names one of the entries.
pub open spec fn has_key(s: Seq<(Vec<char>, V)>, k: Seq<char>) -> bool {
    exists|i: int| 0 <= i < s.len() && #[trigger] s[i].0@ == k
}

/// The table that a list of entries describes.
pub open spec fn amap(s: Seq<(Vec<char>, V)>) -> Map<Seq<char>, V> {
    Map::new(
        |k: Seq<char>| has_key(s, k),
        |k: Seq<char>| s[choose|i: int| 0 <= i < s.len() && #[trigger] s[i].0@ == k].1,
    )
}

impl Regs {
    /// The table these registers hold.
    pub open spec fn view(&self) -> Map<Seq<char>, V> {
        amap(self.entries@)
    }

    /// No name occurs twice.
    pub open spec fn wf(&self) -> bool {
        distinct_keys(self.entries@)
    }

    /// Registers with nothing in them.
    pub fn new() -> (r: Regs)
        ensures
            r.wf(),
            r@ == Map::<Seq<char>, V>::empty(),
    {
        let r = Regs { entries: Vec::new() };
        assert(r@ =~= Map::<Seq<char>, V>::empty());
        r
    }

    /// The position of the entry named `k`.
    pub fn find(&self, k: &[char]) -> (r: Option<usize>)
        requires
            self.wf(),
        ensures
            r is None <==> !self@.contains_key(k@),
            r matches Some(i) ==> i < self.entries@.len() && self.entries@[i as int].0@ == k@
                && self@[k@] == self.entries@[i as int].1,
    {
        let mut i: usize = 0;
        while i < self.entries.len()
            invariant
                i <= self.entries@.len(),
                self.wf(),
                forall|j: int| 0 <= j < i ==> self.entries@[j].0@ != k@,
            decreases self.entries@.len() - i,
        {
            if same_chars(self.entries[i].0.as_slice(), k) {
                proof {
                    let s = self.entries@;
                    assert(has_key(s, k@));
                    let c = choose|j: int| 0 <= j < s.len() && #[trigger] s[j].0@ == k@;
                    if c < i as int {
                        assert(s[c].0@ != s[i as int].0@);
                    } else if c > i as int {
                        assert(s[i as int].0@ != s[c].0@);
                    }
                }
                return Some(i);
            }
            i += 1;
        }
        None
    }

    /// The value named `k`.
    pub fn get(&self, k: &[char]) -> (r: &V)
        requires
            self.wf(),
            self@.contains_key(k@),
        ensures
            *r == self@[k@],
    {
        match self.find(k) {
            Some(i) => &self.entries[i].1,
            None => { proof { assert(false); } &self.entries[0].1 }
        }
    }

    /// Sets the value named `k`, adding the name if it is new.
    pub fn insert(&mut self, k: Vec<char>, v: V)
        requires
            old(self).wf(),
        ensures
            final(self).wf(),
            final(self)@ == old(self)@.insert(k@, v),
    {
        let ghost kk = k@;
        let ghost vv = v;
        let ghost s0 = self.entries@;
        match self.find(k.as_slice()) {
            Some(i) => {
                let old_key = self.entries[i].0.clone();
                self.entries.set(i, (old_key, v));
                proof {
                    let s = self.entries@;
                    assert(forall|j: int| 0 <= j < s.len() ==> #[trigger] s[j].0@ == s0[j].0@);
                    assert forall|q: Seq<char>| has_key(s, q) == has_key(s0, q) by {
                        if has_key(s, q) {
                            let j = choose|j: int| 0 <= j < s.len() && #[trigger] s[j].0@ == q;
                            assert(s0[j].0@ == q);
                        }
                        if has_key(s0, q) {
                            let j = choose|j: int| 0 <= j < s0.len() && #[trigger] s0[j].0@ == q;
                            assert(s[j].0@ == q);
                        }
                    }
                    assert forall|q: Seq<char>| #[trigger] self@.contains_key(q) implies self@[q] == old(self)@.insert(kk, vv)[q] by {
                        let j = choose|j: int| 0 <= j < s.len() && #[trigger] s[j].0@ == q;
                        let j0 = choose|j: int| 0 <= j < s0.len() && #[trigger] s0[j].0@ == q;
                        assert(s0[j].0@ == q);
                        if j < j0 { assert(s0[j].0@ != s0[j0].0@); } else if j > j0 { assert(s0[j0].0@ != s0[j].0@); }
                        if q != kk {
                            assert(j != i);
                        }
                    }
                    assert(self@ =~= old(self)@.insert(kk, vv));
                }
            },
            None => {
                self.entries.push((k, v));
                proof {
                    let s = self.entries@;
                    let n = s0.len();
                    assert(forall|j: int| 0 <= j < n ==> #[trigger] s[j] == s0[j]);
                    assert forall|q: Seq<char>| has_key(s, q) == (has_key(s0, q) || q == kk) by {
                        if has_key(s, q) {
                            let j = choose|j: int| 0 <= j < s.len() && #[trigger] s[j].0@ == q;
                            if j < n {
                                assert(s0[j].0@ == q);
                            }
                        }
                        if has_key(s0, q) {
                            let j = choose|j: int| 0 <= j < s0.len() && #[trigger] s0[j].0@ == q;
                            assert(s[j].0@ == q);
                        }
                        if q == kk {
                            assert(s[n as int].0@ == q);
                        }
                    }
                    assert(distinct_keys(s)) by {
                        assert forall|a: int, b: int| 0 <= a < b < s.len() implies #[trigger] s[a].0@ != #[trigger] s[b].0@ by {
                            if b == n {
                                assert(s0[a].0@ == s[a].0@);
                            } else {
                                assert(s0[a].0@ != s0[b].0@);
                            }
                        }
                    }
                    assert forall|q: Seq<char>| #[trigger] self@.contains_key(q) implies self@[q] == old(self)@.insert(kk, vv)[q] by {
                        let j = choose|j: int| 0 <= j < s.len() && #[trigger] s[j].0@ == q;
                        if q == kk {
                            assert(s[n as int].0@ == q);
                            if j < n { assert(s0[j].0@ == s[j].0@); }
                        } else {
                            assert(j < n);
                            let j0 = choose|j: int| 0 <= j < s0.len() && #[trigger] s0[j].0@ == q;
                            assert(s0[j].0@ == q);
                            if j < j0 { assert(s0[j].0@ != s0[j0].0@); } else if j > j0 { assert(s0[j0].0@ != s0[j].0@); }
                        }
                    }
                    assert(self@ =~= old(self)@.insert(kk, vv));
                }
            },
        }
    }
}

} // verus!
