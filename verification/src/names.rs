use vstd::prelude::*;
use crate::chars::{copy_chars, same_chars};

verus! {

/// Register names, each given the slot at which it was first seen.
pub struct Names {
    pub names: Vec<Vec<char>>,
}

/// Whether no name occurs twice.
pub open spec fn distinct_names(s: Seq<Seq<char>>) -> bool {
    forall|i: int, j: int| 0 <= i < j < s.len() ==> #[trigger] s[i] != #[trigger] s[j]
}

impl Names {
    /// The names by slot.
    pub open spec fn view(&self) -> Seq<Seq<char>> {
        Seq::new(self.names@.len(), |i: int| self.names@[i]@)
    }

    /// No name occurs twice.
    pub open spec fn wf(&self) -> bool {
        distinct_names(self@)
    }

    /// No names yet.
    pub fn new() -> (r: Names)
        ensures
            r.wf(),
            r@ == Seq::<Seq<char>>::empty(),
    {
        let r = Names { names: Vec::new() };
        assert(r@ =~= Seq::<Seq<char>>::empty());
        r
    }

    /// The slot of `s`, giving it the next free slot if it is new.
    pub fn intern(&mut self, s: &[char]) -> (r: u32)
        requires
            old(self).wf(),
            old(self)@.len() < 0xffff_ffff,
        ensures
            final(self).wf(),
            r < final(self)@.len(),
            final(self)@[r as int] == s@,
            old(self)@.contains(s@) ==> final(self)@ == old(self)@,
            !old(self)@.contains(s@) ==> final(self)@ == old(self)@.push(s@) && r == old(self)@.len(),
            old(self)@.len() <= final(self)@.len() <= old(self)@.len() + 1,
            final(self)@.subrange(0, old(self)@.len() as int) == old(self)@,
    {
        let mut i: usize = 0;
        while i < self.names.len()
            invariant
                i <= self.names@.len(),
                self.names@.len() == self@.len(),
                self@ == old(self)@,
                self.wf(),
                self@.len() < 0xffff_ffff,
                forall|j: int| 0 <= j < i ==> self@[j] != s@,
            decreases self.names@.len() - i,
        {
            if same_chars(self.names[i].as_slice(), s) {
                assert(self@[i as int] == s@);
                assert(self@.subrange(0, self@.len() as int) =~= self@);
                return i as u32;
            }
            i += 1;
        }
        assert(!self@.contains(s@));
        let n = self.names.len();
        self.names.push(copy_chars(s));
        assert(self@ =~= old(self)@.push(s@));
        assert(self@.subrange(0, old(self)@.len() as int) =~= old(self)@);
        assert(distinct_names(self@)) by {
            assert forall|a: int, b: int| 0 <= a < b < self@.len() implies #[trigger] self@[a] != #[trigger] self@[b] by {
                if b == n as int {
                    assert(old(self)@[a] != s@);
                } else {
                    assert(old(self)@[a] != old(self)@[b]);
                }
            }
        }
        n as u32
    }

    /// How many names there are.
    pub fn len(&self) -> (r: usize)
        ensures
            r == self@.len(),
    {
        self.names.len()
    }
}

} // verus!
