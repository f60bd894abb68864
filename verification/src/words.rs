use vstd::prelude::*;

verus! {

/// The operation names of the machine language.
pub open spec fn w_lit() -> Seq<char> { seq!['l', 'i', 't'] }
pub open spec fn w_var() -> Seq<char> { seq!['v', 'a', 'r'] }
pub open spec fn w_add() -> Seq<char> { seq!['a', 'd', 'd'] }
pub open spec fn w_sub() -> Seq<char> { seq!['s', 'u', 'b'] }
pub open spec fn w_eq() -> Seq<char> { seq!['e', 'q'] }
pub open spec fn w_nilop() -> Seq<char> { seq!['n', 'i', 'l'] }
pub open spec fn w_cons() -> Seq<char> { seq!['c', 'o', 'n', 's'] }
pub open spec fn w_car() -> Seq<char> { seq!['c', 'a', 'r'] }
pub open spec fn w_cdr() -> Seq<char> { seq!['c', 'd', 'r'] }
pub open spec fn w_pairp() -> Seq<char> { seq!['p', 'a', 'i', 'r'] }
pub open spec fn w_seq() -> Seq<char> { seq!['s', 'e', 'q'] }
pub open spec fn w_set() -> Seq<char> { seq!['s', 'e', 't'] }
pub open spec fn w_let() -> Seq<char> { seq!['l', 'e', 't'] }
pub open spec fn w_if() -> Seq<char> { seq!['i', 'f'] }
pub open spec fn w_respawn() -> Seq<char> { seq!['r', 'e', 's', 'p', 'a', 'w', 'n'] }
/// The register that holds a run's result.
pub open spec fn w_vs() -> Seq<char> { seq!['v', 's'] }

} // verus!
