use vstd::prelude::*;
use crate::value::V;

verus! {

/// A `String` holding the characters of `v`: std's `String: FromIterator<char>`, which
/// collects the characters in order.
#[verifier::external_body]
pub(crate) fn string_of(v: &Vec<char>) -> (s: String)
    ensures
        s@ == v@,
{
    v.iter().collect()
}

/// The decimal digit character for `d`.
pub open spec fn digit_char(d: int) -> char {
    seq!['0', '1', '2', '3', '4', '5', '6', '7', '8', '9'][d]
}

/// The decimal digits of `m`, most significant first.
pub open spec fn digits(m: nat) -> Seq<char>
    decreases m,
{
    if m < 10 {
        seq![digit_char(m as int)]
    } else {
        digits(m / 10).push(digit_char((m % 10) as int))
    }
}

/// The decimal text of `n`: a minus sign for a negative number, then its digits.
pub open spec fn dec_s(n: int) -> Seq<char> {
    if n < 0 {
        seq!['-'] + digits((-n) as nat)
    } else {
        digits(n as nat)
    }
}

/// The decimal text of `n`.
pub fn dec_chars(n: i64) -> (r: Vec<char>)
    ensures
        r@ == dec_s(n as int),
{
    let table: [char; 10] = ['0', '1', '2', '3', '4', '5', '6', '7', '8', '9'];
    assert(table@ =~= seq!['0', '1', '2', '3', '4', '5', '6', '7', '8', '9']);
    let x: i128 = n as i128;
    let mut m: i128 = if x < 0 { -x } else { x };
    let ghost mag: nat = m as nat;
    let mut rev: Vec<char> = Vec::new();
    loop
        invariant_except_break
            0 <= m,
            m <= mag,
            table@ == seq!['0', '1', '2', '3', '4', '5', '6', '7', '8', '9'],
            digits(mag) == digits(m as nat) + rev@.reverse(),
        ensures
            digits(mag) == rev@.reverse(),
        decreases m,
    {
        let d = (m % 10) as usize;
        let ghost m0 = m;
        let ghost r0 = rev@;
        rev.push(table[d]);
        m = m / 10;
        proof {
            assert(rev@.reverse() =~= seq![digit_char(d as int)] + r0.reverse());
            if m0 >= 10 {
                assert(digits(m0 as nat) == digits(m as nat).push(digit_char(d as int)));
                assert(digits(m as nat).push(digit_char(d as int)) + r0.reverse() =~= digits(m as nat) + rev@.reverse());
            } else {
                assert(digits(m0 as nat) == seq![digit_char(d as int)]);
            }
        }
        if m == 0 {
            break;
        }
    }
    let mut out: Vec<char> = Vec::new();
    if x < 0 {
        out.push('-');
    }
    let ghost o0 = out@;
    let mut k = rev.len();
    while k > 0
        invariant
            k <= rev@.len(),
            out@ == o0 + rev@.reverse().subrange(0, (rev@.len() - k) as int),
        decreases k,
    {
        k -= 1;
        let ghost o1 = out@;
        out.push(rev[k]);
        assert(rev@.reverse().subrange(0, (rev@.len() - k) as int) =~= rev@.reverse().subrange(0, (rev@.len() - k - 1) as int).push(rev@[k as int]));
    }
    assert(rev@.reverse().subrange(0, rev@.len() as int) =~= rev@.reverse());
    assert(mag == (if n < 0 { -(n as int) } else { n as int }));
    assert(out@ =~= dec_s(n as int));
    out
}

/// How a value is shown: an integer in decimal, `nil`, or `pair`.
pub open spec fn show_s(v: V) -> Seq<char> {
    match v {
        V::I(n) => dec_s(n as int),
        V::Nil => "nil"@,
        V::P(_, _) => "pair"@,
    }
}

/// Shows a value: an integer in decimal, `nil`, or `pair`.
pub fn show(v: &V) -> (r: String)
    ensures
        r@ == show_s(*v),
{
    match v {
        V::I(n) => string_of(&dec_chars(*n)),
        V::Nil => "nil".to_owned(),
        V::P(_, _) => "pair".to_owned(),
    }
}

} // verus!
