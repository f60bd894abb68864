use vstd::prelude::*;
use crate::chars::same_chars;
use crate::value::V;

verus! {

/// A parsed JSON document. Strings are held as their characters.
pub enum Json {
    Num(i64),
    Str(Vec<char>),
    Arr(Vec<Json>),
    Obj(Vec<(Vec<char>, Json)>),
}

/// The mathematical content of a JSON document.
pub enum JsonV {
    Num(i64),
    Str(Seq<char>),
    Arr(Seq<JsonV>),
    Obj(Seq<(Seq<char>, JsonV)>),
}

/// The content of a JSON document, with its vectors read as sequences.
pub open spec fn jv(j: Json) -> JsonV
    decreases j,
{
    match j {
        Json::Num(n) => JsonV::Num(n),
        Json::Str(s) => JsonV::Str(s@),
        Json::Arr(a) => JsonV::Arr(
            Seq::new(a@.len(), |i: int| if 0 <= i < a@.len() { jv(a@[i]) } else { JsonV::Num(0) }),
        ),
        Json::Obj(o) => JsonV::Obj(
            Seq::new(
                o@.len(),
                |i: int|
                    if 0 <= i < o@.len() {
                        (o@[i].0@, jv(o@[i].1))
                    } else {
                        (Seq::empty(), JsonV::Num(0))
                    },
            ),
        ),
    }
}

/// The tag that marks an encoded empty list.
pub open spec fn w_nil() -> Seq<char> {
    seq!['\u{27E8}', 'N', '\u{27E9}']
}

/// The tag that marks an encoded pair.
pub open spec fn w_pair() -> Seq<char> {
    seq!['\u{27E8}', 'P', '\u{27E9}']
}

/// Whether `j` is a string holding exactly `w`.
pub open spec fn is_word(j: Json, w: Seq<char>) -> bool {
    j matches Json::Str(t) && t@ == w
}

/// The characters of a string node, or nothing for any other node.
pub open spec fn spec_sof(j: Json) -> Seq<char> {
    match j {
        Json::Str(s) => s@,
        _ => Seq::empty(),
    }
}

/// The characters of a string node, or nothing for any other node.
pub fn sof(j: &Json) -> (r: &[char])
    ensures
        r@ == spec_sof(*j),
{
    match j {
        Json::Str(s) => s.as_slice(),
        _ => {
            let e: &[char] = &[];
            assert(e@ =~= Seq::<char>::empty());
            e
        },
    }
}

/// Whether a string node holds exactly the characters `w`.
pub fn str_is(j: &Json, w: &[char]) -> (r: bool)
    ensures
        r == is_word(*j, w@),
{
    match j {
        Json::Str(t) => same_chars(t.as_slice(), w),
        _ => false,
    }
}

/// An encoded pair: a three-element array tagged with the pair marker.
pub open spec fn spec_is_p(j: Json) -> bool {
    &&& j is Arr
    &&& j->Arr_0@.len() == 3
    &&& is_word(j->Arr_0@[0], w_pair())
}

/// Whether `j` encodes a pair.
pub fn is_p(j: &Json) -> (r: bool)
    ensures
        r == spec_is_p(*j),
{
    match j {
        Json::Arr(a) => a.len() == 3 && str_is(&a[0], &['\u{27E8}', 'P', '\u{27E9}']),
        _ => false,
    }
}

/// The second element of an array: the car of an encoded pair.
pub open spec fn spec_pcar(j: Json) -> Json {
    j->Arr_0@[1]
}

/// The third element of an array: the cdr of an encoded pair.
pub open spec fn spec_pcdr(j: Json) -> Json {
    j->Arr_0@[2]
}

/// The car of an encoded pair.
pub fn pcar(j: &Json) -> (r: &Json)
    requires
        j is Arr,
        j->Arr_0@.len() >= 2,
    ensures
        *r == spec_pcar(*j),
{
    match j {
        Json::Arr(a) => &a[1],
        _ => { proof { assert(false); } j }
    }
}

/// The cdr of an encoded pair.
pub fn pcdr(j: &Json) -> (r: &Json)
    requires
        j is Arr,
        j->Arr_0@.len() >= 3,
    ensures
        *r == spec_pcdr(*j),
{
    match j {
        Json::Arr(a) => &a[2],
        _ => { proof { assert(false); } j }
    }
}

/// The integer held by a number node.
pub fn pnum(j: &Json) -> (r: i64)
    requires
        j is Num,
    ensures
        r == j->Num_0,
{
    match j {
        Json::Num(n) => *n,
        _ => { proof { assert(false); } 0 }
    }
}

/// The value a JSON node encodes, or `None` where decoding would index past an array.
pub open spec fn spec_to_v(j: Json) -> Option<V>
    decreases j,
{
    match j {
        Json::Num(n) => Some(V::I(n)),
        Json::Arr(a) => {
            if a@.len() == 0 {
                None
            } else if is_word(a@[0], w_nil()) {
                Some(V::Nil)
            } else if is_word(a@[0], w_pair()) {
                if a@.len() < 3 {
                    None
                } else {
                    match (spec_to_v(a@[1]), spec_to_v(a@[2])) {
                        (Some(x), Some(y)) => Some(V::P(Box::new(x), Box::new(y))),
                        _ => None,
                    }
                }
            } else {
                Some(V::I(0))
            }
        },
        _ => Some(V::I(0)),
    }
}

/// Decodes a value: numbers are integers, `[⟨N⟩]` is the empty list, `[⟨P⟩, a, d]` a pair,
/// anything else the integer zero.
pub fn to_v(j: &Json) -> (r: V)
    requires
        spec_to_v(*j) is Some,
    ensures
        spec_to_v(*j) == Some(r),
    decreases j,
{
    match j {
        Json::Num(n) => V::I(*n),
        Json::Arr(a) => {
            if str_is(&a[0], &['\u{27E8}', 'N', '\u{27E9}']) {
                V::Nil
            } else if str_is(&a[0], &['\u{27E8}', 'P', '\u{27E9}']) {
                let x = to_v(&a[1]);
                let y = to_v(&a[2]);
                V::P(Box::new(x), Box::new(y))
            } else {
                V::I(0)
            }
        },
        _ => V::I(0),
    }
}

} // verus!
