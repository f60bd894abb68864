use vstd::prelude::*;
use crate::json::{Json, JsonV, jv};

verus! {

/// Unicode `White_Space`, the set that `char::is_whitespace` tests.
pub open spec fn spec_is_ws(c: char) -> bool {
    ||| ('\u{9}' <= c && c <= '\u{D}')
    ||| c == ' '
    ||| c == '\u{85}'
    ||| c == '\u{A0}'
    ||| c == '\u{1680}'
    ||| ('\u{2000}' <= c && c <= '\u{200A}')
    ||| c == '\u{2028}'
    ||| c == '\u{2029}'
    ||| c == '\u{202F}'
    ||| c == '\u{205F}'
    ||| c == '\u{3000}'
}

/// Whether `c` is white space in the Unicode sense.
pub fn is_ws(c: char) -> (r: bool)
    ensures
        r == spec_is_ws(c),
{
    ('\u{9}' <= c && c <= '\u{D}') || c == ' ' || c == '\u{85}' || c == '\u{A0}' || c == '\u{1680}'
        || ('\u{2000}' <= c && c <= '\u{200A}') || c == '\u{2028}' || c == '\u{2029}'
        || c == '\u{202F}' || c == '\u{205F}' || c == '\u{3000}'
}

/// A character that may stand in a number: a decimal digit or a minus sign.
pub open spec fn num_char(c: char) -> bool {
    ('0' <= c && c <= '9') || c == '-'
}

/// The first position at or after `i` that is not white space.
pub open spec fn skip_ws(c: Seq<char>, i: int) -> int
    decreases c.len() - i,
{
    if 0 <= i < c.len() && spec_is_ws(c[i]) {
        skip_ws(c, i + 1)
    } else {
        i
    }
}

/// The end of the run of number characters that starts at `i`.
pub open spec fn num_end(c: Seq<char>, i: int) -> int
    decreases c.len() - i,
{
    if 0 <= i < c.len() && num_char(c[i]) {
        num_end(c, i + 1)
    } else {
        i
    }
}

/// The position of the first `"` at or after `i`, if there is one.
pub open spec fn quote_at(c: Seq<char>, i: int) -> Option<int>
    decreases c.len() - i,
{
    if i < 0 || i >= c.len() {
        None
    } else if c[i] == '"' {
        Some(i)
    } else {
        quote_at(c, i + 1)
    }
}

/// The value of a string of decimal digits, most significant first.
pub open spec fn digits_value(s: Seq<char>) -> nat
    decreases s.len(),
{
    if s.len() == 0 {
        0
    } else {
        digits_value(s.drop_last()) * 10 + (s.last() as nat - '0' as nat) as nat
    }
}

/// Whether every character of `s` is a decimal digit.
pub open spec fn all_digits(s: Seq<char>) -> bool {
    forall|k: int| 0 <= k < s.len() ==> '0' <= #[trigger] s[k] && s[k] <= '9'
}

/// `i64::from_str` on a string of digits and minus signs: an optional leading minus,
/// then at least one digit and nothing else, in range.
pub open spec fn spec_parse_i64(s: Seq<char>) -> Option<i64> {
    if s.len() > 0 && s[0] == '-' {
        let d = s.drop_first();
        if d.len() > 0 && all_digits(d) && digits_value(d) <= 0x8000_0000_0000_0000 {
            Some((-(digits_value(d) as int)) as i64)
        } else {
            None
        }
    } else if s.len() > 0 && all_digits(s) && digits_value(s) <= 0x7fff_ffff_ffff_ffff {
        Some(digits_value(s) as i64)
    } else {
        None
    }
}

/// A number at `i`: the run of number characters, read as an `i64`, or zero where that fails.
pub open spec fn p_num(c: Seq<char>, i: int) -> (i64, int) {
    let e = num_end(c, i);
    let n = match spec_parse_i64(c.subrange(i, e)) {
        Some(n) => n,
        None => 0,
    };
    (n, e)
}

/// A string whose opening character stands at `i`: the characters up to the next `"`.
pub open spec fn p_string(c: Seq<char>, i: int) -> Option<(Seq<char>, int)> {
    match quote_at(c, i + 1) {
        Some(q) => Some((c.subrange(i + 1, q), q + 1)),
        None => None,
    }
}

/// The value that the text `c` holds at position `i` (after white space), with the position
/// just past it; `None` where reading it would run past the end of the text.
pub open spec fn p_val(c: Seq<char>, i: int) -> Option<(JsonV, int)>
    decreases c.len() - i, 1int,
{
    let k = skip_ws(c, i);
    if i < 0 || i > c.len() || k >= c.len() {
        None
    } else if c[k] == '[' {
        proof { lemma_skip_ws(c, i); }
        p_arr(c, k + 1)
    } else if c[k] == '{' {
        proof { lemma_skip_ws(c, i); }
        p_obj(c, k + 1)
    } else if c[k] == '"' {
        match p_string(c, k) {
            Some((s, e)) => Some((JsonV::Str(s), e)),
            None => None,
        }
    } else {
        let (n, e) = p_num(c, k);
        Some((JsonV::Num(n), e))
    }
}

/// An array whose `[` has just been read; `j` is the position after it.
pub open spec fn p_arr(c: Seq<char>, j: int) -> Option<(JsonV, int)>
    decreases c.len() - j, 3int,
{
    let k = skip_ws(c, j);
    if j < 0 || j > c.len() || k >= c.len() {
        None
    } else if c[k] == ']' {
        Some((JsonV::Arr(Seq::empty()), k + 1))
    } else {
        proof { lemma_skip_ws(c, j); }
        p_items(c, k, Seq::empty())
    }
}

/// The elements of an array from position `j` on, after the elements `acc`.
pub open spec fn p_items(c: Seq<char>, j: int, acc: Seq<JsonV>) -> Option<(JsonV, int)>
    decreases c.len() - j, 2int,
{
    if j < 0 || j > c.len() {
        None
    } else {
        match p_val(c, j) {
            None => None,
            Some((v, e)) => {
                let k = skip_ws(c, e);
                if k < 0 || k >= c.len() {
                    None
                } else if c[k] == ',' {
                    if k + 1 > j {
                        p_items(c, k + 1, acc.push(v))
                    } else {
                        None
                    }
                } else {
                    Some((JsonV::Arr(acc.push(v)), k + 1))
                }
            },
        }
    }
}

/// An object whose `{` has just been read; `j` is the position after it.
pub open spec fn p_obj(c: Seq<char>, j: int) -> Option<(JsonV, int)>
    decreases c.len() - j, 3int,
{
    let k = skip_ws(c, j);
    if j < 0 || j > c.len() || k >= c.len() {
        None
    } else if c[k] == '}' {
        Some((JsonV::Obj(Seq::empty()), k + 1))
    } else {
        proof { lemma_skip_ws(c, j); }
        p_members(c, k, Seq::empty())
    }
}

/// The members of an object from position `j` on, after the members `acc`: a key string,
/// one separating character, a value.
pub open spec fn p_members(c: Seq<char>, j: int, acc: Seq<(Seq<char>, JsonV)>) -> Option<(JsonV, int)>
    decreases c.len() - j, 2int,
{
    let k0 = skip_ws(c, j);
    if j < 0 || j > c.len() {
        None
    } else {
        match p_string(c, k0) {
            None => None,
            Some((key, e1)) => {
                let p = skip_ws(c, e1) + 1;
                if p > c.len() || p <= j {
                    None
                } else {
                    match p_val(c, p) {
                        None => None,
                        Some((v, e2)) => {
                            let k2 = skip_ws(c, e2);
                            if k2 < 0 || k2 >= c.len() {
                                None
                            } else if c[k2] == ',' {
                                if k2 + 1 > j {
                                    p_members(c, k2 + 1, acc.push((key, v)))
                                } else {
                                    None
                                }
                            } else {
                                Some((JsonV::Obj(acc.push((key, v))), k2 + 1))
                            }
                        },
                    }
                }
            },
        }
    }
}

/// The contents of a sequence of documents.
pub open spec fn jvs(v: Seq<Json>) -> Seq<JsonV> {
    Seq::new(v.len(), |i: int| jv(v[i]))
}

/// The contents of a sequence of object members.
pub open spec fn jvms(v: Seq<(Vec<char>, Json)>) -> Seq<(Seq<char>, JsonV)> {
    Seq::new(v.len(), |i: int| (v[i].0@, jv(v[i].1)))
}

pub proof fn lemma_quote_at(c: Seq<char>, i: int)
    ensures
        quote_at(c, i) matches Some(q) ==> i <= q < c.len() && c[q] == '"' && forall|k: int|
            i <= k < q ==> c[k] != '"',
    decreases c.len() - i,
{
    if 0 <= i < c.len() && c[i] != '"' {
        lemma_quote_at(c, i + 1);
    }
}

pub proof fn lemma_subrange_push<T>(c: Seq<T>, a: int, b: int)
    requires
        0 <= a <= b < c.len(),
    ensures
        c.subrange(a, b + 1) == c.subrange(a, b).push(c[b]),
{
    assert(c.subrange(a, b + 1) =~= c.subrange(a, b).push(c[b]));
}

pub proof fn lemma_skip_ws(c: Seq<char>, i: int)
    ensures
        skip_ws(c, i) >= i,
        0 <= i <= c.len() ==> skip_ws(c, i) <= c.len(),
    decreases c.len() - i,
{
    if 0 <= i < c.len() && spec_is_ws(c[i]) {
        lemma_skip_ws(c, i + 1);
    }
}

} // verus!

verus! {

pub proof fn lemma_digits_mono(s: Seq<char>, t: Seq<char>)
    requires
        all_digits(s + t),
    ensures
        digits_value(s + t) >= digits_value(s),
    decreases t.len(),
{
    if t.len() > 0 {
        assert((s + t).drop_last() =~= s + t.drop_last());
        lemma_digits_mono(s, t.drop_last());
        assert(all_digits(s + t.drop_last())) by {
            assert forall|k: int| 0 <= k < (s + t.drop_last()).len() implies '0' <= #[trigger] (s + t.drop_last())[k]
                && (s + t.drop_last())[k] <= '9' by {
                assert((s + t.drop_last())[k] == (s + t)[k]);
            }
        }
    } else {
        assert(s + t =~= s);
    }
}

/// Reads `c[lo..hi]` as an `i64`, as `str::parse::<i64>` does.
pub fn parse_i64_range(c: &Vec<char>, lo: usize, hi: usize) -> (r: Option<i64>)
    requires
        lo <= hi <= c@.len(),
    ensures
        r == spec_parse_i64(c@.subrange(lo as int, hi as int)),
{
    let ghost s = c@.subrange(lo as int, hi as int);
    let neg = lo < hi && c[lo] == '-';
    let start = if neg { lo + 1 } else { lo };
    let limit: u128 = if neg { 0x8000_0000_0000_0000 } else { 0x7fff_ffff_ffff_ffff };
    let ghost d = c@.subrange(start as int, hi as int);
    assert(neg ==> d =~= s.drop_first());
    assert(!neg ==> d =~= s);
    assert(neg == (s.len() > 0 && s[0] == '-'));
    if start == hi {
        return None;
    }
    let mut m: u128 = 0;
    let mut k: usize = start;
    while k < hi
        invariant
            start <= k <= hi <= c@.len(),
            d == c@.subrange(start as int, hi as int),
            all_digits(c@.subrange(start as int, k as int)),
            m == digits_value(c@.subrange(start as int, k as int)),
            m <= limit,
            limit == if neg { 0x8000_0000_0000_0000u128 } else { 0x7fff_ffff_ffff_ffffu128 },
            s == c@.subrange(lo as int, hi as int),
            neg ==> d == s.drop_first(),
            !neg ==> d == s,
            neg == (s.len() > 0 && s[0] == '-'),
        decreases hi - k,
    {
        let ch = c[k];
        let ghost pre = c@.subrange(start as int, k as int);
        assert(c@.subrange(start as int, k + 1) =~= pre.push(ch));
        assert(pre.push(ch).drop_last() =~= pre);
        if !('0' <= ch && ch <= '9') {
            assert(d[k - start] == ch);
            assert(!all_digits(d));
            return None;
        }
        let dv = (ch as u32 - '0' as u32) as u128;
        m = m * 10 + dv;
        assert(all_digits(pre.push(ch))) by {
            assert forall|j: int| 0 <= j < pre.push(ch).len() implies '0' <= #[trigger] pre.push(ch)[j]
                && pre.push(ch)[j] <= '9' by {
                if j < pre.len() {
                    assert(pre.push(ch)[j] == pre[j]);
                }
            }
        }
        assert(digits_value(pre.push(ch)) == m);
        if m > limit {
            proof {
                let rest = c@.subrange(k + 1, hi as int);
                assert(d =~= pre.push(ch) + rest);
                if all_digits(d) {
                    lemma_digits_mono(pre.push(ch), rest);
                }
            }
            return None;
        }
        k += 1;
    }
    assert(d =~= c@.subrange(start as int, k as int));
    if neg {
        Some((-(m as i128)) as i64)
    } else {
        Some(m as i64)
    }
}

/// A reader over the characters of a JSON text, with its current position.
pub struct P {
    pub c: Vec<char>,
    pub i: usize,
}

impl P {
    /// A reader at the start of `s`.
    pub fn new(s: &str) -> (p: P)
        ensures
            p.c@ == s@,
            p.i == 0,
    {
        let mut c: Vec<char> = Vec::new();
        let n = s.unicode_len();
        let mut k: usize = 0;
        while k < n
            invariant
                n == s@.len(),
                k <= n,
                c@ == s@.subrange(0, k as int),
            decreases n - k,
        {
            c.push(s.get_char(k));
            k += 1;
            assert(c@ =~= s@.subrange(0, k as int));
        }
        assert(c@ =~= s@);
        P { c, i: 0 }
    }

    /// Skips white space.
    pub fn ws(&mut self)
        requires
            old(self).i <= old(self).c@.len(),
        ensures
            final(self).c@ == old(self).c@,
            final(self).i == skip_ws(old(self).c@, old(self).i as int),
    {
        while self.i < self.c.len() && is_ws(self.c[self.i])
            invariant
                self.c@ == old(self).c@,
                self.i <= self.c@.len(),
                skip_ws(self.c@, self.i as int) == skip_ws(old(self).c@, old(self).i as int),
            decreases self.c@.len() - self.i,
        {
            self.i += 1;
        }
    }

    /// Reads one value, after white space.
    pub fn val(&mut self) -> (r: Json)
        requires
            old(self).i <= old(self).c@.len(),
            p_val(old(self).c@, old(self).i as int) is Some,
        ensures
            final(self).c@ == old(self).c@,
            p_val(old(self).c@, old(self).i as int) == Some((jv(r), final(self).i as int)),
            old(self).i <= final(self).i <= final(self).c@.len(),
        decreases old(self).c@.len() - old(self).i, 1int,
    {
        self.ws();
        proof { lemma_skip_ws(self.c@, old(self).i as int); }
        let ch = self.c[self.i];
        if ch == '[' {
            self.arr()
        } else if ch == '{' {
            self.obj()
        } else if ch == '"' {
            let s = self.string();
            Json::Str(s)
        } else {
            self.num()
        }
    }

    /// Reads an array; the reader stands on its `[`.
    pub fn arr(&mut self) -> (r: Json)
        requires
            old(self).i < old(self).c@.len(),
            p_arr(old(self).c@, old(self).i + 1) is Some,
        ensures
            final(self).c@ == old(self).c@,
            p_arr(old(self).c@, old(self).i + 1) == Some((jv(r), final(self).i as int)),
            old(self).i < final(self).i <= final(self).c@.len(),
        decreases old(self).c@.len() - old(self).i - 1, 3int,
    {
        let ghost c = self.c@;
        let ghost i0 = self.i as int;
        let n = self.c.len();
        let ghost target = p_arr(c, i0 + 1);
        self.i += 1;
        let mut v: Vec<Json> = Vec::new();
        self.ws();
        proof { lemma_skip_ws(c, i0 + 1); }
        if self.c[self.i] == ']' {
            self.i += 1;
            assert(jv(Json::Arr(v))->Arr_0 =~= Seq::<JsonV>::empty());
            return Json::Arr(v);
        }
        assert(jvs(v@) =~= Seq::<JsonV>::empty());
        loop
            invariant_except_break
                self.c@ == c,
                c == old(self).c@,
                i0 == old(self).i,
                n == c.len(),
                i0 < self.i <= c.len(),
                p_items(c, self.i as int, jvs(v@)) == target,
                target is Some,
            ensures
                self.c@ == c,
                i0 < self.i < c.len(),
                target == Some((JsonV::Arr(jvs(v@)), self.i + 1)),
            decreases c.len() - self.i,
        {
            let ghost j = self.i as int;
            let ghost acc = jvs(v@);
            let x = self.val();
            let ghost e = self.i as int;
            v.push(x);
            assert(jvs(v@) =~= acc.push(jv(x)));
            self.ws();
            proof { lemma_skip_ws(c, e); }
            if self.c[self.i] == ',' {
                self.i += 1;
            } else {
                break;
            }
        }
        self.i += 1;
        assert(jv(Json::Arr(v))->Arr_0 =~= jvs(v@));
        Json::Arr(v)
    }

    /// Reads an object; the reader stands on its `{`.
    pub fn obj(&mut self) -> (r: Json)
        requires
            old(self).i < old(self).c@.len(),
            p_obj(old(self).c@, old(self).i + 1) is Some,
        ensures
            final(self).c@ == old(self).c@,
            p_obj(old(self).c@, old(self).i + 1) == Some((jv(r), final(self).i as int)),
            old(self).i < final(self).i <= final(self).c@.len(),
        decreases old(self).c@.len() - old(self).i - 1, 3int,
    {
        let ghost c = self.c@;
        let ghost i0 = self.i as int;
        let n = self.c.len();
        let ghost target = p_obj(c, i0 + 1);
        self.i += 1;
        let mut v: Vec<(Vec<char>, Json)> = Vec::new();
        self.ws();
        proof { lemma_skip_ws(c, i0 + 1); }
        if self.c[self.i] == '}' {
            self.i += 1;
            assert(jv(Json::Obj(v))->Obj_0 =~= Seq::<(Seq<char>, JsonV)>::empty());
            return Json::Obj(v);
        }
        assert(jvms(v@) =~= Seq::<(Seq<char>, JsonV)>::empty());
        loop
            invariant_except_break
                self.c@ == c,
                c == old(self).c@,
                i0 == old(self).i,
                n == c.len(),
                i0 < self.i <= c.len(),
                p_members(c, self.i as int, jvms(v@)) == target,
                target is Some,
            ensures
                self.c@ == c,
                i0 < self.i < c.len(),
                target == Some((JsonV::Obj(jvms(v@)), self.i + 1)),
            decreases c.len() - self.i,
        {
            let ghost j = self.i as int;
            let ghost acc = jvms(v@);
            self.ws();
            proof { lemma_skip_ws(c, j); }
            let k = self.string();
            let ghost e1 = self.i as int;
            self.ws();
            proof { lemma_skip_ws(c, e1); }
            self.i += 1;
            let x = self.val();
            let ghost e2 = self.i as int;
            let ghost key = k@;
            v.push((k, x));
            assert(jvms(v@) =~= acc.push((key, jv(x))));
            self.ws();
            proof { lemma_skip_ws(c, e2); }
            if self.c[self.i] == ',' {
                self.i += 1;
            } else {
                break;
            }
        }
        self.i += 1;
        assert(jv(Json::Obj(v))->Obj_0 =~= jvms(v@));
        Json::Obj(v)
    }

    /// Reads a string; the reader stands on its opening character.
    pub fn string(&mut self) -> (r: Vec<char>)
        requires
            old(self).i <= old(self).c@.len(),
            p_string(old(self).c@, old(self).i as int) is Some,
        ensures
            final(self).c@ == old(self).c@,
            p_string(old(self).c@, old(self).i as int) == Some((r@, final(self).i as int)),
            old(self).i < final(self).i <= final(self).c@.len(),
    {
        let ghost c = self.c@;
        let n = self.c.len();
        let ghost q = quote_at(c, self.i + 1)->0;
        self.i += 1;
        let ghost i1 = self.i as int;
        let mut s: Vec<char> = Vec::new();
        proof { lemma_quote_at(c, i1); }
        while self.c[self.i] != '"'
            invariant
                self.c@ == c,
                0 <= i1 <= self.i <= q < c.len(),
                c[q] == '"',
                n == c.len(),
                quote_at(c, self.i as int) == Some(q),
                s@ == c.subrange(i1, self.i as int),
            decreases q - self.i,
        {
            let ii = self.i;
            let ch = self.c[ii];
            let ghost before = s@;
            s.push(ch);
            proof {
                let ci = ii as int;
                assert(ch == c[ci]);
                assert(ci < c.len());
                assert(s@.len() == before.len() + 1);
                assert(s@[before.len() as int] == ch);
                assert(before =~= c.subrange(i1, ci));
                lemma_subrange_push(c, i1, ci);
                assert(s@ == before.push(ch));
            }
            self.i += 1;
        }
        self.i += 1;
        s
    }

    /// Reads a number: the run of digits and minus signs, as an `i64`, or zero.
    pub fn num(&mut self) -> (r: Json)
        requires
            old(self).i <= old(self).c@.len(),
        ensures
            final(self).c@ == old(self).c@,
            r == Json::Num(p_num(old(self).c@, old(self).i as int).0),
            final(self).i == p_num(old(self).c@, old(self).i as int).1,
            old(self).i <= final(self).i <= final(self).c@.len(),
    {
        let start = self.i;
        while self.i < self.c.len() && (('0' <= self.c[self.i] && self.c[self.i] <= '9') || self.c[self.i] == '-')
            invariant
                self.c@ == old(self).c@,
                start <= self.i <= self.c@.len(),
                num_end(self.c@, self.i as int) == num_end(self.c@, start as int),
            decreases self.c@.len() - self.i,
        {
            self.i += 1;
        }
        let n = match parse_i64_range(&self.c, start, self.i) {
            Some(n) => n,
            None => 0,
        };
        Json::Num(n)
    }
}

} // verus!
