use vstd::prelude::*;

verus! {

/// Collects the characters of `s` into a vector.
pub fn chars_of(s: &str) -> (v: Vec<char>)
    ensures
        v@ == s@,
{
    let mut v: Vec<char> = Vec::new();
    for c in it: s.chars()
        invariant
            v@ == it.seq().take(it.index() as int),
            it.seq() == s@,
    {
        v.push(c);
    }
    v
}

/// Whether `s` begins with `p`, as `str::starts_with` with a `&str` pattern.
pub fn has_prefix(s: &str, p: &str) -> (res: bool)
    ensures
        res == p@.is_prefix_of(s@),
{
    let sc = chars_of(s);
    let pc = chars_of(p);
    if pc.len() > sc.len() {
        return false;
    }
    let mut i: usize = 0;
    while i < pc.len()
        invariant
            i <= pc@.len() <= sc@.len(),
            sc@ == s@,
            pc@ == p@,
            forall|j: int| 0 <= j < i ==> pc@[j] == sc@[j],
        decreases pc@.len() - i,
    {
        if pc[i] != sc[i] {
            return false;
        }
        i = i + 1;
    }
    true
}

/// Why a string is not the decimal notation of a `usize`, in the terms of
/// `core::num::IntErrorKind`.
#[derive(Clone, Copy, Debug, PartialEq, Eq, Structural)]
pub enum IntErrorKind {
    /// The string is empty.
    Empty,
    /// A character that is not a decimal digit (or a lone sign).
    InvalidDigit,
    /// The value does not fit in a `usize`.
    PosOverflow,
}

pub open spec fn is_digit(c: char) -> bool {
    '0' <= c && c <= '9'
}

pub open spec fn digit_value(c: char) -> nat {
    (c as int - '0' as int) as nat
}

/// Reading the digits of `d` from left to right: the value read so far, or
/// the first reason to stop (a non-digit comes before an overflow at the
/// same position).
pub open spec fn digits_value(d: Seq<char>) -> Result<nat, IntErrorKind>
    decreases d.len(),
{
    if d.len() == 0 {
        Ok(0)
    } else {
        match digits_value(d.drop_last()) {
            Err(e) => Err(e),
            Ok(v) => if !is_digit(d.last()) {
                Err(IntErrorKind::InvalidDigit)
            } else if v * 10 + digit_value(d.last()) > usize::MAX {
                Err(IntErrorKind::PosOverflow)
            } else {
                Ok(v * 10 + digit_value(d.last()))
            },
        }
    }
}

/// What `s.parse::<usize>()` gives: an optional leading `+`, then decimal
/// digits only.
pub open spec fn spec_parse_usize(s: Seq<char>) -> Result<usize, IntErrorKind> {
    if s.len() == 0 {
        Err(IntErrorKind::Empty)
    } else if (s[0] == '+' || s[0] == '-') && s.len() == 1 {
        Err(IntErrorKind::InvalidDigit)
    } else {
        let d = if s[0] == '+' { s.skip(1) } else { s };
        match digits_value(d) {
            Ok(v) => Ok(v as usize),
            Err(e) => Err(e),
        }
    }
}

/// Parses `s` as a decimal `usize`, as `str::parse::<usize>` does.
pub fn parse_usize(s: &str) -> (res: Result<usize, IntErrorKind>)
    ensures
        res == spec_parse_usize(s@),
{
    let cs = chars_of(s);
    let n: usize = cs.len();
    if n == 0 {
        return Err(IntErrorKind::Empty);
    }
    if (cs[0] == '+' || cs[0] == '-') && n == 1 {
        return Err(IntErrorKind::InvalidDigit);
    }
    let start: usize = if cs[0] == '+' { 1 } else { 0 };
    let ghost d = if cs@[0] == '+' { cs@.skip(1) } else { cs@ };
    assert(d =~= cs@.subrange(start as int, n as int));
    let mut acc: usize = 0;
    let mut i: usize = start;
    while i < n
        invariant
            start <= i <= n,
            n == cs@.len(),
            d =~= cs@.subrange(start as int, n as int),
            spec_parse_usize(s@) == (match digits_value(d) {
                Ok(v) => Ok::<usize, IntErrorKind>(v as usize),
                Err(e) => Err(e),
            }),
            digits_value(cs@.subrange(start as int, i as int)) == Ok::<nat, IntErrorKind>(acc as nat),
        decreases n - i,
    {
        let c = cs[i];
        let ghost pre = cs@.subrange(start as int, i as int);
        assert(cs@.subrange(start as int, i + 1).drop_last() =~= pre);
        assert(d.take((i - start) as int + 1) =~= cs@.subrange(start as int, i + 1));
        if !('0' <= c && c <= '9') {
            proof { lemma_prefix_error(d, (i - start) as nat); }
            return Err(IntErrorKind::InvalidDigit);
        }
        let dv: usize = (c as u32 - '0' as u32) as usize;
        if acc > (usize::MAX - dv) / 10 {
            assert(acc * 10 + dv > usize::MAX) by (nonlinear_arith)
                requires acc > (usize::MAX - dv) / 10, dv <= 9;
            proof { lemma_prefix_error(d, (i - start) as nat); }
            return Err(IntErrorKind::PosOverflow);
        }
        assert(acc * 10 + dv <= usize::MAX) by (nonlinear_arith)
            requires acc <= (usize::MAX - dv) / 10, dv <= 9;
        acc = acc * 10 + dv;
        i = i + 1;
    }
    assert(cs@.subrange(start as int, n as int) =~= d);
    Ok(acc)
}

/// Once a prefix of the digits fails, the whole fails the same way.
proof fn lemma_prefix_error(d: Seq<char>, k: nat)
    requires
        k < d.len(),
        digits_value(d.take(k as int + 1)) is Err,
    ensures
        digits_value(d) == digits_value(d.take(k as int + 1)),
    decreases d.len(),
{
    if d.len() == k + 1 {
        assert(d.take(k as int + 1) =~= d);
    } else {
        assert(d.drop_last().take(k as int + 1) =~= d.take(k as int + 1));
        lemma_prefix_error(d.drop_last(), k);
    }
}

/// Reading one more character after a number: a digit `c` gives ten times
/// the number plus `c`'s value (or `PosOverflow` past `usize::MAX`), anything
/// else gives `InvalidDigit`.
pub proof fn law_parse_next_char(d: Seq<char>, c: char)
    requires
        spec_parse_usize(d) is Ok,
    ensures
        ({
            let v = spec_parse_usize(d)->Ok_0;
            let x = v * 10 + (c as int - '0' as int);
            &&& ('0' <= c <= '9' && x <= usize::MAX) ==> spec_parse_usize(d.push(c)) == Ok::<usize, IntErrorKind>(x as usize)
            &&& ('0' <= c <= '9' && x > usize::MAX) ==> spec_parse_usize(d.push(c)) == Err::<usize, IntErrorKind>(IntErrorKind::PosOverflow)
            &&& !('0' <= c <= '9') ==> spec_parse_usize(d.push(c)) == Err::<usize, IntErrorKind>(IntErrorKind::InvalidDigit)
        }),
{
    let e = d.push(c);
    let ds = if d[0] == '+' { d.skip(1) } else { d };
    let es = if e[0] == '+' { e.skip(1) } else { e };
    assert(es =~= ds.push(c));
    assert(es.drop_last() =~= ds);
}

/// Single digits, signs and the empty string: `"<c>"` is `c`'s value for a
/// decimal digit `c`; `""` is `Empty`; a lone sign is `InvalidDigit`; a
/// leading `+` before a digit changes nothing; a leading `-` is refused.
pub proof fn law_parse_edges(c: char, d: Seq<char>)
    ensures
        '0' <= c <= '9' ==> spec_parse_usize(seq![c]) == Ok::<usize, IntErrorKind>((c as int - '0' as int) as usize),
        !('0' <= c <= '9') ==> spec_parse_usize(seq![c]) is Err,
        spec_parse_usize(Seq::<char>::empty()) == Err::<usize, IntErrorKind>(IntErrorKind::Empty),
        spec_parse_usize(seq!['+']) == Err::<usize, IntErrorKind>(IntErrorKind::InvalidDigit),
        spec_parse_usize(seq!['-']) == Err::<usize, IntErrorKind>(IntErrorKind::InvalidDigit),
        d.len() > 0 && '0' <= d[0] <= '9' ==> spec_parse_usize(seq!['+'] + d) == spec_parse_usize(d),
        d.len() > 0 ==> spec_parse_usize(seq!['-'] + d) == Err::<usize, IntErrorKind>(IntErrorKind::InvalidDigit),
{
    let one = seq![c];
    assert(one.drop_last() =~= Seq::<char>::empty());
    if d.len() > 0 {
        assert((seq!['+'] + d).skip(1) =~= d);
        lemma_leading_invalid(seq!['-'] + d);
    }
}

proof fn lemma_leading_invalid(d: Seq<char>)
    requires
        d.len() > 0,
        !is_digit(d[0]),
    ensures
        digits_value(d) == Err::<nat, IntErrorKind>(IntErrorKind::InvalidDigit),
    decreases d.len(),
{
    if d.len() == 1 {
        assert(d.drop_last() =~= Seq::<char>::empty());
    } else {
        lemma_leading_invalid(d.drop_last());
    }
}

} // verus!
