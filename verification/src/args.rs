use vstd::prelude::*;
use vstd::string::StrSliceExecFns;

use crate::text::{chars_of, parse_usize, spec_parse_usize, IntErrorKind};

verus! {

/// The arguments of the builtin: `<bracket color size>,<cursor>,<widget>,<buffer>`.
pub struct Args {
    pub buf: String,
    pub bracket_color_size: usize,
    pub cursor: usize,
    pub widget: String,
}

pub struct ArgsView {
    pub buf: Seq<char>,
    pub bracket_color_size: usize,
    pub cursor: usize,
    pub widget: Seq<char>,
}

impl View for Args {
    type V = ArgsView;

    open spec fn view(&self) -> ArgsView {
        ArgsView {
            buf: self.buf@,
            bracket_color_size: self.bracket_color_size,
            cursor: self.cursor,
            widget: self.widget@,
        }
    }
}

/// Which number in the arguments is not a `usize`, and why.
#[derive(Clone, Copy, Debug, PartialEq, Eq, Structural)]
pub enum ParseArgsError {
    BracketColorSize(IntErrorKind),
    Cursor(IntErrorKind),
}

/// The index of the first `,` in `s`, or -1 when there is none.
pub open spec fn first_comma(s: Seq<char>) -> int
    decreases s.len(),
{
    if s.len() == 0 {
        -1
    } else if s[0] == ',' {
        0
    } else {
        let r = first_comma(s.drop_first());
        if r < 0 {
            -1
        } else {
            r + 1
        }
    }
}

/// The pieces of `s` between commas, at most `n` of them (`n >= 1`), the
/// last holding the rest: what `s.splitn(n, ",")` yields.
pub open spec fn split_commas(s: Seq<char>, n: nat) -> Seq<Seq<char>>
    decreases n,
{
    if n <= 1 || first_comma(s) < 0 {
        seq![s]
    } else {
        let c = first_comma(s);
        seq![s.take(c)] + split_commas(s.skip(c + 1), (n - 1) as nat)
    }
}

/// Whether reading the arguments `s` ends without a panic: the fields after
/// a number that parses must be there.
pub open spec fn args_ok(s: Seq<char>) -> bool {
    let p = split_commas(s, 4);
    match spec_parse_usize(p[0]) {
        Err(_) => true,
        Ok(_) => p.len() >= 2 && match spec_parse_usize(p[1]) {
            Err(_) => true,
            Ok(_) => p.len() >= 4,
        },
    }
}

/// The arguments that `s` holds, or the first number that does not parse.
pub open spec fn spec_from_raw(s: Seq<char>) -> Result<ArgsView, ParseArgsError> {
    let p = split_commas(s, 4);
    match spec_parse_usize(p[0]) {
        Err(e) => Err(ParseArgsError::BracketColorSize(e)),
        Ok(size) => match spec_parse_usize(p[1]) {
            Err(e) => Err(ParseArgsError::Cursor(e)),
            Ok(cursor) => Ok(
                ArgsView { buf: p[3], bracket_color_size: size, cursor: cursor, widget: p[2] },
            ),
        },
    }
}

pub open spec fn args_result_view(r: Result<Args, ParseArgsError>) -> Result<ArgsView, ParseArgsError> {
    match r {
        Ok(a) => Ok(a@),
        Err(e) => Err(e),
    }
}

proof fn lemma_first_comma(s: Seq<char>)
    ensures
        -1 <= first_comma(s) < s.len(),
        first_comma(s) == -1 ==> forall|j: int| 0 <= j < s.len() ==> s[j] != ',',
        first_comma(s) >= 0 ==> s[first_comma(s)] == ',' && forall|j: int|
            0 <= j < first_comma(s) ==> s[j] != ',',
    decreases s.len(),
{
    if s.len() > 0 && s[0] != ',' {
        lemma_first_comma(s.drop_first());
        assert forall|j: int| 1 <= j < s.len() implies s[j] == s.drop_first()[j - 1] by {}
    }
}

/// The first comma of `s` is at `c` when `s` has one there and none before.
proof fn lemma_first_comma_at(s: Seq<char>, c: int)
    requires
        -1 <= c < s.len(),
        c >= 0 ==> s[c] == ',',
        forall|j: int| 0 <= j < (if c < 0 { s.len() as int } else { c }) ==> s[j] != ',',
    ensures
        first_comma(s) == c,
{
    lemma_first_comma(s);
    let f = first_comma(s);
    if f >= 0 && c >= 0 {
        if f < c {
            assert(s[f] != ',');
        } else if c < f {
            assert(s[c] != ',');
        }
    } else if f >= 0 {
        assert(s[f] != ',');
    } else if c >= 0 {
        assert(s[c] != ',');
    }
}

/// Splits `s` at its first three commas, as `s.splitn(4, ",")`.
fn split_fields(s: &str) -> (parts: Vec<String>)
    ensures
        parts.deep_view() == split_commas(s@, 4),
{
    let cs = chars_of(s);
    let n: usize = cs.len();
    let mut parts: Vec<String> = Vec::new();
    let mut start: usize = 0;
    let mut i: usize = 0;
    assert(s@.skip(0) =~= s@);
    while i < n
        invariant
            start <= i <= n,
            n == s@.len(),
            cs@ == s@,
            parts@.len() <= 3,
            parts.deep_view() + split_commas(s@.skip(start as int), (4 - parts@.len()) as nat)
                == split_commas(s@, 4),
            parts@.len() < 3 ==> forall|j: int| start <= j < i ==> s@[j] != ',',
        decreases n - i,
    {
        if cs[i] == ',' && parts.len() < 3 {
            let ghost t = s@.skip(start as int);
            let ghost m = (4 - parts@.len()) as nat;
            proof {
                lemma_first_comma_at(t, i - start);
                assert(t.take(i - start) =~= s@.subrange(start as int, i as int));
                assert(t.skip(i - start + 1) =~= s@.skip(i + 1));
            }
            let piece = s.substring_char(start, i).to_owned();
            let ghost old_parts = parts.deep_view();
            parts.push(piece);
            assert(parts.deep_view() =~= old_parts.push(piece@));
            assert(split_commas(t, m) == seq![t.take(i - start)] + split_commas(
                t.skip(i - start + 1),
                (m - 1) as nat,
            ));
            assert(parts.deep_view() + split_commas(s@.skip(i + 1), (m - 1) as nat) =~= old_parts
                + split_commas(t, m));
            start = i + 1;
        }
        i = i + 1;
    }
    let ghost t = s@.skip(start as int);
    let ghost m = (4 - parts@.len()) as nat;
    proof {
        if m > 1 {
            lemma_first_comma_at(t, -1);
        }
    }
    assert(split_commas(t, m) == seq![t]);
    let last = s.substring_char(start, n).to_owned();
    assert(last@ =~= t);
    let ghost old_parts = parts.deep_view();
    parts.push(last);
    assert(parts.deep_view() =~= old_parts + seq![t]);
    parts
}

proof fn lemma_split_len(s: Seq<char>, n: nat)
    requires
        n >= 1,
    ensures
        1 <= split_commas(s, n).len() <= n,
    decreases n,
{
    if n > 1 && first_comma(s) >= 0 {
        lemma_first_comma(s);
        lemma_split_len(s.skip(first_comma(s) + 1), (n - 1) as nat);
    }
}

impl Args {
    /// Reads the arguments from `<bracket color size>,<cursor>,<widget>,<buffer>`;
    /// the buffer is the rest of the string and may hold commas. The error
    /// names the first number that does not parse.
    pub fn from_raw(args_str: &str) -> (res: Result<Args, ParseArgsError>)
        requires
            args_ok(args_str@),
        ensures
            args_result_view(res) == spec_from_raw(args_str@),
    {
        let args = split_fields(args_str);
        proof {
            lemma_split_len(args_str@, 4);
        }
        assert(args@[0]@ == split_commas(args_str@, 4)[0]);
        let bracket_color_size: usize = match parse_usize(args[0].as_str()) {
            Ok(s) => s,
            Err(e) => {
                return Err(ParseArgsError::BracketColorSize(e));
            },
        };
        assert(args@[1]@ == split_commas(args_str@, 4)[1]);
        let cursor: usize = match parse_usize(args[1].as_str()) {
            Ok(s) => s,
            Err(e) => {
                return Err(ParseArgsError::Cursor(e));
            },
        };
        assert(args@[2]@ == split_commas(args_str@, 4)[2]);
        assert(args@[3]@ == split_commas(args_str@, 4)[3]);
        let widget = args[2].clone();
        let buffer = args[3].clone();
        Ok(Args { buf: buffer, bracket_color_size: bracket_color_size, cursor: cursor, widget: widget })
    }
}

/// Whether `Args::from_raw` accepts `args_str`: the fields after each number
/// that parses are present.
pub fn args_accepted(args_str: &str) -> (ok: bool)
    ensures
        ok == args_ok(args_str@),
{
    let args = split_fields(args_str);
    proof {
        lemma_split_len(args_str@, 4);
    }
    assert(args@[0]@ == split_commas(args_str@, 4)[0]);
    match parse_usize(args[0].as_str()) {
        Err(_) => true,
        Ok(_) => {
            if args.len() < 2 {
                false
            } else {
                assert(args@[1]@ == split_commas(args_str@, 4)[1]);
                match parse_usize(args[1].as_str()) {
                    Err(_) => true,
                    Ok(_) => args.len() >= 4,
                }
            }
        },
    }
}

pub open spec fn has_comma(s: Seq<char>) -> bool {
    exists|j: int| 0 <= j < s.len() && s[j] == ','
}

/// Joining three comma-free fields and a buffer with commas and splitting
/// again gives them back; the buffer may hold commas.
pub proof fn law_fields_round_trip(x: Seq<char>, y: Seq<char>, w: Seq<char>, b: Seq<char>)
    requires
        !has_comma(x),
        !has_comma(y),
        !has_comma(w),
    ensures
        split_commas(x + seq![','] + y + seq![','] + w + seq![','] + b, 4) == seq![x, y, w, b],
{
    let s3 = w + seq![','] + b;
    let s2 = y + seq![','] + s3;
    let s1 = x + seq![','] + s2;
    assert(s1 =~= x + seq![','] + y + seq![','] + w + seq![','] + b);
    lemma_first_comma_at(s1, x.len() as int);
    assert(s1.take(x.len() as int) =~= x);
    assert(s1.skip(x.len() as int + 1) =~= s2);
    lemma_first_comma_at(s2, y.len() as int);
    assert(s2.take(y.len() as int) =~= y);
    assert(s2.skip(y.len() as int + 1) =~= s3);
    lemma_first_comma_at(s3, w.len() as int);
    assert(s3.take(w.len() as int) =~= w);
    assert(s3.skip(w.len() as int + 1) =~= b);
    assert(split_commas(b, 1) == seq![b]);
    assert(split_commas(s3, 2) =~= seq![w, b]);
    assert(split_commas(s2, 3) =~= seq![y, w, b]);
    assert(split_commas(s1, 4) =~= seq![x, y, w, b]);
}

/// Reading `x,y,w,b` with comma-free `x`, `y`, `w`: it never panics,
/// whatever the buffer `b` holds; the widget is `w` and the buffer is all of
/// `b`, commas and spaces included; the numbers are `x` and `y`, and the
/// error names the first of them that does not parse.
pub proof fn law_from_raw_fields(x: Seq<char>, y: Seq<char>, w: Seq<char>, b: Seq<char>)
    requires
        !has_comma(x),
        !has_comma(y),
        !has_comma(w),
    ensures
        ({
            let s = x + seq![','] + y + seq![','] + w + seq![','] + b;
            &&& args_ok(s)
            &&& (spec_parse_usize(x) is Ok && spec_parse_usize(y) is Ok) ==> (spec_from_raw(s) matches Ok(
                a,
            ) && a.buf == b && a.widget == w && Ok::<usize, IntErrorKind>(a.bracket_color_size)
                == spec_parse_usize(x) && Ok::<usize, IntErrorKind>(a.cursor) == spec_parse_usize(y))
            &&& spec_parse_usize(x) matches Err(e) ==> spec_from_raw(s) == Err::<ArgsView, ParseArgsError>(
                ParseArgsError::BracketColorSize(e),
            )
            &&& spec_parse_usize(x) is Ok ==> (spec_parse_usize(y) matches Err(e) ==> spec_from_raw(s)
                == Err::<ArgsView, ParseArgsError>(ParseArgsError::Cursor(e)))
        }),
{
    law_fields_round_trip(x, y, w, b);
    let s = x + seq![','] + y + seq![','] + w + seq![','] + b;
    let p = split_commas(s, 4);
    assert(p[0] == x && p[1] == y && p[2] == w && p[3] == b);
}

} // verus!
