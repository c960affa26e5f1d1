use vstd::prelude::*;

use crate::styles::{pairs_view, read_styles, styles_of, styles_ok, StyleSet, StyleView};
use crate::text::chars_of;

verus! {

pub open spec fn is_open(c: char) -> bool {
    c == '(' || c == '[' || c == '{'
}

pub open spec fn is_close(c: char) -> bool {
    c == ')' || c == ']' || c == '}'
}

pub open spec fn is_bracket(c: char) -> bool {
    is_open(c) || is_close(c)
}

/// `first` opens what `second` closes.
pub open spec fn spec_brackets_match(first: char, second: char) -> bool {
    (first == '(' && second == ')') || (first == '[' && second == ']') || (first == '{' && second == '}')
}

/// Whether `first` is an opening bracket that `second` closes.
fn brackets_match(first: char, second: char) -> (res: bool)
    ensures
        res == spec_brackets_match(first, second),
{
    match first {
        '(' => second == ')',
        '[' => second == ']',
        '{' => second == '}',
        _ => false,
    }
}

/// The state of the left-to-right scan of a buffer after a prefix of it.
pub struct Scan {
    /// How many brackets are open (the nesting level).
    pub depth: nat,
    /// How many closing brackets came with nothing open: as many later
    /// opening brackets are taken to close that gap and open nothing.
    pub debt: nat,
    /// For each open bracket, outermost first, its index in `entries`.
    pub open: Seq<int>,
    /// Each bracket seen, in order: its position and its level.
    pub entries: Seq<(int, nat)>,
    /// The matched brackets, each mapped to its partner.
    pub partner: Map<int, int>,
}

pub open spec fn scan_start() -> Scan {
    Scan { depth: 0, debt: 0, open: Seq::empty(), entries: Seq::empty(), partner: Map::empty() }
}

/// What the character at position `i` does to the scan. An opening bracket
/// gets the next level (or only pays off debt); a closing bracket gets the
/// level it closes and closes the innermost open bracket, whatever its kind;
/// the two become partners when their kinds agree.
pub open spec fn scan_step(chars: Seq<char>, s: Scan, i: int) -> Scan {
    let c = chars[i];
    if is_open(c) {
        if s.debt == 0 {
            Scan {
                depth: s.depth + 1,
                open: s.open.push(s.entries.len() as int),
                entries: s.entries.push((i, s.depth + 1)),
                ..s
            }
        } else {
            Scan { debt: (s.debt - 1) as nat, entries: s.entries.push((i, s.depth)), ..s }
        }
    } else if is_close(c) {
        if s.depth == 0 {
            Scan { debt: s.debt + 1, entries: s.entries.push((i, 0nat)), ..s }
        } else {
            let j = s.entries[s.open.last()].0;
            Scan {
                depth: (s.depth - 1) as nat,
                open: s.open.drop_last(),
                entries: s.entries.push((i, s.depth)),
                partner: if spec_brackets_match(chars[j], c) {
                    s.partner.insert(j, i).insert(i, j)
                } else {
                    s.partner
                },
                ..s
            }
        }
    } else {
        s
    }
}

/// The scan after the first `n` characters.
pub open spec fn scan(chars: Seq<char>, n: nat) -> Scan
    decreases n,
{
    if n == 0 {
        scan_start()
    } else {
        scan_step(chars, scan(chars, (n - 1) as nat), n - 1)
    }
}

/// The positions of the brackets among the first `n` characters.
pub open spec fn bracket_positions(chars: Seq<char>, n: nat) -> Seq<int>
    decreases n,
{
    if n == 0 {
        Seq::empty()
    } else {
        let p = bracket_positions(chars, (n - 1) as nat);
        if is_bracket(chars[n - 1]) {
            p.push(n - 1)
        } else {
            p
        }
    }
}

pub open spec fn entry_positions(entries: Seq<(int, nat)>) -> Seq<int> {
    entries.map_values(|e: (int, nat)| e.0)
}

/// The counters and the stack of open brackets.
pub open spec fn scan_wf_open(chars: Seq<char>, n: int, s: Scan) -> bool {
    &&& s.open.len() == s.depth
    &&& s.debt > 0 ==> s.depth == 0
    &&& s.depth + s.debt <= n
    &&& s.entries.len() <= n
    &&& forall|k: int|
        0 <= k < s.open.len() ==> {
            &&& 0 <= #[trigger] s.open[k] < s.entries.len()
            &&& s.entries[s.open[k]].1 == k + 1
            &&& is_open(chars[s.entries[s.open[k]].0])
            &&& !s.partner.contains_key(s.entries[s.open[k]].0)
        }
    &&& forall|k1: int, k2: int| 0 <= k1 < k2 < s.open.len() ==> s.open[k1] < s.open[k2]
}

/// The entries: the bracket positions, in increasing order.
pub open spec fn scan_wf_entries(chars: Seq<char>, n: int, s: Scan) -> bool {
    &&& entry_positions(s.entries) == bracket_positions(chars, n as nat)
    &&& forall|m: int|
        0 <= m < s.entries.len() ==> 0 <= #[trigger] s.entries[m].0 < n && is_bracket(
            chars[s.entries[m].0],
        )
    &&& forall|m1: int, m2: int|
        0 <= m1 < m2 < s.entries.len() ==> #[trigger] s.entries[m1].0 < #[trigger] s.entries[m2].0
}

/// The partners: symmetric, an opening bracket before the closing bracket of
/// its kind.
pub open spec fn scan_wf_partner(chars: Seq<char>, n: int, s: Scan) -> bool {
    forall|a: int|
        #[trigger] s.partner.contains_key(a) ==> {
            let b = s.partner[a];
            &&& 0 <= a < n
            &&& 0 <= b < n
            &&& a != b
            &&& s.partner.contains_key(b)
            &&& s.partner[b] == a
            &&& a < b ==> is_open(chars[a]) && is_close(chars[b]) && spec_brackets_match(
                chars[a],
                chars[b],
            )
        }
}

/// Levels: a matched bracket is at a positive level, the same as its
/// partner's.
pub open spec fn scan_wf_levels(s: Scan) -> bool {
    &&& forall|m: int|
        0 <= m < s.entries.len() && #[trigger] s.partner.contains_key(s.entries[m].0)
            ==> s.entries[m].1 >= 1
    &&& forall|m1: int, m2: int|
        0 <= m1 < s.entries.len() && 0 <= m2 < s.entries.len() && s.partner.contains_key(
            s.entries[m1].0,
        ) && s.partner[s.entries[m1].0] == s.entries[m2].0 ==> #[trigger] s.entries[m1].1
            == #[trigger] s.entries[m2].1
}

/// Nesting: no two pairs cross, and no open bracket lies inside a pair.
pub open spec fn scan_wf_nesting(s: Scan) -> bool {
    &&& forall|a: int, b: int|
        #[trigger] s.partner.contains_key(a) && #[trigger] s.partner.contains_key(b) && a
            < s.partner[a] && b < s.partner[b] ==> !(a < b < s.partner[a] < s.partner[b])
    &&& forall|k: int, a: int|
        0 <= k < s.open.len() && #[trigger] s.partner.contains_key(a) && a < s.partner[a]
            ==> !(a < s.entries[#[trigger] s.open[k]].0 < s.partner[a])
}

pub open spec fn scan_wf(chars: Seq<char>, n: int, s: Scan) -> bool {
    &&& scan_wf_open(chars, n, s)
    &&& scan_wf_entries(chars, n, s)
    &&& scan_wf_partner(chars, n, s)
    &&& scan_wf_levels(s)
    &&& scan_wf_nesting(s)
}

proof fn lemma_step_entries(chars: Seq<char>, i: int, s: Scan)
    requires
        0 <= i < chars.len(),
        scan_wf(chars, i, s),
    ensures
        scan_wf_entries(chars, i + 1, scan_step(chars, s, i)),
{
    let t = scan_step(chars, s, i);
    assert(bracket_positions(chars, (i + 1) as nat) == (if is_bracket(chars[i]) {
        bracket_positions(chars, i as nat).push(i)
    } else {
        bracket_positions(chars, i as nat)
    }));
    if is_bracket(chars[i]) {
        assert(t.entries == s.entries.push((i, t.entries.last().1)));
        assert(entry_positions(t.entries) =~= entry_positions(s.entries).push(i));
    }
}

proof fn lemma_step_open(chars: Seq<char>, i: int, s: Scan)
    requires
        0 <= i < chars.len(),
        scan_wf(chars, i, s),
    ensures
        scan_wf_open(chars, i + 1, scan_step(chars, s, i)),
{
    let t = scan_step(chars, s, i);
    let c = chars[i];
    if is_open(c) && s.debt == 0 {
        assert forall|k: int| 0 <= k < t.open.len() implies {
            &&& 0 <= #[trigger] t.open[k] < t.entries.len()
            &&& t.entries[t.open[k]].1 == k + 1
            &&& is_open(chars[t.entries[t.open[k]].0])
            &&& !t.partner.contains_key(t.entries[t.open[k]].0)
        } by {
            if k < s.open.len() {
                assert(t.open[k] == s.open[k]);
            } else {
                assert(t.open[k] == s.entries.len());
                assert(t.entries[t.open[k]] == (i, s.depth + 1));
            }
        }
    } else if is_close(c) && s.depth > 0 {
        let m = s.open.last();
        let j = s.entries[m].0;
        assert forall|k: int| 0 <= k < t.open.len() implies {
            &&& 0 <= #[trigger] t.open[k] < t.entries.len()
            &&& t.entries[t.open[k]].1 == k + 1
            &&& is_open(chars[t.entries[t.open[k]].0])
            &&& !t.partner.contains_key(t.entries[t.open[k]].0)
        } by {
            assert(t.open[k] == s.open[k]);
            assert(s.open[k] < m);
            assert(s.entries[s.open[k]].0 < j);
            assert(t.entries[t.open[k]] == s.entries[s.open[k]]);
        }
    } else if is_open(c) || is_close(c) {
        assert forall|k: int| 0 <= k < t.open.len() implies {
            &&& 0 <= #[trigger] t.open[k] < t.entries.len()
            &&& t.entries[t.open[k]].1 == k + 1
            &&& is_open(chars[t.entries[t.open[k]].0])
            &&& !t.partner.contains_key(t.entries[t.open[k]].0)
        } by {
            assert(t.open[k] == s.open[k]);
            assert(t.entries[t.open[k]] == s.entries[s.open[k]]);
        }
    }
}

proof fn lemma_step_partner(chars: Seq<char>, i: int, s: Scan)
    requires
        0 <= i < chars.len(),
        scan_wf(chars, i, s),
    ensures
        scan_wf_partner(chars, i + 1, scan_step(chars, s, i)),
        scan_wf_nesting(scan_step(chars, s, i)),
{
    let t = scan_step(chars, s, i);
    let c = chars[i];
    if is_close(c) && s.depth > 0 {
        let m = s.open.last();
        let j = s.entries[m].0;
        assert(0 <= m < s.entries.len());
        assert(is_open(chars[j]));
        assert(!s.partner.contains_key(j));
        assert(!s.partner.contains_key(i));
        assert(j < i);
        if spec_brackets_match(chars[j], c) {
            assert forall|a: int| #[trigger] t.partner.contains_key(a) implies {
                let b = t.partner[a];
                &&& 0 <= a < i + 1
                &&& 0 <= b < i + 1
                &&& a != b
                &&& t.partner.contains_key(b)
                &&& t.partner[b] == a
                &&& a < b ==> is_open(chars[a]) && is_close(chars[b]) && spec_brackets_match(
                    chars[a],
                    chars[b],
                )
            } by {
                if a != i && a != j {
                    assert(s.partner.contains_key(a));
                }
            }
            assert forall|a: int, b: int|
                #[trigger] t.partner.contains_key(a) && #[trigger] t.partner.contains_key(b) && a
                    < t.partner[a] && b < t.partner[b] implies !(a < b < t.partner[a]
                < t.partner[b]) by {
                if a == j {
                    if b != j {
                        assert(s.partner.contains_key(b));
                    }
                } else if b == j {
                    assert(s.partner.contains_key(a));
                    assert(!(a < s.entries[s.open[s.open.len() - 1]].0 < s.partner[a]));
                } else {
                    assert(s.partner.contains_key(a));
                    assert(s.partner.contains_key(b));
                }
            }
            assert forall|k: int, a: int|
                0 <= k < t.open.len() && #[trigger] t.partner.contains_key(a) && a
                    < t.partner[a] implies !(a < t.entries[#[trigger] t.open[k]].0
                < t.partner[a]) by {
                assert(t.open[k] == s.open[k]);
                assert(s.open[k] < m);
                assert(t.entries[t.open[k]] == s.entries[s.open[k]]);
                if a != j {
                    assert(s.partner.contains_key(a));
                }
            }
        } else {
            assert forall|k: int, a: int|
                0 <= k < t.open.len() && #[trigger] t.partner.contains_key(a) && a
                    < t.partner[a] implies !(a < t.entries[#[trigger] t.open[k]].0
                < t.partner[a]) by {
                assert(t.open[k] == s.open[k]);
                assert(t.entries[t.open[k]] == s.entries[s.open[k]]);
            }
        }
    } else if is_open(c) && s.debt == 0 {
        assert forall|k: int, a: int|
            0 <= k < t.open.len() && #[trigger] t.partner.contains_key(a) && a
                < t.partner[a] implies !(a < t.entries[#[trigger] t.open[k]].0
            < t.partner[a]) by {
            if k < s.open.len() {
                assert(t.open[k] == s.open[k]);
                assert(t.entries[t.open[k]] == s.entries[s.open[k]]);
            } else {
                assert(t.entries[t.open[k]].0 == i);
            }
        }
    } else if is_bracket(c) {
        assert forall|k: int, a: int|
            0 <= k < t.open.len() && #[trigger] t.partner.contains_key(a) && a
                < t.partner[a] implies !(a < t.entries[#[trigger] t.open[k]].0
            < t.partner[a]) by {
            assert(t.open[k] == s.open[k]);
            assert(t.entries[t.open[k]] == s.entries[s.open[k]]);
        }
    }
}

proof fn lemma_step_levels(chars: Seq<char>, i: int, s: Scan)
    requires
        0 <= i < chars.len(),
        scan_wf(chars, i, s),
    ensures
        scan_wf_levels(scan_step(chars, s, i)),
{
    let t = scan_step(chars, s, i);
    let c = chars[i];
    let len = s.entries.len() as int;
    if is_bracket(c) {
        assert(t.entries.len() == len + 1);
        assert(t.entries[len].0 == i);
        assert forall|m: int| 0 <= m < len implies #[trigger] t.entries[m] == s.entries[m] by {}
    }
    if is_close(c) && s.depth > 0 && spec_brackets_match(chars[s.entries[s.open.last()].0], c) {
        let mo = s.open.last();
        let j = s.entries[mo].0;
        assert(s.entries[mo].1 == s.depth);
        assert(t.entries[len] == (i, s.depth));
        assert forall|m: int|
            0 <= m < t.entries.len() && #[trigger] t.partner.contains_key(t.entries[m].0)
                implies t.entries[m].1 >= 1 by {
            if m < len {
                if t.entries[m].0 != j {
                    assert(s.partner.contains_key(s.entries[m].0));
                } else {
                    assert(m == mo);
                }
            }
        }
        assert forall|m1: int, m2: int|
            0 <= m1 < t.entries.len() && 0 <= m2 < t.entries.len() && t.partner.contains_key(
                t.entries[m1].0,
            ) && t.partner[t.entries[m1].0] == t.entries[m2].0 implies #[trigger] t.entries[m1].1
            == #[trigger] t.entries[m2].1 by {
            let a = t.entries[m1].0;
            let b = t.entries[m2].0;
            if a == j {
                assert(m1 == mo);
                assert(b == i);
                assert(m2 == len);
            } else if a == i {
                assert(m1 == len);
                assert(b == j);
                assert(m2 == mo);
            } else {
                assert(m1 < len);
                assert(s.partner.contains_key(a));
                assert(s.partner[a] == b);
                assert(b < i);
                assert(m2 < len);
                assert(s.entries[m1].1 == s.entries[m2].1);
            }
        }
    } else if is_bracket(c) {
        assert(!s.partner.contains_key(i));
        assert forall|m: int|
            0 <= m < t.entries.len() && #[trigger] t.partner.contains_key(t.entries[m].0)
                implies t.entries[m].1 >= 1 by {
            if m < len {
                assert(s.partner.contains_key(s.entries[m].0));
            }
        }
        assert forall|m1: int, m2: int|
            0 <= m1 < t.entries.len() && 0 <= m2 < t.entries.len() && t.partner.contains_key(
                t.entries[m1].0,
            ) && t.partner[t.entries[m1].0] == t.entries[m2].0 implies #[trigger] t.entries[m1].1
            == #[trigger] t.entries[m2].1 by {
            assert(m1 < len);
            assert(s.partner.contains_key(s.entries[m1].0));
            assert(m2 < len);
        }
    }
}

/// Every state of the scan is well formed.
proof fn lemma_scan_wf(chars: Seq<char>, n: nat)
    requires
        n <= chars.len(),
    ensures
        scan_wf(chars, n as int, scan(chars, n)),
    decreases n,
{
    if n == 0 {
        assert(entry_positions(scan_start().entries) =~= Seq::<int>::empty());
    } else {
        lemma_scan_wf(chars, (n - 1) as nat);
        let s = scan(chars, (n - 1) as nat);
        let i = n - 1;
        lemma_step_open(chars, i, s);
        lemma_step_entries(chars, i, s);
        lemma_step_partner(chars, i, s);
        lemma_step_levels(chars, i, s);
    }
}

/// The entries as kept at run time, as positions and levels.
pub open spec fn entries_view(v: Seq<(usize, usize)>) -> Seq<(int, nat)> {
    v.map_values(|e: (usize, usize)| (e.0 as int, e.1 as nat))
}

/// The partner of position `p`, if it has one.
pub open spec fn partner_at(partner: Map<int, int>, p: int) -> Option<usize> {
    if partner.contains_key(p) {
        Some(partner[p] as usize)
    } else {
        None
    }
}

/// Scans the characters once, left to right: each bracket with its level,
/// and each matched bracket with its partner.
fn scan_brackets(chars: &Vec<char>) -> (res: (Vec<(usize, usize)>, Vec<Option<usize>>))
    ensures
        entries_view(res.0@) == scan(chars@, chars@.len()).entries,
        res.1@.len() == chars@.len(),
        forall|p: int|
            0 <= p < chars@.len() ==> #[trigger] res.1@[p] == partner_at(
                scan(chars@, chars@.len()).partner,
                p,
            ),
{
    let n: usize = chars.len();
    let mut level: usize = 0;
    // Closing brackets met at level 0 are counted here rather than as
    // negative levels: no bracket can be matched below level 1, so nothing
    // needs to be recorded for those levels.
    let mut level_neg: usize = 0;
    let mut level_pos: Vec<(usize, usize)> = Vec::new();
    let mut last_of_level: Vec<usize> = Vec::new();
    let mut matches: Vec<Option<usize>> = Vec::new();
    let mut k: usize = 0;
    while k < n
        invariant
            k <= n,
            matches@.len() == k,
            forall|p: int| 0 <= p < k ==> #[trigger] matches@[p] == None::<usize>,
        decreases n - k,
    {
        matches.push(None);
        k = k + 1;
    }
    assert(entries_view(level_pos@) =~= scan(chars@, 0).entries);
    let mut i: usize = 0;
    while i < n
        invariant
            i <= n,
            n == chars@.len(),
            level == scan(chars@, i as nat).depth,
            level_neg == scan(chars@, i as nat).debt,
            last_of_level@.len() >= level,
            forall|q: int|
                0 <= q < level ==> #[trigger] last_of_level@[q] == scan(chars@, i as nat).entries[scan(
                    chars@,
                    i as nat,
                ).open[q]].0,
            entries_view(level_pos@) == scan(chars@, i as nat).entries,
            matches@.len() == n,
            forall|p: int|
                0 <= p < n ==> #[trigger] matches@[p] == partner_at(
                    scan(chars@, i as nat).partner,
                    p,
                ),
        decreases n - i,
    {
        let ghost s = scan(chars@, i as nat);
        let ghost t = scan(chars@, (i + 1) as nat);
        proof {
            lemma_scan_wf(chars@, i as nat);
        }
        assert(t == scan_step(chars@, s, i as int));
        let chr = chars[i];
        if chr == '(' || chr == '[' || chr == '{' {
            if level_neg == 0 {
                level = level + 1;
                if level - 1 < last_of_level.len() {
                    last_of_level.set(level - 1, i);
                } else {
                    last_of_level.push(i);
                }
            } else {
                level_neg = level_neg - 1;
            }
            level_pos.push((i, level));
            assert(entries_view(level_pos@) =~= t.entries);
            assert forall|q: int| 0 <= q < level implies #[trigger] last_of_level@[q]
                == t.entries[t.open[q]].0 by {
                if q < s.depth {
                    assert(t.open[q] == s.open[q]);
                }
            }
        } else if chr == ')' || chr == ']' || chr == '}' {
            level_pos.push((i, level));
            assert(entries_view(level_pos@) =~= t.entries);
            if level == 0 {
                level_neg = level_neg + 1;
            } else {
                let matching_pos: usize = last_of_level[level - 1];
                level = level - 1;
                assert(t.open =~= s.open.drop_last());
                if brackets_match(chars[matching_pos], chr) {
                    matches.set(i, Some(matching_pos));
                    matches.set(matching_pos, Some(i));
                }
                assert forall|p: int| 0 <= p < n implies #[trigger] matches@[p] == partner_at(
                    t.partner,
                    p,
                ) by {}
            }
        }
        i = i + 1;
    }
    (level_pos, matches)
}

/// A highlight of the characters `start..end` in a style.
pub struct Highlight {
    pub start: usize,
    pub end: usize,
    pub style: String,
}

pub struct HighlightView {
    pub start: int,
    pub end: int,
    pub style: Seq<char>,
}

impl View for Highlight {
    type V = HighlightView;

    open spec fn view(&self) -> HighlightView {
        HighlightView { start: self.start as int, end: self.end as int, style: self.style@ }
    }
}

pub open spec fn highlights_view(v: Seq<Highlight>) -> Seq<HighlightView> {
    v.map_values(|h: Highlight| h@)
}

/// The style of a matched bracket at `level`: the levels cycle through the
/// styles `1..=k`; a style that was not set is empty.
pub open spec fn level_style(st: StyleView, k: nat, level: nat) -> Seq<char> {
    let idx = (level - 1) % (k as int) + 1;
    if idx < st.levels.len() {
        st.levels[idx]
    } else {
        Seq::empty()
    }
}

/// The highlight of one bracket: its level's style when it is matched (none
/// when there are no level styles, `k == 0`), the error style when not.
pub open spec fn entry_highlight(st: StyleView, k: nat, sc: Scan, e: (int, nat)) -> Seq<
    HighlightView,
> {
    if sc.partner.contains_key(e.0) {
        if k != 0 {
            seq![HighlightView { start: e.0, end: e.0 + 1, style: level_style(st, k, e.1) }]
        } else {
            Seq::empty()
        }
    } else {
        seq![HighlightView { start: e.0, end: e.0 + 1, style: st.error }]
    }
}

/// The highlights of the brackets, in order.
pub open spec fn entry_highlights(st: StyleView, k: nat, sc: Scan, entries: Seq<(int, nat)>) -> Seq<
    HighlightView,
>
    decreases entries.len(),
{
    if entries.len() == 0 {
        Seq::empty()
    } else {
        entry_highlights(st, k, sc, entries.drop_last()) + entry_highlight(st, k, sc, entries.last())
    }
}

pub open spec fn line_finish_widget() -> Seq<char> {
    "zle-line-finish"@
}

/// Unless the line is being finished, the partner of the bracket under the
/// cursor gets the cursor style.
pub open spec fn cursor_highlight(st: StyleView, sc: Scan, cursor: int, widget: Seq<char>) -> Seq<
    HighlightView,
> {
    if widget != line_finish_widget() && (exists|m: int|
        0 <= m < sc.entries.len() && #[trigger] sc.entries[m].0 == cursor) && sc.partner.contains_key(
        cursor,
    ) {
        let p = sc.partner[cursor];
        seq![HighlightView { start: p, end: p + 1, style: st.cursor }]
    } else {
        Seq::empty()
    }
}

/// All the highlights of a buffer.
pub open spec fn paint(k: nat, chars: Seq<char>, cursor: int, widget: Seq<char>, st: StyleView) -> Seq<
    HighlightView,
> {
    let sc = scan(chars, chars.len());
    entry_highlights(st, k, sc, sc.entries) + cursor_highlight(st, sc, cursor, widget)
}

/// Computes the highlights of the brackets of `buf`: a matched bracket gets
/// the style of its nesting level (cycling through `bracket_color_size`
/// level styles; none when that is 0), an unmatched one the error style, and
/// the partner of the bracket at `cursor` (a character index) the cursor
/// style, unless `widget` is `zle-line-finish`. The styles are read from the
/// `(key, value)` entries in `styles`.
pub fn brackets_paint(
    bracket_color_size: usize,
    buf: &str,
    cursor: usize,
    widget: &str,
    styles: &Vec<(String, String)>,
) -> (highlights: Vec<Highlight>)
    requires
        styles_ok(pairs_view(styles@)),
    ensures
        highlights_view(highlights@) == paint(
            bracket_color_size as nat,
            buf@,
            cursor as int,
            widget@,
            styles_of(pairs_view(styles@)),
        ),
{
    let st = read_styles(styles);
    let chars = chars_of(buf);
    highlight_scan(bracket_color_size, &chars, cursor, widget, &st)
}

/// The highlights of a buffer given as characters, with the styles read.
fn highlight_scan(
    bracket_color_size: usize,
    chars: &Vec<char>,
    cursor: usize,
    widget: &str,
    st: &StyleSet,
) -> (highlights: Vec<Highlight>)
    ensures
        highlights_view(highlights@) == paint(
            bracket_color_size as nat,
            chars@,
            cursor as int,
            widget@,
            st@,
        ),
{
    let ghost sc = scan(chars@, chars@.len());
    let ghost k = bracket_color_size as nat;
    proof {
        lemma_scan_wf(chars@, chars@.len());
    }
    let (level_pos, matches) = scan_brackets(chars);
    let n: usize = chars.len();
    let mut highlights: Vec<Highlight> = Vec::new();
    let mut cursor_level = false;
    let count: usize = level_pos.len();
    assert(sc.entries.take(0) =~= Seq::<(int, nat)>::empty());
    let mut idx: usize = 0;
    while idx < count
        invariant
            idx <= count,
            count == level_pos@.len(),
            n == chars@.len(),
            sc == scan(chars@, chars@.len()),
            k == bracket_color_size as nat,
            scan_wf(chars@, n as int, sc),
            entries_view(level_pos@) == sc.entries,
            matches@.len() == n,
            forall|p: int| 0 <= p < n ==> #[trigger] matches@[p] == partner_at(sc.partner, p),
            highlights_view(highlights@) == entry_highlights(st@, k, sc, sc.entries.take(idx as int)),
            cursor_level == (exists|m: int| 0 <= m < idx && #[trigger] sc.entries[m].0 == cursor),
        decreases count - idx,
    {
        let (pos, level): (usize, usize) = level_pos[idx];
        assert(sc.entries[idx as int] == (pos as int, level as nat));
        if cursor == pos {
            cursor_level = true;
        }
        assert(sc.entries.take(idx + 1).drop_last() =~= sc.entries.take(idx as int));
        let ghost before = highlights_view(highlights@);
        if matches[pos].is_some() {
            if bracket_color_size != 0 {
                assert(level >= 1);
                let sidx: usize = (level - 1) % bracket_color_size + 1;
                let style = if sidx < st.bracket_level.len() {
                    st.bracket_level[sidx].clone()
                } else {
                    String::new()
                };
                highlights.push(Highlight { start: pos, end: pos + 1, style });
            }
        } else {
            highlights.push(Highlight { start: pos, end: pos + 1, style: st.bracket_error.clone() });
        }
        assert(highlights_view(highlights@) =~= before + entry_highlight(st@, k, sc, sc.entries[idx as int]));
        idx = idx + 1;
    }
    assert(sc.entries.take(count as int) =~= sc.entries);
    let ghost before = highlights_view(highlights@);
    let finish: String = "zle-line-finish".to_owned();
    if widget.to_owned() != finish {
        if cursor_level {
            if let Some(real_pos) = matches[cursor] {
                highlights.push(Highlight {
                    start: real_pos,
                    end: real_pos + 1,
                    style: st.cursor_matching_bracket.clone(),
                });
            }
        }
    }
    assert(highlights_view(highlights@) =~= before + cursor_highlight(st@, sc, cursor as int, widget@));
    highlights
}

/// Matching is symmetric: a matched bracket's partner is matched back to it,
/// and of the two the earlier is an opening bracket and the later the
/// closing bracket of the same kind.
pub proof fn law_partners(chars: Seq<char>, a: int)
    requires
        scan(chars, chars.len()).partner.contains_key(a),
    ensures
        ({
            let sc = scan(chars, chars.len());
            let b = sc.partner[a];
            &&& 0 <= a < chars.len()
            &&& 0 <= b < chars.len()
            &&& a != b
            &&& sc.partner.contains_key(b)
            &&& sc.partner[b] == a
            &&& a < b ==> spec_brackets_match(chars[a], chars[b])
        }),
{
    lemma_scan_wf(chars, chars.len());
}

/// A bracket is matched only at a positive level, and at the same level as
/// its partner.
pub proof fn law_match_levels(chars: Seq<char>, m1: int, m2: int)
    requires
        ({
            let sc = scan(chars, chars.len());
            &&& 0 <= m1 < sc.entries.len()
            &&& 0 <= m2 < sc.entries.len()
            &&& sc.partner.contains_key(sc.entries[m1].0)
            &&& sc.partner[sc.entries[m1].0] == sc.entries[m2].0
        }),
    ensures
        ({
            let sc = scan(chars, chars.len());
            &&& sc.entries[m1].1 >= 1
            &&& sc.entries[m1].1 == sc.entries[m2].1
        }),
{
    lemma_scan_wf(chars, chars.len());
    let sc = scan(chars, chars.len());
    assert(sc.entries[m1].1 == sc.entries[m2].1);
}

/// Matched pairs nest: no two of them cross.
pub proof fn law_no_crossing(chars: Seq<char>, a: int, b: int)
    requires
        ({
            let sc = scan(chars, chars.len());
            &&& sc.partner.contains_key(a)
            &&& sc.partner.contains_key(b)
            &&& a < sc.partner[a]
            &&& b < sc.partner[b]
        }),
    ensures
        ({
            let p = scan(chars, chars.len()).partner;
            !(a < b < p[a] < p[b])
        }),
{
    lemma_scan_wf(chars, chars.len());
}

/// The scan records every bracket of the buffer once, in order, and nothing
/// else.
pub proof fn law_entries_are_brackets(chars: Seq<char>)
    ensures
        entry_positions(scan(chars, chars.len()).entries) == bracket_positions(chars, chars.len()),
{
    lemma_scan_wf(chars, chars.len());
}

proof fn lemma_entry_highlights_shape(st: StyleView, k: nat, sc: Scan, entries: Seq<(int, nat)>)
    ensures
        forall|h: int|
            0 <= h < entry_highlights(st, k, sc, entries).len() ==> exists|m: int|
                0 <= m < entries.len() && #[trigger] entry_highlights(st, k, sc, entries)[h].start
                    == #[trigger] entries[m].0 && entry_highlights(st, k, sc, entries)[h].end
                    == entries[m].0 + 1,
        k != 0 ==> entry_highlights(st, k, sc, entries).len() == entries.len(),
        k == 0 ==> forall|h: int|
            0 <= h < entry_highlights(st, k, sc, entries).len() ==> (#[trigger] entry_highlights(
                st,
                k,
                sc,
                entries,
            )[h]).style == st.error && !sc.partner.contains_key(
                entry_highlights(st, k, sc, entries)[h].start,
            ),
        k != 0 ==> forall|m: int|
            0 <= m < entries.len() ==> #[trigger] entry_highlights(st, k, sc, entries)[m]
                == entry_highlight(st, k, sc, entries[m])[0],
        forall|m: int|
            0 <= m < entries.len() && !sc.partner.contains_key(#[trigger] entries[m].0) ==> exists|h: int|
                0 <= h < entry_highlights(st, k, sc, entries).len() && #[trigger] entry_highlights(
                    st,
                    k,
                    sc,
                    entries,
                )[h] == (HighlightView { start: entries[m].0, end: entries[m].0 + 1, style: st.error }),
    decreases entries.len(),
{
    if entries.len() > 0 {
        let pre = entries.drop_last();
        lemma_entry_highlights_shape(st, k, sc, pre);
        let e = entry_highlights(st, k, sc, entries);
        let ep = entry_highlights(st, k, sc, pre);
        assert forall|h: int| 0 <= h < e.len() implies exists|m: int|
            0 <= m < entries.len() && #[trigger] e[h].start == #[trigger] entries[m].0 && e[h].end
                == entries[m].0 + 1 by {
            if h < ep.len() {
                assert(e[h] == ep[h]);
                let m = choose|m: int|
                    0 <= m < pre.len() && #[trigger] ep[h].start == #[trigger] pre[m].0 && ep[h].end
                        == pre[m].0 + 1;
                assert(entries[m] == pre[m]);
            } else {
                assert(e[h].start == entries[entries.len() - 1].0);
            }
        }
        assert forall|m: int|
            0 <= m < entries.len() && !sc.partner.contains_key(#[trigger] entries[m].0) implies exists|h: int|
                0 <= h < e.len() && #[trigger] e[h] == (HighlightView {
                    start: entries[m].0,
                    end: entries[m].0 + 1,
                    style: st.error,
                }) by {
            if m < pre.len() {
                assert(entries[m] == pre[m]);
                assert(!sc.partner.contains_key(pre[m].0));
                let h = choose|h: int|
                    0 <= h < ep.len() && #[trigger] ep[h] == (HighlightView {
                        start: pre[m].0,
                        end: pre[m].0 + 1,
                        style: st.error,
                    });
                assert(e[h] == ep[h]);
            } else {
                assert(e[e.len() - 1] == (HighlightView {
                    start: entries[m].0,
                    end: entries[m].0 + 1,
                    style: st.error,
                }));
            }
        }
        if k == 0 {
            assert forall|h: int| 0 <= h < e.len() implies (#[trigger] e[h]).style == st.error
                && !sc.partner.contains_key(e[h].start) by {
                if h < ep.len() {
                    assert(e[h] == ep[h]);
                }
            }
        }
        if k != 0 {
            assert forall|m: int| 0 <= m < entries.len() implies #[trigger] e[m]
                == entry_highlight(st, k, sc, entries[m])[0] by {
                if m < pre.len() {
                    assert(e[m] == ep[m]);
                    assert(entries[m] == pre[m]);
                }
            }
        }
    }
}

/// Every highlight covers exactly one character, and that character is a
/// bracket of the buffer.
pub proof fn law_highlights_cover_brackets(
    k: nat,
    chars: Seq<char>,
    cursor: int,
    widget: Seq<char>,
    st: StyleView,
    h: int,
)
    requires
        0 <= h < paint(k, chars, cursor, widget, st).len(),
    ensures
        ({
            let x = paint(k, chars, cursor, widget, st)[h];
            &&& x.end == x.start + 1
            &&& 0 <= x.start < chars.len()
            &&& is_bracket(chars[x.start])
        }),
{
    let sc = scan(chars, chars.len());
    lemma_scan_wf(chars, chars.len());
    lemma_entry_highlights_shape(st, k, sc, sc.entries);
    let e = entry_highlights(st, k, sc, sc.entries);
    if h < e.len() {
        assert(paint(k, chars, cursor, widget, st)[h] == e[h]);
        let m = choose|m: int|
            0 <= m < sc.entries.len() && #[trigger] e[h].start == #[trigger] sc.entries[m].0
                && e[h].end == sc.entries[m].0 + 1;
    } else {
        let p = sc.partner[cursor];
        assert(sc.partner.contains_key(p));
    }
}

/// With level styles (`k != 0`), the brackets are highlighted one each, in
/// order; matched partners get the same style, and an unmatched bracket gets
/// the error style.
pub proof fn law_one_highlight_per_bracket(
    k: nat,
    chars: Seq<char>,
    cursor: int,
    widget: Seq<char>,
    st: StyleView,
    m1: int,
    m2: int,
)
    requires
        k != 0,
        0 <= m1 < scan(chars, chars.len()).entries.len(),
        0 <= m2 < scan(chars, chars.len()).entries.len(),
    ensures
        ({
            let sc = scan(chars, chars.len());
            let hs = paint(k, chars, cursor, widget, st);
            &&& hs.len() >= sc.entries.len()
            &&& hs[m1].start == sc.entries[m1].0
            &&& !sc.partner.contains_key(sc.entries[m1].0) ==> hs[m1].style == st.error
            &&& sc.partner.contains_key(sc.entries[m1].0) && sc.partner[sc.entries[m1].0]
                == sc.entries[m2].0 ==> hs[m1].style == hs[m2].style
        }),
{
    let sc = scan(chars, chars.len());
    lemma_scan_wf(chars, chars.len());
    lemma_entry_highlights_shape(st, k, sc, sc.entries);
    let e = entry_highlights(st, k, sc, sc.entries);
    assert(paint(k, chars, cursor, widget, st)[m1] == e[m1]);
    assert(paint(k, chars, cursor, widget, st)[m2] == e[m2]);
    if sc.partner.contains_key(sc.entries[m1].0) && sc.partner[sc.entries[m1].0] == sc.entries[m2].0 {
        assert(sc.entries[m1].1 == sc.entries[m2].1);
        assert(sc.partner.contains_key(sc.entries[m2].0));
    }
}

/// Without level styles (`k == 0`) a matched bracket is not highlighted:
/// every highlight of a bracket is the error style on an unmatched bracket.
pub proof fn law_no_level_styles(chars: Seq<char>, cursor: int, widget: Seq<char>, st: StyleView, h: int)
    requires
        0 <= h < entry_highlights(st, 0, scan(chars, chars.len()), scan(chars, chars.len()).entries).len(),
    ensures
        ({
            let x = paint(0, chars, cursor, widget, st)[h];
            &&& x.style == st.error
            &&& !scan(chars, chars.len()).partner.contains_key(x.start)
        }),
{
    let sc = scan(chars, chars.len());
    lemma_entry_highlights_shape(st, 0, sc, sc.entries);
    assert(paint(0, chars, cursor, widget, st)[h] == entry_highlights(st, 0, sc, sc.entries)[h]);
}

proof fn lemma_bracket_positions_complete(chars: Seq<char>, n: nat, p: int)
    requires
        0 <= p < n <= chars.len(),
        is_bracket(chars[p]),
    ensures
        exists|j: int|
            0 <= j < bracket_positions(chars, n).len() && #[trigger] bracket_positions(chars, n)[j]
                == p,
    decreases n,
{
    let bp = bracket_positions(chars, n);
    if p == n - 1 {
        assert(bp[bp.len() - 1] == p);
    } else {
        lemma_bracket_positions_complete(chars, (n - 1) as nat, p);
        let prev = bracket_positions(chars, (n - 1) as nat);
        let j = choose|j: int| 0 <= j < prev.len() && #[trigger] prev[j] == p;
        assert(bp[j] == prev[j]);
    }
}

/// The partner of the bracket under the cursor is highlighted exactly when
/// the cursor is on a matched bracket and the widget is not
/// `zle-line-finish`; that highlight comes last, covers the partner and has
/// the cursor style. With level styles (`k != 0`) the other highlights are
/// one per bracket.
pub proof fn law_cursor_highlight(
    k: nat,
    st: StyleView,
    chars: Seq<char>,
    cursor: int,
    widget: Seq<char>,
)
    ensures
        ({
            let sc = scan(chars, chars.len());
            let hs = paint(k, chars, cursor, widget, st);
            let on = widget != "zle-line-finish"@ && sc.partner.contains_key(cursor);
            &&& cursor_highlight(st, sc, cursor, widget).len() > 0 <==> on
            &&& on ==> hs.len() > 0 && hs.last() == HighlightView {
                start: sc.partner[cursor],
                end: sc.partner[cursor] + 1,
                style: st.cursor,
            }
            &&& k != 0 ==> hs.len() == sc.entries.len() + (if on { 1int } else { 0int })
        }),
{
    let sc = scan(chars, chars.len());
    lemma_scan_wf(chars, chars.len());
    lemma_entry_highlights_shape(st, k, sc, sc.entries);
    if sc.partner.contains_key(cursor) {
        let b = sc.partner[cursor];
        assert(sc.partner.contains_key(b));
        assert(is_bracket(chars[cursor]));
        lemma_bracket_positions_complete(chars, chars.len(), cursor);
        let bp = bracket_positions(chars, chars.len());
        let j = choose|j: int| 0 <= j < bp.len() && #[trigger] bp[j] == cursor;
        assert(entry_positions(sc.entries)[j] == cursor);
        assert(sc.entries[j].0 == cursor);
    }
}

/// Every unmatched bracket is highlighted, in the error style, whatever `k`.
pub proof fn law_unmatched_get_error_style(
    k: nat,
    chars: Seq<char>,
    cursor: int,
    widget: Seq<char>,
    st: StyleView,
    p: int,
)
    requires
        0 <= p < chars.len(),
        is_bracket(chars[p]),
        !scan(chars, chars.len()).partner.contains_key(p),
    ensures
        exists|h: int|
            0 <= h < paint(k, chars, cursor, widget, st).len() && #[trigger] paint(
                k,
                chars,
                cursor,
                widget,
                st,
            )[h] == (HighlightView { start: p, end: p + 1, style: st.error }),
{
    let sc = scan(chars, chars.len());
    lemma_scan_wf(chars, chars.len());
    lemma_bracket_positions_complete(chars, chars.len(), p);
    let bp = bracket_positions(chars, chars.len());
    let j = choose|j: int| 0 <= j < bp.len() && #[trigger] bp[j] == p;
    assert(entry_positions(sc.entries)[j] == p);
    assert(sc.entries[j].0 == p);
    lemma_entry_highlights_shape(st, k, sc, sc.entries);
    let e = entry_highlights(st, k, sc, sc.entries);
    let h = choose|h: int|
        0 <= h < e.len() && #[trigger] e[h] == (HighlightView {
            start: sc.entries[j].0,
            end: sc.entries[j].0 + 1,
            style: st.error,
        });
    assert(paint(k, chars, cursor, widget, st)[h] == e[h]);
}

/// How one character changes the bracket count: +1 for an opening bracket,
/// -1 for a closing one, whatever its kind.
pub open spec fn bracket_delta(c: char) -> int {
    if is_open(c) {
        1
    } else if is_close(c) {
        -1
    } else {
        0
    }
}

/// Opening brackets minus closing brackets in `s`.
pub open spec fn net_depth(s: Seq<char>) -> int
    decreases s.len(),
{
    if s.len() == 0 {
        0
    } else {
        net_depth(s.drop_last()) + bracket_delta(s.last())
    }
}

proof fn lemma_net_depth_concat(x: Seq<char>, y: Seq<char>)
    ensures
        net_depth(x + y) == net_depth(x) + net_depth(y),
    decreases y.len(),
{
    if y.len() == 0 {
        assert(x + y =~= x);
    } else {
        assert((x + y).drop_last() =~= x + y.drop_last());
        lemma_net_depth_concat(x, y.drop_last());
    }
}

proof fn lemma_net_depth_split(chars: Seq<char>, a: int, b: int)
    requires
        0 <= a <= b <= chars.len(),
    ensures
        net_depth(chars.take(b)) == net_depth(chars.take(a)) + net_depth(chars.subrange(a, b)),
{
    assert(chars.take(b) =~= chars.take(a) + chars.subrange(a, b));
    lemma_net_depth_concat(chars.take(a), chars.subrange(a, b));
}

/// The depth is the bracket count when that is positive, and the debt is
/// its opposite when it is negative.
proof fn lemma_depth_is_count(chars: Seq<char>, n: nat)
    requires
        n <= chars.len(),
    ensures
        scan(chars, n).depth == (if net_depth(chars.take(n as int)) > 0 {
            net_depth(chars.take(n as int))
        } else {
            0
        }),
        scan(chars, n).debt == (if net_depth(chars.take(n as int)) < 0 {
            -net_depth(chars.take(n as int))
        } else {
            0
        }),
    decreases n,
{
    if n > 0 {
        lemma_depth_is_count(chars, (n - 1) as nat);
        lemma_scan_wf(chars, (n - 1) as nat);
        assert(chars.take(n as int).drop_last() =~= chars.take(n - 1));
    } else {
        assert(chars.take(0) =~= Seq::<char>::empty());
    }
}

/// The scan only appends entries and keeps partners once set.
proof fn lemma_scan_grows(chars: Seq<char>, a: nat, b: nat)
    requires
        a <= b <= chars.len(),
    ensures
        scan(chars, b).entries.len() >= scan(chars, a).entries.len(),
        scan(chars, b).entries.take(scan(chars, a).entries.len() as int) == scan(chars, a).entries,
        forall|x: int|
            #[trigger] scan(chars, a).partner.contains_key(x) ==> scan(chars, b).partner.contains_key(x)
                && scan(chars, b).partner[x] == scan(chars, a).partner[x],
    decreases b,
{
    if a == b {
        assert(scan(chars, b).entries.take(scan(chars, a).entries.len() as int) =~= scan(chars, a).entries);
    } else {
        lemma_scan_grows(chars, a, (b - 1) as nat);
        lemma_scan_wf(chars, (b - 1) as nat);
        let s = scan(chars, (b - 1) as nat);
        let t = scan(chars, b);
        assert(t == scan_step(chars, s, b - 1));
        assert(t.entries.take(s.entries.len() as int) =~= s.entries);
        assert(t.entries.take(scan(chars, a).entries.len() as int) =~= scan(chars, a).entries);
        assert forall|x: int| #[trigger] scan(chars, a).partner.contains_key(x) implies t.partner.contains_key(
            x,
        ) && t.partner[x] == scan(chars, a).partner[x] by {
            assert(s.partner.contains_key(x));
            if is_close(chars[b - 1]) && s.depth > 0 {
                let j = s.entries[s.open.last()].0;
                assert(!s.partner.contains_key(j));
                assert(x != j);
                assert(x < b - 1);
            }
        }
    }
}

/// While the depth stays at least `d`, the `d` outermost open brackets stay.
proof fn lemma_outer_open_kept(chars: Seq<char>, a: nat, b: nat, d: nat)
    requires
        a <= b <= chars.len(),
        forall|p: nat| a <= p <= b ==> #[trigger] scan(chars, p).depth >= d,
    ensures
        scan(chars, b).open.take(d as int) == scan(chars, a).open.take(d as int),
    decreases b,
{
    if a < b {
        lemma_outer_open_kept(chars, a, (b - 1) as nat, d);
        lemma_scan_wf(chars, (b - 1) as nat);
        lemma_scan_wf(chars, b);
        let s = scan(chars, (b - 1) as nat);
        let t = scan(chars, b);
        assert(t == scan_step(chars, s, b - 1));
        assert(s.depth >= d);
        assert(t.depth >= d);
        assert(t.open.take(d as int) =~= s.open.take(d as int));
    }
}

/// Matching is complete: an opening bracket at `j`, reached with no more
/// closing than opening brackets before it, is matched with the closing
/// bracket `i` of its kind that ends a stretch `j+1..i` that is balanced
/// (count 0, never below 0) — however many pairs came before or inside.
/// The opening bracket's level is its bracket count plus one.
pub proof fn law_matching_complete(chars: Seq<char>, j: int, i: int, m: int)
    requires
        0 <= j < i < chars.len(),
        net_depth(chars.take(j)) >= 0,
        is_open(chars[j]),
        spec_brackets_match(chars[j], chars[i]),
        forall|p: int| j + 1 <= p <= i ==> net_depth(#[trigger] chars.subrange(j + 1, p)) >= 0,
        net_depth(chars.subrange(j + 1, i)) == 0,
        0 <= m < scan(chars, chars.len()).entries.len(),
        scan(chars, chars.len()).entries[m].0 == j,
    ensures
        ({
            let sc = scan(chars, chars.len());
            &&& sc.partner.contains_key(j)
            &&& sc.partner[j] == i
            &&& sc.partner.contains_key(i)
            &&& sc.partner[i] == j
            &&& sc.entries[m].1 == net_depth(chars.take(j)) + 1
        }),
{
    let n = chars.len();
    let d = net_depth(chars.take(j)) + 1;
    lemma_depth_is_count(chars, j as nat);
    let s0 = scan(chars, j as nat);
    let s1 = scan(chars, (j + 1) as nat);
    assert(s1 == scan_step(chars, s0, j));
    lemma_scan_wf(chars, j as nat);
    let L = s0.entries.len() as int;
    assert(s1.entries[L] == (j, d as nat));
    assert(s1.open.last() == L);
    assert(s1.depth == d);
    // the bracket count after each prefix up to `i` is at least `d`
    assert forall|p: nat| j + 1 <= p <= i implies #[trigger] scan(chars, p).depth >= d by {
        lemma_depth_is_count(chars, p);
        lemma_net_depth_split(chars, j + 1, p as int);
        assert(chars.take(j + 1).drop_last() =~= chars.take(j));
    }
    lemma_outer_open_kept(chars, (j + 1) as nat, i as nat, d as nat);
    let s2 = scan(chars, i as nat);
    lemma_depth_is_count(chars, i as nat);
    lemma_net_depth_split(chars, j + 1, i);
    assert(chars.take(j + 1).drop_last() =~= chars.take(j));
    assert(s2.depth == d);
    lemma_scan_wf(chars, i as nat);
    lemma_scan_wf(chars, (j + 1) as nat);
    assert(s2.open.take(d)[d - 1] == s1.open.take(d)[d - 1]);
    assert(s2.open.last() == L);
    lemma_scan_grows(chars, (j + 1) as nat, i as nat);
    assert(s2.entries.take(s1.entries.len() as int)[L] == s1.entries[L]);
    assert(s2.entries[L].0 == j);
    let s3 = scan(chars, (i + 1) as nat);
    assert(s3 == scan_step(chars, s2, i));
    assert(s3.partner.contains_key(j) && s3.partner[j] == i);
    assert(s3.partner.contains_key(i) && s3.partner[i] == j);
    lemma_scan_grows(chars, (i + 1) as nat, n as nat);
    lemma_scan_grows(chars, (j + 1) as nat, n as nat);
    let sc = scan(chars, n as nat);
    assert(sc.entries.take(s1.entries.len() as int)[L] == s1.entries[L]);
    lemma_scan_wf(chars, n as nat);
    assert(sc.entries[L].0 == j);
    if m != L {
        if m < L {
            assert(sc.entries[m].0 < sc.entries[L].0);
        } else {
            assert(sc.entries[L].0 < sc.entries[m].0);
        }
    }
}

/// With `k != 0` level styles, a matched bracket at nesting level `L` is
/// painted with the style set by `bracket-level-((L - 1) mod k + 1)` (empty
/// when that one was not set): level `L` and level `L + k` look the same.
pub proof fn law_level_styles_cycle(
    k: nat,
    chars: Seq<char>,
    cursor: int,
    widget: Seq<char>,
    st: StyleView,
    m1: int,
    m2: int,
)
    requires
        k != 0,
        0 <= m1 < scan(chars, chars.len()).entries.len(),
        0 <= m2 < scan(chars, chars.len()).entries.len(),
        scan(chars, chars.len()).partner.contains_key(scan(chars, chars.len()).entries[m1].0),
        scan(chars, chars.len()).partner.contains_key(scan(chars, chars.len()).entries[m2].0),
    ensures
        ({
            let sc = scan(chars, chars.len());
            let hs = paint(k, chars, cursor, widget, st);
            let level = sc.entries[m1].1;
            let i = (level - 1) % (k as int) + 1;
            &&& level >= 1
            &&& 1 <= i <= k
            &&& hs[m1].start == sc.entries[m1].0
            &&& i < st.levels.len() ==> hs[m1].style == st.levels[i]
            &&& i >= st.levels.len() ==> hs[m1].style == Seq::<char>::empty()
            &&& sc.entries[m2].1 == level + k ==> hs[m2].style == hs[m1].style
        }),
{
    let sc = scan(chars, chars.len());
    lemma_scan_wf(chars, chars.len());
    lemma_entry_highlights_shape(st, k, sc, sc.entries);
    let e = entry_highlights(st, k, sc, sc.entries);
    assert(paint(k, chars, cursor, widget, st)[m1] == e[m1]);
    assert(paint(k, chars, cursor, widget, st)[m2] == e[m2]);
    let level = sc.entries[m1].1;
    if sc.entries[m2].1 == level + k {
        assert((level + k - 1) % (k as int) == (level - 1) % (k as int)) by (nonlinear_arith)
            requires k > 0, level >= 1;
    }
}

/// The stretch `a..b` has as many opening as closing brackets, and no prefix
/// of it has more closing than opening ones.
pub open spec fn balanced(chars: Seq<char>, a: int, b: int) -> bool {
    &&& net_depth(chars.subrange(a, b)) == 0
    &&& forall|p: int| a <= p <= b ==> net_depth(#[trigger] chars.subrange(a, p)) >= 0
}

/// After each open bracket, the count has not gone below 0 and stands at the
/// number of brackets opened above it; between partners it is balanced.
spec fn scan_balance(chars: Seq<char>, n: int, s: Scan) -> bool {
    &&& forall|k: int|
        0 <= k < s.open.len() ==> {
            let q = s.entries[#[trigger] s.open[k]].0;
            &&& net_depth(chars.subrange(q + 1, n)) == s.depth - (k + 1)
            &&& forall|p: int| q + 1 <= p <= n ==> net_depth(#[trigger] chars.subrange(q + 1, p)) >= 0
        }
    &&& forall|a: int|
        #[trigger] s.partner.contains_key(a) && a < s.partner[a] ==> balanced(chars, a + 1, s.partner[a])
}

proof fn lemma_subrange_step(chars: Seq<char>, a: int, n: int)
    requires
        0 <= a <= n < chars.len(),
    ensures
        net_depth(chars.subrange(a, n + 1)) == net_depth(chars.subrange(a, n)) + bracket_delta(chars[n]),
{
    assert(chars.subrange(a, n + 1).drop_last() =~= chars.subrange(a, n));
}

proof fn lemma_scan_balance(chars: Seq<char>, n: nat)
    requires
        n <= chars.len(),
    ensures
        scan_balance(chars, n as int, scan(chars, n)),
    decreases n,
{
    if n > 0 {
        let i = n - 1;
        lemma_scan_balance(chars, i as nat);
        lemma_scan_wf(chars, i as nat);
        let s = scan(chars, i as nat);
        let t = scan(chars, n);
        assert(t == scan_step(chars, s, i));
        let c = chars[i];
        assert forall|k: int| 0 <= k < t.open.len() implies {
            let q = t.entries[#[trigger] t.open[k]].0;
            &&& net_depth(chars.subrange(q + 1, n as int)) == t.depth - (k + 1)
            &&& forall|p: int| q + 1 <= p <= n ==> net_depth(#[trigger] chars.subrange(q + 1, p)) >= 0
        } by {
            let q = t.entries[t.open[k]].0;
            if k < s.open.len() {
                assert(t.open[k] == s.open[k]);
                assert(t.entries[t.open[k]] == s.entries[s.open[k]]);
                assert(q < i);
                lemma_subrange_step(chars, q + 1, i);
                assert forall|p: int| q + 1 <= p <= n implies net_depth(#[trigger] chars.subrange(q + 1, p)) >= 0 by {
                    if p == n {
                        if is_close(c) {
                            assert(s.depth > 0);
                            assert(k < s.depth - 1);
                        }
                    }
                }
            } else {
                assert(is_open(c) && s.debt == 0);
                assert(q == i);
                assert(chars.subrange(q + 1, n as int) =~= Seq::<char>::empty());
                assert forall|p: int| q + 1 <= p <= n implies net_depth(#[trigger] chars.subrange(q + 1, p)) >= 0 by {
                    assert(chars.subrange(q + 1, p) =~= Seq::<char>::empty());
                }
            }
        }
        assert forall|a: int| #[trigger] t.partner.contains_key(a) && a < t.partner[a] implies balanced(
            chars,
            a + 1,
            t.partner[a],
        ) by {
            if !s.partner.contains_key(a) {
                let k = s.open.len() - 1;
                let j = s.entries[s.open[k]].0;
                assert(a == j);
                assert(t.partner[a] == i);
            }
        }
    }
}

/// Matching is sound: between an opening bracket and its partner the
/// brackets are balanced.
pub proof fn law_matching_sound(chars: Seq<char>, a: int)
    requires
        scan(chars, chars.len()).partner.contains_key(a),
        a < scan(chars, chars.len()).partner[a],
    ensures
        balanced(chars, a + 1, scan(chars, chars.len()).partner[a]),
{
    lemma_scan_balance(chars, chars.len());
}

/// The nesting level follows the bracket count: after any prefix, the
/// number of open brackets is the count of opening minus closing brackets
/// when that is positive (0 otherwise), and the debt of unmatched closing
/// brackets is minus that count when it is negative (0 otherwise). An
/// opening bracket met while the count is negative is never matched.
pub proof fn law_depth_follows_count(chars: Seq<char>, n: nat, j: int)
    requires
        n <= chars.len(),
    ensures
        scan(chars, n).depth == (if net_depth(chars.take(n as int)) > 0 {
            net_depth(chars.take(n as int))
        } else {
            0
        }),
        scan(chars, n).debt == (if net_depth(chars.take(n as int)) < 0 {
            -net_depth(chars.take(n as int))
        } else {
            0
        }),
        0 <= j < chars.len() && is_open(chars[j]) && net_depth(chars.take(j)) < 0
            ==> !scan(chars, chars.len()).partner.contains_key(j),
{
    lemma_depth_is_count(chars, n);
    if 0 <= j < chars.len() && is_open(chars[j]) && net_depth(chars.take(j)) < 0 {
        lemma_depth_is_count(chars, j as nat);
        lemma_never_opened(chars, j);
    }
}

/// A position that never enters the stack of open brackets gets no partner.
proof fn lemma_never_opened(chars: Seq<char>, j: int)
    requires
        0 <= j < chars.len(),
        is_open(chars[j]),
        scan(chars, j as nat).debt > 0,
    ensures
        !scan(chars, chars.len()).partner.contains_key(j),
{
    lemma_scan_wf(chars, j as nat);
    let s0 = scan(chars, j as nat);
    let s1 = scan(chars, (j + 1) as nat);
    assert(s1 == scan_step(chars, s0, j));
    assert(s0.depth == 0);
    assert(!s1.partner.contains_key(j));
    lemma_open_positions_before(chars, (j + 1) as nat, chars.len(), j);
}

/// If `j` is neither open nor matched after `a` characters, it stays so.
proof fn lemma_open_positions_before(chars: Seq<char>, a: nat, b: nat, j: int)
    requires
        0 <= j < a <= b <= chars.len(),
        !scan(chars, a).partner.contains_key(j),
        forall|k: int| 0 <= k < scan(chars, a).open.len() ==> scan(chars, a).entries[#[trigger] scan(chars, a).open[k]].0 != j,
    ensures
        !scan(chars, b).partner.contains_key(j),
        forall|k: int| 0 <= k < scan(chars, b).open.len() ==> scan(chars, b).entries[#[trigger] scan(chars, b).open[k]].0 != j,
    decreases b - a,
{
    if a < b {
        lemma_scan_wf(chars, a);
        let s = scan(chars, a);
        let t = scan(chars, (a + 1) as nat);
        assert(t == scan_step(chars, s, a as int));
        assert forall|k: int| 0 <= k < t.open.len() implies t.entries[#[trigger] t.open[k]].0 != j by {
            if k < s.open.len() {
                assert(t.open[k] == s.open[k]);
                assert(t.entries[t.open[k]] == s.entries[s.open[k]]);
            } else {
                assert(t.entries[t.open[k]].0 == a);
            }
        }
        if is_close(chars[a as int]) && s.depth > 0 {
            assert(s.entries[s.open[s.open.len() - 1]].0 != j);
        }
        assert(!t.partner.contains_key(j));
        lemma_open_positions_before(chars, (a + 1) as nat, b, j);
    }
}

} // verus!
