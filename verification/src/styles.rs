use vstd::prelude::*;

use vstd::string::StrSliceExecFns;

use crate::text::{has_prefix, parse_usize, spec_parse_usize};

verus! {

/// The styles that the highlighting reads: the one for unmatched brackets,
/// the one for the partner of the bracket under the cursor, and one for each
/// nesting level (index 0 is never read).
pub struct StyleSet {
    pub bracket_error: String,
    pub cursor_matching_bracket: String,
    pub bracket_level: Vec<String>,
}

/// The model of a `StyleSet`: its strings as character sequences.
#[verifier::ext_equal]
pub struct StyleView {
    pub error: Seq<char>,
    pub cursor: Seq<char>,
    pub levels: Seq<Seq<char>>,
}

impl View for StyleSet {
    type V = StyleView;

    open spec fn view(&self) -> StyleView {
        StyleView {
            error: self.bracket_error@,
            cursor: self.cursor_matching_bracket@,
            levels: self.bracket_level.deep_view(),
        }
    }
}

pub open spec fn error_key() -> Seq<char> {
    "bracket-error"@
}

pub open spec fn cursor_key() -> Seq<char> {
    "cursor-matchingbracket"@
}

pub open spec fn level_prefix() -> Seq<char> {
    "bracket-level-"@
}

/// The level that a key `bracket-level-<n>` names, read as `usize`.
pub open spec fn level_of_key(key: Seq<char>) -> Result<usize, crate::text::IntErrorKind> {
    spec_parse_usize(key.skip(level_prefix().len() as int))
}

/// The sequence `s` with `x` at index `n`; where `s` is shorter, it is first
/// padded with `fill` up to index `n`.
pub open spec fn set_at<A>(s: Seq<A>, n: nat, fill: A, x: A) -> Seq<A> {
    if n < s.len() {
        s.update(n as int, x)
    } else {
        (s + Seq::new((n - s.len()) as nat, |i: int| fill)).push(x)
    }
}

/// The styles before any entry is read: all empty.
pub open spec fn no_styles() -> StyleView {
    StyleView { error: Seq::empty(), cursor: Seq::empty(), levels: Seq::empty() }
}

/// What one `(key, value)` entry does to the styles.
pub open spec fn apply_style(st: StyleView, key: Seq<char>, val: Seq<char>) -> StyleView {
    if key == error_key() {
        StyleView { error: val, ..st }
    } else if key == cursor_key() {
        StyleView { cursor: val, ..st }
    } else if level_prefix().is_prefix_of(key) {
        match level_of_key(key) {
            Ok(n) => StyleView { levels: set_at(st.levels, n as nat, Seq::empty(), val), ..st },
            Err(_) => st,
        }
    } else {
        st
    }
}

/// Whether the entry can be read without a panic: a level key must name a
/// `usize` below `usize::MAX` that is at least the index of the last level
/// already set.
pub open spec fn style_entry_ok(st: StyleView, key: Seq<char>) -> bool {
    level_prefix().is_prefix_of(key) && key != error_key() && key != cursor_key() ==> match level_of_key(key) {
        Ok(n) => n < usize::MAX && n + 1 >= st.levels.len(),
        Err(_) => false,
    }
}

/// The entries as pairs of character sequences.
pub open spec fn pairs_view(pairs: Seq<(String, String)>) -> Seq<(Seq<char>, Seq<char>)> {
    pairs.map_values(|p: (String, String)| (p.0@, p.1@))
}

/// The styles after reading the entries in order.
pub open spec fn styles_of(pairs: Seq<(Seq<char>, Seq<char>)>) -> StyleView
    decreases pairs.len(),
{
    if pairs.len() == 0 {
        no_styles()
    } else {
        let st = styles_of(pairs.drop_last());
        apply_style(st, pairs.last().0, pairs.last().1)
    }
}

/// Whether all the entries can be read in order without a panic.
pub open spec fn styles_ok(pairs: Seq<(Seq<char>, Seq<char>)>) -> bool
    decreases pairs.len(),
{
    if pairs.len() == 0 {
        true
    } else {
        styles_ok(pairs.drop_last()) && style_entry_ok(styles_of(pairs.drop_last()), pairs.last().0)
    }
}

/// Stores `elem` at `pos`, padding the vector with empty strings up to `pos`.
fn set_at_pos(vec: &mut Vec<String>, pos: usize, elem: String)
    requires
        pos < usize::MAX,
        pos + 1 >= old(vec).len(),
    ensures
        final(vec).deep_view() == set_at(old(vec).deep_view(), pos as nat, Seq::<char>::empty(), elem@),
{
    let ghost old_v = vec.deep_view();
    let count: usize = (pos + 1) - vec.len();
    let mut k: usize = 0;
    while k < count
        invariant
            k <= count,
            count == (pos + 1) - old_v.len(),
            vec@.len() == old_v.len() + k,
            forall|j: int| 0 <= j < old_v.len() ==> #[trigger] vec@[j]@ == old_v[j],
            forall|j: int| old_v.len() <= j < vec@.len() ==> #[trigger] vec@[j]@ == Seq::<char>::empty(),
        decreases count - k,
    {
        vec.push(String::new());
        k = k + 1;
    }
    vec[pos] = elem;
    assert(vec.deep_view() =~= set_at(old_v, pos as nat, Seq::<char>::empty(), elem@));
}

proof fn lemma_styles_ok_prefix(pairs: Seq<(Seq<char>, Seq<char>)>, i: int)
    requires
        styles_ok(pairs),
        0 <= i <= pairs.len(),
    ensures
        styles_ok(pairs.take(i)),
    decreases pairs.len(),
{
    if i < pairs.len() {
        assert(pairs.drop_last().take(i) =~= pairs.take(i));
        lemma_styles_ok_prefix(pairs.drop_last(), i);
    } else {
        assert(pairs.take(i) =~= pairs);
    }
}

/// Reads the styles from `(key, value)` entries, in order: `bracket-error`,
/// `cursor-matchingbracket` and `bracket-level-<n>` set the style they name,
/// a later entry overriding an earlier one; other keys are ignored.
pub fn read_styles(pairs: &Vec<(String, String)>) -> (st: StyleSet)
    requires
        styles_ok(pairs_view(pairs@)),
    ensures
        st@ == styles_of(pairs_view(pairs@)),
{
    let ghost pv = pairs_view(pairs@);
    let error_name: String = "bracket-error".to_owned();
    let cursor_name: String = "cursor-matchingbracket".to_owned();
    let level_name: &str = "bracket-level-";
    let plen: usize = level_name.unicode_len();
    let mut st = StyleSet {
        bracket_error: String::new(),
        cursor_matching_bracket: String::new(),
        bracket_level: Vec::new(),
    };
    assert(st@.levels =~= Seq::<Seq<char>>::empty());
    assert(pv.take(0) =~= Seq::<(Seq<char>, Seq<char>)>::empty());
    let n: usize = pairs.len();
    let mut i: usize = 0;
    while i < n
        invariant
            i <= n,
            n == pairs@.len(),
            pv == pairs_view(pairs@),
            styles_ok(pv),
            error_name@ == error_key(),
            cursor_name@ == cursor_key(),
            level_name@ == level_prefix(),
            plen == level_prefix().len(),
            st@ == styles_of(pv.take(i as int)),
        decreases n - i,
    {
        proof {
            lemma_styles_ok_prefix(pv, i + 1);
            assert(pv.take(i + 1).drop_last() =~= pv.take(i as int));
        }
        let key: &String = &pairs[i].0;
        let val: &String = &pairs[i].1;
        if *key == error_name {
            st.bracket_error = val.clone();
        } else if *key == cursor_name {
            st.cursor_matching_bracket = val.clone();
        } else if has_prefix(key.as_str(), level_name) {
            let klen: usize = key.as_str().unicode_len();
            let num = key.as_str().substring_char(plen, klen);
            assert(num@ =~= key@.skip(level_prefix().len() as int));
            match parse_usize(num) {
                Ok(pos) => {
                    set_at_pos(&mut st.bracket_level, pos, val.clone());
                },
                Err(_) => {},
            }
        }
        assert(st@ == apply_style(styles_of(pv.take(i as int)), pv[i as int].0, pv[i as int].1));
        i = i + 1;
    }
    assert(pv.take(n as int) =~= pv);
    st
}

/// Whether `read_styles` accepts the entries: every `bracket-level-<n>` key
/// names a `usize` below `usize::MAX` that is not below the index of the
/// last level already set.
pub fn styles_accepted(pairs: &Vec<(String, String)>) -> (ok: bool)
    ensures
        ok == styles_ok(pairs_view(pairs@)),
{
    let ghost pv = pairs_view(pairs@);
    let error_name: String = "bracket-error".to_owned();
    let cursor_name: String = "cursor-matchingbracket".to_owned();
    let level_name: &str = "bracket-level-";
    let plen: usize = level_name.unicode_len();
    let mut levels_len: usize = 0;
    assert(pv.take(0) =~= Seq::<(Seq<char>, Seq<char>)>::empty());
    let n: usize = pairs.len();
    let mut i: usize = 0;
    while i < n
        invariant
            i <= n,
            n == pairs@.len(),
            pv == pairs_view(pairs@),
            error_name@ == error_key(),
            cursor_name@ == cursor_key(),
            level_name@ == level_prefix(),
            plen == level_prefix().len(),
            styles_ok(pv.take(i as int)),
            levels_len == styles_of(pv.take(i as int)).levels.len(),
        decreases n - i,
    {
        proof {
            assert(pv.take(i + 1).drop_last() =~= pv.take(i as int));
        }
        let key: &String = &pairs[i].0;
        if *key != error_name && *key != cursor_name && has_prefix(key.as_str(), level_name) {
            let klen: usize = key.as_str().unicode_len();
            let num = key.as_str().substring_char(plen, klen);
            assert(num@ =~= key@.skip(level_prefix().len() as int));
            match parse_usize(num) {
                Ok(pos) => {
                    if pos == usize::MAX || pos + 1 < levels_len {
                        proof { lemma_styles_ok_prefix_fails(pv, i as int); }
                        return false;
                    }
                    levels_len = pos + 1;
                },
                Err(_) => {
                    proof { lemma_styles_ok_prefix_fails(pv, i as int); }
                    return false;
                },
            }
        }
        i = i + 1;
    }
    assert(pv.take(n as int) =~= pv);
    true
}

/// A prefix that cannot be read makes the whole unreadable.
proof fn lemma_styles_ok_prefix_fails(pairs: Seq<(Seq<char>, Seq<char>)>, i: int)
    requires
        0 <= i < pairs.len(),
        !style_entry_ok(styles_of(pairs.take(i)), pairs[i].0),
    ensures
        !styles_ok(pairs),
{
    assert(pairs.take(i + 1).drop_last() =~= pairs.take(i));
    if styles_ok(pairs) {
        lemma_styles_ok_prefix(pairs, i + 1);
    }
}

/// A later entry for a key overrides an earlier one for the same key.
pub proof fn law_later_entry_wins(
    pairs: Seq<(Seq<char>, Seq<char>)>,
    key: Seq<char>,
    v1: Seq<char>,
    v2: Seq<char>,
)
    ensures
        styles_of(pairs.push((key, v1)).push((key, v2))) == styles_of(pairs.push((key, v2))),
{
    let a = pairs.push((key, v1)).push((key, v2));
    let b = pairs.push((key, v2));
    assert(a.drop_last() =~= pairs.push((key, v1)));
    assert(a.drop_last().drop_last() =~= pairs);
    assert(b.drop_last() =~= pairs);
    let st = styles_of(pairs);
    assert(styles_of(pairs.push((key, v1))) == apply_style(st, key, v1));
    assert(styles_of(a) == apply_style(apply_style(st, key, v1), key, v2));
    assert(styles_of(b) == apply_style(st, key, v2));
    if key != error_key() && key != cursor_key() && level_prefix().is_prefix_of(key) {
        if let Ok(n) = level_of_key(key) {
            let l1 = set_at(st.levels, n as nat, Seq::<char>::empty(), v1);
            assert(set_at(l1, n as nat, Seq::<char>::empty(), v2) =~= set_at(
                st.levels,
                n as nat,
                Seq::<char>::empty(),
                v2,
            ));
        }
    }
    assert(styles_of(a) =~= styles_of(b));
}

/// An entry whose key names no style changes nothing.
pub proof fn law_other_keys_ignored(pairs: Seq<(Seq<char>, Seq<char>)>, key: Seq<char>, v: Seq<char>)
    requires
        key != error_key(),
        key != cursor_key(),
        !level_prefix().is_prefix_of(key),
    ensures
        styles_of(pairs.push((key, v))) == styles_of(pairs),
{
    assert(pairs.push((key, v)).drop_last() =~= pairs);
}

/// The style read for a key is the whole value of its last entry:
/// `bracket-error` and `cursor-matchingbracket` take the value as it is, and
/// `bracket-level-<d>` puts it at index `n` (the number `d` names), leaving
/// the other levels as they were and padding the new ones with empty styles.
pub proof fn law_entry_value_kept(pairs: Seq<(Seq<char>, Seq<char>)>, d: Seq<char>, v: Seq<char>)
    ensures
        styles_of(pairs.push(("bracket-error"@, v))).error == v,
        styles_of(pairs.push(("bracket-error"@, v))).levels == styles_of(pairs).levels,
        styles_of(pairs.push(("cursor-matchingbracket"@, v))).cursor == v,
        styles_of(pairs.push(("cursor-matchingbracket"@, v))).levels == styles_of(pairs).levels,
        ({
            let key = "bracket-level-"@ + d;
            let old = styles_of(pairs).levels;
            let new = styles_of(pairs.push((key, v))).levels;
            spec_parse_usize(d) matches Ok(n) ==> {
                &&& new.len() == if n < old.len() { old.len() as int } else { n + 1 }
                &&& new[n as int] == v
                &&& forall|i: int| 0 <= i < old.len() && i != n ==> new[i] == old[i]
                &&& forall|i: int| old.len() <= i < n ==> new[i] == Seq::<char>::empty()
                &&& styles_of(pairs.push((key, v))).error == styles_of(pairs).error
                &&& styles_of(pairs.push((key, v))).cursor == styles_of(pairs).cursor
            }
        }),
{
    reveal_strlit("bracket-error");
    reveal_strlit("cursor-matchingbracket");
    reveal_strlit("bracket-level-");
    assert(pairs.push((error_key(), v)).drop_last() =~= pairs);
    assert(pairs.push((cursor_key(), v)).drop_last() =~= pairs);
    let key = level_prefix() + d;
    assert(pairs.push((key, v)).drop_last() =~= pairs);
    assert(error_key() != cursor_key()) by {
        assert(error_key()[0] == 'b' && cursor_key()[0] == 'c');
    }
    assert(key.len() >= 14);
    assert(key != error_key()) by {
        assert(error_key().len() == 13);
    }
    assert(key != cursor_key()) by {
        assert(key[0] == 'b' && cursor_key()[0] == 'c');
    }
    assert(level_prefix().is_prefix_of(key)) by {
        assert(key.take(14) =~= level_prefix());
    }
    assert(key.skip(level_prefix().len() as int) =~= d);
}

/// Which entries can be read: an entry for `bracket-error`,
/// `cursor-matchingbracket` or any key outside `bracket-level-*` always; an
/// entry `bracket-level-<d>` when `d` names a `usize` `n` below `usize::MAX`
/// that is not below the index of the last level already set.
pub proof fn law_styles_ok_step(pairs: Seq<(Seq<char>, Seq<char>)>, key: Seq<char>, v: Seq<char>)
    ensures
        styles_ok(pairs.push((key, v))) ==> styles_ok(pairs),
        styles_ok(pairs) && !("bracket-level-"@.is_prefix_of(key)) ==> styles_ok(pairs.push((key, v))),
        styles_ok(pairs) && "bracket-level-"@.is_prefix_of(key) ==> (styles_ok(pairs.push((key, v)))
            <==> (spec_parse_usize(key.skip(14)) matches Ok(n) && n < usize::MAX && n + 1
            >= styles_of(pairs).levels.len())),
{
    reveal_strlit("bracket-error");
    reveal_strlit("cursor-matchingbracket");
    reveal_strlit("bracket-level-");
    assert(pairs.push((key, v)).drop_last() =~= pairs);
    if "bracket-level-"@.is_prefix_of(key) {
        assert(key.len() >= 14);
        assert(key != error_key()) by {
            assert(error_key().len() == 13);
        }
        assert(key != cursor_key()) by {
            assert(key[0] == "bracket-level-"@[0]);
            assert(key[0] == 'b' && cursor_key()[0] == 'c');
        }
    }
}

} // verus!
