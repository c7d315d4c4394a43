//! Splitting text into lines and joining it back, trimming whitespace, and
//! locating the `": "` separator of a key-value line. These carry the lemmas
//! the document parser is proved against.

use vstd::prelude::*;

use crate::strutil::{find_char, first_idx, lemma_first_idx};

verus! {

// ---------------------------------------------------------------------------
// Lines
// ---------------------------------------------------------------------------

/// The lines of `s`: segments between newline characters. There is always at
/// least one line; a trailing newline yields a final empty line.
pub open spec fn split_lines(s: Seq<char>) -> Seq<Seq<char>>
    decreases s.len(),
{
    if s.len() == 0 {
        seq![Seq::<char>::empty()]
    } else if s[0] == '\n' {
        seq![Seq::<char>::empty()] + split_lines(s.drop_first())
    } else {
        let rest = split_lines(s.drop_first());
        seq![seq![s[0]] + rest[0]] + rest.drop_first()
    }
}

/// The inverse of splitting: lines joined by newlines.
pub open spec fn join_lines(lines: Seq<Seq<char>>) -> Seq<char>
    decreases lines.len(),
{
    if lines.len() == 0 {
        Seq::empty()
    } else if lines.len() == 1 {
        lines[0]
    } else {
        lines[0] + seq!['\n'] + join_lines(lines.drop_first())
    }
}

/// Whether a line is free of newline characters.
pub open spec fn no_nl(l: Seq<char>) -> bool {
    forall|i: int| 0 <= i < l.len() ==> (#[trigger] l[i]) != '\n'
}

/// Splitting always produces at least one line.
pub proof fn lemma_split_lines_len(s: Seq<char>)
    ensures
        split_lines(s).len() >= 1,
    decreases s.len(),
{
    if s.len() > 0 {
        lemma_split_lines_len(s.drop_first());
    }
}

/// A newline-free string is a single line.
pub proof fn lemma_split_single(l: Seq<char>)
    requires
        no_nl(l),
    ensures
        split_lines(l) == seq![l],
    decreases l.len(),
{
    if l.len() == 0 {
        assert(split_lines(l) =~~= seq![l]);
    } else {
        assert(l[0] != '\n');
        lemma_split_single(l.drop_first());
        lemma_split_lines_len(l.drop_first());
        assert(split_lines(l.drop_first())[0] == l.drop_first());
        assert(seq![l[0]] + l.drop_first() =~= l);
        assert(split_lines(l.drop_first()).drop_first() =~= Seq::<Seq<char>>::empty());
        assert(split_lines(l) =~~= seq![l]);
    }
}

/// Splitting off the first line: a newline-free prefix before a newline is
/// the first line, and the rest splits independently.
pub proof fn lemma_split_concat(l: Seq<char>, rest: Seq<char>)
    requires
        no_nl(l),
    ensures
        split_lines(l + seq!['\n'] + rest) == seq![l] + split_lines(rest),
    decreases l.len(),
{
    let s = l + seq!['\n'] + rest;
    if l.len() == 0 {
        assert(s =~= seq!['\n'] + rest);
        assert(s[0] == '\n');
        assert(s.drop_first() =~= rest);
        assert(split_lines(s) =~~= seq![l] + split_lines(rest));
    } else {
        assert(s[0] == l[0]);
        assert(s[0] != '\n');
        assert(s.drop_first() =~= l.drop_first() + seq!['\n'] + rest);
        lemma_split_concat(l.drop_first(), rest);
        let inner = split_lines(l.drop_first() + seq!['\n'] + rest);
        assert(inner == seq![l.drop_first()] + split_lines(rest));
        assert(inner[0] == l.drop_first());
        assert(seq![s[0]] + inner[0] =~= l);
        assert(inner.drop_first() =~= split_lines(rest));
        assert(split_lines(s) =~~= seq![l] + split_lines(rest));
    }
}

/// Joining undoes splitting.
pub proof fn lemma_join_split(s: Seq<char>)
    ensures
        join_lines(split_lines(s)) == s,
    decreases s.len(),
{
    if s.len() == 0 {
        assert(join_lines(split_lines(s)) =~= s);
    } else if s[0] == '\n' {
        lemma_join_split(s.drop_first());
        lemma_split_lines_len(s.drop_first());
        let lines = seq![Seq::<char>::empty()] + split_lines(s.drop_first());
        assert(lines.len() >= 2);
        assert(lines.drop_first() =~= split_lines(s.drop_first()));
        assert(join_lines(lines) =~= s);
    } else {
        lemma_join_split(s.drop_first());
        lemma_split_lines_len(s.drop_first());
        let rest = split_lines(s.drop_first());
        let lines = seq![seq![s[0]] + rest[0]] + rest.drop_first();
        if rest.len() == 1 {
            assert(lines.len() == 1);
            assert(join_lines(rest) == rest[0]);
            assert(join_lines(lines) == seq![s[0]] + rest[0]);
            assert(join_lines(lines) =~= s);
        } else {
            assert(lines.len() >= 2);
            assert(lines[0] == seq![s[0]] + rest[0]);
            assert(lines.drop_first() =~= rest.drop_first());
            assert(join_lines(rest) == rest[0] + seq!['\n'] + join_lines(rest.drop_first()));
            assert(join_lines(lines) == lines[0] + seq!['\n'] + join_lines(lines.drop_first()));
            assert(s =~= seq![s[0]] + s.drop_first());
            assert(join_lines(lines) =~= s);
        }
    }
}

/// How the first line of a split relates to the first newline.
pub proof fn lemma_split_lines_first(s: Seq<char>)
    ensures
        first_idx(s, '\n') >= 0 ==> {
            &&& split_lines(s)[0] == s.take(first_idx(s, '\n'))
            &&& split_lines(s).drop_first() == split_lines(s.skip(first_idx(s, '\n') + 1))
            &&& split_lines(s).len() >= 2
        },
        first_idx(s, '\n') < 0 ==> split_lines(s) == seq![s],
{
    lemma_first_idx(s, '\n');
    let i = first_idx(s, '\n');
    if i >= 0 {
        let l = s.take(i);
        let rest = s.skip(i + 1);
        assert(no_nl(l));
        assert(s =~= l + seq!['\n'] + rest);
        lemma_split_concat(l, rest);
        lemma_split_lines_len(rest);
        assert(split_lines(s)[0] == l);
        assert(split_lines(s).drop_first() =~= split_lines(rest));
    } else {
        assert(no_nl(s));
        lemma_split_single(s);
    }
}

/// Extracts the line starting at character `pos`: the line itself and the
/// position just past its newline, or `None` when the line runs to the end
/// of the string.
pub fn next_line<'a>(s: &'a str, pos: usize) -> (r: (&'a str, Option<usize>))
    requires
        pos <= s@.len(),
    ensures
        r.0@ == split_lines(s@.skip(pos as int))[0],
        match r.1 {
            Some(p) => {
                &&& pos < p <= s@.len()
                &&& p == pos + r.0@.len() + 1
                &&& split_lines(s@.skip(p as int)) == split_lines(s@.skip(pos as int)).drop_first()
                &&& split_lines(s@.skip(pos as int)).len() >= 2
            },
            None => split_lines(s@.skip(pos as int)) == seq![r.0@],
        },
{
    let len = s.unicode_len();
    let rem = s.substring_char(pos, len);
    proof {
        assert(rem@ =~= s@.skip(pos as int));
    }
    let r = find_char(rem, '\n');
    proof {
        lemma_split_lines_first(s@.skip(pos as int));
        lemma_first_idx(s@.skip(pos as int), '\n');
    }
    match r {
        Some(i) => {
            let line = s.substring_char(pos, pos + i);
            proof {
                assert(line@ =~= s@.skip(pos as int).take(i as int));
                assert(s@.skip(pos as int).skip(i + 1) =~= s@.skip(pos + i + 1));
            }
            (line, Some(pos + i + 1))
        },
        None => (rem, None),
    }
}

// ---------------------------------------------------------------------------
// Trimming
// ---------------------------------------------------------------------------

/// Whitespace as the body trimmer understands it.
pub open spec fn is_space(c: char) -> bool {
    c == ' ' || c == '\t' || c == '\n' || c == '\r'
}

/// First index at or after `i` holding a non-space, or the length.
pub open spec fn ltrim_idx(s: Seq<char>, i: int) -> int
    decreases s.len() - i,
{
    if i < 0 || i >= s.len() {
        s.len() as int
    } else if is_space(s[i]) {
        ltrim_idx(s, i + 1)
    } else {
        i
    }
}

/// Last bound ending at or before `j` after dropping trailing spaces.
pub open spec fn rtrim_idx(s: Seq<char>, j: int) -> int
    decreases j,
{
    if j <= 0 || j > s.len() {
        0
    } else if is_space(s[j - 1]) {
        rtrim_idx(s, j - 1)
    } else {
        j
    }
}

/// The string with leading and trailing whitespace removed.
pub open spec fn trim(s: Seq<char>) -> Seq<char> {
    let a = ltrim_idx(s, 0);
    let b = rtrim_idx(s, s.len() as int);
    if a >= b {
        Seq::empty()
    } else {
        s.subrange(a, b)
    }
}

/// A string equal to its own trim.
pub open spec fn trim_stable(s: Seq<char>) -> bool {
    trim(s) == s
}

/// Basic bounds of the trim indices.
pub proof fn lemma_trim_idx_bounds(s: Seq<char>)
    ensures
        0 <= ltrim_idx(s, 0) <= s.len(),
        0 <= rtrim_idx(s, s.len() as int) <= s.len(),
{
    lemma_ltrim_bounds(s, 0);
    lemma_rtrim_bounds(s, s.len() as int);
}

proof fn lemma_ltrim_bounds(s: Seq<char>, i: int)
    requires
        0 <= i <= s.len(),
    ensures
        i <= ltrim_idx(s, i) <= s.len(),
        forall|j: int| i <= j < ltrim_idx(s, i) ==> is_space(#[trigger] s[j]),
        ltrim_idx(s, i) < s.len() ==> !is_space(s[ltrim_idx(s, i)]),
    decreases s.len() - i,
{
    if i < s.len() && is_space(s[i]) {
        lemma_ltrim_bounds(s, i + 1);
    }
}

proof fn lemma_rtrim_bounds(s: Seq<char>, j: int)
    requires
        0 <= j <= s.len(),
    ensures
        0 <= rtrim_idx(s, j) <= j,
        forall|i: int| rtrim_idx(s, j) <= i < j ==> is_space(#[trigger] s[i]),
        rtrim_idx(s, j) > 0 ==> !is_space(s[rtrim_idx(s, j) - 1]),
    decreases j,
{
    if j > 0 && is_space(s[j - 1]) {
        lemma_rtrim_bounds(s, j - 1);
    }
}

/// Leading whitespace does not change the trimmed value.
pub proof fn lemma_trim_drop_leading_space(s: Seq<char>, c: char)
    requires
        is_space(c),
    ensures
        trim(seq![c] + s) == trim(s),
{
    let t = seq![c] + s;
    lemma_ltrim_shift(t, s, 1, 0);
    lemma_rtrim_shift(t, s, t.len() as int, s.len() as int);
    lemma_trim_idx_bounds(s);
    let a = ltrim_idx(s, 0);
    let b = rtrim_idx(s, s.len() as int);
    if s.len() == 0 {
        assert(trim(t) =~= trim(s));
    } else {
        if a >= b {
            assert(trim(t) =~= trim(s));
        } else {
            assert(t.subrange(a + 1, b + 1) =~= s.subrange(a, b));
        }
    }
}

proof fn lemma_ltrim_shift(t: Seq<char>, s: Seq<char>, ti: int, si: int)
    requires
        t.len() == s.len() + 1,
        ti == si + 1,
        0 <= si <= s.len(),
        forall|k: int| 0 <= k < s.len() ==> t[k + 1] == s[k],
    ensures
        ltrim_idx(t, ti) == ltrim_idx(s, si) + 1,
    decreases s.len() - si,
{
    if si < s.len() && is_space(s[si]) {
        assert(t[ti] == s[si]);
        lemma_ltrim_shift(t, s, ti + 1, si + 1);
    } else {
        if si < s.len() {
            assert(t[ti] == s[si]);
        }
    }
}

proof fn lemma_rtrim_shift(t: Seq<char>, s: Seq<char>, tj: int, sj: int)
    requires
        t.len() == s.len() + 1,
        tj == sj + 1,
        0 <= sj <= s.len(),
        is_space(t[0]),
        forall|k: int| 0 <= k < s.len() ==> t[k + 1] == s[k],
    ensures
        rtrim_idx(s, sj) == 0 ==> rtrim_idx(t, tj) <= 1,
        rtrim_idx(s, sj) > 0 ==> rtrim_idx(t, tj) == rtrim_idx(s, sj) + 1,
    decreases sj,
{
    if sj > 0 && is_space(s[sj - 1]) {
        assert(t[tj - 1] == s[sj - 1]);
        lemma_rtrim_shift(t, s, tj - 1, sj - 1);
    } else if sj > 0 {
        assert(t[tj - 1] == s[sj - 1]);
    } else {
        assert(rtrim_idx(t, 0) == 0);
        assert(rtrim_idx(t, tj) == rtrim_idx(t, 0));
    }
}

/// A string opening with a non-space character has a nonempty trim.
pub proof fn lemma_trim_nonempty(s: Seq<char>)
    requires
        s.len() > 0,
        !is_space(s[0]),
    ensures
        trim(s).len() > 0,
        trim(s)[0] == s[0],
{
    lemma_ltrim_bounds(s, 0);
    lemma_rtrim_bounds(s, s.len() as int);
    let a = ltrim_idx(s, 0);
    let b = rtrim_idx(s, s.len() as int);
    assert(a == 0);
    if b == 0 {
        assert(is_space(s[0]));
    }
}

/// Position of the first non-space character.
fn ltrim_pos(s: &str) -> (a: usize)
    ensures
        a == ltrim_idx(s@, 0),
{
    let len = s.unicode_len();
    proof {
        lemma_ltrim_bounds(s@, 0);
    }
    let mut a: usize = 0;
    while a < len
        invariant
            len == s@.len(),
            a <= len,
            ltrim_idx(s@, 0) >= a,
        decreases len - a,
    {
        let c = s.get_char(a);
        if !(c == ' ' || c == '\t' || c == '\n' || c == '\r') {
            proof {
                lemma_ltrim_bounds(s@, 0);
                if ltrim_idx(s@, 0) > a {
                    assert(is_space(s@[a as int]));
                }
            }
            return a;
        }
        proof {
            lemma_ltrim_skip(s@, 0, a as int);
        }
        a += 1;
    }
    proof {
        lemma_ltrim_bounds(s@, 0);
    }
    len
}

/// End bound after dropping trailing spaces.
fn rtrim_pos(s: &str) -> (b: usize)
    ensures
        b == rtrim_idx(s@, s@.len() as int),
{
    let len = s.unicode_len();
    proof {
        lemma_rtrim_bounds(s@, len as int);
    }
    let mut b: usize = len;
    while b > 0
        invariant
            len == s@.len(),
            b <= len,
            rtrim_idx(s@, len as int) <= b,
        decreases b,
    {
        let c = s.get_char(b - 1);
        if !(c == ' ' || c == '\t' || c == '\n' || c == '\r') {
            proof {
                lemma_rtrim_bounds(s@, len as int);
                if rtrim_idx(s@, len as int) < b {
                    assert(is_space(s@[b - 1]));
                }
            }
            return b;
        }
        proof {
            lemma_rtrim_skip(s@, len as int, b as int);
        }
        b -= 1;
    }
    proof {
        lemma_rtrim_bounds(s@, len as int);
    }
    0
}

/// Trims whitespace from both ends.
pub fn trim_str<'a>(s: &'a str) -> (r: &'a str)
    ensures
        r@ == trim(s@),
{
    let a = ltrim_pos(s);
    let b = rtrim_pos(s);
    proof {
        lemma_trim_idx_bounds(s@);
    }
    if a >= b {
        let r = s.substring_char(0, 0);
        proof {
            assert(r@ =~= trim(s@));
        }
        r
    } else {
        let r = s.substring_char(a, b);
        proof {
            assert(r@ =~= trim(s@));
        }
        r
    }
}

proof fn lemma_ltrim_skip(s: Seq<char>, from: int, i: int)
    requires
        0 <= from <= i < s.len(),
        is_space(s[i]),
        ltrim_idx(s, from) >= i,
    ensures
        ltrim_idx(s, from) >= i + 1,
    decreases i - from,
{
    if from < s.len() && is_space(s[from]) {
        if from < i {
            lemma_ltrim_skip(s, from + 1, i);
        } else {
            lemma_ltrim_bounds(s, from + 1);
        }
    }
}

proof fn lemma_rtrim_skip(s: Seq<char>, from: int, b: int)
    requires
        0 < b <= from <= s.len(),
        is_space(s[b - 1]),
        rtrim_idx(s, from) <= b,
    ensures
        rtrim_idx(s, from) <= b - 1,
    decreases from,
{
    if from > 0 && is_space(s[from - 1]) {
        if from > b {
            lemma_rtrim_skip(s, from - 1, b);
        } else {
            lemma_rtrim_bounds(s, from - 1);
        }
    }
}

// ---------------------------------------------------------------------------
// Key-value separator
// ---------------------------------------------------------------------------

/// Index of the first `": "` in `s`, or -1 if there is none.
pub open spec fn first_colon_sp(s: Seq<char>) -> int
    decreases s.len(),
{
    if s.len() < 2 {
        -1
    } else if s[0] == ':' && s[1] == ' ' {
        0
    } else {
        let r = first_colon_sp(s.drop_first());
        if r < 0 {
            -1
        } else {
            1 + r
        }
    }
}

/// A `": "` occurrence at index `i`.
pub open spec fn colon_at(s: Seq<char>, i: int) -> bool {
    0 <= i && i + 2 <= s.len() && s[i] == ':' && s[i + 1] == ' '
}

/// What `first_colon_sp` means: the least `": "` occurrence, or -1.
pub proof fn lemma_first_colon_sp(s: Seq<char>)
    ensures
        first_colon_sp(s) >= 0 ==> {
            &&& colon_at(s, first_colon_sp(s))
            &&& forall|j: int| 0 <= j < first_colon_sp(s) ==> !colon_at(s, j)
        },
        first_colon_sp(s) < 0 ==> forall|j: int| !colon_at(s, j),
    decreases s.len(),
{
    if s.len() < 2 {
    } else if s[0] == ':' && s[1] == ' ' {
    } else {
        let t = s.drop_first();
        lemma_first_colon_sp(t);
        assert forall|j: int| 0 <= j && j + 2 <= s.len() - 1 implies colon_at(s, j + 1)
            == colon_at(t, j) by {
            assert(t[j] == s[j + 1]);
            if j + 1 < s.len() {
                assert(t[j + 1] == s[j + 2]);
            }
        }
        if first_colon_sp(t) >= 0 {
            let r = first_colon_sp(t);
            assert(colon_at(t, r));
            assert(colon_at(s, r + 1));
            assert forall|j: int| 0 <= j < r + 1 implies !colon_at(s, j) by {
                if j == 0 {
                    assert(!(s[0] == ':' && s[1] == ' '));
                } else {
                    assert(!colon_at(t, j - 1));
                }
            }
        } else {
            assert forall|j: int| !colon_at(s, j) implies true by {}
            assert forall|j: int| 0 <= j implies !colon_at(s, j) by {
                if j == 0 {
                    assert(!(s[0] == ':' && s[1] == ' '));
                } else if j + 2 <= s.len() {
                    assert(!colon_at(t, j - 1));
                }
            }
        }
    }
}

/// Where the separator falls in a well-formed key-value line: right after a
/// colon-free key.
pub proof fn lemma_first_colon_of_kv(k: Seq<char>, rest: Seq<char>)
    requires
        forall|i: int| 0 <= i < k.len() ==> (#[trigger] k[i]) != ':',
        rest.len() >= 2,
        rest[0] == ':',
        rest[1] == ' ',
    ensures
        first_colon_sp(k + rest) == k.len(),
{
    let s = k + rest;
    lemma_first_colon_sp(s);
    assert(s[k.len() as int] == ':');
    assert(s[k.len() as int + 1] == ' ');
    assert(colon_at(s, k.len() as int));
    if first_colon_sp(s) < 0 {
        assert(colon_at(s, k.len() as int));
        assert(false);
    }
    let f = first_colon_sp(s);
    if f < k.len() {
        assert(colon_at(s, f));
        assert(s[f] == k[f]);
        assert(false);
    }
    if f > k.len() {
        assert(!colon_at(s, k.len() as int));
        assert(false);
    }
}

/// Finds the first `": "` separator in `s`.
pub fn find_colon_sp(s: &str) -> (r: Option<usize>)
    ensures
        r is Some ==> first_colon_sp(s@) == r->0,
        r is None ==> first_colon_sp(s@) < 0,
{
    let len = s.unicode_len();
    if len < 2 {
        proof {
            lemma_first_colon_sp(s@);
            if first_colon_sp(s@) >= 0 {
                assert(colon_at(s@, first_colon_sp(s@)));
            }
        }
        return None;
    }
    let mut i: usize = 0;
    while i + 1 < len
        invariant
            len == s@.len(),
            i + 1 <= len,
            forall|j: int| 0 <= j < i ==> !colon_at(s@, j),
        decreases len - i,
    {
        if s.get_char(i) == ':' && s.get_char(i + 1) == ' ' {
            proof {
                lemma_first_colon_sp(s@);
                assert(colon_at(s@, i as int));
                if first_colon_sp(s@) < 0 {
                    assert(false);
                }
                if first_colon_sp(s@) < i {
                    assert(!colon_at(s@, first_colon_sp(s@)));
                    assert(false);
                }
                if first_colon_sp(s@) > i {
                    assert(!colon_at(s@, i as int));
                    assert(false);
                }
            }
            return Some(i);
        }
        proof {
            assert(!colon_at(s@, i as int));
        }
        i += 1;
    }
    proof {
        lemma_first_colon_sp(s@);
        if first_colon_sp(s@) >= 0 {
            let f = first_colon_sp(s@);
            assert(colon_at(s@, f));
            assert(f + 2 <= len);
            assert(f < i);
            assert(false);
        }
    }
    None
}

} // verus!
