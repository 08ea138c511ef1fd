//! Source texts as lines, and kinds of characters.
use crate::text::chars_of;
use crate::text::slice_of;
use vstd::prelude::*;

verus! {

/// The character is a letter or a numeral of some script.
pub uninterp spec fn is_alphanumeric(c: char) -> bool;

/// `char::is_alphanumeric` goes by the Unicode tables of std, which are named,
/// not spelled out.
pub assume_specification[ std::primitive::char::is_alphanumeric ](c: char) -> (res: bool)
    ensures
        res == is_alphanumeric(c),
;

/// The character is white space.
pub uninterp spec fn is_white(c: char) -> bool;

/// `char::is_whitespace` goes by the Unicode tables of std, which are named, not
/// spelled out.
pub assume_specification[ std::primitive::char::is_whitespace ](c: char) -> (res: bool)
    ensures
        res == is_white(c),
;

/// The first line break from an index on, or the end.
pub open spec fn line_break(s: Seq<char>, i: int) -> int
    decreases s.len() - i,
{
    if i >= s.len() || s[i] == '\n' {
        i
    } else {
        line_break(s, i + 1)
    }
}

/// The line from `i` to the line break at `e`, without a carriage return before
/// it.
pub open spec fn line_text(s: Seq<char>, i: int, e: int) -> Seq<char> {
    if e < s.len() && e > i && s[e - 1] == '\r' {
        s.subrange(i, e - 1)
    } else {
        s.subrange(i, e)
    }
}

pub proof fn lemma_line_break(s: Seq<char>, i: int)
    requires
        0 <= i <= s.len(),
    ensures
        i <= line_break(s, i) <= s.len(),
    decreases s.len() - i,
{
    if i < s.len() && s[i] != '\n' {
        lemma_line_break(s, i + 1);
    }
}

/// The lines from an index on.
pub open spec fn lines_from(s: Seq<char>, i: int) -> Seq<Seq<char>>
    decreases s.len() - i,
{
    if i < 0 || i >= s.len() {
        Seq::empty()
    } else {
        proof {
            lemma_line_break(s, i);
        }
        let e = line_break(s, i);
        seq![line_text(s, i, e)] + (if e < s.len() {
            lines_from(s, e + 1)
        } else {
            Seq::empty()
        })
    }
}

/// The lines of a text.
pub open spec fn lines_of(s: Seq<char>) -> Seq<Seq<char>> {
    lines_from(s, 0)
}

/// The lines of a text.
pub fn split_lines(source: &str) -> (res: Vec<String>)
    ensures
        res@.map_values(|l: String| l@) == lines_of(source@),
{
    let s = chars_of(source);
    let n: usize = s.len();
    let mut res: Vec<String> = Vec::new();
    let mut i: usize = 0;
    assert(res@.map_values(|l: String| l@) + lines_from(s@, 0) =~= lines_from(s@, 0));
    while i < n
        invariant
            i <= n == s@.len(),
            res@.map_values(|l: String| l@) + lines_from(s@, i as int) == lines_from(s@, 0),
        decreases n - i,
    {
        let mut e: usize = i;
        while e < n && s[e] != '\n'
            invariant
                i <= e <= n == s@.len(),
                line_break(s@, i as int) == line_break(s@, e as int),
            decreases n - e,
        {
            e = e + 1;
        }
        assert(line_break(s@, i as int) == e);
        let stop: usize = if e < n && e > i && s[e - 1] == '\r' {
            e - 1
        } else {
            e
        };
        let line = slice_of(&s, i, stop);
        let ghost before = res@.map_values(|l: String| l@);
        res.push(line);
        let after: usize = if e < n {
            e + 1
        } else {
            n
        };
        proof {
            assert(line@ == line_text(s@, i as int, e as int));
            assert(res@.map_values(|l: String| l@) =~= before.push(line@));
            assert(res@.map_values(|l: String| l@) + lines_from(s@, after as int) =~= before
                + lines_from(s@, i as int));
        }
        i = after;
    }
    assert(res@.map_values(|l: String| l@) + lines_from(s@, n as int) =~= res@.map_values(
        |l: String| l@,
    ));
    res
}

/// The text without white space at its ends.
pub open spec fn trimmed(s: Seq<char>) -> Seq<char>
    decreases s.len(),
{
    if s.len() > 0 && is_white(s[0]) {
        trimmed(s.skip(1))
    } else if s.len() > 0 && is_white(s.last()) {
        trimmed(s.drop_last())
    } else {
        s
    }
}

/// The text without white space at its ends.
pub fn trim_text(source: &str) -> (res: String)
    ensures
        res@ == trimmed(source@),
{
    let s = chars_of(source);
    let mut start: usize = 0;
    let mut end: usize = s.len();
    assert(s@.subrange(0, s@.len() as int) =~= s@);
    while start < end && s[start].is_whitespace()
        invariant
            start <= end == s@.len(),
            trimmed(s@) == trimmed(s@.subrange(start as int, end as int)),
        decreases end - start,
    {
        assert(s@.subrange(start as int, end as int).skip(1) =~= s@.subrange(
            start + 1,
            end as int,
        ));
        start = start + 1;
    }
    while start < end && s[end - 1].is_whitespace()
        invariant
            start <= end <= s@.len(),
            start < end ==> !is_white(s@[start as int]),
            trimmed(s@) == trimmed(s@.subrange(start as int, end as int)),
        decreases end - start,
    {
        let ghost t = s@.subrange(start as int, end as int);
        assert(t[0] == s@[start as int]);
        assert(t.last() == s@[end - 1]);
        assert(t.drop_last() =~= s@.subrange(start as int, end - 1));
        end = end - 1;
    }
    proof {
        let t = s@.subrange(start as int, end as int);
        if t.len() > 0 {
            assert(t[0] == s@[start as int]);
            assert(t.last() == s@[end - 1]);
        }
    }
    slice_of(&s, start, end)
}

/// What follows an index has the same lines by itself.
proof fn lemma_lines_shift(s: Seq<char>, i: int, j: int)
    requires
        0 <= i <= j <= s.len(),
    ensures
        lines_from(s, j) == lines_from(s.skip(i), j - i),
    decreases s.len() - j,
{
    let t = s.skip(i);
    if j < s.len() {
        lemma_break_shift(s, i, j);
        let e = line_break(s, j);
        lemma_line_break(s, j);
        assert(line_text(s, j, e) =~= line_text(t, j - i, e - i));
        if e < s.len() {
            lemma_lines_shift(s, i, e + 1);
        }
    }
}

proof fn lemma_break_shift(s: Seq<char>, i: int, j: int)
    requires
        0 <= i <= j <= s.len(),
    ensures
        line_break(s, j) - i == line_break(s.skip(i), j - i),
    decreases s.len() - j,
{
    if j < s.len() && s[j] != '\n' {
        lemma_break_shift(s, i, j + 1);
    }
}

proof fn lemma_break_at(s: Seq<char>, i: int, e: int)
    requires
        0 <= i <= e <= s.len(),
        e == s.len() || s[e] == '\n',
        forall|k: int| i <= k < e ==> #[trigger] s[k] != '\n',
    ensures
        line_break(s, i) == e,
    decreases e - i,
{
    if i < e {
        lemma_break_at(s, i + 1, e);
    }
}

/// Lines end at line breaks: the text before the first one is a line, without the
/// carriage return that may stand at its end, and the lines of the rest follow. A
/// text without a line break is one line, and nothing has none.
pub proof fn law_lines_end_at_breaks(first: Seq<char>, rest: Seq<char>)
    requires
        !first.contains('\n'),
    ensures
        lines_of(Seq::empty()) == Seq::<Seq<char>>::empty(),
        first.len() > 0 ==> lines_of(first) == seq![first],
        !(first.len() > 0 && first.last() == '\r') ==> lines_of(first + seq!['\n'] + rest) == seq![
            first,
        ] + lines_of(rest),
        first.len() > 0 && first.last() == '\r' ==> lines_of(first + seq!['\n'] + rest) == seq![
            first.drop_last(),
        ] + lines_of(rest),
{
    let s = first + seq!['\n'] + rest;
    let n = first.len() as int;
    assert forall|k: int| 0 <= k < n implies #[trigger] s[k] != '\n' by {
        assert(first.contains(first[k]));
    }
    assert(s[n] == '\n');
    lemma_break_at(s, 0, n);
    lemma_lines_shift(s, n + 1, n + 1);
    assert(s.skip(n + 1) =~= rest);
    assert(s.subrange(0, n) =~= first);
    if n > 0 {
        assert(s[n - 1] == first[n - 1]);
        assert(s.subrange(0, n - 1) =~= first.drop_last());
        assert forall|k: int| 0 <= k < n implies #[trigger] first[k] != '\n' by {
            assert(first.contains(first[k]));
        }
        lemma_break_at(first, 0, n);
        assert(first.subrange(0, n) =~= first);
        assert(lines_of(first) =~= seq![first]);
    }
}

/// All the characters are white space.
pub open spec fn all_white(s: Seq<char>) -> bool {
    forall|k: int| 0 <= k < s.len() ==> is_white(#[trigger] s[k])
}

/// Trimming takes white space away from both ends, all of it and nothing else.
pub proof fn law_trimming_takes_white_space_from_the_ends(s: Seq<char>) -> (res: (Seq<char>, Seq<char>))
    ensures
        all_white(res.0),
        all_white(res.1),
        s == res.0 + trimmed(s) + res.1,
        trimmed(s).len() > 0 ==> !is_white(trimmed(s)[0]) && !is_white(trimmed(s).last()),
    decreases s.len(),
{
    if s.len() > 0 && is_white(s[0]) {
        let (a, b) = law_trimming_takes_white_space_from_the_ends(s.skip(1));
        let front = seq![s[0]] + a;
        assert(s =~= front + trimmed(s) + b) by {
            assert(s =~= seq![s[0]] + s.skip(1));
        }
        (front, b)
    } else if s.len() > 0 && is_white(s.last()) {
        let (a, b) = law_trimming_takes_white_space_from_the_ends(s.drop_last());
        let back = b.push(s.last());
        assert(s =~= a + trimmed(s) + back) by {
            assert(s =~= s.drop_last().push(s.last()));
        }
        (a, back)
    } else {
        assert(s =~= Seq::<char>::empty() + s + Seq::<char>::empty());
        (Seq::empty(), Seq::empty())
    }
}

} // verus!
