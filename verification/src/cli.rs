//! The command line: which files are scripts, how errors are shown, and the
//! lines of an interactive session.
use crate::error::Fault;
use crate::error::JitError;
use crate::lines::lines_of;
use crate::lines::split_lines;
use crate::lines::trim_text;
use crate::lines::trimmed;
use crate::text::chars_of;
use crate::text::decimal;
use crate::text::push_decimal;
use crate::text::same_text;
use crate::text::slice_of;
use vstd::prelude::*;

verus! {

/// A file with this extension is a script.
pub fn is_script(extension: Option<&str>) -> (res: bool)
    ensures
        res == (extension matches Some(e) && e@ == "pi"@),
{
    match extension {
        Some(e) => same_text(e, "pi"),
        None => false,
    }
}

/// A directory with this name is not searched for scripts.
pub fn is_skipped_dir(name: &str) -> (res: bool)
    ensures
        res == (name@ == "target"@ || name@ == ".git"@),
{
    same_text(name, "target") || same_text(name, ".git")
}

/// A text of blanks.
pub open spec fn spaces(n: nat) -> Seq<char> {
    Seq::new(n, |k: int| ' ')
}

fn push_spaces(s: &mut String, n: usize)
    ensures
        final(s)@ == old(s)@ + spaces(n as nat),
{
    let ghost before = s@;
    let mut k: usize = 0;
    assert(before + spaces(0) =~= before);
    while k < n
        invariant
            k <= n,
            s@ == before + spaces(k as nat),
        decreases n - k,
    {
        s.push(' ');
        k = k + 1;
        assert(s@ =~= before + spaces(k as nat));
    }
}

/// A number, set to the right in four places.
pub open spec fn right_aligned(n: nat) -> Seq<char> {
    let d = decimal(n);
    if d.len() < 4 {
        spaces((4 - d.len()) as nat) + d
    } else {
        d
    }
}

/// The line of an error with a mark under its column.
pub open spec fn excerpt(line: Seq<char>, number: nat, col: nat) -> Seq<char> {
    "\n\x1b[34m"@ + right_aligned(number) + " | \x1b[0m"@ + line + "\n\x1b[34m     | \x1b[0m"@
        + spaces(
        if col > 0 {
            (col - 1) as nat
        } else {
            0
        },
    ) + "\x1b[31;1m^\x1b[0m\n"@
}

/// How an error is shown: its message, and the line of the source that it is
/// about, where it is about one.
pub open spec fn report(source: Seq<char>, fault: Fault) -> Seq<char> {
    let head = "\x1b[31;1mError:\x1b[0m "@ + fault.text() + "\n"@;
    let number = fault.loc().line;
    let lines = lines_of(source);
    if 0 < number <= lines.len() {
        head + excerpt(lines[number - 1], number as nat, fault.loc().col as nat)
    } else {
        head
    }
}

/// How an error is shown.
pub fn error_report(source: &str, error: &JitError) -> (res: String)
    ensures
        res@ == report(source@, error@),
{
    let mut s = String::new();
    s.append("\x1b[31;1mError:\x1b[0m ");
    s.append(error.to_text().as_str());
    s.append("\n");
    assert(s@ =~= "\x1b[31;1mError:\x1b[0m "@ + error@.text() + "\n"@);
    let (number, col) = error.location();
    if number == 0 {
        return s;
    }
    let lines = split_lines(source);
    if number > lines.len() {
        return s;
    }
    let ghost head = s@;
    let ghost line = lines_of(source@)[number - 1];
    assert(line == lines@[number - 1]@);
    let mut digits = String::new();
    push_decimal(&mut digits, number);
    assert(digits@ =~= decimal(number as nat));
    let width: usize = chars_of(digits.as_str()).len();
    let mut aligned = String::new();
    if width < 4 {
        push_spaces(&mut aligned, 4 - width);
    }
    aligned.append(digits.as_str());
    assert(aligned@ =~= right_aligned(number as nat));
    s.append("\n\x1b[34m");
    s.append(aligned.as_str());
    s.append(" | \x1b[0m");
    s.append(lines[number - 1].as_str());
    s.append("\n\x1b[34m     | \x1b[0m");
    let padding: usize = if col > 0 {
        col - 1
    } else {
        0
    };
    push_spaces(&mut s, padding);
    s.append("\x1b[31;1m^\x1b[0m\n");
    assert(s@ =~= head + excerpt(line, number as nat, col as nat));
    s
}

/// How often a character occurs.
pub open spec fn occurrences(s: Seq<char>, c: char) -> nat
    decreases s.len(),
{
    if s.len() == 0 {
        0
    } else {
        occurrences(s.drop_last(), c) + (if s.last() == c {
            1nat
        } else {
            0nat
        })
    }
}

fn count(s: &str, c: char) -> (res: usize)
    ensures
        res == occurrences(s@, c),
{
    let cs = chars_of(s);
    let mut n: usize = 0;
    let mut k: usize = 0;
    while k < cs.len()
        invariant
            k <= cs@.len(),
            n <= k,
            n == occurrences(cs@.take(k as int), c),
        decreases cs@.len() - k,
    {
        assert(cs@.take(k + 1).drop_last() =~= cs@.take(k as int));
        if cs[k] == c {
            n = n + 1;
        }
        k = k + 1;
    }
    assert(cs@.take(cs@.len() as int) =~= cs@);
    n
}

/// The text without the given characters at its end.
pub open spec fn without_end(s: Seq<char>, c: char) -> Seq<char>
    decreases s.len(),
{
    if s.len() > 0 && s.last() == c {
        without_end(s.drop_last(), c)
    } else {
        s
    }
}

fn strip_end(s: &str, c: char) -> (res: String)
    ensures
        res@ == without_end(s@, c),
{
    let cs = chars_of(s);
    let mut n: usize = cs.len();
    assert(cs@.subrange(0, n as int) =~= cs@);
    while n > 0 && cs[n - 1] == c
        invariant
            n <= cs@.len(),
            without_end(cs@, c) == without_end(cs@.subrange(0, n as int), c),
        decreases n,
    {
        assert(cs@.subrange(0, n as int).drop_last() =~= cs@.subrange(0, n - 1));
        n = n - 1;
    }
    proof {
        let t = cs@.subrange(0, n as int);
        if n > 0 {
            assert(t.last() == cs@[n - 1]);
        }
    }
    slice_of(&cs, 0, n)
}

/// The lines of an interactive session that do not make a whole yet.
pub struct Session {
    pub buffer: String,
    /// More lines are to come.
    pub continuation: bool,
}

/// What a line of an interactive session leads to.
pub enum Reply {
    /// The session ends.
    Quit,
    /// Another line is read.
    More,
    /// The source is run.
    Eval(String),
}

/// The lines so far with one more.
pub open spec fn with_line(buffer: Seq<char>, line: Seq<char>) -> Seq<char> {
    buffer + without_end(without_end(line, '\n'), '\r') + seq!['\n']
}

impl Session {
    pub fn new() -> (res: Self)
        ensures
            res.buffer@ == Seq::<char>::empty(),
            !res.continuation,
    {
        Session { buffer: String::new(), continuation: false }
    }

    /// The prompt for the next line.
    pub fn prompt(&self) -> (res: &'static str)
        ensures
            res@ == (if self.continuation {
                "\x1b[1;32m... \x1b[0m"@
            } else {
                "\x1b[1;32m>>> \x1b[0m"@
            }),
    {
        if self.continuation {
            "\x1b[1;32m... \x1b[0m"
        } else {
            "\x1b[1;32m>>> \x1b[0m"
        }
    }

    /// Takes one more line. A whole is run once all its braces are closed.
    pub fn feed(&mut self, line: &str) -> (res: Reply)
        ensures
            ({
                let t = without_end(without_end(line@, '\n'), '\r');
                let b = with_line(old(self).buffer@, line@);
                if !old(self).continuation && (t == "exit"@ || t == "quit"@) {
                    res is Quit && *final(self) == *old(self)
                } else if occurrences(b, '{') > occurrences(b, '}') {
                    res is More && final(self).continuation && final(self).buffer@ == b
                } else {
                    &&& !final(self).continuation
                    &&& final(self).buffer@ == Seq::<char>::empty()
                    &&& if trimmed(b).len() == 0 {
                        res is More
                    } else {
                        res matches Reply::Eval(s) && s@ == trimmed(b)
                    }
                }
            }),
    {
        let cut = strip_end(line, '\n');
        let t = strip_end(cut.as_str(), '\r');
        if !self.continuation && (same_text(t.as_str(), "exit") || same_text(t.as_str(), "quit")) {
            return Reply::Quit;
        }
        let ghost before = self.buffer@;
        self.buffer.append(t.as_str());
        self.buffer.push('\n');
        assert(self.buffer@ =~= with_line(before, line@));
        let opens: usize = count(self.buffer.as_str(), '{');
        let closes: usize = count(self.buffer.as_str(), '}');
        self.continuation = opens > closes;
        if self.continuation {
            return Reply::More;
        }
        let source = trim_text(self.buffer.as_str());
        self.buffer = String::new();
        if chars_of(source.as_str()).len() == 0 {
            Reply::More
        } else {
            Reply::Eval(source)
        }
    }

    /// Drops the lines so far.
    pub fn interrupt(&mut self)
        ensures
            final(self).buffer@ == Seq::<char>::empty(),
            !final(self).continuation,
    {
        self.buffer = String::new();
        self.continuation = false;
    }
}

/// Occurrences add up: of two texts together there are as many as of both, and a
/// character occurs once in itself.
pub proof fn law_occurrences_add_up(a: Seq<char>, b: Seq<char>, c: char, d: char)
    ensures
        occurrences(a + b, c) == occurrences(a, c) + occurrences(b, c),
        occurrences(Seq::empty(), c) == 0,
        occurrences(seq![d], c) == (if d == c {
            1nat
        } else {
            0nat
        }),
    decreases b.len(),
{
    let one = seq![d];
    assert(one.drop_last() =~= Seq::<char>::empty());
    assert(occurrences(one.drop_last(), c) == 0);
    if b.len() == 0 {
        assert(a + b =~= a);
    } else {
        law_occurrences_add_up(a, b.drop_last(), c, d);
        assert((a + b).drop_last() =~= a + b.drop_last());
    }
}

/// Only the characters at the end go, and all of them.
pub proof fn law_only_the_end_is_taken_away(s: Seq<char>, c: char) -> (end: Seq<char>)
    ensures
        s == without_end(s, c) + end,
        forall|k: int| 0 <= k < end.len() ==> #[trigger] end[k] == c,
        without_end(s, c).len() > 0 ==> without_end(s, c).last() != c,
    decreases s.len(),
{
    if s.len() > 0 && s.last() == c {
        let end = law_only_the_end_is_taken_away(s.drop_last(), c);
        assert(s =~= without_end(s, c) + end.push(c)) by {
            assert(s =~= s.drop_last().push(c));
        }
        end.push(c)
    } else {
        assert(s =~= s + Seq::<char>::empty());
        Seq::empty()
    }
}

/// An error is shown with its message. Where it is about a line of the source, that
/// line follows with its number, and below it a mark stands as many blanks further
/// in as the column says.
pub proof fn law_errors_are_shown_with_their_line(source: Seq<char>, fault: Fault)
    ensures
        ({
            let n = fault.loc().line as int;
            let col = fault.loc().col as int;
            let lines = lines_of(source);
            let head = "\x1b[31;1mError:\x1b[0m "@ + fault.text() + "\n"@;
            let blanks = spaces(
                (if col > 0 {
                    col - 1
                } else {
                    0
                }) as nat,
            );
            if 1 <= n <= lines.len() {
                report(source, fault) == head + ("\n\x1b[34m"@ + right_aligned(n as nat)
                    + " | \x1b[0m"@ + lines[n - 1] + "\n\x1b[34m     | \x1b[0m"@ + blanks
                    + "\x1b[31;1m^\x1b[0m\n"@)
            } else {
                report(source, fault) == head
            }
        }),
        forall|k: nat|
            decimal(k).len() <= 4 ==> #[trigger] right_aligned(k).len() == 4,
        forall|k: nat| decimal(k).len() > 4 ==> #[trigger] right_aligned(k) == decimal(k),
        forall|k: nat| #[trigger]
            right_aligned(k).len() >= 4 && right_aligned(k).subrange(
                right_aligned(k).len() - decimal(k).len(),
                right_aligned(k).len() as int,
            ) == decimal(k),
        forall|k: nat| #[trigger] spaces(k).len() == k,
        forall|k: nat, i: int| 0 <= i < k ==> #[trigger] spaces(k)[i] == ' ',
{
    assert forall|k: nat| #[trigger]
        right_aligned(k).len() >= 4 && right_aligned(k).subrange(
            right_aligned(k).len() - decimal(k).len(),
            right_aligned(k).len() as int,
        ) == decimal(k) by {
        let d = decimal(k);
        let r = right_aligned(k);
        assert(r.subrange(r.len() - d.len(), r.len() as int) =~= d);
    }
}

/// A line joins those before it, whatever ends it: a line break, a carriage return
/// and a line break, or nothing. It ends with one line break then.
pub proof fn law_lines_are_joined(buffer: Seq<char>, line: Seq<char>)
    requires
        line.len() > 0 ==> line.last() != '\n' && line.last() != '\r',
    ensures
        with_line(buffer, line) == buffer + line + seq!['\n'],
        with_line(buffer, line + seq!['\n']) == buffer + line + seq!['\n'],
        with_line(buffer, line + seq!['\r', '\n']) == buffer + line + seq!['\n'],
{
    reveal_with_fuel(without_end, 2);
    assert((line + seq!['\n']).drop_last() =~= line);
    assert((line + seq!['\r', '\n']).drop_last() =~= line + seq!['\r']);
    assert((line + seq!['\r']).drop_last() =~= line);
    assert((line + seq!['\r']).last() == '\r');
    assert((line + seq!['\n']).last() == '\n');
    assert((line + seq!['\r', '\n']).last() == '\n');
    assert(without_end(line, '\n') == line && without_end(line, '\r') == line);
    assert(without_end(line + seq!['\n'], '\n') == line);
    assert(without_end(line + seq!['\r'], '\n') == line + seq!['\r']);
    assert(without_end(line + seq!['\r'], '\r') == line);
    assert(without_end(line + seq!['\r', '\n'], '\n') == line + seq!['\r']);
}

} // verus!
