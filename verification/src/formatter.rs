//! The source formatter: one way to set blanks around the tokens.
use crate::error::ErrorLoc;
use crate::error::Fault;
use crate::error::JitError;
use crate::lexer::lex;
use crate::lexer::lexed;
use crate::lexer::lexeme_views;
use crate::lexer::LexemeView;
use crate::lexer::Token;
use crate::text::chars_of;
use vstd::prelude::*;

verus! {

/// The state of the formatter between two tokens.
pub struct Layout {
    pub out: Seq<char>,
    /// How many braces are open.
    pub indent: nat,
    /// Nothing has been written on the line.
    pub at_start: bool,
    /// A blank is due before most tokens.
    pub need_space: bool,
}

/// A text of blanks.
pub open spec fn blanks(n: nat) -> Seq<char> {
    Seq::new(n, |k: int| ' ')
}

/// Tokens that take no blank before them.
pub open spec fn hugs_left(t: Token) -> bool {
    t == Token::Comma || t == Token::Colon || t == Token::LParen || t == Token::RParen || t
        == Token::LBracket || t == Token::RBracket || t == Token::Not || t == Token::Dot
}

/// Tokens after which no blank is due.
pub open spec fn hugs_right(t: Token) -> bool {
    t == Token::LParen || t == Token::LBracket || t == Token::Dot || t == Token::Range || t
        == Token::Not || is_operator(t)
}

/// Binary operators, which have a blank on both sides.
pub open spec fn is_operator(t: Token) -> bool {
    t == Token::Plus || t == Token::Minus || t == Token::Mul || t == Token::Div || t == Token::Eq
        || t == Token::Ne || t == Token::Lt || t == Token::Le || t == Token::Gt || t == Token::Ge
}

/// The text of a token in the formatted source.
pub open spec fn written(t: Token, text: Seq<char>) -> Seq<char> {
    match t {
        Token::Newline => seq!['\n'],
        Token::LBrace => seq!['{'],
        Token::RBrace => seq!['}'],
        Token::LParen => seq!['('],
        Token::RParen => seq![')'],
        Token::LBracket => seq!['['],
        Token::RBracket => seq![']'],
        Token::Dot => seq!['.'],
        Token::Comma => seq![','],
        Token::Colon => seq![':'],
        Token::Not => seq!['!'],
        Token::Range => seq!['.', '.'],
        Token::String => seq!['"'] + text + seq!['"'],
        Token::Template => seq!['`'] + text + seq!['`'],
        _ => text,
    }
}

pub open spec fn ends_in(s: Seq<char>, c: char) -> bool {
    s.len() > 0 && s.last() == c
}

/// What stands before a token: the indentation, or a blank where one is due.
pub open spec fn lead(f: Layout, t: Token) -> Seq<char> {
    let indent: nat = if t == Token::RBrace && f.indent > 0 {
        (f.indent - 1) as nat
    } else {
        f.indent
    };
    let due: Seq<char> = if f.at_start {
        blanks(4 * indent)
    } else if f.need_space && !hugs_left(t) {
        blanks(1)
    } else {
        Seq::empty()
    };
    let so_far = f.out + due;
    if is_operator(t) && !ends_in(so_far, ' ') {
        due + blanks(1)
    } else if t == Token::LineComment && !ends_in(so_far, ' ') && !ends_in(so_far, '\n') {
        due + blanks(1)
    } else {
        due
    }
}

/// The layout after one more token.
pub open spec fn place(f: Layout, t: Token, text: Seq<char>) -> Layout {
    if t == Token::Newline {
        Layout { out: f.out.push('\n'), indent: f.indent, at_start: true, need_space: false }
    } else {
        Layout {
            out: f.out + lead(f, t) + written(t, text) + (if is_operator(t) {
                blanks(1)
            } else {
                Seq::empty()
            }),
            indent: if t == Token::LBrace {
                f.indent + 1
            } else if t == Token::RBrace && f.indent > 0 {
                (f.indent - 1) as nat
            } else {
                f.indent
            },
            at_start: false,
            need_space: if t == Token::LineComment {
                f.need_space && !f.at_start
            } else {
                !hugs_right(t)
            },
        }
    }
}

/// The text after the tokens from index `k` on, or the first error among them.
pub open spec fn laid_out(ls: Seq<LexemeView>, k: int, f: Layout) -> Result<Seq<char>, Fault>
    decreases ls.len() - k,
{
    if k < 0 || k >= ls.len() {
        Ok(f.out)
    } else {
        match ls[k].token {
            Err(err) => Err(Fault::Lexing { err, loc: ErrorLoc { line: 0, col: 0 } }),
            Ok(t) => laid_out(ls, k + 1, place(f, t, ls[k].text)),
        }
    }
}

pub open spec fn empty_layout() -> Layout {
    Layout { out: Seq::empty(), indent: 0, at_start: true, need_space: false }
}

/// The formatted source, or the error of the first text that is no token.
pub open spec fn formatted(source: Seq<char>) -> Result<Seq<char>, Fault> {
    laid_out(lexed(source), 0, empty_layout())
}

struct Writer {
    text: String,
    last: Option<char>,
}

impl Writer {
    spec fn wf(&self) -> bool {
        self.last == (if self.text@.len() > 0 {
            Some(self.text@.last())
        } else {
            None
        })
    }

    fn push(&mut self, c: char)
        ensures
            final(self).wf(),
            final(self).text@ == old(self).text@.push(c),
    {
        self.text.push(c);
        self.last = Some(c);
    }

    fn push_text(&mut self, s: &str)
        requires
            old(self).wf(),
        ensures
            final(self).wf(),
            final(self).text@ == old(self).text@ + s@,
    {
        let cs = chars_of(s);
        let n: usize = cs.len();
        self.text.append(s);
        if n > 0 {
            self.last = Some(cs[n - 1]);
        }
        assert(n == 0 ==> self.text@ =~= old(self).text@);
    }

    fn push_blanks(&mut self, n: usize)
        requires
            old(self).wf(),
        ensures
            final(self).wf(),
            final(self).text@ == old(self).text@ + blanks(4 * n as nat),
    {
        let ghost before = self.text@;
        let mut k: usize = 0;
        assert(before + blanks(0) =~= before);
        while k < n
            invariant
                k <= n,
                self.wf(),
                self.text@ == before + blanks(4 * k as nat),
            decreases n - k,
        {
            self.push(' ');
            self.push(' ');
            self.push(' ');
            self.push(' ');
            k = k + 1;
            assert(self.text@ =~= before + blanks(4 * k as nat));
        }
    }

    fn ends_in(&self, c: char) -> (res: bool)
        requires
            self.wf(),
        ensures
            res == ends_in(self.text@, c),
    {
        match self.last {
            Some(d) => d == c,
            None => false,
        }
    }
}

fn operator(t: Token) -> (res: bool)
    ensures
        res == is_operator(t),
{
    t == Token::Plus || t == Token::Minus || t == Token::Mul || t == Token::Div || t == Token::Eq
        || t == Token::Ne || t == Token::Lt || t == Token::Le || t == Token::Gt || t == Token::Ge
}

/// Writes a token itself.
fn write_token(w: &mut Writer, t: Token, text: &str)
    requires
        old(w).wf(),
    ensures
        final(w).wf(),
        final(w).text@ == old(w).text@ + written(t, text@),
{
    let ghost before = w.text@;
    match t {
        Token::Newline => w.push('\n'),
        Token::LBrace => w.push('{'),
        Token::RBrace => w.push('}'),
        Token::LParen => w.push('('),
        Token::RParen => w.push(')'),
        Token::LBracket => w.push('['),
        Token::RBracket => w.push(']'),
        Token::Dot => w.push('.'),
        Token::Comma => w.push(','),
        Token::Colon => w.push(':'),
        Token::Not => w.push('!'),
        Token::Range => {
            w.push('.');
            w.push('.');
        },
        Token::String => {
            w.push('"');
            w.push_text(text);
            w.push('"');
        },
        Token::Template => {
            w.push('`');
            w.push_text(text);
            w.push('`');
        },
        _ => w.push_text(text),
    }
    assert(w.text@ =~= before + written(t, text@));
}

/// Formats a source text.
pub fn format_source(source: &str) -> (res: Result<String, JitError>)
    ensures
        match res {
            Ok(s) => formatted(source@) == Ok::<Seq<char>, Fault>(s@),
            Err(e) => formatted(source@) == Err::<Seq<char>, Fault>(e@),
        },
{
    let ls = lex(source);
    let ghost views = lexeme_views(ls@);
    let mut w = Writer { text: String::new(), last: None };
    let mut indent: usize = 0;
    let mut at_start = true;
    let mut need_space = false;
    let mut k: usize = 0;
    assert(w.text@ =~= empty_layout().out);
    while k < ls.len()
        invariant
            k <= ls@.len(),
            indent <= k,
            w.wf(),
            views == lexeme_views(ls@),
            views == lexed(source@),
            laid_out(
                views,
                k as int,
                Layout { out: w.text@, indent: indent as nat, at_start, need_space },
            ) == formatted(source@),
        decreases ls@.len() - k,
    {
        let ghost f = Layout { out: w.text@, indent: indent as nat, at_start, need_space };
        assert(views[k as int] == ls@[k as int]@);
        let t = match &ls[k].token {
            Ok(t) => *t,
            Err(e) => {
                return Err(JitError::Lexing { err: e.clone(), loc: ErrorLoc::new(0, 0) });
            },
        };
        let text = ls[k].text.as_str();
        if t == Token::Newline {
            w.push('\n');
            at_start = true;
            need_space = false;
        } else {
            if t == Token::RBrace && indent > 0 {
                indent = indent - 1;
            }
            let hugs = t == Token::Comma || t == Token::Colon || t == Token::LParen || t
                == Token::RParen || t == Token::LBracket || t == Token::RBracket || t == Token::Not
                || t == Token::Dot;
            let ghost due: Seq<char> = if f.at_start {
                blanks(4 * indent as nat)
            } else if f.need_space && !hugs_left(t) {
                blanks(1)
            } else {
                Seq::empty()
            };
            if at_start {
                w.push_blanks(indent);
            } else if need_space && !hugs {
                w.push(' ');
            }
            assert(w.text@ =~= f.out + due);
            let op = operator(t);
            if op {
                if !w.ends_in(' ') {
                    w.push(' ');
                }
            } else if t == Token::LineComment {
                if !w.ends_in(' ') && !w.ends_in('\n') {
                    w.push(' ');
                }
            }
            assert(w.text@ =~= f.out + lead(f, t));
            write_token(&mut w, t, text);
            if op {
                w.push(' ');
            }
            assert(w.text@ =~= place(f, t, text@).out);
            if t == Token::LBrace {
                indent = indent + 1;
            }
            if t == Token::LineComment {
                need_space = need_space && !at_start;
            } else {
                need_space = !(op || t == Token::LParen || t == Token::LBracket || t == Token::Dot
                    || t == Token::Range || t == Token::Not);
            }
            at_start = false;
        }
        k = k + 1;
    }
    Ok(w.text)
}

/// A text made of the given parts in their order, with nothing but blanks
/// between them and around them.
pub open spec fn woven(out: Seq<char>, parts: Seq<Seq<char>>) -> bool
    decreases parts.len(),
{
    if parts.len() == 0 {
        out == blanks(out.len())
    } else {
        exists|from: int, to: int| #[trigger]
            stands_last(out, parts.last(), from, to) && woven(out.take(from), parts.drop_last())
    }
}

/// The part stands between `from` and `to`, and only blanks follow it.
pub open spec fn stands_last(out: Seq<char>, part: Seq<char>, from: int, to: int) -> bool {
    &&& 0 <= from <= to <= out.len()
    &&& out.subrange(from, to) == part
    &&& out.skip(to) == blanks((out.len() - to) as nat)
}

proof fn lemma_woven_blanks(out: Seq<char>, parts: Seq<Seq<char>>, n: nat)
    requires
        woven(out, parts),
    ensures
        woven(out + blanks(n), parts),
{
    let longer = out + blanks(n);
    if parts.len() == 0 {
        assert(longer =~= blanks(longer.len()));
    } else {
        let (from, to) = choose|from: int, to: int| #[trigger]
            stands_last(out, parts.last(), from, to) && woven(out.take(from), parts.drop_last());
        assert(longer.subrange(from, to) =~= out.subrange(from, to));
        assert(longer.skip(to) =~= out.skip(to) + blanks(n));
        assert(longer.skip(to) =~= blanks((longer.len() - to) as nat));
        assert(longer.take(from) =~= out.take(from));
        assert(stands_last(longer, parts.last(), from, to));
    }
}

proof fn lemma_woven_part(out: Seq<char>, parts: Seq<Seq<char>>, part: Seq<char>)
    requires
        woven(out, parts),
    ensures
        woven(out + part, parts.push(part)),
{
    let longer = out + part;
    let more = parts.push(part);
    let from = out.len() as int;
    let to = longer.len() as int;
    assert(longer.subrange(from, to) =~= part);
    assert(longer.skip(to) =~= blanks(0));
    assert(longer.take(from) =~= out);
    assert(more.drop_last() =~= parts);
    assert(stands_last(longer, more.last(), from, to));
}

/// The texts of the first `k` tokens as they are written.
pub open spec fn parts_of(ls: Seq<LexemeView>, k: nat) -> Seq<Seq<char>>
    decreases k,
{
    if k == 0 {
        Seq::empty()
    } else {
        parts_of(ls, (k - 1) as nat).push(
            match ls[k - 1].token {
                Ok(t) => written(t, ls[k - 1].text),
                Err(_) => ls[k - 1].text,
            },
        )
    }
}

proof fn lemma_laid_out(ls: Seq<LexemeView>, k: int, f: Layout)
    requires
        0 <= k <= ls.len(),
        woven(f.out, parts_of(ls, k as nat)),
    ensures
        laid_out(ls, k, f) matches Ok(s) ==> woven(s, parts_of(ls, ls.len())),
    decreases ls.len() - k,
{
    if k < ls.len() {
        if let Ok(t) = ls[k].token {
            let text = ls[k].text;
            let g = place(f, t, text);
            let parts = parts_of(ls, k as nat);
            let part = written(t, text);
            assert(parts_of(ls, (k + 1) as nat) == parts.push(part));
            if t == Token::Newline {
                lemma_woven_part(f.out, parts, part);
                assert(g.out =~= f.out + part);
            } else {
                let n = lead(f, t).len();
                assert(lead(f, t) =~= blanks(n));
                lemma_woven_blanks(f.out, parts, n);
                lemma_woven_part(f.out + blanks(n), parts, part);
                let m: nat = if is_operator(t) {
                    1
                } else {
                    0
                };
                lemma_woven_blanks(f.out + blanks(n) + part, parts.push(part), m);
                assert(g.out =~= f.out + blanks(n) + part + blanks(m));
            }
            lemma_laid_out(ls, k + 1, g);
        }
    }
}

/// Formatting changes nothing but blanks: the result is made of the tokens of
/// the source in their order, each as it is written, with only blanks between
/// them.
pub proof fn law_formatting_keeps_tokens(source: Seq<char>)
    ensures
        formatted(source) matches Ok(s) ==> woven(
            s,
            parts_of(lexed(source), lexed(source).len()),
        ),
{
    assert(empty_layout().out =~= blanks(0));
    assert(woven(empty_layout().out, parts_of(lexed(source), 0)));
    lemma_laid_out(lexed(source), 0, empty_layout());
}

/// Formatting succeeds exactly where every part of the source is a token.
pub proof fn law_formatting_succeeds(source: Seq<char>)
    ensures
        formatted(source) is Ok <==> (forall|k: int|
            0 <= k < lexed(source).len() ==> (#[trigger] lexed(source)[k]).token is Ok),
{
    lemma_succeeds(lexed(source), 0, empty_layout());
}

proof fn lemma_succeeds(ls: Seq<LexemeView>, k: int, f: Layout)
    requires
        0 <= k <= ls.len(),
    ensures
        laid_out(ls, k, f) is Ok <==> (forall|j: int|
            k <= j < ls.len() ==> (#[trigger] ls[j]).token is Ok),
    decreases ls.len() - k,
{
    if k < ls.len() {
        if let Ok(t) = ls[k].token {
            lemma_succeeds(ls, k + 1, place(f, t, ls[k].text));
        }
    }
}

/// A line begins with four blanks for each brace that is open before it; a brace
/// that closes one does not count it.
pub proof fn law_lines_are_indented(f: Layout, t: Token, text: Seq<char>)
    requires
        f.at_start,
        t != Token::Newline,
        !is_operator(t),
        t == Token::LineComment ==> f.out.len() == 0 || f.out.last() == '\n',
        t == Token::LineComment ==> f.out.len() > 0 || f.indent > 0,
    ensures
        ({
            let depth: nat = if t == Token::RBrace && f.indent > 0 {
                (f.indent - 1) as nat
            } else {
                f.indent
            };
            place(f, t, text).out == f.out + Seq::new(4 * depth, |k: int| ' ') + written(t, text)
        }),
{
    let depth: nat = if t == Token::RBrace && f.indent > 0 {
        (f.indent - 1) as nat
    } else {
        f.indent
    };
    let due = Seq::new(4 * depth, |k: int| ' ');
    assert(blanks(4 * depth) =~= due);
    let so_far = f.out + due;
    if t == Token::LineComment {
        if depth > 0 {
            assert(so_far.last() == ' ');
        } else {
            assert(so_far =~= f.out);
        }
    }
    assert(lead(f, t) =~= due);
    assert(place(f, t, text).out =~= f.out + due + written(t, text));
}

/// Braces are counted: one that opens is open from then on, one that closes is
/// not, and nothing else changes how many are open. A line break ends the line, and
/// anything else is on it.
pub proof fn law_open_braces_are_counted(f: Layout, t: Token, text: Seq<char>)
    ensures
        t == Token::LBrace ==> place(f, t, text).indent == f.indent + 1,
        t == Token::RBrace && f.indent > 0 ==> place(f, t, text).indent == f.indent - 1,
        t == Token::RBrace && f.indent == 0 ==> place(f, t, text).indent == 0,
        t != Token::LBrace && t != Token::RBrace ==> place(f, t, text).indent == f.indent,
        place(f, t, text).at_start <==> t == Token::Newline,
        t == Token::Newline ==> place(f, t, text).out == f.out.push('\n'),
{
}

/// A binary operator has a blank before it and one behind it, and no second one on
/// either side.
pub proof fn law_operators_have_blanks_around_them(f: Layout, t: Token, text: Seq<char>)
    requires
        !f.at_start,
        t == Token::Plus || t == Token::Minus || t == Token::Mul || t == Token::Div || t
            == Token::Eq || t == Token::Ne || t == Token::Lt || t == Token::Le || t == Token::Gt
            || t == Token::Ge,
    ensures
        f.need_space || f.out.len() == 0 || f.out.last() != ' ' ==> place(f, t, text).out == f.out
            + seq![' '] + text + seq![' '],
        !f.need_space && f.out.len() > 0 && f.out.last() == ' ' ==> place(f, t, text).out == f.out
            + text + seq![' '],
        !place(f, t, text).need_space,
{
    assert(blanks(1) =~= seq![' ']);
    assert(Seq::<char>::empty() + blanks(1) =~= seq![' ']);
    assert(f.out + Seq::<char>::empty() =~= f.out);
    assert((f.out + seq![' ']).last() == ' ');
}

/// Two tokens on a line that are no operators have one blank between them, unless
/// the first takes none behind it or the second none before it.
pub proof fn law_tokens_are_one_blank_apart(
    f: Layout,
    a: Token,
    b: Token,
    first: Seq<char>,
    second: Seq<char>,
)
    requires
        a != Token::Newline && b != Token::Newline,
        a != Token::LineComment && b != Token::LineComment,
        !is_operator(a) && !is_operator(b),
    ensures
        ({
            let after = place(f, a, first);
            let open = a == Token::LParen || a == Token::LBracket || a == Token::Dot || a
                == Token::Range || a == Token::Not;
            let close = b == Token::Comma || b == Token::Colon || b == Token::LParen || b
                == Token::RParen || b == Token::LBracket || b == Token::RBracket || b == Token::Not
                || b == Token::Dot;
            place(after, b, second).out == (if open || close {
                after.out + written(b, second)
            } else {
                after.out + seq![' '] + written(b, second)
            })
        }),
{
    let after = place(f, a, first);
    assert(blanks(1) =~= seq![' ']);
    assert(after.out + Seq::<char>::empty() =~= after.out);
    assert(place(after, b, second).out =~= after.out + lead(after, b) + written(b, second));
}

/// A comment behind other tokens has a blank before it.
pub proof fn law_comments_have_a_blank_before_them(f: Layout, text: Seq<char>)
    requires
        !f.at_start,
        f.out.len() > 0,
        f.out.last() != ' ' && f.out.last() != '\n',
    ensures
        place(f, Token::LineComment, text).out == f.out + seq![' '] + text,
{
    assert(blanks(1) =~= seq![' ']);
    assert(f.out + Seq::<char>::empty() =~= f.out);
    assert((f.out + seq![' ']).last() == ' ');
}

/// A token is written as it was read: a sign as its characters, a text between its
/// quotes, and all else as it stands.
pub proof fn law_tokens_are_written_as_they_were_read(t: Token, text: Seq<char>)
    ensures
        t == Token::String ==> written(t, text) == seq!['"'] + text + seq!['"'],
        t == Token::Template ==> written(t, text) == seq!['`'] + text + seq!['`'],
        t == Token::LBrace ==> written(t, text) == seq!['{'],
        t == Token::RBrace ==> written(t, text) == seq!['}'],
        t == Token::LParen ==> written(t, text) == seq!['('],
        t == Token::RParen ==> written(t, text) == seq![')'],
        t == Token::LBracket ==> written(t, text) == seq!['['],
        t == Token::RBracket ==> written(t, text) == seq![']'],
        t == Token::Dot ==> written(t, text) == seq!['.'],
        t == Token::Comma ==> written(t, text) == seq![','],
        t == Token::Colon ==> written(t, text) == seq![':'],
        t == Token::Not ==> written(t, text) == seq!['!'],
        t == Token::Range ==> written(t, text) == seq!['.', '.'],
        t == Token::Identifier || t == Token::Number || t == Token::LineComment || t is Bool || t
            == Token::Fn || t == Token::If || t == Token::Else || t == Token::For || t
            == Token::While || t == Token::In || t == Token::Return || t == Token::Spawn || t
            == Token::Continue || t == Token::MutableVar || t == Token::ImmutableVar ==> written(
            t,
            text,
        ) == text,
{
}

/// The tokens are laid out from the first to the last, each after those before it,
/// on an empty line at first. The first text that is no token is the error.
pub proof fn law_tokens_are_laid_out_in_order(ls: Seq<LexemeView>, k: int, f: Layout)
    requires
        0 <= k <= ls.len(),
    ensures
        k == ls.len() ==> laid_out(ls, k, f) == Ok::<Seq<char>, Fault>(f.out),
        k < ls.len() ==> (ls[k].token matches Ok(t) ==> laid_out(ls, k, f) == laid_out(
            ls,
            k + 1,
            place(f, t, ls[k].text),
        )),
        k < ls.len() ==> (ls[k].token matches Err(err) ==> laid_out(ls, k, f) == Err::<
            Seq<char>,
            Fault,
        >(Fault::Lexing { err, loc: ErrorLoc { line: 0, col: 0 } })),
        empty_layout().out.len() == 0 && empty_layout().indent == 0 && empty_layout().at_start,
{
}

} // verus!
