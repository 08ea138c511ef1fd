//! What each construct of the language compiles to.
//!
//! The functions here describe the compiler as steps on a state: the tokens
//! that are left, the names that are known and the code so far.
use crate::compiler::FunctionView;
use crate::compiler::Instruction;
use crate::compiler::Loc;
use crate::compiler::Op;
use crate::compiler::ProgramView;
use crate::error::ErrorLoc;
use crate::error::Fault;
use crate::escape::unescaped;
use crate::lexer::float_fault;
use crate::lexer::LexFault;
use crate::lexer::LexemeView;
use crate::lexer::Token;
use crate::number::bits_of_count;
use crate::number::ONE;
use crate::tables::listing;
use crate::tables::place_of;
use crate::tables::with_text;
use crate::text::quoted;
use crate::value::bool_value;
use crate::value::object_value;
use crate::value::text_value;
use crate::value::Value;
use vstd::prelude::*;
use vstd::utf8::encode_utf8;

verus! {

/// What is known of a variable.
#[derive(Debug, Clone, Copy, PartialEq, Eq, Structural)]
pub struct VarInfo {
    /// The register or the global that holds it.
    pub idx: usize,
    pub is_mut: bool,
    pub is_global: bool,
    /// The line on which its declaration came to its end.
    pub first_line: usize,
}

/// A step from a variable to a part of what it holds.
#[derive(Debug, Clone, Copy, PartialEq, Eq, Structural)]
pub enum Accessor {
    /// The element whose index is in the register.
    Index(usize),
    /// The field with the name.
    Field(u32),
}

/// The value of a number literal, and how it is shown in messages.
pub struct NumberView {
    pub bits: u64,
    pub debug: Seq<char>,
}

/// A token with all that the compiler needs to know of it.
pub struct Item {
    pub token: Result<Token, LexFault>,
    pub text: Seq<char>,
    /// The value of a number.
    pub number: NumberView,
    pub start: usize,
    pub end: usize,
}

/// How many number literals there are among the first `n` lexemes.
pub open spec fn numbers_before(ls: Seq<LexemeView>, n: nat) -> nat
    decreases n,
{
    if n == 0 {
        0
    } else if ls[n - 1].token == Ok::<Token, LexFault>(Token::Number) {
        numbers_before(ls, (n - 1) as nat) + 1
    } else {
        numbers_before(ls, (n - 1) as nat)
    }
}

/// The lexeme at an index, with its number where it is one. A literal for which
/// there is no number does not parse.
pub open spec fn item_at(ls: Seq<LexemeView>, numbers: Seq<NumberView>, k: int) -> Item {
    let n = numbers_before(ls, k as nat);
    let l = ls[k];
    if l.token == Ok::<Token, LexFault>(Token::Number) && n < numbers.len() {
        Item {
            token: l.token,
            text: l.text,
            number: numbers[n as int],
            start: l.start as usize,
            end: l.end as usize,
        }
    } else {
        Item {
            token: if l.token == Ok::<Token, LexFault>(Token::Number) {
                Err(float_fault())
            } else {
                l.token
            },
            text: l.text,
            number: NumberView { bits: 0, debug: Seq::empty() },
            start: l.start as usize,
            end: l.end as usize,
        }
    }
}

/// The lexemes with their numbers.
pub open spec fn items_of(ls: Seq<LexemeView>, numbers: Seq<NumberView>) -> Seq<Item> {
    Seq::new(ls.len(), |k: int| item_at(ls, numbers, k))
}

/// The state of the compiler.
pub struct St {
    pub items: Seq<Item>,
    /// How many bytes the source has.
    pub src_len: usize,
    /// The first item that has not been looked at.
    pub next: usize,
    /// The end of the source has been seen.
    pub ended: bool,
    /// The next three tokens.
    pub w0: Option<usize>,
    pub w1: Option<usize>,
    pub w2: Option<usize>,
    pub line: usize,
    /// The first byte of the line.
    pub line_start: usize,
    pub globals: Map<Seq<char>, VarInfo>,
    pub locals: Map<Seq<char>, VarInfo>,
    pub strings: Seq<Seq<char>>,
    pub functions: Seq<FunctionView>,
    pub next_reg: usize,
    pub next_global: usize,
    pub in_spawn: bool,
    pub in_fn: bool,
    /// For each open `spawn`, the outer registers that it uses.
    pub captures: Seq<Set<usize>>,
    /// For each open `spawn`, the first register of its own.
    pub starts: Seq<usize>,
    pub code: Seq<Op>,
}

pub open spec fn succ(n: usize) -> usize {
    if n == usize::MAX {
        0
    } else {
        (n + 1) as usize
    }
}

pub open spec fn slot(w: Option<usize>) -> nat {
    if w is Some {
        1
    } else {
        0
    }
}

impl St {
    /// How many tokens are left.
    pub open spec fn left(self) -> nat {
        let unseen: nat = if self.next < self.items.len() {
            (self.items.len() - self.next) as nat
        } else {
            0
        };
        unseen + slot(self.w0) + slot(self.w1) + slot(self.w2)
    }

    pub open spec fn token(self, w: Option<usize>) -> Option<Token> {
        match w {
            Some(i) => match self.items[i as int].token {
                Ok(t) => Some(t),
                Err(_) => None,
            },
            None => None,
        }
    }

    pub open spec fn peek(self) -> Option<Token> {
        self.token(self.w0)
    }

    pub open spec fn text(self, i: usize) -> Seq<char> {
        self.items[i as int].text
    }

    /// The item behind a window slot is the name `id`.
    pub open spec fn is_name(self, w: Option<usize>, id: Seq<char>) -> bool {
        self.token(w) == Some(Token::Identifier) && self.text(w->0) == id
    }

    /// The item behind a window slot is the number one.
    pub open spec fn is_one(self, w: Option<usize>) -> bool {
        self.token(w) == Some(Token::Number) && self.items[w->0 as int].number.bits == ONE
    }

    /// Where the lexer stands.
    pub open spec fn scan_start(self) -> usize {
        if self.ended {
            self.src_len
        } else if self.next == 0 {
            0
        } else {
            self.items[self.next - 1].start
        }
    }

    /// The column of a byte in the current line.
    pub open spec fn col_of(self, start: usize) -> usize {
        succ(
            if start >= self.line_start {
                (start - self.line_start) as usize
            } else {
                0
            },
        )
    }

    /// The place of the next token.
    pub open spec fn loc(self) -> Loc {
        let start = match self.w0 {
            Some(i) => self.items[i as int].start,
            None => self.scan_start(),
        };
        Loc { line: self.line as u32, col: self.col_of(start) as u32 }
    }

    pub open spec fn here(self) -> ErrorLoc {
        ErrorLoc { line: self.line, col: self.loc().col as usize }
    }

    pub open spec fn fault(self, msg: Seq<char>) -> Fault {
        Fault::Parsing { msg, loc: ErrorLoc { line: self.line, col: 0 } }
    }

    pub open spec fn fresh(self) -> St {
        St { next_reg: succ(self.next_reg), ..self }
    }

    pub open spec fn emit(self, op: Op) -> St {
        St { code: self.code.push(op), ..self }
    }

    pub open spec fn plain(self, i: Instruction) -> St {
        self.emit(Op::Plain(i))
    }

    pub open spec fn patch(self, k: int, i: Instruction) -> St {
        St { code: self.code.update(k, Op::Plain(i)), ..self }
    }

    pub open spec fn intern(self, s: Seq<char>) -> St {
        St { strings: with_text(self.strings, s), ..self }
    }

    /// The id of a text that has been interned.
    pub open spec fn id_of(self, s: Seq<char>) -> u32 {
        place_of(self.strings, s) as usize as u32
    }

    pub open spec fn get_var(self, id: Seq<char>) -> Option<VarInfo> {
        if self.locals.contains_key(id) {
            Some(self.locals[id])
        } else if self.globals.contains_key(id) {
            Some(self.globals[id])
        } else {
            None
        }
    }

    /// A register of an outer scope is used: the spawns for which it is outer
    /// capture it, from the innermost out to the first that has it itself.
    pub open spec fn track(self, reg: usize) -> St {
        St {
            captures: Seq::new(
                self.captures.len(),
                |i: int|
                    if outer_to(self.starts, i, reg) {
                        self.captures[i].insert(reg)
                    } else {
                        self.captures[i]
                    },
            ),
            ..self
        }
    }

    /// The state with the variable in a register, and that register.
    pub open spec fn load_var(self, info: VarInfo) -> (St, usize) {
        if info.is_global {
            (
                self.fresh().plain(
                    Instruction::LoadGlobal { dst: self.next_reg, global: info.idx },
                ),
                self.next_reg,
            )
        } else {
            (self.track(info.idx), info.idx)
        }
    }

    /// A constant in a fresh register.
    pub open spec fn literal(self, val: Value) -> (St, usize) {
        (
            self.fresh().plain(Instruction::LoadLiteral { dst: self.next_reg, val }),
            self.next_reg,
        )
    }

    /// A text in a fresh register: itself where it is short, else a reference to
    /// its place in the string pool.
    pub open spec fn text_literal(self, s: Seq<char>) -> (St, usize) {
        if encode_utf8(s).len() <= 6 {
            self.literal(text_value(encode_utf8(s)))
        } else {
            let st = self.intern(s);
            st.literal(object_value(st.id_of(s)))
        }
    }
}

/// The register lies before the own registers of the spawn at index `i` and of
/// all the spawns inside it.
pub open spec fn outer_to(starts: Seq<usize>, i: int, reg: usize) -> bool {
    forall|j: int| i <= j < starts.len() ==> reg < #[trigger] starts[j]
}

/// The name of a token in messages.
pub open spec fn token_name(t: Token) -> Seq<char> {
    match t {
        Token::MutableVar => "MutableVar"@,
        Token::ImmutableVar => "ImmutableVar"@,
        Token::Fn => "Fn"@,
        Token::Return => "Return"@,
        Token::Continue => "Continue"@,
        Token::If => "If"@,
        Token::Else => "Else"@,
        Token::Colon => "Colon"@,
        Token::Newline => "Newline"@,
        Token::Spawn => "Spawn"@,
        Token::For => "For"@,
        Token::While => "While"@,
        Token::In => "In"@,
        Token::Range => "Range"@,
        Token::Dot => "Dot"@,
        Token::LBrace => "LBrace"@,
        Token::RBrace => "RBrace"@,
        Token::LParen => "LParen"@,
        Token::RParen => "RParen"@,
        Token::LBracket => "LBracket"@,
        Token::RBracket => "RBracket"@,
        Token::Comma => "Comma"@,
        Token::Plus => "Plus"@,
        Token::Minus => "Minus"@,
        Token::Mul => "Mul"@,
        Token::Div => "Div"@,
        Token::Eq => "Eq"@,
        Token::Ne => "Ne"@,
        Token::Lt => "Lt"@,
        Token::Le => "Le"@,
        Token::Gt => "Gt"@,
        Token::Ge => "Ge"@,
        Token::Not => "Not"@,
        Token::Bool(_) => "Bool"@,
        Token::Number => "Number"@,
        Token::String => "String"@,
        Token::Template => "Template"@,
        Token::Identifier => "Identifier"@,
        Token::LineComment => "LineComment"@,
    }
}

/// A token with its content, for messages.
pub open spec fn token_debug(t: Token, item: Item) -> Seq<char> {
    match t {
        Token::Bool(b) => token_name(t) + "("@ + (if b {
            "true"@
        } else {
            "false"@
        }) + ")"@,
        Token::Number => token_name(t) + "("@ + item.number.debug + ")"@,
        Token::String => token_name(t) + "("@ + quoted(item.text) + ")"@,
        Token::Template => token_name(t) + "("@ + quoted(item.text) + ")"@,
        Token::Identifier => token_name(t) + "("@ + quoted(item.text) + ")"@,
        _ => token_name(t),
    }
}

/// Moves on by one token: the state after it and the item that was next. Where
/// the token that comes into sight is an error, that error is the result and
/// the item that was next is lost.
#[verifier::opaque]
pub open spec fn adv(st: St) -> (St, Result<usize, Fault>) {
    let moved = St { w0: st.w1, w1: st.w2, w2: None, ..st };
    if st.next < st.items.len() && st.items[st.next as int].token is Err {
        let bad = St { next: succ(st.next), ..moved };
        (
            bad,
            Err(
                Fault::Lexing { err: st.items[st.next as int].token->Err_0, loc: bad.here() },
            ),
        )
    } else {
        let seen = if st.next < st.items.len() {
            St { next: succ(st.next), w2: Some(st.next), ..moved }
        } else {
            St { ended: true, ..moved }
        };
        match st.w0 {
            Some(i) => if seen.items[i as int].token == Ok::<Token, LexFault>(Token::Newline) {
                (
                    St { line: succ(seen.line), line_start: seen.items[i as int].end, ..seen },
                    Ok(i),
                )
            } else {
                (seen, Ok(i))
            },
            None => (seen, Err(Fault::Parsing { msg: "Unexpected EOF"@, loc: seen.here() })),
        }
    }
}

/// Past line breaks and line comments.
#[verifier::opaque]
pub open spec fn skip(st: St) -> St
    decreases st.left(),
{
    if st.peek() == Some(Token::Newline) || st.peek() == Some(Token::LineComment) {
        let a = adv(st).0;
        if a.left() < st.left() {
            skip(a)
        } else {
            a
        }
    } else {
        st
    }
}

/// Past the given token, or the error that it is not there.
#[verifier::opaque]
pub open spec fn expect(st: St, t: Token) -> Result<St, Fault> {
    match adv(st) {
        (_, Err(e)) => Err(e),
        (a, Ok(i)) => if a.items[i as int].token == Ok::<Token, LexFault>(t) {
            Ok(a)
        } else {
            Err(
                Fault::Parsing {
                    msg: "Expected "@ + token_name(t),
                    loc: ErrorLoc { line: a.line, col: a.col_of(a.items[i as int].start) },
                },
            )
        },
    }
}

/// Past a name, or the given error.
#[verifier::opaque]
pub open spec fn expect_name(st: St, msg: Seq<char>) -> Result<(St, Seq<char>), Fault> {
    match adv(st) {
        (_, Err(e)) => Err(e),
        (a, Ok(i)) => if a.items[i as int].token == Ok::<Token, LexFault>(Token::Identifier) {
            Ok((a, a.text(i)))
        } else {
            Err(a.fault(msg))
        },
    }
}

/// The binding power of a binary operator.
pub open spec fn precedence(t: Option<Token>) -> Option<u8> {
    match t {
        Some(Token::Eq) => Some(1),
        Some(Token::Ne) => Some(1),
        Some(Token::Lt) => Some(2),
        Some(Token::Le) => Some(2),
        Some(Token::Gt) => Some(2),
        Some(Token::Ge) => Some(2),
        Some(Token::Plus) => Some(3),
        Some(Token::Minus) => Some(3),
        Some(Token::Mul) => Some(4),
        Some(Token::Div) => Some(4),
        _ => None,
    }
}

/// The instruction of a binary operator.
pub open spec fn binary_op(t: Token, dst: usize, lhs: usize, rhs: usize, loc: Loc) -> Instruction {
    match t {
        Token::Eq => Instruction::Eq { dst, lhs, rhs },
        Token::Ne => Instruction::Ne { dst, lhs, rhs },
        Token::Lt => Instruction::Lt { dst, lhs, rhs, loc },
        Token::Le => Instruction::Le { dst, lhs, rhs, loc },
        Token::Gt => Instruction::Gt { dst, lhs, rhs, loc },
        Token::Ge => Instruction::Ge { dst, lhs, rhs, loc },
        Token::Plus => Instruction::Add { dst, lhs, rhs, loc },
        Token::Minus => Instruction::Sub { dst, lhs, rhs, loc },
        Token::Mul => Instruction::Mul { dst, lhs, rhs, loc },
        _ => Instruction::Div { dst, lhs, rhs, loc },
    }
}

/// An expression: an operand, operators and operands after it, and a range
/// where `..` follows.
#[verifier::opaque]
pub open spec fn p_expr(st: St) -> Result<(St, usize), Fault>
    decreases st.left(), 5int,
{
    match p_binary(st, 0) {
        Err(e) => Err(e),
        Ok((a, start)) => if a.peek() == Some(Token::Range) {
            match adv(a) {
                (_, Err(e)) => Err(e),
                (b, Ok(_)) => if b.left() < st.left() {
                    match p_binary(b, 0) {
                        Err(e) => Err(e),
                        Ok((c, end)) => Ok(
                            (
                                c.fresh().plain(
                                    Instruction::Range {
                                        dst: c.next_reg,
                                        start,
                                        end,
                                        step: None,
                                        loc: b.loc(),
                                    },
                                ),
                                c.next_reg,
                            ),
                        ),
                    }
                } else {
                    arbitrary()
                },
            }
        } else {
            Ok((a, start))
        },
    }
}

/// An operand and the operators that bind at least as strongly as `min`.
#[verifier::opaque]
pub open spec fn p_binary(st: St, min: u8) -> Result<(St, usize), Fault>
    decreases st.left(), 4int,
{
    match p_primary(st) {
        Err(e) => Err(e),
        Ok((a, lhs)) => if a.left() < st.left() {
            p_operators(a, lhs, min)
        } else {
            arbitrary()
        },
    }
}

/// The operators after a left operand.
#[verifier::opaque]
pub open spec fn p_operators(st: St, lhs: usize, min: u8) -> Result<(St, usize), Fault>
    decreases st.left(), 4int,
{
    match precedence(st.peek()) {
        None => Ok((st, lhs)),
        Some(p) => if p < min {
            Ok((st, lhs))
        } else {
            match adv(st) {
                (_, Err(e)) => Err(e),
                (a, Ok(_)) => if a.left() < st.left() {
                    match p_binary(a, (p + 1) as u8) {
                        Err(e) => Err(e),
                        Ok((b, rhs)) => {
                            let c = b.fresh().plain(
                                binary_op(st.peek()->0, b.next_reg, lhs, rhs, a.loc()),
                            );
                            if c.left() < st.left() {
                                p_operators(c, b.next_reg, min)
                            } else {
                                arbitrary()
                            }
                        },
                    }
                } else {
                    arbitrary()
                },
            }
        },
    }
}

/// An operand with its suffixes.
#[verifier::opaque]
pub open spec fn p_primary(st: St) -> Result<(St, usize), Fault>
    decreases st.left(), 3int,
{
    match p_atom(st) {
        Err(e) => Err(e),
        Ok((a, r)) => if a.left() < st.left() {
            p_suffixes(a, r)
        } else {
            arbitrary()
        },
    }
}

/// An operand without suffixes.
#[verifier::opaque]
pub open spec fn p_atom(st: St) -> Result<(St, usize), Fault>
    decreases st.left(), 2int,
{
    match adv(st) {
        (_, Err(e)) => Err(e),
        (a, Ok(i)) => if a.left() < st.left() {
            match a.items[i as int].token {
                Ok(Token::LParen) => match p_expr(a) {
                    Err(e) => Err(e),
                    Ok((b, r)) => match expect(b, Token::RParen) {
                        Err(e) => Err(e),
                        Ok(c) => Ok((c, r)),
                    },
                },
                Ok(Token::Number) => Ok(a.literal(Value(a.items[i as int].number.bits))),
                Ok(Token::Bool(b)) => Ok(a.literal(bool_value(b))),
                Ok(Token::String) => Ok(a.text_literal(unescaped(a.text(i)))),
                Ok(Token::LBracket) => p_list(a),
                Ok(Token::LBrace) => p_object(a),
                Ok(Token::Identifier) => p_name(a, a.text(i)),
                _ => Err(
                    Fault::Parsing {
                        msg: "Expected expression"@,
                        loc: ErrorLoc {
                            line: st.loc().line as usize,
                            col: st.loc().col as usize,
                        },
                    },
                ),
            }
        } else {
            arbitrary()
        },
    }
}

/// A call of what the name stands for: a variable that holds a function or a
/// function itself.
#[verifier::opaque]
pub open spec fn call(st: St, id: Seq<char>, args: Seq<usize>, dst: Option<usize>) -> St {
    match st.get_var(id) {
        Some(info) => {
            let (a, callee_reg) = st.load_var(info);
            a.emit(Op::CallDynamic { callee_reg, args, dst, loc: a.loc() })
        },
        None => {
            let a = st.intern(id);
            a.emit(Op::Call { name_id: a.id_of(id), args, dst, loc: a.loc() })
        },
    }
}

/// A name in an expression: a call, a variable, or else the name of a function.
#[verifier::opaque]
pub open spec fn p_name(st: St, id: Seq<char>) -> Result<(St, usize), Fault>
    decreases st.left(), 2int,
{
    if st.peek() == Some(Token::LParen) {
        match adv(st) {
            (_, Err(e)) => Err(e),
            (a, Ok(_)) => if a.left() < st.left() {
                match p_exprs(a, Token::RParen) {
                    Err(e) => Err(e),
                    Ok((b, args)) => Ok(
                        (call(b.fresh(), id, args, Some(b.next_reg)), b.next_reg),
                    ),
                }
            } else {
                arbitrary()
            },
        }
    } else {
        match st.get_var(id) {
            Some(info) => Ok(st.load_var(info)),
            None => Ok(st.text_literal(id)),
        }
    }
}

/// The suffixes after an operand: indices, fields and calls of fields.
#[verifier::opaque]
pub open spec fn p_suffixes(st: St, reg: usize) -> Result<(St, usize), Fault>
    decreases st.left(), 3int,
{
    let s = skip(st);
    if s.peek() == Some(Token::LBracket) {
        match adv(s) {
            (_, Err(e)) => Err(e),
            (a, Ok(_)) => if a.left() < st.left() {
                match p_expr(a) {
                    Err(e) => Err(e),
                    Ok((b, index_reg)) => match expect(b, Token::RBracket) {
                        Err(e) => Err(e),
                        Ok(c) => {
                            let d = c.fresh().plain(
                                Instruction::ListGet {
                                    dst: c.next_reg,
                                    list: reg,
                                    index_reg,
                                    loc: c.loc(),
                                },
                            );
                            if d.left() < st.left() {
                                p_suffixes(d, c.next_reg)
                            } else {
                                arbitrary()
                            }
                        },
                    },
                }
            } else {
                arbitrary()
            },
        }
    } else if s.peek() == Some(Token::Dot) {
        match adv(s) {
            (_, Err(e)) => Err(e),
            (a, Ok(_)) => match expect_name(a, "Expected property name after '.'"@) {
                Err(e) => Err(e),
                Ok((b, id)) => {
                    let c = b.intern(id);
                    let d = c.fresh().plain(
                        Instruction::ObjectGet {
                            dst: c.next_reg,
                            obj: reg,
                            name_id: c.id_of(id),
                            loc: c.loc(),
                        },
                    );
                    if d.left() < st.left() {
                        match p_method(d, c.next_reg) {
                            Err(e) => Err(e),
                            Ok((f, r)) => if f.left() < st.left() {
                                p_suffixes(f, r)
                            } else {
                                arbitrary()
                            },
                        }
                    } else {
                        arbitrary()
                    }
                },
            },
        }
    } else {
        Ok((s, reg))
    }
}

/// A call of the field in the register, where arguments follow.
#[verifier::opaque]
pub open spec fn p_method(st: St, callee_reg: usize) -> Result<(St, usize), Fault>
    decreases st.left(), 2int,
{
    if st.peek() == Some(Token::LParen) {
        match adv(st) {
            (_, Err(e)) => Err(e),
            (a, Ok(_)) => if a.left() < st.left() {
                match p_exprs(a, Token::RParen) {
                    Err(e) => Err(e),
                    Ok((b, args)) => Ok(
                        (
                            b.fresh().emit(
                                Op::CallDynamic {
                                    callee_reg,
                                    args,
                                    dst: Some(b.next_reg),
                                    loc: b.loc(),
                                },
                            ),
                            b.next_reg,
                        ),
                    ),
                }
            } else {
                arbitrary()
            },
        }
    } else {
        Ok((st, callee_reg))
    }
}

/// Expressions with commas between them up to the closing token. One comma may
/// stand before it.
#[verifier::opaque]
pub open spec fn p_exprs(st: St, close: Token) -> Result<(St, Seq<usize>), Fault>
    decreases st.left(), 7int,
{
    let s = skip(st);
    if s.peek() == Some(close) {
        match expect(s, close) {
            Err(e) => Err(e),
            Ok(a) => Ok((a, Seq::empty())),
        }
    } else if s.left() <= st.left() {
        match p_more_exprs(s, close, Seq::empty()) {
            Err(e) => Err(e),
            Ok((a, regs)) => match expect(a, close) {
                Err(e) => Err(e),
                Ok(b) => Ok((b, regs)),
            },
        }
    } else {
        arbitrary()
    }
}

/// One expression more, and those after it.
#[verifier::opaque]
pub open spec fn p_more_exprs(st: St, close: Token, regs: Seq<usize>) -> Result<
    (St, Seq<usize>),
    Fault,
>
    decreases st.left(), 6int,
{
    let s = skip(st);
    if s.left() <= st.left() {
        match p_expr(s) {
            Err(e) => Err(e),
            Ok((a, r)) => {
                let b = skip(a);
                if b.peek() == Some(Token::Comma) {
                    match adv(b) {
                        (_, Err(e)) => Err(e),
                        (c, Ok(_)) => if c.peek() == Some(close) {
                            Ok((c, regs.push(r)))
                        } else if c.left() < st.left() {
                            p_more_exprs(c, close, regs.push(r))
                        } else {
                            arbitrary()
                        },
                    }
                } else {
                    Ok((b, regs.push(r)))
                }
            },
        }
    } else {
        arbitrary()
    }
}

/// The list in register `dst` filled with the first `n` elements.
#[verifier::opaque]
pub open spec fn fill_list(st: St, dst: usize, elements: Seq<usize>, n: nat) -> St
    decreases n,
{
    if n == 0 {
        st
    } else {
        let a = fill_list(st, dst, elements, (n - 1) as nat);
        let (b, index_reg) = a.literal(Value(bits_of_count((n - 1) as nat) as u64));
        b.plain(Instruction::ListSet { list: dst, index_reg, src: elements[n - 1], loc: b.loc() })
    }
}

/// A list literal whose opening bracket has been read.
#[verifier::opaque]
pub open spec fn p_list(st: St) -> Result<(St, usize), Fault>
    decreases st.left(), 8int,
{
    match p_exprs(st, Token::RBracket) {
        Err(e) => Err(e),
        Ok((a, elements)) => {
            let dst = a.next_reg;
            let b = a.fresh().plain(Instruction::NewList { dst, len: elements.len() as usize });
            Ok((fill_list(b, dst, elements, elements.len()), dst))
        },
    }
}

/// The object in register `dst` with the first `n` fields set.
#[verifier::opaque]
pub open spec fn fill_object(st: St, dst: usize, fields: Seq<(Seq<char>, usize)>, n: nat) -> St
    decreases n,
{
    if n == 0 {
        st
    } else {
        let a = fill_object(st, dst, fields, (n - 1) as nat).intern(fields[n - 1].0);
        a.plain(
            Instruction::ObjectSet {
                obj: dst,
                name_id: a.id_of(fields[n - 1].0),
                src: fields[n - 1].1,
                loc: a.loc(),
            },
        )
    }
}

/// One field more, and those after it.
#[verifier::opaque]
pub open spec fn p_fields(st: St, fields: Seq<(Seq<char>, usize)>) -> Result<
    (St, Seq<(Seq<char>, usize)>),
    Fault,
>
    decreases st.left(), 7int,
{
    let s = skip(st);
    match expect_name(s, "Expected field name"@) {
        Err(e) => Err(e),
        Ok((a, name)) => match expect(a, Token::Colon) {
            Err(e) => Err(e),
            Ok(b) => if b.left() < st.left() {
                match p_expr(b) {
                    Err(e) => Err(e),
                    Ok((c, r)) => {
                        let d = skip(c);
                        if d.peek() == Some(Token::Comma) {
                            match adv(d) {
                                (_, Err(e)) => Err(e),
                                (f, Ok(_)) => if f.peek() == Some(Token::RBrace) {
                                    Ok((f, fields.push((name, r))))
                                } else if f.left() < st.left() {
                                    p_fields(f, fields.push((name, r)))
                                } else {
                                    arbitrary()
                                },
                            }
                        } else {
                            Ok((d, fields.push((name, r))))
                        }
                    },
                }
            } else {
                arbitrary()
            },
        },
    }
}

/// An object literal whose opening brace has been read.
#[verifier::opaque]
pub open spec fn p_object(st: St) -> Result<(St, usize), Fault>
    decreases st.left(), 8int,
{
    let s = skip(st);
    let parsed = if s.peek() == Some(Token::RBrace) {
        Ok((s, Seq::empty()))
    } else if s.left() <= st.left() {
        p_fields(s, Seq::empty())
    } else {
        arbitrary()
    };
    match parsed {
        Err(e) => Err(e),
        Ok((a, fields)) => match expect(a, Token::RBrace) {
            Err(e) => Err(e),
            Ok(b) => {
                let dst = b.next_reg;
                let c = b.fresh().plain(
                    Instruction::NewObject { dst, capacity: fields.len() as usize },
                );
                Ok((fill_object(c, dst, fields, fields.len()), dst))
            },
        },
    }
}

/// A statement, after line breaks. The flag says whether there was one.
#[verifier::opaque]
pub open spec fn p_stmt(st: St) -> Result<(St, bool), Fault>
    decreases st.left(), 9int,
{
    let s = skip(st);
    if s.left() > st.left() {
        arbitrary()
    } else {
        match s.peek() {
            None => Ok((s, false)),
            Some(Token::RBrace) => Ok((s, false)),
            Some(t) => match p_construct(s, t) {
                Err(e) => Err(e),
                Ok(a) => Ok((a, true)),
            },
        }
    }
}

/// The statement that starts with the token `t`.
#[verifier::opaque]
pub open spec fn p_construct(st: St, t: Token) -> Result<St, Fault>
    decreases st.left(), 8int,
{
    let a = adv(st).0;
    if st.w0 is None || a.left() >= st.left() {
        arbitrary()
    } else {
        match t {
            Token::MutableVar => p_var_decl(st, true),
            Token::ImmutableVar => p_var_decl(st, false),
            Token::For => p_for(st),
            Token::While => p_while(a),
            Token::Fn => p_fn(a),
            Token::If => p_if(a),
            Token::Return => p_return(a),
            Token::Spawn => p_spawn(a),
            Token::Identifier => p_name_stmt(a, st.text(st.w0->0)),
            _ => Err(
                Fault::Parsing {
                    msg: "Unexpected token "@ + token_debug(t, st.items[st.w0->0 as int]),
                    loc: st.here(),
                },
            ),
        }
    }
}

/// Statements up to a closing brace or the end.
#[verifier::opaque]
pub open spec fn p_stmts(st: St) -> Result<St, Fault>
    decreases st.left(), 10int,
{
    if st.peek() is None || st.peek() == Some(Token::RBrace) {
        Ok(st)
    } else {
        match p_stmt(st) {
            Err(e) => Err(e),
            Ok((a, false)) => Ok(a),
            Ok((a, true)) => if a.left() < st.left() {
                p_stmts(a)
            } else {
                arbitrary()
            },
        }
    }
}

/// Statements in braces.
#[verifier::opaque]
pub open spec fn p_block(st: St) -> Result<St, Fault>
    decreases st.left(), 6int,
{
    match expect(skip(st), Token::LBrace) {
        Err(e) => Err(e),
        Ok(a) => if a.left() < st.left() {
            match p_stmts(a) {
                Err(e) => Err(e),
                Ok(b) => expect(b, Token::RBrace),
            }
        } else {
            arbitrary()
        },
    }
}

/// The declaration of a variable: global outside of functions and spawns,
/// otherwise in a register.
#[verifier::opaque]
pub open spec fn p_var_decl(st: St, is_mut: bool) -> Result<St, Fault>
    decreases st.left(), 7int,
{
    match adv(st) {
        (_, Err(e)) => Err(e),
        (a, Ok(_)) => match expect_name(a, "Expected identifier"@) {
            Err(e) => Err(e),
            Ok((b, id)) => match expect(b, Token::Colon) {
                Err(e) => Err(e),
                Ok(c) => if c.left() < st.left() {
                    match p_expr(c) {
                        Err(e) => Err(e),
                        Ok((d, src)) => Ok(declare(d, id, is_mut, src)),
                    }
                } else {
                    arbitrary()
                },
            },
        },
    }
}

/// A new variable with the value of a register.
#[verifier::opaque]
pub open spec fn declare(st: St, id: Seq<char>, is_mut: bool, src: usize) -> St {
    if !st.in_fn && !st.in_spawn {
        let info = VarInfo {
            idx: st.next_global,
            is_mut,
            is_global: true,
            first_line: st.line,
        };
        St {
            next_global: succ(st.next_global),
            globals: st.globals.insert(id, info),
            ..st
        }.plain(Instruction::StoreGlobal { global: st.next_global, src })
    } else {
        let info = VarInfo { idx: st.next_reg, is_mut, is_global: false, first_line: st.line };
        St { locals: st.locals.insert(id, info), ..st.fresh() }.plain(
            Instruction::Move { dst: st.next_reg, src },
        )
    }
}

/// A condition with one block or two.
#[verifier::opaque]
pub open spec fn p_if(st: St) -> Result<St, Fault>
    decreases st.left(), 7int,
{
    match p_expr(st) {
        Err(e) => Err(e),
        Ok((a, cond)) => {
            let j = a.code.len() as int;
            let body = a.plain(Instruction::Jump(0));
            if body.left() > st.left() {
                arbitrary()
            } else {
                match p_block(body) {
                    Err(e) => Err(e),
                    Ok(b) => if b.peek() == Some(Token::Else) {
                        match adv(b) {
                            (_, Err(e)) => Err(e),
                            (c, Ok(_)) => {
                                let k = c.code.len() as int;
                                let d = c.plain(Instruction::Jump(0));
                                let f = d.patch(
                                    j,
                                    Instruction::JumpIfFalse {
                                        cond,
                                        target: d.code.len() as usize,
                                    },
                                );
                                if f.left() > st.left() {
                                    arbitrary()
                                } else {
                                    match p_block(f) {
                                        Err(e) => Err(e),
                                        Ok(g) => Ok(
                                            g.patch(k, Instruction::Jump(g.code.len() as usize)),
                                        ),
                                    }
                                }
                            },
                        }
                    } else {
                        Ok(
                            b.patch(
                                j,
                                Instruction::JumpIfFalse { cond, target: b.code.len() as usize },
                            ),
                        )
                    },
                }
            }
        },
    }
}

/// A block that is repeated as long as the condition holds.
#[verifier::opaque]
pub open spec fn p_while(st: St) -> Result<St, Fault>
    decreases st.left(), 7int,
{
    match p_expr(st) {
        Err(e) => Err(e),
        Ok((a, cond)) => {
            let j = a.code.len() as int;
            let body = a.plain(Instruction::Jump(0));
            if body.left() > st.left() {
                arbitrary()
            } else {
                match p_block(body) {
                    Err(e) => Err(e),
                    Ok(b) => {
                        let c = b.plain(Instruction::Jump(st.code.len() as usize));
                        Ok(
                            c.patch(
                                j,
                                Instruction::JumpIfFalse { cond, target: c.code.len() as usize },
                            ),
                        )
                    },
                }
            }
        },
    }
}

/// What a loop counts with: its variable, its end and its step.
pub struct Counter {
    pub var: usize,
    pub end: usize,
    /// The register of the step; without one the step is one.
    pub step: Option<usize>,
}

/// A loop variable with the value of a register.
#[verifier::opaque]
pub open spec fn loop_var(st: St, id: Seq<char>, start: usize) -> St {
    let info = VarInfo {
        idx: st.next_reg,
        is_mut: true,
        is_global: false,
        first_line: st.line,
    };
    St { locals: st.locals.insert(id, info), ..st.fresh() }.plain(
        Instruction::Move { dst: st.next_reg, src: start },
    )
}

/// A loop over a range, written out or held by a value.
#[verifier::opaque]
pub open spec fn p_for(st: St) -> Result<St, Fault>
    decreases st.left(), 7int,
{
    match adv(st) {
        (_, Err(e)) => Err(e),
        (a, Ok(_)) => match expect_name(a, "Expected identifier"@) {
            Err(e) => Err(e),
            Ok((b, id)) => match expect(b, Token::In) {
                Err(e) => Err(e),
                Ok(c) => if c.left() < st.left() {
                    match p_binary(c, 0) {
                        Err(e) => Err(e),
                        Ok((d, first)) => if d.peek() == Some(Token::Range) {
                            match adv(d) {
                                (_, Err(e)) => Err(e),
                                (f, Ok(_)) => if f.left() < st.left() {
                                    match p_binary(f, 0) {
                                        Err(e) => Err(e),
                                        Ok((g, end)) => {
                                            let h = loop_var(g, id, first);
                                            if h.left() < st.left() {
                                                p_loop(
                                                    h,
                                                    Counter { var: g.next_reg, end, step: None },
                                                    st.loc(),
                                                )
                                            } else {
                                                arbitrary()
                                            }
                                        },
                                    }
                                } else {
                                    arbitrary()
                                },
                            }
                        } else {
                            let start_dst = d.next_reg;
                            let end_dst = d.fresh().next_reg;
                            let step_dst = d.fresh().fresh().next_reg;
                            let f = d.fresh().fresh().fresh().plain(
                                Instruction::RangeInfo {
                                    range: first,
                                    start_dst,
                                    end_dst,
                                    step_dst,
                                },
                            );
                            let h = loop_var(f, id, start_dst);
                            if h.left() < st.left() {
                                p_loop(
                                    h,
                                    Counter {
                                        var: f.next_reg,
                                        end: end_dst,
                                        step: Some(step_dst),
                                    },
                                    st.loc(),
                                )
                            } else {
                                arbitrary()
                            }
                        },
                    }
                } else {
                    arbitrary()
                },
            },
        },
    }
}

/// The body of a loop, with the test before it and the step after it.
#[verifier::opaque]
pub open spec fn p_loop(st: St, counter: Counter, loc: Loc) -> Result<St, Fault>
    decreases st.left(), 7int,
{
    let top = st.code.len() as usize;
    let cond = st.next_reg;
    let a = st.fresh().plain(
        Instruction::Lt { dst: cond, lhs: counter.var, rhs: counter.end, loc },
    );
    let j = a.code.len() as int;
    match p_block(a.plain(Instruction::Jump(0))) {
        Err(e) => Err(e),
        Ok(b) => {
            let c = match counter.step {
                None => b.plain(Instruction::Increment(counter.var)),
                Some(rhs) => b.plain(
                    Instruction::Add { dst: counter.var, lhs: counter.var, rhs, loc },
                ),
            };
            let d = c.plain(Instruction::Jump(top));
            Ok(
                d.patch(j, Instruction::JumpIfFalse { cond, target: d.code.len() as usize }),
            )
        },
    }
}

/// A block that runs as a task of its own.
#[verifier::opaque]
pub open spec fn p_spawn(st: St) -> Result<St, Fault>
    decreases st.left(), 7int,
{
    let inner = St {
        in_spawn: true,
        captures: st.captures.push(Set::empty()),
        starts: st.starts.push(st.next_reg),
        code: Seq::empty(),
        ..st
    };
    match p_block(inner) {
        Err(e) => Err(e),
        Ok(a) => Ok(
            St {
                in_spawn: st.in_spawn,
                captures: a.captures.drop_last(),
                starts: a.starts.drop_last(),
                code: st.code,
                ..a
            }.emit(
                Op::Spawn {
                    body: a.code,
                    locals_count: if a.next_reg >= st.next_reg {
                        a.next_reg
                    } else {
                        st.next_reg
                    },
                    captures: listing(a.captures.last()),
                },
            ),
        ),
    }
}

/// The names of the parameters. What is no name ends them.
#[verifier::opaque]
pub open spec fn p_params(st: St, params: Seq<Seq<char>>) -> Result<(St, Seq<Seq<char>>), Fault>
    decreases st.left(),
{
    match adv(st) {
        (_, Err(e)) => Err(e),
        (a, Ok(i)) => if a.items[i as int].token != Ok::<Token, LexFault>(Token::Identifier) {
            Ok((a, params))
        } else if a.peek() == Some(Token::Comma) {
            match adv(a) {
                (_, Err(e)) => Err(e),
                (b, Ok(_)) => if b.left() < st.left() {
                    p_params(b, params.push(a.text(i)))
                } else {
                    arbitrary()
                },
            }
        } else {
            Ok((a, params.push(a.text(i))))
        },
    }
}

/// The first `n` parameters in registers.
#[verifier::opaque]
pub open spec fn bind_params(st: St, params: Seq<Seq<char>>, n: nat) -> St
    decreases n,
{
    if n == 0 {
        st
    } else {
        let a = bind_params(st, params, (n - 1) as nat);
        let info = VarInfo {
            idx: a.next_reg,
            is_mut: false,
            is_global: false,
            first_line: a.line,
        };
        St { locals: a.locals.insert(params[n - 1], info), ..a.fresh() }
    }
}

/// The code ends with a return.
pub open spec fn ends_with_return(code: Seq<Op>) -> bool {
    code.len() > 0 && (code.last() matches Op::Plain(i) && i is Return)
}

/// A function, with registers of its own. It returns at its end where it does
/// not say so.
#[verifier::opaque]
pub open spec fn p_fn(st: St) -> Result<St, Fault>
    decreases st.left(), 7int,
{
    match expect_name(st, "Expected function name"@) {
        Err(e) => Err(e),
        Ok((a, name)) => match expect(a, Token::LParen) {
            Err(e) => Err(e),
            Ok(b) => {
                let parsed = if b.peek() == Some(Token::RParen) {
                    Ok((b, Seq::empty()))
                } else {
                    p_params(b, Seq::empty())
                };
                match parsed {
                    Err(e) => Err(e),
                    Ok((c, params)) => match expect(c, Token::RParen) {
                        Err(e) => Err(e),
                        Ok(d) => {
                            let inner = bind_params(
                                St {
                                    locals: Map::empty(),
                                    next_reg: 0,
                                    in_spawn: false,
                                    in_fn: true,
                                    code: Seq::empty(),
                                    ..d
                                },
                                params,
                                params.len(),
                            );
                            if inner.left() < st.left() {
                                match p_block(inner) {
                                    Err(e) => Err(e),
                                    Ok(f) => Ok(finish_fn(f, d, name, params.len() as usize)),
                                }
                            } else {
                                arbitrary()
                            }
                        },
                    },
                }
            },
        },
    }
}

/// The function whose body has just been compiled joins the others, and the
/// scope around it comes back.
#[verifier::opaque]
pub open spec fn finish_fn(body: St, around: St, name: Seq<char>, params_count: usize) -> St {
    let a = body.intern(name);
    St {
        functions: a.functions.push(
            FunctionView {
                name_id: a.id_of(name),
                code: if ends_with_return(body.code) {
                    body.code
                } else {
                    body.code.push(Op::Plain(Instruction::Return(None)))
                },
                locals_count: body.next_reg,
                params_count,
            },
        ),
        locals: around.locals,
        next_reg: around.next_reg,
        in_spawn: around.in_spawn,
        in_fn: around.in_fn,
        code: around.code,
        ..a
    }
}

#[verifier::opaque]
pub open spec fn p_return(st: St) -> Result<St, Fault>
    decreases st.left(), 7int,
{
    if st.peek() is None || st.peek() == Some(Token::Newline) || st.peek() == Some(Token::RBrace) {
        Ok(st.plain(Instruction::Return(None)))
    } else {
        match p_expr(st) {
            Err(e) => Err(e),
            Ok((a, r)) => Ok(a.plain(Instruction::Return(Some(r)))),
        }
    }
}

/// A statement that starts with a name: an assignment or a call.
#[verifier::opaque]
pub open spec fn p_name_stmt(st: St, id: Seq<char>) -> Result<St, Fault>
    decreases st.left(), 7int,
{
    if st.peek() == Some(Token::Colon) || st.peek() == Some(Token::LBracket) || st.peek() == Some(
        Token::Dot,
    ) {
        p_assign(st, id)
    } else {
        p_call_stmt(st, id)
    }
}

/// The arguments of a call without parentheses.
#[verifier::opaque]
pub open spec fn p_bare_args(st: St, args: Seq<usize>) -> Result<(St, Seq<usize>), Fault>
    decreases st.left(), 6int,
{
    match st.peek() {
        None => Ok((st, args)),
        Some(t) => if t == Token::Newline || t == Token::RBrace || t == Token::RParen || t
            == Token::RBracket || t == Token::Comma {
            Ok((st, args))
        } else {
            match p_expr(st) {
                Err(e) => Err(e),
                Ok((a, r)) => if a.peek() == Some(Token::Comma) {
                    match adv(a) {
                        (_, Err(e)) => Err(e),
                        (b, Ok(_)) => if b.left() < st.left() {
                            p_bare_args(b, args.push(r))
                        } else {
                            arbitrary()
                        },
                    }
                } else {
                    Ok((a, args.push(r)))
                },
            }
        },
    }
}

/// A call as a statement.
#[verifier::opaque]
pub open spec fn p_call_stmt(st: St, id: Seq<char>) -> Result<St, Fault>
    decreases st.left(), 6int,
{
    let parsed = if st.peek() == Some(Token::LParen) {
        match adv(st) {
            (_, Err(e)) => Err(e),
            (a, Ok(_)) => if a.left() < st.left() {
                p_exprs(a, Token::RParen)
            } else {
                arbitrary()
            },
        }
    } else {
        p_bare_args(st, Seq::empty())
    };
    match parsed {
        Err(e) => Err(e),
        Ok((a, args)) => Ok(call(a, id, args, None)),
    }
}

/// The indices and fields after a variable.
#[verifier::opaque]
pub open spec fn p_accessors(st: St, accs: Seq<Accessor>) -> Result<(St, Seq<Accessor>), Fault>
    decreases st.left(), 6int,
{
    if st.peek() == Some(Token::LBracket) {
        match adv(st) {
            (_, Err(e)) => Err(e),
            (a, Ok(_)) => if a.left() < st.left() {
                match p_expr(a) {
                    Err(e) => Err(e),
                    Ok((b, r)) => match expect(b, Token::RBracket) {
                        Err(e) => Err(e),
                        Ok(c) => if c.left() < st.left() {
                            p_accessors(c, accs.push(Accessor::Index(r)))
                        } else {
                            arbitrary()
                        },
                    },
                }
            } else {
                arbitrary()
            },
        }
    } else if st.peek() == Some(Token::Dot) {
        match adv(st) {
            (_, Err(e)) => Err(e),
            (a, Ok(_)) => match expect_name(a, "Expected field name after '.'"@) {
                Err(e) => Err(e),
                Ok((b, id)) => {
                    let c = b.intern(id);
                    if c.left() < st.left() {
                        p_accessors(c, accs.push(Accessor::Field(c.id_of(id))))
                    } else {
                        arbitrary()
                    }
                },
            },
        }
    } else {
        Ok((st, accs))
    }
}

/// The part that the first `n` steps lead to, in a register.
#[verifier::opaque]
pub open spec fn walk(st: St, from: usize, accs: Seq<Accessor>, n: nat, loc: Loc) -> (St, usize)
    decreases n,
{
    if n == 0 {
        (st, from)
    } else {
        let (a, r) = walk(st, from, accs, (n - 1) as nat, loc);
        let dst = a.next_reg;
        let i = match accs[n - 1] {
            Accessor::Index(index_reg) => Instruction::ListGet { dst, list: r, index_reg, loc },
            Accessor::Field(name_id) => Instruction::ObjectGet { dst, obj: r, name_id, loc },
        };
        (a.fresh().plain(i), dst)
    }
}

/// The right side is the variable and one, and nothing after it.
#[verifier::opaque]
pub open spec fn is_increment(st: St, id: Seq<char>) -> bool {
    &&& st.token(st.w1) == Some(Token::Plus)
    &&& (st.is_name(st.w0, id) && st.is_one(st.w2)) || (st.is_one(st.w0) && st.is_name(st.w2, id))
    &&& st.next < st.items.len() ==> (st.items[st.next as int].token matches Ok(t) && ends_value(t))
}

/// The token can follow a whole value.
pub open spec fn ends_value(t: Token) -> bool {
    t == Token::Newline || t == Token::RBrace || t == Token::Comma || t == Token::RParen
}

/// The error of giving an immutable variable another value.
pub open spec fn immutable(st: St, id: Seq<char>, info: VarInfo) -> Fault {
    Fault::RedefinitionOfImmutableVariable {
        msg: id,
        loc: ErrorLoc { line: st.line, col: 0 },
        orig_line: info.first_line,
    }
}

/// An assignment to a variable or to a part of what it holds, or a call of such
/// a part.
#[verifier::opaque]
pub open spec fn p_assign(st: St, id: Seq<char>) -> Result<St, Fault>
    decreases st.left(), 7int,
{
    let loc = st.loc();
    match st.get_var(id) {
        None => Err(
            Fault::UnknownVariable {
                msg: id,
                loc: ErrorLoc { line: loc.line as usize, col: loc.col as usize },
            },
        ),
        Some(info) => match p_accessors(st, Seq::empty()) {
            Err(e) => Err(e),
            Ok((a, accs)) => if a.left() > st.left() {
                arbitrary()
            } else if accs.len() > 0 && accs.last() is Field && a.peek() == Some(Token::LParen) {
                match adv(a) {
                    (_, Err(e)) => Err(e),
                    (b, Ok(_)) => if b.left() < st.left() {
                        match p_exprs(b, Token::RParen) {
                            Err(e) => Err(e),
                            Ok((c, args)) => {
                                let (d, from) = c.load_var(info);
                                let (f, callee_reg) = walk(d, from, accs, accs.len(), loc);
                                Ok(
                                    f.emit(
                                        Op::CallDynamic {
                                            callee_reg,
                                            args,
                                            dst: None,
                                            loc: f.loc(),
                                        },
                                    ),
                                )
                            },
                        }
                    } else {
                        arbitrary()
                    },
                }
            } else {
                match expect(a, Token::Colon) {
                    Err(e) => Err(e),
                    Ok(b) => if b.left() >= st.left() {
                        arbitrary()
                    } else if accs.len() == 0 && is_increment(b, id) {
                        increment(b, id, info)
                    } else {
                        match p_expr(b) {
                            Err(e) => Err(e),
                            Ok((c, src)) => store(c, id, info, accs, src, loc),
                        }
                    },
                }
            },
        },
    }
}

/// One more in the variable; the three tokens that say so are passed.
#[verifier::opaque]
pub open spec fn increment(st: St, id: Seq<char>, info: VarInfo) -> Result<St, Fault> {
    match adv(st) {
        (_, Err(e)) => Err(e),
        (a, Ok(_)) => match adv(a) {
            (_, Err(e)) => Err(e),
            (b, Ok(_)) => match adv(b) {
                (_, Err(e)) => Err(e),
                (c, Ok(_)) => if !info.is_mut {
                    Err(immutable(c, id, info))
                } else if info.is_global {
                    Ok(c.plain(Instruction::IncrementGlobal(info.idx)))
                } else {
                    Ok(c.plain(Instruction::Increment(info.idx)))
                },
            },
        },
    }
}

/// The value of a register in the variable, or in the part of what it holds.
#[verifier::opaque]
pub open spec fn store(
    st: St,
    id: Seq<char>,
    info: VarInfo,
    accs: Seq<Accessor>,
    src: usize,
    loc: Loc,
) -> Result<St, Fault> {
    if accs.len() == 0 {
        if !info.is_mut {
            Err(immutable(st, id, info))
        } else if info.is_global {
            Ok(st.plain(Instruction::StoreGlobal { global: info.idx, src }))
        } else {
            Ok(st.plain(Instruction::Move { dst: info.idx, src }))
        }
    } else {
        let (a, from) = st.load_var(info);
        let (b, r) = walk(a, from, accs, (accs.len() - 1) as nat, loc);
        Ok(
            match accs.last() {
                Accessor::Index(index_reg) => b.plain(
                    Instruction::ListSet { list: r, index_reg, src, loc },
                ),
                Accessor::Field(name_id) => b.plain(
                    Instruction::ObjectSet { obj: r, name_id, src, loc },
                ),
            },
        )
    }
}

/// Brings the next token into the window, or gives its error.
#[verifier::opaque]
pub open spec fn fill(st: St) -> Result<St, Fault> {
    match adv(st) {
        (_, Err(Fault::Lexing { err, loc })) => Err(Fault::Lexing { err, loc }),
        (a, _) => Ok(a),
    }
}

/// The state before the first token.
pub open spec fn start(items: Seq<Item>, src_len: usize) -> St {
    St {
        items,
        src_len,
        next: 0,
        ended: false,
        w0: None,
        w1: None,
        w2: None,
        line: 1,
        line_start: 0,
        globals: Map::empty(),
        locals: Map::empty(),
        strings: Seq::empty(),
        functions: Seq::empty(),
        next_reg: 0,
        next_global: 0,
        in_spawn: false,
        in_fn: false,
        captures: Seq::empty(),
        starts: Seq::empty(),
        code: Seq::empty(),
    }
}

/// The state with the first three tokens in the window.
pub open spec fn opened(items: Seq<Item>, src_len: usize) -> Result<St, Fault> {
    match fill(start(items, src_len)) {
        Err(e) => Err(e),
        Ok(a) => match fill(a) {
            Err(e) => Err(e),
            Ok(b) => fill(b),
        },
    }
}

/// The program that a state has come to.
pub open spec fn program_of(st: St) -> ProgramView {
    ProgramView {
        code: st.code,
        functions: st.functions,
        strings: st.strings,
        locals_count: st.next_reg,
        globals_count: st.next_global,
    }
}

/// What is left of the source, compiled.
pub open spec fn compiled(st: St) -> Result<ProgramView, Fault> {
    match p_stmts(st) {
        Err(e) => Err(e),
        Ok(a) => Ok(program_of(a)),
    }
}

/// The next tokens are the name and a colon.
pub open spec fn assigns(st: St, id: Seq<char>) -> bool {
    &&& st.peek() == Some(Token::Identifier)
    &&& st.text(st.w0->0) == id
    &&& st.token(st.w1) == Some(Token::Colon)
    &&& st.items.len() <= usize::MAX
}

/// The state behind the name and the colon.
pub open spec fn right_side(st: St) -> St {
    adv(adv(st).0).0
}

/// The right side is an expression that compiles.
pub open spec fn has_right_side(st: St, id: Seq<char>) -> bool {
    &&& adv(adv(st).0).1 is Ok
    &&& !is_increment(right_side(st), id)
    &&& p_expr(right_side(st)) is Ok
}

proof fn lemma_adv_left(st: St)
    requires
        st.items.len() <= usize::MAX,
        st.w0 is Some,
    ensures
        adv(st).0.left() < st.left(),
        adv(st).0.items == st.items,
        adv(st).0.w0 == st.w1,
        adv(st).0.locals == st.locals,
        adv(st).0.globals == st.globals,
        adv(st).1 matches Ok(i) ==> st.w0 == Some(i),
{
    reveal(adv);
}

/// The assignment comes down to its right side and the store.
proof fn lemma_assign(st: St, id: Seq<char>)
    requires
        assigns(st, id),
    ensures
        p_construct(st, Token::Identifier) == p_assign(adv(st).0, id),
        adv(st).0.get_var(id) == st.get_var(id),
        st.get_var(id) matches Some(info) ==> p_assign(adv(st).0, id) == (match adv(adv(st).0) {
            (_, Err(e)) => Err(e),
            (b, Ok(_)) => if is_increment(b, id) {
                increment(b, id, info)
            } else {
                match p_expr(b) {
                    Err(e) => Err(e),
                    Ok((c, src)) => store(
                        c,
                        id,
                        info,
                        Seq::<Accessor>::empty(),
                        src,
                        adv(st).0.loc(),
                    ),
                }
            },
        }),
{
    lemma_adv_left(st);
    let a = adv(st).0;
    lemma_adv_left(a);
    reveal(p_construct);
    reveal(p_name_stmt);
    reveal(p_assign);
    reveal(p_accessors);
    reveal(p_expr);
    reveal(expect);
}

/// An immutable variable cannot be given another value: the statement is an
/// error, which names the variable and the line on which its declaration ended
/// where the right side compiles.
pub proof fn law_immutable_variables_keep_their_values(st: St, id: Seq<char>, info: VarInfo)
    requires
        assigns(st, id),
        st.get_var(id) == Some(info),
        !info.is_mut,
    ensures
        p_construct(st, Token::Identifier) is Err,
        has_right_side(st, id) ==> p_construct(st, Token::Identifier) == Err::<St, Fault>(
            immutable(p_expr(right_side(st))->Ok_0.0, id, info),
        ),
{
    lemma_assign(st, id);
    reveal(increment);
    reveal(store);
}

/// A mutable variable takes the value of the right side.
pub proof fn law_mutable_variables_take_new_values(st: St, id: Seq<char>, info: VarInfo)
    requires
        assigns(st, id),
        st.get_var(id) == Some(info),
        info.is_mut,
        has_right_side(st, id),
    ensures
        ({
            let (c, src) = p_expr(right_side(st))->Ok_0;
            p_construct(st, Token::Identifier) == Ok::<St, Fault>(
                if info.is_global {
                    c.plain(Instruction::StoreGlobal { global: info.idx, src })
                } else {
                    c.plain(Instruction::Move { dst: info.idx, src })
                },
            )
        }),
{
    lemma_assign(st, id);
    reveal(store);
}

/// Only variables that have been declared can be given a value.
pub proof fn law_unknown_variables_take_no_values(st: St, id: Seq<char>)
    requires
        assigns(st, id),
        st.get_var(id) is None,
    ensures
        p_construct(st, Token::Identifier) matches Err(e) && (e matches Fault::UnknownVariable {
            msg,
            ..
        } && msg == id),
{
    lemma_assign(st, id);
    reveal(p_assign);
}

/// After its declaration a variable is known, with its mutability and its line.
/// Outside of functions and spawns a loop variable of the same name hides it.
pub proof fn law_declarations_are_known(st: St, id: Seq<char>, is_mut: bool, src: usize)
    requires
        st.in_fn || st.in_spawn || !st.locals.contains_key(id),
    ensures
        declare(st, id, is_mut, src).get_var(id) matches Some(info) && info.is_mut == is_mut
            && info.first_line == st.line,
{
    reveal(declare);
}

} // verus!
