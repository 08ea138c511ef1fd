//! The compiler: source text to a program in one pass.
use crate::compiler::code_view;
use crate::compiler::function_views;
use crate::compiler::lemma_code_push;
use crate::compiler::lemma_code_update;
use crate::compiler::op_view;
use crate::compiler::texts;
use crate::compiler::Instruction;
use crate::compiler::Loc;
use crate::compiler::Op;
use crate::compiler::Program;
use crate::compiler::ProgramView;
use crate::compiler::UserFunction;
use crate::error::ErrorLoc;
use crate::error::Fault;
use crate::error::JitError;
use crate::escape::unescape_string;
use crate::grammar::adv;
use crate::grammar::bind_params;
use crate::grammar::call;
use crate::grammar::compiled;
use crate::grammar::declare;
use crate::grammar::ends_with_return;
use crate::grammar::expect;
use crate::grammar::expect_name;
use crate::grammar::fill;
use crate::grammar::fill_list;
use crate::grammar::fill_object;
use crate::grammar::finish_fn;
use crate::grammar::immutable;
use crate::grammar::increment;
use crate::grammar::is_increment;
use crate::grammar::item_at;
use crate::grammar::items_of;
use crate::grammar::loop_var;
use crate::grammar::numbers_before;
use crate::grammar::opened;
use crate::grammar::outer_to;
use crate::grammar::p_accessors;
use crate::grammar::p_assign;
use crate::grammar::p_atom;
use crate::grammar::p_bare_args;
use crate::grammar::p_binary;
use crate::grammar::p_block;
use crate::grammar::p_call_stmt;
use crate::grammar::p_construct;
use crate::grammar::p_expr;
use crate::grammar::p_exprs;
use crate::grammar::p_fields;
use crate::grammar::p_fn;
use crate::grammar::p_for;
use crate::grammar::p_if;
use crate::grammar::p_list;
use crate::grammar::p_loop;
use crate::grammar::p_method;
use crate::grammar::p_more_exprs;
use crate::grammar::p_name;
use crate::grammar::p_name_stmt;
use crate::grammar::p_object;
use crate::grammar::p_operators;
use crate::grammar::p_params;
use crate::grammar::p_primary;
use crate::grammar::p_return;
use crate::grammar::p_spawn;
use crate::grammar::p_stmt;
use crate::grammar::p_stmts;
use crate::grammar::p_suffixes;
use crate::grammar::p_var_decl;
use crate::grammar::p_while;
use crate::grammar::program_of;
use crate::grammar::skip;
use crate::grammar::start;
use crate::grammar::store;
use crate::grammar::token_debug;
use crate::grammar::token_name;
use crate::grammar::walk;
use crate::grammar::Accessor;
use crate::grammar::Counter;
use crate::grammar::Item;
use crate::grammar::NumberView;
use crate::grammar::St;
use crate::grammar::VarInfo;
use crate::lexer::lex;
use crate::lexer::lexed;
use crate::lexer::lexeme_views;
use crate::lexer::LexingError;
use crate::lexer::Token;
use crate::number::from_count;
use crate::number::ONE;
use crate::tables::list_set;
use crate::tables::name_map;
use crate::tables::names_get;
use crate::tables::names_insert;
use crate::tables::names_new;
use crate::tables::set_insert;
use crate::tables::set_new;
use crate::tables::StringPool;
use crate::text::quote;
use crate::text::same_text;
use crate::value::Value;
use rustc_hash::FxHashMap;
use rustc_hash::FxHashSet;
use std::sync::Arc;
use vstd::prelude::*;
use vstd::utf8::encode_utf8;

verus! {

/// The value of a number literal, by its bits, and how it is shown in messages.
#[derive(Debug)]
pub struct NumberLit {
    pub bits: u64,
    pub debug: String,
}

impl View for NumberLit {
    type V = NumberView;

    open spec fn view(&self) -> NumberView {
        NumberView { bits: self.bits, debug: self.debug@ }
    }
}

/// The views of a list of numbers.
pub open spec fn number_views(v: Seq<NumberLit>) -> Seq<NumberView> {
    v.map_values(|n: NumberLit| n@)
}

struct SourceToken {
    token: Result<Token, LexingError>,
    text: String,
    number: NumberLit,
    start: usize,
    end: usize,
}

impl View for SourceToken {
    type V = Item;

    closed spec fn view(&self) -> Item {
        Item {
            token: match self.token {
                Ok(t) => Ok(t),
                Err(e) => Err(e@),
            },
            text: self.text@,
            number: self.number@,
            start: self.start,
            end: self.end,
        }
    }
}

/// The variables of a scope.
struct VarTable {
    places: FxHashMap<String, usize>,
    infos: Vec<VarInfo>,
}

impl View for VarTable {
    type V = Map<Seq<char>, VarInfo>;

    closed spec fn view(&self) -> Map<Seq<char>, VarInfo> {
        Map::new(
            |k: Seq<char>| name_map(self.places).contains_key(k),
            |k: Seq<char>| self.infos@[name_map(self.places)[k] as int],
        )
    }
}

impl VarTable {
    spec fn wf(&self) -> bool {
        forall|k: Seq<char>| #[trigger]
            name_map(self.places).contains_key(k) ==> name_map(self.places)[k] < self.infos@.len()
    }

    fn new() -> (res: Self)
        ensures
            res.wf(),
            res@ == Map::<Seq<char>, VarInfo>::empty(),
    {
        let res = VarTable { places: names_new(), infos: Vec::new() };
        assert(res@ =~= Map::<Seq<char>, VarInfo>::empty());
        res
    }

    fn get(&self, id: &str) -> (res: Option<VarInfo>)
        requires
            self.wf(),
        ensures
            res == (if self@.contains_key(id@) {
                Some(self@[id@])
            } else {
                None
            }),
    {
        match names_get(&self.places, id) {
            Some(k) => Some(self.infos[k]),
            None => None,
        }
    }

    fn insert(&mut self, id: &str, info: VarInfo)
        requires
            old(self).wf(),
        ensures
            final(self).wf(),
            final(self)@ == old(self)@.insert(id@, info),
    {
        let k: usize = self.infos.len();
        self.infos.push(info);
        names_insert(&mut self.places, id.to_owned(), k);
        assert(self@ =~= old(self)@.insert(id@, info));
    }
}

/// Compiles a source text.
pub struct Parser {
    items: Vec<SourceToken>,
    src_len: usize,
    next: usize,
    ended: bool,
    w0: Option<usize>,
    w1: Option<usize>,
    w2: Option<usize>,
    line: usize,
    line_start: usize,
    globals: VarTable,
    locals: VarTable,
    strings: StringPool,
    functions: Vec<UserFunction>,
    next_reg: usize,
    next_global: usize,
    in_spawn: bool,
    in_fn: bool,
    captures: Vec<FxHashSet<usize>>,
    starts: Vec<usize>,
    code: Vec<Instruction>,
}

spec fn set_views(v: Seq<FxHashSet<usize>>) -> Seq<Set<usize>> {
    v.map_values(|s: FxHashSet<usize>| s@)
}

spec fn item_views(v: Seq<SourceToken>) -> Seq<Item> {
    v.map_values(|s: SourceToken| s@)
}

impl View for Parser {
    type V = St;

    closed spec fn view(&self) -> St {
        St {
            items: item_views(self.items@),
            src_len: self.src_len,
            next: self.next,
            ended: self.ended,
            w0: self.w0,
            w1: self.w1,
            w2: self.w2,
            line: self.line,
            line_start: self.line_start,
            globals: self.globals@,
            locals: self.locals@,
            strings: self.strings@,
            functions: function_views(self.functions@),
            next_reg: self.next_reg,
            next_global: self.next_global,
            in_spawn: self.in_spawn,
            in_fn: self.in_fn,
            captures: set_views(self.captures@),
            starts: self.starts@,
            code: code_view(self.code@),
        }
    }
}

/// A window slot holds a token that is there.
spec fn slot_ok(st: St, w: Option<usize>) -> bool {
    w matches Some(i) ==> i < st.items.len() && st.items[i as int].token is Ok
}

/// A later state of the same compilation.
spec fn after(a: St, b: St) -> bool {
    &&& b.items == a.items
    &&& b.starts == a.starts
    &&& b.captures.len() == a.captures.len()
    &&& b.code.len() >= a.code.len()
    &&& b.left() <= a.left()
}

impl Parser {
    /// The parts of the state fit together.
    pub closed spec fn wf(&self) -> bool {
        &&& self.globals.wf()
        &&& self.locals.wf()
        &&& self.strings.wf()
        &&& self.next <= self.items@.len() <= usize::MAX
        &&& slot_ok(self@, self.w0)
        &&& slot_ok(self@, self.w1)
        &&& slot_ok(self@, self.w2)
        &&& self.captures@.len() == self.starts@.len()
    }

    fn token_at(&self, w: Option<usize>) -> (res: Option<Token>)
        requires
            slot_ok(self@, w),
        ensures
            res == self@.token(w),
            res is Some <==> w is Some,
    {
        match w {
            Some(i) => {
                assert(self@.items[i as int] == self.items@[i as int]@);
                match &self.items[i].token {
                    Ok(t) => Some(*t),
                    Err(_) => None,
                }
            },
            None => None,
        }
    }

    fn peek(&self) -> (res: Option<Token>)
        requires
            self.wf(),
        ensures
            res == self@.peek(),
            res is Some <==> self@.w0 is Some,
    {
        self.token_at(self.w0)
    }

    fn peek_is(&self, t: Token) -> (res: bool)
        requires
            self.wf(),
        ensures
            res == (self@.peek() == Some(t)),
    {
        match self.peek() {
            Some(u) => u == t,
            None => false,
        }
    }

    fn scan_start(&self) -> (res: usize)
        requires
            self.next <= self.items@.len(),
        ensures
            res == self@.scan_start(),
    {
        if self.ended {
            self.src_len
        } else if self.next == 0 {
            0
        } else {
            assert(self@.items[self.next - 1] == self.items@[self.next - 1]@);
            self.items[self.next - 1].start
        }
    }

    fn col_of(&self, start: usize) -> (res: usize)
        ensures
            res == self@.col_of(start),
    {
        let d: usize = if start >= self.line_start {
            start - self.line_start
        } else {
            0
        };
        d.wrapping_add(1)
    }

    fn loc(&self) -> (res: Loc)
        requires
            self.next <= self.items@.len(),
            slot_ok(self@, self.w0),
        ensures
            res == self@.loc(),
    {
        let start: usize = match self.w0 {
            Some(i) => {
                assert(self@.items[i as int] == self.items@[i as int]@);
                self.items[i].start
            },
            None => self.scan_start(),
        };
        Loc { line: self.line as u32, col: self.col_of(start) as u32 }
    }

    fn here(&self) -> (res: ErrorLoc)
        requires
            self.next <= self.items@.len(),
            slot_ok(self@, self.w0),
        ensures
            res == self@.here(),
    {
        ErrorLoc { line: self.line, col: self.loc().col as usize }
    }

    fn fault(&self, msg: &str) -> (res: JitError)
        ensures
            res@ == self@.fault(msg@),
    {
        JitError::parsing(msg, self.line, 0)
    }

    /// Moves on by one token and gives the one that was next.
    fn advance(&mut self) -> (res: Result<usize, JitError>)
        requires
            old(self).wf(),
        ensures
            final(self).wf(),
            after(old(self)@, final(self)@),
            old(self)@.w0 is Some ==> final(self)@.left() < old(self)@.left(),
            final(self)@.code == old(self)@.code,
            final(self)@.captures == old(self)@.captures,
            final(self)@.next_reg == old(self)@.next_reg,
            match res {
                Ok(i) => adv(old(self)@) == (final(self)@, Ok::<usize, Fault>(i))
                    && old(self)@.w0 == Some(i) && i < final(self)@.items.len()
                    && final(self)@.items[i as int].token is Ok && final(self)@.left()
                    < old(self)@.left(),
                Err(e) => adv(old(self)@) == (final(self)@, Err::<usize, Fault>(e@)),
            },
    {
        reveal(adv);
        let res = self.w0;
        self.w0 = self.w1;
        self.w1 = self.w2;
        self.w2 = None;
        if self.next < self.items.len() {
            let k: usize = self.next;
            assert(self@.items[k as int] == self.items@[k as int]@);
            self.next = k + 1;
            let lexed: Option<LexingError> = match &self.items[k].token {
                Ok(_) => None,
                Err(e) => Some(e.clone()),
            };
            match lexed {
                Some(err) => {
                    return Err(JitError::Lexing { err, loc: self.here() });
                },
                None => {
                    self.w2 = Some(k);
                },
            }
        } else {
            self.ended = true;
        }
        match res {
            Some(i) => {
                assert(self@.items[i as int] == self.items@[i as int]@);
                if let Ok(t) = &self.items[i].token {
                    if *t == Token::Newline {
                        self.line = self.line.wrapping_add(1);
                        self.line_start = self.items[i].end;
                    }
                }
                Ok(i)
            },
            None => Err(
                JitError::Parsing { msg: "Unexpected EOF".to_owned(), loc: self.here() },
            ),
        }
    }

    /// Past line breaks and line comments.
    fn skip_newlines(&mut self)
        requires
            old(self).wf(),
        ensures
            final(self).wf(),
            after(old(self)@, final(self)@),
            final(self)@ == skip(old(self)@),
            final(self)@.code == old(self)@.code,
            final(self)@.captures == old(self)@.captures,
            final(self)@.next_reg == old(self)@.next_reg,
    {
        let ghost start = self@;
        while self.peek_is(Token::Newline) || self.peek_is(Token::LineComment)
            invariant
                self.wf(),
                after(start, self@),
                skip(self@) == skip(start),
                self@.code == start.code,
                self@.captures == start.captures,
                self@.next_reg == start.next_reg,
            decreases self@.left(),
        {
            reveal_with_fuel(skip, 2);
            let _ = self.advance();
        }
        reveal_with_fuel(skip, 2);
    }

    /// Past the given token.
    fn expect(&mut self, t: Token) -> (res: Result<(), JitError>)
        requires
            old(self).wf(),
        ensures
            match res {
                Ok(_) => expect(old(self)@, t) == Ok::<St, Fault>(final(self)@) && final(self).wf()
                    && after(old(self)@, final(self)@) && final(self)@.left() < old(self)@.left()
                    && final(self)@.code == old(self)@.code && final(self)@.captures
                    == old(self)@.captures && final(self)@.next_reg == old(self)@.next_reg,
                Err(e) => expect(old(self)@, t) == Err::<St, Fault>(e@),
            },
    {
        reveal(expect);
        let i: usize = match self.advance() {
            Ok(i) => i,
            Err(e) => {
                return Err(e);
            },
        };
        assert(self@.items[i as int] == self.items@[i as int]@);
        if let Ok(u) = &self.items[i].token {
            if *u == t {
                return Ok(());
            }
        }
        let mut msg = String::new();
        msg.append("Expected ");
        msg.append(name_of(t));
        assert(msg@ =~= "Expected "@ + token_name(t));
        let col: usize = self.col_of(self.items[i].start);
        Err(JitError::Parsing { msg, loc: ErrorLoc { line: self.line, col } })
    }

    /// The text of an item.
    fn text_of(&self, i: usize) -> (res: String)
        requires
            i < self@.items.len(),
        ensures
            res@ == self@.text(i),
    {
        assert(self@.items[i as int] == self.items@[i as int]@);
        self.items[i].text.clone()
    }

    /// Past a name, which is the result.
    fn expect_name(&mut self, msg: &str) -> (res: Result<String, JitError>)
        requires
            old(self).wf(),
        ensures
            match res {
                Ok(id) => expect_name(old(self)@, msg@) == Ok::<(St, Seq<char>), Fault>(
                    (final(self)@, id@),
                ) && final(self).wf() && after(old(self)@, final(self)@) && final(self)@.left()
                    < old(self)@.left() && final(self)@.code == old(self)@.code
                    && final(self)@.captures == old(self)@.captures && final(self)@.next_reg
                    == old(self)@.next_reg,
                Err(e) => expect_name(old(self)@, msg@) == Err::<(St, Seq<char>), Fault>(e@),
            },
    {
        reveal(expect_name);
        let i: usize = match self.advance() {
            Ok(i) => i,
            Err(e) => {
                return Err(e);
            },
        };
        assert(self@.items[i as int] == self.items@[i as int]@);
        if let Ok(u) = &self.items[i].token {
            if *u == Token::Identifier {
                return Ok(self.text_of(i));
            }
        }
        Err(self.fault(msg))
    }
}

impl Parser {
    /// A register that is not used yet.
    fn fresh(&mut self) -> (res: usize)
        requires
            old(self).wf(),
        ensures
            final(self).wf(),
            res == old(self)@.next_reg,
            final(self)@ == old(self)@.fresh(),
    {
        let r: usize = self.next_reg;
        self.next_reg = r.wrapping_add(1);
        r
    }

    fn emit(&mut self, i: Instruction)
        requires
            old(self).wf(),
        ensures
            final(self).wf(),
            final(self)@ == old(self)@.emit(op_view(i)),
    {
        proof {
            lemma_code_push(self.code@, i);
        }
        self.code.push(i);
    }

    /// Where the next instruction will stand.
    fn code_len(&self) -> (res: usize)
        ensures
            res == self@.code.len(),
    {
        self.code.len()
    }

    /// Puts an instruction in the place of an earlier one.
    fn patch(&mut self, k: usize, i: Instruction)
        requires
            old(self).wf(),
            k < old(self)@.code.len(),
            op_view(i) == Op::Plain(i),
        ensures
            final(self).wf(),
            final(self)@ == old(self)@.patch(k as int, i),
    {
        proof {
            lemma_code_update(self.code@, k as int, i);
        }
        self.code.set(k, i);
    }

    /// The id of a text in the string pool, where it is put if it is missing.
    fn intern(&mut self, s: &str) -> (res: u32)
        requires
            old(self).wf(),
        ensures
            final(self).wf(),
            final(self)@ == old(self)@.intern(s@),
            res == final(self)@.id_of(s@),
    {
        let k: usize = self.strings.intern(s);
        k as u32
    }

    fn get_var(&self, id: &str) -> (res: Option<VarInfo>)
        requires
            self.wf(),
        ensures
            res == self@.get_var(id@),
    {
        match self.locals.get(id) {
            Some(info) => Some(info),
            None => self.globals.get(id),
        }
    }

    /// Notes that the open spawns use a register from outside of them.
    fn track_capture(&mut self, reg: usize)
        requires
            old(self).wf(),
        ensures
            final(self).wf(),
            final(self)@ == old(self)@.track(reg),
    {
        let ghost before = self@;
        let mut i: usize = self.starts.len();
        assert(set_views(self.captures@) =~= before.captures);
        while i > 0 && reg < self.starts[i - 1]
            invariant
                i <= self.starts@.len() == self.captures@.len(),
                self.starts@ == before.starts,
                before.captures.len() == self.captures@.len(),
                forall|j: int| i <= j < before.starts.len() ==> reg < #[trigger] before.starts[j],
                self@ == (St { captures: set_views(self.captures@), ..before }),
                forall|k: int|
                    0 <= k < self.captures@.len() ==> (#[trigger] self.captures@[k])@ == (if k
                        >= i {
                        before.captures[k].insert(reg)
                    } else {
                        before.captures[k]
                    }),
                self.globals.wf(),
                self.locals.wf(),
                self.strings.wf(),
                self.next <= self.items@.len() <= usize::MAX,
                slot_ok(self@, self.w0),
                slot_ok(self@, self.w1),
                slot_ok(self@, self.w2),
            decreases i,
        {
            i = i - 1;
            set_insert(&mut self.captures[i], reg);
        }
        proof {
            let t = before.track(reg);
            assert forall|k: int| 0 <= k < t.captures.len() implies set_views(self.captures@)[k]
                == #[trigger] t.captures[k] by {
                assert(set_views(self.captures@)[k] == self.captures@[k]@);
                if k >= i {
                    assert(outer_to(before.starts, k, reg));
                } else {
                    assert(i > 0 && reg >= before.starts[i - 1]);
                    assert(!outer_to(before.starts, k, reg));
                }
            }
            assert(set_views(self.captures@) =~= t.captures);
        }
    }

    /// The register that holds a variable, after loading it where it is global.
    fn load_var(&mut self, info: VarInfo) -> (res: usize)
        requires
            old(self).wf(),
        ensures
            final(self).wf(),
            (final(self)@, res) == old(self)@.load_var(info),
            after(old(self)@, final(self)@),
    {
        if info.is_global {
            let r: usize = self.fresh();
            self.emit(Instruction::LoadGlobal { dst: r, global: info.idx });
            r
        } else {
            self.track_capture(info.idx);
            info.idx
        }
    }

    /// A constant in a fresh register.
    fn literal(&mut self, val: Value) -> (res: usize)
        requires
            old(self).wf(),
        ensures
            final(self).wf(),
            (final(self)@, res) == old(self)@.literal(val),
            after(old(self)@, final(self)@),
    {
        let r: usize = self.fresh();
        self.emit(Instruction::LoadLiteral { dst: r, val });
        r
    }

    /// A text in a fresh register.
    fn text_literal(&mut self, s: &str) -> (res: usize)
        requires
            old(self).wf(),
        ensures
            final(self).wf(),
            (final(self)@, res) == old(self)@.text_literal(s@),
            after(old(self)@, final(self)@),
    {
        match Value::sso(s) {
            Some(val) => self.literal(val),
            None => {
                let id: u32 = self.intern(s);
                self.literal(Value::object(id))
            },
        }
    }
}

/// A step came out well: the state is the one described and in order.
spec fn ok_with<T>(p: Result<(St, T), Fault>, a: St, b: Parser, v: T) -> bool {
    &&& p == Ok::<(St, T), Fault>((b@, v))
    &&& b.wf()
    &&& after(a, b@)
}

impl Parser {
    fn parse_expr(&mut self) -> (res: Result<usize, JitError>)
        requires
            old(self).wf(),
        ensures
            match res {
                Ok(r) => ok_with(p_expr(old(self)@), old(self)@, *final(self), r)
                    && final(self)@.left() < old(self)@.left(),
                Err(e) => p_expr(old(self)@) == Err::<(St, usize), Fault>(e@),
            },
        decreases old(self)@.left(), 5int,
    {
        reveal(p_expr);
        reveal(p_binary);
        let start: usize = match self.parse_binary(0) {
            Ok(r) => r,
            Err(e) => {
                return Err(e);
            },
        };
        if !self.peek_is(Token::Range) {
            return Ok(start);
        }
        if let Err(e) = self.advance() {
            return Err(e);
        }
        let loc = self.loc();
        let end: usize = match self.parse_binary(0) {
            Ok(r) => r,
            Err(e) => {
                return Err(e);
            },
        };
        let dst: usize = self.fresh();
        self.emit(Instruction::Range { dst, start, end, step: None, loc });
        Ok(dst)
    }

    fn parse_binary(&mut self, min_prec: u8) -> (res: Result<usize, JitError>)
        requires
            old(self).wf(),
            min_prec <= 5,
        ensures
            match res {
                Ok(r) => ok_with(p_binary(old(self)@, min_prec), old(self)@, *final(self), r)
                    && final(self)@.left() < old(self)@.left(),
                Err(e) => p_binary(old(self)@, min_prec) == Err::<(St, usize), Fault>(e@),
            },
        decreases old(self)@.left(), 4int,
    {
        let ghost start = self@;
        reveal(p_binary);
        reveal(p_primary);
        reveal(p_operators);
        let mut lhs: usize = match self.parse_primary() {
            Ok(r) => r,
            Err(e) => {
                return Err(e);
            },
        };
        loop
            invariant
                self.wf(),
                min_prec <= 5,
                after(start, self@),
                start == old(self)@,
                self@.left() < start.left(),
                p_binary(start, min_prec) == p_operators(self@, lhs, min_prec),
            decreases self@.left(),
        {
            reveal(p_operators);
            reveal(p_binary);
            let op = match self.peek() {
                Some(t) => t,
                None => {
                    return Ok(lhs);
                },
            };
            let prec: u8 = match op {
                Token::Eq | Token::Ne => 1,
                Token::Lt | Token::Le | Token::Gt | Token::Ge => 2,
                Token::Plus | Token::Minus => 3,
                Token::Mul | Token::Div => 4,
                _ => {
                    return Ok(lhs);
                },
            };
            if prec < min_prec {
                return Ok(lhs);
            }
            if let Err(e) = self.advance() {
                return Err(e);
            }
            let loc = self.loc();
            let rhs: usize = match self.parse_binary(prec + 1) {
                Ok(r) => r,
                Err(e) => {
                    return Err(e);
                },
            };
            let dst: usize = self.fresh();
            let instr = match op {
                Token::Eq => Instruction::Eq { dst, lhs, rhs },
                Token::Ne => Instruction::Ne { dst, lhs, rhs },
                Token::Lt => Instruction::Lt { dst, lhs, rhs, loc },
                Token::Le => Instruction::Le { dst, lhs, rhs, loc },
                Token::Gt => Instruction::Gt { dst, lhs, rhs, loc },
                Token::Ge => Instruction::Ge { dst, lhs, rhs, loc },
                Token::Plus => Instruction::Add { dst, lhs, rhs, loc },
                Token::Minus => Instruction::Sub { dst, lhs, rhs, loc },
                Token::Mul => Instruction::Mul { dst, lhs, rhs, loc },
                _ => Instruction::Div { dst, lhs, rhs, loc },
            };
            self.emit(instr);
            lhs = dst;
        }
    }

    fn parse_primary(&mut self) -> (res: Result<usize, JitError>)
        requires
            old(self).wf(),
        ensures
            match res {
                Ok(r) => ok_with(p_primary(old(self)@), old(self)@, *final(self), r)
                    && final(self)@.left() < old(self)@.left(),
                Err(e) => p_primary(old(self)@) == Err::<(St, usize), Fault>(e@),
            },
        decreases old(self)@.left(), 3int,
    {
        let ghost start = self@;
        reveal(p_primary);
        reveal(p_atom);
        reveal(p_suffixes);
        let mut reg: usize = match self.parse_atom() {
            Ok(r) => r,
            Err(e) => {
                return Err(e);
            },
        };
        loop
            invariant
                self.wf(),
                after(start, self@),
                start == old(self)@,
                self@.left() < start.left(),
                p_primary(start) == p_suffixes(self@, reg),
            decreases self@.left(),
        {
            reveal(p_suffixes);
            reveal(p_expr);
            reveal(p_method);
            self.skip_newlines();
            if self.peek_is(Token::LBracket) {
                if let Err(e) = self.advance() {
                    return Err(e);
                }
                let index_reg: usize = match self.parse_expr() {
                    Ok(r) => r,
                    Err(e) => {
                        return Err(e);
                    },
                };
                if let Err(e) = self.expect(Token::RBracket) {
                    return Err(e);
                }
                let loc = self.loc();
                let dst: usize = self.fresh();
                self.emit(Instruction::ListGet { dst, list: reg, index_reg, loc });
                reg = dst;
            } else if self.peek_is(Token::Dot) {
                if let Err(e) = self.advance() {
                    return Err(e);
                }
                let id = match self.expect_name("Expected property name after '.'") {
                    Ok(id) => id,
                    Err(e) => {
                        return Err(e);
                    },
                };
                let name_id: u32 = self.intern(id.as_str());
                let loc = self.loc();
                let dst: usize = self.fresh();
                self.emit(Instruction::ObjectGet { dst, obj: reg, name_id, loc });
                reg = match self.parse_method(dst) {
                    Ok(r) => r,
                    Err(e) => {
                        return Err(e);
                    },
                };
            } else {
                return Ok(reg);
            }
        }
    }

    /// A call of the field in a register, where arguments follow.
    fn parse_method(&mut self, callee_reg: usize) -> (res: Result<usize, JitError>)
        requires
            old(self).wf(),
        ensures
            match res {
                Ok(r) => ok_with(p_method(old(self)@, callee_reg), old(self)@, *final(self), r),
                Err(e) => p_method(old(self)@, callee_reg) == Err::<(St, usize), Fault>(e@),
            },
        decreases old(self)@.left(), 2int,
    {
        reveal(p_method);
        reveal(p_exprs);
        if !self.peek_is(Token::LParen) {
            return Ok(callee_reg);
        }
        if let Err(e) = self.advance() {
            return Err(e);
        }
        let args: Vec<usize> = match self.parse_exprs(Token::RParen) {
            Ok(a) => a,
            Err(e) => {
                return Err(e);
            },
        };
        let loc = self.loc();
        let dst: usize = self.fresh();
        self.emit(
            Instruction::CallDynamic { callee_reg, args_regs: Arc::new(args), dst: Some(dst), loc },
        );
        Ok(dst)
    }

    /// An operand without suffixes.
    fn parse_atom(&mut self) -> (res: Result<usize, JitError>)
        requires
            old(self).wf(),
        ensures
            match res {
                Ok(r) => ok_with(p_atom(old(self)@), old(self)@, *final(self), r)
                    && final(self)@.left() < old(self)@.left(),
                Err(e) => p_atom(old(self)@) == Err::<(St, usize), Fault>(e@),
            },
        decreases old(self)@.left(), 2int,
    {
        reveal(p_atom);
        reveal(p_expr);
        reveal(p_list);
        reveal(p_object);
        reveal(p_name);
        let loc = self.loc();
        let i: usize = match self.advance() {
            Ok(i) => i,
            Err(e) => {
                return Err(e);
            },
        };
        assert(self@.items[i as int] == self.items@[i as int]@);
        let token = match &self.items[i].token {
            Ok(t) => *t,
            Err(_) => Token::Newline,
        };
        match token {
            Token::LParen => {
                let r: usize = match self.parse_expr() {
                    Ok(r) => r,
                    Err(e) => {
                        return Err(e);
                    },
                };
                if let Err(e) = self.expect(Token::RParen) {
                    return Err(e);
                }
                Ok(r)
            },
            Token::Number => {
                let bits: u64 = self.items[i].number.bits;
                Ok(self.literal(Value::number(bits)))
            },
            Token::Bool(b) => Ok(self.literal(Value::bool(b))),
            Token::String => {
                let text = unescape_string(self.items[i].text.as_str());
                Ok(self.text_literal(text.as_str()))
            },
            Token::LBracket => self.parse_list_literal(),
            Token::LBrace => self.parse_object_literal(),
            Token::Identifier => {
                let id = self.text_of(i);
                self.parse_name(id.as_str())
            },
            _ => Err(
                JitError::parsing("Expected expression", loc.line as usize, loc.col as usize),
            ),
        }
    }

    /// Calls what a name stands for.
    fn emit_call(&mut self, id: &str, args: Vec<usize>, dst: Option<usize>)
        requires
            old(self).wf(),
        ensures
            final(self).wf(),
            after(old(self)@, final(self)@),
            final(self)@ == call(old(self)@, id@, args@, dst),
    {
        reveal(call);
        match self.get_var(id) {
            Some(info) => {
                let callee_reg: usize = self.load_var(info);
                let loc = self.loc();
                self.emit(
                    Instruction::CallDynamic { callee_reg, args_regs: Arc::new(args), dst, loc },
                );
            },
            None => {
                let name_id: u32 = self.intern(id);
                let loc = self.loc();
                self.emit(Instruction::Call { name_id, args_regs: Arc::new(args), dst, loc });
            },
        }
    }

    /// A name in an expression.
    fn parse_name(&mut self, id: &str) -> (res: Result<usize, JitError>)
        requires
            old(self).wf(),
        ensures
            match res {
                Ok(r) => ok_with(p_name(old(self)@, id@), old(self)@, *final(self), r),
                Err(e) => p_name(old(self)@, id@) == Err::<(St, usize), Fault>(e@),
            },
        decreases old(self)@.left(), 2int,
    {
        reveal(p_name);
        reveal(p_exprs);
        if self.peek_is(Token::LParen) {
            if let Err(e) = self.advance() {
                return Err(e);
            }
            let args: Vec<usize> = match self.parse_exprs(Token::RParen) {
                Ok(a) => a,
                Err(e) => {
                    return Err(e);
                },
            };
            let dst: usize = self.fresh();
            self.emit_call(id, args, Some(dst));
            Ok(dst)
        } else {
            match self.get_var(id) {
                Some(info) => Ok(self.load_var(info)),
                None => Ok(self.text_literal(id)),
            }
        }
    }

    /// Expressions with commas between them up to the closing token.
    fn parse_exprs(&mut self, close: Token) -> (res: Result<Vec<usize>, JitError>)
        requires
            old(self).wf(),
        ensures
            match res {
                Ok(regs) => ok_with(p_exprs(old(self)@, close), old(self)@, *final(self), regs@),
                Err(e) => p_exprs(old(self)@, close) == Err::<(St, Seq<usize>), Fault>(e@),
            },
        decreases old(self)@.left(), 7int,
    {
        let ghost start = self@;
        reveal(p_exprs);
        reveal(p_more_exprs);
        let mut regs: Vec<usize> = Vec::new();
        self.skip_newlines();
        if !self.peek_is(close) {
            let ghost first = self@;
            let mut more = true;
            assert(regs@ =~= Seq::<usize>::empty());
            while more
                invariant
                    self.wf(),
                    after(start, self@),
                    start == old(self)@,
                    more ==> p_more_exprs(first, close, Seq::empty()) == p_more_exprs(
                        self@,
                        close,
                        regs@,
                    ),
                    !more ==> p_more_exprs(first, close, Seq::empty()) == Ok::<
                        (St, Seq<usize>),
                        Fault,
                    >((self@, regs@)),
                    p_exprs(start, close) == (match p_more_exprs(first, close, Seq::empty()) {
                        Err(e) => Err(e),
                        Ok((a, r)) => match expect(a, close) {
                            Err(e) => Err(e),
                            Ok(b) => Ok::<(St, Seq<usize>), Fault>((b, r)),
                        },
                    }),
                decreases self@.left() + (if more {
                        1int
                    } else {
                        0int
                    }),
            {
                reveal(p_more_exprs);
                reveal(p_expr);
                self.skip_newlines();
                let r: usize = match self.parse_expr() {
                    Ok(r) => r,
                    Err(e) => {
                        return Err(e);
                    },
                };
                regs.push(r);
                self.skip_newlines();
                if self.peek_is(Token::Comma) {
                    if let Err(e) = self.advance() {
                        return Err(e);
                    }
                    if self.peek_is(close) {
                        more = false;
                    }
                } else {
                    more = false;
                }
            }
        }
        if let Err(e) = self.expect(close) {
            return Err(e);
        }
        Ok(regs)
    }

    fn parse_list_literal(&mut self) -> (res: Result<usize, JitError>)
        requires
            old(self).wf(),
        ensures
            match res {
                Ok(r) => ok_with(p_list(old(self)@), old(self)@, *final(self), r),
                Err(e) => p_list(old(self)@) == Err::<(St, usize), Fault>(e@),
            },
        decreases old(self)@.left(), 8int,
    {
        let ghost start = self@;
        reveal(p_list);
        reveal(p_exprs);
        let elements: Vec<usize> = match self.parse_exprs(Token::RBracket) {
            Ok(regs) => regs,
            Err(e) => {
                return Err(e);
            },
        };
        let dst: usize = self.fresh();
        self.emit(Instruction::NewList { dst, len: elements.len() });
        let ghost made = self@;
        let mut i: usize = 0;
        assert(fill_list(made, dst, elements@, 0) == made) by {
            reveal(fill_list);
        }
        while i < elements.len()
            invariant
                self.wf(),
                after(start, self@),
                i <= elements@.len(),
                self@ == fill_list(made, dst, elements@, i as nat),
            decreases elements@.len() - i,
        {
            reveal(fill_list);
            let bits: u64 = from_count(i as u64);
            let index_reg: usize = self.literal(Value::number(bits));
            let loc = self.loc();
            self.emit(Instruction::ListSet { list: dst, index_reg, src: elements[i], loc });
            i = i + 1;
        }
        Ok(dst)
    }

    fn parse_object_literal(&mut self) -> (res: Result<usize, JitError>)
        requires
            old(self).wf(),
        ensures
            match res {
                Ok(r) => ok_with(p_object(old(self)@), old(self)@, *final(self), r),
                Err(e) => p_object(old(self)@) == Err::<(St, usize), Fault>(e@),
            },
        decreases old(self)@.left(), 8int,
    {
        let ghost start = self@;
        reveal(p_object);
        reveal(p_fields);
        self.skip_newlines();
        let fields: Vec<(String, usize)> = if self.peek_is(Token::RBrace) {
            let none: Vec<(String, usize)> = Vec::new();
            assert(field_views(none@) =~= Seq::<(Seq<char>, usize)>::empty());
            none
        } else {
            match self.parse_fields() {
                Ok(f) => f,
                Err(e) => {
                    return Err(e);
                },
            }
        };
        if let Err(e) = self.expect(Token::RBrace) {
            return Err(e);
        }
        let dst: usize = self.fresh();
        self.emit(Instruction::NewObject { dst, capacity: fields.len() });
        let ghost made = self@;
        let ghost views = field_views(fields@);
        let mut i: usize = 0;
        assert(fill_object(made, dst, views, 0) == made) by {
            reveal(fill_object);
        }
        while i < fields.len()
            invariant
                self.wf(),
                after(start, self@),
                i <= fields@.len(),
                views == field_views(fields@),
                self@ == fill_object(made, dst, views, i as nat),
            decreases fields@.len() - i,
        {
            reveal(fill_object);
            assert(views[i as int] == (fields@[i as int].0@, fields@[i as int].1));
            let name_id: u32 = self.intern(fields[i].0.as_str());
            let loc = self.loc();
            self.emit(Instruction::ObjectSet { obj: dst, name_id, src: fields[i].1, loc });
            i = i + 1;
        }
        Ok(dst)
    }

    /// The fields of an object literal, of which there is at least one.
    fn parse_fields(&mut self) -> (res: Result<Vec<(String, usize)>, JitError>)
        requires
            old(self).wf(),
        ensures
            match res {
                Ok(f) => ok_with(
                    p_fields(old(self)@, Seq::empty()),
                    old(self)@,
                    *final(self),
                    field_views(f@),
                ),
                Err(e) => p_fields(old(self)@, Seq::empty()) == Err::<
                    (St, Seq<(Seq<char>, usize)>),
                    Fault,
                >(e@),
            },
        decreases old(self)@.left(), 7int,
    {
        let ghost start = self@;
        let mut fields: Vec<(String, usize)> = Vec::new();
        assert(field_views(fields@) =~= Seq::<(Seq<char>, usize)>::empty());
        loop
            invariant
                self.wf(),
                after(start, self@),
                start == old(self)@,
                p_fields(start, Seq::empty()) == p_fields(self@, field_views(fields@)),
            decreases self@.left(),
        {
            reveal(p_fields);
            reveal(p_expr);
            let ghost before = field_views(fields@);
            self.skip_newlines();
            let name = match self.expect_name("Expected field name") {
                Ok(id) => id,
                Err(e) => {
                    return Err(e);
                },
            };
            if let Err(e) = self.expect(Token::Colon) {
                return Err(e);
            }
            let r: usize = match self.parse_expr() {
                Ok(r) => r,
                Err(e) => {
                    return Err(e);
                },
            };
            fields.push((name, r));
            assert(field_views(fields@) =~= before.push((name@, r)));
            self.skip_newlines();
            if self.peek_is(Token::Comma) {
                if let Err(e) = self.advance() {
                    return Err(e);
                }
                if self.peek_is(Token::RBrace) {
                    return Ok(fields);
                }
            } else {
                return Ok(fields);
            }
        }
    }
}

spec fn field_views(v: Seq<(String, usize)>) -> Seq<(Seq<char>, usize)> {
    v.map_values(|f: (String, usize)| (f.0@, f.1))
}

/// A step came out well: the state is the one described and in order.
spec fn ok_state(p: Result<St, Fault>, a: St, b: Parser) -> bool {
    &&& p == Ok::<St, Fault>(b@)
    &&& b.wf()
    &&& after(a, b@)
}

/// What a function body puts aside.
struct Scope {
    locals: VarTable,
    code: Vec<Instruction>,
    next_reg: usize,
    in_spawn: bool,
    in_fn: bool,
}

impl Scope {
    spec fn holds(self, st: St) -> bool {
        &&& self.locals.wf()
        &&& self.locals@ == st.locals
        &&& code_view(self.code@) == st.code
        &&& self.next_reg == st.next_reg
        &&& self.in_spawn == st.in_spawn
        &&& self.in_fn == st.in_fn
    }
}

proof fn lemma_adv_left(st: St)
    requires
        st.w0 is Some,
        st.next <= st.items.len() <= usize::MAX,
    ensures
        adv(st).0.left() < st.left(),
{
    reveal(adv);
}

impl Parser {
    /// A statement, after line breaks. The result says whether there was one.
    fn parse_statement(&mut self) -> (res: Result<bool, JitError>)
        requires
            old(self).wf(),
        ensures
            match res {
                Ok(b) => ok_with(p_stmt(old(self)@), old(self)@, *final(self), b) && (b
                    ==> final(self)@.left() < old(self)@.left()),
                Err(e) => p_stmt(old(self)@) == Err::<(St, bool), Fault>(e@),
            },
        decreases old(self)@.left(), 9int,
    {
        reveal(p_stmt);
        reveal(p_construct);
        self.skip_newlines();
        let t = match self.peek() {
            Some(t) => t,
            None => {
                return Ok(false);
            },
        };
        if t == Token::RBrace {
            return Ok(false);
        }
        match self.parse_construct(t) {
            Ok(_) => Ok(true),
            Err(e) => Err(e),
        }
    }

    /// The statement that starts with the token `t`, which is next.
    fn parse_construct(&mut self, t: Token) -> (res: Result<(), JitError>)
        requires
            old(self).wf(),
            old(self)@.peek() == Some(t),
        ensures
            match res {
                Ok(_) => ok_state(p_construct(old(self)@, t), old(self)@, *final(self)) && final(self)@.left()
                    < old(self)@.left(),
                Err(e) => p_construct(old(self)@, t) == Err::<St, Fault>(e@),
            },
        decreases old(self)@.left(), 8int,
    {
        reveal(p_construct);
        reveal(p_for);
        reveal(p_while);
        reveal(p_fn);
        reveal(p_if);
        reveal(p_spawn);
        proof {
            lemma_adv_left(self@);
        }
        match t {
            Token::MutableVar => self.parse_var_decl(true),
            Token::ImmutableVar => self.parse_var_decl(false),
            Token::For => self.parse_for_loop(),
            Token::While => {
                let _ = self.advance();
                self.parse_while_loop()
            },
            Token::Fn => {
                let _ = self.advance();
                self.parse_fn_decl()
            },
            Token::If => {
                let _ = self.advance();
                self.parse_if_stmt()
            },
            Token::Return => {
                let _ = self.advance();
                self.parse_return_stmt()
            },
            Token::Spawn => {
                let _ = self.advance();
                self.parse_spawn_stmt()
            },
            Token::Identifier => {
                let i: usize = match self.w0 {
                    Some(i) => i,
                    None => 0,
                };
                let id = self.text_of(i);
                let _ = self.advance();
                self.parse_id_stmt(id.as_str())
            },
            _ => Err(self.unexpected(t)),
        }
    }

    /// The error that the next token starts no statement.
    fn unexpected(&self, t: Token) -> (res: JitError)
        requires
            self.wf(),
            self@.peek() == Some(t),
        ensures
            res@ == (Fault::Parsing {
                msg: "Unexpected token "@ + token_debug(t, self@.items[self@.w0->0 as int]),
                loc: self@.here(),
            }),
    {
        let i: usize = match self.w0 {
            Some(i) => i,
            None => 0,
        };
        assert(self@.items[i as int] == self.items@[i as int]@);
        let mut msg = String::new();
        msg.append("Unexpected token ");
        msg.append(name_of(t));
        match t {
            Token::Bool(b) => {
                msg.append("(");
                if b {
                    msg.append("true");
                } else {
                    msg.append("false");
                }
                msg.append(")");
            },
            Token::Number => {
                msg.append("(");
                msg.append(self.items[i].number.debug.as_str());
                msg.append(")");
            },
            Token::String | Token::Template | Token::Identifier => {
                msg.append("(");
                msg.append(quote(self.items[i].text.as_str()).as_str());
                msg.append(")");
            },
            _ => {},
        }
        assert(msg@ =~= "Unexpected token "@ + token_debug(t, self@.items[i as int]));
        JitError::Parsing { msg, loc: self.here() }
    }

    /// Statements up to a closing brace or the end.
    fn parse_statements(&mut self) -> (res: Result<(), JitError>)
        requires
            old(self).wf(),
        ensures
            match res {
                Ok(_) => ok_state(p_stmts(old(self)@), old(self)@, *final(self)),
                Err(e) => p_stmts(old(self)@) == Err::<St, Fault>(e@),
            },
        decreases old(self)@.left(), 10int,
    {
        let ghost start = self@;
        loop
            invariant
                self.wf(),
                after(start, self@),
                start == old(self)@,
                p_stmts(start) == p_stmts(self@),
            decreases self@.left(),
        {
            reveal(p_stmts);
            reveal(p_stmt);
            if self.peek().is_none() || self.peek_is(Token::RBrace) {
                return Ok(());
            }
            match self.parse_statement() {
                Ok(true) => {},
                Ok(false) => {
                    return Ok(());
                },
                Err(e) => {
                    return Err(e);
                },
            }
        }
    }

    /// Statements in braces.
    fn parse_block(&mut self) -> (res: Result<(), JitError>)
        requires
            old(self).wf(),
        ensures
            match res {
                Ok(_) => ok_state(p_block(old(self)@), old(self)@, *final(self)) && final(self)@.left()
                    < old(self)@.left(),
                Err(e) => p_block(old(self)@) == Err::<St, Fault>(e@),
            },
        decreases old(self)@.left(), 6int,
    {
        reveal(p_block);
        reveal(p_stmts);
        self.skip_newlines();
        if let Err(e) = self.expect(Token::LBrace) {
            return Err(e);
        }
        if let Err(e) = self.parse_statements() {
            return Err(e);
        }
        self.expect(Token::RBrace)
    }

    fn parse_var_decl(&mut self, is_mut: bool) -> (res: Result<(), JitError>)
        requires
            old(self).wf(),
            old(self)@.w0 is Some,
        ensures
            match res {
                Ok(_) => ok_state(p_var_decl(old(self)@, is_mut), old(self)@, *final(self)) && final(self)@.left()
                    < old(self)@.left(),
                Err(e) => p_var_decl(old(self)@, is_mut) == Err::<St, Fault>(e@),
            },
    {
        reveal(p_var_decl);
        if let Err(e) = self.advance() {
            return Err(e);
        }
        let id = match self.expect_name("Expected identifier") {
            Ok(id) => id,
            Err(e) => {
                return Err(e);
            },
        };
        if let Err(e) = self.expect(Token::Colon) {
            return Err(e);
        }
        let src: usize = match self.parse_expr() {
            Ok(r) => r,
            Err(e) => {
                return Err(e);
            },
        };
        self.declare(id.as_str(), is_mut, src);
        Ok(())
    }

    /// A new variable with the value of a register.
    fn declare(&mut self, id: &str, is_mut: bool, src: usize)
        requires
            old(self).wf(),
        ensures
            final(self).wf(),
            after(old(self)@, final(self)@),
            final(self)@ == declare(old(self)@, id@, is_mut, src),
    {
        reveal(declare);
        if !self.in_fn && !self.in_spawn {
            let idx: usize = self.next_global;
            self.next_global = idx.wrapping_add(1);
            let info = VarInfo { idx, is_mut, is_global: true, first_line: self.line };
            self.globals.insert(id, info);
            self.emit(Instruction::StoreGlobal { global: idx, src });
        } else {
            let idx: usize = self.fresh();
            let info = VarInfo { idx, is_mut, is_global: false, first_line: self.line };
            self.locals.insert(id, info);
            self.emit(Instruction::Move { dst: idx, src });
        }
    }

    fn parse_if_stmt(&mut self) -> (res: Result<(), JitError>)
        requires
            old(self).wf(),
        ensures
            match res {
                Ok(_) => ok_state(p_if(old(self)@), old(self)@, *final(self)),
                Err(e) => p_if(old(self)@) == Err::<St, Fault>(e@),
            },
        decreases old(self)@.left(), 7int,
    {
        reveal(p_if);
        reveal(p_block);
        let cond: usize = match self.parse_expr() {
            Ok(r) => r,
            Err(e) => {
                return Err(e);
            },
        };
        let jump_idx: usize = self.code_len();
        self.emit(Instruction::Jump(0));
        if let Err(e) = self.parse_block() {
            return Err(e);
        }
        if self.peek_is(Token::Else) {
            if let Err(e) = self.advance() {
                return Err(e);
            }
            let end_idx: usize = self.code_len();
            self.emit(Instruction::Jump(0));
            let target: usize = self.code_len();
            self.patch(jump_idx, Instruction::JumpIfFalse { cond, target });
            if let Err(e) = self.parse_block() {
                return Err(e);
            }
            let end: usize = self.code_len();
            self.patch(end_idx, Instruction::Jump(end));
        } else {
            let target: usize = self.code_len();
            self.patch(jump_idx, Instruction::JumpIfFalse { cond, target });
        }
        Ok(())
    }

    fn parse_while_loop(&mut self) -> (res: Result<(), JitError>)
        requires
            old(self).wf(),
        ensures
            match res {
                Ok(_) => ok_state(p_while(old(self)@), old(self)@, *final(self)),
                Err(e) => p_while(old(self)@) == Err::<St, Fault>(e@),
            },
        decreases old(self)@.left(), 7int,
    {
        reveal(p_while);
        reveal(p_block);
        let top: usize = self.code_len();
        let cond: usize = match self.parse_expr() {
            Ok(r) => r,
            Err(e) => {
                return Err(e);
            },
        };
        let jump_idx: usize = self.code_len();
        self.emit(Instruction::Jump(0));
        if let Err(e) = self.parse_block() {
            return Err(e);
        }
        self.emit(Instruction::Jump(top));
        let target: usize = self.code_len();
        self.patch(jump_idx, Instruction::JumpIfFalse { cond, target });
        Ok(())
    }

    /// A loop variable with the value of a register.
    fn loop_var(&mut self, id: &str, start: usize) -> (res: usize)
        requires
            old(self).wf(),
        ensures
            final(self).wf(),
            after(old(self)@, final(self)@),
            final(self)@ == loop_var(old(self)@, id@, start),
            final(self)@.left() == old(self)@.left(),
            res == old(self)@.next_reg,
    {
        reveal(loop_var);
        let idx: usize = self.fresh();
        let info = VarInfo { idx, is_mut: true, is_global: false, first_line: self.line };
        self.locals.insert(id, info);
        self.emit(Instruction::Move { dst: idx, src: start });
        idx
    }

    fn parse_for_loop(&mut self) -> (res: Result<(), JitError>)
        requires
            old(self).wf(),
            old(self)@.w0 is Some,
        ensures
            match res {
                Ok(_) => ok_state(p_for(old(self)@), old(self)@, *final(self)) && final(self)@.left()
                    < old(self)@.left(),
                Err(e) => p_for(old(self)@) == Err::<St, Fault>(e@),
            },
        decreases old(self)@.left(), 7int,
    {
        reveal(p_for);
        reveal(p_loop);
        let loc = self.loc();
        if let Err(e) = self.advance() {
            return Err(e);
        }
        let id = match self.expect_name("Expected identifier") {
            Ok(id) => id,
            Err(e) => {
                return Err(e);
            },
        };
        if let Err(e) = self.expect(Token::In) {
            return Err(e);
        }
        let first: usize = match self.parse_binary(0) {
            Ok(r) => r,
            Err(e) => {
                return Err(e);
            },
        };
        if self.peek_is(Token::Range) {
            if let Err(e) = self.advance() {
                return Err(e);
            }
            let end: usize = match self.parse_binary(0) {
                Ok(r) => r,
                Err(e) => {
                    return Err(e);
                },
            };
            let var: usize = self.loop_var(id.as_str(), first);
            self.parse_loop(var, end, None, loc)
        } else {
            let start_dst: usize = self.fresh();
            let end_dst: usize = self.fresh();
            let step_dst: usize = self.fresh();
            self.emit(Instruction::RangeInfo { range: first, start_dst, end_dst, step_dst });
            let var: usize = self.loop_var(id.as_str(), start_dst);
            self.parse_loop(var, end_dst, Some(step_dst), loc)
        }
    }

    /// The body of a loop, with the test before it and the step after it.
    fn parse_loop(&mut self, var: usize, end: usize, step: Option<usize>, loc: Loc) -> (res: Result<
        (),
        JitError,
    >)
        requires
            old(self).wf(),
        ensures
            match res {
                Ok(_) => ok_state(p_loop(old(self)@, Counter { var, end, step }, loc), old(self)@, *final(self)),
                Err(e) => p_loop(old(self)@, Counter { var, end, step }, loc) == Err::<St, Fault>(e@),
            },
        decreases old(self)@.left(), 7int,
    {
        reveal(p_loop);
        reveal(p_block);
        let top: usize = self.code_len();
        let cond: usize = self.fresh();
        self.emit(Instruction::Lt { dst: cond, lhs: var, rhs: end, loc });
        let jump_idx: usize = self.code_len();
        self.emit(Instruction::Jump(0));
        if let Err(e) = self.parse_block() {
            return Err(e);
        }
        match step {
            None => {
                self.emit(Instruction::Increment(var));
            },
            Some(rhs) => {
                self.emit(Instruction::Add { dst: var, lhs: var, rhs, loc });
            },
        }
        self.emit(Instruction::Jump(top));
        let target: usize = self.code_len();
        self.patch(jump_idx, Instruction::JumpIfFalse { cond, target });
        Ok(())
    }

    fn parse_spawn_stmt(&mut self) -> (res: Result<(), JitError>)
        requires
            old(self).wf(),
        ensures
            match res {
                Ok(_) => ok_state(p_spawn(old(self)@), old(self)@, *final(self)),
                Err(e) => p_spawn(old(self)@) == Err::<St, Fault>(e@),
            },
        decreases old(self)@.left(), 7int,
    {
        reveal(p_spawn);
        reveal(p_block);
        let ghost start = self@;
        let old_spawn = self.in_spawn;
        let regs_at_start: usize = self.next_reg;
        self.in_spawn = true;
        self.captures.push(set_new());
        self.starts.push(regs_at_start);
        let mut code: Vec<Instruction> = Vec::new();
        std::mem::swap(&mut code, &mut self.code);
        proof {
            assert(set_views(self.captures@) =~= start.captures.push(Set::empty()));
            assert(code_view(self.code@) =~= Seq::<Op>::empty());
        }
        if let Err(e) = self.parse_block() {
            return Err(e);
        }
        let ghost inner = self@;
        let set = match self.captures.pop() {
            Some(s) => s,
            None => set_new(),
        };
        let _ = self.starts.pop();
        self.in_spawn = old_spawn;
        std::mem::swap(&mut code, &mut self.code);
        let locals_count: usize = if self.next_reg >= regs_at_start {
            self.next_reg
        } else {
            regs_at_start
        };
        proof {
            assert(set@ == inner.captures.last());
            assert(set_views(self.captures@) =~= inner.captures.drop_last());
            assert(self.starts@ =~= inner.starts.drop_last());
            assert(inner.starts.drop_last() =~= start.starts);
        }
        let captures = list_set(set);
        self.emit(
            Instruction::Spawn {
                instructions: Arc::new(code),
                locals_count,
                captures: Arc::new(captures),
            },
        );
        Ok(())
    }

    /// The names of the parameters.
    fn parse_params(&mut self) -> (res: Result<Vec<String>, JitError>)
        requires
            old(self).wf(),
        ensures
            match res {
                Ok(v) => ok_with(
                    p_params(old(self)@, Seq::empty()),
                    old(self)@,
                    *final(self),
                    texts(v@),
                ) && final(self)@.code == old(self)@.code && final(self)@.captures
                    == old(self)@.captures,
                Err(e) => p_params(old(self)@, Seq::empty()) == Err::<
                    (St, Seq<Seq<char>>),
                    Fault,
                >(e@),
            },
    {
        let ghost start = self@;
        let mut params: Vec<String> = Vec::new();
        assert(texts(params@) =~= Seq::<Seq<char>>::empty());
        loop
            invariant
                self.wf(),
                after(start, self@),
                start == old(self)@,
                self@.code == start.code,
                self@.captures == start.captures,
                p_params(start, Seq::empty()) == p_params(self@, texts(params@)),
            decreases self@.left(),
        {
            reveal(p_params);
            let ghost before = texts(params@);
            let i: usize = match self.advance() {
                Ok(i) => i,
                Err(e) => {
                    return Err(e);
                },
            };
            assert(self@.items[i as int] == self.items@[i as int]@);
            let is_name = match &self.items[i].token {
                Ok(t) => *t == Token::Identifier,
                Err(_) => false,
            };
            if !is_name {
                return Ok(params);
            }
            let id = self.text_of(i);
            params.push(id);
            assert(texts(params@) =~= before.push(id@));
            if !self.peek_is(Token::Comma) {
                return Ok(params);
            }
            if let Err(e) = self.advance() {
                return Err(e);
            }
        }
    }

    fn parse_fn_decl(&mut self) -> (res: Result<(), JitError>)
        requires
            old(self).wf(),
        ensures
            match res {
                Ok(_) => ok_state(p_fn(old(self)@), old(self)@, *final(self)),
                Err(e) => p_fn(old(self)@) == Err::<St, Fault>(e@),
            },
        decreases old(self)@.left(), 7int,
    {
        reveal(p_fn);
        reveal(p_block);
        let ghost start = self@;
        let name = match self.expect_name("Expected function name") {
            Ok(id) => id,
            Err(e) => {
                return Err(e);
            },
        };
        if let Err(e) = self.expect(Token::LParen) {
            return Err(e);
        }
        let params: Vec<String> = if self.peek_is(Token::RParen) {
            let none: Vec<String> = Vec::new();
            assert(texts(none@) =~= Seq::<Seq<char>>::empty());
            none
        } else {
            match self.parse_params() {
                Ok(v) => v,
                Err(e) => {
                    return Err(e);
                },
            }
        };
        if let Err(e) = self.expect(Token::RParen) {
            return Err(e);
        }
        let ghost around = self@;
        let scope = self.enter_fn();
        self.bind_params(&params);
        if let Err(e) = self.parse_block() {
            return Err(e);
        }
        self.finish_fn(scope, name.as_str(), params.len(), Ghost(around));
        Ok(())
    }

    /// Starts a function body: no local names, no registers, no code.
    fn enter_fn(&mut self) -> (res: Scope)
        requires
            old(self).wf(),
        ensures
            final(self).wf(),
            final(self)@ == (St {
                locals: Map::empty(),
                next_reg: 0,
                in_spawn: false,
                in_fn: true,
                code: Seq::empty(),
                ..old(self)@
            }),
            res.holds(old(self)@),
    {
        let mut locals = VarTable::new();
        std::mem::swap(&mut locals, &mut self.locals);
        let mut code: Vec<Instruction> = Vec::new();
        std::mem::swap(&mut code, &mut self.code);
        let scope = Scope {
            locals,
            code,
            next_reg: self.next_reg,
            in_spawn: self.in_spawn,
            in_fn: self.in_fn,
        };
        self.next_reg = 0;
        self.in_spawn = false;
        self.in_fn = true;
        assert(code_view(self.code@) =~= Seq::<Op>::empty());
        scope
    }

    /// Ends a function body and brings back the scope around it.
    fn finish_fn(&mut self, scope: Scope, name: &str, params_count: usize, Ghost(around): Ghost<St>)
        requires
            old(self).wf(),
            scope.holds(around),
        ensures
            final(self).wf(),
            final(self)@ == finish_fn(old(self)@, around, name@, params_count),
            final(self)@.code == around.code,
            final(self)@.items == old(self)@.items,
            final(self)@.starts == old(self)@.starts,
            final(self)@.captures == old(self)@.captures,
            final(self)@.left() == old(self)@.left(),
    {
        reveal(finish_fn);
        let ghost body = self@;
        let ends = match self.code.last() {
            Some(Instruction::Return(_)) => true,
            _ => false,
        };
        assert(ends == ends_with_return(body.code));
        if !ends {
            self.emit(Instruction::Return(None));
        }
        let locals_count: usize = self.next_reg;
        let name_id: u32 = self.intern(name);
        let ghost functions = self@.functions;
        let mut code = scope.code;
        std::mem::swap(&mut code, &mut self.code);
        let f = UserFunction { name_id, instructions: Arc::new(code), locals_count, params_count };
        self.functions.push(f);
        assert(function_views(self.functions@) =~= functions.push(f@));
        self.locals = scope.locals;
        self.next_reg = scope.next_reg;
        self.in_spawn = scope.in_spawn;
        self.in_fn = scope.in_fn;
    }

    /// The parameters in the first registers.
    fn bind_params(&mut self, params: &Vec<String>)
        requires
            old(self).wf(),
        ensures
            final(self).wf(),
            after(old(self)@, final(self)@),
            final(self)@ == bind_params(old(self)@, texts(params@), texts(params@).len()),
    {
        let ghost start = self@;
        let ghost names = texts(params@);
        let mut i: usize = 0;
        assert(bind_params(start, names, 0) == start) by {
            reveal(bind_params);
        }
        while i < params.len()
            invariant
                self.wf(),
                after(start, self@),
                i <= params@.len(),
                names == texts(params@),
                self@ == bind_params(start, names, i as nat),
            decreases params@.len() - i,
        {
            reveal(bind_params);
            assert(names[i as int] == params@[i as int]@);
            let line: usize = self.line;
            let idx: usize = self.fresh();
            let info = VarInfo { idx, is_mut: false, is_global: false, first_line: line };
            self.locals.insert(params[i].as_str(), info);
            i = i + 1;
        }
    }

    fn parse_return_stmt(&mut self) -> (res: Result<(), JitError>)
        requires
            old(self).wf(),
        ensures
            match res {
                Ok(_) => ok_state(p_return(old(self)@), old(self)@, *final(self)),
                Err(e) => p_return(old(self)@) == Err::<St, Fault>(e@),
            },
    {
        reveal(p_return);
        let bare = match self.peek() {
            None => true,
            Some(t) => t == Token::Newline || t == Token::RBrace,
        };
        if bare {
            self.emit(Instruction::Return(None));
        } else {
            let r: usize = match self.parse_expr() {
                Ok(r) => r,
                Err(e) => {
                    return Err(e);
                },
            };
            self.emit(Instruction::Return(Some(r)));
        }
        Ok(())
    }

    fn parse_id_stmt(&mut self, id: &str) -> (res: Result<(), JitError>)
        requires
            old(self).wf(),
        ensures
            match res {
                Ok(_) => ok_state(p_name_stmt(old(self)@, id@), old(self)@, *final(self)),
                Err(e) => p_name_stmt(old(self)@, id@) == Err::<St, Fault>(e@),
            },
    {
        reveal(p_name_stmt);
        if self.peek_is(Token::Colon) || self.peek_is(Token::LBracket) || self.peek_is(Token::Dot) {
            self.parse_assignment(id)
        } else {
            self.parse_call_stmt(id)
        }
    }

    fn parse_call_stmt(&mut self, id: &str) -> (res: Result<(), JitError>)
        requires
            old(self).wf(),
        ensures
            match res {
                Ok(_) => ok_state(p_call_stmt(old(self)@, id@), old(self)@, *final(self)),
                Err(e) => p_call_stmt(old(self)@, id@) == Err::<St, Fault>(e@),
            },
    {
        reveal(p_call_stmt);
        let args: Vec<usize> = if self.peek_is(Token::LParen) {
            if let Err(e) = self.advance() {
                return Err(e);
            }
            match self.parse_exprs(Token::RParen) {
                Ok(a) => a,
                Err(e) => {
                    return Err(e);
                },
            }
        } else {
            match self.parse_bare_args() {
                Ok(a) => a,
                Err(e) => {
                    return Err(e);
                },
            }
        };
        self.emit_call(id, args, None);
        Ok(())
    }

    /// The arguments of a call without parentheses.
    fn parse_bare_args(&mut self) -> (res: Result<Vec<usize>, JitError>)
        requires
            old(self).wf(),
        ensures
            match res {
                Ok(v) => ok_with(
                    p_bare_args(old(self)@, Seq::empty()),
                    old(self)@,
                    *final(self),
                    v@,
                ),
                Err(e) => p_bare_args(old(self)@, Seq::empty()) == Err::<
                    (St, Seq<usize>),
                    Fault,
                >(e@),
            },
    {
        let ghost start = self@;
        let mut args: Vec<usize> = Vec::new();
        assert(args@ =~= Seq::<usize>::empty());
        loop
            invariant
                self.wf(),
                after(start, self@),
                start == old(self)@,
                p_bare_args(start, Seq::empty()) == p_bare_args(self@, args@),
            decreases self@.left(),
        {
            reveal(p_bare_args);
            match self.peek() {
                None => {
                    return Ok(args);
                },
                Some(t) => {
                    if t == Token::Newline || t == Token::RBrace || t == Token::RParen || t
                        == Token::RBracket || t == Token::Comma {
                        return Ok(args);
                    }
                },
            }
            let r: usize = match self.parse_expr() {
                Ok(r) => r,
                Err(e) => {
                    return Err(e);
                },
            };
            args.push(r);
            if !self.peek_is(Token::Comma) {
                return Ok(args);
            }
            if let Err(e) = self.advance() {
                return Err(e);
            }
        }
    }

    /// The indices and fields after a variable.
    fn parse_accessors(&mut self) -> (res: Result<Vec<Accessor>, JitError>)
        requires
            old(self).wf(),
        ensures
            match res {
                Ok(v) => ok_with(
                    p_accessors(old(self)@, Seq::empty()),
                    old(self)@,
                    *final(self),
                    v@,
                ),
                Err(e) => p_accessors(old(self)@, Seq::empty()) == Err::<
                    (St, Seq<Accessor>),
                    Fault,
                >(e@),
            },
    {
        let ghost start = self@;
        let mut accs: Vec<Accessor> = Vec::new();
        assert(accs@ =~= Seq::<Accessor>::empty());
        loop
            invariant
                self.wf(),
                after(start, self@),
                start == old(self)@,
                p_accessors(start, Seq::empty()) == p_accessors(self@, accs@),
            decreases self@.left(),
        {
            reveal(p_accessors);
            if self.peek_is(Token::LBracket) {
                if let Err(e) = self.advance() {
                    return Err(e);
                }
                let r: usize = match self.parse_expr() {
                    Ok(r) => r,
                    Err(e) => {
                        return Err(e);
                    },
                };
                if let Err(e) = self.expect(Token::RBracket) {
                    return Err(e);
                }
                accs.push(Accessor::Index(r));
            } else if self.peek_is(Token::Dot) {
                if let Err(e) = self.advance() {
                    return Err(e);
                }
                let field = match self.expect_name("Expected field name after '.'") {
                    Ok(id) => id,
                    Err(e) => {
                        return Err(e);
                    },
                };
                let name_id: u32 = self.intern(field.as_str());
                accs.push(Accessor::Field(name_id));
            } else {
                return Ok(accs);
            }
        }
    }

    /// The part that the first `n` steps lead to, in a register.
    fn walk(&mut self, from: usize, accs: &Vec<Accessor>, n: usize, loc: Loc) -> (res: usize)
        requires
            old(self).wf(),
            n <= accs@.len(),
        ensures
            final(self).wf(),
            after(old(self)@, final(self)@),
            (final(self)@, res) == walk(old(self)@, from, accs@, n as nat, loc),
    {
        let ghost start = self@;
        let mut current: usize = from;
        let mut i: usize = 0;
        assert(walk(start, from, accs@, 0, loc) == (start, from)) by {
            reveal(walk);
        }
        while i < n
            invariant
                self.wf(),
                after(start, self@),
                i <= n <= accs@.len(),
                (self@, current) == walk(start, from, accs@, i as nat, loc),
            decreases n - i,
        {
            reveal(walk);
            let dst: usize = self.fresh();
            match accs[i] {
                Accessor::Index(index_reg) => {
                    self.emit(Instruction::ListGet { dst, list: current, index_reg, loc });
                },
                Accessor::Field(name_id) => {
                    self.emit(Instruction::ObjectGet { dst, obj: current, name_id, loc });
                },
            }
            current = dst;
            i = i + 1;
        }
        current
    }

    fn name_at(&self, w: Option<usize>, id: &str) -> (res: bool)
        requires
            slot_ok(self@, w),
        ensures
            res == self@.is_name(w, id@),
    {
        match w {
            Some(i) => {
                let t = self.token_at(w);
                assert(self@.items[i as int] == self.items@[i as int]@);
                match t {
                    Some(Token::Identifier) => same_text(self.items[i].text.as_str(), id),
                    _ => false,
                }
            },
            None => false,
        }
    }

    fn one_at(&self, w: Option<usize>) -> (res: bool)
        requires
            slot_ok(self@, w),
        ensures
            res == self@.is_one(w),
    {
        match w {
            Some(i) => {
                let t = self.token_at(w);
                assert(self@.items[i as int] == self.items@[i as int]@);
                match t {
                    Some(Token::Number) => self.items[i].number.bits == ONE,
                    _ => false,
                }
            },
            None => false,
        }
    }

    /// The right side is the variable and one, and nothing after it.
    fn increment_follows(&self, id: &str) -> (res: bool)
        requires
            self.wf(),
        ensures
            res == is_increment(self@, id@),
    {
        reveal(is_increment);
        let plus = match self.token_at(self.w1) {
            Some(Token::Plus) => true,
            _ => false,
        };
        let mut end = true;
        if self.next < self.items.len() {
            assert(self@.items[self.next as int] == self.items@[self.next as int]@);
            end = match &self.items[self.next].token {
                Ok(t) => *t == Token::Newline || *t == Token::RBrace || *t == Token::Comma || *t
                    == Token::RParen,
                Err(_) => false,
            };
        }
        plus && end && ((self.name_at(self.w0, id) && self.one_at(self.w2)) || (self.one_at(
            self.w0,
        ) && self.name_at(self.w2, id)))
    }

    /// The error of giving an immutable variable another value.
    fn immutable(&self, id: &str, info: VarInfo) -> (res: JitError)
        ensures
            res@ == immutable(self@, id@, info),
    {
        JitError::RedefinitionOfImmutableVariable {
            msg: id.to_owned(),
            loc: ErrorLoc { line: self.line, col: 0 },
            orig_line: info.first_line,
        }
    }

    /// One more in the variable.
    fn parse_increment(&mut self, id: &str, info: VarInfo) -> (res: Result<(), JitError>)
        requires
            old(self).wf(),
        ensures
            match res {
                Ok(_) => ok_state(increment(old(self)@, id@, info), old(self)@, *final(self)),
                Err(e) => increment(old(self)@, id@, info) == Err::<St, Fault>(e@),
            },
    {
        reveal(increment);
        if let Err(e) = self.advance() {
            return Err(e);
        }
        if let Err(e) = self.advance() {
            return Err(e);
        }
        if let Err(e) = self.advance() {
            return Err(e);
        }
        if !info.is_mut {
            return Err(self.immutable(id, info));
        }
        if info.is_global {
            self.emit(Instruction::IncrementGlobal(info.idx));
        } else {
            self.emit(Instruction::Increment(info.idx));
        }
        Ok(())
    }

    /// The value of a register in the variable, or in a part of what it holds.
    fn store(
        &mut self,
        id: &str,
        info: VarInfo,
        accs: &Vec<Accessor>,
        src: usize,
        loc: Loc,
    ) -> (res: Result<(), JitError>)
        requires
            old(self).wf(),
        ensures
            match res {
                Ok(_) => ok_state(store(old(self)@, id@, info, accs@, src, loc), old(self)@, *final(self)),
                Err(e) => store(old(self)@, id@, info, accs@, src, loc) == Err::<St, Fault>(e@),
            },
    {
        reveal(store);
        let n: usize = accs.len();
        if n == 0 {
            if !info.is_mut {
                return Err(self.immutable(id, info));
            }
            if info.is_global {
                self.emit(Instruction::StoreGlobal { global: info.idx, src });
            } else {
                self.emit(Instruction::Move { dst: info.idx, src });
            }
        } else {
            let from: usize = self.load_var(info);
            let current: usize = self.walk(from, accs, n - 1, loc);
            match accs[n - 1] {
                Accessor::Index(index_reg) => {
                    self.emit(Instruction::ListSet { list: current, index_reg, src, loc });
                },
                Accessor::Field(name_id) => {
                    self.emit(Instruction::ObjectSet { obj: current, name_id, src, loc });
                },
            }
        }
        Ok(())
    }

    fn parse_assignment(&mut self, id: &str) -> (res: Result<(), JitError>)
        requires
            old(self).wf(),
        ensures
            match res {
                Ok(_) => ok_state(p_assign(old(self)@, id@), old(self)@, *final(self)),
                Err(e) => p_assign(old(self)@, id@) == Err::<St, Fault>(e@),
            },
    {
        reveal(p_assign);
        let loc = self.loc();
        let info = match self.get_var(id) {
            Some(info) => info,
            None => {
                return Err(JitError::unknown_variable(id, loc.line as usize, loc.col as usize));
            },
        };
        let accs: Vec<Accessor> = match self.parse_accessors() {
            Ok(v) => v,
            Err(e) => {
                return Err(e);
            },
        };
        let n: usize = accs.len();
        let field = if n > 0 {
            match accs[n - 1] {
                Accessor::Field(_) => true,
                Accessor::Index(_) => false,
            }
        } else {
            false
        };
        if field && self.peek_is(Token::LParen) {
            if let Err(e) = self.advance() {
                return Err(e);
            }
            let args: Vec<usize> = match self.parse_exprs(Token::RParen) {
                Ok(a) => a,
                Err(e) => {
                    return Err(e);
                },
            };
            let from: usize = self.load_var(info);
            let callee_reg: usize = self.walk(from, &accs, n, loc);
            let at = self.loc();
            self.emit(
                Instruction::CallDynamic {
                    callee_reg,
                    args_regs: Arc::new(args),
                    dst: None,
                    loc: at,
                },
            );
            return Ok(());
        }
        if let Err(e) = self.expect(Token::Colon) {
            return Err(e);
        }
        if n == 0 && self.increment_follows(id) {
            return self.parse_increment(id, info);
        }
        let src: usize = match self.parse_expr() {
            Ok(r) => r,
            Err(e) => {
                return Err(e);
            },
        };
        self.store(id, info, &accs, src, loc)
    }
}

/// The state in which compiling a source text starts, or the error that shows
/// in its first tokens.
pub open spec fn opened_source(input: Seq<char>, numbers: Seq<NumberView>) -> Result<St, Fault> {
    opened(items_of(lexed(input), numbers), encode_utf8(input).len() as usize)
}

impl Parser {
    /// Opens a source text. The numbers are the values of its number literals,
    /// in their order; a literal without a value is an error.
    pub fn new(input: &str, numbers: &Vec<NumberLit>) -> (res: Result<Self, JitError>)
        ensures
            match res {
                Ok(p) => opened_source(input@, number_views(numbers@)) == Ok::<St, Fault>(p@)
                    && p.wf(),
                Err(e) => opened_source(input@, number_views(numbers@)) == Err::<St, Fault>(e@),
            },
    {
        let items = source_tokens(input, numbers);
        let src_len: usize = input.as_bytes().len();
        let n: usize = items.len();
        let mut p = Parser {
            items,
            src_len,
            next: 0,
            ended: false,
            w0: None,
            w1: None,
            w2: None,
            line: 1,
            line_start: 0,
            globals: VarTable::new(),
            locals: VarTable::new(),
            strings: StringPool::new(),
            functions: Vec::new(),
            next_reg: 0,
            next_global: 0,
            in_spawn: false,
            in_fn: false,
            captures: Vec::new(),
            starts: Vec::new(),
            code: Vec::new(),
        };
        proof {
            assert(function_views(p.functions@) =~= Seq::empty());
            assert(set_views(p.captures@) =~= Seq::<Set<usize>>::empty());
            assert(p.starts@ =~= Seq::<usize>::empty());
            assert(code_view(p.code@) =~= Seq::<Op>::empty());
            assert(p@ == start(p@.items, src_len));
        }
        if let Err(e) = p.fill() {
            return Err(e);
        }
        if let Err(e) = p.fill() {
            return Err(e);
        }
        if let Err(e) = p.fill() {
            return Err(e);
        }
        Ok(p)
    }

    /// Brings the next token into the window.
    fn fill(&mut self) -> (res: Result<(), JitError>)
        requires
            old(self).wf(),
        ensures
            match res {
                Ok(_) => fill(old(self)@) == Ok::<St, Fault>(final(self)@) && final(self).wf(),
                Err(e) => fill(old(self)@) == Err::<St, Fault>(e@),
            },
    {
        reveal(fill);
        match self.advance() {
            Ok(_) => Ok(()),
            Err(e) => match e {
                JitError::Lexing { err, loc } => Err(JitError::Lexing { err, loc }),
                _ => Ok(()),
            },
        }
    }

    /// Compiles the source text.
    pub fn compile(self) -> (res: Result<Program, JitError>)
        requires
            self.wf(),
        ensures
            match res {
                Ok(p) => compiled(self@) == Ok::<ProgramView, Fault>(p@)
                    && p@.strings.no_duplicates(),
                Err(e) => compiled(self@) == Err::<ProgramView, Fault>(e@),
            },
    {
        let mut parser = self;
        if let Err(e) = parser.parse_statements() {
            return Err(e);
        }
        let ghost st = parser@;
        proof {
            parser.strings.lemma_no_duplicates();
        }
        let program = Program {
            instructions: Arc::new(parser.code),
            functions: parser.functions,
            string_pool: parser.strings.into_strings(),
            locals_count: parser.next_reg,
            globals_count: parser.next_global,
        };
        assert(program@ == program_of(st));
        Ok(program)
    }
}

/// The lexemes of a source text with their numbers.
fn source_tokens(input: &str, numbers: &Vec<NumberLit>) -> (res: Vec<SourceToken>)
    ensures
        item_views(res@) == items_of(lexed(input@), number_views(numbers@)),
{
    let ls = lex(input);
    let ghost views = lexeme_views(ls@);
    let ghost values = number_views(numbers@);
    let mut res: Vec<SourceToken> = Vec::new();
    let mut count: usize = 0;
    let mut k: usize = 0;
    while k < ls.len()
        invariant
            k <= ls@.len(),
            views == lexeme_views(ls@),
            values == number_views(numbers@),
            res@.len() == k,
            count <= k,
            count == numbers_before(views, k as nat),
            forall|j: int| 0 <= j < k ==> (#[trigger] res@[j])@ == item_at(views, values, j),
        decreases ls@.len() - k,
    {
        assert(views[k as int] == ls@[k as int]@);
        let l = &ls[k];
        let mut bits: u64 = 0;
        let mut debug = String::new();
        let mut seen: usize = count;
        let token: Result<Token, LexingError> = match &l.token {
            Ok(Token::Number) => {
                seen = count + 1;
                if count < numbers.len() {
                    bits = numbers[count].bits;
                    debug = numbers[count].debug.clone();
                    assert(values[count as int] == numbers@[count as int]@);
                    Ok(Token::Number)
                } else {
                    Err(LexingError::from_float())
                }
            },
            Ok(t) => Ok(*t),
            Err(e) => Err(e.clone()),
        };
        let item = SourceToken {
            token,
            text: l.text.clone(),
            number: NumberLit { bits, debug },
            start: l.start,
            end: l.end,
        };
        assert(item@.number.debug =~= item_at(views, values, k as int).number.debug);
        res.push(item);
        count = seen;
        k = k + 1;
    }
    assert(item_views(res@) =~= items_of(views, values));
    res
}

/// The name of a token in messages.
fn name_of(t: Token) -> (res: &'static str)
    ensures
        res@ == token_name(t),
{
    match t {
        Token::MutableVar => "MutableVar",
        Token::ImmutableVar => "ImmutableVar",
        Token::Fn => "Fn",
        Token::Return => "Return",
        Token::Continue => "Continue",
        Token::If => "If",
        Token::Else => "Else",
        Token::Colon => "Colon",
        Token::Newline => "Newline",
        Token::Spawn => "Spawn",
        Token::For => "For",
        Token::While => "While",
        Token::In => "In",
        Token::Range => "Range",
        Token::Dot => "Dot",
        Token::LBrace => "LBrace",
        Token::RBrace => "RBrace",
        Token::LParen => "LParen",
        Token::RParen => "RParen",
        Token::LBracket => "LBracket",
        Token::RBracket => "RBracket",
        Token::Comma => "Comma",
        Token::Plus => "Plus",
        Token::Minus => "Minus",
        Token::Mul => "Mul",
        Token::Div => "Div",
        Token::Eq => "Eq",
        Token::Ne => "Ne",
        Token::Lt => "Lt",
        Token::Le => "Le",
        Token::Gt => "Gt",
        Token::Ge => "Ge",
        Token::Not => "Not",
        Token::Bool(_) => "Bool",
        Token::Number => "Number",
        Token::String => "String",
        Token::Template => "Template",
        Token::Identifier => "Identifier",
        Token::LineComment => "LineComment",
    }
}

} // verus!
