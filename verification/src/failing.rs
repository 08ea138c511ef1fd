//! What goes wrong in a script, and what is said of it.
use crate::compiler::Instruction;
use crate::compiler::Loc;
use crate::compiler::Op;
use crate::compiler::ProgramView;
use crate::context::lemma_new_object;
use crate::context::Ctx;
use crate::error::ErrorLoc;
use crate::error::Fault;
use crate::grammar::adv;
use crate::grammar::compiled;
use crate::grammar::expect;
use crate::grammar::expect_name;
use crate::grammar::fill;
use crate::grammar::opened;
use crate::grammar::p_assign;
use crate::grammar::p_atom;
use crate::grammar::p_binary;
use crate::grammar::p_construct;
use crate::grammar::p_expr;
use crate::grammar::p_if;
use crate::grammar::p_primary;
use crate::grammar::p_stmts;
use crate::grammar::p_while;
use crate::grammar::store;
use crate::grammar::token_debug;
use crate::grammar::token_name;
use crate::grammar::Item;
use crate::grammar::St;
use crate::grammar::VarInfo;
use crate::heap::ObjView;
use crate::lexer::LexFault;
use crate::lexer::Token;
use crate::machine::arith;
use crate::machine::compared;
use crate::machine::e_add;
use crate::machine::e_call_dynamic;
use crate::machine::e_list_get;
use crate::machine::e_list_set;
use crate::machine::e_method;
use crate::machine::e_object_get;
use crate::machine::e_object_set;
use crate::machine::e_range;
use crate::machine::e_range_info;
use crate::machine::effect;
use crate::machine::plain_effect;
use crate::machine::put;
use crate::machine::reg;
use crate::machine::reg_list;
use crate::machine::set_object;
use crate::machine::Asks;
use crate::machine::Effect;
use crate::machine::Machine;
use crate::memory::has_reg;
use crate::number::truncated;
use crate::text::decimal;
use crate::text::quoted;
use crate::value::law_boxes_round_trip;
use crate::value::Kind;
use crate::value::Value;
use vstd::prelude::*;

verus! {

/// The instruction fails with the message, at its place in the source.
pub open spec fn fails(ctx: Ctx, id: usize, op: Op, msg: Seq<char>, loc: Loc) -> bool {
    effect(ctx, id, op) == Effect::Fail(
        Fault::Runtime {
            msg,
            loc: ErrorLoc { line: loc.line as usize, col: loc.col as usize },
        },
    )
}

/// Arithmetic and comparisons on what is no number say which sign they are.
pub proof fn law_signs_want_numbers(
    ctx: Ctx,
    id: usize,
    dst: usize,
    lhs: usize,
    rhs: usize,
    loc: Loc,
)
    requires
        !(reg(ctx, id, lhs).kind() is Number) || !(reg(ctx, id, rhs).kind() is Number),
    ensures
        fails(
            ctx,
            id,
            Op::Plain(Instruction::Sub { dst, lhs, rhs, loc }),
            "Math error: expected numbers for '"@ + "-"@ + "'"@,
            loc,
        ),
        fails(
            ctx,
            id,
            Op::Plain(Instruction::Mul { dst, lhs, rhs, loc }),
            "Math error: expected numbers for '"@ + "*"@ + "'"@,
            loc,
        ),
        fails(
            ctx,
            id,
            Op::Plain(Instruction::Div { dst, lhs, rhs, loc }),
            "Math error: expected numbers for '"@ + "/"@ + "'"@,
            loc,
        ),
        fails(
            ctx,
            id,
            Op::Plain(Instruction::Lt { dst, lhs, rhs, loc }),
            "Compare error: expected numbers for '"@ + "<"@ + "'"@,
            loc,
        ),
        fails(
            ctx,
            id,
            Op::Plain(Instruction::Le { dst, lhs, rhs, loc }),
            "Compare error: expected numbers for '"@ + "<="@ + "'"@,
            loc,
        ),
        fails(
            ctx,
            id,
            Op::Plain(Instruction::Gt { dst, lhs, rhs, loc }),
            "Compare error: expected numbers for '"@ + ">"@ + "'"@,
            loc,
        ),
        fails(
            ctx,
            id,
            Op::Plain(Instruction::Ge { dst, lhs, rhs, loc }),
            "Compare error: expected numbers for '"@ + ">="@ + "'"@,
            loc,
        ),
        ctx.text(reg(ctx, id, lhs)) is None || ctx.text(reg(ctx, id, rhs)) is None ==> fails(
            ctx,
            id,
            Op::Plain(Instruction::Add { dst, lhs, rhs, loc }),
            "Add error: expected numbers or strings"@,
            loc,
        ),
{
    reveal(effect);
    reveal(plain_effect);
    reveal(compared);
    reveal(arith);
    reveal(e_add);
}

/// A range of what is no number says which of its parts is none, the start first.
pub proof fn law_ranges_want_numbers(
    ctx: Ctx,
    id: usize,
    dst: usize,
    start: usize,
    end: usize,
    step: usize,
    loc: Loc,
)
    ensures
        ({
            let plain = Op::Plain(Instruction::Range { dst, start, end, step: None, loc });
            let stepped = Op::Plain(Instruction::Range { dst, start, end, step: Some(step), loc });
            let starts = reg(ctx, id, start).kind() is Number;
            let ends = reg(ctx, id, end).kind() is Number;
            &&& !starts ==> fails(ctx, id, plain, "Range start must be a number"@, loc)
            &&& !starts ==> fails(ctx, id, stepped, "Range start must be a number"@, loc)
            &&& starts && !ends ==> fails(ctx, id, plain, "Range end must be a number"@, loc)
            &&& starts && !ends ==> fails(ctx, id, stepped, "Range end must be a number"@, loc)
            &&& starts && ends && !(reg(ctx, id, step).kind() is Number) ==> fails(
                ctx,
                id,
                stepped,
                "Range step must be a number"@,
                loc,
            )
        }),
{
    reveal(effect);
    reveal(plain_effect);
    reveal(e_range);
}

/// Taking apart what is no range gives a range without a step in it: from zero to
/// zero by one.
pub proof fn law_what_is_no_range_is_empty(
    ctx: Ctx,
    id: usize,
    range: usize,
    start_dst: usize,
    end_dst: usize,
    step_dst: usize,
)
    requires
        has_reg(ctx, id, start_dst),
        has_reg(ctx, id, end_dst),
        has_reg(ctx, id, step_dst),
        start_dst != end_dst,
        end_dst != step_dst,
        start_dst != step_dst,
        !(ctx.deref(reg(ctx, id, range)) matches Some(ObjView::Range { .. })),
    ensures
        effect(
            ctx,
            id,
            Op::Plain(Instruction::RangeInfo { range, start_dst, end_dst, step_dst }),
        ) matches Effect::Next(c) && reg(c, id, start_dst) == Value(0) && reg(c, id, end_dst)
            == Value(0) && reg(c, id, step_dst) == Value(0x3ff0000000000000),
{
    reveal(effect);
    reveal(plain_effect);
    reveal(e_range_info);
    reveal(put);
}

/// An index that is no number, a list that is none and an element that is not
/// there are errors; the last names the index and how long the list is.
pub proof fn law_elements_want_lists(
    ctx: Ctx,
    id: usize,
    dst: usize,
    list: usize,
    index_reg: usize,
    src: usize,
    loc: Loc,
)
    ensures
        ({
            let get = Op::Plain(Instruction::ListGet { dst, list, index_reg, loc });
            let set = Op::Plain(Instruction::ListSet { list, index_reg, src, loc });
            match reg(ctx, id, index_reg).kind() {
                Kind::Number(n) => match ctx.deref(reg(ctx, id, list)) {
                    Some(ObjView::List(l)) => truncated(n) as usize >= l.len() ==> fails(
                        ctx,
                        id,
                        get,
                        "Index out of bounds: "@ + decimal(truncated(n) as usize as nat)
                            + " for list of length "@ + decimal(l.len()),
                        loc,
                    ),
                    _ => fails(ctx, id, get, "Expected list for indexing"@, loc) && fails(
                        ctx,
                        id,
                        set,
                        "Expected list for indexing"@,
                        loc,
                    ),
                },
                _ => fails(ctx, id, get, "List index must be a number"@, loc) && fails(
                    ctx,
                    id,
                    set,
                    "List index must be a number"@,
                    loc,
                ),
            }
        }),
{
    reveal(effect);
    reveal(plain_effect);
    reveal(e_list_get);
    reveal(e_list_set);
}

/// Only what is on the heap and has fields has fields to read or to write.
pub proof fn law_fields_want_objects(
    ctx: Ctx,
    id: usize,
    dst: usize,
    obj: usize,
    name_id: u32,
    src: usize,
    loc: Loc,
)
    ensures
        ({
            let get = Op::Plain(Instruction::ObjectGet { dst, obj, name_id, loc });
            let set = Op::Plain(Instruction::ObjectSet { obj, name_id, src, loc });
            let held = ctx.deref(reg(ctx, id, obj));
            &&& !(held matches Some(ObjView::Object(_))) ==> fails(
                ctx,
                id,
                set,
                "Expected object for property assignment"@,
                loc,
            )
            &&& held is None || held->0 is Text || held->0 is BoundMethod ==> fails(ctx, id, get, "Expected object for property access"@, loc)
        }),
{
    reveal(effect);
    reveal(plain_effect);
    reveal(e_object_get);
    reveal(e_object_set);
}

/// Only lists are padded, with zeros where no value is given, and only ranges have
/// another step, which is one where none is given. Any other method is an error
/// that names it.
pub proof fn law_methods_belong_to_lists_and_ranges(
    ctx: Ctx,
    id: usize,
    receiver: Value,
    name: Seq<char>,
    args: Seq<u64>,
    dst: Option<usize>,
    loc: Loc,
)
    ensures
        name != "pad"@ && name != "step"@ ==> e_method(ctx, id, receiver, name, args, dst, loc)
            == Effect::Fail(
            Fault::Runtime {
                msg: "Unknown method '"@ + name + "'"@,
                loc: ErrorLoc { line: loc.line as usize, col: loc.col as usize },
            },
        ),
        name == "step"@ && !(ctx.deref(receiver) matches Some(ObjView::Range { .. })) ==> e_method(
            ctx,
            id,
            receiver,
            name,
            args,
            dst,
            loc,
        ) == Effect::Fail(
            Fault::Runtime {
                msg: "Unknown method '"@ + name + "'"@,
                loc: ErrorLoc { line: loc.line as usize, col: loc.col as usize },
            },
        ),
        name == "pad"@ && !(ctx.deref(receiver) matches Some(ObjView::List(_))) ==> e_method(
            ctx,
            id,
            receiver,
            name,
            args,
            dst,
            loc,
        ) == Effect::Skip(ctx),
{
    reveal(e_method);
    reveal_strlit("pad");
    reveal_strlit("step");
    assert("pad"@.len() != "step"@.len());
}

/// Padding without a value fills up with zeros.
pub proof fn law_padding_is_zero_where_nothing_is_given(
    ctx: Ctx,
    id: usize,
    list: Value,
    args: Seq<u64>,
    dst: Option<usize>,
    loc: Loc,
    k: int,
)
    requires
        ctx.deref(list) matches Some(ObjView::List(_)),
        args.len() == 1,
    ensures
        e_method(ctx, id, list, "pad"@, args, dst, loc) matches Effect::Skip(c) && {
            let before = ctx.deref(list)->0->List_0;
            let after = c.deref(list)->0->List_0;
            &&& c.deref(list) matches Some(ObjView::List(_))
            &&& 0 <= k < before.len() ==> after[k] == before[k]
            &&& before.len() <= k < after.len() ==> after[k] == 0
        },
{
    reveal(e_method);
    reveal(set_object);
}

/// A range has the step one where none is given with `step`.
pub proof fn law_the_step_is_one_where_none_is_given(
    ctx: Ctx,
    id: usize,
    range: Value,
    args: Seq<u64>,
    dst: usize,
    loc: Loc,
)
    requires
        ctx.wf(),
        ctx.heap.has_room(),
        has_reg(ctx, id, dst),
        ctx.deref(range) matches Some(ObjView::Range { .. }),
        args.len() == 0 || !(Value(args[0]).kind() is Number),
    ensures
        e_method(ctx, id, range, "step"@, args, Some(dst), loc) matches Effect::Skip(c) && c.deref(
            reg(c, id, dst),
        ) == Some(
            ObjView::Range {
                start: ctx.deref(range)->0->start,
                end: ctx.deref(range)->0->end,
                step: 0x3ff0000000000000,
            },
        ),
{
    reveal(e_method);
    reveal(put);
    reveal_strlit("pad");
    reveal_strlit("step");
    assert("pad"@.len() != "step"@.len());
    let r = ctx.deref(range)->0;
    lemma_new_object(
        ctx,
        ObjView::Range { start: r->start, end: r->end, step: 0x3ff0000000000000 },
    );
    law_boxes_round_trip(0, false, ctx.next_slot());
}

/// A call of what names no function is an error, with the name where there is one.
pub proof fn law_calls_want_functions(
    ctx: Ctx,
    id: usize,
    callee_reg: usize,
    args: Seq<usize>,
    dst: Option<usize>,
    loc: Loc,
)
    requires
        !(ctx.deref(reg(ctx, id, callee_reg)) matches Some(ObjView::BoundMethod { .. })),
    ensures
        ({
            let op = Op::CallDynamic { callee_reg, args, dst, loc };
            match ctx.pool_id(reg(ctx, id, callee_reg)) {
                None => fails(ctx, id, op, "Callee is not a known function name"@, loc),
                Some(n) => ctx.callables[n as int] is None ==> fails(
                    ctx,
                    id,
                    op,
                    "Dynamic call: unknown function '"@ + ctx.name(n) + "'"@,
                    loc,
                ),
            }
        }),
{
    reveal(effect);
    reveal(e_call_dynamic);
}

/// A method is called on what it was taken from, with the values of the arguments
/// in their order.
pub proof fn law_methods_are_called_on_what_they_were_taken_from(
    ctx: Ctx,
    id: usize,
    callee_reg: usize,
    args: Seq<usize>,
    dst: Option<usize>,
    loc: Loc,
    receiver: Value,
    name_id: u32,
    values: Seq<u64>,
)
    requires
        ctx.deref(reg(ctx, id, callee_reg)) == Some(ObjView::BoundMethod { receiver, name_id }),
        values.len() == args.len(),
        forall|k: int|
            0 <= k < args.len() ==> #[trigger] values[k] == reg(ctx, id, args[k]).0,
    ensures
        effect(ctx, id, Op::CallDynamic { callee_reg, args, dst, loc }) == e_method(
            ctx,
            id,
            receiver,
            ctx.name(name_id),
            values,
            dst,
            loc,
        ),
{
    reveal(effect);
    reveal(e_call_dynamic);
    assert(reg_list(ctx, id, args) =~= values);
}

/// Code that comes to its end gives zero and puts nothing into the caller's
/// registers.
pub proof fn law_code_that_ends_gives_nothing(m: Machine)
    requires
        m.wf(),
        m.task.frames.len() > 0,
        m.frame().pc >= m.frame().code.len(),
    ensures
        m.task.frames.len() == 1 ==> m.step().1 == Asks::Done(Value(0)),
        m.task.frames.len() > 1 ==> m.step().0.stack() == m.stack().drop_last()
            && m.step().0.task.frames.len() == m.task.frames.len() - 1,
{
    assert(m.popped().stack() =~= m.stack().drop_last());
}

/// A failed task has no call left, and none of its registers.
pub proof fn law_failed_tasks_hold_nothing(m: Machine, op: Op)
    requires
        m.wf(),
        m.task.frames.len() > 0,
        m.frame().pc < m.frame().code.len(),
        m.frame().code[m.frame().pc as int] == op,
        effect(m.ctx, m.task.id, op) is Fail,
    ensures
        m.step().0.task.frames.len() == 0,
        m.step().0.stack().len() == 0,
        m.step().0.ctx.heap == m.ctx.heap,
        m.step().0.ctx.globals == m.ctx.globals,
{
    assert(m.counted().ctx == m.ctx);
}

/// A call lets others run after every sixteen thousand three hundred and
/// eighty-four instructions.
pub proof fn law_calls_let_others_run(m: Machine, q: int)
    ensures
        m.pause() is Yield || m.pause() is Running,
        m.frame().count == 16384 * q ==> m.pause() is Yield,
        m.pause() is Yield ==> m.frame().count % 16384 == 0,
        m.task.frames.len() > 0 && m.frame().count < u32::MAX ==> m.counted().frame().count
            == m.frame().count + 1,
{
    if m.frame().count == 16384 * q {
        assert(m.frame().count % 16384 == 0);
    }
}

/// Where a token is not the one that has to be there, the error names that one, at
/// the place of the token that is there. Where the source has ended, it says so.
pub proof fn law_missing_tokens_are_named(st: St, t: Token)
    ensures
        adv(st).1 is Ok && st.w0 is Some && st.items[st.w0->0 as int].token != Ok::<
            Token,
            LexFault,
        >(t) ==> expect(st, t) == Err::<St, Fault>(
            Fault::Parsing {
                msg: "Expected "@ + token_name(t),
                loc: ErrorLoc {
                    line: adv(st).0.line,
                    col: adv(st).0.col_of(st.items[st.w0->0 as int].start),
                },
            },
        ),
        adv(st).1 matches Err(e) ==> expect(st, t) == Err::<St, Fault>(e),
        st.w0 is None && st.next >= st.items.len() ==> (expect(st, t) matches Err(
            Fault::Parsing { msg, .. },
        ) && msg == "Unexpected EOF"@),
{
    reveal(expect);
    reveal(adv);
}

/// What comes into sight and is no token is an error with what is wrong with it.
pub proof fn law_errors_in_the_source_are_found(st: St, fault: LexFault)
    requires
        st.next < st.items.len(),
        st.items[st.next as int].token == Err::<Token, LexFault>(fault),
    ensures
        adv(st).1 matches Err(Fault::Lexing { err, loc }) && err == fault && loc.line == st.line,
{
    reveal(adv);
}

/// Where a name has to be, anything else is the given error.
pub proof fn law_missing_names_are_errors(st: St, msg: Seq<char>)
    requires
        adv(st).1 is Ok,
        st.w0 is Some,
    ensures
        ({
            let there = st.items[st.w0->0 as int];
            if there.token == Ok::<Token, LexFault>(Token::Identifier) {
                expect_name(st, msg) == Ok::<(St, Seq<char>), Fault>((adv(st).0, there.text))
            } else {
                expect_name(st, msg) == Err::<(St, Seq<char>), Fault>(
                    Fault::Parsing { msg, loc: ErrorLoc { line: adv(st).0.line, col: 0 } },
                )
            }
        }),
{
    reveal(expect_name);
    reveal(adv);
}

/// A token with which no operand starts is an error, and so is one with which no
/// statement starts; the second names the token.
pub proof fn law_unexpected_tokens_are_errors(st: St, t: Token)
    requires
        st.peek() == Some(t),
        adv(st).1 is Ok,
        adv(st).0.left() < st.left(),
    ensures
        t != Token::LParen && t != Token::LBracket && t != Token::LBrace && t != Token::Number && t
            != Token::String && t != Token::Identifier && !(t is Bool) ==> p_atom(st) == Err::<
            (St, usize),
            Fault,
        >(
            Fault::Parsing {
                msg: "Expected expression"@,
                loc: ErrorLoc { line: st.loc().line as usize, col: st.loc().col as usize },
            },
        ),
        t != Token::MutableVar && t != Token::ImmutableVar && t != Token::For && t != Token::While
            && t != Token::Fn && t != Token::If && t != Token::Return && t != Token::Spawn && t
            != Token::Identifier ==> p_construct(st, t) == Err::<St, Fault>(
            Fault::Parsing {
                msg: "Unexpected token "@ + token_debug(t, st.items[st.w0->0 as int]),
                loc: ErrorLoc { line: st.line, col: st.loc().col as usize },
            },
        ),
{
    reveal(p_atom);
    reveal(p_construct);
    reveal(adv);
}

/// A place is the line, and how far the token stands behind the start of the line,
/// counted from one.
pub proof fn law_places_are_counted_from_one(st: St, i: usize)
    requires
        st.w0 == Some(i),
        st.line <= u32::MAX,
        st.line_start <= st.items[i as int].start,
        st.items[i as int].start - st.line_start < u32::MAX,
    ensures
        st.loc().line == st.line,
        st.loc().col == st.items[i as int].start - st.line_start + 1,
        st.here().line == st.line,
        st.here().col == st.loc().col,
{
}

/// Messages call tokens by their names, with what they hold.
pub proof fn law_tokens_have_names(t: Token, item: Item)
    ensures
        t == Token::MutableVar ==> token_name(t) == "MutableVar"@,
        t == Token::ImmutableVar ==> token_name(t) == "ImmutableVar"@,
        t == Token::Fn ==> token_name(t) == "Fn"@,
        t == Token::Return ==> token_name(t) == "Return"@,
        t == Token::Continue ==> token_name(t) == "Continue"@,
        t == Token::If ==> token_name(t) == "If"@,
        t == Token::Else ==> token_name(t) == "Else"@,
        t == Token::Colon ==> token_name(t) == "Colon"@,
        t == Token::Newline ==> token_name(t) == "Newline"@,
        t == Token::Spawn ==> token_name(t) == "Spawn"@,
        t == Token::For ==> token_name(t) == "For"@,
        t == Token::While ==> token_name(t) == "While"@,
        t == Token::In ==> token_name(t) == "In"@,
        t == Token::Range ==> token_name(t) == "Range"@,
        t == Token::Dot ==> token_name(t) == "Dot"@,
        t == Token::LBrace ==> token_name(t) == "LBrace"@,
        t == Token::RBrace ==> token_name(t) == "RBrace"@,
        t == Token::LParen ==> token_name(t) == "LParen"@,
        t == Token::RParen ==> token_name(t) == "RParen"@,
        t == Token::LBracket ==> token_name(t) == "LBracket"@,
        t == Token::RBracket ==> token_name(t) == "RBracket"@,
        t == Token::Comma ==> token_name(t) == "Comma"@,
        t == Token::Plus ==> token_debug(t, item) == "Plus"@,
        t == Token::Minus ==> token_debug(t, item) == "Minus"@,
        t == Token::Mul ==> token_debug(t, item) == "Mul"@,
        t == Token::Div ==> token_debug(t, item) == "Div"@,
        t == Token::Eq ==> token_debug(t, item) == "Eq"@,
        t == Token::Ne ==> token_debug(t, item) == "Ne"@,
        t == Token::Lt ==> token_debug(t, item) == "Lt"@,
        t == Token::Le ==> token_debug(t, item) == "Le"@,
        t == Token::Gt ==> token_debug(t, item) == "Gt"@,
        t == Token::Ge ==> token_debug(t, item) == "Ge"@,
        t == Token::Not ==> token_debug(t, item) == "Not"@,
        t == Token::Bool(true) ==> token_debug(t, item) == "Bool"@ + "("@ + "true"@ + ")"@,
        t == Token::Bool(false) ==> token_debug(t, item) == "Bool"@ + "("@ + "false"@ + ")"@,
        t == Token::Number ==> token_debug(t, item) == "Number"@ + "("@ + item.number.debug + ")"@,
        t == Token::String ==> token_debug(t, item) == "String"@ + "("@ + quoted(item.text) + ")"@,
        t == Token::Template ==> token_debug(t, item) == "Template"@ + "("@ + quoted(item.text)
            + ")"@,
        t == Token::Identifier ==> token_debug(t, item) == "Identifier"@ + "("@ + quoted(item.text)
            + ")"@,
{
}

/// An error in a part is the error of the whole.
pub proof fn law_errors_in_parts_are_errors(st: St, e: Fault)
    ensures
        p_atom(st) == Err::<(St, usize), Fault>(e) ==> p_primary(st) == Err::<(St, usize), Fault>(e),
        p_primary(st) == Err::<(St, usize), Fault>(e) ==> p_binary(st, 0) == Err::<
            (St, usize),
            Fault,
        >(e),
        p_binary(st, 0) == Err::<(St, usize), Fault>(e) ==> p_expr(st) == Err::<(St, usize), Fault>(
            e,
        ),
        p_expr(st) == Err::<(St, usize), Fault>(e) ==> p_if(st) == Err::<St, Fault>(e),
        p_expr(st) == Err::<(St, usize), Fault>(e) ==> p_while(st) == Err::<St, Fault>(e),
        p_stmts(st) == Err::<St, Fault>(e) ==> compiled(st) == Err::<ProgramView, Fault>(e),
        p_stmts(st) matches Ok(a) ==> (compiled(st) matches Ok(p) && p.code == a.code
            && p.functions == a.functions && p.strings == a.strings && p.locals_count == a.next_reg
            && p.globals_count == a.next_global),
{
    reveal(p_primary);
    reveal(p_atom);
    reveal(p_binary);
    reveal(p_expr);
    reveal(p_if);
    reveal(p_while);
    reveal(p_stmts);
}

/// Compiling starts on the first line with the first three tokens in sight, and
/// with no name, no code and no register in use.
pub proof fn law_compiling_starts_with_nothing(items: Seq<Item>, src_len: usize, st: St)
    requires
        opened(items, src_len) == Ok::<St, Fault>(st),
    ensures
        st.w0 == (if items.len() > 0 {
            Some(0usize)
        } else {
            None
        }),
        st.w1 == (if items.len() > 1 {
            Some(1usize)
        } else {
            None
        }),
        st.w2 == (if items.len() > 2 {
            Some(2usize)
        } else {
            None
        }),
        st.items == items,
        st.line == 1,
        st.line_start == 0,
        st.code.len() == 0,
        st.functions.len() == 0,
        st.strings.len() == 0,
        st.next_reg == 0,
        st.next_global == 0,
        !st.in_fn && !st.in_spawn,
        forall|id: Seq<char>| #[trigger] st.get_var(id) is None,
{
    reveal(fill);
    reveal(adv);
}

/// Giving an immutable variable another value is an error that names the variable
/// and the line of its declaration; giving one to a name that is no variable is an
/// error that names it.
pub proof fn law_wrong_assignments_name_the_variable(
    st: St,
    id: Seq<char>,
    info: VarInfo,
    src: usize,
    loc: Loc,
)
    ensures
        !info.is_mut ==> store(st, id, info, Seq::empty(), src, loc) == Err::<St, Fault>(
            Fault::RedefinitionOfImmutableVariable {
                msg: id,
                loc: ErrorLoc { line: st.line, col: 0 },
                orig_line: info.first_line,
            },
        ),
        st.get_var(id) is None ==> p_assign(st, id) == Err::<St, Fault>(
            Fault::UnknownVariable {
                msg: id,
                loc: ErrorLoc { line: st.loc().line as usize, col: st.loc().col as usize },
            },
        ),
{
    reveal(store);
    reveal(p_assign);
}

/// A place is taken over as it is, where it fits.
pub proof fn law_places_are_taken_over(line: usize, col: usize)
    requires
        line <= u32::MAX,
        col <= u32::MAX,
    ensures
        <Loc as vstd::std_specs::convert::FromSpec<(usize, usize)>>::from_spec((line, col))
            == (Loc { line: line as u32, col: col as u32 }),
{
}

} // verus!
