//! What the pieces of an expression compile to, said of one piece at a time.
use crate::compiler::Instruction;
use crate::compiler::Loc;
use crate::compiler::Op;
use crate::error::Fault;
use crate::escape::unescaped;
use crate::grammar::adv;
use crate::grammar::binary_op;
use crate::grammar::bind_params;
use crate::grammar::call;
use crate::grammar::declare;
use crate::grammar::expect;
use crate::grammar::expect_name;
use crate::grammar::fill_list;
use crate::grammar::fill_object;
use crate::grammar::finish_fn;
use crate::grammar::increment;
use crate::grammar::is_increment;
use crate::grammar::outer_to;
use crate::grammar::p_accessors;
use crate::grammar::p_assign;
use crate::grammar::p_atom;
use crate::grammar::p_bare_args;
use crate::grammar::p_binary;
use crate::grammar::p_block;
use crate::grammar::p_call_stmt;
use crate::grammar::p_construct;
use crate::grammar::p_expr;
use crate::grammar::p_exprs;
use crate::grammar::p_fields;
use crate::grammar::p_fn;
use crate::grammar::p_for;
use crate::grammar::p_if;
use crate::grammar::p_list;
use crate::grammar::p_method;
use crate::grammar::p_more_exprs;
use crate::grammar::p_name;
use crate::grammar::p_name_stmt;
use crate::grammar::p_object;
use crate::grammar::p_operators;
use crate::grammar::p_params;
use crate::grammar::p_primary;
use crate::grammar::p_return;
use crate::grammar::p_spawn;
use crate::grammar::p_stmt;
use crate::grammar::p_stmts;
use crate::grammar::p_suffixes;
use crate::grammar::p_var_decl;
use crate::grammar::p_while;
use crate::grammar::precedence;
use crate::grammar::skip;
use crate::grammar::store;
use crate::grammar::walk;
use crate::grammar::Accessor;
use crate::grammar::St;
use crate::grammar::VarInfo;
use crate::lexer::LexFault;
use crate::lexer::Token;
use crate::number::bits_of_count;
use crate::number::law_small_counts_are_exact;
use crate::tables::listing;
use crate::value::bool_value;
use crate::value::law_boxes_round_trip;
use crate::value::law_short_text_round_trip;
use crate::value::object_value;
use crate::value::text_value;
use crate::value::Kind;
use crate::value::Value;
use vstd::prelude::*;
use vstd::utf8::encode_utf8;

verus! {

/// The token stands between two operands.
pub open spec fn is_binary(t: Token) -> bool {
    is_factor(t) || is_term(t) || is_order(t) || t == Token::Eq || t == Token::Ne
}

/// `*` and `/`.
pub open spec fn is_factor(t: Token) -> bool {
    t == Token::Mul || t == Token::Div
}

/// `+` and `-`.
pub open spec fn is_term(t: Token) -> bool {
    t == Token::Plus || t == Token::Minus
}

/// `<`, `<=`, `>` and `>=`.
pub open spec fn is_order(t: Token) -> bool {
    t == Token::Lt || t == Token::Le || t == Token::Gt || t == Token::Ge
}

/// The second operator takes its operands before the first one does.
pub open spec fn binds_more(second: Token, first: Token) -> bool {
    ||| is_factor(second) && !is_factor(first)
    ||| is_term(second) && !is_factor(first) && !is_term(first)
    ||| is_order(second) && (first == Token::Eq || first == Token::Ne)
}

/// The instruction does what the operator says with its two operands, the left
/// one first.
pub open spec fn applies(op: Op, t: Token, dst: usize, l: usize, r: usize) -> bool {
    op matches Op::Plain(i) && match i {
        Instruction::Add { dst: d, lhs, rhs, .. } => t == Token::Plus && d == dst && lhs == l && rhs
            == r,
        Instruction::Sub { dst: d, lhs, rhs, .. } => t == Token::Minus && d == dst && lhs == l
            && rhs == r,
        Instruction::Mul { dst: d, lhs, rhs, .. } => t == Token::Mul && d == dst && lhs == l && rhs
            == r,
        Instruction::Div { dst: d, lhs, rhs, .. } => t == Token::Div && d == dst && lhs == l && rhs
            == r,
        Instruction::Eq { dst: d, lhs, rhs } => t == Token::Eq && d == dst && lhs == l && rhs == r,
        Instruction::Ne { dst: d, lhs, rhs } => t == Token::Ne && d == dst && lhs == l && rhs == r,
        Instruction::Lt { dst: d, lhs, rhs, .. } => t == Token::Lt && d == dst && lhs == l && rhs
            == r,
        Instruction::Le { dst: d, lhs, rhs, .. } => t == Token::Le && d == dst && lhs == l && rhs
            == r,
        Instruction::Gt { dst: d, lhs, rhs, .. } => t == Token::Gt && d == dst && lhs == l && rhs
            == r,
        Instruction::Ge { dst: d, lhs, rhs, .. } => t == Token::Ge && d == dst && lhs == l && rhs
            == r,
        _ => false,
    }
}

/// Where the instruction can fail, it says so at the place.
pub open spec fn is_placed(op: Op, place: Loc) -> bool {
    op matches Op::Plain(i) && match i {
        Instruction::Add { loc, .. } => loc == place,
        Instruction::Sub { loc, .. } => loc == place,
        Instruction::Mul { loc, .. } => loc == place,
        Instruction::Div { loc, .. } => loc == place,
        Instruction::Lt { loc, .. } => loc == place,
        Instruction::Le { loc, .. } => loc == place,
        Instruction::Gt { loc, .. } => loc == place,
        Instruction::Ge { loc, .. } => loc == place,
        _ => true,
    }
}

/// The state after an operand, and the register that holds it.
pub open spec fn operand(st: St, after: St, r: usize) -> bool {
    p_primary(st) == Ok::<(St, usize), Fault>((after, r)) && after.left() < st.left()
}

/// The operator is next, and `after` is the state behind it.
pub open spec fn operator(st: St, t: Token, after: St) -> bool {
    &&& st.peek() == Some(t)
    &&& is_binary(t)
    &&& adv(st).0 == after
    &&& adv(st).1 is Ok
    &&& after.left() < st.left()
}

/// No operator is next.
pub open spec fn no_operator(st: St) -> bool {
    st.peek() matches Some(t) ==> !is_binary(t)
}

/// The state with one instruction more, whose result takes the next register.
pub open spec fn with_op(st: St, op: Op) -> St {
    st.fresh().emit(op)
}

/// What the right operand of an operator is read with.
pub open spec fn right_side_of(t: Token) -> u8 {
    match precedence(Some(t)) {
        Some(p) => (p + 1) as u8,
        None => 0,
    }
}

/// The operators from here on, where the operator `before` waits for its right
/// operand, or where none waits.
pub open spec fn rest_of(st: St, l: usize, before: Option<Token>) -> Result<(St, usize), Fault> {
    p_operators(
        st,
        l,
        match before {
            Some(t) => right_side_of(t),
            None => 0,
        },
    )
}

/// The right operand of an operator.
pub open spec fn right_operand(st: St, t: Token) -> Result<(St, usize), Fault> {
    p_binary(st, right_side_of(t))
}

/// The operator goes to the right operand of the one that waits.
pub open spec fn goes_on(t: Token, before: Option<Token>) -> bool {
    is_binary(t) && (before matches Some(b) ==> binds_more(t, b))
}

/// An expression is an operand and the operators after it.
pub proof fn law_expressions_start_with_an_operand(st: St, a: St, l: usize)
    requires
        operand(st, a, l),
    ensures
        p_binary(st, 0) == rest_of(a, l, None),
        forall|t: Token| is_binary(t) ==> #[trigger] right_operand(st, t) == rest_of(a, l, Some(t)),
{
    reveal(p_binary);
    reveal(p_operators);
}

/// A right operand ends before an operator that does not bind more strongly than
/// the one that waits for it, and an expression before what is no operator.
pub proof fn law_operands_end_before_weaker_operators(st: St, l: usize, before: Option<Token>)
    requires
        before matches Some(b) ==> is_binary(b),
        st.peek() matches Some(t) ==> !goes_on(t, before),
    ensures
        rest_of(st, l, before) == Ok::<(St, usize), Fault>((st, l)),
{
    reveal(p_operators);
}

/// An operator that binds more strongly than the one that waits takes what is to
/// its left, and its own right operand; the result is the left operand of what
/// follows.
pub proof fn law_operators_take_what_is_to_their_left(
    st: St,
    l: usize,
    before: Option<Token>,
    t: Token,
    a: St,
    b: St,
    r: usize,
) -> (op: Op)
    requires
        before matches Some(x) ==> is_binary(x),
        operator(st, t, a),
        goes_on(t, before),
        right_operand(a, t) == Ok::<(St, usize), Fault>((b, r)),
        b.left() < st.left(),
    ensures
        applies(op, t, b.next_reg, l, r),
        is_placed(op, a.loc()),
        rest_of(st, l, before) == rest_of(with_op(b, op), b.next_reg, before),
{
    reveal_with_fuel(p_operators, 2);
    reveal(p_binary);
    let op = Op::Plain(binary_op(t, b.next_reg, l, r, a.loc()));
    op
}

/// The state behind two operands and the operator between them, where no
/// operator that binds more strongly follows.
pub proof fn law_operators_take_both_operands(
    s0: St,
    s1: St,
    s2: St,
    s3: St,
    t: Token,
    l: usize,
    r: usize,
) -> (op: Op)
    requires
        operand(s0, s1, l),
        operator(s1, t, s2),
        operand(s2, s3, r),
        s3.peek() matches Some(u) ==> !goes_on(u, Some(t)),
        s3.left() < s1.left(),
    ensures
        applies(op, t, s3.next_reg, l, r),
        p_binary(s0, 0) == rest_of(with_op(s3, op), s3.next_reg, None),
        no_operator(s3) ==> p_binary(s0, 0) == Ok::<(St, usize), Fault>(
            (with_op(s3, op), s3.next_reg),
        ),
{
    law_expressions_start_with_an_operand(s0, s1, l);
    law_expressions_start_with_an_operand(s2, s3, r);
    law_operands_end_before_weaker_operators(s3, r, Some(t));
    let op = law_operators_take_what_is_to_their_left(s1, l, None, t, s2, s3, r);
    if no_operator(s3) {
        law_operands_end_before_weaker_operators(with_op(s3, op), s3.next_reg, None);
    }
    op
}

/// `*` and `/` bind more strongly than `+` and `-`, these more strongly than a
/// comparison by order, and that more strongly than `==` and `!=`: `a - b * c`
/// is `a - (b * c)`, and so on. The operator that binds more strongly takes its
/// operands first, and its result is the right operand of the other.
pub proof fn law_stronger_operators_come_first(
    s0: St,
    s1: St,
    s2: St,
    s3: St,
    s4: St,
    s5: St,
    first: Token,
    second: Token,
    a: usize,
    b: usize,
    c: usize,
) -> (res: (Op, Op))
    requires
        operand(s0, s1, a),
        operator(s1, first, s2),
        operand(s2, s3, b),
        operator(s3, second, s4),
        operand(s4, s5, c),
        no_operator(s5),
        s5.left() < s3.left() < s1.left(),
        binds_more(second, first),
    ensures
        applies(res.0, second, s5.next_reg, b, c),
        applies(res.1, first, with_op(s5, res.0).next_reg, a, s5.next_reg),
        p_binary(s0, 0) == Ok::<(St, usize), Fault>(
            (with_op(with_op(s5, res.0), res.1), with_op(s5, res.0).next_reg),
        ),
{
    law_expressions_start_with_an_operand(s0, s1, a);
    law_expressions_start_with_an_operand(s2, s3, b);
    law_expressions_start_with_an_operand(s4, s5, c);
    law_operands_end_before_weaker_operators(s5, c, Some(second));
    let op = law_operators_take_what_is_to_their_left(s3, b, Some(first), second, s4, s5, c);
    let mid = with_op(s5, op);
    law_operands_end_before_weaker_operators(mid, s5.next_reg, Some(first));
    let last = law_operators_take_what_is_to_their_left(s1, a, None, first, s2, mid, s5.next_reg);
    law_operands_end_before_weaker_operators(with_op(mid, last), mid.next_reg, None);
    (op, last)
}

/// `..` comes after every operator: its ends are what stands before and after it.
pub proof fn law_ranges_take_whole_expressions(st: St, a: St, b: St, c: St, start: usize, end: usize)
    requires
        p_binary(st, 0) == Ok::<(St, usize), Fault>((a, start)),
        a.peek() == Some(Token::Range),
        adv(a).0 == b,
        adv(a).1 is Ok,
        b.left() < st.left(),
        p_binary(b, 0) == Ok::<(St, usize), Fault>((c, end)),
    ensures
        p_expr(st) matches Ok((d, dst)) && d.code.len() == c.code.len() + 1 && dst == c.next_reg && (
        d.code.last() matches Op::Plain(i) && i matches Instruction::Range {
            dst: x,
            start: f,
            end: t,
            step,
            loc,
        } && x == dst && f == start && t == end && step is None && loc == b.loc()),
{
    reveal(p_expr);
    reveal(p_binary);
}

/// Without `..` an expression is its operators.
pub proof fn law_other_expressions_are_their_operators(st: St, a: St, r: usize)
    requires
        p_binary(st, 0) == Ok::<(St, usize), Fault>((a, r)),
        a.peek() != Some(Token::Range),
    ensures
        p_expr(st) == Ok::<(St, usize), Fault>((a, r)),
{
    reveal(p_expr);
    reveal(p_binary);
}

/// One instruction more, whose result is in a register of its own.
pub open spec fn adds(a: St, b: St, i: Instruction, dst: usize) -> bool {
    &&& b.code == a.code.push(Op::Plain(i))
    &&& dst == a.next_reg
    &&& b.next_reg == dst + 1
}

/// The token at hand, and the state behind it.
pub open spec fn takes(st: St, t: Token, a: St) -> bool {
    &&& st.peek() == Some(t)
    &&& adv(st).0 == a
    &&& adv(st).1 is Ok
    &&& a.left() < st.left()
}

/// A number, a truth value or a text stands for itself: it is loaded into a new
/// register.
pub proof fn law_literals_are_loaded(st: St, a: St, t: Token)
    requires
        takes(st, t, a),
        a.next_reg < usize::MAX,
        a.strings.len() < 0xffff_ffff,
    ensures
        t == Token::Number ==> (p_atom(st) matches Ok((b, r)) && adds(
            a,
            b,
            Instruction::LoadLiteral {
                dst: r,
                val: Value(st.items[st.w0->0 as int].number.bits),
            },
            r,
        )),
        t == Token::Bool(true) ==> (p_atom(st) matches Ok((b, r)) && adds(
            a,
            b,
            Instruction::LoadLiteral { dst: r, val: bool_value(true) },
            r,
        )),
        t == Token::Bool(false) ==> (p_atom(st) matches Ok((b, r)) && adds(
            a,
            b,
            Instruction::LoadLiteral { dst: r, val: bool_value(false) },
            r,
        )),
        t == Token::String ==> (p_atom(st) matches Ok((b, r)) && loads_text(
            a,
            b,
            r,
            unescaped(st.text(st.w0->0)),
        )),
{
    reveal(p_atom);
    reveal(adv);
    if t == Token::String {
        l_text_loaded(a, unescaped(st.text(st.w0->0)));
    }
}

/// A value that stands for the text is loaded: the text itself where it is
/// short, or its place in the string pool.
pub open spec fn loads_text(a: St, b: St, r: usize, s: Seq<char>) -> bool {
    exists|val: Value| #[trigger]
        adds(a, b, Instruction::LoadLiteral { dst: r, val }, r) && (match val.kind() {
            Kind::Text(bytes) => bytes == encode_utf8(s),
            Kind::Object(id) => id < b.strings.len() && b.strings[id as int] == s,
            _ => false,
        })
}

proof fn l_named(st: St, s: Seq<char>)
    requires
        st.strings.len() < 0xffff_ffff,
    ensures
        is_named(st.intern(s), st.intern(s).id_of(s), s),
        forall|k: int| 0 <= k < st.strings.len() ==> #[trigger] st.intern(s).strings[k] == st.strings[k],
{
    let t = st.intern(s).strings;
    if !st.strings.contains(s) {
        assert(t[st.strings.len() as int] == s);
    }
    assert(t.contains(s));
    let k = t.index_of(s);
    assert(0 <= k < t.len() && t[k] == s);
    assert((k as usize) as u32 == k);
}

/// The id is that of the text in the string pool.
pub open spec fn is_named(st: St, id: u32, s: Seq<char>) -> bool {
    id < st.strings.len() && st.strings[id as int] == s
}

proof fn l_text_loaded(a: St, s: Seq<char>)
    requires
        a.next_reg < usize::MAX,
        a.strings.len() < 0xffff_ffff,
    ensures
        loads_text(a, a.text_literal(s).0, a.text_literal(s).1, s),
{
    let (b, r) = a.text_literal(s);
    if encode_utf8(s).len() <= 6 {
        law_short_text_round_trip(s);
        let val = text_value(encode_utf8(s));
        assert(adds(a, b, Instruction::LoadLiteral { dst: r, val }, r));
    } else {
        l_named(a, s);
        let id = a.intern(s).id_of(s);
        law_boxes_round_trip(0, false, id);
        assert(adds(a, b, Instruction::LoadLiteral { dst: r, val: object_value(id) }, r));
    }
}

/// What stands in parentheses is the expression in them.
pub proof fn law_parentheses_hold_an_expression(st: St, a: St, b: St, c: St, r: usize)
    requires
        takes(st, Token::LParen, a),
        p_expr(a) == Ok::<(St, usize), Fault>((b, r)),
        expect(b, Token::RParen) == Ok::<St, Fault>(c),
    ensures
        p_atom(st) == Ok::<(St, usize), Fault>((c, r)),
{
    reveal(p_atom);
    reveal(p_expr);
    reveal(adv);
}

/// The closing token has to be there, and nothing else is passed.
pub proof fn law_expected_tokens_are_passed(st: St, t: Token)
    ensures
        expect(st, t) matches Ok(a) ==> a == adv(st).0 && adv(st).1 is Ok && st.w0 is Some
            && st.items[st.w0->0 as int].token == Ok::<Token, LexFault>(t),
        adv(st).1 is Ok && st.w0 is Some && st.items[st.w0->0 as int].token == Ok::<Token, LexFault>(
            t,
        ) ==> expect(st, t) == Ok::<St, Fault>(adv(st).0),
{
    reveal(expect);
    reveal(adv);
}

/// Each step goes to the token behind the next, and gives the next.
pub proof fn law_steps_go_on_by_one_token(st: St)
    requires
        st.next < usize::MAX,
    ensures
        adv(st).0.w0 == st.w1,
        adv(st).0.w1 == st.w2,
        adv(st).0.items == st.items,
        adv(st).0.code == st.code,
        adv(st).0.strings == st.strings,
        adv(st).0.next_reg == st.next_reg,
        adv(st).1 matches Ok(i) ==> st.w0 == Some(i),
        st.next < st.items.len() ==> adv(st).0.next == st.next + 1,
        st.next < st.items.len() && st.items[st.next as int].token is Ok ==> adv(st).0.w2 == Some(
            st.next,
        ),
        st.next >= st.items.len() ==> adv(st).0.w2 is None,
        adv(st).1 is Ok ==> adv(st).0.line == (if st.peek() == Some(Token::Newline) && st.line
            < usize::MAX {
            st.line + 1
        } else if st.peek() == Some(Token::Newline) {
            0
        } else {
            st.line as int
        }),
        adv(st).1 is Ok && st.peek() == Some(Token::Newline) ==> adv(st).0.line_start
            == st.items[st.w0->0 as int].end,
{
    reveal(adv);
}

/// A name that is a variable stands for what the variable holds: its register,
/// or its global in a new register. Any other name stands for its own text.
pub proof fn law_names_stand_for_their_variables(st: St, id: Seq<char>)
    requires
        st.peek() != Some(Token::LParen),
        st.next_reg < usize::MAX,
        st.strings.len() < 0xffff_ffff,
    ensures
        st.locals.contains_key(id) && !st.locals[id].is_global ==> (p_name(st, id) matches Ok((a, r))
            && r == st.locals[id].idx && a.code == st.code),
        !st.locals.contains_key(id) && st.globals.contains_key(id) && st.globals[id].is_global ==> (
        p_name(st, id) matches Ok((a, r)) && adds(
            st,
            a,
            Instruction::LoadGlobal { dst: r, global: st.globals[id].idx },
            r,
        )),
        !st.locals.contains_key(id) && !st.globals.contains_key(id) ==> (p_name(st, id) matches Ok(
            (a, r),
        ) && loads_text(st, a, r, id)),
{
    reveal(p_name);
    l_text_loaded(st, id);
}

/// The instruction calls the function of the name, or what a variable of that
/// name holds, with the arguments in their order.
pub open spec fn calls(a: St, b: St, id: Seq<char>, args: Seq<usize>, dst: Option<usize>) -> bool {
    &&& b.code.len() > a.code.len()
    &&& forall|k: int| 0 <= k < a.code.len() ==> #[trigger] b.code[k] == a.code[k]
    &&& match b.code.last() {
        Op::Call { name_id, args: x, dst: d, loc } => x == args && d == dst && loc == a.loc()
            && is_named(b, name_id, id) && a.get_var(id) is None,
        Op::CallDynamic { callee_reg, args: x, dst: d, loc } => x == args && d == dst && loc
            == a.loc() && (a.get_var(id) matches Some(info) && if info.is_global {
            b.code[b.code.len() - 2] == Op::Plain(
                Instruction::LoadGlobal { dst: callee_reg, global: info.idx },
            )
        } else {
            callee_reg == info.idx
        }),
        _ => false,
    }
}

proof fn l_calls(a: St, id: Seq<char>, args: Seq<usize>, dst: Option<usize>)
    requires
        a.strings.len() < 0xffff_ffff,
    ensures
        calls(a, call(a, id, args, dst), id, args, dst),
{
    reveal(call);
    l_named(a, id);
}

/// A name with arguments behind it is a call, whose result is in a new register.
pub proof fn law_calls_take_their_arguments(st: St, id: Seq<char>, a: St, b: St, args: Seq<usize>)
    requires
        takes(st, Token::LParen, a),
        p_exprs(a, Token::RParen) == Ok::<(St, Seq<usize>), Fault>((b, args)),
        b.strings.len() < 0xffff_ffff,
        b.next_reg < usize::MAX - 1,
    ensures
        p_name(st, id) matches Ok((c, r)) && r == b.next_reg && c.next_reg > r && calls(
            b.fresh(),
            c,
            id,
            args,
            Some(r),
        ),
        p_call_stmt(st, id) matches Ok(d) && calls(b, d, id, args, None),
{
    reveal(p_name);
    reveal(p_exprs);
    reveal(p_call_stmt);
    l_calls(b, id, args, None);
    l_calls(b.fresh(), id, args, Some(b.next_reg));
    reveal(call);
}

/// Expressions in a list go from the left: the register of the next one comes
/// behind those that are there, and a comma leads on to the one after it.
pub proof fn law_expressions_are_listed_in_order(st: St, close: Token, regs: Seq<usize>, a: St, r: usize)
    requires
        skip(st).left() <= st.left(),
        p_expr(skip(st)) == Ok::<(St, usize), Fault>((a, r)),
    ensures
        skip(a).peek() != Some(Token::Comma) ==> p_more_exprs(st, close, regs) == Ok::<
            (St, Seq<usize>),
            Fault,
        >((skip(a), regs + seq![r])),
        skip(a).peek() == Some(Token::Comma) && adv(skip(a)).1 is Ok && adv(skip(a)).0.peek() == Some(
            close,
        ) ==> p_more_exprs(st, close, regs) == Ok::<(St, Seq<usize>), Fault>(
            (adv(skip(a)).0, regs + seq![r]),
        ),
        skip(a).peek() == Some(Token::Comma) && adv(skip(a)).1 is Ok && adv(skip(a)).0.peek() != Some(
            close,
        ) && adv(skip(a)).0.left() < st.left() ==> p_more_exprs(st, close, regs) == p_more_exprs(
            adv(skip(a)).0,
            close,
            regs + seq![r],
        ),
{
    reveal_with_fuel(p_more_exprs, 2);
    reveal(p_expr);
    assert(regs.push(r) =~= regs + seq![r]);
}

/// Arguments and elements are what stands before the closing token, or nothing
/// where it comes at once.
pub proof fn law_lists_end_at_the_closing_token(st: St, close: Token)
    requires
        skip(st).left() <= st.left(),
    ensures
        skip(st).peek() == Some(close) ==> (match expect(skip(st), close) {
            Ok(a) => p_exprs(st, close) == Ok::<(St, Seq<usize>), Fault>((a, Seq::empty())),
            Err(e) => p_exprs(st, close) == Err::<(St, Seq<usize>), Fault>(e),
        }),
        skip(st).peek() != Some(close) ==> (match p_more_exprs(skip(st), close, Seq::empty()) {
            Ok((a, regs)) => match expect(a, close) {
                Ok(b) => p_exprs(st, close) == Ok::<(St, Seq<usize>), Fault>((b, regs)),
                Err(e) => p_exprs(st, close) == Err::<(St, Seq<usize>), Fault>(e),
            },
            Err(e) => p_exprs(st, close) == Err::<(St, Seq<usize>), Fault>(e),
        }),
{
    reveal(p_exprs);
    reveal(p_more_exprs);
}

/// Line breaks and comments are passed over, and nothing else.
pub proof fn law_only_breaks_and_comments_are_skipped(st: St)
    ensures
        st.peek() != Some(Token::Newline) && st.peek() != Some(Token::LineComment) ==> skip(st) == st,
        (st.peek() == Some(Token::Newline) || st.peek() == Some(Token::LineComment)) && adv(
            st,
        ).0.left() < st.left() ==> skip(st) == skip(adv(st).0),
{
    reveal_with_fuel(skip, 2);
}

/// An index in brackets reads that element of what stands before it.
pub proof fn law_indices_read_elements(
    st: St,
    reg: usize,
    a: St,
    b: St,
    c: St,
    index: usize,
) -> (op: Op)
    requires
        takes(skip(st), Token::LBracket, a),
        a.left() < st.left(),
        p_expr(a) == Ok::<(St, usize), Fault>((b, index)),
        expect(b, Token::RBracket) == Ok::<St, Fault>(c),
        c.left() < st.left(),
    ensures
        op matches Op::Plain(i) && i matches Instruction::ListGet { dst, list, index_reg, .. } && dst
            == c.next_reg && list == reg && index_reg == index,
        p_suffixes(st, reg) == p_suffixes(with_op(c, op), c.next_reg),
{
    reveal_with_fuel(p_suffixes, 2);
    reveal(p_expr);
    Op::Plain(Instruction::ListGet { dst: c.next_reg, list: reg, index_reg: index, loc: c.loc() })
}

/// A name behind a dot reads that field of what stands before it, and arguments
/// behind it call the field.
pub proof fn law_dots_read_fields(st: St, reg: usize, a: St, b: St, id: Seq<char>) -> (op: Op)
    requires
        takes(skip(st), Token::Dot, a),
        expect_name(a, "Expected property name after '.'"@) == Ok::<(St, Seq<char>), Fault>((b, id)),
        b.left() < st.left(),
        b.strings.len() < 0xffff_ffff,
    ensures
        op matches Op::Plain(i) && i matches Instruction::ObjectGet { dst, obj, name_id, .. } && dst
            == b.next_reg && obj == reg && is_named(b.intern(id), name_id, id),
        p_method(with_op(b.intern(id), op), b.next_reg) matches Ok((c, r)) ==> c.left() < st.left()
            ==> p_suffixes(st, reg) == p_suffixes(c, r),
{
    reveal_with_fuel(p_suffixes, 2);
    reveal(p_method);
    l_named(b, id);
    let c = b.intern(id);
    Op::Plain(
        Instruction::ObjectGet { dst: c.next_reg, obj: reg, name_id: c.id_of(id), loc: c.loc() },
    )
}

/// Arguments behind a field call it; without them it is only read.
pub proof fn law_methods_are_called_with_arguments(
    st: St,
    callee: usize,
    a: St,
    b: St,
    args: Seq<usize>,
)
    ensures
        st.peek() != Some(Token::LParen) ==> p_method(st, callee) == Ok::<(St, usize), Fault>(
            (st, callee),
        ),
        takes(st, Token::LParen, a) && p_exprs(a, Token::RParen) == Ok::<(St, Seq<usize>), Fault>(
            (b, args),
        ) ==> (p_method(st, callee) matches Ok((c, r)) && r == b.next_reg && c.code.len()
            == b.code.len() + 1 && (c.code.last() matches Op::CallDynamic {
            callee_reg,
            args: x,
            dst,
            loc,
        } && callee_reg == callee && x == args && dst == Some(r) && loc == b.loc())),
{
    reveal(p_method);
    reveal(p_exprs);
}

/// An operand without suffixes is what it was read as.
pub proof fn law_operands_without_suffixes_stay(st: St, reg: usize)
    requires
        skip(st).peek() != Some(Token::LBracket),
        skip(st).peek() != Some(Token::Dot),
    ensures
        p_suffixes(st, reg) == Ok::<(St, usize), Fault>((skip(st), reg)),
{
    reveal(p_suffixes);
}

/// The instructions that put the `k`-th of several values into a list: its index
/// in a register, and the store.
pub open spec fn stores_element(a: St, b: St, list: usize, elements: Seq<usize>, k: int) -> bool {
    let at = a.code.len() + 2 * k;
    &&& b.code[at] matches Op::Plain(i) && i matches Instruction::LoadLiteral { dst, val }
        && val.kind() == Kind::Number(bits_of_count(k as nat) as u64) && (b.code[at + 1] matches Op::Plain(
        j,
    ) && j matches Instruction::ListSet { list: l, index_reg, src, loc } && l == list && index_reg
        == dst && src == elements[k] && loc == a.loc())
}

/// A list that is written out holds its elements in their order: each is stored
/// at its own index.
pub proof fn law_lists_hold_their_elements(st: St, dst: usize, elements: Seq<usize>, n: nat, k: int)
    requires
        0 <= k < n <= elements.len(),
        n < 0x20000000000000,
    ensures
        ({
            let b = fill_list(st, dst, elements, n);
            &&& b.code.len() == st.code.len() + 2 * n
            &&& stores_element(st, b, dst, elements, k)
            &&& forall|i: int| 0 <= i < st.code.len() ==> #[trigger] b.code[i] == st.code[i]
        }),
    decreases n,
{
    reveal_with_fuel(fill_list, 2);
    let m = (n - 1) as nat;
    law_small_counts_are_exact(m);
    l_filled(st, dst, elements, m);
    if k < m {
        law_lists_hold_their_elements(st, dst, elements, m, k);
    } else {
        let a = fill_list(st, dst, elements, m);
        let val = Value(bits_of_count(m) as u64);
        law_boxes_round_trip(val.0, false, 0);
        assert(a.code.len() == st.code.len() + 2 * m);
    }
}

proof fn l_filled(st: St, dst: usize, elements: Seq<usize>, n: nat)
    ensures
        fill_list(st, dst, elements, n).code.len() == st.code.len() + 2 * n,
        fill_list(st, dst, elements, n).loc() == st.loc(),
        forall|i: int|
            0 <= i < st.code.len() ==> #[trigger] fill_list(st, dst, elements, n).code[i]
                == st.code[i],
    decreases n,
{
    reveal_with_fuel(fill_list, 2);
    if n > 0 {
        l_filled(st, dst, elements, (n - 1) as nat);
    }
}

/// A list literal makes a list with as many elements as it names, and fills it.
pub proof fn law_list_literals_make_lists(st: St, a: St, elements: Seq<usize>)
    requires
        p_exprs(st, Token::RBracket) == Ok::<(St, Seq<usize>), Fault>((a, elements)),
        elements.len() <= usize::MAX,
        a.next_reg < usize::MAX,
    ensures
        p_list(st) matches Ok((b, r)) && r == a.next_reg && exists|made: St| #[trigger]
            adds(
                a,
                made,
                Instruction::NewList { dst: r, len: elements.len() as usize },
                r,
            ) && b == fill_list(made, r, elements, elements.len()),
{
    reveal(p_list);
    reveal(p_exprs);
    let r = a.next_reg;
    let made = a.fresh().plain(Instruction::NewList { dst: r, len: elements.len() as usize });
    assert(adds(a, made, Instruction::NewList { dst: r, len: elements.len() as usize }, r));
}

/// An object that is written out holds each of its values under the name that
/// stands before it.
pub proof fn law_objects_hold_their_fields(
    st: St,
    dst: usize,
    fields: Seq<(Seq<char>, usize)>,
    n: nat,
    k: int,
)
    requires
        0 <= k < n <= fields.len(),
        st.strings.len() + n < 0xffff_ffff,
    ensures
        ({
            let b = fill_object(st, dst, fields, n);
            &&& b.code.len() == st.code.len() + n
            &&& b.code[st.code.len() + k] matches Op::Plain(i) && i matches Instruction::ObjectSet {
                obj,
                name_id,
                src,
                loc,
            } && obj == dst && src == fields[k].1 && loc == st.loc() && is_named(
                b,
                name_id,
                fields[k].0,
            )
        }),
    decreases n,
{
    reveal_with_fuel(fill_object, 2);
    let m = (n - 1) as nat;
    l_filled_object(st, dst, fields, m);
    let a = fill_object(st, dst, fields, m);
    l_named(a, fields[m as int].0);
    if k < m {
        law_objects_hold_their_fields(st, dst, fields, m, k);
    }
}

proof fn l_filled_object(st: St, dst: usize, fields: Seq<(Seq<char>, usize)>, n: nat)
    requires
        st.strings.len() + n < 0xffff_ffff,
    ensures
        fill_object(st, dst, fields, n).code.len() == st.code.len() + n,
        fill_object(st, dst, fields, n).strings.len() <= st.strings.len() + n,
        fill_object(st, dst, fields, n).loc() == st.loc(),
    decreases n,
{
    reveal_with_fuel(fill_object, 2);
    if n > 0 {
        l_filled_object(st, dst, fields, (n - 1) as nat);
    }
}

/// A field is a name, a colon and an expression. The next one comes behind those
/// that are there.
pub proof fn law_fields_are_listed_in_order(
    st: St,
    fields: Seq<(Seq<char>, usize)>,
    a: St,
    name: Seq<char>,
    b: St,
    c: St,
    r: usize,
)
    requires
        expect_name(skip(st), "Expected field name"@) == Ok::<(St, Seq<char>), Fault>((a, name)),
        expect(a, Token::Colon) == Ok::<St, Fault>(b),
        b.left() < st.left(),
        p_expr(b) == Ok::<(St, usize), Fault>((c, r)),
    ensures
        skip(c).peek() != Some(Token::Comma) ==> p_fields(st, fields) == Ok::<
            (St, Seq<(Seq<char>, usize)>),
            Fault,
        >((skip(c), fields + seq![(name, r)])),
        skip(c).peek() == Some(Token::Comma) && adv(skip(c)).1 is Ok && adv(skip(c)).0.peek() == Some(
            Token::RBrace,
        ) ==> p_fields(st, fields) == Ok::<(St, Seq<(Seq<char>, usize)>), Fault>(
            (adv(skip(c)).0, fields + seq![(name, r)]),
        ),
        skip(c).peek() == Some(Token::Comma) && adv(skip(c)).1 is Ok && adv(skip(c)).0.peek() != Some(
            Token::RBrace,
        ) && adv(skip(c)).0.left() < st.left() ==> p_fields(st, fields) == p_fields(
            adv(skip(c)).0,
            fields + seq![(name, r)],
        ),
{
    reveal_with_fuel(p_fields, 2);
    reveal(p_expr);
    assert(fields.push((name, r)) =~= fields + seq![(name, r)]);
}

/// A new object without fields is in the register.
pub open spec fn makes_object(a: St, b: St, r: usize) -> bool {
    &&& b.code.drop_last() == a.code
    &&& b.code.last() matches Op::Plain(i) && i matches Instruction::NewObject { dst, .. } && dst == r
    &&& b.code.len() > 0
    &&& b.next_reg == r + 1
}

/// An object literal makes an object, and sets the fields that it names.
pub proof fn law_object_literals_make_objects(
    st: St,
    a: St,
    b: St,
    fields: Seq<(Seq<char>, usize)>,
) -> (made: St)
    requires
        skip(st).left() <= st.left(),
        skip(st).peek() != Some(Token::RBrace) ==> p_fields(skip(st), Seq::empty()) == Ok::<
            (St, Seq<(Seq<char>, usize)>),
            Fault,
        >((a, fields)),
        skip(st).peek() == Some(Token::RBrace) ==> a == skip(st) && fields.len() == 0,
        expect(a, Token::RBrace) == Ok::<St, Fault>(b),
        b.next_reg < usize::MAX,
    ensures
        makes_object(b, made, b.next_reg),
        p_object(st) == Ok::<(St, usize), Fault>(
            (fill_object(made, b.next_reg, fields, fields.len()), b.next_reg),
        ),
{
    reveal(p_object);
    reveal(p_fields);
    let r = b.next_reg;
    let made = b.fresh().plain(Instruction::NewObject { dst: r, capacity: fields.len() as usize });
    let parsed: Result<(St, Seq<(Seq<char>, usize)>), Fault> = if skip(st).peek() == Some(
        Token::RBrace,
    ) {
        Ok((skip(st), Seq::empty()))
    } else {
        p_fields(skip(st), Seq::empty())
    };
    if skip(st).peek() == Some(Token::RBrace) {
        assert(fields =~= Seq::<(Seq<char>, usize)>::empty());
    }
    assert(parsed == Ok::<(St, Seq<(Seq<char>, usize)>), Fault>((a, fields)));
    assert(p_object(st) == Ok::<(St, usize), Fault>(
        (fill_object(made, r, fields, fields.len()), r),
    ));
    assert(made.code.drop_last() =~= b.code);
    made
}

/// A declaration gives the variable a place of its own, and puts the value there:
/// a new global outside of functions and spawns, and a new register inside.
pub proof fn law_declarations_store_the_value(st: St, id: Seq<char>, is_mut: bool, src: usize)
    requires
        st.next_reg < usize::MAX,
        st.next_global < usize::MAX,
    ensures
        ({
            let a = declare(st, id, is_mut, src);
            if st.in_fn || st.in_spawn {
                &&& a.get_var(id) matches Some(info) && !info.is_global && info.idx == st.next_reg
                    && info.is_mut == is_mut
                &&& a.next_reg == st.next_reg + 1
                &&& a.next_global == st.next_global
                &&& a.code == st.code + seq![
                    Op::Plain(Instruction::Move { dst: st.next_reg, src }),
                ]
            } else {
                &&& a.globals.contains_key(id) && a.globals[id].is_global && a.globals[id].idx
                    == st.next_global && a.globals[id].is_mut == is_mut
                &&& a.next_global == st.next_global + 1
                &&& a.next_reg == st.next_reg
                &&& a.code == st.code + seq![
                    Op::Plain(Instruction::StoreGlobal { global: st.next_global, src }),
                ]
            }
        }),
        forall|other: Seq<char>|
            other != id ==> #[trigger] declare(st, id, is_mut, src).get_var(other) == st.get_var(
                other,
            ),
{
    reveal(declare);
}

/// `let` declares an immutable variable and `mut` a mutable one, with the value
/// of the expression behind the colon.
pub proof fn law_declarations_are_read(
    st: St,
    a: St,
    b: St,
    id: Seq<char>,
    c: St,
    d: St,
    src: usize,
    t: Token,
)
    requires
        takes(st, t, a),
        t == Token::ImmutableVar || t == Token::MutableVar,
        expect_name(a, "Expected identifier"@) == Ok::<(St, Seq<char>), Fault>((b, id)),
        expect(b, Token::Colon) == Ok::<St, Fault>(c),
        c.left() < st.left(),
        p_expr(c) == Ok::<(St, usize), Fault>((d, src)),
    ensures
        p_construct(st, t) == Ok::<St, Fault>(declare(d, id, t == Token::MutableVar, src)),
{
    reveal(p_construct);
    reveal(p_var_decl);
    reveal(p_expr);
    reveal(adv);
}

/// Each statement is told by its first token.
pub proof fn law_statements_are_told_by_their_first_token(st: St, t: Token, a: St)
    requires
        takes(st, t, a),
    ensures
        t == Token::If ==> p_construct(st, t) == p_if(a),
        t == Token::While ==> p_construct(st, t) == p_while(a),
        t == Token::For ==> p_construct(st, t) == p_for(st),
        t == Token::Fn ==> p_construct(st, t) == p_fn(a),
        t == Token::Return ==> p_construct(st, t) == p_return(a),
        t == Token::Spawn ==> p_construct(st, t) == p_spawn(a),
        t == Token::Identifier ==> p_construct(st, t) == p_name_stmt(a, st.text(st.w0->0)),
{
    reveal(p_construct);
    reveal(adv);
    reveal(p_if);
    reveal(p_while);
    reveal(p_for);
    reveal(p_fn);
    reveal(p_return);
    reveal(p_spawn);
    reveal(p_name_stmt);
}

/// A name with a colon, a bracket or a dot behind it is assigned to; any other
/// name is called.
pub proof fn law_names_are_assigned_or_called(st: St, id: Seq<char>)
    ensures
        st.peek() == Some(Token::Colon) || st.peek() == Some(Token::LBracket) || st.peek() == Some(
            Token::Dot,
        ) ==> p_name_stmt(st, id) == p_assign(st, id),
        st.peek() != Some(Token::Colon) && st.peek() != Some(Token::LBracket) && st.peek() != Some(
            Token::Dot,
        ) ==> p_name_stmt(st, id) == p_call_stmt(st, id),
{
    reveal(p_name_stmt);
    reveal(p_assign);
    reveal(p_call_stmt);
}

/// Statements come one after another, up to a closing brace or the end.
pub proof fn law_statements_follow_each_other(st: St)
    ensures
        st.peek() is None || st.peek() == Some(Token::RBrace) ==> p_stmts(st) == Ok::<St, Fault>(st),
        st.peek() is Some && st.peek() != Some(Token::RBrace) ==> (match p_stmt(st) {
            Ok((a, true)) => a.left() < st.left() ==> p_stmts(st) == p_stmts(a),
            Ok((a, false)) => p_stmts(st) == Ok::<St, Fault>(a),
            Err(e) => p_stmts(st) == Err::<St, Fault>(e),
        }),
        skip(st).left() <= st.left() ==> (match skip(st).peek() {
            None => p_stmt(st) == Ok::<(St, bool), Fault>((skip(st), false)),
            Some(t) => if t == Token::RBrace {
                p_stmt(st) == Ok::<(St, bool), Fault>((skip(st), false))
            } else {
                match p_construct(skip(st), t) {
                    Ok(a) => p_stmt(st) == Ok::<(St, bool), Fault>((a, true)),
                    Err(e) => p_stmt(st) == Err::<(St, bool), Fault>(e),
                }
            },
        }),
{
    reveal_with_fuel(p_stmts, 2);
    reveal(p_stmt);
    reveal(p_construct);
}

/// A block is its statements, between braces.
pub proof fn law_blocks_hold_statements(st: St, a: St)
    requires
        expect(skip(st), Token::LBrace) == Ok::<St, Fault>(a),
        a.left() < st.left(),
    ensures
        match p_stmts(a) {
            Ok(b) => p_block(st) == expect(b, Token::RBrace),
            Err(e) => p_block(st) == Err::<St, Fault>(e),
        },
{
    reveal(p_block);
    reveal(p_stmts);
}

/// The parameters of a function are its first registers, in their order, and
/// immutable.
pub proof fn law_parameters_come_first(st: St, params: Seq<Seq<char>>, n: nat, k: int)
    requires
        st.next_reg == 0,
        0 <= k < n <= params.len(),
        n <= usize::MAX,
        forall|j: int| k < j < n ==> #[trigger] params[j] != params[k],
    ensures
        bind_params(st, params, n).next_reg == n,
        bind_params(st, params, n).get_var(params[k]) matches Some(info) && info.idx == k
            && !info.is_global && !info.is_mut,
        bind_params(st, params, n).code == st.code,
    decreases n,
{
    l_bound(st, params, n);
    l_bound(st, params, (n - 1) as nat);
    reveal_with_fuel(bind_params, 2);
    if k < n - 1 {
        law_parameters_come_first(st, params, (n - 1) as nat, k);
        assert(params[n - 1] != params[k]);
    }
}

proof fn l_bound(st: St, params: Seq<Seq<char>>, n: nat)
    requires
        st.next_reg == 0,
        n <= usize::MAX,
    ensures
        bind_params(st, params, n).next_reg == n,
        bind_params(st, params, n).code == st.code,
    decreases n,
{
    reveal_with_fuel(bind_params, 2);
    if n > 0 {
        l_bound(st, params, (n - 1) as nat);
    }
}

/// Parameters are listed in the order in which they are written.
pub proof fn law_parameters_are_listed_in_order(st: St, params: Seq<Seq<char>>, a: St)
    requires
        takes(st, Token::Identifier, a),
    ensures
        a.peek() != Some(Token::Comma) ==> p_params(st, params) == Ok::<
            (St, Seq<Seq<char>>),
            Fault,
        >((a, params + seq![st.text(st.w0->0)])),
        a.peek() == Some(Token::Comma) && adv(a).1 is Ok && adv(a).0.left() < st.left() ==> p_params(
            st,
            params,
        ) == p_params(adv(a).0, params + seq![st.text(st.w0->0)]),
{
    reveal_with_fuel(p_params, 2);
    reveal(adv);
    assert(params.push(st.text(st.w0->0)) =~= params + seq![st.text(st.w0->0)]);
}

/// A function is kept under its name, with its code and as many parameters as
/// it names. It starts with nothing but its parameters, and returns at its end.
pub proof fn law_functions_are_kept_under_their_names(
    body: St,
    around: St,
    name: Seq<char>,
    params_count: usize,
)
    requires
        body.strings.len() < 0xffff_ffff,
    ensures
        ({
            let a = finish_fn(body, around, name, params_count);
            let f = a.functions.last();
            &&& a.functions.len() == body.functions.len() + 1
            &&& forall|k: int|
                0 <= k < body.functions.len() ==> #[trigger] a.functions[k] == body.functions[k]
            &&& is_named(a, f.name_id, name)
            &&& f.params_count == params_count
            &&& f.locals_count == body.next_reg
            &&& f.code == body.code || f.code == body.code + seq![
                Op::Plain(Instruction::Return(None)),
            ]
            &&& f.code.len() > 0
            &&& f.code.last() matches Op::Plain(i) && i is Return
            &&& a.code == around.code
            &&& a.locals == around.locals
            &&& a.globals == body.globals
        }),
{
    reveal(finish_fn);
    l_named(body, name);
    assert(body.code.push(Op::Plain(Instruction::Return(None))) =~= body.code + seq![
        Op::Plain(Instruction::Return(None)),
    ]);
}

/// The body of a function sees its parameters and the globals, and no local of
/// what is around it.
pub proof fn law_functions_see_their_parameters(
    st: St,
    a: St,
    name: Seq<char>,
    b: St,
    c: St,
    params: Seq<Seq<char>>,
    d: St,
) -> (inner: St)
    requires
        expect_name(st, "Expected function name"@) == Ok::<(St, Seq<char>), Fault>((a, name)),
        expect(a, Token::LParen) == Ok::<St, Fault>(b),
        b.peek() == Some(Token::RParen) ==> c == b && params.len() == 0,
        b.peek() != Some(Token::RParen) ==> p_params(b, Seq::empty()) == Ok::<
            (St, Seq<Seq<char>>),
            Fault,
        >((c, params)),
        expect(c, Token::RParen) == Ok::<St, Fault>(d),
        d.left() < st.left(),
        d.items.len() <= usize::MAX,
        params.len() <= usize::MAX,
    ensures
        inner.code.len() == 0,
        inner.next_reg == params.len(),
        inner.in_fn,
        !inner.in_spawn,
        inner.globals == d.globals,
        forall|id: Seq<char>|
            !params.contains(id) ==> !(#[trigger] inner.locals.contains_key(id)),
        match p_block(inner) {
            Ok(f) => p_fn(st) == Ok::<St, Fault>(finish_fn(f, d, name, params.len() as usize)),
            Err(e) => p_fn(st) == Err::<St, Fault>(e),
        },
{
    reveal(p_fn);
    reveal(p_block);
    let bare = St {
        locals: Map::empty(),
        next_reg: 0,
        in_spawn: false,
        in_fn: true,
        code: Seq::empty(),
        ..d
    };
    if b.peek() == Some(Token::RParen) {
        assert(params =~= Seq::<Seq<char>>::empty());
    }
    l_bound(bare, params, params.len());
    l_only_params(bare, params, params.len());
    bind_params(bare, params, params.len())
}

proof fn l_only_params(st: St, params: Seq<Seq<char>>, n: nat)
    requires
        n <= params.len(),
        st.locals == Map::<Seq<char>, VarInfo>::empty(),
    ensures
        ({
            let a = bind_params(st, params, n);
            &&& a.globals == st.globals
            &&& a.in_fn == st.in_fn
            &&& a.in_spawn == st.in_spawn
            &&& a.left() == st.left()
            &&& forall|id: Seq<char>| !params.contains(id) ==> !(#[trigger] a.locals.contains_key(id))
        }),
    decreases n,
{
    reveal_with_fuel(bind_params, 2);
    if n > 0 {
        l_only_params(st, params, (n - 1) as nat);
        assert(params.contains(params[n - 1]));
    }
}

/// `return` with an expression returns its value, and alone it returns nothing.
pub proof fn law_return_gives_the_value(st: St)
    ensures
        st.peek() is None || st.peek() == Some(Token::Newline) || st.peek() == Some(Token::RBrace)
            ==> (p_return(st) matches Ok(a) && a.code == st.code + seq![
            Op::Plain(Instruction::Return(None)),
        ]),
        st.peek() is Some && st.peek() != Some(Token::Newline) && st.peek() != Some(Token::RBrace)
            ==> (p_expr(st) matches Ok((b, r)) ==> (p_return(st) matches Ok(a) && a.code == b.code
            + seq![Op::Plain(Instruction::Return(Some(r)))])),
{
    reveal(p_return);
    reveal(p_expr);
}

/// What is assigned to an element or a field goes into the part that the steps
/// before the last lead to.
pub proof fn law_parts_are_assigned(
    st: St,
    id: Seq<char>,
    info: VarInfo,
    accs: Seq<Accessor>,
    src: usize,
    loc: Loc,
)
    requires
        accs.len() > 0,
    ensures
        ({
            let (a, from) = st.load_var(info);
            let (b, r) = walk(a, from, accs, (accs.len() - 1) as nat, loc);
            &&& accs.last() matches Accessor::Index(i) ==> store(st, id, info, accs, src, loc)
                == Ok::<St, Fault>(
                b.emit(
                    Op::Plain(Instruction::ListSet { list: r, index_reg: i, src, loc }),
                ),
            )
            &&& accs.last() matches Accessor::Field(n) ==> store(st, id, info, accs, src, loc)
                == Ok::<St, Fault>(
                b.emit(Op::Plain(Instruction::ObjectSet { obj: r, name_id: n, src, loc })),
            )
        }),
{
    reveal(store);
}

/// Each step reads an element or a field of what the steps before it lead to.
pub proof fn law_steps_lead_to_parts(st: St, from: usize, accs: Seq<Accessor>, n: nat, loc: Loc)
    requires
        n < accs.len(),
    ensures
        walk(st, from, accs, 0, loc) == (st, from),
        ({
            let (a, r) = walk(st, from, accs, n, loc);
            let (b, s) = walk(st, from, accs, n + 1, loc);
            &&& s == a.next_reg
            &&& b.code.len() == a.code.len() + 1
            &&& accs[n as int] matches Accessor::Index(i) ==> b.code.last() == Op::Plain(
                Instruction::ListGet { dst: s, list: r, index_reg: i, loc },
            )
            &&& accs[n as int] matches Accessor::Field(f) ==> b.code.last() == Op::Plain(
                Instruction::ObjectGet { dst: s, obj: r, name_id: f, loc },
            )
        }),
{
    reveal_with_fuel(walk, 2);
}

/// The steps after a variable are listed in the order in which they are written.
pub proof fn law_steps_are_listed_in_order(
    st: St,
    accs: Seq<Accessor>,
    a: St,
    b: St,
    r: usize,
    c: St,
    id: Seq<char>,
)
    ensures
        st.peek() != Some(Token::LBracket) && st.peek() != Some(Token::Dot) ==> p_accessors(st, accs)
            == Ok::<(St, Seq<Accessor>), Fault>((st, accs)),
        takes(st, Token::LBracket, a) && p_expr(a) == Ok::<(St, usize), Fault>((b, r)) && expect(
            b,
            Token::RBracket,
        ) == Ok::<St, Fault>(c) && c.left() < st.left() ==> p_accessors(st, accs) == p_accessors(
            c,
            accs + seq![Accessor::Index(r)],
        ),
        takes(st, Token::Dot, a) && expect_name(a, "Expected field name after '.'"@) == Ok::<
            (St, Seq<char>),
            Fault,
        >((b, id)) && b.left() < st.left() && b.strings.len() < 0xffff_ffff ==> exists|n: u32|
            #[trigger] is_named(b.intern(id), n, id) && p_accessors(st, accs) == p_accessors(
                b.intern(id),
                accs + seq![Accessor::Field(n)],
            ),
{
    reveal_with_fuel(p_accessors, 2);
    reveal(p_expr);
    assert(accs.push(Accessor::Index(r)) =~= accs + seq![Accessor::Index(r)]);
    if b.strings.len() < 0xffff_ffff {
        l_named(b, id);
        let n = b.intern(id).id_of(id);
        assert(accs.push(Accessor::Field(n)) =~= accs + seq![Accessor::Field(n)]);
        assert(is_named(b.intern(id), n, id));
    }
}

/// One more in a variable goes into that variable.
pub proof fn law_increments_go_into_the_variable(st: St, id: Seq<char>, info: VarInfo)
    requires
        info.is_mut,
    ensures
        increment(st, id, info) matches Ok(a) ==> a.code == st.code + seq![
            Op::Plain(
                if info.is_global {
                    Instruction::IncrementGlobal(info.idx)
                } else {
                    Instruction::Increment(info.idx)
                },
            ),
        ],
{
    reveal(increment);
    reveal(adv);
}

/// Only the variable and one, or one and the variable, with nothing behind them,
/// is one more in the variable.
pub proof fn law_increments_are_the_variable_and_one(st: St, id: Seq<char>)
    requires
        is_increment(st, id),
    ensures
        st.w0 is Some,
        st.w1 is Some,
        st.w2 is Some,
        st.items[st.w1->0 as int].token == Ok::<Token, LexFault>(Token::Plus),
        ({
            let l = st.items[st.w0->0 as int];
            let r = st.items[st.w2->0 as int];
            let name = Ok::<Token, LexFault>(Token::Identifier);
            let number = Ok::<Token, LexFault>(Token::Number);
            ||| l.token == name && l.text == id && r.token == number && r.number.bits
                == 0x3ff0000000000000
            ||| r.token == name && r.text == id && l.token == number && l.number.bits
                == 0x3ff0000000000000
        }),
        st.next < st.items.len() ==> {
            let t = st.items[st.next as int].token;
            t == Ok::<Token, LexFault>(Token::Newline) || t == Ok::<Token, LexFault>(Token::RBrace)
                || t == Ok::<Token, LexFault>(Token::Comma) || t == Ok::<Token, LexFault>(
                Token::RParen,
            )
        },
{
    reveal(is_increment);
}

/// A register of what is around a spawn is captured where it is used in it, and
/// one of its own is not.
pub proof fn law_outer_registers_are_captured(st: St, reg: usize)
    requires
        st.captures.len() == st.starts.len() > 0,
    ensures
        reg < st.starts.last() ==> st.track(reg).captures.last() == st.captures.last().insert(reg),
        reg >= st.starts.last() ==> st.track(reg).captures.last() == st.captures.last(),
        forall|r: usize, i: int|
            0 <= i < st.captures.len() && #[trigger] st.captures[i].contains(r) ==> st.track(
                reg,
            ).captures[i].contains(r),
        st.track(reg).code == st.code,
{
    let n = st.starts.len() - 1;
    if reg >= st.starts.last() {
        assert(!outer_to(st.starts, n, reg)) by {
            assert(!(reg < st.starts[n]));
        }
    } else {
        assert(outer_to(st.starts, n, reg));
    }
}

/// A spawn is compiled apart: its block becomes the code of another task, which
/// starts with the registers that it captures, in increasing order.
pub proof fn law_spawned_blocks_are_apart(st: St) -> (inner: St)
    ensures
        inner.code.len() == 0,
        inner.in_spawn,
        inner.locals == st.locals,
        inner.globals == st.globals,
        inner.starts == st.starts + seq![st.next_reg],
        inner.captures == st.captures + seq![Set::<usize>::empty()],
        match p_block(inner) {
            Ok(a) => p_spawn(st) matches Ok(b) && b.code.len() == st.code.len() + 1 && b.in_spawn
                == st.in_spawn && (b.code.last() matches Op::Spawn { body, locals_count, captures }
                && body == a.code && locals_count >= a.next_reg && locals_count >= st.next_reg
                && captures == listing(a.captures.last())) && forall|k: int|
                0 <= k < st.code.len() ==> #[trigger] b.code[k] == st.code[k],
            Err(e) => p_spawn(st) == Err::<St, Fault>(e),
        },
{
    reveal(p_spawn);
    reveal(p_block);
    let inner = St {
        in_spawn: true,
        captures: st.captures.push(Set::empty()),
        starts: st.starts.push(st.next_reg),
        code: Seq::empty(),
        ..st
    };
    assert(inner.starts =~= st.starts + seq![st.next_reg]);
    assert(inner.captures =~= st.captures + seq![Set::<usize>::empty()]);
    inner
}

/// Arguments without parentheses go from the left too, up to the end of the line or
/// a closing token.
pub proof fn law_bare_arguments_are_listed_in_order(st: St, args: Seq<usize>, a: St, r: usize)
    ensures
        st.peek() is None || st.peek() == Some(Token::Newline) || st.peek() == Some(Token::RBrace)
            || st.peek() == Some(Token::RParen) || st.peek() == Some(Token::RBracket) || st.peek()
            == Some(Token::Comma) ==> p_bare_args(st, args) == Ok::<(St, Seq<usize>), Fault>(
            (st, args),
        ),
        st.peek() is Some && st.peek() != Some(Token::Newline) && st.peek() != Some(Token::RBrace)
            && st.peek() != Some(Token::RParen) && st.peek() != Some(Token::RBracket) && st.peek()
            != Some(Token::Comma) && p_expr(st) == Ok::<(St, usize), Fault>((a, r)) ==> {
            &&& a.peek() != Some(Token::Comma) ==> p_bare_args(st, args) == Ok::<
                (St, Seq<usize>),
                Fault,
            >((a, args + seq![r]))
            &&& a.peek() == Some(Token::Comma) && adv(a).1 is Ok && adv(a).0.left() < st.left()
                ==> p_bare_args(st, args) == p_bare_args(adv(a).0, args + seq![r])
        },
{
    reveal_with_fuel(p_bare_args, 2);
    reveal(p_expr);
    assert(args.push(r) =~= args + seq![r]);
}

/// A name at the start of a line is called with what stands behind it on the line.
pub proof fn law_names_are_called_with_their_line(st: St, id: Seq<char>, a: St, args: Seq<usize>)
    requires
        st.peek() != Some(Token::LParen),
        p_bare_args(st, Seq::empty()) == Ok::<(St, Seq<usize>), Fault>((a, args)),
        a.strings.len() < 0xffff_ffff,
        a.next_reg < usize::MAX - 1,
    ensures
        p_call_stmt(st, id) matches Ok(d) && calls(a, d, id, args, None),
{
    reveal(p_call_stmt);
    reveal(p_bare_args);
    l_calls(a, id, args, None);
}

/// What is no name ends the parameters, and is passed.
pub proof fn law_parameters_end_at_what_is_no_name(st: St, params: Seq<Seq<char>>)
    requires
        adv(st).1 is Ok,
        st.w0 is Some,
        st.peek() != Some(Token::Identifier),
    ensures
        p_params(st, params) == Ok::<(St, Seq<Seq<char>>), Fault>((adv(st).0, params)),
{
    reveal(p_params);
    reveal(adv);
}

/// A part of a variable with arguments behind it is called: the steps lead to what
/// is called, after the arguments are in their registers.
pub proof fn law_parts_are_called(
    st: St,
    id: Seq<char>,
    info: VarInfo,
    a: St,
    accs: Seq<Accessor>,
    b: St,
    c: St,
    args: Seq<usize>,
)
    requires
        st.get_var(id) == Some(info),
        p_accessors(st, Seq::empty()) == Ok::<(St, Seq<Accessor>), Fault>((a, accs)),
        a.left() <= st.left(),
        accs.len() > 0 && accs.last() is Field,
        takes(a, Token::LParen, b),
        p_exprs(b, Token::RParen) == Ok::<(St, Seq<usize>), Fault>((c, args)),
    ensures
        ({
            let (d, from) = c.load_var(info);
            let (f, callee_reg) = walk(d, from, accs, accs.len(), st.loc());
            p_assign(st, id) matches Ok(g) && g.code.len() == f.code.len() + 1
                && g.code.drop_last() == f.code && (g.code.last() matches Op::CallDynamic {
                callee_reg: r,
                args: l,
                dst,
                ..
            } && r == callee_reg && l == args && dst is None)
        }),
{
    reveal(p_assign);
    reveal(p_accessors);
    reveal(p_exprs);
    let (d, from) = c.load_var(info);
    let (f, callee_reg) = walk(d, from, accs, accs.len(), st.loc());
    let op = Op::CallDynamic { callee_reg, args, dst: None, loc: f.loc() };
    assert(f.code.push(op).drop_last() =~= f.code);
}

/// What stands behind the colon is stored, unless it is the variable and one.
pub proof fn law_assignments_store_the_right_side(
    st: St,
    id: Seq<char>,
    info: VarInfo,
    a: St,
    accs: Seq<Accessor>,
    b: St,
    c: St,
    src: usize,
)
    requires
        st.get_var(id) == Some(info),
        p_accessors(st, Seq::empty()) == Ok::<(St, Seq<Accessor>), Fault>((a, accs)),
        a.left() <= st.left(),
        takes(a, Token::Colon, b),
        b.left() < st.left(),
        p_expr(b) == Ok::<(St, usize), Fault>((c, src)),
    ensures
        !(accs.len() == 0 && is_increment(b, id)) ==> p_assign(st, id) == store(
            c,
            id,
            info,
            accs,
            src,
            st.loc(),
        ),
        accs.len() == 0 && is_increment(b, id) ==> p_assign(st, id) == increment(b, id, info),
{
    reveal(p_assign);
    reveal(p_accessors);
    reveal(p_expr);
    reveal(expect);
    reveal(adv);
}

/// A value goes into the variable that is named: its global or its register.
pub proof fn law_values_go_into_their_variable(
    st: St,
    id: Seq<char>,
    info: VarInfo,
    src: usize,
    loc: Loc,
)
    requires
        info.is_mut,
    ensures
        store(st, id, info, Seq::empty(), src, loc) matches Ok(a) && a.code == st.code + seq![
            if info.is_global {
                Op::Plain(Instruction::StoreGlobal { global: info.idx, src })
            } else {
                Op::Plain(Instruction::Move { dst: info.idx, src })
            },
        ],
{
    reveal(store);
}

} // verus!
