//! Compiled programs are well-formed: every instruction names only registers,
//! globals and strings that exist, and the global of an immutable variable is
//! given a value only once.
//!
//! The proofs go through the grammar. Each says of a construct that a state in
//! order stays in order, and how much of a budget of numbers the construct
//! leaves unused.
use crate::compiler::all_below;
use crate::compiler::code_jumps;
use crate::compiler::code_literals;
use crate::compiler::lemma_jumps_at;
use crate::compiler::lemma_jumps_more;
use crate::compiler::lemma_literals_at;
use crate::compiler::lemma_literals_more;
use crate::compiler::literal_ok;
use crate::compiler::op_jumps;
use crate::compiler::op_literals;
use crate::compiler::code_ok;
use crate::compiler::lemma_code_ok_at;
use crate::compiler::lemma_code_ok_more;
use crate::compiler::code_stores;
use crate::compiler::function_stores;
use crate::compiler::lemma_function_stores_push;
use crate::compiler::lemma_stores_push;
use crate::compiler::lemma_stores_update;
use crate::compiler::op_stores;
use crate::compiler::op_ok;
use crate::compiler::opt_below;
use crate::compiler::Bounds;
use crate::compiler::FunctionView;
use crate::compiler::Instruction;
use crate::compiler::Loc;
use crate::compiler::Op;
use crate::compiler::ProgramView;
use crate::error::Fault;
use crate::escape::unescaped;
use crate::grammar::adv;
use crate::grammar::binary_op;
use crate::grammar::bind_params;
use crate::grammar::call;
use crate::grammar::compiled;
use crate::grammar::declare;
use crate::grammar::ends_with_return;
use crate::grammar::expect;
use crate::grammar::expect_name;
use crate::grammar::fill;
use crate::grammar::fill_list;
use crate::grammar::fill_object;
use crate::grammar::finish_fn;
use crate::grammar::increment;
use crate::grammar::is_increment;
use crate::grammar::item_at;
use crate::grammar::items_of;
use crate::grammar::loop_var;
use crate::grammar::opened;
use crate::grammar::outer_to;
use crate::grammar::p_accessors;
use crate::grammar::p_assign;
use crate::grammar::p_atom;
use crate::grammar::p_bare_args;
use crate::grammar::p_binary;
use crate::grammar::p_block;
use crate::grammar::p_call_stmt;
use crate::grammar::p_construct;
use crate::grammar::p_expr;
use crate::grammar::p_exprs;
use crate::grammar::p_fields;
use crate::grammar::p_fn;
use crate::grammar::p_for;
use crate::grammar::p_if;
use crate::grammar::p_list;
use crate::grammar::p_loop;
use crate::grammar::p_method;
use crate::grammar::p_more_exprs;
use crate::grammar::p_name;
use crate::grammar::p_name_stmt;
use crate::grammar::p_object;
use crate::grammar::p_operators;
use crate::grammar::p_params;
use crate::grammar::p_primary;
use crate::grammar::p_return;
use crate::grammar::p_spawn;
use crate::grammar::p_stmt;
use crate::grammar::p_stmts;
use crate::grammar::p_suffixes;
use crate::grammar::p_var_decl;
use crate::grammar::p_while;
use crate::grammar::precedence;
use crate::grammar::program_of;
use crate::grammar::skip;
use crate::grammar::start;
use crate::grammar::store;
use crate::grammar::succ;
use crate::grammar::walk;
use crate::grammar::Accessor;
use crate::grammar::Counter;
use crate::grammar::Item;
use crate::grammar::NumberView;
use crate::grammar::St;
use crate::grammar::VarInfo;
use crate::lexer::lexed;
use crate::lexer::LexFault;
use crate::lexer::Token;
use crate::number::bits_of_count;
use crate::number::law_small_counts_are_exact;
use crate::parser::opened_source;
use crate::tables::lemma_listing_below;
use crate::tables::listing;
use crate::value::bool_value;
use crate::value::law_boxes_round_trip;
use crate::value::law_short_text_round_trip;
use crate::value::object_value;
use crate::value::text_value;
use crate::value::Value;
use vstd::prelude::*;
use vstd::utf8::encode_utf8;

verus! {

/// The bounds that the code of a state has to keep.
spec fn room(st: St) -> Bounds {
    Bounds {
        regs: st.next_reg as nat,
        globals: st.next_global as nat,
        names: st.strings.len(),
    }
}

/// A function keeps within its registers.
spec fn function_fits(f: FunctionView, st: St) -> bool {
    code_ok(f.code, Bounds { regs: f.locals_count as nat, ..room(st) })
}

spec fn local_fits(info: VarInfo, st: St) -> bool {
    !info.is_global && info.idx < st.next_reg
}

spec fn global_fits(info: VarInfo, st: St) -> bool {
    info.is_global && info.idx < st.next_global
}

spec fn slot_fits(st: St, w: Option<usize>) -> bool {
    w matches Some(i) ==> i < st.items.len() && st.items[i as int].token is Ok
}

/// Registers that a spawn captures come before its own.
spec fn capture_fits(st: St, i: int) -> bool {
    forall|r: usize| #[trigger] st.captures[i].contains(r) ==> r < st.starts[i]
}

/// How many instructions so far give a global a value.
#[verifier::opaque]
spec fn stores(code: Seq<Op>, functions: Seq<FunctionView>, g: usize) -> nat {
    code_stores(code, g) + function_stores(functions, g)
}

/// The global belongs to a mutable variable.
#[verifier::opaque]
spec fn changeable(globals: Map<Seq<char>, VarInfo>, g: usize) -> bool {
    exists|id: Seq<char>| #[trigger]
        globals.contains_key(id) && globals[id].is_mut && globals[id].idx == g
}

/// The global belongs to an immutable variable.
#[verifier::opaque]
spec fn frozen(globals: Map<Seq<char>, VarInfo>, g: usize) -> bool {
    exists|id: Seq<char>| #[trigger]
        globals.contains_key(id) && !globals[id].is_mut && globals[id].idx == g
}

/// Globals to come have no value yet, and those of immutable variables were given
/// one at most once.
#[verifier::opaque]
spec fn once(st: St) -> bool {
    &&& forall|g: usize| g >= st.next_global ==> #[trigger] stores(st.code, st.functions, g) == 0
    &&& forall|g: usize| #[trigger]
        frozen(st.globals, g) ==> !changeable(st.globals, g) && stores(st.code, st.functions, g)
            <= 1
}

/// The instruction gives no global a value.
spec fn quiet(op: Op) -> bool {
    forall|g: usize| #[trigger] op_stores(op, g) == 0
}

/// Only mutable variables were given other values, and no old global has become
/// that of another variable.
spec fn constant(a: St, b: St) -> bool {
    forall|g: usize|
        #![trigger stores(b.code, b.functions, g)]
        #![trigger changeable(b.globals, g)]
        #![trigger frozen(b.globals, g)]
        g < a.next_global ==> {
            &&& !changeable(a.globals, g) ==> !changeable(b.globals, g) && stores(
                b.code,
                b.functions,
                g,
            ) == stores(a.code, a.functions, g)
            &&& frozen(b.globals, g) ==> frozen(a.globals, g)
        }
}

/// No number of a source is taken for a reference.
pub open spec fn plain_numbers(numbers: Seq<NumberView>) -> bool {
    forall|k: int|
        0 <= k < numbers.len() ==> !(Value((#[trigger] numbers[k]).bits).kind() is Object)
}

spec fn plain_items(items: Seq<Item>) -> bool {
    forall|k: int| 0 <= k < items.len() ==> !(Value((#[trigger] items[k]).number.bits).kind() is Object)
}

/// A function jumps within its code, and what it loads is there.
spec fn function_inside(f: FunctionView, items: Seq<Item>, names: nat) -> bool {
    code_jumps(f.code, f.code.len()) && (plain_items(items) ==> code_literals(f.code, names))
}

/// Jumps stay within their lists, and texts that are loaded are in the pool.
#[verifier::opaque]
spec fn inside(
    items: Seq<Item>,
    code: Seq<Op>,
    functions: Seq<FunctionView>,
    names: nat,
) -> bool {
    &&& code_jumps(code, code.len())
    &&& plain_items(items) ==> code_literals(code, names)
    &&& forall|k: int|
        0 <= k < functions.len() ==> function_inside(#[trigger] functions[k], items, names)
}

/// The instruction may stand in the state's code.
spec fn op_inside(op: Op, st: St) -> bool {
    op_jumps(op, st.code.len() + 1) && (plain_items(st.items) ==> op_literals(
        op,
        st.strings.len(),
    ))
}

proof fn l_inside_more(
    items: Seq<Item>,
    code: Seq<Op>,
    functions: Seq<FunctionView>,
    m: nat,
    n: nat,
)
    requires
        inside(items, code, functions, m),
        m <= n,
    ensures
        inside(items, code, functions, n),
{
    reveal(inside);
    if plain_items(items) {
        lemma_literals_more(code, m, n);
    }
    assert forall|k: int| 0 <= k < functions.len() implies function_inside(
        #[trigger] functions[k],
        items,
        n,
    ) by {
        assert(function_inside(functions[k], items, m));
        if plain_items(items) {
            lemma_literals_more(functions[k].code, m, n);
        }
    }
}

/// The code of one state with the functions and the strings of a later one.
proof fn l_inside_mix(a: St, b: St)
    requires
        inside(a.items, a.code, a.functions, a.strings.len()),
        inside(b.items, b.code, b.functions, b.strings.len()),
        a.items == b.items,
        a.strings.len() <= b.strings.len(),
    ensures
        inside(a.items, a.code, b.functions, b.strings.len()),
{
    l_inside_more(a.items, a.code, a.functions, a.strings.len(), b.strings.len());
    reveal(inside);
}

proof fn l_inside_push(st: St, op: Op)
    requires
        inside(st.items, st.code, st.functions, st.strings.len()),
        op_inside(op, st),
    ensures
        inside(st.items, st.code.push(op), st.functions, st.strings.len()),
{
    reveal(inside);
    let c = st.code.push(op);
    lemma_jumps_more(st.code, st.code.len(), c.len());
    assert forall|k: int| 0 <= k < c.len() implies op_jumps(#[trigger] c[k], c.len()) by {
        if k < st.code.len() {
            lemma_jumps_at(st.code, c.len(), k);
        }
    }
    if plain_items(st.items) {
        assert forall|k: int| 0 <= k < c.len() implies op_literals(
            #[trigger] c[k],
            st.strings.len(),
        ) by {
            if k < st.code.len() {
                lemma_literals_at(st.code, st.strings.len(), k);
            }
        }
    }
}

proof fn l_inside_patch(st: St, k: int, op: Op)
    requires
        inside(st.items, st.code, st.functions, st.strings.len()),
        0 <= k < st.code.len(),
        op_jumps(op, st.code.len()),
        op_literals(op, st.strings.len()),
    ensures
        inside(st.items, st.code.update(k, op), st.functions, st.strings.len()),
{
    reveal(inside);
    let c = st.code.update(k, op);
    assert forall|j: int| 0 <= j < c.len() implies op_jumps(#[trigger] c[j], c.len()) by {
        if j != k {
            lemma_jumps_at(st.code, c.len(), j);
        }
    }
    if plain_items(st.items) {
        assert forall|j: int| 0 <= j < c.len() implies op_literals(
            #[trigger] c[j],
            st.strings.len(),
        ) by {
            if j != k {
                lemma_literals_at(st.code, st.strings.len(), j);
            }
        }
    }
}

/// Everything that a state has come to keeps the bounds.
#[verifier::opaque]
spec fn good(st: St) -> bool {
    &&& once(st)
    &&& inside(st.items, st.code, st.functions, st.strings.len())
    &&& st.next <= st.items.len() <= usize::MAX
    &&& slot_fits(st, st.w0)
    &&& slot_fits(st, st.w1)
    &&& slot_fits(st, st.w2)
    &&& forall|id: Seq<char>| #[trigger] st.locals.contains_key(id) ==> local_fits(st.locals[id], st)
    &&& forall|id: Seq<char>| #[trigger]
        st.globals.contains_key(id) ==> global_fits(st.globals[id], st)
    &&& code_ok(st.code, room(st))
    &&& forall|k: int| 0 <= k < st.functions.len() ==> function_fits(#[trigger] st.functions[k], st)
    &&& st.captures.len() == st.starts.len()
    &&& forall|i: int| 0 <= i < st.captures.len() ==> #[trigger] capture_fits(st, i)
}

/// What a state has used up, and what its tokens can still use up.
spec fn budget(st: St) -> int {
    st.next_reg + st.next_global + st.strings.len() + 4 * st.left()
}

/// The most that a state may use up.
spec fn limit() -> int {
    0xffff_ff00
}

/// One state follows another and leaves at least so much of the budget unused.
spec fn moved(a: St, b: St, gain: int) -> bool {
    &&& good(b)
    &&& b.items == a.items
    &&& b.starts == a.starts
    &&& b.captures.len() == a.captures.len()
    &&& b.next_reg >= a.next_reg
    &&& b.next_global >= a.next_global
    &&& b.strings.len() >= a.strings.len()
    &&& b.code.len() >= a.code.len()
    &&& b.left() <= a.left()
    &&& budget(b) + gain <= budget(a)
    &&& constant(a, b)
    &&& forall|k: int| 0 <= k < a.code.len() ==> #[trigger] b.code[k] == a.code[k]
}

/// A state in order, with some of the budget left.
spec fn ok(st: St) -> bool {
    good(st) && budget(st) <= limit()
}

/// Moving on keeps a state in order.
proof fn l_adv(st: St)
    requires
        good(st),
    ensures
        moved(st, adv(st).0, 0),
        st.w0 is Some ==> adv(st).0.left() < st.left(),
        st.w0 is Some ==> moved(st, adv(st).0, 4),
        adv(st).1 matches Ok(i) ==> st.w0 == Some(i) && i < st.items.len(),
        adv(st).0.code == st.code,
        adv(st).0.captures == st.captures,
        adv(st).0.locals == st.locals,
        adv(st).0.globals == st.globals,
        adv(st).0.next_reg == st.next_reg,
{
    reveal(good);
    reveal(adv);
    let b = adv(st).0;
    assert(once(b)) by {
        reveal(once);
    }
    assert(room(b) == room(st));
    assert forall|k: int| 0 <= k < b.functions.len() implies function_fits(
        #[trigger] b.functions[k],
        b,
    ) by {
        assert(function_fits(st.functions[k], st));
    }
    assert forall|id: Seq<char>| #[trigger] b.locals.contains_key(id) implies local_fits(
        b.locals[id],
        b,
    ) by {
        assert(st.locals.contains_key(id));
    }
    assert forall|id: Seq<char>| #[trigger] b.globals.contains_key(id) implies global_fits(
        b.globals[id],
        b,
    ) by {
        assert(st.globals.contains_key(id));
    }
    assert forall|i: int| 0 <= i < b.captures.len() implies #[trigger] capture_fits(b, i) by {
        assert(capture_fits(st, i));
    }
}

proof fn l_skip(st: St)
    requires
        good(st),
    ensures
        moved(st, skip(st), 0),
        skip(st).code == st.code,
        skip(st).captures == st.captures,
        skip(st).next_reg == st.next_reg,
    decreases st.left(),
{
    reveal_with_fuel(skip, 2);
    if st.peek() == Some(Token::Newline) || st.peek() == Some(Token::LineComment) {
        l_adv(st);
        l_skip(adv(st).0);
    }
}

proof fn l_expect(st: St, t: Token)
    requires
        good(st),
    ensures
        expect(st, t) matches Ok(a) ==> moved(st, a, 4) && a.left() < st.left() && a.code == st.code
            && a.captures == st.captures && a.next_reg == st.next_reg && a.locals == st.locals,
{
    reveal(expect);
    l_adv(st);
}

proof fn l_expect_name(st: St, msg: Seq<char>)
    requires
        good(st),
    ensures
        expect_name(st, msg) matches Ok((a, _)) ==> moved(st, a, 4) && a.left() < st.left() && a.code
            == st.code && a.captures == st.captures && a.next_reg == st.next_reg,
{
    reveal(expect_name);
    l_adv(st);
}

/// More room keeps everything in order.
proof fn l_roomier(a: St, b: St)
    requires
        good(a),
        b.items == a.items,
        b.next == a.next,
        b.w0 == a.w0,
        b.w1 == a.w1,
        b.w2 == a.w2,
        b.locals == a.locals,
        b.globals == a.globals,
        b.functions == a.functions,
        b.captures == a.captures,
        b.starts == a.starts,
        b.code == a.code,
        b.next_reg >= a.next_reg,
        b.next_global >= a.next_global,
        b.strings.len() >= a.strings.len(),
    ensures
        good(b),
{
    reveal(good);
    reveal(once);
    l_inside_more(a.items, a.code, a.functions, a.strings.len(), b.strings.len());
    lemma_code_ok_more(a.code, room(a), room(b));
    assert forall|k: int| 0 <= k < b.functions.len() implies function_fits(
        #[trigger] b.functions[k],
        b,
    ) by {
        let f = a.functions[k];
        assert(function_fits(f, a));
        lemma_code_ok_more(
            f.code,
            Bounds { regs: f.locals_count as nat, ..room(a) },
            Bounds { regs: f.locals_count as nat, ..room(b) },
        );
    }
    assert forall|id: Seq<char>| #[trigger] b.locals.contains_key(id) implies local_fits(
        b.locals[id],
        b,
    ) by {
        assert(local_fits(a.locals[id], a));
    }
    assert forall|id: Seq<char>| #[trigger] b.globals.contains_key(id) implies global_fits(
        b.globals[id],
        b,
    ) by {
        assert(global_fits(a.globals[id], a));
    }
    assert forall|i: int| 0 <= i < b.captures.len() implies #[trigger] capture_fits(b, i) by {
        assert(capture_fits(a, i));
    }
}

proof fn l_fresh(st: St)
    requires
        good(st),
        budget(st) <= limit() + 64,
    ensures
        moved(st, st.fresh(), -1),
        st.fresh().next_reg == st.next_reg + 1,
{
    l_roomier(st, st.fresh());
}

proof fn l_intern(st: St, s: Seq<char>)
    requires
        good(st),
        budget(st) <= limit() + 64,
    ensures
        moved(st, st.intern(s), -1),
        st.intern(s).id_of(s) < st.intern(s).strings.len(),
        st.intern(s).next_reg == st.next_reg,
{
    l_roomier(st, st.intern(s));
    let t = st.intern(s).strings;
    assert(t.contains(s)) by {
        if !st.strings.contains(s) {
            assert(t[t.len() - 1] == s);
        }
    }
    let k = t.index_of(s);
    assert(0 <= k < t.len() && t[k] == s);
    assert(t.len() <= u32::MAX);
    assert((k as usize) as u32 == k);
}

/// One instruction more.
proof fn l_push(st: St, op: Op)
    requires
        good(st),
        op_ok(op, room(st)),
        op_inside(op, st),
        once(st.emit(op)),
    ensures
        good(st.emit(op)),
{
    reveal(good);
    l_inside_push(st, op);
    let b = st.emit(op);
    assert forall|k: int| 0 <= k < b.code.len() implies op_ok(#[trigger] b.code[k], room(b)) by {
        if k < st.code.len() {
            lemma_code_ok_at(st.code, room(st), k);
        }
    }
    l_same_but_code(st, b);
}

proof fn l_emit(st: St, op: Op)
    requires
        good(st),
        op_ok(op, room(st)),
        op_inside(op, st),
        quiet(op),
    ensures
        moved(st, st.emit(op), 0),
        st.emit(op).code.len() == st.code.len() + 1,
{
    let b = st.emit(op);
    assert forall|g: usize| #[trigger]
        stores(b.code, b.functions, g) == stores(st.code, st.functions, g) by {
        reveal(stores);
        lemma_stores_push(st.code, op, g);
        assert(op_stores(op, g) == 0);
    }
    assert(once(b)) by {
        reveal(good);
        reveal(once);
    }
    l_push(st, op);
}

/// An instruction that gives a mutable variable another value.
proof fn l_emit_store(base: St, st: St, op: Op, idx: usize, gain: int)
    requires
        good(base),
        moved(base, st, gain),
        op_ok(op, room(st)),
        op_inside(op, st),
        changeable(base.globals, idx),
        idx < base.next_global,
        forall|g: usize| g != idx ==> #[trigger] op_stores(op, g) == 0,
    ensures
        moved(base, st.emit(op), gain),
{
    let b = st.emit(op);
    assert forall|g: usize| g != idx implies #[trigger] stores(b.code, b.functions, g) == stores(
        st.code,
        st.functions,
        g,
    ) by {
        reveal(stores);
        lemma_stores_push(st.code, op, g);
        assert(op_stores(op, g) == 0);
    }
    assert(once(b)) by {
        reveal(good);
        reveal(once);
        assert(!frozen(st.globals, idx)) by {
            if frozen(st.globals, idx) {
                assert(frozen(base.globals, idx));
            }
        }
    }
    l_push(st, op);
}

/// A jump that was left open gets its target.
proof fn l_patch(base: St, st: St, k: int, i: Instruction, gain: int)
    requires
        moved(base, st, gain),
        base.code.len() <= k < st.code.len(),
        op_ok(Op::Plain(i), room(st)),
        op_jumps(Op::Plain(i), st.code.len()),
        op_literals(Op::Plain(i), st.strings.len()),
        quiet(st.code[k]),
        quiet(Op::Plain(i)),
    ensures
        moved(base, st.patch(k, i), gain),
        st.patch(k, i).code.len() == st.code.len(),
        forall|j: int| 0 <= j < st.code.len() && j != k ==> #[trigger] st.patch(k, i).code[j]
            == st.code[j],
{
    let b = st.patch(k, i);
    assert forall|g: usize| #[trigger]
        stores(b.code, b.functions, g) == stores(st.code, st.functions, g) by {
        reveal(stores);
        assert(op_stores(st.code[k], g) == 0);
        assert(op_stores(Op::Plain(i), g) == 0);
        lemma_stores_update(st.code, k, Op::Plain(i), g);
    }
    reveal(good);
    l_inside_patch(st, k, Op::Plain(i));
    assert(once(b)) by {
        reveal(once);
    }
    assert forall|j: int| 0 <= j < b.code.len() implies op_ok(#[trigger] b.code[j], room(b)) by {
        if j != k {
            lemma_code_ok_at(st.code, room(st), j);
        }
    }
    l_same_but_code(st, b);
}

/// The same state with other code that keeps the bounds.
proof fn l_same_but_code(a: St, b: St)
    requires
        good(a),
        b == (St { code: b.code, ..a }),
        code_ok(b.code, room(b)),
        once(b),
        inside(b.items, b.code, b.functions, b.strings.len()),
    ensures
        good(b),
        b.left() == a.left(),
{
    reveal(good);
    assert(room(b) == room(a));
    assert forall|k: int| 0 <= k < b.functions.len() implies function_fits(
        #[trigger] b.functions[k],
        b,
    ) by {
        assert(function_fits(a.functions[k], a));
    }
    assert forall|id: Seq<char>| #[trigger] b.locals.contains_key(id) implies local_fits(
        b.locals[id],
        b,
    ) by {
        assert(local_fits(a.locals[id], a));
    }
    assert forall|id: Seq<char>| #[trigger] b.globals.contains_key(id) implies global_fits(
        b.globals[id],
        b,
    ) by {
        assert(global_fits(a.globals[id], a));
    }
    assert forall|i: int| 0 <= i < b.captures.len() implies #[trigger] capture_fits(b, i) by {
        assert(capture_fits(a, i));
    }
}

proof fn l_track(st: St, r: usize)
    requires
        good(st),
    ensures
        moved(st, st.track(r), 0),
{
    reveal(good);
    let b = st.track(r);
    assert(once(b)) by {
        reveal(once);
    }
    assert forall|i: int| 0 <= i < b.captures.len() implies #[trigger] capture_fits(b, i) by {
        assert(capture_fits(st, i));
        if outer_to(st.starts, i, r) {
            assert(r < st.starts[i]);
        }
    }
    assert(room(b) == room(st));
    assert forall|k: int| 0 <= k < b.functions.len() implies function_fits(
        #[trigger] b.functions[k],
        b,
    ) by {
        assert(function_fits(st.functions[k], st));
    }
    assert forall|id: Seq<char>| #[trigger] b.locals.contains_key(id) implies local_fits(
        b.locals[id],
        b,
    ) by {
        assert(local_fits(st.locals[id], st));
    }
    assert forall|id: Seq<char>| #[trigger] b.globals.contains_key(id) implies global_fits(
        b.globals[id],
        b,
    ) by {
        assert(global_fits(st.globals[id], st));
    }
}

/// What is known of a variable fits the state.
spec fn var_fits(info: VarInfo, st: St) -> bool {
    if info.is_global {
        info.idx < st.next_global
    } else {
        info.idx < st.next_reg
    }
}

/// A mutable variable that is global is known as one.
spec fn may_change(info: VarInfo, st: St) -> bool {
    info.is_global && info.is_mut ==> changeable(st.globals, info.idx)
}

proof fn l_get_var(st: St, id: Seq<char>)
    requires
        good(st),
    ensures
        st.get_var(id) matches Some(info) ==> var_fits(info, st) && may_change(info, st),
{
    reveal(good);
    reveal(changeable);
    if st.locals.contains_key(id) {
        assert(local_fits(st.locals[id], st));
    } else if st.globals.contains_key(id) {
        assert(global_fits(st.globals[id], st));
    }
}

proof fn l_load_var(st: St, info: VarInfo)
    requires
        good(st),
        budget(st) <= limit() + 60,
        var_fits(info, st),
    ensures
        moved(st, st.load_var(info).0, -1),
        st.load_var(info).1 < st.load_var(info).0.next_reg,
{
    if info.is_global {
        l_fresh(st);
        l_emit(st.fresh(), Op::Plain(Instruction::LoadGlobal { dst: st.next_reg, global: info.idx }));
    } else {
        l_track(st, info.idx);
    }
}

proof fn l_literal(st: St, val: Value)
    requires
        good(st),
        plain_items(st.items) ==> literal_ok(val, st.strings.len()),
        budget(st) <= limit() + 60,
    ensures
        moved(st, st.literal(val).0, -1),
        st.literal(val).1 < st.literal(val).0.next_reg,
{
    l_fresh(st);
    l_emit(st.fresh(), Op::Plain(Instruction::LoadLiteral { dst: st.next_reg, val }));
}

proof fn l_text_literal(st: St, s: Seq<char>)
    requires
        good(st),
        budget(st) <= limit() + 50,
    ensures
        moved(st, st.text_literal(s).0, -2),
        st.text_literal(s).1 < st.text_literal(s).0.next_reg,
{
    if encode_utf8(s).len() <= 6 {
        law_short_text_round_trip(s);
        l_literal(st, text_value(encode_utf8(s)));
    } else {
        l_intern(st, s);
        let t = st.intern(s);
        law_boxes_round_trip(0, true, t.id_of(s));
        l_literal(t, object_value(t.id_of(s)));
    }
}

/// A fresh register and an instruction that may use it.
proof fn l_new(st: St, op: Op)
    requires
        good(st),
        budget(st) <= limit() + 60,
        op_ok(op, Bounds { regs: (st.next_reg + 1) as nat, ..room(st) }),
        op_inside(op, st),
        quiet(op),
    ensures
        moved(st, st.fresh().emit(op), -1),
        st.fresh().emit(op).next_reg == st.next_reg + 1,
{
    l_fresh(st);
    l_emit(st.fresh(), op);
}

/// What was parsed is in a register, and the state after it is in order.
spec fn fits(st: St, res: Result<(St, usize), Fault>, gain: int) -> bool {
    res matches Ok((a, r)) ==> moved(st, a, gain) && r < a.next_reg
}

/// The registers of a list exist, and each has left something of the budget.
spec fn list_fits(st: St, n: nat, res: Result<(St, Seq<usize>), Fault>, gain: int) -> bool {
    res matches Ok((a, regs)) ==> {
        &&& n <= regs.len()
        &&& moved(st, a, gain + 2 * (regs.len() - n))
        &&& all_below(regs, a.next_reg as nat)
    }
}

proof fn l_below_more(s: Seq<usize>, m: nat, n: nat)
    requires
        all_below(s, m),
        m <= n,
    ensures
        all_below(s, n),
{
}

#[verifier::rlimit(40)]
proof fn l_call(st: St, id: Seq<char>, args: Seq<usize>, dst: Option<usize>)
    requires
        good(st),
        budget(st) <= limit() + 50,
        all_below(args, st.next_reg as nat),
        opt_below(dst, st.next_reg as nat),
    ensures
        moved(st, call(st, id, args, dst), -1),
{
    reveal(call);
    match st.get_var(id) {
        Some(info) => {
            l_get_var(st, id);
            l_load_var(st, info);
            let (a, callee_reg) = st.load_var(info);
            l_below_more(args, st.next_reg as nat, a.next_reg as nat);
            l_emit(a, Op::CallDynamic { callee_reg, args, dst, loc: a.loc() });
        },
        None => {
            l_intern(st, id);
            let a = st.intern(id);
            l_emit(a, Op::Call { name_id: a.id_of(id), args, dst, loc: a.loc() });
        },
    }
}

#[verifier::rlimit(40)]
proof fn g_expr(st: St)
    requires
        ok(st),
    ensures
        fits(st, p_expr(st), 2),
    decreases st.left(), 5int,
{
    reveal(p_expr);
    reveal(p_binary);
    g_binary(st, 0);
    if let Ok((a, start)) = p_binary(st, 0) {
        if a.peek() == Some(Token::Range) {
            l_adv(a);
            let b = adv(a).0;
            g_binary(b, 0);
            if let Ok((c, end)) = p_binary(b, 0) {
                l_new(
                    c,
                    Op::Plain(
                        Instruction::Range {
                            dst: c.next_reg,
                            start,
                            end,
                            step: None,
                            loc: b.loc(),
                        },
                    ),
                );
            }
        }
    }
}

#[verifier::rlimit(40)]
proof fn g_binary(st: St, min: u8)
    requires
        ok(st),
    ensures
        fits(st, p_binary(st, min), 2),
    decreases st.left(), 4int,
{
    reveal(p_binary);
    reveal(p_primary);
    reveal(p_operators);
    g_primary(st);
    if let Ok((a, lhs)) = p_primary(st) {
        g_operators(a, lhs, min);
    }
}

#[verifier::rlimit(40)]
proof fn g_operators(st: St, lhs: usize, min: u8)
    requires
        ok(st),
        lhs < st.next_reg,
    ensures
        fits(st, p_operators(st, lhs, min), 0),
    decreases st.left(), 4int,
{
    reveal(p_operators);
    reveal(p_binary);
    if let Some(p) = precedence(st.peek()) {
        if p >= min {
            l_adv(st);
            let a = adv(st).0;
            g_binary(a, (p + 1) as u8);
            if let Ok((b, rhs)) = p_binary(a, (p + 1) as u8) {
                let op = Op::Plain(binary_op(st.peek()->0, b.next_reg, lhs, rhs, a.loc()));
                l_new(b, op);
                g_operators(b.fresh().emit(op), b.next_reg, min);
            }
        }
    }
}

#[verifier::rlimit(40)]
proof fn g_primary(st: St)
    requires
        ok(st),
    ensures
        fits(st, p_primary(st), 2),
    decreases st.left(), 3int,
{
    reveal(p_primary);
    reveal(p_atom);
    reveal(p_suffixes);
    g_atom(st);
    if let Ok((a, r)) = p_atom(st) {
        g_suffixes(a, r);
    }
}

#[verifier::rlimit(40)]
proof fn g_atom(st: St)
    requires
        ok(st),
    ensures
        fits(st, p_atom(st), 2),
    decreases st.left(), 2int,
{
    reveal(p_atom);
    reveal(p_expr);
    reveal(p_list);
    reveal(p_object);
    reveal(p_name);
    l_adv(st);
    let a = adv(st).0;
    if let Ok(i) = adv(st).1 {
        match a.items[i as int].token {
            Ok(Token::LParen) => {
                g_expr(a);
                if let Ok((b, _)) = p_expr(a) {
                    l_expect(b, Token::RParen);
                }
            },
            Ok(Token::Number) => {
                l_literal(a, Value(a.items[i as int].number.bits));
            },
            Ok(Token::Bool(b)) => {
                law_boxes_round_trip(0, b, 0);
                l_literal(a, bool_value(b));
            },
            Ok(Token::String) => {
                l_text_literal(a, unescaped(a.text(i)));
            },
            Ok(Token::LBracket) => {
                g_list(a);
            },
            Ok(Token::LBrace) => {
                g_object(a);
            },
            Ok(Token::Identifier) => {
                g_name(a, a.text(i));
            },
            _ => {},
        }
    }
}

#[verifier::rlimit(40)]
proof fn g_name(st: St, id: Seq<char>)
    requires
        ok(st),
    ensures
        fits(st, p_name(st, id), -2),
    decreases st.left(), 2int,
{
    reveal(p_name);
    reveal(p_exprs);
    if st.peek() == Some(Token::LParen) {
        l_adv(st);
        let a = adv(st).0;
        g_exprs(a, Token::RParen);
        if let Ok((b, args)) = p_exprs(a, Token::RParen) {
            l_fresh(b);
            l_below_more(args, b.next_reg as nat, b.fresh().next_reg as nat);
            l_call(b.fresh(), id, args, Some(b.next_reg));
        }
    } else {
        match st.get_var(id) {
            Some(info) => {
                l_get_var(st, id);
                l_load_var(st, info);
            },
            None => {
                l_text_literal(st, id);
            },
        }
    }
}

#[verifier::rlimit(40)]
proof fn g_suffixes(st: St, reg: usize)
    requires
        ok(st),
        reg < st.next_reg,
    ensures
        fits(st, p_suffixes(st, reg), 0),
    decreases st.left(), 3int,
{
    reveal(p_suffixes);
    reveal(p_expr);
    reveal(p_method);
    l_skip(st);
    let s = skip(st);
    if s.peek() == Some(Token::LBracket) {
        l_adv(s);
        let a = adv(s).0;
        g_expr(a);
        if let Ok((b, index_reg)) = p_expr(a) {
            l_expect(b, Token::RBracket);
            if let Ok(c) = expect(b, Token::RBracket) {
                let op = Op::Plain(
                    Instruction::ListGet { dst: c.next_reg, list: reg, index_reg, loc: c.loc() },
                );
                l_new(c, op);
                g_suffixes(c.fresh().emit(op), c.next_reg);
            }
        }
    } else if s.peek() == Some(Token::Dot) {
        l_adv(s);
        let a = adv(s).0;
        let msg = "Expected property name after '.'"@;
        l_expect_name(a, msg);
        if let Ok((b, id)) = expect_name(a, msg) {
            l_intern(b, id);
            let c = b.intern(id);
            let op = Op::Plain(
                Instruction::ObjectGet {
                    dst: c.next_reg,
                    obj: reg,
                    name_id: c.id_of(id),
                    loc: c.loc(),
                },
            );
            l_new(c, op);
            let d = c.fresh().emit(op);
            g_method(d, c.next_reg);
            if let Ok((f, r)) = p_method(d, c.next_reg) {
                g_suffixes(f, r);
            }
        }
    }
}

#[verifier::rlimit(40)]
proof fn g_method(st: St, callee_reg: usize)
    requires
        ok(st),
        callee_reg < st.next_reg,
    ensures
        fits(st, p_method(st, callee_reg), 0),
    decreases st.left(), 2int,
{
    reveal(p_method);
    reveal(p_exprs);
    if st.peek() == Some(Token::LParen) {
        l_adv(st);
        let a = adv(st).0;
        g_exprs(a, Token::RParen);
        if let Ok((b, args)) = p_exprs(a, Token::RParen) {
            l_below_more(args, b.next_reg as nat, b.fresh().next_reg as nat);
            l_new(
                b,
                Op::CallDynamic { callee_reg, args, dst: Some(b.next_reg), loc: b.loc() },
            );
        }
    }
}

#[verifier::rlimit(40)]
proof fn g_exprs(st: St, close: Token)
    requires
        ok(st),
    ensures
        list_fits(st, 0, p_exprs(st, close), 4),
    decreases st.left(), 7int,
{
    reveal(p_exprs);
    reveal(p_more_exprs);
    l_skip(st);
    let s = skip(st);
    if s.peek() == Some(close) {
        l_expect(s, close);
    } else {
        g_more_exprs(s, close, Seq::empty());
        if let Ok((a, _)) = p_more_exprs(s, close, Seq::empty()) {
            l_expect(a, close);
        }
    }
}

#[verifier::rlimit(40)]
proof fn g_more_exprs(st: St, close: Token, regs: Seq<usize>)
    requires
        ok(st),
        all_below(regs, st.next_reg as nat),
    ensures
        list_fits(st, regs.len(), p_more_exprs(st, close, regs), 0),
    decreases st.left(), 6int,
{
    reveal(p_more_exprs);
    reveal(p_expr);
    l_skip(st);
    let s = skip(st);
    g_expr(s);
    if let Ok((a, r)) = p_expr(s) {
        l_skip(a);
        let b = skip(a);
        if b.peek() == Some(Token::Comma) {
            l_adv(b);
            let c = adv(b).0;
            if c.peek() != Some(close) {
                g_more_exprs(c, close, regs.push(r));
            }
        }
    }
}

#[verifier::rlimit(40)]
proof fn l_fill_list(st: St, dst: usize, elements: Seq<usize>, n: nat)
    requires
        good(st),
        budget(st) + elements.len() <= limit(),
        dst < st.next_reg,
        n <= elements.len(),
        all_below(elements, st.next_reg as nat),
    ensures
        moved(st, fill_list(st, dst, elements, n), -n),
    decreases n,
{
    reveal_with_fuel(fill_list, 2);
    if n > 0 {
        l_fill_list(st, dst, elements, (n - 1) as nat);
        let a = fill_list(st, dst, elements, (n - 1) as nat);
        let val = Value(bits_of_count((n - 1) as nat) as u64);
        law_small_counts_are_exact((n - 1) as nat);
        l_literal(a, val);
        let (b, index_reg) = a.literal(val);
        assert(elements[n - 1] < st.next_reg);
        l_emit(
            b,
            Op::Plain(
                Instruction::ListSet { list: dst, index_reg, src: elements[n - 1], loc: b.loc() },
            ),
        );
    }
}

#[verifier::rlimit(40)]
proof fn g_list(st: St)
    requires
        ok(st),
    ensures
        fits(st, p_list(st), 2),
    decreases st.left(), 8int,
{
    reveal(p_list);
    reveal(p_exprs);
    g_exprs(st, Token::RBracket);
    if let Ok((a, elements)) = p_exprs(st, Token::RBracket) {
        let op = Op::Plain(
            Instruction::NewList { dst: a.next_reg, len: elements.len() as usize },
        );
        l_new(a, op);
        let b = a.fresh().emit(op);
        l_below_more(elements, a.next_reg as nat, b.next_reg as nat);
        l_fill_list(b, a.next_reg, elements, elements.len());
    }
}

/// The registers of the fields exist.
spec fn values_below(fields: Seq<(Seq<char>, usize)>, n: nat) -> bool {
    forall|k: int| 0 <= k < fields.len() ==> (#[trigger] fields[k]).1 < n
}

#[verifier::rlimit(40)]
proof fn l_fill_object(st: St, dst: usize, fields: Seq<(Seq<char>, usize)>, n: nat)
    requires
        good(st),
        budget(st) + fields.len() <= limit(),
        dst < st.next_reg,
        n <= fields.len(),
        values_below(fields, st.next_reg as nat),
    ensures
        moved(st, fill_object(st, dst, fields, n), -n),
    decreases n,
{
    reveal_with_fuel(fill_object, 2);
    if n > 0 {
        l_fill_object(st, dst, fields, (n - 1) as nat);
        let a = fill_object(st, dst, fields, (n - 1) as nat);
        l_intern(a, fields[n - 1].0);
        let b = a.intern(fields[n - 1].0);
        l_emit(
            b,
            Op::Plain(
                Instruction::ObjectSet {
                    obj: dst,
                    name_id: b.id_of(fields[n - 1].0),
                    src: fields[n - 1].1,
                    loc: b.loc(),
                },
            ),
        );
    }
}

#[verifier::rlimit(40)]
proof fn g_fields(st: St, fields: Seq<(Seq<char>, usize)>)
    requires
        ok(st),
        values_below(fields, st.next_reg as nat),
    ensures
        p_fields(st, fields) matches Ok((a, all)) ==> fields.len() <= all.len() && moved(
            st,
            a,
            2 * (all.len() - fields.len()),
        ) && values_below(all, a.next_reg as nat),
    decreases st.left(), 7int,
{
    reveal(p_fields);
    reveal(p_expr);
    l_skip(st);
    let s = skip(st);
    let msg = "Expected field name"@;
    l_expect_name(s, msg);
    if let Ok((a, name)) = expect_name(s, msg) {
        l_expect(a, Token::Colon);
        if let Ok(b) = expect(a, Token::Colon) {
            g_expr(b);
            if let Ok((c, r)) = p_expr(b) {
                l_skip(c);
                let d = skip(c);
                if d.peek() == Some(Token::Comma) {
                    l_adv(d);
                    let f = adv(d).0;
                    if f.peek() != Some(Token::RBrace) {
                        g_fields(f, fields.push((name, r)));
                    }
                }
            }
        }
    }
}

#[verifier::rlimit(40)]
proof fn g_object(st: St)
    requires
        ok(st),
    ensures
        fits(st, p_object(st), 2),
    decreases st.left(), 8int,
{
    reveal(p_object);
    reveal(p_fields);
    l_skip(st);
    let s = skip(st);
    let none = Seq::<(Seq<char>, usize)>::empty();
    let parsed = if s.peek() == Some(Token::RBrace) {
        Ok((s, none))
    } else {
        g_fields(s, none);
        p_fields(s, none)
    };
    if let Ok((a, fields)) = parsed {
        l_expect(a, Token::RBrace);
        if let Ok(b) = expect(a, Token::RBrace) {
            let op = Op::Plain(
                Instruction::NewObject { dst: b.next_reg, capacity: fields.len() as usize },
            );
            l_new(b, op);
            l_fill_object(b.fresh().emit(op), b.next_reg, fields, fields.len());
        }
    }
}

/// The statement left the state in order.
spec fn runs(st: St, res: Result<St, Fault>, gain: int) -> bool {
    res matches Ok(a) ==> moved(st, a, gain)
}

#[verifier::rlimit(40)]
proof fn g_stmt(st: St)
    requires
        ok(st),
    ensures
        p_stmt(st) matches Ok((a, found)) ==> moved(st, a, 0) && (found ==> a.left() < st.left()),
    decreases st.left(), 9int,
{
    reveal(p_stmt);
    reveal(p_construct);
    l_skip(st);
    let s = skip(st);
    if let Some(t) = s.peek() {
        if t != Token::RBrace {
            g_construct(s, t);
        }
    }
}

#[verifier::rlimit(40)]
proof fn g_construct(st: St, t: Token)
    requires
        ok(st),
        st.w0 is Some,
    ensures
        runs(st, p_construct(st, t), 1),
    decreases st.left(), 8int,
{
    reveal(p_construct);
    reveal(p_var_decl);
    reveal(p_for);
    reveal(p_while);
    reveal(p_fn);
    reveal(p_if);
    reveal(p_return);
    reveal(p_spawn);
    reveal(p_name_stmt);
    l_adv(st);
    let a = adv(st).0;
    match t {
        Token::MutableVar => {
            g_var_decl(st, true);
        },
        Token::ImmutableVar => {
            g_var_decl(st, false);
        },
        Token::For => {
            g_for(st);
        },
        Token::While => {
            g_while(a);
        },
        Token::Fn => {
            g_fn(a);
        },
        Token::If => {
            g_if(a);
        },
        Token::Return => {
            g_return(a);
        },
        Token::Spawn => {
            g_spawn(a);
        },
        Token::Identifier => {
            g_name_stmt(a, st.text(st.w0->0));
        },
        _ => {},
    }
}

#[verifier::rlimit(40)]
proof fn g_stmts(st: St)
    requires
        ok(st),
    ensures
        runs(st, p_stmts(st), 0),
    decreases st.left(), 10int,
{
    reveal(p_stmts);
    reveal(p_stmt);
    if !(st.peek() is None || st.peek() == Some(Token::RBrace)) {
        g_stmt(st);
        if let Ok((a, true)) = p_stmt(st) {
            g_stmts(a);
        }
    }
}

#[verifier::rlimit(40)]
proof fn g_block(st: St)
    requires
        ok(st),
    ensures
        runs(st, p_block(st), 8),
    decreases st.left(), 6int,
{
    reveal(p_block);
    reveal(p_stmts);
    l_skip(st);
    l_expect(skip(st), Token::LBrace);
    if let Ok(a) = expect(skip(st), Token::LBrace) {
        g_stmts(a);
        if let Ok(b) = p_stmts(a) {
            l_expect(b, Token::RBrace);
        }
    }
}

/// A new local variable in a fresh register.
proof fn l_local(st: St, id: Seq<char>, info: VarInfo)
    requires
        good(st),
        budget(st) <= limit() + 60,
        !info.is_global,
        info.idx == st.next_reg,
    ensures
        moved(st, St { locals: st.locals.insert(id, info), ..st.fresh() }, -1),
{
    l_fresh(st);
    reveal(good);
    let a = st.fresh();
    let b = St { locals: st.locals.insert(id, info), ..a };
    assert(once(b)) by {
        reveal(once);
    }
    assert(room(b) == room(a));
    assert forall|n: Seq<char>| #[trigger] b.locals.contains_key(n) implies local_fits(
        b.locals[n],
        b,
    ) by {
        if n != id {
            assert(a.locals.contains_key(n) && local_fits(a.locals[n], a));
        }
    }
    assert forall|n: Seq<char>| #[trigger] b.globals.contains_key(n) implies global_fits(
        b.globals[n],
        b,
    ) by {
        assert(global_fits(a.globals[n], a));
    }
    assert forall|k: int| 0 <= k < b.functions.len() implies function_fits(
        #[trigger] b.functions[k],
        b,
    ) by {
        assert(function_fits(a.functions[k], a));
    }
    assert forall|i: int| 0 <= i < b.captures.len() implies #[trigger] capture_fits(b, i) by {
        assert(capture_fits(a, i));
    }
}

/// A new global variable with the value of a register.
#[verifier::rlimit(40)]
proof fn l_global(st: St, id: Seq<char>, info: VarInfo, src: usize)
    requires
        good(st),
        budget(st) <= limit() + 60,
        info.is_global,
        info.idx == st.next_global,
        src < st.next_reg,
    ensures
        moved(
            st,
            St {
                next_global: succ(st.next_global),
                globals: st.globals.insert(id, info),
                ..st
            }.plain(Instruction::StoreGlobal { global: info.idx, src }),
            -1,
        ),
{
    let a = St { next_global: succ(st.next_global), ..st };
    l_roomier(st, a);
    reveal(good);
    let b = St { globals: st.globals.insert(id, info), ..a };
    l_insert(st.globals, id, info, st.next_global);
    assert(once(b)) by {
        reveal(once);
        assert forall|g: usize| #[trigger] frozen(b.globals, g) implies !changeable(b.globals, g)
            && stores(b.code, b.functions, g) <= 1 by {
            if g != info.idx {
                assert(frozen(st.globals, g));
            }
        }
    }
    assert(room(b) == room(a));
    assert forall|n: Seq<char>| #[trigger] b.globals.contains_key(n) implies global_fits(
        b.globals[n],
        b,
    ) by {
        if n != id {
            assert(a.globals.contains_key(n) && global_fits(a.globals[n], a));
        }
    }
    assert forall|n: Seq<char>| #[trigger] b.locals.contains_key(n) implies local_fits(
        b.locals[n],
        b,
    ) by {
        assert(local_fits(a.locals[n], a));
    }
    assert forall|k: int| 0 <= k < b.functions.len() implies function_fits(
        #[trigger] b.functions[k],
        b,
    ) by {
        assert(function_fits(a.functions[k], a));
    }
    assert forall|i: int| 0 <= i < b.captures.len() implies #[trigger] capture_fits(b, i) by {
        assert(capture_fits(a, i));
    }
    assert(good(b));
    let op = Op::Plain(Instruction::StoreGlobal { global: info.idx, src });
    let c = b.emit(op);
    assert forall|g: usize| #[trigger] stores(c.code, c.functions, g) == stores(
        st.code,
        st.functions,
        g,
    ) + op_stores(op, g) by {
        reveal(stores);
        lemma_stores_push(st.code, op, g);
    }
    assert(once(c)) by {
        reveal(once);
    }
    l_push(b, op);
}

/// A new name for a global that no variable had: the others stay what they are.
proof fn l_insert(globals: Map<Seq<char>, VarInfo>, id: Seq<char>, info: VarInfo, n: usize)
    requires
        info.idx == n,
        forall|k: Seq<char>| #[trigger] globals.contains_key(k) ==> globals[k].idx < n,
    ensures
        forall|g: usize|
            g != n && #[trigger] changeable(globals.insert(id, info), g) ==> changeable(globals, g),
        forall|g: usize|
            g != n && #[trigger] frozen(globals.insert(id, info), g) ==> frozen(globals, g),
        frozen(globals.insert(id, info), n) ==> !changeable(globals.insert(id, info), n),
{
    reveal(changeable);
    reveal(frozen);
    let m = globals.insert(id, info);
    assert forall|g: usize| g != n && #[trigger] changeable(m, g) implies changeable(globals, g) by {
        let k = choose|k: Seq<char>| #[trigger]
            m.contains_key(k) && m[k].is_mut && m[k].idx == g;
        assert(globals.contains_key(k) && globals[k].is_mut && globals[k].idx == g);
    }
    assert forall|g: usize| g != n && #[trigger] frozen(m, g) implies frozen(globals, g) by {
        let k = choose|k: Seq<char>| #[trigger]
            m.contains_key(k) && !m[k].is_mut && m[k].idx == g;
        assert(globals.contains_key(k) && !globals[k].is_mut && globals[k].idx == g);
    }
    if frozen(m, n) && changeable(m, n) {
        let j = choose|j: Seq<char>| #[trigger]
            m.contains_key(j) && !m[j].is_mut && m[j].idx == n;
        let k = choose|k: Seq<char>| #[trigger]
            m.contains_key(k) && m[k].is_mut && m[k].idx == n;
        assert(j == id && k == id) by {
            if j != id {
                assert(globals.contains_key(j));
            }
            if k != id {
                assert(globals.contains_key(k));
            }
        }
    }
}

proof fn l_declare(st: St, id: Seq<char>, is_mut: bool, src: usize)
    requires
        good(st),
        budget(st) <= limit() + 50,
        src < st.next_reg,
    ensures
        moved(st, declare(st, id, is_mut, src), -1),
{
    reveal(declare);
    if !st.in_fn && !st.in_spawn {
        let info = VarInfo {
            idx: st.next_global,
            is_mut,
            is_global: true,
            first_line: st.line,
        };
        l_global(st, id, info, src);
    } else {
        let info = VarInfo { idx: st.next_reg, is_mut, is_global: false, first_line: st.line };
        l_local(st, id, info);
        let a = St { locals: st.locals.insert(id, info), ..st.fresh() };
        l_emit(a, Op::Plain(Instruction::Move { dst: st.next_reg, src }));
    }
}

#[verifier::rlimit(40)]
proof fn g_var_decl(st: St, is_mut: bool)
    requires
        ok(st),
    ensures
        runs(st, p_var_decl(st, is_mut), 1),
    decreases st.left(), 7int,
{
    reveal(p_var_decl);
    reveal(p_expr);
    l_adv(st);
    if adv(st).1 is Ok {
        let a = adv(st).0;
        let msg = "Expected identifier"@;
        l_expect_name(a, msg);
        if let Ok((b, id)) = expect_name(a, msg) {
            l_expect(b, Token::Colon);
            if let Ok(c) = expect(b, Token::Colon) {
                g_expr(c);
                if let Ok((d, src)) = p_expr(c) {
                    l_declare(d, id, is_mut, src);
                }
            }
        }
    }
}

#[verifier::rlimit(40)]
proof fn g_if(st: St)
    requires
        ok(st),
    ensures
        runs(st, p_if(st), 0),
    decreases st.left(), 7int,
{
    reveal(p_if);
    reveal(p_expr);
    reveal(p_block);
    g_expr(st);
    if let Ok((a, cond)) = p_expr(st) {
        let j = a.code.len() as int;
        l_emit(a, Op::Plain(Instruction::Jump(0)));
        let body = a.plain(Instruction::Jump(0));
        g_block(body);
        if let Ok(b) = p_block(body) {
            assert(b.code[j] == Op::Plain(Instruction::Jump(0)));
            if b.peek() == Some(Token::Else) {
                g_else(st, b, j, cond);
            } else {
                let jump = Instruction::JumpIfFalse { cond, target: b.code.len() as usize };
                l_patch(st, b, j, jump, 0);
            }
        }
    }
}

/// The state before the second block of a condition.
spec fn other_branch(b: St, j: int, cond: usize) -> St {
    let d = adv(b).0.plain(Instruction::Jump(0));
    d.patch(j, Instruction::JumpIfFalse { cond, target: d.code.len() as usize })
}

#[verifier::rlimit(40)]
proof fn g_else(st: St, b: St, j: int, cond: usize)
    requires
        ok(st),
        moved(st, b, 8),
        st.code.len() <= j < b.code.len(),
        b.code[j] == Op::Plain(Instruction::Jump(0)),
        cond < b.next_reg,
        b.w0 is Some,
    ensures
        other_branch(b, j, cond).left() <= st.left(),
        p_block(other_branch(b, j, cond)) matches Ok(g) ==> moved(
            st,
            g.patch(adv(b).0.code.len() as int, Instruction::Jump(g.code.len() as usize)),
            0,
        ),
    decreases st.left(), 6int,
{
    l_adv(b);
    let c = adv(b).0;
    let k = c.code.len() as int;
    l_emit(c, Op::Plain(Instruction::Jump(0)));
    let d = c.plain(Instruction::Jump(0));
    let jump = Instruction::JumpIfFalse { cond, target: d.code.len() as usize };
    l_patch(st, d, j, jump, 8);
    let f = d.patch(j, jump);
    assert(f.code[k] == Op::Plain(Instruction::Jump(0)));
    g_block(f);
    if let Ok(g) = p_block(f) {
        assert(g.code[k] == Op::Plain(Instruction::Jump(0)));
        l_patch(st, g, k, Instruction::Jump(g.code.len() as usize), 0);
    }
}

#[verifier::rlimit(40)]
proof fn g_while(st: St)
    requires
        ok(st),
    ensures
        runs(st, p_while(st), 0),
    decreases st.left(), 7int,
{
    reveal(p_while);
    reveal(p_expr);
    reveal(p_block);
    g_expr(st);
    if let Ok((a, cond)) = p_expr(st) {
        let j = a.code.len() as int;
        l_emit(a, Op::Plain(Instruction::Jump(0)));
        let body = a.plain(Instruction::Jump(0));
        g_block(body);
        if let Ok(b) = p_block(body) {
            let jump = Instruction::Jump(st.code.len() as usize);
            l_emit(b, Op::Plain(jump));
            let c = b.plain(jump);
            assert(c.code[j] == Op::Plain(Instruction::Jump(0)));
            let test = Instruction::JumpIfFalse { cond, target: c.code.len() as usize };
            l_patch(st, c, j, test, 0);
        }
    }
}

proof fn l_loop_var(st: St, id: Seq<char>, start: usize)
    requires
        good(st),
        budget(st) <= limit() + 50,
        start < st.next_reg,
    ensures
        moved(st, loop_var(st, id, start), -1),
        loop_var(st, id, start).next_reg == st.next_reg + 1,
{
    reveal(loop_var);
    let info = VarInfo {
        idx: st.next_reg,
        is_mut: true,
        is_global: false,
        first_line: st.line,
    };
    l_local(st, id, info);
    let a = St { locals: st.locals.insert(id, info), ..st.fresh() };
    l_emit(a, Op::Plain(Instruction::Move { dst: st.next_reg, src: start }));
}

#[verifier::rlimit(40)]
proof fn g_for(st: St)
    requires
        ok(st),
    ensures
        runs(st, p_for(st), 1),
    decreases st.left(), 7int,
{
    reveal(p_for);
    reveal(p_binary);
    reveal(p_loop);
    l_adv(st);
    if adv(st).1 is Ok {
        let a = adv(st).0;
        let msg = "Expected identifier"@;
        l_expect_name(a, msg);
        if let Ok((b, id)) = expect_name(a, msg) {
            l_expect(b, Token::In);
            if let Ok(c) = expect(b, Token::In) {
                g_binary(c, 0);
                if let Ok((d, first)) = p_binary(c, 0) {
                    if d.peek() == Some(Token::Range) {
                        l_adv(d);
                        let f = adv(d).0;
                        g_binary(f, 0);
                        if let Ok((g, end)) = p_binary(f, 0) {
                            l_loop_var(g, id, first);
                            g_loop(
                                loop_var(g, id, first),
                                Counter { var: g.next_reg, end, step: None },
                                st.loc(),
                            );
                        }
                    } else {
                        g_for_held(st, d, id, first);
                    }
                }
            }
        }
    }
}

/// The state of a loop over a range that a value holds, before its body.
spec fn unpacked(d: St, id: Seq<char>, first: usize) -> St {
    loop_var(
        d.fresh().fresh().fresh().plain(
            Instruction::RangeInfo {
                range: first,
                start_dst: d.next_reg,
                end_dst: d.fresh().next_reg,
                step_dst: d.fresh().fresh().next_reg,
            },
        ),
        id,
        d.next_reg,
    )
}

#[verifier::rlimit(40)]
proof fn g_for_held(st: St, d: St, id: Seq<char>, first: usize)
    requires
        ok(st),
        moved(st, d, 14),
        first < d.next_reg,
    ensures
        unpacked(d, id, first).left() < st.left(),
        runs(
            st,
            p_loop(
                unpacked(d, id, first),
                Counter {
                    var: d.fresh().fresh().fresh().next_reg,
                    end: d.fresh().next_reg,
                    step: Some(d.fresh().fresh().next_reg),
                },
                st.loc(),
            ),
            1,
        ),
    decreases st.left(), 6int,
{
    l_fresh(d);
    l_fresh(d.fresh());
    l_fresh(d.fresh().fresh());
    let e = d.fresh().fresh().fresh();
    let i = Instruction::RangeInfo {
        range: first,
        start_dst: d.next_reg,
        end_dst: d.fresh().next_reg,
        step_dst: d.fresh().fresh().next_reg,
    };
    l_emit(e, Op::Plain(i));
    l_loop_var(e.plain(i), id, d.next_reg);
    g_loop(
        unpacked(d, id, first),
        Counter {
            var: e.next_reg,
            end: d.fresh().next_reg,
            step: Some(d.fresh().fresh().next_reg),
        },
        st.loc(),
    );
}

#[verifier::rlimit(40)]
proof fn g_loop(st: St, counter: Counter, loc: Loc)
    requires
        ok(st),
        budget(st) < limit(),
        counter.var < st.next_reg,
        counter.end < st.next_reg,
        opt_below(counter.step, st.next_reg as nat),
    ensures
        runs(st, p_loop(st, counter, loc), 0),
    decreases st.left(), 7int,
{
    reveal(p_loop);
    reveal(p_block);
    let top = st.code.len() as usize;
    let cond = st.next_reg;
    let test = Instruction::Lt { dst: cond, lhs: counter.var, rhs: counter.end, loc };
    l_new(st, Op::Plain(test));
    let a = st.fresh().plain(test);
    let j = a.code.len() as int;
    l_emit(a, Op::Plain(Instruction::Jump(0)));
    let body = a.plain(Instruction::Jump(0));
    g_block(body);
    if let Ok(b) = p_block(body) {
        let i = match counter.step {
            None => Instruction::Increment(counter.var),
            Some(rhs) => Instruction::Add { dst: counter.var, lhs: counter.var, rhs, loc },
        };
        l_emit(b, Op::Plain(i));
        let c = b.plain(i);
        l_emit(c, Op::Plain(Instruction::Jump(top)));
        let d = c.plain(Instruction::Jump(top));
        assert(d.code[j] == Op::Plain(Instruction::Jump(0)));
        l_patch(st, d, j, Instruction::JumpIfFalse { cond, target: d.code.len() as usize }, 0);
    }
}

proof fn g_spawn(st: St)
    requires
        ok(st),
    ensures
        runs(st, p_spawn(st), 0),
    decreases st.left(), 7int,
{
    reveal(p_spawn);
    reveal(p_block);
    let inner = St {
        in_spawn: true,
        captures: st.captures.push(Set::empty()),
        starts: st.starts.push(st.next_reg),
        code: Seq::empty(),
        ..st
    };
    l_enter_spawn(st, inner);
    g_block(inner);
    if let Ok(a) = p_block(inner) {
        l_leave_spawn(st, inner, a);
    }
}

/// Without its code, what a state has come to is in order all the same.
proof fn l_fresh_code(st: St, inner: St)
    requires
        once(st),
        inner.code == Seq::<Op>::empty(),
        inner.functions == st.functions,
        inner.globals == st.globals,
        inner.next_global == st.next_global,
    ensures
        once(inner),
        forall|g: usize| #[trigger]
            stores(st.code, st.functions, g) == code_stores(st.code, g) + stores(
                inner.code,
                inner.functions,
                g,
            ),
{
    reveal(once);
    assert forall|g: usize| #[trigger]
        stores(st.code, st.functions, g) == code_stores(st.code, g) + stores(
            inner.code,
            inner.functions,
            g,
        ) by {
        reveal(stores);
    }
    assert forall|g: usize| #[trigger] stores(inner.code, inner.functions, g) <= stores(
        st.code,
        st.functions,
        g,
    ) by {
        assert(stores(st.code, st.functions, g) >= 0);
    }
}

/// The code of an inner scope joins that of the scope around it: as an
/// instruction that starts a task, or as a function.
proof fn l_join(st: St, inner: St, a: St, b: St)
    requires
        once(st),
        once(a),
        inner.code == Seq::<Op>::empty(),
        inner.functions == st.functions,
        inner.globals == st.globals,
        inner.next_global == st.next_global,
        constant(inner, a),
        a.next_global >= st.next_global,
        b.next_global == a.next_global,
        b.globals == a.globals,
        forall|g: usize| #[trigger]
            stores(b.code, b.functions, g) == code_stores(st.code, g) + stores(
                a.code,
                a.functions,
                g,
            ),
    ensures
        once(b),
        constant(st, b),
{
    l_fresh_code(st, inner);
    reveal(once);
    assert forall|g: usize| #[trigger] stores(b.code, b.functions, g) == 0 || g
        < b.next_global by {
        if g >= b.next_global {
            assert(stores(st.code, st.functions, g) == 0);
            assert(stores(a.code, a.functions, g) == 0);
        }
    }
    assert forall|g: usize| #[trigger] frozen(b.globals, g) implies !changeable(b.globals, g)
        && stores(b.code, b.functions, g) <= 1 by {
        if g < st.next_global {
            assert(frozen(st.globals, g));
            assert(!changeable(st.globals, g));
            assert(stores(a.code, a.functions, g) == stores(inner.code, inner.functions, g));
            assert(stores(st.code, st.functions, g) <= 1);
        } else {
            assert(stores(st.code, st.functions, g) == 0);
            assert(stores(a.code, a.functions, g) <= 1);
        }
    }
}

/// The same before the code of the inner scope has joined.
proof fn l_join_part(st: St, inner: St, a: St, b: St)
    requires
        once(st),
        once(a),
        inner.code == Seq::<Op>::empty(),
        inner.functions == st.functions,
        inner.globals == st.globals,
        inner.next_global == st.next_global,
        constant(inner, a),
        a.next_global >= st.next_global,
        b.code == st.code,
        b.functions == a.functions,
        b.next_global == a.next_global,
        b.globals == a.globals,
    ensures
        once(b),
{
    l_fresh_code(st, inner);
    reveal(once);
    assert forall|g: usize| stores(b.code, b.functions, g) <= #[trigger] code_stores(st.code, g)
        + stores(a.code, a.functions, g) by {
        reveal(stores);
    }
    assert forall|g: usize| g >= b.next_global implies #[trigger] stores(b.code, b.functions, g)
        == 0 by {
        assert(code_stores(st.code, g) + stores(a.code, a.functions, g) >= 0);
        assert(stores(st.code, st.functions, g) == 0);
        assert(stores(a.code, a.functions, g) == 0);
    }
    assert forall|g: usize| #[trigger] frozen(b.globals, g) implies !changeable(b.globals, g)
        && stores(b.code, b.functions, g) <= 1 by {
        assert(code_stores(st.code, g) + stores(a.code, a.functions, g) >= 0);
        if g < st.next_global {
            assert(frozen(st.globals, g));
            assert(!changeable(st.globals, g));
            assert(stores(a.code, a.functions, g) == stores(inner.code, inner.functions, g));
            assert(stores(st.code, st.functions, g) <= 1);
        } else {
            assert(stores(st.code, st.functions, g) == 0);
            assert(stores(a.code, a.functions, g) <= 1);
        }
    }
}

proof fn l_enter_spawn(st: St, inner: St)
    requires
        good(st),
        inner == (St {
            in_spawn: true,
            captures: st.captures.push(Set::empty()),
            starts: st.starts.push(st.next_reg),
            code: Seq::empty(),
            ..st
        }),
    ensures
        good(inner),
{
    reveal(good);
    l_fresh_code(st, inner);
    assert(inside(inner.items, inner.code, inner.functions, inner.strings.len())) by {
        reveal(inside);
    }
    assert(room(inner) == room(st));
    assert forall|i: int| 0 <= i < inner.captures.len() implies #[trigger] capture_fits(
        inner,
        i,
    ) by {
        if i < st.captures.len() {
            assert(capture_fits(st, i));
        }
    }
    assert forall|k: int| 0 <= k < inner.functions.len() implies function_fits(
        #[trigger] inner.functions[k],
        inner,
    ) by {
        assert(function_fits(st.functions[k], st));
    }
    assert forall|n: Seq<char>| #[trigger] inner.locals.contains_key(n) implies local_fits(
        inner.locals[n],
        inner,
    ) by {
        assert(local_fits(st.locals[n], st));
    }
    assert forall|n: Seq<char>| #[trigger] inner.globals.contains_key(n) implies global_fits(
        inner.globals[n],
        inner,
    ) by {
        assert(global_fits(st.globals[n], st));
    }
}

#[verifier::rlimit(40)]
proof fn l_leave_spawn(st: St, inner: St, a: St)
    requires
        good(st),
        inner.captures == st.captures.push(Set::empty()),
        inner.starts == st.starts.push(st.next_reg),
        inner == (St {
            in_spawn: true,
            captures: inner.captures,
            starts: inner.starts,
            code: Seq::empty(),
            ..st
        }),
        moved(inner, a, 8),
    ensures
        moved(
            st,
            St {
                in_spawn: st.in_spawn,
                captures: a.captures.drop_last(),
                starts: a.starts.drop_last(),
                code: st.code,
                ..a
            }.emit(
                Op::Spawn {
                    body: a.code,
                    locals_count: if a.next_reg >= st.next_reg {
                        a.next_reg
                    } else {
                        st.next_reg
                    },
                    captures: listing(a.captures.last()),
                },
            ),
            0,
        ),
{
    reveal(good);
    let b = St {
        in_spawn: st.in_spawn,
        captures: a.captures.drop_last(),
        starts: a.starts.drop_last(),
        code: st.code,
        ..a
    };
    assert(b.starts =~= st.starts);
    assert(room(b) == room(a));
    lemma_code_ok_more(st.code, room(st), room(b));
    let used = a.captures.last();
    let op = Op::Spawn { body: a.code, locals_count: a.next_reg, captures: listing(used) };
    l_join_part(st, inner, a, b);
    l_inside_mix(st, a);
    assert(op_inside(op, b)) by {
        reveal(inside);
    }
    assert forall|g: usize| #[trigger]
        stores(b.emit(op).code, b.functions, g) == code_stores(st.code, g) + stores(
            a.code,
            a.functions,
            g,
        ) by {
        reveal(stores);
        lemma_stores_push(st.code, op, g);
    }
    l_join(st, inner, a, b.emit(op));
    assert forall|i: int| 0 <= i < b.captures.len() implies #[trigger] capture_fits(b, i) by {
        assert(capture_fits(a, i));
    }
    assert forall|k: int| 0 <= k < b.functions.len() implies function_fits(
        #[trigger] b.functions[k],
        b,
    ) by {
        assert(function_fits(a.functions[k], a));
    }
    assert forall|n: Seq<char>| #[trigger] b.locals.contains_key(n) implies local_fits(
        b.locals[n],
        b,
    ) by {
        assert(local_fits(a.locals[n], a));
    }
    assert forall|n: Seq<char>| #[trigger] b.globals.contains_key(n) implies global_fits(
        b.globals[n],
        b,
    ) by {
        assert(global_fits(a.globals[n], a));
    }
    assert(good(b));
    assert forall|r: usize| #[trigger] used.contains(r) implies r < st.next_reg by {
        assert(capture_fits(a, a.captures.len() - 1));
    }
    lemma_listing_below(used, st.next_reg as nat);
    assert(op_ok(op, room(b))) by {
        assert(Bounds { regs: a.next_reg as nat, ..room(b) } == room(a));
    }
    l_push(b, op);
}

proof fn l_params(st: St, params: Seq<Seq<char>>)
    requires
        ok(st),
    ensures
        p_params(st, params) matches Ok((a, all)) ==> params.len() <= all.len() && moved(
            st,
            a,
            all.len() - params.len(),
        ) && a.next_reg == st.next_reg && a.locals == st.locals && a.code == st.code,
    decreases st.left(),
{
    reveal_with_fuel(p_params, 2);
    l_adv(st);
    let a = adv(st).0;
    if let Ok(i) = adv(st).1 {
        if a.items[i as int].token == Ok::<Token, LexFault>(Token::Identifier) && a.peek() == Some(
            Token::Comma,
        ) {
            l_adv(a);
            let b = adv(a).0;
            l_params(b, params.push(a.text(i)));
        }
    }
}

proof fn l_bind_params(st: St, params: Seq<Seq<char>>, n: nat)
    requires
        good(st),
        budget(st) + params.len() <= limit(),
        n <= params.len(),
    ensures
        moved(st, bind_params(st, params, n), -n),
        bind_params(st, params, n).next_reg == st.next_reg + n,
        bind_params(st, params, n).strings == st.strings,
        bind_params(st, params, n).next_global == st.next_global,
        bind_params(st, params, n).left() == st.left(),
    decreases n,
{
    reveal_with_fuel(bind_params, 2);
    if n > 0 {
        l_bind_params(st, params, (n - 1) as nat);
        let a = bind_params(st, params, (n - 1) as nat);
        let info = VarInfo {
            idx: a.next_reg,
            is_mut: false,
            is_global: false,
            first_line: a.line,
        };
        l_local(a, params[n - 1], info);
    }
}

/// The state at the start of a function, before its parameters.
spec fn fn_scope(d: St) -> St {
    St {
        locals: Map::empty(),
        next_reg: 0,
        in_spawn: false,
        in_fn: true,
        code: Seq::empty(),
        ..d
    }
}

proof fn l_fn_scope(d: St)
    requires
        good(d),
    ensures
        good(fn_scope(d)),
{
    reveal(good);
    let b = fn_scope(d);
    l_fresh_code(d, b);
    assert(inside(b.items, b.code, b.functions, b.strings.len())) by {
        reveal(inside);
    }
    assert forall|i: int| 0 <= i < b.captures.len() implies #[trigger] capture_fits(b, i) by {
        assert(capture_fits(d, i));
    }
    assert forall|k: int| 0 <= k < b.functions.len() implies function_fits(
        #[trigger] b.functions[k],
        b,
    ) by {
        let f = d.functions[k];
        assert(function_fits(f, d));
        assert(Bounds { regs: f.locals_count as nat, ..room(b) } == (Bounds {
            regs: f.locals_count as nat,
            ..room(d)
        }));
    }
    assert forall|n: Seq<char>| #[trigger] b.globals.contains_key(n) implies global_fits(
        b.globals[n],
        b,
    ) by {
        assert(global_fits(d.globals[n], d));
    }
}

#[verifier::rlimit(40)]
proof fn l_finish_fn(f: St, d: St, name: Seq<char>, params_count: usize)
    requires
        good(d),
        good(f),
        budget(f) <= limit() + 50,
        f.items == d.items,
        f.starts == d.starts,
        f.captures.len() == d.captures.len(),
        f.next_global >= d.next_global,
        f.strings.len() >= d.strings.len(),
        f.left() <= d.left(),
        budget(f) - f.next_reg + d.next_reg <= budget(d),
        constant(fn_scope(d), f),
    ensures
        moved(d, finish_fn(f, d, name, params_count), -1),
{
    reveal(finish_fn);
    l_intern(f, name);
    let a = f.intern(name);
    let code = if ends_with_return(f.code) {
        f.code
    } else {
        f.code.push(Op::Plain(Instruction::Return(None)))
    };
    assert(code_ok(code, room(a))) by {
        reveal(good);
        lemma_code_ok_more(f.code, room(f), room(a));
        assert forall|k: int| 0 <= k < code.len() implies op_ok(#[trigger] code[k], room(a)) by {
            if k < f.code.len() {
                lemma_code_ok_at(f.code, room(a), k);
            }
        }
    }
    let b = finish_fn(f, d, name, params_count);
    reveal(good);
    assert forall|g: usize| #[trigger]
        stores(b.code, b.functions, g) == code_stores(d.code, g) + stores(
            f.code,
            f.functions,
            g,
        ) by {
        reveal(stores);
        lemma_function_stores_push(a.functions, b.functions.last(), g);
        assert(b.functions =~= a.functions.push(b.functions.last()));
        lemma_stores_push(f.code, Op::Plain(Instruction::Return(None)), g);
    }
    l_join(d, fn_scope(d), f, b);
    assert(inside(b.items, b.code, b.functions, b.strings.len())) by {
        l_inside_mix(d, a);
        assert(inside(a.items, code, a.functions, a.strings.len())) by {
            if !ends_with_return(f.code) {
                l_inside_push(a, Op::Plain(Instruction::Return(None)));
            }
        }
        reveal(inside);
        assert forall|k: int| 0 <= k < b.functions.len() implies function_inside(
            #[trigger] b.functions[k],
            b.items,
            b.strings.len(),
        ) by {
            if k < a.functions.len() {
                assert(function_inside(a.functions[k], a.items, a.strings.len()));
            }
        }
    }
    lemma_code_ok_more(d.code, room(d), room(b));
    assert forall|k: int| 0 <= k < b.functions.len() implies function_fits(
        #[trigger] b.functions[k],
        b,
    ) by {
        if k < a.functions.len() {
            let g = a.functions[k];
            assert(function_fits(g, a));
            assert(Bounds { regs: g.locals_count as nat, ..room(b) } == (Bounds {
                regs: g.locals_count as nat,
                ..room(a)
            }));
        } else {
            assert(Bounds { regs: f.next_reg as nat, ..room(b) } == room(a));
        }
    }
    assert forall|n: Seq<char>| #[trigger] b.locals.contains_key(n) implies local_fits(
        b.locals[n],
        b,
    ) by {
        assert(local_fits(d.locals[n], d));
    }
    assert forall|n: Seq<char>| #[trigger] b.globals.contains_key(n) implies global_fits(
        b.globals[n],
        b,
    ) by {
        assert(global_fits(a.globals[n], a));
    }
    assert forall|i: int| 0 <= i < b.captures.len() implies #[trigger] capture_fits(b, i) by {
        assert(capture_fits(a, i));
    }
}

#[verifier::rlimit(40)]
proof fn g_fn(st: St)
    requires
        ok(st),
    ensures
        runs(st, p_fn(st), 0),
    decreases st.left(), 7int,
{
    reveal(p_fn);
    reveal(p_block);
    let msg = "Expected function name"@;
    l_expect_name(st, msg);
    if let Ok((a, name)) = expect_name(st, msg) {
        l_expect(a, Token::LParen);
        if let Ok(b) = expect(a, Token::LParen) {
            let none = Seq::<Seq<char>>::empty();
            let parsed = if b.peek() == Some(Token::RParen) {
                Ok((b, none))
            } else {
                l_params(b, none);
                p_params(b, none)
            };
            if let Ok((c, params)) = parsed {
                l_expect(c, Token::RParen);
                if let Ok(d) = expect(c, Token::RParen) {
                    l_fn_scope(d);
                    l_bind_params(fn_scope(d), params, params.len());
                    let inner = bind_params(fn_scope(d), params, params.len());
                    g_block(inner);
                    if let Ok(f) = p_block(inner) {
                        l_finish_fn(f, d, name, params.len() as usize);
                    }
                }
            }
        }
    }
}

proof fn g_return(st: St)
    requires
        ok(st),
    ensures
        runs(st, p_return(st), 0),
    decreases st.left(), 7int,
{
    reveal(p_return);
    reveal(p_expr);
    if st.peek() is None || st.peek() == Some(Token::Newline) || st.peek() == Some(Token::RBrace) {
        l_emit(st, Op::Plain(Instruction::Return(None)));
    } else {
        g_expr(st);
        if let Ok((a, r)) = p_expr(st) {
            l_emit(a, Op::Plain(Instruction::Return(Some(r))));
        }
    }
}

proof fn g_name_stmt(st: St, id: Seq<char>)
    requires
        ok(st),
    ensures
        runs(st, p_name_stmt(st, id), -2),
    decreases st.left(), 7int,
{
    reveal(p_name_stmt);
    reveal(p_assign);
    reveal(p_call_stmt);
    if st.peek() == Some(Token::Colon) || st.peek() == Some(Token::LBracket) || st.peek() == Some(
        Token::Dot,
    ) {
        g_assign(st, id);
    } else {
        g_call_stmt(st, id);
    }
}

#[verifier::rlimit(40)]
proof fn g_bare_args(st: St, args: Seq<usize>)
    requires
        ok(st),
        all_below(args, st.next_reg as nat),
    ensures
        list_fits(st, args.len(), p_bare_args(st, args), 0),
    decreases st.left(), 6int,
{
    reveal(p_bare_args);
    reveal(p_expr);
    if let Some(t) = st.peek() {
        if !(t == Token::Newline || t == Token::RBrace || t == Token::RParen || t
            == Token::RBracket || t == Token::Comma) {
            g_expr(st);
            if let Ok((a, r)) = p_expr(st) {
                if a.peek() == Some(Token::Comma) {
                    l_adv(a);
                    g_bare_args(adv(a).0, args.push(r));
                }
            }
        }
    }
}

#[verifier::rlimit(40)]
proof fn g_call_stmt(st: St, id: Seq<char>)
    requires
        ok(st),
    ensures
        runs(st, p_call_stmt(st, id), -1),
    decreases st.left(), 6int,
{
    reveal(p_call_stmt);
    reveal(p_exprs);
    reveal(p_bare_args);
    let none = Seq::<usize>::empty();
    if st.peek() == Some(Token::LParen) {
        l_adv(st);
        let a = adv(st).0;
        g_exprs(a, Token::RParen);
        if let Ok((b, args)) = p_exprs(a, Token::RParen) {
            l_call(b, id, args, None);
        }
    } else {
        g_bare_args(st, none);
        if let Ok((b, args)) = p_bare_args(st, none) {
            l_call(b, id, args, None);
        }
    }
}

/// The register or the name of an accessor exists.
spec fn accessor_fits(acc: Accessor, st: St) -> bool {
    match acc {
        Accessor::Index(r) => r < st.next_reg,
        Accessor::Field(name_id) => name_id < st.strings.len(),
    }
}

spec fn accessors_fit(accs: Seq<Accessor>, st: St) -> bool {
    forall|k: int| 0 <= k < accs.len() ==> accessor_fits(#[trigger] accs[k], st)
}

proof fn l_accessors_later(accs: Seq<Accessor>, a: St, b: St)
    requires
        accessors_fit(accs, a),
        b.next_reg >= a.next_reg,
        b.strings.len() >= a.strings.len(),
    ensures
        accessors_fit(accs, b),
{
    assert forall|k: int| 0 <= k < accs.len() implies accessor_fits(#[trigger] accs[k], b) by {
        assert(accessor_fits(accs[k], a));
    }
}

#[verifier::rlimit(40)]
proof fn g_accessors(st: St, accs: Seq<Accessor>)
    requires
        ok(st),
        accessors_fit(accs, st),
    ensures
        p_accessors(st, accs) matches Ok((a, all)) ==> accs.len() <= all.len() && moved(
            st,
            a,
            2 * (all.len() - accs.len()),
        ) && accessors_fit(all, a),
    decreases st.left(), 6int,
{
    reveal(p_accessors);
    reveal(p_expr);
    if st.peek() == Some(Token::LBracket) {
        l_adv(st);
        let a = adv(st).0;
        g_expr(a);
        if let Ok((b, r)) = p_expr(a) {
            l_expect(b, Token::RBracket);
            if let Ok(c) = expect(b, Token::RBracket) {
                l_accessors_later(accs, st, c);
                g_accessors(c, accs.push(Accessor::Index(r)));
            }
        }
    } else if st.peek() == Some(Token::Dot) {
        l_adv(st);
        let a = adv(st).0;
        let msg = "Expected field name after '.'"@;
        l_expect_name(a, msg);
        if let Ok((b, id)) = expect_name(a, msg) {
            l_intern(b, id);
            let c = b.intern(id);
            l_accessors_later(accs, st, c);
            g_accessors(c, accs.push(Accessor::Field(c.id_of(id))));
        }
    }
}

#[verifier::rlimit(40)]
proof fn l_walk(st: St, from: usize, accs: Seq<Accessor>, n: nat, loc: Loc)
    requires
        good(st),
        budget(st) + accs.len() <= limit() + 10,
        from < st.next_reg,
        n <= accs.len(),
        accessors_fit(accs, st),
    ensures
        moved(st, walk(st, from, accs, n, loc).0, -n),
        walk(st, from, accs, n, loc).1 < walk(st, from, accs, n, loc).0.next_reg,
    decreases n,
{
    reveal_with_fuel(walk, 2);
    if n > 0 {
        l_walk(st, from, accs, (n - 1) as nat, loc);
        let (a, r) = walk(st, from, accs, (n - 1) as nat, loc);
        let dst = a.next_reg;
        assert(accessor_fits(accs[n - 1], st));
        let i = match accs[n - 1] {
            Accessor::Index(index_reg) => Instruction::ListGet { dst, list: r, index_reg, loc },
            Accessor::Field(name_id) => Instruction::ObjectGet { dst, obj: r, name_id, loc },
        };
        l_new(a, Op::Plain(i));
    }
}

#[verifier::rlimit(40)]
proof fn g_assign(st: St, id: Seq<char>)
    requires
        ok(st),
    ensures
        runs(st, p_assign(st, id), -2),
    decreases st.left(), 7int,
{
    reveal(p_assign);
    reveal(p_accessors);
    reveal(p_exprs);
    reveal(p_expr);
    let loc = st.loc();
    if let Some(info) = st.get_var(id) {
        l_get_var(st, id);
        let none = Seq::<Accessor>::empty();
        g_accessors(st, none);
        if let Ok((a, accs)) = p_accessors(st, none) {
            if accs.len() > 0 && accs.last() is Field && a.peek() == Some(Token::LParen) {
                l_adv(a);
                let b = adv(a).0;
                g_exprs(b, Token::RParen);
                if let Ok((c, args)) = p_exprs(b, Token::RParen) {
                    l_load_var(c, info);
                    let (d, from) = c.load_var(info);
                    l_accessors_later(accs, a, d);
                    l_walk(d, from, accs, accs.len(), loc);
                    let (f, callee_reg) = walk(d, from, accs, accs.len(), loc);
                    l_below_more(args, c.next_reg as nat, f.next_reg as nat);
                    l_emit(
                        f,
                        Op::CallDynamic { callee_reg, args, dst: None, loc: f.loc() },
                    );
                }
            } else {
                l_expect(a, Token::Colon);
                if let Ok(b) = expect(a, Token::Colon) {
                    if accs.len() == 0 && is_increment(b, id) {
                        l_increment(st, b, id, info, 4);
                    } else {
                        g_expr(b);
                        if let Ok((c, src)) = p_expr(b) {
                            l_accessors_later(accs, a, c);
                            l_store(st, c, id, info, accs, src, loc, (6 + 2 * accs.len()) as int);
                        }
                    }
                }
            }
        }
    }
}

proof fn l_increment(base: St, st: St, id: Seq<char>, info: VarInfo, gain: int)
    requires
        good(base),
        moved(base, st, gain),
        var_fits(info, base),
        may_change(info, base),
    ensures
        runs(base, increment(st, id, info), gain),
{
    reveal(increment);
    l_adv(st);
    let a = adv(st).0;
    l_adv(a);
    let b = adv(a).0;
    l_adv(b);
    let c = adv(b).0;
    if info.is_mut {
        if info.is_global {
            let op = Op::Plain(Instruction::IncrementGlobal(info.idx));
            l_emit_store(base, c, op, info.idx, gain);
        } else {
            l_emit(c, Op::Plain(Instruction::Increment(info.idx)));
        }
    }
}

#[verifier::rlimit(40)]
proof fn l_store(
    base: St,
    st: St,
    id: Seq<char>,
    info: VarInfo,
    accs: Seq<Accessor>,
    src: usize,
    loc: Loc,
    gain: int,
)
    requires
        good(base),
        moved(base, st, gain),
        budget(st) + accs.len() <= limit(),
        var_fits(info, base),
        may_change(info, base),
        accessors_fit(accs, st),
        src < st.next_reg,
    ensures
        runs(base, store(st, id, info, accs, src, loc), gain - 1 - accs.len()),
{
    reveal(store);
    if accs.len() == 0 {
        if info.is_mut {
            if info.is_global {
                let op = Op::Plain(Instruction::StoreGlobal { global: info.idx, src });
                l_emit_store(base, st, op, info.idx, gain);
            } else {
                l_emit(st, Op::Plain(Instruction::Move { dst: info.idx, src }));
            }
        }
    } else {
        l_load_var(st, info);
        let (a, from) = st.load_var(info);
        l_accessors_later(accs, st, a);
        l_walk(a, from, accs, (accs.len() - 1) as nat, loc);
        let (b, r) = walk(a, from, accs, (accs.len() - 1) as nat, loc);
        assert(accessor_fits(accs[accs.len() - 1], st));
        let i = match accs.last() {
            Accessor::Index(index_reg) => Instruction::ListSet { list: r, index_reg, src, loc },
            Accessor::Field(name_id) => Instruction::ObjectSet { obj: r, name_id, src, loc },
        };
        l_emit(b, Op::Plain(i));
    }
}

proof fn l_fill(st: St)
    requires
        good(st),
    ensures
        fill(st) matches Ok(a) ==> moved(st, a, 0),
{
    reveal(fill);
    l_adv(st);
}

proof fn l_opened(items: Seq<Item>, src_len: usize)
    requires
        4 * items.len() <= limit(),
    ensures
        opened(items, src_len) matches Ok(st) ==> ok(st),
{
    let s = start(items, src_len);
    assert(good(s)) by {
        reveal(good);
        reveal(once);
        reveal(stores);
        reveal(frozen);
        reveal(inside);
    }
    l_fill(s);
    if let Ok(a) = fill(s) {
        l_fill(a);
        if let Ok(b) = fill(a) {
            l_fill(b);
        }
    }
}

proof fn l_opened_items(items: Seq<Item>, src_len: usize)
    ensures
        opened(items, src_len) matches Ok(st) ==> st.items == items,
{
    reveal(fill);
    reveal(adv);
}

/// What the compiler makes of a source text is a well-formed program: its
/// instructions, those of its functions and those of the tasks that it starts
/// name only registers, globals and strings that exist. No jump leads out of its
/// list of instructions. Every text that is loaded by its number is in the string
/// pool, as long as no number of the source is taken for a reference. With up to
/// 1073741760 tokens the strings can be numbered with 32 bits, the names of the
/// native functions among them.
pub proof fn law_compiled_programs_are_well_formed(source: Seq<char>, numbers: Seq<NumberView>)
    requires
        lexed(source).len() <= 1073741760,
    ensures
        opened_source(source, numbers) matches Ok(st) ==> (compiled(st) matches Ok(p) ==> {
            &&& p.well_formed()
            &&& p.jumps_inside()
            &&& plain_numbers(numbers) ==> p.literals_inside()
            &&& p.strings.len() <= 0xffff_ff00
        }),
{
    let items = items_of(lexed(source), numbers);
    let src_len = encode_utf8(source).len() as usize;
    l_opened(items, src_len);
    l_opened_items(items, src_len);
    if let Ok(st) = opened_source(source, numbers) {
        g_stmts(st);
        if let Ok(a) = p_stmts(st) {
            let p = program_of(a);
            reveal(good);
            reveal(inside);
            assert forall|k: int| 0 <= k < p.functions.len() implies p.function_ok(
                #[trigger] p.functions[k],
            ) by {
                assert(function_fits(a.functions[k], a));
            }
            if plain_numbers(numbers) {
                law_small_counts_are_exact(0);
                assert forall|k: int| 0 <= k < items.len() implies !(Value(
                    (#[trigger] items[k]).number.bits,
                ).kind() is Object) by {
                    assert(items[k] == item_at(lexed(source), numbers, k));
                }
            }
            assert forall|k: int| 0 <= k < p.functions.len() implies function_inside(
                #[trigger] p.functions[k],
                items,
                p.strings.len(),
            ) by {}
        }
    }
}

/// In the program that a source text compiles to, no more than one instruction
/// gives a value to the global of an immutable variable: that of its
/// declaration.
pub proof fn law_immutable_globals_are_stored_once(
    source: Seq<char>,
    numbers: Seq<NumberView>,
    id: Seq<char>,
)
    requires
        lexed(source).len() <= 1073741760,
    ensures
        opened_source(source, numbers) matches Ok(st) ==> (p_stmts(st) matches Ok(a)
            ==> compiled(st) == Ok::<ProgramView, Fault>(program_of(a)) && (
        a.globals.contains_key(id) && !a.globals[id].is_mut ==> program_of(a).stores(
            a.globals[id].idx,
        ) <= 1)),
{
    l_opened(items_of(lexed(source), numbers), encode_utf8(source).len() as usize);
    if let Ok(st) = opened_source(source, numbers) {
        g_stmts(st);
        if let Ok(a) = p_stmts(st) {
            if a.globals.contains_key(id) && !a.globals[id].is_mut {
                reveal(good);
                reveal(once);
                reveal(frozen);
                reveal(stores);
                assert(frozen(a.globals, a.globals[id].idx));
            }
        }
    }
}

/// The same scope, and the same code so far.
spec fn same_scope(a: St, b: St) -> bool {
    &&& a.items == b.items
    &&& a.locals == b.locals
    &&& a.next_reg == b.next_reg
    &&& a.code == b.code
    &&& a.in_fn == b.in_fn
    &&& a.in_spawn == b.in_spawn
}

/// Moving on changes nothing but the place in the source.
proof fn l_adv_keeps(st: St)
    requires
        st.items.len() <= usize::MAX,
    ensures
        same_scope(adv(st).0, st),
        adv(st).0.left() <= st.left(),
        adv(st).1 is Ok ==> adv(st).0.left() < st.left(),
        st.w0 is Some ==> adv(st).0.left() < st.left(),
{
    reveal(adv);
}

/// Reading parameters changes nothing but the place in the source.
proof fn l_params_keep(st: St, params: Seq<Seq<char>>)
    requires
        st.items.len() <= usize::MAX,
    ensures
        p_params(st, params) matches Ok((a, _)) ==> same_scope(a, st) && a.left() <= st.left(),
    decreases st.left(),
{
    reveal_with_fuel(p_params, 2);
    l_adv_keeps(st);
    let a = adv(st).0;
    if let Ok(i) = adv(st).1 {
        l_adv_keeps(a);
        if adv(a).1 is Ok {
            l_params_keep(adv(a).0, params.push(a.text(i)));
        }
    }
}

proof fn l_bind_left(st: St, params: Seq<Seq<char>>, n: nat)
    ensures
        bind_params(st, params, n).left() == st.left(),
    decreases n,
{
    reveal_with_fuel(bind_params, 2);
    if n > 0 {
        l_bind_left(st, params, (n - 1) as nat);
    }
}

/// A function has variables and registers of its own: what is around its
/// declaration stays as it was.
pub proof fn law_functions_leave_their_surroundings(st: St)
    requires
        st.items.len() <= usize::MAX,
    ensures
        p_fn(st) matches Ok(a) ==> a.locals == st.locals && a.next_reg == st.next_reg && a.code
            == st.code && a.in_fn == st.in_fn && a.in_spawn == st.in_spawn,
{
    reveal(p_fn);
    reveal(p_block);
    reveal(expect);
    reveal(expect_name);
    reveal(finish_fn);
    l_adv_keeps(st);
    if let Ok((a, _)) = expect_name(st, "Expected function name"@) {
        l_adv_keeps(a);
        if let Ok(b) = expect(a, Token::LParen) {
            let none = Seq::<Seq<char>>::empty();
            let parsed = if b.peek() == Some(Token::RParen) {
                Ok((b, none))
            } else {
                l_params_keep(b, none);
                p_params(b, none)
            };
            if let Ok((c, params)) = parsed {
                l_adv_keeps(c);
                if let Ok(d) = expect(c, Token::RParen) {
                    l_bind_left(fn_scope(d), params, params.len());
                }
            }
        }
    }
}

/// The state is one that compiling a source leads to: everything that it has come
/// to is in order.
pub closed spec fn in_order(st: St) -> bool {
    ok(st)
}

/// A source is in order before its first token, and stays so from one expression,
/// statement or block to the next. What has been compiled is not changed by what
/// comes after it.
pub proof fn law_compiling_goes_on_in_order(
    source: Seq<char>,
    numbers: Seq<NumberView>,
    st: St,
)
    requires
        lexed(source).len() <= 1073741760,
        in_order(st),
    ensures
        opened_source(source, numbers) matches Ok(a) ==> in_order(a),
        p_expr(st) matches Ok((a, r)) ==> in_order(a) && r < a.next_reg && goes_on(st, a),
        p_stmts(st) matches Ok(a) ==> in_order(a) && goes_on(st, a),
        p_block(st) matches Ok(a) ==> in_order(a) && goes_on(st, a),
{
    l_opened(items_of(lexed(source), numbers), encode_utf8(source).len() as usize);
    g_expr(st);
    g_stmts(st);
    g_block(st);
}

/// The code of one state begins that of another.
pub open spec fn goes_on(a: St, b: St) -> bool {
    b.code.len() >= a.code.len() && forall|k: int|
        0 <= k < a.code.len() ==> #[trigger] b.code[k] == a.code[k]
}

/// The instruction goes to `target` where the register does not count as true.
pub open spec fn jumps_if_false(op: Op, cond: usize, target: int) -> bool {
    op matches Op::Plain(i) && i matches Instruction::JumpIfFalse { cond: c, target: t } && c == cond
        && t == target
}

/// The instruction goes to `target`.
pub open spec fn jumps_to(op: Op, target: int) -> bool {
    op matches Op::Plain(i) && i matches Instruction::Jump(t) && t == target
}

/// The two lists are the same but for one instruction.
pub open spec fn same_but_at(a: Seq<Op>, b: Seq<Op>, j: int) -> bool {
    a.len() == b.len() && forall|k: int| 0 <= k < a.len() && k != j ==> #[trigger] a[k] == b[k]
}

/// A condition with one block: where it does not hold, the block is passed over.
pub proof fn law_conditions_pass_over_their_block(st: St, a: St, cond: usize, body: St, b: St)
    requires
        in_order(st),
        p_expr(st) == Ok::<(St, usize), Fault>((a, cond)),
        body == (St { code: a.code.push(Op::Plain(Instruction::Jump(0))), ..a }),
        p_block(body) == Ok::<St, Fault>(b),
        b.peek() != Some(Token::Else),
        b.code.len() <= usize::MAX,
    ensures
        p_if(st) matches Ok(c) && same_but_at(c.code, b.code, a.code.len() as int) && jumps_if_false(
            c.code[a.code.len() as int],
            cond,
            b.code.len() as int,
        ) && goes_on(a, c),
{
    reveal(p_if);
    reveal(p_expr);
    reveal(p_block);
    g_expr(st);
    l_emit(a, Op::Plain(Instruction::Jump(0)));
    g_block(body);
}

/// A condition with two blocks: where it does not hold, the first is passed over
/// and the second is run; where it holds, the second is passed over.
pub proof fn law_conditions_choose_between_blocks(st: St, a: St, cond: usize, body: St, b: St) -> (f: St)
    requires
        in_order(st),
        p_expr(st) == Ok::<(St, usize), Fault>((a, cond)),
        body == (St { code: a.code.push(Op::Plain(Instruction::Jump(0))), ..a }),
        p_block(body) == Ok::<St, Fault>(b),
        b.peek() == Some(Token::Else),
        adv(b).1 is Ok,
        b.code.len() < usize::MAX,
    ensures
        f.w0 == adv(b).0.w0,
        f.code.len() == b.code.len() + 1,
        p_block(f) matches Ok(g) ==> g.code.len() <= usize::MAX ==> (p_if(st) matches Ok(c) && {
            let j = a.code.len() as int;
            let k = b.code.len() as int;
            &&& c.code.len() == g.code.len()
            &&& jumps_if_false(c.code[j], cond, k + 1)
            &&& jumps_to(c.code[k], g.code.len() as int)
            &&& forall|i: int| 0 <= i < k && i != j ==> #[trigger] c.code[i] == b.code[i]
            &&& forall|i: int| k < i < g.code.len() ==> #[trigger] c.code[i] == g.code[i]
        }),
{
    reveal(p_if);
    reveal(p_expr);
    reveal(p_block);
    g_expr(st);
    l_emit(a, Op::Plain(Instruction::Jump(0)));
    g_block(body);
    let j = a.code.len() as int;
    assert(b.code[j] == Op::Plain(Instruction::Jump(0)));
    g_else(st, b, j, cond);
    l_adv(b);
    let d = adv(b).0.plain(Instruction::Jump(0));
    let f = other_branch(b, j, cond);
    l_emit(adv(b).0, Op::Plain(Instruction::Jump(0)));
    l_patch(st, d, j, Instruction::JumpIfFalse { cond, target: d.code.len() as usize }, 8);
    g_block(f);
    f
}

/// A loop tests its condition before each run of its block, goes back to the
/// test after it, and ends where the condition does not hold.
pub proof fn law_while_repeats_its_block(st: St, a: St, cond: usize, body: St, b: St)
    requires
        in_order(st),
        p_expr(st) == Ok::<(St, usize), Fault>((a, cond)),
        body == (St { code: a.code.push(Op::Plain(Instruction::Jump(0))), ..a }),
        p_block(body) == Ok::<St, Fault>(b),
        b.code.len() < usize::MAX,
    ensures
        p_while(st) matches Ok(c) && {
            let j = a.code.len() as int;
            &&& c.code.len() == b.code.len() + 1
            &&& jumps_if_false(c.code[j], cond, c.code.len() as int)
            &&& jumps_to(c.code.last(), st.code.len() as int)
            &&& forall|i: int| 0 <= i < b.code.len() && i != j ==> #[trigger] c.code[i] == b.code[i]
            &&& goes_on(a, c)
        },
{
    reveal(p_while);
    reveal(p_expr);
    reveal(p_block);
    g_expr(st);
    l_emit(a, Op::Plain(Instruction::Jump(0)));
    g_block(body);
    assert(b.code[a.code.len() as int] == Op::Plain(Instruction::Jump(0)));
}

/// A loop over a range starts its variable at the first value.
pub proof fn law_for_starts_at_the_start(
    st: St,
    a: St,
    b: St,
    id: Seq<char>,
    c: St,
    d: St,
    first: usize,
    f: St,
    g: St,
    end: usize,
) -> (h: St)
    requires
        in_order(st),
        adv(st).0 == a,
        adv(st).1 is Ok,
        expect_name(a, "Expected identifier"@) == Ok::<(St, Seq<char>), Fault>((b, id)),
        expect(b, Token::In) == Ok::<St, Fault>(c),
        p_binary(c, 0) == Ok::<(St, usize), Fault>((d, first)),
        d.peek() == Some(Token::Range),
        adv(d).0 == f,
        adv(d).1 is Ok,
        p_binary(f, 0) == Ok::<(St, usize), Fault>((g, end)),
    ensures
        h.code == g.code + seq![Op::Plain(Instruction::Move { dst: g.next_reg, src: first })],
        h.get_var(id) matches Some(info) && !info.is_global && info.idx == g.next_reg && info.is_mut,
        h.next_reg > g.next_reg,
        p_for(st) == p_loop(h, Counter { var: g.next_reg, end, step: None }, st.loc()),
{
    reveal(p_for);
    reveal(p_binary);
    reveal(p_loop);
    reveal(loop_var);
    l_adv(st);
    l_expect_name(a, "Expected identifier"@);
    l_expect(b, Token::In);
    g_binary(c, 0);
    l_adv(d);
    g_binary(f, 0);
    l_loop_var(g, id, first);
    let h = loop_var(g, id, first);
    assert(h.code =~= g.code + seq![
        Op::Plain(Instruction::Move { dst: g.next_reg, src: first }),
    ]);
    h
}

/// A loop over a range that a value holds takes the start, the end and the step
/// from it.
pub proof fn law_for_takes_ranges_apart(
    st: St,
    a: St,
    b: St,
    id: Seq<char>,
    c: St,
    d: St,
    first: usize,
) -> (res: (St, Counter))
    requires
        in_order(st),
        adv(st).0 == a,
        adv(st).1 is Ok,
        expect_name(a, "Expected identifier"@) == Ok::<(St, Seq<char>), Fault>((b, id)),
        expect(b, Token::In) == Ok::<St, Fault>(c),
        p_binary(c, 0) == Ok::<(St, usize), Fault>((d, first)),
        d.peek() != Some(Token::Range),
    ensures
        p_for(st) == p_loop(res.0, res.1, st.loc()),
        res.0.code.len() == d.code.len() + 2,
        res.0.code[d.code.len() as int] matches Op::Plain(i) && i matches Instruction::RangeInfo {
            range,
            start_dst,
            end_dst,
            step_dst,
        } && range == first && start_dst == d.next_reg && res.1.end == end_dst && res.1.step == Some(
            step_dst,
        ) && start_dst != end_dst && end_dst != step_dst && start_dst != step_dst
            && res.0.code.last() == Op::Plain(
            Instruction::Move { dst: res.1.var, src: start_dst },
        ) && res.1.var != start_dst && res.1.var != end_dst && res.1.var != step_dst,
        res.0.get_var(id) matches Some(info) && !info.is_global && info.idx == res.1.var
            && info.is_mut,
{
    reveal(p_for);
    reveal(p_binary);
    reveal(p_loop);
    reveal(loop_var);
    l_adv(st);
    l_expect_name(a, "Expected identifier"@);
    l_expect(b, Token::In);
    g_binary(c, 0);
    g_for_held(st, d, id, first);
    l_fresh(d);
    l_fresh(d.fresh());
    l_fresh(d.fresh().fresh());
    (
        unpacked(d, id, first),
        Counter {
            var: d.fresh().fresh().fresh().next_reg,
            end: d.fresh().next_reg,
            step: Some(d.fresh().fresh().next_reg),
        },
    )
}

/// A loop runs its block as long as the variable is less than the end, and adds
/// the step, or one, after each run.
pub proof fn law_for_counts_up_to_the_end(st: St, counter: Counter, loc: Loc, body: St, b: St)
    requires
        in_order(st),
        st.next_reg < usize::MAX,
        body == (St {
            next_reg: (st.next_reg + 1) as usize,
            code: st.code + seq![
                Op::Plain(
                    Instruction::Lt {
                        dst: st.next_reg,
                        lhs: counter.var,
                        rhs: counter.end,
                        loc,
                    },
                ),
                Op::Plain(Instruction::Jump(0)),
            ],
            ..st
        }),
        p_block(body) == Ok::<St, Fault>(b),
        goes_on(body, b),
        b.code.len() + 2 <= usize::MAX,
    ensures
        p_loop(st, counter, loc) matches Ok(c) && {
            let top = st.code.len() as int;
            let n = b.code.len() as int;
            &&& c.code.len() == n + 2
            &&& c.code[top] matches Op::Plain(i) && i matches Instruction::Lt { dst, lhs, rhs, .. }
                && lhs == counter.var && rhs == counter.end && jumps_if_false(
                c.code[top + 1],
                dst,
                n + 2,
            )
            &&& match counter.step {
                None => c.code[n] == Op::Plain(Instruction::Increment(counter.var)),
                Some(step) => c.code[n] == Op::Plain(
                    Instruction::Add { dst: counter.var, lhs: counter.var, rhs: step, loc },
                ),
            }
            &&& jumps_to(c.code[n + 1], top)
            &&& forall|i: int| 0 <= i < n && i != top + 1 ==> #[trigger] c.code[i] == b.code[i]
        },
{
    reveal(p_loop);
    reveal(p_block);
    let test = Instruction::Lt { dst: st.next_reg, lhs: counter.var, rhs: counter.end, loc };
    let a = st.fresh().plain(test);
    assert(a.plain(Instruction::Jump(0)).code =~= body.code);
    assert(a.plain(Instruction::Jump(0)) == body);
    assert(b.code[st.code.len() as int] == body.code[st.code.len() as int]);
}

} // verus!
