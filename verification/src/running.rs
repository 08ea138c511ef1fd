//! What the instructions do to a running program, said of their operands and
//! their results.
use crate::compiler::FunctionView;
use crate::compiler::Instruction;
use crate::compiler::Loc;
use crate::compiler::Op;
use crate::context::first_place;
use crate::context::lemma_new_object;
use crate::context::CallableView;
use crate::context::Ctx;
use crate::context::Native;
use crate::error::ErrorLoc;
use crate::error::Fault;
use crate::heap::no_fields;
use crate::heap::ObjView;
use crate::machine::arith;
use crate::machine::call_regs;
use crate::machine::compared;
use crate::machine::completed;
use crate::machine::e_add;
use crate::machine::e_call;
use crate::machine::e_call_dynamic;
use crate::machine::e_increment;
use crate::machine::e_list_get;
use crate::machine::e_list_set;
use crate::machine::e_object_get;
use crate::machine::e_object_set;
use crate::machine::e_range;
use crate::machine::e_range_info;
use crate::machine::effect;
use crate::machine::plain_effect;
use crate::machine::put;
use crate::machine::reg;
use crate::machine::regs_of;
use crate::machine::spawn_regs;
use crate::machine::zeros;
use crate::machine::Arith;
use crate::machine::Asks;
use crate::machine::Effect;
use crate::machine::Machine;
use crate::memory::has_reg;
use crate::number::law_indices_are_whole_parts;
use crate::number::scaled;
use crate::number::truncated;
use crate::text::decimal;
use crate::value::bool_value;
use crate::value::law_boxes_round_trip;
use crate::value::Kind;
use crate::value::Value;
use vstd::prelude::*;

verus! {

/// What an instruction amounts to for a task.
pub open spec fn does(ctx: Ctx, id: usize, i: Instruction) -> Effect {
    effect(ctx, id, Op::Plain(i))
}

/// The register holds the number with the given bits.
pub open spec fn holds_number(ctx: Ctx, id: usize, r: usize, bits: u64) -> bool {
    reg(ctx, id, r).kind() == Kind::Number(bits)
}

/// The instruction puts a truth value into the register and changes nothing else.
pub open spec fn puts_truth(e: Effect, ctx: Ctx, id: usize, dst: usize, b: bool) -> bool {
    e == Effect::Next(put(ctx, id, dst, bool_value(b)))
}

/// Numbers are compared by their values.
pub proof fn law_comparisons_go_by_value(
    ctx: Ctx,
    id: usize,
    dst: usize,
    lhs: usize,
    rhs: usize,
    loc: Loc,
    l: u64,
    r: u64,
)
    requires
        holds_number(ctx, id, lhs, l),
        holds_number(ctx, id, rhs, r),
    ensures
        puts_truth(
            does(ctx, id, Instruction::Lt { dst, lhs, rhs, loc }),
            ctx,
            id,
            dst,
            scaled(l) < scaled(r),
        ),
        puts_truth(
            does(ctx, id, Instruction::Gt { dst, lhs, rhs, loc }),
            ctx,
            id,
            dst,
            scaled(r) < scaled(l),
        ),
        puts_truth(
            does(ctx, id, Instruction::Le { dst, lhs, rhs, loc }),
            ctx,
            id,
            dst,
            !(scaled(r) < scaled(l)),
        ),
        puts_truth(
            does(ctx, id, Instruction::Ge { dst, lhs, rhs, loc }),
            ctx,
            id,
            dst,
            !(scaled(l) < scaled(r)),
        ),
        puts_truth(
            does(ctx, id, Instruction::Eq { dst, lhs, rhs }),
            ctx,
            id,
            dst,
            scaled(l) == scaled(r),
        ),
        puts_truth(
            does(ctx, id, Instruction::Ne { dst, lhs, rhs }),
            ctx,
            id,
            dst,
            scaled(l) != scaled(r),
        ),
{
    reveal(effect);
    reveal(plain_effect);
    reveal(compared);
}

/// `>=` is true exactly where `<` on the same operands is false, and `<=` exactly
/// where `>` is; so a number is at least and at most itself. `>` is `<` with the
/// operands exchanged, and exactly one of `<`, `==` and `>` is true.
pub proof fn law_comparisons_are_each_others_opposites(
    ctx: Ctx,
    id: usize,
    dst: usize,
    lhs: usize,
    rhs: usize,
    loc: Loc,
    l: u64,
    r: u64,
) -> (res: (bool, bool, bool, bool, bool))
    requires
        holds_number(ctx, id, lhs, l),
        holds_number(ctx, id, rhs, r),
    ensures
        puts_truth(does(ctx, id, Instruction::Lt { dst, lhs, rhs, loc }), ctx, id, dst, res.0),
        puts_truth(does(ctx, id, Instruction::Ge { dst, lhs, rhs, loc }), ctx, id, dst, !res.0),
        puts_truth(does(ctx, id, Instruction::Gt { dst, lhs, rhs, loc }), ctx, id, dst, res.1),
        puts_truth(does(ctx, id, Instruction::Le { dst, lhs, rhs, loc }), ctx, id, dst, !res.1),
        puts_truth(
            does(ctx, id, Instruction::Lt { dst, lhs: rhs, rhs: lhs, loc }),
            ctx,
            id,
            dst,
            res.1,
        ),
        puts_truth(does(ctx, id, Instruction::Eq { dst, lhs, rhs }), ctx, id, dst, res.2),
        puts_truth(does(ctx, id, Instruction::Ne { dst, lhs, rhs }), ctx, id, dst, !res.2),
        puts_truth(
            does(ctx, id, Instruction::Ge { dst, lhs, rhs: lhs, loc }),
            ctx,
            id,
            dst,
            true,
        ),
        puts_truth(
            does(ctx, id, Instruction::Le { dst, lhs, rhs: lhs, loc }),
            ctx,
            id,
            dst,
            true,
        ),
        res.0 ==> !res.1 && !res.2,
        res.1 ==> !res.2,
        res.0 || res.1 || res.2,
{
    law_comparisons_go_by_value(ctx, id, dst, lhs, rhs, loc, l, r);
    law_comparisons_go_by_value(ctx, id, dst, rhs, lhs, loc, r, l);
    law_comparisons_go_by_value(ctx, id, dst, lhs, lhs, loc, l, l);
    (
        scaled(l) < scaled(r),
        scaled(r) < scaled(l),
        scaled(l) == scaled(r),
        true,
        true,
    )
}

/// Comparing what is no number by order is an error.
pub proof fn law_only_numbers_have_an_order(
    ctx: Ctx,
    id: usize,
    dst: usize,
    lhs: usize,
    rhs: usize,
    loc: Loc,
)
    requires
        !(reg(ctx, id, lhs).kind() is Number) || !(reg(ctx, id, rhs).kind() is Number),
    ensures
        does(ctx, id, Instruction::Lt { dst, lhs, rhs, loc }) is Fail,
        does(ctx, id, Instruction::Le { dst, lhs, rhs, loc }) is Fail,
        does(ctx, id, Instruction::Gt { dst, lhs, rhs, loc }) is Fail,
        does(ctx, id, Instruction::Ge { dst, lhs, rhs, loc }) is Fail,
        does(ctx, id, Instruction::Sub { dst, lhs, rhs, loc }) is Fail,
        does(ctx, id, Instruction::Mul { dst, lhs, rhs, loc }) is Fail,
        does(ctx, id, Instruction::Div { dst, lhs, rhs, loc }) is Fail,
{
    reveal(effect);
    reveal(plain_effect);
    reveal(compared);
    reveal(arith);
}

/// Arithmetic is asked for with its operands in their order, and its result goes
/// into its register.
pub proof fn law_arithmetic_takes_its_operands_in_order(
    ctx: Ctx,
    id: usize,
    dst: usize,
    lhs: usize,
    rhs: usize,
    loc: Loc,
    l: u64,
    r: u64,
    v: Value,
)
    requires
        holds_number(ctx, id, lhs, l),
        holds_number(ctx, id, rhs, r),
    ensures
        does(ctx, id, Instruction::Add { dst, lhs, rhs, loc }) == Effect::Wait(
            Asks::Compute { op: Arith::Add, lhs: l, rhs: r },
        ),
        does(ctx, id, Instruction::Sub { dst, lhs, rhs, loc }) == Effect::Wait(
            Asks::Compute { op: Arith::Sub, lhs: l, rhs: r },
        ),
        does(ctx, id, Instruction::Mul { dst, lhs, rhs, loc }) == Effect::Wait(
            Asks::Compute { op: Arith::Mul, lhs: l, rhs: r },
        ),
        does(ctx, id, Instruction::Div { dst, lhs, rhs, loc }) == Effect::Wait(
            Asks::Compute { op: Arith::Div, lhs: l, rhs: r },
        ),
        completed(ctx, id, Op::Plain(Instruction::Add { dst, lhs, rhs, loc }), v) == put(
            ctx,
            id,
            dst,
            v,
        ),
        completed(ctx, id, Op::Plain(Instruction::Sub { dst, lhs, rhs, loc }), v) == put(
            ctx,
            id,
            dst,
            v,
        ),
        completed(ctx, id, Op::Plain(Instruction::Mul { dst, lhs, rhs, loc }), v) == put(
            ctx,
            id,
            dst,
            v,
        ),
        completed(ctx, id, Op::Plain(Instruction::Div { dst, lhs, rhs, loc }), v) == put(
            ctx,
            id,
            dst,
            v,
        ),
{
    reveal(effect);
    reveal(plain_effect);
    reveal(arith);
    reveal(e_add);
    reveal(completed);
}

/// One more in a number is that number plus one, in the same place.
pub proof fn law_increments_add_one(ctx: Ctx, id: usize, r: usize, g: usize, l: u64, v: Value)
    ensures
        holds_number(ctx, id, r, l) ==> does(ctx, id, Instruction::Increment(r)) == Effect::Wait(
            Asks::Compute { op: Arith::Add, lhs: l, rhs: 0x3ff0000000000000 },
        ),
        Value(ctx.globals[g as int]).kind() == Kind::Number(l) ==> does(
            ctx,
            id,
            Instruction::IncrementGlobal(g),
        ) == Effect::Wait(Asks::Compute { op: Arith::Add, lhs: l, rhs: 0x3ff0000000000000 }),
        completed(ctx, id, Op::Plain(Instruction::Increment(r)), v) == put(ctx, id, r, v),
        g < ctx.globals.len() ==> {
            let c = completed(ctx, id, Op::Plain(Instruction::IncrementGlobal(g)), v);
            &&& c.globals[g as int] == v.0
            &&& c.tasks == ctx.tasks
            &&& c.heap == ctx.heap
            &&& forall|k: int|
                0 <= k < ctx.globals.len() && k != g ==> #[trigger] c.globals[k] == ctx.globals[k]
        },
{
    reveal(effect);
    reveal(plain_effect);
    reveal(e_increment);
    reveal(completed);
}

/// Texts are equal where their characters are, truth values where they are the
/// same, and references to lists and objects where they are to the same one. A
/// text equals no number and no truth value.
pub proof fn law_equality_goes_by_what_values_stand_for(c: Ctx, u: Value, v: Value)
    ensures
        c.text(u) is Some && c.text(v) is Some ==> (c.equal(u, v) <==> c.text(u) == c.text(v)),
        c.text(u) is Some && (v.kind() is Number || v.kind() is Bool) ==> !c.equal(u, v),
        u.kind() is Bool && v.kind() is Bool && u == bool_value(u.kind()->Bool_0) && v == bool_value(
            v.kind()->Bool_0,
        ) ==> (c.equal(u, v) <==> u.kind() == v.kind()),
        u.kind() is Number && v.kind() is Number ==> (c.equal(u, v) <==> scaled(u.0) == scaled(v.0)),
        u.kind() is Number && v.kind() is Bool ==> !c.equal(u, v),
        c.deref(u) matches Some(ObjView::List(_)) ==> c.deref(v) matches Some(ObjView::List(_)) ==> (
        c.equal(u, v) <==> u == v),
        c.deref(u) matches Some(ObjView::Object(_)) ==> c.deref(v) matches Some(ObjView::Object(_))
            ==> (c.equal(u, v) <==> u == v),
{
    law_boxes_round_trip(0, true, 0);
    law_boxes_round_trip(0, false, 0);
}

/// Two operands are equal or not as the values in their registers are.
pub proof fn law_equality_is_tested(ctx: Ctx, id: usize, dst: usize, lhs: usize, rhs: usize)
    ensures
        puts_truth(
            does(ctx, id, Instruction::Eq { dst, lhs, rhs }),
            ctx,
            id,
            dst,
            ctx.equal(reg(ctx, id, lhs), reg(ctx, id, rhs)),
        ),
        puts_truth(
            does(ctx, id, Instruction::Ne { dst, lhs, rhs }),
            ctx,
            id,
            dst,
            !ctx.equal(reg(ctx, id, lhs), reg(ctx, id, rhs)),
        ),
{
    reveal(effect);
    reveal(plain_effect);
}

/// Only the truth value false counts as false: there a condition is left, and
/// what is not it is true.
pub proof fn law_only_false_is_false(
    ctx: Ctx,
    id: usize,
    cond: usize,
    target: usize,
    dst: usize,
    loc: Loc,
)
    ensures
        reg(ctx, id, cond).kind() == Kind::Bool(false) ==> {
            &&& does(ctx, id, Instruction::JumpIfFalse { cond, target }) == Effect::Jump(target)
            &&& puts_truth(
                does(ctx, id, Instruction::Not { dst, src: cond, loc }),
                ctx,
                id,
                dst,
                true,
            )
        },
        reg(ctx, id, cond).kind() != Kind::Bool(false) ==> {
            &&& does(ctx, id, Instruction::JumpIfFalse { cond, target }) == Effect::Next(ctx)
            &&& puts_truth(
                does(ctx, id, Instruction::Not { dst, src: cond, loc }),
                ctx,
                id,
                dst,
                false,
            )
        },
        does(ctx, id, Instruction::Jump(target)) == Effect::Jump(target),
{
    reveal(effect);
    reveal(plain_effect);
}

/// Loading and moving put the value into the register.
pub proof fn law_values_are_loaded_and_moved(
    ctx: Ctx,
    id: usize,
    dst: usize,
    src: usize,
    val: Value,
)
    requires
        has_reg(ctx, id, dst),
    ensures
        does(ctx, id, Instruction::LoadLiteral { dst, val }) matches Effect::Next(c) && reg(
            c,
            id,
            dst,
        ) == val && c.heap == ctx.heap && c.globals == ctx.globals,
        does(ctx, id, Instruction::Move { dst, src }) matches Effect::Next(c) && reg(c, id, dst)
            == reg(ctx, id, src) && c.heap == ctx.heap && c.globals == ctx.globals,
{
    reveal(effect);
    reveal(plain_effect);
    reveal(put);
}

/// A new list has the length that was asked for and holds zeros, and a new object
/// has no fields.
pub proof fn law_new_collections_are_empty(
    ctx: Ctx,
    id: usize,
    dst: usize,
    len: usize,
    capacity: usize,
)
    requires
        ctx.wf(),
        ctx.heap.has_room(),
        has_reg(ctx, id, dst),
    ensures
        does(ctx, id, Instruction::NewList { dst, len }) matches Effect::Next(c) && (c.deref(
            reg(c, id, dst),
        ) matches Some(ObjView::List(l)) && l.len() == len && forall|k: int|
            0 <= k < l.len() ==> #[trigger] l[k] == 0),
        does(ctx, id, Instruction::NewObject { dst, capacity }) matches Effect::Next(c) && (c.deref(
            reg(c, id, dst),
        ) matches Some(ObjView::Object(m)) && m == Map::<u32, u64>::empty()),
{
    reveal(effect);
    reveal(plain_effect);
    reveal(put);
    lemma_new_object(ctx, ObjView::List(zeros(len as nat)));
    lemma_new_object(ctx, ObjView::Object(no_fields()));
    law_boxes_round_trip(0, false, ctx.next_slot());
}

/// Reading an element gives the one at the index, and fails where the list has
/// none there.
pub proof fn law_elements_are_read_by_their_index(
    ctx: Ctx,
    id: usize,
    dst: usize,
    list: usize,
    index_reg: usize,
    loc: Loc,
    l: Seq<u64>,
    n: u64,
)
    requires
        ctx.deref(reg(ctx, id, list)) == Some(ObjView::List(l)),
        holds_number(ctx, id, index_reg, n),
    ensures
        truncated(n) < l.len() ==> does(ctx, id, Instruction::ListGet { dst, list, index_reg, loc })
            == Effect::Next(put(ctx, id, dst, Value(l[truncated(n)]))),
        truncated(n) >= l.len() ==> does(ctx, id, Instruction::ListGet { dst, list, index_reg, loc }) is Fail,
{
    reveal(effect);
    reveal(plain_effect);
    reveal(e_list_get);
    law_indices_are_whole_parts(n);
}

/// Indexing works on lists and with numbers only.
pub proof fn law_only_lists_have_elements(
    ctx: Ctx,
    id: usize,
    dst: usize,
    list: usize,
    index_reg: usize,
    loc: Loc,
)
    requires
        !(ctx.deref(reg(ctx, id, list)) matches Some(ObjView::List(_))) || !(reg(
            ctx,
            id,
            index_reg,
        ).kind() is Number),
    ensures
        does(ctx, id, Instruction::ListGet { dst, list, index_reg, loc }) is Fail,
        does(ctx, id, Instruction::ListSet { list, index_reg, src: dst, loc }) is Fail,
{
    reveal(effect);
    reveal(plain_effect);
    reveal(e_list_get);
    reveal(e_list_set);
}

/// Reading a field gives its value, and zero where the object has none of that
/// name. Only objects take new values for their fields.
pub proof fn law_fields_are_read_by_their_name(
    ctx: Ctx,
    id: usize,
    dst: usize,
    obj: usize,
    name_id: u32,
    loc: Loc,
)
    ensures
        ctx.deref(reg(ctx, id, obj)) matches Some(ObjView::Object(m)) ==> does(
            ctx,
            id,
            Instruction::ObjectGet { dst, obj, name_id, loc },
        ) == Effect::Next(
            put(
                ctx,
                id,
                dst,
                Value(
                    if m.contains_key(name_id) {
                        m[name_id]
                    } else {
                        0
                    },
                ),
            ),
        ),
        ctx.deref(reg(ctx, id, obj)) is None ==> does(
            ctx,
            id,
            Instruction::ObjectGet { dst, obj, name_id, loc },
        ) is Fail,
        !(ctx.deref(reg(ctx, id, obj)) matches Some(ObjView::Object(_))) ==> does(
            ctx,
            id,
            Instruction::ObjectSet { obj, name_id, src: dst, loc },
        ) is Fail,
{
    reveal(effect);
    reveal(plain_effect);
    reveal(e_object_get);
    reveal(e_object_set);
}

/// A range gives back its ends by their names, a list its method `pad` and a range
/// its method `step`, and a timestamp the seconds since then.
pub proof fn law_parts_of_ranges_are_read_by_their_names(
    ctx: Ctx,
    id: usize,
    dst: usize,
    obj: usize,
    name_id: u32,
    loc: Loc,
)
    requires
        ctx.wf(),
        ctx.heap.has_room(),
        has_reg(ctx, id, dst),
    ensures
        ({
            let v = reg(ctx, id, obj);
            let name = ctx.name(name_id);
            let e = does(ctx, id, Instruction::ObjectGet { dst, obj, name_id, loc });
            &&& ctx.deref(v) matches Some(ObjView::Range { start, end, .. }) ==> {
                &&& name == "start"@ ==> e == Effect::Next(put(ctx, id, dst, Value(start)))
                &&& name == "end"@ ==> e == Effect::Next(put(ctx, id, dst, Value(end)))
                &&& name == "step"@ ==> gives_method(e, id, dst, v, name_id)
            }
            &&& ctx.deref(v) matches Some(ObjView::List(_)) ==> name == "pad"@ ==> gives_method(
                e,
                id,
                dst,
                v,
                name_id,
            )
            &&& ctx.deref(v) matches Some(ObjView::Timestamp(t)) ==> name == "elapsed"@ ==> e
                == Effect::Wait(Asks::Elapsed(t))
        }),
{
    reveal(effect);
    reveal(plain_effect);
    reveal(e_object_get);
    reveal(put);
    reveal_strlit("start");
    reveal_strlit("end");
    reveal_strlit("step");
    assert("start"@.len() == 5 && "end"@.len() == 3 && "step"@.len() == 4);
    lemma_new_object(ctx, ObjView::BoundMethod { receiver: reg(ctx, id, obj), name_id });
    law_boxes_round_trip(0, false, ctx.next_slot());
}

/// The register gets a method of the value.
pub open spec fn gives_method(e: Effect, id: usize, dst: usize, v: Value, name_id: u32) -> bool {
    e matches Effect::Next(c) && c.deref(reg(c, id, dst)) == Some(
        ObjView::BoundMethod { receiver: v, name_id },
    )
}

/// A range is made of its ends and its step, one where it has none, and gives them
/// back when it is taken apart.
pub proof fn law_ranges_give_back_their_parts(
    ctx: Ctx,
    id: usize,
    dst: usize,
    start: usize,
    end: usize,
    step: usize,
    loc: Loc,
    a: u64,
    b: u64,
    s: u64,
)
    requires
        ctx.wf(),
        ctx.heap.has_room(),
        has_reg(ctx, id, dst),
        holds_number(ctx, id, start, a),
        holds_number(ctx, id, end, b),
        holds_number(ctx, id, step, s),
    ensures
        does(ctx, id, Instruction::Range { dst, start, end, step: None, loc }) matches Effect::Next(c)
            && c.deref(reg(c, id, dst)) == Some(
            ObjView::Range { start: a, end: b, step: 0x3ff0000000000000 },
        ),
        does(ctx, id, Instruction::Range { dst, start, end, step: Some(step), loc }) matches Effect::Next(
            c,
        ) && c.deref(reg(c, id, dst)) == Some(ObjView::Range { start: a, end: b, step: s }),
{
    reveal(effect);
    reveal(plain_effect);
    reveal(e_range);
    reveal(put);
    lemma_new_object(ctx, ObjView::Range { start: a, end: b, step: 0x3ff0000000000000 });
    lemma_new_object(ctx, ObjView::Range { start: a, end: b, step: s });
    law_boxes_round_trip(0, false, ctx.next_slot());
}

/// Taking a range apart puts its start, its end and its step into three registers.
pub proof fn law_ranges_are_taken_apart(
    ctx: Ctx,
    id: usize,
    range: usize,
    start_dst: usize,
    end_dst: usize,
    step_dst: usize,
    a: u64,
    b: u64,
    s: u64,
)
    requires
        has_reg(ctx, id, start_dst),
        has_reg(ctx, id, end_dst),
        has_reg(ctx, id, step_dst),
        start_dst != end_dst,
        end_dst != step_dst,
        start_dst != step_dst,
        ctx.deref(reg(ctx, id, range)) == Some(ObjView::Range { start: a, end: b, step: s }),
    ensures
        does(ctx, id, Instruction::RangeInfo { range, start_dst, end_dst, step_dst }) matches Effect::Next(
            c,
        ) && reg(c, id, start_dst) == Value(a) && reg(c, id, end_dst) == Value(b) && reg(
            c,
            id,
            step_dst,
        ) == Value(s) && c.heap == ctx.heap && c.globals == ctx.globals,
{
    reveal(effect);
    reveal(plain_effect);
    reveal(e_range_info);
    reveal(put);
}

/// Adding what is neither two numbers nor two texts is an error.
pub proof fn law_only_like_things_are_added(
    ctx: Ctx,
    id: usize,
    dst: usize,
    lhs: usize,
    rhs: usize,
    loc: Loc,
)
    requires
        !(reg(ctx, id, lhs).kind() is Number) || !(reg(ctx, id, rhs).kind() is Number),
        ctx.text(reg(ctx, id, lhs)) is None || ctx.text(reg(ctx, id, rhs)) is None,
    ensures
        does(ctx, id, Instruction::Add { dst, lhs, rhs, loc }) is Fail,
{
    reveal(effect);
    reveal(plain_effect);
    reveal(e_add);
}

/// The task is at the instruction.
pub open spec fn is_at(m: Machine, op: Op) -> bool {
    &&& m.wf()
    &&& m.task.frames.len() > 0
    &&& m.frame().pc < m.frame().code.len()
    &&& m.frame().code[m.frame().pc as int] == op
}

/// An instruction leads to the next one, a jump to its target, and a failure to
/// the end of the task.
pub proof fn law_instructions_follow_each_other(m: Machine, op: Op)
    requires
        is_at(m, op),
        m.frame().pc < usize::MAX,
    ensures
        ({
            let (n, asks) = m.step();
            let pc = m.frame().pc;
            match effect(m.ctx, m.task.id, op) {
                Effect::Next(c) => n.ctx == c && n.frame().pc == pc + 1 && n.task.frames.len()
                    == m.task.frames.len() && n.frame().code == m.frame().code && (asks is Running
                    || asks is Yield),
                Effect::Skip(c) => n.ctx == c && n.frame().pc == pc + 1 && n.task.frames.len()
                    == m.task.frames.len() && n.frame().code == m.frame().code && asks is Running,
                Effect::Jump(target) => n.ctx == m.ctx && n.frame().pc == target && asks is Running
                    && n.task.frames.len() == m.task.frames.len() && n.frame().code
                    == m.frame().code,
                Effect::Wait(work) => n.ctx == m.ctx && n.frame().pc == pc && asks == work,
                Effect::Fail(fault) => n.task.frames.len() == 0 && asks == Asks::Fail(fault),
                _ => true,
            }
        }),
{
    let c = m.counted();
    assert(c.ctx == m.ctx && c.task.id == m.task.id);
}

/// When outside work is done, the result is in its place and the next instruction
/// follows.
pub proof fn law_outside_work_leads_on(m: Machine, op: Op, v: Value)
    requires
        is_at(m, op),
        m.frame().pc < usize::MAX,
    ensures
        m.resumed(v).0.ctx == completed(m.ctx, m.task.id, op, v),
        m.resumed(v).0.frame().pc == m.frame().pc + 1,
        m.resumed(v).0.task.frames.len() == m.task.frames.len(),
{
}

/// The task has entered a call of the function: each argument is in the register
/// of its parameter, the other registers are zero, and the caller waits.
pub open spec fn has_entered(
    m: Machine,
    n: Machine,
    code: Seq<Op>,
    locals_count: nat,
    args: Seq<usize>,
    dst: Option<usize>,
) -> bool {
    let depth = m.task.frames.len() as int;
    &&& n.task.frames.len() == depth + 1
    &&& n.frame().code == code
    &&& n.frame().pc == 0
    &&& n.frame().dst == dst
    &&& n.stack().len() == m.stack().len() + 1
    &&& n.stack().last().len() == locals_count
    &&& forall|k: int|
        0 <= k < args.len() && k < locals_count ==> #[trigger] n.stack().last()[k]
            == m.stack().last()[args[k] as int]
    &&& forall|k: int| args.len() <= k < locals_count ==> #[trigger] n.stack().last()[k] == 0
    &&& forall|k: int| 0 <= k < m.stack().len() ==> #[trigger] n.stack()[k] == m.stack()[k]
    &&& n.ctx.heap == m.ctx.heap
    &&& n.ctx.globals == m.ctx.globals
}

/// A call binds each argument to the parameter at the same place: the value that
/// the `k`-th argument register holds is in register `k` of the new call.
pub proof fn law_arguments_arrive_in_order(
    m: Machine,
    name_id: u32,
    args: Seq<usize>,
    dst: Option<usize>,
    loc: Loc,
    f: FunctionView,
)
    requires
        is_at(m, Op::Call { name_id, args, dst, loc }),
        m.ctx.callables[name_id as int] == Some(CallableView::User(f)),
        f.params_count == args.len(),
    ensures
        m.step().1 is Running,
        has_entered(m, m.step().0, f.code, f.locals_count as nat, args, dst),
{
    reveal(effect);
    reveal(e_call);
    reveal(call_regs);
    assert(m.counted().ctx == m.ctx);
    l_stack(m);
}

/// The same holds of a call of a function that a value names.
pub proof fn law_arguments_arrive_in_order_at_named_functions(
    m: Machine,
    callee_reg: usize,
    args: Seq<usize>,
    dst: Option<usize>,
    loc: Loc,
    name_id: u32,
    f: FunctionView,
)
    requires
        is_at(m, Op::CallDynamic { callee_reg, args, dst, loc }),
        !(m.ctx.deref(Value(m.stack().last()[callee_reg as int])) matches Some(
            ObjView::BoundMethod { .. },
        )),
        m.ctx.pool_id(Value(m.stack().last()[callee_reg as int])) == Some(name_id),
        m.ctx.callables[name_id as int] == Some(CallableView::User(f)),
    ensures
        m.step().1 is Running,
        has_entered(m, m.step().0, f.code, f.locals_count as nat, args, dst),
{
    reveal(effect);
    reveal(e_call_dynamic);
    reveal(call_regs);
    assert(m.counted().ctx == m.ctx);
    l_stack(m);
}

proof fn l_stack(m: Machine)
    requires
        m.wf(),
        m.task.frames.len() > 0,
    ensures
        m.stack().len() == m.task.frames.len(),
        m.task.id < m.ctx.tasks.len(),
        regs_of(m.ctx, m.task.id) == m.stack().last(),
{
}

/// A value names the function whose name is its text.
pub proof fn law_texts_name_functions(ctx: Ctx, v: Value)
    requires
        ctx.strings.len() <= u32::MAX,
    ensures
        v.kind() is Text ==> (ctx.pool_id(v) matches Some(k) ==> k < ctx.strings.len() && Some(
            ctx.strings[k as int],
        ) == ctx.text(v)),
        v.kind() is Text && ctx.text(v) is Some && ctx.strings.contains(ctx.text(v)->0)
            ==> ctx.pool_id(v) is Some,
        v.kind() matches Kind::Object(id) ==> id < ctx.strings.len() ==> ctx.pool_id(v) == Some(id),
        v.kind() matches Kind::Object(id) ==> (id >= ctx.strings.len() && ctx.text(v) is Some ==> (
        ctx.pool_id(v) matches Some(k) ==> k < ctx.strings.len() && Some(ctx.strings[k as int])
            == ctx.text(v))),
        v.kind() is Number || v.kind() is Bool ==> ctx.pool_id(v) is None,
{
    if ctx.text(v) is Some {
        l_first_place(ctx.strings, ctx.text(v)->0, 0);
    }
}

/// The first place of a text is one, if there is one.
proof fn l_first_place(strings: Seq<Seq<char>>, s: Seq<char>, k: int)
    requires
        0 <= k <= strings.len(),
    ensures
        first_place(strings, s, k) matches Some(j) ==> k <= j < strings.len() && strings[j] == s,
        first_place(strings, s, k) is None ==> forall|j: int|
            k <= j < strings.len() ==> #[trigger] strings[j] != s,
    decreases strings.len() - k,
{
    if k < strings.len() {
        l_first_place(strings, s, k + 1);
    }
}

/// A call with more or fewer arguments than parameters is an error, which says how
/// many were expected and how many came.
pub proof fn law_calls_need_as_many_arguments_as_parameters(
    m: Machine,
    name_id: u32,
    args: Seq<usize>,
    dst: Option<usize>,
    loc: Loc,
    f: FunctionView,
)
    requires
        is_at(m, Op::Call { name_id, args, dst, loc }),
        m.ctx.callables[name_id as int] == Some(CallableView::User(f)),
        f.params_count != args.len(),
    ensures
        m.step().1 == Asks::Fail(
            Fault::Runtime {
                msg: "Function arity mismatch: expected "@ + decimal(f.params_count as nat)
                    + ", got "@ + decimal(args.len()),
                loc: ErrorLoc { line: loc.line as usize, col: loc.col as usize },
            },
        ),
{
    reveal(effect);
    reveal(e_call);
    assert(m.counted().ctx == m.ctx);
}

/// A native function is asked for with the values of its arguments in their order,
/// and what it gives goes into the register that waits for it.
pub proof fn law_native_functions_get_their_arguments(
    m: Machine,
    name_id: u32,
    args: Seq<usize>,
    dst: usize,
    loc: Loc,
    native: Native,
    v: Value,
)
    requires
        is_at(m, Op::Call { name_id, args, dst: Some(dst), loc }),
        m.ctx.callables[name_id as int] == Some(CallableView::Native(native)),
        dst < m.stack().last().len(),
    ensures
        m.step().1 matches Asks::Native { native: n, args: values, loc: l } && n == native && l == loc
            && values.len() == args.len() && forall|k: int|
            0 <= k < args.len() ==> #[trigger] values[k] == m.stack().last()[args[k] as int],
        m.resumed(v).0.stack().last()[dst as int] == v.0,
{
    reveal(effect);
    reveal(e_call);
    reveal(completed);
    reveal(put);
    assert(m.counted().ctx == m.ctx);
    l_stack(m);
}

/// A function that is not there cannot be called.
pub proof fn law_unknown_functions_fail(
    m: Machine,
    name_id: u32,
    args: Seq<usize>,
    dst: Option<usize>,
    loc: Loc,
)
    requires
        is_at(m, Op::Call { name_id, args, dst, loc }),
        m.ctx.callables[name_id as int] is None,
    ensures
        m.step().1 == Asks::Fail(
            Fault::Runtime {
                msg: "Unknown function: "@ + m.ctx.name(name_id),
                loc: ErrorLoc { line: loc.line as usize, col: loc.col as usize },
            },
        ),
{
    reveal(effect);
    reveal(e_call);
    assert(m.counted().ctx == m.ctx);
}

/// What a function returns is in the register of its caller that waits for it; a
/// task that returns from its first call is done with the value.
pub proof fn law_returned_values_arrive(m: Machine, r: usize)
    requires
        is_at(m, Op::Plain(Instruction::Return(Some(r)))),
    ensures
        m.task.frames.len() == 1 ==> m.step().1 == Asks::Done(
            Value(m.stack().last()[r as int]),
        ) && m.step().0.task.frames.len() == 0,
        m.task.frames.len() > 1 ==> {
            let n = m.step().0;
            let k = m.task.frames.len() - 2;
            &&& n.task.frames.len() == m.task.frames.len() - 1
            &&& n.stack().len() == m.stack().len() - 1
            &&& n.frame().code == m.task.frames[k].code
            &&& m.frame().dst matches Some(dst) ==> n.stack()[k][dst as int] == m.stack().last()[r as int]
            &&& m.frame().dst is None ==> n.stack()[k] == m.stack()[k]
        },
{
    reveal(effect);
    reveal(plain_effect);
    reveal(put);
    assert(m.counted().ctx == m.ctx);
    l_stack(m);
    assert(m.frame_ok(m.task.frames.len() - 1));
}

/// A return without a value gives zero.
pub proof fn law_empty_returns_give_zero(m: Machine)
    requires
        is_at(m, Op::Plain(Instruction::Return(None))),
    ensures
        m.task.frames.len() == 1 ==> m.step().1 == Asks::Done(Value(0)),
        m.task.frames.len() > 1 ==> (m.frame().dst matches Some(dst)
            ==> m.step().0.stack()[m.task.frames.len() - 2][dst as int] == 0),
{
    reveal(effect);
    reveal(plain_effect);
    reveal(put);
    assert(m.counted().ctx == m.ctx);
    l_stack(m);
    assert(m.frame_ok(m.task.frames.len() - 1));
}

/// A spawned task starts with its code, in a place of its own. Its registers hold
/// what the captured registers held, and zero elsewhere; the task that started it
/// goes on.
pub proof fn law_spawned_tasks_start_with_what_they_capture(
    m: Machine,
    body: Seq<Op>,
    locals_count: usize,
    captures: Seq<usize>,
    r: usize,
)
    requires
        is_at(m, Op::Spawn { body, locals_count, captures }),
        m.frame().pc < usize::MAX,
        r < locals_count,
        m.ctx.tasks.len() <= usize::MAX,
    ensures
        ({
            let (n, asks) = m.step();
            let id = m.ctx.tasks.len() as int;
            &&& n.ctx.tasks.len() == id + 1
            &&& n.ctx.tasks[id].len() == 1
            &&& n.ctx.tasks[id][0].len() == locals_count
            &&& captures.contains(r) && r < m.stack().last().len() ==> n.ctx.tasks[id][0][r as int]
                == m.stack().last()[r as int]
            &&& !captures.contains(r) ==> n.ctx.tasks[id][0][r as int] == 0
            &&& asks matches Asks::Spawn { task, .. } && task.id == id && task.frames.len() == 1
                && task.frames[0].code == body && task.frames[0].pc == 0
            &&& n.frame().pc == m.frame().pc + 1
            &&& n.stack() == m.stack()
        }),
{
    reveal(effect);
    reveal(spawn_regs);
    assert(m.counted().ctx == m.ctx);
    l_stack(m);
}

/// The registers of a call begin with the arguments, each in the place of its
/// parameter, and the others are zero.
pub proof fn law_arguments_are_the_first_registers(locals_count: nat, args: Seq<u64>, k: int)
    requires
        0 <= k < locals_count,
    ensures
        call_regs(locals_count, args).len() == locals_count,
        k < args.len() ==> call_regs(locals_count, args)[k] == args[k],
        k >= args.len() ==> call_regs(locals_count, args)[k] == 0,
{
    reveal(call_regs);
}

} // verus!
