//! What scripts can rely on: a read gives back what was written, and a write
//! changes nothing else.
use crate::compiler::lemma_code_ok_at;
use crate::compiler::op_ok;
use crate::compiler::Bounds;
use crate::compiler::Instruction;
use crate::compiler::Loc;
use crate::compiler::Op;
use crate::context::lemma_new_object;
use crate::context::Ctx;
use crate::heap::field_get;
use crate::heap::is_young;
use crate::heap::Generation;
use crate::heap::ObjView;
use crate::machine::arg_number;
use crate::machine::arith;
use crate::machine::barrier;
use crate::machine::bounds;
use crate::machine::compared;
use crate::machine::completed;
use crate::machine::e_add;
use crate::machine::e_call;
use crate::machine::e_call_dynamic;
use crate::machine::e_increment;
use crate::machine::e_list_get;
use crate::machine::e_list_set;
use crate::machine::e_method;
use crate::machine::e_object_get;
use crate::machine::e_object_set;
use crate::machine::e_range;
use crate::machine::e_range_info;
use crate::machine::effect;
use crate::machine::grown;
use crate::machine::make_text;
use crate::machine::plain_effect;
use crate::machine::put;
use crate::machine::reg;
use crate::machine::regs_of;
use crate::machine::set_object;
use crate::machine::Effect;
use crate::machine::FrameView;
use crate::machine::Machine;
use crate::number::truncated;
use crate::value::law_boxes_round_trip;
use crate::value::law_short_text_round_trip;
use crate::value::Kind;
use crate::value::Value;
use vstd::prelude::*;
use vstd::utf8::encode_utf8;

verus! {

/// The task and its register exist.
pub open spec fn has_reg(ctx: Ctx, id: usize, r: usize) -> bool {
    &&& id < ctx.tasks.len()
    &&& ctx.tasks[id as int].len() > 0
    &&& r < regs_of(ctx, id).len()
}

/// The two memories differ at most in one object and in what the collector
/// remembers.
pub open spec fn same_but_object(a: Ctx, b: Ctx, oid: u32) -> bool {
    &&& b.globals == a.globals
    &&& b.strings == a.strings
    &&& b.callables == a.callables
    &&& b.tasks == a.tasks
    &&& forall|other: u32| other != oid ==> #[trigger] b.object(other) == a.object(other)
}

/// A register gives back what was put into it, and the others stay.
pub proof fn law_registers_give_back(ctx: Ctx, id: usize, r: usize, v: Value, other: usize)
    requires
        has_reg(ctx, id, r),
    ensures
        reg(put(ctx, id, r, v), id, r) == v,
        other != r && other < regs_of(ctx, id).len() ==> reg(put(ctx, id, r, v), id, other) == reg(
            ctx,
            id,
            other,
        ),
        put(ctx, id, r, v).heap == ctx.heap,
        put(ctx, id, r, v).globals == ctx.globals,
{
    reveal(put);
}

/// A global gives back what was stored in it last, and storing it leaves the
/// others as they were.
pub proof fn law_globals_give_back(ctx: Ctx, id: usize, global: usize, src: usize, dst: usize)
    requires
        global < ctx.globals.len(),
    ensures
        effect(ctx, id, Op::Plain(Instruction::StoreGlobal { global, src })) matches Effect::Next(c)
            && effect(c, id, Op::Plain(Instruction::LoadGlobal { dst, global })) == Effect::Next(
            put(c, id, dst, reg(ctx, id, src)),
        ) && forall|other: int|
            0 <= other < ctx.globals.len() && other != global ==> #[trigger] c.globals[other]
                == ctx.globals[other],
{
    reveal(effect);
    reveal(plain_effect);
}

/// Contents written into an object that exists are there.
proof fn l_written_object(ctx: Ctx, oid: u32, obj: ObjView, bits: u64)
    requires
        ctx.object(oid) is Some,
    ensures
        set_object(ctx, oid, obj).object(oid) == Some(obj),
        same_but_object(ctx, set_object(ctx, oid, obj), oid),
        barrier(set_object(ctx, oid, obj), oid, bits).object(oid) == Some(obj),
        same_but_object(ctx, barrier(set_object(ctx, oid, obj), oid, bits), oid),
{
    reveal(set_object);
    reveal(barrier);
}

/// A list gives back what was written at an index. Writing reaches no other
/// index and no other object; a list that was shorter has grown to hold the
/// index, with zeros in between.
pub proof fn law_lists_give_back(
    ctx: Ctx,
    id: usize,
    list: usize,
    index_reg: usize,
    src: usize,
    dst: usize,
    loc: Loc,
)
    ensures
        effect(ctx, id, Op::Plain(Instruction::ListSet { list, index_reg, src, loc })) matches Effect::Next(
            c,
        ) ==> {
            let v = reg(ctx, id, list);
            let index = truncated(reg(ctx, id, index_reg).kind()->Number_0) as usize;
            let before = ctx.deref(v)->0->List_0;
            let after = c.deref(v)->0->List_0;
            &&& effect(c, id, Op::Plain(Instruction::ListGet { dst, list, index_reg, loc }))
                == Effect::Next(put(c, id, dst, reg(ctx, id, src)))
            &&& c.deref(v) matches Some(ObjView::List(_))
            &&& after.len() == (if index < before.len() {
                before.len() as int
            } else {
                index + 1
            })
            &&& forall|k: int|
                0 <= k < after.len() && k != index ==> #[trigger] after[k] == (if k < before.len() {
                    before[k]
                } else {
                    0
                })
            &&& same_but_object(ctx, c, v.kind()->Object_0)
        },
{
    reveal(effect);
    reveal(plain_effect);
    reveal(e_list_set);
    reveal(e_list_get);
    let v = reg(ctx, id, list);
    if ctx.deref(v) is Some {
        let oid = v.kind()->Object_0;
        let bits = reg(ctx, id, src).0;
        let index = truncated(reg(ctx, id, index_reg).kind()->Number_0) as usize;
        let filled = grown(
            ctx.deref(v)->0->List_0,
            (index + 1) as nat,
            0,
        ).update(index as int, bits);
        l_written_object(ctx, oid, ObjView::List(filled), bits);
    }
}

/// An object gives back what was written into a field. The other fields stay,
/// and so do the other objects.
pub proof fn law_fields_give_back(
    ctx: Ctx,
    id: usize,
    obj: usize,
    name_id: u32,
    src: usize,
    dst: usize,
    other: u32,
    loc: Loc,
)
    ensures
        effect(ctx, id, Op::Plain(Instruction::ObjectSet { obj, name_id, src, loc })) matches Effect::Next(
            c,
        ) ==> {
            let v = reg(ctx, id, obj);
            &&& effect(c, id, Op::Plain(Instruction::ObjectGet { dst, obj, name_id, loc }))
                == Effect::Next(put(c, id, dst, reg(ctx, id, src)))
            &&& other != name_id ==> field_get(c.deref(v)->0->Object_0, other) == field_get(
                ctx.deref(v)->0->Object_0,
                other,
            )
            &&& same_but_object(ctx, c, v.kind()->Object_0)
        },
{
    reveal(effect);
    reveal(plain_effect);
    reveal(e_object_set);
    reveal(e_object_get);
    let v = reg(ctx, id, obj);
    if ctx.deref(v) is Some {
        let bits = reg(ctx, id, src).0;
        let m = ctx.deref(v)->0->Object_0;
        l_written_object(ctx, v.kind()->Object_0, ObjView::Object(m.insert(name_id, bits)), bits);
    }
}

/// Padding appends the value until a list has the length, and takes nothing
/// away.
pub proof fn law_pad_appends(
    ctx: Ctx,
    id: usize,
    list: Value,
    args: Seq<u64>,
    dst: Option<usize>,
    loc: Loc,
)
    requires
        ctx.deref(list) matches Some(ObjView::List(_)),
        args.len() == 2,
    ensures
        e_method(ctx, id, list, "pad"@, args, dst, loc) matches Effect::Skip(c) && {
            let before = ctx.deref(list)->0->List_0;
            let after = c.deref(list)->0->List_0;
            let n = truncated(arg_number(args, 0, 0)) as nat;
            &&& c.deref(list) matches Some(ObjView::List(_))
            &&& after.len() == (if n < before.len() {
                before.len() as int
            } else {
                n as int
            })
            &&& forall|k: int|
                0 <= k < after.len() ==> #[trigger] after[k] == (if k < before.len() {
                    before[k]
                } else {
                    args[1]
                })
            &&& same_but_object(ctx, c, list.kind()->Object_0)
        },
{
    reveal(e_method);
    let oid = list.kind()->Object_0;
    let filled = grown(
        ctx.deref(list)->0->List_0,
        truncated(arg_number(args, 0, 0)) as nat,
        args[1],
    );
    l_written_object(ctx, oid, ObjView::List(filled), 0);
}

/// A range with another step keeps its ends.
pub proof fn law_step_keeps_the_ends(
    ctx: Ctx,
    id: usize,
    range: Value,
    args: Seq<u64>,
    dst: usize,
    loc: Loc,
    step: u64,
)
    requires
        ctx.wf(),
        ctx.heap.has_room(),
        has_reg(ctx, id, dst),
        ctx.deref(range) matches Some(ObjView::Range { .. }),
        args.len() == 1,
        Value(args[0]).kind() == Kind::Number(step),
    ensures
        e_method(ctx, id, range, "step"@, args, Some(dst), loc) matches Effect::Skip(c) && {
            let old_range = ctx.deref(range)->0;
            c.deref(reg(c, id, dst)) == Some(
                ObjView::Range { start: old_range->start, end: old_range->end, step },
            )
        },
{
    reveal(e_method);
    reveal(put);
    reveal_strlit("pad");
    reveal_strlit("step");
    assert("pad"@.len() != "step"@.len());
    let r = ctx.deref(range)->0;
    lemma_new_object(ctx, ObjView::Range { start: r->start, end: r->end, step });
    law_boxes_round_trip(0, false, ctx.next_slot());
}

/// Adding two texts gives the text that is the one and then the other.
pub proof fn law_texts_are_joined(
    ctx: Ctx,
    id: usize,
    dst: usize,
    lhs: usize,
    rhs: usize,
    loc: Loc,
    s: Seq<char>,
    t: Seq<char>,
)
    requires
        ctx.wf(),
        ctx.heap.has_room(),
        has_reg(ctx, id, dst),
        ctx.text(reg(ctx, id, lhs)) == Some(s),
        ctx.text(reg(ctx, id, rhs)) == Some(t),
    ensures
        effect(ctx, id, Op::Plain(Instruction::Add { dst, lhs, rhs, loc })) matches Effect::Next(c)
            && c.text(reg(c, id, dst)) == Some(s + t),
{
    reveal(effect);
    reveal(plain_effect);
    reveal(e_add);
    reveal(make_text);
    reveal(put);
    if encode_utf8(s + t).len() <= 6 {
        law_short_text_round_trip(s + t);
    } else {
        lemma_new_object(ctx, ObjView::Text(s + t));
        law_boxes_round_trip(0, false, ctx.next_slot());
    }
}

/// The registers of an outer call are the same.
spec fn outer_same(a: Ctx, b: Ctx, id: usize, k: int) -> bool {
    &&& b.tasks.len() == a.tasks.len()
    &&& b.tasks[id as int].len() == a.tasks[id as int].len()
    &&& b.tasks[id as int][k] == a.tasks[id as int][k]
}

spec fn effect_leaves(a: Ctx, e: Effect, id: usize, k: int) -> bool {
    match e {
        Effect::Next(b) => outer_same(a, b, id, k),
        Effect::Skip(b) => outer_same(a, b, id, k),
        _ => true,
    }
}

#[verifier::spinoff_prover]
#[verifier::rlimit(40)]
proof fn l_plain_leaves(ctx: Ctx, id: usize, i: Instruction, k: int, b: Bounds)
    requires
        op_ok(Op::Plain(i), b),
        id < ctx.tasks.len(),
        0 <= k < ctx.tasks[id as int].len() - 1,
    ensures
        effect_leaves(ctx, plain_effect(ctx, id, i), id, k),
{
    reveal(plain_effect);
    reveal(put);
    reveal(make_text);
    reveal(set_object);
    reveal(barrier);
    reveal(arith);
    reveal(compared);
    reveal(e_add);
    reveal(e_increment);
    reveal(e_range);
    reveal(e_range_info);
    reveal(e_list_get);
    reveal(e_list_set);
    reveal(e_object_get);
    reveal(e_object_set);
}

/// A call has registers of its own: whatever it does, the calls around it keep
/// theirs and wait where they are. When it ends, the one that called it goes on
/// with the next instruction, and only the register that takes the result may
/// have changed.
pub proof fn law_calls_keep_their_callers(m: Machine, v: Value, k: int)
    requires
        m.wf(),
        0 <= k < m.task.frames.len() - 1,
    ensures
        ({
            let n = m.step().0;
            &&& k + 1 < n.task.frames.len() ==> n.task.frames[k] == m.task.frames[k] && n.stack()[k]
                == m.stack()[k]
            &&& k + 1 == n.task.frames.len() ==> {
                &&& n.task.frames[k] == (FrameView {
                    pc: (m.task.frames[k].pc + 1) as usize,
                    ..m.task.frames[k]
                })
                &&& n.stack()[k].len() == m.stack()[k].len()
                &&& forall|r: int|
                    0 <= r < m.stack()[k].len() && (m.frame().dst matches Some(dst) ==> r != dst)
                        ==> #[trigger] n.stack()[k][r] == m.stack()[k][r]
            }
        }),
        m.frame().pc < m.frame().code.len() ==> {
            let n = m.resumed(v).0;
            n.task.frames[k] == m.task.frames[k] && n.stack()[k] == m.stack()[k]
        },
{
    reveal(put);
    reveal(completed);
    assert(m.frame_ok(m.task.frames.len() - 1));
    if m.frame().pc < m.frame().code.len() {
        let op = m.frame().code[m.frame().pc as int];
        let b = bounds(m.ctx, m.stack()[m.task.frames.len() - 1].len());
        lemma_code_ok_at(m.frame().code, b, m.frame().pc as int);
        let c = m.counted();
        reveal(effect);
        assert(effect_leaves(c.ctx, effect(c.ctx, c.task.id, op), c.task.id, k)) by {
            reveal(e_call);
            reveal(e_call_dynamic);
            reveal(e_method);
            reveal(set_object);
            if let Op::Plain(i) = op {
                l_plain_leaves(c.ctx, c.task.id, i, k, b);
            }
        }
    }
}

/// An old object that takes in a reference to a young one is remembered, and
/// nothing else is; what it holds is not touched by that.
pub proof fn law_old_objects_that_take_in_young_ones_are_remembered(
    ctx: Ctx,
    oid: u32,
    v: Value,
    young: u32,
)
    requires
        v.kind() == Kind::Object(young),
    ensures
        ({
            let after = barrier(ctx, oid, v.0).heap;
            &&& after.slots == ctx.heap.slots
            &&& ctx.heap.slots[oid as int]->0.generation == Generation::Tenured && is_young(
                ctx.heap.slots,
                young,
            ) ==> after.remembered == ctx.heap.remembered.insert(oid)
            &&& !is_young(ctx.heap.slots, young) || ctx.heap.slots[oid as int]->0.generation
                == Generation::Nursery ==> after.remembered == ctx.heap.remembered
        }),
{
    reveal(barrier);
}

/// Writing into a list or an object tells the collector of it.
pub proof fn law_writes_are_told_to_the_collector(
    ctx: Ctx,
    id: usize,
    obj: usize,
    name_id: u32,
    src: usize,
    loc: Loc,
    oid: u32,
    young: u32,
)
    requires
        reg(ctx, id, obj).kind() == Kind::Object(oid),
        ctx.object(oid) matches Some(ObjView::Object(_)),
        ctx.heap.slots[oid as int]->0.generation == Generation::Tenured,
        reg(ctx, id, src).kind() == Kind::Object(young),
        is_young(ctx.heap.slots, young),
        young != oid,
    ensures
        effect(ctx, id, Op::Plain(Instruction::ObjectSet { obj, name_id, src, loc })) matches Effect::Next(
            c,
        ) && c.heap.remembered.contains(oid),
{
    reveal(effect);
    reveal(plain_effect);
    reveal(e_object_set);
    reveal(set_object);
    reveal(barrier);
}

/// The same of an element of a list.
pub proof fn law_list_writes_are_told_to_the_collector(
    ctx: Ctx,
    id: usize,
    list: usize,
    index_reg: usize,
    src: usize,
    loc: Loc,
    oid: u32,
    young: u32,
)
    requires
        reg(ctx, id, list).kind() == Kind::Object(oid),
        ctx.object(oid) matches Some(ObjView::List(_)),
        ctx.heap.slots[oid as int]->0.generation == Generation::Tenured,
        reg(ctx, id, src).kind() == Kind::Object(young),
        is_young(ctx.heap.slots, young),
        young != oid,
    ensures
        effect(ctx, id, Op::Plain(Instruction::ListSet { list, index_reg, src, loc })) matches Effect::Next(
            c,
        ) ==> c.heap.remembered.contains(oid),
{
    reveal(effect);
    reveal(plain_effect);
    reveal(e_list_set);
    reveal(set_object);
    reveal(barrier);
}

} // verus!
