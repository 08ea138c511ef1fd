//! The interpreter: runs tasks one instruction at a time.
//!
//! What needs the outside world (arithmetic on numbers, clocks, input and
//! output) is asked of the owner of the machine, who hands the result back.
use crate::compiler::all_below;
use crate::compiler::code_ok;
use crate::compiler::code_view;
use crate::compiler::lemma_code_ok_at;
use crate::compiler::op_ok;
use crate::compiler::op_view;
use crate::compiler::opt_below;
use crate::compiler::Instruction;
use crate::compiler::Loc;
use crate::compiler::Op;
use crate::context::first_place;
use crate::context::stack_view;
use crate::context::Callable;
use crate::context::CallableView;
use crate::context::Context;
use crate::context::Ctx;
use crate::context::Native;
use crate::error::JitError;
use crate::heap::fields_get;
use crate::heap::fields_insert;
use crate::heap::fields_new;
use crate::heap::is_young;
use crate::heap::live;
use crate::heap::opt_view;
use crate::heap::slot_set_insert;
use crate::heap::Generation;
use crate::heap::ManagedObject;
use crate::heap::ObjView;
use crate::machine::arg_number;
use crate::machine::arith;
use crate::machine::barrier;
use crate::machine::bounds;
use crate::machine::call_regs;
use crate::machine::callable_ok;
use crate::machine::compared;
use crate::machine::completed;
use crate::machine::e_add;
use crate::machine::e_call;
use crate::machine::e_call_dynamic;
use crate::machine::e_increment;
use crate::machine::e_list_get;
use crate::machine::e_list_set;
use crate::machine::e_method;
use crate::machine::e_object_get;
use crate::machine::e_object_set;
use crate::machine::e_range;
use crate::machine::e_range_info;
use crate::machine::effect;
use crate::machine::fail;
use crate::machine::functions_ok;
use crate::machine::grown;
use crate::machine::invoke;
use crate::machine::make;
use crate::machine::make_text;
use crate::machine::out_of_bounds;
use crate::machine::plain_effect;
use crate::machine::put;
use crate::machine::put_opt;
use crate::machine::ran;
use crate::machine::range_parts;
use crate::machine::reg;
use crate::machine::reg_list;
use crate::machine::regs_of;
use crate::machine::related;
use crate::machine::runtime;
use crate::machine::set_object;
use crate::machine::spawn_regs;
use crate::machine::zeros;
use crate::machine::Arith;
use crate::machine::Asks;
use crate::machine::Effect;
use crate::machine::FrameView;
use crate::machine::Machine;
use crate::machine::Relation;
use crate::machine::TaskView;
use crate::number::less_than;
use crate::number::to_index;
use crate::number::ONE;
use crate::text::decimal;
use crate::text::push_decimal;
use crate::text::same_text;
use crate::value::Value;
use std::sync::Arc;
use vstd::prelude::*;

verus! {

/// A call in progress.
pub struct Frame {
    pub code: Arc<Vec<Instruction>>,
    /// The next instruction.
    pub pc: usize,
    /// How many instructions the call has started.
    pub count: u32,
    /// The register of the caller that takes the result.
    pub dst: Option<usize>,
}

impl View for Frame {
    type V = FrameView;

    open spec fn view(&self) -> FrameView {
        FrameView {
            code: code_view((*self.code)@),
            pc: self.pc,
            count: self.count,
            dst: self.dst,
        }
    }
}

/// A task: its place among the tasks and its calls, the innermost last.
pub struct Task {
    pub id: usize,
    pub frames: Vec<Frame>,
}

pub open spec fn frames_view(v: Seq<Frame>) -> Seq<FrameView> {
    v.map_values(|f: Frame| f@)
}

impl View for Task {
    type V = TaskView;

    open spec fn view(&self) -> TaskView {
        TaskView { id: self.id, frames: frames_view(self.frames@) }
    }
}

/// What a task asks of its owner.
pub enum Action {
    /// To go on.
    Running,
    /// To let others run before it goes on.
    Yield,
    /// Nothing more: it came to its end with a value.
    Done(Value),
    /// Nothing more: it failed.
    Fail(JitError),
    /// The result of arithmetic on two numbers, given by their bits.
    Compute { op: Arith, lhs: u64, rhs: u64 },
    /// What a native function gives for the arguments.
    Native { native: Native, args: Vec<u64>, loc: Loc },
    /// The seconds since a point in time.
    Elapsed(u64),
    /// To run another task beside it, and before going on, where the flag says
    /// so, to let others run.
    Spawn { task: Task, yields: bool },
}

impl View for Action {
    type V = Asks;

    open spec fn view(&self) -> Asks {
        match *self {
            Action::Running => Asks::Running,
            Action::Yield => Asks::Yield,
            Action::Done(v) => Asks::Done(v),
            Action::Fail(e) => Asks::Fail(e@),
            Action::Compute { op, lhs, rhs } => Asks::Compute { op, lhs, rhs },
            Action::Native { native, args, loc } => Asks::Native { native, args: args@, loc },
            Action::Elapsed(t) => Asks::Elapsed(t),
            Action::Spawn { task, yields } => Asks::Spawn { task: task@, yields },
        }
    }
}

/// What an instruction came to; the memory has changed already.
enum Outcome {
    Next,
    Skip,
    Jump(usize),
    Wait(Action),
    Enter { code: Arc<Vec<Instruction>>, regs: Vec<u64>, dst: Option<usize> },
    Leave(Value),
    Spawn { code: Arc<Vec<Instruction>>, regs: Vec<u64> },
    Fail(JitError),
}

impl Outcome {
    spec fn effect(self, ctx: Ctx) -> Effect {
        match self {
            Outcome::Next => Effect::Next(ctx),
            Outcome::Skip => Effect::Skip(ctx),
            Outcome::Jump(pc) => Effect::Jump(pc),
            Outcome::Wait(a) => Effect::Wait(a@),
            Outcome::Enter { code, regs, dst } => Effect::Enter {
                code: code_view((*code)@),
                regs: regs@,
                dst,
            },
            Outcome::Leave(v) => Effect::Leave(v),
            Outcome::Spawn { code, regs } => Effect::Spawn {
                code: code_view((*code)@),
                regs: regs@,
            },
            Outcome::Fail(e) => Effect::Fail(e@),
        }
    }
}

/// The task has registers.
pub open spec fn has_regs(ctx: Ctx, id: usize) -> bool {
    id < ctx.tasks.len() && ctx.tasks[id as int].len() > 0
}

/// The memory is in order, the task has registers, and there is room for an
/// object.
spec fn ready(ctx: Ctx, id: usize) -> bool {
    ctx.wf() && has_regs(ctx, id) && ctx.heap.has_room()
}

spec fn n_regs(ctx: Ctx, id: usize) -> nat {
    regs_of(ctx, id).len()
}

/// The program is the same, and so are the registers of the other tasks and
/// the numbers of registers of this one.
pub open spec fn kept(a: Ctx, b: Ctx, id: usize) -> bool {
    &&& b.wf()
    &&& b.strings == a.strings
    &&& b.callables == a.callables
    &&& b.globals.len() == a.globals.len()
    &&& b.tasks.len() == a.tasks.len()
    &&& forall|t: int| 0 <= t < a.tasks.len() && t != id ==> #[trigger] b.tasks[t] == a.tasks[t]
    &&& b.tasks[id as int].len() == a.tasks[id as int].len()
    &&& forall|f: int|
        0 <= f < a.tasks[id as int].len() ==> (#[trigger] b.tasks[id as int][f]).len()
            == a.tasks[id as int][f].len()
}

/// The outcome is what the instruction amounts to.
spec fn tells(o: Outcome, a: Ctx, b: Ctx, id: usize, e: Effect) -> bool {
    &&& e == o.effect(b)
    &&& o is Next || o is Skip || b == a
    &&& kept(a, b, id)
}

proof fn lemma_put(ctx: Ctx, id: usize, r: usize, v: Value)
    requires
        ctx.wf(),
        has_regs(ctx, id),
        r < n_regs(ctx, id),
    ensures
        kept(ctx, put(ctx, id, r, v), id),
        has_regs(put(ctx, id, r, v), id),
        n_regs(put(ctx, id, r, v), id) == n_regs(ctx, id),
        put(ctx, id, r, v).heap == ctx.heap,
        put(ctx, id, r, v).globals == ctx.globals,
{
    reveal(put);
}

fn get_reg(ctx: &Context, id: usize, r: usize) -> (res: Value)
    requires
        has_regs(ctx@, id),
        r < n_regs(ctx@, id),
    ensures
        res == reg(ctx@, id, r),
{
    let stack = &ctx.active_registers[id];
    let n: usize = stack.len();
    assert(ctx@.tasks[id as int] == stack_view(stack@));
    assert(ctx@.tasks[id as int].last() == stack@[n - 1]@);
    Value::from_bits(stack[n - 1][r])
}

fn set_reg(ctx: &mut Context, id: usize, r: usize, v: Value)
    requires
        old(ctx)@.wf(),
        has_regs(old(ctx)@, id),
        r < n_regs(old(ctx)@, id),
    ensures
        final(ctx)@ == put(old(ctx)@, id, r, v),
        kept(old(ctx)@, final(ctx)@, id),
        has_regs(final(ctx)@, id),
        n_regs(final(ctx)@, id) == n_regs(old(ctx)@, id),
        final(ctx)@.heap == old(ctx)@.heap,
{
    let ghost before = ctx@;
    let n: usize = ctx.active_registers[id].len();
    assert(before.tasks[id as int] == stack_view(ctx.active_registers@[id as int]@));
    assert(before.tasks[id as int].last() == ctx.active_registers@[id as int]@[n - 1]@);
    ctx.active_registers[id][n - 1][r] = v.to_bits();
    proof {
        lemma_put(before, id, r, v);
        reveal(put);
        let w = put(before, id, r, v);
        assert(stack_view(ctx.active_registers@[id as int]@) =~= w.tasks[id as int]);
        assert(ctx@.tasks =~= w.tasks);
    }
}

fn set_reg_opt(ctx: &mut Context, id: usize, r: Option<usize>, v: Value)
    requires
        old(ctx)@.wf(),
        has_regs(old(ctx)@, id),
        opt_below(r, n_regs(old(ctx)@, id)),
    ensures
        final(ctx)@ == put_opt(old(ctx)@, id, r, v),
        kept(old(ctx)@, final(ctx)@, id),
        has_regs(final(ctx)@, id),
{
    if let Some(r) = r {
        set_reg(ctx, id, r, v);
    }
}

/// The values of several registers.
fn get_regs(ctx: &Context, id: usize, rs: &Vec<usize>) -> (res: Vec<u64>)
    requires
        has_regs(ctx@, id),
        all_below(rs@, n_regs(ctx@, id)),
    ensures
        res@ == reg_list(ctx@, id, rs@),
{
    let mut res: Vec<u64> = Vec::new();
    let mut k: usize = 0;
    while k < rs.len()
        invariant
            k <= rs@.len(),
            has_regs(ctx@, id),
            all_below(rs@, n_regs(ctx@, id)),
            res@ == reg_list(ctx@, id, rs@).take(k as int),
        decreases rs@.len() - k,
    {
        res.push(get_reg(ctx, id, rs[k]).to_bits());
        k = k + 1;
        assert(res@ =~= reg_list(ctx@, id, rs@).take(k as int));
    }
    assert(res@ =~= reg_list(ctx@, id, rs@));
    res
}

/// A new object, and the reference to it in a register.
fn make_object(ctx: &mut Context, id: usize, dst: usize, obj: ManagedObject)
    requires
        ready(old(ctx)@, id),
        dst < n_regs(old(ctx)@, id),
    ensures
        final(ctx)@ == make(old(ctx)@, id, dst, obj@),
        kept(old(ctx)@, final(ctx)@, id),
{
    let oid: u32 = ctx.allocate(obj);
    set_reg(ctx, id, dst, Value::object(oid));
}

/// A text in a register.
fn make_string(ctx: &mut Context, id: usize, dst: usize, s: String)
    requires
        ready(old(ctx)@, id),
        dst < n_regs(old(ctx)@, id),
    ensures
        final(ctx)@ == make_text(old(ctx)@, id, dst, s@),
        kept(old(ctx)@, final(ctx)@, id),
{
    reveal(make_text);
    match Value::sso(s.as_str()) {
        Some(v) => set_reg(ctx, id, dst, v),
        None => make_object(ctx, id, dst, ManagedObject::String(s)),
    }
}

fn fail_with(msg: &str, loc: Loc) -> (res: Outcome)
    ensures
        res matches Outcome::Fail(e) && e@ == runtime(msg@, loc),
        forall|c: Ctx| #[trigger] res.effect(c) == fail(msg@, loc),
{
    Outcome::Fail(JitError::runtime(msg, loc.line as usize, loc.col as usize))
}

fn run_arith(ctx: &Context, id: usize, op: Arith, lhs: usize, rhs: usize, loc: Loc) -> (res: Outcome)
    requires
        ready(ctx@, id),
        lhs < n_regs(ctx@, id),
        rhs < n_regs(ctx@, id),
    ensures
        tells(res, ctx@, ctx@, id, arith(ctx@, id, op, lhs, rhs, loc)),
{
    reveal(arith);
    let l = get_reg(ctx, id, lhs).as_number();
    let r = get_reg(ctx, id, rhs).as_number();
    match (l, r) {
        (Some(lhs), Some(rhs)) => Outcome::Wait(Action::Compute { op, lhs, rhs }),
        _ => {
            let mut msg = String::new();
            msg.append("Math error: expected numbers for '");
            match op {
                Arith::Add => msg.append("+"),
                Arith::Sub => msg.append("-"),
                Arith::Mul => msg.append("*"),
                Arith::Div => msg.append("/"),
            }
            msg.append("'");
            fail_with(msg.as_str(), loc)
        },
    }
}

fn relate(rel: Relation, l: u64, r: u64) -> (res: bool)
    requires
        crate::number::is_finite(l),
        crate::number::is_finite(r),
    ensures
        res == related(rel, l, r),
{
    match rel {
        Relation::Lt => less_than(l, r),
        Relation::Le => !less_than(r, l),
        Relation::Gt => less_than(r, l),
        Relation::Ge => !less_than(l, r),
    }
}

fn run_compare(
    ctx: &mut Context,
    id: usize,
    rel: Relation,
    dst: usize,
    lhs: usize,
    rhs: usize,
    loc: Loc,
) -> (res: Outcome)
    requires
        ready(old(ctx)@, id),
        dst < n_regs(old(ctx)@, id),
        lhs < n_regs(old(ctx)@, id),
        rhs < n_regs(old(ctx)@, id),
    ensures
        tells(
            res,
            old(ctx)@,
            final(ctx)@,
            id,
            compared(old(ctx)@, id, rel, dst, lhs, rhs, loc),
        ),
{
    reveal(compared);
    let l = get_reg(ctx, id, lhs).as_number();
    let r = get_reg(ctx, id, rhs).as_number();
    match (l, r) {
        (Some(l), Some(r)) => {
            let b = relate(rel, l, r);
            set_reg(ctx, id, dst, Value::bool(b));
            Outcome::Next
        },
        _ => {
            let mut msg = String::new();
            msg.append("Compare error: expected numbers for '");
            match rel {
                Relation::Lt => msg.append("<"),
                Relation::Le => msg.append("<="),
                Relation::Gt => msg.append(">"),
                Relation::Ge => msg.append(">="),
            }
            msg.append("'");
            fail_with(msg.as_str(), loc)
        },
    }
}

fn run_add(ctx: &mut Context, id: usize, dst: usize, lhs: usize, rhs: usize, loc: Loc) -> (res: Outcome)
    requires
        ready(old(ctx)@, id),
        dst < n_regs(old(ctx)@, id),
        lhs < n_regs(old(ctx)@, id),
        rhs < n_regs(old(ctx)@, id),
    ensures
        tells(res, old(ctx)@, final(ctx)@, id, e_add(old(ctx)@, id, dst, lhs, rhs, loc)),
{
    reveal(e_add);
    let l = get_reg(ctx, id, lhs);
    let r = get_reg(ctx, id, rhs);
    if let (Some(x), Some(y)) = (l.as_number(), r.as_number()) {
        return Outcome::Wait(Action::Compute { op: Arith::Add, lhs: x, rhs: y });
    }
    match (l.as_string(ctx), r.as_string(ctx)) {
        (Some(s), Some(t)) => {
            let mut joined = String::new();
            joined.append(s.as_str());
            joined.append(t.as_str());
            assert(joined@ =~= s@ + t@);
            make_string(ctx, id, dst, joined);
            Outcome::Next
        },
        _ => fail_with("Add error: expected numbers or strings", loc),
    }
}

fn run_increment(ctx: &Context, bits: u64, id: usize) -> (res: Outcome)
    requires
        ctx@.wf(),
    ensures
        tells(res, ctx@, ctx@, id, e_increment(ctx@, bits)),
{
    reveal(e_increment);
    match Value::from_bits(bits).as_number() {
        Some(n) => Outcome::Wait(Action::Compute { op: Arith::Add, lhs: n, rhs: ONE }),
        None => Outcome::Next,
    }
}

fn run_range(
    ctx: &mut Context,
    id: usize,
    dst: usize,
    start: usize,
    end: usize,
    step: Option<usize>,
    loc: Loc,
) -> (res: Outcome)
    requires
        ready(old(ctx)@, id),
        dst < n_regs(old(ctx)@, id),
        start < n_regs(old(ctx)@, id),
        end < n_regs(old(ctx)@, id),
        opt_below(step, n_regs(old(ctx)@, id)),
    ensures
        tells(res, old(ctx)@, final(ctx)@, id, e_range(old(ctx)@, id, dst, start, end, step, loc)),
{
    reveal(e_range);
    let s: u64 = match get_reg(ctx, id, start).as_number() {
        Some(n) => n,
        None => {
            return fail_with("Range start must be a number", loc);
        },
    };
    let e: u64 = match get_reg(ctx, id, end).as_number() {
        Some(n) => n,
        None => {
            return fail_with("Range end must be a number", loc);
        },
    };
    let t: u64 = match step {
        Some(r) => match get_reg(ctx, id, r).as_number() {
            Some(n) => n,
            None => {
                return fail_with("Range step must be a number", loc);
            },
        },
        None => ONE,
    };
    make_object(ctx, id, dst, ManagedObject::Range { start: s, end: e, step: t });
    Outcome::Next
}

/// The parts of a range.
fn parts_of_range(ctx: &Context, v: Value) -> (res: (u64, u64, u64))
    ensures
        res == range_parts(ctx@, v),
{
    match ctx.deref(v) {
        Some(ManagedObject::Range { start, end, step }) => (*start, *end, *step),
        _ => (0, 0, ONE),
    }
}

fn run_range_info(
    ctx: &mut Context,
    id: usize,
    range: usize,
    start_dst: usize,
    end_dst: usize,
    step_dst: usize,
) -> (res: Outcome)
    requires
        ready(old(ctx)@, id),
        range < n_regs(old(ctx)@, id),
        start_dst < n_regs(old(ctx)@, id),
        end_dst < n_regs(old(ctx)@, id),
        step_dst < n_regs(old(ctx)@, id),
    ensures
        tells(
            res,
            old(ctx)@,
            final(ctx)@,
            id,
            e_range_info(old(ctx)@, id, range, start_dst, end_dst, step_dst),
        ),
{
    reveal(e_range_info);
    let v = get_reg(ctx, id, range);
    let (s, e, t) = parts_of_range(ctx, v);
    set_reg(ctx, id, start_dst, Value::number(s));
    set_reg(ctx, id, end_dst, Value::number(e));
    set_reg(ctx, id, step_dst, Value::number(t));
    Outcome::Next
}

/// A list of zeros.
fn zero_list(n: usize) -> (res: Vec<u64>)
    ensures
        res@ == zeros(n as nat),
{
    let mut res: Vec<u64> = Vec::new();
    let mut k: usize = 0;
    while k < n
        invariant
            k <= n,
            res@ == zeros(k as nat),
        decreases n - k,
    {
        res.push(0);
        k = k + 1;
        assert(res@ =~= zeros(k as nat));
    }
    assert(res@ =~= zeros(n as nat));
    res
}

/// The error of an index that a list does not have.
fn no_such_index(index: usize, len: usize, loc: Loc) -> (res: Outcome)
    ensures
        res is Fail,
        forall|c: Ctx| #[trigger] res.effect(c) == out_of_bounds(index, len as nat, loc),
{
    let mut msg = String::new();
    msg.append("Index out of bounds: ");
    push_decimal(&mut msg, index);
    msg.append(" for list of length ");
    push_decimal(&mut msg, len);
    assert(msg@ =~= "Index out of bounds: "@ + decimal(index as nat) + " for list of length "@
        + decimal(len as nat));
    fail_with(msg.as_str(), loc)
}

fn run_list_get(
    ctx: &mut Context,
    id: usize,
    dst: usize,
    list: usize,
    index_reg: usize,
    loc: Loc,
) -> (res: Outcome)
    requires
        ready(old(ctx)@, id),
        dst < n_regs(old(ctx)@, id),
        list < n_regs(old(ctx)@, id),
        index_reg < n_regs(old(ctx)@, id),
    ensures
        tells(res, old(ctx)@, final(ctx)@, id, e_list_get(old(ctx)@, id, dst, list, index_reg, loc)),
{
    reveal(e_list_get);
    let index: usize = match get_reg(ctx, id, index_reg).as_number() {
        Some(n) => to_index(n),
        None => {
            return fail_with("List index must be a number", loc);
        },
    };
    let v = get_reg(ctx, id, list);
    let bits: u64 = match ctx.deref(v) {
        Some(ManagedObject::List(l)) => {
            if index < l.len() {
                l[index]
            } else {
                return no_such_index(index, l.len(), loc);
            }
        },
        _ => {
            return fail_with("Expected list for indexing", loc);
        },
    };
    set_reg(ctx, id, dst, Value::from_bits(bits));
    Outcome::Next
}

/// Other contents leave the heap in order.
proof fn lemma_set_object(ctx: Ctx, oid: u32, obj: ObjView, id: usize)
    requires
        ctx.wf(),
        ctx.object(oid) is Some,
    ensures
        kept(ctx, set_object(ctx, oid, obj), id),
        set_object(ctx, oid, obj).tasks == ctx.tasks,
        set_object(ctx, oid, obj).globals == ctx.globals,
        live(set_object(ctx, oid, obj).heap.slots, oid),
{
    reveal(set_object);
    let a = ctx.heap;
    let b = set_object(ctx, oid, obj).heap;
    assert forall|i: int| 0 <= i < b.free.len() implies (#[trigger] b.free[i]) < b.slots.len()
        && b.slots[b.free[i] as int] is None by {
        assert(a.slots[a.free[i] as int] is None);
    }
    assert forall|k: int| 0 <= k < b.slots.len() && #[trigger] b.slots[k] is None implies
        b.free.contains(k as u32) by {
        assert(a.slots[k] is None);
    }
    assert forall|i: int| 0 <= i < b.nursery.len() implies is_young(b.slots, #[trigger] b.nursery[i]) by {
        assert(is_young(a.slots, a.nursery[i]));
    }
    assert forall|x: u32| #[trigger] is_young(b.slots, x) implies b.nursery.contains(x) by {
        assert(is_young(a.slots, x));
    }
}

proof fn lemma_barrier(ctx: Ctx, oid: u32, bits: u64, id: usize)
    requires
        ctx.wf(),
    ensures
        kept(ctx, barrier(ctx, oid, bits), id),
        barrier(ctx, oid, bits).tasks == ctx.tasks,
{
    reveal(barrier);
}

/// Remembers an old object that has taken in a reference to a young one.
fn remember(ctx: &mut Context, oid: u32, bits: u64)
    requires
        old(ctx)@.wf(),
        live(old(ctx)@.heap.slots, oid),
    ensures
        final(ctx)@ == barrier(old(ctx)@, oid, bits),
{
    reveal(barrier);
    let i: usize = oid as usize;
    assert(ctx@.heap.slots[i as int] == opt_view(ctx.heap.objects@[i as int]));
    let old_one = match &ctx.heap.objects[i] {
        Some(o) => o.generation == Generation::Tenured,
        None => false,
    };
    if !old_one {
        return ;
    }
    if let Some(src) = Value::from_bits(bits).as_obj_id() {
        let j: usize = src as usize;
        if j < ctx.heap.objects.len() {
            assert(ctx@.heap.slots[j as int] == opt_view(ctx.heap.objects@[j as int]));
            let young = match &ctx.heap.objects[j] {
                Some(o) => o.generation == Generation::Nursery,
                None => false,
            };
            if young {
                slot_set_insert(&mut ctx.heap.metadata.remembered_set, oid);
            }
        }
    }
}

/// Makes a list long enough.
fn grow(l: &mut Vec<u64>, n: usize, fill: u64)
    ensures
        final(l)@ == grown(old(l)@, n as nat, fill),
{
    let ghost before = l@;
    assert(grown(before, before.len(), fill) =~= before);
    while l.len() < n
        invariant
            before.len() <= l@.len(),
            l@.len() <= n || l@ == before,
            l@ == before + Seq::new((l@.len() - before.len()) as nat, |k: int| fill),
        decreases n - l@.len(),
    {
        let ghost m = l@.len();
        l.push(fill);
        assert(l@ =~= before + Seq::new((l@.len() - before.len()) as nat, |k: int| fill));
    }
    assert(l@ =~= grown(before, n as nat, fill));
}

/// Puts a value into an element of the list in a slot.
fn store_element(ctx: &mut Context, oid: u32, index: usize, bits: u64, Ghost(l): Ghost<Seq<u64>>)
    requires
        old(ctx)@.wf(),
        old(ctx)@.object(oid) == Some(ObjView::List(l)),
        index < usize::MAX,
    ensures
        final(ctx)@ == set_object(
            old(ctx)@,
            oid,
            ObjView::List(grown(l, (index + 1) as nat, 0).update(index as int, bits)),
        ),
{
    reveal(set_object);
    let ghost before = ctx@;
    let i: usize = oid as usize;
    assert(before.heap.slots[i as int] == opt_view(ctx.heap.objects@[i as int]));
    if let Some(o) = &mut ctx.heap.objects[i] {
        if let ManagedObject::List(v) = &mut o.obj {
            grow(v, index + 1, 0);
            v.set(index, bits);
        }
    }
    proof {
        let after = set_object(
            before,
            oid,
            ObjView::List(grown(l, (index + 1) as nat, 0).update(index as int, bits)),
        );
        assert(ctx@.heap.slots =~= after.heap.slots);
    }
}

fn run_list_set(
    ctx: &mut Context,
    id: usize,
    list: usize,
    index_reg: usize,
    src: usize,
    loc: Loc,
) -> (res: Outcome)
    requires
        ready(old(ctx)@, id),
        list < n_regs(old(ctx)@, id),
        index_reg < n_regs(old(ctx)@, id),
        src < n_regs(old(ctx)@, id),
    ensures
        tells(res, old(ctx)@, final(ctx)@, id, e_list_set(old(ctx)@, id, list, index_reg, src, loc)),
{
    reveal(e_list_set);
    let ghost before = ctx@;
    let index: usize = match get_reg(ctx, id, index_reg).as_number() {
        Some(n) => to_index(n),
        None => {
            return fail_with("List index must be a number", loc);
        },
    };
    let target = get_reg(ctx, id, list);
    let bits: u64 = get_reg(ctx, id, src).to_bits();
    let len: usize = match ctx.deref(target) {
        Some(ManagedObject::List(l)) => l.len(),
        _ => {
            return fail_with("Expected list for indexing", loc);
        },
    };
    if index == usize::MAX {
        return no_such_index(index, len, loc);
    }
    match target.as_obj_id() {
        Some(oid) => {
            let ghost l = before.deref(target)->0->List_0;
            store_element(ctx, oid, index, bits, Ghost(l));
            let ghost stored = ctx@;
            proof {
                lemma_set_object(
                    before,
                    oid,
                    ObjView::List(grown(l, (index + 1) as nat, 0).update(index as int, bits)),
                    id,
                );
            }
            remember(ctx, oid, bits);
            proof {
                lemma_barrier(stored, oid, bits, id);
            }
            Outcome::Next
        },
        None => Outcome::Next,
    }
}

/// What a property access comes to.
enum Property {
    Bits(u64),
    Method,
    Elapsed(u64),
    Nothing,
}

fn run_object_get(
    ctx: &mut Context,
    id: usize,
    dst: usize,
    obj: usize,
    name_id: u32,
    loc: Loc,
) -> (res: Outcome)
    requires
        ready(old(ctx)@, id),
        dst < n_regs(old(ctx)@, id),
        obj < n_regs(old(ctx)@, id),
    ensures
        tells(res, old(ctx)@, final(ctx)@, id, e_object_get(old(ctx)@, id, dst, obj, name_id, loc)),
{
    reveal(e_object_get);
    let v = get_reg(ctx, id, obj);
    let name = ctx.pool_name(name_id);
    let found = match ctx.deref(v) {
        Some(ManagedObject::Object(m)) => match fields_get(m, name_id) {
            Some(bits) => Property::Bits(bits),
            None => Property::Bits(0),
        },
        Some(ManagedObject::Timestamp(t)) => if same_text(name, "elapsed") {
            Property::Elapsed(*t)
        } else {
            Property::Bits(0)
        },
        Some(ManagedObject::List(_)) => if same_text(name, "pad") {
            Property::Method
        } else {
            Property::Bits(0)
        },
        Some(ManagedObject::Range { start, end, .. }) => if same_text(name, "start") {
            Property::Bits(*start)
        } else if same_text(name, "end") {
            Property::Bits(*end)
        } else if same_text(name, "step") {
            Property::Method
        } else {
            Property::Bits(0)
        },
        _ => Property::Nothing,
    };
    match found {
        Property::Bits(bits) => {
            set_reg(ctx, id, dst, Value::from_bits(bits));
            Outcome::Next
        },
        Property::Method => {
            make_object(ctx, id, dst, ManagedObject::BoundMethod { receiver: v, name_id });
            Outcome::Next
        },
        Property::Elapsed(t) => Outcome::Wait(Action::Elapsed(t)),
        Property::Nothing => fail_with("Expected object for property access", loc),
    }
}

/// Puts a value into a field of the object in a slot.
fn store_field(ctx: &mut Context, oid: u32, name_id: u32, bits: u64, Ghost(m): Ghost<Map<u32, u64>>)
    requires
        old(ctx)@.wf(),
        old(ctx)@.object(oid) == Some(ObjView::Object(m)),
    ensures
        final(ctx)@ == set_object(old(ctx)@, oid, ObjView::Object(m.insert(name_id, bits))),
{
    reveal(set_object);
    let ghost before = ctx@;
    let i: usize = oid as usize;
    assert(before.heap.slots[i as int] == opt_view(ctx.heap.objects@[i as int]));
    if let Some(o) = &mut ctx.heap.objects[i] {
        if let ManagedObject::Object(f) = &mut o.obj {
            fields_insert(f, name_id, bits);
        }
    }
    proof {
        let after = set_object(before, oid, ObjView::Object(m.insert(name_id, bits)));
        assert(ctx@.heap.slots =~= after.heap.slots);
    }
}

fn run_object_set(
    ctx: &mut Context,
    id: usize,
    obj: usize,
    name_id: u32,
    src: usize,
    loc: Loc,
) -> (res: Outcome)
    requires
        ready(old(ctx)@, id),
        obj < n_regs(old(ctx)@, id),
        src < n_regs(old(ctx)@, id),
    ensures
        tells(res, old(ctx)@, final(ctx)@, id, e_object_set(old(ctx)@, id, obj, name_id, src, loc)),
{
    reveal(e_object_set);
    let ghost before = ctx@;
    let v = get_reg(ctx, id, obj);
    let bits: u64 = get_reg(ctx, id, src).to_bits();
    let is_object = match ctx.deref(v) {
        Some(ManagedObject::Object(_)) => true,
        _ => false,
    };
    if !is_object {
        return fail_with("Expected object for property assignment", loc);
    }
    match v.as_obj_id() {
        Some(oid) => {
            let ghost m = before.deref(v)->0->Object_0;
            store_field(ctx, oid, name_id, bits, Ghost(m));
            let ghost stored = ctx@;
            proof {
                lemma_set_object(before, oid, ObjView::Object(m.insert(name_id, bits)), id);
            }
            remember(ctx, oid, bits);
            proof {
                lemma_barrier(stored, oid, bits, id);
            }
            Outcome::Next
        },
        None => Outcome::Next,
    }
}

/// The registers of a call: the arguments first, as far as there is room.
pub fn build_call_registers(func_locals: usize, args: &Vec<u64>) -> (res: Vec<u64>)
    ensures
        res@ == call_regs(func_locals as nat, args@),
        res@.len() == func_locals,
        forall|k: int| 0 <= k < func_locals && k < args@.len() ==> #[trigger] res@[k] == args@[k],
        forall|k: int| args@.len() <= k < func_locals ==> #[trigger] res@[k] == 0,
{
    reveal(call_regs);
    let mut res: Vec<u64> = Vec::new();
    let mut k: usize = 0;
    while k < func_locals
        invariant
            k <= func_locals,
            res@.len() == k,
            forall|j: int|
                0 <= j < k ==> res@[j] == (if j < args@.len() {
                    args@[j]
                } else {
                    0
                }),
        decreases func_locals - k,
    {
        res.push(
            if k < args.len() {
                args[k]
            } else {
                0
            },
        );
        k = k + 1;
    }
    assert(res@ =~= call_regs(func_locals as nat, args@));
    res
}

/// The registers of a call or a task, all zero.
pub fn make_registers(count: usize) -> (res: Vec<u64>)
    ensures
        res@ == zeros(count as nat),
{
    zero_list(count)
}

/// `Arc::clone` gives another handle to the same code.
#[verifier::external_body]
pub(crate) fn share(code: &Arc<Vec<Instruction>>) -> (res: Arc<Vec<Instruction>>)
    ensures
        res == *code,
{
    Arc::clone(code)
}

/// A call of a function with arguments.
fn dispatch(c: &Callable, args: Vec<u64>, dst: Option<usize>, loc: Loc) -> (res: Outcome)
    ensures
        !(res is Next) && !(res is Skip),
        forall|x: Ctx| #[trigger] res.effect(x) == invoke(c@, args@, dst, loc),
{
    match c {
        Callable::User(f) => {
            let regs = build_call_registers(f.locals_count, &args);
            Outcome::Enter { code: share(&f.instructions), regs, dst }
        },
        Callable::Native(native) => Outcome::Wait(Action::Native { native: *native, args, loc }),
    }
}

fn run_call(
    ctx: &Context,
    id: usize,
    name_id: u32,
    args_regs: &Vec<usize>,
    dst: Option<usize>,
    loc: Loc,
) -> (res: Outcome)
    requires
        ready(ctx@, id),
        name_id < ctx@.strings.len(),
        all_below(args_regs@, n_regs(ctx@, id)),
    ensures
        tells(res, ctx@, ctx@, id, e_call(ctx@, id, name_id, args_regs@, dst, loc)),
{
    reveal(e_call);
    match ctx.get_callable(name_id) {
        None => {
            let mut msg = String::new();
            msg.append("Unknown function: ");
            msg.append(ctx.pool_name(name_id));
            fail_with(msg.as_str(), loc)
        },
        Some(c) => {
            if let Callable::User(f) = c {
                if args_regs.len() != f.params_count {
                    let mut msg = String::new();
                    msg.append("Function arity mismatch: expected ");
                    push_decimal(&mut msg, f.params_count);
                    msg.append(", got ");
                    push_decimal(&mut msg, args_regs.len());
                    assert(msg@ =~= "Function arity mismatch: expected "@ + decimal(
                        f.params_count as nat,
                    ) + ", got "@ + decimal(args_regs@.len()));
                    return fail_with(msg.as_str(), loc);
                }
            }
            let args = get_regs(ctx, id, args_regs);
            dispatch(c, args, dst, loc)
        },
    }
}

/// The number that an argument is, or another where it is none.
fn number_arg(args: &Vec<u64>, k: usize, other: u64) -> (res: u64)
    requires
        crate::number::is_finite(other),
    ensures
        res == arg_number(args@, k as int, other),
        crate::number::is_finite(res),
{
    if k < args.len() {
        match Value::from_bits(args[k]).as_number() {
            Some(n) => n,
            None => other,
        }
    } else {
        other
    }
}

/// Makes the list in a slot long enough.
fn pad_list(ctx: &mut Context, oid: u32, n: usize, fill: u64, Ghost(l): Ghost<Seq<u64>>)
    requires
        old(ctx)@.wf(),
        old(ctx)@.object(oid) == Some(ObjView::List(l)),
    ensures
        final(ctx)@ == set_object(old(ctx)@, oid, ObjView::List(grown(l, n as nat, fill))),
{
    reveal(set_object);
    let ghost before = ctx@;
    let i: usize = oid as usize;
    assert(before.heap.slots[i as int] == opt_view(ctx.heap.objects@[i as int]));
    if let Some(o) = &mut ctx.heap.objects[i] {
        if let ManagedObject::List(v) = &mut o.obj {
            grow(v, n, fill);
        }
    }
    proof {
        let after = set_object(before, oid, ObjView::List(grown(l, n as nat, fill)));
        assert(ctx@.heap.slots =~= after.heap.slots);
    }
}

fn run_method(
    ctx: &mut Context,
    id: usize,
    receiver: Value,
    name: &str,
    args: Vec<u64>,
    dst: Option<usize>,
    loc: Loc,
) -> (res: Outcome)
    requires
        ready(old(ctx)@, id),
        opt_below(dst, n_regs(old(ctx)@, id)),
    ensures
        tells(
            res,
            old(ctx)@,
            final(ctx)@,
            id,
            e_method(old(ctx)@, id, receiver, name@, args@, dst, loc),
        ),
{
    reveal(e_method);
    let ghost before = ctx@;
    proof {
        lemma_plain_numbers();
    }
    if same_text(name, "pad") {
        let is_list = match ctx.deref(receiver) {
            Some(ManagedObject::List(_)) => true,
            _ => false,
        };
        if is_list {
            if let Some(oid) = receiver.as_obj_id() {
                let n: usize = to_index(number_arg(&args, 0, 0));
                let fill: u64 = if args.len() > 1 {
                    args[1]
                } else {
                    0
                };
                let ghost l = before.deref(receiver)->0->List_0;
                pad_list(ctx, oid, n, fill, Ghost(l));
                proof {
                    lemma_set_object(
                        before,
                        oid,
                        ObjView::List(grown(l, n as nat, fill)),
                        id,
                    );
                }
            }
        }
        return Outcome::Skip;
    }
    let range = match ctx.deref(receiver) {
        Some(ManagedObject::Range { start, end, .. }) => Some((*start, *end)),
        _ => None,
    };
    if same_text(name, "step") {
        if let Some((start, end)) = range {
            let step: u64 = number_arg(&args, 0, ONE);
            let oid: u32 = ctx.allocate(ManagedObject::Range { start, end, step });
            set_reg_opt(ctx, id, dst, Value::object(oid));
            return Outcome::Skip;
        }
    }
    let mut msg = String::new();
    msg.append("Unknown method '");
    msg.append(name);
    msg.append("'");
    fail_with(msg.as_str(), loc)
}

/// Zero and one are finite.
proof fn lemma_plain_numbers()
    ensures
        crate::number::is_finite(0),
        crate::number::is_finite(ONE),
{
    assert(0u64 & 0x7ff0000000000000u64 != 0x7ff0000000000000u64) by (bit_vector);
    assert(0x3ff0000000000000u64 & 0x7ff0000000000000u64 != 0x7ff0000000000000u64) by (bit_vector);
}

proof fn lemma_first_place(strings: Seq<Seq<char>>, s: Seq<char>, from: int)
    requires
        0 <= from,
    ensures
        first_place(strings, s, from) matches Some(k) ==> from <= k < strings.len(),
    decreases strings.len() - from,
{
    if from < strings.len() && strings[from] != s {
        lemma_first_place(strings, s, from + 1);
    }
}

fn run_call_dynamic(
    ctx: &mut Context,
    id: usize,
    callee_reg: usize,
    args_regs: &Vec<usize>,
    dst: Option<usize>,
    loc: Loc,
) -> (res: Outcome)
    requires
        ready(old(ctx)@, id),
        callee_reg < n_regs(old(ctx)@, id),
        all_below(args_regs@, n_regs(old(ctx)@, id)),
        opt_below(dst, n_regs(old(ctx)@, id)),
    ensures
        tells(
            res,
            old(ctx)@,
            final(ctx)@,
            id,
            e_call_dynamic(old(ctx)@, id, callee_reg, args_regs@, dst, loc),
        ),
{
    reveal(e_call_dynamic);
    let callee = get_reg(ctx, id, callee_reg);
    let args = get_regs(ctx, id, args_regs);
    let method = match ctx.deref(callee) {
        Some(ManagedObject::BoundMethod { receiver, name_id }) => Some((*receiver, *name_id)),
        _ => None,
    };
    if let Some((receiver, name_id)) = method {
        let name = ctx.pool_name(name_id).to_owned();
        return run_method(ctx, id, receiver, name.as_str(), args, dst, loc);
    }
    match ctx.value_as_pool_id(callee) {
        None => fail_with("Callee is not a known function name", loc),
        Some(name_id) => {
            proof {
                lemma_pool_id(ctx@, callee);
            }
            match ctx.get_callable(name_id) {
                None => {
                    let mut msg = String::new();
                    msg.append("Dynamic call: unknown function '");
                    msg.append(ctx.pool_name(name_id));
                    msg.append("'");
                    fail_with(msg.as_str(), loc)
                },
                Some(c) => dispatch(c, args, dst, loc),
            }
        },
    }
}

proof fn lemma_pool_id(ctx: Ctx, v: Value)
    requires
        ctx.wf(),
    ensures
        ctx.pool_id(v) matches Some(k) ==> k < ctx.strings.len(),
{
    match v.kind() {
        crate::value::Kind::Text(bytes) => {
            lemma_first_place(ctx.strings, vstd::utf8::decode_utf8(bytes), 0);
        },
        crate::value::Kind::Object(id) => {
            if let Some(ObjView::Text(s)) = ctx.object(id) {
                lemma_first_place(ctx.strings, s, 0);
            }
        },
        _ => {},
    }
}

/// The registers of a spawned task: those captured, and zeros.
fn captured(ctx: &Context, id: usize, locals_count: usize, captures: &Vec<usize>) -> (res: Vec<u64>)
    requires
        has_regs(ctx@, id),
        all_below(captures@, n_regs(ctx@, id)),
        all_below(captures@, locals_count as nat),
    ensures
        res@ == spawn_regs(regs_of(ctx@, id), locals_count as nat, captures@),
{
    reveal(spawn_regs);
    let ghost regs = regs_of(ctx@, id);
    let mut res = make_registers(locals_count);
    let mut k: usize = 0;
    assert(res@ =~= spawn_regs(regs, locals_count as nat, captures@.take(0)));
    while k < captures.len()
        invariant
            k <= captures@.len(),
            has_regs(ctx@, id),
            regs == regs_of(ctx@, id),
            all_below(captures@, n_regs(ctx@, id)),
            all_below(captures@, locals_count as nat),
            res@.len() == locals_count,
            res@ == spawn_regs(regs, locals_count as nat, captures@.take(k as int)),
        decreases captures@.len() - k,
    {
        let r: usize = captures[k];
        let ghost before = res@;
        let bits: u64 = get_reg(ctx, id, r).to_bits();
        res.set(r, bits);
        proof {
            reveal(spawn_regs);
            let a = captures@.take(k as int);
            let b = captures@.take(k + 1);
            let w = spawn_regs(regs, locals_count as nat, b);
            assert forall|j: int| 0 <= j < locals_count implies #[trigger] res@[j] == w[j] by {
                if j == r {
                    assert(b[k as int] == r);
                    assert(b.contains(j as usize));
                } else {
                    assert(before[j] == res@[j]);
                    if b.contains(j as usize) {
                        let i = choose|i: int| 0 <= i < b.len() && b[i] == j as usize;
                        assert(a[i] == j as usize);
                    }
                    if a.contains(j as usize) {
                        let i = choose|i: int| 0 <= i < a.len() && a[i] == j as usize;
                        assert(b[i] == j as usize);
                    }
                }
            }
            assert(res@ =~= w);
        }
        k = k + 1;
    }
    assert(captures@.take(captures@.len() as int) =~= captures@);
    res
}

/// Runs one instruction as far as the memory is concerned.
fn run_op(ctx: &mut Context, id: usize, i: &Instruction) -> (res: Outcome)
    requires
        ready(old(ctx)@, id),
        op_ok(op_view(*i), bounds(old(ctx)@, n_regs(old(ctx)@, id))),
    ensures
        tells(res, old(ctx)@, final(ctx)@, id, effect(old(ctx)@, id, op_view(*i))),
{
    reveal(effect);
    reveal(plain_effect);
    match i {
        Instruction::LoadLiteral { dst, val } => {
            set_reg(ctx, id, *dst, *val);
            Outcome::Next
        },
        Instruction::Move { dst, src } => {
            let v = get_reg(ctx, id, *src);
            set_reg(ctx, id, *dst, v);
            Outcome::Next
        },
        Instruction::LoadGlobal { dst, global } => {
            let bits: u64 = ctx.globals[*global];
            set_reg(ctx, id, *dst, Value::from_bits(bits));
            Outcome::Next
        },
        Instruction::StoreGlobal { global, src } => {
            let bits: u64 = get_reg(ctx, id, *src).to_bits();
            ctx.globals.set(*global, bits);
            Outcome::Next
        },
        Instruction::Jump(target) => Outcome::Jump(*target),
        Instruction::JumpIfFalse { cond, target } => {
            if get_reg(ctx, id, *cond).is_truthy() {
                Outcome::Next
            } else {
                Outcome::Jump(*target)
            }
        },
        Instruction::Add { dst, lhs, rhs, loc } => run_add(ctx, id, *dst, *lhs, *rhs, *loc),
        Instruction::Sub { dst: _, lhs, rhs, loc } => run_arith(
            ctx,
            id,
            Arith::Sub,
            *lhs,
            *rhs,
            *loc,
        ),
        Instruction::Mul { dst: _, lhs, rhs, loc } => run_arith(
            ctx,
            id,
            Arith::Mul,
            *lhs,
            *rhs,
            *loc,
        ),
        Instruction::Div { dst: _, lhs, rhs, loc } => run_arith(
            ctx,
            id,
            Arith::Div,
            *lhs,
            *rhs,
            *loc,
        ),
        Instruction::Increment(r) => {
            let bits: u64 = get_reg(ctx, id, *r).to_bits();
            run_increment(ctx, bits, id)
        },
        Instruction::IncrementGlobal(g) => {
            let bits: u64 = ctx.globals[*g];
            run_increment(ctx, bits, id)
        },
        Instruction::Eq { dst, lhs, rhs } => {
            let l = get_reg(ctx, id, *lhs);
            let r = get_reg(ctx, id, *rhs);
            let b = ctx.values_equal(l, r);
            set_reg(ctx, id, *dst, Value::bool(b));
            Outcome::Next
        },
        Instruction::Ne { dst, lhs, rhs } => {
            let l = get_reg(ctx, id, *lhs);
            let r = get_reg(ctx, id, *rhs);
            let b = ctx.values_equal(l, r);
            set_reg(ctx, id, *dst, Value::bool(!b));
            Outcome::Next
        },
        Instruction::Lt { dst, lhs, rhs, loc } => run_compare(
            ctx,
            id,
            Relation::Lt,
            *dst,
            *lhs,
            *rhs,
            *loc,
        ),
        Instruction::Le { dst, lhs, rhs, loc } => run_compare(
            ctx,
            id,
            Relation::Le,
            *dst,
            *lhs,
            *rhs,
            *loc,
        ),
        Instruction::Gt { dst, lhs, rhs, loc } => run_compare(
            ctx,
            id,
            Relation::Gt,
            *dst,
            *lhs,
            *rhs,
            *loc,
        ),
        Instruction::Ge { dst, lhs, rhs, loc } => run_compare(
            ctx,
            id,
            Relation::Ge,
            *dst,
            *lhs,
            *rhs,
            *loc,
        ),
        Instruction::Not { dst, src, loc: _ } => {
            let b = get_reg(ctx, id, *src).is_truthy();
            set_reg(ctx, id, *dst, Value::bool(!b));
            Outcome::Next
        },
        Instruction::Range { dst, start, end, step, loc } => run_range(
            ctx,
            id,
            *dst,
            *start,
            *end,
            *step,
            *loc,
        ),
        Instruction::RangeInfo { range, start_dst, end_dst, step_dst } => run_range_info(
            ctx,
            id,
            *range,
            *start_dst,
            *end_dst,
            *step_dst,
        ),
        Instruction::Spawn { instructions, locals_count, captures } => {
            let regs = captured(ctx, id, *locals_count, captures);
            Outcome::Spawn { code: share(instructions), regs }
        },
        Instruction::NewList { dst, len } => {
            let l = zero_list(*len);
            make_object(ctx, id, *dst, ManagedObject::List(l));
            Outcome::Next
        },
        Instruction::ListGet { dst, list, index_reg, loc } => run_list_get(
            ctx,
            id,
            *dst,
            *list,
            *index_reg,
            *loc,
        ),
        Instruction::ListSet { list, index_reg, src, loc } => run_list_set(
            ctx,
            id,
            *list,
            *index_reg,
            *src,
            *loc,
        ),
        Instruction::NewObject { dst, capacity: _ } => {
            make_object(ctx, id, *dst, ManagedObject::Object(fields_new()));
            Outcome::Next
        },
        Instruction::ObjectGet { dst, obj, name_id, loc } => run_object_get(
            ctx,
            id,
            *dst,
            *obj,
            *name_id,
            *loc,
        ),
        Instruction::ObjectSet { obj, name_id, src, loc } => run_object_set(
            ctx,
            id,
            *obj,
            *name_id,
            *src,
            *loc,
        ),
        Instruction::Call { name_id, args_regs, dst, loc } => run_call(
            ctx,
            id,
            *name_id,
            args_regs,
            *dst,
            *loc,
        ),
        Instruction::CallDynamic { callee_reg, args_regs, dst, loc } => run_call_dynamic(
            ctx,
            id,
            *callee_reg,
            args_regs,
            *dst,
            *loc,
        ),
        Instruction::Return(r) => Outcome::Leave(
            match r {
                Some(r) => get_reg(ctx, id, *r),
                None => Value::from_bits(0),
            },
        ),
    }
}

/// A task on a memory.
pub open spec fn machine(ctx: Ctx, task: TaskView) -> Machine {
    Machine { ctx, task }
}

/// The memory of another state of the same program serves the task as well, if
/// the task has the same numbers of registers in it.
proof fn lemma_serves(a: Ctx, b: Ctx, task: TaskView)
    requires
        machine(a, task).wf(),
        b.wf(),
        b.strings == a.strings,
        b.callables == a.callables,
        b.globals.len() == a.globals.len(),
        task.id < b.tasks.len(),
        b.tasks[task.id as int].len() == a.tasks[task.id as int].len(),
        forall|f: int|
            0 <= f < a.tasks[task.id as int].len() ==> (#[trigger] b.tasks[task.id as int][f]).len()
                == a.tasks[task.id as int][f].len(),
    ensures
        machine(b, task).wf(),
{
    let m = machine(a, task);
    let n = machine(b, task);
    lemma_functions_ok(a, b);
    assert forall|k: int| 0 <= k < task.frames.len() implies #[trigger] n.frame_ok(k) by {
        assert(m.frame_ok(k));
        assert(n.stack()[k].len() == m.stack()[k].len());
        if k > 0 {
            assert(n.stack()[k - 1].len() == m.stack()[k - 1].len());
        }
        assert(bounds(b, n.stack()[k].len()) == bounds(a, m.stack()[k].len()));
    }
}

proof fn lemma_functions_ok(a: Ctx, b: Ctx)
    requires
        functions_ok(a),
        b.strings == a.strings,
        b.callables == a.callables,
        b.globals.len() == a.globals.len(),
    ensures
        functions_ok(b),
{
    assert forall|k: int| 0 <= k < b.callables.len() implies callable_ok(
        b,
        #[trigger] b.callables[k],
    ) by {
        assert(callable_ok(a, a.callables[k]));
        if let Some(CallableView::User(f)) = b.callables[k] {
            assert(bounds(b, f.locals_count as nat) == bounds(a, f.locals_count as nat));
        }
    }
}

/// The same program, in which only the registers of one task may differ.
pub open spec fn same_but(a: Ctx, b: Ctx, id: usize) -> bool {
    &&& b.wf()
    &&& b.strings == a.strings
    &&& b.callables == a.callables
    &&& b.globals.len() == a.globals.len()
    &&& b.tasks.len() >= a.tasks.len()
    &&& forall|t: int| 0 <= t < a.tasks.len() && t != id ==> #[trigger] b.tasks[t] == a.tasks[t]
}

/// What one task does leaves every other task in order.
pub proof fn law_tasks_do_not_interfere(a: Ctx, b: Ctx, id: usize, other: TaskView)
    requires
        same_but(a, b, id),
        machine(a, other).wf(),
        other.id != id,
    ensures
        machine(b, other).wf(),
{
    lemma_serves(a, b, other);
}

impl Task {
    /// A task with one call in progress.
    pub fn new(ctx: &mut Context, code: Arc<Vec<Instruction>>, regs: Vec<u64>) -> (res: Self)
        requires
            old(ctx)@.wf(),
            functions_ok(old(ctx)@),
            code_ok(code_view((*code)@), bounds(old(ctx)@, regs@.len())),
        ensures
            final(ctx)@ == (Ctx { tasks: old(ctx)@.tasks.push(seq![regs@]), ..old(ctx)@ }),
            res@ == (TaskView {
                id: old(ctx)@.tasks.len() as usize,
                frames: seq![
                    FrameView { code: code_view((*code)@), pc: 0, count: 0, dst: None },
                ],
            }),
            machine(final(ctx)@, res@).wf(),
            same_but(old(ctx)@, final(ctx)@, res.id),
    {
        let ghost before = ctx@;
        let id: usize = ctx.active_registers.len();
        let n: usize = code.len();
        let mut stack: Vec<Vec<u64>> = Vec::new();
        stack.push(regs);
        ctx.active_registers.push(stack);
        let mut frames: Vec<Frame> = Vec::new();
        frames.push(Frame { code, pc: 0, count: 0, dst: None });
        let task = Task { id, frames };
        proof {
            assert(stack_view(stack@) =~= seq![regs@]);
            assert(ctx@.tasks =~= before.tasks.push(seq![regs@]));
            assert(task@.frames =~= seq![
                FrameView { code: code_view((*code)@), pc: 0, count: 0, dst: None },
            ]);
            lemma_functions_ok(before, ctx@);
            let m = machine(ctx@, task@);
            assert(m.frame_ok(0));
        }
        task
    }

    /// The innermost call goes on at the given instruction.
    fn set_pc(&mut self, pc: usize)
        requires
            old(self).frames@.len() > 0,
        ensures
            forall|c: Ctx| #[trigger]
                machine(c, final(self)@) == machine(c, old(self)@).at(pc),
            final(self).id == old(self).id,
    {
        let k: usize = self.frames.len() - 1;
        let ghost before = self@;
        self.frames[k].pc = pc;
        assert forall|c: Ctx| #[trigger] machine(c, self@) == machine(c, before).at(pc) by {
            let m = machine(c, before);
            assert(before.frames[k as int] == old(self).frames@[k as int]@);
            assert(self@.frames =~= m.at(pc).task.frames);
        }
    }

    fn pause(&self) -> (res: Action)
        requires
            self.frames@.len() > 0,
        ensures
            forall|c: Ctx| res@ == #[trigger] machine(c, self@).pause(),
            res is Yield || res is Running,
    {
        let k: usize = self.frames.len() - 1;
        assert(self@.frames[k as int] == self.frames@[k as int]@);
        if self.frames[k].count % 0x4000 == 0 {
            Action::Yield
        } else {
            Action::Running
        }
    }

    /// Ends the innermost call.
    fn leave(&mut self, ctx: &mut Context, v: Value, says_so: bool) -> (res: Action)
        requires
            machine(old(ctx)@, old(self)@).wf(),
            old(self)@.frames.len() > 0,
        ensures
            (machine(final(ctx)@, final(self)@), res@) == machine(old(ctx)@, old(self)@).left(
                v,
                says_so,
            ),
            machine(final(ctx)@, final(self)@).wf(),
            same_but(old(ctx)@, final(ctx)@, old(self).id),
    {
        let ghost m = machine(ctx@, self@);
        let id: usize = self.id;
        assert(m.stack() == stack_view(ctx.active_registers@[id as int]@));
        let _ = ctx.active_registers[id].pop();
        let dst: Option<usize> = match self.frames.pop() {
            Some(f) => {
                assert(f@ == m.frame());
                if says_so {
                    f.dst
                } else {
                    None
                }
            },
            None => None,
        };
        let ghost n = machine(ctx@, self@);
        proof {
            let p = m.popped();
            assert(stack_view(ctx.active_registers@[id as int]@) =~= m.stack().drop_last());
            assert(ctx@.tasks =~= p.ctx.tasks);
            assert(self@.frames =~= p.task.frames);
            assert(n == p);
            lemma_functions_ok(m.ctx, n.ctx);
            assert forall|k: int| 0 <= k < n.task.frames.len() implies #[trigger] n.frame_ok(k) by {
                assert(m.frame_ok(k));
                assert(n.stack()[k] == m.stack()[k]);
                if k > 0 {
                    assert(n.stack()[k - 1] == m.stack()[k - 1]);
                }
            }
            assert(n.wf());
        }
        if self.frames.len() == 0 {
            return Action::Done(v);
        }
        proof {
            assert(m.frame_ok(m.task.frames.len() - 1));
            assert(n.stack().last() == m.stack()[m.stack().len() - 2]);
        }
        set_reg_opt(ctx, id, dst, v);
        let asks = self.pause();
        let k: usize = self.frames.len() - 1;
        let ghost w = machine(ctx@, self@);
        proof {
            lemma_serves(n.ctx, ctx@, self@);
            assert(w.frame_ok(k as int));
            assert(self@.frames[k as int] == self.frames@[k as int]@);
            assert(m.frame_ok(k + 1));
        }
        let pc: usize = self.frames[k].pc;
        let len: usize = self.frames[k].code.len();
        self.set_pc(pc + 1);
        proof {
            lemma_at(w, (pc + 1) as usize);
        }
        asks
    }

    /// Drops all the calls of a task that cannot go on.
    pub fn stop(&mut self, ctx: &mut Context)
        requires
            machine(old(ctx)@, old(self)@).wf(),
        ensures
            machine(final(ctx)@, final(self)@) == machine(old(ctx)@, old(self)@).stopped(),
            machine(final(ctx)@, final(self)@).wf(),
            same_but(old(ctx)@, final(ctx)@, old(self).id),
    {
        let ghost m = machine(ctx@, self@);
        let id: usize = self.id;
        self.frames = Vec::new();
        ctx.active_registers.set(id, Vec::new());
        proof {
            let p = m.stopped();
            assert(stack_view(ctx.active_registers@[id as int]@) =~= Seq::<Seq<u64>>::empty());
            assert(ctx@.tasks =~= p.ctx.tasks);
            assert(self@.frames =~= p.task.frames);
            lemma_functions_ok(m.ctx, ctx@);
        }
    }

    /// Starts a call.
    fn enter(
        &mut self,
        ctx: &mut Context,
        code: Arc<Vec<Instruction>>,
        regs: Vec<u64>,
        dst: Option<usize>,
    )
        requires
            machine(old(ctx)@, old(self)@).wf(),
            old(self)@.frames.len() > 0,
            machine(old(ctx)@, old(self)@).frame().pc < machine(
                old(ctx)@,
                old(self)@,
            ).frame().code.len(),
            code_ok(code_view((*code)@), bounds(old(ctx)@, regs@.len())),
            opt_below(dst, n_regs(old(ctx)@, old(self).id)),
        ensures
            machine(final(ctx)@, final(self)@) == machine(old(ctx)@, old(self)@).entered(
                code_view((*code)@),
                regs@,
                dst,
            ),
            machine(final(ctx)@, final(self)@).wf(),
            same_but(old(ctx)@, final(ctx)@, old(self).id),
    {
        let ghost m = machine(ctx@, self@);
        let id: usize = self.id;
        let len: usize = code.len();
        assert(m.stack() == stack_view(ctx.active_registers@[id as int]@));
        ctx.active_registers[id].push(regs);
        self.frames.push(Frame { code, pc: 0, count: 0, dst });
        proof {
            let p = m.entered(code_view((*code)@), regs@, dst);
            assert(stack_view(ctx.active_registers@[id as int]@) =~= m.stack().push(regs@));
            assert(ctx@.tasks =~= p.ctx.tasks);
            assert(self@.frames =~= p.task.frames);
            lemma_functions_ok(m.ctx, p.ctx);
            let last = m.task.frames.len() as int;
            assert forall|k: int| 0 <= k < p.task.frames.len() implies #[trigger] p.frame_ok(k) by {
                if k < last {
                    assert(m.frame_ok(k));
                    assert(p.stack()[k] == m.stack()[k]);
                    assert(p.task.frames[k] == m.task.frames[k]);
                    if k > 0 {
                        assert(p.stack()[k - 1] == m.stack()[k - 1]);
                        assert(p.task.frames[k - 1] == m.task.frames[k - 1]);
                    }
                } else {
                    assert(p.stack()[k] == regs@);
                    assert(p.stack()[k - 1] == m.stack().last());
                    assert(p.task.frames[k - 1] == m.frame());
                }
            }
        }
    }

    /// Runs one instruction of the innermost call, or ends it.
    pub fn step(&mut self, ctx: &mut Context) -> (res: Action)
        requires
            machine(old(ctx)@, old(self)@).ready(),
        ensures
            (machine(final(ctx)@, final(self)@), res@) == machine(old(ctx)@, old(self)@).step(),
            machine(final(ctx)@, final(self)@).wf(),
            same_but(old(ctx)@, final(ctx)@, old(self).id),
            res@ matches Asks::Spawn { task, .. } ==> machine(final(ctx)@, task).wf(),
    {
        let ghost m = machine(ctx@, self@);
        let id: usize = self.id;
        let k: usize = self.frames.len() - 1;
        let pc: usize = self.frames[k].pc;
        proof {
            assert(m.frame_ok(k as int));
            assert(m.task.frames[k as int] == self.frames@[k as int]@);
        }
        if pc >= self.frames[k].code.len() {
            return self.leave(ctx, Value::from_bits(0), false);
        }
        self.frames[k].count = self.frames[k].count.wrapping_add(1);
        let ghost c = machine(ctx@, self@);
        proof {
            assert(self@.frames =~= m.counted().task.frames);
            assert(c == m.counted());
            assert(c.frame() == self.frames@[k as int]@);
            assert(c.frame().code == m.frame().code);
            lemma_counted(m);
            let ops = m.frame().code;
            assert(ops[pc as int] == op_view((*self.frames@[k as int].code)@[pc as int]));
            lemma_code_ok_at(ops, bounds(m.ctx, n_regs(m.ctx, id)), pc as int);
        }
        let ghost op = m.frame().code[pc as int];
        let out = run_op(ctx, id, &self.frames[k].code[pc]);
        let ghost e = effect(m.ctx, id, op);
        proof {
            lemma_serves(m.ctx, ctx@, self@);
            lemma_effect_ok(m, op);
        }
        let ghost n = machine(ctx@, self@);
        match out {
            Outcome::Next => {
                let asks = self.pause();
                self.set_pc(pc + 1);
                proof {
                    lemma_at(n, (pc + 1) as usize);
                }
                asks
            },
            Outcome::Skip => {
                self.set_pc(pc + 1);
                proof {
                    lemma_at(n, (pc + 1) as usize);
                }
                Action::Running
            },
            Outcome::Jump(target) => {
                self.set_pc(target);
                proof {
                    lemma_at(n, target);
                }
                Action::Running
            },
            Outcome::Wait(a) => a,
            Outcome::Enter { code, regs, dst } => {
                self.enter(ctx, code, regs, dst);
                Action::Running
            },
            Outcome::Leave(v) => self.leave(ctx, v, true),
            Outcome::Spawn { code, regs } => {
                let asks = self.pause();
                let yields = match asks {
                    Action::Yield => true,
                    _ => false,
                };
                let task = Task::new(ctx, code, regs);
                let ghost s = machine(ctx@, self@);
                proof {
                    lemma_serves(n.ctx, ctx@, self@);
                }
                self.set_pc(pc + 1);
                proof {
                    lemma_at(s, (pc + 1) as usize);
                    assert(s.at((pc + 1) as usize) == machine(ctx@, self@));
                }
                Action::Spawn { task, yields }
            },
            Outcome::Fail(err) => {
                self.stop(ctx);
                Action::Fail(err)
            },
        }
    }

    /// Completes the instruction that asked for outside work.
    pub fn resume(&mut self, ctx: &mut Context, v: Value) -> (res: Action)
        requires
            machine(old(ctx)@, old(self)@).wf(),
            old(self)@.frames.len() > 0,
            machine(old(ctx)@, old(self)@).frame().pc < machine(
                old(ctx)@,
                old(self)@,
            ).frame().code.len(),
        ensures
            (machine(final(ctx)@, final(self)@), res@) == machine(old(ctx)@, old(self)@).resumed(v),
            machine(final(ctx)@, final(self)@).wf(),
            same_but(old(ctx)@, final(ctx)@, old(self).id),
    {
        let ghost m = machine(ctx@, self@);
        let id: usize = self.id;
        let k: usize = self.frames.len() - 1;
        let pc: usize = self.frames[k].pc;
        proof {
            assert(m.frame_ok(k as int));
            assert(m.task.frames[k as int] == self.frames@[k as int]@);
            let ops = m.frame().code;
            assert(ops[pc as int] == op_view((*self.frames@[k as int].code)@[pc as int]));
            lemma_code_ok_at(ops, bounds(m.ctx, n_regs(m.ctx, id)), pc as int);
        }
        let len: usize = self.frames[k].code.len();
        complete(ctx, id, &self.frames[k].code[pc], v);
        proof {
            lemma_serves(m.ctx, ctx@, self@);
        }
        let ghost n = machine(ctx@, self@);
        let asks = self.pause();
        self.set_pc(pc + 1);
        proof {
            lemma_at(n, (pc + 1) as usize);
        }
        asks
    }
}

/// The register-based virtual machine as a backend.
#[derive(Debug, Clone, Copy)]
pub struct Interpreter;

/// Runs a task for up to `limit` instructions, until it asks its owner for
/// something. A task that has come to its end, and one on a heap without room,
/// stays as it is.
pub fn execute_bytecode(ctx: &mut Context, task: &mut Task, limit: usize) -> (res: Action)
    requires
        machine(old(ctx)@, old(task)@).wf(),
    ensures
        (machine(final(ctx)@, final(task)@), res@) == ran(
            machine(old(ctx)@, old(task)@),
            limit as nat,
        ),
        machine(final(ctx)@, final(task)@).wf(),
        same_but(old(ctx)@, final(ctx)@, old(task).id),
        res@ matches Asks::Spawn { task, .. } ==> machine(final(ctx)@, task).wf(),
{
    let ghost m = machine(ctx@, task@);
    let mut left: usize = limit;
    while left > 0
        invariant
            left <= limit,
            machine(ctx@, task@).wf(),
            task.id == old(task).id,
            same_but(old(ctx)@, ctx@, old(task).id),
            m == machine(old(ctx)@, old(task)@),
            ran(m, limit as nat) == ran(machine(ctx@, task@), left as nat),
        decreases left,
    {
        if task.frames.len() == 0 || !ctx.has_room() {
            assert(task@.frames.len() == task.frames@.len());
            return Action::Running;
        }
        let ghost before = ctx@;
        let action = task.step(ctx);
        proof {
            assert forall|t: int| 0 <= t < m.ctx.tasks.len() && t != m.task.id implies #[trigger]
            ctx@.tasks[t] == m.ctx.tasks[t] by {
                assert(before.tasks[t] == m.ctx.tasks[t]);
            }
        }
        match action {
            Action::Running => {},
            _ => {
                return action;
            },
        }
        left = left - 1;
    }
    Action::Running
}

/// Puts a value where an instruction puts its result.
fn complete(ctx: &mut Context, id: usize, i: &Instruction, v: Value)
    requires
        old(ctx)@.wf(),
        has_regs(old(ctx)@, id),
        op_ok(op_view(*i), bounds(old(ctx)@, n_regs(old(ctx)@, id))),
    ensures
        final(ctx)@ == completed(old(ctx)@, id, op_view(*i), v),
        kept(old(ctx)@, final(ctx)@, id),
{
    reveal(completed);
    match i {
        Instruction::Add { dst, .. } => set_reg(ctx, id, *dst, v),
        Instruction::Sub { dst, .. } => set_reg(ctx, id, *dst, v),
        Instruction::Mul { dst, .. } => set_reg(ctx, id, *dst, v),
        Instruction::Div { dst, .. } => set_reg(ctx, id, *dst, v),
        Instruction::Increment(r) => set_reg(ctx, id, *r, v),
        Instruction::IncrementGlobal(g) => {
            ctx.globals.set(*g, v.to_bits());
        },
        Instruction::ObjectGet { dst, .. } => set_reg(ctx, id, *dst, v),
        Instruction::Call { dst, .. } => set_reg_opt(ctx, id, *dst, v),
        Instruction::CallDynamic { dst, .. } => set_reg_opt(ctx, id, *dst, v),
        _ => {},
    }
}

/// Another place in the code leaves the innermost call in order.
proof fn lemma_at(m: Machine, pc: usize)
    requires
        m.wf(),
        m.task.frames.len() > 0,
    ensures
        m.at(pc).wf(),
{
    let n = m.at(pc);
    assert forall|k: int| 0 <= k < n.task.frames.len() implies #[trigger] n.frame_ok(k) by {
        assert(m.frame_ok(k));
        if k > 0 {
            assert(n.task.frames[k - 1] == m.task.frames[k - 1]);
        }
    }
}

proof fn lemma_counted(m: Machine)
    requires
        m.wf(),
        m.task.frames.len() > 0,
    ensures
        m.counted().wf(),
{
    let n = m.counted();
    assert forall|k: int| 0 <= k < n.task.frames.len() implies #[trigger] n.frame_ok(k) by {
        assert(m.frame_ok(k));
        if k > 0 {
            assert(n.task.frames[k - 1] == m.task.frames[k - 1]);
        }
    }
}

/// What an instruction calls or spawns keeps within its registers.
proof fn lemma_effect_ok(m: Machine, op: Op)
    requires
        m.wf(),
        m.task.frames.len() > 0,
        op_ok(op, bounds(m.ctx, n_regs(m.ctx, m.task.id))),
    ensures
        match effect(m.ctx, m.task.id, op) {
            Effect::Enter { code, regs, dst } => code_ok(
                code,
                bounds(m.ctx, regs.len()),
            ) && opt_below(dst, n_regs(m.ctx, m.task.id)),
            Effect::Spawn { code, regs } => code_ok(
                code,
                bounds(m.ctx, regs.len()),
            ),
            Effect::Wait(a) => !(a is Spawn),
            _ => true,
        },
{
    reveal(effect);
    reveal(e_call);
    reveal(e_call_dynamic);
    reveal(call_regs);
    reveal(spawn_regs);
    let ctx = m.ctx;
    match op {
        Op::Call { name_id, .. } => {
            assert(callable_ok(ctx, ctx.callables[name_id as int]));
        },
        Op::CallDynamic { callee_reg, .. } => {
            reveal(e_method);
            let callee = reg(ctx, m.task.id, callee_reg);
            lemma_pool_id(ctx, callee);
            if let Some(name_id) = ctx.pool_id(callee) {
                assert(callable_ok(ctx, ctx.callables[name_id as int]));
            }
        },
        Op::Plain(i) => {
            lemma_plain_effect(ctx, m.task.id, i);
        },
        _ => {},
    }
}

proof fn lemma_plain_effect(ctx: Ctx, id: usize, i: Instruction)
    requires
        op_ok(Op::Plain(i), bounds(ctx, n_regs(ctx, id))),
    ensures
        !(plain_effect(ctx, id, i) is Enter),
        !(plain_effect(ctx, id, i) is Spawn),
        plain_effect(ctx, id, i) matches Effect::Wait(a) ==> !(a is Spawn),
{
    reveal(plain_effect);
    reveal(e_add);
    reveal(arith);
    reveal(compared);
    reveal(e_increment);
    reveal(e_range);
    reveal(e_range_info);
    reveal(e_list_get);
    reveal(e_list_set);
    reveal(e_object_get);
    reveal(e_object_set);
}

} // verus!
