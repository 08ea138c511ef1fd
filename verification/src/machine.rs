//! What each instruction does to a running program.
use crate::compiler::code_ok;
use crate::compiler::lemma_code_ok_at;
use crate::compiler::op_ok;
use crate::compiler::opt_below;
use crate::compiler::Bounds;
use crate::compiler::Instruction;
use crate::compiler::Loc;
use crate::compiler::Op;
use crate::context::CallableView;
use crate::context::Ctx;
use crate::context::Native;
use crate::error::ErrorLoc;
use crate::error::Fault;
use crate::heap::field_get;
use crate::heap::is_young;
use crate::heap::no_fields;
use crate::heap::Cell;
use crate::heap::Generation;
use crate::heap::HeapView;
use crate::heap::ObjView;
use crate::number::scaled;
use crate::number::truncated;
use crate::number::ONE;
use crate::text::decimal;
use crate::value::bool_value;
use crate::value::object_value;
use crate::value::text_value;
use crate::value::Kind;
use crate::value::Value;
use vstd::prelude::*;
use vstd::utf8::encode_utf8;

verus! {

/// Arithmetic on numbers, which is left to the owner of the machine.
#[derive(Debug, Clone, Copy, PartialEq, Eq, Structural)]
pub enum Arith {
    Add,
    Sub,
    Mul,
    Div,
}

/// A call in progress.
pub struct FrameView {
    pub code: Seq<Op>,
    /// The next instruction.
    pub pc: usize,
    /// How many instructions the call has started.
    pub count: u32,
    /// The register of the caller that takes the result.
    pub dst: Option<usize>,
}

/// A task: its place among the tasks and its calls, the innermost last.
pub struct TaskView {
    pub id: usize,
    pub frames: Seq<FrameView>,
}

/// A task and the memory that it runs on.
pub struct Machine {
    pub ctx: Ctx,
    pub task: TaskView,
}

/// What a task asks of its owner.
pub enum Asks {
    /// To go on.
    Running,
    /// To let others run before it goes on.
    Yield,
    /// Nothing more: it came to its end with a value.
    Done(Value),
    /// Nothing more: it failed.
    Fail(Fault),
    /// The result of arithmetic on two numbers, given by their bits.
    Compute { op: Arith, lhs: u64, rhs: u64 },
    /// What a native function gives for the arguments.
    Native { native: Native, args: Seq<u64>, loc: Loc },
    /// The seconds since a point in time.
    Elapsed(u64),
    /// To run another task beside it, and before going on, where the flag says
    /// so, to let others run.
    Spawn { task: TaskView, yields: bool },
}

/// What an instruction amounts to.
pub enum Effect {
    /// On to the next instruction.
    Next(Ctx),
    /// On to the next instruction without a pause.
    Skip(Ctx),
    /// On to the given instruction.
    Jump(usize),
    /// Outside work, after which the instruction completes.
    Wait(Asks),
    Enter { code: Seq<Op>, regs: Seq<u64>, dst: Option<usize> },
    Leave(Value),
    Spawn { code: Seq<Op>, regs: Seq<u64> },
    Fail(Fault),
}

pub open spec fn fail(msg: Seq<char>, loc: Loc) -> Effect {
    Effect::Fail(runtime(msg, loc))
}

pub open spec fn runtime(msg: Seq<char>, loc: Loc) -> Fault {
    Fault::Runtime { msg, loc: ErrorLoc { line: loc.line as usize, col: loc.col as usize } }
}

pub open spec fn zeros(n: nat) -> Seq<u64> {
    Seq::new(n, |k: int| 0u64)
}

/// The registers in use by a task.
pub open spec fn regs_of(ctx: Ctx, id: usize) -> Seq<u64> {
    ctx.tasks[id as int].last()
}

pub open spec fn reg(ctx: Ctx, id: usize, r: usize) -> Value {
    Value(regs_of(ctx, id)[r as int])
}

/// The values of several registers.
pub open spec fn reg_list(ctx: Ctx, id: usize, rs: Seq<usize>) -> Seq<u64> {
    rs.map_values(|r: usize| regs_of(ctx, id)[r as int])
}

/// The memory with a value in a register of the innermost call.
#[verifier::opaque]
pub open spec fn put(ctx: Ctx, id: usize, r: usize, v: Value) -> Ctx {
    let stack = ctx.tasks[id as int];
    Ctx {
        tasks: ctx.tasks.update(
            id as int,
            stack.update(stack.len() - 1, stack.last().update(r as int, v.0)),
        ),
        ..ctx
    }
}

pub open spec fn put_opt(ctx: Ctx, id: usize, r: Option<usize>, v: Value) -> Ctx {
    match r {
        Some(r) => put(ctx, id, r, v),
        None => ctx,
    }
}

/// A new object, and the reference to it in a register.
pub open spec fn make(ctx: Ctx, id: usize, dst: usize, obj: ObjView) -> Ctx {
    put(ctx.with(obj), id, dst, object_value(ctx.next_slot()))
}

/// A text in a register: itself where it is short, else a new object.
#[verifier::opaque]
pub open spec fn make_text(ctx: Ctx, id: usize, dst: usize, s: Seq<char>) -> Ctx {
    if encode_utf8(s).len() <= 6 {
        put(ctx, id, dst, text_value(encode_utf8(s)))
    } else {
        make(ctx, id, dst, ObjView::Text(s))
    }
}

/// The object in a slot with other contents.
#[verifier::opaque]
pub open spec fn set_object(ctx: Ctx, id: u32, obj: ObjView) -> Ctx {
    let cell = ctx.heap.slots[id as int]->0;
    Ctx {
        heap: HeapView {
            slots: ctx.heap.slots.update(id as int, Some(Cell { obj, ..cell })),
            ..ctx.heap
        },
        ..ctx
    }
}

/// An old object has taken in a value: it is remembered if that refers to a
/// young one.
#[verifier::opaque]
pub open spec fn barrier(ctx: Ctx, id: u32, bits: u64) -> Ctx {
    if ctx.heap.slots[id as int]->0.generation == Generation::Tenured && (Value(bits).kind() matches
        Kind::Object(src) && is_young(ctx.heap.slots, src)) {
        Ctx {
            heap: HeapView { remembered: ctx.heap.remembered.insert(id), ..ctx.heap },
            ..ctx
        }
    } else {
        ctx
    }
}

/// A list padded with zeros to hold an index.
pub open spec fn grown(l: Seq<u64>, n: nat, fill: u64) -> Seq<u64> {
    if l.len() < n {
        l + Seq::new((n - l.len()) as nat, |k: int| fill)
    } else {
        l
    }
}

/// Arithmetic on the numbers in two registers.
#[verifier::opaque]
pub open spec fn arith(ctx: Ctx, id: usize, op: Arith, lhs: usize, rhs: usize, loc: Loc) -> Effect {
    match (reg(ctx, id, lhs).kind(), reg(ctx, id, rhs).kind()) {
        (Kind::Number(l), Kind::Number(r)) => Effect::Wait(Asks::Compute { op, lhs: l, rhs: r }),
        _ => fail(
            "Math error: expected numbers for '"@ + (match op {
                Arith::Add => "+"@,
                Arith::Sub => "-"@,
                Arith::Mul => "*"@,
                Arith::Div => "/"@,
            }) + "'"@,
            loc,
        ),
    }
}

/// The ways to compare numbers.
#[derive(Debug, Clone, Copy, PartialEq, Eq, Structural)]
pub enum Relation {
    Lt,
    Le,
    Gt,
    Ge,
}

pub open spec fn related(rel: Relation, l: u64, r: u64) -> bool {
    match rel {
        Relation::Lt => scaled(l) < scaled(r),
        Relation::Le => scaled(l) <= scaled(r),
        Relation::Gt => scaled(l) > scaled(r),
        Relation::Ge => scaled(l) >= scaled(r),
    }
}

pub open spec fn sign_of(rel: Relation) -> Seq<char> {
    match rel {
        Relation::Lt => "<"@,
        Relation::Le => "<="@,
        Relation::Gt => ">"@,
        Relation::Ge => ">="@,
    }
}

/// A comparison of the numbers in two registers.
#[verifier::opaque]
pub open spec fn compared(
    ctx: Ctx,
    id: usize,
    rel: Relation,
    dst: usize,
    lhs: usize,
    rhs: usize,
    loc: Loc,
) -> Effect {
    match (reg(ctx, id, lhs).kind(), reg(ctx, id, rhs).kind()) {
        (Kind::Number(l), Kind::Number(r)) => Effect::Next(
            put(ctx, id, dst, bool_value(related(rel, l, r))),
        ),
        _ => fail("Compare error: expected numbers for '"@ + sign_of(rel) + "'"@, loc),
    }
}

#[verifier::opaque]
pub open spec fn e_add(ctx: Ctx, id: usize, dst: usize, lhs: usize, rhs: usize, loc: Loc) -> Effect {
    let l = reg(ctx, id, lhs);
    let r = reg(ctx, id, rhs);
    match (l.kind(), r.kind()) {
        (Kind::Number(x), Kind::Number(y)) => Effect::Wait(
            Asks::Compute { op: Arith::Add, lhs: x, rhs: y },
        ),
        _ => match (ctx.text(l), ctx.text(r)) {
            (Some(s), Some(t)) => Effect::Next(make_text(ctx, id, dst, s + t)),
            _ => fail("Add error: expected numbers or strings"@, loc),
        },
    }
}

/// One more in a number; anything else stays as it is.
#[verifier::opaque]
pub open spec fn e_increment(ctx: Ctx, bits: u64) -> Effect {
    match Value(bits).kind() {
        Kind::Number(n) => Effect::Wait(Asks::Compute { op: Arith::Add, lhs: n, rhs: ONE }),
        _ => Effect::Next(ctx),
    }
}

#[verifier::opaque]
pub open spec fn e_range(
    ctx: Ctx,
    id: usize,
    dst: usize,
    start: usize,
    end: usize,
    step: Option<usize>,
    loc: Loc,
) -> Effect {
    match (reg(ctx, id, start).kind(), reg(ctx, id, end).kind()) {
        (Kind::Number(s), Kind::Number(e)) => match step {
            None => Effect::Next(
                make(ctx, id, dst, ObjView::Range { start: s, end: e, step: ONE }),
            ),
            Some(r) => match reg(ctx, id, r).kind() {
                Kind::Number(t) => Effect::Next(
                    make(ctx, id, dst, ObjView::Range { start: s, end: e, step: t }),
                ),
                _ => fail("Range step must be a number"@, loc),
            },
        },
        (Kind::Number(_), _) => fail("Range end must be a number"@, loc),
        _ => fail("Range start must be a number"@, loc),
    }
}

/// The parts of a range. What is no range counts as an empty one.
pub open spec fn range_parts(ctx: Ctx, v: Value) -> (u64, u64, u64) {
    match ctx.deref(v) {
        Some(ObjView::Range { start, end, step }) => (start, end, step),
        _ => (0, 0, ONE),
    }
}

#[verifier::opaque]
pub open spec fn e_range_info(
    ctx: Ctx,
    id: usize,
    range: usize,
    start_dst: usize,
    end_dst: usize,
    step_dst: usize,
) -> Effect {
    let (s, e, t) = range_parts(ctx, reg(ctx, id, range));
    let a = put(ctx, id, start_dst, Value(s));
    let b = put(a, id, end_dst, Value(e));
    Effect::Next(put(b, id, step_dst, Value(t)))
}

pub open spec fn out_of_bounds(index: usize, len: nat, loc: Loc) -> Effect {
    fail(
        "Index out of bounds: "@ + decimal(index as nat) + " for list of length "@ + decimal(len),
        loc,
    )
}

#[verifier::opaque]
pub open spec fn e_list_get(
    ctx: Ctx,
    id: usize,
    dst: usize,
    list: usize,
    index_reg: usize,
    loc: Loc,
) -> Effect {
    match reg(ctx, id, index_reg).kind() {
        Kind::Number(n) => {
            let index = truncated(n) as usize;
            match ctx.deref(reg(ctx, id, list)) {
                Some(ObjView::List(l)) => if index < l.len() {
                    Effect::Next(put(ctx, id, dst, Value(l[index as int])))
                } else {
                    out_of_bounds(index, l.len(), loc)
                },
                _ => fail("Expected list for indexing"@, loc),
            }
        },
        _ => fail("List index must be a number"@, loc),
    }
}

/// An element takes a value; a list that is too short grows. The largest index
/// of all is out of bounds, since no list can hold it.
#[verifier::opaque]
pub open spec fn e_list_set(
    ctx: Ctx,
    id: usize,
    list: usize,
    index_reg: usize,
    src: usize,
    loc: Loc,
) -> Effect {
    match reg(ctx, id, index_reg).kind() {
        Kind::Number(n) => {
            let index = truncated(n) as usize;
            let target = reg(ctx, id, list);
            let bits = reg(ctx, id, src).0;
            match ctx.deref(target) {
                Some(ObjView::List(l)) => if index == usize::MAX {
                    out_of_bounds(index, l.len(), loc)
                } else {
                    let oid = target.kind()->Object_0;
                    let filled = grown(l, (index + 1) as nat, 0).update(index as int, bits);
                    Effect::Next(
                        barrier(set_object(ctx, oid, ObjView::List(filled)), oid, bits),
                    )
                },
                _ => fail("Expected list for indexing"@, loc),
            }
        },
        _ => fail("List index must be a number"@, loc),
    }
}

/// A property: a field of an object, a part of a range, or a method of a list
/// or a range. A property that is missing is zero.
#[verifier::opaque]
pub open spec fn e_object_get(
    ctx: Ctx,
    id: usize,
    dst: usize,
    obj: usize,
    name_id: u32,
    loc: Loc,
) -> Effect {
    let v = reg(ctx, id, obj);
    let name = ctx.name(name_id);
    let method = Effect::Next(
        make(ctx, id, dst, ObjView::BoundMethod { receiver: v, name_id }),
    );
    let missing = Effect::Next(put(ctx, id, dst, Value(0)));
    match ctx.deref(v) {
        Some(ObjView::Object(m)) => match field_get(m, name_id) {
            Some(bits) => Effect::Next(put(ctx, id, dst, Value(bits))),
            None => missing,
        },
        Some(ObjView::Timestamp(t)) => if name == "elapsed"@ {
            Effect::Wait(Asks::Elapsed(t))
        } else {
            missing
        },
        Some(ObjView::List(_)) => if name == "pad"@ {
            method
        } else {
            missing
        },
        Some(ObjView::Range { start, end, .. }) => if name == "start"@ {
            Effect::Next(put(ctx, id, dst, Value(start)))
        } else if name == "end"@ {
            Effect::Next(put(ctx, id, dst, Value(end)))
        } else if name == "step"@ {
            method
        } else {
            missing
        },
        _ => fail("Expected object for property access"@, loc),
    }
}

#[verifier::opaque]
pub open spec fn e_object_set(
    ctx: Ctx,
    id: usize,
    obj: usize,
    name_id: u32,
    src: usize,
    loc: Loc,
) -> Effect {
    let v = reg(ctx, id, obj);
    let bits = reg(ctx, id, src).0;
    match ctx.deref(v) {
        Some(ObjView::Object(m)) => {
            let oid = v.kind()->Object_0;
            Effect::Next(
                barrier(set_object(ctx, oid, ObjView::Object(m.insert(name_id, bits))), oid, bits),
            )
        },
        _ => fail("Expected object for property assignment"@, loc),
    }
}

/// The registers of a call: the arguments first, as far as there is room.
#[verifier::opaque]
pub open spec fn call_regs(locals_count: nat, args: Seq<u64>) -> Seq<u64> {
    Seq::new(
        locals_count,
        |k: int|
            if k < args.len() {
                args[k]
            } else {
                0
            },
    )
}

/// A call of a function with arguments.
pub open spec fn invoke(
    c: CallableView,
    args: Seq<u64>,
    dst: Option<usize>,
    loc: Loc,
) -> Effect {
    match c {
        CallableView::User(f) => Effect::Enter {
            code: f.code,
            regs: call_regs(f.locals_count as nat, args),
            dst,
        },
        CallableView::Native(native) => Effect::Wait(Asks::Native { native, args, loc }),
    }
}

#[verifier::opaque]
pub open spec fn e_call(
    ctx: Ctx,
    id: usize,
    name_id: u32,
    args: Seq<usize>,
    dst: Option<usize>,
    loc: Loc,
) -> Effect {
    match ctx.callables[name_id as int] {
        None => fail("Unknown function: "@ + ctx.name(name_id), loc),
        Some(c) => if c matches CallableView::User(f) && f.params_count != args.len() {
            fail(
                "Function arity mismatch: expected "@ + decimal(c->User_0.params_count as nat)
                    + ", got "@ + decimal(args.len()),
                loc,
            )
        } else {
            invoke(c, reg_list(ctx, id, args), dst, loc)
        },
    }
}

/// The number that an argument is, or another where it is none.
pub open spec fn arg_number(args: Seq<u64>, k: int, other: u64) -> u64 {
    if k < args.len() {
        match Value(args[k]).kind() {
            Kind::Number(n) => n,
            _ => other,
        }
    } else {
        other
    }
}

/// A call of a method of a list or a range.
#[verifier::opaque]
pub open spec fn e_method(
    ctx: Ctx,
    id: usize,
    receiver: Value,
    name: Seq<char>,
    args: Seq<u64>,
    dst: Option<usize>,
    loc: Loc,
) -> Effect {
    if name == "pad"@ {
        match ctx.deref(receiver) {
            Some(ObjView::List(l)) => Effect::Skip(
                set_object(
                    ctx,
                    receiver.kind()->Object_0,
                    ObjView::List(
                        grown(
                            l,
                            truncated(arg_number(args, 0, 0)) as nat,
                            if args.len() > 1 {
                                args[1]
                            } else {
                                0
                            },
                        ),
                    ),
                ),
            ),
            _ => Effect::Skip(ctx),
        }
    } else if name == "step"@ && (ctx.deref(receiver) matches Some(ObjView::Range { .. })) {
        let (start, end, _) = range_parts(ctx, receiver);
        let obj = ObjView::Range { start, end, step: arg_number(args, 0, ONE) };
        Effect::Skip(put_opt(ctx.with(obj), id, dst, object_value(ctx.next_slot())))
    } else {
        fail("Unknown method '"@ + name + "'"@, loc)
    }
}

#[verifier::opaque]
pub open spec fn e_call_dynamic(
    ctx: Ctx,
    id: usize,
    callee_reg: usize,
    args: Seq<usize>,
    dst: Option<usize>,
    loc: Loc,
) -> Effect {
    let callee = reg(ctx, id, callee_reg);
    let values = reg_list(ctx, id, args);
    match ctx.deref(callee) {
        Some(ObjView::BoundMethod { receiver, name_id }) => e_method(
            ctx,
            id,
            receiver,
            ctx.name(name_id),
            values,
            dst,
            loc,
        ),
        _ => match ctx.pool_id(callee) {
            None => fail("Callee is not a known function name"@, loc),
            Some(name_id) => match ctx.callables[name_id as int] {
                None => fail(
                    "Dynamic call: unknown function '"@ + ctx.name(name_id) + "'"@,
                    loc,
                ),
                Some(c) => invoke(c, values, dst, loc),
            },
        },
    }
}

/// The registers of a spawned task: those captured, and zeros.
#[verifier::opaque]
pub open spec fn spawn_regs(regs: Seq<u64>, locals_count: nat, captures: Seq<usize>) -> Seq<u64> {
    Seq::new(
        locals_count,
        |k: int|
            if captures.contains(k as usize) {
                regs[k]
            } else {
                0
            },
    )
}

/// What an instruction amounts to.
#[verifier::opaque]
pub open spec fn effect(ctx: Ctx, id: usize, op: Op) -> Effect {
    match op {
        Op::Plain(i) => plain_effect(ctx, id, i),
        Op::Spawn { body, locals_count, captures } => Effect::Spawn {
            code: body,
            regs: spawn_regs(regs_of(ctx, id), locals_count as nat, captures),
        },
        Op::Call { name_id, args, dst, loc } => e_call(ctx, id, name_id, args, dst, loc),
        Op::CallDynamic { callee_reg, args, dst, loc } => e_call_dynamic(
            ctx,
            id,
            callee_reg,
            args,
            dst,
            loc,
        ),
    }
}

/// What an instruction without a list amounts to.
#[verifier::opaque]
pub open spec fn plain_effect(ctx: Ctx, id: usize, i: Instruction) -> Effect {
    match i {
        Instruction::LoadLiteral { dst, val } => Effect::Next(put(ctx, id, dst, val)),
        Instruction::Move { dst, src } => Effect::Next(put(ctx, id, dst, reg(ctx, id, src))),
        Instruction::LoadGlobal { dst, global } => Effect::Next(
            put(ctx, id, dst, Value(ctx.globals[global as int])),
        ),
        Instruction::StoreGlobal { global, src } => Effect::Next(
            Ctx { globals: ctx.globals.update(global as int, reg(ctx, id, src).0), ..ctx },
        ),
        Instruction::Jump(target) => Effect::Jump(target),
        Instruction::JumpIfFalse { cond, target } => if reg(ctx, id, cond).truthy() {
            Effect::Next(ctx)
        } else {
            Effect::Jump(target)
        },
        Instruction::Add { dst, lhs, rhs, loc } => e_add(ctx, id, dst, lhs, rhs, loc),
        Instruction::Sub { lhs, rhs, loc, .. } => arith(ctx, id, Arith::Sub, lhs, rhs, loc),
        Instruction::Mul { lhs, rhs, loc, .. } => arith(ctx, id, Arith::Mul, lhs, rhs, loc),
        Instruction::Div { lhs, rhs, loc, .. } => arith(ctx, id, Arith::Div, lhs, rhs, loc),
        Instruction::Increment(r) => e_increment(ctx, reg(ctx, id, r).0),
        Instruction::IncrementGlobal(g) => e_increment(ctx, ctx.globals[g as int]),
        Instruction::Eq { dst, lhs, rhs } => Effect::Next(
            put(ctx, id, dst, bool_value(ctx.equal(reg(ctx, id, lhs), reg(ctx, id, rhs)))),
        ),
        Instruction::Ne { dst, lhs, rhs } => Effect::Next(
            put(ctx, id, dst, bool_value(!ctx.equal(reg(ctx, id, lhs), reg(ctx, id, rhs)))),
        ),
        Instruction::Lt { dst, lhs, rhs, loc } => compared(
            ctx,
            id,
            Relation::Lt,
            dst,
            lhs,
            rhs,
            loc,
        ),
        Instruction::Le { dst, lhs, rhs, loc } => compared(
            ctx,
            id,
            Relation::Le,
            dst,
            lhs,
            rhs,
            loc,
        ),
        Instruction::Gt { dst, lhs, rhs, loc } => compared(
            ctx,
            id,
            Relation::Gt,
            dst,
            lhs,
            rhs,
            loc,
        ),
        Instruction::Ge { dst, lhs, rhs, loc } => compared(
            ctx,
            id,
            Relation::Ge,
            dst,
            lhs,
            rhs,
            loc,
        ),
        Instruction::Not { dst, src, .. } => Effect::Next(
            put(ctx, id, dst, bool_value(!reg(ctx, id, src).truthy())),
        ),
        Instruction::Range { dst, start, end, step, loc } => e_range(
            ctx,
            id,
            dst,
            start,
            end,
            step,
            loc,
        ),
        Instruction::RangeInfo { range, start_dst, end_dst, step_dst } => e_range_info(
            ctx,
            id,
            range,
            start_dst,
            end_dst,
            step_dst,
        ),
        Instruction::NewList { dst, len } => Effect::Next(
            make(ctx, id, dst, ObjView::List(zeros(len as nat))),
        ),
        Instruction::ListGet { dst, list, index_reg, loc } => e_list_get(
            ctx,
            id,
            dst,
            list,
            index_reg,
            loc,
        ),
        Instruction::ListSet { list, index_reg, src, loc } => e_list_set(
            ctx,
            id,
            list,
            index_reg,
            src,
            loc,
        ),
        Instruction::NewObject { dst, .. } => Effect::Next(
            make(ctx, id, dst, ObjView::Object(no_fields())),
        ),
        Instruction::ObjectGet { dst, obj, name_id, loc } => e_object_get(
            ctx,
            id,
            dst,
            obj,
            name_id,
            loc,
        ),
        Instruction::ObjectSet { obj, name_id, src, loc } => e_object_set(
            ctx,
            id,
            obj,
            name_id,
            src,
            loc,
        ),
        Instruction::Return(r) => Effect::Leave(
            match r {
                Some(r) => reg(ctx, id, r),
                None => Value(0),
            },
        ),
        _ => arbitrary(),
    }
}

/// The bounds within which the code of a call has to keep.
pub open spec fn bounds(ctx: Ctx, regs: nat) -> Bounds {
    Bounds { regs, globals: ctx.globals.len(), names: ctx.strings.len() }
}

/// The functions of a program keep within their registers.
pub open spec fn functions_ok(ctx: Ctx) -> bool {
    forall|k: int|
        0 <= k < ctx.callables.len() ==> callable_ok(ctx, #[trigger] ctx.callables[k])
}

pub open spec fn callable_ok(ctx: Ctx, c: Option<CallableView>) -> bool {
    c matches Some(CallableView::User(f)) ==> code_ok(f.code, bounds(ctx, f.locals_count as nat))
}

impl Machine {
    pub open spec fn stack(self) -> Seq<Seq<u64>> {
        self.ctx.tasks[self.task.id as int]
    }

    pub open spec fn frame(self) -> FrameView {
        self.task.frames.last()
    }

    /// The code of the call at index `k` keeps within its registers, and its
    /// result goes to a register of its caller.
    pub open spec fn frame_ok(self, k: int) -> bool {
        let f = self.task.frames[k];
        &&& code_ok(f.code, bounds(self.ctx, self.stack()[k].len()))
        &&& f.code.len() <= usize::MAX
        &&& k > 0 ==> opt_below(f.dst, self.stack()[k - 1].len())
        &&& k > 0 ==> self.task.frames[k - 1].pc < self.task.frames[k - 1].code.len()
    }

    /// The task and the memory fit together.
    pub open spec fn wf(self) -> bool {
        &&& self.ctx.wf()
        &&& functions_ok(self.ctx)
        &&& self.task.id < self.ctx.tasks.len()
        &&& self.stack().len() == self.task.frames.len()
        &&& forall|k: int| 0 <= k < self.task.frames.len() ==> #[trigger] self.frame_ok(k)
    }

    /// The task has a call in progress and the heap room for an object.
    pub open spec fn ready(self) -> bool {
        self.wf() && self.task.frames.len() > 0 && self.ctx.heap.has_room()
    }

    pub open spec fn with_frame(self, f: FrameView) -> Machine {
        Machine {
            task: TaskView {
                frames: self.task.frames.update(self.task.frames.len() - 1, f),
                ..self.task
            },
            ..self
        }
    }

    /// The innermost call counts one instruction more.
    pub open spec fn counted(self) -> Machine {
        let f = self.frame();
        self.with_frame(
            FrameView {
                count: if f.count == u32::MAX {
                    0
                } else {
                    (f.count + 1) as u32
                },
                ..f
            },
        )
    }

    /// The innermost call goes on at the given instruction.
    pub open spec fn at(self, pc: usize) -> Machine {
        self.with_frame(FrameView { pc, ..self.frame() })
    }

    /// The innermost call goes on at the next instruction.
    pub open spec fn after(self) -> Machine {
        self.at((self.frame().pc + 1) as usize)
    }

    /// Every so many instructions a call lets others run.
    pub open spec fn pause(self) -> Asks {
        if self.frame().count % 0x4000 == 0 {
            Asks::Yield
        } else {
            Asks::Running
        }
    }

    /// The task without its innermost call.
    pub open spec fn popped(self) -> Machine {
        Machine {
            ctx: Ctx {
                tasks: self.ctx.tasks.update(self.task.id as int, self.stack().drop_last()),
                ..self.ctx
            },
            task: TaskView { frames: self.task.frames.drop_last(), ..self.task },
        }
    }

    /// The innermost call ends. Where it says so, its value goes to the register
    /// that waits for it.
    pub open spec fn left(self, v: Value, says_so: bool) -> (Machine, Asks) {
        let m = self.popped();
        if m.task.frames.len() == 0 {
            (m, Asks::Done(v))
        } else {
            let dst = if says_so {
                self.frame().dst
            } else {
                None
            };
            let n = Machine { ctx: put_opt(m.ctx, m.task.id, dst, v), ..m };
            (n.after(), n.pause())
        }
    }

    /// The task without any call.
    pub open spec fn stopped(self) -> Machine {
        Machine {
            ctx: Ctx {
                tasks: self.ctx.tasks.update(self.task.id as int, Seq::empty()),
                ..self.ctx
            },
            task: TaskView { frames: Seq::empty(), ..self.task },
        }
    }

    /// The task with a call more.
    pub open spec fn entered(self, code: Seq<Op>, regs: Seq<u64>, dst: Option<usize>) -> Machine {
        Machine {
            ctx: Ctx {
                tasks: self.ctx.tasks.update(self.task.id as int, self.stack().push(regs)),
                ..self.ctx
            },
            task: TaskView {
                frames: self.task.frames.push(FrameView { code, pc: 0, count: 0, dst }),
                ..self.task
            },
        }
    }

    /// The machine after what an instruction amounts to.
    pub open spec fn affected(self, e: Effect) -> (Machine, Asks) {
        match e {
            Effect::Next(ctx) => (Machine { ctx, ..self }.after(), self.pause()),
            Effect::Skip(ctx) => (Machine { ctx, ..self }.after(), Asks::Running),
            Effect::Jump(pc) => (self.at(pc), Asks::Running),
            Effect::Wait(asks) => (self, asks),
            Effect::Enter { code, regs, dst } => (self.entered(code, regs, dst), Asks::Running),
            Effect::Leave(v) => self.left(v, true),
            Effect::Spawn { code, regs } => (
                Machine {
                    ctx: Ctx { tasks: self.ctx.tasks.push(seq![regs]), ..self.ctx },
                    ..self
                }.after(),
                Asks::Spawn {
                    task: TaskView {
                        id: self.ctx.tasks.len() as usize,
                        frames: seq![FrameView { code, pc: 0, count: 0, dst: None }],
                    },
                    yields: self.pause() is Yield,
                },
            ),
            Effect::Fail(fault) => (self.stopped(), Asks::Fail(fault)),
        }
    }

    /// One instruction of the innermost call, or its end.
    pub open spec fn step(self) -> (Machine, Asks) {
        let f = self.frame();
        if f.pc >= f.code.len() {
            self.left(Value(0), false)
        } else {
            let m = self.counted();
            m.affected(effect(m.ctx, m.task.id, f.code[f.pc as int]))
        }
    }

    /// The instruction that asked for outside work completes with a value.
    pub open spec fn resumed(self, v: Value) -> (Machine, Asks) {
        let f = self.frame();
        let ctx = completed(self.ctx, self.task.id, f.code[f.pc as int], v);
        (Machine { ctx, ..self }.after(), self.pause())
    }
}

/// The task goes on for up to `n` instructions, until it asks for something or
/// the heap has no room for an object.
pub open spec fn ran(m: Machine, n: nat) -> (Machine, Asks)
    decreases n,
{
    if n == 0 || !m.ready() {
        (m, Asks::Running)
    } else {
        let (a, asks) = m.step();
        if asks is Running {
            ran(a, (n - 1) as nat)
        } else {
            (a, asks)
        }
    }
}

/// A value goes where an instruction puts its result.
#[verifier::opaque]
pub open spec fn completed(ctx: Ctx, id: usize, op: Op, v: Value) -> Ctx {
    match op {
        Op::Plain(Instruction::Add { dst, .. }) => put(ctx, id, dst, v),
        Op::Plain(Instruction::Sub { dst, .. }) => put(ctx, id, dst, v),
        Op::Plain(Instruction::Mul { dst, .. }) => put(ctx, id, dst, v),
        Op::Plain(Instruction::Div { dst, .. }) => put(ctx, id, dst, v),
        Op::Plain(Instruction::Increment(r)) => put(ctx, id, r, v),
        Op::Plain(Instruction::IncrementGlobal(g)) => Ctx {
            globals: ctx.globals.update(g as int, v.0),
            ..ctx
        },
        Op::Plain(Instruction::ObjectGet { dst, .. }) => put(ctx, id, dst, v),
        Op::Call { dst, .. } => put_opt(ctx, id, dst, v),
        Op::CallDynamic { dst, .. } => put_opt(ctx, id, dst, v),
        _ => ctx,
    }
}

/// The instruction gives the global a value.
pub open spec fn stores_to(op: Op, g: usize) -> bool {
    match op {
        Op::Plain(Instruction::StoreGlobal { global, .. }) => global == g,
        Op::Plain(Instruction::IncrementGlobal(global)) => global == g,
        _ => false,
    }
}

/// The same program, with the same value in a global.
spec fn keeps(a: Ctx, b: Ctx, g: usize) -> bool {
    &&& b.strings == a.strings
    &&& b.callables == a.callables
    &&& b.globals.len() == a.globals.len()
    &&& b.globals[g as int] == a.globals[g as int]
}

/// What an instruction that does not store leaves in a global.
spec fn effect_keeps(a: Ctx, e: Effect, g: usize) -> bool {
    match e {
        Effect::Next(b) => keeps(a, b, g),
        Effect::Skip(b) => keeps(a, b, g),
        _ => true,
    }
}

proof fn lemma_plain_keeps(ctx: Ctx, id: usize, i: Instruction, g: usize, b: Bounds)
    requires
        !stores_to(Op::Plain(i), g),
        op_ok(Op::Plain(i), b),
        g < ctx.globals.len() == b.globals,
    ensures
        effect_keeps(ctx, plain_effect(ctx, id, i), g),
{
    reveal(plain_effect);
    reveal(put);
    reveal(make_text);
    reveal(set_object);
    reveal(barrier);
    reveal(arith);
    reveal(compared);
    reveal(e_add);
    reveal(e_increment);
    reveal(e_range);
    reveal(e_range_info);
    reveal(e_list_get);
    reveal(e_list_set);
    reveal(e_object_get);
    reveal(e_object_set);
}

/// A global changes only where the instruction at hand stores to it, and nothing
/// changes the strings and the functions of a program.
pub proof fn law_only_stores_change_globals(m: Machine, v: Value, g: usize)
    requires
        m.wf(),
        m.task.frames.len() > 0,
        g < m.ctx.globals.len(),
        m.frame().pc < m.frame().code.len() ==> !stores_to(
            m.frame().code[m.frame().pc as int],
            g,
        ),
    ensures
        m.step().0.ctx.strings == m.ctx.strings,
        m.step().0.ctx.callables == m.ctx.callables,
        m.step().0.ctx.globals[g as int] == m.ctx.globals[g as int],
        m.frame().pc < m.frame().code.len() ==> m.resumed(v).0.ctx.globals[g as int]
            == m.ctx.globals[g as int],
{
    reveal(put);
    reveal(completed);
    if m.frame().pc < m.frame().code.len() {
        let op = m.frame().code[m.frame().pc as int];
        assert(m.frame_ok(m.task.frames.len() - 1));
        let b = bounds(m.ctx, m.stack()[m.task.frames.len() - 1].len());
        lemma_code_ok_at(m.frame().code, b, m.frame().pc as int);
        let c = m.counted();
        reveal(effect);
        assert(effect_keeps(c.ctx, effect(c.ctx, c.task.id, op), g)) by {
            reveal(e_call);
            reveal(e_call_dynamic);
            reveal(e_method);
            reveal(set_object);
            if let Op::Plain(i) = op {
                lemma_plain_keeps(c.ctx, c.task.id, i, g, b);
            }
        }
    }
}

/// Running a task in slices comes to the same as running it in one go.
pub proof fn law_slices_come_to_the_same(m: Machine, n: nat, k: nat)
    ensures
        ran(m, n + k) == (if ran(m, n).1 is Running {
            ran(ran(m, n).0, k)
        } else {
            ran(m, n)
        }),
    decreases n,
{
    if n > 0 && m.ready() {
        let (a, asks) = m.step();
        if asks is Running {
            law_slices_come_to_the_same(a, (n - 1) as nat, k);
        }
    }
}

} // verus!
