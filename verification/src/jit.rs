//! How programs are lowered to native code.
//!
//! Each instruction becomes a block. The plan says what a block does and where
//! it goes on; emitting the code is left to the owner of the code generator.
use crate::compiler::code_view;
use crate::compiler::op_view;
use crate::compiler::Instruction;
use crate::compiler::Loc;
use crate::compiler::Op;
use crate::context::Ctx;
use crate::machine::arith;
use crate::machine::compared;
use crate::machine::completed;
use crate::machine::e_add;
use crate::machine::effect;
use crate::machine::plain_effect;
use crate::machine::put;
use crate::machine::reg;
use crate::machine::Arith;
use crate::machine::Asks;
use crate::machine::Effect;
use crate::number::less_than;
use crate::number::scaled;
use crate::value::bool_value;
use crate::value::Kind;
use crate::value::Value;
use vstd::prelude::*;

verus! {

/// Runs programs as native code.
pub struct CraneliftBackend;

/// The helpers that native code calls for work on two values.
#[derive(Debug, Clone, Copy, PartialEq, Eq, Structural)]
pub enum Helper {
    Add,
    Sub,
    Mul,
    Div,
    LessThan,
}

/// What a block does.
#[derive(Debug)]
#[allow(inconsistent_fields)]
pub enum Work {
    /// Puts a constant into a register.
    Constant { dst: usize, bits: u64 },
    Copy { dst: usize, src: usize },
    Helper { helper: Helper, dst: usize, lhs: usize, rhs: usize },
    LoadGlobal { dst: usize, global: usize },
    StoreGlobal { global: usize, src: usize },
    CallNative { name_id: u32, args: Vec<usize>, dst: Option<usize>, loc: Loc },
    /// Goes to the target if the register holds false.
    BranchIfFalse { cond: usize, target: usize },
    Nothing,
}

/// What a block does, with its list as a sequence.
#[allow(inconsistent_fields)]
pub enum WorkView {
    Constant { dst: usize, bits: u64 },
    Copy { dst: usize, src: usize },
    Helper { helper: Helper, dst: usize, lhs: usize, rhs: usize },
    LoadGlobal { dst: usize, global: usize },
    StoreGlobal { global: usize, src: usize },
    CallNative { name_id: u32, args: Seq<usize>, dst: Option<usize>, loc: Loc },
    BranchIfFalse { cond: usize, target: usize },
    Nothing,
}

impl View for Work {
    type V = WorkView;

    open spec fn view(&self) -> WorkView {
        match *self {
            Work::Constant { dst, bits } => WorkView::Constant { dst, bits },
            Work::Copy { dst, src } => WorkView::Copy { dst, src },
            Work::Helper { helper, dst, lhs, rhs } => WorkView::Helper { helper, dst, lhs, rhs },
            Work::LoadGlobal { dst, global } => WorkView::LoadGlobal { dst, global },
            Work::StoreGlobal { global, src } => WorkView::StoreGlobal { global, src },
            Work::CallNative { name_id, args, dst, loc } => WorkView::CallNative {
                name_id,
                args: args@,
                dst,
                loc,
            },
            Work::BranchIfFalse { cond, target } => WorkView::BranchIfFalse { cond, target },
            Work::Nothing => WorkView::Nothing,
        }
    }
}

/// A block: its work, and the block after it. An index past the last stands for
/// the end of the program.
#[derive(Debug)]
pub struct Block {
    pub work: Work,
    pub next: usize,
}

/// A block with its list as a sequence.
pub struct BlockView {
    pub work: WorkView,
    pub next: usize,
}

impl View for Block {
    type V = BlockView;

    open spec fn view(&self) -> BlockView {
        BlockView { work: self.work@, next: self.next }
    }
}

/// The block of the instruction at index `k`. Instructions that native code does
/// not support are passed over.
pub open spec fn lowered(op: Op, k: usize) -> BlockView {
    let next = (k + 1) as usize;
    match op {
        Op::Plain(Instruction::LoadLiteral { dst, val }) => BlockView {
            work: WorkView::Constant { dst, bits: val.0 },
            next,
        },
        Op::Plain(Instruction::Move { dst, src }) => BlockView {
            work: WorkView::Copy { dst, src },
            next,
        },
        Op::Plain(Instruction::Add { dst, lhs, rhs, .. }) => BlockView {
            work: WorkView::Helper { helper: Helper::Add, dst, lhs, rhs },
            next,
        },
        Op::Plain(Instruction::Sub { dst, lhs, rhs, .. }) => BlockView {
            work: WorkView::Helper { helper: Helper::Sub, dst, lhs, rhs },
            next,
        },
        Op::Plain(Instruction::Mul { dst, lhs, rhs, .. }) => BlockView {
            work: WorkView::Helper { helper: Helper::Mul, dst, lhs, rhs },
            next,
        },
        Op::Plain(Instruction::Div { dst, lhs, rhs, .. }) => BlockView {
            work: WorkView::Helper { helper: Helper::Div, dst, lhs, rhs },
            next,
        },
        Op::Plain(Instruction::Lt { dst, lhs, rhs, .. }) => BlockView {
            work: WorkView::Helper { helper: Helper::LessThan, dst, lhs, rhs },
            next,
        },
        Op::Plain(Instruction::Jump(target)) => BlockView {
            work: WorkView::Nothing,
            next: target,
        },
        Op::Plain(Instruction::JumpIfFalse { cond, target }) => BlockView {
            work: WorkView::BranchIfFalse { cond, target },
            next,
        },
        Op::Plain(Instruction::LoadGlobal { dst, global }) => BlockView {
            work: WorkView::LoadGlobal { dst, global },
            next,
        },
        Op::Plain(Instruction::StoreGlobal { global, src }) => BlockView {
            work: WorkView::StoreGlobal { global, src },
            next,
        },
        Op::Call { name_id, args, dst, loc } => BlockView {
            work: WorkView::CallNative { name_id, args, dst, loc },
            next,
        },
        _ => BlockView { work: WorkView::Nothing, next },
    }
}

fn copy_list(v: &Vec<usize>) -> (res: Vec<usize>)
    ensures
        res@ == v@,
{
    let mut res: Vec<usize> = Vec::new();
    let mut k: usize = 0;
    while k < v.len()
        invariant
            k <= v@.len(),
            res@ == v@.take(k as int),
        decreases v@.len() - k,
    {
        res.push(v[k]);
        k = k + 1;
        assert(res@ =~= v@.take(k as int));
    }
    assert(res@ =~= v@);
    res
}

fn lower_op(i: &Instruction, k: usize) -> (res: Block)
    requires
        k < usize::MAX,
    ensures
        res@ == lowered(op_view(*i), k),
{
    let next: usize = k + 1;
    match i {
        Instruction::LoadLiteral { dst, val } => Block {
            work: Work::Constant { dst: *dst, bits: val.to_bits() },
            next,
        },
        Instruction::Move { dst, src } => Block {
            work: Work::Copy { dst: *dst, src: *src },
            next,
        },
        Instruction::Add { dst, lhs, rhs, .. } => Block {
            work: Work::Helper { helper: Helper::Add, dst: *dst, lhs: *lhs, rhs: *rhs },
            next,
        },
        Instruction::Sub { dst, lhs, rhs, .. } => Block {
            work: Work::Helper { helper: Helper::Sub, dst: *dst, lhs: *lhs, rhs: *rhs },
            next,
        },
        Instruction::Mul { dst, lhs, rhs, .. } => Block {
            work: Work::Helper { helper: Helper::Mul, dst: *dst, lhs: *lhs, rhs: *rhs },
            next,
        },
        Instruction::Div { dst, lhs, rhs, .. } => Block {
            work: Work::Helper { helper: Helper::Div, dst: *dst, lhs: *lhs, rhs: *rhs },
            next,
        },
        Instruction::Lt { dst, lhs, rhs, .. } => Block {
            work: Work::Helper { helper: Helper::LessThan, dst: *dst, lhs: *lhs, rhs: *rhs },
            next,
        },
        Instruction::Jump(target) => Block { work: Work::Nothing, next: *target },
        Instruction::JumpIfFalse { cond, target } => Block {
            work: Work::BranchIfFalse { cond: *cond, target: *target },
            next,
        },
        Instruction::LoadGlobal { dst, global } => Block {
            work: Work::LoadGlobal { dst: *dst, global: *global },
            next,
        },
        Instruction::StoreGlobal { global, src } => Block {
            work: Work::StoreGlobal { global: *global, src: *src },
            next,
        },
        Instruction::Call { name_id, args_regs, dst, loc } => Block {
            work: Work::CallNative {
                name_id: *name_id,
                args: copy_list(args_regs),
                dst: *dst,
                loc: *loc,
            },
            next,
        },
        _ => Block { work: Work::Nothing, next },
    }
}

/// The blocks of a program, one for each instruction.
pub fn lower(code: &Vec<Instruction>) -> (res: Vec<Block>)
    ensures
        res@.len() == code@.len(),
        forall|k: int|
            0 <= k < res@.len() ==> (#[trigger] res@[k])@ == lowered(
                code_view(code@)[k],
                k as usize,
            ),
{
    let mut res: Vec<Block> = Vec::new();
    let mut k: usize = 0;
    let n: usize = code.len();
    while k < n
        invariant
            k <= n == code@.len(),
            res@.len() == k,
            forall|j: int|
                0 <= j < k ==> (#[trigger] res@[j])@ == lowered(code_view(code@)[j], j as usize),
        decreases n - k,
    {
        assert(code_view(code@)[k as int] == op_view(code@[k as int]));
        res.push(lower_op(&code[k], k));
        k = k + 1;
    }
    res
}

/// The bits of two numbers, where both values are numbers. Helpers for arithmetic
/// give zero for anything else.
pub fn both_numbers(v1: u64, v2: u64) -> (res: Option<(u64, u64)>)
    ensures
        match (Value(v1).kind(), Value(v2).kind()) {
            (Kind::Number(l), Kind::Number(r)) => res == Some((l, r)),
            _ => res is None,
        },
{
    match (Value::from_bits(v1).as_number(), Value::from_bits(v2).as_number()) {
        (Some(l), Some(r)) => Some((l, r)),
        _ => None,
    }
}

/// Whether one value is less than the other, as a value. What is no number gives
/// zero.
pub fn rt_less_than(v1: u64, v2: u64) -> (res: u64)
    ensures
        res == (match (Value(v1).kind(), Value(v2).kind()) {
            (Kind::Number(l), Kind::Number(r)) => bool_value(scaled(l) < scaled(r)).0,
            _ => 0,
        }),
{
    match both_numbers(v1, v2) {
        Some((l, r)) => Value::bool(less_than(l, r)).to_bits(),
        None => 0,
    }
}

/// The message for a name that is no native function.
pub fn unknown_native(name: &str) -> (res: String)
    ensures
        res@ == "Unknown native function: "@ + name@,
{
    let mut s = String::new();
    s.append("Unknown native function: ");
    s.append(name);
    assert(s@ =~= "Unknown native function: "@ + name@);
    s
}

/// What a block does to the memory of a task, where it does it by itself.
pub open spec fn worked(ctx: Ctx, id: usize, w: WorkView) -> Ctx {
    match w {
        WorkView::Constant { dst, bits } => put(ctx, id, dst, Value(bits)),
        WorkView::Copy { dst, src } => put(ctx, id, dst, reg(ctx, id, src)),
        WorkView::LoadGlobal { dst, global } => put(ctx, id, dst, Value(ctx.globals[global as int])),
        WorkView::StoreGlobal { global, src } => Ctx {
            globals: ctx.globals.update(global as int, reg(ctx, id, src).0),
            ..ctx
        },
        _ => ctx,
    }
}

/// Native code does what the interpreter does: for the instructions that only move
/// values, the block changes the memory as the instruction does and goes on behind
/// it; for jumps, it goes where the instruction goes.
pub proof fn law_blocks_do_what_instructions_do(ctx: Ctx, id: usize, i: Instruction, k: usize)
    requires
        k < usize::MAX,
    ensures
        ({
            let b = lowered(Op::Plain(i), k);
            let e = effect(ctx, id, Op::Plain(i));
            &&& (i is LoadLiteral || i is Move || i is LoadGlobal || i is StoreGlobal) ==> e
                == Effect::Next(worked(ctx, id, b.work)) && b.next == k + 1
            &&& i is Jump ==> e == Effect::Jump(b.next) && worked(ctx, id, b.work) == ctx
            &&& i is JumpIfFalse ==> (b.work matches WorkView::BranchIfFalse { cond, target }
                && b.next == k + 1 && e == (if reg(ctx, id, cond).truthy() {
                Effect::Next(ctx)
            } else {
                Effect::Jump(target)
            }))
        }),
{
    reveal(effect);
    reveal(plain_effect);
}

/// For work on two values, native code has the helper of that name take the same
/// two values in the same order, and puts what it gives where the instruction does.
pub proof fn law_helpers_get_the_operands_in_order(ctx: Ctx, id: usize, i: Instruction, k: usize)
    requires
        k < usize::MAX,
        i is Add || i is Sub || i is Mul || i is Div || i is Lt,
    ensures
        lowered(Op::Plain(i), k).next == k + 1,
        lowered(Op::Plain(i), k).work matches WorkView::Helper { helper, dst, lhs, rhs } && {
            &&& i is Add <==> helper == Helper::Add
            &&& i is Sub <==> helper == Helper::Sub
            &&& i is Mul <==> helper == Helper::Mul
            &&& i is Div <==> helper == Helper::Div
            &&& i is Lt <==> helper == Helper::LessThan
            &&& forall|v: Value|
                !(i is Lt) ==> #[trigger] completed(ctx, id, Op::Plain(i), v) == put(ctx, id, dst, v)
            &&& reg(ctx, id, lhs).kind() matches Kind::Number(l) ==> reg(
                ctx,
                id,
                rhs,
            ).kind() matches Kind::Number(r) ==> {
                let e = effect(ctx, id, Op::Plain(i));
                &&& i is Add ==> e == Effect::Wait(Asks::Compute { op: Arith::Add, lhs: l, rhs: r })
                &&& i is Sub ==> e == Effect::Wait(Asks::Compute { op: Arith::Sub, lhs: l, rhs: r })
                &&& i is Mul ==> e == Effect::Wait(Asks::Compute { op: Arith::Mul, lhs: l, rhs: r })
                &&& i is Div ==> e == Effect::Wait(Asks::Compute { op: Arith::Div, lhs: l, rhs: r })
                &&& i is Lt ==> e == Effect::Next(
                    put(ctx, id, dst, bool_value(scaled(l) < scaled(r))),
                )
            }
        },
{
    reveal(effect);
    reveal(plain_effect);
    reveal(arith);
    reveal(e_add);
    reveal(compared);
    reveal(completed);
}

/// A call of a native function keeps its name, its arguments in their order, the
/// register for its result and its place.
pub proof fn law_native_calls_stay_as_they_are(
    name_id: u32,
    args: Seq<usize>,
    dst: Option<usize>,
    loc: Loc,
    k: usize,
)
    requires
        k < usize::MAX,
    ensures
        lowered(Op::Call { name_id, args, dst, loc }, k).work == (WorkView::CallNative {
            name_id,
            args,
            dst,
            loc,
        }),
        lowered(Op::Call { name_id, args, dst, loc }, k).next == k + 1,
{
}

} // verus!
