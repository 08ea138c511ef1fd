//! The compiled form of a script: instructions, functions and programs.
use crate::value::Kind;
use crate::value::Value;
use std::sync::Arc;
use vstd::prelude::*;

verus! {

/// A place in the source text.
#[derive(Debug, Clone, Copy, PartialEq, Eq, Structural)]
pub struct Loc {
    pub line: u32,
    pub col: u32,
}

impl From<(usize, usize)> for Loc {
    fn from(place: (usize, usize)) -> (res: Self) {
        Self { line: place.0 as u32, col: place.1 as u32 }
    }
}

impl vstd::std_specs::convert::FromSpecImpl<(usize, usize)> for Loc {
    open spec fn obeys_from_spec() -> bool {
        true
    }

    open spec fn from_spec(place: (usize, usize)) -> Self {
        Loc { line: place.0 as u32, col: place.1 as u32 }
    }
}

/// The instructions of the register machine.
#[derive(Debug)]
#[allow(inconsistent_fields)]
pub enum Instruction {
    /// Put a constant into a register.
    LoadLiteral { dst: usize, val: Value },
    /// Copy a register.
    Move { dst: usize, src: usize },
    LoadGlobal { dst: usize, global: usize },
    StoreGlobal { global: usize, src: usize },
    /// Go on at the given instruction.
    Jump(usize),
    /// Go on at the given instruction unless the register counts as true.
    JumpIfFalse { cond: usize, target: usize },
    /// Add numbers or join texts.
    Add { dst: usize, lhs: usize, rhs: usize, loc: Loc },
    Sub { dst: usize, lhs: usize, rhs: usize, loc: Loc },
    Mul { dst: usize, lhs: usize, rhs: usize, loc: Loc },
    Div { dst: usize, lhs: usize, rhs: usize, loc: Loc },
    /// Add one to the number in a register.
    Increment(usize),
    /// Add one to the number in a global.
    IncrementGlobal(usize),
    Eq { dst: usize, lhs: usize, rhs: usize },
    Ne { dst: usize, lhs: usize, rhs: usize },
    Lt { dst: usize, lhs: usize, rhs: usize, loc: Loc },
    Le { dst: usize, lhs: usize, rhs: usize, loc: Loc },
    Gt { dst: usize, lhs: usize, rhs: usize, loc: Loc },
    Ge { dst: usize, lhs: usize, rhs: usize, loc: Loc },
    Not { dst: usize, src: usize, loc: Loc },
    /// Make a range; without a step register the step is one.
    Range { dst: usize, start: usize, end: usize, step: Option<usize>, loc: Loc },
    /// Take a range apart.
    RangeInfo { range: usize, start_dst: usize, end_dst: usize, step_dst: usize },
    /// Start a task with registers of its own.
    Spawn {
        instructions: Arc<Vec<Instruction>>,
        locals_count: usize,
        /// The registers that the task starts with.
        captures: Arc<Vec<usize>>,
    },
    NewList { dst: usize, len: usize },
    ListGet { dst: usize, list: usize, index_reg: usize, loc: Loc },
    ListSet { list: usize, index_reg: usize, src: usize, loc: Loc },
    NewObject { dst: usize, capacity: usize },
    ObjectGet { dst: usize, obj: usize, name_id: u32, loc: Loc },
    ObjectSet { obj: usize, name_id: u32, src: usize, loc: Loc },
    /// Call the function whose name is in the string pool.
    Call { name_id: u32, args_regs: Arc<Vec<usize>>, dst: Option<usize>, loc: Loc },
    /// Call the function or method that a register names.
    CallDynamic { callee_reg: usize, args_regs: Arc<Vec<usize>>, dst: Option<usize>, loc: Loc },
    Return(Option<usize>),
}

/// An instruction with its lists as sequences.
pub enum Op {
    /// An instruction without a list.
    Plain(Instruction),
    Spawn { body: Seq<Op>, locals_count: usize, captures: Seq<usize> },
    Call { name_id: u32, args: Seq<usize>, dst: Option<usize>, loc: Loc },
    CallDynamic { callee_reg: usize, args: Seq<usize>, dst: Option<usize>, loc: Loc },
}

/// The view of one instruction.
pub open spec fn op_view(i: Instruction) -> Op
    decreases i,
{
    match i {
        Instruction::Spawn { instructions, locals_count, captures } => Op::Spawn {
            body: code_view((*instructions)@),
            locals_count,
            captures: (*captures)@,
        },
        Instruction::Call { name_id, args_regs, dst, loc } => Op::Call {
            name_id,
            args: (*args_regs)@,
            dst,
            loc,
        },
        Instruction::CallDynamic { callee_reg, args_regs, dst, loc } => Op::CallDynamic {
            callee_reg,
            args: (*args_regs)@,
            dst,
            loc,
        },
        other => Op::Plain(other),
    }
}

/// The view of a list of instructions.
pub open spec fn code_view(c: Seq<Instruction>) -> Seq<Op>
    decreases c,
{
    Seq::new(
        c.len(),
        |k: int|
            if 0 <= k < c.len() {
                op_view(c[k])
            } else {
                arbitrary()
            },
    )
}

pub proof fn lemma_code_push(c: Seq<Instruction>, i: Instruction)
    ensures
        code_view(c.push(i)) == code_view(c).push(op_view(i)),
{
    assert(code_view(c.push(i)) =~= code_view(c).push(op_view(i)));
}

pub proof fn lemma_code_update(c: Seq<Instruction>, k: int, i: Instruction)
    requires
        0 <= k < c.len(),
    ensures
        code_view(c.update(k, i)) == code_view(c).update(k, op_view(i)),
{
    assert(code_view(c.update(k, i)) =~= code_view(c).update(k, op_view(i)));
}

/// A compiled function.
#[derive(Debug)]
pub struct UserFunction {
    /// Where its name stands in the string pool.
    pub name_id: u32,
    pub instructions: Arc<Vec<Instruction>>,
    /// How many registers a call needs.
    pub locals_count: usize,
    pub params_count: usize,
}

/// A function with its code as a sequence.
pub struct FunctionView {
    pub name_id: u32,
    pub code: Seq<Op>,
    pub locals_count: usize,
    pub params_count: usize,
}

impl View for UserFunction {
    type V = FunctionView;

    open spec fn view(&self) -> FunctionView {
        FunctionView {
            name_id: self.name_id,
            code: code_view((*self.instructions)@),
            locals_count: self.locals_count,
            params_count: self.params_count,
        }
    }
}

/// The views of a list of functions.
pub open spec fn function_views(v: Seq<UserFunction>) -> Seq<FunctionView> {
    v.map_values(|f: UserFunction| f@)
}

/// The texts of a list of strings.
pub open spec fn texts(v: Seq<String>) -> Seq<Seq<char>> {
    v.map_values(|s: String| s@)
}

/// A compiled script.
#[derive(Debug)]
pub struct Program {
    /// The code of the main script.
    pub instructions: Arc<Vec<Instruction>>,
    pub functions: Vec<UserFunction>,
    /// The names and the longer texts of the script, each once.
    pub string_pool: Vec<String>,
    /// How many registers the main script needs.
    pub locals_count: usize,
    pub globals_count: usize,
}

/// A program with its lists as sequences.
pub struct ProgramView {
    pub code: Seq<Op>,
    pub functions: Seq<FunctionView>,
    pub strings: Seq<Seq<char>>,
    pub locals_count: usize,
    pub globals_count: usize,
}

impl View for Program {
    type V = ProgramView;

    open spec fn view(&self) -> ProgramView {
        ProgramView {
            code: code_view((*self.instructions)@),
            functions: function_views(self.functions@),
            strings: texts(self.string_pool@),
            locals_count: self.locals_count,
            globals_count: self.globals_count,
        }
    }
}

/// The bounds that the operands of an instruction have to keep.
pub struct Bounds {
    pub regs: nat,
    pub globals: nat,
    pub names: nat,
}

pub open spec fn opt_below(r: Option<usize>, n: nat) -> bool {
    r matches Some(k) ==> k < n
}

pub open spec fn all_below(s: Seq<usize>, n: nat) -> bool {
    forall|k: int| 0 <= k < s.len() ==> #[trigger] s[k] < n
}

/// Registers, globals and names of an instruction are within the bounds.
pub open spec fn op_ok(op: Op, b: Bounds) -> bool
    decreases op,
{
    match op {
        Op::Plain(i) => match i {
            Instruction::LoadLiteral { dst, .. } => dst < b.regs,
            Instruction::Move { dst, src } => dst < b.regs && src < b.regs,
            Instruction::LoadGlobal { dst, global } => dst < b.regs && global < b.globals,
            Instruction::StoreGlobal { global, src } => global < b.globals && src < b.regs,
            Instruction::Jump(_) => true,
            Instruction::JumpIfFalse { cond, .. } => cond < b.regs,
            Instruction::Add { dst, lhs, rhs, .. } => dst < b.regs && lhs < b.regs && rhs < b.regs,
            Instruction::Sub { dst, lhs, rhs, .. } => dst < b.regs && lhs < b.regs && rhs < b.regs,
            Instruction::Mul { dst, lhs, rhs, .. } => dst < b.regs && lhs < b.regs && rhs < b.regs,
            Instruction::Div { dst, lhs, rhs, .. } => dst < b.regs && lhs < b.regs && rhs < b.regs,
            Instruction::Increment(r) => r < b.regs,
            Instruction::IncrementGlobal(g) => g < b.globals,
            Instruction::Eq { dst, lhs, rhs } => dst < b.regs && lhs < b.regs && rhs < b.regs,
            Instruction::Ne { dst, lhs, rhs } => dst < b.regs && lhs < b.regs && rhs < b.regs,
            Instruction::Lt { dst, lhs, rhs, .. } => dst < b.regs && lhs < b.regs && rhs < b.regs,
            Instruction::Le { dst, lhs, rhs, .. } => dst < b.regs && lhs < b.regs && rhs < b.regs,
            Instruction::Gt { dst, lhs, rhs, .. } => dst < b.regs && lhs < b.regs && rhs < b.regs,
            Instruction::Ge { dst, lhs, rhs, .. } => dst < b.regs && lhs < b.regs && rhs < b.regs,
            Instruction::Not { dst, src, .. } => dst < b.regs && src < b.regs,
            Instruction::Range { dst, start, end, step, .. } => dst < b.regs && start < b.regs
                && end < b.regs && opt_below(step, b.regs),
            Instruction::RangeInfo { range, start_dst, end_dst, step_dst } => range < b.regs
                && start_dst < b.regs && end_dst < b.regs && step_dst < b.regs,
            Instruction::NewList { dst, .. } => dst < b.regs,
            Instruction::ListGet { dst, list, index_reg, .. } => dst < b.regs && list < b.regs
                && index_reg < b.regs,
            Instruction::ListSet { list, index_reg, src, .. } => list < b.regs && index_reg < b.regs
                && src < b.regs,
            Instruction::NewObject { dst, .. } => dst < b.regs,
            Instruction::ObjectGet { dst, obj, name_id, .. } => dst < b.regs && obj < b.regs
                && name_id < b.names,
            Instruction::ObjectSet { obj, name_id, src, .. } => obj < b.regs && src < b.regs
                && name_id < b.names,
            Instruction::Return(r) => opt_below(r, b.regs),
            _ => false,
        },
        Op::Spawn { body, locals_count, captures } => {
            &&& code_ok(body, Bounds { regs: locals_count as nat, ..b })
            &&& all_below(captures, b.regs)
            &&& all_below(captures, locals_count as nat)
        },
        Op::Call { name_id, args, dst, .. } => name_id < b.names && all_below(args, b.regs)
            && opt_below(dst, b.regs),
        Op::CallDynamic { callee_reg, args, dst, .. } => callee_reg < b.regs && all_below(
            args,
            b.regs,
        ) && opt_below(dst, b.regs),
    }
}

/// All the instructions keep the bounds.
pub open spec fn code_ok(c: Seq<Op>, b: Bounds) -> bool
    decreases c,
{
    forall|k: int| 0 <= k < c.len() ==> op_ok(#[trigger] c[k], b)
}

/// The instruction at an index keeps the bounds that all of them keep.
pub proof fn lemma_code_ok_at(c: Seq<Op>, b: Bounds, k: int)
    requires
        code_ok(c, b),
        0 <= k < c.len(),
    ensures
        op_ok(c[k], b),
{
}

/// One set of bounds leaves no less room than another.
pub open spec fn roomier(a: Bounds, b: Bounds) -> bool {
    b.regs >= a.regs && b.globals >= a.globals && b.names >= a.names
}

/// With more room the bounds are kept all the same.
pub proof fn lemma_op_ok_more(op: Op, a: Bounds, b: Bounds)
    requires
        op_ok(op, a),
        roomier(a, b),
    ensures
        op_ok(op, b),
    decreases op,
{
    if let Op::Spawn { body, locals_count, .. } = op {
        lemma_code_ok_more(
            body,
            Bounds { regs: locals_count as nat, ..a },
            Bounds { regs: locals_count as nat, ..b },
        );
    }
}

/// With more room the bounds are kept all the same.
pub proof fn lemma_code_ok_more(c: Seq<Op>, a: Bounds, b: Bounds)
    requires
        code_ok(c, a),
        roomier(a, b),
    ensures
        code_ok(c, b),
    decreases c,
{
    assert forall|k: int| 0 <= k < c.len() implies op_ok(#[trigger] c[k], b) by {
        lemma_op_ok_more(c[k], a, b);
    }
}

/// An instruction of a list goes on within the list or at its end, and so do those
/// of the task that it starts within theirs.
pub open spec fn op_jumps(op: Op, len: nat) -> bool
    decreases op,
{
    match op {
        Op::Plain(Instruction::Jump(target)) => target <= len,
        Op::Plain(Instruction::JumpIfFalse { target, .. }) => target <= len,
        Op::Spawn { body, .. } => code_jumps(body, body.len()),
        _ => true,
    }
}

/// The instructions go on at no place after the given one.
pub open spec fn code_jumps(c: Seq<Op>, len: nat) -> bool
    decreases c,
{
    forall|k: int| 0 <= k < c.len() ==> op_jumps(#[trigger] c[k], len)
}

/// A text that an instruction loads by its number is in the string pool.
pub open spec fn op_literals(op: Op, names: nat) -> bool
    decreases op,
{
    match op {
        Op::Plain(Instruction::LoadLiteral { val, .. }) => literal_ok(val, names),
        Op::Spawn { body, .. } => code_literals(body, names),
        _ => true,
    }
}

pub open spec fn literal_ok(val: Value, names: nat) -> bool {
    val.kind() matches Kind::Object(id) ==> id < names
}

/// The texts that the instructions load by their numbers are in the string pool.
pub open spec fn code_literals(c: Seq<Op>, names: nat) -> bool
    decreases c,
{
    forall|k: int| 0 <= k < c.len() ==> op_literals(#[trigger] c[k], names)
}

pub proof fn lemma_jumps_at(c: Seq<Op>, len: nat, k: int)
    requires
        code_jumps(c, len),
        0 <= k < c.len(),
    ensures
        op_jumps(c[k], len),
{
}

pub proof fn lemma_literals_at(c: Seq<Op>, names: nat, k: int)
    requires
        code_literals(c, names),
        0 <= k < c.len(),
    ensures
        op_literals(c[k], names),
{
}

/// In a longer list there is more to go on at.
pub proof fn lemma_jumps_more(c: Seq<Op>, m: nat, n: nat)
    requires
        code_jumps(c, m),
        m <= n,
    ensures
        code_jumps(c, n),
{
    assert forall|k: int| 0 <= k < c.len() implies op_jumps(#[trigger] c[k], n) by {
        lemma_jumps_at(c, m, k);
    }
}

/// In a larger pool the texts are there all the same.
pub proof fn lemma_op_literals_more(op: Op, m: nat, n: nat)
    requires
        op_literals(op, m),
        m <= n,
    ensures
        op_literals(op, n),
    decreases op,
{
    if let Op::Spawn { body, .. } = op {
        lemma_literals_more(body, m, n);
    }
}

/// In a larger pool the texts are there all the same.
pub proof fn lemma_literals_more(c: Seq<Op>, m: nat, n: nat)
    requires
        code_literals(c, m),
        m <= n,
    ensures
        code_literals(c, n),
    decreases c,
{
    assert forall|k: int| 0 <= k < c.len() implies op_literals(#[trigger] c[k], n) by {
        lemma_op_literals_more(c[k], m, n);
    }
}

/// How many instructions give a global a value, those of the tasks that an
/// instruction starts among them.
pub open spec fn op_stores(op: Op, g: usize) -> nat
    decreases op,
{
    match op {
        Op::Plain(Instruction::StoreGlobal { global, .. }) => if global == g {
            1
        } else {
            0
        },
        Op::Plain(Instruction::IncrementGlobal(global)) => if global == g {
            1
        } else {
            0
        },
        Op::Spawn { body, .. } => code_stores(body, g),
        _ => 0,
    }
}

/// How many instructions of a list give a global a value.
pub open spec fn code_stores(c: Seq<Op>, g: usize) -> nat
    decreases c,
{
    if c.len() == 0 {
        0
    } else {
        proof {
            assert(decreases_to!(c => c.subrange(0, c.len() - 1)));
        }
        code_stores(c.subrange(0, c.len() - 1), g) + op_stores(c[c.len() - 1], g)
    }
}

/// How many instructions of the functions give a global a value.
pub open spec fn function_stores(fs: Seq<FunctionView>, g: usize) -> nat
    decreases fs.len(),
{
    if fs.len() == 0 {
        0
    } else {
        function_stores(fs.drop_last(), g) + code_stores(fs.last().code, g)
    }
}

pub proof fn lemma_stores_push(c: Seq<Op>, op: Op, g: usize)
    ensures
        code_stores(c.push(op), g) == code_stores(c, g) + op_stores(op, g),
{
    assert(c.push(op).subrange(0, c.len() as int) =~= c);
}

/// Two instructions that do not store can take each other's place.
pub proof fn lemma_stores_update(c: Seq<Op>, k: int, op: Op, g: usize)
    requires
        0 <= k < c.len(),
        op_stores(c[k], g) == 0,
        op_stores(op, g) == 0,
    ensures
        code_stores(c.update(k, op), g) == code_stores(c, g),
    decreases c.len(),
{
    let n = c.len() - 1;
    let d = c.update(k, op);
    if k == n {
        assert(d.subrange(0, n) =~= c.subrange(0, n));
    } else {
        assert(d.subrange(0, n) =~= c.subrange(0, n).update(k, op));
        lemma_stores_update(c.subrange(0, n), k, op, g);
    }
}

pub proof fn lemma_function_stores_push(fs: Seq<FunctionView>, f: FunctionView, g: usize)
    ensures
        function_stores(fs.push(f), g) == function_stores(fs, g) + code_stores(f.code, g),
{
    assert(fs.push(f).drop_last() =~= fs);
}

impl ProgramView {
    /// No jump leads out of its list of instructions.
    pub open spec fn jumps_inside(self) -> bool {
        &&& code_jumps(self.code, self.code.len())
        &&& forall|k: int|
            0 <= k < self.functions.len() ==> code_jumps(
                (#[trigger] self.functions[k]).code,
                self.functions[k].code.len(),
            )
    }

    /// Every text that is loaded by its number is in the string pool.
    pub open spec fn literals_inside(self) -> bool {
        &&& code_literals(self.code, self.strings.len())
        &&& forall|k: int|
            0 <= k < self.functions.len() ==> code_literals(
                (#[trigger] self.functions[k]).code,
                self.strings.len(),
            )
    }

    /// How many instructions of the program give a global a value.
    pub open spec fn stores(self, g: usize) -> nat {
        code_stores(self.code, g) + function_stores(self.functions, g)
    }

    /// Every instruction names only registers, globals and strings that exist.
    pub open spec fn well_formed(self) -> bool {
        let b = Bounds {
            regs: self.locals_count as nat,
            globals: self.globals_count as nat,
            names: self.strings.len(),
        };
        &&& code_ok(self.code, b)
        &&& forall|k: int|
            0 <= k < self.functions.len() ==> self.function_ok(#[trigger] self.functions[k])
    }

    /// The function keeps within its registers.
    pub open spec fn function_ok(self, f: FunctionView) -> bool {
        code_ok(
            f.code,
            Bounds {
                regs: f.locals_count as nat,
                globals: self.globals_count as nat,
                names: self.strings.len(),
            },
        )
    }
}

fn below_opt(r: Option<usize>, n: usize) -> (res: bool)
    ensures
        res == opt_below(r, n as nat),
{
    match r {
        Some(k) => k < n,
        None => true,
    }
}

fn below_all(v: &Vec<usize>, n: usize) -> (res: bool)
    ensures
        res == all_below(v@, n as nat),
{
    let mut k: usize = 0;
    while k < v.len()
        invariant
            k <= v@.len(),
            forall|j: int| 0 <= j < k ==> #[trigger] v@[j] < n,
        decreases v@.len() - k,
    {
        if v[k] >= n {
            return false;
        }
        k = k + 1;
    }
    true
}

/// Whether an instruction keeps the bounds.
fn check_op(i: &Instruction, regs: usize, globals: usize, names: usize) -> (res: bool)
    ensures
        res == op_ok(
            op_view(*i),
            Bounds { regs: regs as nat, globals: globals as nat, names: names as nat },
        ),
    decreases *i,
{
    match i {
        Instruction::LoadLiteral { dst, .. } => *dst < regs,
        Instruction::Move { dst, src } => *dst < regs && *src < regs,
        Instruction::LoadGlobal { dst, global } => *dst < regs && *global < globals,
        Instruction::StoreGlobal { global, src } => *global < globals && *src < regs,
        Instruction::Jump(_) => true,
        Instruction::JumpIfFalse { cond, .. } => *cond < regs,
        Instruction::Add { dst, lhs, rhs, .. } => *dst < regs && *lhs < regs && *rhs < regs,
        Instruction::Sub { dst, lhs, rhs, .. } => *dst < regs && *lhs < regs && *rhs < regs,
        Instruction::Mul { dst, lhs, rhs, .. } => *dst < regs && *lhs < regs && *rhs < regs,
        Instruction::Div { dst, lhs, rhs, .. } => *dst < regs && *lhs < regs && *rhs < regs,
        Instruction::Increment(r) => *r < regs,
        Instruction::IncrementGlobal(g) => *g < globals,
        Instruction::Eq { dst, lhs, rhs } => *dst < regs && *lhs < regs && *rhs < regs,
        Instruction::Ne { dst, lhs, rhs } => *dst < regs && *lhs < regs && *rhs < regs,
        Instruction::Lt { dst, lhs, rhs, .. } => *dst < regs && *lhs < regs && *rhs < regs,
        Instruction::Le { dst, lhs, rhs, .. } => *dst < regs && *lhs < regs && *rhs < regs,
        Instruction::Gt { dst, lhs, rhs, .. } => *dst < regs && *lhs < regs && *rhs < regs,
        Instruction::Ge { dst, lhs, rhs, .. } => *dst < regs && *lhs < regs && *rhs < regs,
        Instruction::Not { dst, src, .. } => *dst < regs && *src < regs,
        Instruction::Range { dst, start, end, step, .. } => *dst < regs && *start < regs && *end
            < regs && below_opt(*step, regs),
        Instruction::RangeInfo { range, start_dst, end_dst, step_dst } => *range < regs
            && *start_dst < regs && *end_dst < regs && *step_dst < regs,
        Instruction::Spawn { instructions, locals_count, captures } => check_code(
            instructions,
            *locals_count,
            globals,
            names,
        ) && below_all(captures, regs) && below_all(captures, *locals_count),
        Instruction::NewList { dst, .. } => *dst < regs,
        Instruction::ListGet { dst, list, index_reg, .. } => *dst < regs && *list < regs
            && *index_reg < regs,
        Instruction::ListSet { list, index_reg, src, .. } => *list < regs && *index_reg < regs
            && *src < regs,
        Instruction::NewObject { dst, .. } => *dst < regs,
        Instruction::ObjectGet { dst, obj, name_id, .. } => *dst < regs && *obj < regs && (
            *name_id as usize) < names,
        Instruction::ObjectSet { obj, name_id, src, .. } => *obj < regs && *src < regs && (
            *name_id as usize) < names,
        Instruction::Call { name_id, args_regs, dst, .. } => (*name_id as usize) < names
            && below_all(args_regs, regs) && below_opt(*dst, regs),
        Instruction::CallDynamic { callee_reg, args_regs, dst, .. } => *callee_reg < regs
            && below_all(args_regs, regs) && below_opt(*dst, regs),
        Instruction::Return(r) => below_opt(*r, regs),
    }
}

/// Whether all the instructions keep the bounds.
fn check_code(c: &Vec<Instruction>, regs: usize, globals: usize, names: usize) -> (res: bool)
    ensures
        res == code_ok(
            code_view(c@),
            Bounds { regs: regs as nat, globals: globals as nat, names: names as nat },
        ),
    decreases *c,
{
    let ghost b = Bounds { regs: regs as nat, globals: globals as nat, names: names as nat };
    let mut k: usize = 0;
    while k < c.len()
        invariant
            k <= c@.len(),
            b == (Bounds { regs: regs as nat, globals: globals as nat, names: names as nat }),
            forall|j: int| 0 <= j < k ==> op_ok(#[trigger] code_view(c@)[j], b),
        decreases c@.len() - k,
    {
        assert(code_view(c@)[k as int] == op_view(c@[k as int]));
        assert(decreases_to!(*c => c@[k as int]));
        if !check_op(&c[k], regs, globals, names) {
            proof {
                if code_ok(code_view(c@), b) {
                    lemma_code_ok_at(code_view(c@), b, k as int);
                }
            }
            return false;
        }
        k = k + 1;
    }
    true
}

impl Program {
    /// Whether every instruction names only registers, globals and strings that
    /// exist.
    pub fn is_well_formed(&self) -> (res: bool)
        ensures
            res == self@.well_formed(),
    {
        let names: usize = self.string_pool.len();
        if !check_code(&self.instructions, self.locals_count, self.globals_count, names) {
            return false;
        }
        let mut k: usize = 0;
        while k < self.functions.len()
            invariant
                k <= self.functions@.len(),
                names == self@.strings.len(),
                forall|j: int|
                    0 <= j < k ==> self@.function_ok(#[trigger] self@.functions[j]),
            decreases self.functions@.len() - k,
        {
            assert(self@.functions[k as int] == self.functions@[k as int]@);
            let f = &self.functions[k];
            if !check_code(&f.instructions, f.locals_count, self.globals_count, names) {
                return false;
            }
            k = k + 1;
        }
        true
    }
}

} // verus!
