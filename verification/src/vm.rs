//! A machine for straight-line programs: it stores values in registers and
//! prints them.
use crate::error::ErrorLoc;
use crate::error::Fault;
use crate::error::JitError;
use crate::text::decimal;
use crate::text::push_decimal;
use vstd::prelude::*;

verus! {

/// A value of the straight-line machine.
#[derive(Debug)]
pub enum Datum {
    /// A number, by its bits.
    Number(u64),
    String(String),
    Bool(bool),
}

impl Clone for Datum {
    fn clone(&self) -> (res: Self)
        ensures
            res == *self,
    {
        match self {
            Datum::Number(n) => Datum::Number(*n),
            Datum::String(s) => Datum::String(s.clone()),
            Datum::Bool(b) => Datum::Bool(*b),
        }
    }
}

/// What is stored or printed: a constant or a register.
#[derive(Debug)]
pub enum CompiledExpr {
    Literal(Datum),
    Var(usize),
}

/// An operation, with its line and column.
#[derive(Debug)]
pub enum LineOp {
    Print(CompiledExpr, (usize, usize)),
    Store(usize, CompiledExpr, (usize, usize)),
}

/// A straight-line program.
#[derive(Debug)]
pub struct LineProgram {
    pub ops: Vec<LineOp>,
    pub locals_count: usize,
}

/// The error of a register that there is not.
pub open spec fn no_register(idx: usize, loc: (usize, usize)) -> Fault {
    Fault::Runtime {
        msg: "Register index out of bounds: "@ + decimal(idx as nat),
        loc: ErrorLoc { line: loc.0, col: loc.1 },
    }
}

fn register_error(idx: usize, loc: (usize, usize)) -> (res: JitError)
    ensures
        res@ == no_register(idx, loc),
{
    let mut msg = String::new();
    msg.append("Register index out of bounds: ");
    push_decimal(&mut msg, idx);
    assert(msg@ =~= "Register index out of bounds: "@ + decimal(idx as nat));
    JitError::Runtime { msg, loc: ErrorLoc::new(loc.0, loc.1) }
}

/// The value of an expression.
pub open spec fn evaluated(expr: CompiledExpr, regs: Seq<Datum>, loc: (usize, usize)) -> Result<
    Datum,
    Fault,
> {
    match expr {
        CompiledExpr::Literal(d) => Ok(d),
        CompiledExpr::Var(idx) => if idx < regs.len() {
            Ok(regs[idx as int])
        } else {
            Err(no_register(idx, loc))
        },
    }
}

/// The value of an expression.
pub fn eval_expr(expr: &CompiledExpr, registers: &Vec<Datum>, loc: (usize, usize)) -> (res: Result<
    Datum,
    JitError,
>)
    ensures
        match res {
            Ok(d) => evaluated(*expr, registers@, loc) == Ok::<Datum, Fault>(d),
            Err(e) => evaluated(*expr, registers@, loc) == Err::<Datum, Fault>(e@),
        },
{
    match expr {
        CompiledExpr::Literal(d) => Ok(d.clone()),
        CompiledExpr::Var(idx) => if *idx < registers.len() {
            Ok(registers[*idx].clone())
        } else {
            Err(register_error(*idx, loc))
        },
    }
}

/// The state of the machine: its registers and what it has printed.
pub struct Line {
    pub regs: Seq<Datum>,
    pub printed: Seq<Datum>,
}

/// One operation. An error leaves the state as it was.
pub open spec fn line_step(s: Line, op: LineOp) -> Result<Line, Fault> {
    match op {
        LineOp::Print(expr, loc) => match evaluated(expr, s.regs, loc) {
            Ok(d) => Ok(Line { printed: s.printed.push(d), ..s }),
            Err(e) => Err(e),
        },
        LineOp::Store(idx, expr, loc) => match evaluated(expr, s.regs, loc) {
            Ok(d) => if idx < s.regs.len() {
                Ok(Line { regs: s.regs.update(idx as int, d), ..s })
            } else {
                Err(no_register(idx, loc))
            },
            Err(e) => Err(e),
        },
    }
}

/// The operations from index `k` on: what has been printed in the end, and the
/// error that stopped the machine.
pub open spec fn line_run(s: Line, ops: Seq<LineOp>, k: int) -> (Seq<Datum>, Option<Fault>)
    decreases ops.len() - k,
{
    if k < 0 || k >= ops.len() {
        (s.printed, None)
    } else {
        match line_step(s, ops[k]) {
            Ok(t) => line_run(t, ops, k + 1),
            Err(e) => (s.printed, Some(e)),
        }
    }
}

/// The state before the first operation: every register holds false.
pub open spec fn line_start(locals_count: nat) -> Line {
    Line { regs: Seq::new(locals_count, |k: int| Datum::Bool(false)), printed: Seq::empty() }
}

/// Runs a straight-line program and gives the values that it prints, in order,
/// and the error that stopped it, where one did.
pub fn run(program: &LineProgram) -> (res: (Vec<Datum>, Result<(), JitError>))
    ensures
        ({
            let (printed, fault) = line_run(
                line_start(program.locals_count as nat),
                program.ops@,
                0,
            );
            &&& res.0@ == printed
            &&& match res.1 {
                Ok(_) => fault is None,
                Err(e) => fault == Some(e@),
            }
        }),
{
    let mut registers: Vec<Datum> = Vec::new();
    let mut k: usize = 0;
    while k < program.locals_count
        invariant
            k <= program.locals_count,
            registers@.len() == k,
            forall|j: int| 0 <= j < k ==> (#[trigger] registers@[j]) == Datum::Bool(false),
        decreases program.locals_count - k,
    {
        registers.push(Datum::Bool(false));
        k = k + 1;
    }
    let ghost start = line_start(program.locals_count as nat);
    let mut printed: Vec<Datum> = Vec::new();
    assert(registers@ =~= start.regs);
    assert(printed@ =~= start.printed);
    let mut i: usize = 0;
    while i < program.ops.len()
        invariant
            i <= program.ops@.len(),
            line_run(start, program.ops@, 0) == line_run(
                Line { regs: registers@, printed: printed@ },
                program.ops@,
                i as int,
            ),
            start == line_start(program.locals_count as nat),
        decreases program.ops@.len() - i,
    {
        match &program.ops[i] {
            LineOp::Print(expr, loc) => match eval_expr(expr, &registers, *loc) {
                Ok(d) => {
                    printed.push(d);
                },
                Err(e) => {
                    return (printed, Err(e));
                },
            },
            LineOp::Store(idx, expr, loc) => match eval_expr(expr, &registers, *loc) {
                Ok(d) => {
                    if *idx < registers.len() {
                        registers.set(*idx, d);
                    } else {
                        return (printed, Err(register_error(*idx, *loc)));
                    }
                },
                Err(e) => {
                    return (printed, Err(e));
                },
            },
        }
        i = i + 1;
    }
    (printed, Ok(()))
}

/// What is stored in a register is what the register gives from then on, and the
/// other registers and what has been printed stay.
pub proof fn law_registers_give_what_was_stored(
    s: Line,
    idx: usize,
    expr: CompiledExpr,
    loc: (usize, usize),
    other: usize,
)
    requires
        idx < s.regs.len(),
        evaluated(expr, s.regs, loc) is Ok,
    ensures
        line_step(s, LineOp::Store(idx, expr, loc)) matches Ok(t) && {
            &&& evaluated(CompiledExpr::Var(idx), t.regs, loc) == evaluated(expr, s.regs, loc)
            &&& other != idx ==> evaluated(CompiledExpr::Var(other), t.regs, loc) == evaluated(
                CompiledExpr::Var(other),
                s.regs,
                loc,
            )
            &&& t.printed == s.printed
        },
{
}

/// Printing adds the value of the expression behind what has been printed, and
/// changes no register. A constant is its own value.
pub proof fn law_values_are_printed_in_order(
    s: Line,
    expr: CompiledExpr,
    d: Datum,
    loc: (usize, usize),
)
    requires
        evaluated(expr, s.regs, loc) is Ok,
    ensures
        line_step(s, LineOp::Print(expr, loc)) matches Ok(t) && {
            &&& t.regs == s.regs
            &&& t.printed.len() == s.printed.len() + 1
            &&& t.printed.drop_last() == s.printed
            &&& evaluated(expr, s.regs, loc) == Ok::<Datum, Fault>(t.printed.last())
        },
        evaluated(CompiledExpr::Literal(d), s.regs, loc) == Ok::<Datum, Fault>(d),
{
    let v = evaluated(expr, s.regs, loc)->Ok_0;
    assert(s.printed.push(v).drop_last() =~= s.printed);
}

/// A register that is not there is an error at the place of the operation, with
/// its number. It ends the program, and what has been printed stays printed.
pub proof fn law_missing_registers_end_the_program(
    s: Line,
    ops: Seq<LineOp>,
    k: int,
    idx: usize,
    d: Datum,
    loc: (usize, usize),
)
    requires
        0 <= k < ops.len(),
        idx >= s.regs.len(),
        ops[k] == LineOp::Print(CompiledExpr::Var(idx), loc) || ops[k] == LineOp::Store(
            idx,
            CompiledExpr::Literal(d),
            loc,
        ),
    ensures
        line_run(s, ops, k) == (
            s.printed,
            Some(
                Fault::Runtime {
                    msg: "Register index out of bounds: "@ + decimal(idx as nat),
                    loc: ErrorLoc { line: loc.0, col: loc.1 },
                },
            ),
        ),
{
}

/// Operations are done one after another from the first, and a program that has
/// none left ends without an error. Before the first, nothing is printed and every
/// register is false.
pub proof fn law_operations_follow_each_other(s: Line, ops: Seq<LineOp>, k: int, n: nat, r: int)
    requires
        0 <= k <= ops.len(),
    ensures
        k == ops.len() ==> line_run(s, ops, k) == (s.printed, None::<Fault>),
        k < ops.len() ==> (line_step(s, ops[k]) matches Ok(t) ==> line_run(s, ops, k) == line_run(
            t,
            ops,
            k + 1,
        )),
        line_start(n).printed.len() == 0,
        line_start(n).regs.len() == n,
        0 <= r < n ==> line_start(n).regs[r] == Datum::Bool(false),
{
}

} // verus!
