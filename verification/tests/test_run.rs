//! Whole scripts, run with a small owner of the machine that does arithmetic,
//! keeps what is printed and takes every timestamp to be half a second old.
use yatsuscript::compiler::Instruction;
use yatsuscript::compiler::Loc;
use yatsuscript::compiler::Program;
use yatsuscript::context::Context;
use yatsuscript::context::Native;
use yatsuscript::display::Piece;
use yatsuscript::error::JitError;
use yatsuscript::interpreter::execute_bytecode;
use yatsuscript::interpreter::Action;
use yatsuscript::interpreter::Task;
use yatsuscript::lexer::number_literals;
use yatsuscript::machine::Arith;
use yatsuscript::natives::make_text_value;
use yatsuscript::natives::make_timestamp;
use yatsuscript::natives::plan_native;
use yatsuscript::natives::Plan;
use yatsuscript::parser::NumberLit;
use yatsuscript::parser::Parser;
use yatsuscript::run::prepare;
use yatsuscript::serve::error_response;
use yatsuscript::serve::not_found;
use yatsuscript::serve::request_text;
use yatsuscript::serve::response;
use yatsuscript::serve::start_handler;
use yatsuscript::value::Value;

fn compile(source: &str) -> Result<Program, JitError> {
    let numbers: Vec<NumberLit> = number_literals(source)
        .iter()
        .map(|text| {
            let n: f64 = text.replace('_', "").parse().expect("number literals parse");
            NumberLit {
                bits: n.to_bits(),
                debug: format!("{:?}", n),
            }
        })
        .collect();
    Parser::new(source, &numbers)?.compile()
}

fn spell(pieces: &[Piece]) -> String {
    pieces
        .iter()
        .map(|piece| match piece {
            Piece::Text(s) => s.clone(),
            Piece::Number(bits) => format!("{}", f64::from_bits(*bits)),
            Piece::Instant(t) => format!("#{t}"),
        })
        .collect()
}

fn compute(op: Arith, lhs: u64, rhs: u64) -> Value {
    let (l, r) = (f64::from_bits(lhs), f64::from_bits(rhs));
    let n = match op {
        Arith::Add => l + r,
        Arith::Sub => l - r,
        Arith::Mul => l * r,
        Arith::Div => l / r,
    };
    Value::number(n.to_bits())
}

#[derive(Default)]
struct Owner {
    printed: Vec<String>,
    slept: Vec<u64>,
    fetched: Vec<String>,
    served: Vec<(u16, String)>,
    /// How many instructions a task runs at a time.
    slice: Option<usize>,
}

impl Owner {
    fn native(&mut self, ctx: &mut Context, plan: Plan) -> Result<Value, JitError> {
        let zero = Value::number(0);
        match plan {
            Plan::Give(v) => Ok(v),
            Plan::Print(pieces) => {
                self.printed.push(spell(&pieces));
                Ok(zero)
            }
            Plan::Time => Ok(Value::number(1234.5f64.to_bits())),
            Plan::Timestamp => Ok(make_timestamp(ctx, 7)),
            Plan::Sleep { millis } => {
                self.slept.push(millis);
                Ok(zero)
            }
            Plan::Fetch { url } => {
                self.fetched.push(url);
                Ok(zero)
            }
            Plan::Serve { port, handler } => {
                self.served.push((port, handler));
                Ok(zero)
            }
            Plan::Steps { start, end, step } => {
                let (a, b, s) = (
                    f64::from_bits(start),
                    f64::from_bits(end),
                    f64::from_bits(step),
                );
                Ok(Value::number(((b - a) / s).ceil().max(0.0).to_bits()))
            }
            Plan::Spell(pieces) => Ok(make_text_value(ctx, spell(&pieces))),
            Plan::Fail(e) => Err(e),
        }
    }

    /// Runs tasks in turn until all have come to an end.
    fn drive(&mut self, ctx: &mut Context, main: Task) -> Result<Value, JitError> {
        let mut queue = std::collections::VecDeque::from([main]);
        let mut result = Value::number(0);
        let slice = self.slice.unwrap_or(1000);
        while let Some(mut task) = queue.pop_front() {
            let main = task.id == 0;
            let mut action = execute_bytecode(ctx, &mut task, slice);
            loop {
                action = match action {
                    Action::Running => {
                        if task.frames.is_empty() {
                            break;
                        }
                        execute_bytecode(ctx, &mut task, slice)
                    }
                    Action::Yield => {
                        queue.push_back(task);
                        break;
                    }
                    Action::Done(v) => {
                        if main {
                            result = v;
                        }
                        break;
                    }
                    Action::Fail(e) => return Err(e),
                    Action::Compute { op, lhs, rhs } => {
                        task.resume(ctx, compute(op, lhs, rhs))
                    }
                    Action::Elapsed(_) => task.resume(ctx, Value::number(0.5f64.to_bits())),
                    Action::Native { native, args, loc } => {
                        let plan = plan_native(ctx, native, &args, loc);
                        let v = self.native(ctx, plan)?;
                        task.resume(ctx, v)
                    }
                    Action::Spawn { task: other, yields } => {
                        queue.push_back(other);
                        if yields {
                            queue.push_back(task);
                            break;
                        }
                        Action::Running
                    }
                };
            }
        }
        Ok(result)
    }
}

fn start(source: &str) -> (Context, Task) {
    let program = compile(source).expect("the script compiles");
    assert!(program.is_well_formed());
    prepare(program)
}

fn run(source: &str) -> Vec<String> {
    let (mut ctx, main) = start(source);
    let mut owner = Owner::default();
    owner.drive(&mut ctx, main).expect("the script runs");
    owner.printed
}

fn failure(source: &str) -> String {
    let (mut ctx, main) = start(source);
    let mut owner = Owner::default();
    match owner.drive(&mut ctx, main) {
        Ok(_) => panic!("the script should fail"),
        Err(e) => e.to_text(),
    }
}

fn compile_failure(source: &str) -> String {
    compile(source).expect_err("the script should not compile").to_text()
}

// Variables

#[test]
fn assignment_changes_mutable_variables() {
    assert_eq!(run("let x: 10\nmut y: 20\ny: x + y\nprint(y)"), ["30"]);
}

#[test]
fn immutable_variables_cannot_be_assigned() {
    assert_eq!(
        compile_failure("let pi: 3.14\npi: 3"),
        "Redefinition of immutable variable at 2:0: 'pi' was already defined on line 2"
    );
    assert_eq!(
        compile_failure("fn f() {\n    let n: 1 n: n + 1\n}"),
        "Redefinition of immutable variable at 2:0: 'n' was already defined on line 2"
    );
}

#[test]
fn parameters_are_immutable() {
    assert_eq!(
        compile_failure("fn f(a) {\n    a: 2\n}"),
        "Redefinition of immutable variable at 3:0: 'a' was already defined on line 1"
    );
}

#[test]
fn unknown_variables_cannot_be_assigned() {
    assert_eq!(
        compile_failure("ghost: 1"),
        "Unknown variable at 1:6: ghost"
    );
}

#[test]
fn functions_do_not_see_the_locals_around_them() {
    // Inside the function `i` is no variable any more, but a name.
    assert_eq!(
        failure("for i in 0..1 {\n    fn f() {\n        return i + 1\n    }\n    f()\n}"),
        "Runtime error at 3:20: Add error: expected numbers or strings"
    );
}

#[test]
fn comments_may_follow_statements() {
    let source = "// Variables\nlet x: 10      // Immutable\nmut y: 20      // Mutable\ny: x + y       // Assignment\nmut counter: 0\ncounter: counter + 1      // Assignment uses ':'\nprint(y, counter) // done\n";
    assert_eq!(run(source), ["30 1"]);
}

#[test]
fn immutable_globals_are_stored_once() {
    let program = compile("let a: 1\nmut b: a\nb: b + 1\nb: a + b\nfn f() {\n    b: a\n}\nspawn {\n    b: a + 2\n}").expect("the script compiles");
    fn stores(code: &[Instruction], g: usize) -> usize {
        code.iter()
            .map(|i| match i {
                Instruction::StoreGlobal { global, .. } => (*global == g) as usize,
                Instruction::IncrementGlobal(global) => (*global == g) as usize,
                Instruction::Spawn { instructions, .. } => stores(instructions, g),
                _ => 0,
            })
            .sum()
    }
    let total = |g: usize| {
        stores(&program.instructions, g)
            + program.functions.iter().map(|f| stores(&f.instructions, g)).sum::<usize>()
    };
    assert_eq!(total(0), 1);
    assert_eq!(total(1), 5);
}

// Arithmetic and texts

#[test]
fn operators_bind_by_precedence() {
    assert_eq!(run("print(1 + 2 * 3)\nprint((1 + 2) * 3)\nprint(10 - 4 - 3)\nprint(8 / 4 / 2)"), ["7", "9", "3", "1"]);
}

#[test]
fn comparisons_give_truth_values() {
    assert_eq!(
        run("print(1 < 2, 2 <= 2, 1 > 2, 2 >= 3, 1 == 1, 1 != 1)"),
        ["true true false false true false"]
    );
}

#[test]
fn texts_are_joined_and_compared_by_their_characters() {
    assert_eq!(
        run("let a: \"Hello, \" + \"developer\"\nprint(a)\nprint(a == \"Hello, developer\", \"ab\" == \"a\" + \"b\", \"a\" == \"b\")"),
        ["Hello, developer", "true true false"]
    );
}

#[test]
fn escapes_in_strings_are_resolved() {
    assert_eq!(run(r#"print("a\tb\u0041\"")"#), ["a\tbA\""]);
}

#[test]
fn numbers_and_texts_are_not_added() {
    assert_eq!(
        failure("let a: 1 + \"x\""),
        "Runtime error at 1:12: Add error: expected numbers or strings"
    );
    assert_eq!(
        failure("let a: \"x\" * 2"),
        "Runtime error at 1:14: Math error: expected numbers for '*'"
    );
    assert_eq!(
        failure("let a: true < 2"),
        "Runtime error at 1:15: Compare error: expected numbers for '<'"
    );
}

// Functions

#[test]
fn functions_return_values() {
    assert_eq!(
        run("fn greet(name) {\n    let msg: \"Hello, \" + name\n    return msg\n}\nprint(greet(\"developer\"))"),
        ["Hello, developer"]
    );
}

#[test]
fn functions_call_themselves() {
    assert_eq!(
        run("fn fib(n) {\n    if n < 2 {\n        return n\n    }\n    return fib(n - 1) + fib(n - 2)\n}\nprint(fib(15))"),
        ["610"]
    );
}

#[test]
fn functions_are_first_class() {
    assert_eq!(
        run("fn twice(n) {\n    return n * 2\n}\nlet f: twice\nprint(f(21))"),
        ["42"]
    );
}

#[test]
fn functions_without_return_give_zero() {
    assert_eq!(run("fn f() {\n}\nprint(f())"), ["0"]);
}

#[test]
fn calls_need_as_many_arguments_as_parameters() {
    assert_eq!(
        failure("fn f(a, b) {\n    return a\n}\nf(1)"),
        "Runtime error at 4:5: Function arity mismatch: expected 2, got 1"
    );
}

#[test]
fn unknown_functions_cannot_be_called() {
    assert_eq!(
        failure("nothing(1)"),
        "Runtime error at 1:11: Unknown function: nothing"
    );
}

#[test]
fn what_is_no_function_cannot_be_called() {
    assert_eq!(
        failure("let n: 1\nn(2)"),
        "Runtime error at 2:5: Callee is not a known function name"
    );
    assert_eq!(
        failure("let s: \"no function\"\ns(2)"),
        "Runtime error at 2:5: Dynamic call: unknown function 'no function'"
    );
}

// Control flow

#[test]
fn conditions_choose_a_block() {
    let source = "fn hot(t) {\n    if t > 30 {\n        return \"hot\"\n    } else {\n        return \"nice\"\n    }\n}\nprint(hot(31), hot(30))";
    assert_eq!(run(source), ["hot nice"]);
}

#[test]
fn everything_but_false_counts_as_true() {
    assert_eq!(
        run("if 0 {\n    print(\"zero\")\n}\nif \"\" {\n    print(\"empty\")\n}\nif false {\n    print(\"false\")\n}"),
        ["zero", "empty"]
    );
}

#[test]
fn while_loops_count_down() {
    assert_eq!(
        run("mut count: 3\nwhile count > 0 {\n    print(count)\n    count: count - 1\n}"),
        ["3", "2", "1"]
    );
}

#[test]
fn for_loops_run_over_ranges() {
    assert_eq!(run("for i in 0..4 {\n    print(i)\n}"), ["0", "1", "2", "3"]);
    assert_eq!(run("for i in 3..3 {\n    print(i)\n}"), Vec::<String>::new());
}

#[test]
fn for_loops_run_over_ranges_with_a_step() {
    assert_eq!(
        run("let r: (0..10).step(2)\nfor i in r {\n    print(i)\n}"),
        ["0", "2", "4", "6", "8"]
    );
}

#[test]
fn ranges_have_ends() {
    assert_eq!(
        run("let r: 2..7\nprint(r, r.start, r.end, len(r))\nprint(r.step(2), len(r.step(2)), r.size)"),
        ["2..7 2 7 5", "2..7.step(2) 3 0"]
    );
    assert_eq!(
        failure("let r: \"a\"..2"),
        "Runtime error at 1:13: Range start must be a number"
    );
    assert_eq!(
        failure("let r: 1..\"b\""),
        "Runtime error at 1:11: Range end must be a number"
    );
}

#[test]
fn increments_count_up() {
    assert_eq!(run("mut n: 1\nn: n + 1\nn: 1 + n\nprint(n)"), ["3"]);
}

// Collections

#[test]
fn lists_are_read_and_written() {
    assert_eq!(
        run("let fruits: [\"apple\", \"banana\"]\nprint(fruits[0])\nfruits[0]: \"pear\"\nprint(fruits)"),
        ["apple", "[\"pear\", \"banana\"]"]
    );
}

#[test]
fn lists_grow_when_written_past_their_end() {
    assert_eq!(run("mut xs: [1]\nxs[3]: 9\nprint(xs)"), ["[1, 0, 0, 9]"]);
}

#[test]
fn lists_are_padded() {
    assert_eq!(
        run("mut xs: [1, 2]\nxs.pad(5, 0)\nprint(xs)\nxs.pad(2, 7)\nprint(xs)"),
        ["[1, 2, 0, 0, 0]", "[1, 2, 0, 0, 0]"]
    );
}

#[test]
fn lists_are_read_within_their_bounds() {
    assert_eq!(
        failure("let xs: [1, 2]\nprint(xs[2])"),
        "Runtime error at 2:12: Index out of bounds: 2 for list of length 2"
    );
    assert_eq!(
        failure("let xs: [1]\nprint(xs[\"a\"])"),
        "Runtime error at 2:14: List index must be a number"
    );
    assert_eq!(
        failure("let xs: 5\nprint(xs[0])"),
        "Runtime error at 2:12: Expected list for indexing"
    );
    assert_eq!(
        failure("mut xs: [1]\nxs[99999999999999999999]: 1"),
        format!(
            "Runtime error at 2:3: Index out of bounds: {} for list of length 1",
            usize::MAX
        )
    );
}

#[test]
fn objects_are_read_and_written() {
    assert_eq!(
        run("let user: {\n    id: 1,\n    name: \"Yanis\"\n}\nprint(user.name)\nuser.id: 2\nprint(user.id, user.missing, len(user))"),
        ["Yanis", "2 0 2"]
    );
    assert_eq!(
        failure("let n: 1\nprint(n.x)"),
        "Runtime error at 2:10: Expected object for property access"
    );
    assert_eq!(
        failure("let n: 1\nn.x: 2"),
        "Runtime error at 2:2: Expected object for property assignment"
    );
}

#[test]
fn collections_nest() {
    assert_eq!(
        run("let a: { list: [1, [2, 3]] }\na.list[1][0]: 4\nprint(a.list[1][0], a.list[1], a.list)"),
        ["4 [4, 3] [1, [...]]"]
    );
}

#[test]
fn unknown_methods_cannot_be_called() {
    assert_eq!(
        failure("let xs: [1]\nlet m: xs.pad\nlet r: 0..2\nr.pad(1)"),
        "Runtime error at 4:9: Callee is not a known function name"
    );
}

// Native functions

#[test]
fn print_separates_with_blanks() {
    assert_eq!(run("print(\"Value is:\", 42)\nprint()\nprint 1, true"), ["Value is: 42", "", "1 true"]);
}

#[test]
fn str_spells_values() {
    assert_eq!(run("print(str(1 + 2) + \"!\")\nlet s: str([1, \"a\"])\nprint(s)"), ["3!", "[1, \"a\"]"]);
    assert_eq!(failure("str()"), "Runtime error at 1:6: str() expects 1 argument");
}

#[test]
fn len_counts() {
    assert_eq!(
        run("print(len(\"Yatsu\"), len([1, 2, 3]), len(\"\"), len({}), len(\"h\u{e9}llo w\u{f6}rld\"))"),
        ["5 3 0 0 11"]
    );
    assert_eq!(failure("len(1)"), "Runtime error at 1:7: len() expects string or list");
    assert_eq!(failure("len()"), "Runtime error at 1:6: len() expects 1 argument");
}

#[test]
fn time_is_told() {
    assert_eq!(run("print(time())\nlet t: timestamp()\nprint(t.elapsed, t.other)\nprint(t)"), ["1234.5", "0.5 0", "Timestamp(#7)"]);
}

#[test]
fn sleep_takes_milliseconds() {
    let (mut ctx, main) = start("sleep(1000)\nsleep(1.9)");
    let mut owner = Owner::default();
    owner.drive(&mut ctx, main).expect("the script runs");
    assert_eq!(owner.slept, [1000, 1]);
    assert_eq!(failure("sleep()"), "Runtime error at 1:8: sleep() expects 1 argument");
    assert_eq!(
        failure("sleep(\"a\")"),
        "Runtime error at 1:11: sleep() expects numeric milliseconds"
    );
}

#[test]
fn fetch_takes_an_address() {
    let (mut ctx, main) = start("fetch(\"https://example.org\")");
    let mut owner = Owner::default();
    owner.drive(&mut ctx, main).expect("the script runs");
    assert_eq!(owner.fetched, ["https://example.org"]);
    assert_eq!(
        failure("fetch(1)"),
        "Runtime error at 1:9: fetch requires a string URL as its first argument"
    );
}

#[test]
fn serve_takes_a_port_and_a_function() {
    let (mut ctx, main) = start("fn handle(req) {\n    return req\n}\nserve(8080, handle)\nserve(99999, handle)");
    let mut owner = Owner::default();
    owner.drive(&mut ctx, main).expect("the script runs");
    assert_eq!(owner.served, [(8080, "handle".to_string()), (65535, "handle".to_string())]);
    assert_eq!(failure("serve(1)"), "Runtime error at 1:9: serve(port, handler) expects 2 arguments");
    assert_eq!(failure("serve(true, 1)"), "Runtime error at 1:15: serve: port must be a number");
    assert_eq!(
        failure("serve(1, 1)"),
        "Runtime error at 1:12: serve: handler must be a function name string"
    );
}

#[test]
fn native_functions_have_their_names() {
    let (ctx, _) = start("let x: 1");
    for name in ["print", "len", "time", "timestamp", "sleep", "fetch", "serve", "str"] {
        let id = ctx.find_string(name).expect("the name is in the pool");
        assert!(ctx.get_callable(id).is_some(), "{name}");
    }
    let plan = plan_native(&ctx, Native::Time, &vec![], Loc { line: 1, col: 1 });
    assert!(matches!(plan, Plan::Time));
}

// Tasks

#[test]
fn spawned_tasks_run_beside_the_script() {
    let mut lines = run("spawn {\n    print(\"background\")\n}\nprint(\"main\")");
    lines.sort();
    assert_eq!(lines, ["background", "main"]);
}

#[test]
fn spawned_tasks_take_the_values_of_their_start() {
    let mut lines = run("for i in 0..3 {\n    spawn {\n        print(i)\n    }\n}");
    lines.sort();
    assert_eq!(lines, ["0", "1", "2"]);
}

#[test]
fn spawned_tasks_share_globals_but_not_registers() {
    assert_eq!(
        run("mut n: 1\nspawn {\n    n: 5\n    mut own: 2\n    own: own + n\n    print(own)\n}\nsleep(1)\nprint(n)").len(),
        2
    );
}

#[test]
fn slices_come_to_the_same() {
    let source = "fn fib(n) {\n    if n < 2 {\n        return n\n    }\n    return fib(n - 1) + fib(n - 2)\n}\nfor i in 0..10 {\n    print(fib(i))\n}";
    let whole = run(source);
    for slice in [1, 2, 7] {
        let (mut ctx, main) = start(source);
        let mut owner = Owner { slice: Some(slice), ..Owner::default() };
        owner.drive(&mut ctx, main).expect("the script runs");
        assert_eq!(owner.printed, whole);
    }
}

// Answers to requests

#[test]
fn handlers_answer_requests() {
    let (mut ctx, _) = start("fn handle(req) {\n    return \"got \" + req\n}\nfn plain() {\n    return 1\n}\nfn full(r) {\n    return \"HTTP/1.1 204 No Content\\r\\n\\r\\n\"\n}");
    let mut owner = Owner::default();
    let mut answer = |name: &str, request: &str| {
        let mut task = start_handler(&mut ctx, name, request_text(request.as_bytes()))?;
        let mut action = execute_bytecode(&mut ctx, &mut task, 1000);
        loop {
            action = match action {
                Action::Done(v) => return Some(response(&ctx, v)),
                Action::Compute { op, lhs, rhs } => task.resume(&mut ctx, compute(op, lhs, rhs)),
                Action::Running | Action::Yield => execute_bytecode(&mut ctx, &mut task, 1000),
                Action::Native { native, args, loc } => {
                    let plan = plan_native(&ctx, native, &args, loc);
                    let v = owner.native(&mut ctx, plan).ok()?;
                    task.resume(&mut ctx, v)
                }
                _ => return None,
            };
        }
    };
    assert_eq!(
        answer("handle", "GET / HTTP/1.1").as_deref(),
        Some("HTTP/1.1 200 OK\r\nContent-Length: 18\r\nContent-Type: text/plain\r\n\r\ngot GET / HTTP/1.1")
    );
    assert_eq!(
        answer("plain", "x").as_deref(),
        Some("HTTP/1.1 200 OK\r\nContent-Length: 2\r\nContent-Type: text/plain\r\n\r\nOK")
    );
    assert_eq!(
        answer("full", "x").as_deref(),
        Some("HTTP/1.1 204 No Content\r\n\r\n")
    );
    assert_eq!(answer("nobody", "x"), None);
    assert_eq!(answer("print", "x"), None);
    assert_eq!(not_found(), "HTTP/1.1 404 Not Found\r\n\r\nHandler not found");
    assert_eq!(
        error_response("bad"),
        "HTTP/1.1 500 Internal Server Error\r\n\r\nError: bad"
    );
}

#[test]
fn requests_that_are_no_text_are_marked() {
    assert_eq!(request_text(&[72, 105, 255]), "Hi\u{fffd}");
    assert_eq!(request_text("caf\u{e9}".as_bytes()), "caf\u{e9}");
}

// Memory

#[test]
fn collections_of_garbage_keep_what_is_in_use() {
    let source = "fn drop(x) {\n}\nlet keep: [1, 2, 3]\nlet name: \"a longer text\"\nmut i: 0\nwhile i < 100500 {\n    drop([i])\n    i: i + 1\n}\nprint(keep, name, i)";
    let (mut ctx, main) = start(source);
    let mut owner = Owner::default();
    owner.drive(&mut ctx, main).expect("the script runs");
    assert_eq!(owner.printed, ["[1, 2, 3] a longer text 100500"]);
    assert_eq!(ctx.heap.gc_count, 1);
    assert!(ctx.heap.objects.len() < 100100);
}

// Compiled programs

fn all_inside(code: &[Instruction], names: usize) {
    for op in code {
        match op {
            Instruction::Jump(target) => assert!(*target <= code.len()),
            Instruction::JumpIfFalse { target, .. } => assert!(*target <= code.len()),
            Instruction::LoadLiteral { val, .. } => {
                if let Some(id) = val.as_obj_id() {
                    assert!((id as usize) < names);
                }
            }
            Instruction::Spawn { instructions, .. } => all_inside(instructions, names),
            _ => {}
        }
    }
}

#[test]
fn jumps_and_literals_stay_inside_the_program() {
    let source = "fn f(n) {\nif n < 1 {\nreturn \"a longer text\"\n} else {\nreturn n\n}\n}\nmut i: 0\nwhile i < 3 {\ni: i + 1\nif i == 2 {\nprint(i)\n}\n}\n";
    let program = compile(source).expect("the script compiles");
    assert!(program.is_well_formed());
    let names = program.string_pool.len();
    all_inside(&program.instructions, names);
    for f in &program.functions {
        all_inside(&f.instructions, names);
    }
    let jumps = program
        .instructions
        .iter()
        .filter(|op| matches!(op, Instruction::Jump(_) | Instruction::JumpIfFalse { .. }))
        .count();
    assert_eq!(jumps, 3);
}

#[test]
fn three_tokens_are_read_ahead() {
    assert_eq!(
        compile_failure("print(1)\n\n@"),
        "Lexing error at 1:9: NonAsciiCharacter('@')"
    );
    assert!(compile("print(1)\n\n\n@").is_ok());
}
