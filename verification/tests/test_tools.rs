//! The command line, the language server, the straight-line machine and the
//! plans for native code.
use std::sync::Arc;
use yatsuscript::ast::Expr;
use yatsuscript::cli::error_report;
use yatsuscript::cli::is_script;
use yatsuscript::cli::is_skipped_dir;
use yatsuscript::cli::Reply;
use yatsuscript::cli::Session;
use yatsuscript::compiler::Instruction;
use yatsuscript::compiler::Loc;
use yatsuscript::compiler::Program;
use yatsuscript::error::JitError;
use yatsuscript::jit::both_numbers;
use yatsuscript::jit::lower;
use yatsuscript::jit::rt_less_than;
use yatsuscript::jit::unknown_native;
use yatsuscript::jit::Helper;
use yatsuscript::jit::Work;
use yatsuscript::lines::split_lines;
use yatsuscript::lines::trim_text;
use yatsuscript::lsp::declaration_at;
use yatsuscript::lsp::definition_of;
use yatsuscript::lsp::get_docs;
use yatsuscript::lsp::hover;
use yatsuscript::lsp::hover_text;
use yatsuscript::lsp::is_in_order;
use yatsuscript::lsp::semantic_tokens;
use yatsuscript::lsp::word_at;
use yatsuscript::lsp::BuiltinDoc;
use yatsuscript::lsp::Declaration;
use yatsuscript::lsp::LspToken;
use yatsuscript::lsp::Place;
use yatsuscript::lsp::Stretch;
use yatsuscript::lsp::Symbol;
use yatsuscript::lsp::Variant;
use yatsuscript::value::Value;
use yatsuscript::vm::eval_expr;
use yatsuscript::vm::CompiledExpr;
use yatsuscript::vm::Datum;
use yatsuscript::vm::LineOp;
use yatsuscript::vm::LineProgram;

// Command line

#[test]
fn scripts_go_by_their_extension() {
    assert!(is_script(Some("pi")));
    assert!(!is_script(Some("ys")));
    assert!(!is_script(None));
    assert!(is_skipped_dir("target"));
    assert!(is_skipped_dir(".git"));
    assert!(!is_skipped_dir("src"));
}

#[test]
fn errors_are_shown_with_their_line() {
    let e = JitError::runtime("bad", 2, 3);
    assert_eq!(
        error_report("one\ntwo\n", &e),
        "\x1b[31;1mError:\x1b[0m Runtime error at 2:3: bad\n\n\x1b[34m   2 | \x1b[0mtwo\n\x1b[34m     | \x1b[0m  \x1b[31;1m^\x1b[0m\n"
    );
    assert_eq!(
        error_report("one", &JitError::runtime("bad", 0, 0)),
        "\x1b[31;1mError:\x1b[0m Runtime error at 0:0: bad\n"
    );
    assert_eq!(
        error_report("one", &JitError::runtime("bad", 7, 1)),
        "\x1b[31;1mError:\x1b[0m Runtime error at 7:1: bad\n"
    );
}

#[test]
fn sessions_wait_for_closing_braces() {
    let mut s = Session::new();
    assert_eq!(s.prompt(), "\x1b[1;32m>>> \x1b[0m");
    assert!(matches!(s.feed("fn f() {"), Reply::More));
    assert_eq!(s.prompt(), "\x1b[1;32m... \x1b[0m");
    assert!(matches!(s.feed("exit"), Reply::More));
    match s.feed("}\r\n") {
        Reply::Eval(source) => assert_eq!(source, "fn f() {\nexit\n}"),
        _ => panic!("a whole is run"),
    }
    assert!(matches!(s.feed("   "), Reply::More));
    assert!(matches!(s.feed("{"), Reply::More));
    s.interrupt();
    assert_eq!(s.prompt(), "\x1b[1;32m>>> \x1b[0m");
    assert!(matches!(s.feed("quit\n"), Reply::Quit));
    assert!(matches!(s.feed("exit"), Reply::Quit));
}

#[test]
fn texts_have_lines() {
    assert_eq!(split_lines("a\r\nb\n\nc"), ["a", "b", "", "c"]);
    assert_eq!(split_lines("a\n"), ["a"]);
    assert_eq!(split_lines(""), Vec::<String>::new());
    assert_eq!(trim_text(" \t a b \u{a0}\n"), "a b");
}

// Language server

fn place(line: u32, character: u32) -> Place {
    Place { line, character }
}

fn declaration(name: &str, kind: Symbol, start: Place, end: Place) -> Declaration {
    Declaration { name: name.to_string(), kind, range: Stretch { start, end } }
}

#[test]
fn words_are_found_at_places() {
    let source = "let alpha_1: b\u{e9}ta\nx";
    assert_eq!(word_at(source, place(0, 6)).as_deref(), Some("alpha_1"));
    assert_eq!(word_at(source, place(0, 11)).as_deref(), Some("alpha_1"));
    assert_eq!(word_at(source, place(0, 14)).as_deref(), Some("b\u{e9}ta"));
    assert_eq!(word_at(source, place(1, 0)).as_deref(), Some("x"));
    assert_eq!(word_at(source, place(0, 12)), None);
    assert_eq!(word_at(source, place(0, 99)), None);
    assert_eq!(word_at(source, place(2, 0)), None);
}

#[test]
fn declarations_are_found() {
    let ds = vec![
        declaration("f", Symbol::Function, place(1, 4), place(3, 1)),
        declaration("x", Symbol::Variable, place(4, 0), place(4, 5)),
        declaration("x", Symbol::Other, place(9, 0), place(9, 5)),
    ];
    assert_eq!(declaration_at(&ds, place(2, 0)), Some(0));
    assert_eq!(declaration_at(&ds, place(1, 3)), None);
    assert_eq!(declaration_at(&ds, place(3, 1)), Some(0));
    assert_eq!(declaration_at(&ds, place(3, 2)), None);
    assert_eq!(declaration_at(&ds, place(4, 5)), Some(1));
    assert_eq!(hover_text(&ds[0]), "(function) f");
    assert_eq!(hover_text(&ds[1]), "(variable) x");
    assert_eq!(hover_text(&ds[2]), "x");
    assert_eq!(definition_of(&ds, "x"), Some(ds[1].range));
    assert_eq!(definition_of(&ds, "y"), None);
}

#[test]
fn documentation_comes_before_declarations() {
    let doc = |name: &str, doc: &str| BuiltinDoc { name: name.to_string(), doc: doc.to_string() };
    let docs = vec![doc("print", "prints"), doc("len", "counts"), doc("len", "again")];
    let ds = vec![declaration("f", Symbol::Function, place(0, 0), place(0, 9))];
    assert_eq!(get_docs(&docs, "len").as_deref(), Some("counts"));
    assert_eq!(get_docs(&docs, "le"), None);
    let source = "len(f) x";
    assert_eq!(hover(&docs, &ds, source, place(0, 1)), Some(("counts".to_string(), None)));
    assert_eq!(
        hover(&docs, &ds, source, place(0, 4)),
        Some(("(function) f".to_string(), Some(ds[0].range)))
    );
    assert_eq!(hover(&docs, &ds, source, place(3, 0)), None);
}

#[test]
fn highlighting_is_relative() {
    let token = |line, column, len, variant| LspToken { line, column, len, variant };
    let ts = vec![
        token(0, 0, 3, Variant::Keyword),
        token(0, 4, 1, Variant::Variable),
        token(0, 5, 1, Variant::Other),
        token(2, 7, 2, Variant::Number),
        token(2, 9, 1, Variant::Operator),
    ];
    assert!(is_in_order(&ts));
    let ds: Vec<(u32, u32, u32, u32)> = semantic_tokens(&ts)
        .iter()
        .map(|d| (d.delta_line, d.delta_start, d.length, d.token_type))
        .collect();
    assert_eq!(ds, [(0, 0, 3, 0), (0, 4, 1, 2), (2, 7, 2, 7), (0, 2, 1, 4)]);
    let back = vec![token(1, 0, 1, Variant::Keyword), token(0, 0, 1, Variant::Keyword)];
    assert!(!is_in_order(&back));
}

// Straight-line machine

#[test]
fn straight_lines_print_what_they_store() {
    let program = LineProgram {
        ops: vec![
            LineOp::Print(CompiledExpr::Var(0), (1, 1)),
            LineOp::Store(0, CompiledExpr::Literal(Datum::Number(42)), (2, 1)),
            LineOp::Store(1, CompiledExpr::Var(0), (3, 1)),
            LineOp::Print(CompiledExpr::Var(1), (4, 1)),
            LineOp::Print(CompiledExpr::Literal(Datum::String("s".to_string())), (5, 1)),
            LineOp::Print(CompiledExpr::Var(9), (6, 2)),
            LineOp::Print(CompiledExpr::Var(0), (7, 1)),
        ],
        locals_count: 2,
    };
    let (printed, end) = yatsuscript::vm::run(&program);
    assert_eq!(printed.len(), 3);
    assert!(matches!(printed[0], Datum::Bool(false)));
    assert!(matches!(printed[1], Datum::Number(42)));
    assert!(matches!(&printed[2], Datum::String(s) if s == "s"));
    assert_eq!(
        end.expect_err("there is no such register").to_text(),
        "Runtime error at 6:2: Register index out of bounds: 9"
    );
}

#[test]
fn straight_lines_store_in_registers_only() {
    let program = LineProgram {
        ops: vec![LineOp::Store(1, CompiledExpr::Literal(Datum::Bool(true)), (1, 5))],
        locals_count: 1,
    };
    let (_, end) = yatsuscript::vm::run(&program);
    assert_eq!(
        end.expect_err("there is no such register").to_text(),
        "Runtime error at 1:5: Register index out of bounds: 1"
    );
    assert!(matches!(
        eval_expr(&CompiledExpr::Var(0), &vec![Datum::Bool(true)], (1, 1)),
        Ok(Datum::Bool(true))
    ));
    assert!(matches!(Expr::from(3u64), Expr::Number(3)));
}

// Native code

#[test]
fn instructions_become_blocks() {
    let loc = Loc::from((1, 2));
    let code = vec![
        Instruction::LoadLiteral { dst: 0, val: Value::number(7) },
        Instruction::Move { dst: 1, src: 0 },
        Instruction::Mul { dst: 2, lhs: 0, rhs: 1, loc },
        Instruction::Lt { dst: 3, lhs: 0, rhs: 1, loc },
        Instruction::JumpIfFalse { cond: 3, target: 8 },
        Instruction::Call { name_id: 4, args_regs: Arc::new(vec![1, 2]), dst: Some(5), loc },
        Instruction::Jump(0),
        Instruction::NewList { dst: 1, len: 0 },
    ];
    let blocks = lower(&code);
    assert_eq!(blocks.len(), 8);
    assert!(matches!(blocks[0].work, Work::Constant { dst: 0, bits: 7 }));
    assert!(matches!(blocks[1].work, Work::Copy { dst: 1, src: 0 }));
    assert!(matches!(
        blocks[2].work,
        Work::Helper { helper: Helper::Mul, dst: 2, lhs: 0, rhs: 1 }
    ));
    assert!(matches!(blocks[3].work, Work::Helper { helper: Helper::LessThan, dst: 3, .. }));
    assert!(matches!(blocks[4].work, Work::BranchIfFalse { cond: 3, target: 8 }));
    assert!(matches!(
        &blocks[5].work,
        Work::CallNative { name_id: 4, args, dst: Some(5), .. } if *args == [1, 2]
    ));
    assert!(matches!(blocks[6].work, Work::Nothing));
    assert!(matches!(blocks[7].work, Work::Nothing));
    let next: Vec<usize> = blocks.iter().map(|b| b.next).collect();
    assert_eq!(next, [1, 2, 3, 4, 5, 6, 0, 8]);
}

#[test]
fn helpers_of_native_code_work_on_numbers() {
    let n = |x: f64| x.to_bits();
    assert_eq!(both_numbers(n(1.0), n(2.0)), Some((n(1.0), n(2.0))));
    assert_eq!(both_numbers(n(1.0), Value::bool(true).to_bits()), None);
    assert_eq!(rt_less_than(n(1.0), n(2.0)), Value::bool(true).to_bits());
    assert_eq!(rt_less_than(n(2.0), n(2.0)), Value::bool(false).to_bits());
    assert_eq!(rt_less_than(n(1.0), Value::bool(true).to_bits()), 0);
    assert_eq!(unknown_native("nap"), "Unknown native function: nap");
}

#[test]
fn programs_are_checked_for_their_bounds() {
    let program = |code: Vec<Instruction>| Program {
        instructions: Arc::new(code),
        functions: Vec::new(),
        string_pool: vec!["f".to_string()],
        locals_count: 2,
        globals_count: 1,
    };
    let loc = Loc { line: 1, col: 1 };
    assert!(program(vec![Instruction::Move { dst: 1, src: 0 }]).is_well_formed());
    assert!(!program(vec![Instruction::Move { dst: 2, src: 0 }]).is_well_formed());
    assert!(!program(vec![Instruction::LoadGlobal { dst: 0, global: 1 }]).is_well_formed());
    let call = |name_id| Instruction::Call { name_id, args_regs: Arc::new(vec![0]), dst: None, loc };
    assert!(program(vec![call(0)]).is_well_formed());
    assert!(!program(vec![call(1)]).is_well_formed());
    let spawn = |locals_count| Instruction::Spawn {
        instructions: Arc::new(vec![Instruction::Increment(1)]),
        locals_count,
        captures: Arc::new(vec![1]),
    };
    assert!(program(vec![spawn(2)]).is_well_formed());
    assert!(!program(vec![spawn(1)]).is_well_formed());
}
