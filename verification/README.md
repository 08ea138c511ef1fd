# YatsuScript

A register-based interpreter for a small scripting language, with a
generational garbage collector, tasks that run side by side, a formatter and
the answers of a language server. The library is written in Verus: what each
function returns or changes is stated in its contract and proved.

- `src/` is the verified library.
  - `lexer`, `escape`, `grammar`, `parser`, `compiler`, `tables` and
    `soundness` turn source texts into programs. `grammar` says what each
    construct compiles to; `soundness` proves that compiled programs name only
    registers, globals and strings that exist, jump only to their own
    instructions, and store immutable globals once.
  - `value`, `number`, `heap`, `context`, `machine`, `interpreter`, `natives`,
    `display`, `run` and `serve` run programs. `machine` says what each
    instruction does; `memory` proves that a read gives back what was written,
    and that a call keeps to its own registers. Arithmetic on floating point
    numbers, clocks, input and output are asked of the owner of the machine.
  - `relex` proves that a formatted source reads as before, unless a dot is
    joined to a dot, a range or two numbers beside it, as in `a . . b` and
    `1 . 5`. It proves exactly which sources stay as they are when they are
    formatted again: all but those in which dots become a range where a blank
    is due (`a . . b`), or leave over a number that a zero leads (`1 . 5.02`).
  - `formatter`, `lines`, `cli`, `lsp`, `jit`, `vm` and `ast` are the tools
    around them, and `text` and `error` serve all of them.
- `tests/` runs the library on source snippets and whole scripts.
- `app/` is the command line tool: it owns the machine, the terminal, the
  files, the network and the code generator.

## The language

```yatsuscript
let x: 10      // immutable
mut y: 20      // mutable
y: x + y       // assignment

fn greet(name) {
    return "Hello, " + name
}

for i in (0..10).step(2) {
    print(greet(str(i)))
}

spawn {
    print("beside the script")
}
```
