//! Loading a program, and answering requests with its functions.
use crate::compiler::function_views;
use crate::compiler::lemma_code_ok_more;
use crate::compiler::texts;
use crate::compiler::Bounds;
use crate::compiler::FunctionView;
use crate::compiler::Program;
use crate::compiler::ProgramView;
use crate::compiler::UserFunction;
use crate::context::callables_view;
use crate::context::Callable;
use crate::context::CallableView;
use crate::context::Context;
use crate::context::Ctx;
use crate::context::Native;
use crate::heap::is_young;
use crate::heap::marks_are_past;
use crate::heap::opt_view;
use crate::heap::slot_set_new;
use crate::heap::slots_view;
use crate::heap::Cell;
use crate::heap::Generation;
use crate::heap::Heap;
use crate::heap::HeapMetadata;
use crate::heap::HeapObject;
use crate::heap::HeapView;
use crate::heap::ManagedObject;
use crate::heap::ObjView;
use crate::interpreter::machine;
use crate::interpreter::make_registers;
use crate::interpreter::share;
use crate::interpreter::Task;
use crate::machine::bounds;
use crate::machine::callable_ok;
use crate::machine::functions_ok;
use crate::machine::zeros;
use crate::machine::FrameView;
use crate::machine::TaskView;
use crate::natives::all_natives;
use crate::natives::native_name;
use crate::natives::setup_native_fns;
use crate::tables::name_get;
use crate::tables::names_get;
use crate::tables::names_insert;
use crate::tables::names_new;
use crate::tables::with_text;
use rustc_hash::FxHashMap;
use vstd::prelude::*;

verus! {

/// The strings with the names of the first `n` native functions.
pub open spec fn with_names(strings: Seq<Seq<char>>, n: nat) -> Seq<Seq<char>>
    decreases n,
{
    if n == 0 {
        strings
    } else {
        with_text(with_names(strings, (n - 1) as nat), native_name(all_natives()[n - 1]))
    }
}

/// The last place of a text among the first `n`.
pub open spec fn last_place(strings: Seq<Seq<char>>, s: Seq<char>, n: nat) -> Option<int>
    decreases n,
{
    if n == 0 {
        None
    } else if strings[n - 1] == s {
        Some(n - 1)
    } else {
        last_place(strings, s, (n - 1) as nat)
    }
}

/// The table with the first `n` functions of the script. Of two with the same
/// name the later one stays.
pub open spec fn with_functions(
    c: Seq<Option<CallableView>>,
    fs: Seq<FunctionView>,
    n: nat,
) -> Seq<Option<CallableView>>
    decreases n,
{
    if n == 0 {
        c
    } else {
        let before = with_functions(c, fs, (n - 1) as nat);
        let f = fs[n - 1];
        if f.name_id < before.len() {
            before.update(f.name_id as int, Some(CallableView::User(f)))
        } else {
            before
        }
    }
}

/// The table with the first `n` native functions, which take the place of what
/// had their names.
pub open spec fn with_natives(
    c: Seq<Option<CallableView>>,
    strings: Seq<Seq<char>>,
    n: nat,
) -> Seq<Option<CallableView>>
    decreases n,
{
    if n == 0 {
        c
    } else {
        let before = with_natives(c, strings, (n - 1) as nat);
        let native = all_natives()[n - 1];
        match last_place(strings, native_name(native), strings.len()) {
            Some(k) => before.update(k, Some(CallableView::Native(native))),
            None => before,
        }
    }
}

pub open spec fn no_functions(n: nat) -> Seq<Option<CallableView>> {
    Seq::new(n, |k: int| None)
}

/// A heap that holds the strings, one in each slot.
pub open spec fn string_heap(strings: Seq<Seq<char>>) -> HeapView {
    HeapView {
        slots: Seq::new(
            strings.len(),
            |k: int|
                Some(
                    Cell {
                        obj: ObjView::Text(strings[k]),
                        mark: 0,
                        generation: Generation::Tenured,
                    },
                ),
        ),
        free: Seq::empty(),
        nursery: Seq::empty(),
        remembered: Set::empty(),
        gc_count: 0,
        allocs: 0,
    }
}

/// The memory in which a program starts.
pub open spec fn loaded(p: ProgramView) -> Ctx {
    let strings = with_names(p.strings, all_natives().len());
    Ctx {
        globals: zeros(p.globals_count as nat),
        strings,
        callables: with_natives(
            with_functions(no_functions(strings.len()), p.functions, p.functions.len()),
            strings,
            all_natives().len(),
        ),
        tasks: Seq::empty(),
        heap: string_heap(strings),
    }
}

/// The main task of a program, before its first instruction.
pub open spec fn main_task(p: ProgramView) -> TaskView {
    TaskView { id: 0, frames: seq![FrameView { code: p.code, pc: 0, count: 0, dst: None }] }
}

proof fn lemma_with_names(strings: Seq<Seq<char>>, n: nat)
    ensures
        strings.len() <= with_names(strings, n).len() <= strings.len() + n,
    decreases n,
{
    if n > 0 {
        lemma_with_names(strings, (n - 1) as nat);
    }
}

/// The last place of a text, as the text is found or not.
proof fn lemma_last_place(strings: Seq<Seq<char>>, s: Seq<char>, n: nat)
    requires
        n <= strings.len(),
    ensures
        match last_place(strings, s, n) {
            Some(k) => 0 <= k < n && strings[k] == s,
            None => forall|k: int| 0 <= k < n ==> #[trigger] strings[k] != s,
        },
    decreases n,
{
    if n > 0 {
        lemma_last_place(strings, s, (n - 1) as nat);
    }
}

/// What is added behind changes no earlier place.
proof fn lemma_last_place_before(strings: Seq<Seq<char>>, x: Seq<char>, s: Seq<char>, n: nat)
    requires
        n <= strings.len(),
    ensures
        last_place(strings.push(x), s, n) == last_place(strings, s, n),
    decreases n,
{
    if n > 0 {
        lemma_last_place_before(strings, x, s, (n - 1) as nat);
        assert(strings.push(x)[n - 1] == strings[n - 1]);
    }
}

/// The table gives the last place of each text, and nothing for any other.
spec fn indexes(places: FxHashMap<String, usize>, strings: Seq<Seq<char>>) -> bool {
    forall|s: Seq<char>| #[trigger]
        name_get(places, s) == (match last_place(strings, s, strings.len()) {
            Some(k) => Some(k as usize),
            None => None,
        })
}

/// Enters the place of a text that comes behind the others.
fn index_next(places: &mut FxHashMap<String, usize>, s: String, k: usize, strings: &Vec<String>)
    requires
        k + 1 <= strings@.len(),
        strings@[k as int]@ == s@,
        indexes(*old(places), texts(strings@).take(k as int)),
    ensures
        indexes(*final(places), texts(strings@).take(k + 1)),
{
    let ghost before = texts(strings@).take(k as int);
    let ghost name = s@;
    let ghost held = *places;
    names_insert(places, s, k);
    proof {
        let after = texts(strings@).take(k + 1);
        assert(after =~= before.push(name));
        assert forall|q: Seq<char>| #[trigger]
            name_get(*places, q) == (match last_place(after, q, after.len()) {
                Some(j) => Some(j as usize),
                None => None,
            }) by {
            lemma_last_place_before(before, name, q, before.len());
            assert(name_get(held, q) == (match last_place(before, q, before.len()) {
                Some(j) => Some(j as usize),
                None => None,
            }));
        }
    }
}

/// The table of the places of the strings.
fn index_strings(strings: &Vec<String>) -> (res: FxHashMap<String, usize>)
    ensures
        indexes(res, texts(strings@)),
{
    let mut places = names_new();
    let mut k: usize = 0;
    while k < strings.len()
        invariant
            k <= strings@.len(),
            indexes(places, texts(strings@).take(k as int)),
        decreases strings@.len() - k,
    {
        index_next(&mut places, strings[k].clone(), k, strings);
        k = k + 1;
    }
    assert(texts(strings@).take(k as int) =~= texts(strings@));
    places
}

/// The place of a name that the table holds.
fn place_of(places: &FxHashMap<String, usize>, s: &str, strings: &Vec<String>) -> (res: Option<
    usize,
>)
    requires
        indexes(*places, texts(strings@)),
    ensures
        match res {
            Some(k) => last_place(texts(strings@), s@, texts(strings@).len()) == Some(k as int)
                && k < strings@.len(),
            None => last_place(texts(strings@), s@, texts(strings@).len()) is None,
        },
{
    let res = names_get(places, s);
    proof {
        lemma_last_place(texts(strings@), s@, texts(strings@).len());
        assert(strings.len() == texts(strings@).len());
        assert(name_get(*places, s@) == res);
    }
    res
}

/// The strings with the names of the native functions, and the table of their
/// places.
fn add_names(strings: Vec<String>, natives: &Vec<(String, Native)>) -> (res: (
    Vec<String>,
    FxHashMap<String, usize>,
))
    requires
        natives@.len() == all_natives().len(),
        forall|k: int|
            0 <= k < natives@.len() ==> (#[trigger] natives@[k]).0@ == native_name(
                all_natives()[k],
            ),
    ensures
        texts(res.0@) == with_names(texts(strings@), all_natives().len()),
        indexes(res.1, texts(res.0@)),
{
    let ghost start = texts(strings@);
    let mut res = strings;
    let mut places = index_strings(&res);
    let mut k: usize = 0;
    while k < natives.len()
        invariant
            k <= natives@.len() == all_natives().len(),
            forall|j: int|
                0 <= j < natives@.len() ==> (#[trigger] natives@[j]).0@ == native_name(
                    all_natives()[j],
                ),
            texts(res@) == with_names(start, k as nat),
            indexes(places, texts(res@)),
        decreases natives@.len() - k,
    {
        let ghost before = res@;
        let at: usize = res.len();
        let found = place_of(&places, natives[k].0.as_str(), &res);
        proof {
            lemma_last_place(texts(before), natives@[k as int].0@, texts(before).len());
            if found is Some {
                assert(texts(before)[found->0 as int] == natives@[k as int].0@);
            }
        }
        if found.is_none() {
            res.push(natives[k].0.clone());
            assert(texts(res@) =~= texts(before).push(natives@[k as int].0@));
            assert(texts(res@).take(at as int) =~= texts(before));
            index_next(&mut places, natives[k].0.clone(), at, &res);
            assert(texts(res@).take(at + 1) =~= texts(res@));
        }
        k = k + 1;
    }
    (res, places)
}

/// Another handle to a function.
fn share_function(f: &UserFunction) -> (res: UserFunction)
    ensures
        res@ == f@,
{
    UserFunction {
        name_id: f.name_id,
        instructions: share(&f.instructions),
        locals_count: f.locals_count,
        params_count: f.params_count,
    }
}

/// The table of functions.
fn build_callables(
    functions: &Vec<UserFunction>,
    strings: &Vec<String>,
    places: &FxHashMap<String, usize>,
    natives: &Vec<(String, Native)>,
) -> (res: Vec<Option<Callable>>)
    requires
        indexes(*places, texts(strings@)),
        natives@.len() == all_natives().len(),
        forall|k: int|
            0 <= k < natives@.len() ==> (#[trigger] natives@[k]).1 == all_natives()[k]
                && natives@[k].0@ == native_name(all_natives()[k]),
    ensures
        callables_view(res@) == with_natives(
            with_functions(
                no_functions(texts(strings@).len()),
                function_views(functions@),
                function_views(functions@).len(),
            ),
            texts(strings@),
            all_natives().len(),
        ),
        res@.len() == strings@.len(),
{
    let ghost all = texts(strings@);
    let ghost none = no_functions(all.len());
    let ghost fs = function_views(functions@);
    let mut res: Vec<Option<Callable>> = Vec::new();
    let n: usize = strings.len();
    let mut i: usize = 0;
    while i < n
        invariant
            i <= n,
            res@.len() == i,
            forall|j: int| 0 <= j < i ==> (#[trigger] res@[j]) is None,
        decreases n - i,
    {
        res.push(None);
        i = i + 1;
    }
    assert(callables_view(res@) =~= none);
    let mut k: usize = 0;
    while k < functions.len()
        invariant
            k <= functions@.len(),
            fs == function_views(functions@),
            res@.len() == n,
            callables_view(res@) == with_functions(none, fs, k as nat),
        decreases functions@.len() - k,
    {
        assert(fs[k as int] == functions@[k as int]@);
        let ghost before = callables_view(res@);
        let at: usize = functions[k].name_id as usize;
        if at < res.len() {
            let f = share_function(&functions[k]);
            res.set(at, Some(Callable::User(f)));
            assert(callables_view(res@) =~= before.update(
                at as int,
                Some(CallableView::User(fs[k as int])),
            ));
        }
        k = k + 1;
    }
    let ghost users = callables_view(res@);
    let mut j: usize = 0;
    while j < natives.len()
        invariant
            j <= natives@.len() == all_natives().len(),
            forall|q: int|
                0 <= q < natives@.len() ==> (#[trigger] natives@[q]).1 == all_natives()[q]
                    && natives@[q].0@ == native_name(all_natives()[q]),
            all == texts(strings@),
            indexes(*places, all),
            n == strings@.len(),
            res@.len() == n,
            callables_view(res@) == with_natives(users, all, j as nat),
        decreases natives@.len() - j,
    {
        let ghost before = callables_view(res@);
        if let Some(at) = place_of(places, natives[j].0.as_str(), strings) {
            res.set(at, Some(Callable::Native(natives[j].1)));
            assert(callables_view(res@) =~= before.update(
                at as int,
                Some(CallableView::Native(natives@[j as int].1)),
            ));
        }
        j = j + 1;
    }
    res
}

/// The heap that holds the strings.
fn build_heap(strings: &Vec<String>) -> (res: Heap)
    ensures
        res@ == string_heap(texts(strings@)),
{
    let ghost all = texts(strings@);
    let ghost want = string_heap(all).slots;
    let mut objects: Vec<Option<HeapObject>> = Vec::new();
    let mut k: usize = 0;
    assert(slots_view(objects@) =~= want.take(0));
    while k < strings.len()
        invariant
            k <= strings@.len(),
            all == texts(strings@),
            want == string_heap(all).slots,
            objects@.len() == k,
            slots_view(objects@) == want.take(k as int),
        decreases strings@.len() - k,
    {
        assert(all[k as int] == strings@[k as int]@);
        let ghost before = objects@;
        objects.push(
            Some(
                HeapObject {
                    obj: ManagedObject::String(strings[k].clone()),
                    last_gc_id: 0,
                    generation: Generation::Tenured,
                },
            ),
        );
        proof {
            assert(opt_view(objects@[k as int]) == want[k as int]);
            assert(slots_view(objects@) =~= slots_view(before).push(want[k as int]));
            assert(want.take(k + 1) =~= want.take(k as int).push(want[k as int]));
        }
        k = k + 1;
    }
    assert(want.take(want.len() as int) =~= want);
    let heap = Heap {
        objects,
        metadata: HeapMetadata {
            free_list: Vec::new(),
            nursery_ids: Vec::new(),
            remembered_set: slot_set_new(),
        },
        gc_count: 0,
        alloc_since_gc: 0,
    };
    assert(heap@.free =~= Seq::<u32>::empty());
    assert(heap@.nursery =~= Seq::<u32>::empty());
    heap
}

/// The functions of a loaded program keep within their registers.
proof fn lemma_loaded_functions(p: ProgramView, ctx: Ctx)
    requires
        p.well_formed(),
        ctx.callables == loaded(p).callables,
        ctx.globals.len() == p.globals_count,
        ctx.strings == loaded(p).strings,
    ensures
        functions_ok(ctx),
{
    let strings = loaded(p).strings;
    lemma_with_names(p.strings, all_natives().len());
    lemma_functions_table(p, ctx, no_functions(strings.len()), p.functions.len());
    let users = with_functions(no_functions(strings.len()), p.functions, p.functions.len());
    lemma_natives_table(ctx, users, strings, all_natives().len());
}

proof fn lemma_functions_table(p: ProgramView, ctx: Ctx, c: Seq<Option<CallableView>>, n: nat)
    requires
        p.well_formed(),
        n <= p.functions.len(),
        ctx.globals.len() == p.globals_count,
        ctx.strings.len() >= p.strings.len(),
        forall|k: int| 0 <= k < c.len() ==> (#[trigger] c[k]) is None,
    ensures
        with_functions(c, p.functions, n).len() == c.len(),
        forall|k: int|
            0 <= k < with_functions(c, p.functions, n).len() ==> callable_ok(
                ctx,
                #[trigger] with_functions(c, p.functions, n)[k],
            ),
    decreases n,
{
    if n > 0 {
        lemma_functions_table(p, ctx, c, (n - 1) as nat);
        let f = p.functions[n - 1];
        assert(p.function_ok(f));
        lemma_code_ok_more(
            f.code,
            Bounds {
                regs: f.locals_count as nat,
                globals: p.globals_count as nat,
                names: p.strings.len(),
            },
            bounds(ctx, f.locals_count as nat),
        );
        let before = with_functions(c, p.functions, (n - 1) as nat);
        let after = with_functions(c, p.functions, n);
        assert forall|k: int| 0 <= k < after.len() implies callable_ok(ctx, #[trigger] after[k]) by {
            assert(callable_ok(ctx, before[k]));
        }
    } else {
        assert forall|k: int| 0 <= k < c.len() implies callable_ok(
            ctx,
            #[trigger] with_functions(c, p.functions, n)[k],
        ) by {
            assert(c[k] is None);
        }
    }
}

proof fn lemma_natives_table(
    ctx: Ctx,
    c: Seq<Option<CallableView>>,
    strings: Seq<Seq<char>>,
    n: nat,
)
    requires
        forall|k: int| 0 <= k < c.len() ==> callable_ok(ctx, #[trigger] c[k]),
        c.len() == strings.len(),
    ensures
        with_natives(c, strings, n).len() == strings.len(),
        forall|k: int|
            0 <= k < with_natives(c, strings, n).len() ==> callable_ok(
                ctx,
                #[trigger] with_natives(c, strings, n)[k],
            ),
    decreases n,
{
    if n > 0 {
        lemma_natives_table(ctx, c, strings, (n - 1) as nat);
        lemma_last_place(strings, native_name(all_natives()[n - 1]), strings.len());
    }
}

/// A heap of strings is in order.
proof fn lemma_string_heap(strings: Seq<Seq<char>>)
    requires
        strings.len() <= u32::MAX,
    ensures
        string_heap(strings).wf(),
        string_heap(strings).has_room(),
{
    let h = string_heap(strings);
    assert forall|id: u32| !#[trigger] is_young(h.slots, id) by {}
}

/// Loads a program: its memory, and its main task before the first instruction.
pub fn prepare(program: Program) -> (res: (Context, Task))
    requires
        program@.well_formed(),
        program@.strings.len() + all_natives().len() <= u32::MAX,
    ensures
        res.0@ == (Ctx {
            tasks: seq![seq![zeros(program.locals_count as nat)]],
            ..loaded(program@)
        }),
        res.1@ == main_task(program@),
        machine(res.0@, res.1@).ready(),
{
    let ghost p = program@;
    let natives = setup_native_fns();
    let (string_pool, places) = add_names(program.string_pool, &natives);
    let callables = build_callables(&program.functions, &string_pool, &places, &natives);
    let heap = build_heap(&string_pool);
    let globals = make_registers(program.globals_count);
    let mut ctx = Context {
        globals,
        string_pool,
        callables,
        active_registers: Vec::new(),
        heap,
    };
    proof {
        assert(ctx@.tasks =~= Seq::<Seq<Seq<u64>>>::empty());
        assert(ctx@ == loaded(p));
        lemma_with_names(p.strings, all_natives().len());
        lemma_string_heap(ctx@.strings);
        lemma_loaded_functions(p, ctx@);
        lemma_code_ok_more(
            p.code,
            Bounds {
                regs: p.locals_count as nat,
                globals: p.globals_count as nat,
                names: p.strings.len(),
            },
            bounds(ctx@, p.locals_count as nat),
        );
    }
    let regs = make_registers(program.locals_count);
    let task = Task::new(&mut ctx, program.instructions, regs);
    assert(ctx@.tasks =~= seq![seq![zeros(program.locals_count as nat)]]);
    (ctx, task)
}

/// The names of the native functions differ.
proof fn lemma_native_names(a: Native, b: Native)
    ensures
        native_name(a) == native_name(b) ==> a == b,
{
    reveal_strlit("print");
    reveal_strlit("len");
    reveal_strlit("time");
    reveal_strlit("timestamp");
    reveal_strlit("sleep");
    reveal_strlit("fetch");
    reveal_strlit("serve");
    reveal_strlit("str");
    if native_name(a) == native_name(b) {
        assert(native_name(a).len() == native_name(b).len());
        assert(native_name(a)[0] == native_name(b)[0]);
        assert(native_name(a)[1] == native_name(b)[1]);
        assert(native_name(a)[2] == native_name(b)[2]);
    }
}

/// The name of every native function is among the strings.
proof fn lemma_names_are_there(strings: Seq<Seq<char>>, n: nat, i: int)
    requires
        0 <= i < n <= all_natives().len(),
    ensures
        with_names(strings, n).contains(native_name(all_natives()[i])),
    decreases n,
{
    let before = with_names(strings, (n - 1) as nat);
    let name = native_name(all_natives()[n - 1]);
    let after = with_names(strings, n);
    if i < n - 1 {
        lemma_names_are_there(strings, (n - 1) as nat, i);
        let s = native_name(all_natives()[i]);
        let k = choose|k: int| 0 <= k < before.len() && before[k] == s;
        assert(after[k] == s);
    } else if !before.contains(name) {
        assert(after[before.len() as int] == name);
    }
}

proof fn lemma_natives_in(
    c: Seq<Option<CallableView>>,
    strings: Seq<Seq<char>>,
    n: nat,
    i: int,
    k: int,
)
    requires
        0 <= i < n <= all_natives().len(),
        c.len() == strings.len(),
        last_place(strings, native_name(all_natives()[i]), strings.len()) == Some(k),
    ensures
        with_natives(c, strings, n).len() == strings.len(),
        with_natives(c, strings, n)[k] == Some(CallableView::Native(all_natives()[i])),
    decreases n,
{
    let native = all_natives()[n - 1];
    lemma_last_place(strings, native_name(native), strings.len());
    lemma_last_place(strings, native_name(all_natives()[i]), strings.len());
    lemma_natives_len(c, strings, (n - 1) as nat);
    if i < n - 1 {
        lemma_natives_in(c, strings, (n - 1) as nat, i, k);
        lemma_native_names(native, all_natives()[i]);
    }
}

proof fn lemma_natives_len(c: Seq<Option<CallableView>>, strings: Seq<Seq<char>>, n: nat)
    requires
        c.len() == strings.len(),
    ensures
        with_natives(c, strings, n).len() == c.len(),
    decreases n,
{
    if n > 0 {
        lemma_natives_len(c, strings, (n - 1) as nat);
        lemma_last_place(strings, native_name(all_natives()[n - 1]), strings.len());
    }
}

proof fn lemma_functions_len(c: Seq<Option<CallableView>>, fs: Seq<FunctionView>, n: nat)
    ensures
        with_functions(c, fs, n).len() == c.len(),
    decreases n,
{
    if n > 0 {
        lemma_functions_len(c, fs, (n - 1) as nat);
    }
}

/// Every script can call every native function by its name.
pub proof fn law_natives_can_be_called(p: ProgramView, i: int) -> (k: int)
    requires
        0 <= i < all_natives().len(),
    ensures
        0 <= k < loaded(p).strings.len(),
        loaded(p).strings[k] == native_name(all_natives()[i]),
        loaded(p).callables[k] == Some(CallableView::Native(all_natives()[i])),
{
    let n = all_natives().len();
    let strings = with_names(p.strings, n);
    let name = native_name(all_natives()[i]);
    lemma_names_are_there(p.strings, n, i);
    let j = choose|j: int| 0 <= j < strings.len() && strings[j] == name;
    lemma_last_place(strings, name, strings.len());
    assert(strings[j] == name);
    let k = last_place(strings, name, strings.len())->0;
    let c = with_functions(no_functions(strings.len()), p.functions, p.functions.len());
    lemma_functions_len(no_functions(strings.len()), p.functions, p.functions.len());
    lemma_natives_in(c, strings, n, i, k);
    k
}

/// The last function with a name is what the name stands for, unless the name is
/// that of a native function.
pub proof fn law_functions_can_be_called(p: ProgramView, i: int)
    requires
        0 <= i < p.functions.len(),
        p.functions[i].name_id < p.strings.len(),
        forall|j: int|
            i < j < p.functions.len() ==> (#[trigger] p.functions[j]).name_id
                != p.functions[i].name_id,
        forall|n: int|
            0 <= n < all_natives().len() ==> native_name(#[trigger] all_natives()[n])
                != p.strings[p.functions[i].name_id as int],
    ensures
        loaded(p).strings[p.functions[i].name_id as int] == p.strings[p.functions[i].name_id as int],
        loaded(p).callables[p.functions[i].name_id as int] == Some(
            CallableView::User(p.functions[i]),
        ),
{
    let n = all_natives().len();
    let id = p.functions[i].name_id as int;
    let strings = with_names(p.strings, n);
    lemma_with_names(p.strings, n);
    lemma_names_keep(p.strings, n, id);
    let none = no_functions(strings.len());
    let c = with_functions(none, p.functions, p.functions.len());
    lemma_functions_len(none, p.functions, p.functions.len());
    lemma_function_in(none, p.functions, p.functions.len(), i);
    lemma_natives_keep(c, strings, n, id);
}

proof fn lemma_names_keep(strings: Seq<Seq<char>>, n: nat, k: int)
    requires
        0 <= k < strings.len(),
    ensures
        k < with_names(strings, n).len(),
        with_names(strings, n)[k] == strings[k],
    decreases n,
{
    if n > 0 {
        lemma_names_keep(strings, (n - 1) as nat, k);
    }
}

proof fn lemma_function_in(
    c: Seq<Option<CallableView>>,
    fs: Seq<FunctionView>,
    n: nat,
    i: int,
)
    requires
        0 <= i < n <= fs.len(),
        fs[i].name_id < c.len(),
        forall|j: int| i < j < fs.len() ==> (#[trigger] fs[j]).name_id != fs[i].name_id,
    ensures
        with_functions(c, fs, n)[fs[i].name_id as int] == Some(CallableView::User(fs[i])),
    decreases n,
{
    lemma_functions_len(c, fs, (n - 1) as nat);
    if i < n - 1 {
        lemma_function_in(c, fs, (n - 1) as nat, i);
        assert(fs[n - 1].name_id != fs[i].name_id);
    }
}

proof fn lemma_natives_keep(
    c: Seq<Option<CallableView>>,
    strings: Seq<Seq<char>>,
    n: nat,
    k: int,
)
    requires
        0 <= k < c.len(),
        c.len() == strings.len(),
        n <= all_natives().len(),
        forall|i: int|
            0 <= i < all_natives().len() ==> native_name(#[trigger] all_natives()[i]) != strings[k],
    ensures
        with_natives(c, strings, n)[k] == c[k],
    decreases n,
{
    if n > 0 {
        lemma_natives_keep(c, strings, (n - 1) as nat, k);
        lemma_natives_len(c, strings, (n - 1) as nat);
        let native = all_natives()[n - 1];
        lemma_last_place(strings, native_name(native), strings.len());
    }
}

/// The strings of a program are on the heap from the start, each in the slot of
/// its number, and the collector starts from them.
pub proof fn law_strings_are_on_the_heap(p: ProgramView, id: u32)
    requires
        id < loaded(p).strings.len() <= u32::MAX,
    ensures
        loaded(p).object(id) == Some(ObjView::Text(loaded(p).strings[id as int])),
        loaded(p).roots().contains(id),
        marks_are_past(loaded(p).heap),
{
}

/// A program starts at its first instruction, in one call that nothing waits for.
/// Its globals are zero, its own strings keep their numbers, and no task runs.
pub proof fn law_programs_start_at_their_beginning(p: ProgramView, g: int, k: int)
    ensures
        main_task(p).frames.len() == 1,
        main_task(p).id == 0,
        main_task(p).frames[0].code == p.code,
        main_task(p).frames[0].pc == 0,
        main_task(p).frames[0].dst is None,
        loaded(p).globals.len() == p.globals_count,
        0 <= g < p.globals_count ==> loaded(p).globals[g] == 0,
        0 <= k < p.strings.len() ==> k < loaded(p).strings.len() && loaded(p).strings[k]
            == p.strings[k],
        loaded(p).tasks.len() == 0,
        loaded(p).callables.len() == loaded(p).strings.len(),
{
    let n = all_natives().len();
    let strings = with_names(p.strings, n);
    let none = no_functions(strings.len());
    lemma_functions_len(none, p.functions, p.functions.len());
    lemma_natives_len(with_functions(none, p.functions, p.functions.len()), strings, n);
    if 0 <= k < p.strings.len() {
        lemma_names_keep(p.strings, n, k);
    }
}

/// A name that is neither that of a function of the script nor that of a native
/// function stands for no function.
pub proof fn law_other_names_are_no_functions(p: ProgramView, k: int)
    requires
        0 <= k < p.strings.len(),
        forall|j: int| 0 <= j < p.functions.len() ==> (#[trigger] p.functions[j]).name_id != k,
        forall|i: int|
            0 <= i < all_natives().len() ==> native_name(#[trigger] all_natives()[i])
                != p.strings[k],
    ensures
        loaded(p).callables[k] is None,
{
    let n = all_natives().len();
    let strings = with_names(p.strings, n);
    let none = no_functions(strings.len());
    lemma_with_names(p.strings, n);
    lemma_names_keep(p.strings, n, k);
    lemma_functions_len(none, p.functions, p.functions.len());
    lemma_no_function_in(none, p.functions, p.functions.len(), k);
    lemma_natives_keep(with_functions(none, p.functions, p.functions.len()), strings, n, k);
}

proof fn lemma_no_function_in(c: Seq<Option<CallableView>>, fs: Seq<FunctionView>, n: nat, k: int)
    requires
        n <= fs.len(),
        0 <= k < c.len(),
        forall|j: int| 0 <= j < fs.len() ==> (#[trigger] fs[j]).name_id != k,
    ensures
        with_functions(c, fs, n)[k] == c[k],
    decreases n,
{
    if n > 0 {
        lemma_no_function_in(c, fs, (n - 1) as nat, k);
        lemma_functions_len(c, fs, (n - 1) as nat);
        assert(fs[n - 1].name_id != k);
    }
}

} // verus!
