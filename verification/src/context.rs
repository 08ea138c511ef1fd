//! The running program's memory: globals, registers, strings and the heap.
use crate::compiler::texts;
use crate::compiler::FunctionView;
use crate::compiler::UserFunction;
use crate::heap::is_chain;
use crate::heap::is_young;
use crate::heap::law_collection_empties_the_nursery;
use crate::heap::law_major_collection_drops_the_rest;
use crate::heap::law_minor_collection_drops_young_garbage;
use crate::heap::law_new_objects_are_apart;
use crate::heap::law_reachable_objects_survive;
use crate::heap::lemma_object_ids;
use crate::heap::live;
use crate::heap::next_gc;
use crate::heap::no_stale_marks;
use crate::heap::object_ids;
use crate::heap::opt_view;
use crate::heap::points_at;
use crate::heap::push_ids;
use crate::heap::reachable;
use crate::heap::refers;
use crate::heap::step;
use crate::heap::Heap;
use crate::heap::HeapView;
use crate::heap::ManagedObject;
use crate::heap::ObjView;
use crate::number::same_number;
use crate::number::scaled;
use crate::text::same_text;
use crate::value::law_short_text_round_trip;
use crate::value::text_value;
use crate::value::Kind;
use crate::value::Value;
use vstd::prelude::*;
use vstd::utf8::decode_utf8;
use vstd::utf8::encode_utf8;
use vstd::utf8::valid_utf8;

verus! {

/// The functions that every script can call.
#[derive(Debug, Clone, Copy, PartialEq, Eq, Structural)]
pub enum Native {
    Print,
    Len,
    Time,
    Timestamp,
    Sleep,
    Fetch,
    Serve,
    Str,
}

/// What a name can be called as.
pub enum Callable {
    User(UserFunction),
    Native(Native),
}

/// What a name can be called as, with its code as a sequence.
pub enum CallableView {
    User(FunctionView),
    Native(Native),
}

impl View for Callable {
    type V = CallableView;

    open spec fn view(&self) -> CallableView {
        match *self {
            Callable::User(f) => CallableView::User(f@),
            Callable::Native(n) => CallableView::Native(n),
        }
    }
}

/// The view of an entry of the table of functions.
pub open spec fn callable_view(c: Option<Callable>) -> Option<CallableView> {
    match c {
        Some(c) => Some(c@),
        None => None,
    }
}

/// The memory of a running program.
pub struct Context {
    pub globals: Vec<u64>,
    pub string_pool: Vec<String>,
    /// What each name of the string pool can be called as.
    pub callables: Vec<Option<Callable>>,
    /// For each task, the registers of its calls, the innermost last.
    pub active_registers: Vec<Vec<Vec<u64>>>,
    pub heap: Heap,
}

/// The memory with its contents as sequences.
pub struct Ctx {
    pub globals: Seq<u64>,
    pub strings: Seq<Seq<char>>,
    pub callables: Seq<Option<CallableView>>,
    pub tasks: Seq<Seq<Seq<u64>>>,
    pub heap: HeapView,
}

/// The registers of one task.
pub open spec fn stack_view(v: Seq<Vec<u64>>) -> Seq<Seq<u64>> {
    v.map_values(|r: Vec<u64>| r@)
}

/// The registers of all tasks.
pub open spec fn tasks_view(v: Seq<Vec<Vec<u64>>>) -> Seq<Seq<Seq<u64>>> {
    v.map_values(|t: Vec<Vec<u64>>| stack_view(t@))
}

pub open spec fn callables_view(v: Seq<Option<Callable>>) -> Seq<Option<CallableView>> {
    v.map_values(|c: Option<Callable>| callable_view(c))
}

impl View for Context {
    type V = Ctx;

    open spec fn view(&self) -> Ctx {
        Ctx {
            globals: self.globals@,
            strings: texts(self.string_pool@),
            callables: callables_view(self.callables@),
            tasks: tasks_view(self.active_registers@),
            heap: self.heap@,
        }
    }
}

/// The first place of a text in a list.
pub open spec fn first_place(strings: Seq<Seq<char>>, s: Seq<char>, from: int) -> Option<int>
    decreases strings.len() - from,
{
    if from >= strings.len() {
        None
    } else if strings[from] == s {
        Some(from)
    } else {
        first_place(strings, s, from + 1)
    }
}

/// The same place as an id.
pub open spec fn place_id(strings: Seq<Seq<char>>, s: Seq<char>) -> Option<u32> {
    match first_place(strings, s, 0) {
        Some(k) => Some(k as u32),
        None => None,
    }
}

/// After how many new objects a collection is due.
pub const COLLECT_AFTER: usize = 100000;

pub open spec fn next_count(n: usize) -> usize {
    if n == usize::MAX {
        0
    } else {
        (n + 1) as usize
    }
}

impl Ctx {
    pub open spec fn wf(self) -> bool {
        &&& self.heap.wf()
        &&& self.callables.len() == self.strings.len()
        &&& self.strings.len() <= u32::MAX
    }

    /// The object in a slot.
    pub open spec fn object(self, id: u32) -> Option<ObjView> {
        if live(self.heap.slots, id) {
            Some(self.heap.slots[id as int]->0.obj)
        } else {
            None
        }
    }

    /// The object that a value refers to.
    pub open spec fn deref(self, v: Value) -> Option<ObjView> {
        match v.kind() {
            Kind::Object(id) => self.object(id),
            _ => None,
        }
    }

    /// The text that a value stands for.
    pub open spec fn text(self, v: Value) -> Option<Seq<char>> {
        match v.kind() {
            Kind::Text(bytes) => if valid_utf8(bytes) {
                Some(decode_utf8(bytes))
            } else {
                None
            },
            Kind::Object(id) => match self.object(id) {
                Some(ObjView::Text(s)) => Some(s),
                _ => None,
            },
            _ => None,
        }
    }

    /// The string with an id; an id that is none stands for the empty one.
    pub open spec fn name(self, id: u32) -> Seq<char> {
        if id < self.strings.len() {
            self.strings[id as int]
        } else {
            Seq::empty()
        }
    }

    /// Two values are equal: the same bits, numbers of the same value, or texts
    /// with the same characters.
    pub open spec fn equal(self, a: Value, b: Value) -> bool {
        if a.0 == b.0 {
            true
        } else {
            match (a.kind(), b.kind()) {
                (Kind::Number(x), Kind::Number(y)) => scaled(x) == scaled(y),
                (Kind::Text(_), _) => self.text(a) == self.text(b),
                (_, Kind::Text(_)) => self.text(a) == self.text(b),
                (Kind::Object(i), Kind::Object(j)) => match (self.object(i), self.object(j)) {
                    (Some(ObjView::Text(s)), Some(ObjView::Text(t))) => s == t,
                    _ => false,
                },
                _ => false,
            }
        }
    }

    /// The place in the string pool of the text that a value stands for.
    pub open spec fn pool_id(self, v: Value) -> Option<u32> {
        match v.kind() {
            Kind::Text(bytes) => if valid_utf8(bytes) {
                place_id(self.strings, decode_utf8(bytes))
            } else {
                None
            },
            Kind::Object(id) => if id < self.strings.len() {
                Some(id)
            } else {
                match self.object(id) {
                    Some(ObjView::Text(s)) => place_id(self.strings, s),
                    _ => None,
                }
            },
            _ => None,
        }
    }

    /// The slots from which the collector starts.
    pub open spec fn roots(self) -> Set<u32> {
        root_set(self.strings.len(), self.globals, self.tasks)
    }

    /// The same slots one after another, some of them more than once.
    pub open spec fn root_list(self) -> Seq<u32> {
        pool_ids(self.strings.len()) + object_ids(self.globals) + task_ids(
            self.tasks,
            self.tasks.len(),
        )
    }

    /// The heap after a collection, if one is due before the next object.
    pub open spec fn before_insert(self) -> HeapView {
        if self.heap.allocs >= COLLECT_AFTER {
            HeapView { allocs: 0, ..self.heap }.collected(self.roots())
        } else {
            HeapView { allocs: next_count(self.heap.allocs), ..self.heap }
        }
    }

    /// The memory with one object more.
    pub open spec fn with(self, obj: ObjView) -> Ctx {
        Ctx { heap: self.before_insert().with(obj), ..self }
    }

    /// The slot that the next object goes to.
    pub open spec fn next_slot(self) -> u32 {
        self.before_insert().next_slot()
    }
}

/// The slots of the string pool, and those to which a global or a register
/// refers.
pub open spec fn root_set(strings: nat, globals: Seq<u64>, tasks: Seq<Seq<Seq<u64>>>) -> Set<u32> {
    Set::new(|id: u32| is_root(strings, globals, tasks, id))
}

pub open spec fn is_root(
    strings: nat,
    globals: Seq<u64>,
    tasks: Seq<Seq<Seq<u64>>>,
    id: u32,
) -> bool {
    ||| id < strings
    ||| any_refers(globals, id)
    ||| exists|t: int, f: int|
        0 <= t < tasks.len() && 0 <= f < tasks[t].len() && any_refers(#[trigger] tasks[t][f], id)
}

/// Some value in the list refers to the slot.
pub open spec fn any_refers(v: Seq<u64>, id: u32) -> bool {
    exists|k: int| 0 <= k < v.len() && refers(#[trigger] v[k], id)
}

/// The slots that the first `n` register lists of a task refer to, in order.
pub open spec fn stack_ids(s: Seq<Seq<u64>>, n: nat) -> Seq<u32>
    decreases n,
{
    if n == 0 {
        Seq::empty()
    } else {
        stack_ids(s, (n - 1) as nat) + object_ids(s[n - 1])
    }
}

/// The slots that the registers of the first `n` tasks refer to, in order.
pub open spec fn task_ids(tasks: Seq<Seq<Seq<u64>>>, n: nat) -> Seq<u32>
    decreases n,
{
    if n == 0 {
        Seq::empty()
    } else {
        task_ids(tasks, (n - 1) as nat) + stack_ids(tasks[n - 1], tasks[n - 1].len())
    }
}

/// The slots of the string pool.
pub open spec fn pool_ids(n: nat) -> Seq<u32> {
    Seq::new(n, |k: int| k as u32)
}

proof fn lemma_stack_ids(s: Seq<Seq<u64>>, n: nat, id: u32)
    requires
        n <= s.len(),
    ensures
        stack_ids(s, n).contains(id) <==> exists|f: int|
            0 <= f < n && any_refers(#[trigger] s[f], id),
    decreases n,
{
    if n > 0 {
        lemma_stack_ids(s, (n - 1) as nat, id);
        lemma_object_ids(s[n - 1], id);
        lemma_either(stack_ids(s, (n - 1) as nat), object_ids(s[n - 1]), id);
    }
}

proof fn lemma_task_ids(tasks: Seq<Seq<Seq<u64>>>, n: nat, id: u32)
    requires
        n <= tasks.len(),
    ensures
        task_ids(tasks, n).contains(id) <==> exists|t: int, f: int|
            0 <= t < n && 0 <= f < tasks[t].len() && any_refers(#[trigger] tasks[t][f], id),
    decreases n,
{
    if n > 0 {
        let last = tasks[n - 1];
        lemma_task_ids(tasks, (n - 1) as nat, id);
        lemma_stack_ids(last, last.len(), id);
        lemma_either(task_ids(tasks, (n - 1) as nat), stack_ids(last, last.len()), id);
        if stack_ids(last, last.len()).contains(id) {
            let f = choose|f: int| 0 <= f < last.len() && any_refers(#[trigger] last[f], id);
            assert(any_refers(tasks[n - 1][f], id));
        }
    }
}

/// What is in two lists together is in one of them.
proof fn lemma_either(a: Seq<u32>, b: Seq<u32>, id: u32)
    ensures
        (a + b).contains(id) <==> a.contains(id) || b.contains(id),
{
    if a.contains(id) {
        let k = choose|k: int| 0 <= k < a.len() && a[k] == id;
        assert((a + b)[k] == id);
    }
    if b.contains(id) {
        let k = choose|k: int| 0 <= k < b.len() && b[k] == id;
        assert((a + b)[a.len() + k] == id);
    }
}

/// The list of roots names the roots.
proof fn lemma_root_list(c: Ctx)
    requires
        c.strings.len() <= u32::MAX,
    ensures
        c.root_list().to_set() == c.roots(),
{
    let pool = pool_ids(c.strings.len());
    let globals = object_ids(c.globals);
    let tasks = task_ids(c.tasks, c.tasks.len());
    assert forall|id: u32| c.root_list().to_set().contains(id) <==> c.roots().contains(id) by {
        lemma_either(pool, globals, id);
        lemma_either(pool + globals, tasks, id);
        lemma_object_ids(c.globals, id);
        lemma_task_ids(c.tasks, c.tasks.len(), id);
        if id < c.strings.len() {
            assert(pool[id as int] == id);
        }
    }
    assert(c.root_list().to_set() =~= c.roots());
}

impl Context {
    /// The slots from which the collector starts: those of the string pool, and
    /// those to which the globals and the registers refer.
    pub fn trace_roots(&self) -> (res: Vec<u32>)
        requires
            self@.wf(),
        ensures
            res@ == self@.root_list(),
            res@.to_set() == self@.roots(),
            forall|id: u32| #[trigger] res@.contains(id) <==> is_held(self@, id),
    {
        let mut ids: Vec<u32> = Vec::new();
        let n: u32 = self.string_pool.len() as u32;
        let mut k: u32 = 0;
        while k < n
            invariant
                k <= n,
                ids@ == pool_ids(k as nat),
            decreases n - k,
        {
            ids.push(k);
            k = k + 1;
            assert(ids@ =~= pool_ids(k as nat));
        }
        push_ids(&self.globals, &mut ids);
        let ghost ctx = self@;
        let ghost base = ids@;
        let mut t: usize = 0;
        assert(base + task_ids(ctx.tasks, 0) =~= base);
        while t < self.active_registers.len()
            invariant
                t <= self.active_registers@.len(),
                ctx == self@,
                ids@ == base + task_ids(ctx.tasks, t as nat),
            decreases self.active_registers@.len() - t,
        {
            let ghost was = ids@;
            let stack = &self.active_registers[t];
            assert(ctx.tasks[t as int] == stack_view(stack@));
            let mut f: usize = 0;
            assert(was + stack_ids(ctx.tasks[t as int], 0) =~= was);
            while f < stack.len()
                invariant
                    f <= stack@.len(),
                    t < ctx.tasks.len(),
                    ctx.tasks[t as int] == stack_view(stack@),
                    ids@ == was + stack_ids(ctx.tasks[t as int], f as nat),
                decreases stack@.len() - f,
            {
                assert(ctx.tasks[t as int][f as int] == stack@[f as int]@);
                push_ids(&stack[f], &mut ids);
                f = f + 1;
                assert(ids@ =~= was + stack_ids(ctx.tasks[t as int], f as nat));
            }
            t = t + 1;
            assert(ids@ =~= base + task_ids(ctx.tasks, t as nat));
        }
        proof {
            lemma_root_list(ctx);
            assert forall|id: u32| #[trigger] ids@.contains(id) <==> is_held(ctx, id) by {
                law_the_collector_starts_from_what_is_held(ctx, id);
            }
        }
        ids
    }

    /// There is room for one more object.
    pub fn has_room(&self) -> (res: bool)
        ensures
            res == self@.heap.has_room(),
    {
        self.heap.metadata.free_list.len() > 0 || (self.heap.objects.len() as u64) < 0x1_0000_0000
    }

    /// Puts an object on the heap and gives its slot. Before every
    /// hundred-thousandth there is a collection.
    pub fn allocate(&mut self, obj: ManagedObject) -> (res: u32)
        requires
            old(self)@.wf(),
            old(self)@.heap.has_room(),
        ensures
            final(self)@ == old(self)@.with(obj@),
            final(self)@.wf(),
            res == old(self)@.next_slot(),
    {
        let ghost ctx = self@;
        let count: usize = self.heap.alloc_since_gc;
        self.heap.alloc_since_gc = count.wrapping_add(1);
        if count >= COLLECT_AFTER {
            self.heap.alloc_since_gc = 0;
            let roots = self.trace_roots();
            self.heap.collect_garbage(roots);
            proof {
                lemma_room_stays(HeapView { allocs: 0, ..ctx.heap }, ctx.roots());
            }
        }
        self.heap.insert(obj)
    }
}

/// A collection takes no room away.
proof fn lemma_room_stays(h: HeapView, roots: Set<u32>)
    requires
        h.has_room(),
    ensures
        h.collected(roots).has_room(),
        h.collected(roots).slots.len() == h.slots.len(),
{
}

impl Context {
    /// The object in a slot.
    pub fn object(&self, id: u32) -> (res: Option<&ManagedObject>)
        ensures
            match res {
                Some(o) => self@.object(id) == Some(o@),
                None => self@.object(id) is None,
            },
    {
        let i: usize = id as usize;
        if i < self.heap.objects.len() {
            assert(self@.heap.slots[i as int] == opt_view(self.heap.objects@[i as int]));
            if let Some(o) = &self.heap.objects[i] {
                return Some(&o.obj);
            }
        }
        None
    }

    /// The object that a value refers to.
    pub fn deref(&self, v: Value) -> (res: Option<&ManagedObject>)
        ensures
            match res {
                Some(o) => self@.deref(v) == Some(o@),
                None => self@.deref(v) is None,
            },
    {
        match v.as_obj_id() {
            Some(id) => self.object(id),
            None => None,
        }
    }

    /// The string with an id.
    pub fn pool_name(&self, name_id: u32) -> (res: &str)
        ensures
            res@ == self@.name(name_id),
    {
        let i: usize = name_id as usize;
        if i < self.string_pool.len() {
            assert(self@.strings[i as int] == self.string_pool@[i as int]@);
            self.string_pool[i].as_str()
        } else {
            proof {
                reveal_strlit("");
            }
            assert(""@ =~= Seq::<char>::empty());
            ""
        }
    }

    /// What the name can be called as.
    pub fn get_callable(&self, name_id: u32) -> (res: Option<&Callable>)
        requires
            name_id < self@.callables.len(),
        ensures
            match res {
                Some(c) => self@.callables[name_id as int] == Some(c@),
                None => self@.callables[name_id as int] is None,
            },
    {
        let i: usize = name_id as usize;
        assert(self@.callables[i as int] == callable_view(self.callables@[i as int]));
        match &self.callables[i] {
            Some(c) => Some(c),
            None => None,
        }
    }

    /// The place of a text in the string pool.
    pub fn find_string(&self, s: &str) -> (res: Option<u32>)
        ensures
            res == place_id(self@.strings, s@),
    {
        let ghost strings = self@.strings;
        let mut k: usize = 0;
        while k < self.string_pool.len()
            invariant
                k <= self.string_pool@.len(),
                strings == self@.strings,
                first_place(strings, s@, 0) == first_place(strings, s@, k as int),
            decreases self.string_pool@.len() - k,
        {
            assert(strings[k as int] == self.string_pool@[k as int]@);
            if same_text(self.string_pool[k].as_str(), s) {
                return Some(k as u32);
            }
            k = k + 1;
        }
        None
    }

    /// The place in the string pool of the text that a value stands for.
    pub fn value_as_pool_id(&self, val: Value) -> (res: Option<u32>)
        ensures
            res == self@.pool_id(val),
    {
        if let Some(s) = val.as_short_text() {
            return self.find_string(s.as_str());
        }
        match val.as_obj_id() {
            Some(oid) => {
                if (oid as usize) < self.string_pool.len() {
                    return Some(oid);
                }
                match self.object(oid) {
                    Some(ManagedObject::String(s)) => self.find_string(s.as_str()),
                    _ => None,
                }
            },
            None => None,
        }
    }

    /// Whether two values are equal.
    pub fn values_equal(&self, v1: Value, v2: Value) -> (res: bool)
        ensures
            res == self@.equal(v1, v2),
    {
        if v1.to_bits() == v2.to_bits() {
            return true;
        }
        if let (Some(n1), Some(n2)) = (v1.as_number(), v2.as_number()) {
            return same_number(n1, n2);
        }
        if v1.is_short_text() || v2.is_short_text() {
            return match (v1.as_string(self), v2.as_string(self)) {
                (Some(s1), Some(s2)) => same_text(s1.as_str(), s2.as_str()),
                (None, None) => true,
                _ => false,
            };
        }
        match (v1.as_obj_id(), v2.as_obj_id()) {
            (Some(id1), Some(id2)) => match (self.object(id1), self.object(id2)) {
                (Some(ManagedObject::String(s1)), Some(ManagedObject::String(s2))) => same_text(
                    s1.as_str(),
                    s2.as_str(),
                ),
                _ => false,
            },
            _ => false,
        }
    }
}

/// The function can give the result for the text.
pub open spec fn gave<R, F: FnOnce(&str) -> R>(f: F, t: Seq<char>, r: R) -> bool {
    exists|s: &str| s@ == t && #[trigger] call_ensures(f, (s,), r)
}

impl Value {
    /// Hands the text that the value stands for to a function, where it stands
    /// for one.
    pub fn with_str<R, F: FnOnce(&str) -> R>(&self, ctx: &Context, f: F) -> (res: Option<R>)
        requires
            forall|s: &str| #[trigger] call_requires(f, (s,)),
        ensures
            match ctx@.text(*self) {
                Some(t) => res matches Some(r) && gave(f, t, r),
                None => res is None,
            },
    {
        match self.as_string(ctx) {
            Some(s) => {
                let t = s.as_str();
                let r = f(t);
                assert(t@ == s@ && call_ensures(f, (t,), r));
                Some(r)
            },
            None => None,
        }
    }

    /// The text that the value stands for.
    pub fn as_string(&self, ctx: &Context) -> (res: Option<String>)
        ensures
            match res {
                Some(s) => ctx@.text(*self) == Some(s@),
                None => ctx@.text(*self) is None,
            },
    {
        if let Some(s) = self.as_short_text() {
            return Some(s);
        }
        match ctx.deref(*self) {
            Some(ManagedObject::String(s)) => Some(s.clone()),
            _ => None,
        }
    }
}

/// A new object is in its slot.
pub proof fn lemma_new_object(c: Ctx, obj: ObjView)
    requires
        c.wf(),
        c.heap.has_room(),
    ensures
        c.with(obj).object(c.next_slot()) == Some(obj),
{
    let h = HeapView { allocs: 0, ..c.heap };
    assert(h.wf());
    law_collection_empties_the_nursery(h, c.roots(), 0);
    lemma_room_stays(h, c.roots());
    assert(c.before_insert().wf());
    law_new_objects_are_apart(c.before_insert(), obj, 0);
}

/// A collection before a new object takes nothing away that the script can
/// still reach, and the new object takes no place that is in use.
pub proof fn law_objects_in_use_are_kept(c: Ctx, obj: ObjView, id: u32)
    requires
        c.wf(),
        c.heap.has_room(),
        no_stale_marks(c.heap),
        reachable(c.heap.slots, c.roots(), id),
    ensures
        c.object(id) is Some,
        c.with(obj).object(id) == c.object(id),
        c.with(obj).object(c.next_slot()) == Some(obj),
        c.next_slot() != id,
{
    let h = HeapView { allocs: 0, ..c.heap };
    assert(h.wf() && no_stale_marks(h));
    law_reachable_objects_survive(h, c.roots(), id);
    law_collection_empties_the_nursery(h, c.roots(), id);
    lemma_room_stays(h, c.roots());
    assert(c.before_insert().wf());
    law_new_objects_are_apart(c.before_insert(), obj, id);
}

/// A text that a value holds itself is one.
pub open spec fn proper(v: Value) -> bool {
    v.kind() matches Kind::Text(bytes) ==> valid_utf8(bytes)
}

/// Equality of values is an equivalence. Two values that equal a third are
/// equal if the third, where it holds a short text, holds one that is a text.
pub proof fn law_equality_is_an_equivalence(c: Ctx, u: Value, v: Value, w: Value)
    ensures
        c.equal(u, u),
        c.equal(u, v) == c.equal(v, u),
        proper(v) && c.equal(u, v) && c.equal(v, w) ==> c.equal(u, w),
{
}

/// A value that a script holds itself refers to the object: one in a register of
/// some call of some task, one in a global, or a string of the program.
pub open spec fn is_held(c: Ctx, id: u32) -> bool {
    ||| exists|t: int, f: int, r: int|
        #![trigger c.tasks[t][f][r]]
        0 <= t < c.tasks.len() && 0 <= f < c.tasks[t].len() && 0 <= r < c.tasks[t][f].len() && Value(
            c.tasks[t][f][r],
        ).kind() == Kind::Object(id)
    ||| exists|g: int|
        0 <= g < c.globals.len() && Value(#[trigger] c.globals[g]).kind() == Kind::Object(id)
    ||| id < c.strings.len()
}

/// An object holds a reference to another: in an element of a list, in a field of
/// an object, or as that of which it is a method.
pub open spec fn has_inside(obj: ObjView, id: u32) -> bool {
    match obj {
        ObjView::List(l) => exists|k: int|
            0 <= k < l.len() && Value(#[trigger] l[k]).kind() == Kind::Object(id),
        ObjView::Object(m) => exists|k: u32| #[trigger]
            m.contains_key(k) && Value(m[k]).kind() == Kind::Object(id),
        ObjView::BoundMethod { receiver, .. } => receiver.kind() == Kind::Object(id),
        _ => false,
    }
}

/// Objects of which the script holds the first, and each holds the next.
pub open spec fn is_held_chain(c: Ctx, p: Seq<u32>) -> bool {
    &&& p.len() > 0
    &&& is_held(c, p[0])
    &&& forall|i: int| 0 <= i < p.len() ==> c.object(#[trigger] p[i]) is Some
    &&& forall|i: int, j: int|
        0 <= i && j == i + 1 && j < p.len() ==> has_inside(
            c.object(#[trigger] p[i])->0,
            #[trigger] p[j],
        )
}

proof fn lemma_held_is_root(c: Ctx, id: u32)
    requires
        is_held(c, id),
    ensures
        c.roots().contains(id),
{
    if exists|t: int, f: int, r: int|
        #![trigger c.tasks[t][f][r]]
        0 <= t < c.tasks.len() && 0 <= f < c.tasks[t].len() && 0 <= r < c.tasks[t][f].len() && Value(
            c.tasks[t][f][r],
        ).kind() == Kind::Object(id) {
        let (t, f, r) = choose|t: int, f: int, r: int|
            #![trigger c.tasks[t][f][r]]
            0 <= t < c.tasks.len() && 0 <= f < c.tasks[t].len() && 0 <= r < c.tasks[t][f].len()
                && Value(c.tasks[t][f][r]).kind() == Kind::Object(id);
        assert(refers(c.tasks[t][f][r], id));
        assert(any_refers(c.tasks[t][f], id));
    } else if exists|g: int|
        0 <= g < c.globals.len() && Value(#[trigger] c.globals[g]).kind() == Kind::Object(id) {
        let g = choose|g: int|
            0 <= g < c.globals.len() && Value(#[trigger] c.globals[g]).kind() == Kind::Object(id);
        assert(refers(c.globals[g], id));
        assert(any_refers(c.globals, id));
    }
}

/// Whatever the script can get at, from a register of any call of any task, from a
/// global or from a string of the program, through elements, fields and methods,
/// is the same after a new object has been made, with a collection before it or
/// without.
pub proof fn law_what_a_script_can_get_at_is_kept(c: Ctx, obj: ObjView, p: Seq<u32>)
    requires
        c.wf(),
        c.heap.has_room(),
        no_stale_marks(c.heap),
        is_held_chain(c, p),
    ensures
        c.with(obj).object(p.last()) == c.object(p.last()),
        c.next_slot() != p.last(),
{
    lemma_held_is_root(c, p[0]);
    assert forall|i: int| 0 <= i < p.len() implies live(c.heap.slots, #[trigger] p[i]) by {
        assert(c.object(p[i]) is Some);
    }
    assert forall|i: int| 0 <= i < p.len() - 1 implies #[trigger] step(
        c.heap.slots,
        p[i],
        p[i + 1],
    ) by {
        let j = i + 1;
        assert(c.object(p[i]) is Some);
        assert(has_inside(c.object(p[i])->0, p[j]));
        lemma_inside_points(c.object(p[i])->0, p[j]);
    }
    assert(is_chain(c.heap.slots, c.roots(), p));
    law_objects_in_use_are_kept(c, obj, p.last());
}

proof fn lemma_inside_points(obj: ObjView, id: u32)
    ensures
        has_inside(obj, id) <==> points_at(obj, id),
{
    match obj {
        ObjView::List(l) => {
            if has_inside(obj, id) {
                let k = choose|k: int|
                    0 <= k < l.len() && Value(#[trigger] l[k]).kind() == Kind::Object(id);
                assert(refers(l[k], id));
            }
            if points_at(obj, id) {
                let k = choose|k: int| 0 <= k < l.len() && refers(#[trigger] l[k], id);
                assert(Value(l[k]).kind() == Kind::Object(id));
            }
        },
        ObjView::Object(m) => {
            if has_inside(obj, id) {
                let k = choose|k: u32| #[trigger]
                    m.contains_key(k) && Value(m[k]).kind() == Kind::Object(id);
                assert(m.contains_key(k) && refers(m[k], id));
            }
            if points_at(obj, id) {
                let k = choose|k: u32| #[trigger] m.contains_key(k) && refers(m[k], id);
                assert(m.contains_key(k) && Value(m[k]).kind() == Kind::Object(id));
            }
        },
        _ => {},
    }
}

/// An object to which a register refers is the same after a new object has been
/// made.
pub proof fn law_registers_keep_their_objects(c: Ctx, obj: ObjView, t: int, f: int, r: int, id: u32)
    requires
        c.wf(),
        c.heap.has_room(),
        no_stale_marks(c.heap),
        0 <= t < c.tasks.len(),
        0 <= f < c.tasks[t].len(),
        0 <= r < c.tasks[t][f].len(),
        Value(c.tasks[t][f][r]).kind() == Kind::Object(id),
        c.object(id) is Some,
    ensures
        c.with(obj).object(id) == c.object(id),
        c.with(obj).tasks[t][f][r] == c.tasks[t][f][r],
        c.next_slot() != id,
{
    let p = seq![id];
    assert(p[0] == id && p.last() == id);
    assert(Value(c.tasks[t][f][r]).kind() == Kind::Object(id));
    assert(is_held(c, id));
    law_what_a_script_can_get_at_is_kept(c, obj, p);
}

/// An object to which a global refers, and a string of the program, are the same
/// after a new object has been made.
pub proof fn law_globals_and_strings_keep_their_objects(c: Ctx, obj: ObjView, g: int, id: u32)
    requires
        c.wf(),
        c.heap.has_room(),
        no_stale_marks(c.heap),
        c.object(id) is Some,
        (0 <= g < c.globals.len() && Value(c.globals[g]).kind() == Kind::Object(id)) || id
            < c.strings.len(),
    ensures
        c.with(obj).object(id) == c.object(id),
        c.with(obj).globals == c.globals,
        c.with(obj).strings == c.strings,
        c.next_slot() != id,
{
    let p = seq![id];
    assert(p[0] == id && p.last() == id);
    if 0 <= g < c.globals.len() && Value(c.globals[g]).kind() == Kind::Object(id) {
        assert(Value(c.globals[g]).kind() == Kind::Object(id));
    }
    assert(is_held(c, id));
    law_what_a_script_can_get_at_is_kept(c, obj, p);
}

/// Objects are collected before every hundred-thousandth new one, and only then.
pub proof fn law_collections_come_after_many_objects(c: Ctx)
    ensures
        c.heap.allocs < 100000 ==> c.before_insert().slots == c.heap.slots
            && c.before_insert().gc_count == c.heap.gc_count && c.before_insert().free
            == c.heap.free && c.before_insert().allocs == c.heap.allocs + 1,
        c.heap.allocs >= 100000 ==> c.before_insert().gc_count == next_gc(c.heap.gc_count)
            && c.before_insert().allocs == 0,
{
}

/// An object that nothing holds is gone after the next collection, if that is a
/// major one or if the object is young.
pub proof fn law_what_nothing_holds_is_dropped(c: Ctx, id: u32)
    requires
        c.wf(),
        no_stale_marks(c.heap),
        c.heap.allocs >= 100000,
        c.object(id) is Some,
        !is_held(c, id),
        forall|other: u32|
            c.object(other) is Some ==> !has_inside((#[trigger] c.object(other))->0, id),
        !c.heap.remembered.contains(id),
        next_gc(c.heap.gc_count) % 5 == 0 || is_young(c.heap.slots, id),
    ensures
        !live(c.before_insert().slots, id),
{
    let h = HeapView { allocs: 0, ..c.heap };
    assert(h.wf() && no_stale_marks(h));
    assert forall|p: Seq<u32>, roots: Set<u32>|
        !roots.contains(id) && #[trigger] is_chain(h.slots, roots, p) implies p.last() != id by {
        if p.last() == id {
            if p.len() == 1 {
                assert(p[0] == id);
            } else {
                let i = p.len() - 2;
                assert(step(h.slots, p[i], p[i + 1]));
                lemma_inside_points(c.object(p[i])->0, id);
                assert(c.object(p[i]) is Some);
            }
        }
    }
    if c.roots().contains(id) {
        lemma_only_held_are_roots(c, id);
    }
    if next_gc(c.heap.gc_count) % 5 == 0 {
        law_major_collection_drops_the_rest(h, c.roots(), id);
    } else {
        law_minor_collection_drops_young_garbage(h, c.roots(), id);
    }
}

proof fn lemma_only_held_are_roots(c: Ctx, id: u32)
    requires
        c.roots().contains(id),
    ensures
        is_held(c, id),
{
    if any_refers(c.globals, id) {
        let g = choose|g: int| 0 <= g < c.globals.len() && refers(#[trigger] c.globals[g], id);
        assert(Value(c.globals[g]).kind() == Kind::Object(id));
    } else if id >= c.strings.len() {
        let (t, f) = choose|t: int, f: int|
            0 <= t < c.tasks.len() && 0 <= f < c.tasks[t].len() && any_refers(
                #[trigger] c.tasks[t][f],
                id,
            );
        let v = c.tasks[t][f];
        let r = choose|r: int| 0 <= r < v.len() && refers(#[trigger] v[r], id);
        assert(Value(c.tasks[t][f][r]).kind() == Kind::Object(id));
    }
}

/// A value stands for the text that it holds itself or that it refers to, and for no
/// other; a number and a truth value stand for none. A string has the number of its
/// place, and a number that is none stands for the empty one.
pub proof fn law_texts_are_what_values_hold(c: Ctx, v: Value, id: u32, s: Seq<char>)
    ensures
        v.kind() == Kind::Object(id) && c.object(id) == Some(ObjView::Text(s)) ==> c.text(v)
            == Some(s),
        v.kind() == Kind::Object(id) && !(c.object(id) matches Some(ObjView::Text(_))) ==> c.text(v)
            is None,
        v.kind() is Number || v.kind() is Bool || v.kind() is Other ==> c.text(v) is None
            && c.deref(v) is None,
        encode_utf8(s).len() <= 6 ==> c.text(text_value(encode_utf8(s))) == Some(s),
        v.kind() == Kind::Object(id) ==> c.deref(v) == c.object(id),
        id < c.strings.len() ==> c.name(id) == c.strings[id as int],
        id >= c.strings.len() ==> c.name(id) == Seq::<char>::empty(),
{
    if encode_utf8(s).len() <= 6 {
        law_short_text_round_trip(s);
    }
}

/// A text is found at the first place where it stands, and nowhere if it does not
/// stand in the list.
pub proof fn law_texts_are_found_at_their_first_place(
    strings: Seq<Seq<char>>,
    s: Seq<char>,
    from: int,
)
    requires
        0 <= from <= strings.len(),
    ensures
        match first_place(strings, s, from) {
            Some(k) => from <= k < strings.len() && strings[k] == s && forall|j: int|
                from <= j < k ==> #[trigger] strings[j] != s,
            None => forall|j: int| from <= j < strings.len() ==> #[trigger] strings[j] != s,
        },
        strings.len() <= u32::MAX ==> (match (place_id(strings, s), first_place(strings, s, 0)) {
            (Some(id), Some(k)) => id == k,
            (None, None) => true,
            _ => false,
        }),
    decreases strings.len() - from,
{
    if from < strings.len() && strings[from] != s {
        law_texts_are_found_at_their_first_place(strings, s, from + 1);
    }
    lemma_first_place_below(strings, s, 0);
}

proof fn lemma_first_place_below(strings: Seq<Seq<char>>, s: Seq<char>, from: int)
    requires
        0 <= from,
    ensures
        first_place(strings, s, from) matches Some(k) ==> from <= k < strings.len(),
    decreases strings.len() - from,
{
    if from < strings.len() && strings[from] != s {
        lemma_first_place_below(strings, s, from + 1);
    }
}

/// The collector starts from every object that the script holds itself, and from no
/// other.
pub proof fn law_the_collector_starts_from_what_is_held(c: Ctx, id: u32)
    requires
        c.strings.len() <= u32::MAX,
    ensures
        c.root_list().contains(id) <==> is_held(c, id),
        c.roots().contains(id) <==> is_held(c, id),
{
    lemma_root_list(c);
    assert(c.root_list().to_set().contains(id) <==> c.root_list().contains(id));
    if is_held(c, id) {
        lemma_held_is_root(c, id);
    }
    if c.roots().contains(id) {
        lemma_only_held_are_roots(c, id);
    }
}

/// A text has the number of the first string that is the same, whether a value holds
/// it itself or refers to it. A reference to a string of the program has the number
/// of that string, and what stands for no text has none.
pub proof fn law_texts_have_the_numbers_of_their_strings(c: Ctx, v: Value, id: u32, s: Seq<char>)
    requires
        c.wf(),
    ensures
        v.kind() == Kind::Object(id) && id < c.strings.len() ==> c.pool_id(v) == Some(id),
        (v.kind() matches Kind::Object(i) ==> i >= c.strings.len()) && c.text(v) == Some(s) ==> {
            &&& !c.strings.contains(s) ==> c.pool_id(v) is None
            &&& c.strings.contains(s) ==> (c.pool_id(v) matches Some(n) && n < c.strings.len()
                && c.strings[n as int] == s && forall|j: int|
                0 <= j < n ==> #[trigger] c.strings[j] != s)
        },
        (v.kind() matches Kind::Object(i) ==> i >= c.strings.len()) && c.text(v) is None
            ==> c.pool_id(v) is None,
{
    law_texts_are_found_at_their_first_place(c.strings, s, 0);
    if c.strings.contains(s) {
        let k = choose|k: int| 0 <= k < c.strings.len() && c.strings[k] == s;
        assert(c.strings[k] == s);
    }
}

} // verus!
