//! The heap: objects, generations and the garbage collector.
use crate::value::Kind;
use crate::value::Value;
use rayon::prelude::IndexedParallelIterator;
use rayon::prelude::IntoParallelIterator;
use rayon::prelude::IntoParallelRefIterator;
use rayon::prelude::IntoParallelRefMutIterator;
use rayon::prelude::ParallelIterator;
use rustc_hash::FxHashMap;
use rustc_hash::FxHashSet;
use vstd::prelude::*;

verus! {

/// The age of an object.
#[derive(Debug, Clone, Copy, PartialEq, Eq, Structural)]
pub enum Generation {
    /// Made since the last collection.
    Nursery,
    /// Survived a collection.
    Tenured,
}

/// What a heap slot can hold.
pub enum ManagedObject {
    String(String),
    /// The values in order, by their bits.
    List(Vec<u64>),
    /// The values by the ids of their names.
    Object(FxHashMap<u32, u64>),
    /// A point in time, by a number that the clock's owner gave.
    Timestamp(u64),
    /// The bits of the three numbers.
    Range { start: u64, end: u64, step: u64 },
    /// A method together with the value that it is called on.
    BoundMethod { receiver: Value, name_id: u32 },
}

/// An object with its contents as sequences and maps.
pub enum ObjView {
    Text(Seq<char>),
    List(Seq<u64>),
    Object(Map<u32, u64>),
    Timestamp(u64),
    Range { start: u64, end: u64, step: u64 },
    BoundMethod { receiver: Value, name_id: u32 },
}

impl View for ManagedObject {
    type V = ObjView;

    open spec fn view(&self) -> ObjView {
        match *self {
            ManagedObject::String(s) => ObjView::Text(s@),
            ManagedObject::List(v) => ObjView::List(v@),
            ManagedObject::Object(m) => ObjView::Object(m@),
            ManagedObject::Timestamp(t) => ObjView::Timestamp(t),
            ManagedObject::Range { start, end, step } => ObjView::Range { start, end, step },
            ManagedObject::BoundMethod { receiver, name_id } => ObjView::BoundMethod {
                receiver,
                name_id,
            },
        }
    }
}

/// `FxHashMap::default` makes a table without fields.
#[verifier::external_body]
pub(crate) fn fields_new() -> (res: FxHashMap<u32, u64>)
    ensures
        res@ == no_fields(),
{
    FxHashMap::default()
}

pub open spec fn no_fields() -> Map<u32, u64> {
    Map::empty()
}

pub open spec fn field_get(m: Map<u32, u64>, k: u32) -> Option<u64> {
    if m.contains_key(k) {
        Some(m[k])
    } else {
        None
    }
}

/// `FxHashMap::get` finds the value of a field.
#[verifier::external_body]
pub(crate) fn fields_get(m: &FxHashMap<u32, u64>, k: u32) -> (res: Option<u64>)
    ensures
        res == field_get(m@, k),
{
    m.get(&k).copied()
}

/// `FxHashMap::insert` gives a field its value.
#[verifier::external_body]
pub(crate) fn fields_insert(m: &mut FxHashMap<u32, u64>, k: u32, v: u64)
    ensures
        final(m)@ == old(m)@.insert(k, v),
{
    m.insert(k, v);
}

/// The list names each field of the table once, with its value.
pub open spec fn lists_fields(l: Seq<(u32, u64)>, m: Map<u32, u64>) -> bool {
    &&& forall|i: int, j: int| 0 <= i < j < l.len() ==> (#[trigger] l[i]).0 != (#[trigger] l[j]).0
    &&& forall|i: int|
        0 <= i < l.len() ==> m.contains_key((#[trigger] l[i]).0) && m[l[i].0] == l[i].1
    &&& forall|k: u32| #[trigger] m.contains_key(k) ==> exists|i: int| 0 <= i < l.len() && l[i].0 == k
}

/// `FxHashMap::iter` gives out each field once, in an order that is left open.
#[verifier::external_body]
pub(crate) fn fields_entries(m: &FxHashMap<u32, u64>) -> (res: Vec<(u32, u64)>)
    ensures
        lists_fields(res@, m@),
{
    m.iter().map(|e| (*e.0, *e.1)).collect()
}

/// An object in its slot.
pub struct HeapObject {
    pub obj: ManagedObject,
    /// The last collection that reached it.
    pub last_gc_id: u32,
    pub generation: Generation,
}

/// An object in its slot, with its contents as sequences and maps.
pub struct Cell {
    pub obj: ObjView,
    pub mark: u32,
    pub generation: Generation,
}

impl View for HeapObject {
    type V = Cell;

    open spec fn view(&self) -> Cell {
        Cell { obj: self.obj@, mark: self.last_gc_id, generation: self.generation }
    }
}

/// The slots of a heap.
pub open spec fn slots_view(v: Seq<Option<HeapObject>>) -> Seq<Option<Cell>> {
    v.map_values(
        |s: Option<HeapObject>|
            match s {
                Some(o) => Some(o@),
                None => None,
            },
    )
}

/// The value refers to the slot.
pub open spec fn refers(bits: u64, id: u32) -> bool {
    Value(bits).kind() == Kind::Object(id)
}

/// The object holds a reference to the slot.
pub open spec fn points_at(obj: ObjView, id: u32) -> bool {
    match obj {
        ObjView::List(v) => exists|k: int| 0 <= k < v.len() && refers(#[trigger] v[k], id),
        ObjView::Object(m) => exists|k: u32| #[trigger] m.contains_key(k) && refers(m[k], id),
        ObjView::BoundMethod { receiver, .. } => refers(receiver.0, id),
        _ => false,
    }
}

/// The slots that the values refer to, in order.
pub open spec fn object_ids(v: Seq<u64>) -> Seq<u32>
    decreases v.len(),
{
    if v.len() == 0 {
        Seq::empty()
    } else {
        match Value(v.last()).kind() {
            Kind::Object(id) => object_ids(v.drop_last()).push(id),
            _ => object_ids(v.drop_last()),
        }
    }
}

/// The values that the object holds, in some order where it has none of its
/// own.
pub open spec fn holds(obj: ObjView, v: Seq<u64>) -> bool {
    match obj {
        ObjView::List(l) => v == l,
        ObjView::Object(m) => field_values(m, v),
        ObjView::BoundMethod { receiver, .. } => v == seq![receiver.0],
        _ => v == Seq::<u64>::empty(),
    }
}

/// The values of the fields, in some order.
pub open spec fn field_values(m: Map<u32, u64>, v: Seq<u64>) -> bool {
    exists|l: Seq<(u32, u64)>| #[trigger] lists_fields(l, m) && v == values_of(l)
}

/// The values of a list of fields.
pub open spec fn values_of(l: Seq<(u32, u64)>) -> Seq<u64> {
    l.map_values(|e: (u32, u64)| e.1)
}

pub proof fn lemma_object_ids(v: Seq<u64>, id: u32)
    ensures
        object_ids(v).contains(id) <==> exists|k: int|
            0 <= k < v.len() && refers(#[trigger] v[k], id),
    decreases v.len(),
{
    if v.len() > 0 {
        let w = v.drop_last();
        lemma_object_ids(w, id);
        let a = object_ids(w);
        if object_ids(v).contains(id) {
            if a.contains(id) {
                let k = choose|k: int| 0 <= k < w.len() && refers(#[trigger] w[k], id);
                assert(refers(v[k], id));
            } else {
                let i = choose|i: int| 0 <= i < object_ids(v).len() && object_ids(v)[i] == id;
                if i < a.len() {
                    assert(a[i] == id);
                }
                assert(refers(v[v.len() - 1], id));
            }
        }
        if exists|k: int| 0 <= k < v.len() && refers(#[trigger] v[k], id) {
            let k = choose|k: int| 0 <= k < v.len() && refers(#[trigger] v[k], id);
            if k < w.len() {
                assert(refers(w[k], id));
                let i = choose|i: int| 0 <= i < a.len() && a[i] == id;
                assert(object_ids(v)[i] == id);
            } else {
                assert(object_ids(v)[a.len() as int] == id);
            }
        }
    } else {
        assert(object_ids(v) =~= Seq::<u32>::empty());
    }
}

proof fn lemma_held_children(obj: ObjView, v: Seq<u64>, id: u32)
    requires
        holds(obj, v),
    ensures
        object_ids(v).contains(id) <==> points_at(obj, id),
{
    lemma_object_ids(v, id);
    match obj {
        ObjView::Object(m) => {
            let l = choose|l: Seq<(u32, u64)>| #[trigger] lists_fields(l, m) && v == values_of(l);
            if points_at(obj, id) {
                let k = choose|k: u32| #[trigger] m.contains_key(k) && refers(m[k], id);
                let i = choose|i: int| 0 <= i < l.len() && l[i].0 == k;
                assert(v[i] == l[i].1);
                assert(refers(v[i], id));
            }
            if object_ids(v).contains(id) {
                let i = choose|i: int| 0 <= i < v.len() && refers(#[trigger] v[i], id);
                assert(v[i] == l[i].1);
                assert(m.contains_key(l[i].0) && refers(m[l[i].0], id));
            }
        },
        ObjView::BoundMethod { receiver, .. } => {
            assert(v[0] == receiver.0);
        },
        _ => {},
    }
}

/// Adds the slots that the values refer to.
pub(crate) fn push_ids(v: &Vec<u64>, ids: &mut Vec<u32>)
    ensures
        final(ids)@ == old(ids)@ + object_ids(v@),
{
    let ghost before = ids@;
    let mut k: usize = 0;
    assert(before + object_ids(v@.take(0)) =~= before);
    while k < v.len()
        invariant
            k <= v@.len(),
            ids@ == before + object_ids(v@.take(k as int)),
        decreases v@.len() - k,
    {
        assert(v@.take(k + 1).drop_last() =~= v@.take(k as int));
        if let Some(id) = Value::from_bits(v[k]).as_obj_id() {
            ids.push(id);
        }
        k = k + 1;
        assert(ids@ =~= before + object_ids(v@.take(k as int)));
    }
    assert(v@.take(v@.len() as int) =~= v@);
}

impl ManagedObject {
    /// The slots that the object refers to, one entry for each reference that
    /// it holds.
    pub fn visit_children(&self) -> (res: Vec<u32>)
        ensures
            exists|v: Seq<u64>| #[trigger] holds(self@, v) && res@ == object_ids(v),
            forall|id: u32| #[trigger] res@.contains(id) <==> points_at(self@, id),
    {
        let mut values: Vec<u64> = Vec::new();
        match self {
            ManagedObject::List(elements) => {
                values = copy_bits(elements);
            },
            ManagedObject::Object(fields) => {
                let entries = fields_entries(fields);
                let mut k: usize = 0;
                while k < entries.len()
                    invariant
                        k <= entries@.len(),
                        values@ == values_of(entries@).take(k as int),
                    decreases entries@.len() - k,
                {
                    values.push(entries[k].1);
                    k = k + 1;
                    assert(values@ =~= values_of(entries@).take(k as int));
                }
                assert(values@ =~= values_of(entries@));
                assert(field_values(fields@, values@));
            },
            ManagedObject::BoundMethod { receiver, .. } => {
                values.push(receiver.to_bits());
                assert(values@ =~= seq![receiver.0]);
            },
            _ => {
                assert(values@ =~= Seq::<u64>::empty());
            },
        }
        let mut ids: Vec<u32> = Vec::new();
        push_ids(&values, &mut ids);
        assert(ids@ =~= object_ids(values@));
        proof {
            assert(holds(self@, values@));
            assert forall|id: u32| #[trigger] ids@.contains(id) <==> points_at(self@, id) by {
                lemma_held_children(self@, values@, id);
            }
        }
        ids
    }
}

/// A copy of a list of bits.
pub(crate) fn copy_bits(v: &Vec<u64>) -> (res: Vec<u64>)
    ensures
        res@ == v@,
{
    let mut res: Vec<u64> = Vec::new();
    let mut k: usize = 0;
    while k < v.len()
        invariant
            k <= v@.len(),
            res@ == v@.take(k as int),
        decreases v@.len() - k,
    {
        res.push(v[k]);
        k = k + 1;
        assert(res@ =~= v@.take(k as int));
    }
    assert(res@ =~= v@);
    res
}

/// There is an object in the slot.
pub open spec fn live(slots: Seq<Option<Cell>>, id: u32) -> bool {
    id < slots.len() && slots[id as int] is Some
}

/// There is an object in the slot that the collection has not reached.
pub open spec fn unvisited(slots: Seq<Option<Cell>>, gc_id: u32, id: u32) -> bool {
    live(slots, id) && slots[id as int]->0.mark != gc_id
}

/// One object refers to the next.
pub open spec fn step(slots: Seq<Option<Cell>>, from: u32, to: u32) -> bool {
    live(slots, from) && points_at(slots[from as int]->0.obj, to)
}

/// A chain of references that starts at a root and leads through objects that
/// the collection has not reached.
pub open spec fn is_path(
    slots: Seq<Option<Cell>>,
    gc_id: u32,
    roots: Set<u32>,
    p: Seq<u32>,
) -> bool {
    &&& p.len() > 0
    &&& roots.contains(p[0])
    &&& forall|i: int| 0 <= i < p.len() ==> unvisited(slots, gc_id, #[trigger] p[i])
    &&& forall|i: int| 0 <= i < p.len() - 1 ==> #[trigger] step(slots, p[i], p[i + 1])
}

pub open spec fn has_path(
    slots: Seq<Option<Cell>>,
    gc_id: u32,
    roots: Set<u32>,
    id: u32,
) -> bool {
    exists|p: Seq<u32>| #[trigger] is_path(slots, gc_id, roots, p) && p.last() == id
}

/// The collection counts the object as reached: it bears its number already,
/// or a chain of references leads to it.
pub open spec fn reached(slots: Seq<Option<Cell>>, gc_id: u32, roots: Set<u32>, id: u32) -> bool {
    live(slots, id) && (slots[id as int]->0.mark == gc_id || has_path(slots, gc_id, roots, id))
}

/// A slot after marking.
pub open spec fn mark_slot(
    slots: Seq<Option<Cell>>,
    gc_id: u32,
    roots: Set<u32>,
    k: int,
) -> Option<Cell> {
    match slots[k] {
        Some(c) => if reached(slots, gc_id, roots, k as u32) {
            Some(Cell { mark: gc_id, ..c })
        } else {
            Some(c)
        },
        None => None,
    }
}

/// The slots after marking.
pub open spec fn mark_all(slots: Seq<Option<Cell>>, gc_id: u32, roots: Set<u32>) -> Seq<
    Option<Cell>,
> {
    Seq::new(slots.len(), |k: int| mark_slot(slots, gc_id, roots, k))
}

/// The same objects, each marked or not marked.
spec fn partly_marked(a: Seq<Option<Cell>>, b: Seq<Option<Cell>>, gc_id: u32) -> bool {
    &&& a.len() == b.len()
    &&& forall|k: int|
        0 <= k < a.len() ==> match a[k] {
            Some(c) => #[trigger] b[k] == Some(c) || b[k] == Some(Cell { mark: gc_id, ..c }),
            None => b[k] is None,
        }
}

/// The object has been marked by now, and was not before.
spec fn newly(a: Seq<Option<Cell>>, b: Seq<Option<Cell>>, gc_id: u32, id: u32) -> bool {
    unvisited(a, gc_id, id) && live(b, id) && b[id as int]->0.mark == gc_id
}

/// How many objects are not marked.
spec fn unmarked(s: Seq<Option<Cell>>, gc_id: u32) -> nat
    decreases s.len(),
{
    if s.len() == 0 {
        0
    } else {
        unmarked(s.drop_last(), gc_id) + (if s.last() matches Some(c) && c.mark != gc_id {
            1nat
        } else {
            0nat
        })
    }
}

proof fn lemma_unmarked_update(s: Seq<Option<Cell>>, gc_id: u32, k: int, c: Cell)
    requires
        0 <= k < s.len(),
        s[k] matches Some(d) && d.mark != gc_id,
        c.mark == gc_id,
    ensures
        unmarked(s.update(k, Some(c)), gc_id) + 1 == unmarked(s, gc_id),
    decreases s.len(),
{
    let t = s.update(k, Some(c));
    if k == s.len() - 1 {
        assert(t.drop_last() =~= s.drop_last());
    } else {
        assert(t.drop_last() =~= s.drop_last().update(k, Some(c)));
        lemma_unmarked_update(s.drop_last(), gc_id, k, c);
    }
}

/// What the work list still has to see to.
spec fn pending(
    a: Seq<Option<Cell>>,
    b: Seq<Option<Cell>>,
    gc_id: u32,
    work: Seq<u32>,
    id: u32,
) -> bool {
    work.contains(id) || !live(b, id) || b[id as int]->0.mark == gc_id
}

/// Every entry of the work list is a root or the child of a marked object.
spec fn work_sound(
    a: Seq<Option<Cell>>,
    b: Seq<Option<Cell>>,
    gc_id: u32,
    roots: Set<u32>,
    work: Seq<u32>,
) -> bool {
    forall|i: int|
        0 <= i < work.len() ==> may_follow(a, b, gc_id, roots, #[trigger] work[i])
}

spec fn may_follow(
    a: Seq<Option<Cell>>,
    b: Seq<Option<Cell>>,
    gc_id: u32,
    roots: Set<u32>,
    id: u32,
) -> bool {
    roots.contains(id) || exists|q: u32| #[trigger] has_path(a, gc_id, roots, q) && step(a, q, id)
}

/// Every root, and every child of a marked object, is marked or on the list.
spec fn work_complete(
    a: Seq<Option<Cell>>,
    b: Seq<Option<Cell>>,
    gc_id: u32,
    roots: Set<u32>,
    work: Seq<u32>,
) -> bool {
    &&& forall|id: u32| #[trigger] roots.contains(id) ==> pending(a, b, gc_id, work, id)
    &&& forall|p: u32, c: u32|
        newly(a, b, gc_id, p) && #[trigger] step(a, p, c) ==> pending(a, b, gc_id, work, c)
}

/// What has been marked has a path.
spec fn marks_sound(
    a: Seq<Option<Cell>>,
    b: Seq<Option<Cell>>,
    gc_id: u32,
    roots: Set<u32>,
) -> bool {
    forall|id: u32| #[trigger] newly(a, b, gc_id, id) ==> has_path(a, gc_id, roots, id)
}

proof fn lemma_path_extends(a: Seq<Option<Cell>>, gc_id: u32, roots: Set<u32>, q: u32, id: u32)
    requires
        has_path(a, gc_id, roots, q),
        step(a, q, id),
        unvisited(a, gc_id, id),
    ensures
        has_path(a, gc_id, roots, id),
{
    let p = choose|p: Seq<u32>| #[trigger] is_path(a, gc_id, roots, p) && p.last() == q;
    let r = p.push(id);
    assert forall|i: int| 0 <= i < r.len() implies unvisited(a, gc_id, #[trigger] r[i]) by {
        if i < p.len() {
            assert(r[i] == p[i]);
        }
    }
    assert forall|i: int| 0 <= i < r.len() - 1 implies #[trigger] step(a, r[i], r[i + 1]) by {
        if i < p.len() - 1 {
            assert(step(a, p[i], p[i + 1]));
        } else {
            assert(r[i] == q);
        }
    }
    assert(r[0] == p[0]);
    assert(is_path(a, gc_id, roots, r));
}

/// With nothing left to do, everything that a path leads to is marked.
proof fn lemma_path_marked(
    a: Seq<Option<Cell>>,
    b: Seq<Option<Cell>>,
    gc_id: u32,
    roots: Set<u32>,
    p: Seq<u32>,
)
    requires
        partly_marked(a, b, gc_id),
        work_complete(a, b, gc_id, roots, Seq::empty()),
        is_path(a, gc_id, roots, p),
    ensures
        newly(a, b, gc_id, p.last()),
    decreases p.len(),
{
    let id = p.last();
    assert(unvisited(a, gc_id, p[p.len() - 1]));
    assert(b[id as int] is Some);
    if p.len() == 1 {
        assert(roots.contains(id));
        assert(pending(a, b, gc_id, Seq::empty(), id));
    } else {
        let q = p.drop_last();
        assert forall|i: int| 0 <= i < q.len() implies unvisited(a, gc_id, #[trigger] q[i]) by {
            assert(q[i] == p[i]);
        }
        assert forall|i: int| 0 <= i < q.len() - 1 implies #[trigger] step(a, q[i], q[i + 1]) by {
            assert(step(a, p[i], p[i + 1]));
        }
        assert(is_path(a, gc_id, roots, q));
        lemma_path_marked(a, b, gc_id, roots, q);
        assert(step(a, p[p.len() - 2], p[p.len() - 2 + 1]));
        assert(q.last() == p[p.len() - 2]);
        assert(pending(a, b, gc_id, Seq::empty(), id));
    }
}

proof fn lemma_mark_done(
    a: Seq<Option<Cell>>,
    b: Seq<Option<Cell>>,
    gc_id: u32,
    roots: Set<u32>,
)
    requires
        a.len() <= 0x1_0000_0000,
        partly_marked(a, b, gc_id),
        work_complete(a, b, gc_id, roots, Seq::empty()),
        marks_sound(a, b, gc_id, roots),
    ensures
        b == mark_all(a, gc_id, roots),
{
    let m = mark_all(a, gc_id, roots);
    assert forall|k: int| 0 <= k < a.len() implies #[trigger] b[k] == m[k] by {
        let id = k as u32;
        assert(id == k);
        assert(m[k] == mark_slot(a, gc_id, roots, k));
        if let Some(c) = a[k] {
            if c.mark != gc_id {
                if has_path(a, gc_id, roots, id) {
                    let p = choose|p: Seq<u32>| #[trigger]
                        is_path(a, gc_id, roots, p) && p.last() == id;
                    lemma_path_marked(a, b, gc_id, roots, p);
                } else {
                    assert(!newly(a, b, gc_id, id));
                }
            } else {
                assert(Cell { mark: gc_id, ..c } == c);
            }
        }
    }
    assert(b =~= m);
}

/// Marks everything that the collection reaches from the work list.
fn mark(objects: &mut Vec<Option<HeapObject>>, gc_id: u32, roots: Vec<u32>)
    requires
        old(objects)@.len() <= 0x1_0000_0000,
    ensures
        slots_view(final(objects)@) == mark_all(
            slots_view(old(objects)@),
            gc_id,
            roots@.to_set(),
        ),
{
    let ghost a = slots_view(objects@);
    let ghost set = roots@.to_set();
    let mut work = roots;
    proof {
        assert forall|i: int| 0 <= i < work@.len() implies may_follow(
            a,
            a,
            gc_id,
            set,
            #[trigger] work@[i],
        ) by {
            assert(set.contains(work@[i]));
        }
    }
    while work.len() > 0
        invariant
            a.len() <= 0x1_0000_0000,
            a.len() == objects@.len(),
            partly_marked(a, slots_view(objects@), gc_id),
            work_sound(a, slots_view(objects@), gc_id, set, work@),
            work_complete(a, slots_view(objects@), gc_id, set, work@),
            marks_sound(a, slots_view(objects@), gc_id, set),
        decreases unmarked(slots_view(objects@), gc_id), work@.len(),
    {
        let ghost b = slots_view(objects@);
        let ghost before = work@;
        let id: u32 = match work.pop() {
            Some(id) => id,
            None => 0,
        };
        proof {
            assert(before.last() == id);
            assert(before =~= work@.push(id));
            assert forall|x: u32| before.contains(x) implies x == id || work@.contains(x) by {
                let i = choose|i: int| 0 <= i < before.len() && before[i] == x;
                if i < work@.len() {
                    assert(work@[i] == x);
                }
            }
        }
        let i: usize = id as usize;
        let mut children: Vec<u32> = Vec::new();
        let mut fresh = false;
        if i < objects.len() {
            assert(b[i as int] == slots_view(objects@)[i as int]);
            if let Some(o) = &mut objects[i] {
                if o.last_gc_id != gc_id {
                    o.last_gc_id = gc_id;
                    children = o.obj.visit_children();
                    fresh = true;
                }
            }
        }
        if fresh {
            proof {
                let c = b[i as int]->0;
                let marked = Cell { mark: gc_id, ..c };
                let n = slots_view(objects@);
                assert(n =~= b.update(i as int, Some(marked)));
                lemma_unmarked_update(b, gc_id, i as int, marked);
                assert(unvisited(a, gc_id, id));
                assert(may_follow(a, b, gc_id, set, before[before.len() - 1]));
                assert(has_path(a, gc_id, set, id)) by {
                    if set.contains(id) {
                        let p = seq![id];
                        assert(is_path(a, gc_id, set, p));
                        assert(p.last() == id);
                    } else {
                        let q = choose|q: u32| #[trigger]
                            has_path(a, gc_id, set, q) && step(a, q, id);
                        lemma_path_extends(a, gc_id, set, q, id);
                    }
                }
                assert forall|x: u32| #[trigger] newly(a, n, gc_id, x) implies has_path(
                    a,
                    gc_id,
                    set,
                    x,
                ) by {
                    if x != id {
                        assert(newly(a, b, gc_id, x));
                    }
                }
            }
            let ghost rest = work@;
            append_ids(&mut work, children);
            proof {
                let n = slots_view(objects@);
                assert(work@ =~= rest + children@);
                assert forall|x: u32| #[trigger] rest.contains(x) implies work@.contains(x) by {
                    let k = choose|k: int| 0 <= k < rest.len() && rest[k] == x;
                    assert(work@[k] == x);
                }
                assert forall|x: u32| #[trigger] children@.contains(x) implies work@.contains(
                    x,
                ) by {
                    let k = choose|k: int| 0 <= k < children@.len() && children@[k] == x;
                    assert(work@[rest.len() + k] == x);
                }
                assert forall|k: int| 0 <= k < work@.len() implies may_follow(
                    a,
                    n,
                    gc_id,
                    set,
                    #[trigger] work@[k],
                ) by {
                    if k < rest.len() {
                        assert(may_follow(a, b, gc_id, set, before[k]));
                    } else {
                        let x = children@[k - rest.len()];
                        assert(children@.contains(x));
                        assert(points_at(a[i as int]->0.obj, x));
                        assert(step(a, id, x));
                    }
                }
                assert forall|x: u32| #[trigger] set.contains(x) implies pending(
                    a,
                    n,
                    gc_id,
                    work@,
                    x,
                ) by {
                    assert(pending(a, b, gc_id, before, x));
                }
                assert forall|p: u32, c: u32|
                    newly(a, n, gc_id, p) && #[trigger] step(a, p, c) implies pending(
                    a,
                    n,
                    gc_id,
                    work@,
                    c,
                ) by {
                    if p == id {
                        assert(children@.contains(c));
                    } else {
                        assert(newly(a, b, gc_id, p));
                        assert(pending(a, b, gc_id, before, c));
                    }
                }
            }
        } else {
            proof {
                assert(slots_view(objects@) =~= b);
                assert(!live(b, id) || b[id as int]->0.mark == gc_id);
                assert forall|k: int| 0 <= k < work@.len() implies may_follow(
                    a,
                    b,
                    gc_id,
                    set,
                    #[trigger] work@[k],
                ) by {
                    assert(may_follow(a, b, gc_id, set, before[k]));
                }
                assert forall|x: u32| #[trigger] set.contains(x) implies pending(
                    a,
                    b,
                    gc_id,
                    work@,
                    x,
                ) by {
                    assert(pending(a, b, gc_id, before, x));
                }
                assert forall|p: u32, c: u32|
                    newly(a, b, gc_id, p) && #[trigger] step(a, p, c) implies pending(
                    a,
                    b,
                    gc_id,
                    work@,
                    c,
                ) by {
                    assert(pending(a, b, gc_id, before, c));
                }
            }
        }
    }
    proof {
        assert(work@ =~= Seq::<u32>::empty());
        lemma_mark_done(a, slots_view(objects@), gc_id, set);
    }
}

/// Adds a list of ids to another.
fn append_ids(ids: &mut Vec<u32>, more: Vec<u32>)
    ensures
        final(ids)@ == old(ids)@ + more@,
{
    let ghost before = ids@;
    let mut k: usize = 0;
    assert(before + more@.take(0) =~= before);
    while k < more.len()
        invariant
            k <= more@.len(),
            ids@ == before + more@.take(k as int),
        decreases more@.len() - k,
    {
        ids.push(more[k]);
        k = k + 1;
        assert(ids@ =~= before + more@.take(k as int));
    }
    assert(more@.take(more@.len() as int) =~= more@);
}

/// A slot after a sweep: what the collection reached grows old, the rest is
/// dropped.
pub open spec fn sweep_one(s: Option<Cell>, gc_id: u32) -> Option<Cell> {
    match s {
        Some(c) => if c.mark == gc_id {
            Some(Cell { generation: Generation::Tenured, ..c })
        } else {
            None
        },
        None => None,
    }
}

/// The slots after a sweep of all of them.
pub open spec fn sweep_slots(slots: Seq<Option<Cell>>, gc_id: u32) -> Seq<Option<Cell>> {
    Seq::new(slots.len(), |k: int| sweep_one(slots[k], gc_id))
}

/// There is an object in the slot that a sweep drops.
pub open spec fn is_garbage(s: Option<Cell>, gc_id: u32) -> bool {
    s matches Some(c) && c.mark != gc_id
}

/// The slots that a sweep of all of them empties, in order.
pub open spec fn garbage_ids(slots: Seq<Option<Cell>>, gc_id: u32) -> Seq<u32>
    decreases slots.len(),
{
    if slots.len() == 0 {
        Seq::empty()
    } else if is_garbage(slots.last(), gc_id) {
        garbage_ids(slots.drop_last(), gc_id).push((slots.len() - 1) as u32)
    } else {
        garbage_ids(slots.drop_last(), gc_id)
    }
}

/// Sweeps one slot and gives its id where that empties it.
fn sweep_slot(i: usize, slot: &mut Option<HeapObject>, gc_id: u32) -> (res: Option<u32>)
    ensures
        opt_view(*final(slot)) == sweep_one(opt_view(*old(slot)), gc_id),
        res == (if is_garbage(opt_view(*old(slot)), gc_id) {
            Some(i as u32)
        } else {
            None
        }),
{
    if let Some(o) = slot {
        if o.last_gc_id == gc_id {
            o.generation = Generation::Tenured;
            return None;
        }
    } else {
        return None;
    }
    *slot = None;
    Some(i as u32)
}

/// The view of one slot.
pub open spec fn opt_view(s: Option<HeapObject>) -> Option<Cell> {
    match s {
        Some(o) => Some(o@),
        None => None,
    }
}

/// rayon's `par_iter_mut`, `enumerate`, `filter_map` and `collect`: sweeps every
/// slot, in parallel, and gives the ids that come out in the order of the slots.
#[verifier::external_body]
fn sweep_all(objects: &mut Vec<Option<HeapObject>>, gc_id: u32) -> (res: Vec<u32>)
    ensures
        slots_view(final(objects)@) == sweep_slots(slots_view(old(objects)@), gc_id),
        res@ == garbage_ids(slots_view(old(objects)@), gc_id),
{
    objects.par_iter_mut().enumerate().filter_map(|e| sweep_slot(e.0, e.1, gc_id)).collect()
}

/// The object refers to an object in the nursery.
pub open spec fn points_to_nursery(obj: ObjView, slots: Seq<Option<Cell>>) -> bool {
    exists|id: u32| #[trigger] points_at(obj, id) && is_young(slots, id)
}

pub open spec fn is_young(slots: Seq<Option<Cell>>, id: u32) -> bool {
    live(slots, id) && slots[id as int]->0.generation == Generation::Nursery
}

/// An old object in the slot refers to an object in the nursery.
pub open spec fn keeps_watch(slots: Seq<Option<Cell>>, id: u32) -> bool {
    live(slots, id) && slots[id as int]->0.generation == Generation::Tenured && points_to_nursery(
        slots[id as int]->0.obj,
        slots,
    )
}

/// The members that name old objects with references to the nursery.
pub open spec fn watched(ids: Set<u32>, slots: Seq<Option<Cell>>) -> Set<u32> {
    ids.filter(|id: u32| keeps_watch(slots, id))
}

fn is_watched(objects: &Vec<Option<HeapObject>>, id: u32) -> (res: bool)
    ensures
        res == keeps_watch(slots_view(objects@), id),
{
    let i: usize = id as usize;
    if i < objects.len() {
        assert(slots_view(objects@)[i as int] == opt_view(objects@[i as int]));
        if let Some(o) = &objects[i] {
            return o.generation == Generation::Tenured && Heap::check_points_to_nursery(o, objects);
        }
    }
    false
}

/// rayon's `par_iter` on a set, `filter`, `copied` and `collect`: the members for
/// which the test holds, in an order that is left open.
#[verifier::external_body]
fn filter_watched(set: &FxHashSet<u32>, objects: &Vec<Option<HeapObject>>) -> (res: Vec<u32>)
    ensures
        res@.to_set() == watched(set@, slots_view(objects@)),
{
    set.par_iter().filter(|id| is_watched(objects, **id)).copied().collect()
}

/// rayon's `into_par_iter` on a list, `filter` and `collect`: the entries for
/// which the test holds.
#[verifier::external_body]
fn filter_promoted(ids: Vec<u32>, objects: &Vec<Option<HeapObject>>) -> (res: Vec<u32>)
    ensures
        res@.to_set() == watched(ids@.to_set(), slots_view(objects@)),
{
    ids.into_par_iter().filter(|id| is_watched(objects, *id)).collect()
}

/// `FxHashSet::default` makes an empty set of slots.
#[verifier::external_body]
pub(crate) fn slot_set_new() -> (res: FxHashSet<u32>)
    ensures
        res@ == Set::<u32>::empty(),
{
    FxHashSet::default()
}

/// `FxHashSet::insert` adds a slot to a set.
#[verifier::external_body]
pub(crate) fn slot_set_insert(s: &mut FxHashSet<u32>, v: u32)
    ensures
        final(s)@ == old(s)@.insert(v),
{
    s.insert(v);
}

/// `FxHashSet::iter` gives out each slot of a set once, in an order that is left
/// open.
#[verifier::external_body]
fn slot_set_members(s: &FxHashSet<u32>) -> (res: Vec<u32>)
    ensures
        res@.no_duplicates(),
        res@.to_set() == s@,
{
    s.iter().copied().collect()
}

/// What the heap knows of its slots.
pub struct HeapMetadata {
    /// The empty slots.
    pub free_list: Vec<u32>,
    /// The objects made since the last collection.
    pub nursery_ids: Vec<u32>,
    /// Old objects into which a reference to the nursery was written.
    pub remembered_set: FxHashSet<u32>,
}

pub struct Heap {
    pub objects: Vec<Option<HeapObject>>,
    pub metadata: HeapMetadata,
    /// How many collections there were.
    pub gc_count: u32,
    /// How many objects were made since the last collection that was due.
    pub alloc_since_gc: usize,
}

/// A heap with its contents as sequences and sets.
pub struct HeapView {
    pub slots: Seq<Option<Cell>>,
    pub free: Seq<u32>,
    pub nursery: Seq<u32>,
    pub remembered: Set<u32>,
    pub gc_count: u32,
    pub allocs: usize,
}

impl View for Heap {
    type V = HeapView;

    open spec fn view(&self) -> HeapView {
        HeapView {
            slots: slots_view(self.objects@),
            free: self.metadata.free_list@,
            nursery: self.metadata.nursery_ids@,
            remembered: self.metadata.remembered_set@,
            gc_count: self.gc_count,
            allocs: self.alloc_since_gc,
        }
    }
}

impl HeapView {
    /// The free list names each empty slot once, and the nursery each young
    /// object once.
    pub open spec fn wf(self) -> bool {
        &&& self.slots.len() <= 0x1_0000_0000
        &&& self.free.no_duplicates()
        &&& forall|i: int|
            0 <= i < self.free.len() ==> (#[trigger] self.free[i]) < self.slots.len()
                && self.slots[self.free[i] as int] is None
        &&& forall|k: int|
            0 <= k < self.slots.len() && #[trigger] self.slots[k] is None ==> self.free.contains(
                k as u32,
            )
        &&& self.nursery.no_duplicates()
        &&& forall|i: int| 0 <= i < self.nursery.len() ==> is_young(self.slots, #[trigger] self.nursery[i])
        &&& forall|id: u32| #[trigger] is_young(self.slots, id) ==> self.nursery.contains(id)
    }

    /// There is a slot for one more object.
    pub open spec fn has_room(self) -> bool {
        self.free.len() > 0 || self.slots.len() < 0x1_0000_0000
    }

    /// The heap after a collection of everything that cannot be reached.
    pub open spec fn major(self, gc_id: u32, roots: Set<u32>) -> HeapView {
        let marked = mark_all(self.slots, gc_id, roots);
        HeapView {
            slots: sweep_slots(marked, gc_id),
            free: self.free + garbage_ids(marked, gc_id),
            nursery: Seq::empty(),
            remembered: Set::empty(),
            ..self
        }
    }

    /// The heap after a collection of what is in the nursery and cannot be
    /// reached, not even from the remembered objects.
    pub open spec fn minor(self, gc_id: u32, roots: Set<u32>) -> HeapView {
        let marked = mark_all(self.slots, gc_id, roots.union(self.remembered));
        HeapView {
            slots: sweep_some(marked, gc_id, self.nursery),
            free: self.free + garbage_among(marked, gc_id, self.nursery),
            nursery: Seq::empty(),
            remembered: Set::empty(),
            ..self
        }
    }

    /// The heap after a collection that was due: every fifth is a major one.
    pub open spec fn collected(self, roots: Set<u32>) -> HeapView {
        let gc_id: u32 = next_gc(self.gc_count);
        let h = HeapView { gc_count: gc_id, ..self };
        if gc_id % 5 == 0 {
            h.major(gc_id, roots)
        } else {
            h.minor(gc_id, roots)
        }
    }

    /// The slot that the next object goes to.
    pub open spec fn next_slot(self) -> u32 {
        if self.free.len() > 0 {
            self.free.last()
        } else {
            self.slots.len() as u32
        }
    }

    /// The heap with one object more.
    pub open spec fn with(self, obj: ObjView) -> HeapView {
        let cell = Some(Cell { obj, mark: 0, generation: Generation::Nursery });
        let id = self.next_slot();
        if self.free.len() > 0 {
            HeapView {
                slots: self.slots.update(id as int, cell),
                free: self.free.drop_last(),
                nursery: self.nursery.push(id),
                ..self
            }
        } else {
            HeapView { slots: self.slots.push(cell), nursery: self.nursery.push(id), ..self }
        }
    }
}

pub open spec fn next_gc(n: u32) -> u32 {
    if n == u32::MAX {
        0
    } else {
        (n + 1) as u32
    }
}

/// The slots after a sweep of those that are named.
pub open spec fn sweep_some(slots: Seq<Option<Cell>>, gc_id: u32, ids: Seq<u32>) -> Seq<
    Option<Cell>,
> {
    Seq::new(
        slots.len(),
        |k: int|
            if ids.contains(k as u32) {
                sweep_one(slots[k], gc_id)
            } else {
                slots[k]
            },
    )
}

/// The slots among those named that a sweep empties, in order.
pub open spec fn garbage_among(slots: Seq<Option<Cell>>, gc_id: u32, ids: Seq<u32>) -> Seq<u32>
    decreases ids.len(),
{
    if ids.len() == 0 {
        Seq::empty()
    } else if is_garbage(slots[ids.last() as int], gc_id) {
        garbage_among(slots, gc_id, ids.drop_last()).push(ids.last())
    } else {
        garbage_among(slots, gc_id, ids.drop_last())
    }
}

proof fn lemma_garbage_ids(slots: Seq<Option<Cell>>, gc_id: u32)
    requires
        slots.len() <= 0x1_0000_0000,
    ensures
        forall|id: u32| #[trigger]
            garbage_ids(slots, gc_id).contains(id) <==> id < slots.len() && is_garbage(
                slots[id as int],
                gc_id,
            ),
        garbage_ids(slots, gc_id).no_duplicates(),
    decreases slots.len(),
{
    if slots.len() > 0 {
        let front = slots.drop_last();
        lemma_garbage_ids(front, gc_id);
        let a = garbage_ids(front, gc_id);
        let b = garbage_ids(slots, gc_id);
        let n = (slots.len() - 1) as u32;
        assert(!a.contains(n));
        assert forall|id: u32| #[trigger] b.contains(id) <==> id < slots.len() && is_garbage(
            slots[id as int],
            gc_id,
        ) by {
            if b.contains(id) {
                let i = choose|i: int| 0 <= i < b.len() && b[i] == id;
                if i < a.len() {
                    assert(a[i] == id);
                    assert(a.contains(id));
                }
            }
            if id < slots.len() && is_garbage(slots[id as int], gc_id) {
                if id < front.len() {
                    assert(a.contains(id));
                    let i = choose|i: int| 0 <= i < a.len() && a[i] == id;
                    assert(b[i] == id);
                } else {
                    assert(b[a.len() as int] == id);
                }
            }
        }
        assert forall|i: int, j: int| 0 <= i < b.len() && 0 <= j < b.len() && i != j implies b[i]
            != b[j] by {
            if i < a.len() {
                assert(a.contains(a[i]));
            }
            if j < a.len() {
                assert(a.contains(a[j]));
            }
        }
    }
}

proof fn lemma_garbage_among(slots: Seq<Option<Cell>>, gc_id: u32, ids: Seq<u32>)
    requires
        ids.no_duplicates(),
    ensures
        forall|id: u32| #[trigger]
            garbage_among(slots, gc_id, ids).contains(id) <==> ids.contains(id) && is_garbage(
                slots[id as int],
                gc_id,
            ),
        garbage_among(slots, gc_id, ids).no_duplicates(),
    decreases ids.len(),
{
    if ids.len() > 0 {
        let front = ids.drop_last();
        let n = ids.last();
        lemma_garbage_among(slots, gc_id, front);
        let a = garbage_among(slots, gc_id, front);
        let b = garbage_among(slots, gc_id, ids);
        assert(!front.contains(n));
        assert(!a.contains(n));
        assert forall|id: u32| #[trigger] b.contains(id) <==> ids.contains(id) && is_garbage(
            slots[id as int],
            gc_id,
        ) by {
            if b.contains(id) {
                let i = choose|i: int| 0 <= i < b.len() && b[i] == id;
                if i < a.len() {
                    assert(a[i] == id);
                    assert(a.contains(id));
                    let j = choose|j: int| 0 <= j < front.len() && front[j] == id;
                    assert(ids[j] == id);
                } else {
                    assert(ids[ids.len() - 1] == id);
                }
            }
            if ids.contains(id) && is_garbage(slots[id as int], gc_id) {
                if id != n {
                    let j = choose|j: int| 0 <= j < ids.len() && ids[j] == id;
                    assert(front[j] == id);
                    assert(a.contains(id));
                    let i = choose|i: int| 0 <= i < a.len() && a[i] == id;
                    assert(b[i] == id);
                } else {
                    assert(b[a.len() as int] == id);
                }
            }
        }
        assert forall|i: int, j: int| 0 <= i < b.len() && 0 <= j < b.len() && i != j implies b[i]
            != b[j] by {
            if i < a.len() {
                assert(a.contains(a[i]));
            }
            if j < a.len() {
                assert(a.contains(a[j]));
            }
        }
    }
}

/// Two lists of slots without repetition and without a common entry, joined.
proof fn lemma_join(a: Seq<u32>, b: Seq<u32>)
    requires
        a.no_duplicates(),
        b.no_duplicates(),
        forall|id: u32| #[trigger] b.contains(id) ==> !a.contains(id),
    ensures
        (a + b).no_duplicates(),
        forall|id: u32| #[trigger] (a + b).contains(id) <==> a.contains(id) || b.contains(id),
{
    let c = a + b;
    assert forall|i: int, j: int| 0 <= i < c.len() && 0 <= j < c.len() && i != j implies c[i]
        != c[j] by {
        if i < a.len() {
            assert(a.contains(c[i]));
        } else {
            assert(b[i - a.len()] == c[i]);
            assert(b.contains(c[i]));
        }
        if j < a.len() {
            assert(a.contains(c[j]));
        } else {
            assert(b[j - a.len()] == c[j]);
            assert(b.contains(c[j]));
        }
    }
    assert forall|id: u32| #[trigger] c.contains(id) <==> a.contains(id) || b.contains(id) by {
        if a.contains(id) {
            let i = choose|i: int| 0 <= i < a.len() && a[i] == id;
            assert(c[i] == id);
        }
        if b.contains(id) {
            let i = choose|i: int| 0 <= i < b.len() && b[i] == id;
            assert(c[a.len() + i] == id);
        }
        if c.contains(id) {
            let i = choose|i: int| 0 <= i < c.len() && c[i] == id;
            if i < a.len() {
                assert(a[i] == id);
            } else {
                assert(b[i - a.len()] == id);
            }
        }
    }
}

/// A major collection keeps the heap in order and leaves nothing young.
proof fn lemma_major_wf(h: HeapView, gc_id: u32, roots: Set<u32>)
    requires
        h.wf(),
    ensures
        h.major(gc_id, roots).wf(),
{
    let m = mark_all(h.slots, gc_id, roots);
    let g = garbage_ids(m, gc_id);
    let n = h.major(gc_id, roots);
    lemma_garbage_ids(m, gc_id);
    assert forall|id: u32| #[trigger] g.contains(id) implies !h.free.contains(id) by {
        if h.free.contains(id) {
            let i = choose|i: int| 0 <= i < h.free.len() && h.free[i] == id;
            assert(h.slots[h.free[i] as int] is None);
        }
    }
    lemma_join(h.free, g);
    assert forall|i: int| 0 <= i < n.free.len() implies (#[trigger] n.free[i]) < n.slots.len()
        && n.slots[n.free[i] as int] is None by {
        let id = n.free[i];
        assert(n.free.contains(id));
        if h.free.contains(id) {
            let j = choose|j: int| 0 <= j < h.free.len() && h.free[j] == id;
            assert(h.slots[h.free[j] as int] is None);
        }
    }
    assert forall|k: int| 0 <= k < n.slots.len() && #[trigger] n.slots[k] is None implies
        n.free.contains(k as u32) by {
        if h.slots[k] is None {
            assert(h.free.contains(k as u32));
        } else {
            assert(is_garbage(m[k], gc_id));
            assert(g.contains(k as u32));
        }
    }
}

/// A minor collection keeps the heap in order and leaves nothing young.
proof fn lemma_minor_wf(h: HeapView, gc_id: u32, roots: Set<u32>)
    requires
        h.wf(),
    ensures
        h.minor(gc_id, roots).wf(),
        forall|id: u32| !#[trigger] is_young(h.minor(gc_id, roots).slots, id),
{
    let m = mark_all(h.slots, gc_id, roots.union(h.remembered));
    let g = garbage_among(m, gc_id, h.nursery);
    let n = h.minor(gc_id, roots);
    lemma_garbage_among(m, gc_id, h.nursery);
    assert forall|id: u32| #[trigger] g.contains(id) implies !h.free.contains(id) by {
        assert(h.nursery.contains(id));
        let i = choose|i: int| 0 <= i < h.nursery.len() && h.nursery[i] == id;
        assert(is_young(h.slots, h.nursery[i]));
        if h.free.contains(id) {
            let j = choose|j: int| 0 <= j < h.free.len() && h.free[j] == id;
            assert(h.slots[h.free[j] as int] is None);
        }
    }
    lemma_join(h.free, g);
    assert forall|i: int| 0 <= i < n.free.len() implies (#[trigger] n.free[i]) < n.slots.len()
        && n.slots[n.free[i] as int] is None by {
        let id = n.free[i];
        assert(n.free.contains(id));
        if h.free.contains(id) {
            let j = choose|j: int| 0 <= j < h.free.len() && h.free[j] == id;
            assert(h.slots[h.free[j] as int] is None);
        } else {
            assert(g.contains(id));
            let j = choose|j: int| 0 <= j < h.nursery.len() && h.nursery[j] == id;
            assert(is_young(h.slots, h.nursery[j]));
        }
    }
    assert forall|k: int| 0 <= k < n.slots.len() && #[trigger] n.slots[k] is None implies
        n.free.contains(k as u32) by {
        if h.slots[k] is None {
            assert(h.free.contains(k as u32));
        } else {
            assert(h.nursery.contains(k as u32));
            assert(is_garbage(m[k], gc_id));
            assert(g.contains(k as u32));
        }
    }
    assert forall|id: u32| !#[trigger] is_young(n.slots, id) by {
        if is_young(n.slots, id) {
            if !h.nursery.contains(id) {
                assert(is_young(h.slots, id));
            }
        }
    }
}

/// One object more keeps the heap in order.
proof fn lemma_with_wf(h: HeapView, obj: ObjView)
    requires
        h.wf(),
        h.has_room(),
    ensures
        h.with(obj).wf(),
        h.next_slot() < h.with(obj).slots.len(),
        !live(h.slots, h.next_slot()),
{
    let n = h.with(obj);
    let id = h.next_slot();
    if h.free.len() > 0 {
        assert(h.free[h.free.len() - 1] == id);
        assert forall|i: int| 0 <= i < n.free.len() implies (#[trigger] n.free[i]) < n.slots.len()
            && n.slots[n.free[i] as int] is None by {
            assert(n.free[i] == h.free[i]);
            assert(h.slots[h.free[i] as int] is None);
        }
        assert forall|k: int| 0 <= k < n.slots.len() && #[trigger] n.slots[k] is None implies
            n.free.contains(k as u32) by {
            assert(h.slots[k] is None);
            assert(h.free.contains(k as u32));
            let i = choose|i: int| 0 <= i < h.free.len() && h.free[i] == k as u32;
            assert(i < h.free.len() - 1);
            assert(n.free[i] == k as u32);
        }
    } else {
        assert forall|k: int| 0 <= k < n.slots.len() && #[trigger] n.slots[k] is None implies
            n.free.contains(k as u32) by {
            assert(h.slots[k] is None);
        }
    }
    assert(!is_young(h.slots, id));
    assert(!h.nursery.contains(id)) by {
        if h.nursery.contains(id) {
            let i = choose|i: int| 0 <= i < h.nursery.len() && h.nursery[i] == id;
            assert(is_young(h.slots, h.nursery[i]));
        }
    }
    assert forall|i: int, j: int|
        0 <= i < n.nursery.len() && 0 <= j < n.nursery.len() && i != j implies n.nursery[i]
        != n.nursery[j] by {
        if i < h.nursery.len() {
            assert(h.nursery.contains(h.nursery[i]));
        }
        if j < h.nursery.len() {
            assert(h.nursery.contains(h.nursery[j]));
        }
    }
    assert forall|i: int| 0 <= i < n.nursery.len() implies is_young(
        n.slots,
        #[trigger] n.nursery[i],
    ) by {
        if i < h.nursery.len() {
            assert(is_young(h.slots, h.nursery[i]));
        }
    }
    assert forall|x: u32| #[trigger] is_young(n.slots, x) implies n.nursery.contains(x) by {
        if x == id {
            assert(n.nursery[h.nursery.len() as int] == id);
        } else {
            assert(is_young(h.slots, x));
            let i = choose|i: int| 0 <= i < h.nursery.len() && h.nursery[i] == x;
            assert(n.nursery[i] == x);
        }
    }
}

impl Heap {
    /// The object refers to an object in the nursery.
    pub fn check_points_to_nursery(
        obj: &HeapObject,
        heap_objs: &Vec<Option<HeapObject>>,
    ) -> (res: bool)
        ensures
            res == points_to_nursery(obj@.obj, slots_view(heap_objs@)),
    {
        let children = obj.obj.visit_children();
        let ghost slots = slots_view(heap_objs@);
        let mut k: usize = 0;
        while k < children.len()
            invariant
                k <= children@.len(),
                slots == slots_view(heap_objs@),
                forall|id: u32| #[trigger]
                    children@.contains(id) <==> points_at(obj@.obj, id),
                forall|j: int| 0 <= j < k ==> !is_young(slots, #[trigger] children@[j]),
            decreases children@.len() - k,
        {
            let id: u32 = children[k];
            let i: usize = id as usize;
            assert(children@.contains(id));
            if i < heap_objs.len() {
                assert(slots[i as int] == opt_view(heap_objs@[i as int]));
                if let Some(child) = &heap_objs[i] {
                    if child.generation == Generation::Nursery {
                        assert(points_at(obj@.obj, id) && is_young(slots, id));
                        return true;
                    }
                }
            }
            k = k + 1;
        }
        proof {
            if points_to_nursery(obj@.obj, slots) {
                let id = choose|id: u32| #[trigger]
                    points_at(obj@.obj, id) && is_young(slots, id);
                assert(children@.contains(id));
                let j = choose|j: int| 0 <= j < children@.len() && children@[j] == id;
                assert(!is_young(slots, children@[j]));
            }
        }
        false
    }

    /// Drops every object that cannot be reached from the roots.
    pub fn major_gc(&mut self, gc_id: u32, roots: Vec<u32>)
        requires
            old(self)@.wf(),
        ensures
            final(self)@ == old(self)@.major(gc_id, roots@.to_set()),
            final(self)@.wf(),
    {
        let ghost h = self@;
        let ghost set = roots@.to_set();
        mark(&mut self.objects, gc_id, roots);
        self.metadata.remembered_set = slot_set_new();
        self.metadata.nursery_ids = Vec::new();
        let freed = sweep_all(&mut self.objects, gc_id);
        append_ids(&mut self.metadata.free_list, freed);
        proof {
            assert(self@.nursery =~= Seq::<u32>::empty());
            assert(self@ == h.major(gc_id, set));
            lemma_major_wf(h, gc_id, set);
        }
    }

    /// Drops every young object that cannot be reached from the roots or from
    /// the remembered objects; the others grow old.
    pub fn minor_gc(&mut self, gc_id: u32, roots: Vec<u32>)
        requires
            old(self)@.wf(),
        ensures
            final(self)@ == old(self)@.minor(gc_id, roots@.to_set()),
            final(self)@.wf(),
    {
        let ghost h = self@;
        let ghost set = roots@.to_set();
        let remembered = slot_set_members(&self.metadata.remembered_set);
        let mut work = roots;
        append_ids(&mut work, remembered);
        proof {
            assert(work@.to_set() =~= set.union(h.remembered)) by {
                assert forall|id: u32| work@.to_set().contains(id) <==> set.union(
                    h.remembered,
                ).contains(id) by {
                    if set.contains(id) {
                        let i = choose|i: int| 0 <= i < roots@.len() && roots@[i] == id;
                        assert(work@[i] == id);
                    }
                    if h.remembered.contains(id) {
                        assert(remembered@.to_set().contains(id));
                        let i = choose|i: int| 0 <= i < remembered@.len() && remembered@[i] == id;
                        assert(work@[roots@.len() + i] == id);
                    }
                    if work@.contains(id) {
                        let i = choose|i: int| 0 <= i < work@.len() && work@[i] == id;
                        if i < roots@.len() {
                            assert(roots@[i] == id);
                            assert(set.contains(id));
                        } else {
                            assert(remembered@[i - roots@.len()] == id);
                            assert(remembered@.to_set().contains(id));
                        }
                    }
                }
            }
        }
        mark(&mut self.objects, gc_id, work);
        let promoted = self.sweep_nursery(gc_id, Ghost(h), Ghost(set));
        proof {
            lemma_minor_wf(h, gc_id, set);
            assert(forall|id: u32| !keeps_watch(slots_view(self.objects@), id));
        }
        let from_old = filter_watched(&self.metadata.remembered_set, &self.objects);
        let from_promoted = filter_promoted(promoted, &self.objects);
        let mut remembered = slot_set_new();
        let mut k: usize = 0;
        while k < from_old.len()
            invariant
                k <= from_old@.len(),
                remembered@ == from_old@.take(k as int).to_set(),
            decreases from_old@.len() - k,
        {
            slot_set_insert(&mut remembered, from_old[k]);
            k = k + 1;
            proof {
                lemma_take_set(from_old@, k as int);
            }
        }
        let ghost olds = remembered@;
        let mut j: usize = 0;
        assert(olds.union(from_promoted@.take(0).to_set()) =~= olds);
        while j < from_promoted.len()
            invariant
                j <= from_promoted@.len(),
                remembered@ == olds.union(from_promoted@.take(j as int).to_set()),
            decreases from_promoted@.len() - j,
        {
            slot_set_insert(&mut remembered, from_promoted[j]);
            j = j + 1;
            proof {
                lemma_take_set(from_promoted@, j as int);
                assert(remembered@ =~= olds.union(from_promoted@.take(j as int).to_set()));
            }
        }
        proof {
            assert(from_old@.take(from_old@.len() as int) =~= from_old@);
            assert(from_promoted@.take(from_promoted@.len() as int) =~= from_promoted@);
            assert(remembered@ =~= Set::<u32>::empty()) by {
                assert forall|id: u32| !remembered@.contains(id) by {
                    assert(!from_old@.to_set().contains(id));
                    assert(!from_promoted@.to_set().contains(id));
                }
            }
        }
        self.metadata.remembered_set = remembered;
    }

    /// Sweeps the nursery and gives the objects that grew old.
    fn sweep_nursery(&mut self, gc_id: u32, Ghost(h): Ghost<HeapView>, Ghost(set): Ghost<
        Set<u32>,
    >) -> (res: Vec<u32>)
        requires
            h.wf(),
            old(self)@ == (HeapView {
                slots: mark_all(h.slots, gc_id, set.union(h.remembered)),
                ..h
            }),
        ensures
            final(self)@ == (HeapView {
                remembered: h.remembered,
                ..h.minor(gc_id, set)
            }),
    {
        let ghost m = mark_all(h.slots, gc_id, set.union(h.remembered));
        let mut ids: Vec<u32> = Vec::new();
        std::mem::swap(&mut ids, &mut self.metadata.nursery_ids);
        let mut promoted: Vec<u32> = Vec::new();
        let mut k: usize = 0;
        proof {
            assert(self.metadata.nursery_ids@ =~= Seq::<u32>::empty());
            assert(sweep_some(m, gc_id, ids@.take(0)) =~= m);
            assert(h.free + garbage_among(m, gc_id, ids@.take(0)) =~= h.free);
        }
        while k < ids.len()
            invariant
                k <= ids@.len(),
                h.wf(),
                ids@ == h.nursery,
                m == mark_all(h.slots, gc_id, set.union(h.remembered)),
                self@ == (HeapView {
                    slots: sweep_some(m, gc_id, ids@.take(k as int)),
                    free: h.free + garbage_among(m, gc_id, ids@.take(k as int)),
                    nursery: Seq::empty(),
                    ..h
                }),
            decreases ids@.len() - k,
        {
            let id: u32 = ids[k];
            let i: usize = id as usize;
            let ghost before = self@;
            let ghost done = ids@.take(k as int);
            let ghost more = ids@.take(k + 1);
            proof {
                assert(is_young(h.slots, h.nursery[k as int]));
                assert(more.drop_last() =~= done);
                assert(!done.contains(id)) by {
                    if done.contains(id) {
                        let j = choose|j: int| 0 <= j < done.len() && done[j] == id;
                        assert(h.nursery[j] == h.nursery[k as int]);
                    }
                }
                assert(before.slots[i as int] == m[i as int]);
                assert(before.slots == slots_view(self.objects@));
                assert(before.slots.len() == m.len() == h.slots.len());
                assert(before.slots[i as int] == opt_view(self.objects@[i as int]));
            }
            match sweep_slot(i, &mut self.objects[i], gc_id) {
                Some(_) => {
                    self.metadata.free_list.push(id);
                },
                None => {
                    promoted.push(id);
                },
            }
            k = k + 1;
            proof {
                assert(self@.slots =~= before.slots.update(i as int, sweep_one(m[i as int], gc_id)));
                assert forall|j: int| 0 <= j < m.len() implies #[trigger] self@.slots[j]
                    == sweep_some(m, gc_id, more)[j] by {
                    if j == i {
                        assert(more[more.len() - 1] == id);
                        assert(more.contains(j as u32));
                    } else {
                        assert(done.contains(j as u32) <==> more.contains(j as u32)) by {
                            if more.contains(j as u32) {
                                let q = choose|q: int|
                                    0 <= q < more.len() && more[q] == j as u32;
                                assert(done[q] == j as u32);
                            }
                            if done.contains(j as u32) {
                                let q = choose|q: int|
                                    0 <= q < done.len() && done[q] == j as u32;
                                assert(more[q] == j as u32);
                            }
                        }
                    }
                }
                assert(self@.slots =~= sweep_some(m, gc_id, more));
                assert(self@.free =~= h.free + garbage_among(m, gc_id, more));
            }
        }
        assert(ids@.take(ids@.len() as int) =~= ids@);
        promoted
    }

    /// The collection that is due.
    pub fn collect_garbage(&mut self, roots: Vec<u32>)
        requires
            old(self)@.wf(),
        ensures
            final(self)@ == old(self)@.collected(roots@.to_set()),
            final(self)@.wf(),
    {
        let gc_id: u32 = self.gc_count.wrapping_add(1);
        self.gc_count = gc_id;
        if gc_id % 5 == 0 {
            self.major_gc(gc_id, roots);
        } else {
            self.minor_gc(gc_id, roots);
        }
    }

    /// Puts an object into a slot of its own, whose id is the result.
    pub fn insert(&mut self, obj: ManagedObject) -> (res: u32)
        requires
            old(self)@.wf(),
            old(self)@.has_room(),
        ensures
            final(self)@ == old(self)@.with(obj@),
            final(self)@.wf(),
            res == old(self)@.next_slot(),
    {
        let ghost h = self@;
        proof {
            lemma_with_wf(h, obj@);
        }
        let ghost view = obj@;
        let cell = Some(HeapObject { obj, last_gc_id: 0, generation: Generation::Nursery });
        let id: u32 = match self.metadata.free_list.pop() {
            Some(id) => {
                proof {
                    assert(h.free[h.free.len() - 1] == id);
                }
                self.objects.set(id as usize, cell);
                id
            },
            None => {
                let id: u32 = self.objects.len() as u32;
                self.objects.push(cell);
                id
            },
        };
        self.metadata.nursery_ids.push(id);
        assert(self@.slots =~= h.with(view).slots);
        id
    }
}

proof fn lemma_take_set(s: Seq<u32>, k: int)
    requires
        0 < k <= s.len(),
    ensures
        s.take(k).to_set() == s.take(k - 1).to_set().insert(s[k - 1]),
{
    let a = s.take(k);
    let b = s.take(k - 1);
    assert forall|x: u32| a.to_set().contains(x) <==> b.to_set().insert(s[k - 1]).contains(x) by {
        if a.contains(x) {
            let i = choose|i: int| 0 <= i < a.len() && a[i] == x;
            if i < k - 1 {
                assert(b[i] == x);
            }
        }
        if b.contains(x) {
            let i = choose|i: int| 0 <= i < b.len() && b[i] == x;
            assert(a[i] == x);
        }
        assert(a[k - 1] == s[k - 1]);
    }
    assert(a.to_set() =~= b.to_set().insert(s[k - 1]));
}

/// A chain of references between objects that starts at a root.
pub open spec fn is_chain(slots: Seq<Option<Cell>>, roots: Set<u32>, p: Seq<u32>) -> bool {
    &&& p.len() > 0
    &&& roots.contains(p[0])
    &&& forall|i: int| 0 <= i < p.len() ==> live(slots, #[trigger] p[i])
    &&& forall|i: int| 0 <= i < p.len() - 1 ==> #[trigger] step(slots, p[i], p[i + 1])
}

/// A chain of references leads from a root to the object.
pub open spec fn reachable(slots: Seq<Option<Cell>>, roots: Set<u32>, id: u32) -> bool {
    exists|p: Seq<u32>| #[trigger] is_chain(slots, roots, p) && p.last() == id
}

/// No object bears the number of the next collection.
pub open spec fn no_stale_marks(h: HeapView) -> bool {
    forall|id: u32| #[trigger]
        live(h.slots, id) ==> h.slots[id as int]->0.mark != next_gc(h.gc_count)
}

proof fn lemma_chain_is_path(h: HeapView, gc_id: u32, roots: Set<u32>, p: Seq<u32>)
    requires
        forall|id: u32| #[trigger] live(h.slots, id) ==> h.slots[id as int]->0.mark != gc_id,
    ensures
        is_chain(h.slots, roots, p) <==> is_path(h.slots, gc_id, roots, p),
{
    if is_chain(h.slots, roots, p) {
        assert forall|i: int| 0 <= i < p.len() implies unvisited(h.slots, gc_id, #[trigger] p[i]) by {
            assert(live(h.slots, p[i]));
        }
    }
    if is_path(h.slots, gc_id, roots, p) {
        assert forall|i: int| 0 <= i < p.len() implies live(h.slots, #[trigger] p[i]) by {
            assert(unvisited(h.slots, gc_id, p[i]));
        }
    }
}

/// What a chain of references leads to from a root stays in its slot, with the
/// same contents, through every collection.
pub proof fn law_reachable_objects_survive(h: HeapView, roots: Set<u32>, id: u32)
    requires
        h.wf(),
        no_stale_marks(h),
        reachable(h.slots, roots, id),
    ensures
        live(h.slots, id),
        live(h.collected(roots).slots, id),
        h.collected(roots).slots[id as int]->0.obj == h.slots[id as int]->0.obj,
{
    let gc_id = next_gc(h.gc_count);
    let p = choose|p: Seq<u32>| #[trigger] is_chain(h.slots, roots, p) && p.last() == id;
    lemma_chain_is_path(h, gc_id, roots, p);
    assert(live(h.slots, p[p.len() - 1]));
    if gc_id % 5 == 0 {
        assert(reached(h.slots, gc_id, roots, id));
        let m = mark_all(h.slots, gc_id, roots);
        assert(m[id as int] == mark_slot(h.slots, gc_id, roots, id as int));
    } else {
        let all = roots.union(h.remembered);
        assert(is_path(h.slots, gc_id, all, p));
        assert(reached(h.slots, gc_id, all, id));
        let m = mark_all(h.slots, gc_id, all);
        assert(m[id as int] == mark_slot(h.slots, gc_id, all, id as int));
    }
}

/// A major collection, which is every fifth, drops everything that no chain of
/// references leads to.
pub proof fn law_major_collection_drops_the_rest(h: HeapView, roots: Set<u32>, id: u32)
    requires
        h.wf(),
        no_stale_marks(h),
        next_gc(h.gc_count) % 5 == 0,
        !reachable(h.slots, roots, id),
    ensures
        !live(h.collected(roots).slots, id),
{
    let gc_id = next_gc(h.gc_count);
    let m = mark_all(h.slots, gc_id, roots);
    if live(h.slots, id) {
        assert(!has_path(h.slots, gc_id, roots, id)) by {
            if has_path(h.slots, gc_id, roots, id) {
                let p = choose|p: Seq<u32>| #[trigger]
                    is_path(h.slots, gc_id, roots, p) && p.last() == id;
                lemma_chain_is_path(h, gc_id, roots, p);
            }
        }
        assert(m[id as int] == mark_slot(h.slots, gc_id, roots, id as int));
    }
}

/// A minor collection drops no object that has survived a collection before.
pub proof fn law_minor_collection_keeps_the_old(h: HeapView, roots: Set<u32>, id: u32)
    requires
        h.wf(),
        next_gc(h.gc_count) % 5 != 0,
        live(h.slots, id),
        h.slots[id as int]->0.generation == Generation::Tenured,
    ensures
        live(h.collected(roots).slots, id),
        h.collected(roots).slots[id as int]->0.obj == h.slots[id as int]->0.obj,
{
    let gc_id = next_gc(h.gc_count);
    let all = roots.union(h.remembered);
    assert(!h.nursery.contains(id)) by {
        if h.nursery.contains(id) {
            let i = choose|i: int| 0 <= i < h.nursery.len() && h.nursery[i] == id;
            assert(is_young(h.slots, h.nursery[i]));
        }
    }
    let m = mark_all(h.slots, gc_id, all);
    assert(m[id as int] == mark_slot(h.slots, gc_id, all, id as int));
}

/// After a collection nothing is young, nothing is remembered, and the heap is
/// in order.
pub proof fn law_collection_empties_the_nursery(h: HeapView, roots: Set<u32>, id: u32)
    requires
        h.wf(),
    ensures
        h.collected(roots).wf(),
        h.collected(roots).nursery == Seq::<u32>::empty(),
        h.collected(roots).remembered == Set::<u32>::empty(),
        !is_young(h.collected(roots).slots, id),
{
    let gc_id = next_gc(h.gc_count);
    let g = HeapView { gc_count: gc_id, ..h };
    assert(g.wf());
    if gc_id % 5 == 0 {
        lemma_major_wf(g, gc_id, roots);
    } else {
        lemma_minor_wf(g, gc_id, roots);
    }
}

/// A new object goes to a slot in which there was none, and leaves all the
/// other slots as they were.
pub proof fn law_new_objects_are_apart(h: HeapView, obj: ObjView, id: u32)
    requires
        h.wf(),
        h.has_room(),
    ensures
        h.with(obj).wf(),
        !live(h.slots, h.next_slot()),
        live(h.with(obj).slots, h.next_slot()),
        h.with(obj).slots[h.next_slot() as int]->0.obj == obj,
        live(h.slots, id) ==> id != h.next_slot() && h.with(obj).slots[id as int]
            == h.slots[id as int],
{
    lemma_with_wf(h, obj);
}

/// No object bears the number of a collection that is still to come.
pub open spec fn marks_are_past(h: HeapView) -> bool {
    forall|id: u32| #[trigger] live(h.slots, id) ==> h.slots[id as int]->0.mark <= h.gc_count
}

/// Marks stay those of past collections, as long as the counter of collections
/// has not come to its end.
pub proof fn law_marks_stay_past(h: HeapView, obj: ObjView, roots: Set<u32>)
    requires
        h.wf(),
        marks_are_past(h),
        h.gc_count < u32::MAX,
    ensures
        no_stale_marks(h),
        h.has_room() ==> marks_are_past(h.with(obj)),
        marks_are_past(h.collected(roots)),
{
    if h.has_room() {
        let g = h.with(obj);
        assert forall|id: u32| #[trigger] live(g.slots, id) implies g.slots[id as int]->0.mark
            <= g.gc_count by {
            if id != h.next_slot() {
                assert(live(h.slots, id));
            }
        }
    }
    let gc_id = next_gc(h.gc_count);
    let from = if gc_id % 5 == 0 {
        roots
    } else {
        roots.union(h.remembered)
    };
    let g = h.collected(roots);
    assert forall|id: u32| #[trigger] live(g.slots, id) implies g.slots[id as int]->0.mark
        <= g.gc_count by {
        assert(mark_all(h.slots, gc_id, from)[id as int] == mark_slot(
            h.slots,
            gc_id,
            from,
            id as int,
        ));
        assert(live(h.slots, id));
    }
}

/// A minor collection drops every young object that no chain of references leads
/// to, neither from a root nor from a remembered object.
pub proof fn law_minor_collection_drops_young_garbage(h: HeapView, roots: Set<u32>, id: u32)
    requires
        h.wf(),
        no_stale_marks(h),
        next_gc(h.gc_count) % 5 != 0,
        is_young(h.slots, id),
        !reachable(h.slots, roots.union(h.remembered), id),
    ensures
        !live(h.collected(roots).slots, id),
        h.collected(roots).free.contains(id),
{
    let gc_id = next_gc(h.gc_count);
    let all = roots.union(h.remembered);
    let m = mark_all(h.slots, gc_id, all);
    assert(!has_path(h.slots, gc_id, all, id)) by {
        if has_path(h.slots, gc_id, all, id) {
            let p = choose|p: Seq<u32>| #[trigger]
                is_path(h.slots, gc_id, all, p) && p.last() == id;
            lemma_chain_is_path(h, gc_id, all, p);
        }
    }
    assert(m[id as int] == mark_slot(h.slots, gc_id, all, id as int));
    assert(h.nursery.contains(id));
    let g = HeapView { gc_count: gc_id, ..h };
    lemma_minor_wf(g, gc_id, roots);
    let after = h.collected(roots);
    assert(after.slots[id as int] is None);
    assert(after.free.contains(id as int as u32));
}

/// What survives a collection has grown old and bears its number; a slot that was
/// emptied is free for the next object.
pub proof fn law_collections_age_what_they_keep(h: HeapView, roots: Set<u32>, id: u32)
    requires
        h.wf(),
    ensures
        h.collected(roots).gc_count == next_gc(h.gc_count),
        h.collected(roots).slots.len() == h.slots.len(),
        live(h.collected(roots).slots, id) ==> live(h.slots, id) && h.collected(
            roots,
        ).slots[id as int]->0.generation == Generation::Tenured && h.collected(
            roots,
        ).slots[id as int]->0.obj == h.slots[id as int]->0.obj,
        id < h.slots.len() && !live(h.collected(roots).slots, id) ==> h.collected(
            roots,
        ).free.contains(id),
{
    let gc_id = next_gc(h.gc_count);
    law_collection_empties_the_nursery(h, roots, id);
    let after = h.collected(roots);
    if id < h.slots.len() {
        let m = if gc_id % 5 == 0 {
            mark_all(h.slots, gc_id, roots)
        } else {
            mark_all(h.slots, gc_id, roots.union(h.remembered))
        };
        assert(m[id as int] is Some <==> h.slots[id as int] is Some);
        if !live(after.slots, id) {
            assert(after.slots[id as int] is None);
            assert(after.free.contains(id as int as u32));
        } else if is_young(h.slots, id) {
            assert(h.nursery.contains(id));
            assert(!is_young(after.slots, id));
        }
    }
}

/// A new object is young and has not been reached by any collection, and the
/// collections are counted one by one.
pub proof fn law_new_objects_are_young(h: HeapView, obj: ObjView)
    requires
        h.wf(),
        h.has_room(),
    ensures
        is_young(h.with(obj).slots, h.next_slot()),
        h.with(obj).nursery.contains(h.next_slot()),
        h.with(obj).slots[h.next_slot() as int]->0.mark == 0,
        h.with(obj).gc_count == h.gc_count,
        h.with(obj).remembered == h.remembered,
        h.gc_count < u32::MAX ==> next_gc(h.gc_count) == h.gc_count + 1,
        h.free.len() > 0 ==> h.free.contains(h.next_slot()) && h.with(obj).slots.len()
            == h.slots.len(),
        h.free.len() == 0 ==> h.next_slot() == h.slots.len() && h.with(obj).slots.len()
            == h.slots.len() + 1,
{
    lemma_with_wf(h, obj);
    if h.free.len() > 0 {
        assert(h.free[h.free.len() - 1] == h.next_slot());
    }
    assert(is_young(h.with(obj).slots, h.next_slot()));
}

/// The slots to which values refer are listed in the order of the values.
pub proof fn law_references_are_listed_in_order(a: Seq<u64>, b: Seq<u64>, v: u64, id: u32)
    ensures
        object_ids(a + b) == object_ids(a) + object_ids(b),
        Value(v).kind() == Kind::Object(id) ==> object_ids(seq![v]) == seq![id],
        !(Value(v).kind() is Object) ==> object_ids(seq![v]) == Seq::<u32>::empty(),
    decreases b.len(),
{
    assert(seq![v].drop_last() =~= Seq::<u64>::empty());
    assert(object_ids(seq![v].drop_last()) =~= Seq::<u32>::empty());
    assert(Seq::<u32>::empty().push(id) =~= seq![id]);
    if b.len() == 0 {
        assert(a + b =~= a);
        assert(object_ids(a) + object_ids(b) =~= object_ids(a));
    } else {
        law_references_are_listed_in_order(a, b.drop_last(), v, id);
        assert((a + b).drop_last() =~= a + b.drop_last());
        assert(object_ids(a + b) =~= object_ids(a) + object_ids(b));
    }
}

/// The old objects that are remembered are those that refer to a young one.
pub proof fn law_old_objects_with_young_ones_are_watched(
    ids: Set<u32>,
    slots: Seq<Option<Cell>>,
    id: u32,
    young: u32,
)
    requires
        live(slots, id),
        slots[id as int]->0.generation == Generation::Tenured,
    ensures
        ids.contains(id) && points_at(slots[id as int]->0.obj, young) && is_young(slots, young)
            ==> watched(ids, slots).contains(id),
        !ids.contains(id) ==> !watched(ids, slots).contains(id),
        (forall|other: u32| #[trigger]
            points_at(slots[id as int]->0.obj, other) ==> !is_young(slots, other)) ==> !watched(
            ids,
            slots,
        ).contains(id),
{
}

/// The slots listed for an object are those to which one of its elements, one of
/// its fields or that of which it is a method refers.
pub proof fn law_children_are_what_an_object_refers_to(obj: ObjView, v: Seq<u64>, id: u32)
    requires
        holds(obj, v),
    ensures
        object_ids(v).contains(id) <==> (match obj {
            ObjView::List(l) => exists|k: int|
                0 <= k < l.len() && Value(#[trigger] l[k]).kind() == Kind::Object(id),
            ObjView::Object(m) => exists|k: u32| #[trigger]
                m.contains_key(k) && Value(m[k]).kind() == Kind::Object(id),
            ObjView::BoundMethod { receiver, .. } => receiver.kind() == Kind::Object(id),
            _ => false,
        }),
{
    lemma_held_children(obj, v, id);
    match obj {
        ObjView::List(l) => {
            if points_at(obj, id) {
                let k = choose|k: int| 0 <= k < l.len() && refers(#[trigger] l[k], id);
                assert(Value(l[k]).kind() == Kind::Object(id));
            }
            if exists|k: int|
                0 <= k < l.len() && Value(#[trigger] l[k]).kind() == Kind::Object(id) {
                let k = choose|k: int|
                    0 <= k < l.len() && Value(#[trigger] l[k]).kind() == Kind::Object(id);
                assert(refers(l[k], id));
            }
        },
        ObjView::Object(m) => {
            if points_at(obj, id) {
                let k = choose|k: u32| #[trigger] m.contains_key(k) && refers(m[k], id);
                assert(m.contains_key(k) && Value(m[k]).kind() == Kind::Object(id));
            }
            if exists|k: u32| #[trigger]
                m.contains_key(k) && Value(m[k]).kind() == Kind::Object(id) {
                let k = choose|k: u32| #[trigger]
                    m.contains_key(k) && Value(m[k]).kind() == Kind::Object(id);
                assert(m.contains_key(k) && refers(m[k], id));
            }
        },
        _ => {},
    }
}

} // verus!
