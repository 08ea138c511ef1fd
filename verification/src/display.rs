//! How values are shown.
//!
//! A shown value is a list of pieces. Texts stand for themselves; how a number
//! or a point in time is spelled is left to the owner of the machine.
use crate::context::Context;
use crate::context::Ctx;
use crate::heap::fields_entries;
use crate::heap::lists_fields;
use crate::heap::ManagedObject;
use crate::heap::ObjView;
use crate::number::ONE;
use crate::value::Kind;
use crate::value::Value;
use rustc_hash::FxHashMap;
use vstd::prelude::*;

verus! {

/// A part of a shown value.
pub enum Piece {
    Text(String),
    /// A number, by its bits.
    Number(u64),
    /// A point in time.
    Instant(u64),
}

/// A part of a shown value, with its text as a sequence.
pub enum Shown {
    Text(Seq<char>),
    Number(u64),
    Instant(u64),
}

impl View for Piece {
    type V = Shown;

    open spec fn view(&self) -> Shown {
        match *self {
            Piece::Text(s) => Shown::Text(s@),
            Piece::Number(n) => Shown::Number(n),
            Piece::Instant(t) => Shown::Instant(t),
        }
    }
}

pub open spec fn pieces_view(v: Seq<Piece>) -> Seq<Shown> {
    v.map_values(|p: Piece| p@)
}

/// One piece of text.
pub open spec fn one(s: Seq<char>) -> Seq<Shown> {
    seq![Shown::Text(s)]
}

/// A value inside of a list or an object: texts are quoted, and what could hold
/// more is only named.
pub open spec fn shown_inside(ctx: Ctx, v: Value) -> Seq<Shown> {
    match ctx.text(v) {
        Some(s) => one("\""@ + s + "\""@),
        None => match v.kind() {
            Kind::Object(_) => one(
                match ctx.deref(v) {
                    Some(ObjView::Text(s)) => "\""@ + s + "\""@,
                    Some(ObjView::List(_)) => "[...]"@,
                    Some(ObjView::Object(_)) => "{...}"@,
                    Some(ObjView::Timestamp(_)) => "Timestamp(...)"@,
                    Some(ObjView::Range { .. }) => "Range(...)"@,
                    Some(ObjView::BoundMethod { .. }) => "BoundMethod(...)"@,
                    None => "null"@,
                },
            ),
            _ => shown_plain(v),
        },
    }
}

/// A value that is no text and refers to nothing.
pub open spec fn shown_plain(v: Value) -> Seq<Shown> {
    match v.kind() {
        Kind::Number(n) => seq![Shown::Number(n)],
        Kind::Bool(b) => one(
            if b {
                "true"@
            } else {
                "false"@
            },
        ),
        _ => one("unknown"@),
    }
}

/// The first `n` elements of a list with commas between them.
pub open spec fn shown_elements(ctx: Ctx, l: Seq<u64>, n: nat) -> Seq<Shown>
    decreases n,
{
    if n == 0 {
        Seq::empty()
    } else {
        let before = shown_elements(ctx, l, (n - 1) as nat);
        let lead = if n > 1 {
            before.push(Shown::Text(", "@))
        } else {
            before
        };
        lead + shown_inside(ctx, Value(l[n - 1]))
    }
}

/// The first `n` fields of an object with commas between them.
pub open spec fn shown_fields(ctx: Ctx, l: Seq<(u32, u64)>, n: nat) -> Seq<Shown>
    decreases n,
{
    if n == 0 {
        Seq::empty()
    } else {
        let before = shown_fields(ctx, l, (n - 1) as nat);
        let lead = if n > 1 {
            before.push(Shown::Text(", "@))
        } else {
            before
        };
        lead.push(Shown::Text(ctx.name(l[n - 1].0) + ": "@)) + shown_inside(
            ctx,
            Value(l[n - 1].1),
        )
    }
}

/// The fields of an object in braces, in some order.
pub open spec fn shows_object(ctx: Ctx, m: Map<u32, u64>, out: Seq<Shown>) -> bool {
    exists|l: Seq<(u32, u64)>| #[trigger]
        lists_fields(l, m) && out == one("{"@) + shown_fields(ctx, l, l.len()) + one("}"@)
}

pub open spec fn shown_range(start: u64, end: u64, step: u64) -> Seq<Shown> {
    let plain = seq![Shown::Number(start), Shown::Text(".."@), Shown::Number(end)];
    if step == ONE {
        plain
    } else {
        plain + seq![Shown::Text(".step("@), Shown::Number(step), Shown::Text(")"@)]
    }
}

/// The pieces show the value. A chain of methods of methods is followed up to
/// the depth.
pub open spec fn shows(ctx: Ctx, v: Value, depth: nat, out: Seq<Shown>) -> bool
    decreases depth, 1int,
{
    match ctx.text(v) {
        Some(s) => out == one(s),
        None => match v.kind() {
            Kind::Object(_) => match ctx.deref(v) {
                None => out == one("null"@),
                Some(ObjView::Text(s)) => out == one(s),
                Some(ObjView::List(l)) => out == one("["@) + shown_elements(ctx, l, l.len()) + one(
                    "]"@,
                ),
                Some(ObjView::Object(m)) => shows_object(ctx, m, out),
                Some(ObjView::Timestamp(t)) => out == seq![
                    Shown::Text("Timestamp("@),
                    Shown::Instant(t),
                    Shown::Text(")"@),
                ],
                Some(ObjView::Range { start, end, step }) => out == shown_range(start, end, step),
                Some(ObjView::BoundMethod { receiver, name_id }) => shows_method(
                    ctx,
                    receiver,
                    name_id,
                    depth,
                    out,
                ),
            },
            _ => out == shown_plain(v),
        },
    }
}

/// The pieces show a method and what it is called on.
pub open spec fn shows_method(
    ctx: Ctx,
    receiver: Value,
    name_id: u32,
    depth: nat,
    out: Seq<Shown>,
) -> bool
    decreases depth, 0int,
{
    if depth == 0 {
        wraps(ctx, name_id, Seq::empty(), out)
    } else {
        exists|inner: Seq<Shown>| #[trigger]
            wraps(ctx, name_id, inner, out) && shows(ctx, receiver, (depth - 1) as nat, inner)
    }
}

pub open spec fn wraps(ctx: Ctx, name_id: u32, inner: Seq<Shown>, out: Seq<Shown>) -> bool {
    out == one("<bound method "@ + ctx.name(name_id) + " of "@) + inner + one(">"@)
}

fn push_piece(out: &mut Vec<Piece>, p: Piece)
    ensures
        pieces_view(final(out)@) == pieces_view(old(out)@) + seq![p@],
{
    let ghost before = out@;
    out.push(p);
    assert(pieces_view(out@) =~= pieces_view(before) + seq![p@]);
}

fn push_text(out: &mut Vec<Piece>, s: &str)
    ensures
        pieces_view(final(out)@) == pieces_view(old(out)@) + one(s@),
{
    push_piece(out, Piece::Text(s.to_owned()));
}

fn push_quoted(out: &mut Vec<Piece>, s: &str)
    ensures
        pieces_view(final(out)@) == pieces_view(old(out)@) + one("\""@ + s@ + "\""@),
{
    let mut t = String::new();
    t.append("\"");
    t.append(s);
    t.append("\"");
    assert(t@ =~= "\""@ + s@ + "\""@);
    push_text(out, t.as_str());
}

fn push_plain(out: &mut Vec<Piece>, v: Value)
    ensures
        pieces_view(final(out)@) == pieces_view(old(out)@) + shown_plain(v),
{
    if let Some(n) = v.as_number() {
        push_piece(out, Piece::Number(n));
    } else if let Some(b) = v.as_bool() {
        if b {
            push_text(out, "true");
        } else {
            push_text(out, "false");
        }
    } else {
        push_text(out, "unknown");
    }
}

/// Shows a value inside of a list or an object.
fn stringify_value_nested(ctx: &Context, val: Value, out: &mut Vec<Piece>)
    ensures
        pieces_view(final(out)@) == pieces_view(old(out)@) + shown_inside(ctx@, val),
{
    if let Some(s) = val.as_string(ctx) {
        push_quoted(out, s.as_str());
        return ;
    }
    if val.as_obj_id().is_some() {
        match ctx.deref(val) {
            Some(ManagedObject::String(s)) => push_quoted(out, s.as_str()),
            Some(ManagedObject::List(_)) => push_text(out, "[...]"),
            Some(ManagedObject::Object(_)) => push_text(out, "{...}"),
            Some(ManagedObject::Timestamp(_)) => push_text(out, "Timestamp(...)"),
            Some(ManagedObject::Range { .. }) => push_text(out, "Range(...)"),
            Some(ManagedObject::BoundMethod { .. }) => push_text(out, "BoundMethod(...)"),
            None => push_text(out, "null"),
        }
        return ;
    }
    push_plain(out, val);
}

fn push_elements(ctx: &Context, l: &Vec<u64>, out: &mut Vec<Piece>)
    ensures
        pieces_view(final(out)@) == pieces_view(old(out)@) + shown_elements(
            ctx@,
            l@,
            l@.len(),
        ),
{
    let ghost before = pieces_view(out@);
    let mut k: usize = 0;
    assert(before + shown_elements(ctx@, l@, 0) =~= before);
    while k < l.len()
        invariant
            k <= l@.len(),
            pieces_view(out@) == before + shown_elements(ctx@, l@, k as nat),
        decreases l@.len() - k,
    {
        let ghost so_far = shown_elements(ctx@, l@, k as nat);
        if k > 0 {
            push_text(out, ", ");
            assert(pieces_view(out@) =~= before + so_far.push(Shown::Text(", "@)));
        }
        let ghost lead = if k > 0 {
            so_far.push(Shown::Text(", "@))
        } else {
            so_far
        };
        stringify_value_nested(ctx, Value::from_bits(l[k]), out);
        assert(pieces_view(out@) =~= before + (lead + shown_inside(ctx@, Value(l@[k as int]))));
        k = k + 1;
    }
}

fn push_fields(ctx: &Context, l: &Vec<(u32, u64)>, out: &mut Vec<Piece>)
    ensures
        pieces_view(final(out)@) == pieces_view(old(out)@) + shown_fields(ctx@, l@, l@.len()),
{
    let ghost before = pieces_view(out@);
    let mut k: usize = 0;
    assert(before + shown_fields(ctx@, l@, 0) =~= before);
    while k < l.len()
        invariant
            k <= l@.len(),
            pieces_view(out@) == before + shown_fields(ctx@, l@, k as nat),
        decreases l@.len() - k,
    {
        let ghost so_far = shown_fields(ctx@, l@, k as nat);
        if k > 0 {
            push_text(out, ", ");
            assert(pieces_view(out@) =~= before + so_far.push(Shown::Text(", "@)));
        }
        let ghost lead = if k > 0 {
            so_far.push(Shown::Text(", "@))
        } else {
            so_far
        };
        let mut name = ctx.pool_name(l[k].0).to_owned();
        name.append(": ");
        push_text(out, name.as_str());
        assert(pieces_view(out@) =~= before + lead.push(
            Shown::Text(ctx@.name(l@[k as int].0) + ": "@),
        ));
        stringify_value_nested(ctx, Value::from_bits(l[k].1), out);
        assert(pieces_view(out@) =~= before + (lead.push(
            Shown::Text(ctx@.name(l@[k as int].0) + ": "@),
        ) + shown_inside(ctx@, Value(l@[k as int].1))));
        k = k + 1;
    }
}

fn show_object(ctx: &Context, m: &FxHashMap<u32, u64>) -> (res: Vec<Piece>)
    ensures
        shows_object(ctx@, m@, pieces_view(res@)),
{
    let entries = fields_entries(m);
    let mut out: Vec<Piece> = Vec::new();
    push_text(&mut out, "{");
    push_fields(ctx, &entries, &mut out);
    push_text(&mut out, "}");
    assert(pieces_view(out@) =~= one("{"@) + shown_fields(ctx@, entries@, entries@.len()) + one(
        "}"@,
    ));
    assert(lists_fields(entries@, m@));
    out
}

fn show_range(start: u64, end: u64, step: u64) -> (res: Vec<Piece>)
    ensures
        pieces_view(res@) == shown_range(start, end, step),
{
    let mut out: Vec<Piece> = Vec::new();
    push_piece(&mut out, Piece::Number(start));
    push_text(&mut out, "..");
    push_piece(&mut out, Piece::Number(end));
    if step != ONE {
        push_text(&mut out, ".step(");
        push_piece(&mut out, Piece::Number(step));
        push_text(&mut out, ")");
    }
    assert(pieces_view(out@) =~= shown_range(start, end, step));
    out
}

/// Shows a value, following a chain of methods of methods up to the depth.
fn stringify_to_depth(ctx: &Context, val: Value, depth: usize) -> (res: Vec<Piece>)
    ensures
        shows(ctx@, val, depth as nat, pieces_view(res@)),
    decreases depth, 1int,
{
    let mut out: Vec<Piece> = Vec::new();
    assert(pieces_view(out@) =~= Seq::<Shown>::empty());
    if let Some(s) = val.as_string(ctx) {
        push_text(&mut out, s.as_str());
        assert(pieces_view(out@) =~= one(s@));
        return out;
    }
    if val.as_obj_id().is_none() {
        push_plain(&mut out, val);
        assert(pieces_view(out@) =~= shown_plain(val));
        return out;
    }
    match ctx.deref(val) {
        None => {
            push_text(&mut out, "null");
            assert(pieces_view(out@) =~= one("null"@));
            out
        },
        Some(ManagedObject::String(s)) => {
            push_text(&mut out, s.as_str());
            assert(pieces_view(out@) =~= one(s@));
            out
        },
        Some(ManagedObject::List(l)) => {
            push_text(&mut out, "[");
            push_elements(ctx, l, &mut out);
            push_text(&mut out, "]");
            assert(pieces_view(out@) =~= one("["@) + shown_elements(ctx@, l@, l@.len()) + one(
                "]"@,
            ));
            out
        },
        Some(ManagedObject::Object(m)) => show_object(ctx, m),
        Some(ManagedObject::Timestamp(t)) => {
            push_text(&mut out, "Timestamp(");
            push_piece(&mut out, Piece::Instant(*t));
            push_text(&mut out, ")");
            assert(pieces_view(out@) =~= seq![
                Shown::Text("Timestamp("@),
                Shown::Instant(*t),
                Shown::Text(")"@),
            ]);
            out
        },
        Some(ManagedObject::Range { start, end, step }) => show_range(*start, *end, *step),
        Some(ManagedObject::BoundMethod { receiver, name_id }) => {
            show_method(ctx, *receiver, *name_id, depth)
        },
    }
}

fn show_method(ctx: &Context, receiver: Value, name_id: u32, depth: usize) -> (res: Vec<Piece>)
    ensures
        shows_method(ctx@, receiver, name_id, depth as nat, pieces_view(res@)),
    decreases depth, 0int,
{
    let mut lead = String::new();
    lead.append("<bound method ");
    lead.append(ctx.pool_name(name_id));
    lead.append(" of ");
    let mut out: Vec<Piece> = Vec::new();
    push_text(&mut out, lead.as_str());
    let ghost mut inner: Seq<Shown> = Seq::empty();
    if depth > 0 {
        let mut more = stringify_to_depth(ctx, receiver, depth - 1);
        proof {
            inner = pieces_view(more@);
        }
        let ghost before = out@;
        out.append(&mut more);
        assert(pieces_view(out@) =~= pieces_view(before) + inner);
    }
    push_text(&mut out, ">");
    assert(pieces_view(out@) =~= one("<bound method "@ + ctx@.name(name_id) + " of "@) + inner
        + one(">"@));
    assert(wraps(ctx@, name_id, inner, pieces_view(out@)));
    out
}

/// The pieces show the value. A chain of methods that is longer than the heap
/// has slots would have to be a cycle, and is cut.
pub open spec fn shows_value(ctx: Ctx, v: Value, out: Seq<Shown>) -> bool {
    shows(ctx, v, ctx.heap.slots.len(), out)
}

/// Shows a value.
pub fn stringify_value(ctx: &Context, val: Value) -> (res: Vec<Piece>)
    ensures
        shows_value(ctx@, val, pieces_view(res@)),
{
    stringify_to_depth(ctx, val, ctx.heap.objects.len())
}

/// The pieces from an index on are the given ones.
pub open spec fn stands_at(out: Seq<Shown>, at: int, part: Seq<Shown>) -> bool {
    &&& 0 <= at
    &&& at + part.len() <= out.len()
    &&& forall|k: int| 0 <= k < part.len() ==> out[at + k] == #[trigger] part[k]
}

/// The pieces before the index show the first `n` elements.
proof fn l_elements(ctx: Ctx, l: Seq<u64>, n: nat, j: int) -> (at: int)
    requires
        0 <= j < n <= l.len(),
    ensures
        stands_at(shown_elements(ctx, l, n), at, shown_inside(ctx, Value(l[j]))),
        j == 0 ==> at == 0,
        j > 0 ==> at > 0 && shown_elements(ctx, l, n)[at - 1] == Shown::Text(", "@) && at - 1
            == shown_elements(ctx, l, j as nat).len(),
        j == n - 1 ==> at + shown_inside(ctx, Value(l[j])).len() == shown_elements(ctx, l, n).len(),
        shown_elements(ctx, l, j as nat).len() <= at,
    decreases n,
{
    let before = shown_elements(ctx, l, (n - 1) as nat);
    let all = shown_elements(ctx, l, n);
    if j < n - 1 {
        let at = l_elements(ctx, l, (n - 1) as nat, j);
        assert forall|k: int| 0 <= k < before.len() implies all[k] == #[trigger] before[k] by {}
        let part = shown_inside(ctx, Value(l[j]));
        assert forall|k: int| 0 <= k < part.len() implies all[at + k] == #[trigger] part[k] by {
            assert(before[at + k] == part[k]);
        }
        at
    } else if n > 1 {
        (before.len() + 1) as int
    } else {
        0
    }
}

/// A shown list stands in brackets, and each element stands in it as that very
/// value is shown, one after another, with a comma between two of them.
pub proof fn law_lists_show_their_elements(
    ctx: Ctx,
    v: Value,
    l: Seq<u64>,
    out: Seq<Shown>,
    j: int,
) -> (at: int)
    requires
        shows_value(ctx, v, out),
        ctx.deref(v) == Some(ObjView::List(l)),
        0 <= j < l.len(),
    ensures
        out[0] == Shown::Text("["@),
        out.last() == Shown::Text("]"@),
        stands_at(out, at, shown_inside(ctx, Value(l[j]))),
        j == 0 ==> at == 1,
        j > 0 ==> at > 1 && out[at - 1] == Shown::Text(", "@),
        j == l.len() - 1 ==> at + shown_inside(ctx, Value(l[j])).len() + 1 == out.len(),
        at == 1 + shown_elements(ctx, l, j as nat).len() + (if j > 0 {
            1int
        } else {
            0
        }),
{
    let mid = shown_elements(ctx, l, l.len());
    let at = l_elements(ctx, l, l.len(), j);
    assert(out =~= one("["@) + mid + one("]"@));
    let part = shown_inside(ctx, Value(l[j]));
    assert forall|k: int| 0 <= k < part.len() implies out[at + 1 + k] == #[trigger] part[k] by {
        assert(mid[at + k] == part[k]);
    }
    if j > 0 {
        assert(out[at] == mid[at - 1]);
    }
    at + 1
}

/// The pieces that show a field: its name and a colon, and its own value.
pub open spec fn shown_field(ctx: Ctx, name_id: u32, bits: u64) -> Seq<Shown> {
    one(ctx.name(name_id) + ": "@) + shown_inside(ctx, Value(bits))
}

proof fn l_fields(ctx: Ctx, l: Seq<(u32, u64)>, n: nat, j: int) -> (at: int)
    requires
        0 <= j < n <= l.len(),
    ensures
        stands_at(shown_fields(ctx, l, n), at, shown_field(ctx, l[j].0, l[j].1)),
        j == 0 ==> at == 0,
        j > 0 ==> at > 0 && shown_fields(ctx, l, n)[at - 1] == Shown::Text(", "@) && at - 1
            == shown_fields(ctx, l, j as nat).len(),
        j == n - 1 ==> at + shown_field(ctx, l[j].0, l[j].1).len() == shown_fields(ctx, l, n).len(),
        at + shown_field(ctx, l[j].0, l[j].1).len() == shown_fields(ctx, l, (j + 1) as nat).len(),
    decreases n,
{
    let before = shown_fields(ctx, l, (n - 1) as nat);
    let all = shown_fields(ctx, l, n);
    let part = shown_field(ctx, l[j].0, l[j].1);
    if j < n - 1 {
        let at = l_fields(ctx, l, (n - 1) as nat, j);
        assert forall|k: int| 0 <= k < part.len() implies all[at + k] == #[trigger] part[k] by {
            assert(before[at + k] == part[k]);
        }
        assert(j > 0 ==> all[at - 1] == before[at - 1]);
        at
    } else {
        let lead = if n > 1 {
            before.push(Shown::Text(", "@))
        } else {
            before
        };
        assert(all =~= lead + part);
        lead.len() as int
    }
}

/// How many pieces the first `n` fields take only grows.
proof fn l_fields_grow(ctx: Ctx, l: Seq<(u32, u64)>, m: nat, n: nat)
    requires
        m <= n,
    ensures
        shown_fields(ctx, l, m).len() <= shown_fields(ctx, l, n).len(),
    decreases n,
{
    if m < n {
        l_fields_grow(ctx, l, m, (n - 1) as nat);
    }
}

/// Where a field is in the list of the fields.
spec fn field_place(l: Seq<(u32, u64)>, k: u32) -> int {
    choose|j: int| 0 <= j < l.len() && (#[trigger] l[j]).0 == k
}

/// Where the field at an index starts.
spec fn field_start(ctx: Ctx, l: Seq<(u32, u64)>, j: int) -> int {
    if j > 0 {
        2 + shown_fields(ctx, l, j as nat).len() as int
    } else {
        1
    }
}

/// A shown object stands in braces, and every field has a place of its own in it
/// at which its name and a colon stand, and right behind them that very value as
/// it is shown. Two fields do not overlap.
pub proof fn law_objects_show_each_field_with_its_value(
    ctx: Ctx,
    v: Value,
    m: Map<u32, u64>,
    out: Seq<Shown>,
) -> (at: Map<u32, int>)
    requires
        shows_value(ctx, v, out),
        ctx.deref(v) == Some(ObjView::Object(m)),
    ensures
        out[0] == Shown::Text("{"@),
        out.last() == Shown::Text("}"@),
        at.dom() == m.dom(),
        forall|k: u32| #[trigger]
            m.contains_key(k) ==> {
                &&& 1 <= at[k] < out.len()
                &&& out[at[k]] == Shown::Text(ctx.name(k) + ": "@)
                &&& stands_at(out, at[k] + 1, shown_inside(ctx, Value(m[k])))
            },
        forall|j: u32, k: u32|
            #![trigger at[j], at[k]]
            m.contains_key(j) && m.contains_key(k) && j != k ==> at[j] + 1 + shown_inside(
                ctx,
                Value(m[j]),
            ).len() < at[k] || at[k] + 1 + shown_inside(ctx, Value(m[k])).len() < at[j],
{
    let l = choose|l: Seq<(u32, u64)>| #[trigger]
        lists_fields(l, m) && out == one("{"@) + shown_fields(ctx, l, l.len()) + one("}"@);
    let mid = shown_fields(ctx, l, l.len());
    assert(out =~= one("{"@) + mid + one("}"@));
    let at = Map::new(|k: u32| m.contains_key(k), |k: u32| field_start(ctx, l, field_place(l, k)));
    assert(at.dom() =~= m.dom());
    assert forall|k: u32| #[trigger] m.contains_key(k) implies {
        &&& 1 <= at[k] < out.len()
        &&& out[at[k]] == Shown::Text(ctx.name(k) + ": "@)
        &&& stands_at(out, at[k] + 1, shown_inside(ctx, Value(m[k])))
    } by {
        l_listed(l, m, k);
        let j = field_place(l, k);
        let p = l_fields(ctx, l, l.len(), j);
        let part = shown_field(ctx, k, m[k]);
        let inner = shown_inside(ctx, Value(m[k]));
        assert(at[k] == p + 1);
        assert(part[0] == Shown::Text(ctx.name(k) + ": "@));
        assert(mid[p + 0] == part[0]);
        assert(out[p + 1] == mid[p]);
        assert forall|i: int| 0 <= i < inner.len() implies out[at[k] + 1 + i] == #[trigger] inner[i] by {
            assert(part[i + 1] == inner[i]);
            assert(mid[p + (i + 1)] == part[i + 1]);
            assert(out[p + 2 + i] == mid[p + 1 + i]);
        }
    }
    assert forall|j: u32, k: u32|
        #![trigger at[j], at[k]]
        m.contains_key(j) && m.contains_key(k) && j != k implies at[j] + 1 + shown_inside(
        ctx,
        Value(m[j]),
    ).len() < at[k] || at[k] + 1 + shown_inside(ctx, Value(m[k])).len() < at[j] by {
        l_listed(l, m, j);
        l_listed(l, m, k);
        let a = field_place(l, j);
        let b = field_place(l, k);
        assert(a != b);
        let p = l_fields(ctx, l, l.len(), a);
        let q = l_fields(ctx, l, l.len(), b);
        if a < b {
            l_fields_grow(ctx, l, (a + 1) as nat, b as nat);
        } else {
            l_fields_grow(ctx, l, (b + 1) as nat, a as nat);
        }
    }
    at
}

/// Each field is somewhere in the list of the fields.
proof fn l_listed(l: Seq<(u32, u64)>, m: Map<u32, u64>, k: u32)
    requires
        lists_fields(l, m),
        m.contains_key(k),
    ensures
        0 <= field_place(l, k) < l.len(),
        l[field_place(l, k)] == (k, m[k]),
{
    let i = choose|i: int| 0 <= i < l.len() && l[i].0 == k;
    assert(l[i].0 == k);
}

/// A text is shown as it is, and inside of a list or an object in quotes; a number
/// is shown as that number and a truth value by its name. What could hold more is
/// not opened inside of another.
pub proof fn law_simple_values_show_themselves(ctx: Ctx, v: Value, out: Seq<Shown>)
    requires
        shows_value(ctx, v, out),
    ensures
        ctx.text(v) matches Some(s) ==> out == seq![Shown::Text(s)] && shown_inside(ctx, v) == seq![
            Shown::Text("\""@ + s + "\""@),
        ],
        v.kind() matches Kind::Number(n) ==> out == seq![Shown::Number(n)] && shown_inside(ctx, v)
            == out,
        v.kind() == Kind::Bool(true) ==> out == seq![Shown::Text("true"@)] && shown_inside(ctx, v)
            == out,
        v.kind() == Kind::Bool(false) ==> out == seq![Shown::Text("false"@)] && shown_inside(ctx, v)
            == out,
        ctx.deref(v) matches Some(ObjView::List(_)) ==> shown_inside(ctx, v) == seq![
            Shown::Text("[...]"@),
        ],
        ctx.deref(v) matches Some(ObjView::Object(_)) ==> shown_inside(ctx, v) == seq![
            Shown::Text("{...}"@),
        ],
        ctx.deref(v) matches Some(ObjView::Range { start, end, step }) ==> {
            &&& out.len() >= 3
            &&& out[0] == Shown::Number(start)
            &&& out[1] == Shown::Text(".."@)
            &&& out[2] == Shown::Number(end)
            &&& step == 0x3ff0000000000000 ==> out.len() == 3
            &&& step != 0x3ff0000000000000 ==> out.len() == 6 && out[3] == Shown::Text(".step("@)
                && out[4] == Shown::Number(step) && out[5] == Shown::Text(")"@)
            &&& shown_inside(ctx, v) == seq![Shown::Text("Range(...)"@)]
        },
        ctx.deref(v) matches Some(ObjView::Timestamp(t)) ==> out == seq![
            Shown::Text("Timestamp("@),
            Shown::Instant(t),
            Shown::Text(")"@),
        ] && shown_inside(ctx, v) == seq![Shown::Text("Timestamp(...)"@)],
        v.kind() is Object && ctx.deref(v) is None ==> out == seq![Shown::Text("null"@)]
            && shown_inside(ctx, v) == out,
{
}

/// A method is shown with its name and with what it is a method of, as that is
/// shown; inside of another it is only named.
pub proof fn law_methods_show_what_they_belong_to(
    ctx: Ctx,
    v: Value,
    receiver: Value,
    name_id: u32,
    out: Seq<Shown>,
    depth: nat,
) -> (inner: Seq<Shown>)
    requires
        depth > 0,
        shows(ctx, v, depth, out),
        ctx.deref(v) == Some(ObjView::BoundMethod { receiver, name_id }),
    ensures
        shows(ctx, receiver, (depth - 1) as nat, inner),
        out.len() == inner.len() + 2,
        out[0] == Shown::Text("<bound method "@ + ctx.name(name_id) + " of "@),
        out.subrange(1, out.len() - 1) == inner,
        out.last() == Shown::Text(">"@),
        shown_inside(ctx, v) == seq![Shown::Text("BoundMethod(...)"@)],
{
    let inner = choose|inner: Seq<Shown>| #[trigger]
        wraps(ctx, name_id, inner, out) && shows(ctx, receiver, (depth - 1) as nat, inner);
    assert(out.subrange(1, out.len() - 1) =~= inner);
    inner
}

/// A list or an object without anything in it is shown as its brackets.
pub proof fn law_empty_collections_show_their_brackets(ctx: Ctx, v: Value, out: Seq<Shown>)
    requires
        shows_value(ctx, v, out),
    ensures
        ctx.deref(v) == Some(ObjView::List(Seq::empty())) ==> out == seq![
            Shown::Text("["@),
            Shown::Text("]"@),
        ],
        ctx.deref(v) == Some(ObjView::Object(Map::empty())) ==> out == seq![
            Shown::Text("{"@),
            Shown::Text("}"@),
        ],
{
    if ctx.deref(v) == Some(ObjView::List(Seq::empty())) {
        assert(out =~= seq![Shown::Text("["@), Shown::Text("]"@)]);
    }
    if ctx.deref(v) == Some(ObjView::Object(Map::empty())) {
        let m = Map::<u32, u64>::empty();
        let l = choose|l: Seq<(u32, u64)>| #[trigger]
            lists_fields(l, m) && out == one("{"@) + shown_fields(ctx, l, l.len()) + one("}"@);
        if l.len() > 0 {
            assert(m.contains_key(l[0].0));
        }
        assert(out =~= seq![Shown::Text("{"@), Shown::Text("}"@)]);
    }
}

} // verus!
