//! The functions that every script can call: their names, and what a call of
//! one amounts to.
use crate::compiler::Loc;
use crate::context::Context;
use crate::context::Ctx;
use crate::context::Native;
use crate::display::pieces_view;
use crate::display::shows_value;
use crate::display::stringify_value;
use crate::display::Piece;
use crate::display::Shown;
use crate::error::ErrorLoc;
use crate::error::Fault;
use crate::error::JitError;
use crate::heap::ManagedObject;
use crate::heap::ObjView;
use crate::machine::runtime;
use crate::number::bits_of_count;
use crate::number::from_count;
use crate::number::is_finite;
use crate::number::law_indices_are_whole_parts;
use crate::number::law_small_counts_are_exact;
use crate::number::scaled;
use crate::number::to_index;
use crate::number::truncated;
use crate::number::SIGN;
use crate::text::chars_of;
use crate::value::object_value;
use crate::value::text_value;
use crate::value::Kind;
use crate::value::Value;
use rustc_hash::FxHashMap;
use vstd::arithmetic::power2::pow2;
use vstd::prelude::*;
use vstd::utf8::encode_utf8;

verus! {

/// The name of a native function.
pub open spec fn native_name(n: Native) -> Seq<char> {
    match n {
        Native::Print => "print"@,
        Native::Len => "len"@,
        Native::Time => "time"@,
        Native::Timestamp => "timestamp"@,
        Native::Sleep => "sleep"@,
        Native::Fetch => "fetch"@,
        Native::Serve => "serve"@,
        Native::Str => "str"@,
    }
}

/// All native functions.
pub open spec fn all_natives() -> Seq<Native> {
    seq![
        Native::Print,
        Native::Len,
        Native::Time,
        Native::Timestamp,
        Native::Sleep,
        Native::Fetch,
        Native::Serve,
        Native::Str,
    ]
}

/// The native functions with their names.
pub fn setup_native_fns() -> (res: Vec<(String, Native)>)
    ensures
        res@.len() == all_natives().len(),
        forall|k: int|
            0 <= k < res@.len() ==> (#[trigger] res@[k]).1 == all_natives()[k] && res@[k].0@
                == native_name(all_natives()[k]),
{
    let mut v: Vec<(String, Native)> = Vec::new();
    v.push(("print".to_owned(), Native::Print));
    v.push(("len".to_owned(), Native::Len));
    v.push(("time".to_owned(), Native::Time));
    v.push(("timestamp".to_owned(), Native::Timestamp));
    v.push(("sleep".to_owned(), Native::Sleep));
    v.push(("fetch".to_owned(), Native::Fetch));
    v.push(("serve".to_owned(), Native::Serve));
    v.push(("str".to_owned(), Native::Str));
    v
}

/// What a call of a native function asks of the owner of the machine.
pub enum Plan {
    /// Nothing: this is the value.
    Give(Value),
    /// To write a line, after which the value is zero.
    Print(Vec<Piece>),
    /// The seconds since the epoch.
    Time,
    /// The present moment, for a new timestamp.
    Timestamp,
    /// To wait, after which the value is zero.
    Sleep { millis: u64 },
    /// To fetch a page and write down what came, after which the value is zero.
    Fetch { url: String },
    /// To answer requests on a port with a function, after which the value is
    /// zero.
    Serve { port: u16, handler: String },
    /// How many steps a range has: the distance of its ends over its step, rounded
    /// up, and never less than zero.
    Steps { start: u64, end: u64, step: u64 },
    /// The spelling of a value, for a new text.
    Spell(Vec<Piece>),
    /// Nothing: the call failed.
    Fail(JitError),
}

/// The error of a call.
pub open spec fn plan_fails(p: Plan, msg: Seq<char>, loc: Loc) -> bool {
    p matches Plan::Fail(e) && e@ == runtime(msg, loc)
}

fn plan_fail(msg: &str, loc: Loc) -> (res: Plan)
    ensures
        plan_fails(res, msg@, loc),
{
    Plan::Fail(JitError::runtime(msg, loc.line as usize, loc.col as usize))
}

/// The pieces show the first `n` arguments with blanks between them.
pub open spec fn shows_args(ctx: Ctx, args: Seq<u64>, n: nat, out: Seq<Shown>) -> bool
    decreases n,
{
    if n == 0 {
        out == Seq::<Shown>::empty()
    } else {
        exists|before: Seq<Shown>, last: Seq<Shown>| #[trigger]
            joined(before, last, n, out) && shows_args(ctx, args, (n - 1) as nat, before)
                && shows_value(ctx, Value(args[n - 1]), last)
    }
}

/// Two parts, with a blank between them after the first argument.
pub open spec fn joined(before: Seq<Shown>, last: Seq<Shown>, n: nat, out: Seq<Shown>) -> bool {
    out == (if n > 1 {
        before.push(Shown::Text(" "@))
    } else {
        before
    }) + last
}

/// How many elements, characters or fields a value has, where that can be told
/// without arithmetic.
pub open spec fn length(ctx: Ctx, v: Value) -> Option<nat> {
    match v.kind() {
        Kind::Object(_) => match ctx.deref(v) {
            Some(ObjView::Text(s)) => Some(s.len()),
            Some(ObjView::List(l)) => Some(l.len()),
            Some(ObjView::Object(m)) => Some(m.dom().len()),
            Some(ObjView::Timestamp(_)) => Some(0),
            Some(ObjView::Range { step, .. }) => if step == 0 || step == SIGN {
                Some(0)
            } else {
                None
            },
            Some(ObjView::BoundMethod { .. }) => Some(0),
            None => None,
        },
        _ => match ctx.text(v) {
            Some(s) => Some(s.len()),
            None => None,
        },
    }
}

/// `FxHashMap::len` counts the fields.
#[verifier::external_body]
fn fields_len(m: &FxHashMap<u32, u64>) -> (res: usize)
    ensures
        res == m@.dom().len(),
{
    m.len()
}

/// The plan is that of `len` for the arguments.
pub open spec fn plans_len(ctx: Ctx, args: Seq<u64>, loc: Loc, p: Plan) -> bool {
    if args.len() != 1 {
        plan_fails(p, "len() expects 1 argument"@, loc)
    } else {
        let v = Value(args[0]);
        match length(ctx, v) {
            Some(n) => p == Plan::Give(Value(bits_of_count(n as u64 as nat) as u64)),
            None => match ctx.deref(v) {
                Some(ObjView::Range { start, end, step }) => p == (Plan::Steps { start, end, step }),
                _ => plan_fails(p, "len() expects string or list"@, loc),
            },
        }
    }
}

/// The plan is that of a native function for the arguments.
pub open spec fn plans(ctx: Ctx, native: Native, args: Seq<u64>, loc: Loc, p: Plan) -> bool {
    match native {
        Native::Print => p matches Plan::Print(v) && shows_args(
            ctx,
            args,
            args.len(),
            pieces_view(v@),
        ),
        Native::Len => plans_len(ctx, args, loc, p),
        Native::Time => p is Time,
        Native::Timestamp => p is Timestamp,
        Native::Sleep => if args.len() != 1 {
            plan_fails(p, "sleep() expects 1 argument"@, loc)
        } else {
            match Value(args[0]).kind() {
                Kind::Number(n) => p == (Plan::Sleep { millis: truncated(n) as u64 }),
                _ => plan_fails(p, "sleep() expects numeric milliseconds"@, loc),
            }
        },
        Native::Fetch => match first_text(ctx, args) {
            Some(s) => p matches Plan::Fetch { url } && url@ == s,
            None => plan_fails(p, "fetch requires a string URL as its first argument"@, loc),
        },
        Native::Serve => plans_serve(ctx, args, loc, p),
        Native::Str => if args.len() != 1 {
            plan_fails(p, "str() expects 1 argument"@, loc)
        } else {
            p matches Plan::Spell(v) && shows_value(ctx, Value(args[0]), pieces_view(v@))
        },
    }
}

/// The text that the first argument is.
pub open spec fn first_text(ctx: Ctx, args: Seq<u64>) -> Option<Seq<char>> {
    if args.len() > 0 {
        ctx.text(Value(args[0]))
    } else {
        None
    }
}

/// The plan is that of `serve` for the arguments.
pub open spec fn plans_serve(ctx: Ctx, args: Seq<u64>, loc: Loc, p: Plan) -> bool {
    if args.len() != 2 {
        plan_fails(p, "serve(port, handler) expects 2 arguments"@, loc)
    } else {
        match Value(args[0]).kind() {
            Kind::Number(n) => match ctx.text(Value(args[1])) {
                Some(s) => p matches Plan::Serve { port, handler } && port == port_of(n)
                    && handler@ == s,
                None => plan_fails(p, "serve: handler must be a function name string"@, loc),
            },
            _ => plan_fails(p, "serve: port must be a number"@, loc),
        }
    }
}

/// A number cut to a port.
pub open spec fn port_of(bits: u64) -> int {
    if truncated(bits) > 0xffff {
        0xffff
    } else {
        truncated(bits)
    }
}

fn plan_print(ctx: &Context, args: &Vec<u64>) -> (res: Vec<Piece>)
    ensures
        shows_args(ctx@, args@, args@.len(), pieces_view(res@)),
{
    let mut out: Vec<Piece> = Vec::new();
    let mut k: usize = 0;
    assert(pieces_view(out@) =~= Seq::<Shown>::empty());
    while k < args.len()
        invariant
            k <= args@.len(),
            shows_args(ctx@, args@, k as nat, pieces_view(out@)),
        decreases args@.len() - k,
    {
        let ghost before = pieces_view(out@);
        if k > 0 {
            out.push(Piece::Text(" ".to_owned()));
            assert(pieces_view(out@) =~= before.push(Shown::Text(" "@)));
        }
        let ghost lead = out@;
        let mut more = stringify_value(ctx, Value::from_bits(args[k]));
        let ghost last = pieces_view(more@);
        out.append(&mut more);
        k = k + 1;
        proof {
            assert(pieces_view(out@) =~= pieces_view(lead) + last);
            assert(joined(before, last, k as nat, pieces_view(out@)));
        }
    }
    out
}

fn plan_len(ctx: &Context, args: &Vec<u64>, loc: Loc) -> (res: Plan)
    ensures
        plans_len(ctx@, args@, loc, res),
{
    if args.len() != 1 {
        return plan_fail("len() expects 1 argument", loc);
    }
    let v = Value::from_bits(args[0]);
    let n: usize = if v.as_obj_id().is_some() {
        match ctx.deref(v) {
            Some(ManagedObject::String(s)) => chars_of(s.as_str()).len(),
            Some(ManagedObject::List(l)) => l.len(),
            Some(ManagedObject::Object(m)) => fields_len(m),
            Some(ManagedObject::Timestamp(_)) => 0,
            Some(ManagedObject::Range { start, end, step }) => {
                if *step == 0 || *step == SIGN {
                    0
                } else {
                    return Plan::Steps { start: *start, end: *end, step: *step };
                }
            },
            Some(ManagedObject::BoundMethod { .. }) => 0,
            None => {
                return plan_fail("len() expects string or list", loc);
            },
        }
    } else {
        match v.as_string(ctx) {
            Some(s) => chars_of(s.as_str()).len(),
            None => {
                return plan_fail("len() expects string or list", loc);
            },
        }
    };
    Plan::Give(Value::number(from_count(n as u64)))
}

fn plan_serve(ctx: &Context, args: &Vec<u64>, loc: Loc) -> (res: Plan)
    ensures
        plans_serve(ctx@, args@, loc, res),
{
    if args.len() != 2 {
        return plan_fail("serve(port, handler) expects 2 arguments", loc);
    }
    let port: usize = match Value::from_bits(args[0]).as_number() {
        Some(n) => to_index(n),
        None => {
            return plan_fail("serve: port must be a number", loc);
        },
    };
    let handler = match Value::from_bits(args[1]).as_string(ctx) {
        Some(s) => s,
        None => {
            return plan_fail("serve: handler must be a function name string", loc);
        },
    };
    let port: u16 = if port > 0xffff {
        0xffff
    } else {
        port as u16
    };
    Plan::Serve { port, handler }
}

/// What a call of a native function asks of the owner of the machine.
pub fn plan_native(ctx: &Context, native: Native, args: &Vec<u64>, loc: Loc) -> (res: Plan)
    ensures
        plans(ctx@, native, args@, loc, res),
{
    match native {
        Native::Print => Plan::Print(plan_print(ctx, args)),
        Native::Len => plan_len(ctx, args, loc),
        Native::Time => Plan::Time,
        Native::Timestamp => Plan::Timestamp,
        Native::Sleep => {
            if args.len() != 1 {
                return plan_fail("sleep() expects 1 argument", loc);
            }
            match Value::from_bits(args[0]).as_number() {
                Some(n) => Plan::Sleep { millis: to_index(n) as u64 },
                None => plan_fail("sleep() expects numeric milliseconds", loc),
            }
        },
        Native::Fetch => {
            let url = if args.len() > 0 {
                Value::from_bits(args[0]).as_string(ctx)
            } else {
                None
            };
            match url {
                Some(url) => Plan::Fetch { url },
                None => plan_fail("fetch requires a string URL as its first argument", loc),
            }
        },
        Native::Serve => plan_serve(ctx, args, loc),
        Native::Str => {
            if args.len() != 1 {
                return plan_fail("str() expects 1 argument", loc);
            }
            Plan::Spell(stringify_value(ctx, Value::from_bits(args[0])))
        },
    }
}

/// A text as a value: itself where it is short, else a new object.
pub fn make_text_value(ctx: &mut Context, s: String) -> (res: Value)
    requires
        old(ctx)@.wf(),
        old(ctx)@.heap.has_room(),
    ensures
        final(ctx)@.wf(),
        if encode_utf8(s@).len() <= 6 {
            res == text_value(encode_utf8(s@)) && final(ctx)@ == old(ctx)@
        } else {
            res == object_value(old(ctx)@.next_slot()) && final(ctx)@ == old(ctx)@.with(
                ObjView::Text(s@),
            )
        },
{
    match Value::sso(s.as_str()) {
        Some(v) => v,
        None => {
            let id: u32 = ctx.allocate(ManagedObject::String(s));
            Value::object(id)
        },
    }
}

/// A point in time as a value.
pub fn make_timestamp(ctx: &mut Context, instant: u64) -> (res: Value)
    requires
        old(ctx)@.wf(),
        old(ctx)@.heap.has_room(),
    ensures
        final(ctx)@.wf(),
        final(ctx)@ == old(ctx)@.with(ObjView::Timestamp(instant)),
        res == object_value(old(ctx)@.next_slot()),
{
    let id: u32 = ctx.allocate(ManagedObject::Timestamp(instant));
    Value::object(id)
}

/// Every native function has its own name.
pub proof fn law_native_functions_have_their_names(a: Native, b: Native)
    ensures
        native_name(Native::Print) == "print"@,
        native_name(Native::Len) == "len"@,
        native_name(Native::Time) == "time"@,
        native_name(Native::Timestamp) == "timestamp"@,
        native_name(Native::Sleep) == "sleep"@,
        native_name(Native::Fetch) == "fetch"@,
        native_name(Native::Serve) == "serve"@,
        native_name(Native::Str) == "str"@,
        a != b ==> native_name(a) != native_name(b),
        all_natives().contains(a),
{
    reveal_strlit("print");
    reveal_strlit("len");
    reveal_strlit("time");
    reveal_strlit("timestamp");
    reveal_strlit("sleep");
    reveal_strlit("fetch");
    reveal_strlit("serve");
    reveal_strlit("str");
    assert("print"@[0] == 'p');
    assert("len"@[0] == 'l');
    assert("time"@.len() == 4 && "timestamp"@.len() == 9);
    assert("time"@[0] == 't' && "timestamp"@[0] == 't');
    assert("sleep"@[1] == 'l');
    assert("serve"@[1] == 'e');
    assert("fetch"@[0] == 'f');
    assert("sleep"@[0] == 's' && "serve"@[0] == 's' && "str"@[0] == 's' && "str"@.len() == 3);
    let all = all_natives();
    assert(all[0] == Native::Print && all[1] == Native::Len && all[2] == Native::Time && all[3]
        == Native::Timestamp && all[4] == Native::Sleep && all[5] == Native::Fetch && all[6]
        == Native::Serve && all[7] == Native::Str);
}

/// The parts one after another, with a blank between two of them.
pub open spec fn with_blanks(parts: Seq<Seq<Shown>>) -> Seq<Shown>
    decreases parts.len(),
{
    if parts.len() == 0 {
        Seq::empty()
    } else if parts.len() == 1 {
        parts[0]
    } else {
        with_blanks(parts.drop_last()) + seq![Shown::Text(" "@)] + parts.last()
    }
}

/// `print` shows each of its arguments, from the first to the last, with a blank
/// between two of them.
pub proof fn law_print_shows_its_arguments_in_order(
    ctx: Ctx,
    args: Seq<u64>,
    n: nat,
    out: Seq<Shown>,
) -> (parts: Seq<Seq<Shown>>)
    requires
        shows_args(ctx, args, n, out),
        n <= args.len(),
    ensures
        parts.len() == n,
        forall|k: int| 0 <= k < n ==> shows_value(ctx, Value(args[k]), #[trigger] parts[k]),
        out == with_blanks(parts),
    decreases n,
{
    if n == 0 {
        Seq::empty()
    } else {
        let (before, last) = choose|before: Seq<Shown>, last: Seq<Shown>| #[trigger]
            joined(before, last, n, out) && shows_args(ctx, args, (n - 1) as nat, before)
                && shows_value(ctx, Value(args[n - 1]), last);
        let some = law_print_shows_its_arguments_in_order(ctx, args, (n - 1) as nat, before);
        let parts = some.push(last);
        assert(parts.drop_last() =~= some);
        if n == 1 {
            assert(before =~= Seq::<Shown>::empty());
            assert(out =~= last);
        } else {
            assert(out =~= before + seq![Shown::Text(" "@)] + last);
        }
        parts
    }
}

/// What each native function is asked to do goes by its arguments: `print` shows
/// them, `len` counts characters, elements or fields, `str` spells one, `sleep`
/// waits so many milliseconds, `fetch` takes an address, and `serve` a port and the
/// name of a function.
pub proof fn law_native_functions_go_by_their_arguments(
    ctx: Ctx,
    args: Seq<u64>,
    loc: Loc,
    p: Plan,
)
    ensures
        plans(ctx, Native::Print, args, loc, p) ==> (p matches Plan::Print(v) && shows_args(
            ctx,
            args,
            args.len(),
            pieces_view(v@),
        )),
        plans(ctx, Native::Str, args, loc, p) && args.len() == 1 ==> (p matches Plan::Spell(v)
            && shows_value(ctx, Value(args[0]), pieces_view(v@))),
        plans(ctx, Native::Sleep, args, loc, p) && args.len() == 1 ==> (Value(
            args[0],
        ).kind() matches Kind::Number(n) ==> (p matches Plan::Sleep { millis } && (truncated(n)
            <= u64::MAX ==> millis == truncated(n)))),
        plans(ctx, Native::Fetch, args, loc, p) && args.len() > 0 ==> (ctx.text(
            Value(args[0]),
        ) matches Some(s) ==> (p matches Plan::Fetch { url } && url@ == s)),
        plans(ctx, Native::Serve, args, loc, p) && args.len() == 2 ==> (Value(
            args[0],
        ).kind() matches Kind::Number(n) ==> (ctx.text(Value(args[1])) matches Some(s) ==> (
        p matches Plan::Serve { port, handler } && handler@ == s && (truncated(n) <= 0xffff ==> port
            == truncated(n)) && (truncated(n) > 0xffff ==> port == 0xffff)))),
        plans(ctx, Native::Time, args, loc, p) ==> p is Time,
        plans(ctx, Native::Timestamp, args, loc, p) ==> p is Timestamp,
        args.len() != 1 ==> (plans(ctx, Native::Len, args, loc, p) || plans(
            ctx,
            Native::Str,
            args,
            loc,
            p,
        ) || plans(ctx, Native::Sleep, args, loc, p)) ==> p is Fail,
        args.len() != 2 ==> plans(ctx, Native::Serve, args, loc, p) ==> p is Fail,
{
    if Value(args[0]).kind() is Number {
        law_indices_are_whole_parts(Value(args[0]).kind()->Number_0);
    }
}

/// `len` gives how many characters a text has, how many elements a list and how
/// many fields an object; for a range it asks for the number of its steps.
pub proof fn law_len_counts(ctx: Ctx, v: Value, loc: Loc, p: Plan, n: nat)
    requires
        plans(ctx, Native::Len, seq![v.0], loc, p),
        n < 0x20000000000000,
    ensures
        ctx.text(v) matches Some(s) ==> s.len() == n ==> gives_count(p, n),
        ctx.deref(v) matches Some(ObjView::List(l)) ==> l.len() == n ==> gives_count(p, n),
        ctx.deref(v) matches Some(ObjView::Object(m)) ==> m.dom().len() == n ==> gives_count(p, n),
        ctx.deref(v) matches Some(ObjView::Range { start, end, step }) ==> {
            &&& scaled(step) == 0 && (step == 0 || step == 0x8000000000000000) ==> gives_count(p, 0)
            &&& step != 0 && step != 0x8000000000000000 ==> p == (Plan::Steps { start, end, step })
        },
        v.kind() is Number || v.kind() is Bool ==> p is Fail,
{
    law_small_counts_are_exact(n);
    law_small_counts_are_exact(0);
    assert(seq![v.0][0] == v.0);
    assert(Value(v.0) == v);
}

/// The plan gives a number of exactly that value.
pub open spec fn gives_count(p: Plan, n: nat) -> bool {
    p matches Plan::Give(v) && is_finite(v.0) && scaled(v.0) == n * pow2(1074)
}

/// A native function that is called with the wrong number of arguments or with
/// arguments of the wrong kind fails, at the place of the call, and says what it
/// wants.
pub proof fn law_native_functions_say_what_they_want(
    ctx: Ctx,
    args: Seq<u64>,
    loc: Loc,
    p: Plan,
    msg: Seq<char>,
)
    ensures
        plan_fails(p, msg, loc) ==> (p matches Plan::Fail(e) && e@ == (Fault::Runtime {
            msg,
            loc: ErrorLoc { line: loc.line as usize, col: loc.col as usize },
        })),
        plans(ctx, Native::Len, args, loc, p) && args.len() != 1 ==> plan_fails(
            p,
            "len() expects 1 argument"@,
            loc,
        ),
        plans(ctx, Native::Len, args, loc, p) && args.len() == 1 && (Value(args[0]).kind() is Number
            || Value(args[0]).kind() is Bool) ==> plan_fails(
            p,
            "len() expects string or list"@,
            loc,
        ),
        plans(ctx, Native::Sleep, args, loc, p) && args.len() != 1 ==> plan_fails(
            p,
            "sleep() expects 1 argument"@,
            loc,
        ),
        plans(ctx, Native::Sleep, args, loc, p) && args.len() == 1 && !(Value(
            args[0],
        ).kind() is Number) ==> plan_fails(p, "sleep() expects numeric milliseconds"@, loc),
        plans(ctx, Native::Fetch, args, loc, p) && (args.len() == 0 || ctx.text(
            Value(args[0]),
        ) is None) ==> plan_fails(p, "fetch requires a string URL as its first argument"@, loc),
        plans(ctx, Native::Str, args, loc, p) && args.len() != 1 ==> plan_fails(
            p,
            "str() expects 1 argument"@,
            loc,
        ),
        plans(ctx, Native::Serve, args, loc, p) && args.len() != 2 ==> plan_fails(
            p,
            "serve(port, handler) expects 2 arguments"@,
            loc,
        ),
        plans(ctx, Native::Serve, args, loc, p) && args.len() == 2 && !(Value(
            args[0],
        ).kind() is Number) ==> plan_fails(p, "serve: port must be a number"@, loc),
        plans(ctx, Native::Serve, args, loc, p) && args.len() == 2 && Value(
            args[0],
        ).kind() is Number && ctx.text(Value(args[1])) is None ==> plan_fails(
            p,
            "serve: handler must be a function name string"@,
            loc,
        ),
{
}

/// A timestamp and a method have no length to speak of.
pub proof fn law_some_things_have_no_length(ctx: Ctx, v: Value, loc: Loc, p: Plan)
    requires
        plans(ctx, Native::Len, seq![v.0], loc, p),
        ctx.deref(v) is Some,
        ctx.deref(v)->0 is Timestamp || ctx.deref(v)->0 is BoundMethod,
    ensures
        gives_count(p, 0),
{
    law_small_counts_are_exact(0);
    assert(seq![v.0][0] == v.0);
    assert(Value(v.0) == v);
}

} // verus!
