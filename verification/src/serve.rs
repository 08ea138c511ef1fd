//! Answering requests with a function of the script.
use crate::compiler::FunctionView;
use crate::context::first_place;
use crate::context::lemma_new_object;
use crate::context::place_id;
use crate::context::Callable;
use crate::context::CallableView;
use crate::context::Context;
use crate::context::Ctx;
use crate::heap::ObjView;
use crate::interpreter::machine;
use crate::interpreter::make_registers;
use crate::interpreter::share;
use crate::interpreter::Task;
use crate::machine::callable_ok;
use crate::machine::functions_ok;
use crate::machine::zeros;
use crate::machine::FrameView;
use crate::machine::TaskView;
use crate::natives::make_text_value;
use crate::text::chars_of;
use crate::text::decimal;
use crate::text::push_decimal;
use crate::value::law_boxes_round_trip;
use crate::value::law_short_text_round_trip;
use crate::value::object_value;
use crate::value::text_value;
use crate::value::Value;
use vstd::prelude::*;
use vstd::utf8::encode_utf8;

verus! {

/// The text of bytes, with a mark in the place of what is no UTF-8.
pub uninterp spec fn lossy_text(bytes: Seq<u8>) -> Seq<char>;

/// `String::from_utf8_lossy`. Where it puts its marks is named, not spelled out.
#[verifier::external_body]
fn decode_lossy(bytes: &[u8]) -> (res: String)
    ensures
        res@ == lossy_text(bytes@),
{
    String::from_utf8_lossy(bytes).into_owned()
}

/// The text of a request.
pub fn request_text(bytes: &[u8]) -> (res: String)
    ensures
        res@ == lossy_text(bytes@),
{
    decode_lossy(bytes)
}

/// The function of the script that has a name.
pub open spec fn handler_of(ctx: Ctx, name: Seq<char>) -> Option<FunctionView> {
    match place_id(ctx.strings, name) {
        Some(id) => match ctx.callables[id as int] {
            Some(CallableView::User(f)) => Some(f),
            _ => None,
        },
        None => None,
    }
}

/// The value of a text.
pub open spec fn text_as_value(ctx: Ctx, s: Seq<char>) -> Value {
    if encode_utf8(s).len() <= 6 {
        text_value(encode_utf8(s))
    } else {
        object_value(ctx.next_slot())
    }
}

/// The memory with that value in it.
pub open spec fn with_text_value(ctx: Ctx, s: Seq<char>) -> Ctx {
    if encode_utf8(s).len() <= 6 {
        ctx
    } else {
        ctx.with(ObjView::Text(s))
    }
}

/// The memory with a task that calls the function with the request.
pub open spec fn with_handler(ctx: Ctx, f: FunctionView, request: Seq<char>) -> Ctx {
    if f.locals_count > 0 {
        let a = with_text_value(ctx, request);
        let regs = zeros(f.locals_count as nat).update(0, text_as_value(ctx, request).0);
        Ctx { tasks: a.tasks.push(seq![regs]), ..a }
    } else {
        Ctx { tasks: ctx.tasks.push(seq![Seq::empty()]), ..ctx }
    }
}

/// A task that calls the function with the given name, if the script has one.
/// Its first argument is the request.
pub fn start_handler(ctx: &mut Context, name: &str, request: String) -> (res: Option<Task>)
    requires
        old(ctx)@.wf(),
        functions_ok(old(ctx)@),
        old(ctx)@.heap.has_room(),
    ensures
        final(ctx)@.wf(),
        match handler_of(old(ctx)@, name@) {
            Some(f) => {
                &&& final(ctx)@ == with_handler(old(ctx)@, f, request@)
                &&& res matches Some(task) && task@ == (TaskView {
                    id: old(ctx)@.tasks.len() as usize,
                    frames: seq![FrameView { code: f.code, pc: 0, count: 0, dst: None }],
                }) && machine(final(ctx)@, task@).wf()
            },
            None => res is None && final(ctx)@ == old(ctx)@,
        },
{
    let ghost before = ctx@;
    proof {
        if let Some(id) = place_id(before.strings, name@) {
            lemma_place(before.strings, name@, 0);
        }
    }
    let found = match ctx.find_string(name) {
        Some(id) => match ctx.get_callable(id) {
            Some(Callable::User(f)) => {
                proof {
                    assert(callable_ok(before, before.callables[id as int]));
                }
                Some((share(&f.instructions), f.locals_count))
            },
            _ => None,
        },
        None => None,
    };
    match found {
        Some((code, locals_count)) => {
            let mut regs = make_registers(locals_count);
            if locals_count > 0 {
                let v = make_text_value(ctx, request);
                regs.set(0, v.to_bits());
            }
            proof {
                assert(functions_ok(ctx@)) by {
                    assert forall|k: int| 0 <= k < ctx@.callables.len() implies callable_ok(
                        ctx@,
                        #[trigger] ctx@.callables[k],
                    ) by {
                        assert(callable_ok(before, before.callables[k]));
                    }
                }
            }
            let task = Task::new(ctx, code, regs);
            proof {
                assert(locals_count == 0 ==> regs@ =~= Seq::<u64>::empty());
                let f = handler_of(before, name@)->0;
                assert(ctx@ == with_handler(before, f, request@));
            }
            Some(task)
        },
        None => None,
    }
}

proof fn lemma_place(strings: Seq<Seq<char>>, s: Seq<char>, from: int)
    requires
        0 <= from,
    ensures
        first_place(strings, s, from) matches Some(k) ==> from <= k < strings.len(),
    decreases strings.len() - from,
{
    if from < strings.len() && strings[from] != s {
        lemma_place(strings, s, from + 1);
    }
}

/// The answer where there is no handler.
pub fn not_found() -> (res: String)
    ensures
        res@ == "HTTP/1.1 404 Not Found\r\n\r\nHandler not found"@,
{
    "HTTP/1.1 404 Not Found\r\n\r\nHandler not found".to_owned()
}

/// The answer where the handler failed.
pub fn error_response(err: &str) -> (res: String)
    ensures
        res@ == "HTTP/1.1 500 Internal Server Error\r\n\r\nError: "@ + err@,
{
    let mut s = String::new();
    s.append("HTTP/1.1 500 Internal Server Error\r\n\r\nError: ");
    s.append(err);
    assert(s@ =~= "HTTP/1.1 500 Internal Server Error\r\n\r\nError: "@ + err@);
    s
}

/// The text is an answer by itself.
pub open spec fn is_response(s: Seq<char>) -> bool {
    s.len() >= 5 && s.subrange(0, 5) == seq!['H', 'T', 'T', 'P', '/']
}

/// The text as an answer: itself where it is one, else with a head.
pub open spec fn as_response(s: Seq<char>) -> Seq<char> {
    if is_response(s) {
        s
    } else {
        "HTTP/1.1 200 OK\r\nContent-Length: "@ + decimal(encode_utf8(s).len())
            + "\r\nContent-Type: text/plain\r\n\r\n"@ + s
    }
}

/// The answer for what the handler returned. What is no text counts as "OK".
pub fn response(ctx: &Context, result: Value) -> (res: String)
    ensures
        res@ == as_response(
            match ctx@.text(result) {
                Some(s) => s,
                None => "OK"@,
            },
        ),
{
    let body = match result.as_string(ctx) {
        Some(s) => s,
        None => "OK".to_owned(),
    };
    let cs = chars_of(body.as_str());
    let full = cs.len() >= 5 && cs[0] == 'H' && cs[1] == 'T' && cs[2] == 'T' && cs[3] == 'P' && cs[4]
        == '/';
    proof {
        let t = seq!['H', 'T', 'T', 'P', '/'];
        if full {
            assert(body@.subrange(0, 5) =~= t);
        }
        if is_response(body@) {
            assert(body@.subrange(0, 5)[0] == t[0]);
            assert(body@.subrange(0, 5)[1] == t[1]);
            assert(body@.subrange(0, 5)[2] == t[2]);
            assert(body@.subrange(0, 5)[3] == t[3]);
            assert(body@.subrange(0, 5)[4] == t[4]);
        }
    }
    if full {
        return body;
    }
    let mut s = String::new();
    s.append("HTTP/1.1 200 OK\r\nContent-Length: ");
    push_decimal(&mut s, body.as_str().as_bytes().len());
    s.append("\r\nContent-Type: text/plain\r\n\r\n");
    s.append(body.as_str());
    assert(s@ =~= as_response(body@));
    s
}

/// An answer that a handler does not write itself has a head and a body. The body is
/// the text, and the head says how many bytes it has. Only a text that begins with
/// `HTTP/` is an answer by itself.
pub proof fn law_answers_tell_their_length(s: Seq<char>) -> (head: Seq<char>)
    ensures
        s.len() >= 5 && s[0] == 'H' && s[1] == 'T' && s[2] == 'T' && s[3] == 'P' && s[4] == '/'
            ==> as_response(s) == s,
        !(s.len() >= 5 && s[0] == 'H' && s[1] == 'T' && s[2] == 'T' && s[3] == 'P' && s[4] == '/')
            ==> as_response(s) == head + s && head == "HTTP/1.1 200 OK\r\nContent-Length: "@
            + decimal(encode_utf8(s).len()) + "\r\nContent-Type: text/plain\r\n\r\n"@,
{
    let t = seq!['H', 'T', 'T', 'P', '/'];
    if s.len() >= 5 {
        let u = s.subrange(0, 5);
        assert(u[0] == s[0] && u[1] == s[1] && u[2] == s[2] && u[3] == s[3] && u[4] == s[4]);
        if s[0] == 'H' && s[1] == 'T' && s[2] == 'T' && s[3] == 'P' && s[4] == '/' {
            assert(u =~= t);
        } else {
            assert(u[0] != t[0] || u[1] != t[1] || u[2] != t[2] || u[3] != t[3] || u[4] != t[4]);
        }
    }
    "HTTP/1.1 200 OK\r\nContent-Length: "@ + decimal(encode_utf8(s).len())
        + "\r\nContent-Type: text/plain\r\n\r\n"@
}

/// A handler is the function of the script that has the name, and is called with the
/// text of the request as its first argument.
pub proof fn law_handlers_get_the_request(ctx: Ctx, name: Seq<char>, request: Seq<char>)
    requires
        ctx.wf(),
        ctx.heap.has_room(),
    ensures
        handler_of(ctx, name) matches Some(f) ==> {
            let a = with_handler(ctx, f, request);
            let id = ctx.tasks.len() as int;
            &&& exists|k: int|
                0 <= k < ctx.strings.len() && ctx.strings[k] == name && #[trigger] ctx.callables[k]
                    == Some(CallableView::User(f))
            &&& a.tasks.len() == id + 1
            &&& a.tasks[id].len() == 1
            &&& a.tasks[id][0].len() == f.locals_count
            &&& f.locals_count > 0 ==> a.text(Value(a.tasks[id][0][0])) == Some(request)
            &&& forall|r: int| 0 < r < f.locals_count ==> #[trigger] a.tasks[id][0][r] == 0
            &&& forall|t: int| 0 <= t < id ==> #[trigger] a.tasks[t] == ctx.tasks[t]
            &&& a.globals == ctx.globals
        },
        !ctx.strings.contains(name) ==> handler_of(ctx, name) is None,
{
    lemma_place(ctx.strings, name, 0);
    lemma_place_text(ctx.strings, name, 0);
    if let Some(f) = handler_of(ctx, name) {
        let k = first_place(ctx.strings, name, 0)->0;
        assert(ctx.callables[k] == Some(CallableView::User(f)));
        if encode_utf8(request).len() <= 6 {
            law_short_text_round_trip(request);
        } else {
            lemma_new_object(ctx, ObjView::Text(request));
            law_boxes_round_trip(0, false, ctx.next_slot());
        }
    }
}

proof fn lemma_place_text(strings: Seq<Seq<char>>, s: Seq<char>, from: int)
    requires
        0 <= from,
    ensures
        first_place(strings, s, from) matches Some(k) ==> strings[k] == s && strings.contains(s),
    decreases strings.len() - from,
{
    if from < strings.len() && strings[from] != s {
        lemma_place_text(strings, s, from + 1);
    }
}

} // verus!
