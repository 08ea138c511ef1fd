//! Errors of compiling and running a script, with their source locations.
use crate::lexer::LexFault;
use crate::lexer::LexingError;
use crate::text::decimal;
use crate::text::push_decimal;
use vstd::prelude::*;

verus! {

/// A line and a column, both counted from one; zero stands for "no place".
#[derive(Debug, Clone, Copy, PartialEq, Eq, Structural)]
pub struct ErrorLoc {
    pub line: usize,
    pub col: usize,
}

impl ErrorLoc {
    pub fn new(line: usize, col: usize) -> (res: Self)
        ensures
            res == (ErrorLoc { line, col }),
    {
        Self { line, col }
    }

    /// `line:col`.
    pub open spec fn text(self) -> Seq<char> {
        decimal(self.line as nat) + seq![':'] + decimal(self.col as nat)
    }

    /// The location as `line:col`.
    pub fn to_text(&self) -> (res: String)
        ensures
            res@ == self.text(),
    {
        let mut s = String::new();
        push_decimal(&mut s, self.line);
        s.push(':');
        push_decimal(&mut s, self.col);
        assert(s@ =~= self.text());
        s
    }
}

/// Every error that compiling or running a script can produce.
#[derive(Debug)]
pub enum JitError {
    Lexing { err: LexingError, loc: ErrorLoc },
    Parsing { msg: String, loc: ErrorLoc },
    Runtime { msg: String, loc: ErrorLoc },
    UnknownVariable { msg: String, loc: ErrorLoc },
    RedefinitionOfImmutableVariable { msg: String, loc: ErrorLoc, orig_line: usize },
}

/// What an error says, with its texts as character sequences.
pub enum Fault {
    Lexing { err: LexFault, loc: ErrorLoc },
    Parsing { msg: Seq<char>, loc: ErrorLoc },
    Runtime { msg: Seq<char>, loc: ErrorLoc },
    UnknownVariable { msg: Seq<char>, loc: ErrorLoc },
    RedefinitionOfImmutableVariable { msg: Seq<char>, loc: ErrorLoc, orig_line: usize },
}

impl Fault {
    pub open spec fn loc(self) -> ErrorLoc {
        match self {
            Fault::Lexing { loc, .. } => loc,
            Fault::Parsing { loc, .. } => loc,
            Fault::Runtime { loc, .. } => loc,
            Fault::UnknownVariable { loc, .. } => loc,
            Fault::RedefinitionOfImmutableVariable { loc, .. } => loc,
        }
    }

    /// The message shown to the user.
    pub open spec fn text(self) -> Seq<char> {
        match self {
            Fault::Lexing { err, loc } => "Lexing error at "@ + loc.text() + ": "@
                + err.debug_text(),
            Fault::Parsing { msg, loc } => "Parsing error at "@ + loc.text() + ": "@ + msg,
            Fault::Runtime { msg, loc } => "Runtime error at "@ + loc.text() + ": "@ + msg,
            Fault::UnknownVariable { msg, loc } => "Unknown variable at "@ + loc.text() + ": "@
                + msg,
            Fault::RedefinitionOfImmutableVariable { msg, loc, orig_line } =>
                "Redefinition of immutable variable at "@ + loc.text() + ": '"@ + msg
                    + "' was already defined on line "@ + decimal(orig_line as nat),
        }
    }
}

impl View for JitError {
    type V = Fault;

    open spec fn view(&self) -> Fault {
        match *self {
            JitError::Lexing { err, loc } => Fault::Lexing { err: err@, loc },
            JitError::Parsing { msg, loc } => Fault::Parsing { msg: msg@, loc },
            JitError::Runtime { msg, loc } => Fault::Runtime { msg: msg@, loc },
            JitError::UnknownVariable { msg, loc } => Fault::UnknownVariable { msg: msg@, loc },
            JitError::RedefinitionOfImmutableVariable { msg, loc, orig_line } =>
                Fault::RedefinitionOfImmutableVariable { msg: msg@, loc, orig_line },
        }
    }
}

impl JitError {
    /// The line and the column of the error.
    pub fn location(&self) -> (res: (usize, usize))
        ensures
            res == (self@.loc().line, self@.loc().col),
    {
        let loc = match self {
            JitError::Lexing { loc, .. } => loc,
            JitError::Parsing { loc, .. } => loc,
            JitError::Runtime { loc, .. } => loc,
            JitError::UnknownVariable { loc, .. } => loc,
            JitError::RedefinitionOfImmutableVariable { loc, .. } => loc,
        };
        (loc.line, loc.col)
    }

    pub fn runtime(msg: &str, line: usize, col: usize) -> (res: Self)
        ensures
            res@ == (Fault::Runtime { msg: msg@, loc: ErrorLoc { line, col } }),
    {
        Self::Runtime { msg: msg.to_owned(), loc: ErrorLoc::new(line, col) }
    }

    pub fn parsing(msg: &str, line: usize, col: usize) -> (res: Self)
        ensures
            res@ == (Fault::Parsing { msg: msg@, loc: ErrorLoc { line, col } }),
    {
        Self::Parsing { msg: msg.to_owned(), loc: ErrorLoc::new(line, col) }
    }

    pub fn unknown_variable(msg: &str, line: usize, col: usize) -> (res: Self)
        ensures
            res@ == (Fault::UnknownVariable { msg: msg@, loc: ErrorLoc { line, col } }),
    {
        Self::UnknownVariable { msg: msg.to_owned(), loc: ErrorLoc::new(line, col) }
    }

    /// The message shown to the user.
    pub fn to_text(&self) -> (res: String)
        ensures
            res@ == self@.text(),
    {
        let mut s = String::new();
        match self {
            JitError::Lexing { err, loc } => {
                s.append("Lexing error at ");
                s.append(loc.to_text().as_str());
                s.append(": ");
                s.append(err.to_debug_text().as_str());
            },
            JitError::Parsing { msg, loc } => {
                s.append("Parsing error at ");
                s.append(loc.to_text().as_str());
                s.append(": ");
                s.append(msg.as_str());
            },
            JitError::Runtime { msg, loc } => {
                s.append("Runtime error at ");
                s.append(loc.to_text().as_str());
                s.append(": ");
                s.append(msg.as_str());
            },
            JitError::UnknownVariable { msg, loc } => {
                s.append("Unknown variable at ");
                s.append(loc.to_text().as_str());
                s.append(": ");
                s.append(msg.as_str());
            },
            JitError::RedefinitionOfImmutableVariable { msg, loc, orig_line } => {
                s.append("Redefinition of immutable variable at ");
                s.append(loc.to_text().as_str());
                s.append(": '");
                s.append(msg.as_str());
                s.append("' was already defined on line ");
                push_decimal(&mut s, *orig_line);
            },
        }
        assert(s@ =~= self@.text());
        s
    }
}

/// The message of an error says what kind it is, at which line and column, and what
/// is wrong.
pub proof fn law_errors_tell_their_place(
    err: LexFault,
    msg: Seq<char>,
    loc: ErrorLoc,
    orig_line: usize,
)
    ensures
        loc.text() == decimal(loc.line as nat) + seq![':'] + decimal(loc.col as nat),
        (Fault::Lexing { err, loc }).text() == "Lexing error at "@ + loc.text() + ": "@
            + err.debug_text(),
        (Fault::Parsing { msg, loc }).text() == "Parsing error at "@ + loc.text() + ": "@ + msg,
        (Fault::Runtime { msg, loc }).text() == "Runtime error at "@ + loc.text() + ": "@ + msg,
        (Fault::UnknownVariable { msg, loc }).text() == "Unknown variable at "@ + loc.text() + ": "@
            + msg,
        (Fault::RedefinitionOfImmutableVariable { msg, loc, orig_line }).text()
            == "Redefinition of immutable variable at "@ + loc.text() + ": '"@ + msg
            + "' was already defined on line "@ + decimal(orig_line as nat),
        (Fault::Lexing { err, loc }).loc() == loc,
        (Fault::Parsing { msg, loc }).loc() == loc,
        (Fault::Runtime { msg, loc }).loc() == loc,
        (Fault::UnknownVariable { msg, loc }).loc() == loc,
        (Fault::RedefinitionOfImmutableVariable { msg, loc, orig_line }).loc() == loc,
{
}

} // verus!
