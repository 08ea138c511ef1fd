//! The lexer: source text to tokens.
//!
//! The longest possible token is taken at every place. Blanks and block
//! comments are dropped; what fits no token is reported and stepped over.
use crate::text::byte_pos;
use crate::text::chars_of;
use crate::text::lemma_byte_pos_order;
use crate::text::lemma_byte_pos_step;
use crate::text::quote;
use crate::text::quote_char;
use crate::text::quoted;
use crate::text::quoted_char;
use crate::text::same_text;
use crate::text::slice_of;
use crate::text::width_of;
use vstd::prelude::*;
use vstd::utf8::encode_utf8;

verus! {

/// Errors of the lexing phase.
#[derive(Debug)]
pub enum LexingError {
    /// An integer literal that does not parse.
    InvalidInteger(String),
    /// A number literal that does not parse.
    InvalidFloat(String),
    /// A character at which no token starts, or the first character of a token
    /// that is not completed.
    NonAsciiCharacter(char),
    /// Anything else.
    Other,
}

/// What a lexing error says, with its texts as character sequences.
pub enum LexFault {
    InvalidInteger(Seq<char>),
    InvalidFloat(Seq<char>),
    NonAsciiCharacter(char),
    Other,
}

impl LexFault {
    /// The message shown to the user.
    pub open spec fn text(self) -> Seq<char> {
        match self {
            LexFault::InvalidInteger(s) => "Invalid integer: "@ + s,
            LexFault::InvalidFloat(s) => "Invalid float: "@ + s,
            LexFault::NonAsciiCharacter(c) => "Non-ASCII character: "@ + seq![c],
            LexFault::Other => "Unknown lexing error"@,
        }
    }

    /// The name of the variant with its quoted payload.
    pub open spec fn debug_text(self) -> Seq<char> {
        match self {
            LexFault::InvalidInteger(s) => "InvalidInteger("@ + quoted(s) + ")"@,
            LexFault::InvalidFloat(s) => "InvalidFloat("@ + quoted(s) + ")"@,
            LexFault::NonAsciiCharacter(c) => "NonAsciiCharacter("@ + quoted_char(c) + ")"@,
            LexFault::Other => "Other"@,
        }
    }
}

impl View for LexingError {
    type V = LexFault;

    open spec fn view(&self) -> LexFault {
        match *self {
            LexingError::InvalidInteger(s) => LexFault::InvalidInteger(s@),
            LexingError::InvalidFloat(s) => LexFault::InvalidFloat(s@),
            LexingError::NonAsciiCharacter(c) => LexFault::NonAsciiCharacter(c),
            LexingError::Other => LexFault::Other,
        }
    }
}

impl Clone for LexingError {
    fn clone(&self) -> (res: Self)
        ensures
            res == *self,
    {
        match self {
            LexingError::InvalidInteger(s) => LexingError::InvalidInteger(s.clone()),
            LexingError::InvalidFloat(s) => LexingError::InvalidFloat(s.clone()),
            LexingError::NonAsciiCharacter(c) => LexingError::NonAsciiCharacter(*c),
            LexingError::Other => LexingError::Other,
        }
    }
}

impl Default for LexingError {
    fn default() -> (res: Self)
        ensures
            res@ == LexFault::Other,
    {
        LexingError::Other
    }
}

impl LexingError {
    /// The message shown to the user.
    pub fn to_text(&self) -> (res: String)
        ensures
            res@ == self@.text(),
    {
        let mut s = String::new();
        match self {
            LexingError::InvalidInteger(t) => {
                s.append("Invalid integer: ");
                s.append(t.as_str());
            },
            LexingError::InvalidFloat(t) => {
                s.append("Invalid float: ");
                s.append(t.as_str());
            },
            LexingError::NonAsciiCharacter(c) => {
                s.append("Non-ASCII character: ");
                s.push(*c);
            },
            LexingError::Other => {
                s.append("Unknown lexing error");
            },
        }
        assert(s@ =~= self@.text());
        s
    }

    /// The name of the variant with its quoted payload.
    pub fn to_debug_text(&self) -> (res: String)
        ensures
            res@ == self@.debug_text(),
    {
        let mut s = String::new();
        match self {
            LexingError::InvalidInteger(t) => {
                s.append("InvalidInteger(");
                s.append(quote(t.as_str()).as_str());
                s.append(")");
            },
            LexingError::InvalidFloat(t) => {
                s.append("InvalidFloat(");
                s.append(quote(t.as_str()).as_str());
                s.append(")");
            },
            LexingError::NonAsciiCharacter(c) => {
                s.append("NonAsciiCharacter(");
                s.append(quote_char(*c).as_str());
                s.append(")");
            },
            LexingError::Other => {
                s.append("Other");
            },
        }
        assert(s@ =~= self@.debug_text());
        s
    }

    /// The error for an integer literal, told apart by whether it overflowed.
    pub fn from_integer(overflow: bool) -> (res: Self)
        ensures
            res@ == LexFault::InvalidInteger(
                if overflow {
                    "overflow error"@
                } else {
                    "other error"@
                },
            ),
    {
        if overflow {
            LexingError::InvalidInteger("overflow error".to_owned())
        } else {
            LexingError::InvalidInteger("other error".to_owned())
        }
    }

    /// The error for a number literal.
    pub fn from_float() -> (res: Self)
        ensures
            res@ == float_fault(),
    {
        LexingError::InvalidFloat("float parse error".to_owned())
    }
}

/// The error for a number literal that does not parse.
pub open spec fn float_fault() -> LexFault {
    LexFault::InvalidFloat("float parse error"@)
}

/// The tokens. The text of a literal or a name stands beside the token, in
/// its [`Lexeme`].
#[derive(Debug, Clone, Copy, PartialEq, Eq, Structural)]
pub enum Token {
    /// `mut`, which declares a mutable variable.
    MutableVar,
    /// `let`, which declares an immutable variable.
    ImmutableVar,
    Fn,
    Return,
    Continue,
    If,
    Else,
    Colon,
    Newline,
    Spawn,
    For,
    While,
    In,
    /// `..`
    Range,
    Dot,
    LBrace,
    RBrace,
    LParen,
    RParen,
    LBracket,
    RBracket,
    Comma,
    Plus,
    Minus,
    Mul,
    Div,
    Eq,
    Ne,
    Lt,
    Le,
    Gt,
    Ge,
    Not,
    Bool(bool),
    /// A number literal.
    Number,
    /// Text between double quotes.
    String,
    /// Text between backquotes.
    Template,
    Identifier,
    /// From `//` to the end of the line.
    LineComment,
}

/// A token, or what stands where none fits, with its place in the source.
#[derive(Debug)]
pub struct Lexeme {
    pub token: Result<Token, LexingError>,
    /// The source text of the token; of a string or a template, what stands
    /// between the quotes.
    pub text: String,
    /// The first byte.
    pub start: usize,
    /// The byte after the last.
    pub end: usize,
}

/// A lexeme with its texts as character sequences.
pub struct LexemeView {
    pub token: Result<Token, LexFault>,
    pub text: Seq<char>,
    pub start: nat,
    pub end: nat,
}

impl View for Lexeme {
    type V = LexemeView;

    open spec fn view(&self) -> LexemeView {
        LexemeView {
            token: match self.token {
                Ok(t) => Ok(t),
                Err(e) => Err(e@),
            },
            text: self.text@,
            start: self.start as nat,
            end: self.end as nat,
        }
    }
}

/// The views of a sequence of lexemes.
pub open spec fn lexeme_views(v: Seq<Lexeme>) -> Seq<LexemeView> {
    v.map_values(|l: Lexeme| l@)
}

/// The zeros of the scripts that have decimal digits. The other nine digits
/// follow each.
pub const DECIMAL_ZEROS: [u32; 76] = [
    0x30, 0x660, 0x6f0, 0x7c0, 0x966, 0x9e6, 0xa66, 0xae6,
    0xb66, 0xbe6, 0xc66, 0xce6, 0xd66, 0xde6, 0xe50, 0xed0,
    0xf20, 0x1040, 0x1090, 0x17e0, 0x1810, 0x1946, 0x19d0, 0x1a80,
    0x1a90, 0x1b50, 0x1bb0, 0x1c40, 0x1c50, 0xa620, 0xa8d0, 0xa900,
    0xa9d0, 0xa9f0, 0xaa50, 0xabf0, 0xff10, 0x104a0, 0x10d30, 0x10d40,
    0x11066, 0x110f0, 0x11136, 0x111d0, 0x112f0, 0x11450, 0x114d0, 0x11650,
    0x116c0, 0x116d0, 0x116da, 0x11730, 0x118e0, 0x11950, 0x11bf0, 0x11c50,
    0x11d50, 0x11da0, 0x11f50, 0x16130, 0x16a60, 0x16ac0, 0x16b50, 0x16d70,
    0x1ccf0, 0x1d7ce, 0x1d7d8, 0x1d7e2, 0x1d7ec, 0x1d7f6, 0x1e140, 0x1e2f0,
    0x1e4f0, 0x1e5f1, 0x1e950, 0x1fbf0,
];

/// A decimal digit of any script.
#[verifier::opaque]
pub open spec fn is_decimal(c: char) -> bool {
    exists|k: int|
        0 <= k < 76 && #[trigger] DECIMAL_ZEROS@[k] <= c as u32 && c as u32 <= DECIMAL_ZEROS@[k] + 9
}

fn decimal_digit(c: char) -> (res: bool)
    ensures
        res == is_decimal(c),
{
    reveal(is_decimal);
    let u: u32 = c as u32;
    let mut k: usize = 0;
    while k < 76
        invariant
            k <= 76,
            u == c as u32,
            forall|j: int|
                0 <= j < k ==> !(#[trigger] DECIMAL_ZEROS@[j] <= u && u <= DECIMAL_ZEROS@[j] + 9),
        decreases 76 - k,
    {
        let zero: u32 = DECIMAL_ZEROS[k];
        if zero <= u && u - zero <= 9 {
            assert(is_decimal(c)) by {
                reveal(is_decimal);
                assert(DECIMAL_ZEROS@[k as int] == zero);
            }
            return true;
        }
        k = k + 1;
    }
    false
}

/// Among the ASCII characters only the ten digits are decimal.
pub proof fn lemma_ascii_decimal(c: char)
    ensures
        (c as u32) < 0x80 ==> (is_decimal(c) <==> is_ascii_digit(c)),
        is_ascii_digit(c) ==> is_decimal(c),
{
    reveal(is_decimal);
    assert(DECIMAL_ZEROS@[0] == 0x30);
    assert forall|k: int| 1 <= k < 76 implies #[trigger] DECIMAL_ZEROS@[k] >= 0x660 by {
    }
}

pub open spec fn is_ascii_digit(c: char) -> bool {
    '0' <= c <= '9'
}

pub open spec fn is_hex_digit(c: char) -> bool {
    is_ascii_digit(c) || 'a' <= c <= 'f' || 'A' <= c <= 'F'
}

pub open spec fn is_letter(c: char) -> bool {
    'a' <= c <= 'z' || 'A' <= c <= 'Z' || c == '_'
}

/// Classes of characters that are taken as long as they last.
#[derive(Clone, Copy, PartialEq, Eq, Structural)]
pub enum CharClass {
    /// Blank, tab, form feed.
    Blank,
    /// Letters, digits and underscores.
    Word,
    /// Decimal digits of any script.
    Digit,
    /// Anything but a line break.
    Line,
    /// Anything but a backquote.
    Template,
}

pub open spec fn in_class(c: char, k: CharClass) -> bool {
    match k {
        CharClass::Blank => c == ' ' || c == '\t' || c == '\x0C',
        CharClass::Word => is_letter(c) || is_ascii_digit(c),
        CharClass::Digit => is_decimal(c),
        CharClass::Line => c != '\n',
        CharClass::Template => c != '`',
    }
}

/// The first index from `i` on whose character is not in the class.
pub open spec fn class_end(s: Seq<char>, i: int, k: CharClass) -> int
    decreases s.len() - i,
{
    if i < s.len() && in_class(s[i], k) {
        class_end(s, i + 1, k)
    } else {
        i
    }
}

pub proof fn lemma_class_end(s: Seq<char>, i: int, k: CharClass)
    ensures
        class_end(s, i, k) >= i,
        i <= s.len() ==> class_end(s, i, k) <= s.len(),
    decreases s.len() - i,
{
    if i < s.len() && in_class(s[i], k) {
        lemma_class_end(s, i + 1, k);
    }
}

fn member(c: char, k: CharClass) -> (res: bool)
    ensures
        res == in_class(c, k),
{
    match k {
        CharClass::Blank => c == ' ' || c == '\t' || c == '\x0C',
        CharClass::Word => letter(c) || ascii_digit(c),
        CharClass::Digit => decimal_digit(c),
        CharClass::Line => c != '\n',
        CharClass::Template => c != '`',
    }
}

fn ascii_digit(c: char) -> (res: bool)
    ensures
        res == is_ascii_digit(c),
{
    '0' <= c && c <= '9'
}

fn hex_digit(c: char) -> (res: bool)
    ensures
        res == is_hex_digit(c),
{
    ascii_digit(c) || ('a' <= c && c <= 'f') || ('A' <= c && c <= 'F')
}

fn letter(c: char) -> (res: bool)
    ensures
        res == is_letter(c),
{
    ('a' <= c && c <= 'z') || ('A' <= c && c <= 'Z') || c == '_'
}

fn run_end(s: &Vec<char>, from: usize, k: CharClass) -> (res: usize)
    requires
        from <= s@.len(),
    ensures
        res == class_end(s@, from as int, k),
        from <= res <= s@.len(),
{
    let mut i: usize = from;
    while i < s.len() && member(s[i], k)
        invariant
            from <= i <= s@.len(),
            class_end(s@, i as int, k) == class_end(s@, from as int, k),
        decreases s@.len() - i,
    {
        i = i + 1;
    }
    i
}

/// The end of a block comment whose opening has been read, where it has one. A
/// star takes the character after it along, unless that closes the comment.
pub open spec fn comment_end(s: Seq<char>, i: int) -> Option<int>
    decreases s.len() - i,
{
    if i >= s.len() {
        None
    } else if s[i] != '*' {
        comment_end(s, i + 1)
    } else if i + 1 >= s.len() {
        None
    } else if s[i + 1] == '/' {
        Some(i + 2)
    } else {
        comment_end(s, i + 2)
    }
}

fn find_comment_end(s: &Vec<char>, from: usize) -> (res: Option<usize>)
    requires
        from <= s@.len(),
    ensures
        match res {
            Some(e) => comment_end(s@, from as int) == Some(e as int) && from < e <= s@.len(),
            None => comment_end(s@, from as int) is None,
        },
{
    let mut i: usize = from;
    while i < s.len()
        invariant
            from <= i <= s@.len(),
            comment_end(s@, i as int) == comment_end(s@, from as int),
        decreases s@.len() - i,
    {
        if s[i] != '*' {
            i = i + 1;
        } else if s.len() - i < 2 {
            return None;
        } else if s[i + 1] == '/' {
            return Some(i + 2);
        } else {
            i = i + 2;
        }
    }
    None
}

/// How many of the four characters from `i` on are hexadecimal digits, counted
/// up to the first that is none.
pub open spec fn hex_run(s: Seq<char>, i: int) -> int {
    if i >= s.len() || !is_hex_digit(s[i]) {
        0
    } else if i + 1 >= s.len() || !is_hex_digit(s[i + 1]) {
        1
    } else if i + 2 >= s.len() || !is_hex_digit(s[i + 2]) {
        2
    } else if i + 3 >= s.len() || !is_hex_digit(s[i + 3]) {
        3
    } else {
        4
    }
}

fn count_hex(s: &Vec<char>, i: usize) -> (res: usize)
    requires
        i <= s@.len(),
    ensures
        res == hex_run(s@, i as int),
        i + res <= s@.len(),
        res <= 4,
{
    let n: usize = s.len() - i;
    if n < 1 || !hex_digit(s[i]) {
        0
    } else if n < 2 || !hex_digit(s[i + 1]) {
        1
    } else if n < 3 || !hex_digit(s[i + 2]) {
        2
    } else if n < 4 || !hex_digit(s[i + 3]) {
        3
    } else {
        4
    }
}

/// A character that may follow a backslash in a string.
pub open spec fn is_escape(c: char) -> bool {
    c == '"' || c == '\\' || c == 'b' || c == 'n' || c == 'f' || c == 'r' || c == 't' || c == '/'
}

/// The end of a string whose opening quote has been read: whether it is closed,
/// and the index after the quote, or else that of the character that does not
/// fit.
pub open spec fn string_end(s: Seq<char>, i: int) -> (bool, int)
    decreases s.len() - i,
{
    if i >= s.len() {
        (false, i)
    } else if s[i] == '"' {
        (true, i + 1)
    } else if s[i] == '\\' {
        if i + 1 >= s.len() {
            (false, i + 1)
        } else if is_escape(s[i + 1]) {
            string_end(s, i + 2)
        } else if s[i + 1] == 'u' {
            if hex_run(s, i + 2) == 4 {
                string_end(s, i + 6)
            } else {
                (false, i + 2 + hex_run(s, i + 2))
            }
        } else {
            (false, i + 1)
        }
    } else if (s[i] as u32) < 0x20 {
        (false, i)
    } else {
        string_end(s, i + 1)
    }
}

fn find_string_end(s: &Vec<char>, from: usize) -> (res: (bool, usize))
    requires
        from <= s@.len(),
    ensures
        string_end(s@, from as int) == (res.0, res.1 as int),
        from <= res.1 <= s@.len(),
        res.0 ==> from < res.1,
{
    let mut i: usize = from;
    while i < s.len()
        invariant
            from <= i <= s@.len(),
            string_end(s@, i as int) == string_end(s@, from as int),
        decreases s@.len() - i,
    {
        let c = s[i];
        if c == '"' {
            return (true, i + 1);
        }
        if c == '\\' {
            if s.len() - i < 2 {
                return (false, i + 1);
            }
            let d = s[i + 1];
            if d == '"' || d == '\\' || d == 'b' || d == 'n' || d == 'f' || d == 'r' || d == 't'
                || d == '/' {
                i = i + 2;
            } else if d == 'u' {
                let h: usize = count_hex(s, i + 2);
                if h == 4 {
                    i = i + 6;
                } else {
                    return (false, i + 2 + h);
                }
            } else {
                return (false, i + 1);
            }
        } else if (c as u32) < 0x20 {
            return (false, i);
        } else {
            i = i + 1;
        }
    }
    (false, i)
}

/// There is a decimal digit at the index.
pub open spec fn digit_at(s: Seq<char>, i: int) -> bool {
    0 <= i < s.len() && is_decimal(s[i])
}

/// The end of any number of digit groups, each led by an underscore.
pub open spec fn groups_end(s: Seq<char>, i: int) -> int
    decreases s.len() - i,
{
    if 0 <= i < s.len() && s[i] == '_' && digit_at(s, i + 1) {
        proof {
            lemma_class_end(s, i + 1, CharClass::Digit);
        }
        groups_end(s, class_end(s, i + 1, CharClass::Digit))
    } else {
        i
    }
}

/// The end of the fraction that starts at the index, or the index itself.
pub open spec fn fraction_end(s: Seq<char>, i: int) -> int {
    if 0 <= i < s.len() && s[i] == '.' && digit_at(s, i + 1) {
        groups_end(s, class_end(s, i + 1, CharClass::Digit))
    } else {
        i
    }
}

/// The end of the exponent that starts at the index, or the index itself.
pub open spec fn exponent_end(s: Seq<char>, i: int) -> int {
    if 0 <= i < s.len() && (s[i] == 'e' || s[i] == 'E') {
        let j = if i + 1 < s.len() && (s[i + 1] == '+' || s[i + 1] == '-') {
            i + 2
        } else {
            i + 1
        };
        if digit_at(s, j) {
            groups_end(s, class_end(s, j, CharClass::Digit))
        } else {
            i
        }
    } else {
        i
    }
}

/// The end of the number whose first digit stands at the index. A leading
/// zero is an integer part of its own.
pub open spec fn number_end(s: Seq<char>, i: int) -> int {
    let whole = if s[i] == '0' {
        i + 1
    } else {
        class_end(s, i + 1, CharClass::Digit)
    };
    exponent_end(s, fraction_end(s, groups_end(s, whole)))
}

fn digit_here(s: &Vec<char>, i: usize) -> (res: bool)
    ensures
        res == digit_at(s@, i as int),
{
    i < s.len() && decimal_digit(s[i])
}

fn skip_groups(s: &Vec<char>, from: usize) -> (res: usize)
    requires
        from <= s@.len(),
    ensures
        res == groups_end(s@, from as int),
        from <= res <= s@.len(),
{
    let mut i: usize = from;
    while i < s.len() && s[i] == '_' && digit_here(s, i + 1)
        invariant
            from <= i <= s@.len(),
            groups_end(s@, i as int) == groups_end(s@, from as int),
        decreases s@.len() - i,
    {
        i = run_end(s, i + 1, CharClass::Digit);
    }
    i
}

fn find_number_end(s: &Vec<char>, i: usize) -> (res: usize)
    requires
        i < s@.len(),
    ensures
        res == number_end(s@, i as int),
        i < res <= s@.len(),
{
    let n: usize = s.len();
    let whole: usize = if s[i] == '0' {
        i + 1
    } else {
        run_end(s, i + 1, CharClass::Digit)
    };
    let g: usize = skip_groups(s, whole);
    let f: usize = if g < n && s[g] == '.' && digit_here(s, g + 1) {
        let d: usize = run_end(s, g + 1, CharClass::Digit);
        skip_groups(s, d)
    } else {
        g
    };
    if f < n && (s[f] == 'e' || s[f] == 'E') {
        let j: usize = if n - f >= 2 && (s[f + 1] == '+' || s[f + 1] == '-') {
            f + 2
        } else {
            f + 1
        };
        if digit_here(s, j) {
            let d: usize = run_end(s, j, CharClass::Digit);
            skip_groups(s, d)
        } else {
            f
        }
    } else {
        f
    }
}

/// All the characters are ASCII.
pub open spec fn all_ascii(s: Seq<char>) -> bool {
    forall|k: int| 0 <= k < s.len() ==> (#[trigger] s[k] as u32) < 0x80
}

/// The token that a word is: a keyword, a truth value or a name.
pub open spec fn word_token(w: Seq<char>) -> Token {
    if w == "mut"@ {
        Token::MutableVar
    } else if w == "let"@ {
        Token::ImmutableVar
    } else if w == "fn"@ {
        Token::Fn
    } else if w == "return"@ {
        Token::Return
    } else if w == "continue"@ {
        Token::Continue
    } else if w == "if"@ {
        Token::If
    } else if w == "else"@ {
        Token::Else
    } else if w == "spawn"@ {
        Token::Spawn
    } else if w == "for"@ {
        Token::For
    } else if w == "while"@ {
        Token::While
    } else if w == "in"@ {
        Token::In
    } else if w == "true"@ {
        Token::Bool(true)
    } else if w == "false"@ {
        Token::Bool(false)
    } else {
        Token::Identifier
    }
}

fn classify_word(w: &str) -> (res: Token)
    ensures
        res == word_token(w@),
{
    if same_text(w, "mut") {
        Token::MutableVar
    } else if same_text(w, "let") {
        Token::ImmutableVar
    } else if same_text(w, "fn") {
        Token::Fn
    } else if same_text(w, "return") {
        Token::Return
    } else if same_text(w, "continue") {
        Token::Continue
    } else if same_text(w, "if") {
        Token::If
    } else if same_text(w, "else") {
        Token::Else
    } else if same_text(w, "spawn") {
        Token::Spawn
    } else if same_text(w, "for") {
        Token::For
    } else if same_text(w, "while") {
        Token::While
    } else if same_text(w, "in") {
        Token::In
    } else if same_text(w, "true") {
        Token::Bool(true)
    } else if same_text(w, "false") {
        Token::Bool(false)
    } else {
        Token::Identifier
    }
}

/// What starts at a place in the source, and where it ends.
pub enum Scan {
    Skip { end: int },
    Token { token: Token, end: int },
    Bad { fault: LexFault, end: int },
}

pub open spec fn scan_end(r: Scan) -> int {
    match r {
        Scan::Skip { end } => end,
        Scan::Token { end, .. } => end,
        Scan::Bad { end, .. } => end,
    }
}

/// A token of one character, or of two where the second follows.
pub open spec fn one_or_two(s: Seq<char>, i: int, next: char, two: Token, one: Token) -> Scan {
    if i + 1 < s.len() && s[i + 1] == next {
        Scan::Token { token: two, end: i + 2 }
    } else {
        Scan::Token { token: one, end: i + 1 }
    }
}

/// A number, or the error that its digits are not those that parse.
pub open spec fn scan_number(s: Seq<char>, i: int, first_digit: int) -> Scan {
    let end = number_end(s, first_digit);
    if all_ascii(s.subrange(i, end)) {
        Scan::Token { token: Token::Number, end }
    } else {
        Scan::Bad { fault: float_fault(), end }
    }
}

/// What starts at index `i`, taken as long as possible.
pub open spec fn scan(s: Seq<char>, i: int) -> Scan
    recommends
        0 <= i < s.len(),
{
    let c = s[i];
    if in_class(c, CharClass::Blank) {
        Scan::Skip { end: class_end(s, i, CharClass::Blank) }
    } else if c == '\n' {
        Scan::Token { token: Token::Newline, end: i + 1 }
    } else if is_letter(c) {
        let end = class_end(s, i, CharClass::Word);
        Scan::Token { token: word_token(s.subrange(i, end)), end }
    } else if is_ascii_digit(c) {
        scan_number(s, i, i)
    } else if c == '-' {
        if i + 1 < s.len() && is_ascii_digit(s[i + 1]) {
            scan_number(s, i, i + 1)
        } else {
            Scan::Token { token: Token::Minus, end: i + 1 }
        }
    } else if c == '"' {
        let (closed, end) = string_end(s, i + 1);
        if closed {
            Scan::Token { token: Token::String, end }
        } else {
            Scan::Bad { fault: LexFault::NonAsciiCharacter(c), end }
        }
    } else if c == '`' {
        let end = class_end(s, i + 1, CharClass::Template);
        if end < s.len() {
            Scan::Token { token: Token::Template, end: end + 1 }
        } else {
            Scan::Bad { fault: LexFault::NonAsciiCharacter(c), end }
        }
    } else if c == '/' {
        if i + 1 < s.len() && s[i + 1] == '/' {
            Scan::Token { token: Token::LineComment, end: class_end(s, i + 2, CharClass::Line) }
        } else if i + 1 < s.len() && s[i + 1] == '*' && comment_end(s, i + 2) is Some {
            Scan::Skip { end: comment_end(s, i + 2)->0 }
        } else {
            Scan::Token { token: Token::Div, end: i + 1 }
        }
    } else if c == '=' {
        if i + 1 < s.len() && s[i + 1] == '=' {
            Scan::Token { token: Token::Eq, end: i + 2 }
        } else {
            Scan::Bad { fault: LexFault::NonAsciiCharacter(c), end: i + 1 }
        }
    } else if c == '!' {
        one_or_two(s, i, '=', Token::Ne, Token::Not)
    } else if c == '<' {
        one_or_two(s, i, '=', Token::Le, Token::Lt)
    } else if c == '>' {
        one_or_two(s, i, '=', Token::Ge, Token::Gt)
    } else if c == '.' {
        one_or_two(s, i, '.', Token::Range, Token::Dot)
    } else if c == ':' {
        Scan::Token { token: Token::Colon, end: i + 1 }
    } else if c == ',' {
        Scan::Token { token: Token::Comma, end: i + 1 }
    } else if c == '{' {
        Scan::Token { token: Token::LBrace, end: i + 1 }
    } else if c == '}' {
        Scan::Token { token: Token::RBrace, end: i + 1 }
    } else if c == '(' {
        Scan::Token { token: Token::LParen, end: i + 1 }
    } else if c == ')' {
        Scan::Token { token: Token::RParen, end: i + 1 }
    } else if c == '[' {
        Scan::Token { token: Token::LBracket, end: i + 1 }
    } else if c == ']' {
        Scan::Token { token: Token::RBracket, end: i + 1 }
    } else if c == '+' {
        Scan::Token { token: Token::Plus, end: i + 1 }
    } else if c == '*' {
        Scan::Token { token: Token::Mul, end: i + 1 }
    } else {
        Scan::Bad { fault: LexFault::NonAsciiCharacter(c), end: i + 1 }
    }
}

pub proof fn lemma_groups_end(s: Seq<char>, i: int)
    ensures
        groups_end(s, i) >= i,
        i <= s.len() ==> groups_end(s, i) <= s.len(),
    decreases s.len() - i,
{
    if 0 <= i < s.len() && s[i] == '_' && digit_at(s, i + 1) {
        lemma_class_end(s, i + 1, CharClass::Digit);
        lemma_groups_end(s, class_end(s, i + 1, CharClass::Digit));
    }
}

pub proof fn lemma_number_end(s: Seq<char>, i: int)
    requires
        0 <= i < s.len(),
    ensures
        i < number_end(s, i) <= s.len(),
{
    lemma_class_end(s, i + 1, CharClass::Digit);
    let whole = if s[i] == '0' {
        i + 1
    } else {
        class_end(s, i + 1, CharClass::Digit)
    };
    lemma_groups_end(s, whole);
    let g = groups_end(s, whole);
    lemma_class_end(s, g + 1, CharClass::Digit);
    lemma_groups_end(s, class_end(s, g + 1, CharClass::Digit));
    let f = fraction_end(s, g);
    lemma_class_end(s, f + 1, CharClass::Digit);
    lemma_class_end(s, f + 2, CharClass::Digit);
    lemma_groups_end(s, class_end(s, f + 1, CharClass::Digit));
    lemma_groups_end(s, class_end(s, f + 2, CharClass::Digit));
}

pub proof fn lemma_string_end(s: Seq<char>, i: int)
    requires
        0 <= i <= s.len(),
    ensures
        i <= string_end(s, i).1 <= s.len(),
    decreases s.len() - i,
{
    if i < s.len() && s[i] != '"' {
        if s[i] == '\\' {
            if i + 1 < s.len() {
                if is_escape(s[i + 1]) {
                    lemma_string_end(s, i + 2);
                } else if s[i + 1] == 'u' && hex_run(s, i + 2) == 4 {
                    lemma_string_end(s, i + 6);
                }
            }
        } else if (s[i] as u32) >= 0x20 {
            lemma_string_end(s, i + 1);
        }
    }
}

proof fn lemma_comment_end(s: Seq<char>, i: int)
    requires
        0 <= i <= s.len(),
    ensures
        comment_end(s, i) matches Some(e) ==> i < e <= s.len(),
    decreases s.len() - i,
{
    if i < s.len() {
        if s[i] != '*' {
            lemma_comment_end(s, i + 1);
        } else if i + 1 < s.len() && s[i + 1] != '/' {
            lemma_comment_end(s, i + 2);
        }
    }
}

/// Scanning moves on and stays within the source.
pub proof fn lemma_scan_end(s: Seq<char>, i: int)
    requires
        0 <= i < s.len(),
    ensures
        i < scan_end(scan(s, i)) <= s.len(),
{
    let c = s[i];
    lemma_class_end(s, i, CharClass::Blank);
    lemma_class_end(s, i + 1, CharClass::Blank);
    lemma_class_end(s, i, CharClass::Word);
    lemma_class_end(s, i + 1, CharClass::Word);
    lemma_class_end(s, i + 1, CharClass::Template);
    lemma_number_end(s, i);
    lemma_string_end(s, i + 1);
    if i + 1 < s.len() {
        lemma_number_end(s, i + 1);
        lemma_class_end(s, i + 2, CharClass::Line);
        lemma_comment_end(s, i + 2);
    }
}

/// The text that goes with a token: of a string or a template what stands
/// between the quotes, otherwise all of it.
pub open spec fn token_text(s: Seq<char>, i: int, end: int, token: Result<Token, LexFault>) -> Seq<
    char,
> {
    if token == Ok::<Token, LexFault>(Token::String) || token == Ok::<Token, LexFault>(
        Token::Template,
    ) {
        s.subrange(i + 1, end - 1)
    } else {
        s.subrange(i, end)
    }
}

/// The lexemes of the source from index `i` on.
pub open spec fn lex_from(s: Seq<char>, i: int) -> Seq<LexemeView>
    decreases s.len() - i,
{
    if i < 0 || i >= s.len() {
        Seq::empty()
    } else {
        proof {
            lemma_scan_end(s, i);
        }
        match scan(s, i) {
            Scan::Skip { end } => lex_from(s, end),
            Scan::Token { token, end } => seq![
                LexemeView {
                    token: Ok(token),
                    text: token_text(s, i, end, Ok(token)),
                    start: byte_pos(s, i),
                    end: byte_pos(s, end),
                },
            ] + lex_from(s, end),
            Scan::Bad { fault, end } => seq![
                LexemeView {
                    token: Err(fault),
                    text: token_text(s, i, end, Err(fault)),
                    start: byte_pos(s, i),
                    end: byte_pos(s, end),
                },
            ] + lex_from(s, end),
        }
    }
}

/// The lexemes of a source text.
pub open spec fn lexed(source: Seq<char>) -> Seq<LexemeView> {
    lex_from(source, 0)
}

enum Found {
    Skip(usize),
    Token(Token, usize),
    Bad(LexingError, usize),
}

spec fn found_view(f: Found) -> Scan {
    match f {
        Found::Skip(end) => Scan::Skip { end: end as int },
        Found::Token(token, end) => Scan::Token { token, end: end as int },
        Found::Bad(e, end) => Scan::Bad { fault: e@, end: end as int },
    }
}

fn is_ascii_range(s: &Vec<char>, from: usize, to: usize) -> (res: bool)
    requires
        from <= to <= s@.len(),
    ensures
        res == all_ascii(s@.subrange(from as int, to as int)),
{
    let mut i: usize = from;
    while i < to
        invariant
            from <= i <= to <= s@.len(),
            forall|k: int| from <= k < i ==> (#[trigger] s@[k] as u32) < 0x80,
        decreases to - i,
    {
        if (s[i] as u32) >= 0x80 {
            assert(s@.subrange(from as int, to as int)[i - from] == s@[i as int]);
            return false;
        }
        i = i + 1;
    }
    assert forall|k: int| 0 <= k < to - from implies (#[trigger] s@.subrange(
        from as int,
        to as int,
    )[k] as u32) < 0x80 by {
        assert(s@.subrange(from as int, to as int)[k] == s@[from + k]);
    }
    true
}

fn find_number(s: &Vec<char>, i: usize, first_digit: usize) -> (res: Found)
    requires
        i <= first_digit < s@.len(),
    ensures
        found_view(res) == scan_number(s@, i as int, first_digit as int),
{
    let end: usize = find_number_end(s, first_digit);
    if is_ascii_range(s, i, end) {
        Found::Token(Token::Number, end)
    } else {
        Found::Bad(LexingError::from_float(), end)
    }
}

fn pick(s: &Vec<char>, i: usize, next: char, two: Token, one: Token) -> (res: Found)
    requires
        i < s@.len(),
    ensures
        found_view(res) == one_or_two(s@, i as int, next, two, one),
{
    if s.len() - i >= 2 && s[i + 1] == next {
        Found::Token(two, i + 2)
    } else {
        Found::Token(one, i + 1)
    }
}

fn find(s: &Vec<char>, i: usize) -> (res: Found)
    requires
        i < s@.len(),
    ensures
        found_view(res) == scan(s@, i as int),
{
    let n: usize = s.len();
    let c = s[i];
    if member(c, CharClass::Blank) {
        Found::Skip(run_end(s, i, CharClass::Blank))
    } else if c == '\n' {
        Found::Token(Token::Newline, i + 1)
    } else if letter(c) {
        let end: usize = run_end(s, i, CharClass::Word);
        let w = slice_of(s, i, end);
        Found::Token(classify_word(w.as_str()), end)
    } else if ascii_digit(c) {
        find_number(s, i, i)
    } else if c == '-' {
        if n - i >= 2 && ascii_digit(s[i + 1]) {
            find_number(s, i, i + 1)
        } else {
            Found::Token(Token::Minus, i + 1)
        }
    } else if c == '"' {
        let (closed, end) = find_string_end(s, i + 1);
        if closed {
            Found::Token(Token::String, end)
        } else {
            Found::Bad(LexingError::NonAsciiCharacter(c), end)
        }
    } else if c == '`' {
        let end: usize = run_end(s, i + 1, CharClass::Template);
        if end < n {
            Found::Token(Token::Template, end + 1)
        } else {
            Found::Bad(LexingError::NonAsciiCharacter(c), end)
        }
    } else if c == '/' {
        if n - i >= 2 && s[i + 1] == '/' {
            Found::Token(Token::LineComment, run_end(s, i + 2, CharClass::Line))
        } else if n - i >= 2 && s[i + 1] == '*' {
            match find_comment_end(s, i + 2) {
                Some(end) => Found::Skip(end),
                None => Found::Token(Token::Div, i + 1),
            }
        } else {
            Found::Token(Token::Div, i + 1)
        }
    } else if c == '=' {
        if n - i >= 2 && s[i + 1] == '=' {
            Found::Token(Token::Eq, i + 2)
        } else {
            Found::Bad(LexingError::NonAsciiCharacter(c), i + 1)
        }
    } else if c == '!' {
        pick(s, i, '=', Token::Ne, Token::Not)
    } else if c == '<' {
        pick(s, i, '=', Token::Le, Token::Lt)
    } else if c == '>' {
        pick(s, i, '=', Token::Ge, Token::Gt)
    } else if c == '.' {
        pick(s, i, '.', Token::Range, Token::Dot)
    } else if c == ':' {
        Found::Token(Token::Colon, i + 1)
    } else if c == ',' {
        Found::Token(Token::Comma, i + 1)
    } else if c == '{' {
        Found::Token(Token::LBrace, i + 1)
    } else if c == '}' {
        Found::Token(Token::RBrace, i + 1)
    } else if c == '(' {
        Found::Token(Token::LParen, i + 1)
    } else if c == ')' {
        Found::Token(Token::RParen, i + 1)
    } else if c == '[' {
        Found::Token(Token::LBracket, i + 1)
    } else if c == ']' {
        Found::Token(Token::RBracket, i + 1)
    } else if c == '+' {
        Found::Token(Token::Plus, i + 1)
    } else if c == '*' {
        Found::Token(Token::Mul, i + 1)
    } else {
        Found::Bad(LexingError::NonAsciiCharacter(c), i + 1)
    }
}

/// The byte position of `to`, given that of an earlier index.
fn bytes_to(s: &Vec<char>, from: usize, pos: usize, to: usize) -> (res: usize)
    requires
        from <= to <= s@.len(),
        pos == byte_pos(s@, from as int),
        byte_pos(s@, s@.len() as int) <= usize::MAX,
    ensures
        res == byte_pos(s@, to as int),
{
    let mut i: usize = from;
    let mut p: usize = pos;
    while i < to
        invariant
            from <= i <= to <= s@.len(),
            p == byte_pos(s@, i as int),
            byte_pos(s@, s@.len() as int) <= usize::MAX,
        decreases to - i,
    {
        proof {
            lemma_byte_pos_step(s@, i as int);
            lemma_byte_pos_order(s@, i + 1, s@.len() as int);
        }
        p = p + width_of(s[i]);
        i = i + 1;
    }
    p
}

/// Splits a source text into its lexemes.
pub fn lex(source: &str) -> (res: Vec<Lexeme>)
    ensures
        lexeme_views(res@) == lexed(source@),
{
    let s = chars_of(source);
    let total: usize = source.as_bytes().len();
    let mut out: Vec<Lexeme> = Vec::new();
    let mut i: usize = 0;
    let mut pos: usize = 0;
    proof {
        lemma_byte_pos_order(s@, 0, s@.len() as int);
        assert(s@.take(0) == Seq::<char>::empty());
        assert(lexeme_views(out@) + lex_from(s@, 0) == lex_from(s@, 0));
    }
    while i < s.len()
        invariant
            i <= s@.len(),
            pos == byte_pos(s@, i as int),
            byte_pos(s@, s@.len() as int) <= usize::MAX,
            lexeme_views(out@) + lex_from(s@, i as int) == lex_from(s@, 0),
        decreases s@.len() - i,
    {
        let found = find(&s, i);
        proof {
            lemma_scan_end(s@, i as int);
        }
        let ghost before = lexeme_views(out@);
        match found {
            Found::Skip(end) => {
                pos = bytes_to(&s, i, pos, end);
                i = end;
            },
            Found::Token(token, end) => {
                let after: usize = bytes_to(&s, i, pos, end);
                let inner = token == Token::String || token == Token::Template;
                proof {
                    if inner {
                        lemma_quoted_end(s@, i as int);
                    }
                }
                let text = if inner {
                    slice_of(&s, i + 1, end - 1)
                } else {
                    slice_of(&s, i, end)
                };
                out.push(Lexeme { token: Ok(token), text, start: pos, end: after });
                assert(lexeme_views(out@) == before.push(out@.last()@));
                assert(lexeme_views(out@) + lex_from(s@, end as int) =~= before + lex_from(
                    s@,
                    i as int,
                ));
                pos = after;
                i = end;
            },
            Found::Bad(e, end) => {
                let after: usize = bytes_to(&s, i, pos, end);
                let text = slice_of(&s, i, end);
                out.push(Lexeme { token: Err(e), text, start: pos, end: after });
                assert(lexeme_views(out@) == before.push(out@.last()@));
                assert(lexeme_views(out@) + lex_from(s@, end as int) =~= before + lex_from(
                    s@,
                    i as int,
                ));
                pos = after;
                i = end;
            },
        }
    }
    assert(lexeme_views(out@) + Seq::<LexemeView>::empty() == lexeme_views(out@));
    out
}

/// A string or a template takes at least its two quotes.
proof fn lemma_quoted_end(s: Seq<char>, i: int)
    requires
        0 <= i < s.len(),
        scan(s, i) matches Scan::Token { token, .. } && (token == Token::String || token
            == Token::Template),
    ensures
        i + 2 <= scan_end(scan(s, i)) <= s.len(),
{
    lemma_scan_end(s, i);
    lemma_class_end(s, i + 1, CharClass::Template);
    lemma_string_closed(s, i + 1);
}

proof fn lemma_string_closed(s: Seq<char>, i: int)
    requires
        0 <= i <= s.len(),
    ensures
        string_end(s, i).0 ==> i < string_end(s, i).1,
    decreases s.len() - i,
{
    if i < s.len() && s[i] != '"' {
        if s[i] == '\\' {
            if i + 1 < s.len() {
                if is_escape(s[i + 1]) {
                    lemma_string_closed(s, i + 2);
                } else if s[i + 1] == 'u' && hex_run(s, i + 2) == 4 {
                    lemma_string_closed(s, i + 6);
                }
            }
        } else if (s[i] as u32) >= 0x20 {
            lemma_string_closed(s, i + 1);
        }
    }
}

/// A text without its underscores.
pub open spec fn without_underscores(s: Seq<char>) -> Seq<char>
    decreases s.len(),
{
    if s.len() == 0 {
        s
    } else if s.last() == '_' {
        without_underscores(s.drop_last())
    } else {
        without_underscores(s.drop_last()).push(s.last())
    }
}

fn strip_underscores(t: &str) -> (res: String)
    ensures
        res@ == without_underscores(t@),
{
    let s = chars_of(t);
    let mut res = String::new();
    let mut i: usize = 0;
    while i < s.len()
        invariant
            i <= s@.len(),
            res@ == without_underscores(s@.take(i as int)),
        decreases s@.len() - i,
    {
        assert(s@.take(i + 1).drop_last() == s@.take(i as int));
        if s[i] != '_' {
            res.push(s[i]);
        }
        i = i + 1;
    }
    assert(s@.take(s@.len() as int) == s@);
    res
}

/// The number literals among the lexemes, in order and without underscores.
pub open spec fn literal_texts(ls: Seq<LexemeView>) -> Seq<Seq<char>>
    decreases ls.len(),
{
    if ls.len() == 0 {
        Seq::empty()
    } else if ls.last().token == Ok::<Token, LexFault>(Token::Number) {
        literal_texts(ls.drop_last()).push(without_underscores(ls.last().text))
    } else {
        literal_texts(ls.drop_last())
    }
}

/// The number literals of a source text, in order and without underscores:
/// the texts whose numeric values the compiler has to be given.
pub fn number_literals(source: &str) -> (res: Vec<String>)
    ensures
        res@.map_values(|t: String| t@) == literal_texts(lexed(source@)),
{
    let ls = lex(source);
    let ghost views = lexeme_views(ls@);
    let mut res: Vec<String> = Vec::new();
    let mut i: usize = 0;
    assert(res@.map_values(|t: String| t@) =~= literal_texts(views.take(0)));
    while i < ls.len()
        invariant
            i <= ls@.len(),
            views == lexeme_views(ls@),
            res@.map_values(|t: String| t@) == literal_texts(views.take(i as int)),
        decreases ls@.len() - i,
    {
        let ghost before = res@.map_values(|t: String| t@);
        assert(views.take(i + 1).drop_last() == views.take(i as int));
        assert(views[i as int] == ls@[i as int]@);
        if let Ok(t) = ls[i].token {
            if t == Token::Number {
                let text = strip_underscores(ls[i].text.as_str());
                res.push(text);
                assert(res@.map_values(|t: String| t@) =~= before.push(text@));
            }
        }
        i = i + 1;
    }
    assert(views.take(views.len() as int) == views);
    res
}

/// The lexemes from an index on lie one after another behind that index.
proof fn lemma_in_order(s: Seq<char>, i: int)
    requires
        0 <= i <= s.len(),
    ensures
        forall|k: int|
            0 <= k < lex_from(s, i).len() ==> byte_pos(s, i) <= (#[trigger] lex_from(s, i)[k]).start
                < lex_from(s, i)[k].end <= byte_pos(s, s.len() as int),
        forall|j: int, k: int|
            0 <= j < k < lex_from(s, i).len() ==> (#[trigger] lex_from(s, i)[j]).end <= (
            #[trigger] lex_from(s, i)[k]).start,
    decreases s.len() - i,
{
    if i < s.len() {
        lemma_scan_end(s, i);
        let end = scan_end(scan(s, i));
        lemma_in_order(s, end);
        lemma_byte_pos_order(s, i, end);
        lemma_byte_pos_order(s, end, s.len() as int);
        let all = lex_from(s, i);
        let rest = lex_from(s, end);
        if !(scan(s, i) is Skip) {
            assert(all =~= seq![all[0]] + rest);
            assert forall|k: int| 1 <= k < all.len() implies #[trigger] all[k] == rest[k - 1] by {}
        }
    }
}

/// Lexemes are stretches of the source text, none of them empty, in their
/// order and without overlap.
pub proof fn law_lexemes_are_in_order(source: Seq<char>, j: int, k: int)
    requires
        0 <= j <= k < lexed(source).len(),
    ensures
        j < k ==> lexed(source)[j].end <= lexed(source)[k].start,
        lexed(source)[k].start < lexed(source)[k].end,
        lexed(source)[k].end <= encode_utf8(source).len(),
{
    lemma_in_order(source, 0);
    lemma_byte_pos_order(source, 0, source.len() as int);
}

} // verus!
