//! What is formatted, read again: which sources keep their tokens, and which
//! stay as they are when they are formatted once more.
use crate::error::Fault;
use crate::formatter::empty_layout;
use crate::formatter::formatted;
use crate::formatter::hugs_right;
use crate::formatter::is_operator;
use crate::formatter::laid_out;
use crate::formatter::lead;
use crate::formatter::place;
use crate::formatter::written;
use crate::formatter::Layout;
use crate::lexer::all_ascii;
use crate::lexer::class_end;
use crate::lexer::digit_at;
use crate::lexer::exponent_end;
use crate::lexer::fraction_end;
use crate::lexer::groups_end;
use crate::lexer::hex_run;
use crate::lexer::in_class;
use crate::lexer::is_ascii_digit;
use crate::lexer::is_decimal;
use crate::lexer::is_letter;
use crate::lexer::lemma_ascii_decimal;
use crate::lexer::lemma_class_end;
use crate::lexer::lemma_groups_end;
use crate::lexer::lemma_number_end;
use crate::lexer::lemma_scan_end;
use crate::lexer::lemma_string_end;
use crate::lexer::lex_from;
use crate::lexer::lexed;
use crate::lexer::number_end;
use crate::lexer::scan;
use crate::lexer::scan_number;
use crate::lexer::string_end;
use crate::lexer::token_text;
use crate::lexer::CharClass;
use crate::lexer::LexFault;
use crate::lexer::LexemeView;
use crate::lexer::Scan;
use crate::lexer::Token;
use vstd::prelude::*;

verus! {

/// The characters of one text from `i` to `e` stand in another from `j` on.
spec fn same_run(s: Seq<char>, i: int, e: int, b: Seq<char>, j: int) -> bool {
    &&& 0 <= i <= e <= s.len()
    &&& 0 <= j
    &&& j + (e - i) <= b.len()
    &&& forall|k: int| i <= k < e ==> #[trigger] s[k] == b[k - i + j]
}

/// A run without its front.
proof fn l_run_from(s: Seq<char>, i: int, e: int, b: Seq<char>, j: int, n: int)
    requires
        same_run(s, i, e, b, j),
        0 <= n <= e - i,
    ensures
        same_run(s, i + n, e, b, j + n),
{
}

proof fn l_class(s: Seq<char>, i: int, b: Seq<char>, j: int, k: CharClass)
    requires
        0 <= i <= s.len(),
        same_run(s, i, class_end(s, i, k), b, j),
        ({
            let q = j + (class_end(s, i, k) - i);
            q == b.len() || !in_class(b[q], k)
        }),
    ensures
        class_end(b, j, k) == j + (class_end(s, i, k) - i),
    decreases s.len() - i,
{
    lemma_class_end(s, i, k);
    if i < s.len() && in_class(s[i], k) {
        lemma_class_end(s, i + 1, k);
        assert(s[i] == b[i - i + j]);
        l_run_from(s, i, class_end(s, i, k), b, j, 1);
        l_class(s, i + 1, b, j + 1, k);
    }
}

/// Where a class of characters ends, it does not go on.
proof fn l_class_stops(s: Seq<char>, i: int, k: CharClass)
    requires
        0 <= i <= s.len(),
    ensures
        class_end(s, i, k) < s.len() ==> !in_class(s[class_end(s, i, k)], k),
        i < s.len() && in_class(s[i], k) ==> class_end(s, i, k) > i,
    decreases s.len() - i,
{
    if i < s.len() && in_class(s[i], k) {
        l_class_stops(s, i + 1, k);
        lemma_class_end(s, i + 1, k);
    }
}

proof fn l_string(s: Seq<char>, i: int, b: Seq<char>, j: int)
    requires
        0 <= i <= s.len(),
        string_end(s, i).0,
        same_run(s, i, string_end(s, i).1, b, j),
    ensures
        string_end(b, j) == (true, j + (string_end(s, i).1 - i)),
    decreases s.len() - i,
{
    lemma_string_end(s, i);
    let e = string_end(s, i).1;
    if s[i] == '"' {
        assert(s[i] == b[i - i + j]);
    } else if s[i] == '\\' {
        if s[i + 1] == 'u' {
            lemma_string_end(s, i + 6);
            assert(s[i] == b[i - i + j]);
            assert(s[i + 1] == b[i + 1 - i + j]);
            assert(s[i + 2] == b[i + 2 - i + j]);
            assert(s[i + 3] == b[i + 3 - i + j]);
            assert(s[i + 4] == b[i + 4 - i + j]);
            assert(s[i + 5] == b[i + 5 - i + j]);
            assert(hex_run(s, i + 2) == hex_run(b, j + 2));
            l_run_from(s, i, e, b, j, 6);
            l_string(s, i + 6, b, j + 6);
        } else {
            lemma_string_end(s, i + 2);
            assert(s[i] == b[i - i + j]);
            assert(s[i + 1] == b[i + 1 - i + j]);
            l_run_from(s, i, e, b, j, 2);
            l_string(s, i + 2, b, j + 2);
        }
    } else {
        lemma_string_end(s, i + 1);
        assert(s[i] == b[i - i + j]);
        l_run_from(s, i, e, b, j, 1);
        l_string(s, i + 1, b, j + 1);
    }
}

/// The text of a number has a fraction or an exponent.
pub open spec fn has_point(w: Seq<char>) -> bool {
    exists|k: int| 0 <= k < w.len() && is_point(#[trigger] w[k])
}

/// What a fraction or an exponent begins with.
pub open spec fn is_point(c: char) -> bool {
    c == '.' || c == 'e' || c == 'E'
}

/// A number ends before this index, whatever comes after. One that has a
/// fraction or an exponent takes no other fraction.
spec fn number_stops(b: Seq<char>, q: int, pointed: bool) -> bool {
    q < b.len() ==> {
        &&& !is_decimal(b[q])
        &&& b[q] != '_'
        &&& b[q] != 'e'
        &&& b[q] != 'E'
        &&& !(b[q] == '.' && digit_at(b, q + 1)) || pointed
    }
}

/// Digits and groups of digits end before this index.
spec fn digits_stop(b: Seq<char>, q: int) -> bool {
    q < b.len() ==> !is_decimal(b[q]) && b[q] != '_'
}

proof fn l_groups(s: Seq<char>, i: int, b: Seq<char>, j: int)
    requires
        0 <= i <= s.len(),
        same_run(s, i, groups_end(s, i), b, j),
        digits_stop(b, j + (groups_end(s, i) - i)),
    ensures
        groups_end(b, j) == j + (groups_end(s, i) - i),
    decreases s.len() - i,
{
    lemma_groups_end(s, i);
    if 0 <= i < s.len() && s[i] == '_' && digit_at(s, i + 1) {
        let c = class_end(s, i + 1, CharClass::Digit);
        lemma_class_end(s, i + 1, CharClass::Digit);
        l_class_stops(s, i + 1, CharClass::Digit);
        lemma_groups_end(s, c);
        let g = groups_end(s, c);
        assert(s[i] == b[i - i + j]);
        assert(s[i + 1] == b[i + 1 - i + j]);
        l_run_from(s, i, g, b, j, 1);
        if c < g {
            assert(s[c] == b[c - i + j]);
        }
        l_class(s, i + 1, b, j + 1, CharClass::Digit);
        l_run_from(s, i, g, b, j, c - i);
        l_groups(s, c, b, j + (c - i));
    }
}

/// Digits and the groups after them.
proof fn l_digits(s: Seq<char>, i: int, b: Seq<char>, j: int)
    requires
        0 <= i <= s.len(),
        same_run(s, i, groups_end(s, class_end(s, i, CharClass::Digit)), b, j),
        digits_stop(b, j + (groups_end(s, class_end(s, i, CharClass::Digit)) - i)),
    ensures
        groups_end(b, class_end(b, j, CharClass::Digit)) == j + (groups_end(
            s,
            class_end(s, i, CharClass::Digit),
        ) - i),
{
    let c = class_end(s, i, CharClass::Digit);
    lemma_class_end(s, i, CharClass::Digit);
    l_class_stops(s, i, CharClass::Digit);
    lemma_groups_end(s, c);
    let g = groups_end(s, c);
    if c < g {
        assert(s[c] == b[c - i + j]);
    }
    l_class(s, i, b, j, CharClass::Digit);
    l_run_from(s, i, g, b, j, c - i);
    l_groups(s, c, b, j + (c - i));
}

/// A number goes on with a fraction or an exponent only at a dot or an `e`.
proof fn l_number_parts(s: Seq<char>, i: int)
    requires
        0 <= i <= s.len(),
    ensures
        i <= fraction_end(s, i) <= s.len(),
        i <= exponent_end(s, i) <= s.len(),
        fraction_end(s, i) > i ==> s[i] == '.' && digit_at(s, i + 1) && fraction_end(s, i) > i + 1,
        exponent_end(s, i) > i ==> (s[i] == 'e' || s[i] == 'E') && exponent_end(s, i) > i + 1,
{
    lemma_class_end(s, i + 1, CharClass::Digit);
    lemma_groups_end(s, class_end(s, i + 1, CharClass::Digit));
    if i < s.len() {
        l_class_stops(s, i + 1, CharClass::Digit);
    }
    if i + 1 < s.len() {
        lemma_class_end(s, i + 2, CharClass::Digit);
        lemma_groups_end(s, class_end(s, i + 2, CharClass::Digit));
    }
}

proof fn l_fraction(s: Seq<char>, i: int, b: Seq<char>, j: int)
    requires
        0 <= i <= s.len(),
        same_run(s, i, fraction_end(s, i), b, j),
        digits_stop(b, j + (fraction_end(s, i) - i)),
        fraction_end(s, i) == i ==> !(j < b.len() && b[j] == '.' && digit_at(b, j + 1)),
    ensures
        fraction_end(b, j) == j + (fraction_end(s, i) - i),
{
    l_number_parts(s, i);
    let e = fraction_end(s, i);
    if e > i {
        assert(s[i] == b[i - i + j]);
        assert(s[i + 1] == b[i + 1 - i + j]);
        l_run_from(s, i, e, b, j, 1);
        l_digits(s, i + 1, b, j + 1);
    } else if 0 <= i < s.len() && s[i] == '.' && digit_at(s, i + 1) {
        l_class_stops(s, i + 1, CharClass::Digit);
        lemma_groups_end(s, class_end(s, i + 1, CharClass::Digit));
    }
}

proof fn l_exponent(s: Seq<char>, i: int, b: Seq<char>, j: int)
    requires
        0 <= i <= s.len(),
        same_run(s, i, exponent_end(s, i), b, j),
        digits_stop(b, j + (exponent_end(s, i) - i)),
        exponent_end(s, i) == i ==> !(j < b.len() && (b[j] == 'e' || b[j] == 'E')),
    ensures
        exponent_end(b, j) == j + (exponent_end(s, i) - i),
{
    l_number_parts(s, i);
    let e = exponent_end(s, i);
    if e > i {
        let n: int = if i + 1 < s.len() && (s[i + 1] == '+' || s[i + 1] == '-') {
            2
        } else {
            1
        };
        assert(digit_at(s, i + n));
        l_class_stops(s, i + n, CharClass::Digit);
        lemma_class_end(s, i + n, CharClass::Digit);
        lemma_groups_end(s, class_end(s, i + n, CharClass::Digit));
        assert(s[i] == b[i - i + j]);
        assert(s[i + 1] == b[i + 1 - i + j]);
        assert(s[i + n] == b[i + n - i + j]);
        l_run_from(s, i, e, b, j, n);
        l_digits(s, i + n, b, j + n);
        lemma_ascii_decimal('+');
        lemma_ascii_decimal('-');
    }
}

/// Digits hold no point.
proof fn l_no_point(s: Seq<char>, i: int)
    requires
        0 <= i <= s.len(),
    ensures
        forall|k: int| i <= k < class_end(s, i, CharClass::Digit) ==> !is_point(#[trigger] s[k]),
    decreases s.len() - i,
{
    if i < s.len() && in_class(s[i], CharClass::Digit) {
        lemma_ascii_decimal(s[i]);
        l_no_point(s, i + 1);
    }
}

/// Nor do groups of digits.
proof fn l_no_point_in_groups(s: Seq<char>, i: int)
    requires
        0 <= i <= s.len(),
    ensures
        forall|k: int| i <= k < groups_end(s, i) ==> !is_point(#[trigger] s[k]),
    decreases s.len() - i,
{
    if 0 <= i < s.len() && s[i] == '_' && digit_at(s, i + 1) {
        lemma_class_end(s, i + 1, CharClass::Digit);
        l_no_point(s, i + 1);
        l_no_point_in_groups(s, class_end(s, i + 1, CharClass::Digit));
    }
}

proof fn l_number(s: Seq<char>, i: int, b: Seq<char>, j: int, pointed: bool)
    requires
        0 <= i < s.len(),
        is_ascii_digit(s[i]),
        same_run(s, i, number_end(s, i), b, j),
        number_stops(b, j + (number_end(s, i) - i), pointed),
        pointed ==> exists|k: int| i <= k < number_end(s, i) && is_point(#[trigger] s[k]),
    ensures
        number_end(b, j) == j + (number_end(s, i) - i),
{
    let e = number_end(s, i);
    let whole = if s[i] == '0' {
        i + 1
    } else {
        class_end(s, i + 1, CharClass::Digit)
    };
    lemma_class_end(s, i + 1, CharClass::Digit);
    l_class_stops(s, i + 1, CharClass::Digit);
    lemma_groups_end(s, whole);
    let g = groups_end(s, whole);
    l_number_parts(s, g);
    let f = fraction_end(s, g);
    l_number_parts(s, f);
    lemma_number_end(s, i);
    lemma_ascii_decimal('.');
    lemma_ascii_decimal('e');
    lemma_ascii_decimal('E');
    l_no_point(s, i + 1);
    l_no_point_in_groups(s, whole);
    let d = j - i;
    assert(s[i] == b[i - i + j]);
    if g < e {
        assert(s[g] == b[g - i + j]);
    }
    if f < e {
        assert(s[f] == b[f - i + j]);
    }
    l_run_from(s, i, e, b, j, 1);
    if s[i] == '0' {
        l_run_from(s, i, g, b, j, 1);
        l_groups(s, i + 1, b, j + 1);
    } else {
        l_run_from(s, i, g, b, j, 1);
        l_digits(s, i + 1, b, j + 1);
    }
    l_run_from(s, i, f, b, j, g - i);
    l_fraction(s, g, b, g + d);
    l_run_from(s, i, e, b, j, f - i);
    l_exponent(s, f, b, f + d);
}

/// What follows a token with the text `w` does not make it longer or another
/// one.
spec fn ends_at(t: Token, w: Seq<char>, b: Seq<char>, q: int) -> bool {
    q < b.len() ==> match t {
        Token::Number => number_stops(b, q, has_point(w)),
        Token::Minus => !is_ascii_digit(b[q]),
        Token::Div => b[q] != '/' && b[q] != '*',
        Token::Not | Token::Lt | Token::Gt => b[q] != '=',
        Token::Dot => b[q] != '.',
        Token::LineComment => b[q] == '\n',
        Token::MutableVar
        | Token::ImmutableVar
        | Token::Fn
        | Token::Return
        | Token::Continue
        | Token::If
        | Token::Else
        | Token::Spawn
        | Token::For
        | Token::While
        | Token::In
        | Token::Bool(_)
        | Token::Identifier => !in_class(b[q], CharClass::Word),
        _ => true,
    }
}

/// The same characters read as the same token wherever they stand, as long as
/// what follows does not add to them.
#[verifier::rlimit(40)]
proof fn l_scan(s: Seq<char>, i: int, b: Seq<char>, j: int, t: Token, e: int)
    requires
        0 <= i < s.len(),
        scan(s, i) == (Scan::Token { token: t, end: e }),
        same_run(s, i, e, b, j),
        ends_at(t, s.subrange(i, e), b, j + (e - i)),
    ensures
        scan(b, j) == (Scan::Token { token: t, end: j + (e - i) }),
{
    lemma_scan_end(s, i);
    let c = s[i];
    assert(s[i] == b[i - i + j]);
    assert(s.subrange(i, e) =~= b.subrange(j, j + (e - i)));
    if e > i + 1 {
        assert(s[i + 1] == b[i + 1 - i + j]);
    }
    let pointed = t == Token::Number && has_point(s.subrange(i, e));
    if pointed {
        let w = s.subrange(i, e);
        let k = choose|k: int| 0 <= k < w.len() && is_point(#[trigger] w[k]);
        assert(s[i + k] == w[k]);
        assert(is_point(s[i + k]));
    }
    if is_letter(c) {
        l_class(s, i, b, j, CharClass::Word);
    } else if is_ascii_digit(c) {
        l_number(s, i, b, j, pointed);
    } else if c == '-' {
        if i + 1 < s.len() && is_ascii_digit(s[i + 1]) {
            lemma_number_end(s, i + 1);
            l_run_from(s, i, e, b, j, 1);
            l_number(s, i + 1, b, j + 1, pointed);
        }
    } else if c == '"' {
        l_run_from(s, i, e, b, j, 1);
        l_string(s, i + 1, b, j + 1);
    } else if c == '`' {
        let n = class_end(s, i + 1, CharClass::Template);
        lemma_class_end(s, i + 1, CharClass::Template);
        l_class_stops(s, i + 1, CharClass::Template);
        assert(s[n] == b[n - i + j]);
        l_run_from(s, i, n, b, j, 1);
        l_class(s, i + 1, b, j + 1, CharClass::Template);
    } else if c == '/' {
        if t == Token::LineComment {
            lemma_class_end(s, i + 2, CharClass::Line);
            l_run_from(s, i, e, b, j, 2);
            l_class(s, i + 2, b, j + 2, CharClass::Line);
        }
    }
}

/// A closed string ends in its quote.
proof fn l_string_quote(s: Seq<char>, i: int)
    requires
        0 <= i <= s.len(),
        string_end(s, i).0,
    ensures
        i < string_end(s, i).1 <= s.len(),
        s[string_end(s, i).1 - 1] == '"',
    decreases s.len() - i,
{
    if s[i] == '"' {
    } else if s[i] == '\\' {
        if s[i + 1] == 'u' {
            l_string_quote(s, i + 6);
        } else {
            l_string_quote(s, i + 2);
        }
    } else {
        l_string_quote(s, i + 1);
    }
}

/// What the formatter writes for a token is the text that was read.
#[verifier::rlimit(40)]
proof fn l_written(s: Seq<char>, i: int, t: Token, e: int)
    requires
        0 <= i < s.len(),
        scan(s, i) == (Scan::Token { token: t, end: e }),
    ensures
        written(t, token_text(s, i, e, Ok(t))) == s.subrange(i, e),
        i < e <= s.len(),
{
    lemma_scan_end(s, i);
    let r = s.subrange(i, e);
    assert(r[0] == s[i]);
    if s[i] == '"' {
        l_string_quote(s, i + 1);
    }
    if s[i] == '`' {
        lemma_class_end(s, i + 1, CharClass::Template);
        l_class_stops(s, i + 1, CharClass::Template);
    }
    if e > i + 1 {
        assert(r[1] == s[i + 1]);
        assert(r.last() == s[e - 1]);
    }
    assert(written(t, token_text(s, i, e, Ok(t))) =~= r);
}

/// The text reads as one token, on its own.
#[verifier::opaque]
spec fn whole(t: Token, w: Seq<char>) -> bool {
    &&& w.len() > 0
    &&& scan(w, 0) == (Scan::Token { token: t, end: w.len() as int })
}

/// A lexeme as the lexer makes it.
spec fn sound(l: LexemeView) -> bool {
    l.token matches Ok(t) ==> {
        &&& whole(t, written(t, l.text))
        &&& t == Token::String || t == Token::Template || l.text == written(t, l.text)
    }
}

/// A comment runs to the end of its line.
spec fn comment_ends(ls: Seq<LexemeView>, k: int) -> bool {
    ls[k].token == Ok::<Token, LexFault>(Token::LineComment) && k + 1 < ls.len() ==> ls[k
        + 1].token == Ok::<Token, LexFault>(Token::Newline)
}

/// What the lexer makes is sound, and its comments end with their lines.
proof fn l_lexed(s: Seq<char>, i: int)
    requires
        0 <= i <= s.len(),
    ensures
        forall|k: int| 0 <= k < lex_from(s, i).len() ==> sound(#[trigger] lex_from(s, i)[k]),
        forall|k: int| 0 <= k < lex_from(s, i).len() ==> #[trigger] comment_ends(lex_from(s, i), k),
        i < s.len() && s[i] == '\n' ==> lex_from(s, i).len() > 0 && lex_from(s, i)[0].token == Ok::<
            Token,
            LexFault,
        >(Token::Newline),
    decreases s.len() - i,
{
    reveal(whole);
    if i < s.len() {
        lemma_scan_end(s, i);
        let ls = lex_from(s, i);
        match scan(s, i) {
            Scan::Skip { end } => {
                l_lexed(s, end);
            },
            Scan::Token { token, end } => {
                let rest = lex_from(s, end);
                l_lexed(s, end);
                l_written(s, i, token, end);
                let w = s.subrange(i, end);
                l_scan(s, i, w, 0, token, end);
                if token == Token::LineComment {
                    lemma_class_end(s, i + 2, CharClass::Line);
                    l_class_stops(s, i + 2, CharClass::Line);
                }
                assert forall|k: int| 0 <= k < ls.len() implies sound(#[trigger] ls[k]) by {
                    if k > 0 {
                        assert(ls[k] == rest[k - 1]);
                    }
                }
                assert forall|k: int| 0 <= k < ls.len() implies #[trigger] comment_ends(ls, k) by {
                    if k > 0 {
                        assert(comment_ends(rest, k - 1));
                        assert(ls[k] == rest[k - 1]);
                    }
                    if k + 1 < ls.len() {
                        assert(ls[k + 1] == rest[k]);
                    }
                }
            },
            Scan::Bad { fault, end } => {
                let rest = lex_from(s, end);
                l_lexed(s, end);
                assert forall|k: int| 0 <= k < ls.len() implies sound(#[trigger] ls[k]) by {
                    if k > 0 {
                        assert(ls[k] == rest[k - 1]);
                    }
                }
                assert forall|k: int| 0 <= k < ls.len() implies #[trigger] comment_ends(ls, k) by {
                    if k > 0 {
                        assert(comment_ends(rest, k - 1));
                        assert(ls[k] == rest[k - 1]);
                    }
                    if k + 1 < ls.len() {
                        assert(ls[k + 1] == rest[k]);
                    }
                }
            },
        }
    }
}

/// How a token begins.
proof fn l_first(t: Token, w: Seq<char>)
    requires
        whole(t, w),
    ensures
        !in_class(w[0], CharClass::Blank),
        w[0] == '.' ==> t == Token::Dot || t == Token::Range,
        w[0] == '=' ==> t == Token::Eq,
        is_decimal(w[0]) ==> t == Token::Number && w[0] != '-',
{
    reveal(whole);
    lemma_ascii_decimal(w[0]);
}

/// Blanks are read over.
proof fn l_blanks(s: Seq<char>, i: int, j: int)
    requires
        0 <= i <= j <= s.len(),
        forall|k: int| i <= k < j ==> #[trigger] s[k] == ' ',
    ensures
        lex_from(s, i) == lex_from(s, j),
    decreases j - i,
{
    if i < j {
        assert(s[i] == ' ');
        l_blanks(s, i + 1, j);
        let n = class_end(s, i + 1, CharClass::Blank);
        assert(class_end(s, i, CharClass::Blank) == n);
        assert(scan(s, i) == (Scan::Skip { end: n }));
        assert(lex_from(s, i) == lex_from(s, n));
        if i + 1 < s.len() && in_class(s[i + 1], CharClass::Blank) {
            assert(scan(s, i + 1) == (Scan::Skip { end: n }));
            assert(lex_from(s, i + 1) == lex_from(s, n));
        } else {
            assert(n == i + 1);
        }
    }
}

/// The token at an index.
pub open spec fn is_token(ls: Seq<LexemeView>, k: int, t: Token) -> bool {
    0 <= k < ls.len() && ls[k].token == Ok::<Token, LexFault>(t)
}

/// The tokens from index `k` on do not run together when no blank stands
/// between them, as a dot does before a dot or a range, and between a whole
/// number and a number without a sign.
pub open spec fn apart_at(ls: Seq<LexemeView>, k: int) -> bool {
    &&& !(is_token(ls, k, Token::Dot) && (is_token(ls, k + 1, Token::Dot) || is_token(
        ls,
        k + 1,
        Token::Range,
    )))
    &&& !(is_token(ls, k, Token::Number) && is_token(ls, k + 1, Token::Dot) && is_token(
        ls,
        k + 2,
        Token::Number,
    ) && !has_point(ls[k].text) && ls[k + 2].text[0] != '-')
}

/// No dot stands where the formatter would join it to its neighbours.
pub open spec fn dots_apart(ls: Seq<LexemeView>) -> bool {
    forall|k: int| 0 <= k < ls.len() ==> #[trigger] apart_at(ls, k)
}

/// The tokens that can be laid out and read again.
spec fn readable(ls: Seq<LexemeView>) -> bool {
    &&& forall|k: int| 0 <= k < ls.len() ==> sound(#[trigger] ls[k])
    &&& forall|k: int| 0 <= k < ls.len() ==> #[trigger] comment_ends(ls, k)
}

/// Layout only adds to what is written.
proof fn l_prefix(ls: Seq<LexemeView>, k: int, f: Layout, out: Seq<char>)
    requires
        0 <= k <= ls.len(),
        laid_out(ls, k, f) == Ok::<Seq<char>, Fault>(out),
    ensures
        same_run(f.out, 0, f.out.len() as int, out, 0),
    decreases ls.len() - k,
{
    if k < ls.len() {
        let g = place(f, ls[k].token->Ok_0, ls[k].text);
        l_prefix(ls, k + 1, g, out);
        assert forall|m: int| 0 <= m < f.out.len() implies #[trigger] f.out[m] == out[m - 0 + 0] by {
            assert(g.out[m] == f.out[m]);
        }
    }
}

/// What comes next in the text.
proof fn l_next(ls: Seq<LexemeView>, k: int, f: Layout, out: Seq<char>)
    requires
        0 <= k < ls.len(),
        laid_out(ls, k, f) == Ok::<Seq<char>, Fault>(out),
        readable(ls),
    ensures
        ls[k].token is Ok,
        out.len() > f.out.len(),
        ({
            let t = ls[k].token->Ok_0;
            let c = out[f.out.len() as int];
            if t == Token::Newline {
                c == '\n'
            } else if lead(f, t).len() > 0 {
                c == ' '
            } else {
                c == written(t, ls[k].text)[0]
            }
        }),
{
    reveal(whole);
    let t = ls[k].token->Ok_0;
    let g = place(f, t, ls[k].text);
    l_prefix(ls, k + 1, g, out);
    assert(sound(ls[k]));
    let n = f.out.len() as int;
    assert(g.out.len() > n);
    assert(g.out[n] == out[n - 0 + 0]);
}

/// A number is not joined to what follows it.
proof fn l_after_number(ls: Seq<LexemeView>, k: int, g: Layout, out: Seq<char>)
    requires
        0 <= k < ls.len(),
        is_token(ls, k, Token::Number),
        laid_out(ls, k + 1, g) == Ok::<Seq<char>, Fault>(out),
        g.need_space,
        !g.at_start,
        readable(ls),
        apart_at(ls, k),
    ensures
        number_stops(out, g.out.len() as int, has_point(ls[k].text)),
{
    l_prefix(ls, k + 1, g, out);
    if k + 1 < ls.len() {
        l_next(ls, k + 1, g, out);
        let t = ls[k + 1].token->Ok_0;
        lemma_ascii_decimal(out[g.out.len() as int]);
        if t == Token::Dot {
            let h = place(g, t, ls[k + 1].text);
            l_prefix(ls, k + 2, h, out);
            assert(h.out.len() == g.out.len() + 1);
            if k + 2 < ls.len() {
                l_next(ls, k + 2, h, out);
                let u = ls[k + 2].token->Ok_0;
                assert(sound(ls[k + 2]));
                l_first(u, written(u, ls[k + 2].text));
                lemma_ascii_decimal('\n');
                lemma_ascii_decimal(' ');
            }
        }
    }
}

/// No token is joined to what follows it.
#[verifier::rlimit(40)]
proof fn l_after(ls: Seq<LexemeView>, k: int, f: Layout, out: Seq<char>, t: Token, e: int)
    requires
        0 <= k < ls.len(),
        is_token(ls, k, t),
        t != Token::Newline,
        laid_out(ls, k, f) == Ok::<Seq<char>, Fault>(out),
        readable(ls),
        apart_at(ls, k),
        e == f.out.len() + lead(f, t).len() + written(t, ls[k].text).len(),
    ensures
        ends_at(t, written(t, ls[k].text), out, e),
{
    reveal(whole);
    let g = place(f, t, ls[k].text);
    l_prefix(ls, k + 1, g, out);
    assert(laid_out(ls, k + 1, g) == Ok::<Seq<char>, Fault>(out));
    assert(sound(ls[k]));
    if is_operator(t) {
        assert(g.out[e] == ' ');
        assert(g.out[e] == out[e - 0 + 0]);
    } else {
        assert(e == g.out.len());
        if t == Token::Number {
            l_after_number(ls, k, g, out);
        } else if k + 1 < ls.len() {
            l_next(ls, k + 1, g, out);
            let u = ls[k + 1].token->Ok_0;
            assert(sound(ls[k + 1]));
            l_first(u, written(u, ls[k + 1].text));
            assert(comment_ends(ls, k));
            if t == Token::Not {
                assert(g.out.last() == '!');
                assert(g.out + Seq::<char>::empty() =~= g.out);
            }
        }
    }
}

/// The lexemes have the tokens and texts of others from index `k` on.
spec fn same_from(a: Seq<LexemeView>, ls: Seq<LexemeView>, k: int) -> bool {
    &&& a.len() == ls.len() - k
    &&& forall|m: int|
        0 <= m < a.len() ==> (#[trigger] a[m]).token == ls[k + m].token && a[m].text == ls[k
            + m].text
}

/// Where a token stands in the text.
proof fn l_placed(ls: Seq<LexemeView>, k: int, f: Layout, out: Seq<char>, t: Token, j: int, e: int)
    requires
        0 <= k < ls.len(),
        is_token(ls, k, t),
        t != Token::Newline,
        laid_out(ls, k, f) == Ok::<Seq<char>, Fault>(out),
        j == f.out.len() + lead(f, t).len(),
        e == j + written(t, ls[k].text).len(),
    ensures
        forall|m: int| f.out.len() <= m < j ==> #[trigger] out[m] == ' ',
        same_run(written(t, ls[k].text), 0, e - j, out, j),
        place(f, t, ls[k].text).out.len() == (if is_operator(t) {
            e + 1
        } else {
            e
        }),
        is_operator(t) ==> e < out.len() && out[e] == ' ',
{
    let l = lead(f, t);
    let w = written(t, ls[k].text);
    let g = place(f, t, ls[k].text);
    let i = f.out.len() as int;
    l_prefix(ls, k + 1, g, out);
    assert forall|m: int| i <= m < j implies #[trigger] out[m] == ' ' by {
        assert(l[m - i] == ' ');
        assert(g.out[m] == l[m - i]);
        assert(g.out[m] == out[m - 0 + 0]);
    }
    assert forall|m: int| 0 <= m < w.len() implies #[trigger] w[m] == out[m - 0 + j] by {
        assert(g.out[j + m] == w[m]);
        assert(g.out[j + m] == out[j + m - 0 + 0]);
    }
    if is_operator(t) {
        assert(g.out[e] == ' ');
        assert(g.out[e] == out[e - 0 + 0]);
    }
}

/// The lexemes from a token on.
proof fn l_lex_step(s: Seq<char>, i: int, t: Token, e: int)
    requires
        0 <= i < s.len(),
        scan(s, i) == (Scan::Token { token: t, end: e }),
    ensures
        ({
            let a = lex_from(s, i);
            &&& a.len() > 0
            &&& a[0].token == Ok::<Token, LexFault>(t)
            &&& a[0].text == token_text(s, i, e, Ok(t))
            &&& a == seq![a[0]] + lex_from(s, e)
        }),
{
    let a = lex_from(s, i);
    assert(a =~= seq![a[0]] + lex_from(s, e));
}

/// The text of a token that was written.
proof fn l_text(t: Token, text: Seq<char>, out: Seq<char>, j: int, e: int)
    requires
        same_run(written(t, text), 0, e - j, out, j),
        e - j == written(t, text).len(),
        t == Token::String || t == Token::Template || text == written(t, text),
    ensures
        token_text(out, j, e, Ok(t)) == text,
{
    let w = written(t, text);
    assert forall|m: int| 0 <= m < w.len() implies out[j + m] == #[trigger] w[m] by {
        assert(w[m] == out[m - 0 + j]);
    }
    if t == Token::String || t == Token::Template {
        assert forall|m: int| 0 <= m < text.len() implies out.subrange(j + 1, e - 1)[m]
            == #[trigger] text[m] by {
            assert(w[m + 1] == text[m]);
        }
        assert(out.subrange(j + 1, e - 1) =~= text);
    } else {
        assert(out.subrange(j, e) =~= w);
    }
}

/// One token is read again.
#[verifier::rlimit(40)]
proof fn l_reread(ls: Seq<LexemeView>, k: int, f: Layout, out: Seq<char>)
    requires
        0 <= k < ls.len(),
        laid_out(ls, k, f) == Ok::<Seq<char>, Fault>(out),
        readable(ls),
        apart_at(ls, k),
    ensures
        ls[k].token is Ok,
        ({
            let a = lex_from(out, f.out.len() as int);
            let g = place(f, ls[k].token->Ok_0, ls[k].text);
            &&& laid_out(ls, k + 1, g) == Ok::<Seq<char>, Fault>(out)
            &&& a.len() > 0
            &&& a[0].token == ls[k].token
            &&& a[0].text == ls[k].text
            &&& a == seq![a[0]] + lex_from(out, g.out.len() as int)
        }),
{
    reveal(whole);
    let i = f.out.len() as int;
    let t = ls[k].token->Ok_0;
    let text = ls[k].text;
    let g = place(f, t, text);
    l_prefix(ls, k + 1, g, out);
    assert(sound(ls[k]));
    let w = written(t, text);
    if t == Token::Newline {
        assert(g.out[i] == out[i - 0 + 0]);
        assert(out.subrange(i, i + 1) =~= seq!['\n']);
        l_lex_step(out, i, t, i + 1);
    } else {
        let j = i + lead(f, t).len();
        let e = j + w.len();
        l_placed(ls, k, f, out, t, j, e);
        l_blanks(out, i, j);
        l_after(ls, k, f, out, t, e);
        assert(w.subrange(0, w.len() as int) =~= w);
        l_scan(w, 0, out, j, t, w.len() as int);
        l_text(t, text, out, j, e);
        l_lex_step(out, j, t, e);
        if is_operator(t) {
            l_blanks(out, e, e + 1);
        }
    }
}

proof fn l_relex(ls: Seq<LexemeView>, k: int, f: Layout, out: Seq<char>)
    requires
        0 <= k <= ls.len(),
        laid_out(ls, k, f) == Ok::<Seq<char>, Fault>(out),
        readable(ls),
        dots_apart(ls),
    ensures
        same_from(lex_from(out, f.out.len() as int), ls, k),
    decreases ls.len() - k,
{
    if k < ls.len() {
        let g = place(f, ls[k].token->Ok_0, ls[k].text);
        assert(apart_at(ls, k));
        l_reread(ls, k, f, out);
        l_relex(ls, k + 1, g, out);
        let a = lex_from(out, f.out.len() as int);
        let rest = lex_from(out, g.out.len() as int);
        assert forall|m: int| 0 <= m < a.len() implies (#[trigger] a[m]).token == ls[k + m].token
            && a[m].text == ls[k + m].text by {
            if m > 0 {
                assert(a[m] == rest[m - 1]);
            }
        }
    }
}

/// The same tokens with the same texts, wherever they stand.
pub open spec fn same_tokens(a: Seq<LexemeView>, b: Seq<LexemeView>) -> bool {
    &&& a.len() == b.len()
    &&& forall|k: int|
        0 <= k < a.len() ==> (#[trigger] a[k]).token == b[k].token && a[k].text == b[k].text
}

/// Formatting changes no token: lexing the result gives the tokens of the
/// source, with their texts. Left out are sources in which the formatter joins
/// a dot to its neighbours, such as `a . . b` and `1 . 5`.
pub proof fn law_formatted_source_reads_the_same(source: Seq<char>)
    requires
        dots_apart(lexed(source)),
    ensures
        formatted(source) matches Ok(out) ==> same_tokens(lexed(out), lexed(source)),
{
    if formatted(source) is Ok {
        let out = formatted(source)->Ok_0;
        l_lexed(source, 0);
        l_relex(lexed(source), 0, empty_layout(), out);
    }
}

/// Where the whole part of a number without a sign ends.
spec fn whole_end(b: Seq<char>) -> int {
    groups_end(b, class_end(b, 0, CharClass::Digit))
}

/// The digits, the fraction and the exponent of a number without a sign.
proof fn l_unsigned(b: Seq<char>)
    requires
        whole(Token::Number, b),
        b[0] != '-',
    ensures
        ({
            let g = whole_end(b);
            let e = fraction_end(b, g);
            &&& is_ascii_digit(b[0])
            &&& all_ascii(b)
            &&& 0 < g <= e <= b.len()
            &&& exponent_end(b, e) == b.len()
            &&& e > g ==> b[g] == '.' && digit_at(b, g + 1) && e > g + 1
            &&& e < b.len() ==> b[e] == 'e' || b[e] == 'E'
            &&& forall|m: int| 0 <= m < e && m != g ==> !is_point(#[trigger] b[m])
            &&& forall|m: int| e < m < b.len() ==> !is_point(#[trigger] b[m])
        }),
{
    reveal(whole);
    lemma_ascii_decimal(b[0]);
    assert(b.subrange(0, b.len() as int) =~= b);
    assert(is_ascii_digit(b[0]));
    assert(number_end(b, 0) == b.len());
    let c = class_end(b, 0, CharClass::Digit);
    lemma_class_end(b, 0, CharClass::Digit);
    l_class_stops(b, 0, CharClass::Digit);
    if b[0] == '0' && b.len() > 1 {
        lemma_ascii_decimal(b[1]);
        assert(number_end(b, 0) != 1);
        assert(!is_decimal(b[1]));
    }
    assert(c == class_end(b, 1, CharClass::Digit));
    if b[0] == '0' {
        assert(class_end(b, 1, CharClass::Digit) == 1);
    }
    lemma_groups_end(b, c);
    let g = whole_end(b);
    l_number_parts(b, g);
    let e = fraction_end(b, g);
    l_number_parts(b, e);
    l_no_point(b, 0);
    l_no_point_in_groups(b, c);
    if e > g {
        let d = class_end(b, g + 1, CharClass::Digit);
        lemma_class_end(b, g + 1, CharClass::Digit);
        l_no_point(b, g + 1);
        l_no_point_in_groups(b, d);
    }
    if e < b.len() {
        let n: int = if e + 1 < b.len() && (b[e + 1] == '+' || b[e + 1] == '-') {
            2
        } else {
            1
        };
        lemma_class_end(b, e + n, CharClass::Digit);
        l_no_point(b, e + n);
        l_no_point_in_groups(b, class_end(b, e + n, CharClass::Digit));
    }
}

/// A number with a fraction that begins with a zero and goes on with a digit.
pub open spec fn zero_leads(b: Seq<char>) -> bool {
    exists|p: int|
        0 <= p && p + 2 < b.len() && #[trigger] b[p] == '.' && b[p + 1] == '0' && is_ascii_digit(
            b[p + 2],
        )
}

/// A number with a fraction and without an exponent.
pub open spec fn only_fraction(b: Seq<char>) -> bool {
    b.contains('.') && !b.contains('e') && !b.contains('E')
}

/// What a number takes of another that a dot joins to it: the whole part, and
/// the exponent where there is no fraction between.
spec fn taken(b: Seq<char>) -> Seq<char> {
    if b.contains('.') {
        b.take(whole_end(b))
    } else {
        b
    }
}

/// What is left of it, after the second dot.
spec fn left_over(b: Seq<char>) -> Seq<char> {
    b.skip(whole_end(b) + 1)
}

/// The signs by which a number is told.
proof fn l_signs(b: Seq<char>)
    requires
        whole(Token::Number, b),
        b[0] != '-',
    ensures
        b.contains('.') <==> fraction_end(b, whole_end(b)) > whole_end(b),
        b.contains('e') || b.contains('E') <==> fraction_end(b, whole_end(b)) < b.len(),
        has_point(b) <==> b.contains('.') || b.contains('e') || b.contains('E'),
        !b.contains('.') ==> taken(b) == b,
        b.contains('.') ==> b == taken(b) + seq!['.'] + left_over(b),
{
    l_unsigned(b);
    let g = whole_end(b);
    let e = fraction_end(b, g);
    if e > g {
        assert(b[g] == '.');
    }
    if e < b.len() {
        assert(is_point(b[e]));
    }
    if b.contains('.') {
        let m = b.index_of('.');
        assert(is_point(b[m]));
        assert(m == g);
        assert(b =~= taken(b) + seq!['.'] + left_over(b));
    }
    if b.contains('e') {
        let m = b.index_of('e');
        assert(is_point(b[m]));
        assert(m == g || m == e);
    }
    if b.contains('E') {
        let m = b.index_of('E');
        assert(is_point(b[m]));
        assert(m == g || m == e);
    }
    if has_point(b) {
        let k = choose|k: int| 0 <= k < b.len() && is_point(#[trigger] b[k]);
        assert(b.contains(b[k]));
    }
}

/// A whole number, a dot and what is taken of another number are one number.
#[verifier::rlimit(40)]
proof fn l_joined(x: Seq<char>, b: Seq<char>)
    requires
        whole(Token::Number, x),
        !has_point(x),
        whole(Token::Number, b),
        b[0] != '-',
    ensures
        whole(Token::Number, x + seq!['.'] + taken(b)),
        has_point(x + seq!['.'] + taken(b)),
{
    reveal(whole);
    let w = taken(b);
    let y = x + seq!['.'] + w;
    let n = x.len() as int;
    l_unsigned(b);
    l_signs(b);
    let g = whole_end(b);
    let d: int = if x[0] == '-' {
        1
    } else {
        0
    };
    assert(y[n] == '.' && is_point(y[n]));
    assert(x.subrange(0, n) =~= x);
    assert(is_ascii_digit(x[d]) && number_end(x, d) == n && d < n);
    lemma_ascii_decimal('.');
    lemma_ascii_decimal('e');
    lemma_ascii_decimal('E');
    let start = if x[d] == '0' {
        d + 1
    } else {
        class_end(x, d + 1, CharClass::Digit)
    };
    lemma_class_end(x, d + 1, CharClass::Digit);
    lemma_groups_end(x, start);
    let gx = groups_end(x, start);
    l_number_parts(x, gx);
    l_number_parts(x, fraction_end(x, gx));
    assert(gx == n) by {
        if gx < n {
            assert(is_point(x[gx]));
        }
    }
    assert(y[d] == x[d]);
    assert(same_run(x, d + 1, n, y, d + 1));
    if x[d] == '0' {
        l_groups(x, d + 1, y, d + 1);
    } else {
        l_digits(x, d + 1, y, d + 1);
    }
    assert(y[n + 1] == b[0]);
    lemma_ascii_decimal(b[0]);
    if g < w.len() {
        assert(y[n + 1 + g] == b[g]);
    }
    assert(same_run(b, 0, g, y, n + 1));
    l_digits(b, 0, y, n + 1);
    assert(fraction_end(y, n) == n + 1 + g);
    if !b.contains('.') {
        assert(same_run(b, g, b.len() as int, y, n + 1 + g));
        l_exponent(b, g, y, n + 1 + g);
    }
    assert(number_end(y, d) == y.len());
    assert(all_ascii(x.subrange(0, n)));
    assert(all_ascii(y)) by {
        assert forall|m: int| 0 <= m < y.len() implies (#[trigger] y[m] as u32) < 0x80 by {
            if m < n {
                assert(y[m] == x[m]);
            } else if m > n {
                assert(y[m] == b[m - n - 1]);
            }
        }
    }
    assert(y.subrange(0, y.len() as int) =~= y);
    if d == 1 {
        assert(y[0] == '-' && y[1] == x[1]);
    }
}

/// What is left over is a number, unless a zero leads.
#[verifier::rlimit(40)]
proof fn l_left_over(b: Seq<char>)
    requires
        whole(Token::Number, b),
        b[0] != '-',
        b.contains('.'),
    ensures
        left_over(b).len() > 0,
        is_ascii_digit(left_over(b)[0]),
        !zero_leads(b) ==> whole(Token::Number, left_over(b)),
        has_point(left_over(b)) <==> !only_fraction(b),
        zero_leads(b) <==> left_over(b).len() > 1 && left_over(b)[0] == '0' && is_ascii_digit(
            left_over(b)[1],
        ),
{
    reveal(whole);
    l_unsigned(b);
    l_signs(b);
    let g = whole_end(b);
    let e = fraction_end(b, g);
    let r = left_over(b);
    let o = g + 1;
    assert(r[0] == b[o]);
    lemma_ascii_decimal(b[o]);
    assert(b[g] == '.');
    if zero_leads(b) {
        let p = choose|p: int|
            0 <= p && p + 2 < b.len() && #[trigger] b[p] == '.' && b[p + 1] == '0'
                && is_ascii_digit(b[p + 2]);
        assert(is_point(b[p]));
        assert(p == g);
        assert(r[1] == b[g + 2]);
    }
    if r.len() > 1 {
        assert(r[1] == b[g + 2]);
        lemma_ascii_decimal(r[1]);
    }
    if e < b.len() {
        assert(r[e - o] == b[e]);
        assert(is_point(r[e - o]));
    }
    if has_point(r) {
        let k = choose|k: int| 0 <= k < r.len() && is_point(#[trigger] r[k]);
        assert(r[k] == b[o + k]);
        assert(o + k == e);
    }
    if !zero_leads(b) {
        let c = class_end(b, o, CharClass::Digit);
        lemma_class_end(b, o, CharClass::Digit);
        l_class_stops(b, o, CharClass::Digit);
        lemma_groups_end(b, c);
        assert(same_run(b, o, b.len() as int, r, 0));
        if c < b.len() {
            assert(r[c - o] == b[c]);
        }
        l_class(b, o, r, 0, CharClass::Digit);
        assert(class_end(r, 0, CharClass::Digit) == class_end(r, 1, CharClass::Digit));
        if r[0] == '0' {
            assert(class_end(r, 1, CharClass::Digit) == 1);
        }
        lemma_ascii_decimal('e');
        lemma_ascii_decimal('E');
        assert(same_run(b, c, e, r, c - o));
        l_groups(b, c, r, c - o);
        assert(fraction_end(r, e - o) == e - o);
        assert(same_run(b, e, b.len() as int, r, e - o));
        l_exponent(b, e, r, e - o);
        assert(number_end(r, 0) == r.len());
        assert(all_ascii(r)) by {
            assert forall|m: int| 0 <= m < r.len() implies (#[trigger] r[m] as u32) < 0x80 by {
                assert(r[m] == b[o + m]);
            }
        }
        assert(r.subrange(0, r.len() as int) =~= r);
    }
}

/// A blank is due after the token, before most others.
pub open spec fn blank_due(ls: Seq<LexemeView>, k: int) -> bool {
    0 <= k < ls.len() && (ls[k].token matches Ok(t) && t != Token::Newline && !hugs_right(t))
}

/// The token is a number without a sign.
pub open spec fn unsigned_at(ls: Seq<LexemeView>, k: int) -> bool {
    is_token(ls, k, Token::Number) && ls[k].text[0] != '-'
}

/// The token is a dot, and a dot or a range comes next.
pub open spec fn dots_at(ls: Seq<LexemeView>, k: int) -> bool {
    is_token(ls, k, Token::Dot) && (is_token(ls, k + 1, Token::Dot) || is_token(
        ls,
        k + 1,
        Token::Range,
    ))
}

/// What the formatter makes of the tokens from index `k` on is laid out as it
/// is, when it is read again. Before them stands a number that takes a fraction,
/// where `open` says so: a dot and a number without a sign then become that
/// fraction, and the second of two fractions must read as a number of its own.
/// Dots that are joined to a range must not take a blank.
pub open spec fn settled(ls: Seq<LexemeView>, k: int, open: bool) -> bool
    decreases ls.len() - k,
{
    if k < 0 || k >= ls.len() {
        true
    } else if open && is_token(ls, k, Token::Dot) && unsigned_at(ls, k + 1) {
        !zero_leads(ls[k + 1].text) && settled(ls, k + 2, only_fraction(ls[k + 1].text))
    } else {
        !(blank_due(ls, k - 1) && dots_at(ls, k)) && settled(
            ls,
            k + 1,
            is_token(ls, k, Token::Number) && !has_point(ls[k].text),
        )
    }
}

spec fn lexeme(t: Token, text: Seq<char>) -> LexemeView {
    LexemeView { token: Ok(t), text, start: 0, end: 0 }
}

spec fn number(text: Seq<char>) -> LexemeView {
    lexeme(Token::Number, text)
}

spec fn dot() -> LexemeView {
    lexeme(Token::Dot, seq!['.'])
}

spec fn range() -> LexemeView {
    lexeme(Token::Range, seq!['.', '.'])
}

proof fn l_dots_sound()
    ensures
        sound(dot()),
        sound(range()),
{
    reveal(whole);
    let d = seq!['.'];
    let r = seq!['.', '.'];
    assert(d[0] == '.' && r[0] == '.' && r[1] == '.');
    assert(scan(d, 0) == (Scan::Token { token: Token::Dot, end: 1 }));
    assert(scan(r, 0) == (Scan::Token { token: Token::Range, end: 2 }));
}

/// A blank would come before most tokens.
spec fn is_due(f: Layout) -> bool {
    f.need_space && !f.at_start
}

/// Layout goes by what is still to come.
proof fn l_shift(h: Seq<LexemeView>, tail: Seq<LexemeView>, k: int, f: Layout)
    requires
        0 <= k <= tail.len(),
    ensures
        laid_out(h + tail, h.len() + k, f) == laid_out(tail, k, f),
    decreases tail.len() - k,
{
    if k < tail.len() {
        assert((h + tail)[h.len() + k] == tail[k]);
        if tail[k].token is Ok {
            l_shift(h, tail, k + 1, place(f, tail[k].token->Ok_0, tail[k].text));
        }
    }
}

/// The first token, and then the others.
proof fn l_first_placed(a: LexemeView, tail: Seq<LexemeView>, f: Layout)
    requires
        a.token is Ok,
    ensures
        laid_out(seq![a] + tail, 0, f) == laid_out(tail, 0, place(f, a.token->Ok_0, a.text)),
{
    let g = place(f, a.token->Ok_0, a.text);
    assert((seq![a] + tail)[0] == a);
    assert(laid_out(seq![a] + tail, 0, f) == laid_out(seq![a] + tail, 1, g));
    l_shift(seq![a], tail, 0, g);
}

/// Tokens can be put before others that are read again.
proof fn l_heads(h: Seq<LexemeView>, ls: Seq<LexemeView>, k: int)
    requires
        0 <= k <= ls.len(),
        readable(ls),
        forall|i: int|
            0 <= i < h.len() ==> sound(#[trigger] h[i]) && h[i].token != Ok::<Token, LexFault>(
                Token::LineComment,
            ),
    ensures
        readable(h + ls.skip(k)),
{
    let l = h + ls.skip(k);
    assert forall|i: int| 0 <= i < l.len() implies sound(#[trigger] l[i]) by {
        if i < h.len() {
            assert(l[i] == h[i]);
        } else {
            assert(l[i] == ls[k + (i - h.len())]);
        }
    }
    assert forall|i: int| 0 <= i < l.len() implies #[trigger] comment_ends(l, i) by {
        if i < h.len() {
            assert(l[i] == h[i]);
        } else {
            let j = k + (i - h.len());
            assert(comment_ends(ls, j));
            assert(l[i] == ls[j]);
            if i + 1 < l.len() {
                assert(l[i + 1] == ls[j + 1]);
            }
        }
    }
}

/// The first token is read again, and laid out as before.
proof fn l_emit(a: LexemeView, tail: Seq<LexemeView>, f: Layout, out: Seq<char>)
    requires
        laid_out(seq![a] + tail, 0, f) == Ok::<Seq<char>, Fault>(out),
        readable(seq![a] + tail),
        apart_at(seq![a] + tail, 0),
    ensures
        a.token is Ok,
        ({
            let g = place(f, a.token->Ok_0, a.text);
            &&& laid_out(tail, 0, g) == Ok::<Seq<char>, Fault>(out)
            &&& laid_out(lex_from(out, f.out.len() as int), 0, f) == laid_out(
                lex_from(out, g.out.len() as int),
                0,
                g,
            )
        }),
{
    let l = seq![a] + tail;
    assert(l[0] == a);
    l_reread(l, 0, f, out);
    let g = place(f, a.token->Ok_0, a.text);
    l_shift(seq![a], tail, 0, g);
    let b = lex_from(out, f.out.len() as int);
    l_first_placed(b[0], lex_from(out, g.out.len() as int), f);
}

/// A number, a dot and a number come to the same as the numbers they become.
proof fn l_number_layout(f: Layout, x: Seq<char>, b: Seq<char>, d: Seq<char>)
    ensures
        ({
            let y = x + seq!['.'] + taken(b);
            let g = place(place(place(f, Token::Number, x), Token::Dot, d), Token::Number, b);
            &&& g.out == f.out + lead(f, Token::Number) + x + seq!['.'] + b
            &&& !b.contains('.') ==> place(f, Token::Number, y) == g
            &&& b == taken(b) + seq!['.'] + left_over(b) ==> place(
                place(place(f, Token::Number, y), Token::Dot, seq!['.']),
                Token::Number,
                left_over(b),
            ) == g
        }),
{
    let y = x + seq!['.'] + taken(b);
    let l = lead(f, Token::Number);
    let one = place(f, Token::Number, x);
    let two = place(one, Token::Dot, d);
    let g = place(two, Token::Number, b);
    assert(one.out =~= f.out + l + x);
    assert(two.out =~= f.out + l + x + seq!['.']);
    assert(g.out =~= f.out + l + x + seq!['.'] + b);
    let p = place(f, Token::Number, y);
    assert(p.out =~= f.out + l + y);
    let q = place(p, Token::Dot, seq!['.']);
    assert(q.out =~= f.out + l + y + seq!['.']);
    let r = place(q, Token::Number, left_over(b));
    assert(r.out =~= f.out + l + y + seq!['.'] + left_over(b));
    if !b.contains('.') {
        assert(p.out =~= g.out);
    }
    if b == taken(b) + seq!['.'] + left_over(b) {
        assert(r.out =~= g.out);
    }
}

/// Two dots come to the same as a range, and a dot and a range to the same as a
/// range and a dot, where no blank is due.
proof fn l_dots_layout(f: Layout, c: Seq<char>, d: Seq<char>)
    requires
        !is_due(f),
    ensures
        place(place(f, Token::Dot, c), Token::Dot, d) == place(f, Token::Range, range().text),
        place(place(f, Token::Dot, c), Token::Range, d) == place(
            place(f, Token::Range, range().text),
            Token::Dot,
            dot().text,
        ),
{
    let l = lead(f, Token::Dot);
    assert(lead(f, Token::Range) == l);
    let one = place(f, Token::Dot, c);
    let two = place(f, Token::Range, range().text);
    assert(one.out =~= f.out + l + seq!['.']);
    assert(two.out =~= f.out + l + seq!['.', '.']);
    assert(place(one, Token::Dot, d).out =~= two.out);
    assert(place(one, Token::Range, d).out =~= f.out + l + seq!['.', '.', '.']);
    assert(place(two, Token::Dot, dot().text).out =~= f.out + l + seq!['.', '.', '.']);
}

/// A blank that is put in where there was none shows.
proof fn l_blank_shows(a: Seq<LexemeView>, f: Layout, out: Seq<char>)
    requires
        a.len() > 0,
        is_due(f),
        a[0].token == Ok::<Token, LexFault>(Token::Number) || a[0].token == Ok::<Token, LexFault>(
            Token::Range,
        ) || a[0].token is Err,
        f.out.len() < out.len(),
        out[f.out.len() as int] != ' ',
    ensures
        laid_out(a, 0, f) != Ok::<Seq<char>, Fault>(out),
{
    if laid_out(a, 0, f) == Ok::<Seq<char>, Fault>(out) {
        let t = a[0].token->Ok_0;
        let g = place(f, t, a[0].text);
        let n = f.out.len() as int;
        l_prefix(a, 1, g, out);
        assert(lead(f, t)[0] == ' ');
        assert(g.out[n] == ' ');
        assert(g.out[n] == out[n - 0 + 0]);
    }
}

/// Dots that become a range after a blank is due take that blank.
proof fn l_dots_move(ls: Seq<LexemeView>, f: Layout, out: Seq<char>)
    requires
        laid_out(ls, 0, f) == Ok::<Seq<char>, Fault>(out),
        dots_at(ls, 0),
        is_due(f),
    ensures
        laid_out(lex_from(out, f.out.len() as int), 0, f) != Ok::<Seq<char>, Fault>(out),
{
    let i = f.out.len() as int;
    let g = place(f, Token::Dot, ls[0].text);
    let h = place(g, ls[1].token->Ok_0, ls[1].text);
    assert(laid_out(ls, 1, g) == Ok::<Seq<char>, Fault>(out));
    assert(laid_out(ls, 2, h) == Ok::<Seq<char>, Fault>(out));
    l_prefix(ls, 2, h, out);
    assert(g.out =~= f.out + seq!['.']);
    assert(h.out[i] == '.' && h.out[i + 1] == '.');
    assert(h.out[i] == out[i - 0 + 0]);
    assert(h.out[i + 1] == out[i + 1 - 0 + 0]);
    assert(scan(out, i) == (Scan::Token { token: Token::Range, end: i + 2 }));
    l_lex_step(out, i, Token::Range, i + 2);
    l_blank_shows(lex_from(out, i), f, out);
}

/// A zero before another digit is a number of its own.
proof fn l_zero(out: Seq<char>, i: int)
    requires
        0 <= i,
        i + 1 < out.len(),
        out[i] == '0',
        is_ascii_digit(out[i + 1]),
    ensures
        scan(out, i) == (Scan::Token { token: Token::Number, end: i + 1 }),
        lex_from(out, i + 1).len() > 0,
        lex_from(out, i + 1)[0].token == Ok::<Token, LexFault>(Token::Number) || lex_from(
            out,
            i + 1,
        )[0].token is Err,
{
    assert(number_end(out, i) == i + 1);
    let z = out.subrange(i, i + 1);
    assert(all_ascii(z)) by {
        assert(z[0] == '0');
    }
    let e = number_end(out, i + 1);
    assert(scan(out, i + 1) == scan_number(out, i + 1, i + 1));
}

/// How a number, a dot and a zero before another digit are read.
proof fn l_falls_apart(out: Seq<char>, j: int, y: Seq<char>)
    requires
        whole(Token::Number, y),
        has_point(y),
        same_run(y, 0, y.len() as int, out, j),
        j + y.len() + 2 < out.len(),
        out[j + y.len()] == '.',
        out[j + y.len() + 1] == '0',
        is_ascii_digit(out[j + y.len() + 2]),
    ensures
        ({
            let e = j + y.len();
            let a = lex_from(out, j);
            let b = lex_from(out, e);
            let c = lex_from(out, e + 1);
            &&& a.len() > 0 && a[0].token == number(y).token && a[0].text == y && a == seq![a[0]] + b
            &&& b.len() > 0 && b[0].token == dot().token && b == seq![b[0]] + c
            &&& c.len() > 0 && c[0].token == number(y).token && c[0].text.len() == 1 && c
                == seq![c[0]] + lex_from(out, e + 2)
        }),
{
    reveal(whole);
    let e = j + y.len();
    lemma_ascii_decimal('.');
    assert(y.subrange(0, y.len() as int) =~= y);
    l_scan(y, 0, out, j, Token::Number, y.len() as int);
    l_lex_step(out, j, Token::Number, e);
    assert(out.subrange(j, e) =~= y) by {
        assert forall|m: int| 0 <= m < y.len() implies out.subrange(j, e)[m] == #[trigger] y[m] by {
            assert(y[m] == out[m - 0 + j]);
        }
    }
    assert(scan(out, e) == (Scan::Token { token: Token::Dot, end: e + 1 }));
    l_lex_step(out, e, Token::Dot, e + 1);
    l_zero(out, e + 1);
    l_lex_step(out, e + 1, Token::Number, e + 2);
}

/// What has fallen apart is not laid out as it was.
proof fn l_gap_shows(f: Layout, y: Seq<char>, out: Seq<char>, a: Seq<LexemeView>, e: int)
    requires
        e == f.out.len() + lead(f, Token::Number).len() + y.len(),
        e + 2 < out.len(),
        is_ascii_digit(out[e + 2]),
        ({
            let b = lex_from(out, e);
            let c = lex_from(out, e + 1);
            let d = lex_from(out, e + 2);
            &&& a.len() > 0 && a[0].token == number(y).token && a[0].text == y && a == seq![a[0]] + b
            &&& b.len() > 0 && b[0].token == dot().token && b == seq![b[0]] + c
            &&& c.len() > 0 && c[0].token == number(y).token && c[0].text.len() == 1 && c
                == seq![c[0]] + d
            &&& d.len() > 0 && (d[0].token == number(y).token || d[0].token is Err)
        }),
    ensures
        laid_out(a, 0, f) != Ok::<Seq<char>, Fault>(out),
{
    let b = lex_from(out, e);
    let c = lex_from(out, e + 1);
    let d = lex_from(out, e + 2);
    l_first_placed(a[0], b, f);
    let f1 = place(f, Token::Number, y);
    l_first_placed(b[0], c, f1);
    let f2 = place(f1, Token::Dot, b[0].text);
    l_first_placed(c[0], d, f2);
    let f3 = place(f2, Token::Number, c[0].text);
    assert(f1.out.len() == e);
    assert(f2.out.len() == e + 1);
    assert(f3.out.len() == e + 2);
    l_blank_shows(d, f3, out);
}

/// A number after a second dot that begins with a zero falls apart.
#[verifier::rlimit(40)]
proof fn l_zero_moves(f: Layout, x: Seq<char>, b: Seq<char>, out: Seq<char>)
    requires
        whole(Token::Number, x),
        !has_point(x),
        whole(Token::Number, b),
        b[0] != '-',
        zero_leads(b),
        ({
            let text = f.out + lead(f, Token::Number) + x + seq!['.'] + b;
            same_run(text, 0, text.len() as int, out, 0)
        }),
    ensures
        laid_out(lex_from(out, f.out.len() as int), 0, f) != Ok::<Seq<char>, Fault>(out),
{
    let p = choose|p: int|
        0 <= p && p + 2 < b.len() && #[trigger] b[p] == '.' && b[p + 1] == '0' && is_ascii_digit(
            b[p + 2],
        );
    assert(b.contains('.'));
    l_signs(b);
    l_left_over(b);
    l_joined(x, b);
    let l = lead(f, Token::Number);
    let r = left_over(b);
    let y = x + seq!['.'] + taken(b);
    let text = f.out + l + x + seq!['.'] + b;
    let i = f.out.len() as int;
    let j = i + l.len();
    let e = j + y.len();
    assert(text =~= f.out + l + y + seq!['.'] + r);
    assert forall|m: int| i <= m < j implies #[trigger] out[m] == ' ' by {
        assert(l[m - i] == ' ');
        assert(text[m] == l[m - i]);
        assert(text[m] == out[m - 0 + 0]);
    }
    l_blanks(out, i, j);
    assert forall|m: int| 0 <= m < y.len() implies #[trigger] y[m] == out[m - 0 + j] by {
        assert(text[j + m] == y[m]);
        assert(text[j + m] == out[j + m - 0 + 0]);
    }
    assert(text[e] == '.' && text[e] == out[e - 0 + 0]);
    assert(text[e + 1] == r[0] && text[e + 1] == out[e + 1 - 0 + 0]);
    assert(text[e + 2] == r[1] && text[e + 2] == out[e + 2 - 0 + 0]);
    l_falls_apart(out, j, y);
    l_zero(out, e + 1);
    l_gap_shows(f, y, out, lex_from(out, j), e);
}

/// The text, read again from where the layout stands, is laid out as it is.
spec fn stays(f: Layout, out: Seq<char>) -> bool {
    laid_out(lex_from(out, f.out.len() as int), 0, f) == Ok::<Seq<char>, Fault>(out)
}

/// What may stand before the tokens from index `k` on in place of those before
/// them: nothing, the rest of a number, or a dot.
spec fn head_ok(ls: Seq<LexemeView>, k: int, h: Seq<LexemeView>, f: Layout) -> bool {
    ||| h.len() == 0 && (is_token(ls, k - 1, Token::LineComment) || is_due(f) == blank_due(
        ls,
        k - 1,
    ))
    ||| h.len() == 1 && h[0].token == number(h[0].text).token && whole(Token::Number, h[0].text)
        && is_token(ls, k - 1, Token::Number)
    ||| h.len() == 1 && h[0].token == dot().token && h[0].text == dot().text && (is_token(
        ls,
        k - 1,
        Token::Dot,
    ) || is_token(ls, k - 1, Token::Range)) && (is_token(ls, k, Token::Dot) || is_token(
        ls,
        k,
        Token::Range,
    ) ==> !is_due(f))
}

/// The number before index `k` takes a fraction.
spec fn is_open(h: Seq<LexemeView>) -> bool {
    h.len() == 1 && h[0].token == number(h[0].text).token && !has_point(h[0].text)
}

/// A number that has got its fraction is read again.
proof fn l_fraction_read(ls: Seq<LexemeView>, k: int, y: Seq<char>, f: Layout, out: Seq<char>)
    requires
        0 <= k <= ls.len(),
        readable(ls),
        whole(Token::Number, y),
        has_point(y),
        laid_out(ls.skip(k), 0, place(f, Token::Number, y)) == Ok::<Seq<char>, Fault>(out),
    ensures
        stays(f, out) == stays(place(f, Token::Number, y), out),
{
    let tail = ls.skip(k);
    l_first_placed(number(y), tail, f);
    assert(seq![number(y)][0] == number(y));
    l_heads(seq![number(y)], ls, k);
    assert((seq![number(y)] + tail)[0] == number(y));
    l_emit(number(y), tail, f, out);
}

/// A number that has got its fraction is read again, and the dot after it.
#[verifier::rlimit(40)]
proof fn l_fraction_and_dot_read(
    ls: Seq<LexemeView>,
    k: int,
    y: Seq<char>,
    r: Seq<char>,
    f: Layout,
    out: Seq<char>,
)
    requires
        0 <= k <= ls.len(),
        readable(ls),
        whole(Token::Number, y),
        has_point(y),
        whole(Token::Number, r),
        laid_out(
            ls.skip(k),
            0,
            place(place(place(f, Token::Number, y), Token::Dot, dot().text), Token::Number, r),
        ) == Ok::<Seq<char>, Fault>(out),
    ensures
        ({
            let p = place(place(f, Token::Number, y), Token::Dot, dot().text);
            &&& stays(f, out) == stays(p, out)
            &&& laid_out(seq![number(r)] + ls.skip(k), 0, p) == Ok::<Seq<char>, Fault>(out)
        }),
{
    let tail = ls.skip(k);
    let p1 = place(f, Token::Number, y);
    let p2 = place(p1, Token::Dot, dot().text);
    let last = seq![number(r)] + tail;
    let two = seq![dot()] + last;
    l_dots_sound();
    l_first_placed(number(r), tail, p2);
    l_first_placed(dot(), last, p1);
    l_first_placed(number(y), two, f);
    let three = seq![number(y), dot(), number(r)];
    assert(three[0] == number(y) && three[1] == dot() && three[2] == number(r));
    assert(three + tail =~= seq![number(y)] + two);
    l_heads(three, ls, k);
    assert((seq![number(y)] + two)[0] == number(y));
    l_emit(number(y), two, f, out);
    let pair = seq![dot(), number(r)];
    assert(pair[0] == dot() && pair[1] == number(r));
    assert(pair + tail =~= two);
    l_heads(pair, ls, k);
    assert(two[0] == dot() && two[1] == number(r));
    l_emit(dot(), last, p1, out);
}

/// What is laid out after a number, a dot and a number.
proof fn l_three_placed(ls: Seq<LexemeView>, k: int, x: LexemeView, f: Layout)
    requires
        0 <= k,
        k + 1 < ls.len(),
        x.token is Ok,
        ls[k].token is Ok,
        ls[k + 1].token is Ok,
    ensures
        laid_out(seq![x] + ls.skip(k), 0, f) == laid_out(
            ls.skip(k + 2),
            0,
            place(
                place(
                    place(f, x.token->Ok_0, x.text),
                    ls[k].token->Ok_0,
                    ls[k].text,
                ),
                ls[k + 1].token->Ok_0,
                ls[k + 1].text,
            ),
        ),
{
    let tail = ls.skip(k + 2);
    let f1 = place(f, x.token->Ok_0, x.text);
    let f2 = place(f1, ls[k].token->Ok_0, ls[k].text);
    assert(ls.skip(k) =~= seq![ls[k]] + (seq![ls[k + 1]] + tail));
    l_first_placed(x, ls.skip(k), f);
    l_first_placed(ls[k], seq![ls[k + 1]] + tail, f1);
    l_first_placed(ls[k + 1], tail, f2);
}

/// A zero leads only in a fraction.
proof fn l_zero_after_dot(b: Seq<char>)
    requires
        zero_leads(b),
    ensures
        b.contains('.'),
{
    let p = choose|p: int|
        0 <= p && p + 2 < b.len() && #[trigger] b[p] == '.' && b[p + 1] == '0' && is_ascii_digit(
            b[p + 2],
        );
    assert(b[p] == '.');
}

/// A number that takes a fraction gets one.
#[verifier::rlimit(40)]
proof fn l_again_joined(ls: Seq<LexemeView>, k: int, x: LexemeView, f: Layout, out: Seq<char>)
    requires
        0 < k <= ls.len(),
        readable(ls),
        laid_out(seq![x] + ls.skip(k), 0, f) == Ok::<Seq<char>, Fault>(out),
        x.token == number(x.text).token,
        whole(Token::Number, x.text),
        !has_point(x.text),
        is_token(ls, k, Token::Dot),
        unsigned_at(ls, k + 1),
    ensures
        stays(f, out) <==> settled(ls, k, true),
    decreases ls.len() - k, 2int,
{
    let b = ls[k + 1].text;
    let y = x.text + seq!['.'] + taken(b);
    assert(sound(ls[k + 1]));
    l_signs(b);
    l_number_layout(f, x.text, b, ls[k].text);
    l_joined(x.text, b);
    l_three_placed(ls, k, x, f);
    let g = place(
        place(place(f, Token::Number, x.text), Token::Dot, ls[k].text),
        Token::Number,
        b,
    );
    if zero_leads(b) {
        l_zero_after_dot(b);
        l_prefix(ls.skip(k + 2), 0, g, out);
        l_zero_moves(f, x.text, b, out);
    } else if b.contains('.') {
        l_left_over(b);
        let r = left_over(b);
        let p = place(place(f, Token::Number, y), Token::Dot, dot().text);
        l_fraction_and_dot_read(ls, k + 2, y, r, f, out);
        assert(seq![number(r)][0] == number(r));
        l_again(ls, k + 2, seq![number(r)], p, out);
    } else {
        let none = Seq::<LexemeView>::empty();
        assert(none + ls.skip(k + 2) =~= ls.skip(k + 2));
        l_fraction_read(ls, k + 2, y, f, out);
        l_again(ls, k + 2, none, g, out);
    }
}

/// A text stays as it is exactly where its tokens are settled.
proof fn l_again(ls: Seq<LexemeView>, k: int, h: Seq<LexemeView>, f: Layout, out: Seq<char>)
    requires
        0 <= k <= ls.len(),
        readable(ls),
        laid_out(h + ls.skip(k), 0, f) == Ok::<Seq<char>, Fault>(out),
        head_ok(ls, k, h, f),
    ensures
        stays(f, out) <==> settled(ls, k, is_open(h)),
    decreases ls.len() - k, 1 + 2 * h.len(),
{
    let none = Seq::<LexemeView>::empty();
    let tail = ls.skip(k);
    assert(none + tail =~= tail);
    if h.len() == 1 && h[0].token == number(h[0].text).token {
        let x = h[0];
        assert(h =~= seq![x]);
        let l = seq![x] + tail;
        assert(l[0] == x);
        if k < ls.len() {
            assert(l[1] == ls[k]);
        }
        if k + 1 < ls.len() {
            assert(l[2] == ls[k + 1]);
        }
        if is_open(h) && is_token(ls, k, Token::Dot) && unsigned_at(ls, k + 1) {
            l_again_joined(ls, k, x, f, out);
        } else {
            l_heads(h, ls, k);
            l_emit(x, tail, f, out);
            l_again(ls, k, none, place(f, Token::Number, x.text), out);
        }
    } else if h.len() == 1 {
        assert(h =~= seq![h[0]]);
        l_again_dot(ls, k, h[0], f, out);
    } else {
        assert(h =~= none);
        if k == ls.len() {
            l_prefix(tail, 0, f, out);
            assert(out == f.out);
        } else {
            let a = ls[k];
            let rest = ls.skip(k + 1);
            assert(tail =~= seq![a] + rest);
            assert(tail[0] == a);
            assert(sound(a));
            assert(a.token is Ok);
            if a.token == number(a.text).token {
                assert(seq![a][0] == a);
                l_again(ls, k + 1, seq![a], f, out);
            } else if a.token == dot().token {
                l_again_at_dot(ls, k, f, out);
            } else {
                assert(tail == none + tail);
                l_heads(none, ls, k);
                l_emit(a, rest, f, out);
                let g = place(f, a.token->Ok_0, a.text);
                assert(none + rest =~= rest);
                l_again(ls, k + 1, none, g, out);
            }
        }
    }
}

/// From a dot of the source on.
proof fn l_again_at_dot(ls: Seq<LexemeView>, k: int, f: Layout, out: Seq<char>)
    requires
        0 <= k < ls.len(),
        readable(ls),
        laid_out(ls.skip(k), 0, f) == Ok::<Seq<char>, Fault>(out),
        head_ok(ls, k, Seq::empty(), f),
        is_token(ls, k, Token::Dot),
    ensures
        stays(f, out) <==> settled(ls, k, false),
    decreases ls.len() - k, 0int,
{
    let tail = ls.skip(k);
    let rest = ls.skip(k + 1);
    let a = ls[k];
    assert(tail =~= seq![a] + rest);
    assert(tail[0] == a);
    if k + 1 < ls.len() {
        assert(tail[1] == ls[k + 1]);
    }
    assert(sound(a));
    assert(comment_ends(ls, k - 1) || k == 0);
    if blank_due(ls, k - 1) && dots_at(ls, k) {
        l_dots_move(tail, f, out);
    } else {
        l_first_placed(a, rest, f);
        l_first_placed(dot(), rest, f);
        assert(place(f, Token::Dot, a.text) == place(f, Token::Dot, dot().text));
        assert(seq![dot()][0] == dot());
        l_again(ls, k + 1, seq![dot()], f, out);
    }
}

/// From a dot on that stands for one of the source.
proof fn l_again_dot(ls: Seq<LexemeView>, k: int, x: LexemeView, f: Layout, out: Seq<char>)
    requires
        0 <= k <= ls.len(),
        readable(ls),
        laid_out(seq![x] + ls.skip(k), 0, f) == Ok::<Seq<char>, Fault>(out),
        head_ok(ls, k, seq![x], f),
        x.token == dot().token,
    ensures
        stays(f, out) <==> settled(ls, k, false),
    decreases ls.len() - k, 2int,
{
    assert(seq![x][0] == x);
    let none = Seq::<LexemeView>::empty();
    let tail = ls.skip(k);
    let l = seq![x] + tail;
    assert(l[0] == x);
    assert(none + tail =~= tail);
    l_dots_sound();
    l_first_placed(x, tail, f);
    let g = place(f, Token::Dot, x.text);
    if k < ls.len() {
        assert(l[1] == ls[k]);
    }
    if is_token(ls, k, Token::Dot) || is_token(ls, k, Token::Range) {
        let a = ls[k];
        let rest = ls.skip(k + 1);
        assert(tail =~= seq![a] + rest);
        l_dots_layout(f, x.text, a.text);
        l_first_placed(a, rest, g);
        let p = place(f, Token::Range, range().text);
        assert(none + rest =~= rest);
        if is_token(ls, k, Token::Dot) {
            l_first_placed(range(), rest, f);
            l_heads(seq![range()], ls, k + 1);
            assert((seq![range()] + rest)[0] == range());
            l_emit(range(), rest, f, out);
            l_again(ls, k + 1, none, p, out);
        } else {
            let two = seq![dot()] + rest;
            l_first_placed(dot(), rest, p);
            l_first_placed(range(), two, f);
            assert(seq![range(), dot()] + rest =~= seq![range()] + two);
            l_heads(seq![range(), dot()], ls, k + 1);
            assert((seq![range()] + two)[0] == range());
            l_emit(range(), two, f, out);
            assert(seq![dot()][0] == dot());
            l_again(ls, k + 1, seq![dot()], p, out);
        }
    } else {
        l_heads(seq![x], ls, k);
        l_emit(x, tail, f, out);
        l_again(ls, k, none, g, out);
    }
}

/// A formatted source stays as it is when it is formatted again exactly where
/// its tokens are settled. What changes once more is a source in which dots
/// become a range where a blank is due, such as `a . . b`, which becomes `a..b`
/// and then `a ..b`, and one in which a dot joins numbers and leaves over one
/// that a zero leads, such as `1 . 5.02`, which becomes `1.5.02` and then
/// `1.5.0 2`.
pub proof fn law_formatting_twice_is_formatting_once(source: Seq<char>)
    ensures
        formatted(source) matches Ok(out) ==> (formatted(out) == Ok::<Seq<char>, Fault>(out)
            <==> settled(lexed(source), 0, false)),
{
    if formatted(source) is Ok {
        let out = formatted(source)->Ok_0;
        let ls = lexed(source);
        let none = Seq::<LexemeView>::empty();
        l_lexed(source, 0);
        assert(none + ls.skip(0) =~= ls);
        l_again(ls, 0, none, empty_layout(), out);
    }
}

/// A dot stands between a number and another without a sign, whose fraction
/// begins with a zero and goes on with a digit.
pub open spec fn zero_joined_at(ls: Seq<LexemeView>, k: int) -> bool {
    is_token(ls, k - 1, Token::Number) && is_token(ls, k, Token::Dot) && unsigned_at(ls, k + 1)
        && zero_leads(ls[k + 1].text)
}

proof fn l_settled(ls: Seq<LexemeView>, k: int, open: bool)
    requires
        0 <= k <= ls.len(),
        open ==> is_token(ls, k - 1, Token::Number),
        forall|i: int| 0 <= i < ls.len() ==> !(#[trigger] dots_at(ls, i)),
        forall|i: int| 0 <= i < ls.len() ==> !(#[trigger] zero_joined_at(ls, i)),
    ensures
        settled(ls, k, open),
    decreases ls.len() - k,
{
    if k < ls.len() {
        assert(!dots_at(ls, k));
        assert(!zero_joined_at(ls, k));
        if open && is_token(ls, k, Token::Dot) && unsigned_at(ls, k + 1) {
            l_settled(ls, k + 2, only_fraction(ls[k + 1].text));
        } else {
            l_settled(ls, k + 1, is_token(ls, k, Token::Number) && !has_point(ls[k].text));
        }
    }
}

/// So formatting a formatted source changes nothing, where no dot stands right
/// before a dot or a range, and none joins a number to one in whose fraction a
/// zero leads.
pub proof fn law_formatted_source_stays(source: Seq<char>)
    requires
        forall|k: int| 0 <= k < lexed(source).len() ==> !(#[trigger] dots_at(lexed(source), k)),
        forall|k: int|
            0 <= k < lexed(source).len() ==> !(#[trigger] zero_joined_at(lexed(source), k)),
    ensures
        formatted(source) matches Ok(out) ==> formatted(out) == Ok::<Seq<char>, Fault>(out),
{
    law_formatting_twice_is_formatting_once(source);
    l_settled(lexed(source), 0, false);
}

} // verus!
