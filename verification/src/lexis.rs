//! What the words of a script are, and where they end.
use crate::grammar::NumberView;
use crate::grammar::items_of;
use crate::grammar::numbers_before;
use crate::lexer::CharClass;
use crate::lexer::LexFault;
use crate::lexer::LexemeView;
use crate::lexer::Scan;
use crate::lexer::Token;
use crate::lexer::all_ascii;
use crate::lexer::class_end;
use crate::lexer::comment_end;
use crate::lexer::exponent_end;
use crate::lexer::float_fault;
use crate::lexer::fraction_end;
use crate::lexer::groups_end;
use crate::lexer::in_class;
use crate::lexer::is_decimal;
use crate::lexer::is_escape;
use crate::lexer::is_hex_digit;
use crate::lexer::is_letter;
use crate::lexer::lemma_ascii_decimal;
use crate::lexer::lemma_scan_end;
use crate::lexer::lex_from;
use crate::lexer::lexed;
use crate::lexer::literal_texts;
use crate::lexer::number_end;
use crate::lexer::scan;
use crate::lexer::scan_end;
use crate::lexer::string_end;
use crate::lexer::token_text;
use crate::lexer::without_underscores;
use crate::lexer::word_token;
use crate::text::lemma_encode_concat;
use crate::text::quoted;
use crate::text::quoted_char;
use vstd::prelude::*;
use vstd::utf8::encode_utf8;

verus! {

/// The character may stand in a name.
pub open spec fn in_name(c: char) -> bool {
    'a' <= c <= 'z' || 'A' <= c <= 'Z' || c == '_' || '0' <= c <= '9'
}

/// The characters between two indices are the digits from zero to nine.
pub open spec fn digits(s: Seq<char>, i: int, e: int) -> bool {
    &&& 0 <= i < e <= s.len()
    &&& forall|k: int| i <= k < e ==> '0' <= #[trigger] s[k] <= '9'
}

/// Neither a digit of any script nor an underscore stands at the index.
pub open spec fn digits_end(s: Seq<char>, e: int) -> bool {
    e < s.len() ==> !is_decimal(s[e]) && s[e] != '_'
}

/// No exponent starts at the index.
pub open spec fn no_exponent(s: Seq<char>, e: int) -> bool {
    e < s.len() ==> s[e] != 'e' && s[e] != 'E'
}

proof fn lemma_class_end_at(s: Seq<char>, i: int, e: int, k: CharClass)
    requires
        0 <= i <= e <= s.len(),
        forall|j: int| i <= j < e ==> in_class(#[trigger] s[j], k),
        e < s.len() ==> !in_class(s[e], k),
    ensures
        class_end(s, i, k) == e,
    decreases e - i,
{
    if i < e {
        lemma_class_end_at(s, i + 1, e, k);
    }
}

proof fn lemma_digits_end_at(s: Seq<char>, i: int, from: int, e: int)
    requires
        digits(s, i, e),
        i <= from <= e,
        digits_end(s, e),
    ensures
        class_end(s, from, CharClass::Digit) == e,
        groups_end(s, e) == e,
{
    assert forall|j: int| from <= j < e implies in_class(#[trigger] s[j], CharClass::Digit) by {
        lemma_ascii_decimal(s[j]);
    }
    lemma_class_end_at(s, from, e, CharClass::Digit);
}

proof fn lemma_stops_at(s: Seq<char>, i: int, from: int, e: int)
    requires
        digits(s, i, e),
        i <= from <= e,
        e < s.len() ==> !is_decimal(s[e]),
    ensures
        class_end(s, from, CharClass::Digit) == e,
{
    assert forall|j: int| from <= j < e implies in_class(#[trigger] s[j], CharClass::Digit) by {
        lemma_ascii_decimal(s[j]);
    }
    lemma_class_end_at(s, from, e, CharClass::Digit);
}

/// A number is found from its first digit and from the minus before it alike.
proof fn lemma_number_from(s: Seq<char>, i: int, e: int)
    requires
        0 <= i < e <= s.len(),
        '0' <= s[i] <= '9',
        number_end(s, i) == e,
        forall|k: int| i <= k < e ==> (#[trigger] s[k] as u32) < 0x80,
    ensures
        scan(s, i) == (Scan::Token { token: Token::Number, end: e }),
        i > 0 && s[i - 1] == '-' ==> scan(s, i - 1) == (Scan::Token { token: Token::Number, end: e }),
{
    assert(all_ascii(s.subrange(i, e)));
    if i > 0 && s[i - 1] == '-' {
        let w = s.subrange(i - 1, e);
        assert forall|k: int| 0 <= k < w.len() implies (#[trigger] w[k] as u32) < 0x80 by {
            assert(w[k] == s[i - 1 + k]);
        }
    }
}

/// A word goes on as long as it can. It is a name, unless it is one of the words
/// that the language has for itself.
pub proof fn law_words_are_names_or_keywords(s: Seq<char>, i: int, e: int)
    requires
        0 <= i < e <= s.len(),
        forall|k: int| i <= k < e ==> in_name(#[trigger] s[k]),
        !('0' <= s[i] <= '9'),
        e < s.len() ==> !in_name(s[e]),
    ensures
        scan(s, i) matches Scan::Token { token, end } && end == e && {
            let w = s.subrange(i, e);
            &&& w == "mut"@ ==> token == Token::MutableVar
            &&& w == "let"@ ==> token == Token::ImmutableVar
            &&& w == "fn"@ ==> token == Token::Fn
            &&& w == "return"@ ==> token == Token::Return
            &&& w == "continue"@ ==> token == Token::Continue
            &&& w == "if"@ ==> token == Token::If
            &&& w == "else"@ ==> token == Token::Else
            &&& w == "spawn"@ ==> token == Token::Spawn
            &&& w == "for"@ ==> token == Token::For
            &&& w == "while"@ ==> token == Token::While
            &&& w == "in"@ ==> token == Token::In
            &&& w == "true"@ ==> token == Token::Bool(true)
            &&& w == "false"@ ==> token == Token::Bool(false)
            &&& token == Token::Identifier <==> !(w == "mut"@ || w == "let"@ || w == "fn"@ || w
                == "return"@ || w == "continue"@ || w == "if"@ || w == "else"@ || w == "spawn"@ || w
                == "for"@ || w == "while"@ || w == "in"@ || w == "true"@ || w == "false"@)
        },
{
    lemma_class_end_at(s, i, e, CharClass::Word);
    assert(is_letter(s[i]));
    lemma_keywords();
}

/// No keyword is another.
proof fn lemma_keywords()
    ensures
        word_token("mut"@) == Token::MutableVar,
        word_token("let"@) == Token::ImmutableVar,
        word_token("fn"@) == Token::Fn,
        word_token("return"@) == Token::Return,
        word_token("continue"@) == Token::Continue,
        word_token("if"@) == Token::If,
        word_token("else"@) == Token::Else,
        word_token("spawn"@) == Token::Spawn,
        word_token("for"@) == Token::For,
        word_token("while"@) == Token::While,
        word_token("in"@) == Token::In,
        word_token("true"@) == Token::Bool(true),
        word_token("false"@) == Token::Bool(false),
{
    reveal_strlit("mut");
    reveal_strlit("let");
    reveal_strlit("fn");
    reveal_strlit("return");
    reveal_strlit("continue");
    reveal_strlit("if");
    reveal_strlit("else");
    reveal_strlit("spawn");
    reveal_strlit("for");
    reveal_strlit("while");
    reveal_strlit("in");
    reveal_strlit("true");
    reveal_strlit("false");
    assert("mut"@.len() == 3 && "mut"@[0] == 'm');
    assert("let"@.len() == 3 && "let"@[0] == 'l');
    assert("fn"@.len() == 2 && "fn"@[0] == 'f');
    assert("return"@.len() == 6);
    assert("continue"@.len() == 8);
    assert("if"@.len() == 2 && "if"@[0] == 'i' && "if"@[1] == 'f');
    assert("else"@.len() == 4 && "else"@[0] == 'e');
    assert("spawn"@.len() == 5 && "spawn"@[0] == 's');
    assert("for"@.len() == 3 && "for"@[0] == 'f');
    assert("while"@.len() == 5 && "while"@[0] == 'w');
    assert("in"@.len() == 2 && "in"@[0] == 'i' && "in"@[1] == 'n');
    assert("true"@.len() == 4 && "true"@[0] == 't');
    assert("false"@.len() == 5 && "false"@[0] == 'f');
}

/// Digits are a number, as far as they go; a zero in front is a number of its own. A
/// point behind them that no digit follows is not part of it, and a minus right
/// before them is.
pub proof fn law_digits_are_numbers(s: Seq<char>, i: int, e: int)
    requires
        digits(s, i, e),
        s[i] != '0' || e == i + 1,
        digits_end(s, e) || s[i] == '0' && e < s.len() && s[e] != '_',
        no_exponent(s, e),
        e < s.len() && s[e] == '.' ==> e + 1 == s.len() || !is_decimal(s[e + 1]),
    ensures
        scan(s, i) == (Scan::Token { token: Token::Number, end: e }),
        i > 0 && s[i - 1] == '-' ==> scan(s, i - 1) == (Scan::Token { token: Token::Number, end: e }),
{
    if s[i] != '0' {
        lemma_digits_end_at(s, i, i + 1, e);
    }
    assert(groups_end(s, e) == e);
    lemma_number_from(s, i, e);
}

/// A point and digits behind digits belong to the number.
pub proof fn law_numbers_have_fractions(s: Seq<char>, i: int, a: int, e: int)
    requires
        digits(s, i, a),
        s[i] != '0' || a == i + 1,
        a < s.len() && s[a] == '.',
        digits(s, a + 1, e),
        digits_end(s, e),
        no_exponent(s, e),
    ensures
        scan(s, i) == (Scan::Token { token: Token::Number, end: e }),
        i > 0 && s[i - 1] == '-' ==> scan(s, i - 1) == (Scan::Token { token: Token::Number, end: e }),
{
    lemma_ascii_decimal('.');
    lemma_ascii_decimal(s[a + 1]);
    if s[i] != '0' {
        lemma_stops_at(s, i, i + 1, a);
    }
    lemma_digits_end_at(s, a + 1, a + 1, e);
    assert(fraction_end(s, a) == e);
    lemma_number_from(s, i, e);
}

/// An exponent behind digits belongs to the number, with its sign.
pub proof fn law_numbers_have_exponents(s: Seq<char>, i: int, a: int, j: int, e: int)
    requires
        digits(s, i, a),
        s[i] != '0' || a == i + 1,
        a < s.len() && (s[a] == 'e' || s[a] == 'E'),
        j == a + 1 || j == a + 2 && (s[a + 1] == '+' || s[a + 1] == '-'),
        digits(s, j, e),
        digits_end(s, e),
    ensures
        scan(s, i) == (Scan::Token { token: Token::Number, end: e }),
        i > 0 && s[i - 1] == '-' ==> scan(s, i - 1) == (Scan::Token { token: Token::Number, end: e }),
{
    lemma_ascii_decimal(s[a]);
    lemma_ascii_decimal(s[j]);
    if s[i] != '0' {
        lemma_stops_at(s, i, i + 1, a);
    }
    lemma_digits_end_at(s, j, j, e);
    assert(s[j] != '+' && s[j] != '-');
    assert(exponent_end(s, a) == e);
    lemma_number_from(s, i, e);
}

/// Underscores may part the digits of a number into groups.
pub proof fn law_numbers_have_groups(s: Seq<char>, i: int, a: int, e: int)
    requires
        digits(s, i, a),
        s[i] != '0' || a == i + 1,
        a < s.len() && s[a] == '_',
        digits(s, a + 1, e),
        digits_end(s, e),
        no_exponent(s, e),
        e < s.len() ==> s[e] != '.',
    ensures
        scan(s, i) == (Scan::Token { token: Token::Number, end: e }),
        i > 0 && s[i - 1] == '-' ==> scan(s, i - 1) == (Scan::Token { token: Token::Number, end: e }),
{
    lemma_ascii_decimal('_');
    lemma_ascii_decimal(s[a + 1]);
    if s[i] != '0' {
        lemma_stops_at(s, i, i + 1, a);
    }
    lemma_digits_end_at(s, a + 1, a + 1, e);
    reveal_with_fuel(groups_end, 2);
    assert(groups_end(s, a) == e);
    lemma_number_from(s, i, e);
}

/// The character behind an index, or a blank at the end.
pub open spec fn behind(s: Seq<char>, i: int) -> char {
    if i + 1 < s.len() {
        s[i + 1]
    } else {
        ' '
    }
}

/// A token that takes so many characters.
pub open spec fn takes(s: Seq<char>, i: int, t: Token, n: int) -> bool {
    scan(s, i) == (Scan::Token { token: t, end: i + n })
}

/// Each sign is its own token. Where two characters make one sign, it is taken
/// before the sign that the first is alone.
pub proof fn law_signs_are_their_tokens(s: Seq<char>, i: int)
    requires
        0 <= i < s.len(),
    ensures
        s[i] == '\n' ==> takes(s, i, Token::Newline, 1),
        s[i] == '+' ==> takes(s, i, Token::Plus, 1),
        s[i] == '-' && !('0' <= behind(s, i) <= '9') ==> takes(s, i, Token::Minus, 1),
        s[i] == '*' ==> takes(s, i, Token::Mul, 1),
        s[i] == '/' && behind(s, i) != '/' && behind(s, i) != '*' ==> takes(s, i, Token::Div, 1),
        s[i] == '=' && behind(s, i) == '=' ==> takes(s, i, Token::Eq, 2),
        s[i] == '!' && behind(s, i) == '=' ==> takes(s, i, Token::Ne, 2),
        s[i] == '!' && behind(s, i) != '=' ==> takes(s, i, Token::Not, 1),
        s[i] == '<' && behind(s, i) == '=' ==> takes(s, i, Token::Le, 2),
        s[i] == '<' && behind(s, i) != '=' ==> takes(s, i, Token::Lt, 1),
        s[i] == '>' && behind(s, i) == '=' ==> takes(s, i, Token::Ge, 2),
        s[i] == '>' && behind(s, i) != '=' ==> takes(s, i, Token::Gt, 1),
        s[i] == '.' && behind(s, i) == '.' ==> takes(s, i, Token::Range, 2),
        s[i] == '.' && behind(s, i) != '.' ==> takes(s, i, Token::Dot, 1),
        s[i] == ':' ==> takes(s, i, Token::Colon, 1),
        s[i] == ',' ==> takes(s, i, Token::Comma, 1),
        s[i] == '{' ==> takes(s, i, Token::LBrace, 1),
        s[i] == '}' ==> takes(s, i, Token::RBrace, 1),
        s[i] == '(' ==> takes(s, i, Token::LParen, 1),
        s[i] == ')' ==> takes(s, i, Token::RParen, 1),
        s[i] == '[' ==> takes(s, i, Token::LBracket, 1),
        s[i] == ']' ==> takes(s, i, Token::RBracket, 1),
{
}

/// A character with which no token starts is an error that names it, and reading
/// goes on behind it.
pub proof fn law_other_characters_are_errors(s: Seq<char>, i: int)
    requires
        0 <= i < s.len(),
        !in_name(s[i]),
        s[i] == '=' ==> behind(s, i) != '=',
        !seq![
            ' ',
            '\t',
            '\x0C',
            '\n',
            '+',
            '-',
            '*',
            '/',
            '!',
            '<',
            '>',
            '.',
            ':',
            ',',
            '{',
            '}',
            '(',
            ')',
            '[',
            ']',
            '"',
            '`',
        ].contains(s[i]),
    ensures
        scan(s, i) == (Scan::Bad { fault: LexFault::NonAsciiCharacter(s[i]), end: i + 1 }),
{
    let known = seq![
        ' ',
        '\t',
        '\x0C',
        '\n',
        '+',
        '-',
        '*',
        '/',
        '!',
        '<',
        '>',
        '.',
        ':',
        ',',
        '{',
        '}',
        '(',
        ')',
        '[',
        ']',
        '"',
        '`',
    ];
    assert(known.len() == 22);
    assert forall|k: int| 0 <= k < 22 implies #[trigger] known[k] != s[i] by {
        assert(known.contains(known[k]));
    }
    assert(known[0] != s[i] && known[1] != s[i] && known[2] != s[i] && known[3] != s[i]);
    assert(known[4] != s[i] && known[5] != s[i] && known[6] != s[i] && known[7] != s[i]);
    assert(known[8] != s[i] && known[9] != s[i] && known[10] != s[i] && known[11] != s[i]);
    assert(known[12] != s[i] && known[13] != s[i] && known[14] != s[i] && known[15] != s[i]);
    assert(known[16] != s[i] && known[17] != s[i] && known[18] != s[i] && known[19] != s[i]);
    assert(known[20] != s[i] && known[21] != s[i]);
}

/// Blanks, tabs and form feeds are passed over together.
pub proof fn law_blanks_are_passed_over(s: Seq<char>, i: int, e: int)
    requires
        0 <= i < e <= s.len(),
        forall|k: int| i <= k < e ==> #[trigger] s[k] == ' ' || s[k] == '\t' || s[k] == '\x0C',
        e < s.len() ==> s[e] != ' ' && s[e] != '\t' && s[e] != '\x0C',
    ensures
        scan(s, i) == (Scan::Skip { end: e }),
{
    lemma_class_end_at(s, i, e, CharClass::Blank);
}

/// A comment goes to the end of its line, without the line break.
pub proof fn law_line_comments_end_with_their_line(s: Seq<char>, i: int, e: int)
    requires
        0 <= i,
        i + 2 <= e <= s.len(),
        s[i] == '/' && s[i + 1] == '/',
        forall|k: int| i + 2 <= k < e ==> #[trigger] s[k] != '\n',
        e < s.len() ==> s[e] == '\n',
    ensures
        scan(s, i) == (Scan::Token { token: Token::LineComment, end: e }),
{
    lemma_class_end_at(s, i + 2, e, CharClass::Line);
}

proof fn lemma_comment_end_at(s: Seq<char>, i: int, e: int)
    requires
        0 <= i <= e,
        e + 1 < s.len(),
        forall|k: int| i <= k < e ==> #[trigger] s[k] != '*',
        s[e] == '*' && s[e + 1] == '/',
    ensures
        comment_end(s, i) == Some(e + 2),
    decreases e - i,
{
    if i < e {
        lemma_comment_end_at(s, i + 1, e);
    }
}

/// A block comment is passed over up to the star and the slash that close it.
pub proof fn law_block_comments_are_passed_over(s: Seq<char>, i: int, e: int)
    requires
        0 <= i,
        i + 2 <= e,
        e + 1 < s.len(),
        s[i] == '/' && s[i + 1] == '*',
        forall|k: int| i + 2 <= k < e ==> #[trigger] s[k] != '*',
        s[e] == '*' && s[e + 1] == '/',
    ensures
        scan(s, i) == (Scan::Skip { end: e + 2 }),
{
    lemma_comment_end_at(s, i + 2, e);
}

/// The characters from one index to another make up the inside of a string: each
/// is no quote, no backslash and no control character, or belongs to an escape.
pub open spec fn inside_string(s: Seq<char>, i: int, e: int) -> bool
    decreases e - i,
{
    if i >= e {
        i == e
    } else if s[i] == '\\' {
        ||| i + 2 <= e && seq!['"', '\\', 'b', 'n', 'f', 'r', 't', '/'].contains(s[i + 1])
            && inside_string(s, i + 2, e)
        ||| i + 6 <= e && s[i + 1] == 'u' && is_hex_digit(s[i + 2]) && is_hex_digit(s[i + 3]) && is_hex_digit(
            s[i + 4],
        ) && is_hex_digit(s[i + 5]) && inside_string(s, i + 6, e)
    } else {
        s[i] != '"' && s[i] as u32 >= 0x20 && inside_string(s, i + 1, e)
    }
}

proof fn lemma_string_end_at(s: Seq<char>, i: int, e: int)
    requires
        0 <= i,
        inside_string(s, i, e),
        e < s.len(),
        s[e] == '"',
    ensures
        i <= e,
        string_end(s, i) == (true, e + 1),
    decreases e - i,
{
    if i < e {
        if s[i] == '\\' {
            let marks = seq!['"', '\\', 'b', 'n', 'f', 'r', 't', '/'];
            if i + 2 <= e && marks.contains(s[i + 1]) && inside_string(s, i + 2, e) {
                let k = choose|k: int| 0 <= k < marks.len() && marks[k] == s[i + 1];
                assert(is_escape(s[i + 1]));
                lemma_string_end_at(s, i + 2, e);
            } else {
                lemma_string_end_at(s, i + 6, e);
            }
        } else {
            lemma_string_end_at(s, i + 1, e);
        }
    }
}

/// A string goes to the first quote that no backslash protects, and its text is
/// what stands between the quotes.
pub proof fn law_strings_end_at_their_quote(s: Seq<char>, i: int, e: int)
    requires
        0 <= i < e < s.len(),
        s[i] == '"',
        inside_string(s, i + 1, e),
        s[e] == '"',
    ensures
        scan(s, i) == (Scan::Token { token: Token::String, end: e + 1 }),
        token_text(s, i, e + 1, Ok(Token::String)) == s.subrange(i + 1, e),
{
    lemma_string_end_at(s, i + 1, e);
}

/// A template goes to the next backquote, and its text is what stands before it.
pub proof fn law_templates_end_at_their_backquote(s: Seq<char>, i: int, e: int)
    requires
        0 <= i < e < s.len(),
        s[i] == '`',
        forall|k: int| i < k < e ==> #[trigger] s[k] != '`',
        s[e] == '`',
    ensures
        scan(s, i) == (Scan::Token { token: Token::Template, end: e + 1 }),
        token_text(s, i, e + 1, Ok(Token::Template)) == s.subrange(i + 1, e),
{
    lemma_class_end_at(s, i + 1, e, CharClass::Template);
}

/// A source text is read from its first character on. What is passed over leaves
/// nothing, and each token or error is followed by what comes behind it.
pub proof fn law_source_is_read_in_order(s: Seq<char>, i: int)
    requires
        0 <= i < s.len(),
    ensures
        lexed(s) == lex_from(s, 0),
        lex_from(s, s.len() as int) == Seq::<LexemeView>::empty(),
        i < scan_end(scan(s, i)) <= s.len(),
        scan(s, i) matches Scan::Skip { end } ==> lex_from(s, i) == lex_from(s, end),
        scan(s, i) matches Scan::Token { token, end } ==> {
            let all = lex_from(s, i);
            &&& all.len() == lex_from(s, end).len() + 1
            &&& all[0].token == Ok::<Token, LexFault>(token)
            &&& all[0].start == encode_utf8(s.take(i)).len()
            &&& all[0].end == encode_utf8(s.take(end)).len()
            &&& token != Token::String && token != Token::Template ==> all[0].text == s.subrange(
                i,
                end,
            )
            &&& all.skip(1) == lex_from(s, end)
        },
        scan(s, i) matches Scan::Bad { fault, end } ==> {
            let all = lex_from(s, i);
            &&& all.len() == lex_from(s, end).len() + 1
            &&& all[0].token == Err::<Token, LexFault>(fault)
            &&& all[0].start == encode_utf8(s.take(i)).len()
            &&& all[0].end == encode_utf8(s.take(end)).len()
            &&& all.skip(1) == lex_from(s, end)
        },
{
    lemma_scan_end(s, i);
    let all = lex_from(s, i);
    if !(scan(s, i) is Skip) {
        assert(all.skip(1) =~= lex_from(s, scan_end(scan(s, i))));
    }
}

/// A lexeme as it stands in the source: a string or a template with its quotes.
pub open spec fn as_read(l: LexemeView) -> Seq<char> {
    if l.token == Ok::<Token, LexFault>(Token::String) {
        seq!['"'] + l.text + seq!['"']
    } else if l.token == Ok::<Token, LexFault>(Token::Template) {
        seq!['`'] + l.text + seq!['`']
    } else {
        l.text
    }
}

/// The bytes of a source text where a lexeme stands are those of the lexeme.
pub proof fn law_lexemes_are_pieces_of_the_source(s: Seq<char>, k: int)
    requires
        0 <= k < lexed(s).len(),
    ensures
        encode_utf8(s).subrange(lexed(s)[k].start as int, lexed(s)[k].end as int) == encode_utf8(
            as_read(lexed(s)[k]),
        ),
{
    lemma_pieces(s, 0, k);
}

proof fn lemma_piece_bytes(s: Seq<char>, i: int, e: int)
    requires
        0 <= i <= e <= s.len(),
    ensures
        encode_utf8(s).subrange(
            encode_utf8(s.take(i)).len() as int,
            encode_utf8(s.take(e)).len() as int,
        ) == encode_utf8(s.subrange(i, e)),
{
    let piece = s.subrange(i, e);
    lemma_encode_concat(s.take(i), piece);
    assert(s.take(i) + piece =~= s.take(e));
    lemma_encode_concat(s.take(e), s.skip(e));
    assert(s.take(e) + s.skip(e) =~= s);
    assert(encode_utf8(s).subrange(
        encode_utf8(s.take(i)).len() as int,
        encode_utf8(s.take(e)).len() as int,
    ) =~= encode_utf8(piece));
}

proof fn lemma_first_piece(s: Seq<char>, i: int)
    requires
        0 <= i < s.len(),
        !(scan(s, i) is Skip),
    ensures
        lex_from(s, i).len() > 0,
        as_read(lex_from(s, i)[0]) == s.subrange(i, scan_end(scan(s, i))),
        lex_from(s, i)[0].start == encode_utf8(s.take(i)).len(),
        lex_from(s, i)[0].end == encode_utf8(s.take(scan_end(scan(s, i)))).len(),
{
    law_source_is_read_in_order(s, i);
    let e = scan_end(scan(s, i));
    let l = lex_from(s, i)[0];
    if scan(s, i) matches Scan::Token { token: Token::String, .. } {
        lemma_string_ends(s, i);
        assert(as_read(l) =~= s.subrange(i, e));
    } else if scan(s, i) matches Scan::Token { token: Token::Template, .. } {
        lemma_template_ends(s, i);
        assert(as_read(l) =~= s.subrange(i, e));
    }
}

#[verifier::spinoff_prover]
proof fn lemma_pieces(s: Seq<char>, i: int, k: int)
    requires
        0 <= i <= s.len(),
        0 <= k < lex_from(s, i).len(),
    ensures
        encode_utf8(s).subrange(
            lex_from(s, i)[k].start as int,
            lex_from(s, i)[k].end as int,
        ) == encode_utf8(as_read(lex_from(s, i)[k])),
    decreases s.len() - i,
{
    if i < s.len() {
        law_source_is_read_in_order(s, i);
        let e = scan_end(scan(s, i));
        if scan(s, i) is Skip {
            lemma_pieces(s, e, k);
        } else if k > 0 {
            assert(lex_from(s, i).skip(1)[k - 1] == lex_from(s, i)[k]);
            lemma_pieces(s, e, k - 1);
        } else {
            lemma_first_piece(s, i);
            lemma_piece_bytes(s, i, e);
        }
    }
}

proof fn lemma_string_ends(s: Seq<char>, i: int)
    requires
        0 <= i < s.len(),
        scan(s, i) matches Scan::Token { token: Token::String, .. },
    ensures
        s[i] == '"',
        i + 2 <= scan_end(scan(s, i)) <= s.len(),
        s[scan_end(scan(s, i)) - 1] == '"',
{
    lemma_scan_is_string(s, i);
    lemma_quote_last(s, i + 1);
}

proof fn lemma_scan_is_string(s: Seq<char>, i: int)
    requires
        0 <= i < s.len(),
        scan(s, i) matches Scan::Token { token: Token::String, .. },
    ensures
        s[i] == '"',
        string_end(s, i + 1).0,
        scan_end(scan(s, i)) == string_end(s, i + 1).1,
{
}

proof fn lemma_quote_last(s: Seq<char>, i: int)
    requires
        0 <= i <= s.len(),
        string_end(s, i).0,
    ensures
        i + 1 <= string_end(s, i).1 <= s.len(),
        s[string_end(s, i).1 - 1] == '"',
    decreases s.len() - i,
{
    if i < s.len() && s[i] != '"' {
        if s[i] == '\\' {
            if is_escape(s[i + 1]) {
                lemma_quote_last(s, i + 2);
            } else {
                lemma_quote_last(s, i + 6);
            }
        } else {
            lemma_quote_last(s, i + 1);
        }
    }
}

proof fn lemma_template_ends(s: Seq<char>, i: int)
    requires
        0 <= i < s.len(),
        scan(s, i) matches Scan::Token { token: Token::Template, .. },
    ensures
        s[i] == '`',
        i + 2 <= scan_end(scan(s, i)) <= s.len(),
        s[scan_end(scan(s, i)) - 1] == '`',
{
    lemma_backquote_next(s, i + 1);
}

proof fn lemma_backquote_next(s: Seq<char>, i: int)
    requires
        0 <= i <= s.len(),
    ensures
        i <= class_end(s, i, CharClass::Template) <= s.len(),
        class_end(s, i, CharClass::Template) < s.len() ==> s[class_end(s, i, CharClass::Template)]
            == '`',
    decreases s.len() - i,
{
    if i < s.len() && s[i] != '`' {
        lemma_backquote_next(s, i + 1);
    }
}

/// Taking the underscores out takes nothing else out, and moves nothing.
pub proof fn law_only_underscores_are_taken_out(a: Seq<char>, b: Seq<char>, c: char)
    ensures
        without_underscores(a + b) == without_underscores(a) + without_underscores(b),
        without_underscores(seq![c]) == (if c == '_' {
            Seq::<char>::empty()
        } else {
            seq![c]
        }),
    decreases b.len(),
{
    assert(seq![c].drop_last() =~= Seq::<char>::empty());
    assert(without_underscores(seq![c].drop_last()) =~= Seq::<char>::empty());
    assert(Seq::<char>::empty().push(c) =~= seq![c]);
    if b.len() == 0 {
        assert(a + b =~= a);
        assert(without_underscores(a) + without_underscores(b) =~= without_underscores(a));
    } else {
        law_only_underscores_are_taken_out(a, b.drop_last(), c);
        assert((a + b).drop_last() =~= a + b.drop_last());
        assert(without_underscores(a + b) =~= without_underscores(a) + without_underscores(b));
    }
}

/// The number literals are listed in their order, and each number goes to its
/// own: to the one before which there are as many others as there are numbers
/// before it.
pub proof fn law_numbers_go_to_their_literals(
    ls: Seq<LexemeView>,
    numbers: Seq<NumberView>,
    k: int,
)
    requires
        0 <= k < ls.len(),
        numbers.len() == literal_texts(ls).len(),
    ensures
        items_of(ls, numbers).len() == ls.len(),
        items_of(ls, numbers)[k].token == ls[k].token,
        items_of(ls, numbers)[k].text == ls[k].text,
        ls[k].token == Ok::<Token, LexFault>(Token::Number) ==> {
            let n = literal_texts(ls.take(k)).len() as int;
            &&& n < numbers.len()
            &&& literal_texts(ls)[n] == without_underscores(ls[k].text)
            &&& items_of(ls, numbers)[k].number == numbers[n]
        },
{
    lemma_numbers_before(ls, k as nat);
    lemma_literal_at(ls, k);
}

proof fn lemma_numbers_before(ls: Seq<LexemeView>, n: nat)
    requires
        n <= ls.len(),
    ensures
        numbers_before(ls, n) == literal_texts(ls.take(n as int)).len(),
    decreases n,
{
    if n > 0 {
        lemma_numbers_before(ls, (n - 1) as nat);
        assert(ls.take(n as int).drop_last() =~= ls.take(n - 1));
    }
}

proof fn lemma_literal_at(ls: Seq<LexemeView>, k: int)
    requires
        0 <= k < ls.len(),
    ensures
        ls[k].token == Ok::<Token, LexFault>(Token::Number) ==> {
            let n = literal_texts(ls.take(k)).len() as int;
            &&& n < literal_texts(ls).len()
            &&& literal_texts(ls)[n] == without_underscores(ls[k].text)
        },
    decreases ls.len(),
{
    let front = ls.drop_last();
    if k < ls.len() - 1 {
        lemma_literal_at(front, k);
        assert(front.take(k) =~= ls.take(k));
    } else {
        assert(front =~= ls.take(k));
    }
}

/// The message of an error in the source names what is wrong.
pub proof fn law_reading_errors_name_what_is_wrong(s: Seq<char>, c: char)
    ensures
        LexFault::InvalidInteger(s).text() == "Invalid integer: "@ + s,
        LexFault::InvalidFloat(s).text() == "Invalid float: "@ + s,
        LexFault::NonAsciiCharacter(c).text() == "Non-ASCII character: "@ + seq![c],
        LexFault::Other.text() == "Unknown lexing error"@,
        LexFault::InvalidInteger(s).debug_text() == "InvalidInteger("@ + quoted(s) + ")"@,
        LexFault::InvalidFloat(s).debug_text() == "InvalidFloat("@ + quoted(s) + ")"@,
        LexFault::NonAsciiCharacter(c).debug_text() == "NonAsciiCharacter("@ + quoted_char(c) + ")"@,
        LexFault::Other.debug_text() == "Other"@,
        float_fault() == LexFault::InvalidFloat("float parse error"@),
{
}

} // verus!
