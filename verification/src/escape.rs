//! Escape sequences in string literals.
use crate::lexer::is_hex_digit;
use crate::text::chars_of;
use crate::text::lemma_encode_concat;
use vstd::prelude::*;
use vstd::utf8::encode_scalar;
use vstd::utf8::encode_utf8;
use vstd::utf8::is_scalar;

verus! {

/// `char::from_u32`: the character with the given code, where there is one.
pub assume_specification[ std::primitive::char::from_u32 ](i: u32) -> (res: Option<char>)
    ensures
        res is Some <==> is_scalar(i),
        res matches Some(c) ==> c as u32 == i,
;

/// The value of a hexadecimal digit.
pub open spec fn hex_digit_value(c: char) -> nat {
    if '0' <= c <= '9' {
        (c as u32 - '0' as u32) as nat
    } else if 'a' <= c <= 'f' {
        (10 + (c as u32 - 'a' as u32)) as nat
    } else {
        (10 + (c as u32 - 'A' as u32)) as nat
    }
}

/// The value of hexadecimal digits, the highest first.
pub open spec fn hex_digits_value(d: Seq<char>) -> nat
    decreases d.len(),
{
    if d.len() == 0 {
        0
    } else {
        16 * hex_digits_value(d.drop_last()) + hex_digit_value(d.last())
    }
}

pub open spec fn all_hex(d: Seq<char>) -> bool {
    forall|k: int| 0 <= k < d.len() ==> is_hex_digit(#[trigger] d[k])
}

/// The number that a text of hexadecimal digits stands for; a plus sign may
/// lead.
pub open spec fn hex_value(h: Seq<char>) -> Option<nat> {
    let digits = if h.len() > 1 && h[0] == '+' {
        h.skip(1)
    } else {
        h
    };
    if digits.len() > 0 && all_hex(digits) {
        Some(hex_digits_value(digits))
    } else {
        None
    }
}

/// The character whose code is written in hexadecimal, as a text of one
/// character, or nothing where there is none.
pub open spec fn hex_char(h: Seq<char>) -> Seq<char> {
    match hex_value(h) {
        Some(n) => if is_scalar(n as u32) {
            seq![(n as u32) as char]
        } else {
            Seq::empty()
        },
        None => Seq::empty(),
    }
}

/// The text that a string literal stands for.
pub open spec fn unescaped(s: Seq<char>) -> Seq<char>
    decreases s.len(),
{
    if s.len() == 0 {
        s
    } else if s[0] != '\\' {
        seq![s[0]] + unescaped(s.skip(1))
    } else if s.len() == 1 {
        s
    } else if s[1] == 'n' {
        seq!['\n'] + unescaped(s.skip(2))
    } else if s[1] == 'r' {
        seq!['\r'] + unescaped(s.skip(2))
    } else if s[1] == 't' {
        seq!['\t'] + unescaped(s.skip(2))
    } else if s[1] == '\\' {
        seq!['\\'] + unescaped(s.skip(2))
    } else if s[1] == '"' {
        seq!['"'] + unescaped(s.skip(2))
    } else if s[1] == 'u' {
        let end: int = if s.len() < 6 {
            s.len() as int
        } else {
            6
        };
        hex_char(s.subrange(2, end)) + unescaped(s.skip(end))
    } else {
        seq!['\\', s[1]] + unescaped(s.skip(2))
    }
}

fn digit_value(c: char) -> (res: Option<u32>)
    ensures
        res is Some <==> is_hex_digit(c),
        res matches Some(d) ==> d == hex_digit_value(c) && d < 16,
{
    let u: u32 = c as u32;
    if '0' <= c && c <= '9' {
        Some(u - 0x30)
    } else if 'a' <= c && c <= 'f' {
        Some(u - 0x61 + 10)
    } else if 'A' <= c && c <= 'F' {
        Some(u - 0x41 + 10)
    } else {
        None
    }
}

/// The number that the characters in a range stand for.
fn parse_hex(s: &Vec<char>, from: usize, to: usize) -> (res: Option<u32>)
    requires
        from <= to <= s@.len(),
        to - from <= 4,
    ensures
        match res {
            Some(n) => hex_value(s@.subrange(from as int, to as int)) == Some(n as nat) && n
                <= 0xffff,
            None => hex_value(s@.subrange(from as int, to as int)) is None,
        },
{
    let ghost h = s@.subrange(from as int, to as int);
    let first: usize = if to - from > 1 && s[from] == '+' {
        from + 1
    } else {
        from
    };
    let ghost digits = s@.subrange(first as int, to as int);
    proof {
        assert(h.len() > 0 ==> h[0] == s@[from as int]);
        if first > from {
            assert(h.skip(1) =~= digits);
        }
    }
    if first == to {
        return None;
    }
    let mut n: u32 = 0;
    let mut i: usize = first;
    assert(digits.take(0) =~= Seq::<char>::empty());
    while i < to
        invariant
            from <= first <= i <= to <= s@.len(),
            to - from <= 4,
            digits == s@.subrange(first as int, to as int),
            digits == (if h.len() > 1 && h[0] == '+' {
                h.skip(1)
            } else {
                h
            }),
            h == s@.subrange(from as int, to as int),
            n == hex_digits_value(digits.take(i - first)),
            i - first == 0 ==> n == 0,
            i - first == 1 ==> n < 0x10,
            i - first == 2 ==> n < 0x100,
            i - first == 3 ==> n < 0x1000,
            i - first == 4 ==> n < 0x10000,
            forall|k: int| 0 <= k < i - first ==> is_hex_digit(#[trigger] digits[k]),
        decreases to - i,
    {
        assert(digits[i - first] == s@[i as int]);
        match digit_value(s[i]) {
            Some(d) => {
                proof {
                    let t = digits.take(i + 1 - first);
                    assert(t.drop_last() =~= digits.take(i - first));
                }
                n = 16 * n + d;
                i = i + 1;
            },
            None => {
                assert(!is_hex_digit(digits[i - first]));
                return None;
            },
        }
    }
    assert(digits.take(to - first) =~= digits);
    Some(n)
}

/// The text that a string literal stands for. A `\u` takes up to four
/// characters along and stands for nothing where they name no character.
pub fn unescape_string(s: &str) -> (res: String)
    ensures
        res@ == unescaped(s@),
{
    let cs = chars_of(s);
    let n: usize = cs.len();
    let mut res = String::new();
    let mut i: usize = 0;
    assert(cs@.skip(0) =~= cs@);
    assert(res@ + unescaped(cs@.skip(0)) =~= unescaped(cs@));
    while i < n
        invariant
            i <= n == cs@.len(),
            res@ + unescaped(cs@.skip(i as int)) == unescaped(cs@),
        decreases n - i,
    {
        let ghost before = res@;
        let ghost rest = cs@.skip(i as int);
        let c = cs[i];
        proof {
            assert(rest.skip(1) =~= cs@.skip(i + 1));
        }
        if c != '\\' {
            res.push(c);
            assert(res@ + unescaped(rest.skip(1)) =~= before + unescaped(rest));
            i = i + 1;
        } else if n - i == 1 {
            res.push('\\');
            assert(rest =~= seq!['\\']);
            assert(cs@.skip(n as int) =~= Seq::<char>::empty());
            assert(res@ + unescaped(cs@.skip(n as int)) =~= before + unescaped(rest));
            i = i + 1;
        } else {
            let d = cs[i + 1];
            proof {
                assert(rest[1] == d);
                assert(rest.skip(2) =~= cs@.skip(i + 2));
            }
            if d == 'u' {
                let end: usize = if n - i < 6 {
                    n
                } else {
                    i + 6
                };
                proof {
                    assert(rest.subrange(2, end - i) =~= cs@.subrange(i + 2, end as int));
                    assert(rest.skip(end - i) =~= cs@.skip(end as int));
                }
                match parse_hex(&cs, i + 2, end) {
                    Some(v) => match std::primitive::char::from_u32(v) {
                        Some(u) => {
                            res.push(u);
                            proof {
                                vstd::utf8::char_u32_cast(u, v);
                            }
                        },
                        None => {},
                    },
                    None => {},
                }
                assert(res@ =~= before + hex_char(rest.subrange(2, end - i)));
                assert(res@ + unescaped(rest.skip(end - i)) =~= before + unescaped(rest));
                i = end;
            } else {
                if d == 'n' {
                    res.push('\n');
                } else if d == 'r' {
                    res.push('\r');
                } else if d == 't' {
                    res.push('\t');
                } else if d == '\\' {
                    res.push('\\');
                } else if d == '"' {
                    res.push('"');
                } else {
                    res.push('\\');
                    res.push(d);
                }
                assert(res@ + unescaped(rest.skip(2)) =~= before + unescaped(rest));
                i = i + 2;
            }
        }
    }
    assert(cs@.skip(n as int) =~= Seq::<char>::empty());
    assert(res@ =~= res@ + Seq::<char>::empty());
    res
}

/// A front without a backslash stays as it is, whatever follows.
pub proof fn law_plain_front_stays(p: Seq<char>, s: Seq<char>)
    requires
        !p.contains('\\'),
    ensures
        unescaped(p + s) == p + unescaped(s),
    decreases p.len(),
{
    if p.len() == 0 {
        assert(p + s =~= s);
        assert(p + unescaped(s) =~= unescaped(s));
    } else {
        let rest = p.skip(1);
        assert forall|k: int| 0 <= k < rest.len() implies rest[k] != '\\' by {
            assert(p[k + 1] != '\\');
        }
        assert(p[0] != '\\');
        law_plain_front_stays(rest, s);
        assert((p + s).skip(1) =~= rest + s);
        assert(seq![p[0]] + (rest + unescaped(s)) =~= p + unescaped(s));
    }
}

/// A text without a backslash stands for itself.
pub proof fn law_plain_text_stays(s: Seq<char>)
    requires
        !s.contains('\\'),
    ensures
        unescaped(s) == s,
{
    let none = Seq::<char>::empty();
    law_plain_front_stays(s, none);
    assert(s + none =~= s);
}

/// Each character takes a byte at least.
proof fn lemma_encode_at_least(s: Seq<char>)
    ensures
        encode_utf8(s).len() >= s.len(),
    decreases s.len(),
{
    if s.len() > 0 {
        lemma_encode_at_least(s.drop_first());
    }
}

proof fn lemma_encode_one(s: Seq<char>)
    requires
        s.len() == 1,
    ensures
        encode_utf8(s) == encode_scalar(s[0] as u32),
{
    let none = encode_utf8(s.drop_first());
    assert(none =~= Seq::<u8>::empty());
    assert(encode_scalar(s[0] as u32) + none =~= encode_scalar(s[0] as u32));
}

/// How large a number of so many hexadecimal digits can be.
proof fn lemma_hex_bound(d: Seq<char>)
    requires
        all_hex(d),
        d.len() <= 4,
    ensures
        d.len() <= 1 ==> hex_digits_value(d) <= 0xf,
        d.len() <= 2 ==> hex_digits_value(d) <= 0xff,
        d.len() <= 3 ==> hex_digits_value(d) <= 0xfff,
        hex_digits_value(d) <= 0xffff,
    decreases d.len(),
{
    if d.len() > 0 {
        assert(is_hex_digit(d.last()));
        lemma_hex_bound(d.drop_last());
    }
}

/// A code takes more bytes than the character it stands for.
proof fn lemma_hex_char_bytes(h: Seq<char>)
    requires
        h.len() <= 4,
    ensures
        encode_utf8(hex_char(h)).len() <= h.len() + 2,
{
    let c = hex_char(h);
    if c.len() > 0 {
        let digits = if h.len() > 1 && h[0] == '+' {
            h.skip(1)
        } else {
            h
        };
        lemma_hex_bound(digits);
        lemma_encode_one(c);
    }
}

/// The text that a literal stands for takes no more bytes than the literal.
pub proof fn law_unescaped_is_no_longer(s: Seq<char>)
    ensures
        encode_utf8(unescaped(s)).len() <= encode_utf8(s).len(),
    decreases s.len(),
{
    if s.len() > 0 && !(s[0] == '\\' && s.len() == 1) {
        let n: int = if s[0] != '\\' {
            1
        } else if s[1] == 'u' {
            if s.len() < 6 {
                s.len() as int
            } else {
                6
            }
        } else {
            2
        };
        let front = s.take(n);
        let rest = s.skip(n);
        law_unescaped_is_no_longer(rest);
        lemma_encode_concat(front, rest);
        lemma_encode_at_least(front);
        assert(front + rest =~= s);
        let out = unescaped(s).take(unescaped(s).len() - unescaped(rest).len());
        if s[0] != '\\' {
            assert(out =~= front);
        } else if s[1] == 'u' {
            assert(out =~= hex_char(s.subrange(2, n)));
            lemma_hex_char_bytes(s.subrange(2, n));
        } else if s[1] == 'n' || s[1] == 'r' || s[1] == 't' || s[1] == '\\' || s[1] == '"' {
            lemma_encode_one(out);
        } else {
            assert(out =~= front);
        }
        lemma_encode_concat(out, unescaped(rest));
        assert(out + unescaped(rest) =~= unescaped(s));
    }
}

/// Each escape stands for its character: a line break, a carriage return, a tab, a
/// backslash or a quote. A backslash before any other character stands for itself.
pub proof fn law_escapes_stand_for_their_characters(s: Seq<char>, c: char)
    ensures
        unescaped(seq!['\\', 'n'] + s) == seq!['\n'] + unescaped(s),
        unescaped(seq!['\\', 'r'] + s) == seq!['\r'] + unescaped(s),
        unescaped(seq!['\\', 't'] + s) == seq!['\t'] + unescaped(s),
        unescaped(seq!['\\', '\\'] + s) == seq!['\\'] + unescaped(s),
        unescaped(seq!['\\', '"'] + s) == seq!['"'] + unescaped(s),
        c != 'n' && c != 'r' && c != 't' && c != '\\' && c != '"' && c != 'u' ==> unescaped(
            seq!['\\', c] + s,
        ) == seq!['\\', c] + unescaped(s),
        unescaped(seq!['\\']) == seq!['\\'],
{
    assert((seq!['\\', 'n'] + s).skip(2) =~= s);
    assert((seq!['\\', 'r'] + s).skip(2) =~= s);
    assert((seq!['\\', 't'] + s).skip(2) =~= s);
    assert((seq!['\\', '\\'] + s).skip(2) =~= s);
    assert((seq!['\\', '"'] + s).skip(2) =~= s);
    assert((seq!['\\', c] + s).skip(2) =~= s);
}

/// The digit with the given value, in one of its two ways.
pub open spec fn is_digit_of(c: char, v: int) -> bool {
    ||| 0 <= v < 10 && c as u32 == 0x30 + v
    ||| 10 <= v < 16 && (c as u32 == 0x61 + v - 10 || c as u32 == 0x41 + v - 10)
}

proof fn lemma_digit_of(c: char, v: int)
    requires
        is_digit_of(c, v),
    ensures
        is_hex_digit(c),
        hex_digit_value(c) == v,
        c != '+',
{
}

/// Four hexadecimal digits behind `\u` stand for the character whose code they
/// are, the highest digit first. A code that is no character stands for nothing.
pub proof fn law_codes_stand_for_their_characters(
    d: Seq<char>,
    v: Seq<int>,
    s: Seq<char>,
    c: char,
)
    requires
        d.len() == 4,
        v.len() == 4,
        is_digit_of(d[0], v[0]),
        is_digit_of(d[1], v[1]),
        is_digit_of(d[2], v[2]),
        is_digit_of(d[3], v[3]),
    ensures
        c as u32 == 4096 * v[0] + 256 * v[1] + 16 * v[2] + v[3] ==> unescaped(
            seq!['\\', 'u'] + d + s,
        ) == seq![c] + unescaped(s),
        0xd800 <= 4096 * v[0] + 256 * v[1] + 16 * v[2] + v[3] <= 0xdfff ==> unescaped(
            seq!['\\', 'u'] + d + s,
        ) == unescaped(s),
{
    let all = seq!['\\', 'u'] + d + s;
    assert(all.subrange(2, 6) =~= d);
    assert(all.skip(6) =~= s);
    reveal_with_fuel(hex_digits_value, 5);
    assert(d.drop_last().drop_last().drop_last().drop_last() =~= Seq::<char>::empty());
    assert(d.drop_last().drop_last().drop_last().last() == d[0]);
    assert(d.drop_last().drop_last().last() == d[1]);
    assert(d.drop_last().last() == d[2]);
    lemma_digit_of(d[0], v[0]);
    lemma_digit_of(d[1], v[1]);
    lemma_digit_of(d[2], v[2]);
    lemma_digit_of(d[3], v[3]);
    let one = d.drop_last().drop_last().drop_last();
    assert(hex_digits_value(one) == v[0]);
    assert(hex_digits_value(d.drop_last().drop_last()) == 16 * v[0] + v[1]);
    assert(hex_digits_value(d.drop_last()) == 256 * v[0] + 16 * v[1] + v[2]);
    assert(hex_digits_value(d) == 4096 * v[0] + 256 * v[1] + 16 * v[2] + v[3]);
    assert(all_hex(d));
    assert(hex_value(d) == Some(hex_digits_value(d)));
    assert(unescaped(all) == hex_char(d) + unescaped(s));
    assert(Seq::<char>::empty() + unescaped(s) =~= unescaped(s));
}

} // verus!
