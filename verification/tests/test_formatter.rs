//! Sources and what they look like formatted.
use yatsuscript::formatter::format_source;
use yatsuscript::lexer::lex;

fn formatted(source: &str) -> String {
    format_source(source).expect("the source formats")
}

#[test]
fn blocks_are_indented() {
    assert_eq!(
        formatted("fn f(a,b){\nif a<b{\nreturn a\n}\nreturn b\n}\n"),
        "fn f(a, b) {\n    if a < b {\n        return a\n    }\n    return b\n}\n"
    );
}

#[test]
fn blanks_are_set_around_operators() {
    assert_eq!(
        formatted("let   x:1+2*3\ny:[1,2][0]\nu.v:!a"),
        "let x: 1 + 2 * 3\ny:[1, 2][0]\nu.v:!a"
    );
}

#[test]
fn comments_and_texts_stay() {
    assert_eq!(
        formatted("let s:\"a  b\" // note\n// alone\nlet t:`x y`"),
        "let s: \"a  b\" // note\n// alone\nlet t: `x y`"
    );
}

#[test]
fn closing_braces_never_indent_below_the_margin() {
    assert_eq!(formatted("}\n}\na"), "}\n}\na");
}

#[test]
fn formatting_keeps_the_texts_of_tokens() {
    let source = "spawn{\nprint( \"x\" , 1..2 )\n}\n";
    let before: Vec<String> = lex(source).into_iter().map(|l| l.text).collect();
    let after: Vec<String> = lex(&formatted(source)).into_iter().map(|l| l.text).collect();
    assert_eq!(before, after);
}

#[test]
fn a_formatted_source_stays() {
    let once = formatted("for i in 0..10{\nprint(i,i+1)\n}");
    assert_eq!(formatted(&once), once);
}

#[test]
fn what_is_no_token_cannot_be_formatted() {
    let err = format_source("a = 1").expect_err("no token");
    assert_eq!(err.to_text(), "Lexing error at 0:0: NonAsciiCharacter('=')");
}

fn reads_the_same(source: &str) {
    let once = formatted(source);
    let before: Vec<_> = lex(source).into_iter().map(|l| (l.token.ok(), l.text)).collect();
    let after: Vec<_> = lex(&once).into_iter().map(|l| (l.token.ok(), l.text)).collect();
    assert_eq!(before, after);
    assert_eq!(formatted(&once), once);
}

#[test]
fn formatted_sources_read_the_same() {
    reads_the_same("fn f(a,b){\nif a<b{\nreturn a-1\n}\nreturn b\n}\n");
    reads_the_same("a.b.c[0](1,-2)/ /*note*/ 2 // end\n\n  `x\n y`:!c == d");
    reads_the_same("1.5 . 5\n1 . -5\n1 .. 2\n2e3 . 4\n.. . x\na - 5\n( -5 )");
    reads_the_same("/ * 1 < == 2 != ! <= - 3");
}

#[test]
fn dots_may_be_joined_to_their_neighbours() {
    assert_eq!(formatted("a . . b"), "a..b");
    assert_eq!(formatted("1 . 5"), "1.5");
    assert_eq!(lex("1.5").len(), 1);
}

#[test]
fn numbers_that_a_dot_joins_stay_joined() {
    for source in ["1 . 5", "1 . 5 . 3 . 4", "-1 . 5e3", "1 . 5.2 . 7", "1 . 5.0", "1 . 5_0.2e3 . 1"] {
        let once = formatted(source);
        assert_eq!(once, source.replace(' ', ""));
        assert_eq!(formatted(&once), once);
    }
}

#[test]
fn dots_that_become_a_range_stay_where_no_blank_is_due() {
    for source in ["( . . b", ". . b", "a .. . . b", "( . .. . 5", "! . . x"] {
        let once = formatted(source);
        assert_eq!(formatted(&once), once);
    }
}

#[test]
fn some_sources_change_once_more() {
    assert_eq!(formatted("a..b"), "a ..b");
    assert_eq!(formatted("1 . 5.02"), "1.5.02");
    assert_eq!(formatted("1.5.02"), "1.5.0 2");
    assert_eq!(formatted("1 . 5 . 3.02"), "1.5.3.02");
    assert_eq!(formatted("1.5.3.02"), "1.5.3.02");
}
