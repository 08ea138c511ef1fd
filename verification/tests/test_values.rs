//! Boxed values, numbers by their bits, texts and errors.
use yatsuscript::error::ErrorLoc;
use yatsuscript::error::JitError;
use yatsuscript::escape::unescape_string;
use yatsuscript::number::from_count;
use yatsuscript::number::less_than;
use yatsuscript::number::same_number;
use yatsuscript::number::to_index;
use yatsuscript::tables::StringPool;
use yatsuscript::text::chars_of;
use yatsuscript::text::push_decimal;
use yatsuscript::text::same_text;
use yatsuscript::text::slice_of;
use yatsuscript::text::width_of;
use yatsuscript::value::Value;

#[test]
fn numbers_are_boxed_as_themselves() {
    for n in [0.0f64, -0.0, 1.5, -2.25, 1e300, f64::MIN_POSITIVE] {
        let v = Value::number(n.to_bits());
        assert_eq!(v.as_number(), Some(n.to_bits()));
        assert_eq!(v.as_bool(), None);
        assert_eq!(v.as_obj_id(), None);
        assert!(!v.is_short_text());
    }
}

#[test]
fn truth_values_and_references_are_read_back() {
    assert_eq!(Value::bool(true).as_bool(), Some(true));
    assert_eq!(Value::bool(false).as_bool(), Some(false));
    assert_eq!(Value::bool(true).as_number(), None);
    for id in [0u32, 1, 0xffff_ffff] {
        assert_eq!(Value::object(id).as_obj_id(), Some(id));
        assert_eq!(Value::object(id).as_bool(), None);
    }
    assert_eq!(Value::object(5).to_bits(), 0x7ff2_0000_0000_0005);
    assert_eq!(Value::bool(true).to_bits(), 0x7ff1_0000_0000_0001);
    assert_eq!(Value::from_bits(7).to_bits(), 7);
}

#[test]
fn short_texts_are_stored_in_the_value() {
    for s in ["", "a", "hello", "abcdef", "h\u{e9}\u{f6}"] {
        let v = Value::sso(s).expect("six bytes at most");
        assert!(v.is_short_text());
        assert_eq!(v.as_short_text().as_deref(), Some(s));
        assert_eq!(v.as_number(), None);
    }
    assert!(Value::sso("abcdefg").is_none());
    assert!(Value::sso("h\u{e9}ll\u{f6}!").is_none());
    assert_eq!(Value::sso("ab").unwrap().to_bits(), 0x7ff5_0000_0000_6261);
}

#[test]
fn bytes_that_are_no_text_are_not_read_as_one() {
    let v = Value::from_bits(0x7ff4_0000_0000_00ff);
    assert!(v.is_short_text());
    assert_eq!(v.as_short_text(), None);
}

#[test]
fn only_false_counts_as_false() {
    assert!(!Value::bool(false).is_truthy());
    assert!(Value::bool(true).is_truthy());
    assert!(Value::number(0).is_truthy());
    assert!(Value::sso("").unwrap().is_truthy());
}

#[test]
fn numbers_compare_by_their_value() {
    let cases = [-1e300, -2.0, -1.0, -1e-300, -0.0, 0.0, 1e-300, 0.5, 1.0, 2.0, 1e300];
    for a in cases {
        for b in cases {
            let (x, y): (f64, f64) = (a, b);
            assert_eq!(less_than(x.to_bits(), y.to_bits()), x < y, "{x} {y}");
            assert_eq!(same_number(x.to_bits(), y.to_bits()), x == y, "{x} {y}");
        }
    }
}

#[test]
fn numbers_are_cut_to_indices() {
    for n in [0.0f64, -0.0, 0.9, 1.0, 1.9, 255.5, 4503599627370496.0, 1e18, 1e30, -1.0, -1e30] {
        assert_eq!(to_index(n.to_bits()), n as usize, "{n}");
    }
}

#[test]
fn counts_become_numbers() {
    for n in [0u64, 1, 2, 3, 1000, 0x1f_ffff_ffff_ffff, 0x20_0000_0000_0001, 0x20_0000_0000_0003, u64::MAX] {
        assert_eq!(from_count(n), (n as f64).to_bits(), "{n}");
    }
}

#[test]
fn counts_are_read_back_from_numbers() {
    for n in [0u64, 1, 7, 100000, 0x1f_ffff_ffff_ffff] {
        assert_eq!(to_index(from_count(n)) as u64, n);
    }
}

#[test]
fn escapes_stand_for_characters() {
    assert_eq!(unescape_string("plain"), "plain");
    assert_eq!(unescape_string(r#"a\nb\rc\td\\e\"f"#), "a\nb\rc\td\\e\"f");
    assert_eq!(unescape_string(r"\u0041\u00e9"), "A\u{e9}");
    assert_eq!(unescape_string(r"\ud800x"), "x");
    assert_eq!(unescape_string(r"\q\/"), r"\q\/");
    assert_eq!(unescape_string("end\\"), "end\\");
}

#[test]
fn pools_hold_each_text_once() {
    let mut pool = StringPool::new();
    assert_eq!(pool.intern("a"), 0);
    assert_eq!(pool.intern("b"), 1);
    assert_eq!(pool.intern("a"), 0);
    assert_eq!(pool.intern(""), 2);
    assert_eq!(pool.into_strings(), ["a", "b", ""]);
}

#[test]
fn texts_are_taken_apart() {
    let cs = chars_of("h\u{e9}llo");
    assert_eq!(cs, ['h', '\u{e9}', 'l', 'l', 'o']);
    assert_eq!(slice_of(&cs, 1, 3), "\u{e9}l");
    assert!(same_text("a", "a"));
    assert!(!same_text("a", "b"));
    assert_eq!(width_of('\u{e9}'), 2);
    assert_eq!(width_of('\u{1f600}'), 4);
    let mut s = String::from("n=");
    push_decimal(&mut s, 1203);
    push_decimal(&mut s, 0);
    assert_eq!(s, "n=12030");
}

#[test]
fn errors_tell_where_they_are() {
    let loc = ErrorLoc::new(3, 4);
    assert_eq!(loc.to_text(), "3:4");
    let e = JitError::runtime("bad", 3, 4);
    assert_eq!(e.location(), (3, 4));
    assert_eq!(e.to_text(), "Runtime error at 3:4: bad");
    assert_eq!(JitError::parsing("odd", 1, 2).to_text(), "Parsing error at 1:2: odd");
    assert_eq!(
        JitError::unknown_variable("x", 5, 6).to_text(),
        "Unknown variable at 5:6: x"
    );
}

#[test]
fn escapes_make_texts_no_longer() {
    let texts = [r"a\n", r"\u0041", r"\uffff", r"\u+fff", r"\u1", r"\q", "\\", "\u{e9}\\t"];
    for s in texts {
        assert!(unescape_string(s).len() <= s.len());
    }
    assert_eq!(unescape_string(r"\u1"), "\u{1}");
    assert_eq!(unescape_string(r"\uffff").len(), 3);
}

#[test]
fn plain_fronts_stay() {
    assert_eq!(unescape_string(r"front\u0041"), "frontA");
    assert_eq!(unescape_string(r"front\"), r"front\");
}
