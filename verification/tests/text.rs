use keel::lines::{find_line, split_fields, split_lines, trim};
use keel::order::{comes_first, insert_text};
use keel::text::{
    characters, parse_number, parse_signed, push_decimal, push_fixed, push_hex, push_padded,
    push_plain_hex, push_plus, push_signed, push_zero_padded, round, text_of,
};
use keel::time::Duration;

fn written(write: impl FnOnce(&mut String)) -> String {
    let mut out = String::new();
    write(&mut out);
    out
}

#[test]
fn numbers_are_written_as_the_standard_library_would() {
    for n in [0, 7, 10, 99, 100, 12_345, u64::MAX] {
        assert_eq!(written(|out| push_decimal(out, n)), n.to_string());
        assert_eq!(written(|out| push_zero_padded(out, n, 10)), format!("{n:010}"));
        assert_eq!(written(|out| push_plain_hex(out, n)), format!("{n:x}"));
    }
    for n in [0, 7, -7, i64::MAX, i64::MIN] {
        assert_eq!(written(|out| push_signed(out, n)), n.to_string());
        assert_eq!(written(|out| push_plus(out, n)), format!("{n:+}"));
    }
    assert_eq!(written(|out| push_padded(out, "ab", ' ', 5)), format!("{:>5}", "ab"));
    assert_eq!(written(|out| push_hex(out, &[0, 0xab, 0xff])), "00abff");
}

#[test]
fn a_fraction_is_rounded_to_the_nearest() {
    assert_eq!(round(5, 2, 5), 2);
    assert_eq!(round(7, 2, 5), 4);
    assert_eq!(round(4, 3, 5), 1);
    assert_eq!(round(5, 3, 5), 2);
    assert_eq!(round(0, 9, 5), 0);
    assert_eq!(written(|out| push_fixed(out, 1_250, 1_000, 3)), "1.250");
    assert_eq!(written(|out| push_fixed(out, 1_004, 1_000, 3)), "1.004");
    assert_eq!(written(|out| push_fixed(out, 7, 1, 1)), "7.0");
}

/// What lies halfway and is a binary fraction is written as a float is.
#[test]
fn a_binary_fraction_is_rounded_as_a_float_is() {
    for quarters in [1u64, 3, 5, 7, 9, 11, 4_001, 4_003] {
        let tenths = written(|out| push_fixed(out, round(quarters as u128 * 10, 4, 5), 10, 1));
        assert_eq!(tenths, format!("{:.1}", quarters as f64 / 4.0));
    }
    for sixteenths in [1u64, 3, 5, 7, 9, 11, 13, 15, 161, 163] {
        let parts = round(sixteenths as u128 * 1_000, 16, 125);
        let text = written(|out| push_fixed(out, parts, 1_000, 3));
        assert_eq!(text, format!("{:.3}", sixteenths as f64 / 16.0));
    }
}

#[test]
fn numbers_are_read_as_the_standard_library_would() {
    for text in ["0", "42", "+7", "18446744073709551615", "18446744073709551616", "", "x", "-1", "+"] {
        assert_eq!(parse_number(&characters(text)), text.parse::<u64>().ok(), "{text:?}");
    }
    for text in ["0", "-42", "+7", "9223372036854775807", "9223372036854775808", "-9223372036854775808", "-", ""] {
        assert_eq!(parse_signed(&characters(text)), text.parse::<i64>().ok(), "{text:?}");
    }
}

#[test]
fn text_falls_apart_into_lines_and_fields() {
    let lines: Vec<String> =
        split_lines("one\r\ntwo\n\nfour").iter().map(|l| text_of(l)).collect();
    assert_eq!(lines, "one\r\ntwo\n\nfour".lines().collect::<Vec<_>>());
    assert_eq!(find_line("a: 1\nb: 2\n", "b").map(|l| text_of(&l)), Some("b: 2".into()));
    assert_eq!(find_line("a: 1\n", "c"), None);
    let fields: Vec<String> =
        split_fields(&characters("a,,b"), ',').iter().map(|f| text_of(f)).collect();
    assert_eq!(fields, vec!["a", "", "b"]);
    assert_eq!(text_of(trim(&characters(" \t x y \n"))), "x y");
}

#[test]
fn a_duration_saturates() {
    assert_eq!(Duration::from_secs(2).as_millis(), 2_000);
    assert_eq!(Duration::from_micros(3).as_nanos(), 3_000);
    assert_eq!(Duration::from_secs(u64::MAX).as_nanos(), u64::MAX);
    assert_eq!(
        Duration::from_nanos(u64::MAX).plus(Duration::from_nanos(1)).as_nanos(),
        u64::MAX
    );
}

#[test]
fn texts_are_put_in_order_as_the_standard_library_would() {
    let words = ["b", "a", "", "ab", "n1->n10", "n1->n2", "\u{e9}", "z", "a", "\u{1f600}"];
    for a in words {
        for b in words {
            assert_eq!(comes_first(a, b), a <= b, "{a:?} {b:?}");
        }
    }
    let mut ours = Vec::new();
    for word in words {
        insert_text(&mut ours, word.to_string());
    }
    let mut theirs: Vec<String> = words.iter().map(|w| w.to_string()).collect();
    theirs.sort();
    assert_eq!(ours, theirs);
}
