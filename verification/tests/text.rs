use howfastly_map::text::{chars_of, find, is_float, parse_int, space, split_lines, split_words};

fn chars(s: &str) -> Vec<char> {
    s.chars().collect()
}

fn strings(v: Vec<Vec<char>>) -> Vec<String> {
    v.into_iter().map(|c| c.into_iter().collect()).collect()
}

const SAMPLES: &[&str] = &[
    "", "0", "-0", "+0", "7", "-7", "+", "-", "--1", "+-1", "1-", "12a", " 1", "1 ", "0x10", "1_000",
    "9223372036854775807", "9223372036854775808", "-9223372036854775808", "-9223372036854775809",
    "00000000000000000000000000042", "99999999999999999999999", "6.1", ".5", "5.", ".", "-.5", "+.5",
    "1e5", "1E5", "1e+5", "1e-5", "1e", "e5", "1e5.0", "1.2.3", "inf", "-inf", "+INF", "Infinity",
    "-infinity", "InFiNiTy", "infin", "nan", "NaN", "-nan", "nana", "1.5e10", "1.5E-10", ".e1", "1.e1",
    "١", "1\u{0660}",
];

// parse_int gives what str::parse gives for i64
#[test]
fn parse_int_as_std() {
    for s in SAMPLES {
        assert_eq!(parse_int(&chars(s)), s.parse::<i64>().ok(), "{s:?}");
    }
}

// is_float accepts what str::parse accepts for f64
#[test]
fn is_float_as_std() {
    for s in SAMPLES {
        assert_eq!(is_float(&chars(s)), s.parse::<f64>().is_ok(), "{s:?}");
    }
}

// space is char::is_whitespace, for every char
#[test]
fn space_as_std() {
    for c in (0u32..=0x10ffff).filter_map(char::from_u32) {
        assert_eq!(space(c), c.is_whitespace(), "{c:?}");
    }
}

// split_lines cuts as str::lines, split_words as str::split_whitespace
#[test]
fn lines_and_words_as_std() {
    let texts = [
        "", "\n", "\n\n", "a", "a\n", "a\nb", "a\r\nb\r\n", "a\r", "a\rb\n", "\r\n", "\r\r\n", " a  b\t\tc \u{3000}d\u{a0}",
        "=land\n1,2 3,4\n\n=places\n3\t1\t2\tx y\n", "  ", "x\n \n",
    ];
    for t in texts {
        assert_eq!(strings(split_lines(&chars(t))), t.lines().map(str::to_string).collect::<Vec<_>>(), "{t:?}");
        assert_eq!(
            strings(split_words(&chars(t))),
            t.split_whitespace().map(str::to_string).collect::<Vec<_>>(),
            "{t:?}"
        );
    }
}

#[test]
fn chars_and_find() {
    assert_eq!(chars_of("héllo"), vec!['h', 'é', 'l', 'l', 'o']);
    let s = chars("a,b,c");
    assert_eq!(find(&s, 0, ','), 1);
    assert_eq!(find(&s, 2, ','), 3);
    assert_eq!(find(&s, 4, ','), 5);
    assert_eq!(find(&s, 5, ','), 5);
}
