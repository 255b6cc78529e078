use liquidnotes::number::{check_number, number_at_least, number_int, push_int, SINGLE_LIMIT};
use liquidnotes::plain::{shown_number, tidy_number};

fn chars(s: &str) -> Vec<char> {
    s.chars().collect()
}

fn by_double(s: &str) -> Option<i64> {
    let n: f64 = s.parse().ok()?;
    if n.fract() == 0.0 && n >= i64::MIN as f64 && n <= i64::MAX as f64 {
        Some(n as i64)
    } else {
        None
    }
}

#[test]
fn integers_are_read_as_doubles_read_them() {
    let list = [
        "0", "-0", "1", "-1", "7.0", "7.5", "0.5", "-0.5", "1e3", "1.5e1", "15e-1", "150e-1",
        "9007199254740991", "9007199254740992", "9007199254740993", "9007199254740995",
        "-9007199254740993", "9223372036854775807", "9223372036854775808", "9223372036854774784",
        "9223372036854775295", "9223372036854775296", "9223372036854776832", "9223372036854776833",
        "9223372036854777856", "-9223372036854775808", "-9223372036854775809",
        "-9223372036854777856", "1e18", "1e19", "1e-320", "1e-323", "5e-324", "2.4e-324",
        "2.5e-324", "1e-400", "1e400", "-1e400", "0e999999999999999999999999999999",
        "1e-999999999999999999999999999999", "1e999999999999999999999999999999", "123456789e-9",
        "0.99999999999999999999", "0.99999999999999994", "0.9999999999999999", "1.0000000000000001",
        "1.0000000000000002", "4503599627370497.5", "4503599627370496.5", "4503599627370495.5",
        "0.000000000000000000000000000001e30", "1000000000000000000000e-21", "18446744073709551616",
        "72057594037927945", "72057594037927937", "72057594037927936.000000000000000000001",
        "2.2250738585072014e-308", "1.7976931348623157e308",
        "4.9406564584124654e-324", "2.4703282292062327e-324", "2.4703282292062328e-324",
    ];
    for s in list {
        assert_eq!(number_int(&chars(s)), by_double(s), "{s}");
    }
    for s in [
        "", "-", ".", "e5", "1e", "1e+", "1x", "+1", "inf", "nan", " 1", "1 ", "1.", "-.0e5", "01",
        "000000000000000000000000000012", "-00.5",
    ] {
        assert_eq!(number_int(&chars(s)), None, "{s}");
        assert!(!check_number(&chars(s)), "{s}");
    }
}

#[test]
fn every_integer_near_a_power_of_two() {
    for k in 50..63u32 {
        for d in -9i64..10 {
            let n = (1i64 << k) + d;
            let s = format!("{n}");
            assert_eq!(number_int(&chars(&s)), by_double(&s), "{s}");
            let t = format!("{n}.5");
            assert_eq!(number_int(&chars(&t)), by_double(&t), "{t}");
        }
    }
}

#[test]
fn comparing_with_a_bound() {
    assert!(number_at_least(&chars("160"), 160));
    assert!(number_at_least(&chars("1.6e2"), 160));
    assert!(!number_at_least(&chars("159.999999999999999999"), 160));
    assert!(number_at_least(&chars("-161"), 160));
    assert!(number_at_least(&chars("1e99999"), 160));
    assert!(!number_at_least(&chars("1e-99999"), 1));
    assert!(number_at_least(&chars("0"), 0));
}

#[test]
fn single_precision_ends_where_it_ends() {
    let text = format!("{SINGLE_LIMIT}");
    assert!(number_at_least(&chars(&text), SINGLE_LIMIT));
    assert!((text.parse::<f64>().unwrap() as f32).is_infinite());
    let below = format!("{}", SINGLE_LIMIT - 1);
    assert!(!number_at_least(&chars(&below), SINGLE_LIMIT));
    assert!((below.parse::<f64>().unwrap() as f32).is_finite());
}

#[test]
fn tidy_numbers() {
    for (t, r) in [
        ("16", "16.0"),
        ("1.50", "1.5"),
        ("1.0", "1.0"),
        ("-2.000", "-2.0"),
        ("100", "100.0"),
        ("1e1", "10.0"),
        ("2.50e0", "2.5"),
        ("120e-2", "1.2"),
        ("120e-1", "12.0"),
        ("120e-5", "0.0012"),
        ("0.0", "0.0"),
        ("-0.000e9", "-0.0"),
        ("4e38", "4e38"),
        ("1e999999999999999999999999999999", "1e999999999999999999999999999999"),
        ("x", "x"),
        ("1.", "1."),
    ] {
        assert_eq!(tidy_number(&t.to_string()), r);
        assert_eq!(tidy_number(&r.to_string()), r);
    }
}

#[test]
fn numbers_vanish_where_single_precision_ends() {
    // 2^-150, and half a step of doubles above it.
    let half = "7.00649232162408535461864791644958065640130970938257885878534141944895541342930300743319094181060791015625e-46";
    let edge = "7.0064923216240861324955576490922940494093164318981089325668625095948470510688798561455451962335380581493528907142021196208236943903102655895054340362548828125e-46";
    let beyond = "7.00649232162408613249555764909229404940931643189810893256686250959484705106887985614554519623353805814935289071420211962082369439031026558950543403625488281251e-46";
    for (t, gone) in [
        ("7e-46", true),
        (half, true),
        (edge, true),
        (beyond, false),
        ("7.01e-46", false),
        ("1e-45", false),
        ("1e-46", true),
        ("9.9e-70", true),
        ("1e-71", true),
    ] {
        assert_eq!(t.parse::<f64>().unwrap() as f32 == 0.0, gone, "{t}");
        assert_eq!(tidy_number(&t.to_string()) == "0.0", gone, "{t}");
        assert_eq!(tidy_number(&format!("-{t}")) == "-0.0", gone, "{t}");
    }
}

#[test]
fn shown_numbers() {
    for (t, r) in [
        ("60", "60"),
        ("60.0", "60"),
        ("0.50", "0.5"),
        ("5e-1", "0.5"),
        ("1e16", "10000000000000000"),
        ("1e-7", "0.0000001"),
        ("0", "0"),
        ("-0.0", "-0"),
        ("1e-400", "0"),
        ("100", "100"),
    ] {
        assert_eq!(shown_number(&t.to_string()), r);
        assert_eq!(shown_number(&r.to_string()), r);
        assert_eq!(format!("{}", t.parse::<f64>().unwrap() as f32), r);
    }
}

#[test]
fn decimal_text() {
    for v in [0, 7, -7, 10, 123456789, i64::MIN, i64::MAX] {
        let mut s = String::new();
        push_int(&mut s, v);
        assert_eq!(s, format!("{v}"));
    }
}
