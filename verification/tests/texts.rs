use p2p_autos::text::{
    chars_of, decimal, find, is_control, is_space, parse_u64, same_text, slice_chars, starts_with,
    string_of, trim, Trim,
};

fn v(s: &str) -> Vec<char> {
    chars_of(s)
}

#[test]
fn white_space_is_what_std_says() {
    for c in '\u{0}'..=char::MAX {
        assert_eq!(is_space(c), c.is_whitespace(), "{c:?}");
    }
}

#[test]
fn control_characters_are_what_std_says() {
    for c in '\u{0}'..=char::MAX {
        assert_eq!(is_control(c), c.is_control(), "{c:?}");
    }
}

#[test]
fn numbers_read_as_std_reads_them() {
    for s in [
        "",
        "+",
        "-",
        "0",
        "00",
        "+7",
        "++7",
        "-7",
        "7-",
        " 7",
        "7 ",
        "18446744073709551615",
        "18446744073709551616",
        "00000000000000000000000000000000001",
        "99999999999999999999999999",
        "1a",
        "٣",
        "1_000",
    ] {
        assert_eq!(parse_u64(&v(s)), s.parse::<u64>().ok(), "{s:?}");
    }
}

#[test]
fn numbers_are_written_and_read_back() {
    for n in [0, 1, 9, 10, 99, 100, 1048576, u64::MAX - 1, u64::MAX] {
        let s = decimal(n);
        assert_eq!(s, n.to_string());
        assert_eq!(parse_u64(&v(&s)), Some(n));
    }
}

#[test]
fn trimming_follows_std() {
    for s in ["", " ", " a ", "\t\u{2003}a b\u{a0}\n", "ab", "..a..", "...."] {
        assert_eq!(string_of(&trim(&v(s), Trim::Space)), s.trim(), "{s:?}");
        assert_eq!(
            string_of(&trim(&v(s), Trim::Only('.'))),
            s.trim_matches('.'),
            "{s:?}"
        );
    }
}

#[test]
fn searching_and_slicing() {
    let t = v("añb-c-d");
    assert_eq!(find(&t, '-'), Some(3));
    assert_eq!(find(&t, 'x'), None);
    assert_eq!(string_of(&slice_chars(&t, 1, 3)), "ñb");
    assert!(starts_with(&t, "añ"));
    assert!(starts_with(&t, ""));
    assert!(!starts_with(&t, "an"));
    assert!(!starts_with(&v("a"), "ab"));
    assert!(same_text("--server", "--server"));
    assert!(!same_text("--server", "--serve"));
    assert!(!same_text("--server", "--serves"));
}
