use roster_sync::text::{
    chars_of, find, find_last, is_space, occurs, replaced_string_of, string_of, trim_bounds,
};

#[test]
fn white_space_is_what_std_says() {
    for n in 0..=0x10ffffu32 {
        if let Some(c) = char::from_u32(n) {
            assert_eq!(is_space(c), c.is_whitespace(), "U+{:04X}", n);
        }
    }
}

#[test]
fn chars_of_gives_every_char() {
    assert_eq!(chars_of(""), Vec::<char>::new());
    assert_eq!(chars_of("a\u{e9}\u{1f600}z"), vec!['a', '\u{e9}', '\u{1f600}', 'z']);
}

#[test]
fn string_of_copies_a_stretch() {
    let v = chars_of("h\u{e9}llo world");
    assert_eq!(string_of(&v, 0, 5), "h\u{e9}llo");
    assert_eq!(string_of(&v, 6, 11), "world");
    assert_eq!(string_of(&v, 3, 3), "");
    assert_eq!(string_of(&v, 0, v.len()), "h\u{e9}llo world");
}

#[test]
fn replaced_string_of_turns_each_match() {
    let v = chars_of("a:b::c");
    assert_eq!(replaced_string_of(&v, 0, 6, ':', ' '), "a b  c");
    assert_eq!(replaced_string_of(&v, 2, 5, ':', '-'), "b--");
    assert_eq!(replaced_string_of(&v, 1, 1, ':', ' '), "");
}

#[test]
fn find_gives_the_first_match_or_the_end() {
    let v = chars_of("ab:cd:ef");
    assert_eq!(find(&v, 0, 8, ':'), 2);
    assert_eq!(find(&v, 3, 8, ':'), 5);
    assert_eq!(find(&v, 6, 8, ':'), 8);
    assert_eq!(find(&v, 0, 2, ':'), 2);
    assert_eq!(find(&v, 4, 4, ':'), 4);
}

#[test]
fn find_last_gives_the_last_match() {
    assert_eq!(find_last(&chars_of("a.b.c"), '.'), Some(3));
    assert_eq!(find_last(&chars_of(".abc"), '.'), Some(0));
    assert_eq!(find_last(&chars_of("abc"), '.'), None);
    assert_eq!(find_last(&chars_of(""), '.'), None);
}

#[test]
fn trim_bounds_agree_with_trim() {
    let texts = ["", "   ", "a", "  a b  ", "\t\r\nx\u{a0}", "no-space", " \u{3000}y"];
    for text in texts {
        let v = chars_of(text);
        let (a, b) = trim_bounds(&v, 0, v.len());
        assert!(a <= b && b <= v.len());
        assert_eq!(string_of(&v, a, b), text.trim());
    }
    let v = chars_of("ab  cd  ef");
    assert_eq!(trim_bounds(&v, 2, 8), (4, 6));
    assert_eq!(trim_bounds(&v, 2, 4), (4, 4));
}

#[test]
fn occurs_agrees_with_contains() {
    let hays = ["", "team", "my team.txt", "tea", "teateam", "TEAM", "xteamx", "t e a m"];
    let needles = ["team", "", "a", "teamx"];
    for hay in hays {
        for needle in needles {
            assert_eq!(
                occurs(&chars_of(hay), &chars_of(needle)),
                hay.contains(needle),
                "{:?} in {:?}",
                needle,
                hay
            );
        }
    }
}
