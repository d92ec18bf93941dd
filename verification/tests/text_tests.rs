use citool::text;

fn strings(v: &[&str]) -> Vec<String> {
    v.iter().map(|s| s.to_string()).collect()
}

#[test]
fn trim_removes_unicode_whitespace_on_both_sides() {
    assert_eq!(text::trim("  ru \t\n"), "ru");
    assert_eq!(text::trim("\u{3000}uz\u{a0}"), "uz");
    assert_eq!(text::trim("   "), "");
    assert_eq!(text::trim("a b"), "a b");
}

#[test]
fn trim_agrees_with_std_trim() {
    for s in ["", " x ", "\u{2028}y\u{85}", "\u{200b}z", "q\u{1680}"] {
        assert_eq!(text::trim(s), s.trim());
    }
}

#[test]
fn trim_twice_is_trim_once() {
    let once = text::trim(" \t a \u{2003}");
    assert_eq!(text::trim(&once), once);
}

#[test]
fn split_agrees_with_std_split() {
    for (s, p) in [("a,b,,c", ","), ("", ","), ("x###----###y###----###", "###----###"), ("aaa", "aa")] {
        let expected: Vec<String> = s.split(p).map(|x| x.to_string()).collect();
        assert_eq!(text::split(s, p), expected);
    }
}

#[test]
fn join_of_split_gives_back_the_string() {
    let s = "en, ru,,uz";
    let parts = text::split(s, ",");
    assert_eq!(text::join(&parts, ","), s);
}

#[test]
fn join_puts_separator_between() {
    assert_eq!(text::join(&strings(&["a", "b", "c"]), ","), "a,b,c");
    assert_eq!(text::join(&strings(&[]), ","), "");
    assert_eq!(text::join(&strings(&["x"]), "\r\n"), "x");
}

#[test]
fn padding_agrees_with_format() {
    assert_eq!(text::pad_left("INDEX", 40), format!("{:>40}", "INDEX"));
    assert_eq!(text::pad_right("word", 20), format!("{:<20}", "word"));
    assert_eq!(text::pad_center("RU", 10), format!("{:^10}", "RU"));
    assert_eq!(text::pad_center("ABC", 10), format!("{:^10}", "ABC"));
    assert_eq!(text::pad_center("+", 10), format!("{:^10}", "+"));
    assert_eq!(text::pad_left("longer than width", 3), "longer than width");
    assert_eq!(text::pad_center("приветик", 11), format!("{:^11}", "приветик"));
}

#[test]
fn strip_and_tail_cut_long_text() {
    assert_eq!(text::strip_to("abcdef", 3), "abc..");
    assert_eq!(text::strip_to("abc", 3), "abc");
    assert_eq!(text::strip_to("пример", 2), "пр..");
    assert_eq!(text::tail_to("abcdef", 3), "...def");
    assert_eq!(text::tail_to("abc", 3), "abc");
}

#[test]
fn char_count_counts_characters() {
    assert_eq!(text::char_count("язык"), 4);
    assert_eq!(text::char_count(""), 0);
}

#[test]
fn sorted_strings_agrees_with_sort() {
    let v = strings(&["ru/b_lang.php", "a", "Z", "ru", "ab", "ёж", "a", "ещё"]);
    let mut expected = v.clone();
    expected.sort();
    assert_eq!(text::sorted_strings(&v), expected);
}

#[test]
fn sorted_strings_orders_and_keeps_elements() {
    let v = strings(&["c", "a", "b", "a"]);
    let r = text::sorted_strings(&v);
    assert_eq!(r, strings(&["a", "a", "b", "c"]));
    for w in r.windows(2) {
        assert!(w[0] <= w[1]);
    }
    assert_eq!(r.len(), v.len());
}

#[test]
fn str_eq_and_copies() {
    assert!(text::str_eq("ru", "ru"));
    assert!(!text::str_eq("ru", "uz"));
    assert_eq!(text::copy_str("x"), "x");
    let mut s = "a".to_string();
    text::append_str(&mut s, "bc");
    assert_eq!(s, "abc");
    let mut t = String::new();
    text::push_spaces(&mut t, 3);
    assert_eq!(t, "   ");
}

#[test]
fn whitespace_classification() {
    assert!(text::is_whitespace(' '));
    assert!(text::is_whitespace('\u{2029}'));
    assert!(!text::is_whitespace('\u{200b}'));
    assert!(!text::is_whitespace('a'));
}

#[test]
fn padded_fields_have_the_asked_width() {
    for w in [0usize, 3, 10, 40] {
        for s in ["", "ab", "длинная строка текста"] {
            let n = s.chars().count();
            let expected = if n < w { w } else { n };
            assert_eq!(text::pad_left(s, w).chars().count(), expected);
            assert_eq!(text::pad_right(s, w).chars().count(), expected);
            assert_eq!(text::pad_center(s, w).chars().count(), expected);
            assert!(text::pad_left(s, w).ends_with(s));
            assert!(text::pad_right(s, w).starts_with(s));
            assert!(text::strip_to(s, w).chars().count() <= w + 2);
        }
    }
}
