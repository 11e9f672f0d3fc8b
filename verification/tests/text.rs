use rbuild::text::{
    contains, ends_with, holds, insert_sorted, join, lower, order, replace_char, same, split_at_char,
    split_lines, split_once, split_pieces, starts_with, strip_prefix, strip_suffix, to_decimal, trim,
    trim_of, write_lines, write_pieces, Order,
};

const SAMPLES: [&str; 16] = [
    "", "a", "\n", "a\n", "a\nb", "a\r\nb\r\n", "a\r", "\r\n", "  a b\t", "é&\u{3000}", "&&", "a&b&",
    "ABC xyz", "\u{a0}x\u{2003}", "aaa", "x\n\ny",
];

#[test]
fn texts_behave_like_std() {
    for s in SAMPLES {
        assert_eq!(split_lines(s), s.lines().collect::<Vec<_>>(), "lines of {s:?}");
        assert_eq!(trim(s), s.trim(), "trim of {s:?}");
        assert_eq!(trim_of(s, '&'), s.trim_matches('&'));
        assert_eq!(split_at_char(s, '&'), s.split('&').collect::<Vec<_>>());
        assert_eq!(join(&split_at_char(s, '&'), "&"), s);
        assert_eq!(replace_char(s, 'a', 'b'), s.replace('a', "b"));
        assert_eq!(lower(s), s.to_ascii_lowercase());
        for t in SAMPLES {
            assert_eq!(contains(s, t), s.contains(t), "{t:?} in {s:?}");
            assert_eq!(starts_with(s, t), s.starts_with(t));
            assert_eq!(ends_with(s, t), s.ends_with(t));
            assert_eq!(strip_prefix(s, t).as_deref(), s.strip_prefix(t));
            assert_eq!(strip_suffix(s, t).as_deref(), s.strip_suffix(t));
            assert_eq!(same(s, t), s == t);
            assert_eq!(
                split_once(s, t),
                s.split_once(t).map(|(a, b)| (a.to_string(), b.to_string()))
            );
            let want = if s < t {
                Order::Less
            } else if s == t {
                Order::Same
            } else {
                Order::Greater
            };
            assert_eq!(order(s, t), want);
        }
    }
}

#[test]
fn numbers_are_written_like_std() {
    for n in [0, 1, 9, 10, 15, 16, 255, 4096, 1_000_000_007, u64::MAX] {
        assert_eq!(to_decimal(n), n.to_string());
    }
}

#[test]
fn white_space_is_unicode() {
    for c in '\0'..='\u{3100}' {
        assert_eq!(rbuild::text::white(c), c.is_whitespace(), "{c:?}");
    }
}

#[test]
fn lines_keep_their_endings() {
    for s in SAMPLES {
        assert_eq!(split_pieces(s), s.split_inclusive('\n').collect::<Vec<_>>());
        assert_eq!(write_pieces(&split_pieces(s)), s);
    }
}

// What the library relies on where it lowercases names and answers.
#[test]
fn lowercase_is_stable() {
    for c in '\0'..=char::MAX {
        let low = c.to_string().to_lowercase();
        assert_eq!(low.to_lowercase(), low, "{c:?}");
    }
    for s in ["ΣΑΣ", "ΑΣ ΑΣ", "aΣ", "Σ", "İI", "ǅA"] {
        let low = s.to_lowercase();
        assert_eq!(low.to_lowercase(), low);
    }
}

#[test]
fn lists_are_kept_sorted() {
    let mut list = Vec::new();
    for t in ["b", "a", "c", "a", "aa"] {
        insert_sorted(&mut list, t.to_string());
    }
    assert_eq!(list, vec!["a", "aa", "b", "c"]);
    assert!(holds(&list, "aa") && !holds(&list, "x"));
    assert_eq!(write_lines(&list), "a\naa\nb\nc\n");
    assert_eq!(write_lines(&[]), "");
}
