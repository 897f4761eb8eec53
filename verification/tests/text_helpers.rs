use qartez::group_map::GroupMap;
use qartez::order::{is_text_before, sort};
use qartez::text::{
    collapse, contains, count_bytes, cut_after_last, cut_before, cut_before_last, ends_with, fit,
    is_white_space, join, push_aligned_count, push_aligned_left, push_aligned_right, push_count,
    push_decimal, push_integer, push_lines, same, starts_with, trim,
};

#[test]
fn white_space_is_that_of_the_standard_library() {
    for c in '\0'..=char::MAX {
        assert_eq!(is_white_space(c), c.is_whitespace(), "{:x}", c as u32);
    }
}

#[test]
fn texts_are_trimmed_and_collapsed() {
    for s in ["", " ", "a", " a ", "\u{3000}a b\u{85}", "\t\n"] {
        assert_eq!(trim(s), s.trim());
        let words: Vec<&str> = s.split_whitespace().collect();
        assert_eq!(collapse(s), words.join(" "));
    }
}

#[test]
fn numbers_are_written_in_decimal() {
    for n in [0u64, 7, 10, 99, 100, 12345, u64::MAX] {
        let mut out = String::from("n=");
        push_decimal(&mut out, n);
        assert_eq!(out, format!("n={n}"));
    }
    for n in [0i64, 5, -5, i64::MAX, i64::MIN] {
        let mut out = String::new();
        push_integer(&mut out, n);
        assert_eq!(out, n.to_string());
    }
    let mut out = String::new();
    push_count(&mut out, 42);
    assert_eq!(out, "42");
}

#[test]
fn columns_are_aligned_by_characters() {
    let mut out = String::new();
    push_aligned_left(&mut out, "éé", 4);
    out.push('|');
    push_aligned_right(&mut out, "ab", 3);
    out.push('|');
    push_aligned_count(&mut out, 7, 2);
    out.push('|');
    push_aligned_count(&mut out, 1234, 2);
    assert_eq!(out, format!("{:<4}|{:>3}|{:>2}|{:>2}", "éé", "ab", 7, 1234));
}

#[test]
fn texts_are_searched_and_cut() {
    assert!(same("añb", "añb") && !same("a", "b") && !same("a", "aa"));
    assert!(contains("héllo", "él") && contains("x", "") && !contains("héllo", "lol"));
    assert!(starts_with("abc", "ab") && !starts_with("a", "ab"));
    assert!(ends_with("abc", "bc") && !ends_with("c", "bc"));
    assert_eq!(cut_before("a.b.c", '.'), "a");
    assert_eq!(cut_before("abc", '.'), "abc");
    assert_eq!(cut_before_last("a.b.c", '.'), "a.b");
    assert_eq!(cut_before_last("abc", '.'), "abc");
    assert_eq!(cut_after_last("a/b/c", '/'), "c");
    assert_eq!(cut_after_last("abc", '/'), "abc");
    assert_eq!(count_bytes("aé"), 3);
    assert_eq!(fit("aéé", 4), "aé");
}

#[test]
fn lists_become_lines() {
    let list = vec!["a".to_string(), "b".to_string(), "c".to_string()];
    assert_eq!(join(&list, ", "), "a, b, c");
    assert_eq!(join(&Vec::new(), ", "), "");
    let mut out = String::new();
    push_lines(&mut out, "- ", &list, 2);
    assert_eq!(out, "- a\n- b\n");
}

#[test]
fn groups_keep_the_order_of_their_keys() {
    let mut map = GroupMap::new();
    for (key, value) in [("b", 1u64), ("a", 2), ("b", 3)] {
        map.push(key, value);
    }
    assert_eq!(map.get("b").unwrap(), &vec![1, 3]);
    assert_eq!(map.get("a").unwrap(), &vec![2]);
    assert!(map.get("c").is_none());
    let keys: Vec<String> = map.into_groups().into_iter().map(|g| g.key).collect();
    assert_eq!(keys, ["b", "a"]);
}

#[test]
fn groups_are_ranked_by_size_then_key() {
    let mut map = GroupMap::new();
    for key in ["b", "c", "a", "c"] {
        map.push(key, key.to_string());
    }
    let sorted = sort(map.into_groups());
    let keys: Vec<&str> = sorted.iter().map(|g| g.key.as_str()).collect();
    assert_eq!(keys, ["c", "a", "b"]);
}

#[test]
fn texts_are_ordered_as_the_standard_library_orders_them() {
    let list = ["", "a", "ab", "b", "é", "z", "\u{ffff}", "\u{10000}", "aa"];
    for a in list {
        for b in list {
            assert_eq!(is_text_before(a, b), a < b, "{a} {b}");
        }
    }
}
