use wordtrie::Trie;

fn visits(t: &Trie) -> Vec<(String, u64, u64)> {
    let mut seen: Vec<(String, u64, u64)> = Vec::new();
    t.walk(&mut |path: &str, used: u64, ends: u64| {
        seen.push((path.to_string(), used, ends));
        true
    });
    seen
}

fn used_at(t: &Trie, path: &str) -> Option<u64> {
    visits(t).into_iter().find(|v| v.0 == path).map(|v| v.1)
}

#[test]
fn new_trie_holds_nothing() {
    let t = Trie::new();
    assert_eq!(t.query(""), None);
    assert_eq!(t.query("a"), None);
    assert!(visits(&t).is_empty());
}

#[test]
fn same_word_counts_each_insertion() {
    let mut t = Trie::new();
    for n in 1..=5u64 {
        t.add("hello");
        assert_eq!(t.query("hello"), Some(n));
    }
    assert_eq!(used_at(&t, "h"), Some(5));
    assert_eq!(used_at(&t, "hello"), Some(5));
}

#[test]
fn prefix_is_not_a_word() {
    let mut t = Trie::new();
    t.add("cat");
    assert_eq!(t.query("cat"), Some(1));
    assert_eq!(t.query("ca"), None);
    assert_eq!(t.query("dog"), None);
    assert_eq!(t.query("cats"), None);
}

#[test]
fn end_to_end_counts() {
    let mut t = Trie::new();
    t.add("a");
    t.add("ab");
    t.add("ab");
    t.add("abc");
    assert_eq!(t.query("a"), Some(1));
    assert_eq!(t.query("ab"), Some(2));
    assert_eq!(t.query("abc"), Some(1));
    assert_eq!(t.query("b"), None);
    let mut text = String::new();
    t.write(&mut text);
    assert!(text.starts_with("\u{0}\u{1f}4\u{1f}0\u{1f}1\n"));
    assert_eq!(used_at(&t, "a"), Some(4));
    assert_eq!(used_at(&t, "ab"), Some(3));
    assert_eq!(used_at(&t, "abc"), Some(1));
}

#[test]
fn empty_word_ends_at_the_root() {
    let mut t = Trie::new();
    t.add("");
    t.add("");
    t.add("x");
    assert_eq!(t.query(""), Some(2));
    let mut text = String::new();
    t.write(&mut text);
    assert_eq!(text, "\u{0}\u{1f}3\u{1f}2\u{1f}1\nx\u{1f}1\u{1f}1\u{1f}0\n");
}

#[test]
fn children_are_kept_in_label_order() {
    let mut t = Trie::new();
    for w in ["m", "z", "a", "q", "b", "a", "é", "ab"] {
        t.add(w);
    }
    let paths: Vec<String> = visits(&t).into_iter().map(|v| v.0).collect();
    assert_eq!(paths, vec!["a", "ab", "b", "m", "q", "z", "é"]);
    assert_eq!(t.query("a"), Some(2));
    assert_eq!(t.query("é"), Some(1));
}

#[test]
fn every_insertion_raises_used_along_its_path_by_one() {
    let mut t = Trie::new();
    t.add("car");
    t.add("cat");
    let before = visits(&t);
    t.add("cab");
    let after = visits(&t);
    let get = |v: &Vec<(String, u64, u64)>, p: &str| v.iter().find(|x| x.0 == p).map(|x| x.1);
    assert_eq!(get(&before, "c"), Some(2));
    assert_eq!(get(&after, "c"), Some(3));
    assert_eq!(get(&before, "ca"), Some(2));
    assert_eq!(get(&after, "ca"), Some(3));
    assert_eq!(get(&before, "cab"), None);
    assert_eq!(get(&after, "cab"), Some(1));
    assert_eq!(get(&after, "car"), Some(1));
    assert_eq!(get(&after, "cat"), Some(1));
}

#[test]
fn walk_shows_nodes_in_preorder_with_counters() {
    let mut t = Trie::new();
    t.add("to");
    t.add("tea");
    t.add("ten");
    t.add("i");
    t.add("in");
    t.add("inn");
    assert_eq!(
        visits(&t),
        vec![
            ("i".to_string(), 3, 1),
            ("in".to_string(), 2, 1),
            ("inn".to_string(), 1, 1),
            ("t".to_string(), 3, 0),
            ("te".to_string(), 2, 0),
            ("tea".to_string(), 1, 1),
            ("ten".to_string(), 1, 1),
            ("to".to_string(), 1, 1),
        ]
    );
}

#[test]
fn walk_leaves_out_what_lies_below_a_refused_node() {
    let mut t = Trie::new();
    for w in ["a", "ab", "abc", "abd", "b", "bcd", "c"] {
        t.add(w);
    }
    let limit = 1;
    let mut seen: Vec<String> = Vec::new();
    t.walk(&mut |path: &str, _used: u64, _ends: u64| {
        seen.push(path.to_string());
        path.chars().count() <= limit
    });
    assert_eq!(seen, vec!["a", "ab", "b", "bc", "c"]);
    assert!(seen.iter().all(|p| p.chars().count() <= limit + 1));
}

#[test]
fn walk_that_refuses_everything_sees_the_first_level_only() {
    let mut t = Trie::new();
    for w in ["xy", "ab", "x"] {
        t.add(w);
    }
    let mut seen: Vec<String> = Vec::new();
    t.walk(&mut |path: &str, _used: u64, _ends: u64| {
        seen.push(path.to_string());
        false
    });
    assert_eq!(seen, vec!["a", "x"]);
}

#[test]
fn count_is_the_number_of_insertions_of_the_word() {
    let words = ["ab", "a", "ab", "abc", "", "a", "ab", "b", ""];
    let mut t = Trie::new();
    for w in words {
        t.add(w);
    }
    for w in ["", "a", "ab", "abc", "b", "c", "abcd", "ba"] {
        let n = words.iter().filter(|x| **x == w).count() as u64;
        assert_eq!(t.query(w), if n > 0 { Some(n) } else { None });
    }
    for p in ["a", "ab", "abc", "b"] {
        let n = words.iter().filter(|x| x.starts_with(p)).count() as u64;
        assert_eq!(used_at(&t, p), Some(n));
    }
}

#[test]
fn words_of_many_bytes_per_character_go_character_by_character() {
    let mut t = Trie::new();
    t.add("日本語");
    t.add("日本");
    t.add("日光");
    assert_eq!(t.query("日本語"), Some(1));
    assert_eq!(t.query("日本"), Some(1));
    assert_eq!(t.query("日"), None);
    assert_eq!(used_at(&t, "日"), Some(3));
    assert_eq!(used_at(&t, "日本"), Some(2));
    let paths: Vec<String> = visits(&t).into_iter().map(|v| v.0).collect();
    assert_eq!(paths, vec!["日", "日光", "日本", "日本語"]);
}

#[test]
fn walk_with_a_limit_shows_every_branch_down_to_one_below_it() {
    let mut t = Trie::new();
    for w in ["abcd", "abx", "ay", "b", "bcde", "c"] {
        t.add(w);
    }
    for limit in 0..5usize {
        let mut seen: Vec<String> = Vec::new();
        t.walk(&mut |path: &str, _u: u64, _e: u64| {
            seen.push(path.to_string());
            path.chars().count() <= limit
        });
        let all = ["a", "ab", "abc", "abcd", "abx", "ay", "b", "bc", "bcd", "bcde", "c"];
        let want: Vec<&str> = all.iter().copied().filter(|p| p.len() <= limit + 1).collect();
        assert_eq!(seen, want);
    }
}
