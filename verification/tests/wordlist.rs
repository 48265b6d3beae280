use wordtrie::{from_wordlist, from_wordlist_if};

fn words(list: &[&str]) -> Vec<String> {
    list.iter().map(|w| w.to_string()).collect()
}

#[test]
fn wordlist_inserts_every_word() {
    let t = from_wordlist(&words(&["tree", "trie", "tree", "", "try"]));
    assert_eq!(t.query("tree"), Some(2));
    assert_eq!(t.query("trie"), Some(1));
    assert_eq!(t.query("try"), Some(1));
    assert_eq!(t.query(""), Some(1));
    assert_eq!(t.query("tr"), None);
    let mut text = String::new();
    t.write(&mut text);
    assert!(text.starts_with("\u{0}\u{1f}5\u{1f}1\u{1f}1\n"));
}

#[test]
fn wordlist_of_nothing_is_the_empty_trie() {
    let t = from_wordlist(&Vec::new());
    let mut text = String::new();
    t.write(&mut text);
    assert_eq!(text, "\u{0}\u{1f}0\u{1f}0\u{1f}0\n");
}

#[test]
fn wordlist_if_inserts_what_the_filter_lets_through() {
    let t = from_wordlist_if(&words(&["one", "three", "two", "four", "two"]), |w: &str| w.len() == 3);
    assert_eq!(t.query("one"), Some(1));
    assert_eq!(t.query("two"), Some(2));
    assert_eq!(t.query("three"), None);
    assert_eq!(t.query("four"), None);
    let mut text = String::new();
    t.write(&mut text);
    assert!(text.starts_with("\u{0}\u{1f}3\u{1f}0\u{1f}2\n"));
}
