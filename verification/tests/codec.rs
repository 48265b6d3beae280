use wordtrie::{ReadError, Trie};

fn text_of(t: &Trie) -> String {
    let mut text = String::new();
    t.write(&mut text);
    text
}

fn lines_of(text: &str) -> Vec<String> {
    text.lines().map(|l| l.to_string()).collect()
}

fn read(text: &str) -> Result<Trie, ReadError> {
    Trie::read(&lines_of(text))
}

fn failure(text: &str) -> ReadError {
    match read(text) {
        Ok(_) => panic!("the text was read"),
        Err(e) => e,
    }
}

#[test]
fn write_gives_one_record_per_node_in_preorder() {
    let mut t = Trie::new();
    t.add("a");
    t.add("ab");
    t.add("ab");
    t.add("abc");
    t.add("b");
    assert_eq!(
        text_of(&t),
        "\u{0}\u{1f}5\u{1f}0\u{1f}2\n\
         a\u{1f}4\u{1f}1\u{1f}1\n\
         b\u{1f}3\u{1f}2\u{1f}1\n\
         c\u{1f}1\u{1f}1\u{1f}0\n\
         b\u{1f}1\u{1f}1\u{1f}0\n"
    );
}

#[test]
fn write_appends_to_what_is_there() {
    let t = Trie::new();
    let mut text = String::from("head\n");
    t.write(&mut text);
    assert_eq!(text, "head\n\u{0}\u{1f}0\u{1f}0\u{1f}0\n");
}

#[test]
fn write_uses_plain_decimal_numbers() {
    let mut t = Trie::new();
    for _ in 0..1203 {
        t.add("k");
    }
    assert_eq!(text_of(&t), "\u{0}\u{1f}1203\u{1f}0\u{1f}1\nk\u{1f}1203\u{1f}1203\u{1f}0\n");
}

#[test]
fn text_form_reads_back_as_the_same_trie() {
    let mut t = Trie::new();
    for w in ["", "tea", "ten", "to", "inn", "in", "i", "ten", "ß", "日本", "日"] {
        t.add(w);
    }
    let text = text_of(&t);
    let back = read(&text).unwrap();
    assert_eq!(text_of(&back), text);
    for w in ["", "tea", "ten", "to", "inn", "in", "i", "ß", "日本", "日", "t", "te", "x"] {
        assert_eq!(back.query(w), t.query(w));
    }
    assert_eq!(back.query("ten"), Some(2));
}

#[test]
fn read_takes_the_numbers_as_the_lines_give_them() {
    let t = read("\u{0}\u{1f}7\u{1f}3\u{1f}1\nq\u{1f}18446744073709551615\u{1f}+0042\u{1f}0\n").unwrap();
    assert_eq!(t.query(""), Some(3));
    assert_eq!(t.query("q"), Some(42));
    assert_eq!(
        text_of(&t),
        "\u{0}\u{1f}7\u{1f}3\u{1f}1\nq\u{1f}18446744073709551615\u{1f}42\u{1f}0\n"
    );
}

#[test]
fn read_passes_over_white_space_at_the_end_and_further_fields() {
    let t = read("\u{0}\u{1f}1\u{1f}0\u{1f}1\u{1f}rest\u{1f}more \r\nz\u{1f}1\u{1f}1\u{1f}0 \t \n").unwrap();
    assert_eq!(t.query("z"), Some(1));
    assert_eq!(text_of(&t), "\u{0}\u{1f}1\u{1f}0\u{1f}1\nz\u{1f}1\u{1f}1\u{1f}0\n");
}

#[test]
fn read_takes_the_label_as_it_stands() {
    let lines = vec!["\u{0}\u{1f}1\u{1f}0\u{1f}1".to_string(), " \u{1f}1\u{1f}1\u{1f}0".to_string()];
    let t = Trie::read(&lines).unwrap();
    assert_eq!(t.query(" "), Some(1));
    assert_eq!(t.query(""), None);
    assert_eq!(text_of(&t), "\u{0}\u{1f}1\u{1f}0\u{1f}1\n \u{1f}1\u{1f}1\u{1f}0\n");
    assert_eq!(failure("  a\u{1f}1\u{1f}1\u{1f}0\n"), ReadError::LabelLength);
    assert_eq!(failure("\ta\u{1f}1\u{1f}1\u{1f}0\n"), ReadError::LabelLength);
    let tab = read("\t\u{1f}3\u{1f}2\u{1f}0\n").unwrap();
    assert_eq!(text_of(&tab), "\t\u{1f}3\u{1f}2\u{1f}0\n");
}

#[test]
fn read_stops_behind_the_last_record_of_the_tree() {
    let t = read("\u{0}\u{1f}1\u{1f}0\u{1f}1\nz\u{1f}1\u{1f}1\u{1f}0\nthis is no record\n").unwrap();
    assert_eq!(t.query("z"), Some(1));
}

#[test]
fn read_fails_when_the_lines_run_out() {
    assert_eq!(failure(""), ReadError::NoMoreLines);
    assert_eq!(failure("\u{0}\u{1f}2\u{1f}0\u{1f}2\na\u{1f}1\u{1f}1\u{1f}0\n"), ReadError::NoMoreLines);
    assert_eq!(
        failure("\u{0}\u{1f}1\u{1f}0\u{1f}18446744073709551615\n"),
        ReadError::NoMoreLines
    );
}

#[test]
fn read_fails_on_a_label_of_the_wrong_length() {
    assert_eq!(failure("ab\u{1f}1\u{1f}0\u{1f}0\n"), ReadError::LabelLength);
    assert_eq!(failure("\u{1f}1\u{1f}0\u{1f}0\n"), ReadError::LabelLength);
    assert_eq!(failure("\n"), ReadError::LabelLength);
    assert_eq!(failure("\u{0}\u{1f}1\u{1f}0\u{1f}1\nxy\u{1f}1\u{1f}1\u{1f}0\n"), ReadError::LabelLength);
    assert_eq!(failure("   \n"), ReadError::LabelLength);
}

#[test]
fn read_fails_on_a_missing_field() {
    assert_eq!(failure("a\n"), ReadError::MissingUsed);
    assert_eq!(failure("a\u{1f}1\n"), ReadError::MissingEnds);
    assert_eq!(failure("a\u{1f}1\u{1f}0\n"), ReadError::MissingChildCount);
}

#[test]
fn read_fails_on_a_field_that_is_no_number() {
    assert_eq!(failure("a\u{1f}x\u{1f}0\u{1f}0\n"), ReadError::BadUsed);
    assert_eq!(failure("a\u{1f}\u{1f}0\u{1f}0\n"), ReadError::BadUsed);
    assert_eq!(failure("a\u{1f}-1\u{1f}0\u{1f}0\n"), ReadError::BadUsed);
    assert_eq!(failure("a\u{1f}+\u{1f}0\u{1f}0\n"), ReadError::BadUsed);
    assert_eq!(failure("a\u{1f}18446744073709551616\u{1f}0\u{1f}0\n"), ReadError::BadUsed);
    assert_eq!(failure("a\u{1f}1\u{1f}1 2\u{1f}0\n"), ReadError::BadEnds);
    assert_eq!(failure("a\u{1f}1\u{1f}0\u{1f}0x10\n"), ReadError::BadChildCount);
    assert_eq!(failure("a\u{1f}1\u{1f}0\u{1f}\n"), ReadError::BadChildCount);
}

#[test]
fn read_reports_the_first_failure_in_reading_order() {
    assert_eq!(failure("ab\u{1f}x\u{1f}y\n"), ReadError::LabelLength);
    assert_eq!(failure("a\u{1f}x\u{1f}y\n"), ReadError::BadUsed);
    assert_eq!(
        failure("\u{0}\u{1f}2\u{1f}0\u{1f}2\na\u{1f}1\u{1f}1\u{1f}1\nb\u{1f}?\u{1f}1\u{1f}0\nc\n"),
        ReadError::BadUsed
    );
}

#[test]
fn failures_say_what_failed() {
    assert_eq!(ReadError::NoMoreLines.message(), "No more lines while building node!");
    assert_eq!(ReadError::LabelLength.message(), "Parsed node character is wrong length!");
    assert_eq!(ReadError::MissingUsed.message(), "Failed to get used from line split");
    assert_eq!(ReadError::BadUsed.message(), "Could not parse used value to u64!");
    assert_eq!(ReadError::MissingEnds.message(), "Failed to get eowc from line split");
    assert_eq!(ReadError::BadEnds.message(), "Could not parse eowc value to u64!");
    assert_eq!(ReadError::MissingChildCount.message(), "Failed to get child count from line split");
    assert_eq!(ReadError::BadChildCount.message(), "Could not parse child count value to u64!");
}

#[test]
fn read_does_not_ask_for_sorted_children() {
    let t = read("\u{0}\u{1f}2\u{1f}0\u{1f}2\nb\u{1f}1\u{1f}1\u{1f}0\na\u{1f}1\u{1f}1\u{1f}0\n").unwrap();
    assert!(!t.well_formed());
    assert_eq!(text_of(&t), "\u{0}\u{1f}2\u{1f}0\u{1f}2\nb\u{1f}1\u{1f}1\u{1f}0\na\u{1f}1\u{1f}1\u{1f}0\n");
    let twice = read("\u{0}\u{1f}2\u{1f}0\u{1f}2\na\u{1f}1\u{1f}1\u{1f}0\na\u{1f}1\u{1f}1\u{1f}0\n").unwrap();
    assert!(!twice.well_formed());
    let deep = read("\u{0}\u{1f}2\u{1f}0\u{1f}1\nx\u{1f}2\u{1f}0\u{1f}2\nz\u{1f}1\u{1f}1\u{1f}0\ny\u{1f}1\u{1f}1\u{1f}0\n").unwrap();
    assert!(!deep.well_formed());
}

#[test]
fn what_insertions_build_is_well_formed() {
    let mut t = Trie::new();
    assert!(t.well_formed());
    for w in ["delta", "alpha", "charlie", "bravo", "alpine", "al", ""] {
        t.add(w);
        assert!(t.well_formed());
    }
    let back = read(&text_of(&t)).unwrap();
    assert!(back.well_formed());
}

#[test]
fn white_space_labels_read_back() {
    let mut t = Trie::new();
    t.add(" ");
    assert_eq!(text_of(&t), "\u{0}\u{1f}1\u{1f}0\u{1f}1\n \u{1f}1\u{1f}1\u{1f}0\n");
    let back = read(&text_of(&t)).unwrap();
    assert_eq!(back.query(" "), Some(1));
    assert_eq!(text_of(&back), text_of(&t));
    let mut many = Trie::new();
    for w in [" ", "  ", " a ", "\t", "a b", "\u{a0}x", "\u{3000}", "\r", "x\r", "\u{0}", "\u{2028}y"] {
        many.add(w);
    }
    let again = read(&text_of(&many)).unwrap();
    assert_eq!(text_of(&again), text_of(&many));
    for w in [" ", "  ", " a ", "\t", "a b", "\u{a0}x", "\u{3000}", "\r", "x\r", "\u{0}", "\u{2028}y", "", "a", " a"] {
        assert_eq!(again.query(w), many.query(w), "{:?}", w);
    }
    assert!(again.well_formed());
}

#[test]
fn separator_and_line_feed_labels_do_not_read_back() {
    let mut s = Trie::new();
    s.add("\u{1f}");
    assert_eq!(failure(&text_of(&s)), ReadError::LabelLength);
    let mut n = Trie::new();
    n.add("\n");
    assert_eq!(failure(&text_of(&n)), ReadError::LabelLength);
}

#[test]
fn trimming_takes_off_exactly_the_white_space_at_the_end() {
    for code in 0u32..=0x3100 {
        let c = match char::from_u32(code) {
            Some(c) => c,
            None => continue,
        };
        let line = format!("a\u{1f}1\u{1f}1\u{1f}0{}{}", c, c);
        let r = Trie::read(&vec![line.clone()]);
        let same = Trie::read(&vec![line.trim_end().to_string()]);
        assert_eq!(r.as_ref().err(), same.as_ref().err(), "U+{:04X}", code);
        if c.is_whitespace() {
            assert_eq!(r.unwrap().query(""), Some(1), "U+{:04X}", code);
        } else if c == '0' || c == '\u{1f}' {
            assert_eq!(r.unwrap().query(""), Some(1), "U+{:04X}", code);
        } else if c.is_ascii_digit() {
            assert_eq!(r.err(), Some(ReadError::NoMoreLines), "U+{:04X}", code);
        } else {
            assert_eq!(r.err(), Some(ReadError::BadChildCount), "U+{:04X}", code);
        }
    }
}

#[test]
fn white_space_in_front_of_a_line_is_its_label_or_part_of_it() {
    for code in 0u32..=0x3100 {
        let c = match char::from_u32(code) {
            Some(c) => c,
            None => continue,
        };
        let alone = Trie::read(&vec![format!("{}\u{1f}1\u{1f}1\u{1f}0", c)]);
        let before = Trie::read(&vec![format!("{}a\u{1f}1\u{1f}1\u{1f}0", c)]);
        if c == '\u{1f}' {
            assert_eq!(alone.err(), Some(ReadError::LabelLength), "U+{:04X}", code);
            assert_eq!(before.err(), Some(ReadError::LabelLength), "U+{:04X}", code);
        } else {
            let t = alone.unwrap();
            assert_eq!(text_of(&t), format!("{}\u{1f}1\u{1f}1\u{1f}0\n", c), "U+{:04X}", code);
            assert_eq!(before.err(), Some(ReadError::LabelLength), "U+{:04X}", code);
        }
    }
}

#[test]
fn numbers_are_read_as_unsigned_64_bit_numerals() {
    let samples = [
        "0", "00", "7", "+0", "+7", "-0", "-7", "+", "-", "", "+-1", "++1", "1+", "0x1f", "1e3",
        "1_000", " 1", "1 ", "1.0", "٣", "１", "18446744073709551615", "18446744073709551616",
        "+18446744073709551615", "000000000000000000000000018446744073709551615",
        "99999999999999999999999999", "4294967296", "12a", "a12",
    ];
    for s in samples {
        let line = format!("a\u{1f}{}\u{1f}5\u{1f}0", s);
        let r = Trie::read(&vec![line]);
        match s.parse::<u64>() {
            Ok(n) => {
                let t = r.unwrap();
                assert_eq!(text_of(&t), format!("a\u{1f}{}\u{1f}5\u{1f}0\n", n), "{:?}", s);
            }
            Err(_) => assert_eq!(r.err(), Some(ReadError::BadUsed), "{:?}", s),
        }
    }
}

#[test]
fn numbers_are_written_as_std_prints_them() {
    for n in [0u64, 1, 9, 10, 11, 99, 100, 101, 65535, 4294967295, 4294967296, u64::MAX - 1, u64::MAX] {
        let t = Trie::read(&vec![format!("a\u{1f}{}\u{1f}{}\u{1f}0", n, n)]).unwrap();
        assert_eq!(text_of(&t), format!("a\u{1f}{}\u{1f}{}\u{1f}0\n", n, n));
        assert_eq!(t.query(""), if n > 0 { Some(n) } else { None });
    }
}

#[test]
fn round_trip_keeps_structure_and_order() {
    let mut t = Trie::new();
    for w in ["b", "a", "ba", "bb", "ab", "aa", "a", "", "ba", "Zebra", "ünï", "ab"] {
        t.add(w);
    }
    let mut seen: Vec<(String, u64, u64)> = Vec::new();
    t.walk(&mut |p: &str, u: u64, e: u64| {
        seen.push((p.to_string(), u, e));
        true
    });
    let back = read(&text_of(&t)).unwrap();
    let mut again: Vec<(String, u64, u64)> = Vec::new();
    back.walk(&mut |p: &str, u: u64, e: u64| {
        again.push((p.to_string(), u, e));
        true
    });
    assert_eq!(seen, again);
    assert_eq!(seen.len(), 14);
}

#[test]
fn long_words_go_as_deep_as_they_are_long() {
    let long: String = std::iter::repeat("ab").take(1000).collect();
    let mut t = Trie::new();
    t.add(&long);
    t.add(&long);
    assert_eq!(t.query(&long), Some(2));
    assert_eq!(t.query(&long[..1999]), None);
    let text = text_of(&t);
    assert_eq!(text.lines().count(), 2001);
    let back = read(&text).unwrap();
    assert_eq!(back.query(&long), Some(2));
    assert_eq!(text_of(&back), text);
    let mut deepest = 0usize;
    back.walk(&mut |p: &str, _u: u64, _e: u64| {
        deepest = deepest.max(p.len());
        true
    });
    assert_eq!(deepest, 2000);
}
