use thumbs::hints::{hints, HintError};
use thumbs::picker::{assign_hints, Draw, Event, HintPosition, Match, Outcome, Picker, Role};
use thumbs::scan::{scan_rows, sub_strings, wrap_lines};

fn chars(s: &str) -> Vec<char> {
    s.chars().collect()
}

fn text(v: &[char]) -> String {
    v.iter().collect()
}

fn codes(alphabet: &str, n: usize) -> Vec<String> {
    hints(&chars(alphabet), n).unwrap().iter().map(|c| text(c)).collect()
}

fn plain(line: usize, column: usize, t: &str) -> Match {
    Match { line, column, text: chars(t), hint: None }
}

fn hinted(line: usize, column: usize, t: &str, h: &str) -> Match {
    Match { line, column, text: chars(t), hint: Some(chars(h)) }
}

fn is_prefix(a: &str, b: &str) -> bool {
    b.starts_with(a)
}

#[test]
fn two_letters_three_matches() {
    assert_eq!(codes("ab", 3), vec!["a", "ba", "bb"]);
}

#[test]
fn few_matches_take_single_letters_in_order() {
    assert_eq!(codes("qwerty", 3), vec!["q", "w", "e"]);
    assert_eq!(codes("qwerty", 6), vec!["q", "w", "e", "r", "t", "y"]);
    assert_eq!(codes("qwerty", 0), Vec::<String>::new());
}

#[test]
fn many_matches_are_prefix_free() {
    for alphabet in ["ab", "abc", "asdf", "qwerty"] {
        for n in 0..80 {
            let c = codes(alphabet, n);
            assert_eq!(c.len(), n);
            for i in 0..n {
                for j in 0..n {
                    if i != j {
                        assert!(!is_prefix(&c[i], &c[j]), "{} {} {:?}", alphabet, n, c);
                    }
                }
                if i > 0 {
                    assert!(c[i - 1].len() <= c[i].len());
                }
                assert!(c[i].chars().all(|ch| alphabet.contains(ch)));
            }
        }
    }
}

#[test]
fn codes_are_deterministic() {
    assert_eq!(codes("asdf", 11), codes("asdf", 11));
    assert_eq!(codes("ab", 5), vec!["aa", "ab", "ba", "bba", "bbb"]);
    assert_eq!(codes("abc", 4), vec!["a", "b", "ca", "cb"]);
}

#[test]
fn alphabet_errors() {
    assert_eq!(hints(&chars(""), 1).err(), Some(HintError::EmptyAlphabet));
    assert_eq!(hints(&chars(""), 0).err(), Some(HintError::EmptyAlphabet));
    assert_eq!(hints(&chars("aba"), 2).err(), Some(HintError::RepeatedLetter));
    assert_eq!(hints(&chars("a"), 2).err(), Some(HintError::TooFewLetters));
    assert_eq!(codes("a", 1), vec!["a"]);
}

fn hint_texts(ms: &[Match]) -> Vec<Option<String>> {
    ms.iter().map(|m| m.hint.as_ref().map(|h| text(h))).collect()
}

#[test]
fn unique_hints_the_first_of_each_text() {
    let ms = vec![plain(0, 0, "x"), plain(0, 2, "y"), plain(1, 0, "x")];
    let out = assign_hints(ms, &chars("ab"), false, true).unwrap();
    assert_eq!(hint_texts(&out), vec![Some("a".to_string()), Some("b".to_string()), None]);
    assert_eq!(text(&out[2].text), "x");
    assert_eq!(out[2].line, 1);
}

#[test]
fn unique_reverse_hints_the_last_of_each_text() {
    let ms = vec![plain(0, 0, "x"), plain(0, 2, "y"), plain(1, 0, "x")];
    let out = assign_hints(ms, &chars("ab"), true, true).unwrap();
    assert_eq!(hint_texts(&out), vec![None, Some("b".to_string()), Some("a".to_string())]);
}

#[test]
fn without_unique_every_match_gets_a_hint() {
    let ms = vec![plain(0, 0, "x"), plain(0, 2, "y"), plain(1, 0, "x")];
    let out = assign_hints(ms, &chars("ab"), false, false).unwrap();
    assert_eq!(
        hint_texts(&out),
        vec![Some("a".to_string()), Some("ba".to_string()), Some("bb".to_string())]
    );
    let ms = vec![plain(0, 0, "x")];
    assert_eq!(assign_hints(ms, &chars(""), false, false).err(), Some(HintError::EmptyAlphabet));
}

fn picker(reverse: bool) -> Picker {
    let ms = vec![hinted(0, 0, "one", "a"), hinted(0, 4, "two", "ba"), hinted(1, 0, "three", "bb")];
    Picker::new(ms, reverse, HintPosition::Left)
}

fn selected(o: Outcome) -> Option<(String, bool)> {
    match o {
        Outcome::Selected(t, alt) => Some((text(&t), alt)),
        _ => None,
    }
}

#[test]
fn cursor_stays_within_bounds() {
    let mut p = picker(true);
    assert_eq!(p.skip, None);
    p.init();
    assert_eq!(p.skip, Some(0));
    p.prev();
    p.prev();
    assert_eq!(p.skip, Some(0));
    p.next();
    p.next();
    p.next();
    p.next();
    assert_eq!(p.skip, Some(2));
    let mut q = picker(false);
    assert_eq!(q.skip, None);
    q.init();
    assert_eq!(q.skip, Some(2));
    q.init();
    assert_eq!(q.skip, Some(2));
    q.prev();
    assert_eq!(q.skip, Some(1));
}

#[test]
fn no_matches_no_cursor() {
    let mut p = Picker::new(vec![], false, HintPosition::Left);
    p.init();
    assert_eq!(p.skip, None);
    assert!(matches!(p.handle(Event::Confirm), Outcome::Waiting));
    assert!(matches!(p.handle(Event::Char('a')), Outcome::Waiting));
    assert!(matches!(p.handle(Event::Char('Z')), Outcome::Waiting));
    assert!(p.typed.is_empty());
    assert!(matches!(p.handle(Event::Prev), Outcome::Waiting));
    assert!(matches!(p.handle(Event::Next), Outcome::Waiting));
    assert!(matches!(p.handle(Event::Escape), Outcome::Cancelled));
}

#[test]
fn confirm_selects_the_cursor() {
    let mut p = picker(false);
    assert_eq!(selected(p.handle(Event::Confirm)), Some(("three".to_string(), false)));
    assert!(matches!(p.handle(Event::Prev), Outcome::Waiting));
    assert_eq!(p.skip, Some(1));
    assert_eq!(selected(p.handle(Event::Confirm)), Some(("two".to_string(), false)));
    let mut r = picker(true);
    assert_eq!(selected(r.handle(Event::Confirm)), Some(("one".to_string(), false)));
    assert_eq!(r.skip, Some(0));
    let mut e = picker(false);
    assert!(matches!(e.handle(Event::Escape), Outcome::Cancelled));
    assert_eq!(e.skip, Some(2));
    assert!(matches!(r.handle(Event::Next), Outcome::Waiting));
    assert_eq!(selected(r.handle(Event::Confirm)), Some(("two".to_string(), false)));
}

#[test]
fn typing_a_code_resolves() {
    let mut p = picker(false);
    assert!(matches!(p.handle(Event::Char('b')), Outcome::Waiting));
    assert_eq!(selected(p.handle(Event::Char('B'))), Some(("three".to_string(), true)));
    let mut p = picker(false);
    assert_eq!(selected(p.handle(Event::Char('a'))), Some(("one".to_string(), false)));
}

#[test]
fn uppercase_asks_for_the_alternate_action() {
    let mut p = picker(false);
    assert_eq!(selected(p.handle(Event::Char('A'))), Some(("one".to_string(), true)));
    let mut p = picker(false);
    assert_eq!(selected(p.handle(Event::Char('a'))), Some(("one".to_string(), false)));
}

#[test]
fn typing_past_the_longest_code_cancels() {
    let mut p = picker(false);
    assert!(matches!(p.handle(Event::Char('z')), Outcome::Waiting));
    assert!(matches!(p.handle(Event::Char('z')), Outcome::Cancelled));
    assert_eq!(text(&p.typed), "zz");
}

#[test]
fn ipv4_is_found_at_its_column() {
    let rows = wrap_lines("abc 127.0.0.1 def", 80);
    let ms = scan_rows(&rows);
    assert_eq!(ms.len(), 1);
    assert_eq!(text(&ms[0].text), "127.0.0.1");
    assert_eq!(ms[0].line, 0);
    assert_eq!(ms[0].column, 4);
    assert!(ms[0].hint.is_none());
}

#[test]
fn detectors_and_priority() {
    let rows = vec![
        chars("see /usr/bin and deadbeef42 or 1.2.3.4567"),
        chars(""),
        chars("ü 10.0.0.1"),
        chars("~/src 12345678"),
    ];
    let ms = scan_rows(&rows);
    let found: Vec<(usize, usize, String)> = ms.iter().map(|m| (m.line, m.column, text(&m.text))).collect();
    assert_eq!(
        found,
        vec![
            (0, 4, "/usr/bin".to_string()),
            (0, 17, "deadbeef42".to_string()),
            (2, 2, "10.0.0.1".to_string()),
            (3, 0, "~/src".to_string()),
            (3, 6, "12345678".to_string()),
        ]
    );
}

#[test]
fn text_is_cut_into_pieces() {
    let s = sub_strings("abcdefg", 3);
    assert_eq!(s, vec!["abc".to_string(), "def".to_string(), "g".to_string()]);
    assert_eq!(sub_strings("", 3), Vec::<String>::new());
    assert_eq!(sub_strings("héllo", 2), vec!["hé".to_string(), "ll".to_string(), "o".to_string()]);
}

#[test]
fn rows_follow_width_and_line_feeds() {
    let rows: Vec<String> = wrap_lines("ab\ncd", 80).iter().map(|r| text(r)).collect();
    assert_eq!(rows, vec!["ab", "cd"]);
    let rows: Vec<String> = wrap_lines("abcdef", 4).iter().map(|r| text(r)).collect();
    assert_eq!(rows, vec!["abcd", "ef"]);
    let rows: Vec<String> = wrap_lines("ab\ncdef", 4).iter().map(|r| text(r)).collect();
    assert_eq!(rows, vec!["ab", "cdef"]);
    let rows: Vec<String> = wrap_lines("ab\n\ncdefgh\n", 4).iter().map(|r| text(r)).collect();
    assert_eq!(rows, vec!["ab", "", "cdef", "gh", ""]);
}

#[test]
fn match_after_a_crossing_line_keeps_its_row() {
    let rows = wrap_lines("xy\nab 1.2.3.4\n10.0.0.1", 8);
    let ms = scan_rows(&rows);
    let found: Vec<(usize, usize, String)> = ms.iter().map(|m| (m.line, m.column, text(&m.text))).collect();
    assert_eq!(
        found,
        vec![(3, 0, "10.0.0.1".to_string())]
    );
}

fn spans(d: &[Draw]) -> Vec<(usize, usize, String, Role)> {
    d.iter().map(|x| (x.row, x.column, text(&x.text), x.role)).collect()
}

#[test]
fn frame_draws_matches_and_hints() {
    let mut p = picker(false);
    p.init();
    assert_eq!(
        spans(&p.present()),
        vec![
            (0, 0, "one".to_string(), Role::Plain),
            (0, 0, "a".to_string(), Role::Hint),
            (0, 4, "two".to_string(), Role::Plain),
            (0, 4, "ba".to_string(), Role::Hint),
            (1, 0, "three".to_string(), Role::Selected),
            (1, 0, "bb".to_string(), Role::Hint),
        ]
    );
    let ms = vec![hinted(2, 5, "three", "bb"), plain(3, 1, "x")];
    let q = Picker::new(ms, false, HintPosition::Right);
    assert_eq!(
        spans(&q.present()),
        vec![
            (2, 5, "three".to_string(), Role::Plain),
            (2, 8, "bb".to_string(), Role::Hint),
            (3, 1, "x".to_string(), Role::Plain),
        ]
    );
}

#[test]
fn reverse_hands_out_letters_from_the_last_match() {
    let ms = vec![plain(0, 0, "x"), plain(0, 2, "y"), plain(1, 0, "z")];
    let out = assign_hints(ms, &chars("abc"), true, false).unwrap();
    assert_eq!(
        hint_texts(&out),
        vec![Some("c".to_string()), Some("b".to_string()), Some("a".to_string())]
    );
}

#[test]
fn pipeline_from_text_to_selection() {
    let rows = wrap_lines("ip 10.1.1.1 and 10.1.1.1\nhash 0123abcd", 80);
    let found = scan_rows(&rows);
    let ms = assign_hints(found, &chars("ab"), false, true).unwrap();
    assert_eq!(hint_texts(&ms), vec![Some("a".to_string()), None, Some("b".to_string())]);
    assert_eq!(ms[2].line, 1);
    let mut p = Picker::new(ms, false, HintPosition::Left);
    assert_eq!(selected(p.handle(Event::Char('b'))), Some(("0123abcd".to_string(), false)));
}
