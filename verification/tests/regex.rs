use risc::regex::{captures, compile, find, find_all, replace_all, replace_first, split, is_match, Found, Pattern};

fn pattern(p: &str) -> Pattern {
    match compile(p) {
        Ok(re) => re,
        Err(e) => panic!("pattern {p:?} refused: {}", e.message),
    }
}

fn found(text: &str, start: usize, end: usize) -> Found {
    Found { text: text.to_string(), start, end }
}

#[test]
fn regex_refuses_bad_patterns() {
    let e = match compile("(") {
        Ok(_) => panic!("an unclosed group compiled"),
        Err(e) => e,
    };
    assert_eq!(e.kind, "regex error");
    assert!(e.message.starts_with("invalid pattern: "));
    assert!(e.message.len() > "invalid pattern: ".len());
}

#[test]
fn regex_tests_for_a_match() {
    assert!(is_match(&pattern("^ab"), "abc"));
    assert!(!is_match(&pattern("^ab"), "xabc"));
}

#[test]
fn regex_find_gives_codepoint_offsets() {
    assert_eq!(find(&pattern("w.rld"), "héllo wörld"), Some(found("wörld", 6, 11)));
    assert_eq!(find(&pattern("z"), "héllo"), None);
    assert_eq!(find(&pattern("x*"), "abc"), Some(found("", 0, 0)));
}

#[test]
fn regex_find_all_in_order() {
    let all = find_all(&pattern(r"\d+"), "a1b22c333");
    assert_eq!(all, vec![found("1", 1, 2), found("22", 3, 5), found("333", 6, 9)]);
    assert!(find_all(&pattern(r"\d"), "none").is_empty());
}

#[test]
fn regex_captures_by_index_and_name() {
    let c = captures(&pattern(r"(?P<year>\d{4})-(\d{2})"), "on 2024-05!").expect("matches");
    assert_eq!(c.groups, vec![Some("2024-05".to_string()), Some("2024".to_string()), Some("05".to_string())]);
    assert_eq!(c.named, vec![("year".to_string(), "2024".to_string())]);

    let c = captures(&pattern("(a)|(b)"), "b").expect("matches");
    assert_eq!(c.groups, vec![Some("b".to_string()), None, Some("b".to_string())]);
    assert!(c.named.is_empty());

    assert!(captures(&pattern("(q)"), "abc").is_none());
}

#[test]
fn regex_replace_and_split() {
    assert_eq!(replace_first(&pattern("a+"), "caaat aa", "X"), "cXt aa");
    assert_eq!(replace_all(&pattern("a+"), "caaat aa", "X"), "cXt X");
    assert_eq!(replace_all(&pattern(r"(\w+)@(\w+)"), "me@host", "$2 at $1"), "host at me");
    assert_eq!(split(&pattern("[,;]"), "a,b;;c"), vec!["a", "b", "", "c"]);
}
