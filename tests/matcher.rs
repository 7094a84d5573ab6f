use httprobe::matcher::{compile_all, evaluate, pattern_lines, Evaluation, Matcher};

fn matchers(patterns: &[&str]) -> Vec<Matcher> {
    compile_all(patterns.iter().map(|p| p.to_string()).collect())
        .ok()
        .expect("patterns compile")
}

#[test]
fn empty_matcher_set_is_trivially_successful() {
    let ms = matchers(&[]);
    assert!(matches!(evaluate(b"anything", &ms), Evaluation::NotApplicable));
    assert!(matches!(evaluate(b"", &ms), Evaluation::NotApplicable));
}

#[test]
fn no_pattern_matches_gives_no_extraction() {
    let ms = matchers(&["needle", "<h1>(.*)</h1>"]);
    assert!(matches!(evaluate(b"haystack without it", &ms), Evaluation::NoMatch));
}

#[test]
fn first_group_is_extracted_not_whole_match() {
    let ms = matchers(&["<title>(.*?)</title>"]);
    match evaluate(b"<html><title>Hello</title></html>", &ms) {
        Evaluation::Matched(v) => assert_eq!(v, vec!["Hello".to_string()]),
        other => panic!("unexpected {:?}", other),
    }
}

#[test]
fn whole_match_without_group() {
    let ms = matchers(&["ad[a-z]+n"]);
    match evaluate(b"the admin panel", &ms) {
        Evaluation::Matched(v) => assert_eq!(v, vec!["admin".to_string()]),
        other => panic!("unexpected {:?}", other),
    }
}

#[test]
fn group_that_did_not_take_part_falls_back_to_whole_match() {
    let ms = matchers(&["x(y)?z"]);
    match evaluate(b"..xz..", &ms) {
        Evaluation::Matched(v) => assert_eq!(v, vec!["xz".to_string()]),
        other => panic!("unexpected {:?}", other),
    }
}

#[test]
fn every_matching_pattern_contributes_in_order() {
    let ms = matchers(&["server: (\\w+)", "missing", "<b>(.*?)</b>"]);
    match evaluate(b"<b>bold</b> server: nginx", &ms) {
        Evaluation::Matched(v) => assert_eq!(v, vec!["nginx".to_string(), "bold".to_string()]),
        other => panic!("unexpected {:?}", other),
    }
}

#[test]
fn invalid_bytes_are_replaced() {
    let ms = matchers(&["(?-u)a(.)b"]);
    match evaluate(b"a\xffb", &ms) {
        Evaluation::Matched(v) => assert_eq!(v, vec!["\u{FFFD}".to_string()]),
        other => panic!("unexpected {:?}", other),
    }
}

#[test]
fn malformed_pattern_is_reported() {
    let r = compile_all(vec!["ok".to_string(), "foo(bar".to_string(), "[".to_string()]);
    match r {
        Err(e) => assert_eq!(e.pattern, "foo(bar"),
        Ok(_) => panic!("expected an error"),
    }
    assert!(Matcher::new("(".to_string()).is_err());
}

#[test]
fn matcher_keeps_its_pattern() {
    let m = Matcher::new("a+b".to_string()).ok().expect("compiles");
    assert_eq!(m.pattern(), "a+b");
    assert_eq!(m.extract(b"xaab"), Some("aab".to_string()));
    assert_eq!(m.extract(b"xyz"), None);
}

#[test]
fn pattern_file_lines() {
    assert_eq!(
        pattern_lines("a\n\nb(c)\n"),
        vec!["a".to_string(), "b(c)".to_string()]
    );
    assert_eq!(pattern_lines(""), Vec::<String>::new());
    assert_eq!(pattern_lines("\n\n"), Vec::<String>::new());
    assert_eq!(pattern_lines("single"), vec!["single".to_string()]);
    assert_eq!(pattern_lines("x\ny"), vec!["x".to_string(), "y".to_string()]);
}
