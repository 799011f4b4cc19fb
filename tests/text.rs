use toy_http_server::static_files::StaticFiles;
use toy_http_server::text::{find_text, same_text, split_on};

#[test]
fn text_comparison() {
    assert!(same_text("abc", "abc"));
    assert!(!same_text("abc", "abd"));
    assert!(!same_text("abc", "ab"));
    assert!(same_text("", ""));
}

#[test]
fn text_search_finds_the_first_occurrence() {
    assert_eq!(find_text("a: b: c", ": "), Some(1));
    assert_eq!(find_text("abc", "x"), None);
    assert_eq!(find_text("ab", "abc"), None);
    assert_eq!(find_text("héllo wörld", "wö"), Some(6));
    assert_eq!(find_text("abc", ""), Some(0));
}

#[test]
fn splitting_matches_str_split() {
    for (s, sep) in [
        ("a\r\nb\r\n\r\nc", "\r\n"),
        ("", "\r\n"),
        ("\r\n", "\r\n"),
        ("no separator", ": "),
        ("Host: a: b", ": "),
    ] {
        let expected: Vec<String> = s.split(sep).map(|x| x.to_string()).collect();
        assert_eq!(split_on(s, sep), expected);
    }
}

#[test]
fn static_files_root() {
    let files = StaticFiles::new("public/www");
    assert_eq!(files.root(), "public/www");
}
