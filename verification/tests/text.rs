use graph_explorer::text::{
    contains, find_char, matches_at, remove_all, slice, split, to_chars, to_string,
};

fn chars(s: &str) -> Vec<char> {
    s.chars().collect()
}

fn text(v: &Vec<char>) -> String {
    v.iter().collect()
}

#[test]
fn to_chars_and_back() {
    assert_eq!(to_chars("héllo"), chars("héllo"));
    assert_eq!(to_string(&chars("héllo")), "héllo");
    assert_eq!(to_chars(""), Vec::<char>::new());
    assert_eq!(to_string(&Vec::new()), "");
}

#[test]
fn matches_at_checks_position_and_bounds() {
    let s = chars("abcabc");
    assert!(matches_at(&s, &chars("abc"), 0));
    assert!(matches_at(&s, &chars("abc"), 3));
    assert!(!matches_at(&s, &chars("abc"), 1));
    assert!(!matches_at(&s, &chars("abc"), 4));
    assert!(!matches_at(&s, &chars("abc"), 40));
    assert!(matches_at(&s, &chars(""), 6));
    assert!(!matches_at(&s, &chars(""), 7));
}

#[test]
fn contains_agrees_with_std() {
    let cases = [
        ("hello world", "o w"),
        ("hello", "hello"),
        ("hello", "helloo"),
        ("hello", ""),
        ("", ""),
        ("", "a"),
        ("aab", "ab"),
        ("width", "id"),
        ("port", "id"),
    ];
    for (s, pat) in cases {
        assert_eq!(contains(&chars(s), &chars(pat)), s.contains(pat), "{s:?} {pat:?}");
    }
}

#[test]
fn remove_all_agrees_with_std_replace() {
    let cases = [
        ("aaa", "aa"),
        ("abcabc", "bc"),
        ("tbody", "body"),
        ("a\\nb", "\\n"),
        ("ttdd", "td"),
        ("", "x"),
        ("x", "x"),
        ("xyz", "xyzw"),
        ("abab", "ab"),
        ("aXbXc", "X"),
    ];
    for (s, pat) in cases {
        assert_eq!(text(&remove_all(&chars(s), &chars(pat))), s.replace(pat, ""), "{s:?} {pat:?}");
    }
    assert_eq!(text(&remove_all(&chars("abc"), &chars(""))), "abc");
}

#[test]
fn find_char_gives_first_position_or_length() {
    assert_eq!(find_char(&chars("a:b:c"), ':'), 1);
    assert_eq!(find_char(&chars(":"), ':'), 0);
    assert_eq!(find_char(&chars("abc"), ':'), 3);
    assert_eq!(find_char(&chars(""), ':'), 0);
}

#[test]
fn slice_takes_a_range() {
    assert_eq!(text(&slice(&chars("hello"), 1, 3)), "el");
    assert_eq!(text(&slice(&chars("hello"), 0, 5)), "hello");
    assert_eq!(text(&slice(&chars("hello"), 2, 2)), "");
}

#[test]
fn split_agrees_with_std_split() {
    let cases = ["a b c", "", " ", "a", " a", "a ", "a  b", "id=\"x\">)"];
    for s in cases {
        let got: Vec<String> = split(&chars(s), ' ').iter().map(text).collect();
        let want: Vec<String> = s.split(' ').map(|p| p.to_string()).collect();
        assert_eq!(got, want, "{s:?}");
    }
    let got: Vec<String> = split(&chars("id=\"x\"=y"), '=').iter().map(text).collect();
    assert_eq!(got, vec!["id", "\"x\"", "y"]);
}
