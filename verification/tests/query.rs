use zoxide::query::{find, key, last_component_start, stands_at, Query};

fn query(fragments: &[&str]) -> Query {
    let fragments: Vec<String> = fragments.iter().map(|s| s.to_string()).collect();
    Query::new(&fragments)
}

#[test]
fn a_keyword_selects_the_paths_whose_last_component_holds_it() {
    assert!(query(&["a"]).matches("/home/a"));
    assert!(query(&["oo"]).matches("/foo"));
    assert!(query(&["foo"]).matches("/x/foo"));
    assert!(!query(&["home"]).matches("/home/a"));
    assert!(!query(&["b"]).matches("/home/a"));
}

#[test]
fn the_whole_path_selects_itself() {
    assert!(query(&["/home/a"]).matches("/home/a"));
    assert!(query(&["/"]).matches("/"));
    assert!(query(&["relative"]).matches("relative"));
}

#[test]
fn keywords_are_found_one_after_the_other() {
    assert!(query(&["home", "a"]).matches("/home/a"));
    assert!(query(&["ho", "me", "a"]).matches("/home/a"));
    assert!(!query(&["a", "home"]).matches("/home/a"));
    assert!(query(&["a", "a"]).matches("/a/a"));
    assert!(!query(&["a", "a"]).matches("/b/a"));
    assert!(!query(&["ab", "bc"]).matches("/abc"));
    assert!(query(&["ab", "bc"]).matches("/ab/bc"));
    assert!(query(&["ab", "bc"]).matches("/abbc"));
}

#[test]
fn the_first_place_of_a_keyword_is_taken() {
    assert!(query(&["a", "b"]).matches("/a/x/a/b"));
    assert!(query(&["a", "b", "a"]).matches("/a/b/c/b/a"));
    assert!(!query(&["a", "b", "a", "b", "a"]).matches("/a/b/a/b"));
}

#[test]
fn ascii_letters_match_whatever_their_case() {
    assert!(query(&["HOME", "a"]).matches("/home/A"));
    assert!(query(&["foo"]).matches("/FOO"));
    assert!(query(&["Z"]).matches("/a/z"));
    assert!(!query(&["@"]).matches("/`"));
    assert!(!query(&["["]).matches("/{"));
}

#[test]
fn other_letters_match_whatever_their_case() {
    assert!(query(&["\u{e9}t\u{e9}"]).matches("/tmp/\u{e9}t\u{e9}"));
    assert!(query(&["\u{c9}t\u{e9}"]).matches("/tmp/\u{e9}t\u{e9}"));
    assert!(query(&["\u{e9}T\u{e9}"]).matches("/tmp/\u{c9}t\u{c9}"));
    assert!(query(&["\u{3c9}"]).matches("/\u{3a9}"));
    assert!(!query(&["e"]).matches("/\u{e9}"));
}

#[test]
fn the_last_component_of_the_last_keyword_counts() {
    assert!(query(&["me/a"]).matches("/home/a"));
    assert!(!query(&["me/a"]).matches("/home/a/b"));
    assert!(query(&["home", "b"]).matches("/home/a/b"));
    assert!(!query(&["b", "home"]).matches("/b/home/a"));
    assert!(query(&["a/"]).matches("/a/b"));
    assert!(query(&["a/"]).matches("/a/"));
    assert!(!query(&["a/"]).matches("/a"));
}

#[test]
fn no_keyword_and_the_empty_keyword_select_every_path() {
    assert!(query(&[]).matches("/home/a"));
    assert!(query(&[]).matches(""));
    assert!(query(&[""]).matches("/home/a"));
    assert!(query(&["", ""]).matches(""));
    assert!(!query(&["a"]).matches(""));
}

#[test]
fn the_key_of_a_text_is_its_lower_case_in_bytes() {
    assert_eq!(key("/Home/AZ az@[`{"), b"/home/az az@[`{".to_vec());
    assert_eq!(key("\u{c9}A\u{3a9}"), "\u{e9}a\u{3c9}".as_bytes().to_vec());
    assert_eq!(key(""), Vec::<u8>::new());
}

#[test]
fn stands_at_compares_at_a_place() {
    assert!(stands_at(b"abcabc", b"bc", 1));
    assert!(stands_at(b"abcabc", b"bc", 4));
    assert!(!stands_at(b"abcabc", b"bc", 0));
    assert!(!stands_at(b"abcabc", b"bc", 5));
    assert!(!stands_at(b"abcabc", b"bc", 7));
    assert!(stands_at(b"abc", b"", 3));
    assert!(!stands_at(b"abc", b"", 4));
    assert!(!stands_at(b"ab", b"abc", 0));
    assert!(!stands_at(b"ab", b"abc", usize::MAX));
}

#[test]
fn find_gives_the_first_place() {
    assert_eq!(find(b"abcabc", b"bc", 0), Some(1));
    assert_eq!(find(b"abcabc", b"bc", 1), Some(1));
    assert_eq!(find(b"abcabc", b"bc", 2), Some(4));
    assert_eq!(find(b"abcabc", b"bc", 5), None);
    assert_eq!(find(b"abcabc", b"abcabc", 0), Some(0));
    assert_eq!(find(b"abcabc", b"abcabcd", 0), None);
    assert_eq!(find(b"abc", b"", 0), Some(0));
    assert_eq!(find(b"abc", b"", 3), Some(3));
    assert_eq!(find(b"abc", b"", 4), None);
    assert_eq!(find(b"", b"", 0), Some(0));
    assert_eq!(find(b"", b"a", 0), None);
    assert_eq!(find(b"aab", b"ab", 0), Some(1));
}

#[test]
fn last_component_starts_behind_the_last_separator() {
    assert_eq!(last_component_start(b"/home/a"), 6);
    assert_eq!(last_component_start(b"/home/"), 6);
    assert_eq!(last_component_start(b"home"), 0);
    assert_eq!(last_component_start(b""), 0);
    assert_eq!(last_component_start(b"/"), 1);
    assert_eq!(last_component_start(b"a//b"), 3);
}
