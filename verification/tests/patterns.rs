use scandir::filter::{FilterError, FilterSet};
use scandir::pattern::{Pattern, PatternError};

fn pat(text: &str) -> Pattern {
    Pattern::new(text).unwrap()
}

fn list(items: &[&str]) -> Option<Vec<String>> {
    Some(items.iter().map(|s| s.to_string()).collect())
}

#[test]
fn literal_matches_itself_only() {
    let p = pat("main.rs");
    assert!(p.matches("main.rs", true));
    assert!(!p.matches("main.rsx", true));
    assert!(!p.matches("main.r", true));
    assert!(!p.matches("", true));
}

#[test]
fn empty_pattern_matches_empty_name_only() {
    let p = pat("");
    assert!(p.matches("", true));
    assert!(!p.matches("a", true));
}

#[test]
fn star_matches_any_run() {
    let p = pat("*.rs");
    assert!(p.matches("main.rs", true));
    assert!(p.matches(".rs", true));
    assert!(!p.matches("main.rc", true));
    assert!(pat("*").matches("", true));
    assert!(pat("*").matches("anything at all", true));
    assert!(pat("a*b*c").matches("a--b--c", true));
    assert!(pat("a*b*c").matches("abc", true));
    assert!(!pat("a*b*c").matches("a--c--b", true));
    assert!(pat("**").matches("x", true));
}

#[test]
fn star_backtracks() {
    assert!(pat("*ab").matches("aab", true));
    assert!(pat("*a*a*a").matches("banana", true));
    assert!(!pat("*a*a*a*a").matches("banana", true));
}

#[test]
fn question_mark_matches_one_character() {
    let p = pat("a?c");
    assert!(p.matches("abc", true));
    assert!(p.matches("a.c", true));
    assert!(!p.matches("ac", true));
    assert!(!p.matches("abbc", true));
    assert!(pat("?").matches("é", true));
}

#[test]
fn class_matches_listed_characters_and_ranges() {
    let p = pat("file[0-9a].txt");
    assert!(p.matches("file0.txt", true));
    assert!(p.matches("file7.txt", true));
    assert!(p.matches("filea.txt", true));
    assert!(!p.matches("fileb.txt", true));
    assert!(!p.matches("file.txt", true));
}

#[test]
fn negated_class_matches_everything_else() {
    let p = pat("[!a-c]x");
    assert!(p.matches("dx", true));
    assert!(!p.matches("ax", true));
    assert!(!p.matches("cx", true));
    assert!(!p.matches("x", true));
}

#[test]
fn first_character_of_a_class_is_taken_as_it_stands() {
    assert!(pat("[]]").matches("]", true));
    assert!(!pat("[]]").matches("[", true));
    assert!(pat("[!]]").matches("a", true));
    assert!(!pat("[!]]").matches("]", true));
    assert!(pat("[a-]").matches("-", true));
    assert!(pat("[a-]").matches("a", true));
    assert!(pat("[?]").matches("?", true));
    assert!(!pat("[?]").matches("a", true));
    assert!(pat("[*]").matches("*", true));
}

#[test]
fn unclosed_class_is_refused() {
    assert_eq!(Pattern::new("ab[cd").err(), Some(PatternError::UnclosedClass(2)));
    assert_eq!(Pattern::new("[").err(), Some(PatternError::UnclosedClass(0)));
    assert_eq!(Pattern::new("[]").err(), Some(PatternError::UnclosedClass(0)));
    assert_eq!(Pattern::new("[!]").err(), Some(PatternError::UnclosedClass(0)));
    assert_eq!(Pattern::new("a[b]c[").err(), Some(PatternError::UnclosedClass(5)));
    assert!(Pattern::new("a]b").is_ok());
}

#[test]
fn case_is_folded_unless_asked_otherwise() {
    let p = pat("Read*.TXT");
    assert!(p.matches("readme.txt", false));
    assert!(p.matches("README.TXT", false));
    assert!(!p.matches("readme.txt", true));
    assert!(p.matches("Readme.TXT", true));
    let c = pat("[a-c]");
    assert!(c.matches("B", false));
    assert!(!c.matches("B", true));
    let u = pat("[A-C]");
    assert!(u.matches("b", false));
    assert!(!u.matches("b", true));
}

#[test]
fn only_ascii_letters_are_folded() {
    assert!(!pat("é").matches("É", false));
    assert!(pat("é").matches("é", false));
}

#[test]
fn filter_without_patterns_lets_everything_pass() {
    let f = FilterSet::new(None, None, None, None, false).unwrap();
    assert!(f.matches("anything", true));
    assert!(f.matches("anything", false));
}

#[test]
fn filter_include_restricts() {
    let f = FilterSet::new(None, None, list(&["*.rs", "*.toml"]), None, true).unwrap();
    assert!(f.matches("lib.rs", false));
    assert!(f.matches("Cargo.toml", false));
    assert!(!f.matches("notes.txt", false));
    assert!(f.matches("notes.txt", true));
}

#[test]
fn exclude_takes_precedence_over_include() {
    let f = FilterSet::new(
        list(&["src*"]),
        list(&["src_old"]),
        list(&["*.rs"]),
        list(&["gen_*"]),
        true,
    )
    .unwrap();
    assert!(f.matches("main.rs", false));
    assert!(!f.matches("gen_main.rs", false));
    assert!(f.matches("src", true));
    assert!(f.matches("src_new", true));
    assert!(!f.matches("src_old", true));
    assert!(!f.matches("docs", true));
}

#[test]
fn exclude_alone_rejects_matches_only() {
    let f = FilterSet::new(None, list(&["target", ".git"]), None, list(&["*.o"]), true).unwrap();
    assert!(!f.matches("target", true));
    assert!(f.matches("target", false));
    assert!(f.matches("src", true));
    assert!(!f.matches("a.o", false));
    assert!(f.matches("a.c", false));
}

#[test]
fn filter_is_case_insensitive_by_default_flag() {
    let f = FilterSet::new(None, None, list(&["*.JPG"]), None, false).unwrap();
    assert!(f.matches("photo.jpg", false));
    assert!(!f.case_sensitive());
    let g = FilterSet::new(None, None, list(&["*.JPG"]), None, true).unwrap();
    assert!(!g.matches("photo.jpg", false));
    assert!(g.case_sensitive());
}

#[test]
fn filter_with_bad_pattern_is_refused() {
    assert_eq!(
        FilterSet::new(None, None, list(&["ok", "bad["]), None, false).err(),
        Some(FilterError::InvalidPattern)
    );
    assert_eq!(
        FilterSet::new(list(&["[x"]), None, None, None, false).err(),
        Some(FilterError::InvalidPattern)
    );
    assert_eq!(
        FilterSet::new(None, None, None, list(&["[!"]), false).err(),
        Some(FilterError::InvalidPattern)
    );
}
