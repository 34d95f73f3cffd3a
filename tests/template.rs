use translatable::template::{substitute, substitute_one};
use translatable::text::{contains_text, net_brace_balance, replace_all, same_text, split_dots};

fn bindings(pairs: &[(&str, &str)]) -> Vec<(String, String)> {
    pairs.iter().map(|(k, v)| (k.to_string(), v.to_string())).collect()
}

#[test]
fn escaped_placeholder_stays_literal() {
    let out = substitute("{{name}} is {name}", &bindings(&[("name", "Ann")]));
    assert_eq!(out, "{name} is Ann");
}

#[test]
fn binding_order_does_not_matter() {
    let a = substitute("{greeting} {name}", &bindings(&[("greeting", "Hi"), ("name", "Bo")]));
    let b = substitute("{greeting} {name}", &bindings(&[("name", "Bo"), ("greeting", "Hi")]));
    assert_eq!(a, "Hi Bo");
    assert_eq!(b, "Hi Bo");
}

#[test]
fn unbound_placeholders_are_left() {
    let out = substitute("{a} and {b}", &bindings(&[("a", "1")]));
    assert_eq!(out, "1 and {b}");
    assert_eq!(substitute("{a}", &vec![]), "{a}");
}

#[test]
fn substitute_one_replaces_every_occurrence() {
    assert_eq!(substitute_one("{x}{x}-{{x}}", "x", "7"), "77-{x}");
}

#[test]
fn brace_balance_counts() {
    assert_eq!(net_brace_balance("{a}}"), -1);
    assert_eq!(net_brace_balance("{{a}}"), 0);
    assert_eq!(net_brace_balance("{{"), 2);
    assert_eq!(net_brace_balance(""), 0);
}

#[test]
fn split_on_dots() {
    assert_eq!(split_dots("a.b.c"), vec!["a", "b", "c"]);
    assert_eq!(split_dots("a..b"), vec!["a", "", "b"]);
    assert_eq!(split_dots(""), vec![""]);
    assert_eq!(split_dots(".a."), vec!["", "a", ""]);
}

#[test]
fn replace_all_is_left_to_right() {
    assert_eq!(replace_all("aaa", "aa", "b"), "ba");
    assert_eq!(replace_all("xyz", "q", "b"), "xyz");
    assert_eq!(replace_all("ñañ", "ñ", "n"), "nan");
}

#[test]
fn text_comparisons() {
    assert!(same_text("ab", "ab"));
    assert!(!same_text("ab", "abc"));
    assert!(contains_text("english", "ngl"));
    assert!(contains_text("en", ""));
    assert!(!contains_text("en", "eng"));
}
