use bkmr::command::{interpret, loops_again, parse_ordinals, tokenize, Command};
use bkmr::filter::{build_filter, TagFilter};
use bkmr::tags::TagSet;
use bkmr::text::{lower_str, number_to_string, parse_number};

fn toks(ts: &TagSet) -> Vec<String> {
    ts.tokens.clone()
}

#[test]
fn normalize_splits_trims_lowercases_dedups() {
    let ts = TagSet::normalize(" B , a ,a, ,c ");
    assert_eq!(toks(&ts), vec!["a".to_string(), "b".to_string(), "c".to_string()]);
}

#[test]
fn normalize_is_order_insensitive() {
    let a = TagSet::normalize("b,a,a");
    let b = TagSet::normalize("a,b");
    assert!(a.set_eq(&b));
    assert_eq!(toks(&a), toks(&b));
}

#[test]
fn normalize_is_idempotent() {
    let once = TagSet::normalize("B,a, a ,b");
    let again = TagSet::normalize(once.render().as_str());
    assert!(once.set_eq(&again));
    assert_eq!(toks(&once), toks(&again));
}

#[test]
fn render_is_framed_with_delimiters() {
    assert_eq!(TagSet::normalize("b,a").render(), ",a,b,");
    assert_eq!(TagSet::normalize("").render(), ",");
    assert_eq!(TagSet::empty().render(), ",");
}

#[test]
fn framed_rendering_defeats_prefix_confusion() {
    // A bookmark tagged only "rustacean" must not look tagged "rust".
    let ts = TagSet::normalize("rustacean");
    assert!(!ts.has_tag("rust"));
    assert!(ts.has_tag("rustacean"));
    assert!(!ts.render().contains(",rust,"));
}

#[test]
fn union_and_difference() {
    let a = TagSet::normalize("a,b");
    let b = TagSet::normalize("b,c");
    let u = a.union_with(&b);
    assert_eq!(toks(&u), vec!["a".to_string(), "b".to_string(), "c".to_string()]);
    let d = u.diff_with(&TagSet::normalize("b"));
    assert_eq!(toks(&d), vec!["a".to_string(), "c".to_string()]);
}

fn tags(s: &str) -> TagSet {
    TagSet::normalize(s)
}

fn only_all(s: &str) -> TagFilter {
    TagFilter { all: Some(tags(s)), all_not: None, any: None, any_not: None, exact: None }
}

#[test]
fn filter_all_is_superset() {
    let f = only_all("a,b");
    assert!(f.matches(&tags("a,b,c")));
    assert!(f.matches(&tags("b,a")));
    assert!(!f.matches(&tags("a")));
    assert!(!f.matches(&tags("")));
}

#[test]
fn filter_all_not_negates_superset() {
    let f = TagFilter {
        all: None,
        all_not: Some(tags("a,b")),
        any: None,
        any_not: None,
        exact: None,
    };
    assert!(!f.matches(&tags("a,b,c")));
    assert!(f.matches(&tags("a")));
    assert!(f.matches(&tags("c")));
}

#[test]
fn filter_any_is_intersection() {
    let f = TagFilter { all: None, all_not: None, any: Some(tags("a,b")), any_not: None, exact: None };
    assert!(f.matches(&tags("b,z")));
    assert!(!f.matches(&tags("z")));
}

#[test]
fn filter_any_not_is_empty_intersection() {
    let f = TagFilter { all: None, all_not: None, any: None, any_not: Some(tags("a,b")), exact: None };
    assert!(!f.matches(&tags("b,z")));
    assert!(f.matches(&tags("z")));
}

#[test]
fn filter_exact_is_set_equality() {
    let f = TagFilter { all: None, all_not: None, any: None, any_not: None, exact: Some(tags("a,b")) };
    assert!(f.matches(&tags("b,a")));
    assert!(!f.matches(&tags("a,b,c")));
    assert!(!f.matches(&tags("a")));
}

#[test]
fn filter_absent_clauses_accept_everything() {
    let f = TagFilter { all: None, all_not: None, any: None, any_not: None, exact: None };
    assert!(f.matches(&tags("anything")));
    assert!(f.matches(&tags("")));
}

#[test]
fn conflicting_all_and_any_not_reject_every_bookmark() {
    let f = TagFilter {
        all: Some(tags("a")),
        all_not: None,
        any: None,
        any_not: Some(tags("a")),
        exact: None,
    };
    assert!(!f.matches(&tags("a")));
    assert!(!f.matches(&tags("a,b")));
    assert!(!f.matches(&tags("b")));
    assert!(!f.matches(&tags("")));
}

#[test]
fn build_filter_unions_prefix_into_all() {
    let f = build_filter(Some("a"), None, None, None, None, Some("p,q"));
    let all = f.all.expect("all clause present");
    assert!(all.set_eq(&tags("a,p,q")));
    assert!(f.all_not.is_none());
    let g = build_filter(None, None, None, None, None, Some("p"));
    assert!(g.all.expect("prefix alone fills all").set_eq(&tags("p")));
    let h = build_filter(None, Some("n"), None, None, None, None);
    assert!(h.all.is_none());
    assert!(h.all_not.expect("allNot kept").set_eq(&tags("n")));
}

#[test]
fn lowercasing_is_ascii_only() {
    assert_eq!(lower_str("MiXed 09-AZ"), "mixed 09-az");
}

#[test]
fn numerals_parse_exactly() {
    assert_eq!(parse_number("0"), Some(0));
    assert_eq!(parse_number("007"), Some(7));
    assert_eq!(parse_number("123456789012"), Some(123456789012));
    assert_eq!(parse_number(""), None);
    assert_eq!(parse_number("12a"), None);
    assert_eq!(parse_number("-3"), None);
    assert_eq!(parse_number("1234567890123"), None);
}

#[test]
fn numbers_render_in_decimal() {
    assert_eq!(number_to_string(0), "0");
    assert_eq!(number_to_string(10), "10");
    assert_eq!(number_to_string(90107), "90107");
}

#[test]
fn tokenizer_lowercases_strips_commas_splits_whitespace() {
    assert_eq!(tokenize("p 1 2"), vec!["p".to_string(), "1".to_string(), "2".to_string()]);
    assert_eq!(tokenize(" D 2,3 \n"), vec!["d".to_string(), "23".to_string()]);
    assert_eq!(tokenize("\t e\t7 "), vec!["e".to_string(), "7".to_string()]);
    assert_eq!(tokenize("   "), Vec::<String>::new());
    assert_eq!(tokenize(""), Vec::<String>::new());
}

#[test]
fn ordinal_lists_parse_or_fail_as_a_whole() {
    let ts = vec!["d".to_string(), "2".to_string(), "11".to_string()];
    assert_eq!(parse_ordinals(&ts, 1), Some(vec![2, 11]));
    let bad = vec!["d".to_string(), "2".to_string(), "x1".to_string()];
    assert_eq!(parse_ordinals(&bad, 1), None);
    assert_eq!(parse_ordinals(&ts, 3), Some(Vec::new()));
}

#[test]
fn empty_line_and_q_quit() {
    assert!(matches!(interpret(&tokenize("")), Command::Quit));
    assert!(matches!(interpret(&tokenize("q")), Command::Quit));
    assert!(matches!(interpret(&tokenize("  Q  ")), Command::Quit));
}

#[test]
fn help_and_invalid_loop_back() {
    let help = interpret(&tokenize("h"));
    assert!(matches!(help, Command::Help));
    assert!(loops_again(&help));
    let invalid = interpret(&tokenize("frobnicate"));
    assert!(matches!(invalid, Command::Invalid));
    assert!(loops_again(&invalid));
    assert!(!loops_again(&Command::Quit));
}

#[test]
fn print_delete_edit_take_remaining_ordinals() {
    match interpret(&tokenize("p 2 1")) {
        Command::Print(v) => assert_eq!(v, vec![2, 1]),
        other => panic!("expected print, got {:?}", other),
    }
    match interpret(&tokenize("p")) {
        Command::Print(v) => assert!(v.is_empty()),
        other => panic!("expected print, got {:?}", other),
    }
    match interpret(&tokenize("d 3")) {
        Command::Delete(v) => assert_eq!(v, vec![3]),
        other => panic!("expected delete, got {:?}", other),
    }
    match interpret(&tokenize("e 1 2")) {
        Command::Edit(v) => assert_eq!(v, vec![1, 2]),
        other => panic!("expected edit, got {:?}", other),
    }
}

#[test]
fn leading_digit_opens_the_whole_list() {
    match interpret(&tokenize("1 2 3")) {
        Command::Open(v) => assert_eq!(v, vec![1, 2, 3]),
        other => panic!("expected open, got {:?}", other),
    }
}

#[test]
fn unparsable_ordinals_are_invalid_input() {
    assert!(matches!(interpret(&tokenize("d one")), Command::Invalid));
    assert!(matches!(interpret(&tokenize("1 two")), Command::Invalid));
}
