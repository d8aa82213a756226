use bkmr::bookmark::{Bookmark, NewBookmark};
use bkmr::dispatch::{delete_batch, ids_descending, open_bm, plan_delete, Batch, OpenMethod};
use bkmr::filter::{build_filter, TagFilter};
use bkmr::render::{display_tags, parse_edited, print_line, render_template};
use bkmr::search::search;
use bkmr::select::{SelectError, SelectionSession};
use bkmr::sort::{sort_bookmarks, SortOrder};
use bkmr::store::{Store, StoreError};
use bkmr::tags::TagSet;
use bkmr::update::{apply_tag_update, update_tags_for_id, validate_update_request};

fn bm(id: i64, url: &str, title: &str, tags: &str, ts: i64) -> Bookmark {
    Bookmark {
        id,
        url: url.to_string(),
        title: title.to_string(),
        desc: String::new(),
        tags: tags.to_string(),
        last_update_ts: ts,
    }
}

fn add(store: &mut Store, url: &str, title: &str, desc: &str, tags: &str) -> Bookmark {
    store
        .insert(NewBookmark {
            url: url.to_string(),
            title: title.to_string(),
            desc: desc.to_string(),
            tags: tags.to_string(),
        })
        .ok()
        .expect("insert succeeds")
}

fn no_filter() -> TagFilter {
    TagFilter { all: None, all_not: None, any: None, any_not: None, exact: None }
}

#[test]
fn empty_query_without_filter_returns_everything_sorted() {
    let mut store = Store::new();
    add(&mut store, "u1", "beta", "", "");
    add(&mut store, "u2", "alpha", "", "");
    let r = search(&store, "", &no_filter(), &SortOrder::TitleAsc);
    let titles: Vec<&str> = r.iter().map(|b| b.title.as_str()).collect();
    assert_eq!(titles, vec!["alpha", "beta"]);
}

#[test]
fn add_then_show_returns_tags_and_url_verbatim() {
    let mut store = Store::new();
    let added = add(&mut store, "https://example.com", "", "", "x,y");
    let shown = store.get_by_id(added.id).ok().expect("id present");
    assert_eq!(shown.url, "https://example.com");
    let shown_tags = TagSet::normalize(&shown.tags);
    assert!(shown_tags.set_eq(&TagSet::normalize("x,y")));
    assert_eq!(shown.tags, ",x,y,");
}

#[test]
fn insert_rejects_duplicate_url() {
    let mut store = Store::new();
    add(&mut store, "https://example.com", "", "", "");
    let again = store.insert(NewBookmark {
        url: "https://example.com".to_string(),
        title: String::new(),
        desc: String::new(),
        tags: String::new(),
    });
    assert!(matches!(again, Err(StoreError::DuplicateUrl)));
    assert_eq!(store.bms.len(), 1);
}

#[test]
fn ids_are_assigned_in_sequence_and_lookup_is_exact() {
    let mut store = Store::new();
    let a = add(&mut store, "u1", "", "", "");
    let b = add(&mut store, "u2", "", "", "");
    assert_eq!(a.id, 1);
    assert_eq!(b.id, 2);
    assert!(matches!(store.get_by_id(9), Err(StoreError::NotFound)));
    assert!(matches!(store.delete(9), Err(StoreError::NotFound)));
}

#[test]
fn search_with_all_x_returns_exactly_the_tagged_record() {
    let mut store = Store::new();
    let first = add(&mut store, "u1", "t1", "", "x,y");
    add(&mut store, "u2", "t2", "", "z");
    let f = build_filter(Some("x"), None, None, None, None, None);
    let r = search(&store, "", &f, &SortOrder::TitleAsc);
    assert_eq!(r.len(), 1);
    assert_eq!(r[0].id, first.id);
    assert_eq!(r[0].url, "u1");
}

#[test]
fn search_combines_text_and_tags_by_and() {
    let mut store = Store::new();
    add(&mut store, "u1", "alpha news", "", "x");
    add(&mut store, "u2", "alpha feed", "", "y");
    add(&mut store, "u3", "beta news", "", "x");
    let f = build_filter(Some("x"), None, None, None, None, None);
    let r = search(&store, "alpha", &f, &SortOrder::TitleAsc);
    assert_eq!(r.len(), 1);
    assert_eq!(r[0].url, "u1");
}

#[test]
fn default_sort_is_title_case_insensitive_ascending() {
    let list = vec![bm(1, "u1", "beta", "", 5), bm(2, "u2", "Alpha", "", 9), bm(3, "u3", "gamma", "", 1)];
    let sorted = sort_bookmarks(&SortOrder::TitleAsc, list);
    let titles: Vec<&str> = sorted.iter().map(|b| b.title.as_str()).collect();
    assert_eq!(titles, vec!["Alpha", "beta", "gamma"]);
}

#[test]
fn sorting_is_stable_for_equal_keys() {
    let list = vec![bm(1, "u1", "same", "", 7), bm(2, "u2", "same", "", 7), bm(3, "u3", "same", "", 7)];
    let sorted = sort_bookmarks(&SortOrder::TimeAsc, list);
    let ids: Vec<i64> = sorted.iter().map(|b| b.id).collect();
    assert_eq!(ids, vec![1, 2, 3]);
}

#[test]
fn sorting_twice_yields_identical_output() {
    let list = vec![bm(1, "u1", "b", "", 5), bm(2, "u2", "a", "", 9)];
    let once = sort_bookmarks(&SortOrder::TitleAsc, list);
    let ids_once: Vec<i64> = once.iter().map(|b| b.id).collect();
    let twice = sort_bookmarks(&SortOrder::TitleAsc, once);
    let ids_twice: Vec<i64> = twice.iter().map(|b| b.id).collect();
    assert_eq!(ids_once, ids_twice);
}

#[test]
fn time_sorts_are_exact_reverses_for_distinct_stamps() {
    let list = vec![bm(1, "u1", "", "", 5), bm(2, "u2", "", "", 9), bm(3, "u3", "", "", 1)];
    let asc = sort_bookmarks(&SortOrder::TimeAsc, list.clone());
    let desc = sort_bookmarks(&SortOrder::TimeDesc, list);
    let asc_ids: Vec<i64> = asc.iter().map(|b| b.id).collect();
    let mut desc_ids: Vec<i64> = desc.iter().map(|b| b.id).collect();
    desc_ids.reverse();
    assert_eq!(asc_ids, vec![3, 1, 2]);
    assert_eq!(asc_ids, desc_ids);
}

#[test]
fn resolve_checks_the_full_ordinal_range() {
    let list = vec![bm(41, "u1", "", "", 0), bm(7, "u2", "", "", 0)];
    let session = SelectionSession::new(list);
    assert!(matches!(session.resolve(0), Err(SelectError::OutOfRange)));
    assert!(matches!(session.resolve(3), Err(SelectError::OutOfRange)));
    let first = session.resolve(1).ok().expect("ordinal 1 valid");
    assert_eq!(first.id, 41);
    assert_eq!(first.url, "u1");
}

#[test]
fn resolve_many_short_circuits_on_first_error() {
    let list = vec![bm(1, "u1", "", "", 0), bm(2, "u2", "", "", 0)];
    let session = SelectionSession::new(list);
    let ok = session.resolve_many(&vec![2, 1]).ok().expect("all valid");
    assert_eq!(ok.iter().map(|b| b.id).collect::<Vec<i64>>(), vec![2, 1]);
    assert!(matches!(session.resolve_many(&vec![1, 9, 2]), Err(SelectError::OutOfRange)));
}

#[test]
fn delete_plan_processes_ids_in_descending_order() {
    let list = vec![bm(3, "u3", "", "", 0), bm(7, "u7", "", "", 0), bm(1, "u1", "", "", 0)];
    let session = SelectionSession::new(list);
    let ids = plan_delete(&session, &vec![1, 2, 3]).ok().expect("ordinals valid");
    assert_eq!(ids, vec![7, 3, 1]);
    assert!(matches!(plan_delete(&session, &vec![1, 4]), Err(SelectError::OutOfRange)));
}

#[test]
fn ids_sort_descending_with_duplicates_kept() {
    assert_eq!(ids_descending(&vec![3, 7, 1, 7]), vec![7, 7, 3, 1]);
    assert_eq!(ids_descending(&vec![]), Vec::<i64>::new());
}

#[test]
fn batch_aborts_on_first_failure_and_keeps_prior_deletions() {
    let mut store = Store::new();
    add(&mut store, "u1", "", "", "");
    add(&mut store, "u2", "", "", "");
    add(&mut store, "u3", "", "", "");
    store.delete(2).ok().expect("present");
    // Ids 1 and 3 remain; the batch 1, 2, 3 fails on 2 and never touches 3.
    let r = delete_batch(&mut store, &vec![1, 2, 3]);
    assert!(matches!(r, Err(StoreError::NotFound)));
    assert!(matches!(store.get_by_id(1), Err(StoreError::NotFound)));
    let survivor = store.get_by_id(3).ok().expect("never attempted");
    assert_eq!(survivor.url, "u3");
}

#[test]
fn batch_hands_records_out_in_sequence_until_failure() {
    let items = vec![bm(1, "u1", "", "", 0), bm(2, "u2", "", "", 0), bm(3, "u3", "", "", 0)];
    let mut batch = Batch::new(items);
    let first = batch.take_next().expect("first");
    assert_eq!(first.id, 1);
    let second = batch.take_next().expect("second");
    assert_eq!(second.id, 2);
    batch.report_failure();
    assert!(batch.take_next().is_none());
    assert!(batch.take_next().is_none());
}

#[test]
fn open_classifies_shell_escape_urls() {
    let shell = open_bm(&bm(1, "shell::vim +3 notes.md", "", "", 0));
    match shell {
        OpenMethod::ShellCommand(cmd) => assert_eq!(cmd, "vim +3 notes.md"),
        other => panic!("expected shell command, got {:?}", other),
    }
    let plain = open_bm(&bm(2, "https://example.com", "", "", 0));
    match plain {
        OpenMethod::Browse(u) => assert_eq!(u, "https://example.com"),
        other => panic!("expected browse, got {:?}", other),
    }
    let short = open_bm(&bm(3, "shell", "", "", 0));
    assert!(matches!(short, OpenMethod::Browse(_)));
}

#[test]
fn edit_template_round_trips_through_parse() {
    let record = bm(5, "https://example.com", "A Title", ",x,y,", 3);
    let template = render_template(&record);
    let parsed = parse_edited(&template, 5).expect("template parses");
    assert_eq!(parsed.id, 5);
    assert_eq!(parsed.url, "https://example.com");
    assert_eq!(parsed.title, "A Title");
    assert_eq!(parsed.tags, ",x,y,");
    assert_eq!(parsed.desc, "");
}

#[test]
fn edited_text_with_too_few_lines_fails_to_parse() {
    assert!(parse_edited("# only a comment\nurl-line\n", 1).is_none());
    assert!(parse_edited("", 1).is_none());
    // Four lines, but the url line is empty.
    assert!(parse_edited("\nt\ntags\nd\n", 1).is_none());
}

#[test]
fn edited_comment_lines_are_stripped() {
    let parsed = parse_edited("# c1\nu\n# c2\nt\n,x,\nd\n", 9).expect("parses");
    assert_eq!(parsed.url, "u");
    assert_eq!(parsed.title, "t");
    assert_eq!(parsed.tags, ",x,");
    assert_eq!(parsed.desc, "d");
}

#[test]
fn print_line_joins_ordinals_or_lists_all() {
    assert_eq!(print_line(&vec![3, 1], 9), "3 1");
    assert_eq!(print_line(&vec![], 3), "1 2 3");
    assert_eq!(print_line(&vec![], 0), "");
}

#[test]
fn displayed_tags_replace_commas_with_spaces() {
    assert_eq!(display_tags(&bm(1, "u", "", ",a,b,", 0)), "a b");
    assert_eq!(display_tags(&bm(2, "u", "", ",", 0)), "");
}

#[test]
fn forced_update_requires_tags_and_no_removals() {
    assert!(validate_update_request(true, true, false));
    assert!(!validate_update_request(true, false, false));
    assert!(!validate_update_request(true, true, true));
    assert!(validate_update_request(false, false, true));
}

#[test]
fn tag_updates_add_remove_or_replace() {
    let current = TagSet::normalize("a,b");
    let add_ts = TagSet::normalize("c");
    let remove_ts = TagSet::normalize("a");
    let merged = apply_tag_update(&current, &add_ts, &remove_ts, false);
    assert!(merged.set_eq(&TagSet::normalize("b,c")));
    let replaced = apply_tag_update(&current, &add_ts, &TagSet::empty(), true);
    assert!(replaced.set_eq(&TagSet::normalize("c")));
}

#[test]
fn store_update_rewrites_tags_and_keeps_other_fields() {
    let mut store = Store::new();
    let rec = add(&mut store, "u1", "title", "desc", "a,b");
    let r = update_tags_for_id(
        &mut store,
        rec.id,
        &TagSet::normalize("c"),
        &TagSet::normalize("a"),
        false,
    );
    assert!(r.is_ok());
    let shown = store.get_by_id(rec.id).ok().expect("still present");
    assert_eq!(shown.tags, ",b,c,");
    assert_eq!(shown.title, "title");
    assert_eq!(shown.url, "u1");
    let missing = update_tags_for_id(
        &mut store,
        99,
        &TagSet::empty(),
        &TagSet::empty(),
        false,
    );
    assert!(matches!(missing, Err(StoreError::NotFound)));
}

#[test]
fn store_query_matches_substrings_of_any_text_field() {
    let mut store = Store::new();
    add(&mut store, "https://rust-lang.org", "Home", "the language", "x");
    add(&mut store, "https://example.com", "Rusty nails", "hardware", "y");
    add(&mut store, "https://other.org", "Misc", "none", "z");
    assert_eq!(store.query("rust").len(), 1);
    assert_eq!(store.query("Rust").len(), 1);
    assert_eq!(store.query("").len(), 3);
    assert_eq!(store.query("hardware").len(), 1);
}

fn census_count(census: &[bkmr::store::TagCount], tag: &str) -> Option<u64> {
    census.iter().find(|c| c.tag == tag).map(|c| c.n)
}

#[test]
fn all_tags_counts_records_per_tag() {
    let mut store = Store::new();
    add(&mut store, "u1", "", "", "a,b");
    add(&mut store, "u2", "", "", "b,c");
    add(&mut store, "u3", "", "", "");
    let census = store.all_tags();
    assert_eq!(census.len(), 3);
    assert_eq!(census_count(&census, "a"), Some(1));
    assert_eq!(census_count(&census, "b"), Some(2));
    assert_eq!(census_count(&census, "c"), Some(1));
    assert_eq!(census_count(&census, "z"), None);
}

#[test]
fn related_tags_count_co_occurrences() {
    let mut store = Store::new();
    add(&mut store, "u1", "", "", "a,b");
    add(&mut store, "u2", "", "", "b,c");
    add(&mut store, "u3", "", "", "a");
    let census = store.related_tags("a");
    assert_eq!(census_count(&census, "a"), Some(2));
    assert_eq!(census_count(&census, "b"), Some(1));
    assert_eq!(census_count(&census, "c"), None);
}

#[test]
fn store_update_rejects_stealing_another_records_url() {
    let mut store = Store::new();
    add(&mut store, "u1", "", "", "");
    let second = add(&mut store, "u2", "", "", "");
    let mut stolen = second.clone();
    stolen.url = "u1".to_string();
    assert!(matches!(store.update(stolen), Err(StoreError::DuplicateUrl)));
    let mut unknown = second.clone();
    unknown.id = 42;
    assert!(matches!(store.update(unknown), Err(StoreError::NotFound)));
}

#[test]
fn writes_advance_the_store_clock() {
    let mut store = Store::new();
    let first = add(&mut store, "u1", "", "", "");
    let second = add(&mut store, "u2", "", "", "");
    assert_eq!(first.last_update_ts, 0);
    assert_eq!(second.last_update_ts, 1);
    let mut touched = first.clone();
    touched.title = "renamed".to_string();
    store.update(touched).ok().expect("update succeeds");
    let shown = store.get_by_id(first.id).ok().expect("present");
    assert_eq!(shown.last_update_ts, 2);
    assert_eq!(shown.title, "renamed");
}
