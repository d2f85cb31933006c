use docsrs::rank::{beats, rank};
use docsrs::{Ast, AstItem, Candidate, Doc, Indexed, Item, ItemInner, ItemKind, Parsed, SearchKey, Summary, Visibility};
use std::collections::HashMap;

fn item(name: Option<&str>, inner: ItemInner) -> AstItem {
    AstItem {
        crate_id: 0,
        name: name.map(|n| n.to_string()),
        span: None,
        visibility: Visibility::Public,
        docs: None,
        links: Vec::new(),
        attrs: Vec::new(),
        deprecation: None,
        inner,
    }
}

fn summary(path: &[&str], kind: ItemKind) -> Summary {
    Summary { crate_id: 0, path: path.iter().map(|s| s.to_string()).collect(), kind }
}

fn path(segments: &[&str]) -> Vec<String> {
    segments.iter().map(|s| s.to_string()).collect()
}

fn std_index() -> Doc<Indexed> {
    let mut ast = Ast::new(None);
    ast.items.insert(0, item(Some("std"), ItemInner::Module { items: vec![1] }));
    ast.items.insert(1, item(Some("File"), ItemInner::Struct { impls: vec![2] }));
    ast.items.insert(
        2,
        item(None, ItemInner::Impl { target: Some(1), trait_: None, items: vec![3] }),
    );
    ast.items.insert(3, item(Some("open"), ItemInner::Function));
    ast.summaries.insert(0, summary(&["std"], ItemKind::Module));
    ast.summaries.insert(1, summary(&["std", "fs", "File"], ItemKind::Struct));
    Doc::<Parsed>::new(ast).build_search_index()
}

fn record(id: u32, name: &str) -> Item {
    Item {
        id,
        crate_id: 0,
        crate_version: None,
        path: vec![name.to_string()],
        kind: Some(ItemKind::Function),
        visibility: Visibility::Public,
        span: None,
        name: name.to_string(),
        docs: None,
        links: Vec::new(),
        attributes: Vec::new(),
        deprecation: None,
        inner: ItemInner::Function,
    }
}

/// An index without keys that holds records 1 to 5, of which 4 has no name.
fn table() -> Doc<Indexed> {
    let mut items = HashMap::new();
    items.insert(1, record(1, "one"));
    items.insert(2, record(2, "two"));
    items.insert(3, record(3, "three"));
    items.insert(4, record(4, ""));
    items.insert(5, record(5, "five"));
    Doc::<Indexed>::new(Vec::new(), items)
}

fn candidate(id: u32, score: i64, len: usize) -> Candidate {
    Candidate { id, score, len, exact: false }
}

fn exact(id: u32, score: i64, len: usize) -> Candidate {
    Candidate { id, score, len, exact: true }
}

fn ids(answer: Option<Vec<&Item>>) -> Option<Vec<u32>> {
    answer.map(|records| records.iter().map(|r| r.id).collect())
}

#[test]
fn the_better_score_is_shown_first() {
    let found = vec![candidate(1, 10, 5), candidate(2, 30, 9), candidate(3, 20, 1)];
    let order: Vec<u32> = rank(&found).iter().map(|c| c.id).collect();
    assert_eq!(order, vec![2, 3, 1]);
}

#[test]
fn of_equal_scores_the_shorter_text_is_shown_first() {
    let found = vec![candidate(1, 10, 9), candidate(2, 10, 5), candidate(3, 10, 7)];
    let order: Vec<u32> = rank(&found).iter().map(|c| c.id).collect();
    assert_eq!(order, vec![2, 3, 1]);
    assert_eq!(ids(table().select(&found, None)), Some(vec![2, 3, 1]));
}

#[test]
fn equal_matches_stay_in_the_order_in_which_they_were_found() {
    let found = vec![
        candidate(3, 10, 5),
        candidate(1, 10, 5),
        candidate(2, 50, 5),
        candidate(5, 10, 5),
    ];
    let order: Vec<u32> = rank(&found).iter().map(|c| c.id).collect();
    assert_eq!(order, vec![2, 3, 1, 5]);
}

#[test]
fn ranking_keeps_every_candidate() {
    let found = vec![
        candidate(1, -4, 5),
        candidate(1, -4, 5),
        candidate(2, i64::MAX, 0),
        candidate(3, i64::MIN, usize::MAX),
    ];
    let ranking = rank(&found);
    assert_eq!(
        ranking,
        vec![
            candidate(2, i64::MAX, 0),
            candidate(1, -4, 5),
            candidate(1, -4, 5),
            candidate(3, i64::MIN, usize::MAX),
        ]
    );
    assert!(rank(&Vec::new()).is_empty());
}

#[test]
fn a_candidate_beats_a_lower_score_or_a_longer_text() {
    assert!(beats(&candidate(1, 2, 9), &candidate(2, 1, 1)));
    assert!(beats(&candidate(1, 2, 3), &candidate(2, 2, 4)));
    assert!(!beats(&candidate(1, 2, 3), &candidate(2, 2, 3)));
    assert!(!beats(&candidate(1, 1, 1), &candidate(2, 2, 9)));
}

#[test]
fn an_exact_match_is_the_whole_answer_whatever_the_limit() {
    let found = vec![candidate(1, 90, 3), exact(2, 10, 3), candidate(3, 50, 3)];
    let index = table();
    assert_eq!(ids(index.select(&found, None)), Some(vec![2]));
    assert_eq!(ids(index.select(&found, Some(0))), Some(vec![2]));
    assert_eq!(ids(index.select(&found, Some(1))), Some(vec![2]));
    assert_eq!(ids(index.select(&found, Some(7))), Some(vec![2]));
}

#[test]
fn of_several_exact_matches_the_first_in_the_ranking_is_the_answer() {
    let found = vec![exact(1, 10, 3), exact(2, 10, 3), exact(3, 20, 3)];
    assert_eq!(ids(table().select(&found, None)), Some(vec![3]));
    let found = vec![exact(1, 10, 3), exact(2, 10, 3)];
    assert_eq!(ids(table().select(&found, None)), Some(vec![1]));
}

#[test]
fn an_exact_match_without_a_named_record_does_not_count() {
    let found = vec![exact(4, 90, 3), exact(77, 80, 3), candidate(1, 10, 3)];
    assert_eq!(ids(table().select(&found, None)), Some(vec![1]));
    assert_eq!(ids(table().select(&found, Some(0))), None);
    let found = vec![exact(4, 90, 3), exact(5, 80, 3), candidate(1, 10, 3)];
    assert_eq!(ids(table().select(&found, None)), Some(vec![5]));
}

#[test]
fn a_limit_of_nought_gives_no_answer() {
    let found = vec![candidate(1, 10, 3), candidate(2, 20, 3)];
    assert_eq!(ids(table().select(&found, Some(0))), None);
}

#[test]
fn without_a_limit_nothing_is_cut_off() {
    let found = vec![
        candidate(1, 10, 3),
        candidate(2, 20, 3),
        candidate(3, 30, 3),
        candidate(5, 40, 3),
    ];
    assert_eq!(ids(table().select(&found, None)), Some(vec![5, 3, 2, 1]));
    assert_eq!(ids(table().select(&found, Some(usize::MAX))), Some(vec![5, 3, 2, 1]));
    assert_eq!(ids(table().select(&found, Some(4))), Some(vec![5, 3, 2, 1]));
}

#[test]
fn a_limit_cuts_the_answer_behind_the_best() {
    let found = vec![
        candidate(1, 10, 3),
        candidate(2, 20, 3),
        candidate(3, 30, 3),
        candidate(5, 40, 3),
    ];
    assert_eq!(ids(table().select(&found, Some(1))), Some(vec![5]));
    assert_eq!(ids(table().select(&found, Some(3))), Some(vec![5, 3, 2]));
}

#[test]
fn items_without_a_name_or_a_record_do_not_count_against_the_limit() {
    let found = vec![
        candidate(4, 90, 3),
        candidate(77, 80, 3),
        candidate(1, 10, 3),
        candidate(2, 5, 3),
    ];
    assert_eq!(ids(table().select(&found, Some(1))), Some(vec![1]));
    assert_eq!(ids(table().select(&found, None)), Some(vec![1, 2]));
    let found = vec![candidate(4, 90, 3), candidate(77, 80, 3)];
    assert_eq!(ids(table().select(&found, None)), None);
}

#[test]
fn no_matches_give_no_answer() {
    assert_eq!(ids(table().select(&Vec::new(), None)), None);
    assert_eq!(ids(table().select(&Vec::new(), Some(3))), None);
}

#[test]
fn an_item_found_twice_is_answered_twice() {
    let found = vec![candidate(1, 10, 3), candidate(1, 20, 8)];
    assert_eq!(ids(table().select(&found, None)), Some(vec![1, 1]));
}

#[test]
fn the_answer_holds_the_records_of_the_index() {
    let index = table();
    let found = vec![candidate(3, 10, 3)];
    let answer = index.select(&found, None).unwrap();
    assert_eq!(answer.len(), 1);
    assert_eq!(answer[0], &record(3, "three"));
}

#[test]
fn a_query_that_is_a_key_finds_its_item_alone() {
    let index = std_index();
    assert_eq!(ids(index.search("std::fs::File", None)), Some(vec![1]));
    assert_eq!(ids(index.search("std::fs::File", Some(0))), Some(vec![1]));
    assert_eq!(ids(index.search("std::fs::File", Some(5))), Some(vec![1]));
    assert_eq!(ids(index.search("std", None)), Some(vec![0]));
}

#[test]
fn case_does_not_matter() {
    let index = std_index();
    assert_eq!(ids(index.search("STD::FS::FILE::OPEN", None)), Some(vec![3]));
    assert_eq!(ids(index.search("sTd::Fs::fIlE", Some(0))), Some(vec![1]));
    let answer = index.search("FILE::OPEN", None).unwrap();
    assert_eq!(answer[0].name, "open");
}

#[test]
fn a_query_matches_keys_that_hold_its_letters_in_order() {
    let index = std_index();
    assert_eq!(ids(index.search("fopen", None)), Some(vec![3]));
    assert_eq!(ids(index.search("sfile", None)), Some(vec![1, 3]));
    assert_eq!(ids(index.search("nepo", None)), None);
    assert_eq!(ids(index.search("zzz", None)), None);
}

#[test]
fn search_with_a_limit() {
    let index = std_index();
    assert_eq!(ids(index.search("st", Some(0))), None);
    let all = ids(index.search("st", None)).unwrap();
    assert_eq!(all.len(), 3);
    assert_eq!(all[0], 0);
    let two = ids(index.search("st", Some(2))).unwrap();
    assert_eq!(two, all[..2].to_vec());
}

#[test]
fn an_empty_query_matches_every_key() {
    let index = std_index();
    assert_eq!(ids(index.search("", None)), Some(vec![0, 1, 3]));
    assert_eq!(ids(index.search("", Some(1))), Some(vec![0]));
}

#[test]
fn text_beyond_the_limit_is_not_scored() {
    let index = std_index();
    let long = "s".repeat(docsrs::search::SCORE_LIMIT + 1);
    assert_eq!(ids(index.search(&long, None)), None);

    let mut items = HashMap::new();
    items.insert(1, record(1, "one"));
    let keys = vec![SearchKey::new(1, vec![long.clone()])];
    let index = Doc::<Indexed>::new(keys, items);
    assert_eq!(ids(index.search(&long, None)), None);
    assert_eq!(ids(index.search("s", None)), None);

    let fits = "s".repeat(docsrs::search::SCORE_LIMIT);
    let mut items = HashMap::new();
    items.insert(1, record(1, "one"));
    let index = Doc::<Indexed>::new(vec![SearchKey::new(1, vec![fits.clone()])], items);
    assert_eq!(ids(index.search("s", None)), Some(vec![1]));
}

#[test]
fn keys_of_items_without_records_are_passed_over() {
    let keys = vec![SearchKey::new(9, path(&["k", "gone"])), SearchKey::new(1, path(&["k", "one"]))];
    let mut items = HashMap::new();
    items.insert(1, record(1, "one"));
    let index = Doc::<Indexed>::new(keys, items);
    assert_eq!(ids(index.search("k", None)), Some(vec![1]));
    assert_eq!(ids(index.search("k::gone", None)), None);
    assert_eq!(ids(index.search("k::one", None)), Some(vec![1]));
    assert_eq!(ids(index.search("one", None)), Some(vec![1]));
}

#[test]
fn many_candidates_are_ranked() {
    let mut found = Vec::new();
    for i in 0..200_000u32 {
        found.push(candidate(i, ((i * 7919) % 1000) as i64, (i % 13) as usize));
    }
    let ranking = rank(&found);
    assert_eq!(ranking.len(), found.len());
    for pair in ranking.windows(2) {
        assert!(!beats(&pair[1], &pair[0]));
        if !beats(&pair[0], &pair[1]) {
            assert!(pair[0].id < pair[1].id);
        }
    }
}
