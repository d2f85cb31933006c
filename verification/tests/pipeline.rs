use docsrs::{
    Ast, AstItem, Compressed, Doc, Indexed, ItemInner, ItemKind, Parsed, RawJson, Remote, Summary,
    Visibility,
};

fn item(name: Option<&str>, docs: Option<&str>, inner: ItemInner) -> AstItem {
    AstItem {
        crate_id: 0,
        name: name.map(|n| n.to_string()),
        span: None,
        visibility: Visibility::Public,
        docs: docs.map(|d| d.to_string()),
        links: Vec::new(),
        attrs: Vec::new(),
        deprecation: None,
        inner,
    }
}

fn summary(path: &[&str], kind: ItemKind) -> Summary {
    Summary { crate_id: 0, path: path.iter().map(|s| s.to_string()).collect(), kind }
}

fn assert_path_superset(superset_path: &[String], subset_path: &[&str]) {
    let is_superset = subset_path.iter().all(|item| superset_path.contains(&item.to_string()));
    let same_start = superset_path.first().map(|s| s.as_str()) == subset_path.first().copied();
    let same_end = superset_path.last().map(|s| s.as_str()) == subset_path.last().copied();

    assert!(
        is_superset && same_start && same_end,
        "path mismatch: left=`{superset_path:?}` is not a valid superset of right=`{subset_path:?}`"
    );
}

/// Takes documentation from its address to an index without a request
/// to docs.rs: `json` stands for what the address holds, and `ast` for
/// what `json` says.
fn indexed(crate_name: &str, version: &str, json: &[u8], ast: Ast) -> Doc<Indexed> {
    let Doc(Remote { url }) = Doc::<Remote>::from_docs(crate_name, version).unwrap();
    assert_eq!(url, format!("https://docs.rs/crate/{crate_name}/{version}/json.zst"));
    let fetched = Doc::<Compressed>::new(zstd::stream::encode_all(json, 0).unwrap());
    let Doc(RawJson(raw)) = fetched.decompress().unwrap();
    assert_eq!(raw, json);
    Doc::<Parsed>::new(ast).build_search_index()
}

#[test]
fn fetch_tokio() {
    let mut ast = Ast::new(Some("1.47.1".to_string()));
    ast.items.insert(0, item(Some("tokio"), None, ItemInner::Module { items: vec![1, 5] }));
    ast.items.insert(1, item(Some("task"), None, ItemInner::Module { items: vec![2, 4] }));
    ast.items.insert(2, item(Some("spawn"), None, ItemInner::Module { items: vec![3] }));
    ast.items.insert(3, item(Some("spawn"), Some("Spawns a new task."), ItemInner::Function));
    ast.items.insert(
        4,
        item(None, None, ItemInner::Use { name: "spawn".to_string(), target: Some(3) }),
    );
    ast.items.insert(
        5,
        item(None, None, ItemInner::Use { name: "spawn".to_string(), target: Some(3) }),
    );
    ast.summaries.insert(0, summary(&["tokio"], ItemKind::Module));
    ast.summaries.insert(1, summary(&["tokio", "task"], ItemKind::Module));
    ast.summaries.insert(3, summary(&["tokio", "task", "spawn", "spawn"], ItemKind::Function));
    let krate = indexed("tokio", "latest", b"{\"root\":0}", ast);

    let hit = krate.search("tokio::spawn", Some(1)).unwrap();
    let item = &hit[0];
    assert_eq!(item.name, "spawn", "unexpected item name, full item: {item:#?}");
    assert_path_superset(&item.path, &["tokio", "task", "spawn", "spawn"]);
}

#[test]
fn fetch_serde() {
    let mut ast = Ast::new(Some("1.0.219".to_string()));
    ast.items.insert(0, item(Some("serde"), None, ItemInner::Module { items: vec![1, 2] }));
    ast.items.insert(1, item(Some("ser"), None, ItemInner::Module { items: vec![3] }));
    ast.items.insert(
        2,
        item(None, None, ItemInner::Use { name: "Serialize".to_string(), target: Some(3) }),
    );
    ast.items.insert(3, item(Some("Serialize"), None, ItemInner::Trait { items: vec![4] }));
    ast.items.insert(4, item(Some("serialize"), None, ItemInner::Function));
    ast.summaries.insert(0, summary(&["serde"], ItemKind::Module));
    ast.summaries.insert(1, summary(&["serde", "ser"], ItemKind::Module));
    ast.summaries.insert(3, summary(&["serde", "ser", "Serialize"], ItemKind::Trait));
    let krate = indexed("serde", "latest", b"{\"root\":0}", ast);

    let hits = krate.search("serde::Serialize", Some(1)).unwrap();
    let item = &hits[0];
    assert_eq!(item.name, "Serialize", "unexpected item name, full item: {item:#?}");
    assert_path_superset(&item.path, &["serde", "Serialize"]);
}

#[test]
fn fetch_lancedb() {
    let mut ast = Ast::new(Some("0.21.2".to_string()));
    ast.items.insert(0, item(Some("lancedb"), None, ItemInner::Module { items: vec![1] }));
    ast.items.insert(1, item(Some("table"), None, ItemInner::Module { items: vec![2] }));
    ast.items.insert(
        2,
        item(Some("Table"), Some("A table in a database."), ItemInner::Struct { impls: vec![3] }),
    );
    ast.items.insert(
        3,
        item(None, None, ItemInner::Impl { target: Some(2), trait_: None, items: vec![4] }),
    );
    ast.items.insert(4, item(Some("create"), Some("Creates a table."), ItemInner::Function));
    ast.summaries.insert(0, summary(&["lancedb"], ItemKind::Module));
    ast.summaries.insert(1, summary(&["lancedb", "table"], ItemKind::Module));
    ast.summaries.insert(2, summary(&["lancedb", "table", "Table"], ItemKind::Struct));
    let krate = indexed("lancedb", "latest", b"{\"root\":0}", ast);

    assert_eq!(
        krate.listing(),
        "lancedb\nlancedb::table\nlancedb::table::Table\nlancedb::table::Table::create\n"
    );

    let hits = krate.search("lancedb::table::Table", Some(1)).unwrap();
    let item = &hits[0];
    assert_eq!(item.name, "Table", "unexpected item name, full item: {item:#?}");
    assert!(item.docs.is_some(), "docs for Table should exist");

    let hits = krate.search("lancedb::table::Table::create", Some(1)).unwrap();
    let item = &hits[0];
    assert_eq!(item.name, "create", "unexpected item name, full item: {item:#?}");
    assert!(item.docs.is_some(), "docs for Table::create should exist");
    assert_path_superset(&item.path, &["lancedb", "table", "Table", "create"]);
}
