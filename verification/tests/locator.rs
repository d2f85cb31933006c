use docsrs::{Doc, Error, Item, ItemInner, ItemKind, Remote, Visibility};

fn record(path: &[&str], kind: Option<ItemKind>, version: Option<&str>) -> Item {
    Item {
        id: 1,
        crate_id: 0,
        crate_version: version.map(|v| v.to_string()),
        path: path.iter().map(|s| s.to_string()).collect(),
        kind,
        visibility: Visibility::Public,
        span: None,
        name: path.last().map(|s| s.to_string()).unwrap_or_default(),
        docs: None,
        links: Vec::new(),
        attributes: Vec::new(),
        deprecation: None,
        inner: ItemInner::Function,
    }
}

fn url(path: &[&str], kind: ItemKind) -> Option<String> {
    record(path, Some(kind), None).url().unwrap()
}

fn strings(list: &[&str]) -> Vec<String> {
    list.iter().map(|s| s.to_string()).collect()
}

#[test]
fn the_page_of_a_struct() {
    let file = record(&["std", "fs", "File"], Some(ItemKind::Struct), Some("1.0.0"));
    assert_eq!(
        file.url().unwrap(),
        Some("https://docs.rs/std/1.0.0/fs/struct.File.html".to_string())
    );
    assert_eq!(
        file.url_parts(),
        Some(("https://docs.rs/std/1.0.0".to_string(), strings(&["fs", "struct.File.html"])))
    );
}

#[test]
fn the_page_of_a_module_is_its_index() {
    assert_eq!(
        url(&["std", "fs"], ItemKind::Module),
        Some("https://docs.rs/std/latest/fs/index.html".to_string())
    );
    assert_eq!(
        url(&["std"], ItemKind::Module),
        Some("https://docs.rs/std/latest/index.html".to_string())
    );
    assert_eq!(
        record(&["a", "b", "c"], Some(ItemKind::Module), None).url_parts(),
        Some(("https://docs.rs/a/latest".to_string(), strings(&["b", "c", "index.html"])))
    );
}

#[test]
fn the_pages_of_the_other_kinds() {
    let pages = vec![
        (ItemKind::Struct, "struct.X.html"),
        (ItemKind::Union, "union.X.html"),
        (ItemKind::Enum, "enum.X.html"),
        (ItemKind::Trait, "trait.X.html"),
        (ItemKind::Function, "fn.X.html"),
        (ItemKind::Constant, "const.X.html"),
        (ItemKind::Static, "static.X.html"),
        (ItemKind::Macro, "macro.X.html"),
        (ItemKind::TypeAlias, "type.X.html"),
    ];
    for (kind, file) in pages {
        assert_eq!(url(&["k", "m", "X"], kind), Some(format!("https://docs.rs/k/latest/m/{file}")));
    }
}

#[test]
fn an_item_at_the_root_of_the_crate() {
    assert_eq!(
        url(&["k", "f"], ItemKind::Function),
        Some("https://docs.rs/k/latest/fn.f.html".to_string())
    );
    assert_eq!(
        url(&["k"], ItemKind::Function),
        Some("https://docs.rs/k/latest/fn.k.html".to_string())
    );
    assert_eq!(
        record(&["k"], Some(ItemKind::Function), None).url_parts(),
        Some(("https://docs.rs/k/latest".to_string(), strings(&["fn.k.html"])))
    );
}

#[test]
fn kinds_without_a_page_have_no_address() {
    let without = vec![
        ItemKind::ExternCrate,
        ItemKind::Use,
        ItemKind::StructField,
        ItemKind::Variant,
        ItemKind::TraitAlias,
        ItemKind::Impl,
        ItemKind::ExternType,
        ItemKind::ProcAttribute,
        ItemKind::ProcDerive,
        ItemKind::AssocConst,
        ItemKind::AssocType,
        ItemKind::Primitive,
        ItemKind::Keyword,
        ItemKind::Attribute,
    ];
    for kind in without {
        assert_eq!(url(&["k", "m", "X"], kind), None);
        assert_eq!(
            record(&["k", "m", "X"], Some(kind), None).url_parts(),
            Some(("https://docs.rs/k/latest".to_string(), Vec::new()))
        );
    }
}

#[test]
fn a_record_without_a_path_or_a_kind_has_no_address() {
    assert_eq!(record(&[], Some(ItemKind::Struct), None).url().unwrap(), None);
    assert_eq!(record(&["k", "S"], None, None).url().unwrap(), None);
    assert_eq!(record(&[], Some(ItemKind::Struct), None).url_parts(), None);
    assert_eq!(record(&["k", "S"], None, None).url_parts(), None);
}

#[test]
fn the_name_of_the_record_names_the_page() {
    let mut alias = record(&["k", "m", "Shown"], Some(ItemKind::Struct), None);
    alias.name = "Declared".to_string();
    assert_eq!(
        alias.url().unwrap(),
        Some("https://docs.rs/k/latest/m/struct.Declared.html".to_string())
    );
}

#[test]
fn segments_are_written_as_a_url_writes_them() {
    assert_eq!(
        url(&["k", "a b", "x/y"], ItemKind::Function),
        Some("https://docs.rs/k/latest/a%20b/fn.x%2Fy.html".to_string())
    );
    assert_eq!(
        url(&["k", "..", "m", ".", "f"], ItemKind::Function),
        Some("https://docs.rs/k/latest/m/fn.f.html".to_string())
    );
    assert_eq!(
        record(&["K", "f"], Some(ItemKind::Function), Some("1.0 beta")).url().unwrap(),
        Some("https://docs.rs/K/1.0%20beta/fn.f.html".to_string())
    );
}

#[test]
fn the_address_of_the_documentation_of_a_crate() {
    let Doc(Remote { url }) = Doc::<Remote>::from_docs("serde", "latest").unwrap();
    assert_eq!(url, "https://docs.rs/crate/serde/latest/json.zst");
    let Doc(Remote { url }) = Doc::<Remote>::from_docs("tokio", "1.0.0").unwrap();
    assert_eq!(url, "https://docs.rs/crate/tokio/1.0.0/json.zst");
    let Doc(Remote { url }) = Doc::<Remote>::from_docs("my crate", "^1").unwrap();
    assert_eq!(url, "https://docs.rs/crate/my%20crate/^1/json.zst");
}

#[test]
fn addresses_of_ordinary_length_fit() {
    assert!(record(&["std", "fs", "File"], Some(ItemKind::Struct), Some("1.0.0")).url_fits());
    assert!(record(&["std"], Some(ItemKind::Module), None).url_fits());
    assert!(record(&["k", "m", "X"], Some(ItemKind::Variant), None).url_fits());
    assert!(record(&[], Some(ItemKind::Struct), None).url_fits());
    assert!(record(&["k", "S"], None, None).url_fits());
    let long = "x".repeat(100_000);
    assert!(record(&["k", long.as_str(), "f"], Some(ItemKind::Function), None).url_fits());
}

#[test]
fn what_is_not_a_url_is_an_error() {
    let file = record(&["std", "fs", "File"], Some(ItemKind::Struct), None);
    let answer = file.located(Err(url::ParseError::EmptyHost));
    assert!(matches!(answer, Err(Error::Url(url::ParseError::EmptyHost))));
    let variant = record(&["k", "E", "A"], Some(ItemKind::Variant), None);
    let answer = variant.located(Err(url::ParseError::InvalidPort));
    assert!(matches!(answer, Err(Error::Url(url::ParseError::InvalidPort))));
}

#[test]
fn a_url_is_the_answer_where_the_item_has_a_page() {
    let written = "https://docs.rs/std/latest/fs/struct.File.html".to_string();
    let file = record(&["std", "fs", "File"], Some(ItemKind::Struct), None);
    assert_eq!(file.located(Ok(written.clone())).unwrap(), Some(written.clone()));
    let variant = record(&["k", "E", "A"], Some(ItemKind::Variant), None);
    assert_eq!(variant.located(Ok(written.clone())).unwrap(), None);
    let unknown = record(&["k", "E", "A"], None, None);
    assert_eq!(unknown.located(Ok(written)).unwrap(), None);
}

#[test]
fn a_kind_without_a_page_only_has_its_crate_address_parsed() {
    let long = "x".repeat(200_000);
    let variant = record(&["k", long.as_str(), "A"], Some(ItemKind::Variant), None);
    assert!(variant.url_fits());
    assert_eq!(variant.url().unwrap(), None);
    let odd = record(&["a b?c#d", "E", "A"], Some(ItemKind::Variant), Some("1 0"));
    assert_eq!(odd.url().unwrap(), None);
}
