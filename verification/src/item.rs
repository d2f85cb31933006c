//! The records that a search returns, and how they are made.

use crate::ast::{
    clone_links, clone_strings, clone_text, AstItem, Deprecation, ItemInner, ItemKind, Link,
    MacroKind, Span, Visibility,
};
use crate::doc::{Doc, Parsed};
use crate::keys::{key_views, KeyView, SearchKey};
use crate::tree::AstView;
use std::collections::HashMap;
use vstd::prelude::*;

verus! {

broadcast use vstd::std_specs::hash::group_hash_axioms;

/// All that is known of one item: what the tree holds of it, its path
/// and its kind.
#[derive(Debug, PartialEq)]
pub struct Item {
    pub id: u32,
    /// The crate that declares the item; 0 is the documented package.
    pub crate_id: u32,
    pub crate_version: Option<String>,
    /// The canonical path of the item; for an item without one, the path
    /// under which it was first found.
    pub path: Vec<String>,
    pub kind: Option<ItemKind>,
    pub visibility: Visibility,
    pub span: Option<Span>,
    /// The item's name; empty for an item without one.
    pub name: String,
    pub docs: Option<String>,
    pub links: Vec<Link>,
    pub attributes: Vec<String>,
    pub deprecation: Option<Deprecation>,
    pub inner: ItemInner,
}

/// The kind that goes with each form of item. A procedural macro is of
/// the kind that goes with the way it is invoked.
pub open spec fn kind_of_inner(inner: ItemInner) -> ItemKind {
    match inner {
        ItemInner::Module { .. } => ItemKind::Module,
        ItemInner::ExternCrate => ItemKind::ExternCrate,
        ItemInner::Use { .. } => ItemKind::Use,
        ItemInner::Union { .. } => ItemKind::Union,
        ItemInner::Struct { .. } => ItemKind::Struct,
        ItemInner::StructField => ItemKind::StructField,
        ItemInner::Enum { .. } => ItemKind::Enum,
        ItemInner::Variant => ItemKind::Variant,
        ItemInner::Function => ItemKind::Function,
        ItemInner::Trait { .. } => ItemKind::Trait,
        ItemInner::TraitAlias => ItemKind::TraitAlias,
        ItemInner::Impl { .. } => ItemKind::Impl,
        ItemInner::TypeAlias => ItemKind::TypeAlias,
        ItemInner::Constant => ItemKind::Constant,
        ItemInner::Static => ItemKind::Static,
        ItemInner::ExternType => ItemKind::ExternType,
        ItemInner::Macro => ItemKind::Macro,
        ItemInner::ProcMacro { kind } => match kind {
            MacroKind::Bang => ItemKind::Macro,
            MacroKind::Attr => ItemKind::ProcAttribute,
            MacroKind::Derive => ItemKind::ProcDerive,
        },
        ItemInner::Primitive => ItemKind::Primitive,
        ItemInner::AssocConst => ItemKind::AssocConst,
        ItemInner::AssocType => ItemKind::AssocType,
    }
}

/// The kind of an item as its own form shows it. A re-export is of the
/// kind that the form of its target shows; the kind of a glob import, and
/// of a re-export whose target the tree does not hold, is unknown.
pub open spec fn inferred_kind(ast: AstView, id: u32) -> Option<ItemKind> {
    match ast.items.get(id) {
        Some(item) => match item.inner {
            ItemInner::Use { target, .. } => match target {
                Some(target) => match ast.items.get(target) {
                    Some(target_item) => Some(kind_of_inner(target_item.inner)),
                    None => None,
                },
                None => None,
            },
            _ => Some(kind_of_inner(item.inner)),
        },
        None => None,
    }
}

/// The kind of an item: the one listed with its canonical path, else the
/// one that its form shows.
pub open spec fn kind_of(ast: AstView, id: u32) -> Option<ItemKind> {
    match ast.summaries.get(id) {
        Some(summary) => Some(summary.kind),
        None => inferred_kind(ast, id),
    }
}

/// The path of the record of an item that is first found under `found`:
/// the canonical path where the tree lists one, else `found`.
pub open spec fn record_path(ast: AstView, id: u32, found: Seq<Seq<char>>) -> Seq<Seq<char>> {
    match ast.summaries.get(id) {
        Some(summary) => summary.path.deep_view(),
        None => found,
    }
}

/// The name of an item, empty where it has none.
pub open spec fn name_or_empty(item: AstItem) -> Seq<char> {
    match item.name {
        Some(name) => name@,
        None => Seq::empty(),
    }
}

/// The path under which each item is first found in a list of keys.
pub open spec fn first_paths(keys: Seq<KeyView>) -> Map<u32, Seq<Seq<char>>>
    decreases keys.len(),
{
    if keys.len() == 0 {
        Map::empty()
    } else {
        let before = first_paths(keys.drop_last());
        let key = keys.last();
        if before.contains_key(key.id) {
            before
        } else {
            before.insert(key.id, key.path)
        }
    }
}

impl Item {
    /// Whether two records say the same.
    pub open spec fn same_as(&self, other: &Item) -> bool {
        &&& self.id == other.id
        &&& self.crate_id == other.crate_id
        &&& self.crate_version == other.crate_version
        &&& self.path@ == other.path@
        &&& self.kind == other.kind
        &&& self.visibility == other.visibility
        &&& self.span == other.span
        &&& self.name == other.name
        &&& self.docs == other.docs
        &&& self.links@ == other.links@
        &&& self.attributes@ == other.attributes@
        &&& self.deprecation == other.deprecation
        &&& self.inner@ == other.inner@
    }

    /// Whether this is the record of item `id` of the tree, first found
    /// under `found`.
    pub open spec fn is_record_of(&self, ast: AstView, id: u32, found: Seq<Seq<char>>) -> bool {
        let item = ast.items.entries[id];
        &&& self.id == id
        &&& self.crate_id == item.crate_id
        &&& self.crate_version == ast.crate_version
        &&& self.path.deep_view() == record_path(ast, id, found)
        &&& self.kind == kind_of(ast, id)
        &&& self.visibility == item.visibility
        &&& self.span == item.span
        &&& self.name@ == name_or_empty(item)
        &&& self.docs == item.docs
        &&& self.links@ == item.links@
        &&& self.attributes@ == item.attrs@
        &&& self.deprecation == item.deprecation
        &&& self.inner@ == item.inner@
    }
}

impl Clone for Item {
    fn clone(&self) -> (r: Self)
        ensures
            r.same_as(self),
    {
        Item {
            id: self.id,
            crate_id: self.crate_id,
            crate_version: clone_text(&self.crate_version),
            path: clone_strings(&self.path),
            kind: self.kind,
            visibility: self.visibility.clone(),
            span: match &self.span {
                Some(span) => Some(span.clone()),
                None => None,
            },
            name: self.name.clone(),
            docs: clone_text(&self.docs),
            links: clone_links(&self.links),
            attributes: clone_strings(&self.attributes),
            deprecation: match &self.deprecation {
                Some(deprecation) => Some(deprecation.clone()),
                None => None,
            },
            inner: self.inner.clone(),
        }
    }
}

/// Whether `table` holds the records of the items that `keys` name: one
/// for each item that the tree holds, with its canonical path, or, where
/// it has none, the first path that `keys` gives for it.
pub open spec fn is_table_of(table: Map<u32, Item>, ast: AstView, keys: Seq<KeyView>) -> bool {
    &&& forall|id: u32|
        table.contains_key(id) <==> first_paths(keys).contains_key(id) && ast.items.contains(id)
    &&& forall|id: u32| #[trigger]
        table.contains_key(id) ==> table[id].is_record_of(ast, id, first_paths(keys)[id])
}

/// Every item that a key names has a first path.
pub proof fn lemma_first_paths_hold(keys: Seq<KeyView>, i: int)
    requires
        0 <= i < keys.len(),
    ensures
        first_paths(keys).contains_key(keys[i].id),
    decreases keys.len(),
{
    if i < keys.len() - 1 {
        lemma_first_paths_hold(keys.drop_last(), i);
    }
}

/// The kind that goes with the form of an item.
pub fn inner_kind(inner: &ItemInner) -> (r: ItemKind)
    ensures
        r == kind_of_inner(*inner),
{
    match inner {
        ItemInner::Module { .. } => ItemKind::Module,
        ItemInner::ExternCrate => ItemKind::ExternCrate,
        ItemInner::Use { .. } => ItemKind::Use,
        ItemInner::Union { .. } => ItemKind::Union,
        ItemInner::Struct { .. } => ItemKind::Struct,
        ItemInner::StructField => ItemKind::StructField,
        ItemInner::Enum { .. } => ItemKind::Enum,
        ItemInner::Variant => ItemKind::Variant,
        ItemInner::Function => ItemKind::Function,
        ItemInner::Trait { .. } => ItemKind::Trait,
        ItemInner::TraitAlias => ItemKind::TraitAlias,
        ItemInner::Impl { .. } => ItemKind::Impl,
        ItemInner::TypeAlias => ItemKind::TypeAlias,
        ItemInner::Constant => ItemKind::Constant,
        ItemInner::Static => ItemKind::Static,
        ItemInner::ExternType => ItemKind::ExternType,
        ItemInner::Macro => ItemKind::Macro,
        ItemInner::ProcMacro { kind } => match kind {
            MacroKind::Bang => ItemKind::Macro,
            MacroKind::Attr => ItemKind::ProcAttribute,
            MacroKind::Derive => ItemKind::ProcDerive,
        },
        ItemInner::Primitive => ItemKind::Primitive,
        ItemInner::AssocConst => ItemKind::AssocConst,
        ItemInner::AssocType => ItemKind::AssocType,
    }
}

impl Doc<Parsed> {
    /// The kind of item `id` as its own form shows it.
    pub fn get_item_kind(&self, id: u32) -> (r: Option<ItemKind>)
        requires
            self.0.ast.wf(),
        ensures
            r == inferred_kind(self.0.ast@, id),
    {
        let ast = &self.0.ast;
        match ast.items.get(id) {
            Some(item) => match &item.inner {
                ItemInner::Use { target, .. } => match target {
                    Some(target) => match ast.items.get(*target) {
                        Some(target_item) => Some(inner_kind(&target_item.inner)),
                        None => None,
                    },
                    None => None,
                },
                inner => Some(inner_kind(inner)),
            },
            None => None,
        }
    }

    /// The record of item `id`, first found under `path`, if the tree
    /// holds the item.
    pub fn build_item(&self, id: u32, path: &Vec<String>) -> (r: Option<Item>)
        requires
            self.0.ast.wf(),
        ensures
            r is Some <==> self.0.ast@.items.contains(id),
            r matches Some(record) ==> record.is_record_of(self.0.ast@, id, path.deep_view()),
    {
        let ast = &self.0.ast;
        let item = match ast.items.get(id) {
            Some(item) => item,
            None => {
                return None;
            },
        };
        let (path, kind) = match ast.summaries.get(id) {
            Some(summary) => (clone_strings(&summary.path), Some(summary.kind)),
            None => (clone_strings(path), self.get_item_kind(id)),
        };
        let name = match &item.name {
            Some(name) => name.clone(),
            None => String::new(),
        };
        let span = match &item.span {
            Some(span) => Some(span.clone()),
            None => None,
        };
        let deprecation = match &item.deprecation {
            Some(deprecation) => Some(deprecation.clone()),
            None => None,
        };
        Some(
            Item {
                id,
                crate_id: item.crate_id,
                crate_version: clone_text(&ast.crate_version),
                path,
                kind,
                visibility: item.visibility.clone(),
                span,
                name,
                docs: clone_text(&item.docs),
                links: clone_links(&item.links),
                attributes: clone_strings(&item.attrs),
                deprecation,
                inner: item.inner.clone(),
            },
        )
    }

    /// The records of the items that `index` names.
    pub fn build_items(&self, index: &Vec<SearchKey>) -> (r: HashMap<u32, Item>)
        requires
            self.0.ast.wf(),
        ensures
            is_table_of(r@, self.0.ast@, key_views(index@)),
    {
        let mut table: HashMap<u32, Item> = HashMap::new();
        let ghost keys = key_views(index@);
        let mut i: usize = 0;
        while i < index.len()
            invariant
                self.0.ast.wf(),
                keys == key_views(index@),
                i <= index.len(),
                is_table_of(table@, self.0.ast@, keys.take(i as int)),
            decreases index.len() - i,
        {
            let key = &index[i];
            let id = key.id();
            proof {
                assert(keys.take(i + 1).drop_last() =~= keys.take(i as int));
            }
            if !table.contains_key(&id) {
                match self.build_item(id, key.path()) {
                    Some(record) => {
                        table.insert(id, record);
                    },
                    None => {},
                }
            }
            i += 1;
        }
        assert(keys.take(index.len() as int) =~= keys);
        table
    }
}

} // verus!
