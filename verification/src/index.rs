//! From a tree of items to a searchable index.

use crate::ast::ItemInner;
use crate::doc::{Doc, Parsed};
use crate::item::{is_table_of, Item};
use crate::keys::{
    joined, key_views, lemma_key_views_add, lemma_key_views_push, lemma_reexport_keys_push,
    lemma_surface_keys_push, reexport_keys, search_keys, surface_keys, KeyView, SearchKey,
};
use crate::resolve::Resolver;
use crate::tree::AstView;
use std::collections::HashMap;
use vstd::prelude::*;
use vstd::string::StringExecFns;

verus! {

/// Documentation that can be searched: the keys in the order in which
/// they were found, and the record of each item that a key names.
pub struct Indexed {
    pub search_index: Vec<SearchKey>,
    pub items: HashMap<u32, Item>,
}

impl Indexed {
    /// Whether this is the index of `ast`: it holds the search keys of
    /// the tree, and the records of the items that they name.
    pub open spec fn is_index_of(&self, ast: AstView) -> bool {
        &&& key_views(self.search_index@) == search_keys(ast)
        &&& is_table_of(self.items@, ast, search_keys(ast))
    }
}

/// The texts of `keys`, one on each line.
pub open spec fn listing_of(keys: Seq<KeyView>) -> Seq<char>
    decreases keys.len(),
{
    if keys.len() == 0 {
        Seq::empty()
    } else {
        listing_of(keys.drop_last()) + joined(keys.last().path) + seq!['\n']
    }
}

impl Doc<Indexed> {
    pub fn new(search_index: Vec<SearchKey>, items: HashMap<u32, Item>) -> (r: Self)
        ensures
            r.0.search_index == search_index,
            r.0.items == items,
    {
        Doc(Indexed { search_index, items })
    }

    /// The texts of the keys in the order in which they were found, one
    /// on each line: what a dump of the index holds.
    pub fn listing(&self) -> (r: String)
        ensures
            r@ == listing_of(key_views(self.0.search_index@)),
    {
        let index = &self.0.search_index;
        let ghost keys = key_views(index@);
        let mut out = String::new();
        let mut i: usize = 0;
        while i < index.len()
            invariant
                index == &self.0.search_index,
                keys == key_views(index@),
                i <= index.len(),
                out@ == listing_of(keys.take(i as int)),
            decreases index.len() - i,
        {
            proof {
                reveal_strlit("\n");
                assert(keys.take(i + 1).drop_last() =~= keys.take(i as int));
            }
            out.append(index[i].text().as_str());
            out.append("\n");
            i += 1;
        }
        assert(keys.take(index.len() as int) =~= keys);
        out
    }
}

impl Doc<Parsed> {
    /// Builds the index of the tree: the keys that the canonical paths
    /// give, then one for each re-export that has no canonical path but
    /// whose path can be found, under which the item that is re-exported
    /// is found, and the record of each item so named.
    pub fn build_search_index(&self) -> (r: Doc<Indexed>)
        requires
            self.0.ast.wf(),
        ensures
            r.0.is_index_of(self.0.ast@),
    {
        let ast = &self.0.ast;
        let mut resolver = Resolver::new(ast);
        let mut index: Vec<SearchKey> = Vec::new();
        let ghost listed = ast@.summaries.order;
        let n = ast.summaries.len();
        let mut i: usize = 0;
        while i < n
            invariant
                ast == &self.0.ast,
                ast.wf(),
                resolver.wf(ast@),
                listed == ast@.summaries.order,
                n == listed.len(),
                i <= n,
                key_views(index@) == surface_keys(ast@, listed.take(i as int)),
            decreases n - i,
        {
            let id = ast.summaries.key_at(i);
            let summary = ast.summaries.value_at(i);
            proof {
                assert(listed.take(i + 1) =~= listed.take(i as int).push(id));
                lemma_surface_keys_push(ast@, listed.take(i as int), id);
            }
            match self.generate_searchkeys(id, summary, &mut resolver) {
                Some(keys) => {
                    let mut keys = keys;
                    proof {
                        lemma_key_views_add(index@, keys@);
                    }
                    index.append(&mut keys);
                },
                None => {},
            }
            i += 1;
        }
        let ghost surface = key_views(index@);
        let ghost held = ast@.items.order;
        let n = ast.items.len();
        let mut i: usize = 0;
        proof {
            assert(listed.take(listed.len() as int) =~= listed);
        }
        while i < n
            invariant
                ast == &self.0.ast,
                ast.wf(),
                resolver.wf(ast@),
                held == ast@.items.order,
                n == held.len(),
                i <= n,
                surface == surface_keys(ast@, ast@.summaries.order),
                key_views(index@) == surface + reexport_keys(ast@, held.take(i as int)),
            decreases n - i,
        {
            let id = ast.items.key_at(i);
            let found: Option<u32> = match &ast.items.value_at(i).inner {
                ItemInner::Use { target: Some(target), .. } => Some(*target),
                ItemInner::Use { target: None, .. } => Some(id),
                _ => None,
            };
            proof {
                assert(held.take(i + 1) =~= held.take(i as int).push(id));
                lemma_reexport_keys_push(ast@, held.take(i as int), id);
            }
            match found {
                Some(found) => if !ast.summaries.contains(id) {
                    match resolver.resolve(ast, id) {
                        Some(path) => {
                            let key = SearchKey::new(found, path);
                            proof {
                                lemma_key_views_push(index@, key);
                            }
                            index.push(key);
                        },
                        None => {},
                    }
                },
                None => {},
            }
            i += 1;
        }
        assert(held.take(held.len() as int) =~= held);
        let items = self.build_items(&index);
        Doc::<Indexed>::new(index, items)
    }
}

/// Two indexes of one tree hold the same keys in the same order, and
/// records of the same items.
pub proof fn lemma_index_is_repeatable(ast: AstView, first: Indexed, second: Indexed)
    requires
        first.is_index_of(ast),
        second.is_index_of(ast),
    ensures
        key_views(first.search_index@) == key_views(second.search_index@),
        first.items@.dom() == second.items@.dom(),
{
}

} // verus!
