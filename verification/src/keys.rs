//! The search keys of a documentation tree: one for every item of the
//! public surface, one for every named member of its types and traits,
//! and one for every re-export.

use crate::ast::{clone_strings, AstItem, ItemInner, ItemKind, Summary};
use crate::doc::{Doc, Parsed};
use crate::resolve::{keeps, recalls, resolve, Resolver};
use crate::tree::AstView;
use vstd::prelude::*;
use vstd::string::StringExecFns;

verus! {

/// A path written as text, its segments joined by `::`.
pub open spec fn joined(path: Seq<Seq<char>>) -> Seq<char>
    decreases path.len(),
{
    if path.len() == 0 {
        Seq::empty()
    } else if path.len() == 1 {
        path[0]
    } else {
        joined(path.drop_last()) + seq![':', ':'] + path.last()
    }
}

/// Writes a path as text.
pub fn join(path: &Vec<String>) -> (r: String)
    ensures
        r@ == joined(path.deep_view()),
{
    let mut out = String::new();
    let mut i: usize = 0;
    let ghost whole = path.deep_view();
    while i < path.len()
        invariant
            i <= path.len(),
            whole == path.deep_view(),
            out@ == joined(whole.take(i as int)),
        decreases path.len() - i,
    {
        if i > 0 {
            proof {
                reveal_strlit("::");
            }
            out.append("::");
        }
        out.append(path[i].as_str());
        proof {
            let next = whole.take(i + 1);
            assert(next.drop_last() =~= whole.take(i as int));
        }
        i += 1;
    }
    assert(whole.take(path.len() as int) =~= whole);
    out
}

/// What a [`SearchKey`] says: an item, and a path under which it is found.
pub struct KeyView {
    pub id: u32,
    pub path: Seq<Seq<char>>,
}

/// An item and a path under which it is found, with the path as text.
#[derive(Debug)]
pub struct SearchKey {
    id: u32,
    path: Vec<String>,
    key: String,
}

impl View for SearchKey {
    type V = KeyView;

    closed spec fn view(&self) -> KeyView {
        KeyView { id: self.id, path: self.path.deep_view() }
    }
}

impl SearchKey {
    #[verifier::type_invariant]
    closed spec fn text_is_path(&self) -> bool {
        self.key@ == joined(self.path.deep_view())
    }

    pub fn new(id: u32, path: Vec<String>) -> (r: Self)
        ensures
            r@ == (KeyView { id, path: path.deep_view() }),
    {
        let key = join(&path);
        SearchKey { id, path, key }
    }

    pub fn id(&self) -> (r: u32)
        ensures
            r == self@.id,
    {
        self.id
    }

    pub fn path(&self) -> (r: &Vec<String>)
        ensures
            r.deep_view() == self@.path,
    {
        &self.path
    }

    /// The path as text.
    pub fn text(&self) -> (r: &String)
        ensures
            r@ == joined(self@.path),
    {
        proof {
            use_type_invariant(self);
        }
        &self.key
    }
}

impl Clone for SearchKey {
    fn clone(&self) -> (r: Self)
        ensures
            r@ == self@,
    {
        proof {
            use_type_invariant(self);
        }
        SearchKey { id: self.id, path: clone_strings(&self.path), key: self.key.clone() }
    }
}

/// What a list of keys says.
pub open spec fn key_views(keys: Seq<SearchKey>) -> Seq<KeyView> {
    keys.map_values(|k: SearchKey| k@)
}

/// The key of a member under `prefix`: a member that the tree holds under
/// a name is found under the prefix and that name.
pub open spec fn member_key(ast: AstView, member: u32, prefix: Seq<Seq<char>>) -> Option<KeyView> {
    match ast.items.get(member) {
        Some(item) => match item.name {
            Some(name) => Some(KeyView { id: member, path: prefix.push(name@) }),
            None => None,
        },
        None => None,
    }
}

/// The keys of `members` under `prefix`, in the order of `members`.
pub open spec fn member_keys(ast: AstView, members: Seq<u32>, prefix: Seq<Seq<char>>) -> Seq<
    KeyView,
> {
    members.filter_map(|member: u32| member_key(ast, member, prefix))
}

/// The trait that item `block` implements: `None` for what is not an
/// implementation block of a trait.
pub open spec fn block_trait(ast: AstView, block: u32) -> Option<u32> {
    match ast.items.get(block) {
        Some(item) => match item.inner {
            ItemInner::Impl { trait_, .. } => trait_,
            _ => None,
        },
        None => None,
    }
}

/// The prefix of the members of an implementation block of a type that is
/// found under `base`: the path of the trait that the block implements,
/// and `base` where it implements none. The members of a block whose
/// trait has no path have no prefix.
pub open spec fn block_prefix(ast: AstView, trait_: Option<u32>, base: Seq<Seq<char>>) -> Option<
    Seq<Seq<char>>,
> {
    match trait_ {
        Some(id) => resolve(ast, id),
        None => Some(base),
    }
}

/// The keys of the members of implementation block `block` of a type
/// that is found under `base`. What the tree does not hold, or holds as
/// something else than an implementation block, has none.
pub open spec fn block_keys(ast: AstView, block: u32, base: Seq<Seq<char>>) -> Seq<KeyView> {
    match ast.items.get(block) {
        Some(item) => match item.inner {
            ItemInner::Impl { trait_, items, .. } => match block_prefix(ast, trait_, base) {
                Some(prefix) => member_keys(ast, items@, prefix),
                None => Seq::empty(),
            },
            _ => Seq::empty(),
        },
        None => Seq::empty(),
    }
}

/// The keys of the members of `blocks`, block after block.
pub open spec fn blocks_keys(ast: AstView, blocks: Seq<u32>, base: Seq<Seq<char>>) -> Seq<KeyView> {
    blocks.map_values(|block: u32| block_keys(ast, block, base)).flatten()
}

/// Whether `item` is an implementation block for the type `target`.
pub open spec fn is_block_for(item: AstItem, target: u32) -> bool {
    item.inner matches ItemInner::Impl { target: Some(t), .. } && t == target
}

/// The keys of the members of item `id` where it is an implementation
/// block for `target`, a type found under `base`; none where it is not.
pub open spec fn keys_of_block_for(ast: AstView, id: u32, target: u32, base: Seq<Seq<char>>) -> Seq<
    KeyView,
> {
    if is_block_for(ast.items.entries[id], target) {
        block_keys(ast, id, base)
    } else {
        Seq::empty()
    }
}

/// The keys of the members of every implementation block among `ids`
/// that is for `target`, a type found under `base`.
pub open spec fn keys_of_blocks_for(
    ast: AstView,
    ids: Seq<u32>,
    target: u32,
    base: Seq<Seq<char>>,
) -> Seq<KeyView> {
    ids.map_values(|id: u32| keys_of_block_for(ast, id, target, base)).flatten()
}

/// The keys of what is nested in the item `id`, which the tree lists as a
/// `kind` under `base`: the members of the implementation blocks of a
/// struct or a union, the variants of an enum and then the members of
/// every block in the tree that is for it, the items of a trait's body.
/// An item that the tree does not hold, or holds as another kind than it
/// lists it as, has none.
pub open spec fn nested_keys(ast: AstView, id: u32, kind: ItemKind, base: Seq<Seq<char>>) -> Seq<
    KeyView,
> {
    match ast.items.get(id) {
        Some(item) => match (kind, item.inner) {
            (ItemKind::Struct, ItemInner::Struct { impls }) => blocks_keys(ast, impls@, base),
            (ItemKind::Union, ItemInner::Union { impls }) => blocks_keys(ast, impls@, base),
            (ItemKind::Enum, ItemInner::Enum { variants }) => member_keys(ast, variants@, base)
                + keys_of_blocks_for(ast, ast.items.order, id, base),
            (ItemKind::Trait, ItemInner::Trait { items }) => member_keys(ast, items@, base),
            _ => Seq::empty(),
        },
        None => Seq::empty(),
    }
}

/// The keys that the canonical path `summary` of item `id` gives: none
/// for an item of another crate; else one for the item itself, and those
/// of what is nested in it.
pub open spec fn summary_keys(ast: AstView, id: u32, summary: Summary) -> Seq<KeyView> {
    if summary.crate_id != 0 {
        Seq::empty()
    } else {
        let base = summary.path.deep_view();
        seq![KeyView { id, path: base }] + nested_keys(ast, id, summary.kind, base)
    }
}

/// The keys that the canonical paths of `ids` give, path after path.
pub open spec fn surface_keys(ast: AstView, ids: Seq<u32>) -> Seq<KeyView> {
    ids.map_values(|id: u32| summary_keys(ast, id, ast.summaries.entries[id])).flatten()
}

/// The item that is found under the alias of the re-export `id`: the
/// target of the re-export. A glob import has no target, and is found
/// itself.
pub open spec fn reexported(item: AstItem, id: u32) -> u32 {
    match item.inner {
        ItemInner::Use { target: Some(target), .. } => target,
        _ => id,
    }
}

/// The key of the re-export `id`: under the path of the owner of a
/// re-export without a canonical path, and its alias, the item that is
/// re-exported is found.
pub open spec fn reexport_key(ast: AstView, id: u32) -> Option<KeyView> {
    if !ast.summaries.contains(id) && ast.items.contains(id) && ast.items.entries[id].inner is Use {
        match resolve(ast, id) {
            Some(path) => Some(KeyView { id: reexported(ast.items.entries[id], id), path }),
            None => None,
        }
    } else {
        None
    }
}

/// The keys of the re-exports among `ids`.
pub open spec fn reexport_keys(ast: AstView, ids: Seq<u32>) -> Seq<KeyView> {
    ids.filter_map(|id: u32| reexport_key(ast, id))
}

/// The search keys of a tree, in the order in which they are found: those
/// that the canonical paths give, then those of the re-exports.
pub open spec fn search_keys(ast: AstView) -> Seq<KeyView> {
    surface_keys(ast, ast.summaries.order) + reexport_keys(ast, ast.items.order)
}

/// What a list of keys with one more key says.
pub proof fn lemma_key_views_push(keys: Seq<SearchKey>, key: SearchKey)
    ensures
        key_views(keys.push(key)) == key_views(keys).push(key@),
{
}

/// What two lists of keys say, one behind the other.
pub proof fn lemma_key_views_add(front: Seq<SearchKey>, back: Seq<SearchKey>)
    ensures
        key_views(front + back) == key_views(front) + key_views(back),
{
}

/// The keys of members and one more member.
pub proof fn lemma_member_keys_push(
    ast: AstView,
    members: Seq<u32>,
    member: u32,
    prefix: Seq<Seq<char>>,
)
    ensures
        member_keys(ast, members.push(member), prefix) == match member_key(ast, member, prefix) {
            Some(key) => member_keys(ast, members, prefix).push(key),
            None => member_keys(ast, members, prefix),
        },
{
    assert(members.push(member).drop_last() =~= members);
}

/// The keys of the members of blocks and one more block.
pub proof fn lemma_blocks_keys_push(ast: AstView, blocks: Seq<u32>, block: u32, base: Seq<Seq<char>>)
    ensures
        blocks_keys(ast, blocks.push(block), base) == blocks_keys(ast, blocks, base) + block_keys(
            ast,
            block,
            base,
        ),
{
    let each = |block: u32| block_keys(ast, block, base);
    assert(blocks.push(block).map_values(each) =~= blocks.map_values(each).push(each(block)));
    blocks.map_values(each).lemma_flatten_push(each(block));
}

/// The keys of the members of the blocks for a type among items and one
/// more item.
pub proof fn lemma_keys_of_blocks_for_push(
    ast: AstView,
    ids: Seq<u32>,
    id: u32,
    target: u32,
    base: Seq<Seq<char>>,
)
    ensures
        keys_of_blocks_for(ast, ids.push(id), target, base) == keys_of_blocks_for(
            ast,
            ids,
            target,
            base,
        ) + keys_of_block_for(ast, id, target, base),
{
    let each = |id: u32| keys_of_block_for(ast, id, target, base);
    assert(ids.push(id).map_values(each) =~= ids.map_values(each).push(each(id)));
    ids.map_values(each).lemma_flatten_push(each(id));
}

/// The keys that canonical paths and one more canonical path give.
pub proof fn lemma_surface_keys_push(ast: AstView, ids: Seq<u32>, id: u32)
    ensures
        surface_keys(ast, ids.push(id)) == surface_keys(ast, ids) + summary_keys(
            ast,
            id,
            ast.summaries.entries[id],
        ),
{
    let each = |id: u32| summary_keys(ast, id, ast.summaries.entries[id]);
    assert(ids.push(id).map_values(each) =~= ids.map_values(each).push(each(id)));
    ids.map_values(each).lemma_flatten_push(each(id));
}

/// The keys of the re-exports among items and one more item.
pub proof fn lemma_reexport_keys_push(ast: AstView, ids: Seq<u32>, id: u32)
    ensures
        reexport_keys(ast, ids.push(id)) == match reexport_key(ast, id) {
            Some(key) => reexport_keys(ast, ids).push(key),
            None => reexport_keys(ast, ids),
        },
{
    assert(ids.push(id).drop_last() =~= ids);
}

impl Doc<Parsed> {
    /// One key under `prefix` for each of `members` that the tree holds
    /// under a name.
    pub fn keys_of_members(&self, members: &Vec<u32>, prefix: &Vec<String>) -> (r: Vec<SearchKey>)
        requires
            self.0.ast.wf(),
        ensures
            key_views(r@) == member_keys(self.0.ast@, members@, prefix.deep_view()),
    {
        let ast = &self.0.ast;
        let mut out: Vec<SearchKey> = Vec::new();
        let mut i: usize = 0;
        while i < members.len()
            invariant
                ast.wf(),
                i <= members.len(),
                key_views(out@) == member_keys(ast@, members@.take(i as int), prefix.deep_view()),
            decreases members.len() - i,
        {
            let member = members[i];
            proof {
                assert(members@.take(i + 1) =~= members@.take(i as int).push(member));
                lemma_member_keys_push(ast@, members@.take(i as int), member, prefix.deep_view());
            }
            match ast.items.get(member) {
                Some(item) => match &item.name {
                    Some(name) => {
                        let mut path = clone_strings(prefix);
                        let ghost above = path.deep_view();
                        path.push(name.clone());
                        assert(path.deep_view() =~= above.push(name@));
                        let key = SearchKey::new(member, path);
                        proof {
                            lemma_key_views_push(out@, key);
                        }
                        out.push(key);
                    },
                    None => {},
                },
                None => {},
            }
            i += 1;
        }
        assert(members@.take(members.len() as int) =~= members@);
        out
    }

    /// The keys of the items declared in the body of a trait that is
    /// found under `base_path`.
    pub fn search_keys_traits(&self, items: &Vec<u32>, base_path: &Vec<String>) -> (r: Vec<
        SearchKey,
    >)
        requires
            self.0.ast.wf(),
        ensures
            key_views(r@) == member_keys(self.0.ast@, items@, base_path.deep_view()),
    {
        self.keys_of_members(items, base_path)
    }

    /// The keys of the members of the implementation block `block` of a
    /// type that is found under `base_path`. The members of a block that
    /// implements a trait are found under the trait's path, not under the
    /// type's.
    pub fn impl_method_keys(
        &self,
        block: u32,
        base_path: &Vec<String>,
        resolver: &mut Resolver,
    ) -> (r: Vec<SearchKey>)
        requires
            self.0.ast.wf(),
            old(resolver).wf(self.0.ast@),
        ensures
            final(resolver).wf(self.0.ast@),
            key_views(r@) == block_keys(self.0.ast@, block, base_path.deep_view()),
            match block_trait(self.0.ast@, block) {
                Some(id) => recalls(
                    self.0.ast@,
                    old(resolver).remembered(),
                    final(resolver).remembered(),
                    id,
                    resolve(self.0.ast@, id) is Some,
                ),
                None => final(resolver).remembered() == old(resolver).remembered(),
            },
    {
        let ast = &self.0.ast;
        let none: Vec<SearchKey> = Vec::new();
        match ast.items.get(block) {
            Some(item) => match &item.inner {
                ItemInner::Impl { trait_, items, .. } => match trait_ {
                    Some(id) => match resolver.resolve(ast, *id) {
                        Some(prefix) => self.keys_of_members(items, &prefix),
                        None => none,
                    },
                    None => self.keys_of_members(items, base_path),
                },
                _ => none,
            },
            None => none,
        }
    }

    fn keys_of_blocks(&self, blocks: &Vec<u32>, base_path: &Vec<String>, resolver: &mut Resolver) -> (r:
        Vec<SearchKey>)
        requires
            self.0.ast.wf(),
            old(resolver).wf(self.0.ast@),
        ensures
            final(resolver).wf(self.0.ast@),
            keeps(old(resolver).remembered(), final(resolver).remembered()),
            key_views(r@) == blocks_keys(self.0.ast@, blocks@, base_path.deep_view()),
    {
        let mut out: Vec<SearchKey> = Vec::new();
        let mut i: usize = 0;
        while i < blocks.len()
            invariant
                self.0.ast.wf(),
                resolver.wf(self.0.ast@),
                keeps(old(resolver).remembered(), resolver.remembered()),
                i <= blocks.len(),
                key_views(out@) == blocks_keys(
                    self.0.ast@,
                    blocks@.take(i as int),
                    base_path.deep_view(),
                ),
            decreases blocks.len() - i,
        {
            let mut more = self.impl_method_keys(blocks[i], base_path, resolver);
            proof {
                assert(blocks@.take(i + 1) =~= blocks@.take(i as int).push(blocks@[i as int]));
                lemma_blocks_keys_push(
                    self.0.ast@,
                    blocks@.take(i as int),
                    blocks@[i as int],
                    base_path.deep_view(),
                );
                lemma_key_views_add(out@, more@);
            }
            out.append(&mut more);
            i += 1;
        }
        assert(blocks@.take(blocks.len() as int) =~= blocks@);
        out
    }

    /// The keys of the members of the implementation blocks `impls` of a
    /// struct that is found under `base_path`.
    pub fn search_keys_structs(
        &self,
        impls: &Vec<u32>,
        base_path: &Vec<String>,
        resolver: &mut Resolver,
    ) -> (r: Vec<SearchKey>)
        requires
            self.0.ast.wf(),
            old(resolver).wf(self.0.ast@),
        ensures
            final(resolver).wf(self.0.ast@),
            keeps(old(resolver).remembered(), final(resolver).remembered()),
            key_views(r@) == blocks_keys(self.0.ast@, impls@, base_path.deep_view()),
    {
        self.keys_of_blocks(impls, base_path, resolver)
    }

    /// The keys of the members of the implementation blocks `impls` of a
    /// union that is found under `base_path`.
    pub fn search_keys_unions(
        &self,
        impls: &Vec<u32>,
        base_path: &Vec<String>,
        resolver: &mut Resolver,
    ) -> (r: Vec<SearchKey>)
        requires
            self.0.ast.wf(),
            old(resolver).wf(self.0.ast@),
        ensures
            final(resolver).wf(self.0.ast@),
            keeps(old(resolver).remembered(), final(resolver).remembered()),
            key_views(r@) == blocks_keys(self.0.ast@, impls@, base_path.deep_view()),
    {
        self.keys_of_blocks(impls, base_path, resolver)
    }

    /// The keys of what is nested in the enum `id`, which is found under
    /// `base_path`: its `variants`, then the members of every
    /// implementation block in the tree that is for it.
    pub fn search_keys_enums(
        &self,
        id: u32,
        variants: &Vec<u32>,
        base_path: &Vec<String>,
        resolver: &mut Resolver,
    ) -> (r: Vec<SearchKey>)
        requires
            self.0.ast.wf(),
            old(resolver).wf(self.0.ast@),
        ensures
            final(resolver).wf(self.0.ast@),
            keeps(old(resolver).remembered(), final(resolver).remembered()),
            key_views(r@) == member_keys(self.0.ast@, variants@, base_path.deep_view())
                + keys_of_blocks_for(
                self.0.ast@,
                self.0.ast@.items.order,
                id,
                base_path.deep_view(),
            ),
    {
        let ast = &self.0.ast;
        let mut out = self.keys_of_members(variants, base_path);
        let ghost first = key_views(out@);
        let ghost order = ast@.items.order;
        let n = ast.items.len();
        let mut i: usize = 0;
        while i < n
            invariant
                ast == &self.0.ast,
                ast.wf(),
                resolver.wf(ast@),
                keeps(old(resolver).remembered(), resolver.remembered()),
                order == ast@.items.order,
                n == order.len(),
                i <= n,
                key_views(out@) == first + keys_of_blocks_for(
                    ast@,
                    order.take(i as int),
                    id,
                    base_path.deep_view(),
                ),
            decreases n - i,
        {
            let block = ast.items.key_at(i);
            let is_for = match &ast.items.value_at(i).inner {
                ItemInner::Impl { target: Some(target), .. } => *target == id,
                _ => false,
            };
            let ghost before = keys_of_blocks_for(
                ast@,
                order.take(i as int),
                id,
                base_path.deep_view(),
            );
            proof {
                assert(order.take(i + 1) =~= order.take(i as int).push(block));
                lemma_keys_of_blocks_for_push(
                    ast@,
                    order.take(i as int),
                    block,
                    id,
                    base_path.deep_view(),
                );
            }
            if is_for {
                let mut more = self.impl_method_keys(block, base_path, resolver);
                proof {
                    lemma_key_views_add(out@, more@);
                    assert((first + before) + key_views(more@) =~= first + (before + key_views(
                        more@,
                    )));
                }
                out.append(&mut more);
            }
            i += 1;
        }
        assert(order.take(n as int) =~= order);
        out
    }

    /// The keys that the canonical path `summary` of item `id` gives, if
    /// the item is one of the documented package.
    pub fn generate_searchkeys(&self, id: u32, summary: &Summary, resolver: &mut Resolver) -> (r:
        Option<Vec<SearchKey>>)
        requires
            self.0.ast.wf(),
            old(resolver).wf(self.0.ast@),
        ensures
            final(resolver).wf(self.0.ast@),
            keeps(old(resolver).remembered(), final(resolver).remembered()),
            match r {
                Some(keys) => summary.crate_id == 0 && key_views(keys@) == summary_keys(
                    self.0.ast@,
                    id,
                    *summary,
                ),
                None => summary.crate_id != 0 && final(resolver).remembered() == old(
                    resolver,
                ).remembered(),
            },
    {
        if summary.crate_id != 0 {
            return None;
        }
        let ast = &self.0.ast;
        let base_path = &summary.path;
        let mut out: Vec<SearchKey> = Vec::new();
        let own = SearchKey::new(id, clone_strings(base_path));
        proof {
            lemma_key_views_push(out@, own);
        }
        out.push(own);
        let none: Vec<SearchKey> = Vec::new();
        let mut nested = match ast.items.get(id) {
            Some(item) => match (summary.kind, &item.inner) {
                (ItemKind::Struct, ItemInner::Struct { impls }) => self.search_keys_structs(
                    impls,
                    base_path,
                    resolver,
                ),
                (ItemKind::Union, ItemInner::Union { impls }) => self.search_keys_unions(
                    impls,
                    base_path,
                    resolver,
                ),
                (ItemKind::Enum, ItemInner::Enum { variants }) => self.search_keys_enums(
                    id,
                    variants,
                    base_path,
                    resolver,
                ),
                (ItemKind::Trait, ItemInner::Trait { items }) => self.search_keys_traits(
                    items,
                    base_path,
                ),
                _ => none,
            },
            None => none,
        };
        proof {
            lemma_key_views_add(out@, nested@);
        }
        out.append(&mut nested);
        Some(out)
    }
}

} // verus!
