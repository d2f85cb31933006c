//! What holds of the search keys of every tree.

use crate::ast::{AstItem, ItemInner, ItemKind};
use crate::item::{is_table_of, kind_of, lemma_first_paths_hold, name_or_empty, Item};
use crate::keys::{
    block_keys, block_prefix, blocks_keys, keys_of_block_for, keys_of_blocks_for,
    lemma_blocks_keys_push, lemma_keys_of_blocks_for_push, lemma_member_keys_push,
    lemma_reexport_keys_push, lemma_surface_keys_push, member_key, member_keys, nested_keys,
    reexport_key, reexport_keys, reexported, search_keys, summary_keys, surface_keys, KeyView,
};
use crate::resolve::{lemma_found_is_resolved, parents, resolve};
use crate::seqs::{lemma_add_contains, lemma_add_contains_rev};
use crate::tree::AstView;
use vstd::prelude::*;

verus! {

/// The key of each member that has one is among the keys of the members.
pub proof fn lemma_member_keys_hold(
    ast: AstView,
    members: Seq<u32>,
    prefix: Seq<Seq<char>>,
    i: int,
)
    requires
        0 <= i < members.len(),
        member_key(ast, members[i], prefix) is Some,
    ensures
        member_keys(ast, members, prefix).contains(member_key(ast, members[i], prefix)->0),
    decreases members.len(),
{
    let all = member_keys(ast, members, prefix);
    let key = member_key(ast, members[i], prefix)->0;
    let shorter = members.drop_last();
    lemma_member_keys_push(ast, shorter, members.last(), prefix);
    if i == members.len() - 1 {
        assert(all[all.len() - 1] == key);
    } else {
        lemma_member_keys_hold(ast, shorter, prefix, i);
        let part = member_keys(ast, shorter, prefix);
        let at = choose|at: int| 0 <= at < part.len() && part[at] == key;
        assert(all[at] == key);
    }
}

/// Every key of the members of a block is among the keys of the members
/// of a list of blocks that holds the block.
pub proof fn lemma_blocks_keys_hold(
    ast: AstView,
    blocks: Seq<u32>,
    base: Seq<Seq<char>>,
    i: int,
    key: KeyView,
)
    requires
        0 <= i < blocks.len(),
        block_keys(ast, blocks[i], base).contains(key),
    ensures
        blocks_keys(ast, blocks, base).contains(key),
    decreases blocks.len(),
{
    let shorter = blocks.drop_last();
    assert(blocks =~= shorter.push(blocks.last()));
    lemma_blocks_keys_push(ast, shorter, blocks.last(), base);
    if i < blocks.len() - 1 {
        lemma_blocks_keys_hold(ast, shorter, base, i, key);
    }
    lemma_add_contains(blocks_keys(ast, shorter, base), block_keys(ast, blocks.last(), base), key);
}

/// Every key that one of several canonical paths gives is among the keys
/// that they give together.
pub proof fn lemma_surface_keys_hold(ast: AstView, ids: Seq<u32>, i: int, key: KeyView)
    requires
        0 <= i < ids.len(),
        summary_keys(ast, ids[i], ast.summaries.entries[ids[i]]).contains(key),
    ensures
        surface_keys(ast, ids).contains(key),
    decreases ids.len(),
{
    let shorter = ids.drop_last();
    let id = ids.last();
    assert(ids =~= shorter.push(id));
    lemma_surface_keys_push(ast, shorter, id);
    if i < ids.len() - 1 {
        lemma_surface_keys_hold(ast, shorter, i, key);
    }
    lemma_add_contains(
        surface_keys(ast, shorter),
        summary_keys(ast, id, ast.summaries.entries[id]),
        key,
    );
}

/// The key of every re-export that has one is among the keys of the
/// re-exports.
pub proof fn lemma_reexport_keys_hold(ast: AstView, ids: Seq<u32>, i: int)
    requires
        0 <= i < ids.len(),
        reexport_key(ast, ids[i]) is Some,
    ensures
        reexport_keys(ast, ids).contains(reexport_key(ast, ids[i])->0),
    decreases ids.len(),
{
    let all = reexport_keys(ast, ids);
    let key = reexport_key(ast, ids[i])->0;
    let shorter = ids.drop_last();
    lemma_reexport_keys_push(ast, shorter, ids.last());
    if i == ids.len() - 1 {
        assert(all[all.len() - 1] == key);
    } else {
        lemma_reexport_keys_hold(ast, shorter, i);
        let part = reexport_keys(ast, shorter);
        let at = choose|at: int| 0 <= at < part.len() && part[at] == key;
        assert(all[at] == key);
    }
}

/// The members of a block that implements a trait are found under the
/// path of the trait, wherever the type is found: each of their keys is
/// the path of the trait and one segment more.
pub proof fn lemma_trait_prefix(
    ast: AstView,
    block: u32,
    base: Seq<Seq<char>>,
    other: Seq<Seq<char>>,
)
    requires
        ast.items.get(block) matches Some(item) && item.inner matches ItemInner::Impl {
            trait_: Some(_),
            ..
        },
    ensures
        block_keys(ast, block, base) == block_keys(ast, block, other),
        forall|i: int|
            0 <= i < block_keys(ast, block, base).len() ==> block_prefix(
                ast,
                ast.items.entries[block].inner->Impl_trait_,
                base,
            ) == Some((#[trigger] block_keys(ast, block, base)[i]).path.drop_last()),
{
    let item = ast.items.entries[block];
    match item.inner {
        ItemInner::Impl { trait_, items, .. } => {
            match block_prefix(ast, trait_, base) {
                Some(prefix) => {
                    lemma_member_keys_under(ast, items@, prefix);
                },
                None => {},
            }
        },
        _ => {},
    }
}

/// Every key of a member under a prefix is the prefix and one segment
/// more.
pub proof fn lemma_member_keys_under(ast: AstView, members: Seq<u32>, prefix: Seq<Seq<char>>)
    ensures
        forall|i: int|
            0 <= i < member_keys(ast, members, prefix).len() ==> (#[trigger] member_keys(
                ast,
                members,
                prefix,
            )[i]).path.drop_last() == prefix,
    decreases members.len(),
{
    if members.len() > 0 {
        lemma_member_keys_push(ast, members.drop_last(), members.last(), prefix);
        lemma_member_keys_under(ast, members.drop_last(), prefix);
    }
}

/// A key among the keys of members is the key of one of the members: it
/// names the member, under the prefix.
pub proof fn lemma_member_keys_origin(
    ast: AstView,
    members: Seq<u32>,
    prefix: Seq<Seq<char>>,
    key: KeyView,
)
    requires
        member_keys(ast, members, prefix).contains(key),
    ensures
        members.contains(key.id),
        member_key(ast, key.id, prefix) == Some(key),
        key.path.len() > 0,
        key.path.drop_last() == prefix,
    decreases members.len(),
{
    if members.len() > 0 {
        let shorter = members.drop_last();
        let last = members.last();
        lemma_member_keys_push(ast, shorter, last, prefix);
        let before = member_keys(ast, shorter, prefix);
        if before.contains(key) {
            lemma_member_keys_origin(ast, shorter, prefix, key);
        }
    }
}

/// A key among the keys of the members of blocks is among those of one
/// of the blocks.
pub proof fn lemma_blocks_keys_origin(
    ast: AstView,
    blocks: Seq<u32>,
    base: Seq<Seq<char>>,
    key: KeyView,
) -> (i: int)
    requires
        blocks_keys(ast, blocks, base).contains(key),
    ensures
        0 <= i < blocks.len(),
        block_keys(ast, blocks[i], base).contains(key),
    decreases blocks.len(),
{
    if blocks.len() == 0 {
        0
    } else {
        let shorter = blocks.drop_last();
        assert(blocks =~= shorter.push(blocks.last()));
        lemma_blocks_keys_push(ast, shorter, blocks.last(), base);
        lemma_add_contains_rev(
            blocks_keys(ast, shorter, base),
            block_keys(ast, blocks.last(), base),
            key,
        );
        if blocks_keys(ast, shorter, base).contains(key) {
            lemma_blocks_keys_origin(ast, shorter, base, key)
        } else {
            blocks.len() - 1
        }
    }
}

/// A key among the keys of the members of the blocks for a type is among
/// those of one of the blocks.
pub proof fn lemma_keys_of_blocks_for_origin(
    ast: AstView,
    ids: Seq<u32>,
    target: u32,
    base: Seq<Seq<char>>,
    key: KeyView,
) -> (i: int)
    requires
        keys_of_blocks_for(ast, ids, target, base).contains(key),
    ensures
        0 <= i < ids.len(),
        block_keys(ast, ids[i], base).contains(key),
    decreases ids.len(),
{
    if ids.len() == 0 {
        0
    } else {
        let shorter = ids.drop_last();
        assert(ids =~= shorter.push(ids.last()));
        lemma_keys_of_blocks_for_push(ast, shorter, ids.last(), target, base);
        lemma_add_contains_rev(
            keys_of_blocks_for(ast, shorter, target, base),
            keys_of_block_for(ast, ids.last(), target, base),
            key,
        );
        if keys_of_blocks_for(ast, shorter, target, base).contains(key) {
            lemma_keys_of_blocks_for_origin(ast, shorter, target, base, key)
        } else {
            ids.len() - 1
        }
    }
}

/// A key among the keys that canonical paths give is among those that
/// one of them gives.
pub proof fn lemma_surface_keys_origin(ast: AstView, ids: Seq<u32>, key: KeyView) -> (i: int)
    requires
        surface_keys(ast, ids).contains(key),
    ensures
        0 <= i < ids.len(),
        summary_keys(ast, ids[i], ast.summaries.entries[ids[i]]).contains(key),
    decreases ids.len(),
{
    if ids.len() == 0 {
        assert(ids.map_values(|id: u32| summary_keys(ast, id, ast.summaries.entries[id]))
            =~= Seq::empty());
        0
    } else {
        let shorter = ids.drop_last();
        let id = ids.last();
        assert(ids =~= shorter.push(id));
        lemma_surface_keys_push(ast, shorter, id);
        lemma_add_contains_rev(
            surface_keys(ast, shorter),
            summary_keys(ast, id, ast.summaries.entries[id]),
            key,
        );
        if surface_keys(ast, shorter).contains(key) {
            lemma_surface_keys_origin(ast, shorter, key)
        } else {
            ids.len() - 1
        }
    }
}

/// A key among the keys of re-exports is the key of one of them.
pub proof fn lemma_reexport_keys_origin(ast: AstView, ids: Seq<u32>, key: KeyView) -> (i: int)
    requires
        reexport_keys(ast, ids).contains(key),
    ensures
        0 <= i < ids.len(),
        reexport_key(ast, ids[i]) == Some(key),
    decreases ids.len(),
{
    if ids.len() == 0 {
        0
    } else {
        let shorter = ids.drop_last();
        lemma_reexport_keys_push(ast, shorter, ids.last());
        let before = reexport_keys(ast, shorter);
        if before.contains(key) {
            lemma_reexport_keys_origin(ast, shorter, key)
        } else {
            ids.len() - 1
        }
    }
}

/// Whether `item` holds `member` as one of its members: as a member of
/// an implementation block, a variant of an enum, or an item of the body
/// of a trait.
pub open spec fn holds_member(item: AstItem, member: u32) -> bool {
    match item.inner {
        ItemInner::Impl { items, .. } => items@.contains(member),
        ItemInner::Enum { variants } => variants@.contains(member),
        ItemInner::Trait { items } => items@.contains(member),
        _ => false,
    }
}

/// Whether `item` is an implementation block of a trait whose path is
/// not `base`.
pub open spec fn implements_elsewhere(ast: AstView, item: AstItem, base: Seq<Seq<char>>) -> bool {
    item.inner matches ItemInner::Impl { trait_: Some(t), .. } && resolve(ast, t) != Some(base)
}

/// A member that only implementation blocks of traits hold is not found
/// under a path that is not the path of one of the traits: if `member`
/// has no canonical path, no re-export makes it visible, and every item
/// that holds it is a block that implements a trait with another path
/// than `base`, then no search key finds `member` directly under `base`.
pub proof fn lemma_trait_members_stay_with_trait(
    ast: AstView,
    member: u32,
    base: Seq<Seq<char>>,
    key: KeyView,
)
    requires
        ast.wf(),
        !ast.summaries.contains(member),
        forall|u: u32| #[trigger]
            ast.items.contains(u) && ast.items.entries[u].inner is Use ==> reexported(
                ast.items.entries[u],
                u,
            ) != member,
        forall|holder: u32| #[trigger]
            ast.items.contains(holder) && holds_member(ast.items.entries[holder], member)
                ==> implements_elsewhere(ast, ast.items.entries[holder], base),
        search_keys(ast).contains(key),
        key.id == member,
    ensures
        !(key.path.len() > 0 && key.path.drop_last() == base),
{
    let surface = surface_keys(ast, ast.summaries.order);
    let reexports = reexport_keys(ast, ast.items.order);
    lemma_add_contains_rev(surface, reexports, key);
    if reexports.contains(key) {
        lemma_reexport_keys_origin(ast, ast.items.order, key);
    } else {
        let i = lemma_surface_keys_origin(ast, ast.summaries.order, key);
        let id = ast.summaries.order[i];
        assert(ast.summaries.order.contains(id));
        let summary = ast.summaries.entries[id];
        let at = summary.path.deep_view();
        let own = seq![KeyView { id, path: at }];
        let nested = nested_keys(ast, id, summary.kind, at);
        lemma_add_contains_rev(own, nested, key);
        if !own.contains(key) {
            assert(ast.items.contains(id));
            let item = ast.items.entries[id];
            match (summary.kind, item.inner) {
                (ItemKind::Struct, ItemInner::Struct { impls }) => {
                    let b = lemma_blocks_keys_origin(ast, impls@, at, key);
                    lemma_block_keys_origin(ast, impls@[b], at, key);
                },
                (ItemKind::Union, ItemInner::Union { impls }) => {
                    let b = lemma_blocks_keys_origin(ast, impls@, at, key);
                    lemma_block_keys_origin(ast, impls@[b], at, key);
                },
                (ItemKind::Enum, ItemInner::Enum { variants }) => {
                    let first = member_keys(ast, variants@, at);
                    let blocks = keys_of_blocks_for(ast, ast.items.order, id, at);
                    lemma_add_contains_rev(first, blocks, key);
                    if first.contains(key) {
                        lemma_member_keys_origin(ast, variants@, at, key);
                    } else {
                        let b = lemma_keys_of_blocks_for_origin(ast, ast.items.order, id, at, key);
                        lemma_block_keys_origin(ast, ast.items.order[b], at, key);
                    }
                },
                (ItemKind::Trait, ItemInner::Trait { items }) => {
                    lemma_member_keys_origin(ast, items@, at, key);
                },
                _ => {},
            }
        }
    }
}

/// Whether `item` holds a member that the tree holds under the name
/// `name`.
pub open spec fn holds_named(ast: AstView, item: AstItem, name: Seq<char>) -> bool {
    exists|member: u32|
        #![trigger holds_member(item, member)]
        holds_member(item, member) && ast.items.contains(member) && (
        ast.items.entries[member].name matches Some(held) && held@ == name)
}

/// Nothing is found directly under `base` by the name `name`, where
/// only implementation blocks of traits with other paths than `base`
/// hold a member of that name, the documented package has no canonical
/// path that is `base` and `name`, and no re-export is seen under that
/// path: in particular, what a trait's block declares is not found
/// under the path of the type that the block is for.
pub proof fn lemma_nothing_found_under(
    ast: AstView,
    base: Seq<Seq<char>>,
    name: Seq<char>,
    key: KeyView,
)
    requires
        ast.wf(),
        forall|id: u32| #[trigger]
            ast.summaries.contains(id) && ast.summaries.entries[id].crate_id == 0
                ==> ast.summaries.entries[id].path.deep_view() != base.push(name),
        forall|u: u32|
            (#[trigger] reexport_key(ast, u)) matches Some(seen) ==> seen.path != base.push(name),
        forall|holder: u32| #[trigger]
            ast.items.contains(holder) && holds_named(ast, ast.items.entries[holder], name)
                ==> implements_elsewhere(ast, ast.items.entries[holder], base),
        search_keys(ast).contains(key),
    ensures
        key.path != base.push(name),
{
    let surface = surface_keys(ast, ast.summaries.order);
    let reexports = reexport_keys(ast, ast.items.order);
    lemma_add_contains_rev(surface, reexports, key);
    if key.path == base.push(name) {
        assert(key.path.drop_last() =~= base);
        if reexports.contains(key) {
            lemma_reexport_keys_origin(ast, ast.items.order, key);
        } else {
            let i = lemma_surface_keys_origin(ast, ast.summaries.order, key);
            let id = ast.summaries.order[i];
            assert(ast.summaries.order.contains(id));
            let summary = ast.summaries.entries[id];
            let at = summary.path.deep_view();
            let own = seq![KeyView { id, path: at }];
            let nested = nested_keys(ast, id, summary.kind, at);
            lemma_add_contains_rev(own, nested, key);
            if own.contains(key) {
                assert(ast.summaries.contains(id));
            } else {
                assert(ast.items.contains(id));
                let item = ast.items.entries[id];
                match (summary.kind, item.inner) {
                    (ItemKind::Struct, ItemInner::Struct { impls }) => {
                        let b = lemma_blocks_keys_origin(ast, impls@, at, key);
                        lemma_block_keys_origin(ast, impls@[b], at, key);
                        lemma_named_member(ast, ast.items.entries[impls@[b]], key);
                    },
                    (ItemKind::Union, ItemInner::Union { impls }) => {
                        let b = lemma_blocks_keys_origin(ast, impls@, at, key);
                        lemma_block_keys_origin(ast, impls@[b], at, key);
                        lemma_named_member(ast, ast.items.entries[impls@[b]], key);
                    },
                    (ItemKind::Enum, ItemInner::Enum { variants }) => {
                        let first = member_keys(ast, variants@, at);
                        let blocks = keys_of_blocks_for(ast, ast.items.order, id, at);
                        lemma_add_contains_rev(first, blocks, key);
                        if first.contains(key) {
                            lemma_member_keys_origin(ast, variants@, at, key);
                            lemma_named_member(ast, item, key);
                        } else {
                            let b = lemma_keys_of_blocks_for_origin(
                                ast,
                                ast.items.order,
                                id,
                                at,
                                key,
                            );
                            lemma_block_keys_origin(ast, ast.items.order[b], at, key);
                            lemma_named_member(ast, ast.items.entries[ast.items.order[b]], key);
                        }
                    },
                    (ItemKind::Trait, ItemInner::Trait { items }) => {
                        lemma_member_keys_origin(ast, items@, at, key);
                        lemma_named_member(ast, item, key);
                    },
                    _ => {},
                }
            }
        }
    }
}

/// An item that holds the member that a key names, under the name that
/// the key ends with, holds a member of that name.
proof fn lemma_named_member(ast: AstView, item: AstItem, key: KeyView)
    requires
        holds_member(item, key.id),
        key.path.len() > 0,
        member_key(ast, key.id, key.path.drop_last()) == Some(key),
    ensures
        holds_named(ast, item, key.path.last()),
{
}

/// A key among the keys of the members of a block names a member of the
/// block, under the prefix of the block.
pub proof fn lemma_block_keys_origin(ast: AstView, block: u32, base: Seq<Seq<char>>, key: KeyView)
    requires
        block_keys(ast, block, base).contains(key),
    ensures
        ast.items.contains(block),
        ast.items.entries[block].inner is Impl,
        holds_member(ast.items.entries[block], key.id),
        key.path.len() > 0,
        block_prefix(ast, ast.items.entries[block].inner->Impl_trait_, base) == Some(
            key.path.drop_last(),
        ),
        member_key(ast, key.id, key.path.drop_last()) == Some(key),
{
    match ast.items.get(block) {
        Some(item) => match item.inner {
            ItemInner::Impl { trait_, items, .. } => match block_prefix(ast, trait_, base) {
                Some(prefix) => {
                    lemma_member_keys_origin(ast, items@, prefix, key);
                },
                None => {},
            },
            _ => {},
        },
        None => {},
    }
}

/// A named member of an implementation block of a struct of the
/// documented package is found under the path of the struct where the
/// block implements no trait, and under the path of the trait where it
/// implements one whose path can be found.
///
/// Here `b` is the place of the block in the struct's list, and `m` the
/// place of the member in the block's.
pub proof fn lemma_struct_members_indexed(ast: AstView, id: u32, b: int, m: int)
    requires
        ast.wf(),
        ast.summaries.contains(id),
        ast.summaries.entries[id].crate_id == 0,
        ast.summaries.entries[id].kind == ItemKind::Struct,
        ast.items.get(id) matches Some(item) && item.inner matches ItemInner::Struct { impls }
            && 0 <= b < impls@.len() && (ast.items.get(impls@[b]) matches Some(block)
            && block.inner matches ItemInner::Impl { items, .. } && 0 <= m < items@.len() && (
        ast.items.get(items@[m]) matches Some(member) && member.name is Some)),
    ensures
        ({
            let base = ast.summaries.entries[id].path.deep_view();
            let block = ast.items.entries[ast.items.entries[id].inner->Struct_impls@[b]];
            let member = block.inner->Impl_items@[m];
            let name = ast.items.entries[member].name->0@;
            match block_prefix(ast, block.inner->Impl_trait_, base) {
                Some(prefix) => search_keys(ast).contains(
                    KeyView { id: member, path: prefix.push(name) },
                ),
                None => true,
            }
        }),
{
    let summary = ast.summaries.entries[id];
    let base = summary.path.deep_view();
    let impls = ast.items.entries[id].inner->Struct_impls@;
    let block = ast.items.entries[impls[b]];
    let members = block.inner->Impl_items@;
    let name = ast.items.entries[members[m]].name->0@;
    match block_prefix(ast, block.inner->Impl_trait_, base) {
        Some(prefix) => {
            let key = KeyView { id: members[m], path: prefix.push(name) };
            lemma_member_keys_hold(ast, members, prefix, m);
            lemma_blocks_keys_hold(ast, impls, base, b, key);
            lemma_add_contains(
                seq![KeyView { id, path: base }],
                nested_keys(ast, id, summary.kind, base),
                key,
            );
            assert(ast.summaries.order.contains(id));
            let i = choose|i: int|
                0 <= i < ast.summaries.order.len() && ast.summaries.order[i] == id;
            lemma_surface_keys_hold(ast, ast.summaries.order, i, key);
            lemma_add_contains(
                surface_keys(ast, ast.summaries.order),
                reexport_keys(ast, ast.items.order),
                key,
            );
        },
        None => {},
    }
}

/// Under the path of the owner of a re-export without a canonical path,
/// where the owner has a path, and the alias that the re-export gives,
/// the item that is re-exported is found: the key names the target under
/// the name under which it is visible, not the one under which it was
/// declared.
pub proof fn lemma_reexport_indexed(ast: AstView, id: u32)
    requires
        ast.wf(),
        !ast.summaries.contains(id),
        ast.items.get(id) matches Some(item) && item.inner is Use,
        parents(ast).contains_key(id),
        resolve(ast, parents(ast)[id]) is Some,
    ensures
        search_keys(ast).contains(
            KeyView {
                id: reexported(ast.items.entries[id], id),
                path: resolve(ast, parents(ast)[id])->0.push(
                    ast.items.entries[id].inner->Use_name@,
                ),
            },
        ),
{
    let n = ast.items.len();
    let alias = ast.items.entries[id].inner->Use_name@;
    lemma_found_is_resolved(ast, id, n + 1);
    assert(ast.items.order.contains(id));
    let i = choose|i: int| 0 <= i < ast.items.order.len() && ast.items.order[i] == id;
    lemma_reexport_keys_hold(ast, ast.items.order, i);
    lemma_add_contains(
        surface_keys(ast, ast.summaries.order),
        reexport_keys(ast, ast.items.order),
        KeyView {
            id: reexported(ast.items.entries[id], id),
            path: resolve(ast, parents(ast)[id])->0.push(alias),
        },
    );
}

/// The item that a re-export without a canonical path makes visible,
/// where the owner of the re-export has a path and the tree holds the
/// item, has a record: its own, with its own name and kind.
pub proof fn lemma_reexport_record(ast: AstView, table: Map<u32, Item>, id: u32)
    requires
        ast.wf(),
        is_table_of(table, ast, search_keys(ast)),
        !ast.summaries.contains(id),
        ast.items.get(id) matches Some(item) && item.inner is Use,
        parents(ast).contains_key(id),
        resolve(ast, parents(ast)[id]) is Some,
        ast.items.contains(reexported(ast.items.entries[id], id)),
    ensures
        ({
            let found = reexported(ast.items.entries[id], id);
            &&& table.contains_key(found)
            &&& table[found].id == found
            &&& table[found].name@ == name_or_empty(ast.items.entries[found])
            &&& table[found].kind == kind_of(ast, found)
            &&& table[found].inner@ == ast.items.entries[found].inner@
        }),
{
    lemma_reexport_indexed(ast, id);
    let keys = search_keys(ast);
    let key = KeyView {
        id: reexported(ast.items.entries[id], id),
        path: resolve(ast, parents(ast)[id])->0.push(ast.items.entries[id].inner->Use_name@),
    };
    let i = choose|i: int| 0 <= i < keys.len() && keys[i] == key;
    lemma_first_paths_hold(keys, i);
}

} // verus!
