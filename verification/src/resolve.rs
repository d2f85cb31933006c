//! Ownership of items by modules, and the path under which an item is
//! visible.

use crate::ast::{clone_strings, AstItem, ItemInner};
use crate::seqs::lemma_take_contains;
use crate::tree::{Ast, AstView};
use std::collections::HashMap;
use vstd::prelude::*;

verus! {

broadcast use vstd::std_specs::hash::group_hash_axioms;

/// The direct children of a module; no other item has any.
pub open spec fn children(item: AstItem) -> Seq<u32> {
    match item.inner {
        ItemInner::Module { items } => items@,
        _ => Seq::empty(),
    }
}

/// `before`, with every one of `kids` now owned by `owner`.
pub open spec fn adopt(before: Map<u32, u32>, kids: Seq<u32>, owner: u32) -> Map<u32, u32> {
    Map::new(
        |c: u32| kids.contains(c) || before.contains_key(c),
        |c: u32|
            if kids.contains(c) {
                owner
            } else {
                before[c]
            },
    )
}

/// The owner of each child, as the first `n` items of the tree say it. An
/// item that several modules list belongs to the last of them.
pub open spec fn parents_upto(ast: AstView, n: nat) -> Map<u32, u32>
    decreases n,
{
    if n == 0 {
        Map::empty()
    } else {
        let id = ast.items.order[n - 1];
        adopt(parents_upto(ast, (n - 1) as nat), children(ast.items.entries[id]), id)
    }
}

/// The module that owns each item.
pub open spec fn parents(ast: AstView) -> Map<u32, u32> {
    parents_upto(ast, ast.items.len())
}

/// The segment that an item adds to the path of its owner: the alias of a
/// re-export, the name of any other item.
pub open spec fn own_segment(item: AstItem) -> Option<Seq<char>> {
    match item.inner {
        ItemInner::Use { name, .. } => Some(name@),
        _ => match item.name {
            Some(n) => Some(n@),
            None => None,
        },
    }
}

/// The path of `id`, found by climbing at most `depth` owners: the
/// canonical path where the tree gives one, else the path of the owner
/// with the item's own segment behind it.
pub open spec fn path_within(ast: AstView, id: u32, depth: nat) -> Option<Seq<Seq<char>>>
    decreases depth,
{
    if ast.summaries.contains(id) {
        Some(ast.summaries.entries[id].path.deep_view())
    } else if depth == 0 || !parents(ast).contains_key(id) {
        None
    } else {
        match path_within(ast, parents(ast)[id], (depth - 1) as nat) {
            None => None,
            Some(above) => if ast.items.contains(id) {
                match own_segment(ast.items.entries[id]) {
                    Some(segment) => Some(above.push(segment)),
                    None => None,
                }
            } else {
                None
            },
        }
    }
}

/// The path of `id`. A chain of owners that passes through more owners
/// than the tree has items runs in a circle, and has no path.
pub open spec fn resolve(ast: AstView, id: u32) -> Option<Seq<Seq<char>>> {
    path_within(ast, id, ast.items.len())
}

/// The owner of the owner of ... `id`, `steps` times.
pub open spec fn ancestor(ast: AstView, id: u32, steps: nat) -> u32
    decreases steps,
{
    if steps == 0 {
        id
    } else {
        parents(ast)[ancestor(ast, id, (steps - 1) as nat)]
    }
}

/// `depth` owners are enough to find the path of `id`, and fewer are not.
pub open spec fn found_at(ast: AstView, id: u32, depth: nat) -> bool {
    path_within(ast, id, depth) is Some && (depth == 0 || path_within(
        ast,
        id,
        (depth - 1) as nat,
    ) is None)
}

/// A path that is found stays the same when more owners may be climbed.
pub proof fn lemma_deeper(ast: AstView, id: u32, depth: nat, more: nat)
    requires
        path_within(ast, id, depth) is Some,
        depth <= more,
    ensures
        path_within(ast, id, more) == path_within(ast, id, depth),
    decreases depth,
{
    if !ast.summaries.contains(id) {
        lemma_deeper(ast, parents(ast)[id], (depth - 1) as nat, (more - 1) as nat);
    }
}

/// The least number of owners that finds a path which `depth` owners find.
pub proof fn lemma_least(ast: AstView, id: u32, depth: nat) -> (least: nat)
    requires
        path_within(ast, id, depth) is Some,
    ensures
        least <= depth,
        found_at(ast, id, least),
    decreases depth,
{
    if depth > 0 && path_within(ast, id, (depth - 1) as nat) is Some {
        lemma_least(ast, id, (depth - 1) as nat)
    } else {
        depth
    }
}

/// Climbing `steps` owners from an item whose path is found at `depth`
/// leads to an item whose path is found at `depth - steps`; each item
/// passed on the way is in the tree and has no canonical path.
pub proof fn lemma_climb(ast: AstView, id: u32, depth: nat, steps: nat)
    requires
        found_at(ast, id, depth),
        steps <= depth,
    ensures
        found_at(ast, ancestor(ast, id, steps), (depth - steps) as nat),
        steps < depth ==> ast.items.contains(ancestor(ast, id, steps)) && !ast.summaries.contains(
            ancestor(ast, id, steps),
        ),
    decreases steps,
{
    if steps > 0 {
        lemma_climb(ast, id, depth, (steps - 1) as nat);
    }
}

/// No path is found only after more owners than the tree has items.
pub proof fn lemma_depth_bounded(ast: AstView, id: u32, depth: nat)
    requires
        ast.wf(),
        found_at(ast, id, depth),
    ensures
        depth <= ast.items.len(),
{
    let passed = Seq::new(depth, |k: int| ancestor(ast, id, k as nat));
    assert forall|i: int, j: int| 0 <= i < depth && 0 <= j < depth && i != j implies passed[i]
        != passed[j] by {
        lemma_climb(ast, id, depth, i as nat);
        lemma_climb(ast, id, depth, j as nat);
        if passed[i] == passed[j] {
            if i < j {
                lemma_deeper(ast, passed[i], (depth - j) as nat, (depth - i - 1) as nat);
            } else {
                lemma_deeper(ast, passed[i], (depth - i) as nat, (depth - j - 1) as nat);
            }
        }
    }
    assert forall|x: u32| passed.to_set().contains(x) implies ast.items.order.to_set().contains(
        x,
    ) by {
        let k = choose|k: int| 0 <= k < depth && passed[k] == x;
        lemma_climb(ast, id, depth, k as nat);
    }
    passed.unique_seq_to_set();
    ast.items.order.unique_seq_to_set();
    vstd::set_lib::lemma_len_subset(passed.to_set(), ast.items.order.to_set());
}

/// A path that any number of owners finds is the path of the item.
pub proof fn lemma_found_is_resolved(ast: AstView, id: u32, depth: nat)
    requires
        ast.wf(),
        path_within(ast, id, depth) is Some,
    ensures
        resolve(ast, id) == path_within(ast, id, depth),
{
    let least = lemma_least(ast, id, depth);
    lemma_depth_bounded(ast, id, least);
    lemma_deeper(ast, id, least, depth);
    lemma_deeper(ast, id, least, ast.items.len());
}

/// Climbing from the owner of an item is climbing from the item, one step
/// later.
pub proof fn lemma_ancestor_of_owner(ast: AstView, id: u32, steps: nat)
    ensures
        ancestor(ast, parents(ast)[id], steps) == ancestor(ast, id, steps + 1),
    decreases steps,
{
    if steps > 0 {
        lemma_ancestor_of_owner(ast, id, (steps - 1) as nat);
    } else {
        assert(ancestor(ast, id, 0) == id);
    }
}

/// `steps` owners are enough to find the path of an item that reaches a
/// canonical path in `steps` steps.
proof fn lemma_reachable_within(ast: AstView, id: u32, steps: nat)
    requires
        ast.summaries.contains(ancestor(ast, id, steps)),
        forall|k: nat|
            k < steps ==> {
                let at = #[trigger] ancestor(ast, id, k);
                &&& parents(ast).contains_key(at)
                &&& ast.items.contains(at)
                &&& own_segment(ast.items.entries[at]) is Some
            },
    ensures
        path_within(ast, id, steps) is Some,
    decreases steps,
{
    if !ast.summaries.contains(id) {
        assert(ancestor(ast, id, 0) == id);
        let owner = parents(ast)[id];
        lemma_ancestor_of_owner(ast, id, (steps - 1) as nat);
        assert forall|k: nat| k < steps - 1 implies {
            let at = #[trigger] ancestor(ast, owner, k);
            &&& parents(ast).contains_key(at)
            &&& ast.items.contains(at)
            &&& own_segment(ast.items.entries[at]) is Some
        } by {
            lemma_ancestor_of_owner(ast, id, k);
        }
        lemma_reachable_within(ast, owner, (steps - 1) as nat);
    }
}

/// A path is not empty, unless it is a canonical path that the tree
/// holds empty.
pub proof fn lemma_path_not_empty(ast: AstView, id: u32)
    requires
        resolve(ast, id) is Some,
    ensures
        ast.summaries.contains(id) || resolve(ast, id)->0.len() > 0,
{
}

/// An item from which finitely many steps from owner to owner lead to an
/// item with a canonical path has a path, if each item passed on the way
/// is in the tree, has an owner and has a segment of its own. The path is
/// not empty, unless it is the item's own canonical path.
pub proof fn lemma_reachable_resolves(ast: AstView, id: u32, steps: nat)
    requires
        ast.wf(),
        ast.summaries.contains(ancestor(ast, id, steps)),
        forall|k: nat|
            k < steps ==> {
                let at = #[trigger] ancestor(ast, id, k);
                &&& parents(ast).contains_key(at)
                &&& ast.items.contains(at)
                &&& own_segment(ast.items.entries[at]) is Some
            },
    ensures
        resolve(ast, id) is Some,
        ast.summaries.contains(id) || resolve(ast, id)->0.len() > 0,
{
    lemma_reachable_within(ast, id, steps);
    lemma_found_is_resolved(ast, id, steps);
    lemma_path_not_empty(ast, id);
}

/// An item whose chain of owners runs into a circle before it reaches an
/// item with a canonical path has no path: after `start` steps the chain
/// is at an item to which `period` further steps lead back.
pub proof fn lemma_cycle_fails(ast: AstView, id: u32, start: nat, period: nat)
    requires
        ast.wf(),
        period > 0,
        ancestor(ast, id, start + period) == ancestor(ast, id, start),
        forall|k: nat| k < start + period ==> !ast.summaries.contains(#[trigger] ancestor(ast, id, k)),
    ensures
        resolve(ast, id) is None,
{
    if resolve(ast, id) is Some {
        let least = lemma_least(ast, id, ast.items.len());
        lemma_climb(ast, id, least, least);
        lemma_climb(ast, id, least, start);
        lemma_climb(ast, id, least, start + period);
        let at = ancestor(ast, id, start);
        lemma_deeper(ast, at, (least - start - period) as nat, (least - start - 1) as nat);
    }
}

/// An item that has a path, but no canonical one, is in the tree with a
/// segment of its own, and has an owner with a path; its path is that of
/// its owner and its own segment.
pub proof fn lemma_owner_resolves(ast: AstView, id: u32)
    requires
        ast.wf(),
        resolve(ast, id) is Some,
        !ast.summaries.contains(id),
    ensures
        parents(ast).contains_key(id),
        ast.items.contains(id),
        own_segment(ast.items.entries[id]) is Some,
        resolve(ast, parents(ast)[id]) is Some,
        resolve(ast, id) == Some(
            resolve(ast, parents(ast)[id])->0.push(own_segment(ast.items.entries[id])->0),
        ),
{
    lemma_found_is_resolved(ast, parents(ast)[id], (ast.items.len() - 1) as nat);
}

/// An item has no path if, `steps` owners up, an item has none, and no
/// item passed on the way there has a canonical path.
pub proof fn lemma_unresolved_above(ast: AstView, id: u32, steps: nat)
    requires
        ast.wf(),
        forall|k: nat| k < steps ==> !ast.summaries.contains(#[trigger] ancestor(ast, id, k)),
        resolve(ast, ancestor(ast, id, steps)) is None,
    ensures
        resolve(ast, id) is None,
    decreases steps,
{
    assert(ancestor(ast, id, 0) == id);
    if steps > 0 && resolve(ast, id) is Some {
        let owner = parents(ast)[id];
        lemma_owner_resolves(ast, id);
        lemma_ancestor_of_owner(ast, id, (steps - 1) as nat);
        assert forall|k: nat| k < steps - 1 implies !ast.summaries.contains(
            #[trigger] ancestor(ast, owner, k),
        ) by {
            lemma_ancestor_of_owner(ast, id, k);
        }
        lemma_unresolved_above(ast, owner, (steps - 1) as nat);
    }
}

/// An item has no path if no item within as many steps from owner to
/// owner as the tree has items has a canonical path.
pub proof fn lemma_too_far(ast: AstView, id: u32)
    requires
        ast.wf(),
        forall|k: nat|
            k <= ast.items.len() ==> !ast.summaries.contains(#[trigger] ancestor(ast, id, k)),
    ensures
        resolve(ast, id) is None,
{
    if resolve(ast, id) is Some {
        let least = lemma_least(ast, id, ast.items.len());
        lemma_climb(ast, id, least, least);
    }
}

/// Whether a climb from `id` from owner to owner passes `steps` items
/// of which nothing is known yet: none of them has a path among `known`
/// or a canonical path, and each has an owner.
pub open spec fn climbs(
    ast: AstView,
    known: Map<u32, Seq<Seq<char>>>,
    id: u32,
    steps: nat,
) -> bool {
    forall|k: nat|
        k < steps ==> {
            let at = #[trigger] ancestor(ast, id, k);
            &&& !known.contains_key(at)
            &&& !ast.summaries.contains(at)
            &&& parents(ast).contains_key(at)
        }
}

/// Whether all that is remembered in `before` is remembered in `after`,
/// as it was.
pub open spec fn keeps(before: Map<u32, Seq<Seq<char>>>, after: Map<u32, Seq<Seq<char>>>) -> bool {
    forall|k: u32| #[trigger]
        before.contains_key(k) ==> after.contains_key(k) && after[k] == before[k]
}

/// How a search for the path of `id` changes what is remembered, from
/// `before` to `after`, where `found` says whether there is a path.
///
/// What was remembered stays. Where the path of `id` was remembered,
/// nothing is added. Else the search climbs from owner to owner until it
/// comes to an item with a remembered or a canonical path. Where it
/// finds the path of `id`, it remembers the path of every item that it
/// passed, and of the one that it came to; where it finds none, it
/// remembers none for `id`. It remembers nothing of any other item.
pub open spec fn recalls(
    ast: AstView,
    before: Map<u32, Seq<Seq<char>>>,
    after: Map<u32, Seq<Seq<char>>>,
    id: u32,
    found: bool,
) -> bool {
    &&& keeps(before, after)
    &&& before.contains_key(id) ==> after == before
    &&& !before.contains_key(id) && !ast.summaries.contains(id) && !parents(ast).contains_key(id)
        ==> after == before
    &&& found ==> forall|s: nat|
        climbs(ast, before, id, s) ==> after.contains_key(#[trigger] ancestor(ast, id, s))
    &&& !found ==> !after.contains_key(id)
    &&& forall|k: u32| #[trigger]
        after.contains_key(k) && !before.contains_key(k) ==> exists|s: nat|
            climbs(ast, before, id, s) && #[trigger] ancestor(ast, id, s) == k
}

/// The owners of a tree's items, and the paths found so far.
pub struct Resolver {
    parents: HashMap<u32, u32>,
    cache: HashMap<u32, Vec<String>>,
}

impl Resolver {
    /// The owner that the resolver knows of each item.
    pub closed spec fn owners(&self) -> Map<u32, u32> {
        self.parents@
    }

    /// The paths that the resolver remembers, each under its item.
    pub closed spec fn remembered(&self) -> Map<u32, Seq<Seq<char>>> {
        Map::new(
            |id: u32| self.cache@.contains_key(id),
            |id: u32| self.cache@[id].deep_view(),
        )
    }

    /// The resolver is one of `ast`: it knows the owners in `ast`, and
    /// every path that it remembers is the path of its item in `ast`.
    pub open spec fn wf(&self, ast: AstView) -> bool {
        &&& self.owners() == parents(ast)
        &&& forall|id: u32| #[trigger]
            self.remembered().contains_key(id) ==> resolve(ast, id) == Some(
                self.remembered()[id],
            )
    }

    /// Walks the modules of `ast` once, and notes of each of their
    /// children who owns it.
    pub fn new(ast: &Ast) -> (r: Self)
        requires
            ast.wf(),
        ensures
            r.wf(ast@),
            r.remembered() == Map::<u32, Seq<Seq<char>>>::empty(),
    {
        let mut owners: HashMap<u32, u32> = HashMap::new();
        let n = ast.items.len();
        let mut i: usize = 0;
        while i < n
            invariant
                ast.wf(),
                n == ast@.items.len(),
                i <= n,
                owners@ == parents_upto(ast@, i as nat),
            decreases n - i,
        {
            let id = ast.items.key_at(i);
            let item = ast.items.value_at(i);
            let ghost before = owners@;
            match &item.inner {
                ItemInner::Module { items } => {
                    let mut j: usize = 0;
                    while j < items.len()
                        invariant
                            j <= items.len(),
                            owners@ == adopt(before, items@.take(j as int), id),
                        decreases items.len() - j,
                    {
                        owners.insert(items[j], id);
                        proof {
                            lemma_take_contains(items@, j as int);
                        }
                        j += 1;
                    }
                    assert(items@.take(items.len() as int) == items@);
                },
                _ => {},
            }
            i += 1;
        }
        let r = Resolver { parents: owners, cache: HashMap::new() };
        r
    }

    /// The path that is remembered of `id`, if one is.
    pub fn recall(&self, id: u32) -> (r: Option<&Vec<String>>)
        ensures
            match r {
                Some(path) => self.remembered().contains_key(id) && self.remembered()[id]
                    == path.deep_view(),
                None => !self.remembered().contains_key(id),
            },
    {
        self.cache.get(&id)
    }

    /// The path of `id`, which is remembered for the next call, as is
    /// the path of every owner passed on the way.
    pub fn resolve(&mut self, ast: &Ast, id: u32) -> (r: Option<Vec<String>>)
        requires
            ast.wf(),
            old(self).wf(ast@),
        ensures
            final(self).wf(ast@),
            match r {
                Some(path) => resolve(ast@, id) == Some(path.deep_view()),
                None => resolve(ast@, id) is None,
            },
            recalls(ast@, old(self).remembered(), final(self).remembered(), id, r is Some),
    {
        proof {
            ast.lemma_view_wf();
        }
        let ghost before = self.remembered();
        let limit = ast.items.len();
        // Climb from owner to owner until one has a path that is known.
        let mut passed: Vec<u32> = Vec::new();
        let mut at: u32 = id;
        let mut known: Option<Vec<String>> = None;
        while known.is_none()
            invariant
                ast.wf(),
                ast@.wf(),
                self.wf(ast@),
                before == old(self).remembered(),
                limit == ast@.items.len(),
                passed.len() <= limit,
                at == ancestor(ast@, id, passed.len() as nat),
                forall|k: int|
                    0 <= k < passed.len() ==> #[trigger] passed@[k] == ancestor(ast@, id, k as nat)
                        && !ast@.summaries.contains(passed@[k]) && parents(ast@).contains_key(
                        passed@[k],
                    ) && !before.contains_key(passed@[k]),
                known is None ==> self.remembered() == before,
                known matches Some(path) ==> {
                    &&& resolve(ast@, at) == Some(path.deep_view())
                    &&& before.contains_key(at) || ast@.summaries.contains(at)
                    &&& self.remembered() == if before.contains_key(at) {
                        before
                    } else {
                        before.insert(at, path.deep_view())
                    }
                },
            decreases (if known is None { 1int } else { 0int }), limit - passed.len(),
        {
            let remembered = match self.cache.get(&at) {
                Some(path) => Some(clone_strings(path)),
                None => None,
            };
            match remembered {
                Some(path) => {
                    assert(self.remembered().contains_key(at));
                    known = Some(path);
                },
                None => match ast.summaries.get(at) {
                    Some(summary) => {
                        proof {
                            lemma_found_is_resolved(ast@, at, 0);
                        }
                        let path = clone_strings(&summary.path);
                        self.cache.insert(at, clone_strings(&summary.path));
                        assert(self.remembered() =~= before.insert(at, path.deep_view()));
                        known = Some(path);
                    },
                    None => {
                        proof {
                            assert forall|k: nat| k < passed.len() implies !ast@.summaries.contains(
                                #[trigger] ancestor(ast@, id, k),
                            ) by {
                                assert(passed@[k as int] == ancestor(ast@, id, k));
                            }
                        }
                        if passed.len() == limit {
                            proof {
                                lemma_too_far(ast@, id);
                            }
                            return None;
                        }
                        match self.parents.get(&at) {
                            Some(owner) => {
                                passed.push(at);
                                at = *owner;
                            },
                            None => {
                                proof {
                                    lemma_unresolved_above(ast@, id, passed.len() as nat);
                                }
                                return None;
                            },
                        }
                    },
                },
            }
        }
        // Come back down, and give each item passed its path.
        let mut path = known.unwrap();
        let ghost top = passed.len() as nat;
        let mut k: usize = passed.len();
        proof {
            if passed.len() > 0 {
                assert(passed@[0] == ancestor(ast@, id, 0));
            }
        }
        while k > 0
            invariant
                ast.wf(),
                ast@.wf(),
                self.wf(ast@),
                before == old(self).remembered(),
                top == passed.len(),
                k <= passed.len(),
                forall|k: int|
                    0 <= k < passed.len() ==> #[trigger] passed@[k] == ancestor(ast@, id, k as nat)
                        && !ast@.summaries.contains(passed@[k]) && parents(ast@).contains_key(
                        passed@[k],
                    ) && !before.contains_key(passed@[k]),
                resolve(ast@, ancestor(ast@, id, k as nat)) == Some(path.deep_view()),
                before.contains_key(ancestor(ast@, id, top)) || ast@.summaries.contains(
                    ancestor(ast@, id, top),
                ),
                before.contains_key(id) ==> self.remembered() == before,
                forall|x: u32| #[trigger]
                    before.contains_key(x) ==> self.remembered().contains_key(x)
                        && self.remembered()[x] == before[x],
                forall|s: nat|
                    k <= s <= top ==> self.remembered().contains_key(
                        #[trigger] ancestor(ast@, id, s),
                    ),
                forall|x: u32| #[trigger]
                    self.remembered().contains_key(x) && !before.contains_key(x) ==> exists|s: nat|
                        k <= s <= top && #[trigger] ancestor(ast@, id, s) == x,
            decreases k,
        {
            k -= 1;
            let node = passed[k];
            proof {
                assert(passed@[0] == ancestor(ast@, id, 0));
                assert forall|j: nat| j < k implies !ast@.summaries.contains(
                    #[trigger] ancestor(ast@, id, j),
                ) by {
                    assert(passed@[j as int] == ancestor(ast@, id, j));
                }
                if !ast@.items.contains(node) || own_segment(ast@.items.entries[node]) is None {
                    lemma_unresolved_above(ast@, id, k as nat);
                }
                lemma_passed_climb(ast@, before, id, passed@);
            }
            let item = match ast.items.get(node) {
                Some(item) => item,
                None => {
                    return None;
                },
            };
            let segment = match &item.inner {
                ItemInner::Use { name, .. } => name.clone(),
                _ => match &item.name {
                    Some(name) => name.clone(),
                    None => {
                        return None;
                    },
                },
            };
            let ghost above = path.deep_view();
            let ghost held = self.remembered();
            path.push(segment);
            proof {
                assert(path.deep_view() =~= above.push(segment@));
                let n = ast@.items.len();
                lemma_found_is_resolved(ast@, node, n + 1);
            }
            self.cache.insert(node, clone_strings(&path));
            proof {
                assert forall|x: u32| #[trigger]
                    self.remembered().contains_key(x) && !before.contains_key(x) implies exists|
                    s: nat,
                |
                    k <= s <= top && #[trigger] ancestor(ast@, id, s) == x by {
                    if x != node {
                        assert(held.contains_key(x));
                    }
                }
            }
        }
        proof {
            lemma_passed_climb(ast@, before, id, passed@);
        }
        Some(path)
    }
}

/// Items that a climb has passed, of which each is known to have been
/// unknown, make a climb of their number, and of every smaller number.
proof fn lemma_passed_climb(
    ast: AstView,
    known: Map<u32, Seq<Seq<char>>>,
    id: u32,
    passed: Seq<u32>,
)
    requires
        forall|k: int|
            0 <= k < passed.len() ==> #[trigger] passed[k] == ancestor(ast, id, k as nat)
                && !ast.summaries.contains(passed[k]) && parents(ast).contains_key(passed[k])
                && !known.contains_key(passed[k]),
    ensures
        forall|s: nat| s <= passed.len() ==> #[trigger] climbs(ast, known, id, s),
{
    assert forall|s: nat| s <= passed.len() implies #[trigger] climbs(ast, known, id, s) by {
        assert forall|k: nat| k < s implies {
            let at = #[trigger] ancestor(ast, id, k);
            &&& !known.contains_key(at)
            &&& !ast.summaries.contains(at)
            &&& parents(ast).contains_key(at)
        } by {
            assert(passed[k as int] == ancestor(ast, id, k));
        }
    }
}

} // verus!
