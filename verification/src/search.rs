//! Queries against an index.

use crate::doc::Doc;
use crate::index::Indexed;
use crate::item::Item;
use crate::keys::{joined, key_views, KeyView};
use crate::rank::{
    lemma_ranked_contains, lemma_ranked_in_order, precedes, rank, ranked, Candidate,
};
use vstd::prelude::*;
use vstd::string::StrSliceExecFns;

verus! {

broadcast use vstd::std_specs::hash::group_hash_axioms;

/// The longest text, in characters, that is scored.
pub const SCORE_LIMIT: usize = 0x10_0000;

/// `text` in lower case.
pub uninterp spec fn lowercased(text: Seq<char>) -> Seq<char>;

/// How well `choice` matches `pattern`: `None` where it does not match.
pub uninterp spec fn fuzzy_score(choice: Seq<char>, pattern: Seq<char>) -> Option<i64>;

/// [`str::to_lowercase`]: the lower case of a string depends on the
/// string alone.
#[verifier::external_body]
fn lowercase(text: &str) -> (r: String)
    ensures
        r@ == lowercased(text@),
{
    text.to_lowercase()
}

/// `fuzzy_match` of [`fuzzy_matcher::skim::SkimMatcherV2`], called on a
/// matcher that was just made in its default configuration. A matcher
/// keeps the cells of its score matrix from one call to the next, and a
/// new one starts from cleared cells: so the score depends on the two
/// strings alone.
///
/// The scores are sums in 32 bits, to which a character of `pattern`
/// adds at most 32 and from which a character of `choice` takes at most
/// 4. The bound on the lengths keeps them from overflowing.
#[verifier::external_body]
fn fuzzy_match(choice: &str, pattern: &str) -> (r: Option<i64>)
    requires
        choice@.len() <= SCORE_LIMIT,
        pattern@.len() <= SCORE_LIMIT,
    ensures
        r == fuzzy_score(choice@, pattern@),
{
    fuzzy_matcher::FuzzyMatcher::fuzzy_match(
        &fuzzy_matcher::skim::SkimMatcherV2::default(),
        choice,
        pattern,
    )
}

/// The length of `text` in bytes.
pub open spec fn byte_len(text: Seq<char>) -> nat {
    vstd::utf8::encode_utf8(text).len()
}

/// What a key is as a match of `query`, if it is one. Key and query are
/// compared in lower case. Text beyond [`SCORE_LIMIT`] is not scored, and
/// matches nothing.
pub open spec fn candidate(key: KeyView, query: Seq<char>) -> Option<Candidate> {
    let text = joined(key.path);
    let choice = lowercased(text);
    let pattern = lowercased(query);
    if choice.len() <= SCORE_LIMIT && pattern.len() <= SCORE_LIMIT {
        match fuzzy_score(choice, pattern) {
            Some(score) => Some(
                Candidate {
                    id: key.id,
                    score,
                    len: byte_len(text) as usize,
                    exact: choice == pattern,
                },
            ),
            None => None,
        }
    } else {
        None
    }
}

/// The matches of `query` among `keys`, in the order of `keys`.
pub open spec fn candidates(keys: Seq<KeyView>, query: Seq<char>) -> Seq<Candidate> {
    keys.filter_map(|key: KeyView| candidate(key, query))
}

/// Whether `table` holds a record of `id` that has a name.
pub open spec fn named(table: Map<u32, Item>, id: u32) -> bool {
    table.contains_key(id) && table[id].name@.len() > 0
}

/// The item of the first candidate from place `from` of a ranking on that
/// is the query but for case and has a record with a name.
pub open spec fn first_exact(table: Map<u32, Item>, ranking: Seq<Candidate>, from: int) -> Option<
    u32,
>
    decreases ranking.len() - from,
{
    if from < 0 || from >= ranking.len() {
        None
    } else if ranking[from].exact && named(table, ranking[from].id) {
        Some(ranking[from].id)
    } else {
        first_exact(table, ranking, from + 1)
    }
}

/// The item of a candidate, if it has a record with a name.
pub open spec fn named_id(table: Map<u32, Item>, c: Candidate) -> Option<u32> {
    if named(table, c.id) {
        Some(c.id)
    } else {
        None
    }
}

/// The items of those candidates of a ranking that have a record with a
/// name, in the order of the ranking.
pub open spec fn named_ids(table: Map<u32, Item>, ranking: Seq<Candidate>) -> Seq<u32> {
    ranking.filter_map(|c: Candidate| named_id(table, c))
}

/// The matches among keys and one more key.
pub proof fn lemma_candidates_push(keys: Seq<KeyView>, key: KeyView, query: Seq<char>)
    ensures
        candidates(keys.push(key), query) == match candidate(key, query) {
            Some(c) => candidates(keys, query).push(c),
            None => candidates(keys, query),
        },
{
    assert(keys.push(key).drop_last() =~= keys);
}

/// The named items of a ranking and one more candidate.
pub proof fn lemma_named_ids_push(table: Map<u32, Item>, ranking: Seq<Candidate>, c: Candidate)
    ensures
        named_ids(table, ranking.push(c)) == if named(table, c.id) {
            named_ids(table, ranking).push(c.id)
        } else {
            named_ids(table, ranking)
        },
{
    assert(ranking.push(c).drop_last() =~= ranking);
}

/// How many of `most` results a limit lets through.
pub open spec fn room(n: Option<usize>, most: nat) -> nat {
    match n {
        Some(n) => if n <= most {
            n as nat
        } else {
            most
        },
        None => most,
    }
}

/// The items that answer a query of which `found` are the matches in the
/// order in which they were found, where at most `n` are asked for.
///
/// A match that is the query but for case, of an item with a name, is the
/// whole answer, whatever `n` is; of several, it is the first in the
/// ranking. Else the answer holds the items with a name in the order of
/// the ranking, cut off behind the first `n`. There is no empty answer.
pub open spec fn selected(table: Map<u32, Item>, found: Seq<Candidate>, n: Option<usize>) -> Option<
    Seq<u32>,
> {
    let ranking = ranked(found);
    match first_exact(table, ranking, 0) {
        Some(id) => Some(seq![id]),
        None => {
            let ids = named_ids(table, ranking);
            let shown = ids.take(room(n, ids.len()) as int);
            if shown.len() == 0 {
                None
            } else {
                Some(shown)
            }
        },
    }
}

/// Whether `answer` holds the records of `ids`, in their order.
pub open spec fn is_answer(answer: Option<Vec<&Item>>, table: Map<u32, Item>, ids: Option<Seq<u32>>) -> bool {
    match (answer, ids) {
        (Some(records), Some(ids)) => {
            &&& records@.len() == ids.len()
            &&& forall|i: int|
                0 <= i < ids.len() ==> table.contains_key(#[trigger] ids[i]) && *records@[i]
                    == table[ids[i]]
        },
        (None, None) => true,
        _ => false,
    }
}

/// The named items of the first part of a ranking are the first of the
/// named items of the whole.
pub proof fn lemma_named_ids_prefix(table: Map<u32, Item>, ranking: Seq<Candidate>, n: int)
    requires
        0 <= n <= ranking.len(),
    ensures
        named_ids(table, ranking.take(n)).len() <= named_ids(table, ranking).len(),
        named_ids(table, ranking.take(n)) == named_ids(table, ranking).take(
            named_ids(table, ranking.take(n)).len() as int,
        ),
    decreases ranking.len(),
{
    if n == ranking.len() {
        assert(ranking.take(n) =~= ranking);
        assert(named_ids(table, ranking).take(named_ids(table, ranking).len() as int)
            =~= named_ids(table, ranking));
    } else {
        let shorter = ranking.drop_last();
        lemma_named_ids_push(table, shorter, ranking.last());
        lemma_named_ids_prefix(table, shorter, n);
        assert(shorter.take(n) =~= ranking.take(n));
        let part = named_ids(table, ranking.take(n));
        assert(named_ids(table, shorter).take(part.len() as int) =~= named_ids(
            table,
            ranking,
        ).take(part.len() as int));
    }
}

/// What `first_exact` finds is the item of an exact match with a named
/// record, and it finds nothing only where there is none.
pub proof fn lemma_first_exact(table: Map<u32, Item>, ranking: Seq<Candidate>, from: int)
    requires
        0 <= from,
    ensures
        match first_exact(table, ranking, from) {
            Some(id) => exists|k: int|
                from <= k < ranking.len() && (#[trigger] ranking[k]).exact && named(
                    table,
                    ranking[k].id,
                ) && ranking[k].id == id,
            None => forall|k: int|
                from <= k < ranking.len() ==> !((#[trigger] ranking[k]).exact && named(
                    table,
                    ranking[k].id,
                )),
        },
    decreases ranking.len() - from,
{
    if from < ranking.len() {
        if !(ranking[from].exact && named(table, ranking[from].id)) {
            lemma_first_exact(table, ranking, from + 1);
        }
    }
}

/// The named items of a ranking are the items of its candidates that
/// have a record with a name.
pub proof fn lemma_named_ids(table: Map<u32, Item>, ranking: Seq<Candidate>)
    ensures
        forall|k: int|
            0 <= k < ranking.len() && named(table, (#[trigger] ranking[k]).id) ==> named_ids(
                table,
                ranking,
            ).contains(ranking[k].id),
        forall|id: u32| #[trigger]
            named_ids(table, ranking).contains(id) ==> named(table, id) && exists|k: int|
                0 <= k < ranking.len() && (#[trigger] ranking[k]).id == id,
    decreases ranking.len(),
{
    if ranking.len() > 0 {
        let shorter = ranking.drop_last();
        let last = ranking.last();
        let ids = named_ids(table, ranking);
        lemma_named_ids_push(table, shorter, last);
        lemma_named_ids(table, shorter);
        assert forall|k: int| 0 <= k < ranking.len() && named(table, (#[trigger] ranking[k]).id)
            implies ids.contains(ranking[k].id) by {
            if k < shorter.len() {
                assert(shorter[k] == ranking[k]);
                let found = named_ids(table, shorter);
                let at = choose|at: int| 0 <= at < found.len() && found[at] == ranking[k].id;
                assert(ids[at] == ranking[k].id);
            } else {
                assert(ids[ids.len() - 1] == last.id);
            }
        }
        assert forall|id: u32| #[trigger] ids.contains(id) implies named(table, id) && exists|
            k: int,
        |
            0 <= k < ranking.len() && (#[trigger] ranking[k]).id == id by {
            let at = choose|at: int| 0 <= at < ids.len() && ids[at] == id;
            let found = named_ids(table, shorter);
            if at < found.len() {
                assert(found.contains(id));
            }
        }
    }
}

/// A match that is the query but for case, of an item that has a record
/// with a name, makes the answer a single item, whatever the limit is:
/// the item of such a match, and the item of this one where no other
/// item has such a match.
pub proof fn lemma_exact_match_alone(
    table: Map<u32, Item>,
    found: Seq<Candidate>,
    i: int,
    n: Option<usize>,
    m: Option<usize>,
)
    requires
        0 <= i < found.len(),
        found[i].exact,
        named(table, found[i].id),
    ensures
        selected(table, found, n) is Some,
        selected(table, found, n)->0.len() == 1,
        selected(table, found, n) == selected(table, found, m),
        exists|j: int|
            0 <= j < found.len() && (#[trigger] found[j]).exact && named(table, found[j].id)
                && selected(table, found, n)->0[0] == found[j].id,
        (forall|j: int|
            0 <= j < found.len() && (#[trigger] found[j]).exact && named(table, found[j].id)
                ==> found[j].id == found[i].id) ==> selected(table, found, n)->0[0] == found[i].id,
{
    let ranking = ranked(found);
    lemma_first_exact(table, ranking, 0);
    lemma_ranked_contains(found, found[i]);
    let id = first_exact(table, ranking, 0)->0;
    let k = choose|k: int|
        0 <= k < ranking.len() && (#[trigger] ranking[k]).exact && named(table, ranking[k].id)
            && ranking[k].id == id;
    lemma_ranked_contains(found, ranking[k]);
}

/// Where no match is the query but for case, of an item that has a
/// record with a name, a limit of nought gives no answer.
pub proof fn lemma_limit_zero(table: Map<u32, Item>, found: Seq<Candidate>)
    requires
        forall|i: int|
            0 <= i < found.len() ==> !((#[trigger] found[i]).exact && named(table, found[i].id)),
    ensures
        selected(table, found, Some(0usize)) is None,
{
    lemma_no_exact(table, found);
}

/// Where no match is the query but for case, of an item that has a
/// record with a name, and no limit is given, the answer holds the item
/// of every match that has a record with a name: nothing is cut off.
pub proof fn lemma_no_limit(table: Map<u32, Item>, found: Seq<Candidate>)
    requires
        forall|i: int|
            0 <= i < found.len() ==> !((#[trigger] found[i]).exact && named(table, found[i].id)),
    ensures
        selected(table, found, None) == if named_ids(table, ranked(found)).len() == 0 {
            None
        } else {
            Some(named_ids(table, ranked(found)))
        },
        forall|i: int|
            0 <= i < found.len() && named(table, (#[trigger] found[i]).id) ==> selected(
                table,
                found,
                None,
            ) is Some && selected(table, found, None)->0.contains(found[i].id),
{
    let ranking = ranked(found);
    let ids = named_ids(table, ranking);
    lemma_no_exact(table, found);
    lemma_named_ids(table, ranking);
    assert(ids.take(ids.len() as int) =~= ids);
    assert forall|i: int| 0 <= i < found.len() && named(table, (#[trigger] found[i]).id) implies ids.contains(
        found[i].id,
    ) by {
        lemma_ranked_contains(found, found[i]);
    }
}

proof fn lemma_no_exact(table: Map<u32, Item>, found: Seq<Candidate>)
    requires
        forall|i: int|
            0 <= i < found.len() ==> !((#[trigger] found[i]).exact && named(table, found[i].id)),
    ensures
        first_exact(table, ranked(found), 0) is None,
{
    let ranking = ranked(found);
    lemma_first_exact(table, ranking, 0);
    if first_exact(table, ranking, 0) is Some {
        let id = first_exact(table, ranking, 0)->0;
        let k = choose|k: int|
            0 <= k < ranking.len() && (#[trigger] ranking[k]).exact && named(table, ranking[k].id)
                && ranking[k].id == id;
        lemma_ranked_contains(found, ranking[k]);
    }
}

/// Every key that matches a query is among the query's matches.
pub proof fn lemma_candidates_hold(keys: Seq<KeyView>, query: Seq<char>, i: int)
    requires
        0 <= i < keys.len(),
        candidate(keys[i], query) is Some,
    ensures
        candidates(keys, query).contains(candidate(keys[i], query)->0),
    decreases keys.len(),
{
    let all = candidates(keys, query);
    let shorter = keys.drop_last();
    lemma_candidates_push(shorter, keys.last(), query);
    if i == keys.len() - 1 {
        assert(all[all.len() - 1] == candidate(keys[i], query)->0);
    } else {
        lemma_candidates_hold(shorter, query, i);
        let part = candidates(shorter, query);
        let c = candidate(keys[i], query)->0;
        let at = choose|at: int| 0 <= at < part.len() && part[at] == c;
        assert(all[at] == c);
    }
}

/// A match of a query among keys is what one of the keys is as a match.
pub proof fn lemma_candidates_origin(keys: Seq<KeyView>, query: Seq<char>, c: Candidate) -> (i: int)
    requires
        candidates(keys, query).contains(c),
    ensures
        0 <= i < keys.len(),
        candidate(keys[i], query) == Some(c),
    decreases keys.len(),
{
    if keys.len() == 0 {
        0
    } else {
        let shorter = keys.drop_last();
        lemma_candidates_push(shorter, keys.last(), query);
        let before = candidates(shorter, query);
        if before.contains(c) {
            lemma_candidates_origin(shorter, query, c)
        } else {
            keys.len() - 1
        }
    }
}

/// Where every key matches a query, the matches are the keys one by one.
pub proof fn lemma_candidates_all(keys: Seq<KeyView>, query: Seq<char>)
    requires
        forall|i: int| 0 <= i < keys.len() ==> candidate(#[trigger] keys[i], query) is Some,
    ensures
        candidates(keys, query).len() == keys.len(),
        forall|i: int|
            0 <= i < keys.len() ==> Some(#[trigger] candidates(keys, query)[i]) == candidate(
                keys[i],
                query,
            ),
    decreases keys.len(),
{
    if keys.len() > 0 {
        let shorter = keys.drop_last();
        lemma_candidates_push(shorter, keys.last(), query);
        lemma_candidates_all(shorter, query);
    }
}

/// Where every candidate of a ranking has a record with a name, the
/// named items of the ranking are the items of its candidates, one by
/// one.
pub proof fn lemma_named_ids_all(table: Map<u32, Item>, ranking: Seq<Candidate>)
    requires
        forall|k: int| 0 <= k < ranking.len() ==> named(table, (#[trigger] ranking[k]).id),
    ensures
        named_ids(table, ranking).len() == ranking.len(),
    decreases ranking.len(),
{
    if ranking.len() > 0 {
        let shorter = ranking.drop_last();
        lemma_named_ids_push(table, shorter, ranking.last());
        lemma_named_ids_all(table, shorter);
    }
}

/// Where the candidate at place `at` of a ranking has a record with a
/// name, its item stands among the named items of the ranking, at the
/// place that is the number of named items before it.
pub proof fn lemma_named_place(table: Map<u32, Item>, ranking: Seq<Candidate>, at: int) -> (place:
    int)
    requires
        0 <= at < ranking.len(),
        named(table, ranking[at].id),
    ensures
        place == named_ids(table, ranking.take(at)).len(),
        0 <= place < named_ids(table, ranking).len(),
        named_ids(table, ranking)[place] == ranking[at].id,
{
    let front = ranking.take(at);
    let place = named_ids(table, front).len() as int;
    assert(ranking.take(at + 1) =~= front.push(ranking[at]));
    lemma_named_ids_push(table, front, ranking[at]);
    lemma_named_ids_prefix(table, ranking, at + 1);
    let part = named_ids(table, ranking.take(at + 1));
    assert(named_ids(table, ranking).take(part.len() as int)[place] == ranking[at].id);
    place
}

impl Indexed {
    /// The items that answer `query`, at most `n` of them where `n` is
    /// given: the records of these are what a search returns.
    pub open spec fn answer(&self, query: Seq<char>, n: Option<usize>) -> Option<Seq<u32>> {
        selected(self.items@, candidates(key_views(self.search_index@), query), n)
    }

    /// Whether the key at place `i` is scored against `query` as a
    /// match.
    pub open spec fn matches(&self, i: int, query: Seq<char>) -> bool {
        candidate(key_views(self.search_index@)[i], query) is Some
    }

    /// Whether the key at place `i` is `query`, but for case.
    pub open spec fn is_query(&self, i: int, query: Seq<char>) -> bool {
        lowercased(joined(key_views(self.search_index@)[i].path)) == lowercased(query)
    }

    /// Whether the key at place `i` names an item that has a record with
    /// a name.
    pub open spec fn names(&self, i: int) -> bool {
        named(self.items@, key_views(self.search_index@)[i].id)
    }
}

/// A query that is, but for case, the text of a key that matches it, of
/// an item that has a record with a name, is answered with a single
/// item, whatever the limit is: that item, where no other item has a key
/// with that text.
pub proof fn lemma_exact_query(index: Indexed, query: Seq<char>, i: int, n: Option<usize>)
    requires
        0 <= i < index.search_index@.len(),
        index.matches(i, query),
        index.is_query(i, query),
        index.names(i),
    ensures
        index.answer(query, n) is Some,
        index.answer(query, n)->0.len() == 1,
        (forall|j: int|
            0 <= j < index.search_index@.len() && index.is_query(j, query) ==> key_views(
                index.search_index@,
            )[j].id == key_views(index.search_index@)[i].id) ==> index.answer(query, n) == Some(
            seq![key_views(index.search_index@)[i].id],
        ),
{
    let table = index.items@;
    let keys = key_views(index.search_index@);
    let c = candidate(keys[i], query)->0;
    let found = candidates(keys, query);
    lemma_candidates_hold(keys, query, i);
    let at = choose|at: int| 0 <= at < found.len() && found[at] == c;
    lemma_exact_match_alone(table, found, at, n, n);
    if forall|j: int| 0 <= j < keys.len() && index.is_query(j, query) ==> keys[j].id == keys[i].id {
        assert forall|j: int|
            0 <= j < found.len() && (#[trigger] found[j]).exact && named(
                table,
                found[j].id,
            ) implies found[j].id == found[at].id by {
            let k = lemma_candidates_origin(keys, query, found[j]);
            assert(index.is_query(k, query));
        }
    }
}

/// Where no key that matches a query is the query but for case, and the
/// items of two keys that match have records with names, the item of
/// the better match is answered before the other: that of the higher
/// score, and of two with the same score, that of the shorter text. The
/// two stand at places `at.0` and `at.1` of the answer without a limit,
/// and of every answer with a limit beyond `at.1`.
pub proof fn lemma_answer_in_order(index: Indexed, query: Seq<char>, i: int, j: int) -> (at: (
    int,
    int,
))
    requires
        forall|k: int|
            0 <= k < index.search_index@.len() && #[trigger] index.matches(k, query)
                ==> !index.is_query(k, query),
        0 <= i < index.search_index@.len(),
        0 <= j < index.search_index@.len(),
        index.matches(i, query),
        index.matches(j, query),
        index.names(i),
        index.names(j),
        precedes(
            candidate(key_views(index.search_index@)[i], query)->0,
            candidate(key_views(index.search_index@)[j], query)->0,
        ),
    ensures
        index.answer(query, None) is Some,
        0 <= at.0 < at.1 < index.answer(query, None)->0.len(),
        index.answer(query, None)->0[at.0] == key_views(index.search_index@)[i].id,
        index.answer(query, None)->0[at.1] == key_views(index.search_index@)[j].id,
        forall|n: usize|
            n > at.1 ==> {
                let limited = #[trigger] index.answer(query, Some(n));
                &&& limited is Some
                &&& limited->0.len() > at.1
                &&& limited->0[at.0] == key_views(index.search_index@)[i].id
                &&& limited->0[at.1] == key_views(index.search_index@)[j].id
            },
{
    let table = index.items@;
    let keys = key_views(index.search_index@);
    let found = candidates(keys, query);
    let ranking = ranked(found);
    let a = candidate(keys[i], query)->0;
    let b = candidate(keys[j], query)->0;
    assert forall|k: int| 0 <= k < found.len() implies !((#[trigger] found[k]).exact && named(
        table,
        found[k].id,
    )) by {
        let origin = lemma_candidates_origin(keys, query, found[k]);
        assert(index.matches(origin, query));
    }
    lemma_no_limit(table, found);
    lemma_candidates_hold(keys, query, i);
    lemma_candidates_hold(keys, query, j);
    lemma_ranked_contains(found, a);
    lemma_ranked_contains(found, b);
    let x = choose|x: int| 0 <= x < ranking.len() && ranking[x] == a;
    let y = choose|y: int| 0 <= y < ranking.len() && ranking[y] == b;
    lemma_ranked_in_order(found);
    let p = lemma_named_place(table, ranking, x);
    let q = lemma_named_place(table, ranking, y);
    lemma_named_ids_prefix(table, ranking.take(y), x + 1);
    assert(ranking.take(y).take(x + 1) =~= ranking.take(x + 1));
    assert(ranking.take(x + 1) =~= ranking.take(x).push(ranking[x]));
    lemma_named_ids_push(table, ranking.take(x), ranking[x]);
    (p, q)
}

/// Where every key matches a query, none is the query but for case, and
/// the item of every key has a record with a name, the answer without a
/// limit holds an item for each key: nothing is cut off, and nothing is
/// left out.
pub proof fn lemma_all_answered(index: Indexed, query: Seq<char>)
    requires
        forall|k: int|
            0 <= k < index.search_index@.len() ==> #[trigger] index.matches(k, query)
                && !index.is_query(k, query) && index.names(k),
    ensures
        index.search_index@.len() == 0 ==> index.answer(query, None) is None,
        index.search_index@.len() > 0 ==> index.answer(query, None) is Some && index.answer(
            query,
            None,
        )->0.len() == index.search_index@.len(),
{
    let table = index.items@;
    let keys = key_views(index.search_index@);
    let found = candidates(keys, query);
    let ranking = ranked(found);
    assert forall|k: int| 0 <= k < keys.len() implies candidate(#[trigger] keys[k], query)
        is Some by {
        assert(index.matches(k, query));
    }
    lemma_candidates_all(keys, query);
    assert forall|k: int| 0 <= k < found.len() implies !((#[trigger] found[k]).exact && named(
        table,
        found[k].id,
    )) by {
        assert(index.matches(k, query));
    }
    lemma_no_limit(table, found);
    lemma_ranked_in_order(found);
    assert forall|k: int| 0 <= k < ranking.len() implies named(
        table,
        (#[trigger] ranking[k]).id,
    ) by {
        lemma_ranked_contains(found, ranking[k]);
        let at = choose|at: int| 0 <= at < found.len() && found[at] == ranking[k];
        assert(index.matches(at, query));
    }
    lemma_named_ids_all(table, ranking);
}

impl Doc<Indexed> {
    /// Picks the answer to a query from its matches, which are given in
    /// the order in which they were found.
    pub fn select<'a>(&'a self, found: &Vec<Candidate>, n: Option<usize>) -> (r: Option<
        Vec<&'a Item>,
    >)
        ensures
            is_answer(r, self.0.items@, selected(self.0.items@, found@, n)),
    {
        let table = &self.0.items;
        let ranking = rank(found);
        let mut i: usize = 0;
        while i < ranking.len()
            invariant
                table == &self.0.items,
                ranking@ == ranked(found@),
                i <= ranking.len(),
                first_exact(table@, ranking@, 0) == first_exact(table@, ranking@, i as int),
            decreases ranking.len() - i,
        {
            if ranking[i].exact {
                match table.get(&ranking[i].id) {
                    Some(record) => {
                        if !record.name.as_str().is_empty() {
                            let mut only: Vec<&Item> = Vec::new();
                            only.push(record);
                            return Some(only);
                        }
                    },
                    None => {},
                }
            }
            i += 1;
        }
        let ghost all = named_ids(table@, ranking@);
        let mut shown: Vec<&Item> = Vec::new();
        let ghost mut ids: Seq<u32> = Seq::empty();
        let mut i: usize = 0;
        let limit: usize = match n {
            Some(n) => n,
            None => ranking.len(),
        };
        while i < ranking.len() && shown.len() < limit
            invariant
                table == &self.0.items,
                i <= ranking.len(),
                all == named_ids(table@, ranking@),
                ids == named_ids(table@, ranking@.take(i as int)),
                shown@.len() == ids.len(),
                shown@.len() <= limit,
                shown@.len() <= i,
                forall|k: int|
                    0 <= k < ids.len() ==> table@.contains_key(#[trigger] ids[k]) && *shown@[k]
                        == table@[ids[k]],
            decreases ranking.len() - i,
        {
            proof {
                assert(ranking@.take(i + 1) =~= ranking@.take(i as int).push(ranking@[i as int]));
                lemma_named_ids_push(table@, ranking@.take(i as int), ranking@[i as int]);
            }
            match table.get(&ranking[i].id) {
                Some(record) => {
                    if !record.name.as_str().is_empty() {
                        shown.push(record);
                        proof {
                            ids = ids.push(ranking@[i as int].id);
                        }
                    }
                },
                None => {},
            }
            i += 1;
        }
        proof {
            lemma_named_ids_prefix(table@, ranking@, i as int);
            if i == ranking.len() {
                assert(ranking@.take(i as int) =~= ranking@);
            }
        }
        if shown.len() == 0 {
            None
        } else {
            Some(shown)
        }
    }

    /// Answers a query: the records of the items whose keys match it,
    /// best match first, at most `n` of them where `n` is given.
    pub fn search<'a>(&'a self, query: &str, n: Option<usize>) -> (r: Option<Vec<&'a Item>>)
        ensures
            is_answer(r, self.0.items@, self.0.answer(query@, n)),
    {
        let index = &self.0.search_index;
        let lower_query = lowercase(query);
        let query_fits = lower_query.as_str().unicode_len() <= SCORE_LIMIT;
        let ghost keys = key_views(index@);
        let mut found: Vec<Candidate> = Vec::new();
        let mut i: usize = 0;
        while i < index.len()
            invariant
                index == &self.0.search_index,
                keys == key_views(index@),
                lower_query@ == lowercased(query@),
                query_fits == (lower_query@.len() <= SCORE_LIMIT),
                i <= index.len(),
                found@ == candidates(keys.take(i as int), query@),
            decreases index.len() - i,
        {
            let key = &index[i];
            let text = key.text();
            let lower_key = lowercase(text.as_str());
            proof {
                assert(keys.take(i + 1) =~= keys.take(i as int).push(key@));
                lemma_candidates_push(keys.take(i as int), key@, query@);
            }
            if query_fits && lower_key.as_str().unicode_len() <= SCORE_LIMIT {
                match fuzzy_match(lower_key.as_str(), lower_query.as_str()) {
                    Some(score) => {
                        found.push(
                            Candidate {
                                id: key.id(),
                                score,
                                len: text.as_str().len(),
                                exact: lower_key == lower_query,
                            },
                        );
                    },
                    None => {},
                }
            }
            i += 1;
        }
        assert(keys.take(index.len() as int) =~= keys);
        self.select(&found, n)
    }
}

} // verus!
