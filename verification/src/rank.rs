//! The order in which matches are shown.

use vstd::prelude::*;

verus! {

/// A key that matches a query.
#[derive(Clone, Copy, Debug, PartialEq, Eq, Structural)]
pub struct Candidate {
    /// The item that the key names.
    pub id: u32,
    /// How well the key matches; more is better.
    pub score: i64,
    /// The length of the key's text, in bytes.
    pub len: usize,
    /// Whether the key is the query, but for case.
    pub exact: bool,
}

/// Whether `a` is shown before `b` wherever they were found: it matches
/// better, or as well with the shorter text.
pub open spec fn precedes(a: Candidate, b: Candidate) -> bool {
    a.score > b.score || (a.score == b.score && a.len < b.len)
}

/// Where a new candidate goes in a ranking: before those that it
/// precedes, behind all others.
pub open spec fn place(ranking: Seq<Candidate>, c: Candidate) -> int
    decreases ranking.len(),
{
    if ranking.len() > 0 && precedes(c, ranking.last()) {
        place(ranking.drop_last(), c)
    } else {
        ranking.len() as int
    }
}

/// The ranking of candidates in the order in which they were found: each
/// in turn goes to its place among those found before it.
pub open spec fn ranked(found: Seq<Candidate>) -> Seq<Candidate>
    decreases found.len(),
{
    if found.len() == 0 {
        Seq::empty()
    } else {
        let before = ranked(found.drop_last());
        before.insert(place(before, found.last()), found.last())
    }
}

/// No candidate of the ranking is shown behind one that it precedes.
pub open spec fn in_order(ranking: Seq<Candidate>) -> bool {
    forall|i: int, j: int| 0 <= i < j < ranking.len() ==> !precedes(ranking[j], ranking[i])
}

/// The place of a new candidate is behind every candidate that it does
/// not precede and before every one that it does, if the ranking is in
/// order.
pub proof fn lemma_place(ranking: Seq<Candidate>, c: Candidate)
    ensures
        0 <= place(ranking, c) <= ranking.len(),
        forall|k: int| place(ranking, c) <= k < ranking.len() ==> precedes(c, ranking[k]),
        place(ranking, c) > 0 ==> !precedes(c, ranking[place(ranking, c) - 1]),
        in_order(ranking) ==> forall|k: int|
            0 <= k < place(ranking, c) ==> !precedes(c, ranking[k]),
    decreases ranking.len(),
{
    let at = place(ranking, c);
    if ranking.len() > 0 && precedes(c, ranking.last()) {
        let shorter = ranking.drop_last();
        lemma_place(shorter, c);
        assert forall|k: int| at <= k < ranking.len() implies precedes(c, ranking[k]) by {
            if k < shorter.len() {
                assert(ranking[k] == shorter[k]);
            }
        }
        if in_order(ranking) {
            assert forall|k: int| 0 <= k < at implies !precedes(c, ranking[k]) by {
                assert(ranking[k] == shorter[k]);
            }
        }
    } else if in_order(ranking) {
        assert forall|k: int| 0 <= k < at implies !precedes(c, ranking[k]) by {
            if k < ranking.len() - 1 {
                assert(!precedes(ranking[ranking.len() - 1], ranking[k]));
            }
        }
    }
}

/// A ranking is in order.
pub proof fn lemma_ranked_in_order(found: Seq<Candidate>)
    ensures
        in_order(ranked(found)),
        ranked(found).len() == found.len(),
    decreases found.len(),
{
    if found.len() > 0 {
        lemma_ranked_in_order(found.drop_last());
        lemma_place(ranked(found.drop_last()), found.last());
    }
}

/// Of two matches with the same score, the one with the shorter text is
/// shown first; of two with different scores, the one with the higher.
pub proof fn lemma_better_first(found: Seq<Candidate>, i: int, j: int)
    requires
        0 <= i < found.len(),
        0 <= j < found.len(),
        precedes(ranked(found)[i], ranked(found)[j]),
    ensures
        i < j,
{
    lemma_ranked_in_order(found);
}

/// A ranking holds the candidates that were found, each as often as it
/// was found.
pub proof fn lemma_ranked_permutes(found: Seq<Candidate>)
    ensures
        ranked(found).to_multiset() == found.to_multiset(),
    decreases found.len(),
{
    broadcast use vstd::seq_lib::group_to_multiset_ensures;

    if found.len() > 0 {
        let before = ranked(found.drop_last());
        let c = found.last();
        let at = place(before, c);
        lemma_ranked_permutes(found.drop_last());
        lemma_place(before, c);
        assert(found =~= found.drop_last().push(c));
        let front = before.take(at);
        let back = before.skip(at);
        vstd::seq_lib::lemma_multiset_commutative(front, back);
        vstd::seq_lib::lemma_multiset_commutative(front.push(c), back);
    }
}

/// Whether two candidates match as well, with texts of the same length.
pub open spec fn level(a: Candidate, b: Candidate) -> bool {
    a.score == b.score && a.len == b.len
}

/// Candidates that match as well, with texts of the same length, are
/// shown in the order in which they were found.
pub proof fn lemma_ranked_stable(found: Seq<Candidate>, c: Candidate)
    ensures
        ranked(found).filter(|x: Candidate| level(x, c)) == found.filter(
            |x: Candidate| level(x, c),
        ),
    decreases found.len(),
{
    let same = |x: Candidate| level(x, c);
    reveal(Seq::filter);
    if found.len() > 0 {
        let before = found.drop_last();
        let x = found.last();
        let ranking = ranked(before);
        let at = place(ranking, x);
        lemma_ranked_stable(before, c);
        lemma_place(ranking, x);
        let front = ranking.take(at);
        let back = ranking.skip(at);
        assert(ranking =~= front + back);
        assert(ranked(found) =~= (front + seq![x]) + back);
        Seq::filter_distributes_over_add(front, back, same);
        Seq::filter_distributes_over_add(front + seq![x], back, same);
        Seq::filter_distributes_over_add(front, seq![x], same);
        assert(seq![x].drop_last() =~= Seq::<Candidate>::empty());
        assert(Seq::<Candidate>::empty().filter(same) =~= Seq::<Candidate>::empty());
        if level(x, c) {
            if back.filter(same).len() > 0 {
                let kept = back.filter(same)[0];
                back.lemma_filter_pred(same, 0);
                back.lemma_filter_contains_rev(same, kept);
            }
        }
    }
}

/// A ranking holds the candidates that were found, and no others.
pub proof fn lemma_ranked_contains(found: Seq<Candidate>, c: Candidate)
    ensures
        ranked(found).contains(c) <==> found.contains(c),
{
    broadcast use vstd::seq_lib::group_to_multiset_ensures;

    lemma_ranked_permutes(found);
    assert(found.contains(c) <==> found.to_multiset().count(c) > 0);
}

/// Two rankings as one: the candidates of both, each before those that
/// it precedes, and those of `left` before those of `right` that they do
/// not precede.
pub open spec fn merged(left: Seq<Candidate>, right: Seq<Candidate>) -> Seq<Candidate>
    decreases left.len() + right.len(),
{
    if left.len() == 0 {
        right
    } else if right.len() == 0 {
        left
    } else if precedes(right[0], left[0]) {
        seq![right[0]] + merged(left, right.drop_first())
    } else {
        seq![left[0]] + merged(left.drop_first(), right)
    }
}

/// No candidate of `ranking` precedes `c`.
pub open spec fn leads(c: Candidate, ranking: Seq<Candidate>) -> bool {
    forall|k: int| 0 <= k < ranking.len() ==> !precedes(#[trigger] ranking[k], c)
}

/// A candidate that leads two rankings leads the two as one.
proof fn lemma_leads_merged(c: Candidate, left: Seq<Candidate>, right: Seq<Candidate>)
    requires
        leads(c, left),
        leads(c, right),
    ensures
        leads(c, merged(left, right)),
    decreases left.len() + right.len(),
{
    if left.len() > 0 && right.len() > 0 {
        if precedes(right[0], left[0]) {
            let rest = right.drop_first();
            lemma_leads_merged(c, left, rest);
        } else {
            let rest = left.drop_first();
            lemma_leads_merged(c, rest, right);
        }
    }
}

/// The rest of a ranking that is in order is in order, and its first
/// candidate leads it.
proof fn lemma_rest_in_order(ranking: Seq<Candidate>)
    requires
        in_order(ranking),
        ranking.len() > 0,
    ensures
        in_order(ranking.drop_first()),
        leads(ranking[0], ranking.drop_first()),
{
}

/// A ranking behind a candidate that leads it is in order, if the
/// ranking is.
proof fn lemma_led_in_order(c: Candidate, ranking: Seq<Candidate>)
    requires
        in_order(ranking),
        leads(c, ranking),
    ensures
        in_order(seq![c] + ranking),
{
}

/// Two rankings that are in order are in order as one.
pub proof fn lemma_merged_in_order(left: Seq<Candidate>, right: Seq<Candidate>)
    requires
        in_order(left),
        in_order(right),
    ensures
        in_order(merged(left, right)),
    decreases left.len() + right.len(),
{
    if left.len() > 0 && right.len() > 0 {
        lemma_rest_in_order(left);
        lemma_rest_in_order(right);
        if precedes(right[0], left[0]) {
            let rest = right.drop_first();
            lemma_merged_in_order(left, rest);
            assert forall|k: int| 0 <= k < left.len() implies !precedes(
                #[trigger] left[k],
                right[0],
            ) by {
                if k > 0 {
                    assert(!precedes(left[k], left[0]));
                }
            }
            lemma_leads_merged(right[0], left, rest);
            lemma_led_in_order(right[0], merged(left, rest));
        } else {
            let rest = left.drop_first();
            lemma_merged_in_order(rest, right);
            assert forall|k: int| 0 <= k < right.len() implies !precedes(
                #[trigger] right[k],
                left[0],
            ) by {
                if k > 0 {
                    assert(!precedes(right[k], right[0]));
                }
            }
            lemma_leads_merged(left[0], rest, right);
            lemma_led_in_order(left[0], merged(rest, right));
        }
    }
}

/// A new candidate that does not precede the first of a ranking goes to
/// its place in the rest of the ranking.
proof fn lemma_place_behind_first(ranking: Seq<Candidate>, c: Candidate)
    requires
        ranking.len() > 0,
        !precedes(c, ranking[0]),
    ensures
        place(ranking, c) == 1 + place(ranking.drop_first(), c),
        ranking.insert(place(ranking, c), c) == seq![ranking[0]] + ranking.drop_first().insert(
            place(ranking.drop_first(), c),
            c,
        ),
    decreases ranking.len(),
{
    let rest = ranking.drop_first();
    if ranking.len() > 1 && precedes(c, ranking.last()) {
        lemma_place_behind_first(ranking.drop_last(), c);
        assert(ranking.drop_last().drop_first() =~= rest.drop_last());
    }
    lemma_place(rest, c);
    assert(ranking.insert(place(ranking, c), c) =~= seq![ranking[0]] + rest.insert(
        place(rest, c),
        c,
    ));
}

/// A new candidate that precedes the first of a ranking that is in order
/// goes before all of it.
proof fn lemma_place_first(ranking: Seq<Candidate>, c: Candidate)
    requires
        in_order(ranking),
        ranking.len() > 0,
        precedes(c, ranking[0]),
    ensures
        place(ranking, c) == 0,
        ranking.insert(place(ranking, c), c) == seq![c] + ranking,
{
    lemma_place(ranking, c);
}

/// To put a new candidate in its place in two rankings as one is to put
/// it in its place in the second of them.
proof fn lemma_place_in_merged(left: Seq<Candidate>, right: Seq<Candidate>, c: Candidate)
    requires
        in_order(left),
        in_order(right),
    ensures
        merged(left, right).insert(place(merged(left, right), c), c) == merged(
            left,
            right.insert(place(right, c), c),
        ),
    decreases left.len() + right.len(),
{
    let all = merged(left, right);
    let more = right.insert(place(right, c), c);
    lemma_place(right, c);
    lemma_place(all, c);
    lemma_merged_in_order(left, right);
    if left.len() == 0 {
        // The second ranking is the whole.
    } else if right.len() == 0 {
        if precedes(c, left[0]) {
            lemma_place_first(left, c);
            assert(merged(left, more) == seq![c] + merged(left, more.drop_first()));
        } else {
            let rest = left.drop_first();
            lemma_rest_in_order(left);
            lemma_place_behind_first(left, c);
            lemma_place_in_merged(rest, right, c);
        }
    } else if precedes(right[0], left[0]) {
        let rest = right.drop_first();
        lemma_rest_in_order(right);
        if precedes(c, right[0]) {
            lemma_place_first(right, c);
            lemma_place_first(all, c);
            assert(more.drop_first() =~= right);
        } else {
            lemma_place_behind_first(right, c);
            lemma_place_behind_first(all, c);
            lemma_place_in_merged(left, rest, c);
            assert(all.drop_first() =~= merged(left, rest));
            let tail = rest.insert(place(rest, c), c);
            assert(more.drop_first() =~= tail);
        }
    } else {
        let rest = left.drop_first();
        lemma_rest_in_order(left);
        if precedes(c, left[0]) {
            lemma_place_first(right, c);
            lemma_place_first(all, c);
            assert(more.drop_first() =~= right);
        } else {
            lemma_place_behind_first(all, c);
            lemma_place_in_merged(rest, right, c);
            assert(all.drop_first() =~= merged(rest, right));
            if precedes(c, right[0]) {
                lemma_place_first(right, c);
            } else {
                lemma_place_behind_first(right, c);
            }
        }
    }
}

/// The ranking of what was found first and what was found later is the
/// ranking of the first and the ranking of the later as one.
pub proof fn lemma_ranked_merge(first: Seq<Candidate>, later: Seq<Candidate>)
    ensures
        ranked(first + later) == merged(ranked(first), ranked(later)),
    decreases later.len(),
{
    lemma_ranked_in_order(first);
    if later.len() > 0 {
        let before = later.drop_last();
        let c = later.last();
        lemma_ranked_merge(first, before);
        lemma_ranked_in_order(before);
        assert((first + later).drop_last() =~= first + before);
        lemma_place_in_merged(ranked(first), ranked(before), c);
    }
}

/// Whether `a` is shown before `b` wherever they were found.
pub fn beats(a: &Candidate, b: &Candidate) -> (r: bool)
    ensures
        r == precedes(*a, *b),
{
    a.score > b.score || (a.score == b.score && a.len < b.len)
}

/// Two rankings as one.
pub fn merge(left: &Vec<Candidate>, right: &Vec<Candidate>) -> (r: Vec<Candidate>)
    ensures
        r@ == merged(left@, right@),
{
    let mut out: Vec<Candidate> = Vec::new();
    let mut i: usize = 0;
    let mut j: usize = 0;
    assert(left@.skip(0) =~= left@ && right@.skip(0) =~= right@);
    while i < left.len() || j < right.len()
        invariant
            i <= left.len(),
            j <= right.len(),
            out@ + merged(left@.skip(i as int), right@.skip(j as int)) == merged(left@, right@),
        decreases left.len() - i + right.len() - j,
    {
        let ghost l = left@.skip(i as int);
        let ghost r = right@.skip(j as int);
        if i < left.len() && (j >= right.len() || !beats(&right[j], &left[i])) {
            out.push(left[i]);
            proof {
                assert(l.drop_first() =~= left@.skip(i + 1));
            }
            i += 1;
        } else {
            out.push(right[j]);
            proof {
                assert(r.drop_first() =~= right@.skip(j + 1));
            }
            j += 1;
        }
    }
    out
}

/// Ranks the candidates of `found` from place `from` up to place `to`.
fn rank_range(found: &Vec<Candidate>, from: usize, to: usize) -> (r: Vec<Candidate>)
    requires
        from <= to <= found.len(),
    ensures
        r@ == ranked(found@.subrange(from as int, to as int)),
    decreases to - from,
{
    let ghost part = found@.subrange(from as int, to as int);
    if to - from <= 1 {
        let mut out: Vec<Candidate> = Vec::new();
        if from < to {
            out.push(found[from]);
            proof {
                assert(ranked(part.drop_last()) =~= Seq::<Candidate>::empty());
            }
        }
        out
    } else {
        let middle = from + (to - from) / 2;
        let first = rank_range(found, from, middle);
        let later = rank_range(found, middle, to);
        proof {
            let a = found@.subrange(from as int, middle as int);
            let b = found@.subrange(middle as int, to as int);
            assert(a + b =~= part);
            lemma_ranked_merge(a, b);
        }
        merge(&first, &later)
    }
}

/// Ranks candidates that are given in the order in which they were found.
pub fn rank(found: &Vec<Candidate>) -> (r: Vec<Candidate>)
    ensures
        r@ == ranked(found@),
{
    assert(found@.subrange(0, found.len() as int) =~= found@);
    rank_range(found, 0, found.len())
}

} // verus!
