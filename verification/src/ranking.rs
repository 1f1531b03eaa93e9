//! Deterministic ranking: ordering score entries by descending points with
//! an ascending-identifier tie-break, so that recomputing standings from
//! unchanged inputs reproduces them exactly.

use vstd::prelude::*;

use crate::aggregate::contains_id;
use crate::aggregate::distinct_ids;
use crate::aggregate::ScoreEntry;

verus! {

/// The ranking order: more points first, then the smaller identifier first.
pub open spec fn precedes(a: ScoreEntry, b: ScoreEntry) -> bool {
    a.points > b.points || (a.points == b.points && a.id < b.id)
}

/// Non-strict ranking order.
pub open spec fn entry_le(a: ScoreEntry, b: ScoreEntry) -> bool {
    precedes(a, b) || a == b
}

/// Whether a sequence stands in ranking order.
pub open spec fn ranked(s: Seq<ScoreEntry>) -> bool {
    forall|i: int, j: int| 0 <= i < j < s.len() ==> entry_le(s[i], s[j])
}

/// The position a new entry takes in a ranked sequence: directly before
/// the first entry it precedes.
pub open spec fn insert_pos(x: ScoreEntry, s: Seq<ScoreEntry>) -> int
    decreases s.len(),
{
    if s.len() == 0 {
        0
    } else if precedes(x, s[0]) {
        0
    } else {
        1 + insert_pos(x, s.skip(1))
    }
}

/// `insert_pos` lies within the sequence and is the first position whose
/// entry the new one precedes.
pub proof fn lemma_insert_pos(x: ScoreEntry, s: Seq<ScoreEntry>)
    ensures
        0 <= insert_pos(x, s) <= s.len(),
        forall|k: int| 0 <= k < insert_pos(x, s) ==> !precedes(x, s[k]),
        insert_pos(x, s) < s.len() ==> precedes(x, s[insert_pos(x, s)]),
    decreases s.len(),
{
    if s.len() > 0 && !precedes(x, s[0]) {
        lemma_insert_pos(x, s.skip(1));
        assert(forall|k: int| 1 <= k < s.len() ==> s[k] == s.skip(1)[k - 1]);
    }
}

/// Any position with the first-preceded property is `insert_pos`.
pub proof fn lemma_insert_pos_unique(x: ScoreEntry, s: Seq<ScoreEntry>, p: int)
    requires
        0 <= p <= s.len(),
        forall|k: int| 0 <= k < p ==> !precedes(x, s[k]),
        p < s.len() ==> precedes(x, s[p]),
    ensures
        insert_pos(x, s) == p,
{
    lemma_insert_pos(x, s);
}

/// A new entry slotted into a ranked sequence at its position.
pub open spec fn spec_insert_ranked(x: ScoreEntry, s: Seq<ScoreEntry>) -> Seq<ScoreEntry> {
    s.insert(insert_pos(x, s), x)
}

/// Slotting an entry in keeps the count, the entries, the order, and the
/// distinctness of identifiers.
pub proof fn lemma_insert_ranked_props(x: ScoreEntry, s: Seq<ScoreEntry>)
    ensures
        spec_insert_ranked(x, s).len() == s.len() + 1,
        forall|e: ScoreEntry| spec_insert_ranked(x, s).contains(e) <==> (e == x || s.contains(e)),
        forall|id: i32|
            contains_id(spec_insert_ranked(x, s), id) <==> (id == x.id || contains_id(s, id)),
        ranked(s) ==> ranked(spec_insert_ranked(x, s)),
        distinct_ids(s) && !contains_id(s, x.id) ==> distinct_ids(spec_insert_ranked(x, s)),
{
    let p = insert_pos(x, s);
    let t = spec_insert_ranked(x, s);
    lemma_insert_pos(x, s);
    s.insert_ensures(p, x);
    assert forall|e: ScoreEntry| t.contains(e) <==> (e == x || s.contains(e)) by {
        if t.contains(e) {
            let k = choose|k: int| 0 <= k < t.len() && t[k] == e;
            if k < p {
                assert(s[k] == e);
                assert(s.contains(e));
            } else if k == p {
                assert(e == x);
            } else {
                assert(s[k - 1] == e);
                assert(s.contains(e));
            }
        }
        if e == x {
            assert(t[p] == e);
            assert(t.contains(e));
        }
        if s.contains(e) {
            let k = choose|k: int| 0 <= k < s.len() && s[k] == e;
            if k < p {
                assert(t[k] == e);
            } else {
                assert(t[k + 1] == e);
            }
            assert(t.contains(e));
        }
    }
    assert forall|id: i32| contains_id(t, id) <==> (id == x.id || contains_id(s, id)) by {
        if contains_id(t, id) {
            let k = choose|k: int| 0 <= k < t.len() && t[k].id == id;
            if k < p {
                assert(s[k].id == id);
            } else if k > p {
                assert(s[k - 1].id == id);
            }
        }
        if id == x.id {
            assert(t[p].id == id);
        }
        if contains_id(s, id) {
            let k = choose|k: int| 0 <= k < s.len() && s[k].id == id;
            if k < p {
                assert(t[k].id == id);
            } else {
                assert(t[k + 1].id == id);
            }
        }
    }
    if ranked(s) {
        assert forall|i: int, j: int| 0 <= i < j < t.len() implies entry_le(t[i], t[j]) by {
            if j < p {
                assert(t[i] == s[i] && t[j] == s[j]);
            } else if i < p && j == p {
                assert(t[i] == s[i] && t[j] == x);
                assert(!precedes(x, s[i]));
            } else if i < p && j > p {
                assert(t[i] == s[i] && t[j] == s[j - 1]);
            } else if i == p {
                assert(t[i] == x && t[j] == s[j - 1]);
                assert(precedes(x, s[p]));
                if j - 1 > p {
                    assert(entry_le(s[p], s[j - 1]));
                }
            } else {
                assert(t[i] == s[i - 1] && t[j] == s[j - 1]);
            }
        }
    }
    if distinct_ids(s) && !contains_id(s, x.id) {
        assert(forall|k: int| 0 <= k < s.len() ==> s[k].id != x.id);
        assert forall|i: int, j: int| 0 <= i < j < t.len() implies t[i].id != t[j].id by {
            if j < p {
            } else if i < p && j == p {
                assert(t[i] == s[i] && t[j] == x);
            } else if i < p && j > p {
                assert(t[i] == s[i] && t[j] == s[j - 1]);
            } else if i == p {
                assert(t[i] == x && t[j] == s[j - 1]);
            } else {
                assert(t[i] == s[i - 1] && t[j] == s[j - 1]);
            }
        }
    }
}

/// The entries in ranking order, inserting one after the other from the
/// front.
pub open spec fn spec_rank_sort(s: Seq<ScoreEntry>) -> Seq<ScoreEntry>
    decreases s.len(),
{
    if s.len() == 0 {
        Seq::empty()
    } else {
        spec_insert_ranked(s.last(), spec_rank_sort(s.drop_last()))
    }
}

/// Sorting keeps the count, the entries and the distinctness of
/// identifiers, and its result stands in ranking order.
pub proof fn lemma_rank_sort_props(s: Seq<ScoreEntry>)
    ensures
        spec_rank_sort(s).len() == s.len(),
        ranked(spec_rank_sort(s)),
        forall|e: ScoreEntry| spec_rank_sort(s).contains(e) <==> s.contains(e),
        forall|id: i32| contains_id(spec_rank_sort(s), id) <==> contains_id(s, id),
        distinct_ids(s) ==> distinct_ids(spec_rank_sort(s)),
    decreases s.len(),
{
    if s.len() > 0 {
        let rest = s.drop_last();
        let sorted_rest = spec_rank_sort(rest);
        lemma_rank_sort_props(rest);
        lemma_insert_ranked_props(s.last(), sorted_rest);
        assert(forall|k: int| 0 <= k < s.len() - 1 ==> rest[k] == s[k]);
        assert forall|e: ScoreEntry| s.contains(e) <==> (rest.contains(e) || e == s.last()) by {
            if s.contains(e) {
                let k = choose|k: int| 0 <= k < s.len() && s[k] == e;
                if k < s.len() - 1 {
                    assert(rest[k] == e);
                    assert(rest.contains(e));
                }
            }
            if rest.contains(e) {
                let k = choose|k: int| 0 <= k < rest.len() && rest[k] == e;
                assert(s[k] == e);
                assert(s.contains(e));
            }
            if e == s.last() {
                assert(s[s.len() - 1] == e);
                assert(s.contains(e));
            }
        }
        assert forall|id: i32|
            contains_id(s, id) <==> (contains_id(rest, id) || id == s.last().id) by {
            if contains_id(s, id) {
                let k = choose|k: int| 0 <= k < s.len() && s[k].id == id;
                if k < s.len() - 1 {
                    assert(rest[k].id == id);
                }
            }
            if contains_id(rest, id) {
                let k = choose|k: int| 0 <= k < rest.len() && rest[k].id == id;
                assert(s[k].id == id);
            }
            if id == s.last().id {
                assert(s[s.len() - 1].id == id);
            }
        }
        if distinct_ids(s) {
            assert(distinct_ids(rest));
            assert(!contains_id(rest, s.last().id)) by {
                if contains_id(rest, s.last().id) {
                    let k = choose|k: int| 0 <= k < rest.len() && rest[k].id == s.last().id;
                    assert(s[k].id == s[s.len() - 1].id);
                }
            }
        }
    }
}

/// Finds the position an entry takes in a ranked vector.
fn ranked_pos(v: &Vec<ScoreEntry>, x: ScoreEntry) -> (p: usize)
    ensures
        p as int == insert_pos(x, v@),
        p <= v@.len(),
{
    let mut k: usize = 0;
    while k < v.len()
        invariant
            k <= v@.len(),
            forall|m: int| 0 <= m < k ==> !precedes(x, v@[m]),
        decreases v@.len() - k,
    {
        let e: ScoreEntry = v[k];
        if x.points > e.points || (x.points == e.points && x.id < e.id) {
            proof {
                lemma_insert_pos_unique(x, v@, k as int);
            }
            return k;
        }
        k = k + 1;
    }
    proof {
        lemma_insert_pos_unique(x, v@, v@.len() as int);
    }
    k
}

/// Slots a new entry into a ranked vector at its position.
fn insert_ranked(v: &mut Vec<ScoreEntry>, x: ScoreEntry)
    ensures
        final(v)@ == spec_insert_ranked(x, old(v)@),
{
    let p = ranked_pos(v, x);
    v.insert(p, x);
}

/// Sorts score entries into ranking order.
pub fn rank_sort(entries: &Vec<ScoreEntry>) -> (sorted: Vec<ScoreEntry>)
    ensures
        sorted@ == spec_rank_sort(entries@),
{
    let mut sorted: Vec<ScoreEntry> = Vec::new();
    let mut i: usize = 0;
    while i < entries.len()
        invariant
            i <= entries@.len(),
            sorted@ == spec_rank_sort(entries@.take(i as int)),
        decreases entries@.len() - i,
    {
        proof {
            assert(entries@.take(i as int + 1).drop_last() =~= entries@.take(i as int));
            assert(entries@.take(i as int + 1).last() == entries@[i as int]);
        }
        insert_ranked(&mut sorted, entries[i]);
        i = i + 1;
    }
    proof {
        assert(entries@.take(entries@.len() as int) =~= entries@);
    }
    sorted
}

} // verus!
