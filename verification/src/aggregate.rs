//! Points aggregation: folding `(identifier, points)` items into per-key
//! totals, and picking the best-scoring entry for team attribution.
//!
//! The same fold serves drivers, teams, and a single driver's per-team
//! contributions; the engine maps its joined rows to plain items first.

use vstd::prelude::*;

verus! {

/// A race-result row after the joins the engine performs: the driver and
/// team the result is credited to, and the points its rule awards.
#[derive(Debug, Clone, Copy, PartialEq, Eq, Structural)]
pub struct ScoredRow {
    pub driver_id: i32,
    pub team_id: i32,
    pub points: i32,
}

/// A summed points total keyed by a driver or team identifier.
#[derive(Debug, Clone, Copy, PartialEq, Eq, Structural)]
pub struct ScoreEntry {
    pub id: i32,
    pub points: i64,
}

/// Whether some entry carries the given identifier.
pub open spec fn contains_id(s: Seq<ScoreEntry>, id: i32) -> bool {
    exists|k: int| 0 <= k < s.len() && s[k].id == id
}

/// Whether some item carries the given identifier.
pub open spec fn items_have_id(items: Seq<(i32, i32)>, id: i32) -> bool {
    exists|k: int| 0 <= k < items.len() && items[k].0 == id
}

/// Whether no two entries carry the same identifier.
pub open spec fn distinct_ids(s: Seq<ScoreEntry>) -> bool {
    forall|i: int, j: int| 0 <= i < j < s.len() ==> s[i].id != s[j].id
}

/// The index of the first entry carrying the given identifier, if any.
pub open spec fn spec_index_of_id(s: Seq<ScoreEntry>, id: i32) -> Option<int>
    decreases s.len(),
{
    if s.len() == 0 {
        None
    } else if s[0].id == id {
        Some(0)
    } else {
        match spec_index_of_id(s.skip(1), id) {
            Some(j) => Some(j + 1),
            None => None,
        }
    }
}

/// `spec_index_of_id` finds exactly the first matching index.
pub proof fn lemma_index_of_id(s: Seq<ScoreEntry>, id: i32)
    ensures
        match spec_index_of_id(s, id) {
            Some(j) => 0 <= j < s.len() && s[j].id == id && (forall|k: int|
                0 <= k < j ==> s[k].id != id),
            None => forall|k: int| 0 <= k < s.len() ==> s[k].id != id,
        },
        spec_index_of_id(s, id) is Some <==> contains_id(s, id),
    decreases s.len(),
{
    if s.len() > 0 && s[0].id != id {
        lemma_index_of_id(s.skip(1), id);
        assert(forall|k: int| 1 <= k < s.len() ==> s[k] == s.skip(1)[k - 1]);
    }
}

/// Signed 64-bit addition as the fold applies it. The aggregation lemma
/// shows that for the lengths the engine admits the sum never leaves the
/// 64-bit range, so this is plain addition there.
pub open spec fn add64(a: i64, b: i64) -> i64 {
    (a + b) as i64
}

/// The summed points of all items carrying a given identifier.
pub open spec fn spec_points_sum(items: Seq<(i32, i32)>, id: i32) -> int
    decreases items.len(),
{
    if items.len() == 0 {
        0
    } else {
        spec_points_sum(items.drop_last(), id) + if items.last().0 == id {
            items.last().1 as int
        } else {
            0
        }
    }
}

/// Items that never carry an identifier contribute no points to it.
pub proof fn lemma_points_sum_absent(items: Seq<(i32, i32)>, id: i32)
    requires
        forall|k: int| 0 <= k < items.len() ==> items[k].0 != id,
    ensures
        spec_points_sum(items, id) == 0,
    decreases items.len(),
{
    if items.len() > 0 {
        assert(forall|k: int| 0 <= k < items.len() - 1 ==> items.drop_last()[k] == items[k]);
        lemma_points_sum_absent(items.drop_last(), id);
    }
}

/// A per-key sum is bounded by the number of items times the largest
/// magnitude a 32-bit points value can have.
pub proof fn lemma_points_sum_bound(items: Seq<(i32, i32)>, id: i32)
    ensures
        -(items.len() as int) * 0x8000_0000 <= spec_points_sum(items, id) <= (items.len() as int)
            * 0x8000_0000,
    decreases items.len(),
{
    if items.len() > 0 {
        lemma_points_sum_bound(items.drop_last(), id);
    }
}

/// Per-key totals folded over the items in order: the first item for a key
/// opens its entry, later items for the key add to that entry in place.
pub open spec fn spec_accumulate(items: Seq<(i32, i32)>) -> Seq<ScoreEntry>
    decreases items.len(),
{
    if items.len() == 0 {
        Seq::empty()
    } else {
        let prev = spec_accumulate(items.drop_last());
        let last = items.last();
        match spec_index_of_id(prev, last.0) {
            Some(j) => prev.update(j, ScoreEntry { id: last.0, points: add64(prev[j].points, last.1 as i64) }),
            None => prev.push(ScoreEntry { id: last.0, points: last.1 as i64 }),
        }
    }
}

/// What the fold produces: one entry per identifier that occurs among the
/// items, carrying exactly that identifier's summed points.
pub proof fn lemma_accumulate_props(items: Seq<(i32, i32)>)
    requires
        items.len() <= 0x7fff_ffff,
    ensures
        spec_accumulate(items).len() <= items.len(),
        distinct_ids(spec_accumulate(items)),
        forall|id: i32|
            contains_id(spec_accumulate(items), id) <==> items_have_id(items, id),
        forall|j: int|
            0 <= j < spec_accumulate(items).len() ==> (#[trigger] spec_accumulate(items)[j]).points
                == spec_points_sum(items, spec_accumulate(items)[j].id),
    decreases items.len(),
{
    if items.len() > 0 {
        let prev_items = items.drop_last();
        let prev = spec_accumulate(prev_items);
        let last = items.last();
        let t = spec_accumulate(items);
        lemma_accumulate_props(prev_items);
        lemma_index_of_id(prev, last.0);
        assert(forall|k: int| 0 <= k < items.len() - 1 ==> prev_items[k] == items[k]);
        assert forall|id: i32|
            items_have_id(items, id) <==> (items_have_id(prev_items, id) || last.0 == id) by {
            if items_have_id(items, id) {
                let k = choose|k: int| 0 <= k < items.len() && items[k].0 == id;
                if k < items.len() - 1 {
                    assert(prev_items[k].0 == id);
                    assert(items_have_id(prev_items, id));
                } else {
                    assert(last.0 == id);
                }
            }
            if items_have_id(prev_items, id) {
                let k = choose|k: int| 0 <= k < prev_items.len() && prev_items[k].0 == id;
                assert(items[k].0 == id);
                assert(items_have_id(items, id));
            }
            if last.0 == id {
                assert(items[items.len() - 1].0 == id);
                assert(items_have_id(items, id));
            }
        }
        match spec_index_of_id(prev, last.0) {
            Some(j) => {
                lemma_points_sum_bound(prev_items, last.0);
                assert(prev[j].points == spec_points_sum(prev_items, last.0));
                assert(t[j].points == spec_points_sum(items, last.0));
                assert(forall|m: int|
                    0 <= m < t.len() && m != j ==> t[m] == prev[m] && t[m].id != last.0);
                assert(forall|m: int|
                    0 <= m < t.len() && m != j ==> spec_points_sum(items, t[m].id)
                        == spec_points_sum(prev_items, t[m].id));
                assert(forall|id: i32| contains_id(t, id) <==> contains_id(prev, id)) by {
                    assert(forall|id: i32| contains_id(prev, id) ==> contains_id(t, id)) by {
                        assert(forall|k: int|
                            0 <= k < prev.len() && k != j ==> t[k].id == prev[k].id);
                        assert(t[j].id == prev[j].id);
                    }
                }
            },
            None => {
                assert(!contains_id(prev, last.0));
                assert(!items_have_id(prev_items, last.0));
                assert(forall|k: int| 0 <= k < prev_items.len() ==> prev_items[k].0 != last.0);
                lemma_points_sum_absent(prev_items, last.0);
                assert(forall|m: int| 0 <= m < t.len() - 1 ==> t[m] == prev[m]);
                assert(t.last().points == spec_points_sum(items, last.0));
                assert(forall|m: int|
                    0 <= m < t.len() - 1 ==> spec_points_sum(items, t[m].id)
                        == spec_points_sum(prev_items, t[m].id));
            },
        }
    }
}

/// Returns the index of the first entry with the given identifier.
pub fn index_of_id(entries: &Vec<ScoreEntry>, id: i32) -> (r: Option<usize>)
    ensures
        r matches Some(j) ==> spec_index_of_id(entries@, id) == Some(j as int),
        r is None ==> spec_index_of_id(entries@, id) is None,
{
    let mut k: usize = 0;
    while k < entries.len()
        invariant
            k <= entries@.len(),
            forall|m: int| 0 <= m < k ==> entries@[m].id != id,
        decreases entries@.len() - k,
    {
        if entries[k].id == id {
            proof {
                lemma_index_of_id(entries@, id);
            }
            return Some(k);
        }
        k = k + 1;
    }
    proof {
        lemma_index_of_id(entries@, id);
    }
    None
}

/// Folds `(identifier, points)` items into per-identifier totals.
pub fn accumulate(items: &Vec<(i32, i32)>) -> (totals: Vec<ScoreEntry>)
    requires
        items@.len() <= 0x7fff_ffff,
    ensures
        totals@ == spec_accumulate(items@),
{
    let mut totals: Vec<ScoreEntry> = Vec::new();
    let mut i: usize = 0;
    while i < items.len()
        invariant
            i <= items@.len(),
            items@.len() <= 0x7fff_ffff,
            totals@ == spec_accumulate(items@.take(i as int)),
        decreases items@.len() - i,
    {
        proof {
            assert(items@.take(i as int + 1).drop_last() =~= items@.take(i as int));
            assert(items@.take(i as int + 1).last() == items@[i as int]);
            lemma_accumulate_props(items@.take(i as int));
        }
        let (id, pts): (i32, i32) = items[i];
        match index_of_id(&totals, id) {
            Some(j) => {
                proof {
                    lemma_index_of_id(totals@, id);
                    lemma_points_sum_bound(items@.take(i as int), id);
                    assert(totals@[j as int].id == id);
                    assert(totals@[j as int].points == spec_points_sum(
                        items@.take(i as int),
                        id,
                    ));
                }
                let cur: ScoreEntry = totals[j];
                totals[j] = ScoreEntry { id, points: cur.points + pts as i64 };
            },
            None => {
                totals.push(ScoreEntry { id, points: pts as i64 });
            },
        }
        i = i + 1;
    }
    proof {
        assert(items@.take(items@.len() as int) =~= items@);
    }
    totals
}

/// Whether candidate `a` displaces incumbent `b` in the attribution scan:
/// strictly more points, or equal points and a greater identifier.
pub open spec fn beats(a: ScoreEntry, b: ScoreEntry) -> bool {
    a.points > b.points || (a.points == b.points && a.id > b.id)
}

/// The entry a scan keeps when it prefers more points, then greater
/// identifiers: `None` exactly on an empty sequence.
pub open spec fn spec_best_entry(entries: Seq<ScoreEntry>) -> Option<ScoreEntry>
    decreases entries.len(),
{
    if entries.len() == 0 {
        None
    } else {
        match spec_best_entry(entries.drop_last()) {
            None => Some(entries.last()),
            Some(b) => if beats(entries.last(), b) {
                Some(entries.last())
            } else {
                Some(b)
            },
        }
    }
}

/// The scan keeps an entry exactly when there is one, and what it keeps
/// is one of the entries.
pub proof fn lemma_best_entry_member(entries: Seq<ScoreEntry>)
    ensures
        spec_best_entry(entries) is Some <==> entries.len() > 0,
        spec_best_entry(entries) matches Some(b) ==> entries.contains(b),
    decreases entries.len(),
{
    if entries.len() > 0 {
        lemma_best_entry_member(entries.drop_last());
        assert(entries[entries.len() - 1] == entries.last());
        assert(entries.contains(entries.last()));
        if entries.len() > 1 {
            assert(forall|k: int|
                0 <= k < entries.len() - 1 ==> entries.drop_last()[k] == entries[k]);
            if spec_best_entry(entries.drop_last()) is Some {
                let b = spec_best_entry(entries.drop_last()).unwrap();
                if entries.drop_last().contains(b) {
                    let k = choose|k: int|
                        0 <= k < entries.drop_last().len() && entries.drop_last()[k] == b;
                    assert(entries[k] == b);
                    assert(entries.contains(b));
                }
            }
        }
    }
}

/// Picks the entry with the most points, ties going to the greater
/// identifier.
pub fn best_entry(entries: &Vec<ScoreEntry>) -> (r: Option<ScoreEntry>)
    ensures
        r == spec_best_entry(entries@),
{
    let mut best: Option<ScoreEntry> = None;
    let mut i: usize = 0;
    while i < entries.len()
        invariant
            i <= entries@.len(),
            best == spec_best_entry(entries@.take(i as int)),
        decreases entries@.len() - i,
    {
        proof {
            assert(entries@.take(i as int + 1).drop_last() =~= entries@.take(i as int));
            assert(entries@.take(i as int + 1).last() == entries@[i as int]);
        }
        let e: ScoreEntry = entries[i];
        best = match best {
            None => Some(e),
            Some(b) => {
                if e.points > b.points || (e.points == b.points && e.id > b.id) {
                    Some(e)
                } else {
                    Some(b)
                }
            },
        };
        i = i + 1;
    }
    proof {
        assert(entries@.take(entries@.len() as int) =~= entries@);
    }
    best
}

} // verus!
