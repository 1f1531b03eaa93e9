//! Grouping consecutive rows that share a key.
//!
//! The season detail view reads one joined row per result, ordered by
//! race, and splits them into one group per race. The caller hands this
//! module each row's race identifier and receives the half-open row
//! ranges of the individual races back.

use vstd::prelude::*;

verus! {

/// Whether the ranges split `0..keys.len()` into the maximal runs of
/// equal keys, in order: the ranges are non-empty, adjacent, cover the
/// keys from front to back, hold one key each, and neighbouring ranges
/// hold different keys. Exactly one range sequence has this shape.
pub open spec fn runs_partition(keys: Seq<i32>, runs: Seq<(usize, usize)>) -> bool {
    &&& (runs.len() == 0 <==> keys.len() == 0)
    &&& (keys.len() > 0 ==> runs[0].0 == 0 && runs.last().1 == keys.len())
    &&& (forall|i: int|
        0 <= i < runs.len() ==> (#[trigger] runs[i]).0 < runs[i].1 && runs[i].1 <= keys.len())
    &&& (forall|i: int| 0 <= i < runs.len() - 1 ==> (#[trigger] runs[i]).1 == runs[i + 1].0)
    &&& (forall|i: int, a: int|
        #![trigger runs[i], keys[a]]
        0 <= i < runs.len() && runs[i].0 <= a < runs[i].1 ==> keys[a] == keys[runs[i].0 as int])
    &&& (forall|i: int|
        0 <= i < runs.len() - 1 ==> keys[(#[trigger] runs[i]).0 as int] != keys[
            runs[i + 1].0 as int
        ])
}

/// Splits a key sequence into its maximal runs of equal keys.
pub fn group_runs(keys: &Vec<i32>) -> (runs: Vec<(usize, usize)>)
    ensures
        runs_partition(keys@, runs@),
{
    let mut runs: Vec<(usize, usize)> = Vec::new();
    if keys.len() == 0 {
        return runs;
    }
    let mut start: usize = 0;
    let mut i: usize = 1;
    while i < keys.len()
        invariant
            0 < i <= keys@.len(),
            start < i,
            runs_partition(keys@.take(start as int), runs@),
            forall|a: int| start <= a < i ==> keys@[a] == keys@[start as int],
            runs@.len() > 0 ==> keys@[runs@.last().0 as int] != keys@[start as int],
        decreases keys@.len() - i,
    {
        if keys[i] != keys[start] {
            proof {
                let pushed = runs@.push((start, i));
                assert(forall|k: int| 0 <= k < runs@.len() ==> pushed[k] == runs@[k]);
                assert(pushed.last() == (start, i));
                assert(forall|a: int| 0 <= a < start ==> keys@.take(start as int)[a] == keys@[a]);
            }
            runs.push((start, i));
            start = i;
        }
        i = i + 1;
    }
    proof {
        let pushed = runs@.push((start, keys@.len() as usize));
        assert(forall|k: int| 0 <= k < runs@.len() ==> pushed[k] == runs@[k]);
        assert(forall|a: int| 0 <= a < start ==> keys@.take(start as int)[a] == keys@[a]);
    }
    runs.push((start, keys.len()));
    runs
}

} // verus!
