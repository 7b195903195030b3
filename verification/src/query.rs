use std::collections::HashSet;
use vstd::prelude::*;
use crate::error::IndexError;
use crate::ondisk::sort_hashes;
use crate::reader::IndexReader;
use crate::types::{PlanModel, PostingEntry, QueryPlan};

verus! {

broadcast use vstd::std_specs::hash::group_hash_axioms;

/// The values of `s` increase strictly (so none repeats).
pub open spec fn strictly_increasing(s: Seq<u32>) -> bool {
    forall|i: int, j: int| 0 <= i < j < s.len() ==> s[i] < s[j]
}

/// The file ids that a posting list names.
pub open spec fn file_ids(l: Seq<PostingEntry>) -> Set<u32> {
    Set::new(|id: u32| exists|k: int| 0 <= k < l.len() && #[trigger] l[k].file_id == id)
}

/// `x` occurs in every one of the lists `ls`.
pub open spec fn in_all(ls: Seq<Seq<u32>>, x: u32) -> bool {
    forall|k: int| 0 <= k < ls.len() ==> #[trigger] ls[k].contains(x)
}

/// The views of a vector of id lists.
pub open spec fn list_views(ls: Seq<Vec<u32>>) -> Seq<Seq<u32>> {
    ls.map_values(|v: Vec<u32>| v@)
}

/// Every file id of the reader's file table (its length taken as a `u32`).
pub open spec fn all_files(r: IndexReader) -> Set<u32> {
    Set::new(|id: u32| id < r.file_table().len() as u32)
}

/// The candidate files of a plan on a reader: all files for `MatchAll` and
/// for an `And` without trigrams; the files named in every posting list of
/// an `And`; the files of any branch of an `Or`. Nothing (a read error)
/// when a posting list the plan needs cannot be read.
pub open spec fn plan_result(r: IndexReader, p: PlanModel) -> Option<Set<u32>>
    decreases p, 0int,
{
    match p {
        PlanModel::MatchAll => Some(all_files(r)),
        PlanModel::And(ts) => if ts.len() == 0 {
            Some(all_files(r))
        } else if forall|i: int| 0 <= i < ts.len() ==> (#[trigger] r.posting_list(ts[i].0)) is Some {
            Some(
                Set::new(
                    |id: u32|
                        forall|i: int|
                            0 <= i < ts.len() ==> #[trigger] file_ids(r.posting_list(ts[i].0).unwrap()).contains(id),
                ),
            )
        } else {
            None
        },
        PlanModel::Or(bs) => or_result(r, bs, bs.len() as int),
    }
}

/// The union of the candidates of the first `n` branches `bs` of an `Or`,
/// if none of them failed.
pub open spec fn or_result(r: IndexReader, bs: Seq<PlanModel>, n: int) -> Option<Set<u32>>
    decreases bs, n,
{
    if n <= 0 || n > bs.len() {
        Some(Set::empty())
    } else {
        match (or_result(r, bs, n - 1), plan_result(r, bs[n - 1])) {
            (Some(a), Some(b)) => Some(a.union(b)),
            _ => None,
        }
    }
}

/// An `And` without trigrams is the same query as `MatchAll`: every file
/// of the index is a candidate.
pub proof fn lemma_empty_and_matches_all(r: IndexReader)
    ensures
        plan_result(r, PlanModel::And(Seq::empty())) == plan_result(r, PlanModel::MatchAll),
        plan_result(r, PlanModel::MatchAll) == Some(all_files(r)),
{
}

/// A failed branch makes every longer prefix of the branches fail.
proof fn lemma_or_result_fails(r: IndexReader, bs: Seq<PlanModel>, n: int, m: int)
    requires
        1 <= n <= m <= bs.len(),
        or_result(r, bs, n) is None,
    ensures
        or_result(r, bs, m) is None,
    decreases m - n,
{
    if m > n {
        lemma_or_result_fails(r, bs, n, m - 1);
    }
}

/// The first `n` branches of an `Or` succeed exactly when each of them does,
/// and then their candidates are the files that some one of them names.
pub proof fn lemma_or_result_exact(r: IndexReader, bs: Seq<PlanModel>, n: int)
    requires
        0 <= n <= bs.len(),
    ensures
        or_result(r, bs, n) is Some <==> forall|i: int| 0 <= i < n ==> (#[trigger] plan_result(r, bs[i])) is Some,
        or_result(r, bs, n) is Some ==> or_result(r, bs, n).unwrap() == Set::new(
            |id: u32| exists|i: int| 0 <= i < n && #[trigger] plan_result(r, bs[i]).unwrap().contains(id),
        ),
    decreases n,
{
    if n > 0 {
        lemma_or_result_exact(r, bs, n - 1);
        if or_result(r, bs, n) is Some {
            let prev = or_result(r, bs, n - 1).unwrap();
            let last = plan_result(r, bs[n - 1]).unwrap();
            assert forall|id: u32| prev.union(last).contains(id) <==> exists|i: int|
                0 <= i < n && #[trigger] plan_result(r, bs[i]).unwrap().contains(id) by {
                if last.contains(id) {
                    assert(plan_result(r, bs[n - 1]).unwrap().contains(id));
                }
                if exists|i: int| 0 <= i < n && #[trigger] plan_result(r, bs[i]).unwrap().contains(id) {
                    let i = choose|i: int| 0 <= i < n && #[trigger] plan_result(r, bs[i]).unwrap().contains(id);
                    if i < n - 1 {
                        assert(prev.contains(id));
                    }
                }
            }
            assert(prev.union(last) =~= Set::new(
                |id: u32| exists|i: int| 0 <= i < n && #[trigger] plan_result(r, bs[i]).unwrap().contains(id),
            ));
        } else if or_result(r, bs, n - 1) is Some {
            assert(plan_result(r, bs[n - 1]) is None);
        }
    } else {
        assert(Set::<u32>::empty() =~= Set::new(
            |id: u32| exists|i: int| 0 <= i < n && #[trigger] plan_result(r, bs[i]).unwrap().contains(id),
        ));
    }
}

/// One more trigram in an `And` (of at least one trigram) can only narrow
/// the candidates: where the longer query succeeds, so does the shorter, and
/// every file the longer one names, the shorter one names too.
pub proof fn lemma_and_extra_trigram_narrows(r: IndexReader, ts: Seq<(u32, Option<u8>)>, t: (u32, Option<u8>))
    requires
        ts.len() > 0,
    ensures
        plan_result(r, PlanModel::And(ts.push(t))) is Some ==> {
            &&& plan_result(r, PlanModel::And(ts)) is Some
            &&& plan_result(r, PlanModel::And(ts.push(t))).unwrap().subset_of(
                plan_result(r, PlanModel::And(ts)).unwrap(),
            )
        },
{
    let longer = ts.push(t);
    if plan_result(r, PlanModel::And(longer)) is Some {
        assert forall|i: int| 0 <= i < ts.len() implies (#[trigger] r.posting_list(ts[i].0)) is Some by {
            assert(longer[i] == ts[i]);
            assert(r.posting_list(longer[i].0) is Some);
        }
        assert forall|id: u32| plan_result(r, PlanModel::And(longer)).unwrap().contains(id) implies plan_result(
            r,
            PlanModel::And(ts),
        ).unwrap().contains(id) by {
            assert forall|i: int| 0 <= i < ts.len() implies #[trigger] file_ids(
                r.posting_list(ts[i].0).unwrap(),
            ).contains(id) by {
                assert(longer[i] == ts[i]);
                assert(file_ids(r.posting_list(longer[i].0).unwrap()).contains(id));
            }
        }
    }
}

/// The first `n` branches of an `Or` give the same result after another
/// branch is added at the end.
proof fn lemma_or_result_push(r: IndexReader, bs: Seq<PlanModel>, b: PlanModel, n: int)
    requires
        0 <= n <= bs.len(),
    ensures
        or_result(r, bs.push(b), n) == or_result(r, bs, n),
    decreases n,
{
    if n > 0 {
        lemma_or_result_push(r, bs, b, n - 1);
        assert(bs.push(b)[n - 1] == bs[n - 1]);
    }
}

/// One more branch in an `Or` can only widen the candidates: where the
/// longer query succeeds, so does the shorter, and every file the shorter
/// one names, the longer one names too.
pub proof fn lemma_or_extra_branch_widens(r: IndexReader, bs: Seq<PlanModel>, b: PlanModel)
    ensures
        plan_result(r, PlanModel::Or(bs.push(b))) is Some ==> {
            &&& plan_result(r, PlanModel::Or(bs)) is Some
            &&& plan_result(r, PlanModel::Or(bs)).unwrap().subset_of(
                plan_result(r, PlanModel::Or(bs.push(b))).unwrap(),
            )
        },
{
    lemma_or_result_push(r, bs, b, bs.len() as int);
}

/// The order of the trigrams of an `And` (of at least one trigram) does not
/// change its result.
pub proof fn lemma_and_order_irrelevant(
    r: IndexReader,
    ts: Seq<(u32, Option<u8>)>,
    ts2: Seq<(u32, Option<u8>)>,
)
    requires
        ts.len() > 0,
        ts2.to_multiset() == ts.to_multiset(),
    ensures
        plan_result(r, PlanModel::And(ts2)) == plan_result(r, PlanModel::And(ts)),
{
    broadcast use vstd::seq_lib::to_multiset_contains;
    broadcast use vstd::multiset::group_multiset_axioms;

    ts.to_multiset_ensures();
    ts2.to_multiset_ensures();
    assert forall|x: (u32, Option<u8>)| ts.contains(x) <==> ts2.contains(x) by {
        assert(ts.contains(x) <==> ts.to_multiset().count(x) > 0);
        assert(ts2.contains(x) <==> ts2.to_multiset().count(x) > 0);
    }
    assert((forall|i: int| 0 <= i < ts.len() ==> (#[trigger] r.posting_list(ts[i].0)) is Some) <==> (
    forall|j: int| 0 <= j < ts2.len() ==> (#[trigger] r.posting_list(ts2[j].0)) is Some)) by {
        if forall|i: int| 0 <= i < ts.len() ==> (#[trigger] r.posting_list(ts[i].0)) is Some {
            assert forall|j: int| 0 <= j < ts2.len() implies (#[trigger] r.posting_list(ts2[j].0)) is Some by {
                assert(ts2.contains(ts2[j]));
                let i = choose|i: int| 0 <= i < ts.len() && ts[i] == ts2[j];
                assert(r.posting_list(ts[i].0) is Some);
            }
        }
        if forall|j: int| 0 <= j < ts2.len() ==> (#[trigger] r.posting_list(ts2[j].0)) is Some {
            assert forall|i: int| 0 <= i < ts.len() implies (#[trigger] r.posting_list(ts[i].0)) is Some by {
                assert(ts.contains(ts[i]));
                let j = choose|j: int| 0 <= j < ts2.len() && ts2[j] == ts[i];
                assert(r.posting_list(ts2[j].0) is Some);
            }
        }
    }
    if plan_result(r, PlanModel::And(ts)) is Some {
        assert forall|id: u32| plan_result(r, PlanModel::And(ts)).unwrap().contains(id) <==> plan_result(
            r,
            PlanModel::And(ts2),
        ).unwrap().contains(id) by {
            if plan_result(r, PlanModel::And(ts)).unwrap().contains(id) {
                assert forall|j: int| 0 <= j < ts2.len() implies #[trigger] file_ids(
                    r.posting_list(ts2[j].0).unwrap(),
                ).contains(id) by {
                    assert(ts2.contains(ts2[j]));
                    let i = choose|i: int| 0 <= i < ts.len() && ts[i] == ts2[j];
                    assert(file_ids(r.posting_list(ts[i].0).unwrap()).contains(id));
                }
            }
            if plan_result(r, PlanModel::And(ts2)).unwrap().contains(id) {
                assert forall|i: int| 0 <= i < ts.len() implies #[trigger] file_ids(
                    r.posting_list(ts[i].0).unwrap(),
                ).contains(id) by {
                    assert(ts.contains(ts[i]));
                    let j = choose|j: int| 0 <= j < ts2.len() && ts2[j] == ts[i];
                    assert(file_ids(r.posting_list(ts2[j].0).unwrap()).contains(id));
                }
            }
        }
        assert(plan_result(r, PlanModel::And(ts)).unwrap() =~= plan_result(
            r,
            PlanModel::And(ts2),
        ).unwrap());
    }
}

/// The order of the branches of an `Or` does not change its result.
pub proof fn lemma_or_order_irrelevant(r: IndexReader, bs: Seq<PlanModel>, bs2: Seq<PlanModel>)
    requires
        bs2.to_multiset() == bs.to_multiset(),
    ensures
        plan_result(r, PlanModel::Or(bs2)) == plan_result(r, PlanModel::Or(bs)),
{
    broadcast use vstd::seq_lib::to_multiset_contains;

    bs.to_multiset_ensures();
    bs2.to_multiset_ensures();
    assert forall|x: PlanModel| bs.contains(x) <==> bs2.contains(x) by {
        assert(bs.contains(x) <==> bs.to_multiset().count(x) > 0);
        assert(bs2.contains(x) <==> bs2.to_multiset().count(x) > 0);
    }
    lemma_or_result_exact(r, bs, bs.len() as int);
    lemma_or_result_exact(r, bs2, bs2.len() as int);
    assert((forall|i: int| 0 <= i < bs.len() ==> (#[trigger] plan_result(r, bs[i])) is Some) <==> (
    forall|j: int| 0 <= j < bs2.len() ==> (#[trigger] plan_result(r, bs2[j])) is Some)) by {
        if forall|i: int| 0 <= i < bs.len() ==> (#[trigger] plan_result(r, bs[i])) is Some {
            assert forall|j: int| 0 <= j < bs2.len() implies (#[trigger] plan_result(r, bs2[j])) is Some by {
                assert(bs2.contains(bs2[j]));
                let i = choose|i: int| 0 <= i < bs.len() && bs[i] == bs2[j];
                assert(plan_result(r, bs[i]) is Some);
            }
        }
        if forall|j: int| 0 <= j < bs2.len() ==> (#[trigger] plan_result(r, bs2[j])) is Some {
            assert forall|i: int| 0 <= i < bs.len() implies (#[trigger] plan_result(r, bs[i])) is Some by {
                assert(bs.contains(bs[i]));
                let j = choose|j: int| 0 <= j < bs2.len() && bs2[j] == bs[i];
                assert(plan_result(r, bs2[j]) is Some);
            }
        }
    }
    if plan_result(r, PlanModel::Or(bs)) is Some {
        let a = plan_result(r, PlanModel::Or(bs)).unwrap();
        let c = plan_result(r, PlanModel::Or(bs2)).unwrap();
        assert forall|id: u32| a.contains(id) <==> c.contains(id) by {
            if a.contains(id) {
                let i = choose|i: int| 0 <= i < bs.len() && #[trigger] plan_result(r, bs[i]).unwrap().contains(id);
                assert(bs.contains(bs[i]));
                let j = choose|j: int| 0 <= j < bs2.len() && bs2[j] == bs[i];
                assert(plan_result(r, bs2[j]).unwrap().contains(id));
            }
            if c.contains(id) {
                let j = choose|j: int| 0 <= j < bs2.len() && #[trigger] plan_result(r, bs2[j]).unwrap().contains(id);
                assert(bs2.contains(bs2[j]));
                let i = choose|i: int| 0 <= i < bs.len() && bs[i] == bs2[j];
                assert(plan_result(r, bs[i]).unwrap().contains(id));
            }
        }
        assert(a =~= c);
    }
}

/// The ids `0..n as u32`, in order: every file of the index.
fn all_file_ids(n: usize) -> (ids: Vec<u32>)
    ensures
        strictly_increasing(ids@),
        ids@.to_set() == Set::new(|id: u32| id < n as u32),
{
    let m: u32 = #[verifier::truncate] (n as u32);
    let mut ids: Vec<u32> = Vec::new();
    for id in 0..m
        invariant
            ids@.len() == id,
            forall|k: int| 0 <= k < id ==> ids@[k] == k,
    {
        ids.push(id);
    }
    proof {
        assert forall|id: u32| ids@.to_set().contains(id) <==> id < m by {
            if id < m {
                assert(ids@[id as int] == id);
            }
        }
        assert(ids@.to_set() =~= Set::new(|id: u32| id < n as u32));
    }
    ids
}

/// The distinct values of `v`, in increasing order.
fn sorted_unique(v: Vec<u32>) -> (res: Vec<u32>)
    ensures
        strictly_increasing(res@),
        res@.to_set() == v@.to_set(),
{
    broadcast use vstd::seq_lib::to_multiset_contains;

    let mut s = v;
    let ghost before = s@;
    sort_hashes(&mut s);
    let mut res: Vec<u32> = Vec::new();
    for i in 0..s.len()
        invariant
            forall|a: int, b: int| 0 <= a < b < s@.len() ==> s@[a] <= s@[b],
            strictly_increasing(res@),
            res@.len() > 0 ==> res@.last() == s@[i - 1],
            res@.len() == 0 <==> i == 0,
            forall|x: u32| res@.contains(x) <==> s@.take(i as int).contains(x),
    {
        let x = s[i];
        let ghost old_res = res@;
        if res.len() == 0 || res[res.len() - 1] != x {
            res.push(x);
            proof {
                if old_res.len() > 0 {
                    assert(old_res.last() == s@[i - 1]);
                    assert(s@[i - 1] <= x);
                }
            }
        }
        proof {
            assert(s@.take(i + 1) =~= s@.take(i as int).push(x));
            assert(res@.contains(x)) by {
                assert(res@[res@.len() - 1] == x);
            }
            assert forall|y: u32| res@.contains(y) <==> s@.take(i + 1).contains(y) by {
                if y != x {
                    if s@.take(i + 1).contains(y) {
                        let k = choose|k: int| 0 <= k < i + 1 && #[trigger] s@.take(i + 1)[k] == y;
                        assert(s@.take(i as int)[k] == y);
                        assert(old_res.contains(y));
                        let j = choose|j: int| 0 <= j < old_res.len() && old_res[j] == y;
                        assert(res@[j] == y);
                    }
                    if res@.contains(y) {
                        let k = choose|k: int| 0 <= k < res@.len() && res@[k] == y;
                        assert(k < old_res.len());
                        assert(old_res[k] == y);
                        assert(old_res.contains(y));
                    }
                } else {
                    assert(s@.take(i + 1)[i as int] == x);
                }
            }
        }
    }
    proof {
        assert(s@.take(s@.len() as int) =~= s@);
        assert forall|x: u32| res@.to_set().contains(x) <==> v@.to_set().contains(x) by {
            assert(s@.contains(x) <==> s@.to_multiset().count(x) > 0);
            assert(before.contains(x) <==> before.to_multiset().count(x) > 0);
        }
        assert(res@.to_set() =~= v@.to_set());
    }
    res
}

/// The file ids of a posting list, in list order.
fn file_ids_of(postings: &Vec<PostingEntry>) -> (ids: Vec<u32>)
    ensures
        ids@.to_set() == file_ids(postings@),
{
    let mut ids: Vec<u32> = Vec::new();
    for k in 0..postings.len()
        invariant
            ids@.len() == k,
            forall|j: int| 0 <= j < k ==> #[trigger] ids@[j] == postings@[j].file_id,
    {
        ids.push(postings[k].file_id);
    }
    proof {
        assert forall|id: u32| ids@.to_set().contains(id) <==> file_ids(postings@).contains(id) by {
            if file_ids(postings@).contains(id) {
                let k = choose|k: int| 0 <= k < postings@.len() && #[trigger] postings@[k].file_id == id;
                assert(ids@[k] == id);
            }
        }
        assert(ids@.to_set() =~= file_ids(postings@));
    }
    ids
}

/// The lists, ordered by non-decreasing length.
fn sort_by_len(lists: Vec<Vec<u32>>) -> (res: Vec<Vec<u32>>)
    ensures
        res@.len() == lists@.len(),
        forall|a: int, b: int| 0 <= a < b < res@.len() ==> res@[a]@.len() <= res@[b]@.len(),
        forall|x: u32| in_all(list_views(res@), x) <==> in_all(list_views(lists@), x),
{
    let ghost n = lists@.len();
    let ghost orig = lists@;
    let mut rest = lists;
    let mut sorted: Vec<Vec<u32>> = Vec::new();
    while rest.len() > 0
        invariant
            sorted@.len() + rest@.len() == n,
            rest@ == orig.take(rest@.len() as int),
            orig.len() == n,
            forall|a: int, b: int| 0 <= a < b < sorted@.len() ==> sorted@[a]@.len() <= sorted@[b]@.len(),
            forall|x: u32| in_all(list_views(sorted@), x) <==> in_all(list_views(orig.subrange(rest@.len() as int, n as int)), x),
        decreases rest@.len(),
    {
        let ghost before_rest = rest@;
        let l = rest.pop().unwrap();
        let mut j: usize = 0;
        while j < sorted.len() && sorted[j].len() <= l.len()
            invariant
                j <= sorted@.len(),
                forall|k: int| 0 <= k < j ==> sorted@[k]@.len() <= l@.len(),
            decreases sorted@.len() - j,
        {
            j += 1;
        }
        let ghost old_sorted = sorted@;
        let ghost lv = l@;
        sorted.insert(j, l);
        proof {
            let r = rest@.len() as int;
            assert(rest@ == orig.take(r));
            assert(before_rest == orig.take(r + 1));
            assert(orig[r] == before_rest.last());
            assert(lv == orig[r]@);
            assert(list_views(orig.subrange(r, n as int)) =~= seq![lv] + list_views(orig.subrange(r + 1, n as int)));
            assert(list_views(sorted@) =~= list_views(old_sorted).insert(j as int, lv));
            assert forall|x: u32| in_all(list_views(sorted@), x) <==> in_all(list_views(orig.subrange(r, n as int)), x) by {
                let nv = list_views(sorted@);
                let ov = list_views(old_sorted);
                if in_all(nv, x) {
                    assert(nv[j as int].contains(x));
                    assert forall|k: int| 0 <= k < ov.len() implies #[trigger] ov[k].contains(x) by {
                        if k < j {
                            assert(nv[k] == ov[k]);
                        } else {
                            assert(nv[k + 1] == ov[k]);
                        }
                    }
                }
                if in_all(ov, x) && lv.contains(x) {
                    assert forall|k: int| 0 <= k < nv.len() implies #[trigger] nv[k].contains(x) by {
                        if k < j {
                            assert(nv[k] == ov[k]);
                        } else if k > j {
                            assert(nv[k] == ov[k - 1]);
                        }
                    }
                }
                let pv = list_views(orig.subrange(r, n as int));
                let qv = list_views(orig.subrange(r + 1, n as int));
                if in_all(pv, x) {
                    assert(pv[0].contains(x));
                    assert forall|k: int| 0 <= k < qv.len() implies #[trigger] qv[k].contains(x) by {
                        assert(pv[k + 1] == qv[k]);
                    }
                }
                if in_all(qv, x) && lv.contains(x) {
                    assert forall|k: int| 0 <= k < pv.len() implies #[trigger] pv[k].contains(x) by {
                        if k > 0 {
                            assert(pv[k] == qv[k - 1]);
                        }
                    }
                }
            }
            assert forall|a: int, b: int| 0 <= a < b < sorted@.len() implies sorted@[a]@.len() <= sorted@[b]@.len() by {
                if b < j {
                } else if a < j && b == j {
                } else if a < j && b > j {
                    if j < old_sorted.len() {
                        assert(old_sorted[j as int]@.len() > lv.len());
                        assert(old_sorted[j as int]@.len() <= old_sorted[b - 1]@.len());
                    }
                } else if a == j {
                    assert(old_sorted[j as int]@.len() > lv.len());
                    if b - 1 > j {
                        assert(old_sorted[j as int]@.len() <= old_sorted[b - 1]@.len());
                    }
                }
            }
        }
    }
    proof {
        assert(orig.subrange(0, n as int) =~= orig);
    }
    sorted
}

/// The ids that occur in every one of `lists`, in increasing order. The
/// first list is taken as the candidates, and the others narrow them down
/// until none is left.
fn intersect_all(lists: Vec<Vec<u32>>) -> (res: Vec<u32>)
    requires
        lists@.len() > 0,
    ensures
        strictly_increasing(res@),
        forall|x: u32| res@.contains(x) <==> in_all(list_views(lists@), x),
{
    let ghost orig = lists@;
    let mut rest = lists;
    let first = rest.remove(0);
    let mut candidates = sorted_unique(first);
    let mut idx: usize = 0;
    proof {
        assert(rest@ =~= orig.subrange(1, orig.len() as int));
        assert forall|x: u32| candidates@.contains(x) <==> first@.contains(x) by {
            assert(candidates@.to_set().contains(x) == candidates@.contains(x));
            assert(first@.to_set().contains(x) == first@.contains(x));
        }
    }
    while idx < rest.len() && candidates.len() > 0
        invariant
            idx <= rest@.len(),
            rest@ == orig.subrange(1, orig.len() as int),
            orig.len() > 0,
            first == orig[0],
            strictly_increasing(candidates@),
            forall|x: u32| candidates@.contains(x) <==> first@.contains(x) && in_all(list_views(rest@.take(idx as int)), x),
        decreases rest@.len() - idx,
    {
        let other_list = &rest[idx];
        let mut other: HashSet<u32> = HashSet::new();
        for k in 0..other_list.len()
            invariant
                forall|x: u32| other@.contains(x) <==> other_list@.take(k as int).contains(x),
        {
            other.insert(other_list[k]);
            proof {
                let t1 = other_list@.take(k + 1);
                let t0 = other_list@.take(k as int);
                assert(t1 =~= t0.push(other_list@[k as int]));
                assert forall|x: u32| other@.contains(x) <==> t1.contains(x) by {
                    if t1.contains(x) && x != other_list@[k as int] {
                        let j = choose|j: int| 0 <= j < t1.len() && t1[j] == x;
                        assert(t0[j] == x);
                    }
                    if t0.contains(x) {
                        let j = choose|j: int| 0 <= j < t0.len() && t0[j] == x;
                        assert(t1[j] == x);
                    }
                    if x == other_list@[k as int] {
                        assert(t1[k as int] == x);
                    }
                }
            }
        }
        proof {
            assert(other_list@.take(other_list@.len() as int) =~= other_list@);
            assert(other@ =~= other_list@.to_set());
        }
        let mut kept: Vec<u32> = Vec::new();
        for c in 0..candidates.len()
            invariant
                other@ == other_list@.to_set(),
                strictly_increasing(candidates@),
                strictly_increasing(kept@),
                kept@.len() > 0 ==> exists|m: int| 0 <= m < c && kept@.last() == candidates@[m],
                forall|x: u32| kept@.contains(x) <==> (candidates@.take(c as int).contains(x) && other_list@.contains(x)),
        {
            let v = candidates[c];
            let ghost old_kept = kept@;
            if other.contains(&v) {
                proof {
                    if old_kept.len() > 0 {
                        let m = choose|m: int| 0 <= m < c && old_kept.last() == candidates@[m];
                        assert(candidates@[m] < v);
                    }
                }
                kept.push(v);
            }
            proof {
                assert(candidates@.take(c + 1) =~= candidates@.take(c as int).push(v));
                assert(other_list@.to_set().contains(v) == other_list@.contains(v));
                assert forall|x: u32| kept@.contains(x) <==> (candidates@.take(c + 1).contains(x) && other_list@.contains(x)) by {
                    if kept@.contains(x) && x != v {
                        let k = choose|k: int| 0 <= k < kept@.len() && kept@[k] == x;
                        assert(old_kept[k] == x);
                        assert(old_kept.contains(x));
                    }
                    if candidates@.take(c + 1).contains(x) && other_list@.contains(x) && x != v {
                        let k = choose|k: int| 0 <= k < c + 1 && #[trigger] candidates@.take(c + 1)[k] == x;
                        assert(candidates@.take(c as int)[k] == x);
                        assert(old_kept.contains(x));
                        let j = choose|j: int| 0 <= j < old_kept.len() && old_kept[j] == x;
                        assert(kept@[j] == x);
                    }
                    if x == v {
                        assert(candidates@.take(c + 1)[c as int] == v);
                        if other_list@.contains(x) {
                            assert(kept@[kept@.len() - 1] == v);
                        }
                        if old_kept.contains(x) {
                            assert(other_list@.contains(x));
                        }
                        if kept@.contains(x) && !old_kept.contains(x) {
                            assert(other_list@.contains(v));
                        }
                    }
                }
                if kept@.len() > 0 {
                    if other_list@.contains(v) {
                        assert(kept@.last() == candidates@[c as int]);
                    } else {
                        let m = choose|m: int| 0 <= m < c && old_kept.last() == candidates@[m];
                        assert(kept@.last() == candidates@[m]);
                    }
                }
            }
        }
        proof {
            assert(candidates@.take(candidates@.len() as int) =~= candidates@);
            let tv = list_views(rest@.take(idx + 1));
            let sv = list_views(rest@.take(idx as int));
            assert(tv =~= sv.push(other_list@));
            assert forall|x: u32| in_all(tv, x) <==> in_all(sv, x) && other_list@.contains(x) by {
                if in_all(tv, x) {
                    assert(tv[idx as int].contains(x));
                    assert forall|k: int| 0 <= k < sv.len() implies #[trigger] sv[k].contains(x) by {
                        assert(tv[k] == sv[k]);
                    }
                }
                if in_all(sv, x) && other_list@.contains(x) {
                    assert forall|k: int| 0 <= k < tv.len() implies #[trigger] tv[k].contains(x) by {
                        if k < sv.len() {
                            assert(tv[k] == sv[k]);
                        }
                    }
                }
            }
        }
        candidates = kept;
        idx += 1;
    }
    proof {
        let ov = list_views(orig);
        let rv = list_views(rest@);
        assert forall|x: u32| candidates@.contains(x) <==> in_all(ov, x) by {
            if in_all(ov, x) {
                assert(ov[0] == first@);
                assert(first@.contains(x));
                assert forall|k: int| 0 <= k < idx implies #[trigger] list_views(rest@.take(idx as int))[k].contains(x) by {
                    assert(list_views(rest@.take(idx as int))[k] == ov[k + 1]);
                }
            }
            if candidates@.contains(x) {
                if idx == rest@.len() {
                    assert(rest@.take(idx as int) =~= rest@);
                    assert forall|k: int| 0 <= k < ov.len() implies #[trigger] ov[k].contains(x) by {
                        if k > 0 {
                            assert(ov[k] == rv[k - 1]);
                        }
                    }
                }
            }
        }
    }
    candidates
}

/// Execute a query plan against the index, returning candidate file IDs,
/// sorted and without repeats.
pub fn execute(reader: &mut IndexReader, plan: &QueryPlan) -> (res: Result<Vec<u32>, IndexError>)
    ensures
        *final(reader) == *old(reader),
        plan_result(*old(reader), plan@) matches Some(ids) ==> res is Ok && strictly_increasing(res.unwrap()@)
            && res.unwrap()@.to_set() == ids,
        plan_result(*old(reader), plan@) is None ==> res matches Err(IndexError::Io(_)),
    decreases plan,
{
    let ghost r0 = *reader;
    match plan {
        QueryPlan::MatchAll => Ok(all_file_ids(reader.num_files())),
        QueryPlan::And(trigrams) => {
            let ghost ts = trigrams@.map_values(|t: crate::types::TrigramQuery| t@);
            assert(plan@ == PlanModel::And(ts));
            if trigrams.len() == 0 {
                return Ok(all_file_ids(reader.num_files()));
            }
            let mut lists: Vec<Vec<u32>> = Vec::new();
            for i in 0..trigrams.len()
                invariant
                    *reader == r0,
                    r0 == *old(reader),
                    plan@ == PlanModel::And(ts),
                    ts == trigrams@.map_values(|t: crate::types::TrigramQuery| t@),
                    lists@.len() == i,
                    forall|k: int| 0 <= k < i ==> (#[trigger] r0.posting_list(ts[k].0)) is Some,
                    forall|k: int| 0 <= k < i ==> #[trigger] lists@[k]@.to_set() == file_ids(r0.posting_list(ts[k].0).unwrap()),
            {
                let postings = match reader.read_posting_list(trigrams[i].hash) {
                    Ok(p) => p,
                    Err(e) => {
                        proof {
                            assert(r0.posting_list(ts[i as int].0) is None);
                            assert(plan_result(r0, plan@) is None);
                        }
                        return Err(e);
                    },
                };
                let ids = file_ids_of(&postings);
                lists.push(ids);
            }
            let ghost unsorted = lists@;
            let sorted = sort_by_len(lists);
            let candidates = intersect_all(sorted);
            proof {
                let set = Set::new(
                    |id: u32| forall|i: int| 0 <= i < ts.len() ==> #[trigger] file_ids(r0.posting_list(ts[i].0).unwrap()).contains(id),
                );
                assert(plan_result(r0, plan@) == Some(set));
                assert forall|x: u32| candidates@.to_set().contains(x) <==> set.contains(x) by {
                    let uv = list_views(unsorted);
                    if in_all(uv, x) {
                        assert forall|i: int| 0 <= i < ts.len() implies #[trigger] file_ids(r0.posting_list(ts[i].0).unwrap()).contains(x) by {
                            assert(uv[i].contains(x));
                            assert(unsorted[i]@.to_set().contains(x));
                        }
                    }
                    if set.contains(x) {
                        assert forall|k: int| 0 <= k < uv.len() implies #[trigger] uv[k].contains(x) by {
                            assert(file_ids(r0.posting_list(ts[k].0).unwrap()).contains(x));
                            assert(unsorted[k]@.to_set().contains(x));
                        }
                    }
                }
                assert(candidates@.to_set() =~= set);
            }
            Ok(candidates)
        },
        QueryPlan::Or(branches) => {
            let ghost bs = plan@->Or_0;
            assert(plan@ == PlanModel::Or(bs));
            assert forall|k: int| 0 <= k < bs.len() implies #[trigger] bs[k] == branches@[k]@ by {}
            let mut all: Vec<u32> = Vec::new();
            proof {
                assert(all@.to_set() =~= Set::<u32>::empty());
            }
            for i in 0..branches.len()
                invariant
                    *reader == r0,
                    r0 == *old(reader),
                    plan@ == PlanModel::Or(bs),
                    *plan == QueryPlan::Or(*branches),
                    bs.len() == branches@.len(),
                    forall|k: int| 0 <= k < bs.len() ==> #[trigger] bs[k] == branches@[k]@,
                    or_result(r0, bs, i as int) is Some,
                    all@.to_set() == or_result(r0, bs, i as int).unwrap(),
            {
                proof {
                    broadcast use vstd::std_specs::vec::axiom_vec_index_decreases;

                    assert(decreases_to!(*branches => branches[i as int]));
                }
                let ids = match execute(reader, &branches[i]) {
                    Ok(v) => v,
                    Err(e) => {
                        proof {
                            assert(plan_result(r0, bs[i as int]) is None);
                            assert(or_result(r0, bs, i + 1) is None);
                            lemma_or_result_fails(r0, bs, i + 1, bs.len() as int);
                        }
                        return Err(e);
                    },
                };
                let ghost before = all@;
                for k in 0..ids.len()
                    invariant
                        all@ == before + ids@.take(k as int),
                {
                    all.push(ids[k]);
                    proof {
                        assert(ids@.take(k + 1) =~= ids@.take(k as int).push(ids@[k as int]));
                    }
                }
                proof {
                    assert(ids@.take(ids@.len() as int) =~= ids@);
                    assert((before + ids@).to_set() =~= before.to_set().union(ids@.to_set())) by {
                        assert forall|x: u32| (before + ids@).contains(x) <==> before.contains(x) || ids@.contains(x) by {
                            let c = before + ids@;
                            if c.contains(x) {
                                let j = choose|j: int| 0 <= j < c.len() && c[j] == x;
                                if j < before.len() {
                                    assert(before[j] == x);
                                } else {
                                    assert(ids@[j - before.len()] == x);
                                }
                            }
                            if before.contains(x) {
                                let j = choose|j: int| 0 <= j < before.len() && before[j] == x;
                                assert(c[j] == x);
                            }
                            if ids@.contains(x) {
                                let j = choose|j: int| 0 <= j < ids@.len() && ids@[j] == x;
                                assert(c[before.len() + j] == x);
                            }
                        }
                    }
                }
            }
            let result = sorted_unique(all);
            proof {
                assert(plan_result(r0, plan@) == or_result(r0, bs, bs.len() as int));
            }
            Ok(result)
        },
    }
}

} // verus!