//! Rankings of backend records: global by best time, global by mean time, and
//! by best time within one category. Each ranking is ascending by its key,
//! with ties kept in the order the records were given, and gives every entry its
//! slowdown against the ranking's leader.
use vstd::prelude::*;
use crate::trials::{BenchmarkResult, Category};

verus! {

/// Record `a` comes before record `b`: a smaller key, or an equal key and an
/// earlier position.
pub open spec fn before(keys: Seq<u64>, a: usize, b: usize) -> bool {
    keys[a as int] < keys[b as int] || (keys[a as int] == keys[b as int] && a < b)
}

/// `order` lists each record in scope exactly once, ascending by key, ties in
/// the order the records were given.
pub open spec fn ranks(keys: Seq<u64>, scope: Seq<bool>, order: Seq<usize>) -> bool {
    &&& keys.len() <= usize::MAX
    &&& forall|i: int| #![trigger order[i]] 0 <= i < order.len() ==> order[i] < keys.len() && scope[order[i] as int]
    &&& forall|j: int| 0 <= j < keys.len() && #[trigger] scope[j] ==> order.contains(j as usize)
    &&& forall|i: int, j: int| 0 <= i < j < order.len() ==> before(keys, #[trigger] order[i], #[trigger] order[j])
}

/// Slowdown of `value` against `leader`, in hundredths of a percent, rounded
/// down: `(value / leader - 1) * 100` percent. A value equal to the leader
/// is exactly zero, a zero leader included; otherwise there is none for a
/// zero leader, nor for a value below the leader.
pub open spec fn slowdown(value: u64, leader: u64) -> Option<u128> {
    if value == leader {
        Some(0)
    } else if leader == 0 || value < leader {
        None
    } else {
        Some(((value - leader) * 10000 / (leader as int)) as u128)
    }
}

/// One entry of a ranking.
pub struct Standing {
    /// Position of the record in the list that was ranked.
    pub index: usize,
    /// The record's time under the ranking's key, in nanoseconds.
    pub time: u64,
    /// Slowdown against the ranking's leader, in hundredths of a percent.
    pub slower_hundredths: Option<u128>,
}

/// `r` is the ranking of the records in `scope` by `keys`, with each entry's
/// key and its slowdown against the first entry.
pub open spec fn are_standings(keys: Seq<u64>, scope: Seq<bool>, r: Seq<Standing>) -> bool {
    &&& ranks(keys, scope, Seq::new(r.len(), |i: int| r[i].index))
    &&& forall|i: int| 0 <= i < r.len() ==> (#[trigger] r[i]).time == keys[r[i].index as int]
    &&& forall|i: int| 0 <= i < r.len() ==> (#[trigger] r[i]).slower_hundredths == slowdown(r[i].time, r[0].time)
}

pub open spec fn best_times(rs: Seq<BenchmarkResult>) -> Seq<u64> {
    Seq::new(rs.len(), |i: int| rs[i].best_time)
}

pub open spec fn mean_times(rs: Seq<BenchmarkResult>) -> Seq<u64> {
    Seq::new(rs.len(), |i: int| rs[i].avg_time)
}

pub open spec fn everyone(n: nat) -> Seq<bool> {
    Seq::new(n, |i: int| true)
}

pub open spec fn in_category(rs: Seq<BenchmarkResult>, c: Category) -> Seq<bool> {
    Seq::new(rs.len(), |i: int| rs[i].category == c)
}

/// A ranking is non-decreasing in its key; its leader holds the smallest key
/// of every record in scope, and the leader's own slowdown is exactly zero
/// (a leader time of zero included).
pub proof fn lemma_ranking_leader(keys: Seq<u64>, scope: Seq<bool>, r: Seq<Standing>)
    requires
        are_standings(keys, scope, r),
    ensures
        forall|i: int, j: int| 0 <= i < j < r.len() ==> (#[trigger] r[i]).time <= (#[trigger] r[j]).time,
        r.len() > 0 ==> forall|j: int| 0 <= j < keys.len() && #[trigger] scope[j] ==> r[0].time <= keys[j],
        r.len() > 0 ==> r[0].slower_hundredths == Some(0u128),
{
    let order = Seq::new(r.len(), |i: int| r[i].index);
    assert forall|i: int, j: int| 0 <= i < j < r.len() implies (#[trigger] r[i]).time <= (#[trigger] r[j]).time by {
        assert(before(keys, order[i], order[j]));
    }
    if r.len() > 0 {
        assert forall|j: int| 0 <= j < keys.len() && #[trigger] scope[j] implies r[0].time <= keys[j] by {
            assert(order.contains(j as usize));
            let w = choose|w: int| 0 <= w < order.len() && order[w] == j as usize;
            assert(r[w].index == j);
            if w > 0 {
                assert(before(keys, order[0], order[w]));
            }
        }
        assert(r[0].slower_hundredths == slowdown(r[0].time, r[0].time));
    }
}

/// A category ranking holds only records of that category, and each entry's
/// slowdown is measured against the category's own fastest record, never a
/// record of another category.
pub proof fn lemma_category_isolation(records: Seq<BenchmarkResult>, c: Category, r: Seq<Standing>)
    requires
        are_standings(best_times(records), in_category(records, c), r),
    ensures
        forall|i: int| 0 <= i < r.len() ==> records[(#[trigger] r[i]).index as int].category == c,
        r.len() > 0 ==> forall|j: int| 0 <= j < records.len() && (#[trigger] records[j]).category == c
            ==> r[0].time <= records[j].best_time,
        forall|i: int| 0 <= i < r.len() ==> (#[trigger] r[i]).slower_hundredths == slowdown(r[i].time, r[0].time),
{
    let keys = best_times(records);
    let scope = in_category(records, c);
    let order = Seq::new(r.len(), |i: int| r[i].index);
    assert forall|i: int| 0 <= i < r.len() implies records[(#[trigger] r[i]).index as int].category == c by {
        assert(scope[order[i] as int]);
    }
    lemma_ranking_leader(keys, scope, r);
    if r.len() > 0 {
        assert forall|j: int| 0 <= j < records.len() && (#[trigger] records[j]).category == c
            implies r[0].time <= records[j].best_time by {
            assert(scope[j]);
        }
    }
}

/// The best times of the records of category `c`.
pub open spec fn category_best_times(rs: Seq<BenchmarkResult>, c: Category) -> Set<u64> {
    Set::new(|t: u64| exists|j: int| 0 <= j < rs.len() && (#[trigger] rs[j]).category == c && rs[j].best_time == t)
}

/// A category ranking depends on that category's records alone: two record
/// lists whose records of category `c` have the same best times, whatever
/// other records they hold, give the category the same leader time, and a
/// record with a given time the same slowdown in both.
pub proof fn lemma_category_view_independent(
    rs1: Seq<BenchmarkResult>,
    rs2: Seq<BenchmarkResult>,
    c: Category,
    r1: Seq<Standing>,
    r2: Seq<Standing>,
)
    requires
        are_standings(best_times(rs1), in_category(rs1, c), r1),
        are_standings(best_times(rs2), in_category(rs2, c), r2),
        category_best_times(rs1, c) == category_best_times(rs2, c),
    ensures
        r1.len() == 0 <==> r2.len() == 0,
        r1.len() > 0 ==> r1[0].time == r2[0].time,
        forall|i: int, j: int| 0 <= i < r1.len() && 0 <= j < r2.len() && r1[i].time == r2[j].time
            ==> (#[trigger] r1[i]).slower_hundredths == (#[trigger] r2[j]).slower_hundredths,
{
    lemma_category_isolation(rs1, c, r1);
    lemma_category_isolation(rs2, c, r2);
    if r1.len() > 0 {
        lemma_leader_in_set(rs1, c, r1);
    }
    if r2.len() > 0 {
        lemma_leader_in_set(rs2, c, r2);
    }
    if r1.len() > 0 {
        let t1 = r1[0].time;
        assert(category_best_times(rs2, c).contains(t1));
        let j2 = choose|j: int| 0 <= j < rs2.len() && (#[trigger] rs2[j]).category == c && rs2[j].best_time == t1;
        assert(in_category(rs2, c)[j2]);
        let order2 = Seq::new(r2.len(), |i: int| r2[i].index);
        assert(order2.contains(j2 as usize));
        assert(r2.len() > 0);
        let t2 = r2[0].time;
        assert(category_best_times(rs1, c).contains(t2));
        let j1 = choose|j: int| 0 <= j < rs1.len() && (#[trigger] rs1[j]).category == c && rs1[j].best_time == t2;
        assert(t2 <= t1);
        assert(t1 <= t2);
    }
    if r2.len() > 0 && r1.len() == 0 {
        let t2 = r2[0].time;
        assert(category_best_times(rs1, c).contains(t2));
        let j1 = choose|j: int| 0 <= j < rs1.len() && (#[trigger] rs1[j]).category == c && rs1[j].best_time == t2;
        assert(in_category(rs1, c)[j1]);
        let order1 = Seq::new(r1.len(), |i: int| r1[i].index);
        assert(order1.contains(j1 as usize));
    }
}

/// A category ranking's leader time is the best time of one of the category's records.
proof fn lemma_leader_in_set(rs: Seq<BenchmarkResult>, c: Category, r: Seq<Standing>)
    requires
        are_standings(best_times(rs), in_category(rs, c), r),
        r.len() > 0,
    ensures
        category_best_times(rs, c).contains(r[0].time),
{
    let order = Seq::new(r.len(), |i: int| r[i].index);
    let j = order[0] as int;
    assert(in_category(rs, c)[j]);
    assert(rs[j].category == c && rs[j].best_time == r[0].time);
}

/// Slowdown of `value` against `leader` in hundredths of a percent: zero
/// for a value equal to the leader, `None` for a zero leader or a value
/// below the leader.
pub fn percent_slower(value: u64, leader: u64) -> (r: Option<u128>)
    ensures
        r == slowdown(value, leader),
{
    if value == leader {
        Some(0)
    } else if leader == 0 || value < leader {
        None
    } else {
        let excess = (value - leader) as u128;
        assert(excess * 10000 <= u128::MAX) by (nonlinear_arith)
            requires excess <= u64::MAX;
        Some(excess * 10000 / leader as u128)
    }
}

/// The positions of the records in scope, ranked by key.
fn rank(keys: &Vec<u64>, scope: &Vec<bool>) -> (order: Vec<usize>)
    requires
        keys@.len() == scope@.len(),
    ensures
        ranks(keys@, scope@, order@),
{
    let n = keys.len();
    let mut order: Vec<usize> = Vec::new();
    let mut j: usize = 0;
    while j < n
        invariant
            n == keys@.len(),
            n == scope@.len(),
            j <= n,
            forall|i: int| #![trigger order@[i]] 0 <= i < order@.len() ==> order@[i] < j && scope@[order@[i] as int],
            forall|m: int| 0 <= m < j && #[trigger] scope@[m] ==> order@.contains(m as usize),
            forall|a: int, b: int| 0 <= a < b < order@.len() ==> before(keys@, #[trigger] order@[a], #[trigger] order@[b]),
        decreases n - j,
    {
        if scope[j] {
            let key = keys[j];
            let mut p: usize = 0;
            while p < order.len() && keys[order[p]] <= key
                invariant
                    n == keys@.len(),
                    p <= order@.len(),
                    forall|i: int| #![trigger order@[i]] 0 <= i < order@.len() ==> order@[i] < j,
                    j < n,
                    forall|i: int| 0 <= i < p ==> keys@[(#[trigger] order@[i]) as int] <= key,
                decreases order@.len() - p,
            {
                p = p + 1;
            }
            let ghost old_order = order@;
            proof {
                assert forall|i: int| p <= i < old_order.len() implies key < keys@[(#[trigger] old_order[i]) as int] by {
                    if i > p {
                        assert(before(keys@, old_order[p as int], old_order[i]));
                    }
                }
            }
            order.insert(p, j);
            proof {
                assert forall|m: int| 0 <= m <= j && #[trigger] scope@[m] implies order@.contains(m as usize) by {
                    if m == j {
                        assert(order@[p as int] == j);
                    } else {
                        let w = choose|w: int| 0 <= w < old_order.len() && old_order[w] == m as usize;
                        if w < p {
                            assert(order@[w] == m as usize);
                        } else {
                            assert(order@[w + 1] == m as usize);
                        }
                    }
                }
                assert forall|a: int, b: int| 0 <= a < b < order@.len() implies before(keys@, #[trigger] order@[a], #[trigger] order@[b]) by {
                    if a < p && b < p {
                        assert(before(keys@, old_order[a], old_order[b]));
                    } else if a < p && b == p {
                    } else if a < p {
                        assert(before(keys@, old_order[a], old_order[b - 1]));
                    } else if a == p {
                        assert(key < keys@[old_order[b - 1] as int]);
                    } else {
                        assert(before(keys@, old_order[a - 1], old_order[b - 1]));
                    }
                }
            }
        }
        j = j + 1;
    }
    order
}

/// Each ranked record with its key and its slowdown against the leader.
fn standings(keys: &Vec<u64>, order: Vec<usize>) -> (r: Vec<Standing>)
    requires
        forall|i: int| 0 <= i < order@.len() ==> (#[trigger] order@[i]) < keys@.len(),
    ensures
        Seq::new(r@.len(), |i: int| r@[i].index) == order@,
        forall|i: int| 0 <= i < r@.len() ==> (#[trigger] r@[i]).time == keys@[r@[i].index as int],
        forall|i: int| 0 <= i < r@.len() ==> (#[trigger] r@[i]).slower_hundredths == slowdown(r@[i].time, r@[0].time),
{
    let mut r: Vec<Standing> = Vec::with_capacity(order.len());
    if order.len() == 0 {
        assert(Seq::new(r@.len(), |i: int| r@[i].index) =~= order@);
        return r;
    }
    let leader = keys[order[0]];
    let mut k: usize = 0;
    while k < order.len()
        invariant
            forall|i: int| 0 <= i < order@.len() ==> (#[trigger] order@[i]) < keys@.len(),
            order@.len() > 0,
            leader == keys@[order@[0] as int],
            k <= order@.len(),
            r@.len() == k,
            forall|i: int| 0 <= i < k ==> (#[trigger] r@[i]).index == order@[i],
            forall|i: int| 0 <= i < k ==> (#[trigger] r@[i]).time == keys@[r@[i].index as int],
            forall|i: int| 0 <= i < k ==> (#[trigger] r@[i]).slower_hundredths == slowdown(r@[i].time, leader),
        decreases order@.len() - k,
    {
        let index = order[k];
        let time = keys[index];
        r.push(Standing { index, time, slower_hundredths: percent_slower(time, leader) });
        k = k + 1;
    }
    assert(Seq::new(r@.len(), |i: int| r@[i].index) =~= order@);
    r
}

/// Every record, ascending by best time; the first is the overall winner.
pub fn rank_by_best(records: &Vec<BenchmarkResult>) -> (r: Vec<Standing>)
    ensures
        are_standings(best_times(records@), everyone(records@.len()), r@),
{
    let mut keys: Vec<u64> = Vec::with_capacity(records.len());
    let mut scope: Vec<bool> = Vec::with_capacity(records.len());
    let mut k: usize = 0;
    while k < records.len()
        invariant
            k <= records@.len(),
            keys@ == best_times(records@).subrange(0, k as int),
            scope@ == everyone(records@.len()).subrange(0, k as int),
        decreases records@.len() - k,
    {
        keys.push(records[k].best_time);
        scope.push(true);
        k = k + 1;
        assert(keys@ =~= best_times(records@).subrange(0, k as int));
        assert(scope@ =~= everyone(records@.len()).subrange(0, k as int));
    }
    assert(keys@ =~= best_times(records@));
    assert(scope@ =~= everyone(records@.len()));
    let order = rank(&keys, &scope);
    standings(&keys, order)
}

/// Every record, ascending by mean time.
pub fn rank_by_mean(records: &Vec<BenchmarkResult>) -> (r: Vec<Standing>)
    ensures
        are_standings(mean_times(records@), everyone(records@.len()), r@),
{
    let mut keys: Vec<u64> = Vec::with_capacity(records.len());
    let mut scope: Vec<bool> = Vec::with_capacity(records.len());
    let mut k: usize = 0;
    while k < records.len()
        invariant
            k <= records@.len(),
            keys@ == mean_times(records@).subrange(0, k as int),
            scope@ == everyone(records@.len()).subrange(0, k as int),
        decreases records@.len() - k,
    {
        keys.push(records[k].avg_time);
        scope.push(true);
        k = k + 1;
        assert(keys@ =~= mean_times(records@).subrange(0, k as int));
        assert(scope@ =~= everyone(records@.len()).subrange(0, k as int));
    }
    assert(keys@ =~= mean_times(records@));
    assert(scope@ =~= everyone(records@.len()));
    let order = rank(&keys, &scope);
    standings(&keys, order)
}

/// The records of one category, ascending by best time, with slowdowns
/// against the category's own leader. Empty when the category has no record.
pub fn rank_in_category(records: &Vec<BenchmarkResult>, category: Category) -> (r: Vec<Standing>)
    ensures
        are_standings(best_times(records@), in_category(records@, category), r@),
{
    let mut keys: Vec<u64> = Vec::with_capacity(records.len());
    let mut scope: Vec<bool> = Vec::with_capacity(records.len());
    let mut k: usize = 0;
    while k < records.len()
        invariant
            k <= records@.len(),
            keys@ == best_times(records@).subrange(0, k as int),
            scope@ == in_category(records@, category).subrange(0, k as int),
        decreases records@.len() - k,
    {
        keys.push(records[k].best_time);
        scope.push(records[k].category == category);
        k = k + 1;
        assert(keys@ =~= best_times(records@).subrange(0, k as int));
        assert(scope@ =~= in_category(records@, category).subrange(0, k as int));
    }
    assert(keys@ =~= best_times(records@));
    assert(scope@ =~= in_category(records@, category));
    let order = rank(&keys, &scope);
    standings(&keys, order)
}

} // verus!
