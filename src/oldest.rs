use vstd::prelude::*;
use crate::building::{Building, BuildingModel, models};

verus! {

/// Record `i` is the oldest of its district among the first `n` records, and the
/// first of them to have that year.
pub open spec fn is_oldest_at(s: Seq<BuildingModel>, n: int, i: int) -> bool {
    0 <= i < n <= s.len() && (forall|j: int|
        0 <= j < i && (#[trigger] s[j]).dist == s[i].dist ==> s[i].year < s[j].year) && (forall|j: int|
        i < j < n && (#[trigger] s[j]).dist == s[i].dist ==> s[i].year <= s[j].year)
}

/// `b` is the oldest record of its district in `s`, the first one where several
/// share the oldest year.
pub open spec fn is_oldest_of_district(s: Seq<BuildingModel>, b: BuildingModel) -> bool {
    exists|i: int| #[trigger] is_oldest_at(s, s.len() as int, i) && s[i] == b
}

/// `r` holds, once each and in any order, the oldest building of every district
/// of `s`, the first one in `s` where several share the oldest year.
pub open spec fn is_oldest_report(s: Seq<BuildingModel>, r: Seq<BuildingModel>) -> bool {
    &&& forall|k: int| 0 <= k < r.len() ==> is_oldest_of_district(s, #[trigger] r[k])
    &&& forall|i: int| #[trigger] is_oldest_at(s, s.len() as int, i) ==> r.contains(s[i])
    &&& forall|k1: int, k2: int| 0 <= k1 < k2 < r.len() ==> (#[trigger] r[k1]).dist != (#[trigger] r[k2]).dist
}

pub open spec fn ref_models(r: Seq<&Building>) -> Seq<BuildingModel> {
    r.map_values(|b: &Building| b@)
}

/// Within one district there is only one oldest record.
proof fn lemma_oldest_one_per_district(s: Seq<BuildingModel>, n: int, i: int, j: int)
    requires
        is_oldest_at(s, n, i),
        is_oldest_at(s, n, j),
        s[i].dist == s[j].dist,
    ensures
        i == j,
{
    if i < j {
        assert(s[j].year < s[i].year);
    } else if j < i {
        assert(s[i].year < s[j].year);
    }
}

/// The position in `idx` of the kept record of the district of `d`, if any.
fn find_district(blds: &Vec<Building>, idx: &Vec<usize>, d: &String) -> (r: Option<usize>)
    requires
        forall|k: int| 0 <= k < idx@.len() ==> (#[trigger] idx@[k]) < blds@.len(),
    ensures
        r.is_some() ==> r.unwrap() < idx@.len() && blds@[idx@[r.unwrap() as int] as int].add.dist@ == d@,
        r.is_none() ==> forall|k: int| 0 <= k < idx@.len() ==> blds@[(#[trigger] idx@[k]) as int].add.dist@ != d@,
{
    let mut k: usize = 0;
    while k < idx.len()
        invariant
            k <= idx@.len(),
            forall|m: int| 0 <= m < idx@.len() ==> (#[trigger] idx@[m]) < blds@.len(),
            forall|m: int| 0 <= m < k ==> blds@[(#[trigger] idx@[m]) as int].add.dist@ != d@,
        decreases idx@.len() - k,
    {
        if blds[idx[k]].add.dist == *d {
            return Some(k);
        }
        k = k + 1;
    }
    None
}

/// Some kept index points at a record of district `d`.
spec fn has_district(s: Seq<BuildingModel>, idx: Seq<usize>, d: Seq<char>) -> bool {
    exists|k: int| 0 <= k < idx.len() && s[#[trigger] idx[k] as int].dist == d
}

/// The invariant of the scan over the first `n` records: `idx` holds, for each
/// district seen so far and for no other, the index of its oldest record.
#[verifier::opaque]
spec fn kept(s: Seq<BuildingModel>, n: int, idx: Seq<usize>) -> bool {
    &&& n <= s.len()
    &&& forall|k: int| 0 <= k < idx.len() ==> is_oldest_at(s, n, #[trigger] idx[k] as int)
    &&& forall|j: int| 0 <= j < n ==> has_district(s, idx, #[trigger] s[j].dist)
    &&& forall|k1: int, k2: int| 0 <= k1 < k2 < idx.len() ==> s[(#[trigger] idx[k1]) as int].dist != s[(#[trigger] idx[k2]) as int].dist
}

proof fn lemma_kept_bounds(s: Seq<BuildingModel>, n: int, idx: Seq<usize>)
    requires
        kept(s, n, idx),
    ensures
        n <= s.len(),
        forall|k: int| 0 <= k < idx.len() ==> (#[trigger] idx[k]) < n,
{
    reveal(kept);
    assert forall|k: int| 0 <= k < idx.len() implies (#[trigger] idx[k]) < n by {
        assert(is_oldest_at(s, n, idx[k] as int));
    }
}

proof fn lemma_kept_replace(s: Seq<BuildingModel>, n: int, idx: Seq<usize>, k: int)
    requires
        kept(s, n, idx),
        0 <= n < s.len(),
        n <= usize::MAX,
        0 <= k < idx.len(),
        s[idx[k] as int].dist == s[n].dist,
        s[n].year < s[idx[k] as int].year,
    ensures
        kept(s, n + 1, idx.update(k, n as usize)),
{
    reveal(kept);
    let cur = idx[k] as int;
    let nidx = idx.update(k, n as usize);
    assert(is_oldest_at(s, n, cur));
    assert forall|j: int| 0 <= j < n && (#[trigger] s[j]).dist == s[n].dist implies s[n].year < s[j].year by {
        assert(s[j].dist == s[cur].dist);
    }
    assert(is_oldest_at(s, n + 1, n));
    assert forall|m: int| 0 <= m < nidx.len() implies is_oldest_at(s, n + 1, #[trigger] nidx[m] as int) by {
        if m != k {
            assert(is_oldest_at(s, n, idx[m] as int));
            assert(s[idx[m] as int].dist != s[cur].dist);
        }
    }
    assert forall|j: int| 0 <= j < n + 1 implies has_district(s, nidx, #[trigger] s[j].dist) by {
        if j < n {
            assert(has_district(s, idx, s[j].dist));
            let m0 = choose|m: int| 0 <= m < idx.len() && s[#[trigger] idx[m] as int].dist == s[j].dist;
            assert(s[nidx[m0] as int].dist == s[j].dist);
        } else {
            assert(s[nidx[k] as int].dist == s[j].dist);
        }
    }
    assert forall|k1: int, k2: int| 0 <= k1 < k2 < nidx.len() implies s[(#[trigger] nidx[k1]) as int].dist
        != s[(#[trigger] nidx[k2]) as int].dist by {
        assert(s[idx[k1] as int].dist != s[idx[k2] as int].dist);
    }
}

proof fn lemma_kept_keep(s: Seq<BuildingModel>, n: int, idx: Seq<usize>, k: int)
    requires
        kept(s, n, idx),
        0 <= n < s.len(),
        n <= usize::MAX,
        0 <= k < idx.len(),
        s[idx[k] as int].dist == s[n].dist,
        s[idx[k] as int].year <= s[n].year,
    ensures
        kept(s, n + 1, idx),
{
    reveal(kept);
    let cur = idx[k] as int;
    assert forall|m: int| 0 <= m < idx.len() implies is_oldest_at(s, n + 1, #[trigger] idx[m] as int) by {
        assert(is_oldest_at(s, n, idx[m] as int));
        if m != k {
            assert(s[idx[m] as int].dist != s[cur].dist);
        }
    }
    assert forall|j: int| 0 <= j < n + 1 implies exists|m: int| 0 <= m < idx.len()
        && s[#[trigger] idx[m] as int].dist == #[trigger] s[j].dist by {
        if j == n {
            assert(s[idx[k] as int].dist == s[j].dist);
        }
    }
}

proof fn lemma_kept_push(s: Seq<BuildingModel>, n: int, idx: Seq<usize>)
    requires
        kept(s, n, idx),
        0 <= n < s.len(),
        n <= usize::MAX,
        forall|k: int| 0 <= k < idx.len() ==> s[(#[trigger] idx[k]) as int].dist != s[n].dist,
    ensures
        kept(s, n + 1, idx.push(n as usize)),
{
    reveal(kept);
    let nidx = idx.push(n as usize);
    assert forall|j: int| 0 <= j < n && (#[trigger] s[j]).dist == s[n].dist implies false by {
        assert(has_district(s, idx, s[j].dist));
        let m0 = choose|m: int| 0 <= m < idx.len() && s[#[trigger] idx[m] as int].dist == s[j].dist;
        assert(s[idx[m0] as int].dist != s[n].dist);
    }
    assert(is_oldest_at(s, n + 1, n));
    assert forall|m: int| 0 <= m < nidx.len() implies is_oldest_at(s, n + 1, #[trigger] nidx[m] as int) by {
        if m < idx.len() {
            assert(nidx[m] == idx[m]);
            assert(is_oldest_at(s, n, idx[m] as int));
            assert(s[idx[m] as int].dist != s[n].dist);
        }
    }
    assert forall|j: int| 0 <= j < n + 1 implies has_district(s, nidx, #[trigger] s[j].dist) by {
        if j < n {
            assert(has_district(s, idx, s[j].dist));
            let m0 = choose|m: int| 0 <= m < idx.len() && s[#[trigger] idx[m] as int].dist == s[j].dist;
            assert(nidx[m0] == idx[m0]);
            assert(0 <= m0 < nidx.len() && s[nidx[m0] as int].dist == s[j].dist);
        } else {
            assert(nidx[idx.len() as int] == n);
            assert(s[nidx[idx.len() as int] as int].dist == s[j].dist);
        }
    }
    assert forall|k1: int, k2: int| 0 <= k1 < k2 < nidx.len() implies s[(#[trigger] nidx[k1]) as int].dist
        != s[(#[trigger] nidx[k2]) as int].dist by {
        if k2 == idx.len() {
            assert(s[idx[k1] as int].dist != s[n].dist);
        } else {
            assert(nidx[k1] == idx[k1] && nidx[k2] == idx[k2]);
        }
    }
}

/// The indices of the oldest building of each district, first occurrence kept on ties.
fn oldest_indices(blds: &Vec<Building>) -> (idx: Vec<usize>)
    ensures
        kept(models(blds@), blds@.len() as int, idx@),
{
    let ghost s = models(blds@);
    let mut idx: Vec<usize> = Vec::new();
    let mut i: usize = 0;
    proof {
        reveal(kept);
    }
    while i < blds.len()
        invariant
            i <= blds@.len(),
            s == models(blds@),
            kept(s, i as int, idx@),
        decreases blds@.len() - i,
    {
        proof {
            lemma_kept_bounds(s, i as int, idx@);
        }
        assert forall|k: int| 0 <= k < idx@.len() implies (#[trigger] idx@[k]) < blds@.len() by {}
        match find_district(blds, &idx, &blds[i].add.dist) {
            Some(k) => {
                let cur = idx[k];
                if blds[cur].build_year > blds[i].build_year {
                    proof {
                        lemma_kept_replace(s, i as int, idx@, k as int);
                    }
                    idx.set(k, i);
                } else {
                    proof {
                        lemma_kept_keep(s, i as int, idx@, k as int);
                    }
                }
            },
            None => {
                proof {
                    lemma_kept_push(s, i as int, idx@);
                }
                idx.push(i);
            },
        }
        i = i + 1;
    }
    idx
}

/// The oldest building of each district: one per district, the first of the
/// district's buildings with the smallest build year. The order of the districts
/// carries no meaning.
pub fn get_oldest(blds: &Vec<Building>) -> (r: Vec<&Building>)
    ensures
        is_oldest_report(models(blds@), ref_models(r@)),
{
    let ghost s = models(blds@);
    let idx = oldest_indices(blds);
    proof {
        lemma_kept_bounds(s, blds@.len() as int, idx@);
    }
    let mut res: Vec<&Building> = Vec::new();
    let mut k: usize = 0;
    while k < idx.len()
        invariant
            k <= idx@.len(),
            s == models(blds@),
            forall|m: int| 0 <= m < idx@.len() ==> (#[trigger] idx@[m]) < blds@.len(),
            res@.len() == k,
            forall|m: int| 0 <= m < k ==> (#[trigger] res@[m])@ == s[idx@[m] as int],
        decreases idx@.len() - k,
    {
        res.push(&blds[idx[k]]);
        k = k + 1;
    }
    proof {
        reveal(kept);
        let n = s.len() as int;
        let r = ref_models(res@);
        assert forall|m: int| 0 <= m < r.len() implies is_oldest_of_district(s, #[trigger] r[m]) by {
            assert(r[m] == res@[m]@);
            assert(is_oldest_at(s, n, idx@[m] as int));
        }
        assert forall|i: int| #[trigger] is_oldest_at(s, n, i) implies r.contains(s[i]) by {
            assert(has_district(s, idx@, s[i].dist));
            let m0 = choose|m: int| 0 <= m < idx@.len() && s[#[trigger] idx@[m] as int].dist == s[i].dist;
            assert(is_oldest_at(s, n, idx@[m0] as int));
            lemma_oldest_one_per_district(s, n, idx@[m0] as int, i);
            assert(r[m0] == res@[m0]@);
        }
        assert forall|k1: int, k2: int| 0 <= k1 < k2 < r.len() implies (#[trigger] r[k1]).dist != (#[trigger] r[k2]).dist by {
            assert(r[k1] == res@[k1]@ && r[k2] == res@[k2]@);
        }
    }
    res
}

/// A report holds no building twice.
pub proof fn lemma_report_no_duplicates(s: Seq<BuildingModel>, r: Seq<BuildingModel>)
    requires
        is_oldest_report(s, r),
    ensures
        r.no_duplicates(),
{
    assert forall|k1: int, k2: int| 0 <= k1 < r.len() && 0 <= k2 < r.len() && k1 != k2 implies r[k1] != r[k2] by {
        if k1 < k2 {
            assert(r[k1].dist != r[k2].dist);
        } else {
            assert(r[k2].dist != r[k1].dist);
        }
    }
}

/// Every building of one report on a list is in every other report on it.
proof fn lemma_report_members(s: Seq<BuildingModel>, r1: Seq<BuildingModel>, r2: Seq<BuildingModel>)
    requires
        is_oldest_report(s, r1),
        is_oldest_report(s, r2),
    ensures
        forall|b: BuildingModel| r1.contains(b) ==> r2.contains(b),
{
    assert forall|b: BuildingModel| r1.contains(b) implies r2.contains(b) by {
        let k = choose|k: int| 0 <= k < r1.len() && r1[k] == b;
        assert(is_oldest_of_district(s, r1[k]));
        let i = choose|i: int| #[trigger] is_oldest_at(s, s.len() as int, i) && s[i] == r1[k];
        assert(r2.contains(s[i]));
    }
}

/// The report is determined by the buildings alone: any two reports on the same
/// list, such as those of two runs of the aggregation, hold the same buildings
/// and differ at most in their order.
pub proof fn lemma_report_determined(s: Seq<BuildingModel>, r1: Seq<BuildingModel>, r2: Seq<BuildingModel>)
    requires
        is_oldest_report(s, r1),
        is_oldest_report(s, r2),
    ensures
        r1.to_set() == r2.to_set(),
        r1.len() == r2.len(),
{
    lemma_report_members(s, r1, r2);
    lemma_report_members(s, r2, r1);
    assert(r1.to_set() =~= r2.to_set());
    lemma_report_no_duplicates(s, r1);
    lemma_report_no_duplicates(s, r2);
    r1.unique_seq_to_set();
    r2.unique_seq_to_set();
}

} // verus!
