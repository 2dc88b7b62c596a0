//! Density-based clustering (DBSCAN) over integer coordinate vectors.
//!
//! Points are equal-length vectors of integer coordinates; the neighborhood
//! radius is given as a squared distance, so `dist < eps` is decided exactly
//! as `dist_sq < eps_sq` with no square root and no rounding.

use vstd::prelude::*;
use crate::utility::COORD_BOUND;
use crate::utility::dist_sq;
use crate::utility::euclidean_distance_sq;

verus! {

/// Classification of one point according to the DBSCAN algorithm.
#[derive(Debug, Copy, Clone, PartialEq, Eq, Structural)]
pub enum Label {
    Core(usize),
    Edge(usize),
    Noise,
    Unchecked,
}

/// A point the metric accepts: at most 65536 axes, all coordinates bounded.
pub open spec fn point_ok(p: Seq<i64>) -> bool {
    &&& p.len() <= 0x10000
    &&& forall|j: int| 0 <= j < p.len() ==> -COORD_BOUND <= #[trigger] p[j] <= COORD_BOUND
}

/// A well-formed dataset: every point is acceptable and has the same
/// dimension as the first one.
pub open spec fn dataset_ok(data: Seq<Seq<i64>>) -> bool {
    forall|i: int| 0 <= i < data.len() ==>
        point_ok(#[trigger] data[i]) && data[i].len() == data[0].len()
}

/// The dataset as a sequence of coordinate sequences.
pub open spec fn points_view(d: Vec<Vec<i64>>) -> Seq<Seq<i64>> {
    d@.map_values(|v: Vec<i64>| v@)
}

/// Indices, among the first `k` points, whose distance to `q` is below the
/// radius (in ascending order).
pub open spec fn neighbors_upto(data: Seq<Seq<i64>>, q: Seq<i64>, eps_sq: u128, k: int) -> Seq<usize>
    decreases k,
{
    if k <= 0 {
        Seq::empty()
    } else {
        let r = neighbors_upto(data, q, eps_sq, k - 1);
        if dist_sq(data[k - 1], q) < eps_sq as int {
            r.push((k - 1) as usize)
        } else {
            r
        }
    }
}

/// The neighborhood of `q`: all point indices within the radius of `q`
/// (a point is its own neighbor, at distance zero).
pub open spec fn neighbors(data: Seq<Seq<i64>>, q: Seq<i64>, eps_sq: u128) -> Seq<usize> {
    neighbors_upto(data, q, eps_sq, data.len() as int)
}

/// A point whose own neighborhood is too small to seed a cluster.
pub open spec fn sparse(data: Seq<Seq<i64>>, eps_sq: u128, min_points: usize, i: int) -> bool {
    neighbors(data, data[i], eps_sq).len() < min_points
}

/// What each label may say of its point, with every cluster id below `cb`:
/// `Noise` and `Edge` points have sparse neighborhoods (an `Edge` is a former
/// `Noise` point reached from a core point).
pub open spec fn label_inv(data: Seq<Seq<i64>>, eps_sq: u128, min_points: usize, l: Label, i: int, cb: int) -> bool {
    match l {
        Label::Core(c) => c < cb,
        Label::Edge(c) => c < cb && sparse(data, eps_sq, min_points, i),
        Label::Noise => sparse(data, eps_sq, min_points, i),
        Label::Unchecked => true,
    }
}

/// `label_inv` for a whole labelling.
pub open spec fn labels_ok(data: Seq<Seq<i64>>, eps_sq: u128, min_points: usize, labels: Seq<Label>, cb: int) -> bool {
    forall|i: int| 0 <= i < labels.len() ==>
        label_inv(data, eps_sq, min_points, #[trigger] labels[i], i, cb)
}

/// Each `Core(c)` label sits at or after `seeds[c]`, which itself holds a
/// `Core(c)` label: `seeds[c]` is the index where cluster `c` was seeded.
pub open spec fn core_seeded(labels: Seq<Label>, seeds: Seq<int>, m: int) -> bool {
    match labels[m] {
        Label::Core(c) => c < seeds.len() && seeds[c as int] <= m,
        _ => true,
    }
}

/// The seed indices of the clusters handed out so far: valid, strictly
/// increasing positions below `bound`, each holding its own cluster's
/// `Core` label, and no `Core` label stands before its cluster's seed.
pub open spec fn seeds_ok(labels: Seq<Label>, seeds: Seq<int>, bound: int) -> bool {
    &&& forall|c: int| 0 <= c < seeds.len() ==> 0 <= #[trigger] seeds[c] < bound
    &&& forall|c1: int, c2: int| 0 <= c1 < c2 < seeds.len() ==> seeds[c1] < seeds[c2]
    &&& forall|c: int| 0 <= c < seeds.len() ==>
        labels[#[trigger] seeds[c]] == Label::Core(c as usize)
    &&& forall|m: int| 0 <= m < labels.len() ==> #[trigger] core_seeded(labels, seeds, m)
}

/// The label places its point in cluster `c` as a core point.
pub open spec fn is_core(l: Label, c: usize) -> bool {
    l == Label::Core(c)
}

/// Some point before position `i` is a core point of cluster `c`.
pub open spec fn has_core_before(labels: Seq<Label>, c: usize, i: int) -> bool {
    exists|i1: int| 0 <= i1 < i && is_core(#[trigger] labels[i1], c)
}

/// Cluster ids are handed out in increasing order of first discovery by
/// input index: before any core point of cluster `c2`, every cluster
/// `c1 < c2` already has a core point.
pub open spec fn ids_by_first_discovery(labels: Seq<Label>) -> bool {
    forall|i2: int, c1: usize, c2: usize|
        0 <= i2 < labels.len() && c1 < c2 && #[trigger] is_core(labels[i2], c2) ==>
            #[trigger] has_core_before(labels, c1, i2)
}

proof fn lemma_seeds_give_discovery_order(labels: Seq<Label>, seeds: Seq<int>, bound: int)
    requires
        seeds_ok(labels, seeds, bound),
    ensures
        ids_by_first_discovery(labels),
{
    assert forall|i2: int, c1: usize, c2: usize|
        0 <= i2 < labels.len() && c1 < c2 && #[trigger] is_core(labels[i2], c2)
            implies #[trigger] has_core_before(labels, c1, i2) by {
        assert(core_seeded(labels, seeds, i2));
        assert((c2 as int) < seeds.len());
        assert(seeds[c1 as int] < seeds[c2 as int] <= i2);
        assert(is_core(labels[seeds[c1 as int]], c1));
    }
}

proof fn lemma_seeds_ok_set_non_core(labels: Seq<Label>, seeds: Seq<int>, bound: int, k: int, v: Label)
    requires
        seeds_ok(labels, seeds, bound),
        bound <= labels.len(),
        0 <= k < labels.len(),
        labels[k] == Label::Unchecked || labels[k] == Label::Noise,
        v == Label::Noise || (v matches Label::Edge(_)),
    ensures
        seeds_ok(labels.update(k, v), seeds, bound),
{
    let lu = labels.update(k, v);
    assert forall|c: int| 0 <= c < seeds.len() implies lu[#[trigger] seeds[c]] == Label::Core(c as usize) by {
        assert(labels[seeds[c]] == Label::Core(c as usize));
        assert(seeds[c] != k);
    }
    assert forall|m: int| 0 <= m < lu.len() implies #[trigger] core_seeded(lu, seeds, m) by {
        assert(core_seeded(labels, seeds, m));
        if m != k {
            assert(lu[m] == labels[m]);
        }
    }
}

proof fn lemma_seeds_ok_seed(labels: Seq<Label>, seeds: Seq<int>, bound: int, k: int)
    requires
        seeds_ok(labels, seeds, bound),
        bound <= labels.len(),
        0 <= k < labels.len(),
        labels[k] == Label::Unchecked,
        bound <= k,
    ensures
        seeds_ok(labels.update(k, Label::Core(seeds.len() as usize)), seeds.push(k), k + 1),
{
    let lu = labels.update(k, Label::Core(seeds.len() as usize));
    let su = seeds.push(k);
    assert forall|c: int| 0 <= c < su.len() implies 0 <= #[trigger] su[c] < k + 1 by {
        if c < seeds.len() {
            assert(su[c] == seeds[c]);
        }
    }
    assert forall|c1: int, c2: int| 0 <= c1 < c2 < su.len() implies su[c1] < su[c2] by {
        if c2 < seeds.len() {
            assert(su[c1] == seeds[c1] && su[c2] == seeds[c2]);
        } else {
            assert(su[c1] == seeds[c1] && su[c2] == k);
        }
    }
    assert forall|c: int| 0 <= c < su.len() implies lu[#[trigger] su[c]] == Label::Core(c as usize) by {
        if c < seeds.len() {
            assert(labels[seeds[c]] == Label::Core(c as usize));
            assert(seeds[c] != k);
        }
    }
    assert forall|m: int| 0 <= m < lu.len() implies #[trigger] core_seeded(lu, su, m) by {
        if m != k {
            assert(core_seeded(labels, seeds, m));
            assert(lu[m] == labels[m]);
            match labels[m] {
                Label::Core(c) => {
                    assert(su[c as int] == seeds[c as int]);
                },
                _ => {},
            }
        }
    }
}

proof fn lemma_seeds_ok_grow(labels: Seq<Label>, seeds: Seq<int>, bound: int, k: int)
    requires
        seeds_ok(labels, seeds, bound),
        bound <= labels.len(),
        0 <= k < labels.len(),
        labels[k] == Label::Unchecked,
        seeds.len() > 0,
        seeds[seeds.len() - 1] <= k,
    ensures
        seeds_ok(labels.update(k, Label::Core((seeds.len() - 1) as usize)), seeds, bound),
{
    let lu = labels.update(k, Label::Core((seeds.len() - 1) as usize));
    assert forall|c: int| 0 <= c < seeds.len() implies lu[#[trigger] seeds[c]] == Label::Core(c as usize) by {
        assert(labels[seeds[c]] == Label::Core(c as usize));
        assert(seeds[c] != k);
    }
    assert forall|m: int| 0 <= m < lu.len() implies #[trigger] core_seeded(lu, seeds, m) by {
        if m != k {
            assert(core_seeded(labels, seeds, m));
            assert(lu[m] == labels[m]);
        }
    }
}

proof fn lemma_labels_ok_weaken(data: Seq<Seq<i64>>, eps_sq: u128, min_points: usize, labels: Seq<Label>, cb1: int, cb2: int)
    requires
        labels_ok(data, eps_sq, min_points, labels, cb1),
        cb1 <= cb2,
    ensures
        labels_ok(data, eps_sq, min_points, labels, cb2),
{
    assert forall|i: int| 0 <= i < labels.len() implies
        label_inv(data, eps_sq, min_points, #[trigger] labels[i], i, cb2) by {
        assert(label_inv(data, eps_sq, min_points, labels[i], i, cb1));
    }
}

/// Number of still-unclassified points; the termination measure of the
/// cluster-expansion worklist.
pub open spec fn count_unchecked(s: Seq<Label>) -> nat
    decreases s.len(),
{
    if s.len() == 0 {
        0
    } else {
        count_unchecked(s.drop_last()) + if s.last() == Label::Unchecked { 1nat } else { 0nat }
    }
}

proof fn lemma_count_unchecked_update(s: Seq<Label>, k: int, v: Label)
    requires
        0 <= k < s.len(),
        v != Label::Unchecked,
    ensures
        s[k] == Label::Unchecked ==> count_unchecked(s.update(k, v)) + 1 == count_unchecked(s),
        s[k] != Label::Unchecked ==> count_unchecked(s.update(k, v)) == count_unchecked(s),
    decreases s.len(),
{
    let su = s.update(k, v);
    if k == s.len() - 1 {
        assert(su.drop_last() =~= s.drop_last());
        assert(su.last() == v);
    } else {
        lemma_count_unchecked_update(s.drop_last(), k, v);
        assert(su.drop_last() =~= s.drop_last().update(k, v));
        assert(su.last() == s.last());
    }
}


/// One pass of the cluster-expansion worklist, as a mathematical function:
/// process `work[j..]` for cluster `c` over the current labelling.  A noise
/// point reached here becomes an edge of `c`; an unclassified point becomes
/// a core of `c`, and if its own neighborhood is dense its neighbors are
/// appended to the worklist.
pub open spec fn expand(data: Seq<Seq<i64>>, eps_sq: u128, min_points: usize, labels: Seq<Label>, work: Seq<usize>, j: int, c: int) -> Seq<Label>
    decreases count_unchecked(labels), work.len() - j,
        via expand_decreases
{
    if j < 0 || j >= work.len() {
        labels
    } else {
        let np = work[j] as int;
        if 0 <= np < labels.len() {
            if labels[np] == Label::Noise {
                expand(data, eps_sq, min_points, labels.update(np, Label::Edge(c as usize)), work, j + 1, c)
            } else if labels[np] == Label::Unchecked {
                let nn = neighbors(data, data[np], eps_sq);
                let labels2 = labels.update(np, Label::Core(c as usize));
                if nn.len() >= min_points {
                    expand(data, eps_sq, min_points, labels2, work + nn, j + 1, c)
                } else {
                    expand(data, eps_sq, min_points, labels2, work, j + 1, c)
                }
            } else {
                expand(data, eps_sq, min_points, labels, work, j + 1, c)
            }
        } else {
            labels
        }
    }
}

#[via_fn]
proof fn expand_decreases(data: Seq<Seq<i64>>, eps_sq: u128, min_points: usize, labels: Seq<Label>, work: Seq<usize>, j: int, c: int) {
    if 0 <= j < work.len() {
        let np = work[j] as int;
        if 0 <= np < labels.len() {
            if labels[np] == Label::Noise {
                lemma_count_unchecked_update(labels, np, Label::Edge(c as usize));
            } else if labels[np] == Label::Unchecked {
                lemma_count_unchecked_update(labels, np, Label::Core(c as usize));
            }
        }
    }
}

proof fn lemma_expand_len(data: Seq<Seq<i64>>, eps_sq: u128, min_points: usize, labels: Seq<Label>, work: Seq<usize>, j: int, c: int)
    ensures
        expand(data, eps_sq, min_points, labels, work, j, c).len() == labels.len(),
    decreases count_unchecked(labels), work.len() - j,
{
    if 0 <= j < work.len() {
        let np = work[j] as int;
        if 0 <= np < labels.len() {
            if labels[np] == Label::Noise {
                lemma_count_unchecked_update(labels, np, Label::Edge(c as usize));
                lemma_expand_len(data, eps_sq, min_points, labels.update(np, Label::Edge(c as usize)), work, j + 1, c);
            } else if labels[np] == Label::Unchecked {
                lemma_count_unchecked_update(labels, np, Label::Core(c as usize));
                let nn = neighbors(data, data[np], eps_sq);
                let labels2 = labels.update(np, Label::Core(c as usize));
                if nn.len() >= min_points {
                    lemma_expand_len(data, eps_sq, min_points, labels2, work + nn, j + 1, c);
                } else {
                    lemma_expand_len(data, eps_sq, min_points, labels2, work, j + 1, c);
                }
            } else {
                lemma_expand_len(data, eps_sq, min_points, labels, work, j + 1, c);
            }
        }
    }
}

/// The main DBSCAN scan from point `i` on, as a mathematical function:
/// skip classified points; label a sparse point noise; seed cluster `c` at
/// a dense point and grow it through `expand`.
pub open spec fn dbscan_loop(data: Seq<Seq<i64>>, eps_sq: u128, min_points: usize, labels: Seq<Label>, i: int, c: int) -> Seq<Label>
    decreases labels.len() - i,
        via dbscan_loop_decreases
{
    if i < 0 || i >= labels.len() {
        labels
    } else if labels[i] != Label::Unchecked {
        dbscan_loop(data, eps_sq, min_points, labels, i + 1, c)
    } else {
        let nb = neighbors(data, data[i], eps_sq);
        if nb.len() < min_points {
            dbscan_loop(data, eps_sq, min_points, labels.update(i, Label::Noise), i + 1, c)
        } else {
            let grown = expand(data, eps_sq, min_points, labels.update(i, Label::Core(c as usize)), nb, 0, c);
            dbscan_loop(data, eps_sq, min_points, grown, i + 1, c + 1)
        }
    }
}

#[via_fn]
proof fn dbscan_loop_decreases(data: Seq<Seq<i64>>, eps_sq: u128, min_points: usize, labels: Seq<Label>, i: int, c: int) {
    if 0 <= i < labels.len() && labels[i] == Label::Unchecked {
        let nb = neighbors(data, data[i], eps_sq);
        if nb.len() >= min_points {
            lemma_expand_len(data, eps_sq, min_points, labels.update(i, Label::Core(c as usize)), nb, 0, c);
        }
    }
}

/// The labelling DBSCAN computes: every run on the same dataset with the
/// same radius and density threshold gives exactly this sequence.
pub open spec fn spec_dbscan(data: Seq<Seq<i64>>, eps_sq: u128, min_points: usize) -> Seq<Label> {
    dbscan_loop(data, eps_sq, min_points, Seq::new(data.len(), |q: int| Label::Unchecked), 0, 0)
}

/// Relabeling is idempotent: two runs of the algorithm on the same input
/// with the same parameters assign identical labels, because both equal
/// the mathematical labelling `spec_dbscan`.
pub proof fn lemma_relabeling_deterministic(data: Seq<Seq<i64>>, eps_sq: u128, min_points: usize, l1: Seq<Label>, l2: Seq<Label>)
    requires
        l1 == spec_dbscan(data, eps_sq, min_points),
        l2 == spec_dbscan(data, eps_sq, min_points),
    ensures
        l1 == l2,
{
}

/// Indices of all points within the radius of `point`, in ascending order.
fn region_query(dataset: &Vec<Vec<i64>>, point: &Vec<i64>, eps_sq: u128) -> (r: Vec<usize>)
    requires
        dataset_ok(points_view(*dataset)),
        point_ok(point@),
        forall|i: int| 0 <= i < dataset@.len() ==> #[trigger] dataset@[i]@.len() == point@.len(),
    ensures
        r@ == neighbors(points_view(*dataset), point@, eps_sq),
        forall|m: int| 0 <= m < r@.len() ==> #[trigger] r@[m] < dataset@.len(),
{
    let ghost dv = points_view(*dataset);
    let mut r: Vec<usize> = Vec::new();
    let mut i: usize = 0;
    while i < dataset.len()
        invariant
            dv == points_view(*dataset),
            dataset_ok(dv),
            point_ok(point@),
            forall|k: int| 0 <= k < dataset@.len() ==> #[trigger] dataset@[k]@.len() == point@.len(),
            i <= dataset@.len(),
            r@ == neighbors_upto(dv, point@, eps_sq, i as int),
            forall|m: int| 0 <= m < r@.len() ==> #[trigger] r@[m] < dataset@.len(),
        decreases dataset@.len() - i,
    {
        assert(dv[i as int] == dataset@[i as int]@);
        let d = euclidean_distance_sq(&dataset[i], point);
        if d < eps_sq {
            r.push(i);
        }
        i = i + 1;
    }
    r
}

/// The DBSCAN algorithm (expansion-worklist variant).
///
/// Every point receives a final label: `Core(c)` or `Edge(c)` places it in
/// cluster `c`, `Noise` leaves it unclustered.  On return no point is left
/// `Unchecked`; every `Noise` or `Edge` point has a neighborhood smaller
/// than `min_points`; and every cluster id is below `dataset.len()`.
pub fn dbscan(dataset: &Vec<Vec<i64>>, eps_sq: u128, min_points: usize) -> (labels: Vec<Label>)
    requires
        dataset_ok(points_view(*dataset)),
        1 <= min_points,
        1 <= eps_sq,
    ensures
        labels@.len() == dataset@.len(),
        forall|i: int| 0 <= i < labels@.len() ==> #[trigger] labels@[i] != Label::Unchecked,
        labels_ok(points_view(*dataset), eps_sq, min_points, labels@, dataset@.len() as int),
        labels@ == spec_dbscan(points_view(*dataset), eps_sq, min_points),
        ids_by_first_discovery(labels@),
{
    let ghost dv = points_view(*dataset);
    let n = dataset.len();
    let mut labels: Vec<Label> = Vec::new();
    let mut k: usize = 0;
    while k < n
        invariant
            n == dataset@.len(),
            k <= n,
            labels@.len() == k,
            forall|m: int| 0 <= m < k ==> #[trigger] labels@[m] == Label::Unchecked,
        decreases n - k,
    {
        labels.push(Label::Unchecked);
        k = k + 1;
    }

    proof {
        assert(dv.len() == dataset@.len());
        assert(labels@ =~= Seq::new(dv.len(), |q: int| Label::Unchecked));
    }
    let mut current_cluster: usize = 0;
    let ghost mut seeds: Seq<int> = Seq::empty();
    let mut i: usize = 0;
    while i < n
        invariant
            n == dataset@.len(),
            dv == points_view(*dataset),
            dataset_ok(dv),
            1 <= min_points,
            1 <= eps_sq,
            labels@.len() == n,
            i <= n,
            current_cluster <= i,
            labels_ok(dv, eps_sq, min_points, labels@, current_cluster as int),
            forall|m: int| 0 <= m < i ==> #[trigger] labels@[m] != Label::Unchecked,
            dbscan_loop(dv, eps_sq, min_points, labels@, i as int, current_cluster as int)
                == spec_dbscan(dv, eps_sq, min_points),
            seeds.len() == current_cluster as int,
            seeds_ok(labels@, seeds, i as int),
        decreases n - i,
    {
        let ghost labs0 = labels@;
        let ghost c0 = current_cluster as int;
        if labels[i] == Label::Unchecked {
            proof {
                assert forall|m: int| 0 <= m < dataset@.len() implies #[trigger] dataset@[m]@.len() == dataset@[i as int]@.len() by {
                    assert(dv[m] == dataset@[m]@);
                    assert(dv[i as int] == dataset@[i as int]@);
                    assert(point_ok(dv[m]) && dv[m].len() == dv[0].len());
                    assert(point_ok(dv[i as int]) && dv[i as int].len() == dv[0].len());
                }
                assert(dv[i as int] == dataset@[i as int]@);
                assert(point_ok(dv[i as int]));
            }
            let mut neighbor_list = region_query(dataset, &dataset[i], eps_sq);
            if neighbor_list.len() < min_points {
                proof {
                    lemma_seeds_ok_set_non_core(labels@, seeds, i as int, i as int, Label::Noise);
                }
                labels.set(i, Label::Noise);
                proof {
                    assert(neighbor_list@ == neighbors(dv, dv[i as int], eps_sq));
                    assert(dbscan_loop(dv, eps_sq, min_points, labs0, i as int, c0)
                        == dbscan_loop(dv, eps_sq, min_points, labels@, i as int + 1, c0));
                }
                assert(labels_ok(dv, eps_sq, min_points, labels@, current_cluster as int)) by {
                    assert(sparse(dv, eps_sq, min_points, i as int));
                    assert(forall|m: int| 0 <= m < labels@.len() && m != i ==>
                        label_inv(dv, eps_sq, min_points, #[trigger] labels@[m], m, current_cluster as int));
                }
            } else {
                proof {
                    lemma_labels_ok_weaken(dv, eps_sq, min_points, labels@, current_cluster as int, current_cluster as int + 1);
                    lemma_seeds_ok_seed(labels@, seeds, i as int, i as int);
                    seeds = seeds.push(i as int);
                }
                labels.set(i, Label::Core(current_cluster));
                let ghost seed_labels = labels@;
                let ghost work0 = neighbor_list@;
                proof {
                    assert(work0 == neighbors(dv, dv[i as int], eps_sq));
                }
                let mut j: usize = 0;
                while j < neighbor_list.len()
                    invariant
                        n == dataset@.len(),
                        dv == points_view(*dataset),
                        dataset_ok(dv),
                        1 <= min_points,
                        1 <= eps_sq,
                        labels@.len() == n,
                        i < n,
                        current_cluster < n,
                        j <= neighbor_list@.len(),
                        forall|m: int| 0 <= m < neighbor_list@.len() ==> #[trigger] neighbor_list@[m] < n,
                        labels_ok(dv, eps_sq, min_points, labels@, current_cluster as int + 1),
                        forall|m: int| 0 <= m < i ==> #[trigger] labels@[m] != Label::Unchecked,
                        labels@[i as int] != Label::Unchecked,
                        expand(dv, eps_sq, min_points, labels@, neighbor_list@, j as int, current_cluster as int)
                            == expand(dv, eps_sq, min_points, seed_labels, work0, 0, current_cluster as int),
                        seeds.len() == current_cluster as int + 1,
                        seeds[seeds.len() - 1] == i as int,
                        seeds_ok(labels@, seeds, i as int + 1),
                    decreases count_unchecked(labels@), neighbor_list@.len() - j,
                {
                    let np = neighbor_list[j];
                    let lab = labels[np];
                    let ghost pre = labels@;
                    let ghost prework = neighbor_list@;
                    if lab == Label::Noise {
                        proof {
                            lemma_count_unchecked_update(labels@, np as int, Label::Edge(current_cluster));
                            assert(label_inv(dv, eps_sq, min_points, labels@[np as int], np as int, current_cluster as int + 1));
                            lemma_seeds_ok_set_non_core(labels@, seeds, i as int + 1, np as int, Label::Edge(current_cluster));
                        }
                        labels.set(np, Label::Edge(current_cluster));
                        proof {
                            assert(expand(dv, eps_sq, min_points, pre, prework, j as int, current_cluster as int)
                                == expand(dv, eps_sq, min_points, labels@, prework, j as int + 1, current_cluster as int));
                        }
                    } else if lab == Label::Unchecked {
                        proof {
                            assert forall|m: int| 0 <= m < dataset@.len() implies #[trigger] dataset@[m]@.len() == dataset@[np as int]@.len() by {
                                assert(dv[m] == dataset@[m]@);
                                assert(dv[np as int] == dataset@[np as int]@);
                                assert(point_ok(dv[m]) && dv[m].len() == dv[0].len());
                                assert(point_ok(dv[np as int]) && dv[np as int].len() == dv[0].len());
                            }
                            assert(dv[np as int] == dataset@[np as int]@);
                            assert(point_ok(dv[np as int]));
                        }
                        let mut new_neighbors = region_query(dataset, &dataset[np], eps_sq);
                        proof {
                            lemma_count_unchecked_update(labels@, np as int, Label::Core(current_cluster));
                            assert(np as int >= i as int);
                            lemma_seeds_ok_grow(labels@, seeds, i as int + 1, np as int);
                        }
                        labels.set(np, Label::Core(current_cluster));
                        let ghost nn0 = new_neighbors@;
                        proof {
                            assert(nn0 == neighbors(dv, dv[np as int], eps_sq));
                        }
                        if new_neighbors.len() >= min_points {
                            neighbor_list.append(&mut new_neighbors);
                            proof {
                                assert(neighbor_list@ == prework + nn0);
                                assert(expand(dv, eps_sq, min_points, pre, prework, j as int, current_cluster as int)
                                    == expand(dv, eps_sq, min_points, labels@, neighbor_list@, j as int + 1, current_cluster as int));
                            }
                        } else {
                            proof {
                                assert(expand(dv, eps_sq, min_points, pre, prework, j as int, current_cluster as int)
                                    == expand(dv, eps_sq, min_points, labels@, prework, j as int + 1, current_cluster as int));
                            }
                        }
                    } else {
                        proof {
                            assert(labels@[np as int] != Label::Noise && labels@[np as int] != Label::Unchecked);
                            assert(expand(dv, eps_sq, min_points, pre, prework, j as int, current_cluster as int)
                                == expand(dv, eps_sq, min_points, labels@, prework, j as int + 1, current_cluster as int));
                        }
                    }
                    j = j + 1;
                }
                proof {
                    assert(expand(dv, eps_sq, min_points, labels@, neighbor_list@, j as int, current_cluster as int)
                        == labels@);
                    assert(labels@ == expand(dv, eps_sq, min_points, seed_labels, work0, 0, current_cluster as int));
                    assert(dbscan_loop(dv, eps_sq, min_points, labs0, i as int, c0)
                        == dbscan_loop(dv, eps_sq, min_points, labels@, i as int + 1, c0 + 1));
                }
                current_cluster = current_cluster + 1;
            }
        } else {
            proof {
                assert(dbscan_loop(dv, eps_sq, min_points, labels@, i as int, c0)
                    == dbscan_loop(dv, eps_sq, min_points, labels@, i as int + 1, c0));
            }
        }
        i = i + 1;
    }
    proof {
        lemma_labels_ok_weaken(dv, eps_sq, min_points, labels@, current_cluster as int, n as int);
        assert(dbscan_loop(dv, eps_sq, min_points, labels@, n as int, current_cluster as int)
            == labels@);
        lemma_seeds_give_discovery_order(labels@, seeds, n as int);
    }
    labels
}

} // verus!
