use vstd::prelude::*;

use crate::address::NodeAddress;
use crate::metrics::point_ok;
use crate::points::{cloud_wf, dist_q, PointCloud};
use crate::tree::{
    addr_of, node_at, node_wf, n_layers, tree_wf, valid_node, CoverTreeReader, Node, TreeData,
};

verus! {

/// The best `(distance, slot)` pair over the first `j` children of a node
/// on layer `li`, measured from the query; ties go to the earlier child.
pub open spec fn scan_children(t: TreeData, q: Seq<i64>, li: int, n: Node, j: int) -> Option<
    (int, int),
>
    decreases j,
{
    if j <= 0 {
        None
    } else {
        let prev = scan_children(t, q, li, n, j - 1);
        let ca = n.children@[j - 1];
        let dj = dist_q(t.cloud, q, node_at(t, li + 1, ca.slot_index as int).rep as int);
        match prev {
            Option::None => Option::Some((dj, ca.slot_index as int)),
            Option::Some(best) => if dj < best.0 {
                Option::Some((dj, ca.slot_index as int))
            } else {
                Option::Some(best)
            },
        }
    }
}

/// The routing path a query point would take if it were inserted: from
/// the node at `(li, ni)` downward, always into the nearest child whose
/// covering radius still contains the point, until none does.
pub open spec fn dry_path(t: TreeData, q: Seq<i64>, li: int, ni: int) -> Seq<(u64, NodeAddress)>
    decreases n_layers(t) - li,
{
    let n = node_at(t, li, ni);
    let d = dist_q(t.cloud, q, n.rep as int) as u64;
    let here = seq![(d, addr_of(t, li, ni))];
    if 0 <= li && li + 1 < n_layers(t) {
        match scan_children(t, q, li, n, n.children@.len() as int) {
            Option::Some(best) => if best.0 <= t.layers@[li + 1].radius as int {
                here + dry_path(t, q, li + 1, best.1)
            } else {
                here
            },
            Option::None => here,
        }
    } else {
        here
    }
}

/// Dry insertion is pure: the path is a function of the snapshot and the
/// query alone, so two calls on the same reader with the same point
/// return identical paths, and the reader itself is never mutated (the
/// query borrows it immutably).
pub proof fn lemma_dry_insert_deterministic(
    t: TreeData,
    q: Seq<i64>,
    r1: Seq<(u64, NodeAddress)>,
    r2: Seq<(u64, NodeAddress)>,
)
    requires
        r1 == dry_path(t, q, 0, 0),
        r2 == dry_path(t, q, 0, 0),
    ensures
        r1 == r2,
{
}

/// Strict ordering of stored points around a query: first by distance,
/// ties broken by the smaller point index.
pub open spec fn key_lt(c: PointCloud, q: Seq<i64>, i: int, j: int) -> bool {
    dist_q(c, q, i) < dist_q(c, q, j) || (dist_q(c, q, i) == dist_q(c, q, j) && i < j)
}

/// Whether point index `i` occurs in a result sequence.
pub open spec fn in_result(r: Seq<(u64, usize)>, i: int) -> bool {
    exists|a: int| 0 <= a < r.len() && ((#[trigger] r[a]).1 as int) == i
}

/// Exactness of a nearest-neighbour answer for `min(k, N)` results:
/// correct distances, strictly sorted by the query ordering, and every
/// stored point left out of the answer is farther (in the query ordering)
/// than every point in it — the answer is the brute-force top `k`.
pub open spec fn knn_ok(c: PointCloud, q: Seq<i64>, k: int, r: Seq<(u64, usize)>) -> bool {
    &&& r.len() == if k < c.points@.len() {
        k
    } else {
        c.points@.len() as int
    }
    &&& forall|a: int|
        0 <= a < r.len() ==> (((#[trigger] r[a]).1 as int) < c.points@.len() && (r[a].0 as int)
            == dist_q(c, q, r[a].1 as int))
    &&& forall|a: int, b: int|
        0 <= a < b < r.len() ==> key_lt(
            c,
            q,
            (#[trigger] r[a]).1 as int,
            (#[trigger] r[b]).1 as int,
        )
    &&& forall|i: int, a: int|
        #![trigger key_lt(c, q, r[a].1 as int, i)]
        0 <= i < c.points@.len() && !in_result(r, i) && 0 <= a < r.len() ==> key_lt(
            c,
            q,
            r[a].1 as int,
            i,
        )
}

/// One selection step: merging a new candidate into the sorted top-`k`
/// prefix preserves all the selection invariants.
proof fn lemma_knn_step_insert(
    c: PointCloud,
    q: Seq<i64>,
    i: usize,
    k: usize,
    d: u64,
    r_old: Seq<(u64, usize)>,
    r_new: Seq<(u64, usize)>,
    pos: int,
    b: int,
)
    requires
        (i as int) < c.points@.len(),
        d as int == dist_q(c, q, i as int),
        r_old.len() == if (k as int) < i as int {
            k as int
        } else {
            i as int
        },
        forall|a: int|
            0 <= a < r_old.len() ==> (((#[trigger] r_old[a]).1 as int) < i as int && (
            r_old[a].0 as int) == dist_q(c, q, r_old[a].1 as int)),
        forall|a: int, bb: int|
            0 <= a < bb < r_old.len() ==> key_lt(
                c,
                q,
                (#[trigger] r_old[a]).1 as int,
                (#[trigger] r_old[bb]).1 as int,
            ),
        forall|ii: int, a: int|
            #![trigger key_lt(c, q, r_old[a].1 as int, ii)]
            0 <= ii < i as int && !in_result(r_old, ii) && 0 <= a < r_old.len() ==> key_lt(
                c,
                q,
                r_old[a].1 as int,
                ii,
            ),
        forall|ii: int|
            0 <= ii < i as int && !(#[trigger] in_result(r_old, ii)) ==> r_old.len() == k as int,
        0 <= pos <= r_old.len(),
        (pos as int) < k as int,
        forall|a: int| 0 <= a < pos ==> key_lt(c, q, (#[trigger] r_old[a]).1 as int, i as int),
        pos < r_old.len() ==> key_lt(c, q, i as int, r_old[pos].1 as int),
        pos <= b <= r_old.len(),
        r_new == r_old.subrange(0, pos) + seq![(d, i)] + r_old.subrange(pos, b),
        b == r_old.len() || b + 1 == k as int,
        b + 1 <= k as int,
    ensures
        r_new.len() == if (k as int) < i as int + 1 {
            k as int
        } else {
            i as int + 1
        },
        forall|a: int|
            0 <= a < r_new.len() ==> (((#[trigger] r_new[a]).1 as int) < i as int + 1 && (
            r_new[a].0 as int) == dist_q(c, q, r_new[a].1 as int)),
        forall|a: int, bb: int|
            0 <= a < bb < r_new.len() ==> key_lt(
                c,
                q,
                (#[trigger] r_new[a]).1 as int,
                (#[trigger] r_new[bb]).1 as int,
            ),
        forall|ii: int, a: int|
            #![trigger key_lt(c, q, r_new[a].1 as int, ii)]
            0 <= ii < i as int + 1 && !in_result(r_new, ii) && 0 <= a < r_new.len() ==> key_lt(
                c,
                q,
                r_new[a].1 as int,
                ii,
            ),
        forall|ii: int|
            0 <= ii < i as int + 1 && !(#[trigger] in_result(r_new, ii)) ==> r_new.len()
                == k as int,
{
    let n_new = r_new.len();
    assert(n_new == b + 1);
    // Index map of the merged sequence.
    assert(forall|a: int| 0 <= a < pos ==> #[trigger] r_new[a] == r_old[a]);
    assert(r_new[pos] == (d, i));
    assert(forall|a: int| pos < a < n_new ==> #[trigger] r_new[a] == r_old[a - 1]);
    // The new point is a member of the answer.
    assert(in_result(r_new, i as int)) by {
        assert(((r_new[pos]).1 as int) == i as int);
    }
    // Sortedness.
    assert forall|a: int, bb: int| 0 <= a < bb < n_new implies key_lt(
        c,
        q,
        (#[trigger] r_new[a]).1 as int,
        (#[trigger] r_new[bb]).1 as int,
    ) by {
        if bb < pos {
        } else if bb == pos {
            assert(key_lt(c, q, r_old[a].1 as int, i as int));
        } else {
            if a < pos {
                if a < bb - 1 {
                    assert(key_lt(c, q, r_old[a].1 as int, r_old[bb - 1].1 as int));
                }
            } else if a == pos {
                assert(key_lt(c, q, i as int, r_old[pos].1 as int));
                if pos < bb - 1 {
                    assert(key_lt(c, q, r_old[pos].1 as int, r_old[bb - 1].1 as int));
                }
            } else {
                assert(key_lt(c, q, r_old[a - 1].1 as int, r_old[bb - 1].1 as int));
            }
        }
    }
    // Membership carried over for every kept slot.
    assert forall|e: int| 0 <= e < b implies in_result(r_new, r_old[e].1 as int) by {
        if e < pos {
            assert(((r_new[e]).1 as int) == r_old[e].1 as int);
        } else {
            assert(((r_new[e + 1]).1 as int) == r_old[e].1 as int);
        }
    }
    // Top-k: everything outside the answer is farther than everything in it.
    assert forall|ii: int, a: int|
        0 <= ii < i as int + 1 && !in_result(r_new, ii) && 0 <= a < n_new implies key_lt(
        c,
        q,
        (r_new[a]).1 as int,
        ii,
    ) by {
        assert(ii != i as int);
        if in_result(r_old, ii) {
            let e = choose|e: int| 0 <= e < r_old.len() && ((#[trigger] r_old[e]).1 as int) == ii;
            assert(e >= b);
            // `a` indexes a kept entry: old entries stay sorted below e,
            // and the new point ranks below the entry at `pos <= e`.
            if a < pos {
                assert(key_lt(c, q, r_old[a].1 as int, r_old[e].1 as int));
            } else if a == pos {
                assert(pos < r_old.len());
                assert(key_lt(c, q, i as int, r_old[pos].1 as int));
                if pos < e {
                    assert(key_lt(c, q, r_old[pos].1 as int, r_old[e].1 as int));
                }
            } else {
                assert(a - 1 < b);
                assert(key_lt(c, q, r_old[a - 1].1 as int, r_old[e].1 as int));
            }
        } else {
            assert(r_old.len() == k as int);
            if a == pos {
                assert(pos < r_old.len());
                assert(key_lt(c, q, i as int, r_old[pos].1 as int));
                assert(key_lt(c, q, r_old[pos].1 as int, ii));
            } else if a < pos {
                assert(key_lt(c, q, r_old[a].1 as int, ii));
            } else {
                assert(key_lt(c, q, r_old[a - 1].1 as int, ii));
            }
        }
    }
    // Fullness: a point can only be left out once the answer holds k.
    assert forall|ii: int|
        0 <= ii < i as int + 1 && !(#[trigger] in_result(r_new, ii)) implies n_new
        == k as int by {
        assert(ii != i as int);
        if in_result(r_old, ii) {
            let e = choose|e: int| 0 <= e < r_old.len() && ((#[trigger] r_old[e]).1 as int) == ii;
            assert(e >= b);
            assert(b < r_old.len());
            assert(b + 1 == k as int);
        } else {
            assert(r_old.len() == k as int);
            assert(b + 1 == k as int) by {
                if b == r_old.len() {
                    assert(n_new == k as int + 1);
                    assert(n_new <= k as int);
                }
            }
        }
    }
}

impl CoverTreeReader {
    /// The coarsest scale index of the tree.
    pub fn top_scale(&self) -> (s: i32)
        ensures
            s == self.data.top_scale,
    {
        self.data.top_scale
    }

    /// The finest scale index that currently has a layer.
    pub fn bottom_scale(&self) -> (s: i32)
        requires
            tree_wf(self.data),
        ensures
            s as int == self.data.top_scale - (n_layers(self.data) - 1),
    {
        let last: usize = self.data.layers.len() - 1;
        self.data.layers[last].scale_index
    }

    /// How many points the underlying cloud stores.
    pub fn point_count(&self) -> (n: usize)
        ensures
            n == self.data.cloud.points@.len(),
    {
        self.data.cloud.len()
    }

    /// Reports the routing path a point would take if inserted, from the
    /// root down, without mutating anything: each step carries the
    /// distance from the point to that node's representative and the
    /// node's address.  The result is a pure function of the snapshot
    /// and the query, so repeated calls return identical paths.
    pub fn dry_insert(&self, q: &Vec<i64>) -> (r: Vec<(u64, NodeAddress)>)
        requires
            tree_wf(self.data),
            q@.len() == self.data.cloud.dim,
            point_ok(q@),
        ensures
            r@ == dry_path(self.data, q@, 0, 0),
            r@.len() >= 1,
    {
        let t = &self.data;
        let mut li: usize = 0;
        let mut ni: usize = 0;
        let mut out: Vec<(u64, NodeAddress)> = Vec::new();
        proof {
            assert(out@ + dry_path(*t, q@, 0, 0) =~= dry_path(*t, q@, 0, 0));
        }
        loop
            invariant
                tree_wf(*t),
                t == &self.data,
                q@.len() == t.cloud.dim,
                point_ok(q@),
                valid_node(*t, li as int, ni as int),
                out@ + dry_path(*t, q@, li as int, ni as int) == dry_path(*t, q@, 0, 0),
            decreases n_layers(*t) - li,
        {
            proof {
                assert(node_wf(*t, li as int, ni as int));
            }
            let ghost out_before = out@;
            let nd: u64 = t.cloud.distance_to(q, t.layers[li].nodes[ni].rep);
            let addr = NodeAddress { scale_index: t.layers[li].scale_index, slot_index: ni };
            proof {
                assert(addr == addr_of(*t, li as int, ni as int));
            }
            out.push((nd, addr));
            let ghost n_spec = node_at(*t, li as int, ni as int);
            let nchildren: usize = t.layers[li].nodes[ni].children.len();
            let mut j: usize = 0;
            let mut found: bool = false;
            let mut best_d: u64 = 0;
            let mut best_slot: usize = 0;
            while j < nchildren
                invariant
                    tree_wf(*t),
                    t == &self.data,
                    q@.len() == t.cloud.dim,
                    point_ok(q@),
                    valid_node(*t, li as int, ni as int),
                    n_spec == node_at(*t, li as int, ni as int),
                    nchildren == n_spec.children@.len(),
                    0 <= j <= nchildren,
                    (if found {
                        Option::Some((best_d as int, best_slot as int))
                    } else {
                        Option::<(int, int)>::None
                    }) == scan_children(*t, q@, li as int, n_spec, j as int),
                    found ==> li as int + 1 < n_layers(*t) && (best_slot as int)
                        < t.layers@[li as int + 1].nodes@.len(),
                decreases nchildren - j,
            {
                proof {
                    assert(node_wf(*t, li as int, ni as int));
                }
                let ca: NodeAddress = t.layers[li].nodes[ni].children[j];
                let crep: usize = t.layers[li + 1].nodes[ca.slot_index].rep;
                proof {
                    assert(node_wf(*t, li as int + 1, ca.slot_index as int));
                }
                let dd: u64 = t.cloud.distance_to(q, crep);
                if !found || dd < best_d {
                    found = true;
                    best_d = dd;
                    best_slot = ca.slot_index;
                }
                j = j + 1;
            }
            let mut do_descend: bool = false;
            if found {
                let cr: u64 = t.layers[li + 1].radius;
                if best_d <= cr {
                    do_descend = true;
                }
            }
            if do_descend {
                proof {
                    let rest = dry_path(*t, q@, li as int + 1, best_slot as int);
                    assert(dry_path(*t, q@, li as int, ni as int) == seq![(nd, addr)] + rest);
                    assert(out@ + rest =~= out_before + (seq![(nd, addr)] + rest));
                }
                li = li + 1;
                ni = best_slot;
            } else {
                proof {
                    assert(dry_path(*t, q@, li as int, ni as int) == seq![(nd, addr)]);
                    assert(out@ =~= out_before + seq![(nd, addr)]);
                    assert(out@ == dry_path(*t, q@, 0, 0));
                }
                return out;
            }
        }
    }

    /// Exact k-nearest-neighbour query: the answer holds the `min(k, N)`
    /// stored points nearest to the query, sorted by ascending distance
    /// with ties broken by ascending point index, each paired with its
    /// exact distance.
    pub fn knn(&self, q: &Vec<i64>, k: usize) -> (r: Vec<(u64, usize)>)
        requires
            tree_wf(self.data),
            q@.len() == self.data.cloud.dim,
            point_ok(q@),
        ensures
            knn_ok(self.data.cloud, q@, k as int, r@),
    {
        let c = &self.data.cloud;
        let n: usize = c.len();
        let mut res: Vec<(u64, usize)> = Vec::new();
        let mut i: usize = 0;
        while i < n
            invariant
                cloud_wf(*c),
                c == &self.data.cloud,
                q@.len() == c.dim,
                point_ok(q@),
                0 <= i <= n,
                n == c.points@.len(),
                res@.len() == if (k as int) < i as int {
                    k as int
                } else {
                    i as int
                },
                forall|a: int|
                    0 <= a < res@.len() ==> (((#[trigger] res@[a]).1 as int) < i as int && (
                    res@[a].0 as int) == dist_q(*c, q@, res@[a].1 as int)),
                forall|a: int, b: int|
                    0 <= a < b < res@.len() ==> key_lt(
                        *c,
                        q@,
                        (#[trigger] res@[a]).1 as int,
                        (#[trigger] res@[b]).1 as int,
                    ),
                forall|ii: int, a: int|
                    #![trigger key_lt(*c, q@, res@[a].1 as int, ii)]
                    0 <= ii < i as int && !in_result(res@, ii) && 0 <= a < res@.len() ==> key_lt(
                        *c,
                        q@,
                        res@[a].1 as int,
                        ii,
                    ),
                forall|ii: int|
                    0 <= ii < i as int && !(#[trigger] in_result(res@, ii)) ==> res@.len()
                        == k as int,
            decreases n - i,
        {
            let d: u64 = c.distance_to(q, i);
            let mut pos: usize = 0;
            while pos < res.len() && (res[pos].0 < d || (res[pos].0 == d && res[pos].1 < i))
                invariant
                    cloud_wf(*c),
                    q@.len() == c.dim,
                    point_ok(q@),
                    0 <= i < n,
                    n == c.points@.len(),
                    d as int == dist_q(*c, q@, i as int),
                    0 <= pos <= res@.len(),
                    forall|a: int|
                        0 <= a < res@.len() ==> (((#[trigger] res@[a]).1 as int) < i as int && (
                        res@[a].0 as int) == dist_q(*c, q@, res@[a].1 as int)),
                    forall|a: int|
                        0 <= a < pos ==> key_lt(*c, q@, (#[trigger] res@[a]).1 as int, i as int),
                decreases res@.len() - pos,
            {
                pos = pos + 1;
            }
            proof {
                if (pos as int) < res@.len() {
                    assert(key_lt(*c, q@, i as int, res@[pos as int].1 as int));
                }
            }
            if pos < k {
                let ghost r_old = res@;
                let mut merged: Vec<(u64, usize)> = Vec::new();
                let mut a: usize = 0;
                proof {
                    assert(merged@ =~= r_old.subrange(0, 0));
                }
                while a < pos
                    invariant
                        0 <= a <= pos,
                        pos <= r_old.len(),
                        res@ == r_old,
                        merged@ == r_old.subrange(0, a as int),
                    decreases pos - a,
                {
                    merged.push(res[a]);
                    proof {
                        assert(merged@ =~= r_old.subrange(0, a as int + 1));
                    }
                    a = a + 1;
                }
                merged.push((d, i));
                let mut bb: usize = pos;
                proof {
                    assert(merged@ =~= r_old.subrange(0, pos as int) + seq![(d, i)]
                        + r_old.subrange(pos as int, pos as int));
                }
                while bb < res.len() && merged.len() < k
                    invariant
                        pos <= bb <= r_old.len(),
                        res@ == r_old,
                        merged@ == r_old.subrange(0, pos as int) + seq![(d, i)] + r_old.subrange(
                            pos as int,
                            bb as int,
                        ),
                        merged@.len() == bb + 1,
                        merged@.len() <= k as int,
                    decreases r_old.len() - bb,
                {
                    merged.push(res[bb]);
                    proof {
                        assert(merged@ =~= r_old.subrange(0, pos as int) + seq![(d, i)]
                            + r_old.subrange(pos as int, bb as int + 1));
                    }
                    bb = bb + 1;
                }
                proof {
                    lemma_knn_step_insert(*c, q@, i, k, d, r_old, merged@, pos as int, bb as int);
                }
                res = merged;
            } else {
                proof {
                    assert(pos == res@.len());
                    assert forall|ii: int, a: int|
                        0 <= ii < i as int + 1 && !in_result(res@, ii) && 0 <= a
                            < res@.len() implies key_lt(*c, q@, (res@[a]).1 as int, ii) by {
                        if ii == i as int {
                            assert(key_lt(*c, q@, res@[a].1 as int, i as int));
                        } else {
                            assert(key_lt(*c, q@, res@[a].1 as int, ii));
                        }
                    }
                }
            }
            i = i + 1;
        }
        res
    }
}

} // verus!
