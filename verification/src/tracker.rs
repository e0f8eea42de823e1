use vstd::prelude::*;

use crate::address::NodeAddress;
use crate::errors::TreeError;
use crate::metrics::point_ok;
use crate::query::dry_path;
use crate::tree::{addr_ok, node_of, node_wf, n_layers, tree_wf, valid_node, CoverTreeReader,
    TreeData};

verus! {

/// The lifecycle of a tracked sequence.
#[derive(Clone, Copy, PartialEq, Eq, Structural, Debug)]
pub enum TrackerState {
    /// Accepting further points.
    Accumulating,
    /// Closed; further updates are refused with `StateError`.
    Finalized,
}

/// The per-path address sequences a tracker holds.
pub open spec fn paths_view(ps: Seq<Vec<NodeAddress>>) -> Seq<Seq<NodeAddress>> {
    ps.map_values(|p: Vec<NodeAddress>| p@)
}

/// The addresses along a dry-insertion path.
pub open spec fn path_addrs(t: TreeData, q: Seq<i64>) -> Seq<NodeAddress> {
    dry_path(t, q, 0, 0).map_values(|e: (u64, NodeAddress)| e.1)
}

/// First index of `a` among the first `j` children, or `-1`.
pub open spec fn child_index(ch: Seq<NodeAddress>, a: NodeAddress, j: int) -> int
    decreases j,
{
    if j <= 0 {
        -1
    } else {
        let r = child_index(ch, a, j - 1);
        if r >= 0 {
            r
        } else if ch[j - 1] == a {
            j - 1
        } else {
            -1
        }
    }
}

/// The branch a path takes out of its node at position `s`: the index of
/// the next path address among the node's children, or the final "rests
/// here" bucket when the path ends at `s` or the next address is not a
/// child.
pub open spec fn bucket_of(t: TreeData, p: Seq<NodeAddress>, s: int) -> int {
    let ch = node_of(t, p[s]).children@;
    if s + 1 < p.len() {
        let r = child_index(ch, p[s + 1], ch.len() as int);
        if r >= 0 {
            r
        } else {
            ch.len() as int
        }
    } else {
        ch.len() as int
    }
}

/// How many of the first `j` positions of one path observe branch `b` of
/// the node at address `a`.
pub open spec fn obs_in_path(t: TreeData, p: Seq<NodeAddress>, a: NodeAddress, b: int, j: int) -> int
    decreases j,
{
    if j <= 0 {
        0
    } else {
        obs_in_path(t, p, a, b, j - 1) + if p[j - 1] == a && bucket_of(t, p, j - 1) == b {
            1int
        } else {
            0int
        }
    }
}

/// Total observations of `(a, b)` over the first `i` tracked paths.
pub open spec fn obs_total(
    t: TreeData,
    paths: Seq<Seq<NodeAddress>>,
    a: NodeAddress,
    b: int,
    i: int,
) -> int
    decreases i,
{
    if i <= 0 {
        0
    } else {
        obs_total(t, paths, a, b, i - 1) + obs_in_path(t, paths[i - 1], a, b, paths[i - 1].len() as int)
    }
}

/// Observation counts are non-negative and never exceed the path length.
pub proof fn lemma_obs_in_path_bounds(t: TreeData, p: Seq<NodeAddress>, a: NodeAddress, b: int, j: int)
    requires
        0 <= j <= p.len(),
    ensures
        0 <= obs_in_path(t, p, a, b, j) <= j,
    decreases j,
{
    if j > 0 {
        lemma_obs_in_path_bounds(t, p, a, b, j - 1);
    }
}

/// A position that observes `(a, b)` contributes at least one count.
pub proof fn lemma_obs_in_path_pos(t: TreeData, p: Seq<NodeAddress>, a: NodeAddress, b: int, s: int, j: int)
    requires
        0 <= s < j <= p.len(),
        p[s] == a,
        bucket_of(t, p, s) == b,
    ensures
        obs_in_path(t, p, a, b, j) >= 1,
    decreases j,
{
    lemma_obs_in_path_bounds(t, p, a, b, j - 1);
    if s < j - 1 {
        lemma_obs_in_path_pos(t, p, a, b, s, j - 1);
    }
}

/// The paths a tracker may hold: non-empty address lists of bounded
/// length, every address valid in the snapshot.
pub open spec fn paths_wf(t: TreeData, pv: Seq<Seq<NodeAddress>>) -> bool {
    forall|i: int|
        0 <= i < pv.len() ==> 1 <= (#[trigger] pv[i]).len() <= 2048 && (forall|s: int|
            0 <= s < pv[i].len() ==> addr_ok(t, #[trigger] pv[i][s]))
}

/// Every address on a dry-insertion path denotes a node, and the path is
/// no longer than the layer ladder.
pub proof fn lemma_dry_path_valid(t: TreeData, q: Seq<i64>, li: int, ni: int)
    requires
        tree_wf(t),
        valid_node(t, li, ni),
    ensures
        1 <= dry_path(t, q, li, ni).len() <= n_layers(t) - li,
        forall|s: int|
            0 <= s < dry_path(t, q, li, ni).len() ==> addr_ok(
                t,
                (#[trigger] dry_path(t, q, li, ni)[s]).1,
            ),
    decreases n_layers(t) - li,
{
    let p = dry_path(t, q, li, ni);
    let n = crate::tree::node_at(t, li, ni);
    assert(addr_ok(t, crate::tree::addr_of(t, li, ni)));
    if 0 <= li && li + 1 < n_layers(t) {
        match crate::query::scan_children(t, q, li, n, n.children@.len() as int) {
            Option::Some(best) => {
                if best.0 <= t.layers@[li + 1].radius as int {
                    lemma_scan_children_valid(t, q, li, ni, n.children@.len() as int);
                    lemma_dry_path_valid(t, q, li + 1, best.1);
                }
            },
            Option::None => {},
        }
    }
}

/// A scan over a well-formed node's children returns a valid slot.
proof fn lemma_scan_children_valid(t: TreeData, q: Seq<i64>, li: int, ni: int, j: int)
    requires
        tree_wf(t),
        valid_node(t, li, ni),
        0 <= j <= crate::tree::node_at(t, li, ni).children@.len(),
    ensures
        crate::query::scan_children(t, q, li, crate::tree::node_at(t, li, ni), j) matches Option::Some(best)
            ==> li + 1 < n_layers(t) && 0 <= best.1 < t.layers@[li + 1].nodes@.len(),
    decreases j,
{
    assert(node_wf(t, li, ni));
    if j > 0 {
        lemma_scan_children_valid(t, q, li, ni, j - 1);
    }
}

/// An online consumer of one reader snapshot: for each incoming point it
/// records the point's dry-insertion path and, from all recorded paths,
/// derives per-node Dirichlet posterior counts over the node's branches.
/// A `window_size` of zero means an unbounded window; otherwise only the
/// newest `window_size` paths are retained and older observations are
/// discounted.
pub struct BayesCategoricalTracker {
    pub prior_weight: u64,
    pub observation_weight: u64,
    pub window_size: usize,
    pub state: TrackerState,
    pub paths: Vec<Vec<NodeAddress>>,
    pub snap: Ghost<TreeData>,
}

/// Internal consistency of a tracker.
pub open spec fn tracker_wf(tr: BayesCategoricalTracker) -> bool {
    &&& tree_wf(tr.snap@)
    &&& 1 <= tr.prior_weight <= 65536
    &&& 1 <= tr.observation_weight <= 65536
    &&& paths_wf(tr.snap@, paths_view(tr.paths@))
    &&& tr.paths@.len() <= 0x100000000
}

impl BayesCategoricalTracker {
    /// A fresh tracker in the accumulating state, bound to one snapshot.
    pub fn new(
        prior_weight: u64,
        observation_weight: u64,
        window_size: usize,
        reader: &CoverTreeReader,
    ) -> (tr: BayesCategoricalTracker)
        requires
            tree_wf(reader.data),
            1 <= prior_weight <= 65536,
            1 <= observation_weight <= 65536,
        ensures
            tracker_wf(tr),
            tr.prior_weight == prior_weight,
            tr.observation_weight == observation_weight,
            tr.window_size == window_size,
            tr.state == TrackerState::Accumulating,
            tr.paths@.len() == 0,
            tr.snap@ == reader.data,
    {
        let tr = BayesCategoricalTracker {
            prior_weight,
            observation_weight,
            window_size,
            state: TrackerState::Accumulating,
            paths: Vec::new(),
            snap: Ghost(reader.data),
        };
        proof {
            assert(paths_view(tr.paths@) =~= Seq::<Seq<NodeAddress>>::empty());
        }
        tr
    }

    /// How many points the tracker currently retains.
    pub fn sequence_count(&self) -> (n: usize)
        ensures
            n == self.paths@.len(),
    {
        self.paths.len()
    }

    /// Closes the sequence; no further updates are accepted.
    pub fn close(&mut self)
        ensures
            *final(self) == (BayesCategoricalTracker {
                state: TrackerState::Finalized,
                ..*old(self)
            }),
    {
        self.state = TrackerState::Finalized;
    }

    /// Feeds one point: records its dry-insertion path, evicting the
    /// oldest retained path first when a bounded window is full.  Fails
    /// with `StateError`, changing nothing, exactly when the tracker is
    /// already finalized.
    pub fn push(&mut self, reader: &CoverTreeReader, point: &Vec<i64>) -> (r: Result<
        (),
        TreeError,
    >)
        requires
            tracker_wf(*old(self)),
            reader.data == old(self).snap@,
            point@.len() == reader.data.cloud.dim,
            point_ok(point@),
            old(self).paths@.len() < 0x100000000,
        ensures
            tracker_wf(*final(self)),
            final(self).snap@ == old(self).snap@,
            final(self).prior_weight == old(self).prior_weight,
            final(self).observation_weight == old(self).observation_weight,
            final(self).window_size == old(self).window_size,
            final(self).state == old(self).state,
            r is Ok <==> old(self).state == TrackerState::Accumulating,
            r is Err ==> *final(self) == *old(self) && r == Err::<(), TreeError>(
                TreeError::StateError,
            ),
            r is Ok ==> paths_view(final(self).paths@) == (if old(self).window_size > 0 && old(
                self,
            ).paths@.len() >= old(self).window_size {
                paths_view(old(self).paths@).subrange(1, old(self).paths@.len() as int)
            } else {
                paths_view(old(self).paths@)
            }).push(path_addrs(old(self).snap@, point@)),
    {
        match self.state {
            TrackerState::Finalized => Err(TreeError::StateError),
            TrackerState::Accumulating => {
                let steps = reader.dry_insert(point);
                let mut addrs: Vec<NodeAddress> = Vec::new();
                let mut j: usize = 0;
                while j < steps.len()
                    invariant
                        0 <= j <= steps@.len(),
                        addrs@.len() == j,
                        forall|s: int| 0 <= s < j ==> addrs@[s] == (#[trigger] steps@[s]).1,
                    decreases steps@.len() - j,
                {
                    let a = steps[j].1;
                    addrs.push(a);
                    j = j + 1;
                }
                proof {
                    assert(addrs@ =~= path_addrs(self.snap@, point@));
                    lemma_dry_path_valid(self.snap@, point@, 0, 0);
                    assert(n_layers(self.snap@) <= 2048);
                }
                let ghost paths0 = paths_view(self.paths@);
                let evict: bool = self.window_size > 0 && self.paths.len() >= self.window_size;
                if evict {
                    let _evicted = self.paths.remove(0);
                    proof {
                        assert(paths_view(self.paths@) =~= paths0.subrange(
                            1,
                            paths0.len() as int,
                        ));
                    }
                }
                let ghost kept = paths_view(self.paths@);
                self.paths.push(addrs);
                proof {
                    assert(paths_view(self.paths@) =~= kept.push(addrs@));
                    assert(paths_wf(self.snap@, paths_view(self.paths@))) by {
                        let pv = paths_view(self.paths@);
                        assert forall|i: int| 0 <= i < pv.len() implies 1 <= (
                        #[trigger] pv[i]).len() <= 2048 && (forall|s: int|
                            0 <= s < pv[i].len() ==> addr_ok(self.snap@, #[trigger] pv[i][s])) by {
                            if i < pv.len() - 1 {
                                assert(pv[i] == kept[i]);
                                if evict {
                                    assert(kept[i] == paths0[i + 1]);
                                } else {
                                    assert(kept[i] == paths0[i]);
                                }
                            } else {
                                assert(pv[i] == addrs@);
                            }
                        }
                    }
                }
                Ok(())
            },
        }
    }

    /// The posterior observation counts the tracker has accumulated for
    /// one node: one count per child branch, and a final count for paths
    /// that end at the node.
    pub fn posterior_counts(&self, reader: &CoverTreeReader, a: NodeAddress) -> (r: Vec<u64>)
        requires
            tracker_wf(*self),
            reader.data == self.snap@,
            addr_ok(reader.data, a),
        ensures
            r@.len() == node_of(reader.data, a).children@.len() + 1,
            forall|b: int|
                0 <= b < r@.len() ==> (#[trigger] r@[b] as int) == obs_total(
                    reader.data,
                    paths_view(self.paths@),
                    a,
                    b,
                    self.paths@.len() as int,
                ) && (r@[b] as int) <= (self.paths@.len() as int) * 2048,
    {
        let t = &reader.data;
        let ghost pv = paths_view(self.paths@);
        let li: usize = layer_index_exec(t, a.scale_index);
        let nch: usize = t.layers[li].nodes[a.slot_index].children.len();
        let mut counts: Vec<u64> = Vec::new();
        let mut b: usize = 0;
        while b < nch
            invariant
                0 <= b <= nch,
                counts@.len() == b,
                forall|b2: int| 0 <= b2 < b as int ==> (#[trigger] counts@[b2]) == 0,
            decreases nch - b,
        {
            counts.push(0);
            b = b + 1;
        }
        counts.push(0);
        let mut i: usize = 0;
        while i < self.paths.len()
            invariant
                tracker_wf(*self),
                reader.data == self.snap@,
                t == &reader.data,
                addr_ok(*t, a),
                pv == paths_view(self.paths@),
                nch == node_of(*t, a).children@.len(),
                0 <= i <= self.paths@.len(),
                pv.len() == self.paths@.len(),
                counts@.len() == nch + 1,
                forall|b2: int|
                    0 <= b2 < counts@.len() ==> (#[trigger] counts@[b2] as int) == obs_total(
                        *t,
                        pv,
                        a,
                        b2,
                        i as int,
                    ),
                forall|b2: int|
                    0 <= b2 < counts@.len() ==> (#[trigger] counts@[b2] as int) <= (i as int)
                        * 2048,
            decreases self.paths@.len() - i,
        {
            let path = &self.paths[i];
            let plen: usize = path.len();
            proof {
                assert(pv[i as int] == path@);
                assert(1 <= path@.len() <= 2048);
            }
            let mut s: usize = 0;
            while s < plen
                invariant
                    tracker_wf(*self),
                    reader.data == self.snap@,
                    t == &reader.data,
                    addr_ok(*t, a),
                    pv == paths_view(self.paths@),
                    nch == node_of(*t, a).children@.len(),
                    0 <= i < self.paths@.len(),
                    pv.len() == self.paths@.len(),
                    path == &self.paths@[i as int],
                    path@ == pv[i as int],
                    plen == path@.len(),
                    1 <= plen <= 2048,
                    0 <= s <= plen,
                    counts@.len() == nch + 1,
                    forall|b2: int|
                        0 <= b2 < counts@.len() ==> (#[trigger] counts@[b2] as int) == obs_total(
                            *t,
                            pv,
                            a,
                            b2,
                            i as int,
                        ) + obs_in_path(*t, pv[i as int], a, b2, s as int),
                    forall|b2: int|
                        0 <= b2 < counts@.len() ==> (#[trigger] counts@[b2] as int) <= (i as int)
                            * 2048 + (s as int),
                decreases plen - s,
            {
                let here: NodeAddress = path[s];
                if here.scale_index == a.scale_index && here.slot_index == a.slot_index {
                    proof {
                        assert(pv[i as int][s as int] == a);
                    }
                    // Which branch did the path take out of this node?
                    let bucket: usize = if s + 1 < plen {
                        let next: NodeAddress = path[s + 1];
                        let cli: usize = layer_index_exec(t, a.scale_index);
                        let mut cj: usize = 0;
                        let mut hit: usize = nch;
                        let mut seen: bool = false;
                        let ghost ch = node_of(*t, a).children@;
                        while cj < nch && !seen
                            invariant
                                tracker_wf(*self),
                                t == &reader.data,
                                addr_ok(*t, a),
                                ch == node_of(*t, a).children@,
                                nch == ch.len(),
                                cli as int == t.top_scale - a.scale_index,
                                0 <= cj <= nch,
                                !seen ==> hit == nch && child_index(ch, next, cj as int) == -1,
                                seen ==> (hit as int) < nch as int && child_index(
                                    ch,
                                    next,
                                    nch as int,
                                ) == hit as int,
                            decreases nch - cj + (if seen {
                                0int
                            } else {
                                1int
                            }),
                        {
                            let ca: NodeAddress = t.layers[cli].nodes[a.slot_index].children[cj];
                            proof {
                                assert(ca == ch[cj as int]);
                            }
                            if ca.scale_index == next.scale_index && ca.slot_index
                                == next.slot_index {
                                proof {
                                    assert(ca == next);
                                    lemma_child_index_found(ch, next, cj as int, nch as int);
                                }
                                hit = cj;
                                seen = true;
                            } else {
                                proof {
                                    assert(ca != next);
                                }
                                cj = cj + 1;
                            }
                        }
                        proof {
                            if !seen {
                                assert(child_index(ch, next, nch as int) == -1);
                            }
                            assert(next == pv[i as int][s as int + 1]);
                            assert(hit as int == bucket_of(*t, pv[i as int], s as int));
                        }
                        hit
                    } else {
                        proof {
                            assert(nch as int == bucket_of(*t, pv[i as int], s as int));
                        }
                        nch
                    };
                    let cur: u64 = counts[bucket];
                    counts[bucket] = cur + 1;
                    proof {
                        assert forall|b2: int| 0 <= b2 < counts@.len() implies (
                        #[trigger] counts@[b2] as int) == obs_total(*t, pv, a, b2, i as int)
                            + obs_in_path(*t, pv[i as int], a, b2, s as int + 1) by {
                        }
                    }
                } else {
                    proof {
                        assert(pv[i as int][s as int] != a);
                    }
                }
                s = s + 1;
            }
            proof {
                assert((i as int) * 2048 + 2048 == (i as int + 1) * 2048) by (nonlinear_arith);
            }
            i = i + 1;
        }
        counts
    }

    /// The posterior Dirichlet concentration of one node: for each branch
    /// the node's baseline concentration scaled by `prior_weight`, plus
    /// the observed count scaled by `observation_weight`.
    pub fn posterior(&self, reader: &CoverTreeReader, a: NodeAddress) -> (r: Vec<u64>)
        requires
            tracker_wf(*self),
            reader.data == self.snap@,
            addr_ok(reader.data, a),
            crate::plugins::dirichlets_attached(reader.data),
        ensures
            r@.len() == node_of(reader.data, a).children@.len() + 1,
            forall|b: int|
                0 <= b < r@.len() ==> (#[trigger] r@[b] as int) == (self.prior_weight as int)
                    * prior_weight_of(reader.data, a, b) + (self.observation_weight as int)
                    * obs_total(
                    reader.data,
                    paths_view(self.paths@),
                    a,
                    b,
                    self.paths@.len() as int,
                ),
    {
        let t = &reader.data;
        let counts = self.posterior_counts(reader, a);
        let li: usize = layer_index_exec(t, a.scale_index);
        let ghost li0 = t.top_scale - a.scale_index;
        let nch: usize = t.layers[li].nodes[a.slot_index].children.len();
        proof {
            assert(valid_node(*t, li0, a.slot_index as int));
            assert(node_wf(*t, li0, a.slot_index as int));
        }
        let mut r: Vec<u64> = Vec::new();
        let mut b: usize = 0;
        while b < nch
            invariant
                tracker_wf(*self),
                reader.data == self.snap@,
                t == &reader.data,
                addr_ok(*t, a),
                crate::plugins::dirichlets_attached(*t),
                li0 == t.top_scale - a.scale_index,
                li as int == li0,
                nch == node_of(*t, a).children@.len(),
                counts@.len() == nch + 1,
                forall|b2: int|
                    0 <= b2 < counts@.len() ==> (#[trigger] counts@[b2] as int) == obs_total(
                        *t,
                        paths_view(self.paths@),
                        a,
                        b2,
                        self.paths@.len() as int,
                    ) && (counts@[b2] as int) <= 0x100000000 * 2048,
                0 <= b <= nch,
                r@.len() == b,
                forall|b2: int|
                    0 <= b2 < b as int ==> (#[trigger] r@[b2] as int) == (self.prior_weight as int)
                        * prior_weight_of(*t, a, b2) + (self.observation_weight as int) * (
                    counts@[b2] as int),
            decreases nch - b,
        {
            proof {
                assert(valid_node(*t, li0, a.slot_index as int));
                assert(node_wf(*t, li0, a.slot_index as int));
            }
            let prior: u64 = {
                let ca: NodeAddress = t.layers[li].nodes[a.slot_index].children[b];
                let cnt: usize = t.layers[li + 1].nodes[ca.slot_index].members.len();
                proof {
                    assert(valid_node(*t, li0 + 1, ca.slot_index as int));
                    assert(node_wf(*t, li0 + 1, ca.slot_index as int));
                    crate::plugins::lemma_increasing_len(
                        crate::tree::node_at(*t, li0 + 1, ca.slot_index as int).members@,
                        t.cloud.points@.len() as int,
                    );
                    assert(cnt as int == prior_weight_of(*t, a, b as int));
                }
                cnt as u64
            };
            let c: u64 = counts[b];
            proof {
                assert((self.prior_weight as int) * (prior as int) <= 65536 * 0x100000)
                    by (nonlinear_arith)
                    requires
                        1 <= (self.prior_weight as int) <= 65536,
                        0 <= (prior as int) <= 0x100000,
                {
                }
                assert(0 <= (self.prior_weight as int) * (prior as int)) by (nonlinear_arith)
                    requires
                        0 <= (self.prior_weight as int),
                        0 <= (prior as int),
                {
                }
                assert((self.observation_weight as int) * (c as int) <= 65536 * (0x100000000
                    * 2048)) by (nonlinear_arith)
                    requires
                        1 <= (self.observation_weight as int) <= 65536,
                        0 <= (c as int) <= 0x100000000 * 2048,
                {
                }
                assert(0 <= (self.observation_weight as int) * (c as int)) by (nonlinear_arith)
                    requires
                        0 <= (self.observation_weight as int),
                        0 <= (c as int),
                {
                }
            }
            let v: u64 = self.prior_weight * prior + self.observation_weight * c;
            r.push(v);
            b = b + 1;
        }
        // The final bucket: points resting at the node itself.
        proof {
            assert(valid_node(*t, li0, a.slot_index as int));
            assert(node_wf(*t, li0, a.slot_index as int));
        }
        let prior: u64 = {
            let cnt: usize = t.layers[li].nodes[a.slot_index].singles.len();
            proof {
                crate::plugins::lemma_increasing_len(
                    node_of(*t, a).singles@,
                    t.cloud.points@.len() as int,
                );
                assert(cnt as int == prior_weight_of(*t, a, nch as int));
            }
            cnt as u64
        };
        let c: u64 = counts[nch];
        proof {
            assert((self.prior_weight as int) * (prior as int) <= 65536 * 0x100000)
                by (nonlinear_arith)
                requires
                    1 <= (self.prior_weight as int) <= 65536,
                    0 <= (prior as int) <= 0x100000,
            {
            }
            assert(0 <= (self.prior_weight as int) * (prior as int)) by (nonlinear_arith)
                requires
                    0 <= (self.prior_weight as int),
                    0 <= (prior as int),
            {
            }
            assert((self.observation_weight as int) * (c as int) <= 65536 * (0x100000000 * 2048))
                by (nonlinear_arith)
                requires
                    1 <= (self.observation_weight as int) <= 65536,
                    0 <= (c as int) <= 0x100000000 * 2048,
            {
            }
            assert(0 <= (self.observation_weight as int) * (c as int)) by (nonlinear_arith)
                requires
                    0 <= (self.observation_weight as int),
                    0 <= (c as int),
            {
            }
        }
        let v: u64 = self.prior_weight * prior + self.observation_weight * c;
        r.push(v);
        r
    }
}

/// The baseline Dirichlet concentration of branch `b` of the node at `a`.
pub open spec fn prior_weight_of(t: TreeData, a: NodeAddress, b: int) -> int {
    let n = node_of(t, a);
    if b < n.children@.len() {
        node_at_child_members(t, a, b)
    } else {
        n.singles@.len() as int
    }
}

pub open spec fn node_at_child_members(t: TreeData, a: NodeAddress, b: int) -> int {
    crate::tree::node_at(
        t,
        t.top_scale - a.scale_index + 1,
        node_of(t, a).children@[b].slot_index as int,
    ).members@.len() as int
}

/// The layer a scale index maps to, as an executable index.
pub fn layer_index_exec(t: &TreeData, s: i32) -> (li: usize)
    requires
        tree_wf(*t),
        0 <= t.top_scale - s < n_layers(*t),
    ensures
        li as int == t.top_scale - s,
{
    (t.top_scale - s) as usize
}

/// Two path collections that agree on a prefix accumulate the same
/// observation totals over that prefix.
proof fn lemma_obs_total_prefix(
    t: TreeData,
    ps1: Seq<Seq<NodeAddress>>,
    ps2: Seq<Seq<NodeAddress>>,
    a: NodeAddress,
    b: int,
    i: int,
)
    requires
        0 <= i <= ps1.len(),
        i <= ps2.len(),
        forall|j: int| 0 <= j < i ==> #[trigger] ps1[j] == ps2[j],
    ensures
        obs_total(t, ps1, a, b, i) == obs_total(t, ps2, a, b, i),
    decreases i,
{
    if i > 0 {
        lemma_obs_total_prefix(t, ps1, ps2, a, b, i - 1);
    }
}

/// With an unbounded window the tracker's posterior only grows: pushing
/// another point never decreases any branch's observation total, and it
/// strictly increases the total of every branch that the new point's
/// path observes — so the posterior concentration of every node on the
/// path grows by at least one observation weight, and no concentration
/// ever shrinks.
pub proof fn lemma_posterior_monotone(
    t: TreeData,
    paths: Seq<Seq<NodeAddress>>,
    p: Seq<NodeAddress>,
    a: NodeAddress,
    b: int,
)
    ensures
        obs_total(t, paths.push(p), a, b, paths.len() as int + 1) >= obs_total(
            t,
            paths,
            a,
            b,
            paths.len() as int,
        ),
        forall|s: int|
            0 <= s < p.len() && p[s] == a && #[trigger] bucket_of(t, p, s) == b ==> obs_total(
                t,
                paths.push(p),
                a,
                b,
                paths.len() as int + 1,
            ) >= obs_total(t, paths, a, b, paths.len() as int) + 1,
{
    let n = paths.len() as int;
    lemma_obs_total_prefix(t, paths.push(p), paths, a, b, n);
    assert(paths.push(p)[n] == p);
    lemma_obs_in_path_bounds(t, p, a, b, p.len() as int);
    assert forall|s: int|
        0 <= s < p.len() && p[s] == a && #[trigger] bucket_of(t, p, s) == b implies obs_total(
        t,
        paths.push(p),
        a,
        b,
        n + 1,
    ) >= obs_total(t, paths, a, b, n) + 1 by {
        lemma_obs_in_path_pos(t, p, a, b, s, p.len() as int);
    }
}

/// If the first match of `a` among the children is at `j`, the scan of
/// any longer prefix returns `j`.
proof fn lemma_child_index_found(ch: Seq<NodeAddress>, a: NodeAddress, j: int, n: int)
    requires
        0 <= j < n <= ch.len(),
        child_index(ch, a, j) == -1,
        ch[j] == a,
    ensures
        child_index(ch, a, n) == j,
    decreases n,
{
    if n - 1 > j {
        lemma_child_index_found(ch, a, j, n - 1);
    }
}

} // verus!
