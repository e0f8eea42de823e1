use vstd::prelude::*;

use crate::address::NodeAddress;
use crate::baseline::{DirichletBaseline, KLDivergenceStats};
use crate::errors::TreeError;
use crate::metrics::{point_ok, Metric};
use crate::plugins::{
    dirichlets_attached, gaussians_attached, lemma_attachments_structural, summaries_present,
    summarized, NodeSummary, PluginKind,
};
use crate::points::{rows_ok, PointCloud};
use crate::query::{dry_path, knn_ok};
use crate::tracker::BayesCategoricalTracker;
use vstd::pervasive::unreached;
use crate::tree::{
    addr_ok, node_at, node_of, n_layers, params_ok, tree_wf, valid_node, CoverTreeBuilder,
    CoverTreeReader, TreeParams,
};

verus! {

/// A snapshot description of one layer.
#[derive(Clone, Copy, PartialEq, Eq, Structural, Debug)]
pub struct LayerInfo {
    pub scale_index: i32,
    pub radius: u64,
    pub node_count: usize,
}

/// A snapshot description of one node.
pub struct NodeInfo {
    pub address: NodeAddress,
    pub rep: usize,
    pub parent: Option<NodeAddress>,
    pub children: Vec<NodeAddress>,
    pub members: Vec<usize>,
    pub singleton_count: usize,
    pub summary: Option<NodeSummary>,
}

/// The top-level handle: a builder configuration that `fit` turns into a
/// frozen, queryable snapshot.  Mirrors the lifecycle Builder -> Writer ->
/// Reader; after `fit` succeeds the reader is held here and every query
/// goes against that one consistent snapshot.
pub struct CoverTree {
    pub builder: CoverTreeBuilder,
    pub metric: Metric,
    pub reader: Option<CoverTreeReader>,
}

/// Whether `fit` has produced a snapshot.
pub open spec fn is_fitted(c: CoverTree) -> bool {
    c.reader is Some
}

/// Everything a fitted tree guarantees: well-formed structure, base
/// summaries, and both plugin attachments.
pub open spec fn fitted_ok(c: CoverTree) -> bool {
    c.reader matches Some(rd) ==> tree_wf(rd.data) && summarized(rd.data) && gaussians_attached(
        rd.data,
    ) && dirichlets_attached(rd.data)
}

/// The snapshot of a fitted tree.
pub open spec fn snapshot(c: CoverTree) -> crate::tree::TreeData {
    c.reader->Some_0.data
}

impl CoverTree {
    /// A fresh, unfitted tree with default build parameters and the
    /// squared-L2 metric.
    pub fn new() -> (c: CoverTree)
        ensures
            !is_fitted(c),
            fitted_ok(c),
            c.builder.params.scale_base == 2,
            c.builder.params.leaf_cutoff == 1,
            c.builder.params.min_res_index == 0,
            c.builder.params.use_singletons == true,
            c.metric == Metric::L2,
    {
        CoverTree { builder: CoverTreeBuilder::new(), metric: Metric::L2, reader: None }
    }

    pub fn set_scale_base(&mut self, x: u64)
        requires
            !is_fitted(*old(self)),
        ensures
            !is_fitted(*final(self)),
            fitted_ok(*final(self)),
            final(self).builder.params == (TreeParams {
                scale_base: x,
                ..old(self).builder.params
            }),
            final(self).metric == old(self).metric,
    {
        self.builder.set_scale_base(x);
    }

    pub fn set_leaf_cutoff(&mut self, x: usize)
        requires
            !is_fitted(*old(self)),
        ensures
            !is_fitted(*final(self)),
            fitted_ok(*final(self)),
            final(self).builder.params == (TreeParams {
                leaf_cutoff: x,
                ..old(self).builder.params
            }),
            final(self).metric == old(self).metric,
    {
        self.builder.set_leaf_cutoff(x);
    }

    pub fn set_min_res_index(&mut self, x: i32)
        requires
            !is_fitted(*old(self)),
        ensures
            !is_fitted(*final(self)),
            fitted_ok(*final(self)),
            final(self).builder.params == (TreeParams {
                min_res_index: x,
                ..old(self).builder.params
            }),
            final(self).metric == old(self).metric,
    {
        self.builder.set_min_res_index(x);
    }

    pub fn set_use_singletons(&mut self, x: bool)
        requires
            !is_fitted(*old(self)),
        ensures
            !is_fitted(*final(self)),
            fitted_ok(*final(self)),
            final(self).builder.params == (TreeParams {
                use_singletons: x,
                ..old(self).builder.params
            }),
            final(self).metric == old(self).metric,
    {
        self.builder.set_use_singletons(x);
    }

    pub fn set_metric(&mut self, metric: Metric)
        requires
            !is_fitted(*old(self)),
        ensures
            !is_fitted(*final(self)),
            fitted_ok(*final(self)),
            final(self).metric == metric,
            final(self).builder == old(self).builder,
    {
        self.metric = metric;
    }

    /// Builds the tree over the given points (optionally labeled),
    /// generates the base summaries, attaches the Gaussian and Dirichlet
    /// plugins, and freezes the result into the snapshot every later
    /// query reads.  Fails with `DataError` exactly when the rows are
    /// unusable, and otherwise with `ConfigurationError` exactly when
    /// the build parameters are invalid; on failure nothing is fitted.
    pub fn fit(&mut self, points: Vec<Vec<i64>>, labels: Option<Vec<i64>>) -> (r: Result<
        (),
        TreeError,
    >)
        requires
            !is_fitted(*old(self)),
        ensures
            fitted_ok(*final(self)),
            final(self).builder == old(self).builder,
            final(self).metric == old(self).metric,
            r is Ok <==> rows_ok(points@) && (labels matches Some(l) ==> l@.len()
                == points@.len()) && params_ok(old(self).builder.params),
            r is Ok <==> is_fitted(*final(self)),
            r matches Err(e) ==> !is_fitted(*final(self)) && (e == TreeError::DataError || e
                == TreeError::ConfigurationError),
            r matches Err(e) && e == TreeError::DataError ==> !(rows_ok(points@) && (
            labels matches Some(l) ==> l@.len() == points@.len())),
            r matches Err(e) && e == TreeError::ConfigurationError ==> !params_ok(
                old(self).builder.params,
            ),
            r is Ok ==> {
                let t = snapshot(*final(self));
                &&& tree_wf(t)
                &&& t.params == old(self).builder.params
                &&& t.cloud.metric == old(self).metric
                &&& t.cloud.points@ == points@
                &&& node_at(t, 0, 0).rep == 0
                &&& node_at(t, 0, 0).members@ == Seq::new(points@.len(), |k: int| k as usize)
            },
    {
        let cloud = match PointCloud::new(points, labels, self.metric) {
            Ok(c) => c,
            Err(e) => {
                return Err(e);
            },
        };
        let mut writer = match self.builder.build(cloud) {
            Ok(w) => w,
            Err(e) => {
                return Err(e);
            },
        };
        let ghost t0 = writer.data;
        writer.generate_summaries();
        let ghost t1 = writer.data;
        let r1 = writer.add_plugin(PluginKind::DiagGaussian);
        proof {
            assert(summaries_present(t1)) by {
                assert forall|li: int, ni: int| valid_node(t1, li, ni) implies (#[trigger] node_at(
                    t1,
                    li,
                    ni,
                ).summary) is Some by {
                    assert(node_at(t1, li, ni).summary == Some(
                        crate::plugins::summary_spec(t1, li, ni),
                    ));
                }
            }
            assert(r1 is Ok);
            lemma_attachments_structural(t1, writer.data);
            assert(summarized(writer.data));
        }
        let ghost t2 = writer.data;
        let r2 = writer.add_plugin(PluginKind::Dirichlet);
        proof {
            assert(summaries_present(t2)) by {
                assert forall|li: int, ni: int| valid_node(t2, li, ni) implies (#[trigger] node_at(
                    t2,
                    li,
                    ni,
                ).summary) is Some by {
                    assert(node_at(t2, li, ni).summary == Some(
                        crate::plugins::summary_spec(t2, li, ni),
                    ));
                }
            }
            assert(r2 is Ok);
            lemma_attachments_structural(t2, writer.data);
            assert(summarized(writer.data));
            assert(gaussians_attached(writer.data));
            // The structure never changed, so the root's members survive.
            assert(crate::plugins::same_structure(t0, writer.data)) by {
                crate::plugins::lemma_same_structure_trans(t0, t1, t2);
                crate::plugins::lemma_same_structure_trans(t0, t2, writer.data);
            }
            assert(valid_node(t0, 0, 0));
            assert(node_at(writer.data, 0, 0).members == node_at(t0, 0, 0).members);
            assert(node_at(writer.data, 0, 0).rep == node_at(t0, 0, 0).rep);
        }
        self.reader = Some(writer.reader());
        Ok(())
    }

    /// A copy of one stored point, or `None` when the index is out of
    /// range.
    pub fn data_point(&self, point_index: usize) -> (r: Option<Vec<i64>>)
        requires
            is_fitted(*self),
            fitted_ok(*self),
        ensures
            r is Some <==> (point_index as int) < snapshot(*self).cloud.points@.len(),
            r matches Some(p) ==> p@ == snapshot(*self).cloud.points@[point_index as int]@,
    {
        match &self.reader {
            Some(rd) => {
                if point_index < rd.data.cloud.len() {
                    let src = rd.data.cloud.point(point_index);
                    let mut out: Vec<i64> = Vec::new();
                    let mut j: usize = 0;
                    while j < src.len()
                        invariant
                            0 <= j <= src@.len(),
                            out@.len() == j,
                            forall|k: int| 0 <= k < j ==> out@[k] == src@[k],
                        decreases src@.len() - j,
                    {
                        out.push(src[j]);
                        j = j + 1;
                    }
                    proof {
                        assert(out@ =~= src@);
                    }
                    Some(out)
                } else {
                    None
                }
            },
            None => unreached(),
        }
    }

    /// The coarsest scale index, or `None` before `fit`.
    pub fn top_scale(&self) -> (r: Option<i32>)
        requires
            fitted_ok(*self),
        ensures
            r is Some <==> is_fitted(*self),
            r matches Some(s) ==> s == snapshot(*self).top_scale,
    {
        match &self.reader {
            Some(rd) => Some(rd.top_scale()),
            None => None,
        }
    }

    /// The finest populated scale index, or `None` before `fit`.
    pub fn bottom_scale(&self) -> (r: Option<i32>)
        requires
            fitted_ok(*self),
        ensures
            r is Some <==> is_fitted(*self),
            r matches Some(s) ==> s as int == snapshot(*self).top_scale - (n_layers(
                snapshot(*self),
            ) - 1),
    {
        match &self.reader {
            Some(rd) => Some(rd.bottom_scale()),
            None => None,
        }
    }

    /// All layers from coarsest to finest.
    pub fn layers(&self) -> (r: Vec<LayerInfo>)
        requires
            is_fitted(*self),
            fitted_ok(*self),
        ensures
            r@.len() == n_layers(snapshot(*self)),
            forall|li: int|
                0 <= li < r@.len() ==> {
                    let lay = snapshot(*self).layers@[li];
                    (#[trigger] r@[li]) == (LayerInfo {
                        scale_index: lay.scale_index,
                        radius: lay.radius,
                        node_count: lay.nodes@.len() as usize,
                    })
                },
    {
        match &self.reader {
            Some(rd) => {
                let mut out: Vec<LayerInfo> = Vec::new();
                let mut li: usize = 0;
                while li < rd.data.layers.len()
                    invariant
                        0 <= li <= rd.data.layers@.len(),
                        out@.len() == li,
                        forall|l2: int|
                            0 <= l2 < li as int ==> {
                                let lay = rd.data.layers@[l2];
                                (#[trigger] out@[l2]) == (LayerInfo {
                                    scale_index: lay.scale_index,
                                    radius: lay.radius,
                                    node_count: lay.nodes@.len() as usize,
                                })
                            },
                    decreases rd.data.layers@.len() - li,
                {
                    let lay = &rd.data.layers[li];
                    out.push(LayerInfo {
                        scale_index: lay.scale_index,
                        radius: lay.radius,
                        node_count: lay.nodes.len(),
                    });
                    li = li + 1;
                }
                out
            },
            None => unreached(),
        }
    }

    /// The layer at one scale index; `NotFound` exactly when no layer
    /// exists at that scale.
    pub fn layer(&self, scale_index: i32) -> (r: Result<LayerInfo, TreeError>)
        requires
            is_fitted(*self),
            fitted_ok(*self),
        ensures
            r is Ok <==> 0 <= snapshot(*self).top_scale - scale_index < n_layers(snapshot(*self)),
            r matches Err(e) ==> e == TreeError::NotFound,
            r matches Ok(info) ==> {
                let lay = snapshot(*self).layers@[snapshot(*self).top_scale - scale_index];
                info == (LayerInfo {
                    scale_index: lay.scale_index,
                    radius: lay.radius,
                    node_count: lay.nodes@.len() as usize,
                })
            },
    {
        match &self.reader {
            Some(rd) => {
                let top: i64 = rd.data.top_scale as i64;
                let li: i64 = top - (scale_index as i64);
                if 0 <= li && li < rd.data.layers.len() as i64 {
                    let lay = &rd.data.layers[li as usize];
                    Ok(
                        LayerInfo {
                            scale_index: lay.scale_index,
                            radius: lay.radius,
                            node_count: lay.nodes.len(),
                        },
                    )
                } else {
                    Err(TreeError::NotFound)
                }
            },
            None => unreached(),
        }
    }

    /// A copy of the node at one address; `NotFound` exactly when the
    /// address denotes no node of the snapshot.
    pub fn node(&self, address: (i32, usize)) -> (r: Result<NodeInfo, TreeError>)
        requires
            is_fitted(*self),
            fitted_ok(*self),
        ensures
            r is Ok <==> addr_ok(
                snapshot(*self),
                NodeAddress { scale_index: address.0, slot_index: address.1 },
            ),
            r matches Err(e) ==> e == TreeError::NotFound,
            r matches Ok(info) ==> {
                let a = NodeAddress { scale_index: address.0, slot_index: address.1 };
                let n = node_of(snapshot(*self), a);
                &&& info.address == a
                &&& info.rep == n.rep
                &&& info.parent == n.parent
                &&& info.children@ == n.children@
                &&& info.members@ == n.members@
                &&& info.singleton_count == n.singles@.len()
                &&& info.summary == n.summary
            },
    {
        match &self.reader {
            Some(rd) => {
                let top: i64 = rd.data.top_scale as i64;
                let li: i64 = top - (address.0 as i64);
                if !(0 <= li && li < rd.data.layers.len() as i64) {
                    return Err(TreeError::NotFound);
                }
                let lay = &rd.data.layers[li as usize];
                if address.1 >= lay.nodes.len() {
                    return Err(TreeError::NotFound);
                }
                let n = &lay.nodes[address.1];
                let mut children: Vec<NodeAddress> = Vec::new();
                let mut j: usize = 0;
                while j < n.children.len()
                    invariant
                        0 <= j <= n.children@.len(),
                        children@.len() == j,
                        forall|k: int| 0 <= k < j ==> children@[k] == n.children@[k],
                    decreases n.children@.len() - j,
                {
                    children.push(n.children[j]);
                    j = j + 1;
                }
                let mut members: Vec<usize> = Vec::new();
                let mut j2: usize = 0;
                while j2 < n.members.len()
                    invariant
                        0 <= j2 <= n.members@.len(),
                        members@.len() == j2,
                        forall|k: int| 0 <= k < j2 ==> members@[k] == n.members@[k],
                    decreases n.members@.len() - j2,
                {
                    members.push(n.members[j2]);
                    j2 = j2 + 1;
                }
                let summary: Option<NodeSummary> = match &n.summary {
                    Some(s) => Some(NodeSummary { count: s.count, node_radius: s.node_radius }),
                    None => None,
                };
                proof {
                    assert(children@ =~= n.children@);
                    assert(members@ =~= n.members@);
                }
                Ok(
                    NodeInfo {
                        address: NodeAddress { scale_index: address.0, slot_index: address.1 },
                        rep: n.rep,
                        parent: n.parent,
                        children,
                        members,
                        singleton_count: n.singles.len(),
                        summary,
                    },
                )
            },
            None => unreached(),
        }
    }

    /// The root node.
    pub fn root(&self) -> (r: Result<NodeInfo, TreeError>)
        requires
            is_fitted(*self),
            fitted_ok(*self),
        ensures
            r is Ok,
            r matches Ok(info) ==> info.address == (NodeAddress {
                scale_index: snapshot(*self).top_scale,
                slot_index: 0,
            }) && info.rep == node_at(snapshot(*self), 0, 0).rep,
    {
        let top: i32 = match &self.reader {
            Some(rd) => rd.top_scale(),
            None => unreached(),
        };
        self.node((top, 0))
    }

    /// Exact nearest neighbours of a query point: `min(k, N)` results in
    /// ascending distance order, ties broken by point index.
    pub fn knn(&self, point: &Vec<i64>, k: usize) -> (r: Vec<(u64, usize)>)
        requires
            is_fitted(*self),
            fitted_ok(*self),
            point@.len() == snapshot(*self).cloud.dim,
            point_ok(point@),
        ensures
            knn_ok(snapshot(*self).cloud, point@, k as int, r@),
    {
        match &self.reader {
            Some(rd) => rd.knn(point, k),
            None => unreached(),
        }
    }

    /// The routing path the point would take if inserted, without any
    /// mutation.
    pub fn dry_insert(&self, point: &Vec<i64>) -> (r: Vec<(u64, NodeAddress)>)
        requires
            is_fitted(*self),
            fitted_ok(*self),
            point@.len() == snapshot(*self).cloud.dim,
            point_ok(point@),
        ensures
            r@ == dry_path(snapshot(*self), point@, 0, 0),
            r@.len() >= 1,
    {
        match &self.reader {
            Some(rd) => rd.dry_insert(point),
            None => unreached(),
        }
    }

    /// A fresh Bayesian tracker bound to this tree's snapshot.
    pub fn kl_div_dirichlet(
        &self,
        prior_weight: u64,
        observation_weight: u64,
        size: usize,
    ) -> (tr: BayesCategoricalTracker)
        requires
            is_fitted(*self),
            fitted_ok(*self),
            1 <= prior_weight <= 65536,
            1 <= observation_weight <= 65536,
        ensures
            crate::tracker::tracker_wf(tr),
            tr.snap@ == snapshot(*self),
            tr.prior_weight == prior_weight,
            tr.observation_weight == observation_weight,
            tr.window_size == size,
            tr.state == crate::tracker::TrackerState::Accumulating,
            tr.paths@.len() == 0,
    {
        match &self.reader {
            Some(rd) => BayesCategoricalTracker::new(prior_weight, observation_weight, size, rd),
            None => unreached(),
        }
    }

    /// Calibrates the tracker's null distribution: feeds synthetic
    /// sequences drawn from the tree's own points through fresh trackers
    /// and returns each sequence's posterior trajectory.
    pub fn kl_div_dirichlet_basestats(
        &self,
        prior_weight: u64,
        observation_weight: u64,
        sequence_len: usize,
        num_sequences: usize,
        window_size: usize,
    ) -> (r: Vec<Vec<KLDivergenceStats>>)
        requires
            is_fitted(*self),
            fitted_ok(*self),
            1 <= prior_weight <= 65536,
            1 <= observation_weight <= 65536,
            sequence_len <= 100000,
            num_sequences <= 100000,
        ensures
            r@.len() == num_sequences,
            forall|i: int| 0 <= i < r@.len() ==> (#[trigger] r@[i])@.len() == sequence_len,
    {
        match &self.reader {
            Some(rd) => {
                let mut trainer = DirichletBaseline::new();
                trainer.set_prior_weight(prior_weight);
                trainer.set_observation_weight(observation_weight);
                trainer.set_sequence_len(sequence_len);
                trainer.set_num_sequences(num_sequences);
                trainer.set_window_size(window_size);
                trainer.train(rd)
            },
            None => unreached(),
        }
    }
}

} // verus!
