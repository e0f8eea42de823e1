use vstd::prelude::*;

use crate::address::NodeAddress;
use crate::errors::TreeError;
use crate::points::{cloud_wf, dist_pts, PointCloud};
use crate::metrics::{DIST_LIMIT};
use crate::plugins::{DiagGaussian, DirichletPrior, NodeSummary};
use vstd::arithmetic::power::pow;
use vstd::arithmetic::power2::{pow2, lemma2_to64, lemma2_to64_rest, lemma_pow2,
    lemma_pow2_strictly_increases};

verus! {

/// Construction parameters of a tree.
#[derive(Clone, Copy, PartialEq, Eq, Structural, Debug)]
pub struct TreeParams {
    /// Integer base of the geometric scale ladder; the covering radius at
    /// scale index `s >= 0` is `scale_base^s`, and zero below scale zero.
    pub scale_base: u64,
    /// How many points a node may hold as singletons before a new child
    /// node is split off (only consulted when `use_singletons` is set).
    pub leaf_cutoff: usize,
    /// The finest scale index construction may descend to.
    pub min_res_index: i32,
    /// Whether points may rest as singletons of an internal node instead
    /// of always splitting off dedicated child nodes.
    pub use_singletons: bool,
}

/// Valid builder parameters.  The bounds on the base and the resolution
/// floor keep every covering radius an exact 64-bit integer.
pub open spec fn params_ok(p: TreeParams) -> bool {
    &&& 2 <= p.scale_base <= 256
    &&& 1 <= p.leaf_cutoff
    &&& -1024 <= p.min_res_index <= 0
}

/// One vertex of the tree.
pub struct Node {
    /// Index of the representative point in the owning cloud.
    pub rep: usize,
    /// Address of the parent node; `None` only for the root.
    pub parent: Option<NodeAddress>,
    /// Addresses of the child nodes, one scale finer, in creation order.
    pub children: Vec<NodeAddress>,
    /// Indices of every point covered by this node's subtree, in
    /// strictly increasing order.
    pub members: Vec<usize>,
    /// Indices of the points that rest at this node itself.
    pub singles: Vec<usize>,
    /// Base statistics, attached by `generate_summaries`.
    pub summary: Option<NodeSummary>,
    /// Diagonal Gaussian moments, attached by the Gaussian plugin.
    pub gaussian: Option<DiagGaussian>,
    /// Dirichlet concentrations over children, attached by the Dirichlet
    /// plugin.
    pub dirichlet: Option<DirichletPrior>,
}

/// All nodes of one resolution level.
pub struct Layer {
    pub scale_index: i32,
    /// The covering radius at this scale: `scale_base^scale_index`, or
    /// zero for negative scale indices.
    pub radius: u64,
    pub nodes: Vec<Node>,
}

/// The aggregate tree structure: parameters, the owned point cloud, and
/// the layers from coarsest (the root's) to finest.
pub struct TreeData {
    pub params: TreeParams,
    pub cloud: PointCloud,
    pub top_scale: i32,
    pub layers: Vec<Layer>,
}

/// The covering radius at scale index `s`.
pub open spec fn radius_at(base: int, s: int) -> int {
    if s < 0 {
        0
    } else {
        pow(base, s as nat)
    }
}

pub open spec fn n_layers(t: TreeData) -> int {
    t.layers@.len() as int
}

pub open spec fn node_at(t: TreeData, li: int, ni: int) -> Node {
    t.layers@[li].nodes@[ni]
}

pub open spec fn valid_node(t: TreeData, li: int, ni: int) -> bool {
    0 <= li < n_layers(t) && 0 <= ni < t.layers@[li].nodes@.len()
}

/// The address of the node in slot `ni` of layer `li`.
pub open spec fn addr_of(t: TreeData, li: int, ni: int) -> NodeAddress {
    NodeAddress { scale_index: (t.top_scale - li) as i32, slot_index: ni as usize }
}

/// The layer a scale index maps to.
pub open spec fn li_of(t: TreeData, s: int) -> int {
    t.top_scale - s
}

/// Whether an address denotes a node of the tree.
pub open spec fn addr_ok(t: TreeData, a: NodeAddress) -> bool {
    valid_node(t, li_of(t, a.scale_index as int), a.slot_index as int)
}

/// The node an address denotes.
pub open spec fn node_of(t: TreeData, a: NodeAddress) -> Node {
    node_at(t, li_of(t, a.scale_index as int), a.slot_index as int)
}

/// A sequence of point indices in strictly increasing order.
pub open spec fn strictly_increasing(s: Seq<usize>) -> bool {
    forall|j: int, k: int| 0 <= j < k < s.len() ==> s[j] < s[k]
}

/// Shape of the layer ladder: scale indices run consecutively downward
/// from `top_scale`, each layer carries the radius of its scale, every
/// layer is populated, and the coarsest layer holds exactly the root.
pub open spec fn layers_wf(t: TreeData) -> bool {
    &&& 1 <= n_layers(t) <= t.top_scale - t.params.min_res_index + 1
    &&& t.params.min_res_index <= t.top_scale <= 62
    &&& forall|li: int|
        0 <= li < n_layers(t) ==> (#[trigger] t.layers@[li]).scale_index as int == t.top_scale
            - li
    &&& forall|li: int|
        0 <= li < n_layers(t) ==> (#[trigger] t.layers@[li]).radius as int == radius_at(
            t.params.scale_base as int,
            t.top_scale - li,
        )
    &&& forall|li: int| 0 <= li < n_layers(t) ==> (#[trigger] t.layers@[li]).nodes@.len() >= 1
    &&& t.layers@[0].nodes@.len() == 1
}

/// Local well-formedness of one node.
///
/// The covering invariant: every member point lies within the layer's
/// radius of the representative, and every child's representative does
/// too.  The separation invariant: representatives of two distinct
/// children are more than one child-radius apart.
pub open spec fn node_wf(t: TreeData, li: int, ni: int) -> bool {
    let layer = t.layers@[li];
    let n = layer.nodes@[ni];
    let r = layer.radius as int;
    &&& (n.rep as int) < t.cloud.points@.len()
    &&& 1 <= n.members@.len()
    &&& strictly_increasing(n.members@)
    &&& strictly_increasing(n.singles@)
    &&& forall|j: int|
        0 <= j < n.members@.len() ==> (#[trigger] n.members@[j] as int) < t.cloud.points@.len()
            && dist_pts(t.cloud, n.members@[j] as int, n.rep as int) <= r
    &&& forall|j: int|
        0 <= j < n.singles@.len() ==> (#[trigger] n.singles@[j] as int) < t.cloud.points@.len()
    &&& forall|j: int|
        0 <= j < n.children@.len() ==> {
            let ca = #[trigger] n.children@[j];
            &&& ca.scale_index as int == t.top_scale - li - 1
            &&& li + 1 < n_layers(t)
            &&& (ca.slot_index as int) < t.layers@[li + 1].nodes@.len()
            &&& dist_pts(
                t.cloud,
                node_at(t, li + 1, ca.slot_index as int).rep as int,
                n.rep as int,
            ) <= r
        }
    &&& forall|j: int, k: int|
        0 <= j < k < n.children@.len() ==> dist_pts(
            t.cloud,
            node_at(t, li + 1, (#[trigger] n.children@[k]).slot_index as int).rep as int,
            node_at(t, li + 1, (#[trigger] n.children@[j]).slot_index as int).rep as int,
        ) > t.layers@[li + 1].radius
}

/// Well-formedness of the whole tree.
pub open spec fn tree_wf(t: TreeData) -> bool {
    &&& params_ok(t.params)
    &&& cloud_wf(t.cloud)
    &&& layers_wf(t)
    &&& forall|li: int, ni: int| valid_node(t, li, ni) ==> #[trigger] node_wf(t, li, ni)
}

/// Two trees with identical parameters, cloud and layer ladder.
pub open spec fn same_shape(t1: TreeData, t2: TreeData) -> bool {
    &&& t2.params == t1.params
    &&& t2.cloud == t1.cloud
    &&& t2.top_scale == t1.top_scale
    &&& n_layers(t2) == n_layers(t1)
    &&& forall|li: int|
        0 <= li < n_layers(t1) ==> (#[trigger] t2.layers@[li]).scale_index
            == t1.layers@[li].scale_index && t2.layers@[li].radius == t1.layers@[li].radius
}

/// Two trees that differ at most in the node at `(li0, ni0)`.
pub open spec fn same_but_node(t1: TreeData, t2: TreeData, li0: int, ni0: int) -> bool {
    &&& same_shape(t1, t2)
    &&& forall|li: int|
        0 <= li < n_layers(t1) ==> (#[trigger] t2.layers@[li]).nodes@.len()
            == t1.layers@[li].nodes@.len()
    &&& forall|li: int, ni: int|
        valid_node(t1, li, ni) && !(li == li0 && ni == ni0) ==> #[trigger] node_at(t2, li, ni)
            == node_at(t1, li, ni)
}

/// Changing one node without moving its representative preserves tree
/// well-formedness, provided the changed node is itself well formed.
pub proof fn lemma_wf_node_change(t1: TreeData, t2: TreeData, li0: int, ni0: int)
    requires
        tree_wf(t1),
        valid_node(t1, li0, ni0),
        same_but_node(t1, t2, li0, ni0),
        node_at(t2, li0, ni0).rep == node_at(t1, li0, ni0).rep,
        node_wf(t2, li0, ni0),
    ensures
        tree_wf(t2),
{
    assert forall|li: int, ni: int| valid_node(t2, li, ni) implies #[trigger] node_wf(
        t2,
        li,
        ni,
    ) by {
        if li == li0 && ni == ni0 {
        } else {
            assert(valid_node(t1, li, ni));
            assert(node_at(t2, li, ni) == node_at(t1, li, ni));
            assert(node_wf(t1, li, ni));
            let n = node_at(t1, li, ni);
            assert forall|j: int| 0 <= j < n.children@.len() implies {
                let ca = #[trigger] n.children@[j];
                node_at(t2, li + 1, ca.slot_index as int).rep == node_at(
                    t1,
                    li + 1,
                    ca.slot_index as int,
                ).rep
            } by {
                let ca = n.children@[j];
                if li + 1 == li0 && ca.slot_index as int == ni0 {
                } else {
                    assert(node_at(t2, li + 1, ca.slot_index as int) == node_at(
                        t1,
                        li + 1,
                        ca.slot_index as int,
                    ));
                }
            }
        }
    }
}

/// Two trees that differ only in one node appended at the end of layer
/// `lc`; all pre-existing nodes are untouched.
pub open spec fn same_but_appended(t1: TreeData, t2: TreeData, lc: int) -> bool {
    &&& same_shape(t1, t2)
    &&& forall|li: int|
        0 <= li < n_layers(t1) && li != lc ==> (#[trigger] t2.layers@[li]).nodes@
            == t1.layers@[li].nodes@
    &&& t2.layers@[lc].nodes@.len() == t1.layers@[lc].nodes@.len() + 1
    &&& forall|ni: int|
        0 <= ni < t1.layers@[lc].nodes@.len() ==> #[trigger] node_at(t2, lc, ni) == node_at(
            t1,
            lc,
            ni,
        )
}

/// Appending a well-formed node to a layer below the root preserves tree
/// well-formedness.
pub proof fn lemma_wf_append_node(t1: TreeData, t2: TreeData, lc: int)
    requires
        tree_wf(t1),
        1 <= lc < n_layers(t1),
        same_but_appended(t1, t2, lc),
        node_wf(t2, lc, t1.layers@[lc].nodes@.len() as int),
    ensures
        tree_wf(t2),
{
    assert forall|li: int, ni: int| valid_node(t2, li, ni) implies #[trigger] node_wf(
        t2,
        li,
        ni,
    ) by {
        if li == lc && ni == t1.layers@[lc].nodes@.len() as int {
        } else {
            assert(valid_node(t1, li, ni));
            assert(node_at(t2, li, ni) == node_at(t1, li, ni));
            assert(node_wf(t1, li, ni));
            let n = node_at(t1, li, ni);
            assert forall|j: int| 0 <= j < n.children@.len() implies {
                let ca = #[trigger] n.children@[j];
                node_at(t2, li + 1, ca.slot_index as int) == node_at(
                    t1,
                    li + 1,
                    ca.slot_index as int,
                )
            } by {
                let ca = n.children@[j];
                assert((ca.slot_index as int) < t1.layers@[li + 1].nodes@.len());
            }
        }
    }
}

/// Two trees that differ only in one layer appended at the end.
pub open spec fn appended_layer(t1: TreeData, t2: TreeData) -> bool {
    &&& t2.params == t1.params
    &&& t2.cloud == t1.cloud
    &&& t2.top_scale == t1.top_scale
    &&& n_layers(t2) == n_layers(t1) + 1
    &&& forall|li: int| 0 <= li < n_layers(t1) ==> #[trigger] t2.layers@[li] == t1.layers@[li]
}

/// Appending a fresh one-node layer at the next finer scale preserves
/// tree well-formedness.
pub proof fn lemma_wf_append_layer(t1: TreeData, t2: TreeData)
    requires
        tree_wf(t1),
        appended_layer(t1, t2),
        t2.layers@[n_layers(t1)].scale_index as int == t1.top_scale - n_layers(t1),
        t2.layers@[n_layers(t1)].radius as int == radius_at(
            t1.params.scale_base as int,
            t1.top_scale - n_layers(t1),
        ),
        t2.layers@[n_layers(t1)].nodes@.len() == 1,
        n_layers(t2) <= t1.top_scale - t1.params.min_res_index + 1,
        node_wf(t2, n_layers(t1), 0),
    ensures
        tree_wf(t2),
{
    assert forall|li: int, ni: int| valid_node(t2, li, ni) implies #[trigger] node_wf(
        t2,
        li,
        ni,
    ) by {
        if li == n_layers(t1) {
            assert(ni == 0);
        } else {
            assert(valid_node(t1, li, ni));
            assert(node_at(t2, li, ni) == node_at(t1, li, ni));
            assert(node_wf(t1, li, ni));
            let n = node_at(t1, li, ni);
            assert forall|j: int| 0 <= j < n.children@.len() implies {
                let ca = #[trigger] n.children@[j];
                node_at(t2, li + 1, ca.slot_index as int) == node_at(
                    t1,
                    li + 1,
                    ca.slot_index as int,
                )
            } by {
                let ca = n.children@[j];
                assert(li + 1 < n_layers(t1));
            }
        }
    }
}

/// Every member or singleton index stored in layer `li0` or any finer
/// layer is smaller than `b`.
pub open spec fn node_entries_below(n: Node, b: int) -> bool {
    &&& forall|j: int| 0 <= j < n.members@.len() ==> (#[trigger] n.members@[j] as int) < b
    &&& forall|j: int| 0 <= j < n.singles@.len() ==> (#[trigger] n.singles@[j] as int) < b
}

pub open spec fn entries_below_from(t: TreeData, li0: int, b: int) -> bool {
    forall|li: int, ni: int|
        li0 <= li && valid_node(t, li, ni) ==> node_entries_below(#[trigger] node_at(t, li, ni), b)
}

/// Every member or singleton index stored anywhere in the tree is smaller
/// than `b`.
pub open spec fn entries_below(t: TreeData, b: int) -> bool {
    entries_below_from(t, 0, b)
}

/// Appends `pi` to the member list of the node at `(li, ni)`.  The point
/// must satisfy the node's covering invariant and exceed every index the
/// node already stores.
fn push_member(d: &mut TreeData, li: usize, ni: usize, pi: usize)
    requires
        tree_wf(*old(d)),
        valid_node(*old(d), li as int, ni as int),
        (pi as int) < old(d).cloud.points@.len(),
        dist_pts(
            old(d).cloud,
            pi as int,
            node_at(*old(d), li as int, ni as int).rep as int,
        ) <= old(d).layers@[li as int].radius as int,
        node_entries_below(node_at(*old(d), li as int, ni as int), pi as int),
    ensures
        tree_wf(*final(d)),
        same_but_node(*old(d), *final(d), li as int, ni as int),
        node_at(*final(d), li as int, ni as int).members@ == node_at(
            *old(d),
            li as int,
            ni as int,
        ).members@.push(pi),
        node_at(*final(d), li as int, ni as int).rep == node_at(
            *old(d),
            li as int,
            ni as int,
        ).rep,
        node_at(*final(d), li as int, ni as int).parent == node_at(
            *old(d),
            li as int,
            ni as int,
        ).parent,
        node_at(*final(d), li as int, ni as int).children == node_at(
            *old(d),
            li as int,
            ni as int,
        ).children,
        node_at(*final(d), li as int, ni as int).singles == node_at(
            *old(d),
            li as int,
            ni as int,
        ).singles,
        node_at(*final(d), li as int, ni as int).summary == node_at(
            *old(d),
            li as int,
            ni as int,
        ).summary,
{
    let ghost t1 = *d;
    let layer = &mut d.layers[li];
    let node = &mut layer.nodes[ni];
    node.members.push(pi);
    proof {
        let li0 = li as int;
        let ni0 = ni as int;
        assert(same_but_node(t1, *d, li0, ni0));
        let n1 = node_at(t1, li0, ni0);
        let n2 = node_at(*d, li0, ni0);
        assert(n2.members@ == n1.members@.push(pi));
        assert(strictly_increasing(n2.members@)) by {
            assert forall|j: int, k: int| 0 <= j < k < n2.members@.len() implies n2.members@[j]
                < n2.members@[k] by {
                if k < n1.members@.len() as int {
                    assert(node_wf(t1, li0, ni0));
                } else {
                    assert(n2.members@[k] == pi);
                    assert((n1.members@[j] as int) < (pi as int));
                }
            }
        }
        assert(node_wf(*d, li0, ni0)) by {
            assert(node_wf(t1, li0, ni0));
            assert forall|j: int| 0 <= j < n2.members@.len() implies (
            #[trigger] n2.members@[j] as int) < d.cloud.points@.len() && dist_pts(
                d.cloud,
                n2.members@[j] as int,
                n2.rep as int,
            ) <= d.layers@[li0].radius as int by {
                if j < n1.members@.len() as int {
                    assert(n2.members@[j] == n1.members@[j]);
                } else {
                    assert(n2.members@[j] == pi);
                }
            }
        }
        lemma_wf_node_change(t1, *d, li0, ni0);
    }
}

/// Appends `pi` to the singleton list of the node at `(li, ni)`.
fn push_single(d: &mut TreeData, li: usize, ni: usize, pi: usize)
    requires
        tree_wf(*old(d)),
        valid_node(*old(d), li as int, ni as int),
        (pi as int) < old(d).cloud.points@.len(),
        forall|j: int|
            0 <= j < node_at(*old(d), li as int, ni as int).singles@.len() ==> (#[trigger] node_at(
                *old(d),
                li as int,
                ni as int,
            ).singles@[j] as int) < pi as int,
    ensures
        tree_wf(*final(d)),
        same_but_node(*old(d), *final(d), li as int, ni as int),
        node_at(*final(d), li as int, ni as int).singles@ == node_at(
            *old(d),
            li as int,
            ni as int,
        ).singles@.push(pi),
        node_at(*final(d), li as int, ni as int).rep == node_at(
            *old(d),
            li as int,
            ni as int,
        ).rep,
        node_at(*final(d), li as int, ni as int).members == node_at(
            *old(d),
            li as int,
            ni as int,
        ).members,
        node_at(*final(d), li as int, ni as int).children == node_at(
            *old(d),
            li as int,
            ni as int,
        ).children,
{
    let ghost t1 = *d;
    let layer = &mut d.layers[li];
    let node = &mut layer.nodes[ni];
    node.singles.push(pi);
    proof {
        let li0 = li as int;
        let ni0 = ni as int;
        assert(same_but_node(t1, *d, li0, ni0));
        let n1 = node_at(t1, li0, ni0);
        let n2 = node_at(*d, li0, ni0);
        assert(n2.singles@ == n1.singles@.push(pi));
        assert(node_wf(*d, li0, ni0)) by {
            assert(node_wf(t1, li0, ni0));
            assert forall|j: int, k: int| 0 <= j < k < n2.singles@.len() implies n2.singles@[j]
                < n2.singles@[k] by {
                if k < n1.singles@.len() as int {
                } else {
                    assert(n2.singles@[k] == pi);
                    assert((n1.singles@[j] as int) < (pi as int));
                }
            }
            assert forall|j: int| 0 <= j < n2.singles@.len() implies (
            #[trigger] n2.singles@[j] as int) < d.cloud.points@.len() by {
                if j < n1.singles@.len() as int {
                } else {
                    assert(n2.singles@[j] == pi);
                }
            }
        }
        lemma_wf_node_change(t1, *d, li0, ni0);
    }
}

/// Splits a new child node off the node at `(li, ni)`, with `pi` as its
/// representative, at the next finer scale.  The point must be covered by
/// the parent and separated from every existing child.
fn add_child(d: &mut TreeData, li: usize, ni: usize, pi: usize)
    requires
        tree_wf(*old(d)),
        valid_node(*old(d), li as int, ni as int),
        (pi as int) < old(d).cloud.points@.len(),
        old(d).top_scale - li > old(d).params.min_res_index,
        dist_pts(
            old(d).cloud,
            pi as int,
            node_at(*old(d), li as int, ni as int).rep as int,
        ) <= old(d).layers@[li as int].radius as int,
        forall|j: int|
            0 <= j < node_at(*old(d), li as int, ni as int).children@.len() ==> dist_pts(
                old(d).cloud,
                pi as int,
                node_at(
                    *old(d),
                    li as int + 1,
                    (#[trigger] node_at(*old(d), li as int, ni as int).children@[j]).slot_index
                        as int,
                ).rep as int,
            ) > radius_at(old(d).params.scale_base as int, old(d).top_scale - li - 1),
    ensures
        tree_wf(*final(d)),
        final(d).cloud == old(d).cloud,
        final(d).params == old(d).params,
        final(d).top_scale == old(d).top_scale,
        forall|li2: int, ni2: int|
            #[trigger] valid_node(*old(d), li2, ni2) ==> valid_node(*final(d), li2, ni2)
                && node_at(*final(d), li2, ni2).members == node_at(*old(d), li2, ni2).members
                && node_at(*final(d), li2, ni2).singles == node_at(*old(d), li2, ni2).singles
                && node_at(*final(d), li2, ni2).rep == node_at(*old(d), li2, ni2).rep,
        forall|li2: int, ni2: int|
            #[trigger] valid_node(*final(d), li2, ni2) && !valid_node(*old(d), li2, ni2)
                ==> node_at(*final(d), li2, ni2).members@ == seq![pi] && node_at(
                *final(d),
                li2,
                ni2,
            ).singles@ == seq![pi],
{
    let ghost t1 = *d;
    let s: i32 = d.layers[li].scale_index;
    let child_scale: i32 = s - 1;
    let mut member_vec: Vec<usize> = Vec::new();
    member_vec.push(pi);
    let mut single_vec: Vec<usize> = Vec::new();
    single_vec.push(pi);
    let new_node = Node {
        rep: pi,
        parent: Some(NodeAddress { scale_index: s, slot_index: ni }),
        children: Vec::new(),
        members: member_vec,
        singles: single_vec,
        summary: None,
        gaussian: None,
        dirichlet: None,
    };
    let lc: usize = li + 1;
    let newslot: usize;
    proof {
        crate::metrics::lemma_metric_self_zero(d.cloud.metric, d.cloud.points@[pi as int]@);
    }
    if lc == d.layers.len() {
        let parent_radius: u64 = d.layers[li].radius;
        let child_radius: u64 = if child_scale < 0 {
            0
        } else {
            proof {
                let b = t1.params.scale_base as int;
                let cs = t1.top_scale - li - 1;
                assert(parent_radius as int == pow(b, (cs + 1) as nat));
                assert(pow(b, (cs + 1) as nat) == b * pow(b, cs as nat)) by {
                    reveal(pow);
                }
                vstd::arithmetic::power::lemma_pow_positive(b, cs as nat);
                vstd::arithmetic::div_mod::lemma_div_multiples_vanish(pow(b, cs as nat), b);
                assert((parent_radius as int) / (t1.params.scale_base as int) == pow(b, cs as nat));
            }
            parent_radius / d.params.scale_base
        };
        let mut nodes_vec: Vec<Node> = Vec::new();
        nodes_vec.push(new_node);
        d.layers.push(Layer { scale_index: child_scale, radius: child_radius, nodes: nodes_vec });
        newslot = 0;
        proof {
            assert(appended_layer(t1, *d));
            assert(node_wf(*d, n_layers(t1), 0));
            lemma_wf_append_layer(t1, *d);
        }
    } else {
        newslot = d.layers[lc].nodes.len();
        let layer = &mut d.layers[lc];
        layer.nodes.push(new_node);
        proof {
            assert(same_but_appended(t1, *d, lc as int));
            assert(node_wf(*d, lc as int, t1.layers@[lc as int].nodes@.len() as int));
            lemma_wf_append_node(t1, *d, lc as int);
        }
    }
    let ghost t2 = *d;
    let child_addr = NodeAddress { scale_index: child_scale, slot_index: newslot };
    let layer = &mut d.layers[li];
    let node = &mut layer.nodes[ni];
    node.children.push(child_addr);
    proof {
        let li0 = li as int;
        let ni0 = ni as int;
        assert(same_but_node(t2, *d, li0, ni0));
        let n1 = node_at(t2, li0, ni0);
        let n2 = node_at(*d, li0, ni0);
        assert(n2.children@ == n1.children@.push(child_addr));
        assert(n1 == node_at(t1, li0, ni0));
        assert(node_wf(*d, li0, ni0)) by {
            assert(node_wf(t2, li0, ni0));
            let r = d.layers@[li0].radius as int;
            assert forall|j: int| 0 <= j < n2.children@.len() implies {
                let ca = #[trigger] n2.children@[j];
                &&& ca.scale_index as int == d.top_scale - li0 - 1
                &&& li0 + 1 < n_layers(*d)
                &&& (ca.slot_index as int) < d.layers@[li0 + 1].nodes@.len()
                &&& dist_pts(
                    d.cloud,
                    node_at(*d, li0 + 1, ca.slot_index as int).rep as int,
                    n2.rep as int,
                ) <= r
            } by {
                if j < n1.children@.len() as int {
                    assert(node_at(*d, li0 + 1, n1.children@[j].slot_index as int) == node_at(
                        t2,
                        li0 + 1,
                        n1.children@[j].slot_index as int,
                    ));
                } else {
                    assert(n2.children@[j] == child_addr);
                    assert(node_at(*d, li0 + 1, newslot as int).rep == pi);
                }
            }
            assert forall|j: int, k: int| 0 <= j < k < n2.children@.len() implies dist_pts(
                d.cloud,
                node_at(*d, li0 + 1, (n2.children@[k]).slot_index as int).rep as int,
                node_at(*d, li0 + 1, (n2.children@[j]).slot_index as int).rep as int,
            ) > d.layers@[li0 + 1].radius as int by {
                if k < n1.children@.len() as int {
                    assert(node_at(*d, li0 + 1, n1.children@[k].slot_index as int) == node_at(
                        t2,
                        li0 + 1,
                        n1.children@[k].slot_index as int,
                    ));
                    assert(node_at(*d, li0 + 1, n1.children@[j].slot_index as int) == node_at(
                        t2,
                        li0 + 1,
                        n1.children@[j].slot_index as int,
                    ));
                } else {
                    assert(n2.children@[k] == child_addr);
                    assert(node_at(*d, li0 + 1, newslot as int).rep == pi);
                    assert(node_wf(t1, li0, ni0));
                    assert((n1.children@[j].slot_index as int)
                        < t1.layers@[li0 + 1].nodes@.len());
                    assert(node_at(*d, li0 + 1, n1.children@[j].slot_index as int) == node_at(
                        t2,
                        li0 + 1,
                        n1.children@[j].slot_index as int,
                    ));
                    assert(node_at(t2, li0 + 1, n1.children@[j].slot_index as int) == node_at(
                        t1,
                        li0 + 1,
                        n1.children@[j].slot_index as int,
                    ));
                    assert(dist_pts(
                        d.cloud,
                        pi as int,
                        node_at(t1, li0 + 1, n1.children@[j].slot_index as int).rep as int,
                    ) > radius_at(t1.params.scale_base as int, t1.top_scale - li0 - 1));
                }
            }
        }
        lemma_wf_node_change(t2, *d, li0, ni0);
        assert forall|li2: int, ni2: int| #[trigger] valid_node(t1, li2, ni2) implies valid_node(
            *d,
            li2,
            ni2,
        ) && node_at(*d, li2, ni2).members == node_at(t1, li2, ni2).members && node_at(
            *d,
            li2,
            ni2,
        ).singles == node_at(t1, li2, ni2).singles && node_at(*d, li2, ni2).rep == node_at(
            t1,
            li2,
            ni2,
        ).rep by {
            if li2 == li0 && ni2 == ni0 {
            } else {
                assert(node_at(t2, li2, ni2) == node_at(t1, li2, ni2));
                assert(node_at(*d, li2, ni2) == node_at(t2, li2, ni2));
            }
        }
        assert forall|li2: int, ni2: int|
            #[trigger] valid_node(*d, li2, ni2) && !valid_node(t1, li2, ni2) implies node_at(
            *d,
            li2,
            ni2,
        ).members@ == seq![pi] && node_at(*d, li2, ni2).singles@ == seq![pi] by {
            assert(li2 == lc as int && ni2 == newslot as int);
            assert(node_at(*d, li2, ni2) == node_at(t2, li2, ni2));
        }
    }
}

/// Inserts one point: descends from the root along covering nodes,
/// recording it as a member of every node on the way, and lets it rest as
/// a singleton or as the representative of a fresh child node.
fn insert_point(d: &mut TreeData, pi: usize)
    requires
        tree_wf(*old(d)),
        (pi as int) < old(d).cloud.points@.len(),
        dist_pts(old(d).cloud, pi as int, node_at(*old(d), 0, 0).rep as int) <= old(
            d,
        ).layers@[0].radius as int,
        entries_below(*old(d), pi as int),
    ensures
        tree_wf(*final(d)),
        final(d).cloud == old(d).cloud,
        final(d).params == old(d).params,
        final(d).top_scale == old(d).top_scale,
        entries_below(*final(d), pi as int + 1),
        node_at(*final(d), 0, 0).rep == node_at(*old(d), 0, 0).rep,
        node_at(*final(d), 0, 0).members@ == node_at(*old(d), 0, 0).members@.push(pi),
{
    let mut li: usize = 0;
    let mut ni: usize = 0;
    loop
        invariant
            tree_wf(*d),
            d.cloud == old(d).cloud,
            d.params == old(d).params,
            d.top_scale == old(d).top_scale,
            (pi as int) < d.cloud.points@.len(),
            valid_node(*d, li as int, ni as int),
            dist_pts(d.cloud, pi as int, node_at(*d, li as int, ni as int).rep as int)
                <= d.layers@[li as int].radius as int,
            entries_below_from(*d, li as int, pi as int),
            entries_below(*d, pi as int + 1),
            li == 0 ==> ni == 0 && *d == *old(d),
            li >= 1 ==> node_at(*d, 0, 0).rep == node_at(*old(d), 0, 0).rep && node_at(
                *d,
                0,
                0,
            ).members@ == node_at(*old(d), 0, 0).members@.push(pi),
        decreases n_layers(*d) - li,
    {
        proof {
            if li == 0 {
                assert(entries_below(*d, pi as int));
            }
            assert(node_entries_below(node_at(*d, li as int, ni as int), pi as int));
        }
        let ghost t_a = *d;
        push_member(d, li, ni, pi);
        proof {
            assert(entries_below_from(*d, li as int + 1, pi as int)) by {
                assert forall|li2: int, ni2: int|
                    li as int + 1 <= li2 && valid_node(*d, li2, ni2) implies node_entries_below(
                    #[trigger] node_at(*d, li2, ni2),
                    pi as int,
                ) by {
                    assert(node_at(*d, li2, ni2) == node_at(t_a, li2, ni2));
                }
            }
            assert(entries_below(*d, pi as int + 1)) by {
                assert forall|li2: int, ni2: int|
                    0 <= li2 && valid_node(*d, li2, ni2) implies node_entries_below(
                    #[trigger] node_at(*d, li2, ni2),
                    pi as int + 1,
                ) by {
                    if li2 == li as int && ni2 == ni as int {
                        let n2 = node_at(*d, li2, ni2);
                        let n1 = node_at(t_a, li2, ni2);
                        assert(n2.members@ == n1.members@.push(pi));
                        assert(node_entries_below(n1, pi as int + 1));
                        assert forall|j: int| 0 <= j < n2.members@.len() implies (
                        #[trigger] n2.members@[j] as int) < pi as int + 1 by {
                            if j < n1.members@.len() as int {
                            } else {
                                assert(n2.members@[j] == pi);
                            }
                        }
                    } else {
                        assert(node_at(*d, li2, ni2) == node_at(t_a, li2, ni2));
                    }
                }
            }
            if li >= 1 {
                assert(node_at(*d, 0, 0) == node_at(t_a, 0, 0));
            }
        }
        let ghost t_b = *d;
        let s: i32 = d.layers[li].scale_index;
        if s == d.params.min_res_index {
            push_single(d, li, ni, pi);
            proof {
                finish_entries_proof(t_b, *d, li as int, ni as int, pi);
                if li >= 1 {
                    assert(node_at(*d, 0, 0) == node_at(t_b, 0, 0));
                }
            }
            return ;
        }
        // Scan the children for the nearest representative.
        let ghost tsnap = *d;
        let nchildren: usize = d.layers[li].nodes[ni].children.len();
        let mut j: usize = 0;
        let mut found: bool = false;
        let mut best_d: u64 = 0;
        let mut best_slot: usize = 0;
        while j < nchildren
            invariant
                tree_wf(*d),
                *d == tsnap,
                (pi as int) < d.cloud.points@.len(),
                valid_node(*d, li as int, ni as int),
                nchildren == node_at(*d, li as int, ni as int).children@.len(),
                0 <= j <= nchildren,
                found == (j > 0),
                found ==> (best_slot as int) < d.layers@[li as int + 1].nodes@.len() && li as int
                    + 1 < n_layers(*d) && best_d as int == dist_pts(
                    d.cloud,
                    pi as int,
                    node_at(*d, li as int + 1, best_slot as int).rep as int,
                ),
                forall|j2: int|
                    0 <= j2 < j ==> dist_pts(
                        d.cloud,
                        pi as int,
                        node_at(
                            *d,
                            li as int + 1,
                            (#[trigger] node_at(*d, li as int, ni as int).children@[j2]).slot_index
                                as int,
                        ).rep as int,
                    ) >= best_d as int,
            decreases nchildren - j,
        {
            proof {
                assert(node_wf(*d, li as int, ni as int));
            }
            let ca: NodeAddress = d.layers[li].nodes[ni].children[j];
            let crep: usize = d.layers[li + 1].nodes[ca.slot_index].rep;
            proof {
                assert(node_wf(*d, li as int + 1, ca.slot_index as int));
            }
            let dd: u64 = d.cloud.distance(pi, crep);
            if !found || dd < best_d {
                found = true;
                best_d = dd;
                best_slot = ca.slot_index;
            }
            j = j + 1;
        }
        let mut do_descend: bool = false;
        if found {
            proof {
                assert(node_wf(*d, li as int, ni as int));
            }
            let cr: u64 = d.layers[li + 1].radius;
            if best_d <= cr {
                do_descend = true;
            }
        }
        if do_descend {
            li = li + 1;
            ni = best_slot;
        } else {
            proof {
                assert forall|j2: int|
                    0 <= j2 < node_at(*d, li as int, ni as int).children@.len() implies dist_pts(
                    d.cloud,
                    pi as int,
                    node_at(
                        *d,
                        li as int + 1,
                        (#[trigger] node_at(*d, li as int, ni as int).children@[j2]).slot_index
                            as int,
                    ).rep as int,
                ) > radius_at(d.params.scale_base as int, d.top_scale - li - 1) by {
                    assert(found);
                    assert(node_wf(*d, li as int, ni as int));
                    assert(d.layers@[li as int + 1].radius as int == radius_at(
                        d.params.scale_base as int,
                        d.top_scale - li - 1,
                    ));
                }
            }
            let nsingles: usize = d.layers[li].nodes[ni].singles.len();
            if d.params.use_singletons && nsingles < d.params.leaf_cutoff {
                push_single(d, li, ni, pi);
                proof {
                    finish_entries_proof(t_b, *d, li as int, ni as int, pi);
                    if li >= 1 {
                        assert(node_at(*d, 0, 0) == node_at(t_b, 0, 0));
                    }
                }
                return ;
            }
            let ghost t_c = *d;
            add_child(d, li, ni, pi);
            proof {
                assert(entries_below(*d, pi as int + 1)) by {
                    assert forall|li2: int, ni2: int|
                        0 <= li2 && valid_node(*d, li2, ni2) implies node_entries_below(
                        #[trigger] node_at(*d, li2, ni2),
                        pi as int + 1,
                    ) by {
                        if valid_node(t_c, li2, ni2) {
                            assert(node_at(*d, li2, ni2).members == node_at(
                                t_c,
                                li2,
                                ni2,
                            ).members);
                            assert(node_entries_below(node_at(t_c, li2, ni2), pi as int + 1));
                        } else {
                            assert(node_at(*d, li2, ni2).members@ == seq![pi]);
                        }
                    }
                }
                assert(valid_node(t_c, 0, 0));
                if li >= 1 {
                    assert(node_at(*d, 0, 0).members == node_at(t_c, 0, 0).members);
                } else {
                    assert(node_at(*d, 0, 0).members == node_at(t_c, 0, 0).members);
                }
            }
            return ;
        }
    }
}

/// Covering and separation in any well-formed tree: every member point of
/// a node lies within `scale_base^scale_index` of the node's
/// representative, and the representatives of two distinct children of
/// one node are more than `scale_base^(scale_index - 1)` apart.
pub proof fn lemma_covering_and_separation(t: TreeData, li: int, ni: int, j: int, k: int)
    requires
        tree_wf(t),
        valid_node(t, li, ni),
    ensures
        0 <= j < node_at(t, li, ni).members@.len() ==> dist_pts(
            t.cloud,
            node_at(t, li, ni).members@[j] as int,
            node_at(t, li, ni).rep as int,
        ) <= radius_at(t.params.scale_base as int, t.top_scale - li),
        0 <= j < k < node_at(t, li, ni).children@.len() ==> dist_pts(
            t.cloud,
            node_at(t, li + 1, node_at(t, li, ni).children@[k].slot_index as int).rep as int,
            node_at(t, li + 1, node_at(t, li, ni).children@[j].slot_index as int).rep as int,
        ) > radius_at(t.params.scale_base as int, t.top_scale - li - 1),
{
    assert(node_wf(t, li, ni));
    if 0 <= j < k < node_at(t, li, ni).children@.len() {
        assert(li + 1 < n_layers(t));
        assert(t.layers@[li + 1].radius as int == radius_at(
            t.params.scale_base as int,
            t.top_scale - li - 1,
        ));
    }
}

/// The exclusive mutation authority over one tree: insertion, summary
/// generation and plugin attachment happen through the writer; consuming
/// it with `reader` freezes the structure into a shareable snapshot.
pub struct CoverTreeWriter {
    pub data: TreeData,
}

/// An immutable snapshot handle over a finished tree.  A reader never
/// mutates; any number of consumers may borrow it concurrently.
pub struct CoverTreeReader {
    pub data: TreeData,
}

impl CoverTreeWriter {
    /// Freezes the writer into an immutable snapshot.  Consuming the
    /// writer enforces at compile time that no mutation can race a
    /// reader: the snapshot is consistent for its whole lifetime.
    pub fn reader(self) -> (r: CoverTreeReader)
        ensures
            r.data == self.data,
    {
        CoverTreeReader { data: self.data }
    }
}

/// Configuration of a tree build: scale base, leaf cutoff, resolution
/// floor and singleton mode, plus the construction algorithm itself.
#[derive(Clone, Copy, PartialEq, Eq, Structural, Debug)]
pub struct CoverTreeBuilder {
    pub params: TreeParams,
}

impl CoverTreeBuilder {
    /// A builder with the default parameters.
    pub fn new() -> (b: CoverTreeBuilder)
        ensures
            b.params.scale_base == 2,
            b.params.leaf_cutoff == 1,
            b.params.min_res_index == 0,
            b.params.use_singletons == true,
    {
        CoverTreeBuilder {
            params: TreeParams {
                scale_base: 2,
                leaf_cutoff: 1,
                min_res_index: 0,
                use_singletons: true,
            },
        }
    }

    pub fn set_scale_base(&mut self, x: u64)
        ensures
            final(self).params == (TreeParams { scale_base: x, ..old(self).params }),
    {
        self.params.scale_base = x;
    }

    pub fn set_leaf_cutoff(&mut self, x: usize)
        ensures
            final(self).params == (TreeParams { leaf_cutoff: x, ..old(self).params }),
    {
        self.params.leaf_cutoff = x;
    }

    pub fn set_min_res_index(&mut self, x: i32)
        ensures
            final(self).params == (TreeParams { min_res_index: x, ..old(self).params }),
    {
        self.params.min_res_index = x;
    }

    pub fn set_use_singletons(&mut self, x: bool)
        ensures
            final(self).params == (TreeParams { use_singletons: x, ..old(self).params }),
    {
        self.params.use_singletons = x;
    }

    /// Consumes a point cloud and builds the tree: point zero becomes the
    /// root's representative at the coarsest scale whose radius covers
    /// the whole cloud, and every further point is inserted by descent.
    /// Fails with `ConfigurationError` exactly when the parameters are
    /// invalid; a valid cloud (`cloud_wf`) is required of the caller.
    pub fn build(self, cloud: PointCloud) -> (r: Result<CoverTreeWriter, TreeError>)
        requires
            cloud_wf(cloud),
        ensures
            r is Ok <==> params_ok(self.params),
            r matches Err(e) ==> e == TreeError::ConfigurationError,
            r matches Ok(w) ==> tree_wf(w.data) && w.data.cloud == cloud && w.data.params
                == self.params && node_at(w.data, 0, 0).rep == 0 && node_at(w.data, 0, 0).members@
                == Seq::new(cloud.points@.len(), |k: int| k as usize),
    {
        let p = self.params;
        if !(2 <= p.scale_base && p.scale_base <= 256 && 1 <= p.leaf_cutoff && -1024
            <= p.min_res_index && p.min_res_index <= 0) {
            return Err(TreeError::ConfigurationError);
        }
        let n: usize = cloud.len();
        // Find the largest distance from point zero to any other point.
        let mut mx: u64 = 0;
        let mut i: usize = 1;
        while i < n
            invariant
                cloud_wf(cloud),
                1 <= i <= n,
                n == cloud.points@.len(),
                mx <= DIST_LIMIT,
                forall|k: int| 1 <= k < i ==> dist_pts(cloud, k, 0) <= mx as int,
            decreases n - i,
        {
            let dv: u64 = cloud.distance(i, 0);
            if dv > mx {
                mx = dv;
            }
            i = i + 1;
        }
        proof {
            crate::metrics::lemma_metric_self_zero(cloud.metric, cloud.points@[0]@);
            assert(dist_pts(cloud, 0, 0) == 0);
        }
        // Find the coarsest scale whose radius covers that distance.
        let mut ts: i32 = 0;
        let mut rad: u64 = 1;
        proof {
            vstd::arithmetic::power::lemma_pow0(p.scale_base as int);
            lemma2_to64();
            lemma2_to64_rest();
            assert(pow2(0) == 1);
        }
        while rad < mx
            invariant
                2 <= p.scale_base <= 256,
                0 <= ts <= 54,
                mx <= DIST_LIMIT,
                1 <= rad,
                rad as int == radius_at(p.scale_base as int, ts as int),
                pow2(ts as nat) <= rad as int,
            decreases 55 - ts,
        {
            proof {
                lemma2_to64();
                lemma2_to64_rest();
                if ts >= 54 {
                    lemma_pow2(ts as nat);
                    if ts > 54 {
                        lemma_pow2_strictly_increases(54, ts as nat);
                    }
                    assert(pow2(54) == 0x40000000000000);
                    assert(false);
                }
                assert((rad as int) * (p.scale_base as int) < 0x10000000000000000)
                    by (nonlinear_arith)
                    requires
                        (rad as int) < 0x40000000000001,
                        2 <= (p.scale_base as int) <= 256,
                {
                }
                assert(pow(p.scale_base as int, (ts + 1) as nat) == (p.scale_base as int) * pow(
                    p.scale_base as int,
                    ts as nat,
                )) by {
                    reveal(pow);
                }
                assert(pow2((ts + 1) as nat) == 2 * pow2(ts as nat)) by {
                    lemma_pow2(ts as nat);
                    lemma_pow2((ts + 1) as nat);
                    reveal(pow);
                }
                assert(2 * (rad as int) <= (rad as int) * (p.scale_base as int))
                    by (nonlinear_arith)
                    requires
                        1 <= (rad as int),
                        2 <= (p.scale_base as int),
                {
                }
            }
            rad = rad * p.scale_base;
            ts = ts + 1;
        }
        // The root covers everything; insert the remaining points.
        let mut members0: Vec<usize> = Vec::new();
        members0.push(0);
        let mut singles0: Vec<usize> = Vec::new();
        singles0.push(0);
        let root = Node {
            rep: 0,
            parent: None,
            children: Vec::new(),
            members: members0,
            singles: singles0,
            summary: None,
            gaussian: None,
            dirichlet: None,
        };
        let mut nodes0: Vec<Node> = Vec::new();
        nodes0.push(root);
        let mut layer_vec: Vec<Layer> = Vec::new();
        layer_vec.push(Layer { scale_index: ts, radius: rad, nodes: nodes0 });
        let ghost cloud0 = cloud;
        let mut data = TreeData { params: p, cloud, top_scale: ts, layers: layer_vec };
        proof {
            crate::metrics::lemma_metric_self_zero(data.cloud.metric, data.cloud.points@[0]@);
            assert(node_wf(data, 0, 0));
            assert(tree_wf(data));
            assert(node_at(data, 0, 0).members@ == Seq::new(1nat, |k: int| k as usize)) by {
                assert(node_at(data, 0, 0).members@ =~= Seq::new(1nat, |k: int| k as usize));
            }
        }
        let mut pi: usize = 1;
        while pi < n
            invariant
                1 <= pi <= n,
                tree_wf(data),
                data.cloud == cloud0,
                data.params == p,
                data.top_scale == ts,
                n == data.cloud.points@.len(),
                mx <= data.layers@[0].radius,
                forall|k: int| 1 <= k < n ==> dist_pts(data.cloud, k, 0) <= mx as int,
                dist_pts(data.cloud, 0, 0) == 0,
                node_at(data, 0, 0).rep == 0,
                node_at(data, 0, 0).members@ == Seq::new(pi as nat, |k: int| k as usize),
                entries_below(data, pi as int),
            decreases n - pi,
        {
            let ghost before = data;
            insert_point(&mut data, pi);
            proof {
                assert(node_at(data, 0, 0).members@ =~= Seq::new((pi + 1) as nat,
                    |k: int| k as usize));
            }
            pi = pi + 1;
        }
        Ok(CoverTreeWriter { data })
    }
}

/// After a singleton push on top of the member push of the same point,
/// every stored index is still below `pi + 1`.
proof fn finish_entries_proof(t_b: TreeData, t_c: TreeData, li0: int, ni0: int, pi: usize)
    requires
        same_but_node(t_b, t_c, li0, ni0),
        valid_node(t_b, li0, ni0),
        entries_below(t_b, pi as int + 1),
        node_at(t_c, li0, ni0).members == node_at(t_b, li0, ni0).members,
        node_at(t_c, li0, ni0).singles@ == node_at(t_b, li0, ni0).singles@.push(pi),
    ensures
        entries_below(t_c, pi as int + 1),
{
    assert forall|li2: int, ni2: int| 0 <= li2 && valid_node(t_c, li2, ni2) implies
        node_entries_below(#[trigger] node_at(t_c, li2, ni2), pi as int + 1) by {
        if li2 == li0 && ni2 == ni0 {
            let n2 = node_at(t_c, li2, ni2);
            let n1 = node_at(t_b, li2, ni2);
            assert(node_entries_below(n1, pi as int + 1));
            assert forall|j: int| 0 <= j < n2.singles@.len() implies (
            #[trigger] n2.singles@[j] as int) < pi as int + 1 by {
                if j < n1.singles@.len() as int {
                } else {
                    assert(n2.singles@[j] == pi);
                }
            }
        } else {
            assert(node_at(t_c, li2, ni2) == node_at(t_b, li2, ni2));
        }
    }
}

} // verus!
