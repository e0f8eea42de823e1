use vstd::prelude::*;

use crate::errors::TreeError;
use crate::points::{dist_pts, PointCloud, POINT_LIMIT};
use crate::metrics::COORD_LIMIT;
use crate::tree::{
    node_at, node_wf, n_layers, same_shape, tree_wf, valid_node, CoverTreeWriter, TreeData,
    strictly_increasing,
};

verus! {

/// Base statistics of one node: how many points its subtree covers and
/// how far the farthest of them is from the representative.
#[derive(PartialEq, Eq, Structural, Clone, Copy, Debug)]
pub struct NodeSummary {
    pub count: usize,
    pub node_radius: u64,
}

/// Diagonal Gaussian summary of a node's member points, kept as exact
/// integer moments: per-dimension sums and per-dimension sums of squares.
#[derive(Clone, PartialEq, Eq, Debug)]
pub struct DiagGaussian {
    pub count: usize,
    pub sums: Vec<i64>,
    pub sum_squares: Vec<u64>,
}

/// Dirichlet concentration vector over a node's branches: one weight per
/// child (that child's member count) and a final weight for the points
/// resting at the node itself (its singleton count).
#[derive(Clone, PartialEq, Eq, Debug)]
pub struct DirichletPrior {
    pub weights: Vec<u64>,
}

/// Which plugin statistic to attach.
#[derive(Clone, Copy, PartialEq, Eq, Structural, Debug)]
pub enum PluginKind {
    DiagGaussian,
    Dirichlet,
}

/// In a strictly increasing index sequence the entry at `j` is at least `j`.
pub proof fn lemma_increasing_index_ge(s: Seq<usize>, j: int)
    requires
        strictly_increasing(s),
        0 <= j < s.len(),
    ensures
        s[j] as int >= j,
    decreases j,
{
    if j > 0 {
        lemma_increasing_index_ge(s, j - 1);
    }
}

/// A strictly increasing sequence of indices below `bound` has at most
/// `bound` entries.
pub proof fn lemma_increasing_len(s: Seq<usize>, bound: int)
    requires
        0 <= bound,
        strictly_increasing(s),
        forall|j: int| 0 <= j < s.len() ==> (#[trigger] s[j] as int) < bound,
    ensures
        s.len() <= bound,
{
    if s.len() > bound && s.len() > 0 {
        lemma_increasing_index_ge(s, s.len() as int - 1);
    }
}

/// The largest member distance among the first `j` members of a node.
pub open spec fn max_member_dist(t: TreeData, li: int, ni: int, j: int) -> int
    decreases j,
{
    if j <= 0 {
        0
    } else {
        let n = node_at(t, li, ni);
        let d = dist_pts(t.cloud, n.members@[j - 1] as int, n.rep as int);
        let m = max_member_dist(t, li, ni, j - 1);
        if d > m {
            d
        } else {
            m
        }
    }
}

/// The base summary a node ought to carry: its member count and the
/// distance from its representative to its farthest member.
pub open spec fn summary_spec(t: TreeData, li: int, ni: int) -> NodeSummary {
    NodeSummary {
        count: node_at(t, li, ni).members@.len() as usize,
        node_radius: max_member_dist(t, li, ni, node_at(t, li, ni).members@.len() as int) as u64,
    }
}

/// Sum of one coordinate over the first `j` members of a node.
pub open spec fn dim_sum(c: PointCloud, ms: Seq<usize>, dcol: int, j: int) -> int
    decreases j,
{
    if j <= 0 {
        0
    } else {
        dim_sum(c, ms, dcol, j - 1) + c.points@[ms[j - 1] as int]@[dcol]
    }
}

/// Sum of one squared coordinate over the first `j` members of a node.
pub open spec fn dim_sum_sq(c: PointCloud, ms: Seq<usize>, dcol: int, j: int) -> int
    decreases j,
{
    if j <= 0 {
        0
    } else {
        let x = c.points@[ms[j - 1] as int]@[dcol] as int;
        dim_sum_sq(c, ms, dcol, j - 1) + x * x
    }
}

/// Exactness of a diagonal Gaussian attachment for one node.
pub open spec fn gaussian_ok(t: TreeData, li: int, ni: int, g: DiagGaussian) -> bool {
    let n = node_at(t, li, ni);
    &&& g.count == n.members@.len()
    &&& g.sums@.len() == t.cloud.dim
    &&& g.sum_squares@.len() == t.cloud.dim
    &&& forall|dc: int|
        0 <= dc < t.cloud.dim ==> (#[trigger] g.sums@[dc] as int) == dim_sum(
            t.cloud,
            n.members@,
            dc,
            n.members@.len() as int,
        )
    &&& forall|dc: int|
        0 <= dc < t.cloud.dim ==> (#[trigger] g.sum_squares@[dc] as int) == dim_sum_sq(
            t.cloud,
            n.members@,
            dc,
            n.members@.len() as int,
        )
}

/// Exactness of a Dirichlet attachment for one node: one concentration
/// per child, proportional to that child's member count, and a last
/// concentration for the node's own singletons.
pub open spec fn dirichlet_ok(t: TreeData, li: int, ni: int, w: DirichletPrior) -> bool {
    let n = node_at(t, li, ni);
    &&& w.weights@.len() == n.children@.len() + 1
    &&& forall|b: int|
        0 <= b < n.children@.len() ==> (#[trigger] w.weights@[b] as int) == node_at(
            t,
            li + 1,
            n.children@[b].slot_index as int,
        ).members@.len()
    &&& w.weights@[n.children@.len() as int] as int == n.singles@.len()
}

/// Two trees with identical structure: everything but the attached
/// statistics agrees.
pub open spec fn same_structure(t1: TreeData, t2: TreeData) -> bool {
    &&& same_shape(t1, t2)
    &&& forall|li: int|
        0 <= li < n_layers(t1) ==> (#[trigger] t2.layers@[li]).nodes@.len()
            == t1.layers@[li].nodes@.len()
    &&& forall|li: int, ni: int|
        valid_node(t1, li, ni) ==> {
            let a = #[trigger] node_at(t1, li, ni);
            let b = node_at(t2, li, ni);
            &&& b.rep == a.rep
            &&& b.parent == a.parent
            &&& b.children == a.children
            &&& b.members == a.members
            &&& b.singles == a.singles
        }
}

/// Structure equality preserves well-formedness.
pub proof fn lemma_wf_same_structure(t1: TreeData, t2: TreeData)
    requires
        tree_wf(t1),
        same_structure(t1, t2),
    ensures
        tree_wf(t2),
{
    assert forall|li: int, ni: int| valid_node(t2, li, ni) implies #[trigger] node_wf(
        t2,
        li,
        ni,
    ) by {
        assert(valid_node(t1, li, ni));
        assert(node_wf(t1, li, ni));
        let a = node_at(t1, li, ni);
        let b = node_at(t2, li, ni);
        assert(b.members == a.members && b.children == a.children && b.singles == a.singles
            && b.rep == a.rep);
        assert forall|j: int| 0 <= j < a.children@.len() implies node_at(
            t2,
            li + 1,
            (#[trigger] a.children@[j]).slot_index as int,
        ).rep == node_at(t1, li + 1, a.children@[j].slot_index as int).rep by {
            assert(valid_node(t1, li + 1, a.children@[j].slot_index as int));
        }
    }
}

/// Structure equality is preserved when statistics depend only on
/// structure: the summary of a node is the same in both trees.
pub proof fn lemma_summary_structural(t1: TreeData, t2: TreeData, li: int, ni: int)
    requires
        same_structure(t1, t2),
        valid_node(t1, li, ni),
    ensures
        summary_spec(t2, li, ni) == summary_spec(t1, li, ni),
{
    lemma_max_member_structural(t1, t2, li, ni, node_at(t1, li, ni).members@.len() as int);
}

proof fn lemma_max_member_structural(t1: TreeData, t2: TreeData, li: int, ni: int, j: int)
    requires
        same_structure(t1, t2),
        valid_node(t1, li, ni),
        j <= node_at(t1, li, ni).members@.len(),
    ensures
        max_member_dist(t2, li, ni, j) == max_member_dist(t1, li, ni, j),
    decreases j,
{
    if j > 0 {
        lemma_max_member_structural(t1, t2, li, ni, j - 1);
    }
}

/// Whether every node carries a summary.
pub open spec fn summaries_present(t: TreeData) -> bool {
    forall|li: int, ni: int|
        valid_node(t, li, ni) ==> (#[trigger] node_at(t, li, ni).summary) is Some
}

/// Whether every node carries exactly the summary it ought to.
pub open spec fn summarized(t: TreeData) -> bool {
    forall|li: int, ni: int|
        valid_node(t, li, ni) ==> (#[trigger] node_at(t, li, ni).summary) == Some(
            summary_spec(t, li, ni),
        )
}

pub open spec fn gaussians_attached(t: TreeData) -> bool {
    forall|li: int, ni: int|
        valid_node(t, li, ni) ==> ((#[trigger] node_at(t, li, ni).gaussian) matches Some(g)
            && gaussian_ok(t, li, ni, g))
}

pub open spec fn dirichlets_attached(t: TreeData) -> bool {
    forall|li: int, ni: int|
        valid_node(t, li, ni) ==> ((#[trigger] node_at(t, li, ni).dirichlet) matches Some(w)
            && dirichlet_ok(t, li, ni, w))
}

/// Structure equality is transitive.
pub proof fn lemma_same_structure_trans(t0: TreeData, t1: TreeData, t2: TreeData)
    requires
        same_structure(t0, t1),
        same_structure(t1, t2),
    ensures
        same_structure(t0, t2),
{
    assert forall|li: int, ni: int| valid_node(t0, li, ni) implies {
        let a = #[trigger] node_at(t0, li, ni);
        let b = node_at(t2, li, ni);
        &&& b.rep == a.rep
        &&& b.parent == a.parent
        &&& b.children == a.children
        &&& b.members == a.members
        &&& b.singles == a.singles
    } by {
        assert(valid_node(t1, li, ni));
        assert(node_at(t1, li, ni).members == node_at(t0, li, ni).members);
    }
}

impl CoverTreeWriter {
    /// Computes and attaches the base summary (member count and node
    /// radius) of every node.  The structure is untouched, the Gaussian
    /// and Dirichlet attachments are untouched, and running this twice
    /// attaches identical statistics both times.
    pub fn generate_summaries(&mut self)
        requires
            tree_wf(old(self).data),
        ensures
            tree_wf(final(self).data),
            same_structure(old(self).data, final(self).data),
            summarized(final(self).data),
            forall|li: int, ni: int|
                valid_node(old(self).data, li, ni) ==> #[trigger] node_at(
                    final(self).data,
                    li,
                    ni,
                ).gaussian == node_at(old(self).data, li, ni).gaussian && node_at(
                    final(self).data,
                    li,
                    ni,
                ).dirichlet == node_at(old(self).data, li, ni).dirichlet,
    {
        let ghost t0 = self.data;
        let mut li: usize = 0;
        while li < self.data.layers.len()
            invariant
                tree_wf(self.data),
                same_structure(t0, self.data),
                tree_wf(t0),
                0 <= li <= n_layers(self.data),
                forall|li2: int, ni2: int|
                    valid_node(self.data, li2, ni2) && li2 < li as int ==> #[trigger] node_at(
                        self.data,
                        li2,
                        ni2,
                    ).summary == Some(summary_spec(t0, li2, ni2)),
                forall|li2: int, ni2: int|
                    valid_node(t0, li2, ni2) ==> #[trigger] node_at(self.data, li2, ni2).gaussian
                        == node_at(t0, li2, ni2).gaussian && node_at(self.data, li2, ni2).dirichlet
                        == node_at(t0, li2, ni2).dirichlet,
            decreases n_layers(self.data) - li,
        {
            let mut ni: usize = 0;
            while ni < self.data.layers[li].nodes.len()
                invariant
                    tree_wf(self.data),
                    same_structure(t0, self.data),
                    tree_wf(t0),
                    0 <= li < n_layers(self.data),
                    0 <= ni <= self.data.layers@[li as int].nodes@.len(),
                    forall|li2: int, ni2: int|
                        valid_node(self.data, li2, ni2) && (li2 < li as int || (li2 == li as int
                            && ni2 < ni as int)) ==> #[trigger] node_at(self.data, li2, ni2).summary
                            == Some(summary_spec(t0, li2, ni2)),
                    forall|li2: int, ni2: int|
                        valid_node(t0, li2, ni2) ==> #[trigger] node_at(
                            self.data,
                            li2,
                            ni2,
                        ).gaussian == node_at(t0, li2, ni2).gaussian && node_at(
                            self.data,
                            li2,
                            ni2,
                        ).dirichlet == node_at(t0, li2, ni2).dirichlet,
                decreases self.data.layers@[li as int].nodes@.len() - ni,
            {
                let ghost t_snap = self.data;
                let nmembers: usize = self.data.layers[li].nodes[ni].members.len();
                let rep: usize = self.data.layers[li].nodes[ni].rep;
                let mut mx: u64 = 0;
                let mut j: usize = 0;
                proof {
                    assert(node_wf(self.data, li as int, ni as int));
                }
                while j < nmembers
                    invariant
                        self.data == t_snap,
                        tree_wf(self.data),
                        valid_node(self.data, li as int, ni as int),
                        rep == node_at(self.data, li as int, ni as int).rep,
                        nmembers == node_at(self.data, li as int, ni as int).members@.len(),
                        0 <= j <= nmembers,
                        mx as int == max_member_dist(self.data, li as int, ni as int, j as int),
                    decreases nmembers - j,
                {
                    proof {
                        assert(node_wf(self.data, li as int, ni as int));
                    }
                    let m: usize = self.data.layers[li].nodes[ni].members[j];
                    let dv: u64 = self.data.cloud.distance(m, rep);
                    if dv > mx {
                        mx = dv;
                    }
                    j = j + 1;
                }
                let s = NodeSummary { count: nmembers, node_radius: mx };
                proof {
                    lemma_summary_structural(t0, self.data, li as int, ni as int);
                    assert(s == summary_spec(t0, li as int, ni as int));
                }
                let ghost t_before = self.data;
                let layer = &mut self.data.layers[li];
                let node = &mut layer.nodes[ni];
                node.summary = Some(s);
                proof {
                    assert(same_structure(t_before, self.data));
                    lemma_wf_same_structure(t_before, self.data);
                    lemma_same_structure_trans(t0, t_before, self.data);
                    assert forall|li2: int, ni2: int|
                        valid_node(self.data, li2, ni2) && (li2 < li as int || (li2 == li as int
                            && ni2 < ni as int + 1)) implies #[trigger] node_at(
                        self.data,
                        li2,
                        ni2,
                    ).summary == Some(summary_spec(t0, li2, ni2)) by {
                        if li2 == li as int && ni2 == ni as int {
                        } else {
                            assert(node_at(self.data, li2, ni2) == node_at(t_before, li2, ni2));
                        }
                    }
                    assert forall|li2: int, ni2: int| valid_node(t0, li2, ni2) implies #[trigger]
                    node_at(self.data, li2, ni2).gaussian == node_at(t0, li2, ni2).gaussian
                        && node_at(self.data, li2, ni2).dirichlet == node_at(
                        t0,
                        li2,
                        ni2,
                    ).dirichlet by {
                        if li2 == li as int && ni2 == ni as int {
                        } else {
                            assert(node_at(self.data, li2, ni2) == node_at(t_before, li2, ni2));
                        }
                    }
                }
                ni = ni + 1;
            }
            li = li + 1;
        }
        proof {
            assert forall|li2: int, ni2: int| valid_node(self.data, li2, ni2) implies #[trigger]
            node_at(self.data, li2, ni2).summary == Some(summary_spec(self.data, li2, ni2)) by {
                lemma_summary_structural(t0, self.data, li2, ni2);
            }
        }
    }

    /// Computes and attaches one plugin statistic per node.  Fails with
    /// `StateError`, changing nothing, exactly when the base summaries
    /// have not been generated yet.
    pub fn add_plugin(&mut self, kind: PluginKind) -> (r: Result<(), TreeError>)
        requires
            tree_wf(old(self).data),
        ensures
            tree_wf(final(self).data),
            same_structure(old(self).data, final(self).data),
            r is Ok <==> summaries_present(old(self).data),
            r is Err ==> *final(self) == *old(self) && r == Err::<(), TreeError>(
                TreeError::StateError,
            ),
            forall|li: int, ni: int|
                valid_node(old(self).data, li, ni) ==> #[trigger] node_at(
                    final(self).data,
                    li,
                    ni,
                ).summary == node_at(old(self).data, li, ni).summary,
            r is Ok && kind == PluginKind::DiagGaussian ==> gaussians_attached(final(self).data)
                && (forall|li: int, ni: int|
                valid_node(old(self).data, li, ni) ==> #[trigger] node_at(
                    final(self).data,
                    li,
                    ni,
                ).dirichlet == node_at(old(self).data, li, ni).dirichlet),
            r is Ok && kind == PluginKind::Dirichlet ==> dirichlets_attached(final(self).data) && (
            forall|li: int, ni: int|
                valid_node(old(self).data, li, ni) ==> #[trigger] node_at(
                    final(self).data,
                    li,
                    ni,
                ).gaussian == node_at(old(self).data, li, ni).gaussian),
    {
        let ghost t0 = self.data;
        // Refuse to attach statistics before the base summaries exist.
        let mut li: usize = 0;
        while li < self.data.layers.len()
            invariant
                tree_wf(self.data),
                self.data == t0,
                0 <= li <= n_layers(self.data),
                forall|li2: int, ni2: int|
                    valid_node(self.data, li2, ni2) && li2 < li as int ==> (#[trigger] node_at(
                        self.data,
                        li2,
                        ni2,
                    ).summary) is Some,
            decreases n_layers(self.data) - li,
        {
            let mut ni: usize = 0;
            while ni < self.data.layers[li].nodes.len()
                invariant
                    tree_wf(self.data),
                    self.data == t0,
                    0 <= li < n_layers(self.data),
                    0 <= ni <= self.data.layers@[li as int].nodes@.len(),
                    forall|li2: int, ni2: int|
                        valid_node(self.data, li2, ni2) && li2 < li as int ==> (#[trigger] node_at(
                            self.data,
                            li2,
                            ni2,
                        ).summary) is Some,
                    forall|ni2: int|
                        0 <= ni2 < ni as int ==> (#[trigger] node_at(
                            self.data,
                            li as int,
                            ni2,
                        ).summary) is Some,
                decreases self.data.layers@[li as int].nodes@.len() - ni,
            {
                if self.data.layers[li].nodes[ni].summary.is_none() {
                    proof {
                        assert(!summaries_present(t0)) by {
                            if summaries_present(t0) {
                                assert(node_at(t0, li as int, ni as int).summary is Some);
                            }
                        }
                    }
                    return Err(TreeError::StateError);
                }
                ni = ni + 1;
            }
            li = li + 1;
        }
        // Attach the chosen statistic to every node.
        let mut li: usize = 0;
        while li < self.data.layers.len()
            invariant
                tree_wf(self.data),
                tree_wf(t0),
                same_structure(t0, self.data),
                0 <= li <= n_layers(self.data),
                forall|li2: int, ni2: int|
                    valid_node(t0, li2, ni2) ==> #[trigger] node_at(self.data, li2, ni2).summary
                        == node_at(t0, li2, ni2).summary,
                kind == PluginKind::DiagGaussian ==> forall|li2: int, ni2: int|
                    valid_node(t0, li2, ni2) ==> #[trigger] node_at(self.data, li2, ni2).dirichlet
                        == node_at(t0, li2, ni2).dirichlet,
                kind == PluginKind::Dirichlet ==> forall|li2: int, ni2: int|
                    valid_node(t0, li2, ni2) ==> #[trigger] node_at(self.data, li2, ni2).gaussian
                        == node_at(t0, li2, ni2).gaussian,
                kind == PluginKind::DiagGaussian ==> forall|li2: int, ni2: int|
                    valid_node(self.data, li2, ni2) && li2 < li as int ==> ((#[trigger] node_at(
                        self.data,
                        li2,
                        ni2,
                    ).gaussian) matches Some(g) && gaussian_ok(self.data, li2, ni2, g)),
                kind == PluginKind::Dirichlet ==> forall|li2: int, ni2: int|
                    valid_node(self.data, li2, ni2) && li2 < li as int ==> ((#[trigger] node_at(
                        self.data,
                        li2,
                        ni2,
                    ).dirichlet) matches Some(w) && dirichlet_ok(self.data, li2, ni2, w)),
            decreases n_layers(self.data) - li,
        {
            let mut ni: usize = 0;
            while ni < self.data.layers[li].nodes.len()
                invariant
                    tree_wf(self.data),
                    tree_wf(t0),
                    same_structure(t0, self.data),
                    0 <= li < n_layers(self.data),
                    0 <= ni <= self.data.layers@[li as int].nodes@.len(),
                    forall|li2: int, ni2: int|
                        valid_node(t0, li2, ni2) ==> #[trigger] node_at(
                            self.data,
                            li2,
                            ni2,
                        ).summary == node_at(t0, li2, ni2).summary,
                    kind == PluginKind::DiagGaussian ==> forall|li2: int, ni2: int|
                        valid_node(t0, li2, ni2) ==> #[trigger] node_at(
                            self.data,
                            li2,
                            ni2,
                        ).dirichlet == node_at(t0, li2, ni2).dirichlet,
                    kind == PluginKind::Dirichlet ==> forall|li2: int, ni2: int|
                        valid_node(t0, li2, ni2) ==> #[trigger] node_at(
                            self.data,
                            li2,
                            ni2,
                        ).gaussian == node_at(t0, li2, ni2).gaussian,
                    kind == PluginKind::DiagGaussian ==> forall|li2: int, ni2: int|
                        valid_node(self.data, li2, ni2) && (li2 < li as int || (li2 == li as int
                            && ni2 < ni as int)) ==> ((#[trigger] node_at(
                            self.data,
                            li2,
                            ni2,
                        ).gaussian) matches Some(g) && gaussian_ok(self.data, li2, ni2, g)),
                    kind == PluginKind::Dirichlet ==> forall|li2: int, ni2: int|
                        valid_node(self.data, li2, ni2) && (li2 < li as int || (li2 == li as int
                            && ni2 < ni as int)) ==> ((#[trigger] node_at(
                            self.data,
                            li2,
                            ni2,
                        ).dirichlet) matches Some(w) && dirichlet_ok(self.data, li2, ni2, w)),
                decreases self.data.layers@[li as int].nodes@.len() - ni,
            {
                match kind {
                    PluginKind::DiagGaussian => {
                        let g = compute_gaussian(&self.data, li, ni);
                        let ghost t_before = self.data;
                        let layer = &mut self.data.layers[li];
                        let node = &mut layer.nodes[ni];
                        node.gaussian = Some(g);
                        proof {
                            assert(same_structure(t_before, self.data));
                            lemma_wf_same_structure(t_before, self.data);
                            lemma_same_structure_trans(t0, t_before, self.data);
                            plugin_frame_proof(t0, t_before, self.data, li as int, ni as int);
                            assert forall|li2: int, ni2: int|
                                valid_node(self.data, li2, ni2) && (li2 < li as int || (li2
                                    == li as int && ni2 < ni as int + 1)) implies ((
                            #[trigger] node_at(self.data, li2, ni2).gaussian) matches Some(g2)
                                && gaussian_ok(self.data, li2, ni2, g2)) by {
                                if li2 == li as int && ni2 == ni as int {
                                    assert(node_at(self.data, li2, ni2).gaussian == Some(g));
                                    assert(gaussian_ok(t_before, li2, ni2, g));
                                    assert(gaussian_ok(self.data, li2, ni2, g));
                                } else {
                                    assert(node_at(self.data, li2, ni2) == node_at(
                                        t_before,
                                        li2,
                                        ni2,
                                    ));
                                    match node_at(t_before, li2, ni2).gaussian {
                                        Some(g2) => {
                                            assert(gaussian_ok(t_before, li2, ni2, g2));
                                            assert(gaussian_ok(self.data, li2, ni2, g2));
                                        },
                                        None => {
                                            assert(false);
                                        },
                                    }
                                }
                            }
                        }
                    },
                    PluginKind::Dirichlet => {
                        let w = compute_dirichlet(&self.data, li, ni);
                        let ghost t_before = self.data;
                        let layer = &mut self.data.layers[li];
                        let node = &mut layer.nodes[ni];
                        node.dirichlet = Some(w);
                        proof {
                            assert(same_structure(t_before, self.data));
                            lemma_wf_same_structure(t_before, self.data);
                            lemma_same_structure_trans(t0, t_before, self.data);
                            plugin_frame_proof(t0, t_before, self.data, li as int, ni as int);
                            assert forall|li2: int, ni2: int|
                                valid_node(self.data, li2, ni2) && (li2 < li as int || (li2
                                    == li as int && ni2 < ni as int + 1)) implies ((
                            #[trigger] node_at(self.data, li2, ni2).dirichlet) matches Some(w2)
                                && dirichlet_ok(self.data, li2, ni2, w2)) by {
                                if li2 == li as int && ni2 == ni as int {
                                    assert(node_at(self.data, li2, ni2).dirichlet == Some(w));
                                    assert(dirichlet_ok(t_before, li2, ni2, w));
                                    assert(dirichlet_ok(self.data, li2, ni2, w));
                                } else {
                                    assert(node_at(self.data, li2, ni2) == node_at(
                                        t_before,
                                        li2,
                                        ni2,
                                    ));
                                    match node_at(t_before, li2, ni2).dirichlet {
                                        Some(w2) => {
                                            assert(dirichlet_ok(t_before, li2, ni2, w2));
                                            assert(dirichlet_ok(self.data, li2, ni2, w2));
                                        },
                                        None => {
                                            assert(false);
                                        },
                                    }
                                }
                            }
                        }
                    },
                }
                ni = ni + 1;
            }
            li = li + 1;
        }
        Ok(())
    }
}

/// Frame reasoning for one plugin write: every node other than
/// `(li0, ni0)` is untouched, and the exactness predicates transfer
/// across structure-equal trees.
proof fn plugin_frame_proof(t0: TreeData, t_before: TreeData, t_after: TreeData, li0: int, ni0: int)
    requires
        tree_wf(t0),
        same_structure(t0, t_before),
        same_structure(t_before, t_after),
        valid_node(t_before, li0, ni0),
        forall|li2: int, ni2: int|
            valid_node(t_before, li2, ni2) && !(li2 == li0 && ni2 == ni0) ==> #[trigger] node_at(
                t_after,
                li2,
                ni2,
            ) == node_at(t_before, li2, ni2),
    ensures
        forall|li2: int, ni2: int|
            valid_node(t_before, li2, ni2) && !(li2 == li0 && ni2 == ni0) ==> #[trigger] node_at(
                t_after,
                li2,
                ni2,
            ).summary == node_at(t_before, li2, ni2).summary && node_at(t_after, li2, ni2).gaussian
                == node_at(t_before, li2, ni2).gaussian && node_at(t_after, li2, ni2).dirichlet
                == node_at(t_before, li2, ni2).dirichlet,
        forall|li2: int, ni2: int, g: DiagGaussian|
            valid_node(t_before, li2, ni2) && gaussian_ok(t_before, li2, ni2, g)
                ==> #[trigger] gaussian_ok(t_after, li2, ni2, g),
        forall|li2: int, ni2: int, w: DirichletPrior|
            valid_node(t_before, li2, ni2) && dirichlet_ok(t_before, li2, ni2, w)
                ==> #[trigger] dirichlet_ok(t_after, li2, ni2, w),
{
    assert forall|li2: int, ni2: int, g: DiagGaussian|
        valid_node(t_before, li2, ni2) && gaussian_ok(t_before, li2, ni2, g) implies #[trigger]
    gaussian_ok(t_after, li2, ni2, g) by {
        assert(node_at(t_after, li2, ni2).members == node_at(t_before, li2, ni2).members);
        assert(t_after.cloud == t_before.cloud);
    }
    assert forall|li2: int, ni2: int, w: DirichletPrior|
        valid_node(t_before, li2, ni2) && dirichlet_ok(t_before, li2, ni2, w) implies #[trigger]
    dirichlet_ok(t_after, li2, ni2, w) by {
        let n = node_at(t_before, li2, ni2);
        assert(node_at(t_after, li2, ni2).children == n.children && node_at(
            t_after,
            li2,
            ni2,
        ).singles == n.singles);
        assert forall|b: int| 0 <= b < n.children@.len() implies node_at(
            t_after,
            li2 + 1,
            (#[trigger] n.children@[b]).slot_index as int,
        ).members == node_at(t_before, li2 + 1, n.children@[b].slot_index as int).members by {
            assert(valid_node(t_before, li2 + 1, n.children@[b].slot_index as int)) by {
                assert(valid_node(t0, li2, ni2));
                assert(node_wf(t0, li2, ni2));
                assert(node_at(t0, li2, ni2).children == n.children);
            }
        }
    }
}

/// Computes the diagonal Gaussian moments of one node's members.
fn compute_gaussian(t: &TreeData, li: usize, ni: usize) -> (g: DiagGaussian)
    requires
        tree_wf(*t),
        valid_node(*t, li as int, ni as int),
    ensures
        gaussian_ok(*t, li as int, ni as int, g),
{
    proof {
        assert(node_wf(*t, li as int, ni as int));
        lemma_increasing_len(
            node_at(*t, li as int, ni as int).members@,
            t.cloud.points@.len() as int,
        );
    }
    let nmembers: usize = t.layers[li].nodes[ni].members.len();
    let dim: usize = t.cloud.dim;
    let mut sums: Vec<i64> = Vec::new();
    let mut sqs: Vec<u64> = Vec::new();
    let mut dc: usize = 0;
    while dc < dim
        invariant
            tree_wf(*t),
            valid_node(*t, li as int, ni as int),
            dim == t.cloud.dim,
            nmembers == node_at(*t, li as int, ni as int).members@.len(),
            nmembers <= POINT_LIMIT,
            0 <= dc <= dim,
            sums@.len() == dc,
            sqs@.len() == dc,
            forall|d2: int|
                0 <= d2 < dc as int ==> (#[trigger] sums@[d2] as int) == dim_sum(
                    t.cloud,
                    node_at(*t, li as int, ni as int).members@,
                    d2,
                    nmembers as int,
                ),
            forall|d2: int|
                0 <= d2 < dc as int ==> (#[trigger] sqs@[d2] as int) == dim_sum_sq(
                    t.cloud,
                    node_at(*t, li as int, ni as int).members@,
                    d2,
                    nmembers as int,
                ),
        decreases dim - dc,
    {
        let mut acc: i64 = 0;
        let mut accsq: u64 = 0;
        let mut j: usize = 0;
        while j < nmembers
            invariant
                tree_wf(*t),
                valid_node(*t, li as int, ni as int),
                dim == t.cloud.dim,
                0 <= dc < dim,
                nmembers == node_at(*t, li as int, ni as int).members@.len(),
                nmembers <= POINT_LIMIT,
                0 <= j <= nmembers,
                acc as int == dim_sum(
                    t.cloud,
                    node_at(*t, li as int, ni as int).members@,
                    dc as int,
                    j as int,
                ),
                -(j as int) * (COORD_LIMIT as int) <= acc as int <= (j as int) * (
                COORD_LIMIT as int),
                accsq as int == dim_sum_sq(
                    t.cloud,
                    node_at(*t, li as int, ni as int).members@,
                    dc as int,
                    j as int,
                ),
                accsq as int <= (j as int) * ((COORD_LIMIT as int) * (COORD_LIMIT as int)),
            decreases nmembers - j,
        {
            proof {
                assert(node_wf(*t, li as int, ni as int));
            }
            let m: usize = t.layers[li].nodes[ni].members[j];
            let x: i64 = t.cloud.points[m][dc];
            proof {
                assert(-COORD_LIMIT <= x <= COORD_LIMIT);
                assert((x as int) * (x as int) <= (COORD_LIMIT as int) * (COORD_LIMIT as int)
                    && 0 <= (x as int) * (x as int)) by (nonlinear_arith)
                    requires
                        -(COORD_LIMIT as int) <= x as int <= COORD_LIMIT as int,
                {
                }
                assert((j as int + 1) * (COORD_LIMIT as int) <= (POINT_LIMIT as int) * (
                COORD_LIMIT as int)) by (nonlinear_arith)
                    requires
                        j as int + 1 <= POINT_LIMIT as int,
                {
                }
                assert((j as int + 1) * ((COORD_LIMIT as int) * (COORD_LIMIT as int)) <= (
                POINT_LIMIT as int) * ((COORD_LIMIT as int) * (COORD_LIMIT as int)))
                    by (nonlinear_arith)
                    requires
                        j as int + 1 <= POINT_LIMIT as int,
                {
                }
                assert((j as int + 1) * (COORD_LIMIT as int) == (j as int) * (COORD_LIMIT as int)
                    + COORD_LIMIT as int) by (nonlinear_arith);
                assert((j as int + 1) * ((COORD_LIMIT as int) * (COORD_LIMIT as int)) == (j as int)
                    * ((COORD_LIMIT as int) * (COORD_LIMIT as int)) + (COORD_LIMIT as int) * (
                COORD_LIMIT as int)) by (nonlinear_arith);
            }
            acc = acc + x;
            accsq = accsq + ((x * x) as u64);
            j = j + 1;
        }
        sums.push(acc);
        sqs.push(accsq);
        dc = dc + 1;
    }
    DiagGaussian { count: nmembers, sums, sum_squares: sqs }
}

/// Computes the Dirichlet concentration vector of one node: child member
/// counts followed by the node's singleton count.
fn compute_dirichlet(t: &TreeData, li: usize, ni: usize) -> (w: DirichletPrior)
    requires
        tree_wf(*t),
        valid_node(*t, li as int, ni as int),
    ensures
        dirichlet_ok(*t, li as int, ni as int, w),
{
    let nch: usize = t.layers[li].nodes[ni].children.len();
    let mut weights: Vec<u64> = Vec::new();
    let mut b: usize = 0;
    while b < nch
        invariant
            tree_wf(*t),
            valid_node(*t, li as int, ni as int),
            nch == node_at(*t, li as int, ni as int).children@.len(),
            0 <= b <= nch,
            weights@.len() == b,
            forall|b2: int|
                0 <= b2 < b as int ==> (#[trigger] weights@[b2] as int) == node_at(
                    *t,
                    li as int + 1,
                    node_at(*t, li as int, ni as int).children@[b2].slot_index as int,
                ).members@.len(),
        decreases nch - b,
    {
        proof {
            assert(node_wf(*t, li as int, ni as int));
        }
        let ca = t.layers[li].nodes[ni].children[b];
        let cnt: usize = t.layers[li + 1].nodes[ca.slot_index].members.len();
        weights.push(cnt as u64);
        b = b + 1;
    }
    let nsingles: usize = t.layers[li].nodes[ni].singles.len();
    weights.push(nsingles as u64);
    DirichletPrior { weights }
}

/// Attached statistics remain exact across structure-equal trees whose
/// attachments agree.
pub proof fn lemma_attachments_structural(t1: TreeData, t2: TreeData)
    requires
        tree_wf(t1),
        same_structure(t1, t2),
    ensures
        (summarized(t1) && (forall|li: int, ni: int|
            valid_node(t1, li, ni) ==> #[trigger] node_at(t2, li, ni).summary == node_at(
                t1,
                li,
                ni,
            ).summary)) ==> summarized(t2),
        (gaussians_attached(t1) && (forall|li: int, ni: int|
            valid_node(t1, li, ni) ==> #[trigger] node_at(t2, li, ni).gaussian == node_at(
                t1,
                li,
                ni,
            ).gaussian)) ==> gaussians_attached(t2),
        (dirichlets_attached(t1) && (forall|li: int, ni: int|
            valid_node(t1, li, ni) ==> #[trigger] node_at(t2, li, ni).dirichlet == node_at(
                t1,
                li,
                ni,
            ).dirichlet)) ==> dirichlets_attached(t2),
{
    if summarized(t1) && (forall|li: int, ni: int|
        valid_node(t1, li, ni) ==> #[trigger] node_at(t2, li, ni).summary == node_at(
            t1,
            li,
            ni,
        ).summary) {
        assert forall|li: int, ni: int| valid_node(t2, li, ni) implies (#[trigger] node_at(
            t2,
            li,
            ni,
        ).summary) == Some(summary_spec(t2, li, ni)) by {
            assert(valid_node(t1, li, ni));
            lemma_summary_structural(t1, t2, li, ni);
        }
    }
    if gaussians_attached(t1) && (forall|li: int, ni: int|
        valid_node(t1, li, ni) ==> #[trigger] node_at(t2, li, ni).gaussian == node_at(
            t1,
            li,
            ni,
        ).gaussian) {
        assert forall|li: int, ni: int| valid_node(t2, li, ni) implies ((#[trigger] node_at(
            t2,
            li,
            ni,
        ).gaussian) matches Some(g) && gaussian_ok(t2, li, ni, g)) by {
            assert(valid_node(t1, li, ni));
            match node_at(t1, li, ni).gaussian {
                Some(g) => {
                    assert(gaussian_ok(t1, li, ni, g));
                    assert(node_at(t2, li, ni).members == node_at(t1, li, ni).members);
                    assert(gaussian_ok(t2, li, ni, g));
                },
                None => {
                    assert(false);
                },
            }
        }
    }
    if dirichlets_attached(t1) && (forall|li: int, ni: int|
        valid_node(t1, li, ni) ==> #[trigger] node_at(t2, li, ni).dirichlet == node_at(
            t1,
            li,
            ni,
        ).dirichlet) {
        assert forall|li: int, ni: int| valid_node(t2, li, ni) implies ((#[trigger] node_at(
            t2,
            li,
            ni,
        ).dirichlet) matches Some(w) && dirichlet_ok(t2, li, ni, w)) by {
            assert(valid_node(t1, li, ni));
            match node_at(t1, li, ni).dirichlet {
                Some(w) => {
                    assert(dirichlet_ok(t1, li, ni, w));
                    let n = node_at(t1, li, ni);
                    assert(node_at(t2, li, ni).children == n.children && node_at(
                        t2,
                        li,
                        ni,
                    ).singles == n.singles);
                    assert forall|b: int| 0 <= b < n.children@.len() implies node_at(
                        t2,
                        li + 1,
                        (#[trigger] n.children@[b]).slot_index as int,
                    ).members == node_at(t1, li + 1, n.children@[b].slot_index as int).members by {
                        assert(node_wf(t1, li, ni));
                        assert(valid_node(t1, li + 1, n.children@[b].slot_index as int));
                    }
                    assert(dirichlet_ok(t2, li, ni, w));
                },
                None => {
                    assert(false);
                },
            }
        }
    }
}

/// Generating summaries is idempotent: two trees summarized over the
/// same structure carry identical attached statistics.
pub proof fn lemma_generate_summaries_idempotent(t1: TreeData, t2: TreeData)
    requires
        same_structure(t1, t2),
        summarized(t1),
        summarized(t2),
    ensures
        forall|li: int, ni: int|
            valid_node(t1, li, ni) ==> #[trigger] node_at(t2, li, ni).summary == node_at(
                t1,
                li,
                ni,
            ).summary,
{
    assert forall|li: int, ni: int| valid_node(t1, li, ni) implies #[trigger] node_at(
        t2,
        li,
        ni,
    ).summary == node_at(t1, li, ni).summary by {
        assert(valid_node(t2, li, ni));
        lemma_summary_structural(t1, t2, li, ni);
    }
}

} // verus!
