use vstd::prelude::*;

use crate::address::NodeAddress;
use crate::tracker::{
    lemma_dry_path_valid, path_addrs, paths_view, BayesCategoricalTracker, TrackerState,
};
use crate::tree::{addr_ok, tree_wf, CoverTreeReader};

verus! {

/// One step of the linear congruential generator the trainer draws from.
pub open spec fn lcg_next(s: u64) -> u64 {
    vstd::wrapping::u64_specs::wrapping_add(
        vstd::wrapping::u64_specs::wrapping_mul(s, 6364136223846793005),
        1442695040888963407,
    )
}

/// The generator state after `n` steps from `seed`.
pub open spec fn lcg_at(seed: u64, n: int) -> u64
    decreases n,
{
    if n <= 0 {
        seed
    } else {
        lcg_next(lcg_at(seed, n - 1))
    }
}

/// A deterministic pseudo-random generator: the same seed always yields
/// the same stream, which makes training reproducible.
pub struct Lcg {
    pub state: u64,
}

impl Lcg {
    pub fn new(seed: u64) -> (r: Lcg)
        ensures
            r.state == seed,
    {
        Lcg { state: seed }
    }

    /// Advances the generator and returns the new state.
    pub fn next_value(&mut self) -> (r: u64)
        ensures
            final(self).state == lcg_next(old(self).state),
            r == lcg_next(old(self).state),
    {
        self.state = self.state.wrapping_mul(6364136223846793005).wrapping_add(
            1442695040888963407,
        );
        self.state
    }
}

/// The point index drawn for step `s` of sequence `i`: the trainer
/// samples from the tree's own empirical point distribution, uniformly
/// over the stored points.
pub open spec fn sample_index(npoints: int, seed: u64, len: int, i: int, s: int) -> int {
    (lcg_at(seed, i * len + s + 1) as int) % npoints
}

/// The traversal path of the point drawn for step `s` of sequence `i`.
#[verifier::opaque]
pub open spec fn step_path(
    t: crate::tree::TreeData,
    npoints: int,
    seed: u64,
    len: int,
    i: int,
    s: int,
) -> Seq<NodeAddress> {
    path_addrs(t, t.cloud.points@[sample_index(npoints, seed, len, i, s)]@)
}

/// The posterior state of one node after a tracker step, beside the
/// node's baseline concentration, for a later divergence computation.
pub struct NodePosterior {
    pub address: NodeAddress,
    /// Posterior Dirichlet concentration per branch.
    pub posterior: Vec<u64>,
    /// Baseline (prior) Dirichlet concentration per branch.
    pub prior: Vec<u64>,
}

/// The per-step snapshot a training sequence records: the step number
/// and the posterior of every node on that step's traversal path.
pub struct KLDivergenceStats {
    pub sequence_position: usize,
    pub posteriors: Vec<NodePosterior>,
}

/// Offline calibration of the tracker: feeds synthetic sequences drawn
/// from the tree's own point distribution through fresh trackers and
/// records each sequence's posterior trajectory.  Deterministic for a
/// fixed seed.
#[derive(Clone, Copy, PartialEq, Eq, Structural, Debug)]
pub struct DirichletBaseline {
    pub prior_weight: u64,
    pub observation_weight: u64,
    pub sequence_len: usize,
    pub num_sequences: usize,
    pub window_size: usize,
    pub seed: u64,
}

/// One training step: draws the point selected by `draw`, feeds it to the
/// tracker, and snapshots the posterior of every node on its path.
fn run_step(
    reader: &CoverTreeReader,
    tracker: &mut BayesCategoricalTracker,
    base_tracker: &BayesCategoricalTracker,
    draw: u64,
    npoints: usize,
    s: usize,
) -> (st: KLDivergenceStats)
    requires
        tree_wf(reader.data),
        crate::plugins::dirichlets_attached(reader.data),
        crate::tracker::tracker_wf(*old(tracker)),
        crate::tracker::tracker_wf(*base_tracker),
        old(tracker).snap@ == reader.data,
        base_tracker.snap@ == reader.data,
        old(tracker).state == TrackerState::Accumulating,
        old(tracker).paths@.len() < 0x100000000,
        npoints == reader.data.cloud.points@.len(),
        npoints >= 1,
        s < 100000,
    ensures
        crate::tracker::tracker_wf(*final(tracker)),
        final(tracker).snap@ == old(tracker).snap@,
        final(tracker).state == old(tracker).state,
        final(tracker).prior_weight == old(tracker).prior_weight,
        final(tracker).observation_weight == old(tracker).observation_weight,
        final(tracker).window_size == old(tracker).window_size,
        final(tracker).paths@.len() <= old(tracker).paths@.len() + 1,
        st.sequence_position == s + 1,
        st.posteriors@.len() == path_addrs(
            reader.data,
            reader.data.cloud.points@[(draw as int) % (npoints as int)]@,
        ).len(),
        st.posteriors@.len() >= 1,
{
    let idx: usize = (draw % (npoints as u64)) as usize;
    let point = &reader.data.cloud.points[idx];
    let ghost q = point@;
    let push_result = tracker.push(reader, point);
    proof {
        assert(push_result is Ok);
        lemma_dry_path_valid(reader.data, q, 0, 0);
        assert(paths_view(tracker.paths@).len() == tracker.paths@.len());
        assert(paths_view(old(tracker).paths@).len() == old(tracker).paths@.len());
    }
    // Record the posterior of every node on this step's path.
    let steps = reader.dry_insert(point);
    proof {
        assert(forall|s2: int|
            0 <= s2 < steps@.len() ==> addr_ok(reader.data, (#[trigger] steps@[s2]).1));
    }
    let mut posteriors: Vec<NodePosterior> = Vec::new();
    let mut j: usize = 0;
    while j < steps.len()
        invariant
            tree_wf(reader.data),
            crate::plugins::dirichlets_attached(reader.data),
            crate::tracker::tracker_wf(*tracker),
            crate::tracker::tracker_wf(*base_tracker),
            tracker.snap@ == reader.data,
            base_tracker.snap@ == reader.data,
            forall|s2: int|
                0 <= s2 < steps@.len() ==> addr_ok(reader.data, (#[trigger] steps@[s2]).1),
            0 <= j <= steps@.len(),
            posteriors@.len() == j,
        decreases steps@.len() - j,
    {
        let addr: NodeAddress = steps[j].1;
        proof {
            assert(addr_ok(reader.data, addr));
        }
        let posterior = tracker.posterior(reader, addr);
        let prior = base_tracker.posterior(reader, addr);
        posteriors.push(NodePosterior { address: addr, posterior, prior });
        j = j + 1;
    }
    KLDivergenceStats { sequence_position: s + 1, posteriors }
}

impl DirichletBaseline {
    pub fn new() -> (r: DirichletBaseline)
        ensures
            r.prior_weight == 1,
            r.observation_weight == 1,
            r.sequence_len == 50,
            r.num_sequences == 100,
            r.window_size == 0,
            r.seed == 1,
    {
        DirichletBaseline {
            prior_weight: 1,
            observation_weight: 1,
            sequence_len: 50,
            num_sequences: 100,
            window_size: 0,
            seed: 1,
        }
    }

    pub fn set_prior_weight(&mut self, x: u64)
        ensures
            *final(self) == (DirichletBaseline { prior_weight: x, ..*old(self) }),
    {
        self.prior_weight = x;
    }

    pub fn set_observation_weight(&mut self, x: u64)
        ensures
            *final(self) == (DirichletBaseline { observation_weight: x, ..*old(self) }),
    {
        self.observation_weight = x;
    }

    pub fn set_sequence_len(&mut self, x: usize)
        ensures
            *final(self) == (DirichletBaseline { sequence_len: x, ..*old(self) }),
    {
        self.sequence_len = x;
    }

    pub fn set_num_sequences(&mut self, x: usize)
        ensures
            *final(self) == (DirichletBaseline { num_sequences: x, ..*old(self) }),
    {
        self.num_sequences = x;
    }

    pub fn set_window_size(&mut self, x: usize)
        ensures
            *final(self) == (DirichletBaseline { window_size: x, ..*old(self) }),
    {
        self.window_size = x;
    }

    pub fn set_seed(&mut self, x: u64)
        ensures
            *final(self) == (DirichletBaseline { seed: x, ..*old(self) }),
    {
        self.seed = x;
    }

    /// Runs the calibration: `num_sequences` independent sequences of
    /// `sequence_len` synthetic points each, every point drawn uniformly
    /// from the stored cloud by the seeded generator, fed through a
    /// fresh tracker; each step records the posterior of every node on
    /// that step's traversal path.
    #[verifier::rlimit(100)]
    pub fn train(&self, reader: &CoverTreeReader) -> (r: Vec<Vec<KLDivergenceStats>>)
        requires
            tree_wf(reader.data),
            crate::plugins::dirichlets_attached(reader.data),
            1 <= self.prior_weight <= 65536,
            1 <= self.observation_weight <= 65536,
            self.sequence_len <= 100000,
            self.num_sequences <= 100000,
        ensures
            r@.len() == self.num_sequences,
            forall|i: int| 0 <= i < r@.len() ==> (#[trigger] r@[i])@.len() == self.sequence_len,
            forall|i: int, s: int|
                0 <= i < r@.len() && 0 <= s < self.sequence_len ==> (#[trigger] r@[i]@[s]).sequence_position
                    == s + 1,
            forall|i: int, s: int|
                0 <= i < r@.len() && 0 <= s < self.sequence_len ==> (
                #[trigger] r@[i]@[s]).posteriors@.len() == step_path(
                    reader.data,
                    reader.data.cloud.points@.len() as int,
                    self.seed,
                    self.sequence_len as int,
                    i,
                    s,
                ).len() && r@[i]@[s].posteriors@.len() >= 1,
    {
        let t = &reader.data;
        let npoints: usize = t.cloud.len();
        let mut rng = Lcg::new(self.seed);
        let mut out: Vec<Vec<KLDivergenceStats>> = Vec::new();
        let mut i: usize = 0;
        while i < self.num_sequences
            invariant
                tree_wf(reader.data),
                crate::plugins::dirichlets_attached(reader.data),
                t == &reader.data,
                1 <= self.prior_weight <= 65536,
                1 <= self.observation_weight <= 65536,
                self.sequence_len <= 100000,
                self.num_sequences <= 100000,
                npoints == t.cloud.points@.len(),
                npoints >= 1,
                0 <= i <= self.num_sequences,
                rng.state == lcg_at(self.seed, i as int * self.sequence_len as int),
                out@.len() == i,
                forall|i2: int|
                    0 <= i2 < i as int ==> (#[trigger] out@[i2])@.len() == self.sequence_len,
                forall|i2: int, s: int|
                    0 <= i2 < i as int && 0 <= s < self.sequence_len ==> (
                    #[trigger] out@[i2]@[s]).sequence_position == s + 1,
                forall|i2: int, s: int|
                    0 <= i2 < i as int && 0 <= s < self.sequence_len ==> (
                    #[trigger] out@[i2]@[s]).posteriors@.len() == step_path(
                        reader.data,
                        npoints as int,
                        self.seed,
                        self.sequence_len as int,
                        i2,
                        s,
                    ).len() && out@[i2]@[s].posteriors@.len() >= 1,
            decreases self.num_sequences - i,
        {
            let base_tracker = BayesCategoricalTracker::new(
                self.prior_weight,
                self.observation_weight,
                self.window_size,
                reader,
            );
            let mut tracker = BayesCategoricalTracker::new(
                self.prior_weight,
                self.observation_weight,
                self.window_size,
                reader,
            );
            let mut seq_stats: Vec<KLDivergenceStats> = Vec::new();
            let mut s: usize = 0;
            while s < self.sequence_len
                invariant
                    tree_wf(reader.data),
                    crate::plugins::dirichlets_attached(reader.data),
                    t == &reader.data,
                    1 <= self.prior_weight <= 65536,
                    1 <= self.observation_weight <= 65536,
                    self.sequence_len <= 100000,
                    npoints == t.cloud.points@.len(),
                    npoints >= 1,
                    0 <= i < self.num_sequences,
                    0 <= s <= self.sequence_len,
                    crate::tracker::tracker_wf(tracker),
                    crate::tracker::tracker_wf(base_tracker),
                    tracker.snap@ == reader.data,
                    base_tracker.snap@ == reader.data,
                    base_tracker.paths@.len() == 0,
                    base_tracker.prior_weight == self.prior_weight,
                    base_tracker.observation_weight == self.observation_weight,
                    tracker.prior_weight == self.prior_weight,
                    tracker.observation_weight == self.observation_weight,
                    tracker.state == TrackerState::Accumulating,
                    tracker.paths@.len() <= s,
                    rng.state == lcg_at(
                        self.seed,
                        i as int * self.sequence_len as int + s as int,
                    ),
                    seq_stats@.len() == s,
                    forall|s2: int|
                        0 <= s2 < s as int ==> (#[trigger] seq_stats@[s2]).sequence_position == s2
                            + 1,
                    forall|s2: int|
                        0 <= s2 < s as int ==> (#[trigger] seq_stats@[s2]).posteriors@.len()
                            == step_path(
                            reader.data,
                            npoints as int,
                            self.seed,
                            self.sequence_len as int,
                            i as int,
                            s2,
                        ).len() && seq_stats@[s2].posteriors@.len() >= 1,
                decreases self.sequence_len - s,
            {
                let draw: u64 = rng.next_value();
                proof {
                    assert(rng.state == lcg_at(
                        self.seed,
                        i as int * self.sequence_len as int + s as int + 1,
                    ));
                }
                let st = run_step(reader, &mut tracker, &base_tracker, draw, npoints, s);
                proof {
                    reveal(step_path);
                    assert((draw as int) % (npoints as int) == sample_index(
                        npoints as int,
                        self.seed,
                        self.sequence_len as int,
                        i as int,
                        s as int,
                    ));
                    assert(st.posteriors@.len() == step_path(
                        reader.data,
                        npoints as int,
                        self.seed,
                        self.sequence_len as int,
                        i as int,
                        s as int,
                    ).len());
                }
                seq_stats.push(st);
                s = s + 1;
            }
            out.push(seq_stats);
            proof {
                assert(i as int * self.sequence_len as int + self.sequence_len as int == (i as int
                    + 1) * self.sequence_len as int) by (nonlinear_arith);
            }
            i = i + 1;
        }
        out
    }
}

} // verus!
