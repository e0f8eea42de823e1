use covertree::covertree::CoverTree;
use covertree::errors::TreeError;
use covertree::metrics::{distance_points, Metric, L1, L2};
use covertree::points::PointCloud;
use covertree::plugins::PluginKind;
use covertree::tree::CoverTreeBuilder;

fn cluster_points(
    n: usize,
    dim: usize,
    center: i64,
    spread: i64,
    seed: &mut u64,
) -> Vec<Vec<i64>> {
    let mut out = Vec::new();
    for _ in 0..n {
        let mut p = Vec::new();
        for _ in 0..dim {
            *seed = seed
                .wrapping_mul(6364136223846793005)
                .wrapping_add(1442695040888963407);
            let jitter = (*seed % (2 * spread as u64 + 1)) as i64 - spread;
            p.push(center + jitter);
        }
        out.push(p);
    }
    out
}

fn fitted_tree(points: Vec<Vec<i64>>) -> CoverTree {
    let mut tree = CoverTree::new();
    tree.set_scale_base(2);
    tree.set_leaf_cutoff(1);
    tree.set_min_res_index(0);
    tree.set_use_singletons(true);
    tree.fit(points, None).expect("fit should succeed");
    tree
}

fn dist(m: Metric, a: &Vec<i64>, b: &Vec<i64>) -> u64 {
    distance_points(m, a, b)
}

#[test]
fn metric_values_are_exact() {
    let a = vec![1, 2, 3];
    let b = vec![4, 0, 3];
    assert_eq!(L1::distance(&a, &b), 5);
    assert_eq!(L2::distance(&a, &b), 13);
    assert_eq!(L2::distance(&a, &a), 0);
    assert_eq!(L1::distance(&a, &b), L1::distance(&b, &a));
}

#[test]
fn covering_and_separation_hold_in_built_tree() {
    let mut seed = 7u64;
    let mut pts = cluster_points(30, 3, 0, 40, &mut seed);
    pts.extend(cluster_points(30, 3, 1000, 40, &mut seed));
    let tree = fitted_tree(pts.clone());
    let rd = tree.reader.as_ref().unwrap();
    let data = &rd.data;
    for (li, layer) in data.layers.iter().enumerate() {
        for node in layer.nodes.iter() {
            // Covering: every member lies within the layer radius.
            for &m in node.members.iter() {
                let d = dist(data.cloud.metric, &pts[m], &pts[node.rep]);
                assert!(d <= layer.radius);
            }
            // Separation: sibling representatives are far apart.
            let child_radius = if li + 1 < data.layers.len() {
                data.layers[li + 1].radius
            } else {
                0
            };
            for x in 0..node.children.len() {
                for y in (x + 1)..node.children.len() {
                    let rx = data.layers[li + 1].nodes[node.children[x].slot_index].rep;
                    let ry = data.layers[li + 1].nodes[node.children[y].slot_index].rep;
                    let d = dist(data.cloud.metric, &pts[rx], &pts[ry]);
                    assert!(d > child_radius);
                }
            }
        }
    }
}

#[test]
fn knn_matches_brute_force() {
    let mut seed = 21u64;
    let pts = cluster_points(80, 4, 0, 500, &mut seed);
    let tree = fitted_tree(pts.clone());
    let query = vec![37, -12, 240, 5];
    for k in [0usize, 1, 3, 10, 80, 200] {
        let got = tree.knn(&query, k);
        // Brute force ground truth.
        let mut all: Vec<(u64, usize)> = (0..pts.len())
            .map(|i| (dist(Metric::L2, &query, &pts[i]), i))
            .collect();
        all.sort();
        all.truncate(k.min(pts.len()));
        assert_eq!(got, all);
    }
}

#[test]
fn knn_of_zero_is_empty() {
    let mut seed = 3u64;
    let pts = cluster_points(10, 2, 0, 50, &mut seed);
    let tree = fitted_tree(pts);
    assert!(tree.knn(&vec![0, 0], 0).is_empty());
}

#[test]
fn dry_insert_is_pure_and_repeatable() {
    let mut seed = 11u64;
    let pts = cluster_points(50, 3, 0, 300, &mut seed);
    let tree = fitted_tree(pts);
    let rd = tree.reader.as_ref().unwrap();
    let layer_sizes: Vec<usize> = rd.data.layers.iter().map(|l| l.nodes.len()).collect();
    let q = vec![17, -44, 102];
    let p1 = tree.dry_insert(&q);
    let p2 = tree.dry_insert(&q);
    assert_eq!(p1, p2);
    assert!(p1.len() >= 1);
    // The tree is untouched: same layers, same node counts.
    let layer_sizes_after: Vec<usize> =
        rd.data.layers.iter().map(|l| l.nodes.len()).collect();
    assert_eq!(layer_sizes, layer_sizes_after);
    // The path starts at the root.
    assert_eq!(p1[0].1.scale_index, rd.data.top_scale);
    assert_eq!(p1[0].1.slot_index, 0);
}

#[test]
fn generate_summaries_is_idempotent() {
    let mut seed = 5u64;
    let pts = cluster_points(40, 3, 0, 200, &mut seed);
    let cloud1 = PointCloud::new(pts.clone(), None, Metric::L2).unwrap();
    let cloud2 = PointCloud::new(pts, None, Metric::L2).unwrap();
    let builder = CoverTreeBuilder::new();
    let mut w1 = builder.build(cloud1).unwrap();
    let mut w2 = builder.build(cloud2).unwrap();
    w1.generate_summaries();
    w2.generate_summaries();
    w2.generate_summaries();
    let r1 = w1.reader();
    let r2 = w2.reader();
    for (l1, l2) in r1.data.layers.iter().zip(r2.data.layers.iter()) {
        assert_eq!(l1.nodes.len(), l2.nodes.len());
        for (n1, n2) in l1.nodes.iter().zip(l2.nodes.iter()) {
            assert_eq!(n1.summary, n2.summary);
            assert!(n1.summary.is_some());
        }
    }
}

#[test]
fn add_plugin_before_summaries_is_a_state_error() {
    let mut seed = 9u64;
    let pts = cluster_points(10, 2, 0, 50, &mut seed);
    let cloud = PointCloud::new(pts, None, Metric::L2).unwrap();
    let mut w = CoverTreeBuilder::new().build(cloud).unwrap();
    assert_eq!(w.add_plugin(PluginKind::Dirichlet), Err(TreeError::StateError));
    w.generate_summaries();
    assert_eq!(w.add_plugin(PluginKind::Dirichlet), Ok(()));
    assert_eq!(w.add_plugin(PluginKind::DiagGaussian), Ok(()));
}

#[test]
fn configuration_and_data_errors() {
    // Empty cloud.
    let mut t1 = CoverTree::new();
    assert_eq!(t1.fit(vec![], None), Err(TreeError::DataError));
    // Ragged rows.
    let mut t2 = CoverTree::new();
    assert_eq!(
        t2.fit(vec![vec![1, 2], vec![3]], None),
        Err(TreeError::DataError)
    );
    // Label count mismatch.
    let mut t3 = CoverTree::new();
    assert_eq!(
        t3.fit(vec![vec![1, 2]], Some(vec![0, 1])),
        Err(TreeError::DataError)
    );
    // Invalid scale base.
    let mut t4 = CoverTree::new();
    t4.set_scale_base(1);
    assert_eq!(t4.fit(vec![vec![1, 2]], None), Err(TreeError::ConfigurationError));
}

#[test]
fn layer_and_node_lookups() {
    let mut seed = 13u64;
    let pts = cluster_points(25, 3, 0, 120, &mut seed);
    let tree = fitted_tree(pts);
    let top = tree.top_scale().unwrap();
    let bottom = tree.bottom_scale().unwrap();
    assert!(top >= bottom);
    // Every scale in range resolves; everything outside is NotFound.
    for s in bottom..=top {
        assert!(tree.layer(s).is_ok());
    }
    assert_eq!(tree.layer(top + 1).err(), Some(TreeError::NotFound));
    assert_eq!(tree.layer(bottom - 1).err(), Some(TreeError::NotFound));
    // The root exists and owns every point.
    let root = tree.root().unwrap();
    assert_eq!(root.rep, 0);
    assert_eq!(root.members, (0..25).collect::<Vec<usize>>());
    assert_eq!(tree.node((top, 5)).err(), Some(TreeError::NotFound));
    // Layer info matches the layers listing.
    let all = tree.layers();
    assert_eq!(all.len(), (top - bottom + 1) as usize);
    assert_eq!(all[0].node_count, 1);
    // A data point can be read back; out of range gives None.
    assert!(tree.data_point(0).is_some());
    assert!(tree.data_point(999).is_none());
}

/// Categorical KL divergence between the normalized posterior and prior
/// concentrations of one node.
fn node_kl(posterior: &[u64], prior: &[u64]) -> f64 {
    let pt: f64 = posterior.iter().map(|&x| x as f64).sum();
    let qt: f64 = prior.iter().map(|&x| x as f64).sum();
    if pt == 0.0 || qt == 0.0 {
        return 0.0;
    }
    let mut kl = 0.0;
    for (&p, &q) in posterior.iter().zip(prior.iter()) {
        if p > 0 && q > 0 {
            let pf = p as f64 / pt;
            let qf = q as f64 / qt;
            kl += pf * (pf / qf).ln();
        }
    }
    kl
}

#[test]
fn tracker_posterior_grows_on_repeated_point() {
    let mut seed = 17u64;
    let pts = cluster_points(60, 3, 0, 250, &mut seed);
    let tree = fitted_tree(pts);
    let rd = tree.reader.as_ref().unwrap();
    let mut tracker = tree.kl_div_dirichlet(1, 1, 0);
    let q = vec![5, -9, 33];
    let path = tree.dry_insert(&q);
    let mut prev_totals: Vec<u64> = path
        .iter()
        .map(|(_, a)| tracker.posterior_counts(rd, *a).iter().sum())
        .collect();
    let mut prev_kl = -1.0f64;
    for _ in 0..5 {
        tracker.push(rd, &q).unwrap();
        let totals: Vec<u64> = path
            .iter()
            .map(|(_, a)| tracker.posterior_counts(rd, *a).iter().sum())
            .collect();
        // Strict growth of every path node's observation total.
        for (before, after) in prev_totals.iter().zip(totals.iter()) {
            assert!(after > before);
        }
        prev_totals = totals;
        // The running KL divergence never falls below its previous value.
        let kl: f64 = path
            .iter()
            .map(|(_, a)| {
                let posterior = tracker.posterior(rd, *a);
                let mut base = tree.kl_div_dirichlet(1, 1, 0);
                base.close();
                let prior = base.posterior(rd, *a);
                node_kl(&posterior, &prior)
            })
            .sum();
        assert!(kl >= prev_kl - 1e-9);
        prev_kl = kl;
    }
}

#[test]
fn finalized_tracker_refuses_updates() {
    let mut seed = 23u64;
    let pts = cluster_points(10, 2, 0, 40, &mut seed);
    let tree = fitted_tree(pts);
    let rd = tree.reader.as_ref().unwrap();
    let mut tracker = tree.kl_div_dirichlet(1, 1, 0);
    let q = vec![1, 2];
    assert_eq!(tracker.push(rd, &q), Ok(()));
    tracker.close();
    assert_eq!(tracker.push(rd, &q), Err(TreeError::StateError));
    assert_eq!(tracker.sequence_count(), 1);
}

#[test]
fn windowed_tracker_discounts_old_observations() {
    let mut seed = 29u64;
    let pts = cluster_points(30, 2, 0, 100, &mut seed);
    let tree = fitted_tree(pts);
    let rd = tree.reader.as_ref().unwrap();
    let mut tracker = tree.kl_div_dirichlet(1, 1, 3);
    let q = vec![4, -4];
    for _ in 0..10 {
        tracker.push(rd, &q).unwrap();
    }
    // Only the window's worth of paths is retained.
    assert_eq!(tracker.sequence_count(), 3);
}

#[test]
fn two_cluster_knn_stays_in_cluster() {
    let mut seed = 41u64;
    let mut pts = cluster_points(500, 8, 0, 100, &mut seed);
    pts.extend(cluster_points(500, 8, 100000, 100, &mut seed));
    let tree = fitted_tree(pts);
    let query = vec![10, -5, 3, 0, 7, -2, 50, 1];
    let got = tree.knn(&query, 5);
    assert_eq!(got.len(), 5);
    for (_, idx) in got {
        assert!(idx < 500, "neighbour {} is not a cluster-one point", idx);
    }
}

#[test]
fn baseline_separates_in_distribution_from_drift() {
    let mut seed = 43u64;
    let mut pts = cluster_points(500, 8, 0, 100, &mut seed);
    pts.extend(cluster_points(500, 8, 100000, 100, &mut seed));
    let mut tree = CoverTree::new();
    tree.set_scale_base(4);
    tree.fit(pts, None).unwrap();
    let rd = tree.reader.as_ref().unwrap();

    // Null distribution: sequences drawn from the tree's own points.
    let stats = tree.kl_div_dirichlet_basestats(1, 1, 50, 100, 0);
    assert_eq!(stats.len(), 100);
    let mut null_mean = 0.0f64;
    for seq in &stats {
        assert_eq!(seq.len(), 50);
        let last = &seq[49];
        assert_eq!(last.sequence_position, 50);
        let kl: f64 = last
            .posteriors
            .iter()
            .map(|np| node_kl(&np.posterior, &np.prior))
            .sum();
        null_mean += kl;
    }
    null_mean /= 100.0;

    // A drifting sequence from a third, unseen cluster.
    let drift = cluster_points(50, 8, -100000, 100, &mut seed);
    let mut tracker = tree.kl_div_dirichlet(1, 1, 0);
    let mut base = tree.kl_div_dirichlet(1, 1, 0);
    base.close();
    let mut drift_kl = 0.0f64;
    for p in &drift {
        tracker.push(rd, p).unwrap();
    }
    let path = tree.dry_insert(&drift[0]);
    for (_, a) in &path {
        let posterior = tracker.posterior(rd, *a);
        let prior = base.posterior(rd, *a);
        drift_kl += node_kl(&posterior, &prior);
    }
    assert!(
        drift_kl > null_mean,
        "drift KL {} should exceed the null mean {}",
        drift_kl,
        null_mean
    );
}

#[test]
fn l1_metric_tree_works_too() {
    let mut seed = 47u64;
    let pts = cluster_points(40, 3, 0, 200, &mut seed);
    let mut tree = CoverTree::new();
    tree.set_metric(Metric::L1);
    tree.fit(pts.clone(), Some(vec![7; 40])).unwrap();
    let query = vec![1, 2, 3];
    let got = tree.knn(&query, 3);
    let mut all: Vec<(u64, usize)> = (0..pts.len())
        .map(|i| (dist(Metric::L1, &query, &pts[i]), i))
        .collect();
    all.sort();
    all.truncate(3);
    assert_eq!(got, all);
}
