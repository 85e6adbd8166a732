// Scenario tests that drive the real loopy-belief-propagation solver with
// the plans the library builds, mirroring how the surrounding application
// consumes them.

use bayesomatic::cred::{Cred, CredTable};
use bayesomatic::graph::Dag;
use bayesomatic::solver::align_by_id;
use loopybayesnet::{BayesNet, LogProbVector};
use ndarray::{ArrayD, IxDyn};

fn cred(tok: &str) -> Cred {
    Cred::number(tok.to_string()).unwrap()
}

fn table(shape: Vec<usize>, toks: &[&str]) -> CredTable {
    let data: Vec<Cred> = toks.iter().map(|t| cred(t)).collect();
    CredTable::new(shape, data).unwrap()
}

/// Runs the solver on the library's plan: the application's belief
/// computation, reproduced here to exercise the whole pipeline.
fn compute_beliefs(dag: &Dag) -> Option<Vec<(LogProbVector, usize)>> {
    let (plan, order) = match dag.make_bayesnet() {
        Ok(v) => v,
        Err(()) => return None,
    };
    let mut net = BayesNet::new();
    for pn in plan.nodes.iter() {
        let count: usize = pn.values_count.iter().product();
        let data: Vec<f32> = match &pn.credencies {
            Some(t) => t
                .data()
                .iter()
                .map(|c| match c.token() {
                    Some(tok) => tok.parse::<f32>().unwrap() * 10f32.ln(),
                    None => f32::NEG_INFINITY,
                })
                .collect(),
            None => vec![0.0; count],
        };
        let arr = ArrayD::from_shape_vec(IxDyn(&pn.values_count), data).unwrap();
        net.add_node_from_log_probabilities(&pn.parent_ids, arr);
    }
    net.set_evidence(&plan.evidence);
    for _ in 0..dag.estimate_iteration_number() {
        net.step();
    }
    let mut beliefs = net.beliefs();
    for b in beliefs.iter_mut() {
        b.renormalize();
    }
    Some(beliefs.into_iter().zip(order.into_iter()).collect())
}

/// The mutual-information survey, as the application runs it: fix each
/// value of the target in turn, recompute, accumulate KL terms.
fn compute_mutual_info(dag: &mut Dag, id: usize) -> Option<Vec<(usize, f32)>> {
    if dag.get(id).unwrap().observation.is_some() {
        return None;
    }
    let non_observed = dag.unobserved_ids();
    let base_belief = align_by_id(compute_beliefs(dag)?, &non_observed);
    let values_count = dag.get(id).unwrap().values.len();
    let mut kl_terms = Vec::new();
    for i in 0..values_count {
        dag.set_observation(id, Some(i));
        let belief = align_by_id(compute_beliefs(dag).unwrap(), &non_observed);
        let kl_term: Vec<f32> = belief
            .iter()
            .zip(base_belief.iter())
            .map(|((cond, _), (base, _))| {
                let mut sum = 0.0f32;
                let cl = cond.log_probabilities();
                let bl = base.log_probabilities();
                let cp = cond.as_probabilities();
                for k in 0..cp.len() {
                    let v = (cl[k] - bl[k]) * cp[k];
                    if !v.is_nan() {
                        sum += v;
                    }
                }
                sum
            })
            .collect();
        kl_terms.push(kl_term);
    }
    dag.set_observation(id, None);
    let pxs = base_belief.iter().find(|&&(_, nid)| nid == id).unwrap().0.as_probabilities();
    let mut acc = vec![0.0f32; non_observed.len()];
    for (kl_term, &px) in kl_terms.iter().zip(pxs.iter()) {
        for (a, kl) in acc.iter_mut().zip(kl_term.iter()) {
            if px > 0.0001 {
                *a += kl * px / 2.0f32.ln();
            }
        }
    }
    Some(
        acc.into_iter()
            .zip(base_belief.iter())
            .map(|(kl, &(_, nid))| (nid, if kl < 0.0 { 0.0 } else { kl }))
            .filter(|&(nid, _)| nid != id)
            .collect(),
    )
}

fn rain_graph() -> (Dag, usize, usize) {
    let mut d = Dag::new();
    let a = d.insert_node();
    let b = d.insert_node();
    d.set_label(a, "weather".to_string());
    d.set_label(b, "grass".to_string());
    d.add_value(a, "rain".to_string());
    d.add_value(a, "no rain".to_string());
    d.add_value(b, "wet".to_string());
    d.add_value(b, "dry".to_string());
    d.add_edge(b, a).unwrap();
    d.set_credencies(a, table(vec![2], &["6", "4"])).unwrap();
    d.set_credencies(b, table(vec![2, 2], &["9", "1", "1", "9"])).unwrap();
    (d, a, b)
}

fn probabilities(beliefs: &[(LogProbVector, usize)], id: usize) -> Vec<f32> {
    beliefs.iter().find(|&&(_, nid)| nid == id).unwrap().0.as_probabilities().to_vec()
}

#[test]
fn beliefs_follow_prior_and_update_on_evidence() {
    let (mut d, a, b) = rain_graph();
    let beliefs = compute_beliefs(&d).unwrap();
    let pa = probabilities(&beliefs, a);
    // the prior favours rain (credence 6 against 4)
    assert!(pa[0] > pa[1]);
    let pb = probabilities(&beliefs, b);
    assert!(pb[0] > pb[1]);

    // observing wet grass pushes the rain belief further up
    d.set_observation(b, Some(0));
    let beliefs2 = compute_beliefs(&d).unwrap();
    let pa2 = probabilities(&beliefs2, a);
    assert!(pa2[0] > pa[0]);
}

#[test]
fn beliefs_are_normalized() {
    let (mut d, _a, b) = rain_graph();
    d.set_observation(b, Some(0));
    let beliefs = compute_beliefs(&d).unwrap();
    for (lp, _) in beliefs.iter() {
        let sum: f32 = lp.log_probabilities().iter().map(|v| v.exp()).sum();
        assert!((sum - 1.0).abs() < 1e-4, "marginal sums to {}", sum);
    }
}

#[test]
fn mutual_information_is_nonnegative() {
    let (mut d, a, b) = rain_graph();
    let mi_a = compute_mutual_info(&mut d, a).unwrap();
    assert_eq!(mi_a.len(), 1);
    for &(nid, v) in mi_a.iter() {
        assert_eq!(nid, b);
        assert!(v >= 0.0);
    }
    let mi_b = compute_mutual_info(&mut d, b).unwrap();
    for &(_, v) in mi_b.iter() {
        assert!(v >= 0.0);
    }
    // the survey restores the graph
    assert_eq!(d.get(a).unwrap().observation, None);
    // a target that is already observed has no survey
    d.set_observation(b, Some(0));
    assert!(compute_mutual_info(&mut d, b).is_none());
}

#[test]
fn zero_value_node_blocks_inference() {
    let mut d = Dag::new();
    let a = d.insert_node();
    d.add_value(a, "x".to_string());
    // a second node with no values at all
    d.insert_node();
    assert!(d.make_bayesnet().is_err());
    assert!(compute_beliefs(&d).is_none());
}

#[test]
fn plan_is_topological_with_default_tables() {
    let mut d = Dag::new();
    let a = d.insert_node();
    let b = d.insert_node();
    d.add_value(a, "x".to_string());
    d.add_value(a, "y".to_string());
    d.add_value(b, "u".to_string());
    // a is a child of b, so b must come first in the plan
    d.add_edge(a, b).unwrap();
    d.set_observation(a, Some(1));
    let (plan, order) = d.make_bayesnet().unwrap();
    assert_eq!(order, vec![b, a]);
    assert_eq!(plan.nodes.len(), 2);
    assert!(plan.nodes[0].parent_ids.is_empty());
    assert_eq!(plan.nodes[0].values_count, vec![1]);
    assert!(plan.nodes[0].credencies.is_none());
    assert_eq!(plan.nodes[1].parent_ids, vec![0]);
    assert_eq!(plan.nodes[1].values_count, vec![2, 1]);
    // the evidence names the solver index of a, which sits second
    assert_eq!(plan.evidence, vec![(1, 1)]);
}

#[test]
fn unobserved_ids_lists_candidates() {
    let mut d = Dag::new();
    let a = d.insert_node();
    let b = d.insert_node();
    let c = d.insert_node();
    d.add_value(b, "x".to_string());
    d.set_observation(b, Some(0));
    let free = d.unobserved_ids();
    assert_eq!(free, vec![a, c]);
}

#[test]
fn align_by_id_filters_and_sorts() {
    let items: Vec<(char, usize)> = vec![('d', 9), ('a', 2), ('c', 5), ('b', 4)];
    let allowed: Vec<usize> = vec![2, 4, 9];
    let aligned = align_by_id(items, &allowed);
    let ids: Vec<usize> = aligned.iter().map(|p| p.1).collect();
    let pay: Vec<char> = aligned.iter().map(|p| p.0).collect();
    assert_eq!(ids, vec![2, 4, 9]);
    assert_eq!(pay, vec!['a', 'b', 'd']);
}
