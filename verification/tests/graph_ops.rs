use bayesomatic::cred::{Cred, CredTable};
use bayesomatic::display::BeliefsDisplay;
use bayesomatic::graph::{Dag, EdgeError};

fn cred(tok: &str) -> Cred {
    Cred::number(tok.to_string()).unwrap()
}

fn table(shape: Vec<usize>, toks: &[&str]) -> CredTable {
    let data: Vec<Cred> = toks.iter().map(|t| cred(t)).collect();
    CredTable::new(shape, data).unwrap()
}

fn tokens(t: &CredTable) -> Vec<Option<String>> {
    t.data().iter().map(|c| c.token().cloned()).collect()
}

#[test]
fn insert_nodes_get_fresh_ids() {
    let mut d = Dag::new();
    assert_eq!(d.insert_node(), 0);
    assert_eq!(d.insert_node(), 1);
    assert_eq!(d.insert_node(), 2);
    assert!(d.get(0).is_some());
    assert!(d.get(3).is_none());
}

#[test]
fn removed_slot_is_reused_first() {
    let mut d = Dag::new();
    let a = d.insert_node();
    let b = d.insert_node();
    let c = d.insert_node();
    assert_eq!((a, b, c), (0, 1, 2));
    d.remove_node(b);
    assert!(d.get(b).is_none());
    assert_eq!(d.insert_node(), b);
}

#[test]
fn estimate_iteration_number_counts_all_slots() {
    let mut d = Dag::new();
    assert_eq!(d.estimate_iteration_number(), 0);
    let a = d.insert_node();
    d.insert_node();
    d.remove_node(a);
    // freed slots still count
    assert_eq!(d.estimate_iteration_number(), 4);
}

#[test]
fn self_edge_would_cycle() {
    let mut d = Dag::new();
    let a = d.insert_node();
    assert!(matches!(d.add_edge(a, a), Err(EdgeError::WouldCycle)));
}

#[test]
fn duplicate_edge_already_existing() {
    let mut d = Dag::new();
    let x = d.insert_node();
    let y = d.insert_node();
    assert!(matches!(d.add_edge(x, y), Ok(())));
    assert!(matches!(d.add_edge(x, y), Err(EdgeError::AlreadyExisting)));
}

#[test]
fn cycle_of_two_rejected() {
    let mut d = Dag::new();
    let a = d.insert_node();
    let b = d.insert_node();
    assert!(matches!(d.add_edge(a, b), Ok(())));
    assert!(matches!(d.add_edge(b, a), Err(EdgeError::WouldCycle)));
}

#[test]
fn long_cycle_rejected() {
    let mut d = Dag::new();
    let a = d.insert_node();
    let b = d.insert_node();
    let c = d.insert_node();
    assert!(d.add_edge(b, a).is_ok());
    assert!(d.add_edge(c, b).is_ok());
    assert!(matches!(d.add_edge(a, c), Err(EdgeError::WouldCycle)));
    // a diamond is fine
    let e = d.insert_node();
    assert!(d.add_edge(c, e).is_ok());
    assert!(d.add_edge(b, e).is_ok());
}

#[test]
fn missing_endpoint_bad_node() {
    let mut d = Dag::new();
    let a = d.insert_node();
    assert!(matches!(d.add_edge(a, 7), Err(EdgeError::BadNode)));
    assert!(matches!(d.add_edge(9, a), Err(EdgeError::BadNode)));
    assert!(matches!(d.check_edge_addition(9, a), Err(EdgeError::BadNode)));
}

#[test]
fn check_edge_addition_does_not_mutate() {
    let mut d = Dag::new();
    let a = d.insert_node();
    let b = d.insert_node();
    assert!(d.check_edge_addition(a, b).is_ok());
    assert!(d.get(a).unwrap().parents.is_empty());
    assert!(d.get(b).unwrap().children.is_empty());
}

#[test]
fn add_edge_links_both_sides_and_clears_table() {
    let mut d = Dag::new();
    let a = d.insert_node();
    let b = d.insert_node();
    d.add_value(a, "y".to_string());
    d.add_value(a, "n".to_string());
    assert!(d.set_credencies(a, table(vec![2], &["1", "2"])).is_ok());
    assert!(d.get(a).unwrap().credencies.is_some());
    assert!(d.add_edge(a, b).is_ok());
    assert_eq!(d.get(a).unwrap().parents, vec![b]);
    assert_eq!(d.get(b).unwrap().children, vec![a]);
    // the table's shape went stale, so it is gone
    assert!(d.get(a).unwrap().credencies.is_none());
}

#[test]
fn remove_edge_unlinks_and_clears_table() {
    let mut d = Dag::new();
    let a = d.insert_node();
    let b = d.insert_node();
    assert!(d.add_edge(a, b).is_ok());
    d.remove_edge(a, b);
    assert!(d.get(a).unwrap().parents.is_empty());
    assert!(d.get(b).unwrap().children.is_empty());
    assert!(d.get(a).unwrap().credencies.is_none());
}

#[test]
fn add_value_clears_own_and_child_tables() {
    let mut d = Dag::new();
    let a = d.insert_node();
    let b = d.insert_node();
    d.add_value(a, "a0".to_string());
    d.add_value(b, "b0".to_string());
    d.add_value(b, "b1".to_string());
    assert!(d.add_edge(a, b).is_ok());
    assert!(d.set_credencies(a, table(vec![1, 2], &["1", "2"])).is_ok());
    d.set_observation(a, Some(0));
    assert_eq!(d.get(a).unwrap().observation, Some(0));
    // growing the parent's value list invalidates the child's table
    d.add_value(b, "b2".to_string());
    assert!(d.get(a).unwrap().credencies.is_none());
    // growing the node's own list clears its observation too
    d.add_value(a, "a1".to_string());
    assert_eq!(d.get(a).unwrap().observation, None);
    assert_eq!(d.get(a).unwrap().values, vec!["a0", "a1"]);
}

#[test]
fn remove_value_clears_table_and_observation() {
    let mut d = Dag::new();
    let a = d.insert_node();
    d.add_value(a, "x".to_string());
    d.add_value(a, "y".to_string());
    assert!(d.set_credencies(a, table(vec![2], &["1", "2"])).is_ok());
    d.set_observation(a, Some(1));
    d.remove_value(a, 0);
    let n = d.get(a).unwrap();
    assert_eq!(n.values, vec!["y"]);
    assert!(n.credencies.is_none());
    assert_eq!(n.observation, None);
}

#[test]
fn set_credencies_checks_shape_exactly() {
    let mut d = Dag::new();
    let a = d.insert_node();
    let b = d.insert_node();
    d.add_value(a, "a0".to_string());
    d.add_value(a, "a1".to_string());
    d.add_value(b, "b0".to_string());
    d.add_value(b, "b1".to_string());
    d.add_value(b, "b2".to_string());
    assert!(d.add_edge(a, b).is_ok());
    // the right shape is [own cardinality, parent cardinality]
    assert!(d.set_credencies(a, table(vec![2, 3], &["1", "2", "3", "4", "5", "6"])).is_ok());
    let t = d.get(a).unwrap().credencies.as_ref().unwrap();
    assert_eq!(t.shape(), &vec![2, 3]);
    // wrong shapes are refused and the stored table stays
    assert!(d.set_credencies(a, table(vec![3, 2], &["1", "2", "3", "4", "5", "6"])).is_err());
    assert!(d.set_credencies(a, table(vec![2], &["1", "2"])).is_err());
    assert_eq!(d.get(a).unwrap().credencies.as_ref().unwrap().shape(), &vec![2, 3]);
}

#[test]
fn cred_table_rejects_wrong_entry_count() {
    assert!(CredTable::new(vec![2, 2], vec![cred("1"), cred("2"), cred("3")]).is_none());
    assert!(CredTable::new(vec![2, 2], vec![cred("1"), cred("2"), cred("3"), cred("4")]).is_some());
}

#[test]
fn cred_rejects_non_number_tokens() {
    assert!(Cred::number("1.5e3".to_string()).is_some());
    assert!(Cred::number("-0.25".to_string()).is_some());
    assert!(Cred::number("0".to_string()).is_some());
    assert!(Cred::number("01".to_string()).is_none());
    assert!(Cred::number("1.".to_string()).is_none());
    assert!(Cred::number(".5".to_string()).is_none());
    assert!(Cred::number("NaN".to_string()).is_none());
    assert!(Cred::number("1e".to_string()).is_none());
    assert!(Cred::number("".to_string()).is_none());
}

#[test]
fn set_cred_descriptions_checks_count() {
    let mut d = Dag::new();
    let a = d.insert_node();
    let b = d.insert_node();
    let c = d.insert_node();
    d.add_value(b, "b0".to_string());
    d.add_value(b, "b1".to_string());
    d.add_value(c, "c0".to_string());
    d.add_value(c, "c1".to_string());
    d.add_value(c, "c2".to_string());
    assert!(d.add_edge(a, b).is_ok());
    assert!(d.add_edge(a, c).is_ok());
    // one annotation per combination of parent values: 2 * 3
    let rows: Vec<String> = (0..6).map(|i| format!("row {}", i)).collect();
    assert!(d.set_cred_descriptions(a, rows.clone()).is_ok());
    assert_eq!(d.get(a).unwrap().cred_description.len(), 6);
    assert!(d.set_cred_descriptions(a, rows[..5].to_vec()).is_err());
    assert!(d.set_cred_descriptions(9, Vec::new()).is_err());
}

#[test]
fn set_observation_validates_index() {
    let mut d = Dag::new();
    let a = d.insert_node();
    d.add_value(a, "x".to_string());
    d.set_observation(a, Some(0));
    assert_eq!(d.get(a).unwrap().observation, Some(0));
    // an index past the value list is refused, the old value stays
    d.set_observation(a, Some(5));
    assert_eq!(d.get(a).unwrap().observation, Some(0));
    d.set_observation(a, None);
    assert_eq!(d.get(a).unwrap().observation, None);
}

#[test]
fn remove_node_unlinks_neighbours() {
    let mut d = Dag::new();
    let a = d.insert_node();
    let b = d.insert_node();
    let c = d.insert_node();
    assert!(d.add_edge(b, a).is_ok());
    assert!(d.add_edge(c, b).is_ok());
    d.remove_node(b);
    assert!(d.get(b).is_none());
    assert!(d.get(a).unwrap().children.is_empty());
    assert!(d.get(c).unwrap().parents.is_empty());
    // the former child lost its (stale) table
    assert!(d.get(c).unwrap().credencies.is_none());
    // removing a missing node is a no-op
    d.remove_node(17);
}

#[test]
fn duplicate_copies_content_and_edges() {
    let mut d = Dag::new();
    let p = d.insert_node();
    let a = d.insert_node();
    let ch = d.insert_node();
    d.add_value(p, "p0".to_string());
    d.add_value(p, "p1".to_string());
    d.add_value(a, "a0".to_string());
    d.add_value(a, "a1".to_string());
    d.add_value(ch, "c0".to_string());
    d.set_label(a, "center".to_string());
    d.set_description(a, "about a".to_string());
    assert!(d.add_edge(a, p).is_ok());
    assert!(d.add_edge(ch, a).is_ok());
    assert!(d.set_credencies(a, table(vec![2, 2], &["1", "2", "3", "4"])).is_ok());
    d.set_observation(a, Some(1));

    let m = d.duplicate_node(a).unwrap();
    assert_ne!(m, a);
    let copy = d.get(m).unwrap();
    assert_eq!(copy.label, "center (bis)");
    assert_eq!(copy.description, "about a");
    assert_eq!(copy.values, vec!["a0", "a1"]);
    assert_eq!(copy.parents, vec![p]);
    assert_eq!(copy.children, vec![ch]);
    assert_eq!(copy.observation, Some(1));
    let tc = copy.credencies.as_ref().unwrap();
    assert_eq!(tc.shape(), &vec![2, 2]);
    assert_eq!(
        tokens(tc),
        vec![
            Some("1".to_string()),
            Some("2".to_string()),
            Some("3".to_string()),
            Some("4".to_string())
        ]
    );
    // the original still has its own edges, plus nothing lost
    assert_eq!(d.get(a).unwrap().parents, vec![p]);
    assert_eq!(d.get(a).unwrap().children, vec![ch]);
    assert_eq!(d.get(p).unwrap().children, vec![a, m]);
    assert_eq!(d.get(ch).unwrap().parents, vec![a, m]);
    assert!(d.duplicate_node(42).is_none());
}

#[test]
fn duplicate_is_isolated_from_original() {
    let mut d = Dag::new();
    let a = d.insert_node();
    d.add_value(a, "x".to_string());
    d.add_value(a, "y".to_string());
    assert!(d.set_credencies(a, table(vec![2], &["5", "7"])).is_ok());
    let m = d.duplicate_node(a).unwrap();

    // mutating the copy's table and values leaves the original alone
    assert!(d.set_credencies(m, table(vec![2], &["8", "9"])).is_ok());
    let ta = d.get(a).unwrap().credencies.as_ref().unwrap();
    assert_eq!(tokens(ta), vec![Some("5".to_string()), Some("7".to_string())]);
    d.add_value(m, "z".to_string());
    assert_eq!(d.get(a).unwrap().values, vec!["x", "y"]);
    assert!(d.get(a).unwrap().credencies.is_some());

    // and the other way round
    assert!(d.set_credencies(a, table(vec![2], &["1", "2"])).is_ok());
    d.add_value(a, "w".to_string());
    assert_eq!(d.get(m).unwrap().values, vec!["x", "y", "z"]);
}

#[test]
fn duplicate_takes_first_free_slot() {
    let mut d = Dag::new();
    let a = d.insert_node();
    let b = d.insert_node();
    let c = d.insert_node();
    d.add_value(c, "x".to_string());
    d.remove_node(b);
    // the copy lands in the freed slot, like any insertion
    assert_eq!(d.duplicate_node(c), Some(b));
    let _ = a;
}

#[test]
fn iter_nodes_ascending_skips_freed() {
    let mut d = Dag::new();
    let a = d.insert_node();
    let b = d.insert_node();
    let c = d.insert_node();
    d.set_label(a, "a".to_string());
    d.set_label(c, "c".to_string());
    d.remove_node(b);
    let all = d.iter_nodes();
    let ids: Vec<usize> = all.iter().map(|(i, _)| *i).collect();
    assert_eq!(ids, vec![a, c]);
    assert_eq!(all[0].1.label, "a");
    assert_eq!(all[1].1.label, "c");
}

#[test]
fn beliefs_display_from_str_names() {
    assert_eq!(BeliefsDisplay::from_str("odds-ratios"), Some(BeliefsDisplay::OddsRatio));
    assert_eq!(BeliefsDisplay::from_str("raw-beliefs"), Some(BeliefsDisplay::RawBeliefs));
    assert_eq!(BeliefsDisplay::from_str("probabilities"), Some(BeliefsDisplay::Probabilities));
    assert_eq!(BeliefsDisplay::from_str("anything"), None);
}
