use bayesomatic::cred::{Cred, CredTable};
use bayesomatic::graph::Dag;
use bayesomatic::json::DeserError;

fn cred(tok: &str) -> Cred {
    Cred::number(tok.to_string()).unwrap()
}

fn table(shape: Vec<usize>, toks: &[&str]) -> CredTable {
    let data: Vec<Cred> = toks.iter().map(|t| cred(t)).collect();
    CredTable::new(shape, data).unwrap()
}

fn tokens(t: &CredTable) -> Vec<Option<String>> {
    t.data().iter().map(|c| c.token().cloned()).collect()
}

fn sample_graph() -> Dag {
    let mut d = Dag::new();
    let a = d.insert_node();
    let b = d.insert_node();
    d.set_label(a, "rain".to_string());
    d.set_label(b, "grass".to_string());
    d.set_description(b, "is it wet?".to_string());
    d.add_value(a, "yes".to_string());
    d.add_value(a, "no".to_string());
    d.add_value(b, "wet".to_string());
    d.add_value(b, "dry".to_string());
    d.add_edge(b, a).unwrap();
    d.set_credencies(a, table(vec![2], &["6", "4"])).unwrap();
    d.set_credencies(b, table(vec![2, 2], &["9", "1", "1", "9"])).unwrap();
    d.set_cred_descriptions(b, vec!["if rain".to_string(), "if no rain".to_string()]).unwrap();
    d.set_observation(b, Some(0));
    d
}

#[test]
fn round_trip_keeps_everything() {
    let d = sample_graph();
    let text = d.to_json();
    let d2 = Dag::from_json(&text).unwrap();

    let a2 = d2.get(0).unwrap();
    assert_eq!(a2.label, "rain");
    assert_eq!(a2.values, vec!["yes", "no"]);
    assert!(a2.parents.is_empty());
    assert_eq!(a2.observation, None);
    assert_eq!(
        tokens(a2.credencies.as_ref().unwrap()),
        vec![Some("6".to_string()), Some("4".to_string())]
    );

    let b2 = d2.get(1).unwrap();
    assert_eq!(b2.label, "grass");
    assert_eq!(b2.description, "is it wet?");
    assert_eq!(b2.values, vec!["wet", "dry"]);
    assert_eq!(b2.parents, vec![0]);
    assert_eq!(b2.observation, Some(0));
    assert_eq!(b2.cred_description, vec!["if rain", "if no rain"]);
    let tb = b2.credencies.as_ref().unwrap();
    assert_eq!(tb.shape(), &vec![2, 2]);
    assert_eq!(
        tokens(tb),
        vec![
            Some("9".to_string()),
            Some("1".to_string()),
            Some("1".to_string()),
            Some("9".to_string())
        ]
    );

    // and a second round trip reproduces the same text exactly
    assert_eq!(d2.to_json(), text);
}

#[test]
fn round_trip_keeps_number_tokens_and_nulls() {
    let mut d = Dag::new();
    let a = d.insert_node();
    d.add_value(a, "v0".to_string());
    d.add_value(a, "v1".to_string());
    d.add_value(a, "v2".to_string());
    let data = vec![cred("6.5e-2"), Cred::null(), cred("-0.125")];
    d.set_credencies(a, CredTable::new(vec![3], data).unwrap()).unwrap();
    let text = d.to_json();
    assert!(text.contains("6.5e-2"));
    assert!(text.contains("null"));
    let d2 = Dag::from_json(&text).unwrap();
    let t = d2.get(0).unwrap().credencies.as_ref().unwrap();
    assert_eq!(tokens(t), vec![Some("6.5e-2".to_string()), None, Some("-0.125".to_string())]);
}

#[test]
fn round_trip_compacts_identifiers() {
    let mut d = Dag::new();
    let a = d.insert_node();
    let b = d.insert_node();
    let c = d.insert_node();
    d.set_label(a, "a".to_string());
    d.set_label(c, "c".to_string());
    d.add_value(a, "x".to_string());
    d.add_value(c, "y".to_string());
    d.add_edge(c, a).unwrap();
    d.remove_node(b);
    let d2 = Dag::from_json(&d.to_json()).unwrap();
    // the hole is gone: the two nodes now sit at 0 and 1
    assert_eq!(d2.get(0).unwrap().label, "a");
    assert_eq!(d2.get(1).unwrap().label, "c");
    assert_eq!(d2.get(1).unwrap().parents, vec![0]);
    assert!(d2.get(2).is_none());
}

#[test]
fn parses_whitespace_escapes_and_unknown_fields() {
    let text = r#"
    [ { "label" : "A A \n \"q\" \\ 😀" ,
        "unknown" : { "nested" : [ 1 , 2 , { "x" : null } ] , "b" : true } ,
        "values" : [ "one" , "two" ] ,
        "parents" : [ ] ,
        "observation" : 1 ,
        "credencies" : [ 1 , 2.5 ] ,
        "cred_description" : [ ] } ]
    "#;
    let d = Dag::from_json(text).unwrap();
    let n = d.get(0).unwrap();
    assert_eq!(n.label, "A A \n \"q\" \\ \u{1F600}");
    assert_eq!(n.description, "");
    assert_eq!(n.values, vec!["one", "two"]);
    assert_eq!(n.observation, Some(1));
    assert_eq!(
        tokens(n.credencies.as_ref().unwrap()),
        vec![Some("1".to_string()), Some("2.5".to_string())]
    );
}

#[test]
fn import_rejects_bad_syntax() {
    assert!(matches!(Dag::from_json("not json"), Err(DeserError::Json(_))));
    assert!(matches!(Dag::from_json("[{}"), Err(DeserError::Json(_))));
    assert!(matches!(Dag::from_json("[] trailing"), Err(DeserError::Json(_))));
    assert!(matches!(
        Dag::from_json(r#"[{"label":"a","values":[],"parents":[],"label":"b"}]"#),
        Err(DeserError::Json(_))
    ));
    // required fields must be there
    assert!(matches!(
        Dag::from_json(r#"[{"values":[],"parents":[]}]"#),
        Err(DeserError::Json(_))
    ));
}

#[test]
fn import_rejects_bad_topology() {
    // a record naming itself as parent
    assert!(matches!(
        Dag::from_json(r#"[{"label":"a","values":["x"],"parents":[0]}]"#),
        Err(DeserError::Graph(_))
    ));
    // a forward reference: the parent does not exist yet
    assert!(matches!(
        Dag::from_json(
            r#"[{"label":"a","values":["x"],"parents":[1]},{"label":"b","values":["y"],"parents":[]}]"#
        ),
        Err(DeserError::Graph(_))
    ));
}

#[test]
fn import_drops_malformed_optional_data() {
    // a mis-sized credence array and an out-of-range observation are
    // ignored; a mis-sized annotation list is ignored too (a parentless
    // node takes exactly one row: the empty product)
    let text = r#"[{"label":"a","values":["x","y"],"parents":[],
        "observation":7,
        "credencies":[1,2,3],
        "cred_description":["row one","row two"]}]"#;
    let d = Dag::from_json(text).unwrap();
    let n = d.get(0).unwrap();
    assert_eq!(n.observation, None);
    assert!(n.credencies.is_none());
    assert!(n.cred_description.is_empty());
    // with matching sizes everything is kept: no parents means one row
    let text2 = r#"[{"label":"a","values":["x","y"],"parents":[],
        "observation":1,"credencies":[1,2],"cred_description":["row"]}]"#;
    let d2 = Dag::from_json(text2).unwrap();
    let n2 = d2.get(0).unwrap();
    assert_eq!(n2.observation, Some(1));
    assert!(n2.credencies.is_some());
    assert_eq!(n2.cred_description, vec!["row"]);
}

#[test]
fn export_text_is_exact() {
    let mut d = Dag::new();
    let a = d.insert_node();
    let b = d.insert_node();
    d.set_label(a, "A".to_string());
    d.set_label(b, "B".to_string());
    d.add_value(a, "x".to_string());
    d.add_value(b, "y".to_string());
    d.add_edge(b, a).unwrap();
    d.set_credencies(a, table(vec![1], &["2.5"])).unwrap();
    d.set_observation(b, Some(0));
    let mut expected = String::new();
    expected.push_str("[{\"label\":\"A\",\"description\":\"\",\"values\":[\"x\"],\"parents\":[],");
    expected.push_str("\"observation\":null,\"credencies\":[2.5],\"cred_description\":[]},");
    expected.push_str("{\"label\":\"B\",\"description\":\"\",\"values\":[\"y\"],\"parents\":[0],");
    expected.push_str("\"observation\":0,\"credencies\":null,\"cred_description\":[]}]");
    assert_eq!(d.to_json(), expected);
}

#[test]
fn import_empty_array_gives_empty_graph() {
    let d = Dag::from_json(" [ ] ").unwrap();
    assert!(d.get(0).is_none());
    assert_eq!(d.to_json(), "[]");
}

#[test]
fn export_escapes_control_and_quote_characters() {
    let mut d = Dag::new();
    let a = d.insert_node();
    d.set_label(a, "a\"b\\c\nd".to_string());
    d.add_value(a, "v".to_string());
    let text = d.to_json();
    assert!(text.contains(r#"a\"b\\c\u000ad"#));
    let d2 = Dag::from_json(&text).unwrap();
    assert_eq!(d2.get(0).unwrap().label, "a\"b\\c\nd");
}
