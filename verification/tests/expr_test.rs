use nodeagg::expr::{
    nodeagg_base_expr, nodeagg_expr, nodeagg_sub_expr, NodeaggBaseExpr, NodeaggExpr,
    NodeaggSubExpr,
};

#[test]
fn _nodeagg_sub_expr() {
    assert!(nodeagg_sub_expr("").is_err());
    assert_eq!(
        nodeagg_sub_expr("node"),
        Ok((NodeaggSubExpr::NodeaggSub("node".to_string()), 4))
    );
    assert_eq!(
        nodeagg_sub_expr("123"),
        Ok((NodeaggSubExpr::NodeaggSub("123".to_string()), 3))
    );
    assert!(nodeagg_sub_expr("[]").is_err());
    assert!(nodeagg_sub_expr("[1]").is_ok());
    assert!(nodeagg_sub_expr("[01,02]").is_ok());
    assert!(nodeagg_sub_expr("[01-02]").is_ok());

    let (e, _) = nodeagg_sub_expr("[1,2,3]").unwrap();
    let mut cur = e.iter();
    let mut total: usize = 0;
    while let Some(p) = cur.next() {
        total += p.len();
    }
    assert_eq!(total, 3);
}

#[test]
fn _nodeagg_base_expr() {
    assert_eq!(nodeagg_base_expr(""), Ok((NodeaggBaseExpr::new(vec![]), 0)));
    assert_eq!(
        nodeagg_base_expr("123"),
        Ok((
            NodeaggBaseExpr::new(vec![NodeaggSubExpr::NodeaggSub("123".to_string())]),
            3
        ))
    );
    assert_eq!(
        nodeagg_base_expr("node  "),
        Ok((
            NodeaggBaseExpr::new(vec![NodeaggSubExpr::NodeaggSub("node".to_string())]),
            6
        ))
    );
    assert!(nodeagg_base_expr("[]").is_err());
    assert!(nodeagg_base_expr("[1]").is_ok());
    assert!(nodeagg_base_expr("node1,node2").is_ok());
    assert!(nodeagg_base_expr("[1,2]").is_ok());
    assert!(nodeagg_base_expr("[1-2]").is_ok());
    assert!(nodeagg_base_expr("anode[01-02]").is_ok());
}

#[test]
fn _nodeagg_expr() {
    let b1 = nodeagg_base_expr("node1").unwrap().0;
    let b2 = nodeagg_base_expr("node2").unwrap().0;
    assert_eq!(
        nodeagg_expr("node1,node2"),
        Ok(NodeaggExpr::new(vec![b1, b2]))
    );

    let e = nodeagg_expr("anode[01-02],bnode2").unwrap();
    let mut it = e.iter();
    let mut got: Vec<String> = Vec::new();
    while let Some(x) = it.next() {
        got.push(x);
    }
    assert_eq!(got, vec!["anode01", "anode02", "bnode2"]);

    assert!(nodeagg_expr("node1, node2").is_ok());
    assert!(nodeagg_expr(" node1,node2").is_ok());
    assert!(nodeagg_expr("node1,node2 ").is_ok());
    assert!(nodeagg_expr("node1\nnode2").is_ok());
    assert!(nodeagg_expr("node1 a").is_err());
}
