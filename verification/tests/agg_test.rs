use nodeagg::Nodeagg;

#[test]
fn from_str() {
    assert_eq!(
        Nodeagg::try_from("node1,,node2 ").unwrap().expand(),
        ["node1", "node2"]
    );

    assert_eq!(
        Nodeagg::try_from("node1,,node2\n\n").unwrap().expand(),
        ["node1", "node2"]
    );

    assert_eq!(
        Nodeagg::try_from("node1\nnode2").unwrap().expand(),
        ["node1", "node2"]
    );

    assert_eq!(
        Nodeagg::try_from("node1\n\nnode2").unwrap().expand(),
        ["node1", "node2"]
    );

    assert_eq!(
        Nodeagg::try_from("node1\n\nnode2\n#comment end").unwrap().expand(),
        ["node1", "node2"]
    );

    assert_eq!(
        Nodeagg::try_from("node1\nnode2 #comment\nnode3\n#comment only line\nnode4")
            .unwrap()
            .expand(),
        ["node1", "node2", "node3", "node4"]
    );

    let a: String = "node[1-2]".to_string();
    assert_eq!(
        Nodeagg::try_from(&a[..]).unwrap().expand(),
        vec!["node1", "node2"]
    );

    assert_eq!(
        Nodeagg::try_from("node[01,2]").unwrap().expand(),
        vec!["node01", "node02"]
    );
}
