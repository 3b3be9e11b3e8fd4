use nodeagg::expr::nodeagg_sub_expr;
use nodeagg::Nodeagg;

#[test]
fn empty_term_between_separators() {
    assert_eq!(
        Nodeagg::try_from("node1,,node2 ").unwrap().expand(),
        ["node1", "node2"]
    );
}

#[test]
fn simple_range() {
    assert_eq!(
        Nodeagg::try_from("node[1-2]").unwrap().expand(),
        ["node1", "node2"]
    );
}

#[test]
fn shared_group_width() {
    assert_eq!(
        Nodeagg::try_from("node[01,2]").unwrap().expand(),
        ["node01", "node02"]
    );
}

#[test]
fn range_and_literal_terms() {
    assert_eq!(
        Nodeagg::try_from("anode[01-02],bnode2").unwrap().expand(),
        ["anode01", "anode02", "bnode2"]
    );
}

#[test]
fn comment_to_end_of_input() {
    assert_eq!(
        Nodeagg::try_from("node1\n\nnode2\n#comment end").unwrap().expand(),
        ["node1", "node2"]
    );
}

#[test]
fn unjoined_second_token_fails() {
    assert!(Nodeagg::try_from("node1 a").is_err());
}

#[test]
fn empty_group_fails() {
    assert!(Nodeagg::try_from("[]").is_err());
}

#[test]
fn unterminated_group_fails() {
    assert!(Nodeagg::try_from("[1").is_err());
}

#[test]
fn nondigit_in_group_fails() {
    assert!(Nodeagg::try_from("node[1,a]").is_err());
}

#[test]
fn oversized_number_fails() {
    assert!(Nodeagg::try_from("node[99999999999999999999]").is_err());
    assert!(Nodeagg::try_from("node[18446744073709551615]").is_ok());
}

#[test]
fn inverted_range_is_empty() {
    let v = Nodeagg::try_from("node[2-1]").unwrap().expand();
    assert_eq!(v, Vec::<String>::new());
}

#[test]
fn comment_only_input() {
    let v = Nodeagg::try_from("#comment").unwrap().expand();
    assert_eq!(v, Vec::<String>::new());
}

#[test]
fn duplicates_are_suppressed() {
    assert_eq!(
        Nodeagg::try_from("node1,node1,node[1-1]").unwrap().expand(),
        ["node1"]
    );
    assert_eq!(
        Nodeagg::try_from("node[1-2],node2").unwrap().expand(),
        ["node1", "node2"]
    );
}

#[test]
fn iteration_is_deterministic() {
    let n = Nodeagg::try_from("a[1-2]b[1-2],a1b1").unwrap();
    let mut first_pass: Vec<String> = Vec::new();
    let mut it = n.iter();
    while let Some(x) = it.next() {
        first_pass.push(x);
    }
    let mut second_pass: Vec<String> = Vec::new();
    let mut it2 = n.iter();
    while let Some(x) = it2.next() {
        second_pass.push(x);
    }
    assert_eq!(first_pass, second_pass);
    assert_eq!(first_pass, ["a1b1", "a1b2", "a2b1", "a2b2"]);
}

#[test]
fn cartesian_order_and_count() {
    let v = Nodeagg::try_from("a[1-2]b[1-3]").unwrap().expand();
    assert_eq!(v, ["a1b1", "a1b2", "a1b3", "a2b1", "a2b2", "a2b3"]);
    assert_eq!(v.len(), 2 * 3);
}

#[test]
fn group_width_is_shared_maximum() {
    let (e, _) = nodeagg_sub_expr("[007,8,19]").unwrap();
    let mut cur = e.iter();
    let mut got: Vec<String> = Vec::new();
    while let Some(p) = cur.next() {
        got.push(p);
    }
    assert_eq!(got, ["007", "008", "019"]);
    let (e2, _) = nodeagg_sub_expr("[9-11]").unwrap();
    let mut cur2 = e2.iter();
    let mut got2: Vec<String> = Vec::new();
    while let Some(p) = cur2.next() {
        got2.push(p);
    }
    assert_eq!(got2, ["09", "10", "11"]);
}

#[test]
fn error_reports_a_position() {
    let e = Nodeagg::try_from("node1 a").unwrap_err();
    assert!(e.position <= "node1 a".len());
    assert!(!e.message.is_empty());
}

#[test]
fn error_quotes_leftover_input() {
    let e = Nodeagg::try_from("node1 a").unwrap_err();
    assert_eq!(e.position, 6);
    assert_eq!(e.message, "string `a' still exists after parse");
}

#[test]
fn error_describes_the_failure() {
    let e = Nodeagg::try_from("node[1").unwrap_err();
    assert_eq!(e.message, "unterminated array group");
    let e2 = Nodeagg::try_from("node[]").unwrap_err();
    assert_eq!(e2.message, "array group needs a number or range");
    let e3 = Nodeagg::try_from("node[99999999999999999999]").unwrap_err();
    assert_eq!(e3.message, "number is too large");
}

#[test]
fn unicode_words_are_accepted() {
    assert_eq!(
        Nodeagg::try_from("caf\u{e9}[1-2]").unwrap().expand(),
        ["caf\u{e9}1", "caf\u{e9}2"]
    );
}

#[test]
fn expansion_streams_on_demand() {
    let n = Nodeagg::try_from("a[1-1000]b[1-1000]c[1-1000]").unwrap();
    let mut it = n.iter();
    let mut first_three: Vec<String> = Vec::new();
    let mut taken: usize = 0;
    while taken < 3 {
        first_three.push(it.next().unwrap());
        taken += 1;
    }
    assert_eq!(first_three, ["a0001b0001c0001", "a0001b0001c0002", "a0001b0001c0003"]);
}
