use nodeagg::parser::comment;

#[test]
fn test_comment() {
    assert_eq!(comment("", 0), 0);
    assert_eq!(comment("#comment", 0), 8);
    assert_eq!(comment("#comment\n", 0), 8);
}
