use std::num::ParseIntError;
use txdag::domain::Node;

fn failure_of(text: &str) -> ParseIntError {
    text.parse::<u32>().expect_err("a text that is no number")
}

#[test]
fn three_numbers_make_a_transaction() {
    let node = Node::try_from((&["1", "2", "5"], 3));
    assert_eq!(node, Ok(Node::new(3, 1, 2, 5)));
}

#[test]
fn fields_are_left_parent_right_parent_and_timestamp() {
    let node = Node::try_from((&["10", "200", "3000"], 4000)).unwrap();
    assert_eq!(node.id, 4000);
    assert_eq!(node.parents, Some((10, 200)));
    assert_eq!(node.timestamp, 3000);
    assert_eq!(node.metrics.depth, 0);
    assert_eq!(node.metrics.in_reference, 0);
}

#[test]
fn plus_sign_and_leading_zeros_are_read() {
    assert_eq!(Node::try_from((&["+7", "007", "0"], 2)), Ok(Node::new(2, 7, 7, 0)));
    assert_eq!(Node::try_from((&["+0", "00", "+0010"], 2)), Ok(Node::new(2, 0, 0, 10)));
}

#[test]
fn greatest_number_is_read_and_the_next_is_not() {
    assert_eq!(
        Node::try_from((&["4294967295", "1", "1"], 2)),
        Ok(Node::new(2, u32::MAX, 1, 1))
    );
    assert_eq!(
        Node::try_from((&["1", "1", "0004294967295"], 2)),
        Ok(Node::new(2, 1, 1, u32::MAX))
    );
    assert_eq!(Node::try_from((&["4294967296", "1", "1"], 2)), Err(failure_of("4294967296")));
    assert_eq!(
        Node::try_from((&["1", "99999999999999999999", "1"], 2)),
        Err(failure_of("99999999999999999999"))
    );
}

#[test]
fn texts_that_are_no_numbers_are_refused() {
    for text in ["", "+", "-", "-1", " 1", "1 ", "1_000", "0x10", "12a", "++1", "1+", "٣", "1.0"] {
        assert_eq!(Node::try_from((&[text, "1", "1"], 2)), Err(failure_of(text)));
        assert_eq!(Node::try_from((&["1", text, "1"], 2)), Err(failure_of(text)));
        assert_eq!(Node::try_from((&["1", "1", text], 2)), Err(failure_of(text)));
    }
}

#[test]
fn first_bad_field_decides_the_error() {
    // An empty text and a text with a letter fail in different ways.
    assert_ne!(failure_of(""), failure_of("x"));
    assert_eq!(Node::try_from((&["", "x", "1"], 2)), Err(failure_of("")));
    assert_eq!(Node::try_from((&["x", "", "1"], 2)), Err(failure_of("x")));
    assert_eq!(Node::try_from((&["1", "x", ""], 2)), Err(failure_of("x")));
    assert_eq!(Node::try_from((&["1", "4294967296", ""], 2)), Err(failure_of("4294967296")));
    assert_ne!(failure_of("4294967296"), failure_of(""));
}

#[test]
fn fields_convert_into_a_transaction() {
    let fields = ["3", "4", "5"];
    let node: Result<Node, ParseIntError> = (&fields, 6).try_into();
    assert_eq!(node, Ok(Node::new(6, 3, 4, 5)));
}
