use txdag::domain::{Metrics, Node};
use txdag::graph::Graph;

#[test]
fn figures_are_printed_in_decimal() {
    let metrics = Metrics { depth: 3, in_reference: 12 };
    assert_eq!(metrics.to_text(), "(depth=3,in_reference=12)");
    assert_eq!(Metrics { depth: 0, in_reference: 0 }.to_text(), "(depth=0,in_reference=0)");
}

#[test]
fn greatest_figures_are_printed_in_full() {
    let metrics = Metrics { depth: u32::MAX, in_reference: u64::MAX };
    assert_eq!(metrics.to_text(), "(depth=4294967295,in_reference=18446744073709551615)");
}

#[test]
fn figures_are_printed_as_the_formatter_prints_numbers() {
    for (depth, in_reference) in [
        (0u32, 0u64),
        (9, 10),
        (10, 9),
        (99, 100),
        (1_000_000, 999_999),
        (4_000_000_000, 8_589_934_590),
        (1234567890, 9876543210),
    ] {
        let metrics = Metrics { depth, in_reference };
        assert_eq!(
            metrics.to_text(),
            format!("(depth={:},in_reference={:})", depth, in_reference)
        );
    }
}

#[test]
fn root_is_printed_with_empty_brackets() {
    assert_eq!(Node::root().to_text(), "- id=1() info=(t=0, metrics=(depth=0,in_reference=0))");
}

#[test]
fn transaction_is_printed_with_both_parents() {
    assert_eq!(
        Node::new(2, 1, 1, 5).to_text(),
        "- id=2(left=1 right=1) info=(t=5, metrics=(depth=0,in_reference=0))"
    );
    let node = Node {
        id: 70,
        timestamp: 4_294_967_295,
        parents: Some((0, 4_000_000_000)),
        metrics: Metrics { depth: 25, in_reference: 101 },
    };
    assert_eq!(
        node.to_text(),
        "- id=70(left=0 right=4000000000) info=(t=4294967295, metrics=(depth=25,in_reference=101))"
    );
}

#[test]
fn stored_transactions_are_printed_with_their_figures() {
    let graph = Graph::try_from(vec![(1, 1, 5), (1, 2, 3)]).unwrap();
    let lines: Vec<String> =
        graph.ids().into_iter().map(|id| graph.get(id).unwrap().to_text()).collect();
    assert_eq!(
        lines,
        vec![
            "- id=1() info=(t=0, metrics=(depth=0,in_reference=3))",
            "- id=2(left=1 right=1) info=(t=5, metrics=(depth=1,in_reference=1))",
            "- id=3(left=1 right=2) info=(t=3, metrics=(depth=1,in_reference=0))",
        ]
    );
}
