use txdag::domain::{Metrics, Node};
use txdag::graph::{Graph, GraphError};

fn stored_in(graph: &Graph, id: u32) -> Node {
    *graph.get(id).expect("the transaction is in the graph")
}

#[test]
fn batch_of_two_matches_two_insertions() {
    let built = Graph::try_from(vec![(1, 1, 5), (1, 2, 3)]).unwrap();
    assert_eq!(built.size(), 3);
    assert_eq!(built.ids(), vec![1u32, 2, 3]);
    assert_eq!(
        stored_in(&built, 1),
        Node { id: 1, timestamp: 0, parents: None, metrics: Metrics { depth: 0, in_reference: 3 } }
    );
    assert_eq!(
        stored_in(&built, 2),
        Node {
            id: 2,
            timestamp: 5,
            parents: Some((1, 1)),
            metrics: Metrics { depth: 1, in_reference: 1 },
        }
    );
    assert_eq!(
        stored_in(&built, 3),
        Node {
            id: 3,
            timestamp: 3,
            parents: Some((1, 2)),
            metrics: Metrics { depth: 1, in_reference: 0 },
        }
    );
    assert_eq!(built.summary(), (Some(2), Some(1)));

    let mut by_hand = Graph::with_capacity(2);
    by_hand.add_node(&mut Node::new(2, 1, 1, 5)).unwrap();
    by_hand.add_node(&mut Node::new(3, 1, 2, 3)).unwrap();
    assert_eq!(built, by_hand);
}

#[test]
fn empty_batch_gives_the_fresh_graph() {
    let built = Graph::try_from(Vec::new()).unwrap();
    assert_eq!(built.size(), 1);
    assert_eq!(built.ids(), vec![1u32]);
    assert_eq!(built.summary(), (None, None));
    assert_eq!(built.capacity_hint(), 0);
    assert_eq!(built, Graph::with_capacity(0));
}

#[test]
fn batch_numbers_its_transactions_from_two_in_list_order() {
    let triples: Vec<(u32, u32, u32)> =
        vec![(1, 1, 30), (2, 1, 10), (3, 2, 20), (4, 4, 40), (1, 5, 0)];
    let built = Graph::try_from(triples.clone()).unwrap();
    assert_eq!(built.size(), triples.len() + 1);
    assert_eq!(built.ids(), vec![1u32, 2, 3, 4, 5, 6]);
    assert_eq!(built.capacity_hint(), 5);
    for (index, (left, right, timestamp)) in triples.iter().enumerate() {
        let node = stored_in(&built, index as u32 + 2);
        assert_eq!(node.id, index as u32 + 2);
        assert_eq!(node.parents, Some((*left, *right)));
        assert_eq!(node.timestamp, *timestamp);
    }
    assert_eq!(stored_in(&built, 5).metrics.depth, 3);
    assert_eq!(stored_in(&built, 6).metrics.depth, 1);
    assert_eq!(built.summary(), (Some(5), Some(1)));
}

#[test]
fn batch_fails_on_an_unknown_parent() {
    let built = Graph::try_from(vec![(1, 1, 5), (9, 9, 0), (1, 1, 1)]);
    assert_eq!(built, Err(GraphError::ParentNotFound));
}

#[test]
fn batch_cannot_name_a_transaction_that_comes_later() {
    assert_eq!(
        Graph::try_from(vec![(1, 1, 0), (4, 1, 0), (1, 1, 0)]),
        Err(GraphError::ParentNotFound)
    );
    assert_eq!(Graph::try_from(vec![(2, 2, 0)]), Err(GraphError::ParentNotFound));
    assert!(Graph::try_from(vec![(1, 1, 0), (3, 3, 0)]).is_err());
    assert!(Graph::try_from(vec![(1, 1, 0), (2, 2, 0)]).is_ok());
}
