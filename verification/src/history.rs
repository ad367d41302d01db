use crate::domain::{Node, ROOT_ID};
use crate::graph::GraphError;
use crate::model::GraphModel;
use vstd::prelude::*;

verus! {

/// What becomes of the initial graph when `candidates` are offered to it one
/// after the other: the graph that has admitted them all, or the reason for
/// which the first of them was refused. Nothing is offered after a refusal.
pub open spec fn outcome(capacity_hint: u32, candidates: Seq<Node>) -> Result<
    GraphModel,
    GraphError,
>
    decreases candidates.len(),
{
    if candidates.len() == 0 {
        Ok(GraphModel::initial(capacity_hint))
    } else {
        match outcome(capacity_hint, candidates.drop_last()) {
            Err(error) => Err(error),
            Ok(graph) => graph.step(candidates.last()),
        }
    }
}

/// The candidates that a list of triples of left parent, right parent and
/// timestamp stands for: the triple at position `i` gets the identifier `i + 2`.
pub open spec fn batch(triples: Seq<(u32, u32, u32)>) -> Seq<Node> {
    Seq::new(
        triples.len(),
        |i: int| Node::new_spec((i + 2) as u32, triples[i].0, triples[i].1, triples[i].2),
    )
}

/// Offering one candidate more continues from what the candidates before it
/// have led to.
pub proof fn lemma_outcome_next(capacity_hint: u32, candidates: Seq<Node>, count: int)
    requires
        0 <= count < candidates.len(),
    ensures
        outcome(capacity_hint, candidates.take(count + 1)) == match outcome(
            capacity_hint,
            candidates.take(count),
        ) {
            Err(error) => Err(error),
            Ok(graph) => graph.step(candidates[count]),
        },
{
    assert(candidates.take(count + 1).drop_last() =~= candidates.take(count));
}

/// Once a candidate has been refused, the candidates after it change nothing.
pub proof fn lemma_refusal_stands(capacity_hint: u32, candidates: Seq<Node>, count: int)
    requires
        0 <= count <= candidates.len(),
        outcome(capacity_hint, candidates.take(count)) is Err,
    ensures
        outcome(capacity_hint, candidates) == outcome(capacity_hint, candidates.take(count)),
    decreases candidates.len() - count,
{
    if count == candidates.len() {
        assert(candidates.take(count) =~= candidates);
    } else {
        lemma_outcome_next(capacity_hint, candidates, count);
        lemma_refusal_stands(capacity_hint, candidates, count + 1);
    }
}

/// Where all candidates have been admitted, so have the first `count` of them.
pub proof fn lemma_outcome_prefix(capacity_hint: u32, candidates: Seq<Node>, count: int)
    requires
        0 <= count <= candidates.len(),
        outcome(capacity_hint, candidates) is Ok,
    ensures
        outcome(capacity_hint, candidates.take(count)) is Ok,
{
    if outcome(capacity_hint, candidates.take(count)) is Err {
        lemma_refusal_stands(capacity_hint, candidates, count);
    }
}

/// Each admitted candidate was new to the graph that held the candidates
/// before it, and that graph held both of its parents: the parents of a
/// transaction are admitted before the transaction.
pub proof fn lemma_parents_come_first(capacity_hint: u32, candidates: Seq<Node>, at: int)
    requires
        outcome(capacity_hint, candidates) is Ok,
        0 <= at < candidates.len(),
    ensures
        outcome(capacity_hint, candidates.take(at)) is Ok,
        ({
            let before = outcome(capacity_hint, candidates.take(at)).unwrap();
            let candidate = candidates[at];
            &&& !before.nodes.contains_key(candidate.id)
            &&& candidate.parents matches Some(pair)
            &&& before.nodes.contains_key(pair.0)
            &&& before.nodes.contains_key(pair.1)
        }),
{
    lemma_outcome_prefix(capacity_hint, candidates, at);
    lemma_outcome_prefix(capacity_hint, candidates, at + 1);
    lemma_outcome_next(capacity_hint, candidates, at);
}

/// Every graph that admitting candidates leads to is valid, and holds the
/// root and one transaction for each candidate.
pub proof fn lemma_outcome_valid(capacity_hint: u32, candidates: Seq<Node>)
    requires
        outcome(capacity_hint, candidates) is Ok,
    ensures
        outcome(capacity_hint, candidates).unwrap().valid(),
        outcome(capacity_hint, candidates).unwrap().size() == candidates.len() + 1,
        outcome(capacity_hint, candidates).unwrap().capacity_hint == capacity_hint,
    decreases candidates.len(),
{
    if candidates.len() == 0 {
        GraphModel::lemma_initial_valid(capacity_hint);
    } else {
        lemma_outcome_valid(capacity_hint, candidates.drop_last());
        let before = outcome(capacity_hint, candidates.drop_last()).unwrap();
        before.lemma_extended_valid(candidates.last());
    }
}

/// The graph that has admitted `candidates` holds each of them under its own
/// identifier, with the parents and the timestamp it was offered with, and
/// holds nothing else but the root. No two candidates share an identifier and
/// none has that of the root.
pub proof fn lemma_outcome_holds(capacity_hint: u32, candidates: Seq<Node>)
    requires
        outcome(capacity_hint, candidates) is Ok,
    ensures
        forall|i: int|
            0 <= i < candidates.len() ==> {
                let graph = outcome(capacity_hint, candidates).unwrap();
                let candidate = #[trigger] candidates[i];
                &&& candidate.id != ROOT_ID
                &&& candidate.parents is Some
                &&& graph.nodes.contains_key(candidate.id)
                &&& graph.nodes[candidate.id].id == candidate.id
                &&& graph.nodes[candidate.id].parents == candidate.parents
                &&& graph.nodes[candidate.id].timestamp == candidate.timestamp
            },
        forall|i: int, j: int|
            #![trigger candidates[i], candidates[j]]
            0 <= i < j < candidates.len() ==> candidates[i].id != candidates[j].id,
        forall|id: u32| #[trigger]
            outcome(capacity_hint, candidates).unwrap().nodes.contains_key(id) ==> id == ROOT_ID
                || exists|i: int| 0 <= i < candidates.len() && #[trigger] candidates[i].id == id,
    decreases candidates.len(),
{
    let graph = outcome(capacity_hint, candidates).unwrap();
    if candidates.len() > 0 {
        let earlier = candidates.drop_last();
        let last = candidates.last();
        let before = outcome(capacity_hint, earlier).unwrap();
        lemma_outcome_holds(capacity_hint, earlier);
        lemma_outcome_valid(capacity_hint, earlier);
        assert forall|i: int| 0 <= i < candidates.len() implies {
            let candidate = #[trigger] candidates[i];
            &&& candidate.id != ROOT_ID
            &&& candidate.parents is Some
            &&& graph.nodes.contains_key(candidate.id)
            &&& graph.nodes[candidate.id].id == candidate.id
            &&& graph.nodes[candidate.id].parents == candidate.parents
            &&& graph.nodes[candidate.id].timestamp == candidate.timestamp
        } by {
            if i < earlier.len() {
                assert(earlier[i] == candidates[i]);
            }
        }
        assert forall|i: int, j: int|
            #![trigger candidates[i], candidates[j]]
            0 <= i < j < candidates.len() implies candidates[i].id != candidates[j].id by {
            assert(earlier[i] == candidates[i]);
            if j < earlier.len() {
                assert(earlier[j] == candidates[j]);
            }
        }
        assert forall|id: u32| #[trigger] graph.nodes.contains_key(id) implies id == ROOT_ID
            || exists|i: int| 0 <= i < candidates.len() && #[trigger] candidates[i].id == id by {
            if id == last.id {
                assert(candidates[candidates.len() - 1].id == id);
            } else if id != ROOT_ID {
                assert(before.nodes.contains_key(id));
                let i = choose|i: int| 0 <= i < earlier.len() && #[trigger] earlier[i].id == id;
                assert(candidates[i].id == id);
            }
        }
    }
}

/// A refusal is the refusal of the first candidate that the graph, as it
/// stood after all candidates before it had been admitted, would not take.
pub proof fn lemma_first_refusal(capacity_hint: u32, candidates: Seq<Node>) -> (at: int)
    requires
        outcome(capacity_hint, candidates) is Err,
    ensures
        0 <= at < candidates.len(),
        outcome(capacity_hint, candidates.take(at)) is Ok,
        outcome(capacity_hint, candidates) == Err::<GraphModel, GraphError>(
            outcome(capacity_hint, candidates.take(at)).unwrap().rejection(candidates[at]).unwrap(),
        ),
        outcome(capacity_hint, candidates.take(at)).unwrap().rejection(candidates[at]) is Some,
    decreases candidates.len(),
{
    let earlier = candidates.drop_last();
    if outcome(capacity_hint, earlier) is Err {
        let at = lemma_first_refusal(capacity_hint, earlier);
        assert(earlier.take(at) =~= candidates.take(at));
        at
    } else {
        candidates.len() - 1
    }
}

/// A transaction that the graph held after the first `count` candidates is
/// held ever after, with the same identifier, timestamp, parents and depth,
/// and with no fewer references.
pub proof fn lemma_outcome_grows(capacity_hint: u32, candidates: Seq<Node>, count: int, id: u32)
    requires
        outcome(capacity_hint, candidates) is Ok,
        0 <= count <= candidates.len(),
        outcome(capacity_hint, candidates.take(count)).unwrap().nodes.contains_key(id),
    ensures
        ({
            let then = outcome(capacity_hint, candidates.take(count)).unwrap().nodes[id];
            let now = outcome(capacity_hint, candidates).unwrap().nodes[id];
            &&& outcome(capacity_hint, candidates).unwrap().nodes.contains_key(id)
            &&& now.id == then.id
            &&& now.timestamp == then.timestamp
            &&& now.parents == then.parents
            &&& now.metrics.depth == then.metrics.depth
            &&& now.metrics.in_reference >= then.metrics.in_reference
        }),
    decreases candidates.len(),
{
    if count == candidates.len() {
        assert(candidates.take(count) =~= candidates);
    } else {
        let earlier = candidates.drop_last();
        assert(earlier.take(count) =~= candidates.take(count));
        lemma_outcome_grows(capacity_hint, earlier, count, id);
        lemma_outcome_valid(capacity_hint, earlier);
        outcome(capacity_hint, earlier).unwrap().lemma_extended_figures(candidates.last());
    }
}

/// The latest transaction of a graph is the first of the admitted candidates
/// that have the greatest timestamp: no candidate has a greater one, and
/// those admitted before it have a smaller one.
pub proof fn lemma_latest_is_first(capacity_hint: u32, candidates: Seq<Node>) -> (first: int)
    requires
        outcome(capacity_hint, candidates) is Ok,
        candidates.len() > 0,
    ensures
        0 <= first < candidates.len(),
        outcome(capacity_hint, candidates).unwrap().summary.last_transaction == Some(
            candidates[first].id,
        ),
        forall|i: int|
            0 <= i < candidates.len() ==> (#[trigger] candidates[i]).timestamp
                <= candidates[first].timestamp,
        forall|i: int|
            0 <= i < first ==> (#[trigger] candidates[i]).timestamp < candidates[first].timestamp,
    decreases candidates.len(),
{
    let earlier = candidates.drop_last();
    let last = candidates.last();
    let before = outcome(capacity_hint, earlier).unwrap();
    if earlier.len() == 0 {
        0
    } else {
        let first = lemma_latest_is_first(capacity_hint, earlier);
        lemma_outcome_holds(capacity_hint, earlier);
        lemma_outcome_valid(capacity_hint, earlier);
        before.lemma_extended_figures(last);
        assert forall|i: int| 0 <= i < earlier.len() implies (#[trigger] candidates[i]).timestamp
            <= candidates[first].timestamp by {
            assert(earlier[i] == candidates[i]);
        }
        assert forall|i: int| 0 <= i < first implies (#[trigger] candidates[i]).timestamp
            < candidates[first].timestamp by {
            assert(earlier[i] == candidates[i]);
        }
        if candidates[first].timestamp < last.timestamp {
            candidates.len() - 1
        } else {
            first
        }
    }
}

/// The most referenced transaction of a graph was the first to have as many
/// references as it has now: whenever, after some of the candidates, a
/// transaction had that many, the most referenced one had them too.
pub proof fn lemma_most_referenced_is_first(
    capacity_hint: u32,
    candidates: Seq<Node>,
    count: int,
    id: u32,
)
    requires
        outcome(capacity_hint, candidates) is Ok,
        candidates.len() > 0,
        0 <= count <= candidates.len(),
        ({
            let now = outcome(capacity_hint, candidates).unwrap();
            let then = outcome(capacity_hint, candidates.take(count)).unwrap();
            let most = now.summary.most_in_reference_transaction.unwrap();
            &&& then.nodes.contains_key(id)
            &&& then.nodes[id].metrics.in_reference >= now.nodes[most].metrics.in_reference
        }),
    ensures
        ({
            let now = outcome(capacity_hint, candidates).unwrap();
            let then = outcome(capacity_hint, candidates.take(count)).unwrap();
            let most = now.summary.most_in_reference_transaction.unwrap();
            &&& then.nodes.contains_key(most)
            &&& then.nodes[most].metrics.in_reference == now.nodes[most].metrics.in_reference
        }),
    decreases candidates.len(),
{
    let now = outcome(capacity_hint, candidates).unwrap();
    lemma_outcome_valid(capacity_hint, candidates);
    let most = now.summary.most_in_reference_transaction.unwrap();
    assert(now.most_referenced_is(most));
    if count == candidates.len() {
        assert(candidates.take(count) =~= candidates);
    } else {
        let earlier = candidates.drop_last();
        let last = candidates.last();
        let before = outcome(capacity_hint, earlier).unwrap();
        let (left, right) = last.parents.unwrap();
        assert(earlier.take(count) =~= candidates.take(count));
        lemma_outcome_valid(capacity_hint, earlier);
        lemma_outcome_grows(capacity_hint, earlier, count, id);
        before.lemma_extended_figures(last);
        if earlier.len() == 0 {
            assert(now.nodes[left].metrics.in_reference >= 1);
        } else {
            let held = before.summary.most_in_reference_transaction.unwrap();
            assert(before.most_referenced_is(held));
            assert(now.nodes.contains_key(held));
            assert(now.nodes.contains_key(left));
            assert(now.nodes.contains_key(right));
            assert(most == held);
            lemma_most_referenced_is_first(capacity_hint, earlier, count, id);
        }
    }
}

/// The graph built from a list of triples holds the root and, for the triple
/// at each position `i`, the transaction `i + 2` with the parents and the
/// timestamp of that triple; it holds nothing else.
pub proof fn lemma_batch_holds(capacity_hint: u32, triples: Seq<(u32, u32, u32)>)
    requires
        triples.len() < u32::MAX,
        outcome(capacity_hint, batch(triples)) is Ok,
    ensures
        ({
            let graph = outcome(capacity_hint, batch(triples)).unwrap();
            &&& graph.size() == triples.len() + 1
            &&& forall|id: u32| #[trigger]
                graph.nodes.contains_key(id) <==> 1 <= id <= triples.len() + 1
            &&& forall|i: int|
                0 <= i < triples.len() ==> {
                    let node = #[trigger] graph.nodes[(i + 2) as u32];
                    &&& node.id == i + 2
                    &&& node.parents == Some((triples[i].0, triples[i].1))
                    &&& node.timestamp == triples[i].2
                }
        }),
{
    let candidates = batch(triples);
    let graph = outcome(capacity_hint, candidates).unwrap();
    lemma_outcome_valid(capacity_hint, candidates);
    lemma_outcome_holds(capacity_hint, candidates);
    assert forall|id: u32| 1 <= id <= triples.len() + 1 implies #[trigger]
        graph.nodes.contains_key(id) by {
        if id != ROOT_ID {
            assert(candidates[id - 2].id == id);
        }
    }
    assert forall|i: int| 0 <= i < triples.len() implies {
        let node = #[trigger] graph.nodes[(i + 2) as u32];
        &&& node.id == i + 2
        &&& node.parents == Some((triples[i].0, triples[i].1))
        &&& node.timestamp == triples[i].2
    } by {
        assert(candidates[i].id == i + 2);
    }
}

} // verus!
