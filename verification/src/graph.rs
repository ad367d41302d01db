use crate::domain::{GeneralMetrics, Metrics, Node, ROOT_ID};
use crate::history::{
    batch, lemma_batch_holds, lemma_outcome_next, lemma_refusal_stands, outcome,
};
use crate::model::{
    later, lemma_ids_leave_room, lesser, more_referenced, occurrences, raised, GraphModel,
};
use std::collections::HashMap;
use vstd::prelude::*;
use vstd::std_specs::iter::IteratorSpec;

verus! {

/// Why a graph refused a transaction.
#[derive(Debug, PartialEq)]
pub enum GraphError {
    /// The graph already holds a transaction with this identifier.
    DuplicatedIdFound(u32),
    /// One of the two parents is not in the graph.
    ParentNotFound,
    /// The transaction names no parents, which only the root may do.
    ParentNotSpecified,
}

/// A directed acyclic graph of transactions. It starts with the root; every
/// other transaction names two transactions that were admitted before it.
/// Admitted transactions are never removed; only their count of references
/// grows.
#[derive(Debug, PartialEq)]
pub struct Graph {
    capacity_hint: u32,
    nodes: HashMap<u32, Node>,
    metrics: GeneralMetrics,
}

impl View for Graph {
    type V = GraphModel;

    closed spec fn view(&self) -> GraphModel {
        GraphModel {
            capacity_hint: self.capacity_hint,
            nodes: self.nodes@,
            summary: self.metrics,
        }
    }
}

impl Graph {
    /// The invariant of the type: the graph's value is a valid one.
    pub open spec fn wf(&self) -> bool {
        self@.valid()
    }

    /// A graph that holds the root alone, with a store sized for `num_child`
    /// further transactions. The size is a hint: the graph grows past it.
    pub fn with_capacity(num_child: u32) -> (graph: Self)
        ensures
            graph.wf(),
            graph@ == GraphModel::initial(num_child),
            graph@.size() == 1,
            forall|id: u32| graph@.contains(id) <==> id == ROOT_ID,
            graph@.nodes[ROOT_ID] == Node::root_spec(),
            graph@.summary == GeneralMetrics::unset(),
    {
        let room: usize = (num_child as usize).saturating_add(1);
        let mut nodes: HashMap<u32, Node> = HashMap::with_capacity(room);
        nodes.insert(ROOT_ID, Node::root());
        proof {
            GraphModel::lemma_initial_valid(num_child);
        }
        Graph { capacity_hint: num_child, nodes, metrics: GeneralMetrics::default() }
    }

    /// The number of transactions in the graph, the root included.
    pub fn size(&self) -> (count: usize)
        ensures
            count == self@.size(),
    {
        self.nodes.len()
    }

    /// The transaction with the identifier `id`, if the graph holds it.
    pub fn get(&self, id: u32) -> (found: Option<&Node>)
        ensures
            match found {
                Some(node) => self@.contains(id) && *node == self@.nodes[id],
                None => !self@.contains(id),
            },
    {
        self.nodes.get(&id)
    }

    /// All transactions of the graph, keyed by identifier, for reading.
    pub fn nodes(&self) -> (nodes: &HashMap<u32, Node>)
        ensures
            nodes@ == self@.nodes,
    {
        &self.nodes
    }

    /// The latest transaction and the most referenced one, in this order.
    pub fn summary(&self) -> (figures: (Option<u32>, Option<u32>))
        ensures
            figures.0 == self@.summary.last_transaction,
            figures.1 == self@.summary.most_in_reference_transaction,
    {
        (self.metrics.last_transaction, self.metrics.most_in_reference_transaction)
    }

    /// The number of further transactions that the store was sized for.
    pub fn capacity_hint(&self) -> (hint: u32)
        ensures
            hint == self@.capacity_hint,
    {
        self.capacity_hint
    }

    /// The identifiers of all transactions in the graph, in ascending order.
    pub fn ids(&self) -> (ids: Vec<u32>)
        ensures
            ascending(ids@),
            forall|id: u32| ids@.contains(id) <==> self@.contains(id),
            ids@.len() == self@.size(),
    {
        let mut ids: Vec<u32> = Vec::new();
        let ghost keys: Seq<&u32> = self.nodes.keys().remaining();
        for key in walk: self.nodes.keys()
            invariant
                walk.seq() == keys,
                ascending(ids@),
                forall|id: u32|
                    ids@.contains(id) <==> exists|i: int|
                        0 <= i < walk.index() && *(#[trigger] keys[i]) == id,
        {
            insert_ascending(&mut ids, *key);
        }
        proof {
            assert forall|id: u32| ids@.contains(id) <==> self@.contains(id) by {
                if self@.contains(id) {
                    assert(keys.unref().to_set().contains(id));
                    let i = choose|i: int| 0 <= i < keys.unref().len() && keys.unref()[i] == id;
                    assert(*keys[i] == id);
                }
                if ids@.contains(id) {
                    let i = choose|i: int| 0 <= i < keys.len() && *(#[trigger] keys[i]) == id;
                    assert(keys.unref()[i] == id);
                }
            }
            lemma_ascending_len(ids@, self@.nodes.dom());
        }
        ids
    }

    /// Whether the graph holds a transaction with the identifier `id`.
    fn exists_node(&self, id: u32) -> (found: bool)
        ensures
            found == self@.contains(id),
    {
        self.nodes.contains_key(&id)
    }

    /// Stores `node` under its identifier, in place of what was stored there.
    fn add_vertex(&mut self, node: &Node)
        ensures
            final(self)@ == (GraphModel {
                nodes: old(self)@.nodes.insert(node.id, *node),
                ..old(self)@
            }),
    {
        self.nodes.insert(node.id, *node);
    }

    /// Admits `node`, or refuses it and changes nothing. A transaction is
    /// refused if its identifier is taken, else if it names no parents, else if
    /// the graph does not hold both parents. An admitted transaction is stored
    /// one level below the shallower of its parents and with no references;
    /// each parent gains one reference for each time it is named; the summary
    /// is brought up to date. The same depth and count are written to `node`.
    pub fn add_node(&mut self, node: &mut Node) -> (result: Result<(), GraphError>)
        requires
            old(self).wf(),
        ensures
            final(self).wf(),
            match result {
                Ok(_) => {
                    let (left, right) = old(node).parents.unwrap();
                    &&& old(self)@.rejection(*old(node)) is None
                    &&& final(self)@ == old(self)@.extended(*old(node))
                    &&& *final(node) == old(self)@.admitted(*old(node))
                    &&& final(self)@.size() == old(self)@.size() + 1
                    &&& final(node).metrics.depth == lesser(
                        old(self)@.nodes[left].metrics.depth,
                        old(self)@.nodes[right].metrics.depth,
                    ) + 1
                    &&& forall|id: u32|
                        old(self)@.contains(id) ==> (#[trigger] final(self)@.nodes[id])
                            .metrics.in_reference == old(self)@.nodes[id].metrics.in_reference
                            + occurrences((left, right), id)
                },
                Err(error) => {
                    &&& old(self)@.rejection(*old(node)) == Some(error)
                    &&& final(self)@ == old(self)@
                    &&& *final(node) == *old(node)
                },
            },
            ({
                let graph = old(self)@;
                let candidate = *old(node);
                &&& result == Err::<(), GraphError>(GraphError::DuplicatedIdFound(candidate.id))
                    <==> graph.contains(candidate.id)
                &&& result == Err::<(), GraphError>(GraphError::ParentNotSpecified) <==> {
                    &&& !graph.contains(candidate.id)
                    &&& candidate.parents is None
                }
                &&& result == Err::<(), GraphError>(GraphError::ParentNotFound) <==> {
                    &&& !graph.contains(candidate.id)
                    &&& candidate.parents matches Some(pair)
                    &&& !(graph.contains(pair.0) && graph.contains(pair.1))
                }
                &&& result is Ok <==> {
                    &&& !graph.contains(candidate.id)
                    &&& candidate.parents matches Some(pair)
                    &&& graph.contains(pair.0)
                    &&& graph.contains(pair.1)
                }
            }),
    {
        if self.exists_node(node.id) {
            return Err(GraphError::DuplicatedIdFound(node.id));
        }
        let parents: (u32, u32) = match node.parents {
            None => {
                return Err(GraphError::ParentNotSpecified);
            },
            Some(parents) => parents,
        };
        if !self.exists_node(parents.0) || !self.exists_node(parents.1) {
            return Err(GraphError::ParentNotFound);
        }
        proof {
            old(self)@.lemma_extended_valid(*old(node));
            old(self)@.lemma_extended_figures(*old(node));
        }
        self.update_metrics(node);
        self.add_vertex(node);
        Ok(())
    }

    /// Builds a graph from triples of left parent, right parent and timestamp.
    /// The triples become transactions in the order of the list, with the
    /// identifiers 2, 3 and so on, and are admitted one by one into a graph
    /// sized for the length of the list. The first refusal ends the building,
    /// and no graph is returned then. The identifiers must exist: the list is
    /// shorter than `u32::MAX`.
    pub fn try_from(values: Vec<(u32, u32, u32)>) -> (result: Result<Graph, GraphError>)
        requires
            values@.len() < u32::MAX,
        ensures
            match result {
                Ok(graph) => {
                    &&& graph.wf()
                    &&& outcome(values@.len() as u32, batch(values@)) == Ok::<
                        GraphModel,
                        GraphError,
                    >(graph@)
                    &&& graph@.size() == values@.len() + 1
                    &&& forall|id: u32| #[trigger]
                        graph@.contains(id) <==> 1 <= id <= values@.len() + 1
                    &&& forall|i: int|
                        0 <= i < values@.len() ==> {
                            let node = #[trigger] graph@.nodes[(i + 2) as u32];
                            &&& node.id == i + 2
                            &&& node.parents == Some((values@[i].0, values@[i].1))
                            &&& node.timestamp == values@[i].2
                        }
                },
                Err(error) => outcome(values@.len() as u32, batch(values@)) == Err::<
                    GraphModel,
                    GraphError,
                >(error),
            },
    {
        let count: usize = values.len();
        let mut graph = Graph::with_capacity(count as u32);
        let mut index: usize = 0;
        while index < count
            invariant
                count == values@.len(),
                count < u32::MAX,
                index <= count,
                graph.wf(),
                outcome(count as u32, batch(values@).take(index as int)) == Ok::<
                    GraphModel,
                    GraphError,
                >(graph@),
            decreases count - index,
        {
            let (left_parent, right_parent, timestamp): (u32, u32, u32) = values[index];
            let id: u32 = (index as u32) + 2;
            let mut node = Node::new(id, left_parent, right_parent, timestamp);
            proof {
                lemma_outcome_next(count as u32, batch(values@), index as int);
            }
            match graph.add_node(&mut node) {
                Ok(_) => {},
                Err(error) => {
                    proof {
                        lemma_refusal_stands(count as u32, batch(values@), index + 1);
                    }
                    return Err(error);
                },
            }
            index += 1;
        }
        proof {
            assert(batch(values@).take(count as int) =~= batch(values@));
            lemma_batch_holds(count as u32, values@);
        }
        Ok(graph)
    }

    /// Raises the count of references of the transaction `id` by one and
    /// returns its identifier and figures as they stand after that.
    fn count_reference(&mut self, id: u32) -> (snapshot: (u32, Metrics))
        requires
            old(self)@.contains(id),
            old(self)@.nodes[id].metrics.in_reference < u64::MAX,
        ensures
            final(self)@ == (GraphModel {
                nodes: old(self)@.nodes.insert(id, raised(old(self)@.nodes[id], 1)),
                ..old(self)@
            }),
            snapshot.0 == old(self)@.nodes[id].id,
            snapshot.1 == raised(old(self)@.nodes[id], 1).metrics,
    {
        let parent: &Node = self.nodes.get(&id).unwrap();
        let metrics = Metrics {
            depth: parent.metrics.depth,
            in_reference: parent.metrics.in_reference + 1,
        };
        let counted = Node {
            id: parent.id,
            timestamp: parent.timestamp,
            parents: parent.parents,
            metrics,
        };
        self.nodes.insert(id, counted);
        (counted.id, metrics)
    }

    /// Does all that admitting `node` takes but storing it: counts the
    /// references of its parents, sets its own figures and brings the summary
    /// up to date.
    fn update_metrics(&mut self, node: &mut Node)
        requires
            old(self).wf(),
            old(self)@.admits(*old(node)),
        ensures
            final(self)@ == (GraphModel {
                capacity_hint: old(self)@.capacity_hint,
                nodes: old(self)@.referenced(*old(node)),
                summary: old(self)@.summarized(*old(node)),
            }),
            *final(node) == old(self)@.admitted(*old(node)),
    {
        let parents: (u32, u32) = node.parents.unwrap();
        proof {
            let graph = old(self)@;
            graph.lemma_references_bounded(parents.0);
            graph.lemma_references_bounded(parents.1);
            lemma_ids_leave_room(graph.nodes.dom(), node.id);
            assert(graph.sound_at(parents.0));
            assert(graph.sound_at(parents.1));
        }
        let left_parent_metrics: (u32, Metrics) = self.count_reference(parents.0);
        let right_parent_metrics: (u32, Metrics) = self.count_reference(parents.1);
        assert(self@.nodes =~= old(self)@.referenced(*old(node)));

        let shallower: u32 = if left_parent_metrics.1.depth <= right_parent_metrics.1.depth {
            left_parent_metrics.1.depth
        } else {
            right_parent_metrics.1.depth
        };
        node.metrics.depth = shallower + 1;
        node.metrics.in_reference = 0;

        self.update_last_transaction(node);
        self.update_most_in_reference_transaction(left_parent_metrics);
        self.update_most_in_reference_transaction(right_parent_metrics);
    }

    /// Records `node` as the latest transaction if none is recorded or if its
    /// timestamp is greater than that of the recorded one.
    fn update_last_transaction(&mut self, node: &Node)
        requires
            old(self)@.summary.last_transaction matches Some(id) ==> old(self)@.contains(id),
        ensures
            final(self)@ == (GraphModel {
                summary: GeneralMetrics {
                    last_transaction: later(
                        old(self)@.nodes,
                        old(self)@.summary.last_transaction,
                        *node,
                    ),
                    ..old(self)@.summary
                },
                ..old(self)@
            }),
    {
        let newer: bool = match self.metrics.last_transaction {
            None => true,
            Some(id) => self.nodes.get(&id).unwrap().timestamp < node.timestamp,
        };
        if newer {
            self.metrics.last_transaction = Some(node.id);
        }
    }

    /// Records the transaction `to_compare.0` as the most referenced one if
    /// none is recorded or if the count in `to_compare.1` is greater than the
    /// count that the recorded one has now.
    fn update_most_in_reference_transaction(&mut self, to_compare: (u32, Metrics))
        requires
            old(self)@.summary.most_in_reference_transaction matches Some(id)
                ==> old(self)@.contains(id),
        ensures
            final(self)@ == (GraphModel {
                summary: GeneralMetrics {
                    most_in_reference_transaction: more_referenced(
                        old(self)@.nodes,
                        old(self)@.summary.most_in_reference_transaction,
                        to_compare.0,
                        to_compare.1.in_reference,
                    ),
                    ..old(self)@.summary
                },
                ..old(self)@
            }),
    {
        let more: bool = match self.metrics.most_in_reference_transaction {
            None => true,
            Some(id) => self.nodes.get(&id).unwrap().metrics.in_reference
                < to_compare.1.in_reference,
        };
        if more {
            self.metrics.most_in_reference_transaction = Some(to_compare.0);
        }
    }
}

/// Each identifier is smaller than those after it.
pub open spec fn ascending(ids: Seq<u32>) -> bool {
    forall|i: int, j: int| 0 <= i < j < ids.len() ==> ids[i] < ids[j]
}

/// An ascending sequence is as long as the set of its members is large.
proof fn lemma_ascending_len(ids: Seq<u32>, members: Set<u32>)
    requires
        ascending(ids),
        members.finite(),
        forall|id: u32| ids.contains(id) <==> members.contains(id),
    ensures
        ids.len() == members.len(),
{
    ids.unique_seq_to_set();
    assert(ids.to_set() =~= members);
}

/// Puts `id` into an ascending vector at the place that keeps it ascending,
/// unless the vector holds it already.
fn insert_ascending(ids: &mut Vec<u32>, id: u32)
    requires
        ascending(old(ids)@),
    ensures
        ascending(final(ids)@),
        forall|other: u32|
            final(ids)@.contains(other) <==> old(ids)@.contains(other) || other == id,
{
    let mut at: usize = 0;
    while at < ids.len() && ids[at] < id
        invariant
            at <= ids@.len(),
            ids@ == old(ids)@,
            forall|i: int| 0 <= i < at ==> ids@[i] < id,
        decreases ids@.len() - at,
    {
        at += 1;
    }
    if at >= ids.len() || ids[at] != id {
        ids.insert(at, id);
        assert forall|other: u32| ids@.contains(other) <==> old(ids)@.contains(other) || other
            == id by {
            if old(ids)@.contains(other) {
                let i = choose|i: int| 0 <= i < old(ids)@.len() && old(ids)@[i] == other;
                if i < at {
                    assert(ids@[i] == other);
                } else {
                    assert(ids@[i + 1] == other);
                }
            }
            if other == id {
                assert(ids@[at as int] == id);
            }
            if ids@.contains(other) && other != id {
                let i = choose|i: int| 0 <= i < ids@.len() && ids@[i] == other;
                if i < at {
                    assert(old(ids)@[i] == other);
                } else {
                    assert(old(ids)@[i - 1] == other);
                }
            }
        }
    }
}

} // verus!
