use crate::domain::{GeneralMetrics, Metrics, Node, ROOT_ID};
use crate::graph::GraphError;
use vstd::prelude::*;
use vstd::set_lib::{lemma_len_subset, range_set_properties};

verus! {

/// The mathematical value of a graph: which transactions it holds, keyed by
/// identifier, and the two figures it keeps for the graph as a whole.
pub struct GraphModel {
    /// The number of transactions that the store was sized for.
    pub capacity_hint: u32,
    pub nodes: Map<u32, Node>,
    pub summary: GeneralMetrics,
}

/// How many of the two parents are `id`.
pub open spec fn occurrences(parents: (u32, u32), id: u32) -> nat {
    if parents.0 == id && parents.1 == id {
        2
    } else if parents.0 == id || parents.1 == id {
        1
    } else {
        0
    }
}

/// The smaller of two depths.
pub open spec fn lesser(a: u32, b: u32) -> u32 {
    if a <= b {
        a
    } else {
        b
    }
}

/// `node` after `times` more transactions have named it as a parent.
pub open spec fn raised(node: Node, times: nat) -> Node {
    Node {
        id: node.id,
        timestamp: node.timestamp,
        parents: node.parents,
        metrics: Metrics {
            depth: node.metrics.depth,
            in_reference: (node.metrics.in_reference + times) as u64,
        },
    }
}

/// The later of the recorded transaction and `candidate`: the recorded one
/// stays unless the candidate's timestamp is strictly greater.
pub open spec fn later(
    nodes: Map<u32, Node>,
    recorded: Option<u32>,
    candidate: Node,
) -> Option<u32> {
    match recorded {
        None => Some(candidate.id),
        Some(id) => if nodes[id].timestamp < candidate.timestamp {
            Some(candidate.id)
        } else {
            recorded
        },
    }
}

/// The more referenced of the recorded transaction and `id`, which was seen
/// with `count` references: the recorded one stays unless `count` is strictly
/// greater than what the recorded one has in `nodes`.
pub open spec fn more_referenced(
    nodes: Map<u32, Node>,
    recorded: Option<u32>,
    id: u32,
    count: u64,
) -> Option<u32> {
    match recorded {
        None => Some(id),
        Some(held) => if nodes[held].metrics.in_reference < count {
            Some(id)
        } else {
            recorded
        },
    }
}

impl GraphModel {
    /// The graph that holds the root and nothing else.
    pub open spec fn initial(capacity_hint: u32) -> GraphModel {
        GraphModel {
            capacity_hint,
            nodes: Map::empty().insert(ROOT_ID, Node::root_spec()),
            summary: GeneralMetrics::unset(),
        }
    }

    pub open spec fn contains(self, id: u32) -> bool {
        self.nodes.contains_key(id)
    }

    /// The number of transactions, the root included.
    pub open spec fn size(self) -> nat {
        self.nodes.dom().len()
    }

    /// Why `candidate` is refused, or `None` where it is admitted. The tests
    /// are made in this order: a taken identifier, missing parents, a parent
    /// that the graph does not hold.
    pub open spec fn rejection(self, candidate: Node) -> Option<GraphError> {
        if self.nodes.contains_key(candidate.id) {
            Some(GraphError::DuplicatedIdFound(candidate.id))
        } else {
            match candidate.parents {
                None => Some(GraphError::ParentNotSpecified),
                Some((left, right)) => if self.nodes.contains_key(left) && self.nodes.contains_key(
                    right,
                ) {
                    None
                } else {
                    Some(GraphError::ParentNotFound)
                },
            }
        }
    }

    pub open spec fn admits(self, candidate: Node) -> bool {
        self.rejection(candidate) is None
    }

    /// The candidate as the graph stores it: one level below the shallower of
    /// its parents, and not yet named by anyone.
    pub open spec fn admitted(self, candidate: Node) -> Node
        recommends
            self.admits(candidate),
    {
        let (left, right) = candidate.parents.unwrap();
        Node {
            id: candidate.id,
            timestamp: candidate.timestamp,
            parents: candidate.parents,
            metrics: Metrics {
                depth: (lesser(self.nodes[left].metrics.depth, self.nodes[right].metrics.depth)
                    + 1) as u32,
                in_reference: 0,
            },
        }
    }

    /// The transactions of the graph once the candidate's parents have been
    /// counted: each parent gains one reference for each time it is named.
    pub open spec fn referenced(self, candidate: Node) -> Map<u32, Node>
        recommends
            self.admits(candidate),
    {
        Map::new(
            |id: u32| self.nodes.contains_key(id),
            |id: u32| raised(self.nodes[id], occurrences(candidate.parents.unwrap(), id)),
        )
    }

    /// The summary after the candidate has been admitted. The latest
    /// transaction is compared with the candidate; the most referenced one is
    /// compared with the left parent as it stood after its own count was raised,
    /// and then with the right parent after both counts were raised. The
    /// recorded transaction is always read as it stands after both.
    pub open spec fn summarized(self, candidate: Node) -> GeneralMetrics
        recommends
            self.admits(candidate),
    {
        let (left, right) = candidate.parents.unwrap();
        let counted = self.referenced(candidate);
        let left_count = (self.nodes[left].metrics.in_reference + 1) as u64;
        let right_count = counted[right].metrics.in_reference;
        GeneralMetrics {
            last_transaction: later(counted, self.summary.last_transaction, candidate),
            most_in_reference_transaction: more_referenced(
                counted,
                more_referenced(
                    counted,
                    self.summary.most_in_reference_transaction,
                    left,
                    left_count,
                ),
                right,
                right_count,
            ),
        }
    }

    /// The graph after it has admitted `candidate`.
    pub open spec fn extended(self, candidate: Node) -> GraphModel
        recommends
            self.admits(candidate),
    {
        GraphModel {
            capacity_hint: self.capacity_hint,
            nodes: self.referenced(candidate).insert(candidate.id, self.admitted(candidate)),
            summary: self.summarized(candidate),
        }
    }

    /// What one insertion makes of the graph: the graph with the candidate
    /// admitted, or the reason for which it was refused.
    pub open spec fn step(self, candidate: Node) -> Result<GraphModel, GraphError> {
        match self.rejection(candidate) {
            Some(error) => Err(error),
            None => Ok(self.extended(candidate)),
        }
    }

    /// The transactions that name `id` as their left parent.
    pub open spec fn left_children(self, id: u32) -> Set<u32> {
        self.nodes.dom().filter(
            |child: u32| self.nodes[child].parents matches Some(pair) && pair.0 == id,
        )
    }

    /// The transactions that name `id` as their right parent.
    pub open spec fn right_children(self, id: u32) -> Set<u32> {
        self.nodes.dom().filter(
            |child: u32| self.nodes[child].parents matches Some(pair) && pair.1 == id,
        )
    }

    /// How many times the transactions of the graph name `id` as a parent.
    pub open spec fn references(self, id: u32) -> nat {
        self.left_children(id).len() + self.right_children(id).len()
    }

    /// Whether `child` names `parent` as one of its parents.
    pub open spec fn names(self, child: u32, parent: u32) -> bool {
        self.nodes[child].parents matches Some(pair) && (pair.0 == parent || pair.1 == parent)
    }

    /// Whether `chain` leads from its first transaction up to the root, each
    /// transaction naming the next one as a parent.
    pub open spec fn ascends(self, chain: Seq<u32>) -> bool {
        &&& chain.len() > 0
        &&& chain.last() == ROOT_ID
        &&& forall|i: int| 0 <= i < chain.len() ==> self.nodes.contains_key(#[trigger] chain[i])
        &&& forall|i: int|
            #![trigger chain[i]]
            0 <= i < chain.len() - 1 ==> self.names(chain[i], chain[i + 1])
    }

    /// The root is held, under its own identifier and as it was created, but
    /// for the references it has gained.
    pub open spec fn rooted(self) -> bool {
        &&& self.nodes.contains_key(ROOT_ID)
        &&& self.nodes[ROOT_ID].parents is None
        &&& self.nodes[ROOT_ID].timestamp == 0
        &&& self.nodes[ROOT_ID].metrics.depth == 0
    }

    /// What holds of each transaction that the graph holds.
    pub open spec fn sound_at(self, id: u32) -> bool {
        let node = self.nodes[id];
        &&& node.id == id
        &&& node.metrics.depth < self.size()
        &&& node.metrics.in_reference == self.references(id)
        &&& id != ROOT_ID ==> {
            &&& node.parents matches Some(pair)
            &&& self.nodes.contains_key(pair.0)
            &&& self.nodes.contains_key(pair.1)
            &&& node.metrics.depth == lesser(
                self.nodes[pair.0].metrics.depth,
                self.nodes[pair.1].metrics.depth,
            ) + 1
        }
    }

    /// The recorded latest transaction is held and no timestamp is greater
    /// than its own.
    pub open spec fn latest_is(self, id: u32) -> bool {
        &&& self.nodes.contains_key(id)
        &&& forall|other: u32| #[trigger]
            self.nodes.contains_key(other) ==> self.nodes[other].timestamp
                <= self.nodes[id].timestamp
    }

    /// The recorded most referenced transaction is held and no count of
    /// references is greater than its own.
    pub open spec fn most_referenced_is(self, id: u32) -> bool {
        &&& self.nodes.contains_key(id)
        &&& forall|other: u32| #[trigger]
            self.nodes.contains_key(other) ==> self.nodes[other].metrics.in_reference
                <= self.nodes[id].metrics.in_reference
    }

    /// Both figures of the summary are absent exactly as long as the root is
    /// alone; once set, each names a transaction that holds the maximum.
    pub open spec fn summary_sound(self) -> bool {
        &&& self.summary.last_transaction is None <==> self.size() == 1
        &&& self.summary.most_in_reference_transaction is None <==> self.size() == 1
        &&& self.summary.last_transaction matches Some(id) ==> self.latest_is(id)
        &&& self.summary.most_in_reference_transaction matches Some(id)
            ==> self.most_referenced_is(id)
    }

    /// The invariant of a graph. It holds of the initial graph and admitting a
    /// transaction keeps it.
    pub open spec fn valid(self) -> bool {
        &&& self.nodes.dom().finite()
        &&& self.rooted()
        &&& forall|id: u32| self.nodes.contains_key(id) ==> #[trigger] self.sound_at(id)
        &&& self.summary_sound()
    }
}

/// A finite set of identifiers has at most as many members as there are
/// identifiers.
pub proof fn lemma_ids_bounded(ids: Set<u32>)
    requires
        ids.finite(),
    ensures
        ids.len() <= 0x1_0000_0000,
{
    let every = Set::<u32>::range(0, u32::MAX).insert(u32::MAX);
    range_set_properties::<u32>(0, u32::MAX);
    lemma_len_subset(ids, every);
}

/// A finite set of identifiers that misses one has fewer members than there
/// are identifiers.
pub proof fn lemma_ids_leave_room(ids: Set<u32>, free: u32)
    requires
        ids.finite(),
        !ids.contains(free),
    ensures
        ids.len() < 0x1_0000_0000,
{
    lemma_ids_bounded(ids.insert(free));
}

impl GraphModel {
    /// The initial graph is valid and holds one transaction.
    pub proof fn lemma_initial_valid(capacity_hint: u32)
        ensures
            GraphModel::initial(capacity_hint).valid(),
            GraphModel::initial(capacity_hint).size() == 1,
    {
        let graph = GraphModel::initial(capacity_hint);
        assert(graph.nodes.dom() =~= set![ROOT_ID]);
        assert(graph.left_children(ROOT_ID) =~= Set::empty());
        assert(graph.right_children(ROOT_ID) =~= Set::empty());
    }

    /// No transaction is named more often than twice by each transaction.
    pub proof fn lemma_references_bounded(self, id: u32)
        requires
            self.nodes.dom().finite(),
        ensures
            self.left_children(id).finite(),
            self.right_children(id).finite(),
            self.references(id) <= 2 * self.size(),
            self.size() <= 0x1_0000_0000,
    {
        assert(self.left_children(id).subset_of(self.nodes.dom()));
        assert(self.right_children(id).subset_of(self.nodes.dom()));
        lemma_len_subset(self.left_children(id), self.nodes.dom());
        lemma_len_subset(self.right_children(id), self.nodes.dom());
        lemma_ids_bounded(self.nodes.dom());
    }

    /// A valid graph of one transaction holds the root alone.
    pub proof fn lemma_alone(self)
        requires
            self.valid(),
            self.size() == 1,
        ensures
            forall|id: u32| self.nodes.contains_key(id) ==> id == ROOT_ID,
    {
        assert forall|id: u32| self.nodes.contains_key(id) implies id == ROOT_ID by {
            if id != ROOT_ID {
                assert(self.nodes.dom().remove(ROOT_ID).contains(id));
                assert(self.nodes.dom().remove(ROOT_ID).len() == 0);
            }
        }
    }

    /// Admitting a candidate adds it to the children of each of its parents,
    /// on the side on which it names the parent, and to no other set of
    /// children.
    pub proof fn lemma_children_extended(self, candidate: Node, id: u32)
        requires
            self.valid(),
            self.admits(candidate),
        ensures
            self.extended(candidate).left_children(id) == if candidate.parents.unwrap().0 == id {
                self.left_children(id).insert(candidate.id)
            } else {
                self.left_children(id)
            },
            self.extended(candidate).right_children(id) == if candidate.parents.unwrap().1 == id {
                self.right_children(id).insert(candidate.id)
            } else {
                self.right_children(id)
            },
            self.extended(candidate).references(id) == self.references(id) + occurrences(
                candidate.parents.unwrap(),
                id,
            ),
    {
        let next = self.extended(candidate);
        let (left, right) = candidate.parents.unwrap();
        self.lemma_references_bounded(id);
        assert(next.nodes.dom() =~= self.nodes.dom().insert(candidate.id));
        assert forall|child: u32| self.nodes.contains_key(child) implies next.nodes[child].parents
            == self.nodes[child].parents by {}
        assert(next.nodes[candidate.id].parents == candidate.parents);
        assert(next.left_children(id) =~= if left == id {
            self.left_children(id).insert(candidate.id)
        } else {
            self.left_children(id)
        });
        assert(next.right_children(id) =~= if right == id {
            self.right_children(id).insert(candidate.id)
        } else {
            self.right_children(id)
        });
    }

    /// What admitting a candidate changes and what it leaves. The candidate
    /// is new to the graph and is stored one level below the shallower of its
    /// parents, with no references. Each transaction held before keeps its
    /// identifier, timestamp, parents and depth, and gains exactly one
    /// reference for each time the candidate names it: two where both parents
    /// are the same transaction.
    pub proof fn lemma_extended_figures(self, candidate: Node)
        requires
            self.valid(),
            self.admits(candidate),
        ensures
            ({
                let next = self.extended(candidate);
                let stored = next.nodes[candidate.id];
                let (left, right) = candidate.parents.unwrap();
                &&& !self.nodes.contains_key(candidate.id)
                &&& next.nodes.dom() == self.nodes.dom().insert(candidate.id)
                &&& stored.id == candidate.id
                &&& stored.timestamp == candidate.timestamp
                &&& stored.parents == candidate.parents
                &&& stored.metrics.in_reference == 0
                &&& stored.metrics.depth == lesser(
                    self.nodes[left].metrics.depth,
                    self.nodes[right].metrics.depth,
                ) + 1
                &&& forall|id: u32|
                    self.nodes.contains_key(id) ==> {
                        let was = self.nodes[id];
                        let now = #[trigger] next.nodes[id];
                        &&& now.id == was.id
                        &&& now.timestamp == was.timestamp
                        &&& now.parents == was.parents
                        &&& now.metrics.depth == was.metrics.depth
                        &&& now.metrics.in_reference == was.metrics.in_reference + occurrences(
                            (left, right),
                            id,
                        )
                    }
            }),
    {
        let next = self.extended(candidate);
        let (left, right) = candidate.parents.unwrap();
        assert(next.nodes.dom() =~= self.nodes.dom().insert(candidate.id));
        lemma_ids_leave_room(self.nodes.dom(), candidate.id);
        assert(self.sound_at(left));
        assert(self.sound_at(right));
        assert forall|id: u32| self.nodes.contains_key(id) implies (#[trigger] next.nodes[id])
            .metrics.in_reference == self.nodes[id].metrics.in_reference + occurrences(
            (left, right),
            id,
        ) by {
            self.lemma_references_bounded(id);
            assert(self.sound_at(id));
        }
    }

    /// Admitting a candidate keeps the graph valid and makes it one larger.
    pub proof fn lemma_extended_valid(self, candidate: Node)
        requires
            self.valid(),
            self.admits(candidate),
        ensures
            self.extended(candidate).valid(),
            self.extended(candidate).size() == self.size() + 1,
    {
        let next = self.extended(candidate);
        let (left, right) = candidate.parents.unwrap();
        assert(next.nodes.dom() =~= self.nodes.dom().insert(candidate.id));
        lemma_ids_leave_room(self.nodes.dom(), candidate.id);
        assert(self.sound_at(left));
        assert(self.sound_at(right));
        assert forall|id: u32| #[trigger] next.nodes.contains_key(id) implies next.sound_at(id) by {
            self.lemma_children_extended(candidate, id);
            self.lemma_references_bounded(id);
            if id == candidate.id {
                assert(self.left_children(id) =~= Set::empty()) by {
                    assert forall|child: u32| !self.left_children(id).contains(child) by {
                        if self.nodes.contains_key(child) {
                            assert(self.sound_at(child));
                        }
                    }
                }
                assert(self.right_children(id) =~= Set::empty()) by {
                    assert forall|child: u32| !self.right_children(id).contains(child) by {
                        if self.nodes.contains_key(child) {
                            assert(self.sound_at(child));
                        }
                    }
                }
            } else {
                assert(self.sound_at(id));
            }
        }
        assert(next.summary_sound()) by {
            self.lemma_summary_extended(candidate);
        }
    }

    /// Admitting a candidate leaves a summary that names transactions that hold
    /// the maximum.
    proof fn lemma_summary_extended(self, candidate: Node)
        requires
            self.valid(),
            self.admits(candidate),
        ensures
            self.extended(candidate).summary_sound(),
    {
        let next = self.extended(candidate);
        let (left, right) = candidate.parents.unwrap();
        let counted = self.referenced(candidate);
        assert(next.nodes.dom() =~= self.nodes.dom().insert(candidate.id));
        self.lemma_references_bounded(left);
        self.lemma_references_bounded(right);
        assert(self.sound_at(left));
        assert(self.sound_at(right));
        if self.size() == 1 {
            self.lemma_alone();
        }
        assert forall|id: u32| self.nodes.contains_key(id) implies #[trigger] next.nodes[id]
            == counted[id] && counted[id].timestamp == self.nodes[id].timestamp
            && counted[id].metrics.in_reference == self.nodes[id].metrics.in_reference
            + occurrences((left, right), id) by {
            self.lemma_references_bounded(id);
            assert(self.sound_at(id));
        }
    }

    /// The depth of a transaction is reached: some chain of parents leads from
    /// it to the root in as many steps as its depth says.
    pub proof fn lemma_depth_is_reached(self, id: u32) -> (chain: Seq<u32>)
        requires
            self.valid(),
            self.nodes.contains_key(id),
        ensures
            self.ascends(chain),
            chain[0] == id,
            chain.len() == self.nodes[id].metrics.depth + 1,
        decreases self.nodes[id].metrics.depth,
    {
        assert(self.sound_at(id));
        if id == ROOT_ID {
            seq![id]
        } else {
            let pair = self.nodes[id].parents.unwrap();
            let next = if self.nodes[pair.0].metrics.depth <= self.nodes[pair.1].metrics.depth {
                pair.0
            } else {
                pair.1
            };
            let rest = self.lemma_depth_is_reached(next);
            let chain = seq![id] + rest;
            assert forall|i: int| 0 <= i < chain.len() implies self.nodes.contains_key(
                #[trigger] chain[i],
            ) by {
                if i > 0 {
                    assert(chain[i] == rest[i - 1]);
                }
            }
            assert forall|i: int| #![trigger chain[i]] 0 <= i < chain.len() - 1 implies self.names(
                chain[i],
                chain[i + 1],
            ) by {
                assert(chain[i + 1] == rest[i]);
                if i > 0 {
                    assert(chain[i] == rest[i - 1]);
                }
            }
            assert(chain.last() == rest.last());
            chain
        }
    }

    /// No chain of parents leads from a transaction to the root in fewer steps
    /// than its depth says.
    pub proof fn lemma_depth_is_least(self, chain: Seq<u32>)
        requires
            self.valid(),
            self.ascends(chain),
        ensures
            self.nodes[chain[0]].metrics.depth + 1 <= chain.len(),
        decreases chain.len(),
    {
        assert(self.sound_at(chain[0]));
        if chain[0] != ROOT_ID {
            let rest = chain.skip(1);
            assert(self.names(chain[0], chain[1]));
            assert(rest[0] == chain[1]);
            assert forall|i: int| 0 <= i < rest.len() implies self.nodes.contains_key(
                #[trigger] rest[i],
            ) by {
                assert(rest[i] == chain[i + 1]);
            }
            assert forall|i: int| #![trigger rest[i]] 0 <= i < rest.len() - 1 implies self.names(
                rest[i],
                rest[i + 1],
            ) by {
                assert(rest[i] == chain[i + 1]);
                assert(rest[i + 1] == chain[i + 2]);
            }
            assert(rest.last() == chain.last());
            self.lemma_depth_is_least(rest);
        }
    }
}

} // verus!
