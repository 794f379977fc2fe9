//! Copies of the graph. A copy holds what the store held when it was made,
//! and nothing that is committed to the store afterwards reaches it.

use vstd::prelude::*;
use crate::error::copy_keys;
use crate::registry::{Key, Registry, Value};
use crate::store::{ComputationNode, DiceComputations, NodeKind, NodeState};
use crate::transaction::{BaseComputeCtx, DiceTransactionImpl};
use crate::versions::VersionNumber;

verus! {

/// A liveness state without its payload.
#[derive(Clone, Copy, Debug, PartialEq, Eq, Structural)]
pub enum Liveness {
    Vacant,
    Clean,
    MaybeDirty,
    InProgress,
    Failed,
}

/// The liveness that a state stands for.
pub open spec fn liveness_of(state: NodeState) -> Liveness {
    match state {
        NodeState::Vacant => Liveness::Vacant,
        NodeState::Clean => Liveness::Clean,
        NodeState::MaybeDirty => Liveness::MaybeDirty,
        NodeState::InProgress => Liveness::InProgress,
        NodeState::Failed { .. } => Liveness::Failed,
    }
}

/// A copy of `values`.
pub fn copy_values(values: &Vec<Value>) -> (copy: Vec<Value>)
    ensures
        copy@ == values@,
{
    let mut copy: Vec<Value> = Vec::new();
    let mut i: usize = 0;
    while i < values.len()
        invariant
            i <= values.len(),
            copy@ == values@.take(i as int),
        decreases values.len() - i,
    {
        copy.push(values[i]);
        i = i + 1;
    }
    copy
}

impl NodeState {
    /// Whether two states are the same state with the same error.
    pub open spec fn mirrors(&self, other: &NodeState) -> bool {
        &&& liveness_of(*self) == liveness_of(*other)
        &&& match (*self, *other) {
            (NodeState::Failed { error: a }, NodeState::Failed { error: b }) => a@ == b@,
            _ => true,
        }
    }

    /// A state that mirrors this one.
    pub fn duplicate(&self) -> (copy: Self)
        ensures
            copy.mirrors(self),
    {
        match self {
            NodeState::Vacant => NodeState::Vacant,
            NodeState::Clean => NodeState::Clean,
            NodeState::MaybeDirty => NodeState::MaybeDirty,
            NodeState::InProgress => NodeState::InProgress,
            NodeState::Failed { error } => NodeState::Failed { error: error.duplicate() },
        }
    }
}

impl ComputationNode {
    /// Whether two nodes hold the same.
    pub open(crate) spec fn mirrors(&self, other: &ComputationNode) -> bool {
        &&& self.kind == other.kind
        &&& self.state.mirrors(&other.state)
        &&& self.value == other.value
        &&& self.computed_at == other.computed_at
        &&& self.since == other.since
        &&& self.until == other.until
        &&& self.dep_keys@ == other.dep_keys@
        &&& self.dep_values@ == other.dep_values@
        &&& self.dependents@ == other.dependents@
        &&& self.rank@ == other.rank@
        &&& self.runs@ == other.runs@
    }

    /// A node that mirrors this one.
    pub(crate) fn duplicate(&self) -> (copy: Self)
        ensures
            copy.mirrors(self),
    {
        ComputationNode {
            kind: self.kind,
            state: self.state.duplicate(),
            value: self.value,
            computed_at: self.computed_at,
            since: self.since,
            until: self.until,
            dep_keys: copy_keys(&self.dep_keys),
            dep_values: copy_values(&self.dep_values),
            dependents: copy_keys(&self.dependents),
            rank: self.rank,
            runs: self.runs,
        }
    }
}

impl<'a, R: Registry> DiceComputations<'a, R> {
    /// Whether two stores hold the same: the same version, functions, limit
    /// and counters, and in every node the same kind, state, value, validity
    /// and edges.
    pub open(crate) spec fn mirrors(&self, other: &Self) -> bool {
        &&& self.size() == other.size()
        &&& self.version() == other.version()
        &&& self.registry == other.registry
        &&& self.read_limit == other.read_limit
        &&& self.stats == other.stats
        &&& self.chain@ == other.chain@
        &&& self.clock@ == other.clock@
        &&& self.frames@ == other.frames@
        &&& forall|k: int| 0 <= k < self.size() ==> (#[trigger] self.node(k)).mirrors(&other.node(k))
    }

    pub(crate) proof fn lemma_mirror_wf(&self, other: &Self)
        requires
            self.mirrors(other),
            other.inner_wf(),
        ensures
            self.inner_wf(),
    {
        assert forall|k: int| 0 <= k < self.size() implies #[trigger] self.node_wf(k) by {
            assert(other.node_wf(k));
            assert(self.node(k).mirrors(&other.node(k)));
            let n = self.node(k);
            if n.kind is Derived {
                assert forall|i: int| 0 <= i < n.dep_keys@.len() implies #[trigger] self.dep_linked(
                    k,
                    i,
                ) by {
                    assert(other.dep_linked(k, i));
                    let d = n.dep_keys@[i] as int;
                    assert(self.node(d).mirrors(&other.node(d)));
                }
                if n.state is Clean {
                    assert forall|i: int| 0 <= i < n.dep_keys@.len() implies #[trigger] self.dep_current(
                        k,
                        i,
                    ) by {
                        assert(other.dep_current(k, i));
                        assert(other.dep_linked(k, i));
                        let d = n.dep_keys@[i] as int;
                        assert(self.node(d).mirrors(&other.node(d)));
                    }
                }
            }
        }
        assert(self.chain_wf()) by {
            assert forall|i: int| 0 <= i < self.chain@.len() implies self.in_progress(
                #[trigger] self.chain@[i] as int,
            ) by {
                let c = other.chain@[i] as int;
                assert(other.in_progress(c));
                assert(self.node(c).mirrors(&other.node(c)));
            }
            assert forall|k: Key| #[trigger] self.in_progress(k as int) implies self.chain@.contains(
                k,
            ) by {
                assert(self.node(k as int).mirrors(&other.node(k as int)));
                assert(other.in_progress(k as int));
            }
        }
    }

    /// What mirrors a store answers every question about settled keys alike.
    pub proof fn lemma_mirror_settled(&self, other: &Self, key: int)
        requires
            self.mirrors(other),
        ensures
            self.settled(key) == other.settled(key),
            self.is_leaf(key) == other.is_leaf(key),
            self.is_derived(key) == other.is_derived(key),
            self.is_clean(key) == other.is_clean(key),
            self.is_maybe_dirty(key) == other.is_maybe_dirty(key),
            0 <= key < self.size() ==> self.outcome(key) == other.outcome(key),
            0 <= key < self.size() ==> self.cached_value(key) == other.cached_value(key),
    {
        if 0 <= key < self.size() {
            assert(self.node(key).mirrors(&other.node(key)));
        }
    }

    /// A copy of the store as it is now.
    pub fn snapshot(&self) -> (copy: Self)
        ensures
            copy.mirrors(self),
            self.wf() ==> copy.wf(),
    {
        let mut nodes: Vec<ComputationNode> = Vec::new();
        let mut i: usize = 0;
        while i < self.nodes.len()
            invariant
                i <= self.nodes@.len(),
                nodes@.len() == i,
                forall|k: int| 0 <= k < i ==> (#[trigger] nodes@[k]).mirrors(&self.nodes@[k]),
            decreases self.nodes@.len() - i,
        {
            nodes.push(self.nodes[i].duplicate());
            i = i + 1;
        }
        let copy = DiceComputations {
            registry: self.registry,
            ledger: self.ledger.snapshot(),
            nodes,
            chain: copy_keys(&self.chain),
            read_limit: self.read_limit,
            stats: self.stats,
            clock: self.clock,
            frames: self.frames,
        };
        proof {
            if self.wf() {
                copy.lemma_mirror_wf(self);
                assert forall|k: int| 0 <= k < self.size() implies (#[trigger] copy.node(
                    k,
                ).kind is Leaf <==> self.node(k).kind is Leaf) && copy.node(k).value == self.node(
                    k,
                ).value by {
                    assert(copy.node(k).mirrors(&self.node(k)));
                }
                self.lemma_world_kept(&copy);
                assert forall|k: int| 0 <= k < self.size() && #[trigger] copy.node(
                    k,
                ).state is Failed implies self.node(k).state is Failed && copy.node(k).computed_at
                    == self.node(k).computed_at by {
                    assert(copy.node(k).mirrors(&self.node(k)));
                }
                self.lemma_failures_kept(&copy);
            }
        }
        copy
    }

    /// The liveness of the node of `key`.
    pub open(crate) spec fn liveness_at(&self, key: int) -> Liveness {
        liveness_of(self.node(key).state)
    }

    /// The keys that the last successful evaluation of `key` read, in order.
    pub open(crate) spec fn recorded_dependencies(&self, key: int) -> Seq<Key> {
        self.node(key).dep_keys@
    }

    /// The keys that have read `key`.
    pub open(crate) spec fn recorded_dependents(&self, key: int) -> Seq<Key> {
        self.node(key).dependents@
    }

    /// The versions for which the value held for `key` is known to be
    /// correct: from the first of the pair up to the second, exclusive; up to
    /// the current version where there is no second.
    pub open(crate) spec fn validity_at(&self, key: int) -> (VersionNumber, Option<VersionNumber>) {
        (self.node(key).since, self.node(key).until)
    }

    /// The validity interval of the value held for `key`, if one is held.
    pub fn validity(&self, key: Key) -> (interval: Option<(VersionNumber, Option<VersionNumber>)>)
        ensures
            interval == (if self.is_leaf(key as int) || self.is_derived(key as int) {
                Some(self.validity_at(key as int))
            } else {
                None
            }),
            self.wf() && self.is_clean(key as int) ==> (interval matches Some(i) && i.1 is None),
            self.wf() && self.is_maybe_dirty(key as int) ==> (interval matches Some(i)
                && i.1 is Some),
    {
        if key >= self.nodes.len() {
            return None;
        }
        proof {
            if self.wf() {
                assert(self.node_wf(key as int));
            }
        }
        match &self.nodes[key].kind {
            NodeKind::Unknown => None,
            _ => Some((self.nodes[key].since, self.nodes[key].until)),
        }
    }

    /// The liveness of the node of `key`, if there is such a node.
    pub fn liveness(&self, key: Key) -> (l: Option<Liveness>)
        ensures
            l == (if key < self.size() {
                Some(self.liveness_at(key as int))
            } else {
                None
            }),
    {
        if key >= self.nodes.len() {
            return None;
        }
        Some(
            match &self.nodes[key].state {
                NodeState::Vacant => Liveness::Vacant,
                NodeState::Clean => Liveness::Clean,
                NodeState::MaybeDirty => Liveness::MaybeDirty,
                NodeState::InProgress => Liveness::InProgress,
                NodeState::Failed { .. } => Liveness::Failed,
            },
        )
    }

    /// The value held for `key`: the injected one, or the one last computed.
    pub fn cached(&self, key: Key) -> (v: Option<Value>)
        ensures
            v == (if self.is_leaf(key as int) || self.is_derived(key as int) {
                Some(self.cached_value(key as int))
            } else {
                None
            }),
    {
        if key >= self.nodes.len() {
            return None;
        }
        match &self.nodes[key].kind {
            NodeKind::Unknown => None,
            _ => Some(self.nodes[key].value),
        }
    }

    /// The keys that the last successful evaluation of `key` read, in order.
    pub fn dependencies(&self, key: Key) -> (keys: Vec<Key>)
        ensures
            keys@ == (if key < self.size() {
                self.recorded_dependencies(key as int)
            } else {
                Seq::empty()
            }),
    {
        if key >= self.nodes.len() {
            return Vec::new();
        }
        copy_keys(&self.nodes[key].dep_keys)
    }

    /// The keys that have read `key`.
    pub fn dependents(&self, key: Key) -> (keys: Vec<Key>)
        ensures
            keys@ == (if key < self.size() {
                self.recorded_dependents(key as int)
            } else {
                Seq::empty()
            }),
    {
        if key >= self.nodes.len() {
            return Vec::new();
        }
        copy_keys(&self.nodes[key].dependents)
    }
}

impl<'a, R: Registry> Clone for BaseComputeCtx<'a, R> {
    /// A context on a copy of the graph.
    fn clone(&self) -> (copy: Self)
        ensures
            self.wf() ==> copy.wf() && copy.computations().mirrors(&self.computations()),
    {
        BaseComputeCtx::new(self.as_computations().snapshot())
    }
}

impl<'a, R: Registry> Clone for DiceTransactionImpl<'a, R> {
    /// A transaction of the same version on a copy of the graph.
    fn clone(&self) -> (copy: Self)
        ensures
            self.wf() ==> copy.wf() && copy.computations().mirrors(&self.computations()),
    {
        match self {
            DiceTransactionImpl::Modern(ctx) => DiceTransactionImpl::Modern(ctx.clone()),
        }
    }
}

} // verus!
