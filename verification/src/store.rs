//! The computation node store: one node per key, holding the cached result,
//! the recorded dependency edges in both directions, and the liveness state.

use vstd::prelude::*;
use crate::error::{DiceError, ErrorView};
use crate::registry::{replays, Key, Registry, Step, Value};
use crate::semantics::on_path;
use crate::versions::{VersionLedger, VersionNumber};

verus! {

/// How a key gets its value.
#[derive(Clone, Copy, Debug, PartialEq, Eq, Structural)]
pub enum NodeKind {
    /// Neither injected nor successfully computed so far.
    Unknown,
    /// Its value is injected.
    Leaf,
    /// Its value is computed by its evaluation function.
    Derived,
}

/// The liveness state of a node.
#[derive(Debug)]
pub enum NodeState {
    /// Nothing is cached.
    Vacant,
    /// The cached value is correct at the current version.
    Clean,
    /// An input that the cached value was computed from may have changed.
    MaybeDirty,
    /// The node is being evaluated.
    InProgress,
    /// The evaluation at version `computed_at` failed.
    Failed { error: DiceError },
}

/// Counters of how queries were answered.
#[derive(Clone, Copy, Debug)]
pub struct EvaluationStats {
    /// Evaluation functions that were run.
    pub executed: u64,
    /// Nodes that were found unchanged by comparing their dependencies.
    pub early_cutoff: u64,
    /// Queries answered from a clean node.
    pub cached: u64,
}

/// One node of the dependency graph.
pub struct ComputationNode {
    pub(crate) kind: NodeKind,
    pub(crate) state: NodeState,
    /// The last injected or computed value.
    pub(crate) value: Value,
    /// The version at which `value` or the failure was computed.
    pub(crate) computed_at: VersionNumber,
    /// The cached value is known correct from `since` up to `until`, exclusive;
    /// without an `until`, up to the current version.
    pub(crate) since: VersionNumber,
    pub(crate) until: Option<VersionNumber>,
    /// The keys read by the last successful evaluation, in order, and the
    /// values they had.
    pub(crate) dep_keys: Vec<Key>,
    pub(crate) dep_values: Vec<Value>,
    /// The keys that have read this one.
    pub(crate) dependents: Vec<Key>,
    /// Orders clean nodes after their dependencies.
    pub(crate) rank: Ghost<nat>,
    /// How often the evaluation function of the key has been run.
    pub(crate) runs: Ghost<nat>,
}

impl ComputationNode {
    /// Whether two nodes differ at most in their dependents.
    pub open(crate) spec fn same_core(&self, other: &ComputationNode) -> bool {
        &&& self.kind == other.kind
        &&& self.state == other.state
        &&& self.value == other.value
        &&& self.computed_at == other.computed_at
        &&& self.since == other.since
        &&& self.until == other.until
        &&& self.dep_keys == other.dep_keys
        &&& self.dep_values == other.dep_values
        &&& self.rank == other.rank
    }

    pub(crate) fn vacant() -> (node: Self)
        ensures
            node.kind is Unknown,
            node.state is Vacant,
            node.dep_keys@.len() == 0,
            node.dep_values@.len() == 0,
            node.dependents@.len() == 0,
            node.rank@ == 0,
            node.runs@ == 0,
            node.until is None,
    {
        ComputationNode {
            kind: NodeKind::Unknown,
            state: NodeState::Vacant,
            value: 0,
            computed_at: VersionNumber(0),
            since: VersionNumber(0),
            until: None,
            dep_keys: Vec::new(),
            dep_values: Vec::new(),
            dependents: Vec::new(),
            rank: Ghost(0),
            runs: Ghost(0),
        }
    }
}

/// The dependency graph at one version, with the evaluation functions of its
/// keys. Queries go through `compute`.
pub struct DiceComputations<'a, R: Registry> {
    pub(crate) registry: &'a R,
    pub(crate) ledger: VersionLedger,
    pub(crate) nodes: Vec<ComputationNode>,
    /// The keys under evaluation, outermost first.
    pub(crate) chain: Vec<Key>,
    pub(crate) read_limit: usize,
    pub(crate) stats: EvaluationStats,
    pub(crate) clock: Ghost<nat>,
    /// For each key under evaluation, the values that it has read so far.
    pub(crate) frames: Ghost<Seq<Seq<Value>>>,
}

impl<'a, R: Registry> DiceComputations<'a, R> {
    /// The number of keys.
    pub open(crate) spec fn size(&self) -> nat {
        self.nodes@.len()
    }

    /// The current version.
    pub open(crate) spec fn version(&self) -> nat {
        self.ledger.published()
    }

    /// The evaluation functions.
    pub open(crate) spec fn registry(&self) -> &'a R {
        self.registry
    }

    /// The number of dependencies a single evaluation may read.
    pub open(crate) spec fn read_limit(&self) -> nat {
        self.read_limit as nat
    }

    /// The counters.
    pub open(crate) spec fn stats(&self) -> EvaluationStats {
        self.stats
    }

    pub open(crate) spec fn node(&self, key: int) -> ComputationNode {
        self.nodes@[key]
    }

    /// Whether the value of `key` is injected.
    pub open(crate) spec fn is_leaf(&self, key: int) -> bool {
        0 <= key < self.size() && self.node(key).kind is Leaf
    }

    /// Whether the value of `key` has been computed by its function.
    pub open(crate) spec fn is_derived(&self, key: int) -> bool {
        0 <= key < self.size() && self.node(key).kind is Derived
    }

    /// Whether `key` holds a value that is correct at the current version.
    pub open(crate) spec fn is_clean(&self, key: int) -> bool {
        0 <= key < self.size() && self.node(key).state is Clean
    }

    /// Whether `key` holds a value that may be stale.
    pub open(crate) spec fn is_maybe_dirty(&self, key: int) -> bool {
        0 <= key < self.size() && self.node(key).state is MaybeDirty
    }

    /// Whether `key` holds a failure of the current version.
    pub open(crate) spec fn is_failed(&self, key: int) -> bool {
        &&& 0 <= key < self.size()
        &&& self.node(key).state is Failed
        &&& self.node(key).computed_at.0 == self.version()
    }

    /// Whether the result of `key` at the current version is known.
    pub open(crate) spec fn settled(&self, key: int) -> bool {
        self.is_clean(key) || self.is_failed(key)
    }

    /// The result of a settled key.
    pub open(crate) spec fn outcome(&self, key: int) -> Result<Value, ErrorView> {
        match self.node(key).state {
            NodeState::Failed { error } => Err(error@),
            _ => Ok(self.node(key).value),
        }
    }

    /// The value last injected into or computed for `key`.
    pub open(crate) spec fn cached_value(&self, key: int) -> Value {
        self.node(key).value
    }

    /// How often the evaluation function of `key` has been run.
    pub open(crate) spec fn runs_of(&self, key: int) -> nat {
        self.node(key).runs@
    }

    /// Between the two stores the function of `key` was not run, or it was
    /// run once and the key is settled.
    pub open(crate) spec fn ran_at_most_once(&self, later: &Self, key: int) -> bool {
        ||| later.runs_of(key) == self.runs_of(key)
        ||| later.runs_of(key) == self.runs_of(key) + 1 && later.settled(key)
    }

    /// Whether `key` is under evaluation.
    pub open(crate) spec fn in_progress(&self, key: int) -> bool {
        0 <= key < self.size() && self.node(key).state is InProgress
    }

    /// The nodes that an evaluation leaves as they are.
    pub open(crate) spec fn pinned(&self, key: int) -> bool {
        self.settled(key) || self.in_progress(key)
    }

    /// The `i`-th recorded dependency of `key` is clean and has the recorded value.
    pub open(crate) spec fn dep_current(&self, key: int, i: int) -> bool {
        let n = self.node(key);
        let d = self.node(n.dep_keys@[i] as int);
        &&& d.state is Clean
        &&& d.value == n.dep_values@[i]
        &&& d.rank@ < n.rank@
    }

    /// The `i`-th recorded dependency of `key` lists `key` among its dependents.
    pub open(crate) spec fn dep_linked(&self, key: int, i: int) -> bool {
        let n = self.node(key);
        &&& n.dep_keys@[i] < self.size()
        &&& self.node(n.dep_keys@[i] as int).dependents@.contains(key as usize)
    }

    /// What holds of every node, whatever the state of its dependencies.
    pub open(crate) spec fn node_base(&self, key: int) -> bool {
        let n = self.node(key);
        &&& n.dep_keys@.len() == n.dep_values@.len()
        &&& forall|i: int| 0 <= i < n.dependents@.len() ==> #[trigger] n.dependents@[i] < self.size()
        &&& n.rank@ < self.clock@
        &&& n.kind is Leaf ==> n.state is Clean
        &&& (n.state is Clean || n.state is MaybeDirty) ==> !(n.kind is Unknown)
        &&& n.state is MaybeDirty ==> n.kind is Derived
        &&& n.state is Clean ==> n.until is None
        &&& n.state is MaybeDirty ==> n.until is Some
        &&& n.kind is Derived ==> replays(self.registry, key as usize, n.dep_keys@, n.dep_values@, n.value)
        &&& n.kind is Derived ==> n.dep_keys@.len() <= self.read_limit
        &&& n.kind is Derived ==> forall|i: int|
            0 <= i < n.dep_keys@.len() ==> #[trigger] self.dep_linked(key, i)
    }

    /// A clean derived node has clean dependencies with the recorded values.
    pub open(crate) spec fn node_wf(&self, key: int) -> bool {
        let n = self.node(key);
        &&& self.node_base(key)
        &&& n.kind is Derived && n.state is Clean ==> forall|i: int|
            0 <= i < n.dep_keys@.len() ==> #[trigger] self.dep_current(key, i)
    }

    /// Like `node_wf`, but nothing is asked of the dependencies in `pending`.
    pub open(crate) spec fn node_wf_but(&self, key: int, pending: Set<int>) -> bool {
        let n = self.node(key);
        &&& self.node_base(key)
        &&& n.kind is Derived && n.state is Clean ==> forall|i: int|
            0 <= i < n.dep_keys@.len() ==> pending.contains(n.dep_keys@[i] as int)
                || #[trigger] self.dep_current(key, i)
    }

    /// The invariant of the store while the dependents of the keys in
    /// `pending` are still to be marked.
    pub open(crate) spec fn wf_but(&self, pending: Set<int>) -> bool {
        &&& self.chain@.len() == 0
        &&& forall|k: int| 0 <= k < self.size() ==> #[trigger] self.node_wf_but(k, pending)
        &&& forall|k: int| 0 <= k < self.size() ==> !(#[trigger] self.node(k).state is InProgress)
    }

    pub open(crate) spec fn chain_wf(&self) -> bool {
        &&& self.chain@.no_duplicates()
        &&& forall|i: int|
            0 <= i < self.chain@.len() ==> self.in_progress(#[trigger] self.chain@[i] as int)
        &&& forall|k: Key| #[trigger] self.in_progress(k as int) ==> self.chain@.contains(k)
    }

    /// The invariant of the store while keys are under evaluation.
    pub open(crate) spec fn inner_wf(&self) -> bool {
        &&& self.chain_wf()
        &&& forall|k: int| 0 <= k < self.size() ==> #[trigger] self.node_wf(k)
    }

    /// A failure is of the current version or an earlier one, and a key that
    /// failed at the current version has no value.
    pub open(crate) spec fn failure_ok(&self, key: int) -> bool {
        self.node(key).state is Failed ==> {
            &&& self.node(key).computed_at.0 <= self.version()
            &&& self.node(key).computed_at.0 == self.version() ==> self.no_value(key as usize)
        }
    }

    pub open(crate) spec fn failures_wf(&self) -> bool {
        forall|k: int| 0 <= k < self.size() ==> #[trigger] self.failure_ok(k)
    }

    /// What the `j`-th key under evaluation has read are the values of the
    /// keys it asked for, and it now asks for the next key of the chain.
    pub open(crate) spec fn frame_ok(&self, j: int) -> bool {
        &&& on_path(self.world(), self.chain@[j], self.frames@[j])
        &&& j + 1 < self.chain@.len() ==> {
            &&& self.registry.step_spec(self.chain@[j], self.frames@[j]) == Step::Need(
                self.chain@[j + 1],
            )
            &&& self.frames@[j].len() < self.read_limit
        }
    }

    pub open(crate) spec fn frames_wf(&self) -> bool {
        &&& self.frames@.len() == self.chain@.len()
        &&& forall|j: int| 0 <= j < self.chain@.len() ==> #[trigger] self.frame_ok(j)
    }

    /// The innermost key under evaluation, if there is one, asks for `key`.
    pub open(crate) spec fn awaiting(&self, key: Key) -> bool {
        self.chain@.len() > 0 ==> {
            &&& self.registry.step_spec(self.chain@.last(), self.frames@.last()) == Step::Need(key)
            &&& self.frames@.last().len() < self.read_limit
        }
    }

    /// The whole invariant of the store while keys are under evaluation.
    pub open(crate) spec fn deep_wf(&self) -> bool {
        &&& self.inner_wf()
        &&& self.failures_wf()
        &&& self.frames_wf()
    }

    /// No key is under evaluation, and the nodes are well formed.
    pub open(crate) spec fn calm(&self) -> bool {
        &&& self.inner_wf()
        &&& self.chain@.len() == 0
    }

    /// The invariant of the store between queries.
    pub open(crate) spec fn wf(&self) -> bool {
        &&& self.deep_wf()
        &&& self.chain@.len() == 0
    }

    /// Whether two stores differ at most in their nodes.
    pub open(crate) spec fn same_frame(&self, other: &Self) -> bool {
        &&& self.registry == other.registry
        &&& self.ledger == other.ledger
        &&& self.chain == other.chain
        &&& self.read_limit == other.read_limit
        &&& self.stats == other.stats
        &&& self.clock == other.clock
        &&& self.frames == other.frames
        &&& self.size() == other.size()
    }

    /// What an evaluation may do to the store: settled and in-progress nodes
    /// stay as they are, no key changes its kind but from unknown to derived,
    /// and edges and counters only grow.
    pub open(crate) spec fn evolves(&self, later: &Self) -> bool {
        &&& later.size() == self.size()
        &&& later.version() == self.version()
        &&& later.registry == self.registry
        &&& later.read_limit == self.read_limit
        &&& self.clock@ <= later.clock@
        &&& self.stats.executed <= later.stats.executed
        &&& forall|k: int| #[trigger]
            self.pinned(k) ==> self.node(k).same_core(&later.node(k)) && later.runs_of(k)
                == self.runs_of(k)
        &&& forall|k: int| 0 <= k < self.size() ==> #[trigger] self.ran_at_most_once(later, k)
        &&& forall|k: int|
            0 <= k < self.size() ==> (#[trigger] later.node(k).kind is Leaf ==> self.node(
                k,
            ).kind is Leaf)
        &&& forall|k: int|
            0 <= k < self.size() ==> (self.node(k).kind is Derived ==> #[trigger] later.node(
                k,
            ).kind is Derived)
        &&& forall|k: int, x: Key|
            0 <= k < self.size() && self.node(k).dependents@.contains(x) ==> #[trigger] later.node(
                k,
            ).dependents@.contains(x)
    }

    pub proof fn lemma_evolves_transitive(&self, middle: &Self, later: &Self)
        requires
            self.evolves(middle),
            middle.evolves(later),
        ensures
            self.evolves(later),
    {
        assert forall|k: int| #[trigger] self.pinned(k) implies self.node(k).same_core(
            &later.node(k),
        ) && later.runs_of(k) == self.runs_of(k) by {
            assert(self.node(k).same_core(&middle.node(k)));
            assert(middle.pinned(k));
        }
        assert forall|k: int| 0 <= k < self.size() implies #[trigger] self.ran_at_most_once(
            later,
            k,
        ) by {
            assert(self.ran_at_most_once(middle, k));
            assert(middle.ran_at_most_once(later, k));
            if middle.settled(k) {
                assert(middle.pinned(k));
                assert(middle.node(k).same_core(&later.node(k)));
            }
        }
    }
}

/// `count` and one more, as far as the counter goes.
pub open spec fn bumped(count: u64) -> u64 {
    if count < u64::MAX {
        (count + 1) as u64
    } else {
        count
    }
}

/// Computes `bumped`.
pub fn bump(count: u64) -> (next: u64)
    ensures
        next == bumped(count),
{
    if count < u64::MAX {
        count + 1
    } else {
        count
    }
}

impl<'a, R: Registry> DiceComputations<'a, R> {
    /// A store of `key_count` vacant nodes at version 0, in which a single
    /// evaluation may read up to `read_limit` dependencies.
    pub fn new(registry: &'a R, key_count: usize, read_limit: usize) -> (store: Self)
        ensures
            store.wf(),
            store.size() == key_count,
            store.version() == 0,
            store.registry() == registry,
            store.read_limit() == read_limit,
            store.stats().executed == 0,
            store.stats().early_cutoff == 0,
            store.stats().cached == 0,
            forall|k: int| !store.settled(k) && !store.is_leaf(k) && !store.is_derived(k),
    {
        let mut nodes: Vec<ComputationNode> = Vec::new();
        while nodes.len() < key_count
            invariant
                nodes@.len() <= key_count,
                forall|k: int|
                    0 <= k < nodes@.len() ==> {
                        let n = #[trigger] nodes@[k];
                        &&& n.kind is Unknown
                        &&& n.state is Vacant
                        &&& n.dep_keys@.len() == 0
                        &&& n.dep_values@.len() == 0
                        &&& n.dependents@.len() == 0
                        &&& n.rank@ == 0
                    },
            decreases key_count - nodes@.len(),
        {
            nodes.push(ComputationNode::vacant());
        }
        let store = DiceComputations {
            registry,
            ledger: VersionLedger::new(),
            nodes,
            chain: Vec::new(),
            read_limit,
            stats: EvaluationStats { executed: 0, early_cutoff: 0, cached: 0 },
            clock: Ghost(1),
            frames: Ghost(Seq::empty()),
        };
        proof {
            assert forall|k: int| 0 <= k < store.size() implies #[trigger] store.node_wf(k) by {
                assert(store.nodes@[k].kind is Unknown);
            }
            assert forall|k: int| 0 <= k < store.size() implies #[trigger] store.failure_ok(k) by {
                assert(store.nodes@[k].state is Vacant);
            }
            assert forall|k: int| !store.settled(k) && !store.is_leaf(k) && !store.is_derived(
                k,
            ) by {
                if 0 <= k < store.size() {
                    assert(store.nodes@[k].kind is Unknown);
                }
            }
        }
        store
    }

    /// The version that the store holds.
    pub fn get_version(&self) -> (v: VersionNumber)
        ensures
            v.0 == self.version(),
    {
        self.ledger.current()
    }

    /// The number of keys.
    pub fn key_count(&self) -> (n: usize)
        ensures
            n == self.size(),
    {
        self.nodes.len()
    }

    /// Whether a further version can be published.
    pub fn has_next_version(&self) -> (b: bool)
        ensures
            b == (self.version() < u64::MAX),
    {
        self.ledger.has_next()
    }

    /// Whether the value of `key` has been computed by its function.
    pub fn has_dependencies(&self, key: Key) -> (b: bool)
        ensures
            b == self.is_derived(key as int),
    {
        if key >= self.nodes.len() {
            return false;
        }
        match &self.nodes[key].kind {
            NodeKind::Derived => true,
            _ => false,
        }
    }

    /// The counters of how queries were answered so far.
    pub fn evaluation_stats(&self) -> (s: EvaluationStats)
        ensures
            s == self.stats(),
    {
        self.stats
    }

    /// Records that `key` has read `dep`.
    pub(crate) fn add_dependent(&mut self, dep: Key, key: Key)
        requires
            dep < old(self).size(),
        ensures
            old(self).same_frame(final(self)),
            forall|k: int|
                0 <= k < old(self).size() && k != dep ==> final(self).node(k) == old(self).node(k),
            old(self).node(dep as int).same_core(&final(self).node(dep as int)),
            final(self).node(dep as int).runs == old(self).node(dep as int).runs,
            final(self).node(dep as int).dependents@.contains(key),
            forall|x: Key|
                final(self).node(dep as int).dependents@.contains(x) <==> (x == key
                    || old(self).node(dep as int).dependents@.contains(x)),
    {
        let mut found: bool = false;
        let mut i: usize = 0;
        while i < self.nodes[dep].dependents.len() && !found
            invariant
                *self == *old(self),
                dep < self.size(),
                i <= self.nodes@[dep as int].dependents@.len(),
                found ==> self.nodes@[dep as int].dependents@.contains(key),
                !found ==> forall|j: int| 0 <= j < i ==> self.nodes@[dep as int].dependents@[j] != key,
            decreases self.nodes@[dep as int].dependents@.len() - i + (if found { 0int } else { 1 }),
        {
            if self.nodes[dep].dependents[i] == key {
                found = true;
            } else {
                i = i + 1;
            }
        }
        if !found {
            self.nodes[dep].dependents.push(key);
            proof {
                let before = old(self).node(dep as int).dependents@;
                let after = self.node(dep as int).dependents@;
                assert(after == before.push(key));
                assert(after[before.len() as int] == key);
                assert forall|x: Key| after.contains(x) <==> (x == key || before.contains(x)) by {
                    if before.contains(x) {
                        let j = choose|j: int| 0 <= j < before.len() && before[j] == x;
                        assert(after[j] == x);
                    }
                }
            }
        }
    }
}

/// Distinct keys below `n` are at most `n` in number.
pub proof fn lemma_distinct_bounded(s: Seq<Key>, n: nat)
    requires
        s.no_duplicates(),
        forall|i: int| 0 <= i < s.len() ==> s[i] < n,
    ensures
        s.len() <= n,
    decreases n,
{
    if s.len() == 0 {
    } else if n == 0 {
        assert(s[0] < n);
    } else {
        if exists|i: int| 0 <= i < s.len() && s[i] == n - 1 {
            let i = choose|i: int| 0 <= i < s.len() && s[i] == n - 1;
            let t = s.remove(i);
            assert forall|j: int| 0 <= j < t.len() implies t[j] < n - 1 by {
                if j < i {
                    assert(t[j] == s[j]);
                } else {
                    assert(t[j] == s[j + 1]);
                }
            }
            assert(t.no_duplicates()) by {
                assert forall|a: int, b: int|
                    0 <= a < t.len() && 0 <= b < t.len() && a != b implies t[a] != t[b] by {
                    let a2 = if a < i { a } else { a + 1 };
                    let b2 = if b < i { b } else { b + 1 };
                    assert(t[a] == s[a2]);
                    assert(t[b] == s[b2]);
                }
            }
            lemma_distinct_bounded(t, (n - 1) as nat);
        } else {
            lemma_distinct_bounded(s, (n - 1) as nat);
        }
    }
}

} // verus!
