//! The evaluation engine: answers a query from the node store, re-validating
//! or re-running evaluation functions only where an input may have changed.

use vstd::prelude::*;
use crate::error::{copy_keys, result_view, DiceError, ErrorView};
use crate::registry::{replays, Key, Registry, Step, Value};
use crate::semantics::{
    eval, eval_from, has_value, lemma_path, lemma_stuck_has_no_value, on_path, stuck,
};
use crate::store::{bump, bumped, lemma_distinct_bounded, DiceComputations, NodeKind, NodeState};

verus! {

impl<'a, R: Registry> DiceComputations<'a, R> {
    /// `key` is the innermost key under evaluation.
    pub open(crate) spec fn evaluating(&self, key: Key) -> bool {
        &&& self.inner_wf()
        &&& key < self.size()
        &&& self.chain@.len() > 0
        &&& self.chain@.last() == key
    }

    /// Like `evolves`, but the node of `key` may change.
    pub open(crate) spec fn evolves_apart(&self, later: &Self, key: Key) -> bool {
        &&& later.size() == self.size()
        &&& later.version() == self.version()
        &&& later.registry == self.registry
        &&& later.read_limit == self.read_limit
        &&& self.clock@ <= later.clock@
        &&& self.stats.executed <= later.stats.executed
        &&& forall|k: int| #[trigger]
            self.pinned(k) && k != key ==> self.node(k).same_core(&later.node(k))
                && later.runs_of(k) == self.runs_of(k)
        &&& forall|k: int| 0 <= k < self.size() ==> #[trigger] self.ran_at_most_once(later, k)
        &&& forall|k: int|
            0 <= k < self.size() ==> (#[trigger] later.node(k).kind is Leaf ==> self.node(
                k,
            ).kind is Leaf)
        &&& forall|k: int|
            0 <= k < self.size() ==> (self.node(k).kind is Derived ==> #[trigger] later.node(
                k,
            ).kind is Derived)
        &&& forall|k: int, x: Key|
            0 <= k < self.size() && self.node(k).dependents@.contains(x) ==> #[trigger] later.node(
                k,
            ).dependents@.contains(x)
    }

    pub(crate) proof fn lemma_evolves_then_apart(&self, middle: &Self, later: &Self, key: Key)
        requires
            self.evolves(middle),
            middle.evolves_apart(later, key),
            !self.pinned(key as int),
            middle.in_progress(key as int),
        ensures
            self.evolves(later),
    {
        assert forall|k: int| #[trigger] self.pinned(k) implies self.node(k).same_core(
            &later.node(k),
        ) && later.runs_of(k) == self.runs_of(k) by {
            assert(self.node(k).same_core(&middle.node(k)));
            assert(middle.pinned(k));
        }
        assert forall|k: int| 0 <= k < self.size() implies #[trigger] self.ran_at_most_once(
            later,
            k,
        ) by {
            assert(self.ran_at_most_once(middle, k));
            assert(middle.ran_at_most_once(later, k));
            if k != key && middle.settled(k) {
                assert(middle.pinned(k));
                assert(middle.node(k).same_core(&later.node(k)));
            }
        }
    }

    /// The chain as it is without its innermost key.
    pub open(crate) spec fn outer_chain(&self) -> Seq<Key> {
        self.chain@.drop_last()
    }

    /// Ends the evaluation of `key` with a value and the dependencies it read.
    pub(crate) fn settle_value(&mut self, key: Key, value: Value, keys: Vec<Key>, values: Vec<Value>)
        requires
            old(self).evaluating(key),
            !(old(self).node(key as int).kind is Leaf),
            old(self).failures_wf(),
            old(self).frames_wf(),
            replays(old(self).registry, key, keys@, values@, value),
            keys@.len() <= old(self).read_limit,
            forall|i: int|
                0 <= i < keys@.len() ==> #[trigger] keys@[i] < old(self).size() && old(self).node(
                    keys@[i] as int,
                ).state is Clean && old(self).node(keys@[i] as int).value == values@[i],
        ensures
            final(self).inner_wf(),
            final(self).chain@ == old(self).outer_chain(),
            old(self).evolves_apart(final(self), key),
            final(self).stats == old(self).stats,
            final(self).is_clean(key as int),
            final(self).begins_now(key as int),
            final(self).runs_of(key as int) == old(self).runs_of(key as int) + 1,
            final(self).node(key as int).value == value,
            final(self).node(key as int).kind is Derived,
            final(self).failures_wf(),
            final(self).frames_wf(),
            final(self).frames@ == old(self).frames@.drop_last(),
            final(self).world() == old(self).world(),
    {
        let mut i: usize = 0;
        while i < keys.len()
            invariant
                i <= keys@.len(),
                old(self).same_frame(self),
                forall|k: int|
                    0 <= k < self.size() ==> #[trigger] old(self).node(k).same_core(&self.node(k)),
                forall|k: int|
                    0 <= k < self.size() ==> (#[trigger] self.node(k)).runs == old(self).node(
                        k,
                    ).runs,
                forall|k: int, x: Key|
                    0 <= k < self.size() ==> (#[trigger] self.node(k).dependents@.contains(x) <==> (
                    old(self).node(k).dependents@.contains(x) || (x == key && exists|j: int|
                        0 <= j < i && keys@[j] == k))),
                forall|j: int| 0 <= j < keys@.len() ==> #[trigger] keys@[j] < self.size(),
            decreases keys@.len() - i,
        {
            let ghost before = *self;
            let dep = keys[i];
            self.add_dependent(dep, key);
            proof {
                assert forall|k: int| 0 <= k < self.size() implies #[trigger] old(self).node(
                    k,
                ).same_core(&self.node(k)) by {
                    assert(old(self).node(k).same_core(&before.node(k)));
                }
                assert forall|k: int, x: Key| 0 <= k < self.size() implies (
                #[trigger] self.node(k).dependents@.contains(x) <==> (old(self).node(
                    k,
                ).dependents@.contains(x) || (x == key && exists|j: int|
                    0 <= j < i + 1 && keys@[j] == k))) by {
                    if k == dep {
                        assert(keys@[i as int] == k);
                        assert(before.node(k).dependents@.contains(x) <==> (old(self).node(
                            k,
                        ).dependents@.contains(x) || (x == key && exists|j: int|
                            0 <= j < i && keys@[j] == k)));
                    } else {
                        assert(self.node(k) == before.node(k));
                        assert(before.node(k).dependents@.contains(x) <==> (old(self).node(
                            k,
                        ).dependents@.contains(x) || (x == key && exists|j: int|
                            0 <= j < i && keys@[j] == k)));
                        if x == key && (exists|j: int| 0 <= j < i + 1 && keys@[j] == k) {
                            let j = choose|j: int| 0 <= j < i + 1 && keys@[j] == k;
                            assert(j < i);
                        }
                    }
                }
            }
            i = i + 1;
        }
        let version = self.ledger.current();
        let ghost linked = *self;
        let ghost rank = self.clock@;
        self.nodes[key].kind = NodeKind::Derived;
        self.nodes[key].state = NodeState::Clean;
        self.nodes[key].value = value;
        self.nodes[key].computed_at = version;
        self.nodes[key].since = version;
        self.nodes[key].until = None;
        self.nodes[key].dep_keys = keys;
        self.nodes[key].dep_values = values;
        self.nodes[key].rank = Ghost(rank);
        let ghost runs = self.nodes[key as int].runs@;
        self.nodes[key].runs = Ghost(runs + 1);
        self.chain.pop();
        proof {
            self.clock@ = rank + 1;
            self.frames@ = self.frames@.drop_last();
            let o = *old(self);
            let f = *self;
            assert(f.chain@ == o.chain@.drop_last());
            assert(o.chain@ == f.chain@.push(key));
            assert forall|k: int| 0 <= k < f.size() implies o.node(k).same_core(
                &#[trigger] linked.node(k),
            ) && f.node(k).dependents == linked.node(k).dependents && (k != key ==> linked.node(k)
                == f.node(k)) && linked.node(k).runs == o.node(k).runs by {
                assert(o.node(k).same_core(&linked.node(k)));
            }
            assert(f.chain_wf()) by {
                assert forall|i: int| 0 <= i < f.chain@.len() implies f.in_progress(
                    #[trigger] f.chain@[i] as int,
                ) by {
                    let c = o.chain@[i] as int;
                    assert(f.chain@[i] == o.chain@[i]);
                    assert(o.in_progress(c));
                    assert(o.chain@[i] != o.chain@[o.chain@.len() - 1]);
                    assert(o.node(c).same_core(&linked.node(c)));
                }
                assert forall|k: Key| #[trigger] f.in_progress(k as int) implies f.chain@.contains(
                    k,
                ) by {
                    assert(o.node(k as int).same_core(&linked.node(k as int)));
                    assert(k != key);
                    assert(o.in_progress(k as int));
                    assert(o.chain@.contains(k));
                    let j = choose|j: int| 0 <= j < o.chain@.len() && o.chain@[j] == k;
                    assert(j != o.chain@.len() - 1);
                    assert(f.chain@[j] == k);
                }
            }
            assert forall|k: int| 0 <= k < f.size() implies #[trigger] f.node_wf(k) by {
                assert(o.node_wf(k));
                assert(o.node(k).same_core(&linked.node(k)));
                let n = f.node(k);
                if k == key {
                    assert forall|i: int| 0 <= i < n.dep_keys@.len() implies #[trigger] f.dep_linked(
                        k,
                        i,
                    ) by {
                        assert(keys@[i] < f.size());
                        assert(f.node(keys@[i] as int).dependents@.contains(key));
                    }
                    assert forall|i: int| 0 <= i < n.dep_keys@.len() implies #[trigger] f.dep_current(
                        k,
                        i,
                    ) by {
                        let d = keys@[i] as int;
                        assert(o.node(d).state is Clean);
                        assert(d != key);
                        assert(o.node_wf(d));
                        assert(o.node(d).same_core(&linked.node(d)));
                    }
                    assert forall|i: int| 0 <= i < n.dependents@.len() implies #[trigger] n.dependents@[i]
                        < f.size() by {
                        assert(n.dependents@.contains(n.dependents@[i]));
                        let x = n.dependents@[i];
                        if o.node(k).dependents@.contains(x) {
                            let j = choose|j: int|
                                0 <= j < o.node(k).dependents@.len() && o.node(k).dependents@[j]
                                    == x;
                            assert(o.node(k).dependents@[j] < o.size());
                        }
                    }
                } else {
                    assert forall|i: int| 0 <= i < n.dependents@.len() implies #[trigger] n.dependents@[i]
                        < f.size() by {
                        assert(n.dependents@.contains(n.dependents@[i]));
                        let x = n.dependents@[i];
                        if o.node(k).dependents@.contains(x) {
                            let j = choose|j: int|
                                0 <= j < o.node(k).dependents@.len() && o.node(k).dependents@[j]
                                    == x;
                            assert(o.node(k).dependents@[j] < o.size());
                        }
                    }
                    if n.kind is Derived {
                        assert forall|i: int| 0 <= i < n.dep_keys@.len() implies #[trigger] f.dep_linked(
                            k,
                            i,
                        ) by {
                            assert(o.dep_linked(k, i));
                        }
                        if n.state is Clean {
                            assert forall|i: int| 0 <= i < n.dep_keys@.len() implies #[trigger] f.dep_current(
                                k,
                                i,
                            ) by {
                                assert(o.dep_current(k, i));
                                assert(o.dep_linked(k, i));
                                let d = n.dep_keys@[i] as int;
                                assert(d != key);
                                assert(o.node(d).same_core(&linked.node(d)));
                            }
                        }
                    }
                }
            }
            assert forall|k: int| 0 <= k < o.size() implies (#[trigger] f.node(k).kind is Leaf
                <==> o.node(k).kind is Leaf) && (o.node(k).kind is Leaf ==> f.node(k).value
                == o.node(k).value) by {
                assert(o.node(k).same_core(&linked.node(k)));
            }
            o.lemma_world_kept(&f);
            assert forall|k: int| 0 <= k < o.size() && k != key && #[trigger] f.node(
                k,
            ).state is Failed implies o.node(k).state is Failed && f.node(k).computed_at == o.node(
                k,
            ).computed_at by {
                assert(o.node(k).same_core(&linked.node(k)));
            }
            o.lemma_pop_deep(&f, key);
        }
    }

    /// The chain stays well formed when its innermost key leaves it.
    pub(crate) proof fn lemma_pop_chain(&self, later: &Self, key: Key)
        requires
            self.evaluating(key),
            later.size() == self.size(),
            later.chain@ == self.outer_chain(),
            !(later.node(key as int).state is InProgress),
            forall|k: int|
                0 <= k < self.size() && k != key ==> (#[trigger] later.node(k).state is InProgress
                    <==> self.node(k).state is InProgress),
        ensures
            later.chain_wf(),
    {
        let o = *self;
        let f = *later;
        assert(o.chain@ == f.chain@.push(key));
        assert forall|i: int| 0 <= i < f.chain@.len() implies f.in_progress(
            #[trigger] f.chain@[i] as int,
        ) by {
            assert(f.chain@[i] == o.chain@[i]);
            assert(o.in_progress(o.chain@[i] as int));
            assert(o.chain@[i] != o.chain@[o.chain@.len() - 1]);
        }
        assert forall|k: Key| #[trigger] f.in_progress(k as int) implies f.chain@.contains(k) by {
            assert(k != key);
            assert(o.in_progress(k as int));
            assert(o.chain@.contains(k));
            let j = choose|j: int| 0 <= j < o.chain@.len() && o.chain@[j] == k;
            assert(j != o.chain@.len() - 1);
            assert(f.chain@[j] == k);
        }
    }

    /// The other nodes stay well formed when the node of the innermost key
    /// under evaluation changes.
    pub(crate) proof fn lemma_others_wf(&self, later: &Self, key: Key)
        requires
            self.evaluating(key),
            later.size() == self.size(),
            later.registry == self.registry,
            later.read_limit == self.read_limit,
            self.clock@ <= later.clock@,
            forall|k: int| 0 <= k < self.size() && k != key ==> #[trigger] later.node(k) == self.node(k),
            later.node(key as int).dependents == self.node(key as int).dependents,
        ensures
            forall|k: int| 0 <= k < later.size() && k != key ==> #[trigger] later.node_wf(k),
    {
        let o = *self;
        let f = *later;
        assert(o.in_progress(key as int)) by {
            assert(o.chain@[o.chain@.len() - 1] == key);
        }
        assert forall|k: int| 0 <= k < f.size() && k != key implies #[trigger] f.node_wf(k) by {
            assert(o.node_wf(k));
            assert(f.node(k) == o.node(k));
            let n = f.node(k);
            if n.kind is Derived {
                assert forall|i: int| 0 <= i < n.dep_keys@.len() implies #[trigger] f.dep_linked(
                    k,
                    i,
                ) by {
                    assert(o.dep_linked(k, i));
                    let d = n.dep_keys@[i] as int;
                    if d != key {
                        assert(f.node(d) == o.node(d));
                    }
                }
                if n.state is Clean {
                    assert forall|i: int| 0 <= i < n.dep_keys@.len() implies #[trigger] f.dep_current(
                        k,
                        i,
                    ) by {
                        assert(o.dep_current(k, i));
                        assert(o.dep_linked(k, i));
                        let d = n.dep_keys@[i] as int;
                        assert(d != key);
                        assert(f.node(d) == o.node(d));
                    }
                }
            }
        }
    }

    /// Ends the evaluation of `key` with a failure.
    pub(crate) fn settle_failure(&mut self, key: Key, error: DiceError)
        requires
            old(self).evaluating(key),
            !(old(self).node(key as int).kind is Leaf),
            old(self).failures_wf(),
            old(self).frames_wf(),
            old(self).no_value(key),
        ensures
            final(self).failures_wf(),
            final(self).frames_wf(),
            final(self).frames@ == old(self).frames@.drop_last(),
            final(self).world() == old(self).world(),
            final(self).inner_wf(),
            final(self).chain@ == old(self).outer_chain(),
            old(self).evolves_apart(final(self), key),
            final(self).stats == old(self).stats,
            final(self).is_failed(key as int),
            final(self).runs_of(key as int) == old(self).runs_of(key as int) + 1,
            final(self).outcome(key as int) == Err::<Value, ErrorView>(error@),
            final(self).node(key as int).kind == old(self).node(key as int).kind,
    {
        let version = self.ledger.current();
        self.nodes[key].state = NodeState::Failed { error };
        self.nodes[key].computed_at = version;
        let ghost runs = self.nodes[key as int].runs@;
        self.nodes[key].runs = Ghost(runs + 1);
        self.chain.pop();
        proof {
            self.frames@ = self.frames@.drop_last();
            let o = *old(self);
            let f = *self;
            o.lemma_pop_chain(&f, key);
            o.lemma_others_wf(&f, key);
            o.lemma_world_kept(&f);
            o.lemma_pop_deep(&f, key);
            assert(o.node_wf(key as int));
            assert(f.node_wf(key as int)) by {
                let n = f.node(key as int);
                if n.kind is Derived {
                    assert forall|i: int| 0 <= i < n.dep_keys@.len() implies #[trigger] f.dep_linked(
                        key as int,
                        i,
                    ) by {
                        assert(o.dep_linked(key as int, i));
                        let d = n.dep_keys@[i] as int;
                        if d != key {
                            assert(f.node(d) == o.node(d));
                        }
                    }
                }
            }
        }
    }

    /// Ends the evaluation of `key` by keeping its cached value, after its
    /// recorded dependencies were found to have their recorded values.
    pub(crate) fn settle_unchanged(&mut self, key: Key)
        requires
            old(self).evaluating(key),
            old(self).failures_wf(),
            old(self).frames_wf(),
            old(self).node(key as int).kind is Derived,
            forall|i: int|
                0 <= i < old(self).node(key as int).dep_keys@.len() ==> old(self).node(
                    #[trigger] old(self).node(key as int).dep_keys@[i] as int,
                ).state is Clean && old(self).node(
                    old(self).node(key as int).dep_keys@[i] as int,
                ).value == old(self).node(key as int).dep_values@[i],
        ensures
            final(self).inner_wf(),
            final(self).chain@ == old(self).outer_chain(),
            old(self).evolves_apart(final(self), key),
            final(self).stats.executed == old(self).stats.executed,
            final(self).stats.cached == old(self).stats.cached,
            final(self).stats.early_cutoff == bumped(old(self).stats.early_cutoff),
            final(self).is_clean(key as int),
            final(self).begins_now(key as int),
            final(self).runs_of(key as int) == old(self).runs_of(key as int),
            final(self).node(key as int).value == old(self).node(key as int).value,
            final(self).node(key as int).kind is Derived,
            final(self).failures_wf(),
            final(self).frames_wf(),
            final(self).frames@ == old(self).frames@.drop_last(),
            final(self).world() == old(self).world(),
    {
        let version = self.ledger.current();
        let ghost rank = self.clock@;
        self.nodes[key].state = NodeState::Clean;
        self.nodes[key].since = version;
        self.nodes[key].until = None;
        self.nodes[key].rank = Ghost(rank);
        self.stats.early_cutoff = bump(self.stats.early_cutoff);
        self.chain.pop();
        proof {
            self.clock@ = rank + 1;
            self.frames@ = self.frames@.drop_last();
            let o = *old(self);
            let f = *self;
            o.lemma_pop_chain(&f, key);
            o.lemma_others_wf(&f, key);
            o.lemma_world_kept(&f);
            o.lemma_pop_deep(&f, key);
            assert(o.node_wf(key as int));
            assert(f.node_wf(key as int)) by {
                let n = f.node(key as int);
                assert forall|i: int| 0 <= i < n.dep_keys@.len() implies #[trigger] f.dep_linked(
                    key as int,
                    i,
                ) by {
                    assert(o.dep_linked(key as int, i));
                    let d = n.dep_keys@[i] as int;
                    if d != key {
                        assert(f.node(d) == o.node(d));
                    }
                }
                assert forall|i: int| 0 <= i < n.dep_keys@.len() implies #[trigger] f.dep_current(
                    key as int,
                    i,
                ) by {
                    assert(o.dep_linked(key as int, i));
                    let d = n.dep_keys@[i] as int;
                    assert(o.node(d).state is Clean);
                    assert(d != key);
                    assert(f.node(d) == o.node(d));
                    assert(o.node_wf(d));
                }
            }
        }
    }

    /// Whether the value of `key` is known correct from the current version on.
    pub open(crate) spec fn begins_now(&self, key: int) -> bool {
        &&& self.node(key).since.0 == self.version()
        &&& self.node(key).until is None
    }

    /// Whether `key` has neither a value nor a failure of the current version,
    /// and is not under evaluation.
    pub open(crate) spec fn untried(&self, key: int) -> bool {
        &&& 0 <= key < self.size()
        &&& !self.pinned(key)
        &&& !self.is_maybe_dirty(key)
    }

    /// The keys that close a cycle at the start of the evaluation of `key`,
    /// the innermost key under evaluation: the key that it reads first, if
    /// that is under evaluation; else that key and the key that it reads
    /// first in its turn, if that one is.
    pub open(crate) spec fn first_cycle(&self, key: Key) -> Option<Seq<Key>> {
        match self.registry.step_spec(key, Seq::empty()) {
            Step::Need(dep) => if self.read_limit == 0 || dep >= self.size() {
                None
            } else if self.in_progress(dep as int) {
                Some(seq![dep])
            } else if self.untried(dep as int) {
                match self.registry.step_spec(dep, Seq::empty()) {
                    Step::Need(next) => if next == dep || self.in_progress(next as int) {
                        Some(seq![dep, next])
                    } else {
                        None
                    },
                    _ => None,
                }
            } else {
                None
            },
            _ => None,
        }
    }

    /// The keys of the cycle that the first reads of `key` close, where they
    /// do: `key`, the key it reads first, and, where that is not under
    /// evaluation, the key which that one reads first.
    pub open(crate) spec fn entry_cycle(&self, key: Key) -> Option<Seq<Key>> {
        match self.registry.step_spec(key, Seq::empty()) {
            Step::Need(dep) => if self.read_limit == 0 || dep >= self.size() {
                None
            } else if dep == key || self.in_progress(dep as int) {
                Some(seq![key, dep])
            } else if self.untried(dep as int) {
                match self.registry.step_spec(dep, Seq::empty()) {
                    Step::Need(next) => if next == dep || next == key || self.in_progress(
                        next as int,
                    ) {
                        Some(seq![key, dep, next])
                    } else {
                        None
                    },
                    _ => None,
                }
            } else {
                None
            },
            _ => None,
        }
    }

    /// The recorded dependencies of `key` up to `count` are clean and have
    /// their recorded values.
    pub open(crate) spec fn deps_unchanged(&self, key: Key, count: int) -> bool {
        forall|i: int|
            0 <= i < count ==> self.node(
                #[trigger] self.node(key as int).dep_keys@[i] as int,
            ).state is Clean && self.node(self.node(key as int).dep_keys@[i] as int).value
                == self.node(key as int).dep_values@[i]
    }

    /// The keys are clean and have the values.
    pub open(crate) spec fn reads_current(&self, keys: Seq<Key>, values: Seq<Value>) -> bool {
        &&& keys.len() == values.len()
        &&& forall|i: int|
            0 <= i < keys.len() ==> #[trigger] keys[i] < self.size() && self.node(
                keys[i] as int,
            ).state is Clean && self.node(keys[i] as int).value == values[i]
    }

    /// Asks for the recorded dependencies of `key` in turn, and says whether
    /// all of them have their recorded values.
    pub(crate) fn revalidate(&mut self, key: Key) -> (valid: bool)
        requires
            old(self).evaluating(key),
            old(self).failures_wf(),
            old(self).frames_wf(),
            old(self).node(key as int).kind is Derived,
        ensures
            final(self).evaluating(key),
            final(self).failures_wf(),
            final(self).frames_wf(),
            final(self).frames@.drop_last() == old(self).frames@.drop_last(),
            final(self).world() == old(self).world(),
            old(self).evolves(final(self)),
            final(self).chain@ == old(self).chain@,
            valid ==> final(self).deps_unchanged(
                key,
                final(self).node(key as int).dep_keys@.len() as int,
            ),
            old(self).deps_unchanged(key, old(self).node(key as int).dep_keys@.len() as int)
                ==> valid && final(self).same_nodes(old(self)) && final(self).stats.executed
                == old(self).stats.executed && final(self).stats.early_cutoff == old(self).stats.early_cutoff,
        decreases old(self).size() - old(self).chain@.len(), 1nat,
    {
        let count = self.nodes[key].dep_keys.len();
        let mut i: usize = 0;
        let mut valid: bool = true;
        proof {
            assert(old(self).in_progress(key as int)) by {
                assert(old(self).chain@[old(self).chain@.len() - 1] == key);
            }
        }
        while i < count && valid
            invariant
                self.inner_wf(),
                self.failures_wf(),
                self.frames_wf(),
                self.frames@.drop_last() == old(self).frames@.drop_last(),
                self.world() == old(self).world(),
                self.chain@.len() > 0,
                self.chain@.last() == key,
                old(self).evolves(self),
                old(self).in_progress(key as int),
                old(self).node(key as int).kind is Derived,
                self.chain@ == old(self).chain@,
                self.size() == old(self).size(),
                key < self.size(),
                i <= count,
                count == self.node(key as int).dep_keys@.len(),
                valid ==> self.deps_unchanged(key, i as int),
                old(self).deps_unchanged(key, count as int) ==> valid && self.same_nodes(old(self))
                    && self.stats.executed == old(self).stats.executed && self.stats.early_cutoff
                    == old(self).stats.early_cutoff,
            decreases count - i + (if valid { 1int } else { 0 }),
        {
            let ghost noted = *self;
            proof {
                assert(old(self).pinned(key as int));
                assert(old(self).node(key as int).same_core(&self.node(key as int)));
                assert(self.node_wf(key as int));
                assert(self.dep_linked(key as int, i as int));
                let n = self.node(key as int);
                let seen = n.dep_values@.take(i as int);
                assert forall|x: int| 0 <= x < seen.len() implies match #[trigger] self.registry.step_spec(
                    key,
                    seen.take(x),
                ) {
                    Step::Need(d) => has_value(self.world(), d, seen[x]),
                    _ => false,
                } by {
                    assert(seen.take(x) == n.dep_values@.take(x));
                    assert(self.registry.step_spec(key, n.dep_values@.take(x)) == Step::Need(
                        n.dep_keys@[x],
                    ));
                    assert(self.dep_linked(key as int, x));
                    assert(self.node(n.dep_keys@[x] as int).state is Clean);
                    self.lemma_clean_value(n.dep_keys@[x]);
                }
                self.frames@ = self.frames@.update(self.chain@.len() - 1, seen);
                noted.lemma_set_frame(self, key, seen);
                old(self).lemma_evolves_transitive(&noted, self);
                assert(self.registry.step_spec(key, seen) == Step::Need(n.dep_keys@[i as int]));
                assert(self.node_wf(key as int));
            }
            let ghost before = *self;
            let dep = self.nodes[key].dep_keys[i];
            let expected = self.nodes[key].dep_values[i];
            let r = self.resolve(dep);
            proof {
                old(self).lemma_evolves_transitive(&before, self);
                assert(before.pinned(key as int));
                assert(before.node(key as int).same_core(&self.node(key as int)));
            }
            match r {
                Ok(v) => {
                    if v == expected {
                        proof {
                            assert(!before.in_progress(dep as int));
                            assert forall|j: int| 0 <= j < i + 1 implies self.node(
                                #[trigger] self.node(key as int).dep_keys@[j] as int,
                            ).state is Clean && self.node(
                                self.node(key as int).dep_keys@[j] as int,
                            ).value == self.node(key as int).dep_values@[j] by {
                                if j < i {
                                    let d = before.node(key as int).dep_keys@[j] as int;
                                    assert(before.node(d).state is Clean);
                                    assert(before.dep_linked(key as int, j));
                                    assert(before.pinned(d));
                                    assert(before.node(d).same_core(&self.node(d)));
                                }
                            }
                        }
                        i = i + 1;
                    } else {
                        valid = false;
                    }
                },
                Err(_) => {
                    valid = false;
                },
            }
        }
        valid
    }

    /// Runs the evaluation function of `key`, asking for each dependency that
    /// it reads. Gives its result, and the keys and values that it read.
    pub(crate) fn run(&mut self, key: Key) -> (out: (Result<Value, DiceError>, Vec<Key>, Vec<Value>))
        requires
            old(self).evaluating(key),
            old(self).failures_wf(),
            old(self).frames_wf(),
        ensures
            final(self).evaluating(key),
            final(self).failures_wf(),
            final(self).frames_wf(),
            final(self).frames@.drop_last() == old(self).frames@.drop_last(),
            final(self).world() == old(self).world(),
            out.0 is Err ==> final(self).no_value(key),
            old(self).first_cycle(key) matches Some(tail) ==> result_view(out.0) == Err::<
                Value,
                ErrorView,
            >(ErrorView::Cycle { chain: old(self).chain@ + tail }),
            old(self).evolves(final(self)),
            final(self).chain@ == old(self).chain@,
            out.0 matches Ok(v) ==> replays(final(self).registry, key, out.1@, out.2@, v)
                && final(self).reads_current(out.1@, out.2@) && out.1@.len() <= final(self).read_limit,
        decreases old(self).size() - old(self).chain@.len(), 1nat,
    {
        self.stats.executed = bump(self.stats.executed);
        let mut keys: Vec<Key> = Vec::new();
        let mut values: Vec<Value> = Vec::new();
        let mut result: Option<Result<Value, DiceError>> = None;
        proof {
            self.lemma_same_nodes_wf(old(self));
            old(self).lemma_world_kept(self);
            old(self).lemma_failures_kept(self);
            assert forall|j: int| 0 <= j < self.chain@.len() implies #[trigger] self.frame_ok(j) by {
                assert(old(self).frame_ok(j));
            }
            assert(old(self).in_progress(key as int)) by {
                assert(old(self).chain@[old(self).chain@.len() - 1] == key);
            }
            assert(old(self).node_wf(key as int));
        }
        while result.is_none()
            invariant
                self.inner_wf(),
                self.failures_wf(),
                self.frames_wf(),
                self.frames@.drop_last() == old(self).frames@.drop_last(),
                self.world() == old(self).world(),
                self.chain@.len() > 0,
                self.chain@.last() == key,
                !self.inputs().dom().contains(key),
                on_path(self.world(), key, values@),
                result matches Some(Err(_)) ==> self.no_value(key),
                values@.len() == 0 && result is None ==> self.nodes@ == old(self).nodes@,
                values@.len() > 0 ==> old(self).first_cycle(key) is None,
                result matches Some(res) ==> (old(self).first_cycle(key) matches Some(tail)
                    ==> result_view(res) == Err::<Value, ErrorView>(
                    ErrorView::Cycle { chain: old(self).chain@ + tail },
                )),
                old(self).evolves(self),
                self.chain@ == old(self).chain@,
                self.size() == old(self).size(),
                self.registry == old(self).registry,
                key < self.size(),
                self.reads_current(keys@, values@),
                values@.len() <= self.read_limit,
                forall|i: int|
                    0 <= i < keys@.len() ==> #[trigger] self.registry.step_spec(
                        key,
                        values@.take(i),
                    ) == Step::Need(keys@[i]),
                result matches Some(Ok(v)) ==> self.registry.step_spec(key, values@) == Step::Done(
                    v,
                ),
            decreases self.read_limit - values@.len() + (if result is None { 1int } else { 0 }),
        {
            proof {
                if values@.len() == 0 {
                    assert(values@ == Seq::<Value>::empty());
                }
            }
            match self.registry.step(key, &values) {
                Step::Done(v) => {
                    result = Some(Ok(v));
                },
                Step::Fail(code) => {
                    proof {
                        assert(stuck(self.world(), key, values@));
                        lemma_stuck_has_no_value(self.world(), key, values@);
                    }
                    result = Some(Err(DiceError::Computation { key, code }));
                },
                Step::Need(dep) => {
                    if values.len() >= self.read_limit {
                        proof {
                            assert(stuck(self.world(), key, values@));
                            lemma_stuck_has_no_value(self.world(), key, values@);
                        }
                        result = Some(Err(DiceError::ReadLimit { key }));
                    } else if dep >= self.nodes.len() {
                        proof {
                            assert forall|depth: nat| eval_from(
                                self.world(),
                                key,
                                values@,
                                depth,
                            ) is None by {
                                assert(eval(self.world(), dep, depth) is None);
                            }
                            lemma_stuck_has_no_value(self.world(), key, values@);
                        }
                        result = Some(Err(DiceError::UnknownKey { key: dep }));
                    } else {
                        let ghost noted = *self;
                        proof {
                            self.frames@ = self.frames@.update(self.chain@.len() - 1, values@);
                            noted.lemma_set_frame(self, key, values@);
                            old(self).lemma_evolves_transitive(&noted, self);
                        }
                        let ghost before = *self;
                        let ghost seen = values@;
                        let ghost read = keys@;
                        proof {
                            if seen.len() == 0 {
                                assert(seen == Seq::<Value>::empty());
                                assert(before.in_progress(dep as int) == old(self).in_progress(
                                    dep as int,
                                ));
                                assert(before.untried(dep as int) == old(self).untried(dep as int));
                                if old(self).first_cycle(key) is Some {
                                    let tail = old(self).first_cycle(key)->Some_0;
                                    if old(self).in_progress(dep as int) {
                                        assert(old(self).chain@ + tail == old(self).chain@.push(
                                            dep,
                                        ));
                                    } else {
                                        let next = self.registry.step_spec(
                                            dep,
                                            Seq::empty(),
                                        )->Need_0;
                                        if next != dep {
                                            assert(before.in_progress(next as int) == old(self).in_progress(next as int));
                                        }
                                        assert(before.entry_cycle(dep) == Some(seq![dep, next]));
                                        assert(old(self).chain@ + tail == before.chain@ + seq![
                                            dep,
                                            next,
                                        ]);
                                    }
                                }
                            }
                        }
                        match self.resolve(dep) {
                            Ok(v) => {
                                keys.push(dep);
                                values.push(v);
                                proof {
                                    assert forall|x: int|
                                        0 <= x < values@.len() implies match #[trigger] self.registry.step_spec(
                                        key,
                                        values@.take(x),
                                    ) {
                                        Step::Need(d) => has_value(self.world(), d, values@[x]),
                                        _ => false,
                                    } by {
                                        if x < seen.len() {
                                            assert(values@.take(x) == seen.take(x));
                                        } else {
                                            assert(values@.take(x) == seen);
                                        }
                                    }
                                    old(self).lemma_evolves_transitive(&before, self);
                                    assert(!before.in_progress(dep as int));
                                    assert forall|i: int| 0 <= i < keys@.len() implies #[trigger] keys@[i]
                                        < self.size() && self.node(keys@[i] as int).state is Clean
                                        && self.node(keys@[i] as int).value == values@[i] by {
                                        if i < read.len() {
                                            let d = read[i] as int;
                                            assert(before.node(d).state is Clean);
                                            assert(before.pinned(d));
                                            assert(before.node(d).same_core(&self.node(d)));
                                        }
                                    }
                                    assert forall|i: int|
                                        0 <= i < keys@.len() implies #[trigger] self.registry.step_spec(
                                        key,
                                        values@.take(i),
                                    ) == Step::Need(keys@[i]) by {
                                        if i < read.len() {
                                            assert(values@.take(i) == seen.take(i));
                                        } else {
                                            assert(values@.take(i) == seen);
                                        }
                                    }
                                }
                            },
                            Err(e) => {
                                proof {
                                    assert forall|depth: nat| eval_from(
                                        self.world(),
                                        key,
                                        values@,
                                        depth,
                                    ) is None by {
                                        assert(eval(self.world(), dep, depth) is None);
                                    }
                                    lemma_stuck_has_no_value(self.world(), key, values@);
                                    old(self).lemma_evolves_transitive(&before, self);
                                    assert forall|i: int| 0 <= i < keys@.len() implies #[trigger] keys@[i]
                                        < self.size() && self.node(keys@[i] as int).state is Clean
                                        && self.node(keys@[i] as int).value == values@[i] by {
                                        let d = read[i] as int;
                                        assert(before.node(d).state is Clean);
                                        assert(before.pinned(d));
                                        assert(before.node(d).same_core(&self.node(d)));
                                    }
                                }
                                result = Some(Err(e));
                            },
                        }
                    }
                },
            }
        }
        (result.unwrap(), keys, values)
    }

    /// The result of `key` at the current version: from its node where that
    /// is settled, else by re-validating or running its function.
    pub(crate) fn resolve(&mut self, key: Key) -> (r: Result<Value, DiceError>)
        requires
            old(self).deep_wf(),
            key < old(self).size(),
            old(self).awaiting(key),
        ensures
            final(self).deep_wf(),
            final(self).frames@ == old(self).frames@,
            final(self).world() == old(self).world(),
            r matches Ok(v) ==> final(self).evaluates(key, v),
            r is Err ==> final(self).no_value(key),
            r is Ok && !old(self).is_clean(key as int) ==> final(self).begins_now(key as int),
            old(self).untried(key as int) ==> (old(self).entry_cycle(key) matches Some(cycle)
                ==> result_view(r) == Err::<Value, ErrorView>(
                ErrorView::Cycle { chain: old(self).chain@ + cycle },
            )),
            final(self).inner_wf(),
            old(self).evolves(final(self)),
            final(self).chain@ == old(self).chain@,
            old(self).in_progress(key as int) ==> result_view(r) == Err::<Value, ErrorView>(
                ErrorView::Cycle { chain: old(self).chain@.push(key) },
            ) && final(self).nodes@ == old(self).nodes@ && final(self).stats == old(self).stats,
            !old(self).in_progress(key as int) ==> {
                &&& final(self).settled(key as int)
                &&& final(self).outcome(key as int) == result_view(r)
            },
            old(self).settled(key as int) ==> {
                &&& final(self).nodes@ == old(self).nodes@
                &&& final(self).stats.executed == old(self).stats.executed
                &&& final(self).stats.early_cutoff == old(self).stats.early_cutoff
            },
            old(self).is_maybe_dirty(key as int) && old(self).deps_unchanged(
                key,
                old(self).node(key as int).dep_keys@.len() as int,
            ) ==> result_view(r) == Ok::<Value, ErrorView>(old(self).node(key as int).value)
                && final(self).stats.executed == old(self).stats.executed && final(self).stats.early_cutoff
                == bumped(old(self).stats.early_cutoff),
        decreases old(self).size() - old(self).chain@.len(), 0nat,
    {
        let version = self.ledger.current();
        let mut dirty: bool = false;
        match &self.nodes[key].state {
            NodeState::InProgress => {
                let mut chain = copy_keys(&self.chain);
                chain.push(key);
                proof {
                    assert(self.in_progress(key as int));
                    assert(self.chain@.contains(key));
                    self.lemma_cycle(key);
                }
                return Err(DiceError::Cycle { chain });
            },
            NodeState::Clean => {
                let value = self.nodes[key].value;
                self.stats.cached = bump(self.stats.cached);
                proof {
                    self.lemma_same_nodes_wf(old(self));
                    old(self).lemma_world_kept(self);
                    old(self).lemma_failures_kept(self);
                    assert forall|j: int| 0 <= j < self.chain@.len() implies #[trigger] self.frame_ok(
                        j,
                    ) by {
                        assert(old(self).frame_ok(j));
                    }
                    self.lemma_clean_value(key);
                }
                return Ok(value);
            },
            NodeState::Failed { error } => {
                if self.nodes[key].computed_at.0 == version.0 {
                    proof {
                        assert(self.failure_ok(key as int));
                    }
                    return Err(error.duplicate());
                }
            },
            NodeState::MaybeDirty => {
                dirty = true;
            },
            NodeState::Vacant => {},
        }
        proof {
            let o = *old(self);
            assert(!o.chain@.contains(key)) by {
                if o.chain@.contains(key) {
                    let j = choose|j: int| 0 <= j < o.chain@.len() && o.chain@[j] == key;
                    assert(o.in_progress(o.chain@[j] as int));
                }
            }
            let longer = o.chain@.push(key);
            assert(longer.no_duplicates());
            assert forall|i: int| 0 <= i < longer.len() implies longer[i] < o.size() by {
                if i < o.chain@.len() {
                    assert(o.in_progress(o.chain@[i] as int));
                }
            }
            lemma_distinct_bounded(longer, o.size());
        }
        self.chain.push(key);
        self.nodes[key].state = NodeState::InProgress;
        proof {
            self.frames@ = self.frames@.push(Seq::empty());
        }
        let ghost begun = *self;
        proof {
            let o = *old(self);
            o.lemma_world_kept(&begun);
            o.lemma_failures_kept(&begun);
            assert forall|j: int| 0 <= j < begun.chain@.len() implies #[trigger] begun.frame_ok(
                j,
            ) by {
                if j < o.chain@.len() {
                    assert(o.frame_ok(j));
                    assert(begun.chain@[j] == o.chain@[j]);
                    assert(begun.frames@[j] == o.frames@[j]);
                    if j + 1 == o.chain@.len() {
                        assert(o.chain@.last() == o.chain@[j]);
                        assert(o.frames@.last() == o.frames@[j]);
                    }
                } else {
                    assert(begun.frames@[j] == Seq::<Value>::empty());
                }
            }
            assert(begun.frames@.drop_last() =~= o.frames@);
            if o.untried(key as int) && o.entry_cycle(key) is Some {
                let cycle = o.entry_cycle(key)->Some_0;
                let dep = o.registry.step_spec(key, Seq::empty())->Need_0;
                assert(!dirty);
                assert(begun.in_progress(key as int));
                if dep != key {
                    assert(begun.node(dep as int) == o.node(dep as int));
                    assert(begun.in_progress(dep as int) == o.in_progress(dep as int));
                    assert(begun.untried(dep as int) == o.untried(dep as int));
                }
                if dep == key || o.in_progress(dep as int) {
                    assert(begun.first_cycle(key) == Some(seq![dep]));
                    assert(o.chain@ + cycle == begun.chain@ + seq![dep]);
                } else {
                    let next = o.registry.step_spec(dep, Seq::empty())->Need_0;
                    if next != key && next != dep {
                        assert(begun.node(next as int) == o.node(next as int));
                        assert(begun.in_progress(next as int) == o.in_progress(next as int));
                    }
                    assert(begun.first_cycle(key) == Some(seq![dep, next]));
                    assert(o.chain@ + cycle == begun.chain@ + seq![dep, next]);
                }
            }
            assert(o.node_wf(key as int));
            assert(begun.chain_wf()) by {
                assert forall|i: int| 0 <= i < begun.chain@.len() implies begun.in_progress(
                    #[trigger] begun.chain@[i] as int,
                ) by {
                    if i < o.chain@.len() {
                        assert(o.in_progress(o.chain@[i] as int));
                    }
                }
                assert forall|k: Key| #[trigger] begun.in_progress(k as int) implies begun.chain@.contains(
                    k,
                ) by {
                    if k == key {
                        assert(begun.chain@[o.chain@.len() as int] == key);
                    } else {
                        assert(o.in_progress(k as int));
                        let j = choose|j: int| 0 <= j < o.chain@.len() && o.chain@[j] == k;
                        assert(begun.chain@[j] == k);
                    }
                }
            }
            assert forall|k: int| 0 <= k < begun.size() implies #[trigger] begun.node_wf(k) by {
                assert(o.node_wf(k));
                let n = begun.node(k);
                if n.kind is Derived {
                    assert forall|i: int| 0 <= i < n.dep_keys@.len() implies #[trigger] begun.dep_linked(
                        k,
                        i,
                    ) by {
                        assert(o.dep_linked(k, i));
                    }
                    if n.state is Clean {
                        assert forall|i: int| 0 <= i < n.dep_keys@.len() implies #[trigger] begun.dep_current(
                            k,
                            i,
                        ) by {
                            assert(k != key);
                            assert(begun.node(k) == o.node(k));
                            assert(o.dep_current(k, i));
                            assert(o.dep_linked(k, i));
                            let d = n.dep_keys@[i] as int;
                            assert(o.node(d).state is Clean);
                            assert(!(o.node(key as int).state is Clean));
                            assert(d != key);
                            assert(begun.node(d) == o.node(d));
                        }
                    }
                }
            }
            assert(o.evolves(&begun));
            let count = o.node(key as int).dep_keys@.len() as int;
            if o.is_maybe_dirty(key as int) && o.deps_unchanged(key, count) {
                assert(dirty);
                assert forall|i: int| 0 <= i < count implies begun.node(
                    #[trigger] begun.node(key as int).dep_keys@[i] as int,
                ).state is Clean && begun.node(begun.node(key as int).dep_keys@[i] as int).value
                    == begun.node(key as int).dep_values@[i] by {
                    let d = o.node(key as int).dep_keys@[i] as int;
                    assert(o.dep_linked(key as int, i));
                    assert(o.node(d).state is Clean);
                    assert(d != key);
                    assert(begun.node(d) == o.node(d));
                }
                assert(begun.deps_unchanged(key, count));
            }
        }
        let valid = if dirty {
            self.revalidate(key)
        } else {
            false
        };
        let ghost checked = *self;
        proof {
            old(self).lemma_evolves_transitive(&begun, &checked);
            assert(begun.pinned(key as int));
            assert(begun.node(key as int).same_core(&checked.node(key as int)));
        }
        if valid {
            self.settle_unchanged(key);
            proof {
                old(self).lemma_evolves_then_apart(&checked, self, key);
                assert(begun.chain@.drop_last() == old(self).chain@);
                self.lemma_clean_value(key);
            }
            Ok(self.nodes[key].value)
        } else {
            let (result, keys, values) = self.run(key);
            let ghost ran = *self;
            proof {
                old(self).lemma_evolves_transitive(&checked, &ran);
                assert(checked.pinned(key as int));
                assert(checked.node(key as int).same_core(&ran.node(key as int)));
                assert(begun.chain@.drop_last() == old(self).chain@);
            }
            match result {
                Ok(value) => {
                    self.settle_value(key, value, keys, values);
                    proof {
                        old(self).lemma_evolves_then_apart(&ran, self, key);
                        self.lemma_clean_value(key);
                    }
                    Ok(value)
                },
                Err(error) => {
                    let copy = error.duplicate();
                    self.settle_failure(key, error);
                    proof {
                        old(self).lemma_evolves_then_apart(&ran, self, key);
                    }
                    Err(copy)
                },
            }
        }
    }

    /// Failures and frames stay justified when the innermost key under
    /// evaluation leaves the chain.
    pub(crate) proof fn lemma_pop_deep(&self, later: &Self, key: Key)
        requires
            self.evaluating(key),
            self.failures_wf(),
            self.frames_wf(),
            later.world() == self.world(),
            later.version() == self.version(),
            later.size() == self.size(),
            later.registry == self.registry,
            later.read_limit == self.read_limit,
            later.chain@ == self.outer_chain(),
            later.frames@ == self.frames@.drop_last(),
            later.failure_ok(key as int),
            forall|k: int|
                0 <= k < self.size() && k != key && #[trigger] later.node(k).state is Failed
                    ==> self.node(k).state is Failed && later.node(k).computed_at == self.node(
                    k,
                ).computed_at,
        ensures
            later.failures_wf(),
            later.frames_wf(),
    {
        assert forall|k: int| 0 <= k < later.size() implies #[trigger] later.failure_ok(k) by {
            assert(self.failure_ok(k));
            if k != key && later.node(k).state is Failed {
                assert(self.node(k).state is Failed);
            }
        }
        assert forall|j: int| 0 <= j < later.chain@.len() implies #[trigger] later.frame_ok(j) by {
            assert(self.frame_ok(j));
            assert(later.chain@[j] == self.chain@[j]);
            assert(later.frames@[j] == self.frames@[j]);
            if j + 1 < later.chain@.len() {
                assert(later.chain@[j + 1] == self.chain@[j + 1]);
            }
        }
    }

    /// The invariant holds on when the innermost key under evaluation notes
    /// what it has read so far.
    pub(crate) proof fn lemma_set_frame(&self, later: &Self, key: Key, seen: Seq<Value>)
        requires
            self.deep_wf(),
            self.evaluating(key),
            later.nodes@ == self.nodes@,
            later.chain@ == self.chain@,
            later.registry == self.registry,
            later.read_limit == self.read_limit,
            later.clock@ == self.clock@,
            later.stats == self.stats,
            later.version() == self.version(),
            later.frames@ == self.frames@.update(self.chain@.len() - 1, seen),
            on_path(self.world(), key, seen),
        ensures
            later.deep_wf(),
            later.evaluating(key),
            later.world() == self.world(),
            later.frames@.last() == seen,
            later.frames@.drop_last() == self.frames@.drop_last(),
            self.evolves(later),
    {
        assert(later.frames@.drop_last() =~= self.frames@.drop_last());
        later.lemma_same_nodes_wf(self);
        self.lemma_world_kept(later);
        self.lemma_failures_kept(later);
        assert forall|j: int| 0 <= j < later.chain@.len() implies #[trigger] later.frame_ok(j) by {
            assert(self.frame_ok(j));
        }
    }

    /// None of the keys from position `m` of the chain on gives a value at
    /// `depth`, where the innermost asks for the key at position `m`.
    pub(crate) proof fn lemma_cycle_depth(&self, key: Key, m: int, j: int, depth: nat)
        requires
            self.deep_wf(),
            self.chain@.len() > 0,
            self.awaiting(key),
            0 <= m <= j < self.chain@.len(),
            self.chain@[m] == key,
        ensures
            eval_from(self.world(), self.chain@[j], self.frames@[j], depth) is None,
        decreases depth,
    {
        let len = self.chain@.len() as int;
        let next_at = if j + 1 < len {
            j + 1
        } else {
            m
        };
        let next = self.chain@[next_at];
        assert(self.frame_ok(j));
        assert(self.frame_ok(next_at));
        assert(self.registry.step_spec(self.chain@[j], self.frames@[j]) == Step::Need(next));
        assert(self.in_progress(next as int));
        assert(self.node_wf(next as int));
        assert(!self.inputs().dom().contains(next));
        if j + 1 == len {
            assert(self.chain@.last() == self.chain@[j]);
            assert(self.frames@.last() == self.frames@[j]);
        }
        assert(self.frames@[j].len() < self.world().limit);
        assert(next < self.world().size);
        if depth > 0 {
            let less = (depth - 1) as nat;
            self.lemma_cycle_depth(key, m, next_at, less);
            lemma_path(self.world(), next, self.frames@[next_at], 0, less);
            assert(self.frames@[next_at].take(0) == Seq::<Value>::empty());
            assert(eval_from(self.world(), next, Seq::<Value>::empty(), less) is None);
        }
        assert(eval(self.world(), next, depth) is None);
    }

    /// A key that is asked for while it is under evaluation has no value.
    pub(crate) proof fn lemma_cycle(&self, key: Key)
        requires
            self.deep_wf(),
            self.chain@.len() > 0,
            self.awaiting(key),
            self.in_progress(key as int),
        ensures
            self.no_value(key),
    {
        assert(self.chain@.contains(key));
        let m = choose|m: int| 0 <= m < self.chain@.len() && self.chain@[m] == key;
        assert(self.node_wf(key as int));
        assert(!self.inputs().dom().contains(key));
        assert(self.frame_ok(m));
        assert forall|depth: nat| eval(self.world(), key, depth) is None by {
            if depth > 0 {
                let less = (depth - 1) as nat;
                self.lemma_cycle_depth(key, m, m, less);
                lemma_path(self.world(), key, self.frames@[m], 0, less);
                assert(self.frames@[m].take(0) == Seq::<Value>::empty());
            }
        }
    }

    /// A store with the same nodes, chain, registry and clock is well formed too.
    pub(crate) proof fn lemma_same_nodes_wf(&self, other: &Self)
        requires
            other.inner_wf(),
            self.nodes@ == other.nodes@,
            self.chain@ == other.chain@,
            self.registry == other.registry,
            self.read_limit == other.read_limit,
            self.clock@ == other.clock@,
        ensures
            self.inner_wf(),
    {
        assert forall|k: int| 0 <= k < self.size() implies #[trigger] self.node_wf(k) by {
            assert(other.node_wf(k));
            let n = self.node(k);
            if n.kind is Derived {
                assert forall|i: int| 0 <= i < n.dep_keys@.len() implies #[trigger] self.dep_linked(
                    k,
                    i,
                ) by {
                    assert(other.dep_linked(k, i));
                }
                if n.state is Clean {
                    assert forall|i: int| 0 <= i < n.dep_keys@.len() implies #[trigger] self.dep_current(
                        k,
                        i,
                    ) by {
                        assert(other.dep_current(k, i));
                    }
                }
            }
        }
        assert(self.chain_wf()) by {
            assert forall|i: int| 0 <= i < self.chain@.len() implies self.in_progress(
                #[trigger] self.chain@[i] as int,
            ) by {
                assert(other.in_progress(other.chain@[i] as int));
            }
            assert forall|k: Key| #[trigger] self.in_progress(k as int) implies self.chain@.contains(
                k,
            ) by {
                assert(other.in_progress(k as int));
            }
        }
    }

    /// Whether two stores hold the same nodes.
    pub open(crate) spec fn same_nodes(&self, other: &Self) -> bool {
        self.nodes@ == other.nodes@
    }

    /// The value of `key` at the current version.
    ///
    /// A settled key is answered from its node. A key whose inputs may have
    /// changed keeps its value, without running its function, where all the
    /// dependencies it recorded still have their recorded values; else its
    /// function is run, and the dependencies it reads are recorded. A key that
    /// is asked for while it is under evaluation, and every key that waits for
    /// it, fails with the chain that closed the cycle. What is returned is
    /// kept on the node: asking again at this version gives the same result.
    pub fn compute(&mut self, key: Key) -> (r: Result<Value, DiceError>)
        requires
            old(self).wf(),
        ensures
            final(self).wf(),
            old(self).evolves(final(self)),
            final(self).version() == old(self).version(),
            final(self).size() == old(self).size(),
            final(self).world() == old(self).world(),
            // A value is returned exactly where the key has one, and is that value.
            r matches Ok(v) ==> final(self).evaluates(key, v),
            r is Err ==> final(self).no_value(key),
            // The result is kept on the node. A value that was not held as
            // clean before is known correct from this version on.
            key < old(self).size() ==> {
                &&& final(self).settled(key as int)
                &&& final(self).outcome(key as int) == result_view(r)
            },
            r is Ok && !old(self).is_clean(key as int) ==> final(self).begins_now(key as int),
            key >= old(self).size() ==> {
                &&& result_view(r) == Err::<Value, ErrorView>(ErrorView::UnknownKey { key })
                &&& final(self).same_nodes(old(self))
                &&& final(self).stats() == old(self).stats()
            },
            // A settled key is answered from its node, and nothing is run.
            old(self).settled(key as int) ==> {
                &&& result_view(r) == old(self).outcome(key as int)
                &&& final(self).same_nodes(old(self))
                &&& final(self).stats().executed == old(self).stats().executed
                &&& final(self).stats().early_cutoff == old(self).stats().early_cutoff
            },
            // A possibly stale key whose recorded dependencies are clean and
            // have their recorded values keeps its value, and nothing is run.
            old(self).is_maybe_dirty(key as int) && old(self).deps_unchanged(
                key,
                old(self).recorded_dependencies(key as int).len() as int,
            ) ==> {
                &&& result_view(r) == Ok::<Value, ErrorView>(old(self).cached_value(key as int))
                &&& final(self).stats().executed == old(self).stats().executed
                &&& final(self).stats().early_cutoff == bumped(old(self).stats().early_cutoff)
            },
            // First reads that close a cycle are reported as that cycle.
            old(self).untried(key as int) ==> (old(self).entry_cycle(key) matches Some(cycle)
                ==> result_view(r) == Err::<Value, ErrorView>(ErrorView::Cycle { chain: cycle })),
            // No function is run twice, and none for a key that was settled.
            forall|k: int| 0 <= k < old(self).size() ==> #[trigger] old(self).ran_at_most_once(
                final(self),
                k,
            ),
            forall|k: int| #[trigger]
                old(self).settled(k) ==> final(self).runs_of(k) == old(self).runs_of(k),
            // What was settled stays settled, and the leaves stay as they are.
            forall|k: int| #[trigger]
                old(self).settled(k) ==> final(self).settled(k) && final(self).outcome(k)
                    == old(self).outcome(k),
            forall|k: int| #[trigger] final(self).is_leaf(k) <==> old(self).is_leaf(k),
            forall|k: int| #[trigger]
                old(self).is_leaf(k) ==> final(self).cached_value(k) == old(self).cached_value(k),
            forall|k: int| #[trigger] old(self).is_derived(k) ==> final(self).is_derived(k),
    {
        if key >= self.nodes.len() {
            proof {
                assert forall|depth: nat| eval(self.world(), key, depth) is None by {}
            }
            return Err(DiceError::UnknownKey { key });
        }
        let r = self.resolve(key);
        proof {
            assert(!old(self).in_progress(key as int)) by {
                if old(self).in_progress(key as int) {
                    assert(old(self).chain@.contains(key));
                }
            }
            assert forall|k: int| #[trigger] old(self).settled(k) implies self.settled(k)
                && self.outcome(k) == old(self).outcome(k) && self.runs_of(k) == old(self).runs_of(
                k,
            ) by {
                assert(old(self).pinned(k));
                assert(old(self).node(k).same_core(&self.node(k)));
            }
            assert forall|k: int| #[trigger] old(self).is_leaf(k) implies self.is_leaf(k)
                && self.cached_value(k) == old(self).cached_value(k) by {
                assert(old(self).node_wf(k));
                assert(old(self).pinned(k));
                assert(old(self).node(k).same_core(&self.node(k)));
            }
        }
        r
    }
}

} // verus!
