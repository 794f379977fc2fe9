//! The invalidation propagator: after an input has changed, marks the nodes
//! that were computed from it, directly or through other nodes, as possibly
//! stale. Nothing is recomputed here.

use vstd::prelude::*;
use crate::registry::{Key, Registry, Value};
use crate::store::{ComputationNode, DiceComputations, NodeKind, NodeState};

verus! {

/// `after` is `before`, or `before` turned from clean to possibly stale.
pub open(crate) spec fn marked_or_same(before: ComputationNode, after: ComputationNode) -> bool {
    ||| after == before
    ||| {
        &&& before.state is Clean
        &&& before.kind is Derived
        &&& after.state is MaybeDirty
        &&& after.until is Some
        &&& after.kind == before.kind
        &&& after.value == before.value
        &&& after.computed_at == before.computed_at
        &&& after.since == before.since
        &&& after.dep_keys == before.dep_keys
        &&& after.dep_values == before.dep_values
        &&& after.dependents == before.dependents
        &&& after.rank == before.rank
        &&& after.runs == before.runs
    }
}

/// The value that the first `upto` assignments leave in `key`, if any of
/// them names it: the last one wins.
pub open spec fn last_assignment(keys: Seq<Key>, values: Seq<Value>, key: Key, upto: int) -> Option<
    Value,
>
    decreases upto,
{
    if upto <= 0 {
        None
    } else if keys[upto - 1] == key {
        Some(values[upto - 1])
    } else {
        last_assignment(keys, values, key, upto - 1)
    }
}

/// Whether every assignment gives a leaf the value it already has.
pub open spec fn changes_nothing<'a, R: Registry>(
    store: &DiceComputations<'a, R>,
    keys: Seq<Key>,
    values: Seq<Value>,
) -> bool {
    forall|i: int|
        0 <= i < keys.len() ==> store.is_leaf(#[trigger] keys[i] as int) && store.cached_value(
            keys[i] as int,
        ) == values[i]
}

impl<'a, R: Registry> DiceComputations<'a, R> {
    /// Whether `key` is derived and clean.
    pub open(crate) spec fn clean_derived(&self, key: int) -> bool {
        &&& 0 <= key < self.size()
        &&& self.node(key).state is Clean
        &&& self.node(key).kind is Derived
    }

    /// The number of clean derived keys below `n`.
    pub open(crate) spec fn clean_upto(&self, n: nat) -> nat
        decreases n,
    {
        if n == 0 {
            0
        } else {
            self.clean_upto((n - 1) as nat) + if self.clean_derived(n - 1) {
                1nat
            } else {
                0nat
            }
        }
    }

    /// The number of clean derived keys.
    pub open(crate) spec fn clean_count(&self) -> nat {
        self.clean_upto(self.size())
    }

    /// Every node of `later` is the node of `self`, or that node marked.
    pub open(crate) spec fn marked_into(&self, later: &Self) -> bool {
        &&& self.same_frame(later)
        &&& forall|k: int|
            0 <= k < self.size() ==> marked_or_same(self.node(k), #[trigger] later.node(k))
    }

    pub(crate) proof fn lemma_marked_transitive(&self, middle: &Self, later: &Self)
        requires
            self.marked_into(middle),
            middle.marked_into(later),
        ensures
            self.marked_into(later),
    {
        assert forall|k: int| 0 <= k < self.size() implies marked_or_same(
            self.node(k),
            #[trigger] later.node(k),
        ) by {
            assert(marked_or_same(self.node(k), middle.node(k)));
            assert(marked_or_same(middle.node(k), later.node(k)));
        }
    }

    pub(crate) proof fn lemma_clean_monotone(&self, later: &Self, n: nat)
        requires
            self.marked_into(later),
            n <= self.size(),
        ensures
            later.clean_upto(n) <= self.clean_upto(n),
        decreases n,
    {
        if n > 0 {
            self.lemma_clean_monotone(later, (n - 1) as nat);
            assert(marked_or_same(self.node(n - 1), later.node(n - 1)));
        }
    }

    pub(crate) proof fn lemma_clean_strict(&self, later: &Self, n: nat, marked: int)
        requires
            self.marked_into(later),
            n <= self.size(),
            0 <= marked < n,
            self.clean_derived(marked),
            !later.clean_derived(marked),
        ensures
            later.clean_upto(n) < self.clean_upto(n),
        decreases n,
    {
        assert(marked_or_same(self.node(n - 1), later.node(n - 1)));
        if marked == n - 1 {
            self.lemma_clean_monotone(later, (n - 1) as nat);
        } else {
            self.lemma_clean_strict(later, (n - 1) as nat, marked);
        }
    }

    /// Whether `to` is reached from `from` in `steps` steps, each from a key
    /// to one of its dependents.
    pub open(crate) spec fn reaches(&self, from: Key, to: Key, steps: nat) -> bool
        decreases steps,
    {
        if steps == 0 {
            from == to
        } else {
            exists|mid: Key|
                from < self.size() && #[trigger] self.node(from as int).dependents@.contains(mid)
                    && self.reaches(mid, to, (steps - 1) as nat)
        }
    }

    /// Whether `key` has read `input`, directly or through other keys.
    pub open(crate) spec fn depends_on(&self, key: Key, input: Key) -> bool {
        exists|steps: nat| steps > 0 && #[trigger] self.reaches(input, key, steps)
    }

    /// Whether the node of `key` differs between the two stores.
    pub open(crate) spec fn changed_at(&self, later: &Self, key: int) -> bool {
        later.node(key) != self.node(key)
    }

    /// Whether the validity of the value of `key` ends at the current version.
    pub open(crate) spec fn ends_now(&self, key: int) -> bool {
        self.node(key).until matches Some(end) && end.0 == self.version()
    }

    /// Every node that differs between the two stores has read `key`, and
    /// the validity of its value ends at the current version.
    pub open(crate) spec fn marked_from(&self, later: &Self, key: Key) -> bool {
        forall|k: int|
            0 <= k < self.size() && #[trigger] self.changed_at(later, k) ==> self.depends_on(
                k as usize,
                key,
            ) && later.ends_now(k)
    }

    pub(crate) proof fn lemma_reaches_edges(&self, other: &Self, from: Key, to: Key, steps: nat)
        requires
            self.size() == other.size(),
            forall|k: int|
                0 <= k < self.size() ==> (#[trigger] self.node(k)).dependents == other.node(
                    k,
                ).dependents,
            self.reaches(from, to, steps),
        ensures
            other.reaches(from, to, steps),
        decreases steps,
    {
        if steps > 0 {
            let mid = choose|mid: Key|
                from < self.size() && #[trigger] self.node(from as int).dependents@.contains(mid)
                    && self.reaches(mid, to, (steps - 1) as nat);
            self.lemma_reaches_edges(other, mid, to, (steps - 1) as nat);
            assert(self.node(from as int).dependents == other.node(from as int).dependents);
            assert(other.node(from as int).dependents@.contains(mid));
        }
    }

    pub(crate) proof fn lemma_depends_through(&self, input: Key, mid: Key, key: Key)
        requires
            input < self.size(),
            self.node(input as int).dependents@.contains(mid),
            mid == key || self.depends_on(key, mid),
        ensures
            self.depends_on(key, input),
    {
        if mid == key {
            assert(self.reaches(mid, key, 0));
            assert(self.reaches(input, key, 1));
        } else {
            let steps = choose|steps: nat| steps > 0 && #[trigger] self.reaches(mid, key, steps);
            assert(self.reaches(input, key, steps + 1));
        }
    }

    /// Marks as possibly stale every clean node that was computed, directly
    /// or through other nodes, from `key`.
    pub(crate) fn mark_dependents(&mut self, key: Key, Ghost(pending): Ghost<Set<int>>)
        requires
            old(self).wf_but(pending.insert(key as int)),
            key < old(self).size(),
        ensures
            final(self).wf_but(pending),
            old(self).marked_into(final(self)),
            old(self).marked_from(final(self), key),
        decreases old(self).clean_count(),
    {
        let version = self.ledger.current();
        let count = self.nodes[key].dependents.len();
        let total = self.nodes.len();
        let mut i: usize = 0;
        while i < count
            invariant
                key < self.size(),
                total == self.size(),
                self.wf_but(pending.insert(key as int)),
                old(self).marked_into(self),
                old(self).marked_from(self, key),
                version.0 == self.version(),
                i <= count,
                count == self.node(key as int).dependents@.len(),
                forall|j: int|
                    0 <= j < i ==> !self.clean_derived(
                        #[trigger] self.node(key as int).dependents@[j] as int,
                    ),
            decreases count - i,
        {
            let ghost before = *self;
            proof {
                assert(self.node_wf_but(key as int, pending.insert(key as int)));
            }
            let m = self.nodes[key].dependents[i];
            let clean = match &self.nodes[m].state {
                NodeState::Clean => true,
                _ => false,
            };
            let derived = match &self.nodes[m].kind {
                NodeKind::Derived => true,
                _ => false,
            };
            if clean && derived {
                self.nodes[m].state = NodeState::MaybeDirty;
                self.nodes[m].until = Some(version);
                let ghost marked = *self;
                proof {
                    assert(before.marked_into(&marked));
                    before.lemma_clean_strict(&marked, before.size(), m as int);
                    old(self).lemma_clean_monotone(&before, old(self).size());
                    let wider = pending.insert(key as int).insert(m as int);
                    assert forall|k: int| 0 <= k < marked.size() implies #[trigger] marked.node_wf_but(
                        k,
                        wider,
                    ) by {
                        assert(before.node_wf_but(k, pending.insert(key as int)));
                        let n = marked.node(k);
                        if n.kind is Derived {
                            assert forall|x: int|
                                0 <= x < n.dep_keys@.len() implies #[trigger] marked.dep_linked(
                                k,
                                x,
                            ) by {
                                assert(before.dep_linked(k, x));
                            }
                            if n.state is Clean {
                                assert forall|x: int| 0 <= x < n.dep_keys@.len() implies wider.contains(
                                    n.dep_keys@[x] as int,
                                ) || #[trigger] marked.dep_current(k, x) by {
                                    let d = n.dep_keys@[x] as int;
                                    assert(k != m);
                                    assert(marked.node(k) == before.node(k));
                                    assert(before.dep_linked(k, x));
                                    if d != m && !pending.insert(key as int).contains(d) {
                                        assert(before.dep_current(k, x));
                                        assert(marked.node(d) == before.node(d));
                                    }
                                }
                            }
                        }
                    }
                }
                self.mark_dependents(m, Ghost(pending.insert(key as int)));
                proof {
                    old(self).lemma_marked_transitive(&before, &marked);
                    assert(marked_or_same(old(self).node(key as int), before.node(key as int)));
                    assert(old(self).node(key as int).dependents@.contains(m));
                    assert forall|k: int|
                        0 <= k < old(self).size() && #[trigger] old(self).changed_at(
                            self,
                            k,
                        ) implies old(self).depends_on(k as usize, key) && self.ends_now(k) by {
                        assert(marked_or_same(before.node(k), marked.node(k)));
                        assert(marked_or_same(marked.node(k), self.node(k)));
                        if old(self).changed_at(&before, k) {
                            assert(before.ends_now(k));
                            assert(marked_or_same(old(self).node(k), before.node(k)));
                            assert(self.node(k) == before.node(k));
                            assert(self.version() == before.version());
                        } else if k == m {
                            old(self).lemma_depends_through(key, m, m);
                            assert(self.node(k) == marked.node(k));
                            assert(marked.node(k).until == Some(version));
                            assert(self.version() == marked.version());
                            assert(self.ends_now(k));
                        } else {
                            assert(marked.node(k) == before.node(k));
                            assert(marked.changed_at(self, k));
                            let steps = choose|steps: nat|
                                steps > 0 && #[trigger] marked.reaches(m, k as usize, steps);
                            assert forall|x: int| 0 <= x < marked.size() implies (
                            #[trigger] marked.node(x)).dependents == old(self).node(
                                x,
                            ).dependents by {
                                assert(marked_or_same(old(self).node(x), marked.node(x)));
                            }
                            marked.lemma_reaches_edges(old(self), m, k as usize, steps);
                            old(self).lemma_depends_through(key, m, k as usize);
                        }
                    }
                    before.lemma_marked_transitive(&marked, self);
                    old(self).lemma_marked_transitive(&before, self);
                    assert(marked_or_same(before.node(key as int), self.node(key as int)));
                    assert forall|j: int| 0 <= j < i + 1 implies !self.clean_derived(
                        #[trigger] self.node(key as int).dependents@[j] as int,
                    ) by {
                        let d = before.node(key as int).dependents@[j] as int;
                        assert(d < before.size());
                        assert(marked_or_same(before.node(d), self.node(d)));
                        if j < i {
                            assert(!before.clean_derived(d));
                        } else {
                            assert(marked_or_same(marked.node(d), self.node(d)));
                        }
                    }
                }
            }
            i = i + 1;
        }
        proof {
            assert forall|k: int| 0 <= k < self.size() implies #[trigger] self.node_wf_but(
                k,
                pending,
            ) by {
                assert(self.node_wf_but(k, pending.insert(key as int)));
                let n = self.node(k);
                if n.kind is Derived && n.state is Clean {
                    assert forall|x: int| 0 <= x < n.dep_keys@.len() implies pending.contains(
                        n.dep_keys@[x] as int,
                    ) || #[trigger] self.dep_current(k, x) by {
                        let d = n.dep_keys@[x] as int;
                        if d == key && !pending.contains(d) {
                            assert(self.dep_linked(k, x));
                            let deps = self.node(key as int).dependents@;
                            let me = k as usize;
                            assert(me as int == k);
                            assert(deps.contains(me));
                            let j = choose|j: int| 0 <= j < deps.len() && deps[j] == me;
                            assert(!self.clean_derived(deps[j] as int));
                        } else if !pending.contains(d) {
                            assert(pending.insert(key as int).contains(d) || self.dep_current(k, x));
                        }
                    }
                }
            }
        }
    }

    pub(crate) proof fn lemma_wf_is_wf_but_nothing(&self)
        ensures
            self.calm() <==> self.wf_but(Set::empty()),
    {
        let none = Set::<int>::empty();
        if self.calm() {
            assert forall|k: int| 0 <= k < self.size() implies #[trigger] self.node_wf_but(
                k,
                none,
            ) by {
                assert(self.node_wf(k));
                let n = self.node(k);
                if n.kind is Derived && n.state is Clean {
                    assert forall|x: int| 0 <= x < n.dep_keys@.len() implies none.contains(
                        n.dep_keys@[x] as int,
                    ) || #[trigger] self.dep_current(k, x) by {
                        assert(self.dep_current(k, x));
                    }
                }
            }
            assert forall|k: int| 0 <= k < self.size() implies !(#[trigger] self.node(
                k,
            ).state is InProgress) by {
                if self.node(k).state is InProgress {
                    assert(self.nodes.len() == self.nodes@.len());
                    assert(self.in_progress(k as usize as int));
                    assert(self.chain@.contains(k as usize));
                }
            }
        }
        if self.wf_but(none) {
            assert forall|k: int| 0 <= k < self.size() implies #[trigger] self.node_wf(k) by {
                assert(self.node_wf_but(k, none));
                let n = self.node(k);
                if n.kind is Derived && n.state is Clean {
                    assert forall|x: int| 0 <= x < n.dep_keys@.len() implies #[trigger] self.dep_current(
                        k,
                        x,
                    ) by {
                        assert(none.contains(n.dep_keys@[x] as int) || self.dep_current(k, x));
                    }
                }
            }
            assert(self.chain_wf()) by {
                assert forall|k: Key| #[trigger] self.in_progress(k as int) implies self.chain@.contains(
                    k,
                ) by {
                    assert(!(self.node(k as int).state is InProgress));
                }
            }
        }
    }

    /// Makes `key` a leaf with `value`, and marks what was computed from it
    /// where that changes its value. Says whether it did.
    pub(crate) fn publish(&mut self, key: Key, value: Value) -> (changed: bool)
        requires
            old(self).wf(),
            key < old(self).size(),
            !old(self).is_derived(key as int),
            forall|k: int| !old(self).is_failed(k),
        ensures
            final(self).wf(),
            forall|k: int| !final(self).is_failed(k),
            old(self).same_frame(final(self)),
            final(self).is_leaf(key as int),
            final(self).cached_value(key as int) == value,
            changed == !(old(self).is_leaf(key as int) && old(self).cached_value(key as int)
                == value),
            !changed ==> final(self).nodes@ == old(self).nodes@,
            forall|k: int|
                0 <= k < old(self).size() && k != key ==> marked_or_same(
                    old(self).node(k),
                    #[trigger] final(self).node(k),
                ),
            forall|k: int|
                0 <= k < old(self).size() && k != key && #[trigger] old(self).changed_at(
                    final(self),
                    k,
                ) ==> old(self).depends_on(k as usize, key) && final(self).ends_now(k),
            final(self).node(key as int).dependents == old(self).node(key as int).dependents,
            changed ==> final(self).begins_now(key as int),
    {
        let is_leaf = match &self.nodes[key].kind {
            NodeKind::Leaf => true,
            _ => false,
        };
        if is_leaf && self.nodes[key].value == value {
            return false;
        }
        let version = self.ledger.current();
        self.nodes[key].kind = NodeKind::Leaf;
        self.nodes[key].state = NodeState::Clean;
        self.nodes[key].value = value;
        self.nodes[key].computed_at = version;
        self.nodes[key].since = version;
        self.nodes[key].until = None;
        let ghost written = *self;
        proof {
            let o = *old(self);
            o.lemma_wf_is_wf_but_nothing();
            let none = Set::<int>::empty();
            let only = none.insert(key as int);
            assert forall|k: int| 0 <= k < written.size() implies #[trigger] written.node_wf_but(
                k,
                only,
            ) by {
                assert(o.node_wf_but(k, none));
                let n = written.node(k);
                if k == key {
                    assert(n.dependents == o.node(k).dependents);
                    assert(n.rank == o.node(k).rank);
                    assert(n.kind is Leaf);
                    assert(written.node_base(k));
                } else {
                    assert(written.node(k) == o.node(k));
                    if n.kind is Derived {
                        assert forall|x: int|
                            0 <= x < n.dep_keys@.len() implies #[trigger] written.dep_linked(
                            k,
                            x,
                        ) by {
                            assert(o.dep_linked(k, x));
                        }
                        if n.state is Clean {
                            assert forall|x: int| 0 <= x < n.dep_keys@.len() implies only.contains(
                                n.dep_keys@[x] as int,
                            ) || #[trigger] written.dep_current(k, x) by {
                                let d = n.dep_keys@[x] as int;
                                assert(o.dep_linked(k, x));
                                if d != key {
                                    assert(none.contains(d) || o.dep_current(k, x));
                                    assert(written.node(d) == o.node(d));
                                }
                            }
                        }
                    }
                }
            }
        }
        proof {
            assert forall|k: int| 0 <= k < written.size() implies !(#[trigger] written.node(
                k,
            ).state is InProgress) by {
                if k != key {
                    assert(written.node(k) == old(self).node(k));
                }
            }
        }
        self.mark_dependents(key, Ghost(Set::empty()));
        proof {
            assert forall|k: int| !self.is_failed(k) by {
                if 0 <= k < self.size() {
                    assert(!old(self).is_failed(k));
                    assert(marked_or_same(written.node(k), self.node(k)));
                    if k != key {
                        assert(written.node(k) == old(self).node(k));
                    }
                }
            }
            assert forall|k: int| 0 <= k < self.size() implies #[trigger] self.failure_ok(k) by {
                assert(old(self).failure_ok(k));
                assert(!self.is_failed(k));
                assert(!old(self).is_failed(k));
                assert(marked_or_same(written.node(k), self.node(k)));
                if k != key {
                    assert(written.node(k) == old(self).node(k));
                }
            }
            self.lemma_wf_is_wf_but_nothing();
            assert forall|k: int| 0 <= k < old(self).size() && k != key implies marked_or_same(
                old(self).node(k),
                #[trigger] self.node(k),
            ) by {
                assert(written.node(k) == old(self).node(k));
                assert(marked_or_same(written.node(k), self.node(k)));
            }
            assert(marked_or_same(written.node(key as int), self.node(key as int)));
            assert forall|k: int| 0 <= k < old(self).size() && k != key && #[trigger] old(self).changed_at(self, k) implies old(self).depends_on(k as usize, key) && self.ends_now(
                k,
            ) by {
                assert(written.node(k) == old(self).node(k));
                assert(written.changed_at(self, k));
                let steps = choose|steps: nat|
                    steps > 0 && #[trigger] written.reaches(key, k as usize, steps);
                assert forall|x: int| 0 <= x < written.size() implies (#[trigger] written.node(
                    x,
                )).dependents == old(self).node(x).dependents by {
                    if x != key {
                        assert(written.node(x) == old(self).node(x));
                    }
                }
                written.lemma_reaches_edges(old(self), key, k as usize, steps);
            }
        }
        true
    }

    /// What publishing the first `upto` of the assignments makes of a store:
    /// an assigned key is a leaf with the value last assigned to it; every
    /// other node is as it was, or was clean, has read one of the assigned
    /// keys, and is now marked, its validity ending at the current version.
    /// No edge changes.
    pub open(crate) spec fn published_into(
        &self,
        later: &Self,
        keys: Seq<Key>,
        values: Seq<Value>,
        upto: int,
    ) -> bool {
        &&& later.size() == self.size()
        &&& later.registry == self.registry
        &&& later.read_limit == self.read_limit
        &&& later.stats == self.stats
        &&& forall|k: int|
            0 <= k < self.size() ==> (#[trigger] later.node(k)).dependents == self.node(
                k,
            ).dependents && match last_assignment(keys, values, k as usize, upto) {
                Some(v) => later.is_leaf(k) && later.cached_value(k) == v && later.leaf_dated(
                    self,
                    k,
                ),
                None => marked_or_same(self.node(k), later.node(k)) && (self.changed_at(later, k)
                    ==> self.reads_one_of(k as usize, keys, upto) && later.ends_now(k)),
            }
    }

    /// The value of the leaf `key` is known correct from the current version
    /// on, or from where it was in `before`; the former where `before` did
    /// not hold this value.
    pub open(crate) spec fn leaf_dated(&self, before: &Self, key: int) -> bool {
        &&& self.begins_now(key) || self.node(key).since == before.node(key).since
        &&& !before.is_leaf(key) || before.cached_value(key) != self.cached_value(key)
            ==> self.begins_now(key)
    }

    /// Whether `key` has read one of the first `upto` of `keys`, directly or
    /// through other keys.
    pub open(crate) spec fn reads_one_of(&self, key: Key, keys: Seq<Key>, upto: int) -> bool {
        exists|i: int| 0 <= i < upto && #[trigger] self.depends_on(key, keys[i])
    }

    pub(crate) proof fn lemma_published_kind(
        &self,
        later: &Self,
        keys: Seq<Key>,
        values: Seq<Value>,
        upto: int,
        key: int,
    )
        requires
            self.published_into(later, keys, values, upto),
            0 <= key < self.size(),
            !self.is_derived(key),
        ensures
            !later.is_derived(key),
    {
        assert(self.nodes.len() == self.nodes@.len());
        let n = later.node(key);
        match last_assignment(keys, values, key as usize, upto) {
            Some(v) => {},
            None => {
                assert(marked_or_same(self.node(key), later.node(key)));
            },
        }
    }

    pub(crate) proof fn lemma_published_step(
        &self,
        before: &Self,
        after: &Self,
        keys: Seq<Key>,
        values: Seq<Value>,
        i: int,
    )
        requires
            0 <= i < keys.len(),
            keys[i] < self.size(),
            self.published_into(before, keys, values, i),
            before.same_frame(after),
            after.is_leaf(keys[i] as int),
            after.cached_value(keys[i] as int) == values[i],
            forall|k: int|
                0 <= k < before.size() && k != keys[i] ==> marked_or_same(
                    before.node(k),
                    #[trigger] after.node(k),
                ),
            forall|k: int|
                0 <= k < before.size() && k != keys[i] && #[trigger] before.changed_at(after, k)
                    ==> before.depends_on(k as usize, keys[i]) && after.ends_now(k),
            after.node(keys[i] as int).dependents == before.node(keys[i] as int).dependents,
            after.version() == before.version(),
            after.begins_now(keys[i] as int) || after.node(keys[i] as int) == before.node(
                keys[i] as int,
            ),
        ensures
            self.published_into(after, keys, values, i + 1),
    {
        assert(self.nodes.len() == self.nodes@.len());
        assert forall|x: int| 0 <= x < self.size() implies (#[trigger] before.node(x)).dependents
            == self.node(x).dependents by {}
        assert forall|k: int| 0 <= k < self.size() implies (#[trigger] after.node(k)).dependents
            == self.node(k).dependents && match last_assignment(keys, values, k as usize, i + 1) {
            Some(v) => after.is_leaf(k) && after.cached_value(k) == v && after.leaf_dated(self, k),
            None => marked_or_same(self.node(k), after.node(k)) && (self.changed_at(after, k)
                ==> self.reads_one_of(k as usize, keys, i + 1) && after.ends_now(k)),
        } by {
            assert(before.node(k).dependents == self.node(k).dependents);
            if k != keys[i] {
                assert(marked_or_same(before.node(k), after.node(k)));
                if last_assignment(keys, values, k as usize, i) is None && self.changed_at(
                    after,
                    k,
                ) {
                    if self.changed_at(before, k) {
                        let j = choose|j: int|
                            0 <= j < i && #[trigger] self.depends_on(k as usize, keys[j]);
                        assert(self.depends_on(k as usize, keys[j]));
                    } else {
                        assert(before.changed_at(after, k));
                        let steps = choose|steps: nat|
                            steps > 0 && #[trigger] before.reaches(keys[i], k as usize, steps);
                        before.lemma_reaches_edges(self, keys[i], k as usize, steps);
                        assert(self.depends_on(k as usize, keys[i]));
                    }
                }
                assert(marked_or_same(before.node(k), after.node(k)));
                assert(last_assignment(keys, values, k as usize, i + 1) == last_assignment(
                    keys,
                    values,
                    k as usize,
                    i,
                ));
                assert(marked_or_same(self.node(k), before.node(k)) || last_assignment(
                    keys,
                    values,
                    k as usize,
                    i,
                ) is Some);
            }
        }
    }

    /// Publishes the next version number. The nodes stay as they are; what
    /// failed at the version before is no longer settled.
    pub(crate) fn advance_version(&mut self)
        requires
            old(self).wf(),
            old(self).version() < u64::MAX,
        ensures
            final(self).wf(),
            forall|k: int| !final(self).is_failed(k),
            final(self).version() == old(self).version() + 1,
            final(self).same_nodes(old(self)),
            final(self).registry == old(self).registry,
            final(self).read_limit == old(self).read_limit,
            final(self).stats == old(self).stats,
    {
        self.ledger.advance();
        proof {
            self.lemma_same_nodes_wf(old(self));
            assert forall|k: int| 0 <= k < self.size() implies #[trigger] self.failure_ok(k) by {
                assert(old(self).failure_ok(k));
            }
            assert forall|k: int| !self.is_failed(k) by {
                if 0 <= k < self.size() {
                    assert(old(self).failure_ok(k));
                }
            }
        }
    }
}

} // verus!
