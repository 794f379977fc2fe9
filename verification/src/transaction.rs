//! The two handles on the graph: the transaction, which reads one version,
//! and the updater, which collects new leaf values and commits the next.

use vstd::prelude::*;
use crate::error::{result_view, DiceError, ErrorView};
use crate::invalidation::{changes_nothing, last_assignment};
use crate::registry::{Key, Registry, Value};
use crate::store::{bumped, DiceComputations};
use crate::versions::VersionNumber;

verus! {

/// The compute context of a transaction: the graph at one version.
pub struct BaseComputeCtx<'a, R: Registry> {
    computations: DiceComputations<'a, R>,
}

impl<'a, R: Registry> BaseComputeCtx<'a, R> {
    /// The graph that this context reads.
    pub closed spec fn computations(&self) -> DiceComputations<'a, R> {
        self.computations
    }

    pub open spec fn wf(&self) -> bool {
        self.computations().wf()
    }

    /// A context on `computations`.
    pub fn new(computations: DiceComputations<'a, R>) -> (ctx: Self)
        ensures
            ctx.computations() == computations,
    {
        BaseComputeCtx { computations }
    }

    /// The version that this context reads.
    pub fn get_version(&self) -> (v: VersionNumber)
        ensures
            v.0 == self.computations().version(),
    {
        self.computations.get_version()
    }

    /// Gives the graph to an updater with nothing injected yet.
    pub fn into_updater(self) -> (updater: DiceTransactionUpdater<'a, R>)
        ensures
            updater.computations() == self.computations(),
            updater.keys().len() == 0,
            updater.values().len() == 0,
    {
        DiceTransactionUpdater {
            computations: self.computations,
            pending_keys: Vec::new(),
            pending_values: Vec::new(),
        }
    }

    /// The graph, to look at.
    pub fn as_computations(&self) -> (c: &DiceComputations<'a, R>)
        ensures
            *c == self.computations(),
    {
        &self.computations
    }

    /// The graph, to query.
    pub fn as_computations_mut(&mut self) -> (c: &mut DiceComputations<'a, R>)
        ensures
            *c == old(self).computations(),
            final(self).computations() == *final(c),
    {
        &mut self.computations
    }

    /// The value of `key` at the version of this context. See
    /// `DiceComputations::compute`.
    pub fn compute(&mut self, key: Key) -> (r: Result<Value, DiceError>)
        requires
            old(self).wf(),
        ensures
            final(self).computations().wf(),
            old(self).computations().evolves(&final(self).computations()),
            final(self).computations().version() == old(self).computations().version(),
            final(self).computations().size() == old(self).computations().size(),
            final(self).computations().world() == old(self).computations().world(),
            // A value is returned exactly where the key has one, and is that value.
            r matches Ok(v) ==> final(self).computations().evaluates(key, v),
            r is Err ==> final(self).computations().no_value(key),
            // The result is kept on the node. A value that was not held as
            // clean before is known correct from this version on.
            key < old(self).computations().size() ==> {
                &&& final(self).computations().settled(key as int)
                &&& final(self).computations().outcome(key as int) == result_view(r)
            },
            r is Ok && !old(self).computations().is_clean(key as int) ==> final(self).computations().begins_now(key as int),
            key >= old(self).computations().size() ==> {
                &&& result_view(r) == Err::<Value, ErrorView>(ErrorView::UnknownKey { key })
                &&& final(self).computations().same_nodes(&old(self).computations())
                &&& final(self).computations().stats() == old(self).computations().stats()
            },
            // A settled key is answered from its node, and nothing is run.
            old(self).computations().settled(key as int) ==> {
                &&& result_view(r) == old(self).computations().outcome(key as int)
                &&& final(self).computations().same_nodes(&old(self).computations())
                &&& final(self).computations().stats().executed == old(self).computations().stats().executed
                &&& final(self).computations().stats().early_cutoff == old(self).computations().stats().early_cutoff
            },
            // A possibly stale key whose recorded dependencies are clean and
            // have their recorded values keeps its value, and nothing is run.
            old(self).computations().is_maybe_dirty(key as int) && old(self).computations().deps_unchanged(
                key,
                old(self).computations().recorded_dependencies(key as int).len() as int,
            ) ==> {
                &&& result_view(r) == Ok::<Value, ErrorView>(old(self).computations().cached_value(key as int))
                &&& final(self).computations().stats().executed == old(self).computations().stats().executed
                &&& final(self).computations().stats().early_cutoff == bumped(old(self).computations().stats().early_cutoff)
            },
            // First reads that close a cycle are reported as that cycle.
            old(self).computations().untried(key as int) ==> (old(self).computations().entry_cycle(key) matches Some(cycle)
                ==> result_view(r) == Err::<Value, ErrorView>(ErrorView::Cycle { chain: cycle })),
            // No function is run twice, and none for a key that was settled.
            forall|k: int| 0 <= k < old(self).computations().size() ==> #[trigger] old(self).computations().ran_at_most_once(
                &final(self).computations(),
                k,
            ),
            forall|k: int| #[trigger]
                old(self).computations().settled(k) ==> final(self).computations().runs_of(k) == old(self).computations().runs_of(k),
            // What was settled stays settled, and the leaves stay as they are.
            forall|k: int| #[trigger]
                old(self).computations().settled(k) ==> final(self).computations().settled(k) && final(self).computations().outcome(k)
                    == old(self).computations().outcome(k),
            forall|k: int| #[trigger] final(self).computations().is_leaf(k) <==> old(self).computations().is_leaf(k),
            forall|k: int| #[trigger]
                old(self).computations().is_leaf(k) ==> final(self).computations().cached_value(k) == old(self).computations().cached_value(k),
            forall|k: int| #[trigger] old(self).computations().is_derived(k) ==> final(self).computations().is_derived(k),
    {
        self.as_computations_mut().compute(key)
    }
}

/// A transaction: a handle bound to one version, through which that version
/// is queried.
pub enum DiceTransactionImpl<'a, R: Registry> {
    Modern(BaseComputeCtx<'a, R>),
}

impl<'a, R: Registry> DiceTransactionImpl<'a, R> {
    /// The graph that this transaction reads.
    pub open spec fn computations(&self) -> DiceComputations<'a, R> {
        match self {
            DiceTransactionImpl::Modern(ctx) => ctx.computations(),
        }
    }

    pub open spec fn wf(&self) -> bool {
        self.computations().wf()
    }

    /// The version that this transaction is bound to.
    pub fn get_version(&self) -> (v: VersionNumber)
        ensures
            v.0 == self.computations().version(),
    {
        match self {
            DiceTransactionImpl::Modern(ctx) => ctx.get_version(),
        }
    }

    /// Ends the transaction and starts an update of its version.
    pub fn into_updater(self) -> (updater: DiceTransactionUpdater<'a, R>)
        ensures
            updater.computations() == self.computations(),
            updater.keys().len() == 0,
            updater.values().len() == 0,
    {
        match self {
            DiceTransactionImpl::Modern(delegate) => delegate.into_updater(),
        }
    }

    /// The graph, to look at.
    pub fn as_computations(&self) -> (c: &DiceComputations<'a, R>)
        ensures
            *c == self.computations(),
    {
        match self {
            DiceTransactionImpl::Modern(ctx) => ctx.as_computations(),
        }
    }

    /// The graph, to query.
    pub fn as_computations_mut(&mut self) -> (c: &mut DiceComputations<'a, R>)
        ensures
            *c == old(self).computations(),
            final(self).computations() == *final(c),
    {
        match self {
            DiceTransactionImpl::Modern(ctx) => ctx.as_computations_mut(),
        }
    }

    /// The value of `key` at the version of this transaction. See
    /// `DiceComputations::compute`.
    pub fn compute(&mut self, key: Key) -> (r: Result<Value, DiceError>)
        requires
            old(self).wf(),
        ensures
            final(self).computations().wf(),
            old(self).computations().evolves(&final(self).computations()),
            final(self).computations().version() == old(self).computations().version(),
            final(self).computations().size() == old(self).computations().size(),
            final(self).computations().world() == old(self).computations().world(),
            // A value is returned exactly where the key has one, and is that value.
            r matches Ok(v) ==> final(self).computations().evaluates(key, v),
            r is Err ==> final(self).computations().no_value(key),
            // The result is kept on the node. A value that was not held as
            // clean before is known correct from this version on.
            key < old(self).computations().size() ==> {
                &&& final(self).computations().settled(key as int)
                &&& final(self).computations().outcome(key as int) == result_view(r)
            },
            r is Ok && !old(self).computations().is_clean(key as int) ==> final(self).computations().begins_now(key as int),
            key >= old(self).computations().size() ==> {
                &&& result_view(r) == Err::<Value, ErrorView>(ErrorView::UnknownKey { key })
                &&& final(self).computations().same_nodes(&old(self).computations())
                &&& final(self).computations().stats() == old(self).computations().stats()
            },
            // A settled key is answered from its node, and nothing is run.
            old(self).computations().settled(key as int) ==> {
                &&& result_view(r) == old(self).computations().outcome(key as int)
                &&& final(self).computations().same_nodes(&old(self).computations())
                &&& final(self).computations().stats().executed == old(self).computations().stats().executed
                &&& final(self).computations().stats().early_cutoff == old(self).computations().stats().early_cutoff
            },
            // A possibly stale key whose recorded dependencies are clean and
            // have their recorded values keeps its value, and nothing is run.
            old(self).computations().is_maybe_dirty(key as int) && old(self).computations().deps_unchanged(
                key,
                old(self).computations().recorded_dependencies(key as int).len() as int,
            ) ==> {
                &&& result_view(r) == Ok::<Value, ErrorView>(old(self).computations().cached_value(key as int))
                &&& final(self).computations().stats().executed == old(self).computations().stats().executed
                &&& final(self).computations().stats().early_cutoff == bumped(old(self).computations().stats().early_cutoff)
            },
            // First reads that close a cycle are reported as that cycle.
            old(self).computations().untried(key as int) ==> (old(self).computations().entry_cycle(key) matches Some(cycle)
                ==> result_view(r) == Err::<Value, ErrorView>(ErrorView::Cycle { chain: cycle })),
            // No function is run twice, and none for a key that was settled.
            forall|k: int| 0 <= k < old(self).computations().size() ==> #[trigger] old(self).computations().ran_at_most_once(
                &final(self).computations(),
                k,
            ),
            forall|k: int| #[trigger]
                old(self).computations().settled(k) ==> final(self).computations().runs_of(k) == old(self).computations().runs_of(k),
            // What was settled stays settled, and the leaves stay as they are.
            forall|k: int| #[trigger]
                old(self).computations().settled(k) ==> final(self).computations().settled(k) && final(self).computations().outcome(k)
                    == old(self).computations().outcome(k),
            forall|k: int| #[trigger] final(self).computations().is_leaf(k) <==> old(self).computations().is_leaf(k),
            forall|k: int| #[trigger]
                old(self).computations().is_leaf(k) ==> final(self).computations().cached_value(k) == old(self).computations().cached_value(k),
            forall|k: int| #[trigger] old(self).computations().is_derived(k) ==> final(self).computations().is_derived(k),
    {
        self.as_computations_mut().compute(key)
    }
}

/// An update in the making: leaf values to be published with the next version.
pub struct DiceTransactionUpdater<'a, R: Registry> {
    computations: DiceComputations<'a, R>,
    pending_keys: Vec<Key>,
    pending_values: Vec<Value>,
}

impl<'a, R: Registry> DiceTransactionUpdater<'a, R> {
    /// The graph that the update starts from.
    pub closed spec fn computations(&self) -> DiceComputations<'a, R> {
        self.computations
    }

    /// The keys injected so far, in order.
    pub closed spec fn keys(&self) -> Seq<Key> {
        self.pending_keys@
    }

    /// The values injected so far, in order.
    pub closed spec fn values(&self) -> Seq<Value> {
        self.pending_values@
    }

    pub open spec fn wf(&self) -> bool {
        &&& self.computations().wf()
        &&& self.keys().len() == self.values().len()
        &&& forall|i: int|
            0 <= i < self.keys().len() ==> #[trigger] self.keys()[i] < self.computations().size()
                && !self.computations().is_derived(self.keys()[i] as int)
    }

    /// Starts an update of the version that `computations` holds.
    pub fn begin_update(computations: DiceComputations<'a, R>) -> (updater: Self)
        ensures
            updater.computations() == computations,
            updater.keys().len() == 0,
            updater.values().len() == 0,
    {
        DiceTransactionUpdater {
            computations,
            pending_keys: Vec::new(),
            pending_values: Vec::new(),
        }
    }

    /// Sets `key` to `value` in the version to come. The graph is not touched
    /// before `commit`. A key whose value has been computed from dependencies
    /// cannot be injected.
    pub fn inject(&mut self, key: Key, value: Value) -> (r: Result<(), DiceError>)
        requires
            old(self).wf(),
        ensures
            final(self).wf(),
            final(self).computations() == old(self).computations(),
            match r {
                Ok(_) => {
                    &&& key < old(self).computations().size()
                    &&& !old(self).computations().is_derived(key as int)
                    &&& final(self).keys() == old(self).keys().push(key)
                    &&& final(self).values() == old(self).values().push(value)
                },
                Err(e) => {
                    &&& final(self).keys() == old(self).keys()
                    &&& final(self).values() == old(self).values()
                    &&& e@ == (if key >= old(self).computations().size() {
                        ErrorView::UnknownKey { key }
                    } else {
                        ErrorView::InvalidInjection { key }
                    })
                    &&& key >= old(self).computations().size() || old(self).computations().is_derived(key as int)
                },
            },
    {
        if key >= self.computations.key_count() {
            return Err(DiceError::UnknownKey { key });
        }
        if self.computations.has_dependencies(key) {
            return Err(DiceError::InvalidInjection { key });
        }
        self.pending_keys.push(key);
        self.pending_values.push(value);
        Ok(())
    }

    /// Whether a further version can be committed.
    pub fn can_commit(&self) -> (b: bool)
        ensures
            b == (self.computations().version() < u64::MAX),
    {
        self.computations.has_next_version()
    }

    /// Publishes the next version: every injected value is written to its
    /// leaf, and where that changes the leaf, what was computed from it is
    /// marked as possibly stale. Gives the transaction of the new version.
    pub fn commit(self) -> (txn: DiceTransactionImpl<'a, R>)
        requires
            self.wf(),
            self.computations().version() < u64::MAX,
        ensures
            txn.wf(),
            txn.computations().version() == self.computations().version() + 1,
            self.computations().published_into(
                &txn.computations(),
                self.keys(),
                self.values(),
                self.keys().len() as int,
            ),
            changes_nothing(&self.computations(), self.keys(), self.values())
                ==> txn.computations().same_nodes(&self.computations()),
            changes_nothing(&self.computations(), self.keys(), self.values()) ==> forall|k: int|
                #![trigger txn.computations().is_clean(k)]
                txn.computations().is_clean(k) == self.computations().is_clean(k)
                    && txn.computations().is_maybe_dirty(k) == self.computations().is_maybe_dirty(
                    k,
                ),
    {
        let mut computations = self.computations;
        let keys = self.pending_keys;
        let values = self.pending_values;
        let ghost start = computations;
        computations.advance_version();
        let ghost advanced = computations;
        let mut i: usize = 0;
        while i < keys.len()
            invariant
                i <= keys@.len(),
                keys@.len() == values@.len(),
                computations.wf(),
                forall|k: int| !computations.is_failed(k),
                computations.version() == start.version() + 1,
                start.published_into(&computations, keys@, values@, i as int),
                forall|j: int|
                    0 <= j < keys@.len() ==> #[trigger] keys@[j] < start.size() && !start.is_derived(
                        keys@[j] as int,
                    ),
                (forall|j: int|
                    0 <= j < i ==> start.is_leaf(#[trigger] keys@[j] as int) && start.cached_value(
                        keys@[j] as int,
                    ) == values@[j]) ==> computations.same_nodes(&start),
            decreases keys@.len() - i,
        {
            let ghost before = computations;
            let key = keys[i];
            let value = values[i];
            proof {
                assert(keys@[i as int] < start.size());
                start.lemma_published_kind(&before, keys@, values@, i as int, key as int);
            }
            let changed = computations.publish(key, value);
            proof {
                start.lemma_published_step(&before, &computations, keys@, values@, i as int);
            }
            i = i + 1;
        }
        DiceTransactionImpl::Modern(BaseComputeCtx::new(computations))
    }
}

} // verus!
