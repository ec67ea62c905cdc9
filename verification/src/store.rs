//! The mathematical model of the state that is kept across contributions:
//! which source files are known, whether each was finalised, and which targets
//! each has collected per category; with the laws that the model obeys.

use crate::attribute::AutoPluginAttribute;
use crate::target::TargetKey;
use crate::target_set::{has_order, lemma_has_order_empty, lemma_has_order_insert};
use vstd::prelude::*;

verus! {

/// Why a contribution or a finalisation was refused.
#[derive(Clone, Copy, Debug, PartialEq, Eq, Structural)]
pub enum UpdateStateError {
    /// The target was already contributed to this file and category.
    Duplicate,
    /// The file was already finalised.
    PluginAlreadyRegistered,
}

impl UpdateStateError {
    /// The text of the diagnostic.
    pub open spec fn text(self) -> Seq<char> {
        match self {
            UpdateStateError::Duplicate => "duplicate attribute"@,
            UpdateStateError::PluginAlreadyRegistered =>
                "plugin already registered above, move plugin fn to the bottom of the file"@,
        }
    }

    /// The text of the diagnostic.
    pub fn message(&self) -> (r: String)
        ensures
            r@ == self.text(),
    {
        match self {
            UpdateStateError::Duplicate => String::from_str("duplicate attribute"),
            UpdateStateError::PluginAlreadyRegistered => String::from_str(
                "plugin already registered above, move plugin fn to the bottom of the file",
            ),
        }
    }
}

/// The targets of one source file: a set per category.
pub type Targets = Map<AutoPluginAttribute, Set<TargetKey>>;

/// The state of one source file.
pub struct UnitState {
    pub finalized: bool,
    pub targets: Targets,
}

/// There is a set for every category, and each has an emission order.
pub open spec fn targets_wf(targets: Targets) -> bool {
    &&& targets.dom() == Set::<AutoPluginAttribute>::full()
    &&& forall|attribute: AutoPluginAttribute| has_order(#[trigger] targets[attribute])
}

/// No targets in any category.
pub open spec fn no_targets() -> Targets {
    Map::total(|attribute: AutoPluginAttribute| Set::<TargetKey>::empty())
}

/// The state in which a source file is created.
pub open spec fn empty_unit() -> UnitState {
    UnitState { finalized: false, targets: no_targets() }
}

/// The state of all source files. `units` holds the files in the order in
/// which they were first seen.
pub struct StoreModel {
    pub units: Seq<Seq<char>>,
    pub states: Map<Seq<char>, UnitState>,
}

/// A call that changes the store.
pub enum Operation {
    Contribute { unit: Seq<char>, attribute: AutoPluginAttribute, key: TargetKey },
    Finalize { unit: Seq<char> },
}

impl StoreModel {
    /// The store before any call.
    pub open spec fn empty() -> StoreModel {
        StoreModel { units: Seq::empty(), states: Map::empty() }
    }

    /// Every known file has a state, each file is listed once, and each state
    /// holds, for every category, a set that has an emission order.
    pub open spec fn wf(self) -> bool {
        &&& self.units.no_duplicates()
        &&& self.states.dom() == self.units.to_set()
        &&& forall|unit: Seq<char>| #[trigger]
            self.states.dom().contains(unit) ==> targets_wf(self.states[unit].targets)
    }

    /// Whether `unit` was seen.
    pub open spec fn has(self, unit: Seq<char>) -> bool {
        self.states.dom().contains(unit)
    }

    /// The state of `unit`; that of a new file where it was not seen.
    pub open spec fn unit(self, unit: Seq<char>) -> UnitState {
        if self.has(unit) {
            self.states[unit]
        } else {
            empty_unit()
        }
    }

    /// The store once `unit` is known: a file is created, empty, by the first
    /// call that names it.
    pub open spec fn touch(self, unit: Seq<char>) -> StoreModel {
        if self.has(unit) {
            self
        } else {
            StoreModel { units: self.units.push(unit), states: self.states.insert(unit, empty_unit()) }
        }
    }

    /// The store with the state of `unit` replaced.
    pub open spec fn with_unit(self, unit: Seq<char>, state: UnitState) -> StoreModel {
        StoreModel { units: self.units, states: self.states.insert(unit, state) }
    }

    /// Contributing `key` to `attribute` of `unit`: the store that results,
    /// and the outcome.
    pub open spec fn contribute(
        self,
        unit: Seq<char>,
        attribute: AutoPluginAttribute,
        key: TargetKey,
    ) -> (StoreModel, Result<(), UpdateStateError>) {
        let store = self.touch(unit);
        let state = store.states[unit];
        if state.finalized {
            (store, Err(UpdateStateError::PluginAlreadyRegistered))
        } else if state.targets[attribute].contains(key) {
            (store, Err(UpdateStateError::Duplicate))
        } else {
            (
                store.with_unit(
                    unit,
                    UnitState {
                        finalized: false,
                        targets: state.targets.insert(attribute, state.targets[attribute].insert(key)),
                    },
                ),
                Ok(()),
            )
        }
    }

    /// Contributing `keys` to `attribute` of `unit`, in order, up to the
    /// first refusal: the store that results, and the index of the refused key
    /// with the refusal, if there was one.
    pub open spec fn contribute_all(
        self,
        unit: Seq<char>,
        attribute: AutoPluginAttribute,
        keys: Seq<TargetKey>,
    ) -> (StoreModel, Option<(int, UpdateStateError)>)
        decreases keys.len(),
    {
        if keys.len() == 0 {
            (self, None)
        } else {
            let (store, refused) = self.contribute_all(unit, attribute, keys.drop_last());
            if refused is Some {
                (store, refused)
            } else {
                let (next, outcome) = store.contribute(unit, attribute, keys.last());
                match outcome {
                    Ok(_) => (next, None),
                    Err(error) => (next, Some((keys.len() - 1, error))),
                }
            }
        }
    }

    /// Finalising `unit`: the store that results, and the targets that were
    /// collected or the refusal.
    pub open spec fn finalize(self, unit: Seq<char>) -> (
        StoreModel,
        Result<Targets, UpdateStateError>,
    ) {
        let store = self.touch(unit);
        let state = store.states[unit];
        if state.finalized {
            (store, Err(UpdateStateError::PluginAlreadyRegistered))
        } else {
            (
                store.with_unit(unit, UnitState { finalized: true, targets: state.targets }),
                Ok(state.targets),
            )
        }
    }

    /// The store after `operation`.
    pub open spec fn apply(self, operation: Operation) -> StoreModel {
        match operation {
            Operation::Contribute { unit, attribute, key } => self.contribute(unit, attribute, key).0,
            Operation::Finalize { unit } => self.finalize(unit).0,
        }
    }

    /// The store after the calls in `operations`, in order.
    pub open spec fn apply_all(self, operations: Seq<Operation>) -> StoreModel
        decreases operations.len(),
    {
        if operations.len() == 0 {
            self
        } else {
            self.apply_all(operations.drop_last()).apply(operations.last())
        }
    }

    /// Those of `units` that are not finalised, in the same order.
    pub open spec fn missing_among(self, units: Seq<Seq<char>>) -> Seq<Seq<char>>
        decreases units.len(),
    {
        if units.len() == 0 {
            units
        } else if self.unit(units.last()).finalized {
            self.missing_among(units.drop_last())
        } else {
            self.missing_among(units.drop_last()).push(units.last())
        }
    }

    /// The files that were seen and never finalised, in the order in which
    /// they were first seen.
    pub open spec fn missing(self) -> Seq<Seq<char>> {
        self.missing_among(self.units)
    }
}

/// Whether `operation` finalises `unit`.
pub open spec fn finalizes(operation: Operation, unit: Seq<char>) -> bool {
    operation == (Operation::Finalize { unit })
}

/// A call keeps the store well formed.
pub proof fn lemma_apply_wf(store: StoreModel, operation: Operation)
    requires
        store.wf(),
    ensures
        store.apply(operation).wf(),
{
    let unit = match operation {
        Operation::Contribute { unit, .. } => unit,
        Operation::Finalize { unit } => unit,
    };
    let touched = store.touch(unit);
    lemma_touch_wf(store, unit);
    let after = store.apply(operation);
    assert(after.units == touched.units);
    assert(after.states.dom() =~= touched.states.dom());
    assert forall|other: Seq<char>| #[trigger]
        after.states.dom().contains(other) implies targets_wf(after.states[other].targets) by {
        assert(touched.states.dom().contains(other));
        let then = touched.states[other].targets;
        let now = after.states[other].targets;
        assert(targets_wf(then));
        assert(now.dom() =~= Set::<AutoPluginAttribute>::full());
        assert forall|attribute: AutoPluginAttribute| has_order(#[trigger] now[attribute]) by {
            assert(has_order(then[attribute]));
            match operation {
                Operation::Contribute { unit: _, attribute: _, key } => {
                    lemma_has_order_insert(then[attribute], key);
                },
                Operation::Finalize { .. } => {},
            }
        }
    }
}

/// Creating a file keeps the store well formed.
pub proof fn lemma_touch_wf(store: StoreModel, unit: Seq<char>)
    requires
        store.wf(),
    ensures
        store.touch(unit).wf(),
        store.touch(unit).has(unit),
        store.touch(unit).unit(unit) == store.unit(unit),
{
    let touched = store.touch(unit);
    if !store.has(unit) {
        assert(!store.units.contains(unit));
        assert(touched.units.to_set() =~= store.units.to_set().insert(unit)) by {
            assert forall|x: Seq<char>| touched.units.contains(x) <==> (store.units.contains(x) || x
                == unit) by {
                if store.units.contains(x) {
                    let i = choose|i: int| 0 <= i < store.units.len() && store.units[i] == x;
                    assert(touched.units[i] == x);
                }
                if x == unit {
                    assert(touched.units[store.units.len() as int] == x);
                }
            }
        }
        assert(touched.states.dom() =~= touched.units.to_set());
        lemma_no_targets_wf();
    }
}

/// The targets of a new file are well formed.
pub proof fn lemma_no_targets_wf()
    ensures
        targets_wf(no_targets()),
{
    assert(no_targets().dom() =~= Set::<AutoPluginAttribute>::full());
    lemma_has_order_empty();
}

/// Any sequence of calls keeps the store well formed.
pub proof fn lemma_apply_all_wf(store: StoreModel, operations: Seq<Operation>)
    requires
        store.wf(),
    ensures
        store.apply_all(operations).wf(),
    decreases operations.len(),
{
    if operations.len() > 0 {
        lemma_apply_all_wf(store, operations.drop_last());
        lemma_apply_wf(store.apply_all(operations.drop_last()), operations.last());
    }
}

/// A target that was contributed to a file and category is refused as a
/// duplicate when it is contributed again, and the refused call leaves the
/// store as it was.
pub proof fn lemma_second_contribution_is_duplicate(
    store: StoreModel,
    unit: Seq<char>,
    attribute: AutoPluginAttribute,
    key: TargetKey,
)
    requires
        store.wf(),
        store.contribute(unit, attribute, key).1 is Ok,
    ensures
        store.contribute(unit, attribute, key).0.contribute(unit, attribute, key) == (
            store.contribute(unit, attribute, key).0,
            Err::<(), UpdateStateError>(UpdateStateError::Duplicate),
        ),
{
    lemma_touch_wf(store, unit);
}

/// A call never removes a target, never forgets a file, and never reopens a
/// finalised file.
pub proof fn lemma_apply_monotone(
    store: StoreModel,
    operation: Operation,
    unit: Seq<char>,
    attribute: AutoPluginAttribute,
    key: TargetKey,
)
    requires
        store.wf(),
    ensures
        store.has(unit) ==> store.apply(operation).has(unit),
        store.unit(unit).finalized ==> store.apply(operation).unit(unit).finalized,
        store.unit(unit).targets[attribute].contains(key) ==> store.apply(operation).unit(
            unit,
        ).targets[attribute].contains(key),
        !finalizes(operation, unit) ==> store.apply(operation).unit(unit).finalized == store.unit(
            unit,
        ).finalized,
{
    let other = match operation {
        Operation::Contribute { unit, .. } => unit,
        Operation::Finalize { unit } => unit,
    };
    lemma_touch_wf(store, other);
}

/// Once a target was contributed to a file and category, then after any further
/// contributions, to this file or to others, contributing it again is refused
/// as a duplicate and leaves the store as it was.
pub proof fn lemma_contribution_stays_duplicate(
    store: StoreModel,
    unit: Seq<char>,
    attribute: AutoPluginAttribute,
    key: TargetKey,
    later: Seq<Operation>,
)
    requires
        store.wf(),
        store.contribute(unit, attribute, key).1 is Ok,
        forall|i: int| 0 <= i < later.len() ==> !finalizes(#[trigger] later[i], unit),
    ensures
        store.contribute(unit, attribute, key).0.apply_all(later).contribute(unit, attribute, key)
            == (
            store.contribute(unit, attribute, key).0.apply_all(later),
            Err::<(), UpdateStateError>(UpdateStateError::Duplicate),
        ),
{
    let first = store.contribute(unit, attribute, key).0;
    lemma_touch_wf(store, unit);
    lemma_apply_wf(store, Operation::Contribute { unit, attribute, key });
    lemma_open_unit_keeps_target(first, unit, attribute, key, later);
    lemma_apply_all_wf(first, later);
}

proof fn lemma_open_unit_keeps_target(
    store: StoreModel,
    unit: Seq<char>,
    attribute: AutoPluginAttribute,
    key: TargetKey,
    later: Seq<Operation>,
)
    requires
        store.wf(),
        store.has(unit),
        !store.unit(unit).finalized,
        store.unit(unit).targets[attribute].contains(key),
        forall|i: int| 0 <= i < later.len() ==> !finalizes(#[trigger] later[i], unit),
    ensures
        store.apply_all(later).has(unit),
        !store.apply_all(later).unit(unit).finalized,
        store.apply_all(later).unit(unit).targets[attribute].contains(key),
    decreases later.len(),
{
    if later.len() > 0 {
        let before = later.drop_last();
        assert forall|i: int| 0 <= i < before.len() implies !finalizes(
            #[trigger] before[i],
            unit,
        ) by {
            assert(before[i] == later[i]);
        }
        lemma_open_unit_keeps_target(store, unit, attribute, key, before);
        lemma_apply_all_wf(store, before);
        lemma_apply_monotone(store.apply_all(before), later.last(), unit, attribute, key);
    }
}

/// Once a file was finalised, every contribution to it and every further
/// finalisation of it is refused, and the refused call leaves the store as it
/// was.
pub proof fn lemma_finalized_unit_is_locked(
    store: StoreModel,
    unit: Seq<char>,
    attribute: AutoPluginAttribute,
    key: TargetKey,
)
    requires
        store.wf(),
        store.unit(unit).finalized,
    ensures
        store.contribute(unit, attribute, key) == (
            store,
            Err::<(), UpdateStateError>(UpdateStateError::PluginAlreadyRegistered),
        ),
        store.finalize(unit) == (
            store,
            Err::<Targets, UpdateStateError>(UpdateStateError::PluginAlreadyRegistered),
        ),
{
}

/// After a successful finalisation of a file, whatever calls follow, on this
/// file or on others, the file stays finalised and its targets stay those that
/// the finalisation returned.
pub proof fn lemma_snapshot_is_final(store: StoreModel, unit: Seq<char>, later: Seq<Operation>)
    requires
        store.wf(),
        store.finalize(unit).1 is Ok,
    ensures
        store.finalize(unit).0.apply_all(later).unit(unit).finalized,
        store.finalize(unit).0.apply_all(later).unit(unit).targets == store.finalize(unit).1->Ok_0,
{
    let sealed = store.finalize(unit).0;
    lemma_touch_wf(store, unit);
    lemma_apply_wf(store, Operation::Finalize { unit });
    lemma_sealed_unit_is_frozen(sealed, unit, later);
}

/// After a successful finalisation of a file, whatever calls follow, every
/// contribution to the file is refused because the file is finalised, and the
/// refused contribution leaves the store as it was.
pub proof fn lemma_contribution_after_finalize(
    store: StoreModel,
    unit: Seq<char>,
    later: Seq<Operation>,
    attribute: AutoPluginAttribute,
    key: TargetKey,
)
    requires
        store.wf(),
        store.finalize(unit).1 is Ok,
    ensures
        store.finalize(unit).0.apply_all(later).contribute(unit, attribute, key) == (
            store.finalize(unit).0.apply_all(later),
            Err::<(), UpdateStateError>(UpdateStateError::PluginAlreadyRegistered),
        ),
{
    let sealed = store.finalize(unit).0;
    lemma_snapshot_is_final(store, unit, later);
    lemma_apply_wf(store, Operation::Finalize { unit });
    lemma_apply_all_wf(sealed, later);
    lemma_finalized_unit_is_locked(sealed.apply_all(later), unit, attribute, key);
}

proof fn lemma_sealed_unit_is_frozen(store: StoreModel, unit: Seq<char>, later: Seq<Operation>)
    requires
        store.wf(),
        store.unit(unit).finalized,
    ensures
        store.apply_all(later).unit(unit) == store.unit(unit),
    decreases later.len(),
{
    if later.len() > 0 {
        let before = store.apply_all(later.drop_last());
        lemma_sealed_unit_is_frozen(store, unit, later.drop_last());
        lemma_apply_all_wf(store, later.drop_last());
        let other = match later.last() {
            Operation::Contribute { unit, .. } => unit,
            Operation::Finalize { unit } => unit,
        };
        lemma_touch_wf(before, other);
    }
}

/// The list of files that miss their finalisation names each file at most once,
/// and names exactly the files that were seen and not finalised.
pub proof fn lemma_missing_exact(store: StoreModel, unit: Seq<char>)
    requires
        store.wf(),
    ensures
        store.missing().no_duplicates(),
        store.missing().contains(unit) <==> store.has(unit) && !store.unit(unit).finalized,
{
    lemma_missing_among(store, store.units);
    assert(store.units.to_set().contains(unit) <==> store.units.contains(unit));
}

proof fn lemma_missing_among(store: StoreModel, units: Seq<Seq<char>>)
    ensures
        forall|unit: Seq<char>|
            store.missing_among(units).contains(unit) <==> units.contains(unit) && !store.unit(
                unit,
            ).finalized,
        units.no_duplicates() ==> store.missing_among(units).no_duplicates(),
    decreases units.len(),
{
    if units.len() > 0 {
        let head = units.drop_last();
        let last = units.last();
        lemma_missing_among(store, head);
        let found = store.missing_among(head);
        let all = store.missing_among(units);
        assert forall|unit: Seq<char>| all.contains(unit) <==> units.contains(unit) && !store.unit(
            unit,
        ).finalized by {
            if units.contains(unit) {
                let i = choose|i: int| 0 <= i < units.len() && units[i] == unit;
                if i < head.len() {
                    assert(head[i] == unit);
                }
            }
            if head.contains(unit) {
                let i = choose|i: int| 0 <= i < head.len() && head[i] == unit;
                assert(units[i] == unit);
            }
            assert(units[units.len() - 1] == last);
            if found.contains(unit) {
                let i = choose|i: int| 0 <= i < found.len() && found[i] == unit;
                assert(all[i] == unit);
            }
            if all.contains(unit) {
                let i = choose|i: int| 0 <= i < all.len() && all[i] == unit;
                if i < found.len() {
                    assert(found[i] == unit);
                }
            }
            if !store.unit(last).finalized && unit == last {
                assert(all[all.len() - 1] == unit);
            }
        }
        if units.no_duplicates() {
            assert forall|i: int, j: int|
                0 <= i < head.len() && 0 <= j < head.len() && i != j implies head[i]
                != head[j] by {
                assert(units[i] != units[j]);
            }
            assert(head.no_duplicates());
            assert(found.no_duplicates());
            if !store.unit(last).finalized {
                if found.contains(last) {
                    assert(head.contains(last));
                    let i = choose|i: int| 0 <= i < head.len() && head[i] == last;
                    assert(head[i] == units[i]);
                    assert(units[i] == units[units.len() - 1]);
                }
                assert forall|i: int, j: int|
                    0 <= i < all.len() && 0 <= j < all.len() && i != j implies all[i] != all[j] by {
                    if i < found.len() {
                        assert(all[i] == found[i]);
                        assert(found.contains(found[i]));
                    }
                    if j < found.len() {
                        assert(all[j] == found[j]);
                        assert(found.contains(found[j]));
                    }
                }
            }
        }
    }
}

/// A file that received a call and no finalisation is reported, however many
/// contributions it received; a file that was finalised is not.
pub proof fn lemma_missing_after(store: StoreModel, operations: Seq<Operation>, unit: Seq<char>)
    requires
        store.wf(),
        !store.unit(unit).finalized,
    ensures
        (exists|i: int| 0 <= i < operations.len() && finalizes(#[trigger] operations[i], unit))
            ==> !store.apply_all(operations).missing().contains(unit),
        (forall|i: int| 0 <= i < operations.len() ==> !finalizes(#[trigger] operations[i], unit))
            && (store.has(unit) || exists|i: int|
            0 <= i < operations.len() && names(#[trigger] operations[i], unit))
            ==> store.apply_all(operations).missing().contains(unit),
    decreases operations.len(),
{
    lemma_apply_all_wf(store, operations);
    lemma_missing_exact(store.apply_all(operations), unit);
    lemma_unit_after(store, operations, unit);
}

/// Whether `operation` is a call on `unit`.
pub open spec fn names(operation: Operation, unit: Seq<char>) -> bool {
    match operation {
        Operation::Contribute { unit: named, .. } => named == unit,
        Operation::Finalize { unit: named } => named == unit,
    }
}

proof fn lemma_unit_after(store: StoreModel, operations: Seq<Operation>, unit: Seq<char>)
    requires
        store.wf(),
        !store.unit(unit).finalized,
    ensures
        store.apply_all(operations).unit(unit).finalized <==> exists|i: int|
            0 <= i < operations.len() && finalizes(#[trigger] operations[i], unit),
        store.apply_all(operations).has(unit) <==> store.has(unit) || exists|i: int|
            0 <= i < operations.len() && names(#[trigger] operations[i], unit),
    decreases operations.len(),
{
    if operations.len() > 0 {
        let before = operations.drop_last();
        let last = operations.last();
        lemma_unit_after(store, before, unit);
        lemma_apply_all_wf(store, before);
        let mid = store.apply_all(before);
        let other = match last {
            Operation::Contribute { unit, .. } => unit,
            Operation::Finalize { unit } => unit,
        };
        lemma_touch_wf(mid, other);
        if exists|i: int| 0 <= i < before.len() && finalizes(#[trigger] before[i], unit) {
            let i = choose|i: int| 0 <= i < before.len() && finalizes(#[trigger] before[i], unit);
            assert(finalizes(operations[i], unit));
        }
        if exists|i: int| 0 <= i < before.len() && names(#[trigger] before[i], unit) {
            let i = choose|i: int| 0 <= i < before.len() && names(#[trigger] before[i], unit);
            assert(names(operations[i], unit));
        }
        if finalizes(last, unit) {
            assert(finalizes(operations[operations.len() - 1], unit));
        }
        if names(last, unit) {
            assert(names(operations[operations.len() - 1], unit));
        }
        if exists|i: int| 0 <= i < operations.len() && finalizes(#[trigger] operations[i], unit) {
            let i = choose|i: int|
                0 <= i < operations.len() && finalizes(#[trigger] operations[i], unit);
            if i < before.len() {
                assert(finalizes(before[i], unit));
            }
        }
        if exists|i: int| 0 <= i < operations.len() && names(#[trigger] operations[i], unit) {
            let i = choose|i: int| 0 <= i < operations.len() && names(#[trigger] operations[i], unit);
            if i < before.len() {
                assert(names(before[i], unit));
            }
        }
    }
}

/// Whether `operations` holds a contribution of `key` to `attribute` of `unit`.
pub open spec fn contributed(
    operations: Seq<Operation>,
    unit: Seq<char>,
    attribute: AutoPluginAttribute,
    key: TargetKey,
) -> bool {
    exists|i: int|
        0 <= i < operations.len() && #[trigger] operations[i] == (Operation::Contribute {
            unit,
            attribute,
            key,
        })
}

/// While a file is not finalised, its targets are those it had plus those
/// that were contributed to it since, whatever the order of the calls and
/// whatever was contributed to other files or categories in between.
pub proof fn lemma_contributions_collect(
    store: StoreModel,
    operations: Seq<Operation>,
    unit: Seq<char>,
    attribute: AutoPluginAttribute,
    key: TargetKey,
)
    requires
        store.wf(),
        !store.unit(unit).finalized,
        forall|i: int| 0 <= i < operations.len() ==> !finalizes(#[trigger] operations[i], unit),
    ensures
        !store.apply_all(operations).unit(unit).finalized,
        store.apply_all(operations).unit(unit).targets[attribute].contains(key) <==> store.unit(
            unit,
        ).targets[attribute].contains(key) || contributed(operations, unit, attribute, key),
    decreases operations.len(),
{
    if operations.len() > 0 {
        let before = operations.drop_last();
        let last = operations.last();
        assert forall|i: int| 0 <= i < before.len() implies !finalizes(
            #[trigger] before[i],
            unit,
        ) by {
            assert(before[i] == operations[i]);
        }
        lemma_contributions_collect(store, before, unit, attribute, key);
        lemma_apply_all_wf(store, before);
        let mid = store.apply_all(before);
        let other = match last {
            Operation::Contribute { unit, .. } => unit,
            Operation::Finalize { unit } => unit,
        };
        lemma_touch_wf(mid, other);
        assert(!finalizes(operations[operations.len() - 1], unit));
        let wanted = Operation::Contribute { unit, attribute, key };
        if contributed(before, unit, attribute, key) {
            let i = choose|i: int| 0 <= i < before.len() && #[trigger] before[i] == wanted;
            assert(operations[i] == wanted);
        }
        if last == wanted {
            assert(operations[operations.len() - 1] == wanted);
        }
        if contributed(operations, unit, attribute, key) {
            let i = choose|i: int| 0 <= i < operations.len() && #[trigger] operations[i] == wanted;
            if i < before.len() {
                assert(before[i] == wanted);
            }
        }
    }
}

/// Two runs that contribute the same targets to a file, in whatever order and
/// however interleaved across categories, leave the file with the same targets.
pub proof fn lemma_contribution_order_is_irrelevant(
    store: StoreModel,
    first: Seq<Operation>,
    second: Seq<Operation>,
    unit: Seq<char>,
)
    requires
        store.wf(),
        !store.unit(unit).finalized,
        forall|i: int| 0 <= i < first.len() ==> !finalizes(#[trigger] first[i], unit),
        forall|i: int| 0 <= i < second.len() ==> !finalizes(#[trigger] second[i], unit),
        forall|attribute: AutoPluginAttribute, key: TargetKey|
            contributed(first, unit, attribute, key) <==> contributed(
                second,
                unit,
                attribute,
                key,
            ),
    ensures
        store.apply_all(first).unit(unit).targets == store.apply_all(second).unit(unit).targets,
{
    let one = store.apply_all(first).unit(unit).targets;
    let two = store.apply_all(second).unit(unit).targets;
    lemma_apply_all_wf(store, first);
    lemma_apply_all_wf(store, second);
    lemma_no_targets_wf();
    assert(one.dom() =~= two.dom());
    assert forall|attribute: AutoPluginAttribute| one[attribute] == two[attribute] by {
        assert forall|key: TargetKey| one[attribute].contains(key) <==> two[attribute].contains(
            key,
        ) by {
            lemma_contributions_collect(store, first, unit, attribute, key);
            lemma_contributions_collect(store, second, unit, attribute, key);
        }
        assert(one[attribute] =~= two[attribute]);
    }
    assert(one =~= two);
}

} // verus!
