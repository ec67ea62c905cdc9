//! The state that is kept across contributions, one entry per source file,
//! and the operations that change it.

use crate::attribute::{AutoPluginAttribute, ATTRIBUTE_COUNT};
use crate::context::{AutoPluginContext, CategoryTargets};
use crate::store::{empty_unit, no_targets, StoreModel, Targets, UnitState, UpdateStateError};
use crate::target::{TargetData, TargetKey, TargetSpec};
use crate::target_set::{keys_of, lemma_sorted_targets, sorted_targets};
use crate::text::text_eq;
use vstd::prelude::*;

verus! {

/// What is known of one source file: whether its plugin function was
/// generated, and the targets collected for it.
#[derive(Debug)]
pub struct FileState {
    pub plugin_registered: bool,
    pub context: AutoPluginContext,
}

impl View for FileState {
    type V = UnitState;

    /// The state as the model sees it: the flag, and the targets as sets.
    open spec fn view(&self) -> UnitState {
        UnitState {
            finalized: self.plugin_registered,
            targets: Map::total(|attribute: AutoPluginAttribute| self.context.targets(attribute)),
        }
    }
}

impl FileState {
    /// The sets of the context are well formed.
    pub open spec fn wf(&self) -> bool {
        self.context.wf()
    }

    /// The state of a file that was just seen for the first time.
    pub fn new() -> (r: FileState)
        ensures
            r.wf(),
            r@ == empty_unit(),
    {
        let r = FileState { plugin_registered: false, context: AutoPluginContext::new() };
        assert(r@.targets =~= no_targets());
        r
    }
}

impl Default for FileState {
    fn default() -> (r: FileState)
        ensures
            r.wf(),
            r@ == empty_unit(),
    {
        FileState::new()
    }
}

struct FileEntry {
    file_path: String,
    state: FileState,
}

/// The states of all source files.
pub struct FileStateMap {
    entries: Vec<FileEntry>,
}

/// Whether `snapshot` lists the seven categories in emission order, each with
/// the targets of `targets` in emission order.
pub open spec fn is_snapshot_of(snapshot: Seq<CategoryTargets>, targets: Targets) -> bool {
    &&& snapshot.len() == ATTRIBUTE_COUNT
    &&& forall|k: int|
        0 <= k < ATTRIBUTE_COUNT ==> (#[trigger] snapshot[k]).0 == AutoPluginAttribute::of_rank(k)
            && keys_of(snapshot[k].1@) == sorted_targets(
            targets[AutoPluginAttribute::of_rank(k)],
        )
}

impl View for FileStateMap {
    type V = StoreModel;

    /// The store that the map stands for.
    closed spec fn view(&self) -> StoreModel {
        StoreModel {
            units: self.units(),
            states: Map::new(
                |unit: Seq<char>| self.units().contains(unit),
                |unit: Seq<char>| self.entries@[self.units().index_of(unit)].state@,
            ),
        }
    }
}

impl FileStateMap {
    /// The paths of the files, in the order in which they were first seen.
    pub closed spec fn units(&self) -> Seq<Seq<char>> {
        Seq::new(self.entries@.len(), |i: int| self.entries@[i].file_path@)
    }

    /// The representation invariant: each file has one entry, and the sets of
    /// each entry are well formed.
    pub closed spec fn wf(&self) -> bool {
        &&& self.units().no_duplicates()
        &&& forall|i: int| 0 <= i < self.entries@.len() ==> (#[trigger] self.entries@[i]).state.wf()
    }

    /// A well-formed map stands for a well-formed store, in which each entry
    /// is the state of its file.
    proof fn lemma_view(&self)
        requires
            self.wf(),
        ensures
            self@.wf(),
            self@.units == self.units(),
            self.units().len() == self.entries@.len(),
            forall|i: int|
                0 <= i < self.entries@.len() ==> #[trigger] self.units()[i]
                    == self.entries@[i].file_path@,
            forall|i: int|
                0 <= i < self.entries@.len() ==> self@.has(#[trigger] self.units()[i])
                    && self@.states[self.units()[i]] == self.entries@[i].state@,
            forall|unit: Seq<char>| self@.has(unit) <==> self.units().contains(unit),
    {
        let units = self.units();
        assert forall|i: int| 0 <= i < self.entries@.len() implies self@.has(#[trigger] units[i])
            && self@.states[units[i]] == self.entries@[i].state@ by {
            assert(units.contains(units[i]));
            let j = units.index_of(units[i]);
            assert(0 <= j < units.len() && units[j] == units[i]);
        }
        assert(self@.states.dom() =~= units.to_set());
        assert forall|unit: Seq<char>| #[trigger]
            self@.states.dom().contains(unit) implies crate::store::targets_wf(
            self@.states[unit].targets,
        ) by {
            let i = units.index_of(unit);
            let state = self.entries@[i].state;
            assert(state.wf());
            assert(state@.targets.dom() =~= Set::<AutoPluginAttribute>::full());
            assert forall|attribute: AutoPluginAttribute|
                crate::target_set::has_order(#[trigger] state@.targets[attribute]) by {
                crate::context::lemma_context_ordered(state.context, attribute);
                let order = state.context.ordered(attribute);
                assert(crate::target_set::strictly_sorted(order) && order.to_set()
                    == state@.targets[attribute]);
            }
        }
    }

    /// A well-formed map stands for a well-formed store.
    pub proof fn lemma_view_wf(&self)
        requires
            self.wf(),
        ensures
            self@.wf(),
    {
        self.lemma_view();
    }

    /// The targets that a finalisation returns are well formed.
    pub proof fn lemma_finalize_targets(&self, file_path: Seq<char>)
        requires
            self.wf(),
            self@.finalize(file_path).1 is Ok,
        ensures
            crate::store::targets_wf(self@.finalize(file_path).1->Ok_0),
    {
        self.lemma_view();
        crate::store::lemma_touch_wf(self@, file_path);
    }

    /// A map that knows no file.
    pub fn new() -> (r: FileStateMap)
        ensures
            r.wf(),
            r@ == StoreModel::empty(),
    {
        let r = FileStateMap { entries: Vec::new() };
        assert(r.units() =~= Seq::<Seq<char>>::empty());
        assert(r@.states =~= Map::<Seq<char>, UnitState>::empty());
        r
    }

    /// The number of files that were seen.
    pub fn len(&self) -> (r: usize)
        ensures
            r == self@.units.len(),
    {
        self.entries.len()
    }

    /// The index of the entry of `file_path`.
    fn find(&self, file_path: &str) -> (r: Option<usize>)
        ensures
            match r {
                Some(index) => index < self.entries@.len() && self.units()[index as int]
                    == file_path@,
                None => !self.units().contains(file_path@),
            },
    {
        let mut index: usize = 0;
        while index < self.entries.len()
            invariant
                index <= self.entries@.len(),
                forall|k: int| 0 <= k < index ==> self.units()[k] != file_path@,
            decreases self.entries@.len() - index,
        {
            if text_eq(self.entries[index].file_path.as_str(), file_path) {
                return Some(index);
            }
            index = index + 1;
        }
        None
    }

    /// The index of the entry of `file_path`, which is created where the file
    /// was not seen before.
    fn entry_index(&mut self, file_path: String) -> (index: usize)
        requires
            old(self).wf(),
        ensures
            final(self).wf(),
            final(self)@ == old(self)@.touch(file_path@),
            index < final(self).entries@.len(),
            final(self).units()[index as int] == file_path@,
    {
        proof {
            self.lemma_view();
        }
        match self.find(file_path.as_str()) {
            Some(index) => index,
            None => {
                let ghost before = *self;
                let index = self.entries.len();
                self.entries.push(FileEntry { file_path, state: FileState::new() });
                proof {
                    assert(self.units() =~= before.units().push(file_path@));
                    assert(self.wf()) by {
                        assert forall|i: int, j: int|
                            0 <= i < self.units().len() && 0 <= j < self.units().len() && i
                                != j implies self.units()[i] != self.units()[j] by {
                            if i < index {
                                assert(before.units().contains(before.units()[i]));
                            }
                            if j < index {
                                assert(before.units().contains(before.units()[j]));
                            }
                        }
                        assert forall|i: int| 0 <= i < self.entries@.len() implies (
                        #[trigger] self.entries@[i]).state.wf() by {
                            if i < index {
                                assert(self.entries@[i] == before.entries@[i]);
                            }
                        }
                    }
                    self.lemma_view();
                    let expected = before@.touch(file_path@);
                    crate::store::lemma_touch_wf(before@, file_path@);
                    assert(self@.states =~= expected.states) by {
                        assert forall|unit: Seq<char>| self@.states.dom().contains(unit) implies
                            #[trigger] self@.states[unit] == expected.states[unit] by {
                            let i = choose|i: int|
                                0 <= i < self.units().len() && self.units()[i] == unit;
                            if i < index {
                                assert(before.units()[i] == unit);
                                assert(self.entries@[i] == before.entries@[i]);
                            }
                        }
                        assert(self@.states.dom() =~= expected.states.dom());
                    }
                }
                index
            },
        }
    }

    /// The state of `file_path`, if the file was seen.
    pub fn get(&self, file_path: &str) -> (r: Option<&FileState>)
        requires
            self.wf(),
        ensures
            match r {
                Some(state) => self@.has(file_path@) && state@ == self@.states[file_path@]
                    && state.wf(),
                None => !self@.has(file_path@),
            },
    {
        proof {
            self.lemma_view();
        }
        match self.find(file_path) {
            Some(index) => Some(&self.entries[index].state),
            None => None,
        }
    }
}

/// Runs `update_fn` on the state of `file_path`, which is created, without
/// targets and not finalised, where the file was not seen before. The other
/// files are left as they were.
pub fn update_file_state<R, F: FnOnce(&mut FileState) -> R>(
    map: &mut FileStateMap,
    file_path: String,
    update_fn: F,
) -> (r: R)
    requires
        old(map).wf(),
        forall|state: &mut FileState|
            state.wf() && (*state)@ == old(map)@.unit(file_path@) ==> update_fn.requires((state,)),
        forall|state: &mut FileState, r: R|
            state.wf() && update_fn.ensures((state,), r) ==> final(state).wf(),
    ensures
        final(map).wf(),
        exists|state: &mut FileState|
            (*state)@ == old(map)@.unit(file_path@) && #[trigger] update_fn.ensures((state,), r)
                && final(map)@ == old(map)@.touch(file_path@).with_unit(
                file_path@,
                (*final(state))@,
            ),
{
    let index = map.entry_index(file_path);
    let ghost touched = *map;
    proof {
        old(map).lemma_view();
        crate::store::lemma_touch_wf(old(map)@, file_path@);
        touched.lemma_view();
    }
    let r = update_fn(&mut map.entries[index].state);
    proof {
        assert(map.entries@ == touched.entries@.update(index as int, map.entries@[index as int]));
        assert(map.units() =~= touched.units());
        assert(map.wf());
        map.lemma_view();
        let expected = touched@.with_unit(file_path@, map.entries@[index as int].state@);
        assert(map@.states =~= expected.states) by {
            assert forall|unit: Seq<char>| map@.states.dom().contains(unit) implies
                #[trigger] map@.states[unit] == expected.states[unit] by {
                let i = choose|i: int| 0 <= i < map.units().len() && map.units()[i] == unit;
                if i != index {
                    assert(map.entries@[i] == touched.entries@[i]);
                }
            }
            assert(map@.states.dom() =~= expected.states.dom());
        }
    }
    r
}

/// Contributes `target` to the targets of `attribute` of `file_path`.
///
/// The file is created where it was not seen before. A file that was already
/// finalised refuses the contribution with `PluginAlreadyRegistered`; a target
/// that the file already holds in this category is refused with `Duplicate`.
/// A refused contribution changes nothing else.
pub fn contribute(
    map: &mut FileStateMap,
    file_path: String,
    attribute: AutoPluginAttribute,
    target: TargetSpec,
) -> (r: Result<(), UpdateStateError>)
    requires
        old(map).wf(),
    ensures
        final(map).wf(),
        (final(map)@, r) == old(map)@.contribute(file_path@, attribute, target@),
{
    let ghost key = target@;
    let index = map.entry_index(file_path);
    let ghost touched = *map;
    proof {
        touched.lemma_view();
    }
    if map.entries[index].state.plugin_registered {
        return Err(UpdateStateError::PluginAlreadyRegistered);
    }
    let inserted = map.entries[index].state.context.insert(attribute, target);
    proof {
        assert(map.units() =~= touched.units());
        assert(map.wf()) by {
            assert forall|i: int| 0 <= i < map.entries@.len() implies (
            #[trigger] map.entries@[i]).state.wf() by {
                if i != index {
                    assert(map.entries@[i] == touched.entries@[i]);
                }
            }
        }
        map.lemma_view();
        let before = touched@.states[file_path@];
        let expected = if inserted {
            touched@.with_unit(
                file_path@,
                UnitState {
                    finalized: false,
                    targets: before.targets.insert(attribute, before.targets[attribute].insert(key)),
                },
            )
        } else {
            touched@
        };
        assert(map@.states =~= expected.states) by {
            assert forall|unit: Seq<char>| map@.states.dom().contains(unit) implies
                #[trigger] map@.states[unit] == expected.states[unit] by {
                let i = choose|i: int| 0 <= i < map.units().len() && map.units()[i] == unit;
                if i != index {
                    assert(map.entries@[i] == touched.entries@[i]);
                } else {
                    let now = map.entries@[i].state;
                    let then = touched.entries@[i].state;
                    assert(now@.targets =~= expected.states[unit].targets) by {
                        assert forall|other: AutoPluginAttribute|
                            now@.targets[other] == expected.states[unit].targets[other] by {
                            if other != attribute {
                                assert(now.context.set_of(other) == then.context.set_of(other));
                            }
                        }
                    }
                }
            }
            assert(map@.states.dom() =~= expected.states.dom());
        }
    }
    if !inserted {
        return Err(UpdateStateError::Duplicate);
    }
    Ok(())
}

/// Contributes `target` to the targets of `file_path`, in the category and
/// under the canonical rendering of the target. It is refused as `contribute`
/// refuses.
pub fn update_state(map: &mut FileStateMap, file_path: String, target: TargetData) -> (r: Result<
    (),
    UpdateStateError,
>)
    requires
        old(map).wf(),
    ensures
        final(map).wf(),
        (final(map)@, r) == old(map)@.contribute(file_path@, target.attribute(), target.key()),
{
    contribute(map, file_path, target.category(), target.to_spec())
}

/// Finalises `file_path` and returns the targets that were collected for it:
/// one entry per category, in the order in which the categories are emitted,
/// each with its targets in emission order.
///
/// The file is created where it was not seen before. A file that was already
/// finalised refuses with `PluginAlreadyRegistered` and stays as it was.
pub fn finalize(map: &mut FileStateMap, file_path: String) -> (r: Result<
    Vec<CategoryTargets>,
    UpdateStateError,
>)
    requires
        old(map).wf(),
    ensures
        final(map).wf(),
        final(map)@ == old(map)@.finalize(file_path@).0,
        match r {
            Ok(snapshot) => old(map)@.finalize(file_path@).1 is Ok && is_snapshot_of(
                snapshot@,
                old(map)@.finalize(file_path@).1->Ok_0,
            ),
            Err(error) => old(map)@.finalize(file_path@).1 == Err::<Targets, UpdateStateError>(
                error,
            ),
        },
{
    let index = map.entry_index(file_path);
    let ghost touched = *map;
    proof {
        touched.lemma_view();
    }
    if map.entries[index].state.plugin_registered {
        return Err(UpdateStateError::PluginAlreadyRegistered);
    }
    map.entries[index].state.plugin_registered = true;
    let snapshot = map.entries[index].state.context.snapshot();
    proof {
        assert(map.units() =~= touched.units());
        assert(map.wf()) by {
            assert forall|i: int| 0 <= i < map.entries@.len() implies (
            #[trigger] map.entries@[i]).state.wf() by {
                if i != index {
                    assert(map.entries@[i] == touched.entries@[i]);
                }
            }
        }
        map.lemma_view();
        let before = touched@.states[file_path@];
        let expected = touched@.with_unit(
            file_path@,
            UnitState { finalized: true, targets: before.targets },
        );
        assert(map@.states =~= expected.states) by {
            assert forall|unit: Seq<char>| map@.states.dom().contains(unit) implies
                #[trigger] map@.states[unit] == expected.states[unit] by {
                let i = choose|i: int| 0 <= i < map.units().len() && map.units()[i] == unit;
                if i != index {
                    assert(map.entries@[i] == touched.entries@[i]);
                } else {
                    assert(map.entries@[i].state@.targets =~= before.targets);
                }
            }
            assert(map@.states.dom() =~= expected.states.dom());
        }
        let context = map.entries@[index as int].state.context;
        assert forall|k: int| 0 <= k < ATTRIBUTE_COUNT implies keys_of((#[trigger] snapshot@[k]).1@)
            == sorted_targets(before.targets[AutoPluginAttribute::of_rank(k)]) by {
            let attribute = AutoPluginAttribute::of_rank(k);
            crate::context::lemma_context_ordered(context, attribute);
            lemma_sorted_targets(context.ordered(attribute));
        }
    }
    Ok(snapshot)
}

/// The files that were seen and never finalised, each once, in the order in
/// which they were first seen.
pub fn get_files_missing_plugin(map: &FileStateMap) -> (r: Vec<String>)
    requires
        map.wf(),
    ensures
        r@.len() == map@.missing().len(),
        forall|k: int| 0 <= k < r@.len() ==> (#[trigger] r@[k])@ == map@.missing()[k],
{
    let mut files_missing_plugin: Vec<String> = Vec::new();
    let mut index: usize = 0;
    proof {
        map.lemma_view();
    }
    while index < map.entries.len()
        invariant
            index <= map.entries@.len(),
            map.wf(),
            map@.units == map.units(),
            map.units().len() == map.entries@.len(),
            forall|i: int|
                0 <= i < map.entries@.len() ==> #[trigger] map.units()[i]
                    == map.entries@[i].file_path@,
            forall|i: int|
                0 <= i < map.entries@.len() ==> map@.has(#[trigger] map.units()[i])
                    && map@.states[map.units()[i]] == map.entries@[i].state@,
            files_missing_plugin@.len() == map@.missing_among(map.units().take(index as int)).len(),
            forall|k: int|
                0 <= k < files_missing_plugin@.len() ==> (#[trigger] files_missing_plugin@[k])@
                    == map@.missing_among(map.units().take(index as int))[k],
        decreases map.entries@.len() - index,
    {
        assert(map.units().take(index + 1).drop_last() == map.units().take(index as int));
        assert(map.units().take(index + 1).last() == map.units()[index as int]);
        if !map.entries[index].state.plugin_registered {
            files_missing_plugin.push(map.entries[index].file_path.clone());
        }
        index = index + 1;
    }
    assert(map.units().take(index as int) == map.units());
    files_missing_plugin
}

} // verus!
