//! The targets collected for one source file, one set per category.

use crate::attribute::{AutoPluginAttribute, ATTRIBUTE_COUNT};
use crate::target::{TargetKey, TargetSpec};
use crate::target_set::{keys_of, strictly_sorted, TargetSet};
use vstd::prelude::*;

verus! {

/// The targets collected for one source file, by category.
#[derive(Debug)]
pub struct AutoPluginContext {
    pub register_types: TargetSet,
    pub register_state_types: TargetSet,
    pub add_events: TargetSet,
    pub init_resources: TargetSet,
    pub init_states: TargetSet,
    pub auto_names: TargetSet,
    pub add_systems: TargetSet,
}

/// One category of a snapshot: the category and its targets in emission order.
pub type CategoryTargets = (AutoPluginAttribute, Vec<TargetSpec>);

impl AutoPluginContext {
    /// The set that holds the targets of `attribute`.
    pub open spec fn set_of(&self, attribute: AutoPluginAttribute) -> TargetSet {
        match attribute {
            AutoPluginAttribute::RegisterType => self.register_types,
            AutoPluginAttribute::RegisterStateType => self.register_state_types,
            AutoPluginAttribute::AddEvent => self.add_events,
            AutoPluginAttribute::InitResource => self.init_resources,
            AutoPluginAttribute::InitState => self.init_states,
            AutoPluginAttribute::Name => self.auto_names,
            AutoPluginAttribute::AddSystem => self.add_systems,
        }
    }

    /// The targets of `attribute`, as a set.
    pub open spec fn targets(&self, attribute: AutoPluginAttribute) -> Set<TargetKey> {
        self.set_of(attribute)@
    }

    /// The targets of `attribute`, in emission order.
    pub open spec fn ordered(&self, attribute: AutoPluginAttribute) -> Seq<TargetKey> {
        self.set_of(attribute).ordered()
    }

    /// Every category's set is well formed.
    pub open spec fn wf(&self) -> bool {
        forall|attribute: AutoPluginAttribute| (#[trigger] self.set_of(attribute)).wf()
    }

    /// A context without targets.
    pub fn new() -> (r: AutoPluginContext)
        ensures
            r.wf(),
            forall|attribute: AutoPluginAttribute|
                #[trigger] r.targets(attribute) == Set::<TargetKey>::empty(),
            forall|attribute: AutoPluginAttribute|
                #[trigger] r.ordered(attribute) == Seq::<TargetKey>::empty(),
    {
        AutoPluginContext {
            register_types: TargetSet::new(),
            register_state_types: TargetSet::new(),
            add_events: TargetSet::new(),
            init_resources: TargetSet::new(),
            init_states: TargetSet::new(),
            auto_names: TargetSet::new(),
            add_systems: TargetSet::new(),
        }
    }

    /// Whether `target` was collected for `attribute`.
    pub fn contains(&self, attribute: AutoPluginAttribute, target: &TargetSpec) -> (r: bool)
        requires
            self.wf(),
        ensures
            r == self.targets(attribute).contains(target@),
    {
        assert(self.set_of(attribute).wf());
        match attribute {
            AutoPluginAttribute::RegisterType => self.register_types.contains(target),
            AutoPluginAttribute::RegisterStateType => self.register_state_types.contains(target),
            AutoPluginAttribute::AddEvent => self.add_events.contains(target),
            AutoPluginAttribute::InitResource => self.init_resources.contains(target),
            AutoPluginAttribute::InitState => self.init_states.contains(target),
            AutoPluginAttribute::Name => self.auto_names.contains(target),
            AutoPluginAttribute::AddSystem => self.add_systems.contains(target),
        }
    }

    /// Adds `target` to the targets of `attribute`. Returns whether it was
    /// new; the other categories are left as they were.
    pub fn insert(&mut self, attribute: AutoPluginAttribute, target: TargetSpec) -> (inserted:
        bool)
        requires
            old(self).wf(),
        ensures
            final(self).wf(),
            inserted == !old(self).targets(attribute).contains(target@),
            final(self).targets(attribute) == old(self).targets(attribute).insert(target@),
            !inserted ==> final(self).ordered(attribute) == old(self).ordered(attribute),
            forall|other: AutoPluginAttribute|
                other != attribute ==> #[trigger] final(self).set_of(other) == old(self).set_of(
                    other,
                ),
    {
        assert(self.set_of(attribute).wf());
        let inserted = match attribute {
            AutoPluginAttribute::RegisterType => self.register_types.insert(target),
            AutoPluginAttribute::RegisterStateType => self.register_state_types.insert(target),
            AutoPluginAttribute::AddEvent => self.add_events.insert(target),
            AutoPluginAttribute::InitResource => self.init_resources.insert(target),
            AutoPluginAttribute::InitState => self.init_states.insert(target),
            AutoPluginAttribute::Name => self.auto_names.insert(target),
            AutoPluginAttribute::AddSystem => self.add_systems.insert(target),
        };
        proof {
            assert forall|other: AutoPluginAttribute| (#[trigger] self.set_of(other)).wf() by {
                if other != attribute {
                    assert(self.set_of(other) == old(self).set_of(other));
                }
            }
        }
        inserted
    }

    /// The targets of `attribute`, in emission order.
    pub fn targets_of(&self, attribute: AutoPluginAttribute) -> (r: Vec<TargetSpec>)
        ensures
            keys_of(r@) == self.ordered(attribute),
    {
        match attribute {
            AutoPluginAttribute::RegisterType => self.register_types.to_vec(),
            AutoPluginAttribute::RegisterStateType => self.register_state_types.to_vec(),
            AutoPluginAttribute::AddEvent => self.add_events.to_vec(),
            AutoPluginAttribute::InitResource => self.init_resources.to_vec(),
            AutoPluginAttribute::InitState => self.init_states.to_vec(),
            AutoPluginAttribute::Name => self.auto_names.to_vec(),
            AutoPluginAttribute::AddSystem => self.add_systems.to_vec(),
        }
    }

    /// All targets: one entry per category, in the order in which the
    /// categories are emitted, each with its targets in emission order.
    pub fn snapshot(&self) -> (r: Vec<CategoryTargets>)
        ensures
            r.len() == ATTRIBUTE_COUNT,
            forall|k: int|
                0 <= k < ATTRIBUTE_COUNT ==> (#[trigger] r@[k]).0 == AutoPluginAttribute::of_rank(k)
                    && keys_of(r@[k].1@) == self.ordered(AutoPluginAttribute::of_rank(k)),
    {
        let mut r: Vec<CategoryTargets> = Vec::new();
        let mut index: usize = 0;
        while index < ATTRIBUTE_COUNT
            invariant
                index <= ATTRIBUTE_COUNT,
                r.len() == index,
                forall|k: int|
                    0 <= k < index ==> (#[trigger] r@[k]).0 == AutoPluginAttribute::of_rank(k)
                        && keys_of(r@[k].1@) == self.ordered(AutoPluginAttribute::of_rank(k)),
            decreases ATTRIBUTE_COUNT - index,
        {
            let attribute = AutoPluginAttribute::from_index(index);
            r.push((attribute, self.targets_of(attribute)));
            index = index + 1;
        }
        r
    }
}

impl Default for AutoPluginContext {
    fn default() -> (r: AutoPluginContext)
        ensures
            r.wf(),
            forall|attribute: AutoPluginAttribute|
                #[trigger] r.targets(attribute) == Set::<TargetKey>::empty(),
            forall|attribute: AutoPluginAttribute|
                #[trigger] r.ordered(attribute) == Seq::<TargetKey>::empty(),
    {
        AutoPluginContext::new()
    }
}

/// In a well-formed context the emission order of a category is strictly
/// sorted and holds exactly the category's targets.
pub proof fn lemma_context_ordered(context: AutoPluginContext, attribute: AutoPluginAttribute)
    requires
        context.wf(),
    ensures
        strictly_sorted(context.ordered(attribute)),
        context.ordered(attribute).to_set() == context.targets(attribute),
{
    assert(context.set_of(attribute).wf());
}

} // verus!
