//! Target specifications: the canonical identity of one tagged declaration
//! within one category.

use crate::attribute::AutoPluginAttribute;
use crate::text::{
    canonical, canonical_path, lemma_text_lt_irreflexive, lemma_text_lt_total,
    lemma_text_lt_transitive, text_eq, text_less, text_lt,
};
use vstd::prelude::*;

verus! {

/// The mathematical value of a target specification.
///
/// `path` is the canonical rendering of the declaration path with its generic
/// arguments. `detail` is empty for the plain categories, the derived display
/// name for `Name`, and the arguments of the scheduling call for `AddSystem`.
pub struct TargetKey {
    pub path: Seq<char>,
    pub detail: Seq<char>,
}

/// The order in which the targets of one category are emitted: by path, then
/// by detail.
pub open spec fn key_lt(a: TargetKey, b: TargetKey) -> bool {
    text_lt(a.path, b.path) || (a.path == b.path && text_lt(a.detail, b.detail))
}

/// No key is below itself.
pub proof fn lemma_key_lt_irreflexive(a: TargetKey)
    ensures
        !key_lt(a, a),
{
    lemma_text_lt_irreflexive(a.path);
    lemma_text_lt_irreflexive(a.detail);
}

/// The order on keys is transitive.
pub proof fn lemma_key_lt_transitive(a: TargetKey, b: TargetKey, c: TargetKey)
    requires
        key_lt(a, b),
        key_lt(b, c),
    ensures
        key_lt(a, c),
{
    if text_lt(a.path, b.path) && text_lt(b.path, c.path) {
        lemma_text_lt_transitive(a.path, b.path, c.path);
    }
    if a.path == b.path && b.path == c.path {
        lemma_text_lt_irreflexive(a.path);
        lemma_text_lt_transitive(a.detail, b.detail, c.detail);
    }
}

/// Two keys that the order does not separate are equal.
pub proof fn lemma_key_lt_total(a: TargetKey, b: TargetKey)
    requires
        !key_lt(a, b),
        !key_lt(b, a),
    ensures
        a == b,
{
    lemma_text_lt_total(a.path, b.path);
    lemma_text_lt_total(a.detail, b.detail);
}

/// No two keys are below each other.
pub proof fn lemma_key_lt_asymmetric(a: TargetKey, b: TargetKey)
    requires
        key_lt(a, b),
    ensures
        !key_lt(b, a),
{
    if key_lt(b, a) {
        lemma_key_lt_transitive(a, b, a);
        lemma_key_lt_irreflexive(a);
    }
}

/// One target of one category, as it is stored and emitted. The path is held
/// in canonical rendering; `TargetData::to_spec` renders it.
#[derive(Clone, Debug, PartialEq, Eq)]
pub struct TargetSpec {
    pub path: String,
    pub detail: String,
}

impl View for TargetSpec {
    type V = TargetKey;

    /// The path and the detail as texts.
    open spec fn view(&self) -> TargetKey {
        TargetKey { path: self.path@, detail: self.detail@ }
    }
}

impl TargetSpec {
    /// The target with the given canonical path and detail.
    pub fn new(path: String, detail: String) -> (r: TargetSpec)
        ensures
            r@ == (TargetKey { path: path@, detail: detail@ }),
    {
        TargetSpec { path, detail }
    }

    /// A copy of the target.
    pub fn duplicate(&self) -> (r: TargetSpec)
        ensures
            r@ == self@,
    {
        TargetSpec { path: self.path.clone(), detail: self.detail.clone() }
    }

    /// Whether the two targets are the same target.
    pub fn same(&self, other: &TargetSpec) -> (r: bool)
        ensures
            r == (self@ == other@),
    {
        text_eq(self.path.as_str(), other.path.as_str()) && text_eq(
            self.detail.as_str(),
            other.detail.as_str(),
        )
    }

    /// Whether this target is emitted before `other`.
    pub fn less(&self, other: &TargetSpec) -> (r: bool)
        ensures
            r == key_lt(self@, other@),
    {
        if text_less(self.path.as_str(), other.path.as_str()) {
            true
        } else if text_eq(self.path.as_str(), other.path.as_str()) {
            text_less(self.detail.as_str(), other.detail.as_str())
        } else {
            false
        }
    }
}

/// One ordering constraint of a system relative to another scheduled entry.
#[derive(Clone, Debug, PartialEq, Eq)]
pub enum OrderingConstraint {
    /// The system runs before the named entry.
    Before(String),
    /// The system runs after the named entry.
    After(String),
}

/// The scheduling parameters of a system: its target schedule, its ordering
/// constraints relative to other scheduled entries, and its run condition.
/// The entries that the constraints name and the run condition are carried
/// verbatim.
#[derive(Clone, Debug, PartialEq, Eq)]
pub struct AddSystemParams {
    pub schedule: String,
    pub ordering: Vec<OrderingConstraint>,
    pub run_if: Option<String>,
}

/// One ordering constraint as it is appended to the system.
pub open spec fn constraint_text(constraint: OrderingConstraint) -> Seq<char> {
    match constraint {
        OrderingConstraint::Before(entry) => ".before("@ + entry@ + ")"@,
        OrderingConstraint::After(entry) => ".after("@ + entry@ + ")"@,
    }
}

/// The ordering constraints as they are appended to the system, in order.
pub open spec fn ordering_text(ordering: Seq<OrderingConstraint>) -> Seq<char>
    decreases ordering.len(),
{
    if ordering.len() == 0 {
        Seq::empty()
    } else {
        ordering_text(ordering.drop_last()) + constraint_text(ordering.last())
    }
}

/// The run condition as it is appended to the system.
pub open spec fn run_condition_text(run_if: Option<Seq<char>>) -> Seq<char> {
    match run_if {
        Some(condition) => ".run_if("@ + condition + ")"@,
        None => Seq::empty(),
    }
}

/// The arguments of the scheduling call of `system`: the schedule, then the
/// system with its ordering constraints and its run condition.
pub open spec fn system_arguments(
    system: Seq<char>,
    schedule: Seq<char>,
    ordering: Seq<OrderingConstraint>,
    run_if: Option<Seq<char>>,
) -> Seq<char> {
    canonical(schedule) + ", "@ + canonical(system) + ordering_text(ordering) + run_condition_text(
        run_if,
    )
}

impl OrderingConstraint {
    /// A copy of the constraint.
    pub fn duplicate(&self) -> (r: OrderingConstraint)
        ensures
            r == *self,
    {
        match self {
            OrderingConstraint::Before(entry) => OrderingConstraint::Before(entry.clone()),
            OrderingConstraint::After(entry) => OrderingConstraint::After(entry.clone()),
        }
    }
}

impl AddSystemParams {
    /// The run condition, if there is one.
    pub open spec fn run_if_view(&self) -> Option<Seq<char>> {
        match self.run_if {
            Some(condition) => Some(condition@),
            None => None,
        }
    }

    /// A copy of the parameters.
    pub fn duplicate(&self) -> (r: AddSystemParams)
        ensures
            r.schedule@ == self.schedule@,
            r.ordering@ == self.ordering@,
            r.run_if_view() == self.run_if_view(),
    {
        let run_if = match &self.run_if {
            Some(condition) => Some(condition.clone()),
            None => None,
        };
        let mut ordering: Vec<OrderingConstraint> = Vec::new();
        let mut index: usize = 0;
        while index < self.ordering.len()
            invariant
                index <= self.ordering@.len(),
                ordering@ == self.ordering@.take(index as int),
            decreases self.ordering@.len() - index,
        {
            ordering.push(self.ordering[index].duplicate());
            index = index + 1;
            assert(self.ordering@.take(index as int) == self.ordering@.take(index - 1).push(
                self.ordering@[index - 1],
            ));
        }
        assert(self.ordering@.take(self.ordering@.len() as int) == self.ordering@);
        AddSystemParams { schedule: self.schedule.clone(), ordering, run_if }
    }
}

/// A system with its scheduling parameters, serialised into the form in which
/// it is stored: the canonical system path and the call's arguments.
#[derive(Clone, Debug, PartialEq, Eq)]
pub struct AddSystemSerializedParams {
    pub system: String,
    pub arguments: String,
}

impl AddSystemSerializedParams {
    /// Serialises `system` with its scheduling parameters.
    pub fn from_macro_attr(system: &str, params: &AddSystemParams) -> (r: AddSystemSerializedParams)
        ensures
            r.system@ == canonical(system@),
            r.arguments@ == system_arguments(
                system@,
                params.schedule@,
                params.ordering@,
                params.run_if_view(),
            ),
    {
        let path = canonical_path(system);
        let mut arguments = canonical_path(params.schedule.as_str());
        arguments.append(", ");
        arguments.append(path.as_str());
        let ghost head = arguments@;
        let mut index: usize = 0;
        while index < params.ordering.len()
            invariant
                index <= params.ordering@.len(),
                arguments@ == head + ordering_text(params.ordering@.take(index as int)),
            decreases params.ordering@.len() - index,
        {
            assert(params.ordering@.take(index + 1).drop_last() == params.ordering@.take(
                index as int,
            ));
            let ghost before = arguments@;
            match &params.ordering[index] {
                OrderingConstraint::Before(entry) => {
                    arguments.append(".before(");
                    arguments.append(entry.as_str());
                    arguments.append(")");
                },
                OrderingConstraint::After(entry) => {
                    arguments.append(".after(");
                    arguments.append(entry.as_str());
                    arguments.append(")");
                },
            }
            assert(arguments@ =~= before + constraint_text(params.ordering@[index as int]));
            assert(arguments@ =~= head + (ordering_text(params.ordering@.take(index as int))
                + constraint_text(params.ordering@[index as int])));
            index = index + 1;
        }
        assert(params.ordering@.take(params.ordering@.len() as int) == params.ordering@);
        match &params.run_if {
            Some(condition) => {
                arguments.append(".run_if(");
                arguments.append(condition.as_str());
                arguments.append(")");
                assert(arguments@ =~= head + ordering_text(params.ordering@) + (".run_if("@
                    + condition@ + ")"@));
            },
            None => {
                assert(arguments@ =~= head + ordering_text(params.ordering@) + Seq::<char>::empty());
            },
        }
        AddSystemSerializedParams { system: path, arguments }
    }
}

/// One contribution: a declaration path tagged for one category.
#[derive(Clone, Debug, PartialEq, Eq)]
pub enum TargetData {
    RegisterTypes(String),
    RegisterStateTypes(String),
    AddEvents(String),
    InitResources(String),
    InitStates(String),
    RequiredComponentAutoName { path: String, name: String },
    AddSystem { system: String, params: AddSystemParams },
}

impl TargetData {
    /// The category that the contribution belongs to.
    pub open spec fn attribute(&self) -> AutoPluginAttribute {
        match self {
            TargetData::RegisterTypes(_) => AutoPluginAttribute::RegisterType,
            TargetData::RegisterStateTypes(_) => AutoPluginAttribute::RegisterStateType,
            TargetData::AddEvents(_) => AutoPluginAttribute::AddEvent,
            TargetData::InitResources(_) => AutoPluginAttribute::InitResource,
            TargetData::InitStates(_) => AutoPluginAttribute::InitState,
            TargetData::RequiredComponentAutoName { .. } => AutoPluginAttribute::Name,
            TargetData::AddSystem { .. } => AutoPluginAttribute::AddSystem,
        }
    }

    /// The target specification that the contribution stands for.
    pub open spec fn key(&self) -> TargetKey {
        match self {
            TargetData::RegisterTypes(path) => plain_key(path@),
            TargetData::RegisterStateTypes(path) => plain_key(path@),
            TargetData::AddEvents(path) => plain_key(path@),
            TargetData::InitResources(path) => plain_key(path@),
            TargetData::InitStates(path) => plain_key(path@),
            TargetData::RequiredComponentAutoName { path, name } => TargetKey {
                path: canonical(path@),
                detail: name@,
            },
            TargetData::AddSystem { system, params } => TargetKey {
                path: canonical(system@),
                detail: system_arguments(
                    system@,
                    params.schedule@,
                    params.ordering@,
                    params.run_if_view(),
                ),
            },
        }
    }

    /// The category that the contribution belongs to.
    pub fn category(&self) -> (r: AutoPluginAttribute)
        ensures
            r == self.attribute(),
    {
        match self {
            TargetData::RegisterTypes(_) => AutoPluginAttribute::RegisterType,
            TargetData::RegisterStateTypes(_) => AutoPluginAttribute::RegisterStateType,
            TargetData::AddEvents(_) => AutoPluginAttribute::AddEvent,
            TargetData::InitResources(_) => AutoPluginAttribute::InitResource,
            TargetData::InitStates(_) => AutoPluginAttribute::InitState,
            TargetData::RequiredComponentAutoName { .. } => AutoPluginAttribute::Name,
            TargetData::AddSystem { .. } => AutoPluginAttribute::AddSystem,
        }
    }

    /// Renders the contribution as the target specification that is stored.
    pub fn to_spec(&self) -> (r: TargetSpec)
        ensures
            r@ == self.key(),
    {
        match self {
            TargetData::RegisterTypes(path) => plain_spec(path.as_str()),
            TargetData::RegisterStateTypes(path) => plain_spec(path.as_str()),
            TargetData::AddEvents(path) => plain_spec(path.as_str()),
            TargetData::InitResources(path) => plain_spec(path.as_str()),
            TargetData::InitStates(path) => plain_spec(path.as_str()),
            TargetData::RequiredComponentAutoName { path, name } => TargetSpec {
                path: canonical_path(path.as_str()),
                detail: name.clone(),
            },
            TargetData::AddSystem { system, params } => {
                let serialized = AddSystemSerializedParams::from_macro_attr(
                    system.as_str(),
                    params,
                );
                TargetSpec { path: serialized.system, detail: serialized.arguments }
            },
        }
    }
}

/// The key of a target that is a bare path.
pub open spec fn plain_key(path: Seq<char>) -> TargetKey {
    TargetKey { path: canonical(path), detail: Seq::empty() }
}

fn plain_spec(path: &str) -> (r: TargetSpec)
    ensures
        r@ == plain_key(path@),
{
    TargetSpec { path: canonical_path(path), detail: String::new() }
}

} // verus!
