//! The closed set of marker attributes, one per registration category, and
//! the fixed order in which their registrations are emitted.

use crate::text::text_eq;
use vstd::prelude::*;

verus! {

/// A registration category. Each has one marker attribute.
#[derive(Clone, Copy, Debug, PartialEq, Eq, Hash, Structural)]
pub enum AutoPluginAttribute {
    RegisterType,
    RegisterStateType,
    AddEvent,
    InitResource,
    InitState,
    Name,
    AddSystem,
}

/// The number of categories.
pub const ATTRIBUTE_COUNT: usize = 7;

impl AutoPluginAttribute {
    /// The place of the category in the emitted function: registrations of a
    /// category with a lower rank come first.
    pub open spec fn rank(self) -> int {
        match self {
            AutoPluginAttribute::RegisterType => 0,
            AutoPluginAttribute::RegisterStateType => 1,
            AutoPluginAttribute::AddEvent => 2,
            AutoPluginAttribute::InitResource => 3,
            AutoPluginAttribute::InitState => 4,
            AutoPluginAttribute::Name => 5,
            AutoPluginAttribute::AddSystem => 6,
        }
    }

    /// The category of the given rank.
    pub open spec fn of_rank(rank: int) -> AutoPluginAttribute {
        if rank == 0 {
            AutoPluginAttribute::RegisterType
        } else if rank == 1 {
            AutoPluginAttribute::RegisterStateType
        } else if rank == 2 {
            AutoPluginAttribute::AddEvent
        } else if rank == 3 {
            AutoPluginAttribute::InitResource
        } else if rank == 4 {
            AutoPluginAttribute::InitState
        } else if rank == 5 {
            AutoPluginAttribute::Name
        } else {
            AutoPluginAttribute::AddSystem
        }
    }

    /// The identifier of the category's marker attribute.
    pub open spec fn ident(self) -> Seq<char> {
        match self {
            AutoPluginAttribute::RegisterType => "auto_register_type"@,
            AutoPluginAttribute::RegisterStateType => "auto_register_state_type"@,
            AutoPluginAttribute::AddEvent => "auto_add_event"@,
            AutoPluginAttribute::InitResource => "auto_init_resource"@,
            AutoPluginAttribute::InitState => "auto_init_state"@,
            AutoPluginAttribute::Name => "auto_name"@,
            AutoPluginAttribute::AddSystem => "auto_add_system"@,
        }
    }

    /// Whether the category's targets carry scheduling parameters.
    pub open spec fn is_scheduled(self) -> bool {
        self == AutoPluginAttribute::AddSystem
    }

    /// The rank of the category.
    pub fn index(self) -> (r: usize)
        ensures
            r == self.rank(),
            r < ATTRIBUTE_COUNT,
    {
        match self {
            AutoPluginAttribute::RegisterType => 0,
            AutoPluginAttribute::RegisterStateType => 1,
            AutoPluginAttribute::AddEvent => 2,
            AutoPluginAttribute::InitResource => 3,
            AutoPluginAttribute::InitState => 4,
            AutoPluginAttribute::Name => 5,
            AutoPluginAttribute::AddSystem => 6,
        }
    }

    /// The category of the given rank.
    pub fn from_index(index: usize) -> (r: AutoPluginAttribute)
        requires
            index < ATTRIBUTE_COUNT,
        ensures
            r == AutoPluginAttribute::of_rank(index as int),
            r.rank() == index,
    {
        if index == 0 {
            AutoPluginAttribute::RegisterType
        } else if index == 1 {
            AutoPluginAttribute::RegisterStateType
        } else if index == 2 {
            AutoPluginAttribute::AddEvent
        } else if index == 3 {
            AutoPluginAttribute::InitResource
        } else if index == 4 {
            AutoPluginAttribute::InitState
        } else if index == 5 {
            AutoPluginAttribute::Name
        } else {
            AutoPluginAttribute::AddSystem
        }
    }

    /// The identifier of the category's marker attribute.
    pub fn ident_str(&self) -> (r: &'static str)
        ensures
            r@ == self.ident(),
    {
        match self {
            AutoPluginAttribute::RegisterType => "auto_register_type",
            AutoPluginAttribute::RegisterStateType => "auto_register_state_type",
            AutoPluginAttribute::AddEvent => "auto_add_event",
            AutoPluginAttribute::InitResource => "auto_init_resource",
            AutoPluginAttribute::InitState => "auto_init_state",
            AutoPluginAttribute::Name => "auto_name",
            AutoPluginAttribute::AddSystem => "auto_add_system",
        }
    }

    /// The category whose marker attribute is called `name`, if there is one.
    pub fn from_ident(name: &str) -> (r: Option<AutoPluginAttribute>)
        ensures
            r == marker_of(name@),
    {
        let mut index: usize = 0;
        while index < ATTRIBUTE_COUNT
            invariant
                index <= ATTRIBUTE_COUNT,
                forall|k: int| 0 <= k < index ==> AutoPluginAttribute::of_rank(k).ident() != name@,
            decreases ATTRIBUTE_COUNT - index,
        {
            let attribute = AutoPluginAttribute::from_index(index);
            if text_eq(attribute.ident_str(), name) {
                proof {
                    lemma_idents_distinct();
                }
                return Some(attribute);
            }
            index = index + 1;
        }
        proof {
            assert forall|a: AutoPluginAttribute| a.ident() != name@ by {
                assert(AutoPluginAttribute::of_rank(a.rank()) == a);
            }
        }
        None
    }
}

/// The category that the attribute identifier `name` marks: `None` for every
/// identifier that is not a marker.
pub open spec fn marker_of(name: Seq<char>) -> Option<AutoPluginAttribute> {
    if exists|a: AutoPluginAttribute| a.ident() == name {
        Some(choose|a: AutoPluginAttribute| a.ident() == name)
    } else {
        None
    }
}

/// No two categories share a marker identifier.
pub proof fn lemma_idents_distinct()
    ensures
        forall|a: AutoPluginAttribute, b: AutoPluginAttribute| a.ident() == b.ident() ==> a == b,
        forall|a: AutoPluginAttribute| #[trigger] marker_of(a.ident()) == Some(a),
{
    reveal_strlit("auto_register_type");
    reveal_strlit("auto_register_state_type");
    reveal_strlit("auto_add_event");
    reveal_strlit("auto_init_resource");
    reveal_strlit("auto_init_state");
    reveal_strlit("auto_name");
    reveal_strlit("auto_add_system");
    assert("auto_register_type"@[5] != "auto_init_resource"@[5]);
    assert("auto_init_state"@[5] != "auto_add_system"@[5]);
    assert forall|a: AutoPluginAttribute, b: AutoPluginAttribute| a.ident() == b.ident() implies a
        == b by {
        if a != b {
            assert(a.ident().len() != b.ident().len() || a.ident()[5] != b.ident()[5]);
        }
    }
}

/// Ranks and categories correspond one to one.
pub proof fn lemma_rank_bijective()
    ensures
        forall|a: AutoPluginAttribute| 0 <= #[trigger] a.rank() < ATTRIBUTE_COUNT,
        forall|a: AutoPluginAttribute| AutoPluginAttribute::of_rank(#[trigger] a.rank()) == a,
        forall|k: int|
            0 <= k < ATTRIBUTE_COUNT ==> (#[trigger] AutoPluginAttribute::of_rank(k)).rank() == k,
{
}

} // verus!
