//! Synthesis for one scope: scan, resolve, collect, and emit the plugin
//! function.

use crate::attribute::{AutoPluginAttribute, ATTRIBUTE_COUNT};
use crate::context::{lemma_context_ordered, AutoPluginContext};
use crate::file_state::{contribute, finalize, is_snapshot_of, FileStateMap};
use crate::generate::{generate_plugin, groups_of, lemma_snapshot_text, plugin_text};
use crate::path_syntax::PathError;
use crate::resolver::{instantiation_count, resolve_targets, resolved_at, ResolveError};
use crate::scanner::{
    annotation_fault, fault_at, faultless_upto, is_scan_of, is_site, marker_at, scan_scope,
    site_before, Annotation, Declaration, ItemWithAttributeMatch, ParseError,
};
use crate::store::{Targets, UpdateStateError};
use crate::target::TargetKey;
use crate::target_set::{keys_of, lemma_sorted_targets, sorted_targets};
use vstd::prelude::*;

verus! {

/// Why no plugin function could be synthesised for a scope.
#[derive(Clone, Debug, PartialEq, Eq)]
pub enum PluginError {
    /// A marker has malformed arguments.
    Parse(ParseError),
    /// The parser refused the path of this instantiation of this marker. No
    /// target of the marker was collected.
    Path { declaration: usize, annotation: usize, instantiation: usize, error: PathError },
    /// This instantiation repeats a target that an earlier one contributed to
    /// the same category.
    Duplicate { declaration: usize, annotation: usize, instantiation: usize },
    /// The parser refused the path of a collected target at emission.
    Generate(PathError),
    /// The state of the source file refused the call.
    Update(UpdateStateError),
}

/// Whether `(declaration, annotation, instantiation)` names one instantiation
/// of one marker of `items`.
pub open spec fn is_instance(
    items: Seq<Declaration>,
    declaration: int,
    annotation: int,
    instantiation: int,
) -> bool {
    is_site(items, declaration, annotation) && marker_at(items, declaration, annotation) is Some
        && 0 <= instantiation < instantiation_count(
        items[declaration].annotations@[annotation],
    )
}

/// The target specification of one instantiation of one marker of `items`.
pub open spec fn instance_key(
    items: Seq<Declaration>,
    declaration: int,
    annotation: int,
    instantiation: int,
) -> TargetKey {
    resolved_at(
        marker_at(items, declaration, annotation)->Some_0,
        items[declaration],
        items[declaration].annotations@[annotation],
        instantiation,
    )
}

/// Source order of instantiations: by marker, then by place in the marker.
pub open spec fn instance_before(d1: int, a1: int, i1: int, d2: int, a2: int, i2: int) -> bool {
    site_before(d1, a1, d2, a2) || (d1 == d2 && a1 == a2 && i1 < i2)
}

/// Whether the instantiation contributes `key` to `attribute`.
pub open spec fn contributes(
    items: Seq<Declaration>,
    declaration: int,
    annotation: int,
    instantiation: int,
    attribute: AutoPluginAttribute,
    key: TargetKey,
) -> bool {
    is_instance(items, declaration, annotation, instantiation) && marker_at(
        items,
        declaration,
        annotation,
    ) == Some(attribute) && instance_key(items, declaration, annotation, instantiation) == key
}

/// Whether an instantiation that stands before `(declaration, annotation,
/// instantiation)` contributes `key` to `attribute`.
pub open spec fn collected_before(
    items: Seq<Declaration>,
    declaration: int,
    annotation: int,
    instantiation: int,
    attribute: AutoPluginAttribute,
    key: TargetKey,
) -> bool {
    exists|d: int, a: int, i: int| #[trigger]
        contributes(items, d, a, i, attribute, key) && instance_before(
            d,
            a,
            i,
            declaration,
            annotation,
            instantiation,
        )
}

/// Whether the instantiation repeats a target that an earlier instantiation
/// contributed to the same category.
pub open spec fn repeats(
    items: Seq<Declaration>,
    declaration: int,
    annotation: int,
    instantiation: int,
) -> bool {
    is_instance(items, declaration, annotation, instantiation) && collected_before(
        items,
        declaration,
        annotation,
        instantiation,
        marker_at(items, declaration, annotation)->Some_0,
        instance_key(items, declaration, annotation, instantiation),
    )
}

/// Whether no instantiation before `(declaration, annotation, instantiation)`
/// repeats a target.
pub open spec fn repeat_free_before(
    items: Seq<Declaration>,
    declaration: int,
    annotation: int,
    instantiation: int,
) -> bool {
    forall|d: int, a: int, i: int|
        is_instance(items, d, a, i) && instance_before(
            d,
            a,
            i,
            declaration,
            annotation,
            instantiation,
        ) ==> !#[trigger] repeats(items, d, a, i)
}

/// The targets that the markers of `items` contribute, by category.
pub open spec fn scope_targets(items: Seq<Declaration>) -> Targets {
    Map::total(
        |attribute: AutoPluginAttribute|
            Set::new(
                |key: TargetKey|
                    exists|d: int, a: int, i: int| #[trigger]
                        contributes(items, d, a, i, attribute, key),
            ),
    )
}

/// Whether no marker of `items` has malformed arguments.
pub open spec fn faultless(items: Seq<Declaration>) -> bool {
    faultless_upto(items, items.len() as int, 0)
}

/// Whether `items` holds no marker.
pub open spec fn unmarked(items: Seq<Declaration>) -> bool {
    forall|d: int, a: int| is_site(items, d, a) ==> (#[trigger] marker_at(items, d, a)) is None
}

/// The handle of the registration interface in the plugin function.
pub open spec fn app_handle() -> Seq<char> {
    "app"@
}

/// Whether the context holds exactly what the instantiations before the
/// given place contribute.
spec fn holds_before(
    context: AutoPluginContext,
    items: Seq<Declaration>,
    d: int,
    a: int,
    i: int,
) -> bool {
    forall|attribute: AutoPluginAttribute, key: TargetKey|
        #![trigger context.targets(attribute).contains(key)]
        context.targets(attribute).contains(key) <==> collected_before(
            items,
            d,
            a,
            i,
            attribute,
            key,
        )
}

/// In a scan, every instantiation before the marker of index `n` belongs to a
/// marker of lower index.
proof fn lemma_next_site(
    items: Seq<Declaration>,
    matches: Seq<ItemWithAttributeMatch>,
    n: int,
    d: int,
    a: int,
    i: int,
)
    requires
        is_scan_of(items, matches),
        0 <= n <= matches.len(),
        is_instance(items, d, a, i),
        n < matches.len() ==> site_before(
            d,
            a,
            matches[n].declaration as int,
            matches[n].annotation as int,
        ),
    ensures
        n > 0,
        site_before(d, a, matches[n - 1].declaration as int, matches[n - 1].annotation as int) || (
        d == matches[n - 1].declaration && a == matches[n - 1].annotation),
{
    assert(site_before(d, a, items.len() as int, 0));
    let k = choose|k: int|
        0 <= k < matches.len() && (#[trigger] matches[k]).declaration == d && matches[k].annotation
            == a;
    if k >= n {
        if k > n {
            assert(site_before(
                matches[n].declaration as int,
                matches[n].annotation as int,
                matches[k].declaration as int,
                matches[k].annotation as int,
            ));
        }
        assert(false);
    }
    if k < n - 1 {
        assert(site_before(
            matches[k].declaration as int,
            matches[k].annotation as int,
            matches[n - 1].declaration as int,
            matches[n - 1].annotation as int,
        ));
    }
}

/// Whether `r` is the refusal of a marker with malformed arguments.
pub open spec fn is_fault(r: Result<String, PluginError>) -> bool {
    r is Err && r->Err_0 is Parse
}

/// Whether `r` is a result of the synthesis of the plugin function called
/// `init_name` for the scope `items`.
///
/// A scope without markers gives the function without registrations. A scope
/// in which a marker has malformed arguments gives the fault of the first
/// such marker, and no other scope gives a fault. For a scope without faults
/// the parser is asked, whose answers are not fixed here: the result is the
/// refusal of a path, or the first instantiation that repeats a target, or,
/// where no target is repeated, the plugin function of the targets of the
/// scope or the refusal of one of them at emission.
pub open spec fn is_synthesis(
    items: Seq<Declaration>,
    init_name: Seq<char>,
    r: Result<String, PluginError>,
) -> bool {
    &&& unmarked(items) ==> r is Ok
    &&& !faultless(items) <==> is_fault(r)
    &&& match r {
        Ok(text) => faultless(items) && repeat_free_before(items, items.len() as int, 0, 0)
            && crate::store::targets_wf(scope_targets(items)) && text@ == plugin_text(
            init_name,
            app_handle(),
            scope_targets(items),
        ),
        Err(PluginError::Parse(error)) => is_site(
            items,
            error.declaration as int,
            error.annotation as int,
        ) && fault_at(items, error.declaration as int, error.annotation as int) == Some(
            error.fault,
        ) && faultless_upto(items, error.declaration as int, error.annotation as int),
        Err(PluginError::Path { declaration, annotation, instantiation, error }) => faultless(
            items,
        ) && is_instance(items, declaration as int, annotation as int, instantiation as int)
            && repeat_free_before(items, declaration as int, annotation as int, 0)
            && error.input@ == instance_key(
            items,
            declaration as int,
            annotation as int,
            instantiation as int,
        ).path,
        Err(PluginError::Duplicate { declaration, annotation, instantiation }) => faultless(
            items,
        ) && repeats(items, declaration as int, annotation as int, instantiation as int)
            && repeat_free_before(
            items,
            declaration as int,
            annotation as int,
            instantiation as int,
        ),
        Err(PluginError::Generate(error)) => faultless(items) && repeat_free_before(
            items,
            items.len() as int,
            0,
            0,
        ) && exists|attribute: AutoPluginAttribute, key: TargetKey|
            #![trigger scope_targets(items)[attribute].contains(key)]
            scope_targets(items)[attribute].contains(key) && key.path == error.input@,
        Err(PluginError::Update(_)) => false,
    }
}

/// Synthesises the plugin function of a scope.
///
/// The scope is scanned for markers; each marker is resolved into its
/// targets; the targets are collected per category, a repeated target being
/// refused; and the function called `init_name` is emitted, which registers
/// every target on the handle `app`: the categories in their fixed order, the
/// targets of a category sorted. The text depends on the declarations alone,
/// not on the order in which they stand.
///
/// A scope in which a marker has malformed arguments is refused with the
/// fault of the first such marker, before the parser is asked anything, and
/// no other scope is refused so. Whether the parser accepts the paths of a
/// scope without faults is the parser's decision.
pub fn auto_plugin_inner(items: &Vec<Declaration>, init_name: &str) -> (r: Result<
    String,
    PluginError,
>)
    ensures
        is_synthesis(items@, init_name@, r),
{
    let matches = match scan_scope(items) {
        Ok(matches) => matches,
        Err(error) => {
            proof {
                if unmarked(items@) {
                    assert(marker_at(items@, error.declaration as int, error.annotation as int) is None);
                }
            }
            return Err(PluginError::Parse(error));
        },
    };
    let mut context = AutoPluginContext::new();
    let mut n: usize = 0;
    while n < matches.len()
        invariant
            n <= matches@.len(),
            is_scan_of(items@, matches@),
            faultless(items@),
            context.wf(),
            n < matches@.len() ==> holds_before(
                context,
                items@,
                matches@[n as int].declaration as int,
                matches@[n as int].annotation as int,
                0,
            ) && repeat_free_before(
                items@,
                matches@[n as int].declaration as int,
                matches@[n as int].annotation as int,
                0,
            ),
            n == matches@.len() ==> holds_before(context, items@, items@.len() as int, 0, 0)
                && repeat_free_before(items@, items@.len() as int, 0, 0),
        decreases matches@.len() - n,
    {
        let found = matches[n];
        let d = found.declaration;
        let a = found.annotation;
        let attribute = found.attribute;
        let declaration = &items[d];
        let annotation = &declaration.annotations[a];
        proof {
            if unmarked(items@) {
                assert(marker_at(items@, d as int, a as int) is None);
            }
            assert(site_before(d as int, a as int, items@.len() as int, 0));
            assert(fault_at(items@, d as int, a as int) is None);
        }
        let targets = match resolve_targets(attribute, declaration, annotation) {
            Ok(targets) => targets,
            Err(ResolveError::Fault(fault)) => {
                return Err(PluginError::Parse(ParseError { declaration: d, annotation: a, fault }));
            },
            Err(ResolveError::Path { instantiation, error }) => {
                return Err(PluginError::Path { declaration: d, annotation: a, instantiation, error });
            },
        };
        let mut i: usize = 0;
        while i < targets.len()
            invariant
                i <= targets@.len(),
                n < matches@.len(),
                found == matches@[n as int],
                d == found.declaration,
                a == found.annotation,
                attribute == found.attribute,
                is_scan_of(items@, matches@),
                faultless(items@),
                targets@.len() == instantiation_count(items@[d as int].annotations@[a as int]),
                forall|j: int|
                    0 <= j < targets@.len() ==> (#[trigger] targets@[j]).attribute() == attribute
                        && targets@[j].key() == instance_key(items@, d as int, a as int, j),
                context.wf(),
                holds_before(context, items@, d as int, a as int, i as int),
                repeat_free_before(items@, d as int, a as int, i as int),
            decreases targets@.len() - i,
        {
            let ghost key = targets@[i as int].key();
            let ghost earlier = context;
            let inserted = context.insert(attribute, targets[i].to_spec());
            proof {
                assert(is_instance(items@, d as int, a as int, i as int));
                assert(earlier.targets(attribute).contains(key) <==> collected_before(
                    items@,
                    d as int,
                    a as int,
                    i as int,
                    attribute,
                    key,
                ));
            }
            if !inserted {
                return Err(PluginError::Duplicate { declaration: d, annotation: a, instantiation: i });
            }
            proof {
                assert(contributes(items@, d as int, a as int, i as int, attribute, key));
                assert forall|other: AutoPluginAttribute, wanted: TargetKey|
                    #![trigger context.targets(other).contains(wanted)]
                    context.targets(other).contains(wanted) <==> collected_before(
                        items@,
                        d as int,
                        a as int,
                        i + 1,
                        other,
                        wanted,
                    ) by {
                    if other != attribute {
                        assert(context.set_of(other) == earlier.set_of(other));
                    }
                    assert(earlier.targets(other).contains(wanted) <==> collected_before(
                        items@,
                        d as int,
                        a as int,
                        i as int,
                        other,
                        wanted,
                    ));
                    if collected_before(items@, d as int, a as int, i as int, other, wanted) {
                        let (d0, a0, i0) = choose|d0: int, a0: int, i0: int| #[trigger]
                            contributes(items@, d0, a0, i0, other, wanted) && instance_before(
                                d0,
                                a0,
                                i0,
                                d as int,
                                a as int,
                                i as int,
                            );
                        assert(instance_before(d0, a0, i0, d as int, a as int, i + 1));
                    }
                    if collected_before(items@, d as int, a as int, i + 1, other, wanted) {
                        let (d0, a0, i0) = choose|d0: int, a0: int, i0: int| #[trigger]
                            contributes(items@, d0, a0, i0, other, wanted) && instance_before(
                                d0,
                                a0,
                                i0,
                                d as int,
                                a as int,
                                i + 1,
                            );
                        if !instance_before(d0, a0, i0, d as int, a as int, i as int) {
                            assert(d0 == d && a0 == a && i0 == i);
                        }
                    }
                }
                assert forall|d0: int, a0: int, i0: int|
                    is_instance(items@, d0, a0, i0) && instance_before(
                        d0,
                        a0,
                        i0,
                        d as int,
                        a as int,
                        i + 1,
                    ) implies !#[trigger] repeats(items@, d0, a0, i0) by {
                    if !instance_before(d0, a0, i0, d as int, a as int, i as int) {
                        assert(d0 == d && a0 == a && i0 == i);
                    }
                }
            }
            i = i + 1;
        }
        proof {
            // What stands before the next marker stands in this marker or before it.
            let (nd, na) = if n + 1 < matches@.len() {
                (matches@[n + 1].declaration as int, matches@[n + 1].annotation as int)
            } else {
                (items@.len() as int, 0int)
            };
            if n + 1 < matches@.len() {
                assert(site_before(d as int, a as int, nd, na));
            }
            assert forall|d0: int, a0: int, i0: int|
                is_instance(items@, d0, a0, i0) && instance_before(
                    d0,
                    a0,
                    i0,
                    nd,
                    na,
                    0,
                ) implies instance_before(d0, a0, i0, d as int, a as int, i as int) by {
                lemma_next_site(items@, matches@, n + 1, d0, a0, i0);
            }
            assert forall|other: AutoPluginAttribute, wanted: TargetKey|
                #![trigger context.targets(other).contains(wanted)]
                context.targets(other).contains(wanted) <==> collected_before(
                    items@,
                    nd,
                    na,
                    0,
                    other,
                    wanted,
                ) by {
                assert(context.targets(other).contains(wanted) <==> collected_before(
                    items@,
                    d as int,
                    a as int,
                    i as int,
                    other,
                    wanted,
                ));
                if collected_before(items@, d as int, a as int, i as int, other, wanted) {
                    let (d0, a0, i0) = choose|d0: int, a0: int, i0: int| #[trigger]
                        contributes(items@, d0, a0, i0, other, wanted) && instance_before(
                            d0,
                            a0,
                            i0,
                            d as int,
                            a as int,
                            i as int,
                        );
                    assert(site_before(d0, a0, items@.len() as int, 0));
                    assert(instance_before(d0, a0, i0, nd, na, 0));
                }
                if collected_before(items@, nd, na, 0, other, wanted) {
                    let (d0, a0, i0) = choose|d0: int, a0: int, i0: int| #[trigger]
                        contributes(items@, d0, a0, i0, other, wanted) && instance_before(
                            d0,
                            a0,
                            i0,
                            nd,
                            na,
                            0,
                        );
                    assert(instance_before(d0, a0, i0, d as int, a as int, i as int));
                }
            }
        }
        n = n + 1;
    }
    let snapshot = context.snapshot();
    proof {
        let targets = scope_targets(items@);
        assert forall|attribute: AutoPluginAttribute|
            context.targets(attribute) == #[trigger] targets[attribute] by {
            assert forall|key: TargetKey|
                context.targets(attribute).contains(key) <==> targets[attribute].contains(key) by {
                assert(context.targets(attribute).contains(key) <==> collected_before(
                    items@,
                    items@.len() as int,
                    0,
                    0,
                    attribute,
                    key,
                ));
                if targets[attribute].contains(key) {
                    let (d0, a0, i0) = choose|d0: int, a0: int, i0: int| #[trigger]
                        contributes(items@, d0, a0, i0, attribute, key);
                    assert(instance_before(d0, a0, i0, items@.len() as int, 0, 0));
                }
            }
            assert(context.targets(attribute) =~= targets[attribute]);
        }
        assert(crate::store::targets_wf(targets)) by {
            assert(targets.dom() =~= Set::<AutoPluginAttribute>::full());
            assert forall|attribute: AutoPluginAttribute|
                crate::target_set::has_order(#[trigger] targets[attribute]) by {
                lemma_context_ordered(context, attribute);
                let order = context.ordered(attribute);
                assert(crate::target_set::strictly_sorted(order) && order.to_set()
                    == targets[attribute]);
            }
        }
        assert(is_snapshot_of(snapshot@, targets)) by {
            assert forall|k: int| 0 <= k < ATTRIBUTE_COUNT implies (#[trigger] snapshot@[k]).0
                == AutoPluginAttribute::of_rank(k) && keys_of(snapshot@[k].1@) == sorted_targets(
                targets[AutoPluginAttribute::of_rank(k)],
            ) by {
                let attribute = AutoPluginAttribute::of_rank(k);
                lemma_context_ordered(context, attribute);
                lemma_sorted_targets(context.ordered(attribute));
            }
        }
        lemma_snapshot_text(init_name@, app_handle(), snapshot@, targets);
    }
    match generate_plugin(init_name, "app", &snapshot) {
        Ok(text) => Ok(text),
        Err(error) => {
            proof {
                let (k, i) = choose|k: int, i: int|
                    0 <= k < snapshot@.len() && 0 <= i < snapshot@[k].1@.len() && error.input@ == (
                    #[trigger] snapshot@[k].1@[i]).path@;
                let attribute = AutoPluginAttribute::of_rank(k);
                let key = snapshot@[k].1@[i]@;
                lemma_context_ordered(context, attribute);
                assert(keys_of(snapshot@[k].1@)[i] == key);
                assert(context.ordered(attribute).contains(key));
                assert(context.ordered(attribute).to_set().contains(key));
                assert(scope_targets(items@)[attribute].contains(key));
                if unmarked(items@) {
                    let (d0, a0, i0) = choose|d0: int, a0: int, i0: int| #[trigger]
                        contributes(items@, d0, a0, i0, attribute, key);
                    assert(marker_at(items@, d0, a0) is None);
                }
            }
            Err(PluginError::Generate(error))
        },
    }
}

/// The targets of a scope, and so its plugin function, do not depend on the
/// order in which the declarations stand: two scopes that hold the same
/// declarations contribute the same targets.
pub proof fn lemma_declaration_order_is_irrelevant(
    first: Seq<Declaration>,
    second: Seq<Declaration>,
)
    requires
        first.to_set() == second.to_set(),
    ensures
        scope_targets(first) == scope_targets(second),
{
    assert forall|attribute: AutoPluginAttribute|
        scope_targets(first)[attribute] == scope_targets(second)[attribute] by {
        assert forall|key: TargetKey|
            scope_targets(first)[attribute].contains(key) <==> scope_targets(
                second,
            )[attribute].contains(key) by {
            if scope_targets(first)[attribute].contains(key) {
                lemma_same_declaration_contributes(first, second, attribute, key);
            }
            if scope_targets(second)[attribute].contains(key) {
                lemma_same_declaration_contributes(second, first, attribute, key);
            }
        }
        assert(scope_targets(first)[attribute] =~= scope_targets(second)[attribute]);
    }
    assert(scope_targets(first) =~= scope_targets(second));
}

proof fn lemma_same_declaration_contributes(
    from: Seq<Declaration>,
    to: Seq<Declaration>,
    attribute: AutoPluginAttribute,
    key: TargetKey,
)
    requires
        from.to_set() == to.to_set(),
        scope_targets(from)[attribute].contains(key),
    ensures
        scope_targets(to)[attribute].contains(key),
{
    let (d, a, i) = choose|d: int, a: int, i: int| #[trigger]
        contributes(from, d, a, i, attribute, key);
    assert(from.contains(from[d]));
    assert(from.to_set().contains(from[d]));
    assert(to.contains(from[d]));
    let e = choose|e: int| 0 <= e < to.len() && to[e] == from[d];
    assert(contributes(to, e, a, i, attribute, key));
}

/// Two syntheses of one scope under one name agree wherever the answers of
/// the parser do not part them: two successes give the same text; a scope
/// with a malformed marker gives the same fault both times; a scope without
/// markers succeeds both times; and two reports of a repeated target name the
/// same instantiation.
pub proof fn lemma_synthesis_agrees(
    items: Seq<Declaration>,
    init_name: Seq<char>,
    first: Result<String, PluginError>,
    second: Result<String, PluginError>,
)
    requires
        is_synthesis(items, init_name, first),
        is_synthesis(items, init_name, second),
    ensures
        first is Ok && second is Ok ==> first->Ok_0@ == second->Ok_0@,
        unmarked(items) ==> first is Ok && second is Ok,
        !faultless(items) ==> is_fault(first) && second == first,
        is_fault(first) <==> is_fault(second),
        is_fault(first) ==> second == first,
        first is Err && first->Err_0 is Duplicate && second is Err && second->Err_0 is Duplicate
            ==> second == first,
{
    if let Err(PluginError::Parse(one)) = first {
        if let Err(PluginError::Parse(two)) = second {
            let (d1, a1) = (one.declaration as int, one.annotation as int);
            let (d2, a2) = (two.declaration as int, two.annotation as int);
            if site_before(d1, a1, d2, a2) {
                assert(fault_at(items, d1, a1) is None);
            }
            if site_before(d2, a2, d1, a1) {
                assert(fault_at(items, d2, a2) is None);
            }
        }
    }
    if let Err(PluginError::Duplicate { declaration, annotation, instantiation }) = first {
        let (d1, a1, i1) = (declaration as int, annotation as int, instantiation as int);
        assert(repeats(items, d1, a1, i1));
        assert(instance_before(d1, a1, i1, items.len() as int, 0, 0));
        if let Err(PluginError::Duplicate {
            declaration: other_declaration,
            annotation: other_annotation,
            instantiation: other_instantiation,
        }) = second {
            let (d2, a2, i2) = (
                other_declaration as int,
                other_annotation as int,
                other_instantiation as int,
            );
            assert(repeats(items, d2, a2, i2));
            if instance_before(d1, a1, i1, d2, a2, i2) {
                assert(!repeats(items, d1, a1, i1));
            }
            if instance_before(d2, a2, i2, d1, a1, i1) {
                assert(!repeats(items, d2, a2, i2));
            }
        }
    }
}

/// Why a marker could not be contributed to the state of its source file.
#[derive(Clone, Debug, PartialEq, Eq)]
pub enum MarkerError {
    /// The marker could not be resolved. Nothing was contributed.
    Resolve(ResolveError),
    /// The state refused the target of this instantiation. The targets of
    /// the instantiations before it were contributed.
    Update { instantiation: usize, error: UpdateStateError },
}

/// The target specifications that the marker `annotation` of `attribute` on
/// `declaration` resolves to, in the order of its instantiations.
pub open spec fn marker_keys(
    attribute: AutoPluginAttribute,
    declaration: Declaration,
    annotation: Annotation,
) -> Seq<TargetKey> {
    Seq::new(
        instantiation_count(annotation) as nat,
        |i: int| resolved_at(attribute, declaration, annotation, i),
    )
}

/// Resolves the marker `annotation` of `attribute` on `declaration` and
/// contributes its targets to the state of the source file `file_path`, one
/// insertion per target, in order.
///
/// A marker that cannot be resolved contributes nothing and leaves the state
/// as it was. The first target that the state refuses ends the call; the
/// targets before it stay contributed.
pub fn contribute_marker(
    map: &mut FileStateMap,
    file_path: &str,
    attribute: AutoPluginAttribute,
    declaration: &Declaration,
    annotation: &Annotation,
) -> (r: Result<(), MarkerError>)
    requires
        old(map).wf(),
    ensures
        final(map).wf(),
        match r {
            Ok(_) => annotation_fault(attribute, *annotation, declaration.generic_params) is None
                && old(map)@.contribute_all(
                file_path@,
                attribute,
                marker_keys(attribute, *declaration, *annotation),
            ) == (final(map)@, None::<(int, UpdateStateError)>),
            Err(MarkerError::Resolve(ResolveError::Fault(fault))) => final(map)@ == old(map)@
                && annotation_fault(attribute, *annotation, declaration.generic_params) == Some(
                fault,
            ),
            Err(MarkerError::Resolve(ResolveError::Path { instantiation, error })) => final(map)@
                == old(map)@ && annotation_fault(
                attribute,
                *annotation,
                declaration.generic_params,
            ) is None && instantiation < instantiation_count(*annotation) && error.input@
                == resolved_at(attribute, *declaration, *annotation, instantiation as int).path,
            Err(MarkerError::Update { instantiation, error }) => annotation_fault(
                attribute,
                *annotation,
                declaration.generic_params,
            ) is None && old(map)@.contribute_all(
                file_path@,
                attribute,
                marker_keys(attribute, *declaration, *annotation),
            ) == (final(map)@, Some((instantiation as int, error))),
        },
{
    let targets = match resolve_targets(attribute, declaration, annotation) {
        Ok(targets) => targets,
        Err(error) => {
            return Err(MarkerError::Resolve(error));
        },
    };
    let ghost keys = marker_keys(attribute, *declaration, *annotation);
    let mut index: usize = 0;
    while index < targets.len()
        invariant
            index <= targets@.len(),
            targets@.len() == keys.len(),
            keys == marker_keys(attribute, *declaration, *annotation),
            annotation_fault(attribute, *annotation, declaration.generic_params) is None,
            forall|i: int| 0 <= i < targets@.len() ==> (#[trigger] targets@[i]).key() == keys[i],
            map.wf(),
            old(map)@.contribute_all(file_path@, attribute, keys.take(index as int)) == (
                map@,
                None::<(int, UpdateStateError)>,
            ),
        decreases targets@.len() - index,
    {
        assert(keys.take(index + 1).drop_last() == keys.take(index as int));
        assert(keys.take(index + 1).last() == keys[index as int]);
        let outcome = contribute(
            map,
            String::from_str(file_path),
            attribute,
            targets[index].to_spec(),
        );
        match outcome {
            Ok(_) => {},
            Err(error) => {
                proof {
                    assert(old(map)@.contribute_all(
                        file_path@,
                        attribute,
                        keys.take(index + 1),
                    ) == (map@, Some((index as int, error))));
                    lemma_contribute_all_stops(
                        old(map)@,
                        file_path@,
                        attribute,
                        keys,
                        index + 1,
                    );
                }
                return Err(MarkerError::Update { instantiation: index, error });
            },
        }
        index = index + 1;
    }
    assert(keys.take(keys.len() as int) == keys);
    Ok(())
}

/// Once a key was refused, the keys after it are not contributed.
proof fn lemma_contribute_all_stops(
    store: crate::store::StoreModel,
    unit: Seq<char>,
    attribute: AutoPluginAttribute,
    keys: Seq<TargetKey>,
    upto: int,
)
    requires
        0 <= upto <= keys.len(),
        store.contribute_all(unit, attribute, keys.take(upto)).1 is Some,
    ensures
        store.contribute_all(unit, attribute, keys) == store.contribute_all(
            unit,
            attribute,
            keys.take(upto),
        ),
    decreases keys.len() - upto,
{
    if upto < keys.len() {
        assert(keys.take(upto + 1).drop_last() == keys.take(upto));
        lemma_contribute_all_stops(store, unit, attribute, keys, upto + 1);
    } else {
        assert(keys.take(upto) == keys);
    }
}

/// Finalises the source file `file_path` and synthesises its plugin function
/// from the targets that were collected for it: the function called
/// `init_name`, which registers every target on the handle `app_ident`.
///
/// A file that was already finalised refuses, and stays as it was. A file
/// whose targets the parser refuses at emission is finalised all the same.
pub fn finalize_plugin(
    map: &mut FileStateMap,
    file_path: String,
    init_name: &str,
    app_ident: &str,
) -> (r: Result<String, PluginError>)
    requires
        old(map).wf(),
    ensures
        final(map).wf(),
        final(map)@ == old(map)@.finalize(file_path@).0,
        match r {
            Ok(text) => old(map)@.finalize(file_path@).1 is Ok && text@ == plugin_text(
                init_name@,
                app_ident@,
                old(map)@.finalize(file_path@).1->Ok_0,
            ),
            Err(PluginError::Update(error)) => old(map)@.finalize(file_path@).1 == Err::<
                Targets,
                UpdateStateError,
            >(error),
            Err(PluginError::Generate(error)) => old(map)@.finalize(file_path@).1 is Ok
                && exists|attribute: AutoPluginAttribute, key: TargetKey|
                #![trigger old(map)@.finalize(file_path@).1->Ok_0[attribute].contains(key)]
                old(map)@.finalize(file_path@).1->Ok_0[attribute].contains(key) && key.path
                    == error.input@,
            Err(_) => false,
        },
{
    let snapshot = match finalize(map, file_path) {
        Ok(snapshot) => snapshot,
        Err(error) => {
            return Err(PluginError::Update(error));
        },
    };
    let ghost targets = old(map)@.finalize(file_path@).1->Ok_0;
    proof {
        lemma_snapshot_text(init_name@, app_ident@, snapshot@, targets);
    }
    match generate_plugin(init_name, app_ident, &snapshot) {
        Ok(text) => Ok(text),
        Err(error) => {
            proof {
                let (k, i) = choose|k: int, i: int|
                    0 <= k < snapshot@.len() && 0 <= i < snapshot@[k].1@.len() && error.input@ == (
                    #[trigger] snapshot@[k].1@[i]).path@;
                let attribute = AutoPluginAttribute::of_rank(k);
                let key = snapshot@[k].1@[i]@;
                old(map).lemma_finalize_targets(file_path@);
                crate::target_set::lemma_sorted_targets_exact(targets[attribute]);
                assert(keys_of(snapshot@[k].1@)[i] == key);
                assert(sorted_targets(targets[attribute]).contains(key));
                assert(sorted_targets(targets[attribute]).to_set().contains(key));
                assert(targets[attribute].contains(key));
            }
            Err(PluginError::Generate(error))
        },
    }
}

} // verus!
