//! The scan of a scope: which declarations carry which marker attributes.

use crate::attribute::{marker_of, AutoPluginAttribute};
use crate::target::AddSystemParams;
use crate::text::{argument_count, canonical, canonical_path, count_arguments};
use vstd::prelude::*;

verus! {

/// One attribute of a declaration, as the attribute front end hands it over:
/// its identifier, the type arguments of each requested generic
/// instantiation, and its scheduling parameters where it has any.
#[derive(Clone, Debug, PartialEq, Eq)]
pub struct Annotation {
    pub name: String,
    pub generics: Vec<String>,
    pub params: Option<AddSystemParams>,
}

/// One declaration of a scope: its path, the number of generic parameters
/// that an instantiation of it has to supply, and its attributes in source
/// order.
#[derive(Clone, Debug, PartialEq, Eq)]
pub struct Declaration {
    pub path: String,
    pub generic_params: usize,
    pub annotations: Vec<Annotation>,
}

/// One marker attribute found on a declaration: the index of the declaration
/// in the scope, the index of the attribute on the declaration, and the
/// category that the attribute marks.
#[derive(Clone, Copy, Debug, PartialEq, Eq, Structural)]
pub struct ItemWithAttributeMatch {
    pub declaration: usize,
    pub annotation: usize,
    pub attribute: AutoPluginAttribute,
}

/// What is wrong with the arguments of a marker attribute.
#[derive(Clone, Copy, Debug, PartialEq, Eq, Structural)]
pub enum Fault {
    /// A system is tagged without scheduling parameters, or with scheduling
    /// parameters that name no schedule.
    MissingSchedule,
    /// Scheduling parameters stand on an attribute that takes none.
    UnexpectedSchedule,
    /// The generic instantiation of this index names no type argument.
    EmptyGenerics { instantiation: usize },
    /// The generic instantiation of this index does not supply as many type
    /// arguments as the declaration has generic parameters.
    GenericCount { instantiation: usize },
}

/// A marker attribute whose arguments are malformed, by the place of the
/// attribute in the scope.
#[derive(Clone, Copy, Debug, PartialEq, Eq, Structural)]
pub struct ParseError {
    pub declaration: usize,
    pub annotation: usize,
    pub fault: Fault,
}

impl Fault {
    /// The text of the diagnostic.
    pub open spec fn text(self) -> Seq<char> {
        match self {
            Fault::MissingSchedule => "missing schedule"@,
            Fault::UnexpectedSchedule => "unexpected scheduling parameters"@,
            Fault::EmptyGenerics { .. } => "generic instantiation without type arguments"@,
            Fault::GenericCount { .. } => "wrong number of generic arguments"@,
        }
    }

    /// The text of the diagnostic.
    pub fn message(&self) -> (r: String)
        ensures
            r@ == self.text(),
    {
        match self {
            Fault::MissingSchedule => String::from_str("missing schedule"),
            Fault::UnexpectedSchedule => String::from_str("unexpected scheduling parameters"),
            Fault::EmptyGenerics { .. } => String::from_str(
                "generic instantiation without type arguments",
            ),
            Fault::GenericCount { .. } => String::from_str("wrong number of generic arguments"),
        }
    }
}

/// Whether the scheduling parameters name a schedule.
pub open spec fn names_schedule(params: Option<AddSystemParams>) -> bool {
    match params {
        Some(params) => canonical(params.schedule@).len() > 0,
        None => false,
    }
}

/// What is wrong with the type arguments `arguments` of the instantiation
/// `index` of a declaration with `generic_params` generic parameters, if
/// anything. A declaration without generic parameters takes any number of
/// arguments.
pub open spec fn instantiation_fault(
    arguments: Seq<char>,
    index: usize,
    generic_params: usize,
) -> Option<Fault> {
    if canonical(arguments).len() == 0 {
        Some(Fault::EmptyGenerics { instantiation: index })
    } else if generic_params > 0 && argument_count(arguments) != generic_params {
        Some(Fault::GenericCount { instantiation: index })
    } else {
        None
    }
}

/// The index of the first instantiation from `from` on with which something
/// is wrong; the number of instantiations where there is none.
pub open spec fn first_faulty(generics: Seq<String>, from: int, generic_params: usize) -> int
    decreases generics.len() - from,
{
    if from < 0 || from >= generics.len() || instantiation_fault(
        generics[from]@,
        from as usize,
        generic_params,
    ) is Some {
        from
    } else {
        first_faulty(generics, from + 1, generic_params)
    }
}

/// What is wrong with the arguments of `annotation` as a marker of
/// `attribute` on a declaration with `generic_params` generic parameters, if
/// anything: the scheduling parameters are judged first, then the generic
/// instantiations in order.
pub open spec fn annotation_fault(
    attribute: AutoPluginAttribute,
    annotation: Annotation,
    generic_params: usize,
) -> Option<Fault> {
    let faulty = first_faulty(annotation.generics@, 0, generic_params);
    if attribute.is_scheduled() && !names_schedule(annotation.params) {
        Some(Fault::MissingSchedule)
    } else if !attribute.is_scheduled() && annotation.params is Some {
        Some(Fault::UnexpectedSchedule)
    } else if 0 <= faulty < annotation.generics@.len() {
        instantiation_fault(annotation.generics@[faulty]@, faulty as usize, generic_params)
    } else {
        None
    }
}

/// Judges the arguments of `annotation` as a marker of `attribute` on a
/// declaration with `generic_params` generic parameters.
pub fn check_annotation(
    attribute: AutoPluginAttribute,
    annotation: &Annotation,
    generic_params: usize,
) -> (r: Result<(), Fault>)
    ensures
        match r {
            Ok(_) => annotation_fault(attribute, *annotation, generic_params) is None,
            Err(fault) => annotation_fault(attribute, *annotation, generic_params) == Some(fault),
        },
{
    let scheduled = match attribute {
        AutoPluginAttribute::AddSystem => true,
        _ => false,
    };
    match &annotation.params {
        Some(params) => {
            if !scheduled {
                return Err(Fault::UnexpectedSchedule);
            }
            let rendered = canonical_path(params.schedule.as_str());
            if rendered.as_str().unicode_len() == 0 {
                return Err(Fault::MissingSchedule);
            }
        },
        None => {
            if scheduled {
                return Err(Fault::MissingSchedule);
            }
        },
    }
    let mut index: usize = 0;
    while index < annotation.generics.len()
        invariant
            index <= annotation.generics@.len(),
            !(attribute.is_scheduled() && !names_schedule(annotation.params)),
            !(!attribute.is_scheduled() && annotation.params is Some),
            first_faulty(annotation.generics@, 0, generic_params) == first_faulty(
                annotation.generics@,
                index as int,
                generic_params,
            ),
        decreases annotation.generics@.len() - index,
    {
        let arguments = annotation.generics[index].as_str();
        let rendered = canonical_path(arguments);
        if rendered.as_str().unicode_len() == 0 {
            return Err(Fault::EmptyGenerics { instantiation: index });
        }
        if generic_params > 0 && count_arguments(arguments) != generic_params {
            return Err(Fault::GenericCount { instantiation: index });
        }
        index = index + 1;
    }
    Ok(())
}

/// The category that the attribute `annotation` of declaration `declaration`
/// marks, if it is a marker.
pub open spec fn marker_at(items: Seq<Declaration>, declaration: int, annotation: int) -> Option<
    AutoPluginAttribute,
> {
    marker_of(items[declaration].annotations@[annotation].name@)
}

/// Whether `(declaration, annotation)` is the place of an attribute of `items`.
pub open spec fn is_site(items: Seq<Declaration>, declaration: int, annotation: int) -> bool {
    0 <= declaration < items.len() && 0 <= annotation < items[declaration].annotations@.len()
}

/// Source order of attributes: by declaration, then by place on the
/// declaration.
pub open spec fn site_before(d1: int, a1: int, d2: int, a2: int) -> bool {
    d1 < d2 || (d1 == d2 && a1 < a2)
}

/// What is wrong with the marker at `(declaration, annotation)`, if it is a
/// marker and anything is wrong with it.
pub open spec fn fault_at(items: Seq<Declaration>, declaration: int, annotation: int) -> Option<
    Fault,
> {
    match marker_at(items, declaration, annotation) {
        Some(attribute) => annotation_fault(
            attribute,
            items[declaration].annotations@[annotation],
            items[declaration].generic_params,
        ),
        None => None,
    }
}

/// Whether `matches` holds its markers in source order.
pub open spec fn in_source_order(matches: Seq<ItemWithAttributeMatch>) -> bool {
    forall|i: int, j: int|
        0 <= i < j < matches.len() ==> site_before(
            (#[trigger] matches[i]).declaration as int,
            matches[i].annotation as int,
            (#[trigger] matches[j]).declaration as int,
            matches[j].annotation as int,
        )
}

/// Whether `matches` is the scan of the attributes of `items` that stand, in
/// source order, before `(declaration, annotation)`: it holds every marker
/// among them, once, in source order, with its category, and nothing else.
pub open spec fn is_scan_upto(
    items: Seq<Declaration>,
    matches: Seq<ItemWithAttributeMatch>,
    declaration: int,
    annotation: int,
) -> bool {
    &&& forall|k: int|
        0 <= k < matches.len() ==> is_site(
            items,
            (#[trigger] matches[k]).declaration as int,
            matches[k].annotation as int,
        ) && site_before(
            matches[k].declaration as int,
            matches[k].annotation as int,
            declaration,
            annotation,
        ) && marker_at(items, matches[k].declaration as int, matches[k].annotation as int)
            == Some(matches[k].attribute)
    &&& in_source_order(matches)
    &&& forall|d: int, a: int|
        is_site(items, d, a) && site_before(d, a, declaration, annotation) && (#[trigger] marker_at(
            items,
            d,
            a,
        )) is Some ==> exists|k: int|
            0 <= k < matches.len() && (#[trigger] matches[k]).declaration == d
                && matches[k].annotation == a
}

/// Whether `matches` is the scan of `items`.
pub open spec fn is_scan_of(items: Seq<Declaration>, matches: Seq<ItemWithAttributeMatch>) -> bool {
    is_scan_upto(items, matches, items.len() as int, 0)
}

/// Whether no marker of `items` before `(declaration, annotation)` has
/// malformed arguments.
pub open spec fn faultless_upto(
    items: Seq<Declaration>,
    declaration: int,
    annotation: int,
) -> bool {
    forall|d: int, a: int|
        is_site(items, d, a) && site_before(d, a, declaration, annotation) ==> (#[trigger] fault_at(
            items,
            d,
            a,
        )) is None
}

proof fn lemma_source_order_unique(a: Seq<ItemWithAttributeMatch>, b: Seq<ItemWithAttributeMatch>)
    requires
        in_source_order(a),
        in_source_order(b),
        a.to_set() == b.to_set(),
    ensures
        a == b,
    decreases a.len(),
{
    if a.len() == 0 {
        if b.len() > 0 {
            assert(b.contains(b[0]));
            assert(b.to_set().contains(b[0]));
            assert(a.contains(b[0]));
        }
        assert(a =~= b);
    } else {
        assert(a.contains(a[0]));
        assert(a.to_set().contains(a[0]));
        assert(b.contains(a[0]));
        let j = choose|j: int| 0 <= j < b.len() && b[j] == a[0];
        assert(b.contains(b[0]));
        assert(b.to_set().contains(b[0]));
        assert(a.contains(b[0]));
        let i = choose|i: int| 0 <= i < a.len() && a[i] == b[0];
        assert(a[0] == b[0]);
        let ta = a.skip(1);
        let tb = b.skip(1);
        assert forall|x: ItemWithAttributeMatch| ta.to_set().contains(x) <==> tb.to_set().contains(
            x,
        ) by {
            if ta.contains(x) {
                let k = choose|k: int| 0 <= k < ta.len() && ta[k] == x;
                assert(a[k + 1] == x);
                assert(a.contains(x));
                assert(a.to_set().contains(x));
                assert(b.contains(x));
                let m = choose|m: int| 0 <= m < b.len() && b[m] == x;
                assert(m != 0);
                assert(tb[m - 1] == x);
            }
            if tb.contains(x) {
                let k = choose|k: int| 0 <= k < tb.len() && tb[k] == x;
                assert(b[k + 1] == x);
                assert(b.contains(x));
                assert(b.to_set().contains(x));
                assert(a.contains(x));
                let m = choose|m: int| 0 <= m < a.len() && a[m] == x;
                assert(m != 0);
                assert(ta[m - 1] == x);
            }
        }
        assert(ta.to_set() =~= tb.to_set());
        assert forall|p: int, q: int| 0 <= p < q < ta.len() implies site_before(
            (#[trigger] ta[p]).declaration as int,
            ta[p].annotation as int,
            (#[trigger] ta[q]).declaration as int,
            ta[q].annotation as int,
        ) by {
            assert(ta[p] == a[p + 1] && ta[q] == a[q + 1]);
        }
        assert forall|p: int, q: int| 0 <= p < q < tb.len() implies site_before(
            (#[trigger] tb[p]).declaration as int,
            tb[p].annotation as int,
            (#[trigger] tb[q]).declaration as int,
            tb[q].annotation as int,
        ) by {
            assert(tb[p] == b[p + 1] && tb[q] == b[q + 1]);
        }
        lemma_source_order_unique(ta, tb);
        assert(a.len() == b.len());
        assert forall|k: int| 0 <= k < a.len() implies a[k] == b[k] by {
            if k > 0 {
                assert(ta[k - 1] == tb[k - 1]);
            }
        }
        assert(a =~= b);
    }
}

/// A scope has one scan: two sequences that are scans of the same scope are
/// the same sequence.
pub proof fn lemma_scan_unique(
    items: Seq<Declaration>,
    first: Seq<ItemWithAttributeMatch>,
    second: Seq<ItemWithAttributeMatch>,
)
    requires
        is_scan_of(items, first),
        is_scan_of(items, second),
    ensures
        first == second,
{
    assert forall|x: ItemWithAttributeMatch| first.to_set().contains(x) <==> second.to_set().contains(
        x,
    ) by {
        if first.contains(x) {
            lemma_scanned_by_both(items, first, second, x);
        }
        if second.contains(x) {
            lemma_scanned_by_both(items, second, first, x);
        }
    }
    assert(first.to_set() =~= second.to_set());
    lemma_source_order_unique(first, second);
}

proof fn lemma_scanned_by_both(
    items: Seq<Declaration>,
    from: Seq<ItemWithAttributeMatch>,
    to: Seq<ItemWithAttributeMatch>,
    x: ItemWithAttributeMatch,
)
    requires
        is_scan_of(items, from),
        is_scan_of(items, to),
        from.contains(x),
    ensures
        to.contains(x),
{
    let k = choose|k: int| 0 <= k < from.len() && from[k] == x;
    let d = from[k].declaration as int;
    let a = from[k].annotation as int;
    assert(marker_at(items, d, a) is Some);
    let m = choose|m: int|
        0 <= m < to.len() && (#[trigger] to[m]).declaration == d && to[m].annotation == a;
    assert(marker_at(items, to[m].declaration as int, to[m].annotation as int) == Some(
        to[m].attribute,
    ));
    assert(to[m] == x);
}

/// Scans a scope: finds every marker attribute on every declaration, in
/// source order.
///
/// Declarations without markers, and attributes that are no markers, are
/// passed over. The scan fails on the first marker, in source order, whose
/// arguments are malformed.
pub fn scan_scope(items: &Vec<Declaration>) -> (r: Result<Vec<ItemWithAttributeMatch>, ParseError>)
    ensures
        match r {
            Ok(matches) => is_scan_of(items@, matches@) && faultless_upto(
                items@,
                items@.len() as int,
                0,
            ),
            Err(error) => is_site(items@, error.declaration as int, error.annotation as int)
                && fault_at(items@, error.declaration as int, error.annotation as int) == Some(
                error.fault,
            ) && faultless_upto(items@, error.declaration as int, error.annotation as int),
        },
{
    let mut matches: Vec<ItemWithAttributeMatch> = Vec::new();
    let mut d: usize = 0;
    while d < items.len()
        invariant
            d <= items@.len(),
            is_scan_upto(items@, matches@, d as int, 0),
            faultless_upto(items@, d as int, 0),
        decreases items@.len() - d,
    {
        let declaration = &items[d];
        let mut a: usize = 0;
        while a < declaration.annotations.len()
            invariant
                d < items@.len(),
                *declaration == items@[d as int],
                a <= declaration.annotations@.len(),
                is_scan_upto(items@, matches@, d as int, a as int),
                faultless_upto(items@, d as int, a as int),
            decreases declaration.annotations@.len() - a,
        {
            let annotation = &declaration.annotations[a];
            let ghost before = matches@;
            match AutoPluginAttribute::from_ident(annotation.name.as_str()) {
                Some(attribute) => {
                    match check_annotation(attribute, annotation, declaration.generic_params) {
                        Ok(_) => {},
                        Err(fault) => {
                            return Err(ParseError { declaration: d, annotation: a, fault });
                        },
                    }
                    matches.push(ItemWithAttributeMatch { declaration: d, annotation: a, attribute });
                    proof {
                        let now = matches@;
                        assert forall|x: int, y: int|
                            is_site(items@, x, y) && site_before(x, y, d as int, a + 1) && (
                            #[trigger] marker_at(items@, x, y)) is Some implies exists|k: int|
                            0 <= k < now.len() && (#[trigger] now[k]).declaration == x
                                && now[k].annotation == y by {
                            if site_before(x, y, d as int, a as int) {
                                let k = choose|k: int|
                                    0 <= k < before.len() && (#[trigger] before[k]).declaration
                                        == x && before[k].annotation == y;
                                assert(now[k] == before[k]);
                            } else {
                                assert(now[before.len() as int].declaration == x);
                            }
                        }
                        assert forall|i: int, j: int| 0 <= i < j < now.len() implies site_before(
                            (#[trigger] now[i]).declaration as int,
                            now[i].annotation as int,
                            (#[trigger] now[j]).declaration as int,
                            now[j].annotation as int,
                        ) by {
                            if j < before.len() {
                                assert(now[i] == before[i] && now[j] == before[j]);
                            } else {
                                assert(now[i] == before[i]);
                            }
                        }
                        assert forall|k: int| 0 <= k < now.len() implies is_site(
                            items@,
                            (#[trigger] now[k]).declaration as int,
                            now[k].annotation as int,
                        ) && site_before(
                            now[k].declaration as int,
                            now[k].annotation as int,
                            d as int,
                            a + 1,
                        ) && marker_at(items@, now[k].declaration as int, now[k].annotation as int)
                            == Some(now[k].attribute) by {
                            if k < before.len() {
                                assert(now[k] == before[k]);
                            }
                        }
                    }
                },
                None => {
                    proof {
                        assert forall|x: int, y: int|
                            is_site(items@, x, y) && site_before(x, y, d as int, a + 1) && (
                            #[trigger] marker_at(items@, x, y)) is Some implies exists|k: int|
                            0 <= k < before.len() && (#[trigger] before[k]).declaration == x
                                && before[k].annotation == y by {
                            assert(site_before(x, y, d as int, a as int));
                        }
                    }
                },
            }
            a = a + 1;
        }
        d = d + 1;
    }
    Ok(matches)
}

} // verus!
