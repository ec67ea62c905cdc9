//! Resolution of a scanned marker into target specifications: one per
//! requested generic instantiation, or one for the bare declaration.

use crate::attribute::AutoPluginAttribute;
use crate::path_syntax::{
    check_path, first_refused, is_refusal, lemma_first_refused, refusal, verdict_views, PathError,
    Verdict,
};
use crate::scanner::{annotation_fault, check_annotation, Annotation, Declaration, Fault};
use crate::target::{system_arguments, AddSystemParams, TargetData, TargetKey};
use crate::text::{
    canonical, canonical_path, final_segment, final_segment_of, last_separator_end,
    lemma_canonical_around_punctuation, lemma_last_separator_end,
};
use vstd::prelude::*;

verus! {

/// Why a marker could not be resolved.
#[derive(Clone, Debug, PartialEq, Eq)]
pub enum ResolveError {
    /// The arguments of the marker are malformed.
    Fault(Fault),
    /// The parser refused the path of the instantiation of this index.
    Path { instantiation: usize, error: PathError },
}

/// The number of targets that a marker resolves to: one per generic
/// instantiation, and one where none is requested.
pub open spec fn instantiation_count(annotation: Annotation) -> int {
    if annotation.generics@.len() == 0 {
        1
    } else {
        annotation.generics@.len() as int
    }
}

/// The type arguments of the instantiation `index` of a marker; `None` for
/// the bare declaration.
pub open spec fn generics_at(annotation: Annotation, index: int) -> Option<Seq<char>> {
    if annotation.generics@.len() == 0 {
        None
    } else {
        Some(annotation.generics@[index]@)
    }
}

/// The view of an optional text.
pub open spec fn text_of(text: Option<&str>) -> Option<Seq<char>> {
    match text {
        Some(text) => Some(text@),
        None => None,
    }
}

/// The path of a declaration with its type arguments, as written.
pub open spec fn written_path(declaration: Seq<char>, generics: Option<Seq<char>>) -> Seq<char> {
    match generics {
        Some(arguments) => declaration + "<"@ + arguments + ">"@,
        None => declaration,
    }
}

/// The display name of a declaration with its type arguments: the final
/// segment of the declaration path, followed, for a generic instantiation, by
/// the canonical rendering of the type arguments in angle brackets.
pub open spec fn display_name(declaration: Seq<char>, generics: Option<Seq<char>>) -> Seq<char> {
    match generics {
        Some(arguments) => final_segment(canonical(declaration)) + "<"@ + canonical(arguments)
            + ">"@,
        None => final_segment(canonical(declaration)),
    }
}

/// The target specification that one instantiation of a marker stands for.
pub open spec fn resolved_key(
    attribute: AutoPluginAttribute,
    declaration: Seq<char>,
    generics: Option<Seq<char>>,
    params: Option<AddSystemParams>,
) -> TargetKey {
    let path = canonical(written_path(declaration, generics));
    match attribute {
        AutoPluginAttribute::Name => TargetKey { path, detail: display_name(declaration, generics) },
        AutoPluginAttribute::AddSystem => TargetKey {
            path,
            detail: match params {
                Some(params) => system_arguments(
                    written_path(declaration, generics),
                    params.schedule@,
                    params.ordering@,
                    params.run_if_view(),
                ),
                None => Seq::empty(),
            },
        },
        _ => TargetKey { path, detail: Seq::empty() },
    }
}

/// The canonical path of a generic instantiation is the canonical declaration
/// path followed by the canonical type arguments in angle brackets, however
/// the two were spaced.
pub proof fn lemma_instantiated_path(declaration: Seq<char>, arguments: Seq<char>)
    ensures
        canonical(written_path(declaration, Some(arguments))) == canonical(declaration) + "<"@
            + canonical(arguments) + ">"@,
{
    reveal_strlit("<");
    reveal_strlit(">");
    assert("<"@ =~= seq!['<']);
    assert(">"@ =~= seq!['>']);
    let written = written_path(declaration, Some(arguments));
    assert(written =~= declaration.push('<') + arguments.push('>'));
    lemma_canonical_around_punctuation(declaration, '<', arguments.push('>'));
    lemma_canonical_around_punctuation(arguments, '>', Seq::empty());
    assert(arguments.push('>') + Seq::<char>::empty() =~= arguments.push('>'));
    assert(canonical(Seq::<char>::empty()) =~= Seq::<char>::empty());
    assert(canonical(declaration).push('<') + (canonical(arguments).push('>') + Seq::<
        char,
    >::empty()) =~= canonical(declaration) + "<"@ + canonical(arguments) + ">"@);
}

/// The display name ends the canonical path: the path is the display name
/// behind the segments that lead to the declaration.
pub proof fn lemma_display_name_ends_path(declaration: Seq<char>, generics: Option<Seq<char>>)
    ensures
        canonical(written_path(declaration, generics)) == canonical(declaration).take(
            last_separator_end(canonical(declaration), canonical(declaration).len() as int),
        ) + display_name(declaration, generics),
{
    let rendered = canonical(declaration);
    let start = last_separator_end(rendered, rendered.len() as int);
    lemma_last_separator_end(rendered, rendered.len() as int);
    assert(rendered =~= rendered.take(start) + final_segment(rendered));
    match generics {
        Some(arguments) => {
            lemma_instantiated_path(declaration, arguments);
            assert(rendered + "<"@ + canonical(arguments) + ">"@ =~= rendered.take(start) + (
            final_segment(rendered) + "<"@ + canonical(arguments) + ">"@));
        },
        None => {},
    }
}

/// The path of a declaration with its type arguments, as written.
pub fn written_path_of(declaration: &str, generics: Option<&str>) -> (r: String)
    ensures
        r@ == written_path(declaration@, text_of(generics)),
{
    let mut path = String::from_str(declaration);
    match generics {
        Some(arguments) => {
            path.append("<");
            path.append(arguments);
            path.append(">");
        },
        None => {},
    }
    path
}

/// The display name of a declaration with its type arguments.
pub fn display_name_of(declaration: &str, generics: Option<&str>) -> (r: String)
    ensures
        r@ == display_name(declaration@, text_of(generics)),
{
    let rendered = canonical_path(declaration);
    let mut name = final_segment_of(rendered.as_str());
    match generics {
        Some(arguments) => {
            let rendered_arguments = canonical_path(arguments);
            name.append("<");
            name.append(rendered_arguments.as_str());
            name.append(">");
        },
        None => {},
    }
    name
}

/// The contribution that one instantiation of a marker of `attribute` on the
/// declaration `declaration` stands for. A system takes its scheduling
/// parameters from `params`; there is no contribution for a system without
/// them.
pub fn resolve_target(
    attribute: AutoPluginAttribute,
    declaration: &str,
    generics: Option<&str>,
    params: Option<&AddSystemParams>,
) -> (r: Option<TargetData>)
    ensures
        r is None <==> attribute.is_scheduled() && params is None,
        r matches Some(target) ==> target.attribute() == attribute && target.key() == resolved_key(
            attribute,
            declaration@,
            text_of(generics),
            match params {
                Some(params) => Some(*params),
                None => None,
            },
        ),
{
    let path = written_path_of(declaration, generics);
    match attribute {
        AutoPluginAttribute::RegisterType => Some(TargetData::RegisterTypes(path)),
        AutoPluginAttribute::RegisterStateType => Some(TargetData::RegisterStateTypes(path)),
        AutoPluginAttribute::AddEvent => Some(TargetData::AddEvents(path)),
        AutoPluginAttribute::InitResource => Some(TargetData::InitResources(path)),
        AutoPluginAttribute::InitState => Some(TargetData::InitStates(path)),
        AutoPluginAttribute::Name => Some(
            TargetData::RequiredComponentAutoName {
                path,
                name: display_name_of(declaration, generics),
            },
        ),
        AutoPluginAttribute::AddSystem => {
            match params {
                Some(params) => Some(
                    TargetData::AddSystem { system: path, params: params.duplicate() },
                ),
                None => None,
            }
        },
    }
}

/// The target specification of the instantiation `index` of the marker
/// `annotation` of `attribute` on `declaration`.
pub open spec fn resolved_at(
    attribute: AutoPluginAttribute,
    declaration: Declaration,
    annotation: Annotation,
    index: int,
) -> TargetKey {
    resolved_key(attribute, declaration.path@, generics_at(annotation, index), annotation.params)
}

/// The contributions that the marker `annotation` of `attribute` on
/// `declaration` stands for: one per requested generic instantiation, in the
/// order in which they are written, or one for the bare declaration where
/// none is requested. Instantiations are not deduplicated here. Malformed
/// arguments are refused as the scan refuses them.
pub fn resolve_instantiations(
    attribute: AutoPluginAttribute,
    declaration: &Declaration,
    annotation: &Annotation,
) -> (r: Result<Vec<TargetData>, Fault>)
    ensures
        match r {
            Ok(targets) => annotation_fault(
                attribute,
                *annotation,
                declaration.generic_params,
            ) is None && is_resolved(targets@, attribute, *declaration, *annotation),
            Err(fault) => annotation_fault(attribute, *annotation, declaration.generic_params)
                == Some(fault),
        },
{
    match check_annotation(attribute, annotation, declaration.generic_params) {
        Ok(_) => {},
        Err(fault) => {
            return Err(fault);
        },
    }
    let params = match &annotation.params {
        Some(params) => Some(params),
        None => None,
    };
    let bare = annotation.generics.len() == 0;
    let count: usize = if bare {
        1
    } else {
        annotation.generics.len()
    };
    let mut targets: Vec<TargetData> = Vec::new();
    let mut index: usize = 0;
    while index < count
        invariant
            index <= count,
            count == instantiation_count(*annotation),
            bare == (annotation.generics@.len() == 0),
            annotation_fault(attribute, *annotation, declaration.generic_params) is None,
            params == match annotation.params {
                Some(params) => Some(&params),
                None => None,
            },
            targets@.len() == index,
            forall|i: int|
                0 <= i < index ==> (#[trigger] targets@[i]).attribute() == attribute
                    && targets@[i].key() == resolved_at(attribute, *declaration, *annotation, i),
        decreases count - index,
    {
        let generics = if bare {
            None
        } else {
            Some(annotation.generics[index].as_str())
        };
        match resolve_target(attribute, declaration.path.as_str(), generics, params) {
            Some(target) => {
                targets.push(target);
            },
            None => {
                return Err(Fault::MissingSchedule);
            },
        }
        index = index + 1;
    }
    Ok(targets)
}

/// Whether `targets` are the contributions of the marker `annotation` of
/// `attribute` on `declaration`, one per instantiation, in order.
pub open spec fn is_resolved(
    targets: Seq<TargetData>,
    attribute: AutoPluginAttribute,
    declaration: Declaration,
    annotation: Annotation,
) -> bool {
    &&& targets.len() == instantiation_count(annotation)
    &&& forall|i: int|
        0 <= i < targets.len() ==> (#[trigger] targets[i]).attribute() == attribute
            && targets[i].key() == resolved_at(attribute, declaration, annotation, i)
}

/// The canonical paths of the contributions, in order.
pub open spec fn target_paths(targets: Seq<TargetData>) -> Seq<Seq<char>> {
    Seq::new(targets.len(), |i: int| targets[i].key().path)
}

/// Asks the parser for its verdict on the canonical path of each of
/// `targets`, in order.
pub fn target_verdicts(targets: &Vec<TargetData>) -> (verdicts: Vec<Verdict>)
    ensures
        verdicts@.len() == targets@.len(),
{
    let mut verdicts: Vec<Verdict> = Vec::new();
    let mut index: usize = 0;
    while index < targets.len()
        invariant
            index <= targets@.len(),
            verdicts@.len() == index,
        decreases targets@.len() - index,
    {
        let rendered = targets[index].to_spec();
        let verdict = match check_path(rendered.path.as_str()) {
            Ok(_) => None,
            Err(error) => Some(error.message),
        };
        verdicts.push(verdict);
        index = index + 1;
    }
    verdicts
}

/// Whether `r` is the outcome that the verdicts `verdicts` on the canonical
/// paths of `targets` call for: the refusal of the first path that was
/// refused, under the index of its instantiation, or `targets` where every
/// path was accepted.
pub open spec fn is_judged(
    r: Result<Vec<TargetData>, ResolveError>,
    targets: Seq<TargetData>,
    verdicts: Seq<Option<Seq<char>>>,
) -> bool {
    match refusal(target_paths(targets), verdicts) {
        Some(refused) => r matches Err(ResolveError::Path { instantiation, error })
            && instantiation == first_refused(verdicts, 0) && is_refusal(error, refused),
        None => r matches Ok(accepted) && accepted@ == targets,
    }
}

/// What the verdicts `verdicts` on the canonical paths of `targets` come to:
/// the error of the first path that was refused, under the index of its
/// instantiation, or `targets` where every path was accepted. The verdict of
/// index `k` is taken as that on the target of index `k`.
pub fn targets_or_refusal(targets: Vec<TargetData>, verdicts: &Vec<Verdict>) -> (r: Result<
    Vec<TargetData>,
    ResolveError,
>)
    ensures
        is_judged(r, targets@, verdict_views(verdicts@)),
{
    let ghost views = verdict_views(verdicts@);
    let mut index: usize = 0;
    while index < verdicts.len()
        invariant
            index <= verdicts@.len(),
            views == verdict_views(verdicts@),
            first_refused(views, 0) == first_refused(views, index as int),
        decreases verdicts@.len() - index,
    {
        match &verdicts[index] {
            Some(message) => {
                assert(views[index as int] == Some(message@));
                if index < targets.len() {
                    assert(target_paths(targets@)[index as int] == targets@[index as int].key().path);
                    let rendered = targets[index].to_spec();
                    return Err(
                        ResolveError::Path {
                            instantiation: index,
                            error: PathError { input: rendered.path, message: message.clone() },
                        },
                    );
                } else {
                    return Ok(targets);
                }
            },
            None => {
                assert(views[index as int] is None);
            },
        }
        index = index + 1;
    }
    Ok(targets)
}

/// Whether `r` is what the resolution of the marker comes to under some
/// verdicts of the parser, one on the canonical path of each instantiation:
/// the fault of the marker where its arguments are malformed, else the
/// outcome that the verdicts call for.
pub open spec fn is_resolution(
    r: Result<Vec<TargetData>, ResolveError>,
    attribute: AutoPluginAttribute,
    declaration: Declaration,
    annotation: Annotation,
) -> bool {
    match annotation_fault(attribute, annotation, declaration.generic_params) {
        Some(fault) => r matches Err(ResolveError::Fault(found)) && found == fault,
        None => exists|targets: Seq<TargetData>, verdicts: Seq<Option<Seq<char>>>|
            is_resolved(targets, attribute, declaration, annotation) && verdicts.len()
                == targets.len() && #[trigger] is_judged(r, targets, verdicts),
    }
}

/// Resolves the marker `annotation` of `attribute` on `declaration` into its
/// contributions: one per requested generic instantiation, in the order in
/// which they are written, or one for the bare declaration where none is
/// requested. Instantiations are not deduplicated here.
///
/// Malformed arguments are refused as the scan refuses them, before the
/// parser is asked. The path of each contribution, rendered canonically, is
/// handed to the parser; the first that the parser refused is reported.
pub fn resolve_targets(
    attribute: AutoPluginAttribute,
    declaration: &Declaration,
    annotation: &Annotation,
) -> (r: Result<Vec<TargetData>, ResolveError>)
    ensures
        is_resolution(r, attribute, *declaration, *annotation),
        match r {
            Ok(targets) => annotation_fault(
                attribute,
                *annotation,
                declaration.generic_params,
            ) is None && is_resolved(targets@, attribute, *declaration, *annotation),
            Err(ResolveError::Fault(fault)) => annotation_fault(
                attribute,
                *annotation,
                declaration.generic_params,
            ) == Some(fault),
            Err(ResolveError::Path { instantiation, error }) => annotation_fault(
                attribute,
                *annotation,
                declaration.generic_params,
            ) is None && instantiation < instantiation_count(*annotation) && error.input@
                == resolved_at(attribute, *declaration, *annotation, instantiation as int).path,
        },
{
    let targets = match resolve_instantiations(attribute, declaration, annotation) {
        Ok(targets) => targets,
        Err(fault) => {
            return Err(ResolveError::Fault(fault));
        },
    };
    let ghost resolved = targets@;
    let verdicts = target_verdicts(&targets);
    let r = targets_or_refusal(targets, &verdicts);
    proof {
        let views = verdict_views(verdicts@);
        assert(is_judged(r, resolved, views));
        if r is Err {
            let k = first_refused(views, 0);
            lemma_first_refused(views, 0);
            assert(target_paths(resolved)[k] == resolved[k].key().path);
        }
    }
    r
}

} // verus!
