//! Synthesis of the plugin function: one registration call per collected
//! target, grouped by category in a fixed order.

use crate::attribute::{AutoPluginAttribute, ATTRIBUTE_COUNT};
use crate::context::CategoryTargets;
use crate::path_syntax::{
    check_path, first_refused, is_refusal, refusal, verdict_views, PathError, Refusal, Verdict,
};
use crate::store::Targets;
use crate::target::{key_lt, TargetKey, TargetSpec};
use crate::target_set::{keys_of, sorted_targets, strictly_sorted};
use crate::text::{push_string_literal, string_literal};
use vstd::prelude::*;

verus! {

// ---------------------------------------------------------------------------
// The emitted text
// ---------------------------------------------------------------------------

/// A call of `method` on the handle `app` with the type argument `argument`.
pub open spec fn type_call_text(app: Seq<char>, method: Seq<char>, argument: Seq<char>) -> Seq<
    char,
> {
    "    "@ + app + "."@ + method + "::<"@ + argument + ">();\n"@
}

/// The registration of one target of `attribute` on the handle `app`.
pub open spec fn call_text(attribute: AutoPluginAttribute, app: Seq<char>, key: TargetKey) -> Seq<
    char,
> {
    match attribute {
        AutoPluginAttribute::RegisterType => type_call_text(app, "register_type"@, key.path),
        AutoPluginAttribute::RegisterStateType => type_call_text(
            app,
            "register_type"@,
            "State<"@ + key.path + ">"@,
        ) + type_call_text(app, "register_type"@, "NextState<"@ + key.path + ">"@),
        AutoPluginAttribute::AddEvent => type_call_text(app, "add_event"@, key.path),
        AutoPluginAttribute::InitResource => type_call_text(app, "init_resource"@, key.path),
        AutoPluginAttribute::InitState => type_call_text(app, "init_state"@, key.path),
        AutoPluginAttribute::Name => "    "@ + app + ".register_required_components_with::<"@
            + key.path + ", Name>(|| Name::new("@ + string_literal(key.detail) + "));\n"@,
        AutoPluginAttribute::AddSystem => "    "@ + app + ".add_systems("@ + key.detail
            + ");\n"@,
    }
}

/// The registrations of `keys`, in order.
pub open spec fn calls_text(
    attribute: AutoPluginAttribute,
    app: Seq<char>,
    keys: Seq<TargetKey>,
) -> Seq<char>
    decreases keys.len(),
{
    if keys.len() == 0 {
        Seq::empty()
    } else {
        calls_text(attribute, app, keys.drop_last()) + call_text(attribute, app, keys.last())
    }
}

/// The block that registers the targets `keys` of `attribute`.
pub open spec fn block_text(
    attribute: AutoPluginAttribute,
    app: Seq<char>,
    keys: Seq<TargetKey>,
) -> Seq<char> {
    "{\n"@ + calls_text(attribute, app, keys) + "}\n"@
}

/// The targets of one category, in the order in which they are emitted.
pub type Group = (AutoPluginAttribute, Seq<TargetKey>);

/// The blocks of the first `count` of `groups`, in order.
pub open spec fn blocks_text(app: Seq<char>, groups: Seq<Group>, count: int) -> Seq<char>
    decreases count,
{
    if count <= 0 {
        Seq::empty()
    } else {
        blocks_text(app, groups, count - 1) + block_text(
            groups[count - 1].0,
            app,
            groups[count - 1].1,
        )
    }
}

/// The plugin function called `init_name`, which registers, on the handle
/// `app`, the targets of each of `groups`, one block per group.
pub open spec fn function_text(init_name: Seq<char>, app: Seq<char>, groups: Seq<Group>) -> Seq<
    char,
> {
    "pub(super) fn "@ + init_name + "("@ + app + ": &mut bevy_app::prelude::App) {\n"@
        + blocks_text(app, groups, groups.len() as int) + "}\n"@
}

/// The groups of a snapshot.
pub open spec fn groups_of(snapshot: Seq<CategoryTargets>) -> Seq<Group> {
    Seq::new(snapshot.len(), |k: int| (snapshot[k].0, keys_of(snapshot[k].1@)))
}

/// The collected targets in emission order: the categories by rank, the
/// targets of a category sorted.
pub open spec fn emission_order(targets: Targets) -> Seq<Group> {
    Seq::new(
        ATTRIBUTE_COUNT as nat,
        |k: int|
            (
                AutoPluginAttribute::of_rank(k),
                sorted_targets(targets[AutoPluginAttribute::of_rank(k)]),
            ),
    )
}

/// The plugin function for the collected `targets`.
pub open spec fn plugin_text(init_name: Seq<char>, app: Seq<char>, targets: Targets) -> Seq<char> {
    function_text(init_name, app, emission_order(targets))
}

// ---------------------------------------------------------------------------
// Emitters
// ---------------------------------------------------------------------------

fn push_type_call(
    out: &mut String,
    app_ident: &str,
    method: &str,
    prefix: &str,
    path: &str,
    suffix: &str,
)
    ensures
        final(out)@ == old(out)@ + type_call_text(app_ident@, method@, prefix@ + path@ + suffix@),
{
    out.append("    ");
    out.append(app_ident);
    out.append(".");
    out.append(method);
    out.append("::<");
    out.append(prefix);
    out.append(path);
    out.append(suffix);
    out.append(">();\n");
    assert(out@ =~= old(out)@ + type_call_text(
        app_ident@,
        method@,
        prefix@ + path@ + suffix@,
    ));
}

/// Appends to `out` the registration of `target` for `attribute`.
pub fn push_call(
    out: &mut String,
    attribute: AutoPluginAttribute,
    app_ident: &str,
    target: &TargetSpec,
)
    ensures
        final(out)@ == old(out)@ + call_text(attribute, app_ident@, target@),
{
    let path = target.path.as_str();
    proof {
        reveal_strlit("");
        assert(""@ + path@ + ""@ =~= path@);
    }
    match attribute {
        AutoPluginAttribute::RegisterType => push_type_call(
            out,
            app_ident,
            "register_type",
            "",
            path,
            "",
        ),
        AutoPluginAttribute::RegisterStateType => {
            push_type_call(out, app_ident, "register_type", "State<", path, ">");
            push_type_call(out, app_ident, "register_type", "NextState<", path, ">");
            assert(out@ =~= old(out)@ + call_text(attribute, app_ident@, target@));
        },
        AutoPluginAttribute::AddEvent => push_type_call(out, app_ident, "add_event", "", path, ""),
        AutoPluginAttribute::InitResource => push_type_call(
            out,
            app_ident,
            "init_resource",
            "",
            path,
            "",
        ),
        AutoPluginAttribute::InitState => push_type_call(
            out,
            app_ident,
            "init_state",
            "",
            path,
            "",
        ),
        AutoPluginAttribute::Name => {
            out.append("    ");
            out.append(app_ident);
            out.append(".register_required_components_with::<");
            out.append(path);
            out.append(", Name>(|| Name::new(");
            push_string_literal(out, target.detail.as_str());
            out.append("));\n");
            assert(out@ =~= old(out)@ + call_text(attribute, app_ident@, target@));
        },
        AutoPluginAttribute::AddSystem => {
            out.append("    ");
            out.append(app_ident);
            out.append(".add_systems(");
            out.append(target.detail.as_str());
            out.append(");\n");
            assert(out@ =~= old(out)@ + call_text(attribute, app_ident@, target@));
        },
    }
}

/// Appends to `out` the block that registers `items` for `attribute`.
pub fn push_block(
    out: &mut String,
    attribute: AutoPluginAttribute,
    app_ident: &str,
    items: &Vec<TargetSpec>,
)
    ensures
        final(out)@ == old(out)@ + block_text(attribute, app_ident@, keys_of(items@)),
{
    out.append("{\n");
    let mut index: usize = 0;
    while index < items.len()
        invariant
            index <= items.len(),
            out@ == old(out)@ + "{\n"@ + calls_text(
                attribute,
                app_ident@,
                keys_of(items@).take(index as int),
            ),
        decreases items.len() - index,
    {
        assert(keys_of(items@).take(index + 1).drop_last() == keys_of(items@).take(index as int));
        assert(keys_of(items@).take(index + 1).last() == items@[index as int]@);
        let ghost before = out@;
        push_call(out, attribute, app_ident, &items[index]);
        assert(out@ =~= old(out)@ + "{\n"@ + (calls_text(
            attribute,
            app_ident@,
            keys_of(items@).take(index as int),
        ) + call_text(attribute, app_ident@, items@[index as int]@)));
        index = index + 1;
    }
    assert(keys_of(items@).take(items.len() as int) == keys_of(items@));
    out.append("}\n");
    assert(out@ =~= old(out)@ + block_text(attribute, app_ident@, keys_of(items@)));
}

/// The block that registers `items` for `attribute` on the handle `app_ident`.
pub fn block_source(
    attribute: AutoPluginAttribute,
    app_ident: &str,
    items: &Vec<TargetSpec>,
) -> (r: String)
    ensures
        r@ == block_text(attribute, app_ident@, keys_of(items@)),
{
    let mut out = String::new();
    push_block(&mut out, attribute, app_ident, items);
    assert(out@ =~= block_text(attribute, app_ident@, keys_of(items@)));
    out
}

/// The paths of the targets, in order.
pub open spec fn paths_of(items: Seq<TargetSpec>) -> Seq<Seq<char>> {
    Seq::new(items.len(), |k: int| items[k].path@)
}

/// Whether `r` is the outcome that the verdicts `verdicts` on the paths of
/// `items` call for: the refusal of the first path that was refused, or
/// success where every path was accepted.
pub open spec fn is_checked(
    r: Result<(), PathError>,
    items: Seq<TargetSpec>,
    verdicts: Seq<Option<Seq<char>>>,
) -> bool {
    match refusal(paths_of(items), verdicts) {
        Some(refused) => r matches Err(error) && is_refusal(error, refused),
        None => r is Ok,
    }
}

/// Whether `r` is the outcome that `refused` calls for: the error of the
/// refusal, or the text `text` where nothing was refused.
pub open spec fn is_generated(
    r: Result<String, PathError>,
    text: Seq<char>,
    refused: Option<Refusal>,
) -> bool {
    match refused {
        Some(refused) => r matches Err(error) && is_refusal(error, refused),
        None => r matches Ok(generated) && generated@ == text,
    }
}

/// A refusal names the path of one of the items.
pub proof fn lemma_refusal_names_item(items: Seq<TargetSpec>, verdicts: Seq<Option<Seq<char>>>)
    requires
        refusal(paths_of(items), verdicts) is Some,
    ensures
        exists|k: int|
            0 <= k < items.len() && refusal(paths_of(items), verdicts)->Some_0.input == (
            #[trigger] items[k]).path@,
{
    let k = first_refused(verdicts, 0);
    assert(paths_of(items)[k] == items[k].path@);
}

/// Asks the parser for its verdict on the path of each of `items`, in order.
pub fn path_verdicts(items: &Vec<TargetSpec>) -> (verdicts: Vec<Verdict>)
    ensures
        verdicts@.len() == items@.len(),
{
    let mut verdicts: Vec<Verdict> = Vec::new();
    let mut index: usize = 0;
    while index < items.len()
        invariant
            index <= items@.len(),
            verdicts@.len() == index,
        decreases items@.len() - index,
    {
        let verdict = match check_path(items[index].path.as_str()) {
            Ok(_) => None,
            Err(error) => Some(error.message),
        };
        verdicts.push(verdict);
        index = index + 1;
    }
    verdicts
}

/// What the verdicts `verdicts` on the paths of `items` come to: the error of
/// the first path that was refused, with the message of its refusal; `Ok`
/// where every path was accepted. The verdict of index `k` is taken as that on
/// the item of index `k`.
pub fn first_refusal(items: &Vec<TargetSpec>, verdicts: &Vec<Verdict>) -> (r: Result<
    (),
    PathError,
>)
    ensures
        is_checked(r, items@, verdict_views(verdicts@)),
{
    let ghost views = verdict_views(verdicts@);
    let mut index: usize = 0;
    while index < verdicts.len()
        invariant
            index <= verdicts@.len(),
            views == verdict_views(verdicts@),
            first_refused(views, 0) == first_refused(views, index as int),
        decreases verdicts@.len() - index,
    {
        match &verdicts[index] {
            Some(message) => {
                assert(views[index as int] == Some(message@));
                if index < items.len() {
                    assert(paths_of(items@)[index as int] == items@[index as int].path@);
                    return Err(
                        PathError { input: items[index].path.clone(), message: message.clone() },
                    );
                } else {
                    return Ok(());
                }
            },
            None => {
                assert(views[index as int] is None);
            },
        }
        index = index + 1;
    }
    Ok(())
}

/// Has the parser check the path of each of `items`, and reports the first
/// that it refused.
pub fn check_items(items: &Vec<TargetSpec>) -> (r: Result<(), PathError>)
    ensures
        exists|verdicts: Seq<Option<Seq<char>>>|
            verdicts.len() == items@.len() && #[trigger] is_checked(r, items@, verdicts),
        r matches Err(error) ==> exists|k: int|
            0 <= k < items@.len() && error.input@ == (#[trigger] items@[k]).path@,
{
    let verdicts = path_verdicts(items);
    let r = first_refusal(items, &verdicts);
    proof {
        let views = verdict_views(verdicts@);
        assert(is_checked(r, items@, views));
        if r is Err {
            lemma_refusal_names_item(items@, views);
        }
    }
    r
}

/// The block that registers `items` for `attribute`, or the error that the
/// verdicts `verdicts` on the paths of `items` call for: the block where
/// every path was accepted, the error of the first refused path where one was
/// refused.
pub fn block_or_refusal(
    attribute: AutoPluginAttribute,
    app_ident: &str,
    items: &Vec<TargetSpec>,
    verdicts: &Vec<Verdict>,
) -> (r: Result<String, PathError>)
    ensures
        is_generated(
            r,
            block_text(attribute, app_ident@, keys_of(items@)),
            refusal(paths_of(items@), verdict_views(verdicts@)),
        ),
{
    match first_refusal(items, verdicts) {
        Ok(_) => Ok(block_source(attribute, app_ident, items)),
        Err(error) => Err(error),
    }
}

/// Whether `r` is what the generation of the block of `attribute` comes to
/// under some verdicts of the parser, one on the path of each item.
pub open spec fn is_generated_block(
    r: Result<String, PathError>,
    attribute: AutoPluginAttribute,
    app: Seq<char>,
    items: Seq<TargetSpec>,
) -> bool {
    exists|verdicts: Seq<Option<Seq<char>>>|
        verdicts.len() == items.len() && #[trigger] is_generated(
            r,
            block_text(attribute, app, keys_of(items)),
            refusal(paths_of(items), verdicts),
        )
}

/// Asks the parser for its verdict on the path of each item, and gives the
/// block of `attribute` or the error that the verdicts call for.
fn generate_block(
    attribute: AutoPluginAttribute,
    app_ident: &str,
    items: &Vec<TargetSpec>,
) -> (r: Result<String, PathError>)
    ensures
        is_generated_block(r, attribute, app_ident@, items@),
        match r {
            Ok(text) => text@ == block_text(attribute, app_ident@, keys_of(items@)),
            Err(error) => exists|k: int|
                0 <= k < items@.len() && error.input@ == (#[trigger] items@[k]).path@,
        },
{
    let verdicts = path_verdicts(items);
    let r = block_or_refusal(attribute, app_ident, items, &verdicts);
    proof {
        let views = verdict_views(verdicts@);
        assert(is_generated(
            r,
            block_text(attribute, app_ident@, keys_of(items@)),
            refusal(paths_of(items@), views),
        ));
        if r is Err {
            lemma_refusal_names_item(items@, views);
        }
    }
    r
}

/// The block that registers the types `items`.
pub fn generate_register_types(app_ident: &str, items: &Vec<TargetSpec>) -> (r: Result<
    String,
    PathError,
>)
    ensures
        is_generated_block(r, AutoPluginAttribute::RegisterType, app_ident@, items@),
        match r {
            Ok(text) => text@ == block_text(
                AutoPluginAttribute::RegisterType,
                app_ident@,
                keys_of(items@),
            ),
            Err(error) => exists|k: int|
                0 <= k < items@.len() && error.input@ == (#[trigger] items@[k]).path@,
        },
{
    generate_block(AutoPluginAttribute::RegisterType, app_ident, items)
}

/// The block that adds the events `items`.
pub fn generate_add_events(app_ident: &str, items: &Vec<TargetSpec>) -> (r: Result<
    String,
    PathError,
>)
    ensures
        is_generated_block(r, AutoPluginAttribute::AddEvent, app_ident@, items@),
        match r {
            Ok(text) => text@ == block_text(
                AutoPluginAttribute::AddEvent,
                app_ident@,
                keys_of(items@),
            ),
            Err(error) => exists|k: int|
                0 <= k < items@.len() && error.input@ == (#[trigger] items@[k]).path@,
        },
{
    generate_block(AutoPluginAttribute::AddEvent, app_ident, items)
}

/// The block that initialises the resources `items`.
pub fn generate_init_resources(app_ident: &str, items: &Vec<TargetSpec>) -> (r: Result<
    String,
    PathError,
>)
    ensures
        is_generated_block(r, AutoPluginAttribute::InitResource, app_ident@, items@),
        match r {
            Ok(text) => text@ == block_text(
                AutoPluginAttribute::InitResource,
                app_ident@,
                keys_of(items@),
            ),
            Err(error) => exists|k: int|
                0 <= k < items@.len() && error.input@ == (#[trigger] items@[k]).path@,
        },
{
    generate_block(AutoPluginAttribute::InitResource, app_ident, items)
}

/// The block that gives each of the components `items` its name as a
/// required component.
pub fn generate_auto_names(app_ident: &str, items: &Vec<TargetSpec>) -> (r: Result<
    String,
    PathError,
>)
    ensures
        is_generated_block(r, AutoPluginAttribute::Name, app_ident@, items@),
        match r {
            Ok(text) => text@ == block_text(AutoPluginAttribute::Name, app_ident@, keys_of(items@)),
            Err(error) => exists|k: int|
                0 <= k < items@.len() && error.input@ == (#[trigger] items@[k]).path@,
        },
{
    generate_block(AutoPluginAttribute::Name, app_ident, items)
}

/// The block that registers the state types `items`.
pub fn generate_register_state_types(app_ident: &str, items: &Vec<TargetSpec>) -> (r: Result<
    String,
    PathError,
>)
    ensures
        is_generated_block(r, AutoPluginAttribute::RegisterStateType, app_ident@, items@),
        match r {
            Ok(text) => text@ == block_text(
                AutoPluginAttribute::RegisterStateType,
                app_ident@,
                keys_of(items@),
            ),
            Err(error) => exists|k: int|
                0 <= k < items@.len() && error.input@ == (#[trigger] items@[k]).path@,
        },
{
    generate_block(AutoPluginAttribute::RegisterStateType, app_ident, items)
}

/// The block that initialises the states `items`.
pub fn generate_init_states(app_ident: &str, items: &Vec<TargetSpec>) -> (r: Result<
    String,
    PathError,
>)
    ensures
        is_generated_block(r, AutoPluginAttribute::InitState, app_ident@, items@),
        match r {
            Ok(text) => text@ == block_text(
                AutoPluginAttribute::InitState,
                app_ident@,
                keys_of(items@),
            ),
            Err(error) => exists|k: int|
                0 <= k < items@.len() && error.input@ == (#[trigger] items@[k]).path@,
        },
{
    generate_block(AutoPluginAttribute::InitState, app_ident, items)
}

/// The block that schedules the systems `items`.
pub fn generate_add_systems(app_ident: &str, items: &Vec<TargetSpec>) -> (r: Result<
    String,
    PathError,
>)
    ensures
        is_generated_block(r, AutoPluginAttribute::AddSystem, app_ident@, items@),
        match r {
            Ok(text) => text@ == block_text(
                AutoPluginAttribute::AddSystem,
                app_ident@,
                keys_of(items@),
            ),
            Err(error) => exists|k: int|
                0 <= k < items@.len() && error.input@ == (#[trigger] items@[k]).path@,
        },
{
    generate_block(AutoPluginAttribute::AddSystem, app_ident, items)
}

/// The plugin function called `init_name` for a snapshot: one block per entry
/// of the snapshot, in order.
pub fn plugin_source(
    init_name: &str,
    app_ident: &str,
    snapshot: &Vec<CategoryTargets>,
) -> (r: String)
    ensures
        r@ == function_text(init_name@, app_ident@, groups_of(snapshot@)),
{
    let mut out = String::from_str("pub(super) fn ");
    out.append(init_name);
    out.append("(");
    out.append(app_ident);
    out.append(": &mut bevy_app::prelude::App) {\n");
    let ghost head = out@;
    let mut index: usize = 0;
    while index < snapshot.len()
        invariant
            index <= snapshot@.len(),
            out@ == head + blocks_text(app_ident@, groups_of(snapshot@), index as int),
        decreases snapshot@.len() - index,
    {
        push_block(&mut out, snapshot[index].0, app_ident, &snapshot[index].1);
        assert(out@ =~= head + (blocks_text(app_ident@, groups_of(snapshot@), index as int)
            + block_text(
            groups_of(snapshot@)[index as int].0,
            app_ident@,
            groups_of(snapshot@)[index as int].1,
        )));
        index = index + 1;
    }
    out.append("}\n");
    assert(out@ =~= function_text(init_name@, app_ident@, groups_of(snapshot@)));
    out
}

/// The paths of the targets of each entry of a snapshot.
pub open spec fn group_paths(snapshot: Seq<CategoryTargets>) -> Seq<Seq<Seq<char>>> {
    Seq::new(snapshot.len(), |k: int| paths_of(snapshot[k].1@))
}

/// The messages of the verdicts of each group.
pub open spec fn group_verdict_views(verdicts: Seq<Vec<Verdict>>) -> Seq<Seq<Option<Seq<char>>>> {
    Seq::new(verdicts.len(), |k: int| verdict_views(verdicts[k]@))
}

/// What the verdicts say of the groups of paths from index `from` on, the
/// verdicts of index `k` being those on the group of index `k`: the refusal
/// of the first group that has one; `None` where every path was accepted.
pub open spec fn first_group_refusal(
    paths: Seq<Seq<Seq<char>>>,
    verdicts: Seq<Seq<Option<Seq<char>>>>,
    from: int,
) -> Option<Refusal>
    decreases paths.len() - from,
{
    if from < 0 || from >= paths.len() || from >= verdicts.len() {
        None
    } else {
        match refusal(paths[from], verdicts[from]) {
            Some(refused) => Some(refused),
            None => first_group_refusal(paths, verdicts, from + 1),
        }
    }
}

/// A refusal among the groups of a snapshot names the path of one of its
/// targets.
pub proof fn lemma_group_refusal_names_item(
    snapshot: Seq<CategoryTargets>,
    verdicts: Seq<Seq<Option<Seq<char>>>>,
    from: int,
)
    requires
        0 <= from,
        first_group_refusal(group_paths(snapshot), verdicts, from) is Some,
    ensures
        exists|k: int, i: int|
            0 <= k < snapshot.len() && 0 <= i < snapshot[k].1@.len() && first_group_refusal(
                group_paths(snapshot),
                verdicts,
                from,
            )->Some_0.input == (#[trigger] snapshot[k].1@[i]).path@,
    decreases snapshot.len() - from,
{
    let paths = group_paths(snapshot);
    if refusal(paths[from], verdicts[from]) is Some {
        lemma_refusal_names_item(snapshot[from].1@, verdicts[from]);
        let i = choose|i: int|
            0 <= i < snapshot[from].1@.len() && refusal(
                paths_of(snapshot[from].1@),
                verdicts[from],
            )->Some_0.input == (#[trigger] snapshot[from].1@[i]).path@;
        assert(first_group_refusal(paths, verdicts, from)->Some_0.input
            == snapshot[from].1@[i].path@);
    } else {
        lemma_group_refusal_names_item(snapshot, verdicts, from + 1);
    }
}

/// Asks the parser for its verdict on the path of each target of each entry
/// of the snapshot, in order.
pub fn snapshot_verdicts(snapshot: &Vec<CategoryTargets>) -> (verdicts: Vec<Vec<Verdict>>)
    ensures
        verdicts@.len() == snapshot@.len(),
        forall|k: int|
            0 <= k < snapshot@.len() ==> (#[trigger] verdicts@[k])@.len() == snapshot@[k].1@.len(),
{
    let mut verdicts: Vec<Vec<Verdict>> = Vec::new();
    let mut index: usize = 0;
    while index < snapshot.len()
        invariant
            index <= snapshot@.len(),
            verdicts@.len() == index,
            forall|k: int|
                0 <= k < index ==> (#[trigger] verdicts@[k])@.len() == snapshot@[k].1@.len(),
        decreases snapshot@.len() - index,
    {
        verdicts.push(path_verdicts(&snapshot[index].1));
        index = index + 1;
    }
    verdicts
}

/// The plugin function for a snapshot, or the error that the verdicts
/// `verdicts` on the paths of its targets call for: the function where every
/// path was accepted, the error of the first refused path of the first entry
/// that has one where a path was refused.
pub fn plugin_or_refusal(
    init_name: &str,
    app_ident: &str,
    snapshot: &Vec<CategoryTargets>,
    verdicts: &Vec<Vec<Verdict>>,
) -> (r: Result<String, PathError>)
    ensures
        is_generated(
            r,
            function_text(init_name@, app_ident@, groups_of(snapshot@)),
            first_group_refusal(group_paths(snapshot@), group_verdict_views(verdicts@), 0),
        ),
{
    let ghost paths = group_paths(snapshot@);
    let ghost views = group_verdict_views(verdicts@);
    let mut index: usize = 0;
    while index < snapshot.len() && index < verdicts.len()
        invariant
            index <= snapshot@.len(),
            index <= verdicts@.len(),
            paths == group_paths(snapshot@),
            views == group_verdict_views(verdicts@),
            first_group_refusal(paths, views, 0) == first_group_refusal(paths, views, index as int),
        decreases snapshot@.len() - index,
    {
        assert(paths[index as int] == paths_of(snapshot@[index as int].1@));
        assert(views[index as int] == verdict_views(verdicts@[index as int]@));
        match first_refusal(&snapshot[index].1, &verdicts[index]) {
            Ok(_) => {},
            Err(error) => {
                return Err(error);
            },
        }
        index = index + 1;
    }
    Ok(plugin_source(init_name, app_ident, snapshot))
}

/// Whether `r` is what the generation of the plugin function comes to under
/// some verdicts of the parser, one on the path of each target of each entry.
pub open spec fn is_generated_plugin(
    r: Result<String, PathError>,
    init_name: Seq<char>,
    app: Seq<char>,
    snapshot: Seq<CategoryTargets>,
) -> bool {
    exists|verdicts: Seq<Seq<Option<Seq<char>>>>|
        verdicts.len() == snapshot.len() && (forall|k: int|
            0 <= k < snapshot.len() ==> (#[trigger] verdicts[k]).len() == snapshot[k].1@.len())
            && #[trigger] is_generated(
            r,
            function_text(init_name, app, groups_of(snapshot)),
            first_group_refusal(group_paths(snapshot), verdicts, 0),
        )
}

/// Asks the parser for its verdict on the path of every target of the
/// snapshot, and gives the plugin function or the error that the verdicts
/// call for.
pub fn generate_plugin(
    init_name: &str,
    app_ident: &str,
    snapshot: &Vec<CategoryTargets>,
) -> (r: Result<String, PathError>)
    ensures
        is_generated_plugin(r, init_name@, app_ident@, snapshot@),
        match r {
            Ok(text) => text@ == function_text(init_name@, app_ident@, groups_of(snapshot@)),
            Err(error) => exists|k: int, i: int|
                0 <= k < snapshot@.len() && 0 <= i < snapshot@[k].1@.len() && error.input@ == (
                #[trigger] snapshot@[k].1@[i]).path@,
        },
{
    let verdicts = snapshot_verdicts(snapshot);
    let r = plugin_or_refusal(init_name, app_ident, snapshot, &verdicts);
    proof {
        let views = group_verdict_views(verdicts@);
        assert forall|k: int| 0 <= k < snapshot@.len() implies (#[trigger] views[k]).len()
            == snapshot@[k].1@.len() by {
            assert(views[k] == verdict_views(verdicts@[k]@));
        }
        assert(is_generated(
            r,
            function_text(init_name@, app_ident@, groups_of(snapshot@)),
            first_group_refusal(group_paths(snapshot@), views, 0),
        ));
        if r is Err {
            lemma_group_refusal_names_item(snapshot@, views, 0);
        }
    }
    r
}

/// One registration call of the plugin function.
pub struct Call {
    pub attribute: AutoPluginAttribute,
    pub key: TargetKey,
}

/// The order of the calls in the plugin function: by category rank, then by
/// target.
pub open spec fn call_before(a: Call, b: Call) -> bool {
    a.attribute.rank() < b.attribute.rank() || (a.attribute == b.attribute && key_lt(a.key, b.key))
}

/// The calls that register the targets `keys` of `attribute`, in order.
pub open spec fn group_calls(attribute: AutoPluginAttribute, keys: Seq<TargetKey>) -> Seq<Call> {
    Seq::new(keys.len(), |i: int| Call { attribute, key: keys[i] })
}

/// The text of `calls` on the handle `app`, in order.
pub open spec fn text_of_calls(app: Seq<char>, calls: Seq<Call>) -> Seq<char>
    decreases calls.len(),
{
    if calls.len() == 0 {
        Seq::empty()
    } else {
        text_of_calls(app, calls.drop_last()) + call_text(
            calls.last().attribute,
            app,
            calls.last().key,
        )
    }
}

/// A block holds the text of the calls of its group, in order, and nothing
/// else between its braces.
pub proof fn lemma_block_holds_calls(
    attribute: AutoPluginAttribute,
    app: Seq<char>,
    keys: Seq<TargetKey>,
)
    ensures
        calls_text(attribute, app, keys) == text_of_calls(app, group_calls(attribute, keys)),
        block_text(attribute, app, keys) == "{\n"@ + text_of_calls(
            app,
            group_calls(attribute, keys),
        ) + "}\n"@,
    decreases keys.len(),
{
    if keys.len() > 0 {
        lemma_block_holds_calls(attribute, app, keys.drop_last());
        assert(group_calls(attribute, keys).drop_last() == group_calls(
            attribute,
            keys.drop_last(),
        ));
    }
}

/// The calls of the first `count` of `groups`, in the order of the text:
/// the groups in order, the calls of a group in order.
pub open spec fn calls_of(groups: Seq<Group>, count: int) -> Seq<Call>
    decreases count,
{
    if count <= 0 {
        Seq::empty()
    } else {
        calls_of(groups, count - 1) + group_calls(groups[count - 1].0, groups[count - 1].1)
    }
}

/// The calls of the plugin function for the collected `targets`.
pub open spec fn plugin_calls(targets: Targets) -> Seq<Call> {
    calls_of(emission_order(targets), emission_order(targets).len() as int)
}

/// A snapshot of `targets` holds them in emission order, so the plugin
/// function that is generated from it is the one that `targets` determine.
pub proof fn lemma_snapshot_text(
    init_name: Seq<char>,
    app: Seq<char>,
    snapshot: Seq<CategoryTargets>,
    targets: Targets,
)
    requires
        crate::file_state::is_snapshot_of(snapshot, targets),
    ensures
        groups_of(snapshot) == emission_order(targets),
        function_text(init_name, app, groups_of(snapshot)) == plugin_text(init_name, app, targets),
{
    assert(groups_of(snapshot) =~= emission_order(targets));
}

proof fn lemma_calls_of(groups: Seq<Group>, count: int)
    requires
        0 <= count <= groups.len(),
        forall|k: int| 0 <= k < count ==> (#[trigger] groups[k]).0.rank() == k && strictly_sorted(
            groups[k].1,
        ),
    ensures
        forall|i: int|
            0 <= i < calls_of(groups, count).len() ==> 0 <= (#[trigger] calls_of(
                groups,
                count,
            )[i]).attribute.rank() < count && groups[calls_of(
                groups,
                count,
            )[i].attribute.rank()].1.contains(calls_of(groups, count)[i].key),
        forall|i: int, j: int|
            0 <= i < j < calls_of(groups, count).len() ==> call_before(
                #[trigger] calls_of(groups, count)[i],
                #[trigger] calls_of(groups, count)[j],
            ),
        forall|k: int, i: int|
            0 <= k < count && 0 <= i < groups[k].1.len() ==> calls_of(groups, count).contains(
                Call { attribute: groups[k].0, key: #[trigger] groups[k].1[i] },
            ),
    decreases count,
{
    if count > 0 {
        lemma_calls_of(groups, count - 1);
        let head = calls_of(groups, count - 1);
        let group = groups[count - 1].1;
        let attribute = groups[count - 1].0;
        let tail = group_calls(attribute, group);
        let all = calls_of(groups, count);
        assert(all == head + tail);
        assert forall|i: int| 0 <= i < all.len() implies 0 <= (#[trigger] all[i]).attribute.rank()
            < count && groups[all[i].attribute.rank()].1.contains(all[i].key) by {
            if i < head.len() {
                assert(all[i] == head[i]);
            } else {
                assert(all[i] == tail[i - head.len()]);
                assert(group[i - head.len()] == all[i].key);
            }
        }
        assert forall|i: int, j: int| 0 <= i < j < all.len() implies call_before(
            #[trigger] all[i],
            #[trigger] all[j],
        ) by {
            if j < head.len() {
                assert(all[i] == head[i] && all[j] == head[j]);
            } else if i < head.len() {
                assert(all[i] == head[i]);
                assert(all[j] == tail[j - head.len()]);
            } else {
                assert(all[i] == tail[i - head.len()]);
                assert(all[j] == tail[j - head.len()]);
                assert(key_lt(group[i - head.len()], group[j - head.len()]));
                assert(attribute.rank() == count - 1);
                assert(AutoPluginAttribute::of_rank(attribute.rank()) == attribute);
            }
        }
        assert forall|k: int, i: int| 0 <= k < count && 0 <= i < groups[k].1.len() implies all.contains(
            Call { attribute: groups[k].0, key: #[trigger] groups[k].1[i] },
        ) by {
            let call = Call { attribute: groups[k].0, key: groups[k].1[i] };
            if k < count - 1 {
                assert(head.contains(call));
                let at = choose|at: int| 0 <= at < head.len() && head[at] == call;
                assert(all[at] == call);
            } else {
                assert(tail[i] == call);
                assert(all[head.len() + i] == call);
            }
        }
    }
}

/// The calls of the plugin function are grouped by category in the fixed order
/// of the categories, the calls of one category are sorted, no call occurs
/// twice, and the calls are exactly the collected targets.
pub proof fn lemma_plugin_calls_ordered(targets: Targets)
    requires
        crate::store::targets_wf(targets),
    ensures
        forall|i: int, j: int|
            0 <= i < j < plugin_calls(targets).len() ==> call_before(
                #[trigger] plugin_calls(targets)[i],
                #[trigger] plugin_calls(targets)[j],
            ),
        plugin_calls(targets).no_duplicates(),
        forall|attribute: AutoPluginAttribute, key: TargetKey|
            plugin_calls(targets).contains(Call { attribute, key }) <==> targets[attribute].contains(
                key,
            ),
{
    let groups = emission_order(targets);
    assert forall|k: int| 0 <= k < groups.len() implies (#[trigger] groups[k]).0.rank() == k
        && strictly_sorted(groups[k].1) by {
        crate::target_set::lemma_sorted_targets_exact(targets[AutoPluginAttribute::of_rank(k)]);
    }
    lemma_calls_of(groups, groups.len() as int);
    let calls = plugin_calls(targets);
    assert forall|i: int, j: int| 0 <= i < calls.len() && 0 <= j < calls.len() && i != j implies calls[i]
        != calls[j] by {
        crate::target::lemma_key_lt_irreflexive(calls[i].key);
        if i < j {
            assert(call_before(calls[i], calls[j]));
        } else {
            assert(call_before(calls[j], calls[i]));
        }
    }
    assert forall|attribute: AutoPluginAttribute, key: TargetKey|
        calls.contains(Call { attribute, key }) <==> targets[attribute].contains(key) by {
        let k = attribute.rank();
        assert(AutoPluginAttribute::of_rank(k) == attribute);
        crate::target_set::lemma_sorted_targets_exact(targets[attribute]);
        if calls.contains(Call { attribute, key }) {
            let at = choose|at: int| 0 <= at < calls.len() && calls[at] == (Call { attribute, key });
            assert(groups[calls[at].attribute.rank()].1.contains(calls[at].key));
            assert(groups[k].1.to_set().contains(key));
        }
        if targets[attribute].contains(key) {
            assert(groups[k].1.to_set().contains(key));
            assert(groups[k].1.contains(key));
            let i = choose|i: int| 0 <= i < groups[k].1.len() && groups[k].1[i] == key;
            assert(calls.contains(Call { attribute: groups[k].0, key: groups[k].1[i] }));
        }
    }
}

} // verus!
