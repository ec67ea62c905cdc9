use bevy_auto_plugin::attribute::AutoPluginAttribute;
use bevy_auto_plugin::file_state::{contribute, update_state, FileStateMap};
use bevy_auto_plugin::generate::{
    block_or_refusal, block_source, check_items, first_refusal, generate_add_events,
    generate_add_systems, generate_auto_names, generate_init_resources, generate_init_states,
    generate_plugin, generate_register_state_types, generate_register_types, path_verdicts,
    plugin_or_refusal, plugin_source, snapshot_verdicts,
};
use bevy_auto_plugin::path_syntax::{verdict_result, PathError};
use bevy_auto_plugin::plugin::{
    auto_plugin_inner, contribute_marker, finalize_plugin, MarkerError, PluginError,
};
use bevy_auto_plugin::resolver::{
    display_name_of, resolve_instantiations, resolve_target, resolve_targets, target_verdicts,
    targets_or_refusal, written_path_of, ResolveError,
};
use bevy_auto_plugin::scanner::{
    check_annotation, scan_scope, Annotation, Declaration, Fault, ItemWithAttributeMatch, ParseError,
};
use bevy_auto_plugin::store::UpdateStateError;
use bevy_auto_plugin::target::{
    AddSystemParams, AddSystemSerializedParams, OrderingConstraint, TargetData, TargetSpec,
};

fn spec(path: &str) -> TargetSpec {
    TargetSpec::new(String::from(path), String::new())
}

fn marker(name: &str, generics: &[&str]) -> Annotation {
    Annotation {
        name: String::from(name),
        generics: generics.iter().map(|text| String::from(*text)).collect(),
        params: None,
    }
}

fn declaration(path: &str, annotations: Vec<Annotation>) -> Declaration {
    Declaration { path: String::from(path), generic_params: 0, annotations }
}

fn generic(path: &str, generic_params: usize, annotations: Vec<Annotation>) -> Declaration {
    Declaration { path: String::from(path), generic_params, annotations }
}

fn schedule(schedule: &str) -> AddSystemParams {
    AddSystemParams { schedule: String::from(schedule), ordering: vec![], run_if: None }
}

const EMPTY_PLUGIN: &str = "pub(super) fn init(app: &mut bevy_app::prelude::App) {\n{\n}\n{\n}\n{\n}\n{\n}\n{\n}\n{\n}\n{\n}\n}\n";

#[test]
fn scope_with_two_markers_gives_two_calls() {
    let items = vec![declaration(
        "Test",
        vec![
            marker("derive", &[]),
            marker("auto_init_resource", &[]),
            marker("auto_register_type", &[]),
        ],
    )];
    let text = auto_plugin_inner(&items, "init").unwrap();
    assert_eq!(
        text,
        "pub(super) fn init(app: &mut bevy_app::prelude::App) {\n\
         {\n    app.register_type::<Test>();\n}\n\
         {\n}\n\
         {\n}\n\
         {\n    app.init_resource::<Test>();\n}\n\
         {\n}\n\
         {\n}\n\
         {\n}\n\
         }\n"
    );
    assert_eq!(text.matches("();").count(), 2);
    assert!(text.find("register_type").unwrap() < text.find("init_resource").unwrap());
    assert_eq!(auto_plugin_inner(&items, "init").unwrap(), text);
}

#[test]
fn scope_without_markers_gives_an_empty_function() {
    let items = vec![
        declaration("Plain", vec![marker("derive", &[])]),
        declaration("Other", vec![]),
    ];
    assert_eq!(auto_plugin_inner(&items, "init").unwrap(), EMPTY_PLUGIN);
    assert_eq!(auto_plugin_inner(&vec![], "init").unwrap(), EMPTY_PLUGIN);
}

#[test]
fn calls_are_grouped_by_category_whatever_the_source_order() {
    let first = vec![
        declaration("Score", vec![marker("auto_init_resource", &[]), marker("auto_name", &[])]),
        declaration("Mode", vec![marker("auto_init_state", &[]), marker("auto_register_state_type", &[])]),
        declaration("Hit", vec![marker("auto_add_event", &[]), marker("auto_register_type", &[])]),
        declaration("Ball", vec![marker("auto_register_type", &[])]),
    ];
    let second = vec![
        declaration("Ball", vec![marker("auto_register_type", &[])]),
        declaration("Hit", vec![marker("auto_register_type", &[]), marker("auto_add_event", &[])]),
        declaration("Mode", vec![marker("auto_register_state_type", &[]), marker("auto_init_state", &[])]),
        declaration("Score", vec![marker("auto_name", &[]), marker("auto_init_resource", &[])]),
    ];
    let text = auto_plugin_inner(&first, "build").unwrap();
    assert_eq!(auto_plugin_inner(&second, "build").unwrap(), text);
    assert_eq!(
        text,
        "pub(super) fn build(app: &mut bevy_app::prelude::App) {\n\
         {\n    app.register_type::<Ball>();\n    app.register_type::<Hit>();\n}\n\
         {\n    app.register_type::<State<Mode>>();\n    app.register_type::<NextState<Mode>>();\n}\n\
         {\n    app.add_event::<Hit>();\n}\n\
         {\n    app.init_resource::<Score>();\n}\n\
         {\n    app.init_state::<Mode>();\n}\n\
         {\n    app.register_required_components_with::<Score, Name>(|| Name::new(\"Score\"));\n}\n\
         {\n}\n\
         }\n"
    );
}

#[test]
fn generic_instantiations_give_one_call_each() {
    let items = vec![declaration(
        "Test",
        vec![marker("auto_register_type", &["u32"]), marker("auto_register_type", &["bool", " Vec < u8 > "])],
    )];
    let text = auto_plugin_inner(&items, "init").unwrap();
    assert!(text.contains(
        "{\n    app.register_type::<Test<Vec<u8>>>();\n    app.register_type::<Test<bool>>();\n    app.register_type::<Test<u32>>();\n}\n"
    ));
}

#[test]
fn repeated_instantiation_is_a_duplicate() {
    let items = vec![
        declaration("Test", vec![marker("auto_register_type", &["bool", "u32"])]),
        declaration("Test", vec![marker("auto_add_event", &["bool"]), marker("auto_register_type", &["u8", "u32"])]),
    ];
    assert_eq!(
        auto_plugin_inner(&items, "init"),
        Err(PluginError::Duplicate { declaration: 1, annotation: 1, instantiation: 1 })
    );
    let within = vec![declaration("Test", vec![marker("auto_register_type", &["bool", "bool"])])];
    assert_eq!(
        auto_plugin_inner(&within, "init"),
        Err(PluginError::Duplicate { declaration: 0, annotation: 0, instantiation: 1 })
    );
}

#[test]
fn malformed_arguments_are_reported_at_their_marker() {
    let items = vec![
        declaration("A", vec![marker("auto_register_type", &["u8"])]),
        declaration("B", vec![marker("derive", &[]), marker("auto_add_event", &["u8", "  "])]),
        declaration("C", vec![marker("auto_add_system", &[])]),
    ];
    let expected = ParseError {
        declaration: 1,
        annotation: 1,
        fault: Fault::EmptyGenerics { instantiation: 1 },
    };
    assert_eq!(scan_scope(&items), Err(expected));
    assert_eq!(auto_plugin_inner(&items, "init"), Err(PluginError::Parse(expected)));
}

#[test]
fn malformed_type_arguments_are_refused_by_the_parser() {
    let items = vec![declaration("Test", vec![marker("auto_register_type", &["bool", "u32 u32"])])];
    match auto_plugin_inner(&items, "init") {
        Err(PluginError::Path { declaration, annotation, instantiation, error }) => {
            assert_eq!((declaration, annotation, instantiation), (0, 0, 1));
            assert_eq!(error.input, "Test<u32 u32>");
            assert!(!error.message.is_empty());
        }
        other => panic!("unexpected result: {:?}", other),
    }
}

#[test]
fn scan_finds_markers_in_source_order() {
    let items = vec![
        declaration("A", vec![marker("auto_name", &[]), marker("allow", &[]), marker("auto_register_type", &[])]),
        declaration("B", vec![]),
        declaration("C", vec![marker("auto_init_state", &[])]),
    ];
    assert_eq!(
        scan_scope(&items),
        Ok(vec![
            ItemWithAttributeMatch { declaration: 0, annotation: 0, attribute: AutoPluginAttribute::Name },
            ItemWithAttributeMatch {
                declaration: 0,
                annotation: 2,
                attribute: AutoPluginAttribute::RegisterType
            },
            ItemWithAttributeMatch {
                declaration: 2,
                annotation: 0,
                attribute: AutoPluginAttribute::InitState
            },
        ])
    );
    assert_eq!(scan_scope(&vec![]), Ok(vec![]));
}

#[test]
fn annotation_faults_are_judged_in_order() {
    let mut system = marker("auto_add_system", &[""]);
    assert_eq!(
        check_annotation(AutoPluginAttribute::AddSystem, &system, 0),
        Err(Fault::MissingSchedule)
    );
    system.params = Some(schedule("Update"));
    assert_eq!(
        check_annotation(AutoPluginAttribute::AddSystem, &system, 0),
        Err(Fault::EmptyGenerics { instantiation: 0 })
    );
    assert_eq!(
        check_annotation(AutoPluginAttribute::RegisterType, &system, 0),
        Err(Fault::UnexpectedSchedule)
    );
    system.generics = vec![String::from("u8")];
    assert_eq!(check_annotation(AutoPluginAttribute::AddSystem, &system, 0), Ok(()));
    assert_eq!(check_annotation(AutoPluginAttribute::AddSystem, &system, 1), Ok(()));
    assert_eq!(
        check_annotation(AutoPluginAttribute::AddSystem, &system, 2),
        Err(Fault::GenericCount { instantiation: 0 })
    );
    system.params = Some(schedule(" \t"));
    assert_eq!(
        check_annotation(AutoPluginAttribute::AddSystem, &system, 0),
        Err(Fault::MissingSchedule)
    );
    assert_eq!(
        Fault::GenericCount { instantiation: 0 }.message(),
        "wrong number of generic arguments"
    );
    assert_eq!(Fault::MissingSchedule.message(), "missing schedule");
    assert_eq!(Fault::UnexpectedSchedule.message(), "unexpected scheduling parameters");
    assert_eq!(
        Fault::EmptyGenerics { instantiation: 3 }.message(),
        "generic instantiation without type arguments"
    );
    assert_eq!(check_annotation(AutoPluginAttribute::Name, &marker("auto_name", &[]), 0), Ok(()));
    assert_eq!(check_annotation(AutoPluginAttribute::Name, &marker("auto_name", &[]), 2), Ok(()));
}

#[test]
fn resolve_gives_one_target_per_instantiation() {
    let test = declaration("game :: Test", vec![]);
    assert_eq!(
        resolve_targets(AutoPluginAttribute::RegisterType, &test, &marker("auto_register_type", &[])),
        Ok(vec![TargetData::RegisterTypes(String::from("game :: Test"))])
    );
    assert_eq!(
        resolve_targets(
            AutoPluginAttribute::Name,
            &test,
            &marker("auto_name", &["bool", "u32, Vec < u8 >"])
        ),
        Ok(vec![
            TargetData::RequiredComponentAutoName {
                path: String::from("game :: Test<bool>"),
                name: String::from("Test<bool>"),
            },
            TargetData::RequiredComponentAutoName {
                path: String::from("game :: Test<u32, Vec < u8 >>"),
                name: String::from("Test<u32,Vec<u8>>"),
            },
        ])
    );
    assert_eq!(
        resolve_targets(AutoPluginAttribute::AddSystem, &test, &marker("auto_add_system", &[])),
        Err(ResolveError::Fault(Fault::MissingSchedule))
    );
    match resolve_targets(AutoPluginAttribute::AddEvent, &test, &marker("auto_add_event", &["u8", "<"])) {
        Err(ResolveError::Path { instantiation, error }) => {
            assert_eq!(instantiation, 1);
            assert_eq!(error.input, "game::Test<<>");
        }
        other => panic!("unexpected result: {:?}", other),
    }
}

#[test]
fn resolve_target_builds_the_contribution_of_its_category() {
    assert_eq!(
        resolve_target(AutoPluginAttribute::InitState, "Mode", None, None),
        Some(TargetData::InitStates(String::from("Mode")))
    );
    assert_eq!(resolve_target(AutoPluginAttribute::AddSystem, "tick", None, None), None);
    assert_eq!(
        resolve_target(AutoPluginAttribute::AddSystem, "tick", Some("T"), Some(&schedule("Update"))),
        Some(TargetData::AddSystem { system: String::from("tick<T>"), params: schedule("Update") })
    );
    assert_eq!(written_path_of("Test", Some("bool")), "Test<bool>");
    assert_eq!(written_path_of("Test", None), "Test");
}

#[test]
fn display_name_is_final_segment_and_arguments() {
    assert_eq!(display_name_of("Test", Some("bool")), "Test<bool>");
    assert_eq!(display_name_of("Test", None), "Test");
    assert_eq!(display_name_of("game :: units :: Test", Some(" u32 , bool ")), "Test<u32,bool>");
    assert_eq!(display_name_of("Test", Some("bool")), display_name_of("Test", Some("bool")));
}

#[test]
fn system_parameters_are_serialised_into_the_call_arguments() {
    let params = AddSystemParams {
        schedule: String::from(" Update "),
        ordering: vec![
            OrderingConstraint::Before(String::from("draw")),
            OrderingConstraint::After(String::from("input")),
        ],
        run_if: Some(String::from("running")),
    };
    let serialized = AddSystemSerializedParams::from_macro_attr("systems :: tick", &params);
    assert_eq!(serialized.system, "systems::tick");
    assert_eq!(serialized.arguments, "Update, systems::tick.before(draw).after(input).run_if(running)");
    let bare = AddSystemSerializedParams::from_macro_attr("tick", &schedule("Startup"));
    assert_eq!(bare.arguments, "Startup, tick");
}

#[test]
fn systems_are_scheduled_last() {
    let mut system = marker("auto_add_system", &[]);
    system.params = Some(AddSystemParams {
        schedule: String::from("Update"),
        ordering: vec![OrderingConstraint::After(String::from("input"))],
        run_if: None,
    });
    let items = vec![
        declaration("tick", vec![system]),
        declaration("Clock", vec![marker("auto_init_resource", &[])]),
    ];
    let text = auto_plugin_inner(&items, "init").unwrap();
    assert!(text.ends_with("{\n    app.add_systems(Update, tick.after(input));\n}\n}\n"));
    assert!(text.find("init_resource::<Clock>").unwrap() < text.find("add_systems").unwrap());
}

#[test]
fn each_generator_emits_the_call_of_its_category() {
    let items = vec![spec("A"), spec("B<u8>")];
    assert_eq!(
        generate_register_types("app", &items).unwrap(),
        "{\n    app.register_type::<A>();\n    app.register_type::<B<u8>>();\n}\n"
    );
    assert_eq!(
        generate_add_events("app", &items).unwrap(),
        "{\n    app.add_event::<A>();\n    app.add_event::<B<u8>>();\n}\n"
    );
    assert_eq!(
        generate_init_resources("world", &items).unwrap(),
        "{\n    world.init_resource::<A>();\n    world.init_resource::<B<u8>>();\n}\n"
    );
    assert_eq!(
        generate_init_states("app", &items).unwrap(),
        "{\n    app.init_state::<A>();\n    app.init_state::<B<u8>>();\n}\n"
    );
    assert_eq!(
        generate_register_state_types("app", &vec![spec("A")]).unwrap(),
        "{\n    app.register_type::<State<A>>();\n    app.register_type::<NextState<A>>();\n}\n"
    );
    assert_eq!(
        generate_auto_names("app", &vec![TargetSpec::new(String::from("A"), String::from("say \"A\""))])
            .unwrap(),
        "{\n    app.register_required_components_with::<A, Name>(|| Name::new(\"say \\\"A\\\"\"));\n}\n"
    );
    assert_eq!(
        generate_add_systems("app", &vec![TargetSpec::new(String::from("tick"), String::from("Update, tick"))])
            .unwrap(),
        "{\n    app.add_systems(Update, tick);\n}\n"
    );
    assert_eq!(generate_register_types("app", &vec![]).unwrap(), "{\n}\n");
}

#[test]
fn generators_refuse_what_is_no_path() {
    let items = vec![spec("A"), spec("not a path"), spec("")];
    let error = generate_register_types("app", &items).unwrap_err();
    assert_eq!(error.input, "not a path");
    assert!(!error.message.is_empty());
    assert_eq!(generate_add_events("app", &vec![spec("")]).unwrap_err().input, "");
    assert_eq!(check_items(&items).unwrap_err().input, "not a path");
    assert_eq!(check_items(&vec![spec("a::B<C>")]), Ok(()));
    assert_eq!(
        block_source(AutoPluginAttribute::AddEvent, "app", &vec![spec("not a path")]),
        "{\n    app.add_event::<not a path>();\n}\n"
    );
}

#[test]
fn parser_accepts_paths_and_refuses_other_text() {
    assert_eq!(check_items(&vec![spec("Test"), spec("a::b::Test<bool, Vec<u8>>")]), Ok(()));
    assert_eq!(check_items(&vec![spec("Test<")]).unwrap_err().input, "Test<");
    assert_eq!(check_items(&vec![spec("1 + 1")]).unwrap_err().input, "1 + 1");
    assert_eq!(check_items(&vec![spec("")]).unwrap_err().input, "");
    assert_eq!(verdict_result("Test", None), Ok(()));
    let error = verdict_result("Test<", Some(String::from("expected type"))).unwrap_err();
    assert_eq!(error.input, "Test<");
    assert_eq!(error.message, "expected type");
}

#[test]
fn finalize_plugin_emits_the_collected_targets_once() {
    let mut map = FileStateMap::new();
    let file = || String::from("src/game.rs");
    assert_eq!(update_state(&mut map, file(), TargetData::InitResources(String::from("Score"))), Ok(()));
    assert_eq!(update_state(&mut map, file(), TargetData::RegisterTypes(String::from("Score"))), Ok(()));
    let text = finalize_plugin(&mut map, file(), "plugin", "app").unwrap();
    assert_eq!(
        text,
        "pub(super) fn plugin(app: &mut bevy_app::prelude::App) {\n\
         {\n    app.register_type::<Score>();\n}\n\
         {\n}\n\
         {\n}\n\
         {\n    app.init_resource::<Score>();\n}\n\
         {\n}\n\
         {\n}\n\
         {\n}\n\
         }\n"
    );
    assert_eq!(
        finalize_plugin(&mut map, file(), "plugin", "app"),
        Err(PluginError::Update(UpdateStateError::PluginAlreadyRegistered))
    );
}

#[test]
fn finalize_plugin_reports_a_target_that_is_no_path() {
    let mut map = FileStateMap::new();
    assert_eq!(
        update_state(&mut map, String::from("a.rs"), TargetData::AddEvents(String::from("no path"))),
        Ok(())
    );
    match finalize_plugin(&mut map, String::from("a.rs"), "plugin", "app") {
        Err(PluginError::Generate(error)) => assert_eq!(error.input, "no path"),
        other => panic!("unexpected result: {:?}", other),
    }
    assert!(map.get("a.rs").unwrap().plugin_registered);
}

#[test]
fn plugin_source_needs_no_parser() {
    let mut map = FileStateMap::new();
    assert_eq!(
        update_state(&mut map, String::from("a.rs"), TargetData::InitStates(String::from("Mode"))),
        Ok(())
    );
    let snapshot = bevy_auto_plugin::file_state::finalize(&mut map, String::from("a.rs")).unwrap();
    let text = plugin_source("init", "app", &snapshot);
    assert!(text.contains("{\n    app.init_state::<Mode>();\n}\n"));
    assert_eq!(generate_plugin("init", "app", &snapshot).unwrap(), text);
}

#[test]
fn generic_arguments_are_counted_against_the_parameters() {
    let pair = |generics: &[&str]| {
        vec![generic("Pair", 2, vec![marker("auto_register_type", generics)])]
    };
    let text = auto_plugin_inner(&pair(&["u8, Vec<(u8, u16)>", "bool, fn(u8, u8) -> u8,"]), "init").unwrap();
    assert!(text.contains("app.register_type::<Pair<u8,Vec<(u8,u16)>>>();\n"));
    assert!(text.contains("app.register_type::<Pair<bool,fn(u8,u8)->u8,>>();\n"));
    let expected = |instantiation: usize| {
        Err(PluginError::Parse(ParseError {
            declaration: 0,
            annotation: 0,
            fault: Fault::GenericCount { instantiation },
        }))
    };
    assert_eq!(auto_plugin_inner(&pair(&["u8"]), "init"), expected(0));
    assert_eq!(auto_plugin_inner(&pair(&["u8, u16", "u8, u16, u32"]), "init"), expected(1));
    assert_eq!(auto_plugin_inner(&pair(&["(u8, u16)"]), "init"), expected(0));
}

#[test]
fn markers_contribute_through_the_state_of_their_file() {
    let mut map = FileStateMap::new();
    let test = generic("Test", 1, vec![]);
    let types = AutoPluginAttribute::RegisterType;
    assert_eq!(
        contribute_marker(&mut map, "a.rs", types, &test, &marker("auto_register_type", &["u8", "bool"])),
        Ok(())
    );
    assert_eq!(
        contribute_marker(&mut map, "a.rs", types, &test, &marker("auto_register_type", &["u16", "u8", "u32"])),
        Err(MarkerError::Update { instantiation: 1, error: UpdateStateError::Duplicate })
    );
    assert_eq!(
        contribute_marker(&mut map, "a.rs", types, &test, &marker("auto_register_type", &["u64", "u8, u8"])),
        Err(MarkerError::Resolve(ResolveError::Fault(Fault::GenericCount { instantiation: 1 })))
    );
    assert_eq!(
        contribute_marker(&mut map, "b.rs", types, &test, &marker("auto_register_type", &["i8", ">"])).is_err(),
        true
    );
    assert!(map.get("b.rs").is_none());
    assert_eq!(
        contribute_marker(&mut map, "a.rs", AutoPluginAttribute::Name, &test, &marker("auto_name", &["u8"])),
        Ok(())
    );
    let text = finalize_plugin(&mut map, String::from("a.rs"), "plugin", "app").unwrap();
    assert!(text.contains(
        "{\n    app.register_type::<Test<bool>>();\n    app.register_type::<Test<u16>>();\n    app.register_type::<Test<u8>>();\n}\n"
    ));
    assert!(text.contains("Name::new(\"Test<u8>\")"));
    assert_eq!(
        contribute_marker(&mut map, "a.rs", types, &test, &marker("auto_register_type", &["i32"])),
        Err(MarkerError::Update {
            instantiation: 0,
            error: UpdateStateError::PluginAlreadyRegistered
        })
    );
}

#[test]
fn contribute_takes_the_target_as_it_is() {
    let mut map = FileStateMap::new();
    let event = AutoPluginAttribute::AddEvent;
    assert_eq!(contribute(&mut map, String::from("a.rs"), event, spec("Hit")), Ok(()));
    assert_eq!(contribute(&mut map, String::from("a.rs"), event, spec("Hit ")), Ok(()));
    assert_eq!(
        contribute(&mut map, String::from("a.rs"), event, spec("Hit")),
        Err(UpdateStateError::Duplicate)
    );
    assert_eq!(map.get("a.rs").unwrap().context.add_events.len(), 2);
}

fn refused(input: &str, message: &str) -> PathError {
    PathError { input: String::from(input), message: String::from(message) }
}

#[test]
fn first_refusal_wins() {
    let items = vec![spec("A"), spec("B"), spec("C")];
    let no = |message: &str| Some(String::from(message));
    assert_eq!(first_refusal(&items, &vec![None, None, None]), Ok(()));
    assert_eq!(first_refusal(&items, &vec![None, no("m"), no("n")]), Err(refused("B", "m")));
    assert_eq!(first_refusal(&items, &vec![no(""), None, None]), Err(refused("A", "")));
    assert_eq!(first_refusal(&items, &vec![None, None, no("n")]), Err(refused("C", "n")));
    assert_eq!(first_refusal(&items, &vec![None]), Ok(()));
    assert_eq!(first_refusal(&items, &vec![]), Ok(()));
    assert_eq!(first_refusal(&items, &vec![None, None, None, no("late")]), Ok(()));
    assert_eq!(first_refusal(&vec![], &vec![no("late")]), Ok(()));
}

#[test]
fn block_follows_the_verdicts() {
    let items = vec![spec("A"), spec("B")];
    let event = AutoPluginAttribute::AddEvent;
    assert_eq!(
        block_or_refusal(event, "app", &items, &vec![None, None]),
        Ok(String::from("{\n    app.add_event::<A>();\n    app.add_event::<B>();\n}\n"))
    );
    assert_eq!(
        block_or_refusal(event, "app", &items, &vec![None, Some(String::from("no"))]),
        Err(refused("B", "no"))
    );
}

#[test]
fn plugin_follows_the_verdicts() {
    let mut map = FileStateMap::new();
    let file = || String::from("a.rs");
    assert_eq!(update_state(&mut map, file(), TargetData::AddEvents(String::from("Hit"))), Ok(()));
    assert_eq!(update_state(&mut map, file(), TargetData::RegisterTypes(String::from("B"))), Ok(()));
    assert_eq!(update_state(&mut map, file(), TargetData::RegisterTypes(String::from("A"))), Ok(()));
    let snapshot = bevy_auto_plugin::file_state::finalize(&mut map, file()).unwrap();
    let accepted = vec![vec![None, None], vec![], vec![None], vec![], vec![], vec![], vec![]];
    assert_eq!(
        plugin_or_refusal("init", "app", &snapshot, &accepted),
        Ok(plugin_source("init", "app", &snapshot))
    );
    let no = |message: &str| Some(String::from(message));
    let verdicts =
        vec![vec![None, no("types")], vec![], vec![no("events")], vec![], vec![], vec![], vec![]];
    assert_eq!(plugin_or_refusal("init", "app", &snapshot, &verdicts), Err(refused("B", "types")));
    let later = vec![vec![None, None], vec![], vec![no("events")]];
    assert_eq!(plugin_or_refusal("init", "app", &snapshot, &later), Err(refused("Hit", "events")));
    assert_eq!(snapshot_verdicts(&snapshot), accepted);
}

#[test]
fn parser_gives_one_verdict_per_item() {
    let verdicts = path_verdicts(&vec![spec("a::B"), spec("not a path"), spec("C<D>")]);
    assert_eq!(verdicts.len(), 3);
    assert_eq!(verdicts[0], None);
    assert!(verdicts[1].is_some());
    assert_eq!(verdicts[2], None);
    assert!(path_verdicts(&vec![]).is_empty());
}

#[test]
fn a_fault_is_reported_before_the_parser_is_asked() {
    let items = vec![
        declaration("Broken", vec![marker("auto_register_type", &["<"])]),
        declaration("Later", vec![marker("auto_add_event", &[" "])]),
    ];
    assert_eq!(
        auto_plugin_inner(&items, "init"),
        Err(PluginError::Parse(ParseError {
            declaration: 1,
            annotation: 0,
            fault: Fault::EmptyGenerics { instantiation: 0 },
        }))
    );
}

#[test]
fn resolution_follows_the_verdicts() {
    let test = generic("game :: Test", 1, vec![]);
    let types = AutoPluginAttribute::RegisterType;
    let targets = resolve_instantiations(types, &test, &marker("auto_register_type", &["u8", " < "]))
        .unwrap();
    assert_eq!(
        targets,
        vec![
            TargetData::RegisterTypes(String::from("game :: Test<u8>")),
            TargetData::RegisterTypes(String::from("game :: Test< < >")),
        ]
    );
    let verdicts = target_verdicts(&targets);
    assert_eq!(verdicts.len(), 2);
    assert_eq!(verdicts[0], None);
    assert!(verdicts[1].is_some());
    assert_eq!(targets_or_refusal(targets.clone(), &vec![None, None]), Ok(targets.clone()));
    let no = |message: &str| Some(String::from(message));
    assert_eq!(
        targets_or_refusal(targets.clone(), &vec![no("first"), no("second")]),
        Err(ResolveError::Path { instantiation: 0, error: refused("game::Test<u8>", "first") })
    );
    assert_eq!(
        targets_or_refusal(targets.clone(), &vec![None, no("second")]),
        Err(ResolveError::Path { instantiation: 1, error: refused("game::Test<<>", "second") })
    );
    assert_eq!(targets_or_refusal(targets.clone(), &vec![None, None, no("late")]), Ok(targets));
    assert_eq!(
        resolve_instantiations(types, &test, &marker("auto_register_type", &["u8, u8"])),
        Err(Fault::GenericCount { instantiation: 0 })
    );
}
