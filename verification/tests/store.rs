use bevy_auto_plugin::attribute::AutoPluginAttribute;
use bevy_auto_plugin::diagnostics::{
    files_missing_plugin_ts, join_lines, missing_plugin_message, MissingPluginReport,
    MissingPluginSeverity,
};
use bevy_auto_plugin::file_state::{
    finalize, get_files_missing_plugin, update_file_state, update_state, FileState, FileStateMap,
};
use bevy_auto_plugin::store::UpdateStateError;
use bevy_auto_plugin::target::{AddSystemParams, OrderingConstraint, TargetData, TargetSpec};

fn register(path: &str) -> TargetData {
    TargetData::RegisterTypes(String::from(path))
}

fn paths(targets: &Vec<TargetSpec>) -> Vec<String> {
    targets.iter().map(|target| target.path.clone()).collect()
}

#[test]
fn duplicate_contribution_is_refused() {
    let mut map = FileStateMap::new();
    assert_eq!(update_state(&mut map, String::from("src/lib.rs"), register("Test")), Ok(()));
    assert_eq!(
        update_state(&mut map, String::from("src/lib.rs"), register("Test")),
        Err(UpdateStateError::Duplicate)
    );
    let snapshot = finalize(&mut map, String::from("src/lib.rs")).unwrap();
    assert_eq!(snapshot[0].0, AutoPluginAttribute::RegisterType);
    assert_eq!(paths(&snapshot[0].1), vec![String::from("Test")]);
}

#[test]
fn duplicate_is_found_after_other_contributions() {
    let mut map = FileStateMap::new();
    let file = || String::from("a.rs");
    assert_eq!(update_state(&mut map, file(), register("A")), Ok(()));
    assert_eq!(update_state(&mut map, file(), register("B")), Ok(()));
    assert_eq!(update_state(&mut map, String::from("b.rs"), register("A")), Ok(()));
    assert_eq!(update_state(&mut map, file(), TargetData::AddEvents(String::from("A"))), Ok(()));
    assert_eq!(update_state(&mut map, file(), register("A")), Err(UpdateStateError::Duplicate));
    let snapshot = finalize(&mut map, file()).unwrap();
    assert_eq!(paths(&snapshot[0].1), vec![String::from("A"), String::from("B")]);
    assert_eq!(paths(&snapshot[2].1), vec![String::from("A")]);
}

#[test]
fn duplicates_are_found_whatever_the_spacing() {
    let mut map = FileStateMap::new();
    assert_eq!(update_state(&mut map, String::from("a.rs"), register("Test < bool >")), Ok(()));
    assert_eq!(
        update_state(&mut map, String::from("a.rs"), register("Test<bool>")),
        Err(UpdateStateError::Duplicate)
    );
}

#[test]
fn same_path_is_accepted_once_per_category() {
    let mut map = FileStateMap::new();
    let file = || String::from("a.rs");
    assert_eq!(update_state(&mut map, file(), register("Test")), Ok(()));
    assert_eq!(
        update_state(&mut map, file(), TargetData::InitResources(String::from("Test"))),
        Ok(())
    );
    assert_eq!(
        update_state(&mut map, file(), TargetData::RegisterStateTypes(String::from("Test"))),
        Ok(())
    );
    assert_eq!(update_state(&mut map, file(), TargetData::InitStates(String::from("Test"))), Ok(()));
    assert_eq!(
        update_state(
            &mut map,
            file(),
            TargetData::RequiredComponentAutoName {
                path: String::from("Test"),
                name: String::from("Test"),
            }
        ),
        Ok(())
    );
    assert_eq!(
        update_state(&mut map, file(), TargetData::InitResources(String::from("Test"))),
        Err(UpdateStateError::Duplicate)
    );
}

#[test]
fn generic_instantiations_are_distinct_targets() {
    let mut map = FileStateMap::new();
    let file = || String::from("a.rs");
    assert_eq!(update_state(&mut map, file(), register("Test<u32>")), Ok(()));
    assert_eq!(update_state(&mut map, file(), register("Test<bool>")), Ok(()));
    let snapshot = finalize(&mut map, file()).unwrap();
    assert_eq!(
        paths(&snapshot[0].1),
        vec![String::from("Test<bool>"), String::from("Test<u32>")]
    );
}

#[test]
fn contribution_after_finalize_is_refused() {
    let mut map = FileStateMap::new();
    let file = || String::from("a.rs");
    assert_eq!(update_state(&mut map, file(), register("A")), Ok(()));
    let snapshot = finalize(&mut map, file()).unwrap();
    assert_eq!(
        update_state(&mut map, file(), register("B")),
        Err(UpdateStateError::PluginAlreadyRegistered)
    );
    assert_eq!(
        update_state(&mut map, file(), register("A")),
        Err(UpdateStateError::PluginAlreadyRegistered)
    );
    assert_eq!(paths(&snapshot[0].1), vec![String::from("A")]);
    let state = map.get("a.rs").unwrap();
    assert!(state.plugin_registered);
    assert_eq!(paths(&state.context.register_types.to_vec()), vec![String::from("A")]);
}

#[test]
fn second_finalize_is_refused() {
    let mut map = FileStateMap::new();
    assert!(finalize(&mut map, String::from("a.rs")).is_ok());
    assert_eq!(
        finalize(&mut map, String::from("a.rs")),
        Err(UpdateStateError::PluginAlreadyRegistered)
    );
    assert!(finalize(&mut map, String::from("b.rs")).is_ok());
}

#[test]
fn finalize_of_an_unseen_file_is_empty() {
    let mut map = FileStateMap::new();
    let snapshot = finalize(&mut map, String::from("a.rs")).unwrap();
    assert_eq!(snapshot.len(), 7);
    for (_, targets) in &snapshot {
        assert!(targets.is_empty());
    }
    assert_eq!(map.len(), 1);
    assert!(get_files_missing_plugin(&map).is_empty());
}

#[test]
fn snapshot_lists_the_categories_in_fixed_order() {
    let mut map = FileStateMap::new();
    let snapshot = finalize(&mut map, String::from("a.rs")).unwrap();
    let order: Vec<AutoPluginAttribute> = snapshot.iter().map(|entry| entry.0).collect();
    assert_eq!(
        order,
        vec![
            AutoPluginAttribute::RegisterType,
            AutoPluginAttribute::RegisterStateType,
            AutoPluginAttribute::AddEvent,
            AutoPluginAttribute::InitResource,
            AutoPluginAttribute::InitState,
            AutoPluginAttribute::Name,
            AutoPluginAttribute::AddSystem,
        ]
    );
}

#[test]
fn snapshot_does_not_depend_on_contribution_order() {
    let names = ["delta", "Alpha", "charlie", "Bravo<u8>", "Bravo", "alpha"];
    let mut forward = FileStateMap::new();
    for name in names.iter() {
        assert_eq!(update_state(&mut forward, String::from("a.rs"), register(name)), Ok(()));
    }
    let mut backward = FileStateMap::new();
    for name in names.iter().rev() {
        assert_eq!(update_state(&mut backward, String::from("a.rs"), register(name)), Ok(()));
    }
    let first = finalize(&mut forward, String::from("a.rs")).unwrap();
    let second = finalize(&mut backward, String::from("a.rs")).unwrap();
    assert_eq!(first, second);
    let mut sorted: Vec<String> = names.iter().map(|name| String::from(*name)).collect();
    sorted.sort();
    assert_eq!(paths(&first[0].1), sorted);
}

#[test]
fn missing_files_are_listed_once_in_first_seen_order() {
    let mut map = FileStateMap::new();
    assert_eq!(update_state(&mut map, String::from("b.rs"), register("B")), Ok(()));
    assert_eq!(update_state(&mut map, String::from("a.rs"), register("A")), Ok(()));
    assert_eq!(update_state(&mut map, String::from("b.rs"), register("C")), Ok(()));
    assert_eq!(
        update_state(&mut map, String::from("b.rs"), register("C")),
        Err(UpdateStateError::Duplicate)
    );
    assert_eq!(update_state(&mut map, String::from("c.rs"), register("A")), Ok(()));
    assert!(finalize(&mut map, String::from("a.rs")).is_ok());
    assert_eq!(
        get_files_missing_plugin(&map),
        vec![String::from("b.rs"), String::from("c.rs")]
    );
    assert!(finalize(&mut map, String::from("b.rs")).is_ok());
    assert!(finalize(&mut map, String::from("c.rs")).is_ok());
    assert!(get_files_missing_plugin(&map).is_empty());
}

#[test]
fn missing_plugin_report_follows_the_severity() {
    let mut map = FileStateMap::new();
    assert_eq!(
        files_missing_plugin_ts(&map, MissingPluginSeverity::CompileError),
        MissingPluginReport::Silent
    );
    assert_eq!(update_state(&mut map, String::from("src/a.rs"), register("A")), Ok(()));
    assert_eq!(update_state(&mut map, String::from("src/b.rs"), register("B")), Ok(()));
    let first = String::from("missing #[auto_plugin(...)] attribute in file: src/a.rs");
    let second = String::from("missing #[auto_plugin(...)] attribute in file: src/b.rs");
    assert_eq!(files_missing_plugin_ts(&map, MissingPluginSeverity::Off), MissingPluginReport::Silent);
    assert_eq!(
        files_missing_plugin_ts(&map, MissingPluginSeverity::Warning),
        MissingPluginReport::Log { error: false, messages: vec![first.clone(), second.clone()] }
    );
    assert_eq!(
        files_missing_plugin_ts(&map, MissingPluginSeverity::Error),
        MissingPluginReport::Log { error: true, messages: vec![first.clone(), second.clone()] }
    );
    assert_eq!(
        files_missing_plugin_ts(&map, MissingPluginSeverity::CompileError),
        MissingPluginReport::CompileError { message: format!("{}\n{}", first, second) }
    );
    assert!(finalize(&mut map, String::from("src/a.rs")).is_ok());
    assert_eq!(
        files_missing_plugin_ts(&map, MissingPluginSeverity::CompileError),
        MissingPluginReport::CompileError { message: second }
    );
}

#[test]
fn missing_plugin_message_names_the_file() {
    assert_eq!(
        missing_plugin_message("src/main.rs"),
        "missing #[auto_plugin(...)] attribute in file: src/main.rs"
    );
    assert_eq!(missing_plugin_message(""), "missing #[auto_plugin(...)] attribute in file: ");
}

#[test]
fn join_lines_puts_each_text_on_its_own_line() {
    assert_eq!(join_lines(&vec![]), "");
    assert_eq!(join_lines(&vec![String::from("a")]), "a");
    assert_eq!(join_lines(&vec![String::from("a"), String::new(), String::from("b")]), "a\n\nb");
}

#[test]
fn error_messages_are_the_documented_texts() {
    assert_eq!(UpdateStateError::Duplicate.message(), "duplicate attribute");
    assert_eq!(
        UpdateStateError::PluginAlreadyRegistered.message(),
        "plugin already registered above, move plugin fn to the bottom of the file"
    );
}

#[test]
fn update_file_state_creates_and_updates_the_entry() {
    let mut map = FileStateMap::new();
    let seen = update_file_state(&mut map, String::from("a.rs"), |state: &mut FileState| {
        let before = state.plugin_registered;
        state.plugin_registered = true;
        before
    });
    assert!(!seen);
    let seen = update_file_state(&mut map, String::from("a.rs"), |state: &mut FileState| {
        state.plugin_registered
    });
    assert!(seen);
    assert_eq!(map.len(), 1);
    assert_eq!(
        update_state(&mut map, String::from("a.rs"), register("A")),
        Err(UpdateStateError::PluginAlreadyRegistered)
    );
    assert!(map.get("b.rs").is_none());
}

#[test]
fn systems_with_different_schedules_are_distinct_targets() {
    let mut map = FileStateMap::new();
    let system = |schedule: &str| TargetData::AddSystem {
        system: String::from("move_player"),
        params: AddSystemParams {
            schedule: String::from(schedule),
            ordering: vec![OrderingConstraint::After(String::from("read_input"))],
            run_if: Some(String::from("in_state(Mode::Play)")),
        },
    };
    assert_eq!(update_state(&mut map, String::from("a.rs"), system("Update")), Ok(()));
    assert_eq!(update_state(&mut map, String::from("a.rs"), system("FixedUpdate")), Ok(()));
    assert_eq!(
        update_state(&mut map, String::from("a.rs"), system("Update")),
        Err(UpdateStateError::Duplicate)
    );
    let snapshot = finalize(&mut map, String::from("a.rs")).unwrap();
    let details: Vec<String> = snapshot[6].1.iter().map(|target| target.detail.clone()).collect();
    assert_eq!(
        details,
        vec![
            String::from("FixedUpdate, move_player.after(read_input).run_if(in_state(Mode::Play))"),
            String::from("Update, move_player.after(read_input).run_if(in_state(Mode::Play))"),
        ]
    );
}
