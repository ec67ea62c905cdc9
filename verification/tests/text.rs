use bevy_auto_plugin::attribute::AutoPluginAttribute;
use bevy_auto_plugin::target::TargetSpec;
use bevy_auto_plugin::target_set::TargetSet;
use bevy_auto_plugin::text::{
    canonical_path, chars_of, count_arguments, final_segment_of, push_chars, push_string_literal,
    text_eq, text_less,
};

#[test]
fn canonical_path_drops_spacing_between_tokens() {
    assert_eq!(canonical_path("Test < bool >"), "Test<bool>");
    assert_eq!(canonical_path("  a :: b ::Test<  u32 ,bool >  "), "a::b::Test<u32,bool>");
    assert_eq!(canonical_path("Test"), "Test");
    assert_eq!(canonical_path(""), "");
    assert_eq!(canonical_path(" \t\n"), "");
}

#[test]
fn canonical_path_keeps_one_blank_between_words() {
    assert_eq!(canonical_path("Box<dyn   Trait>"), "Box<dyn Trait>");
    assert_eq!(canonical_path("Wrapper< & 'a\tmut T >"), "Wrapper<&'a mut T>");
    assert_eq!(canonical_path("Grid<\u{e9}t\u{e9} \u{e9}t\u{e9}>"), "Grid<\u{e9}t\u{e9} \u{e9}t\u{e9}>");
}

#[test]
fn canonical_path_is_idempotent_on_examples() {
    for text in ["Test < bool >", "Box<dyn   Trait>", " a :: b", "x  y  z", "< >"] {
        let once = canonical_path(text);
        assert_eq!(canonical_path(&once), once);
    }
}

#[test]
fn text_order_is_the_order_of_str() {
    let samples = ["", "a", "A", "ab", "b", "Test<bool>", "Test<u32>", "Test", "\u{e9}", "z", "~"];
    for left in samples.iter() {
        for right in samples.iter() {
            assert_eq!(text_less(left, right), left < right);
            assert_eq!(text_eq(left, right), left == right);
        }
    }
}

#[test]
fn final_segment_follows_the_last_separator() {
    assert_eq!(final_segment_of("a::b::Test"), "Test");
    assert_eq!(final_segment_of("Test"), "Test");
    assert_eq!(final_segment_of("::Test"), "Test");
    assert_eq!(final_segment_of("a::"), "");
    assert_eq!(final_segment_of("a:b"), "a:b");
    assert_eq!(final_segment_of("a:::b"), "b");
    assert_eq!(final_segment_of(""), "");
}

#[test]
fn string_literal_escapes_quotes_and_controls() {
    let mut out = String::from("x = ");
    push_string_literal(&mut out, "a\"b\\c\nd\re\tf");
    assert_eq!(out, "x = \"a\\\"b\\\\c\\nd\\re\\tf\"");
    let mut plain = String::new();
    push_string_literal(&mut plain, "Test<bool>");
    assert_eq!(plain, "\"Test<bool>\"");
}

#[test]
fn chars_round_trip() {
    let text = "h\u{e9}llo";
    let chars = chars_of(text);
    assert_eq!(chars, vec!['h', '\u{e9}', 'l', 'l', 'o']);
    let mut copy = String::from(">");
    push_chars(&mut copy, &chars, 1, 4);
    assert_eq!(copy, ">\u{e9}ll");
    push_chars(&mut copy, &chars, 5, 5);
    assert_eq!(copy, ">\u{e9}ll");
}

#[test]
fn target_set_keeps_targets_sorted_and_unique() {
    let spec = |path: &str, detail: &str| TargetSpec::new(String::from(path), String::from(detail));
    let mut set = TargetSet::new();
    assert!(set.is_empty());
    assert!(set.insert(spec("b", "")));
    assert!(set.insert(spec("a", "y")));
    assert!(set.insert(spec("a", "x")));
    assert!(!set.insert(spec("a", "y")));
    assert!(set.insert(spec("c", "")));
    assert_eq!(set.len(), 4);
    assert!(set.contains(&spec("a", "x")));
    assert!(!set.contains(&spec("a", "")));
    assert_eq!(set.to_vec(), vec![spec("a", "x"), spec("a", "y"), spec("b", ""), spec("c", "")]);
    assert!(spec("a", "x").less(&spec("a", "y")));
    assert!(!spec("a", "y").less(&spec("a", "y")));
    assert!(spec("a", "y").same(&spec("a", "y").duplicate()));
}

#[test]
fn marker_identifiers_name_their_categories() {
    let all = [
        (AutoPluginAttribute::RegisterType, "auto_register_type"),
        (AutoPluginAttribute::RegisterStateType, "auto_register_state_type"),
        (AutoPluginAttribute::AddEvent, "auto_add_event"),
        (AutoPluginAttribute::InitResource, "auto_init_resource"),
        (AutoPluginAttribute::InitState, "auto_init_state"),
        (AutoPluginAttribute::Name, "auto_name"),
        (AutoPluginAttribute::AddSystem, "auto_add_system"),
    ];
    for (index, (attribute, ident)) in all.iter().enumerate() {
        assert_eq!(attribute.ident_str(), *ident);
        assert_eq!(AutoPluginAttribute::from_ident(ident), Some(*attribute));
        assert_eq!(attribute.index(), index);
        assert_eq!(AutoPluginAttribute::from_index(index), *attribute);
    }
    assert_eq!(AutoPluginAttribute::from_ident("derive"), None);
    assert_eq!(AutoPluginAttribute::from_ident("auto_plugin"), None);
    assert_eq!(AutoPluginAttribute::from_ident(""), None);
}

#[test]
fn arguments_are_counted_outside_brackets() {
    assert_eq!(count_arguments(""), 0);
    assert_eq!(count_arguments("  "), 0);
    assert_eq!(count_arguments("bool"), 1);
    assert_eq!(count_arguments("bool,"), 1);
    assert_eq!(count_arguments("u8, u16"), 2);
    assert_eq!(count_arguments("Vec<(u8, u16)>, [u8; 2], Map<K, V>"), 3);
    assert_eq!(count_arguments("fn(u8, u8) -> u8, bool"), 2);
    assert_eq!(count_arguments("Wrap<fn() -> Pair<A, B>>, C"), 2);
    assert_eq!(count_arguments("{ N > 1 }, u8"), 2);
    assert_eq!(count_arguments(","), 1);
    assert_eq!(count_arguments("a,,b"), 3);
}
