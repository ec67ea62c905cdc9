use bevy_auto_plugin::plugin::auto_plugin_inner;
use bevy_auto_plugin::scanner::{Annotation, Declaration};

fn tagged(path: &str, attribute: &str, generics: &[&str]) -> Vec<Declaration> {
    vec![Declaration {
        path: String::from(path),
        generic_params: generics.iter().take(1).count(),
        annotations: vec![
            Annotation { name: String::from("derive"), generics: vec![], params: None },
            Annotation {
                name: String::from(attribute),
                generics: generics.iter().map(|text| String::from(*text)).collect(),
                params: None,
            },
        ],
    }]
}

#[test]
fn test_auto_name() {
    let text = auto_plugin_inner(&tagged("Test", "auto_name", &[]), "init").unwrap();
    let call = "app.register_required_components_with::<Test, Name>(|| Name::new(";
    let start = text.find(call).unwrap() + call.len();
    let end = start + text[start..].find("));").unwrap();
    assert_eq!(&text[start..end], format!("{:?}", "Test"));
}

#[test]
fn test_auto_register_type_generic() {
    let text = auto_plugin_inner(&tagged("Test", "auto_register_type", &["bool"]), "init").unwrap();
    assert!(
        text.contains("    app.register_type::<Test<bool>>();\n"),
        "did not auto register type"
    );
}

#[test]
fn test_auto_name_generic() {
    let text = auto_plugin_inner(&tagged("Test", "auto_name", &["bool"]), "init").unwrap();
    assert!(text.contains(
        "app.register_required_components_with::<Test<bool>, Name>(|| Name::new(\"Test<bool>\"));"
    ));
}
