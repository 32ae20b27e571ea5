use alvr_telemetry::higher_order_choice::{
    Control, HigherOrderChoiceOption, HigherOrderChoiceSchema, PathSegment, PathValuePair,
    PresetModifier, PresetModifierOperation, SchemaNode,
};
use alvr_telemetry::named_map::NamedMap;
use serde_json::Value;
use settings_schema::ChoiceControlType;
use std::collections::HashSet;

fn json(text: &str) -> Value {
    serde_json::from_str(text).unwrap()
}

fn path(text: &str) -> Vec<PathSegment> {
    text.split('.')
        .map(|part| match part.parse::<usize>() {
            Ok(index) => PathSegment::Index(index),
            Err(_) => PathSegment::Name(part.into()),
        })
        .collect()
}

fn option(name: &str, modifiers: &[(&str, &str)]) -> HigherOrderChoiceOption {
    HigherOrderChoiceOption {
        display_name: name.into(),
        modifiers: modifiers
            .iter()
            .map(|(target, value)| PresetModifier {
                target_path: path(target),
                operation: PresetModifierOperation::Assign(json(value)),
            })
            .collect(),
    }
}

fn schema(default: &str, options: Vec<HigherOrderChoiceOption>) -> HigherOrderChoiceSchema {
    let mut strings = NamedMap::new();
    strings.insert("help".to_string(), "Choose one".to_string());
    strings.insert("display_name".to_string(), "to be replaced".to_string());
    let mut flags = HashSet::new();
    flags.insert("steamvr-restart".to_string());
    HigherOrderChoiceSchema {
        name: "quality".into(),
        strings,
        flags,
        options,
        default_option_display_name: default.into(),
        gui: ChoiceControlType::ButtonGroup,
    }
}

fn quality() -> Control {
    Control::new(schema(
        "Custom",
        vec![
            option("Custom", &[]),
            option(
                "Low",
                &[
                    ("session_settings.video.bitrate", "30"),
                    ("session_settings.video.eyes.1.scale", "0.5"),
                ],
            ),
            option("High", &[("session_settings.video.bitrate", "100")]),
        ],
    ))
}

fn select(control: &mut Control, session: &str) -> String {
    control.update_session_settings(&json(session), |a: &Value, b: &Value| a == b);
    control.preset_json["quality"]["variant"].as_str().unwrap().into()
}

fn request(value: &str) -> Option<PathValuePair> {
    Some(PathValuePair { path: vec![], value: json(value) })
}

#[test]
fn a_new_control_has_no_selection() {
    let control = quality();
    assert_eq!(control.name, "quality");
    assert_eq!(control.preset_json, json(r#"{"quality":{"variant":""}}"#));
    assert!(control.control.nesting_info.path.is_empty());
    assert_eq!(control.control.nesting_info.indentation_level, 0);
}

#[test]
fn the_inner_control_is_a_choice_between_the_options() {
    let control = quality();
    let SchemaNode::Section { entries, gui_collapsible } = &control.control.schema else {
        panic!("a section");
    };
    assert!(!gui_collapsible);
    assert_eq!(entries.len(), 1);
    assert_eq!(entries[0].name, "quality");
    assert_eq!(entries[0].strings.get("help").unwrap(), "Choose one");
    assert_eq!(entries[0].strings.get("display_name").unwrap(), "quality");
    assert_eq!(entries[0].strings.entries.len(), 2);
    assert!(entries[0].flags.contains("steamvr-restart"));
    let SchemaNode::Choice { default, variants, gui } = &entries[0].content else {
        panic!("a choice");
    };
    assert_eq!(default, "Custom");
    assert!(matches!(gui, Some(ChoiceControlType::ButtonGroup)));
    let names: Vec<&str> = variants.iter().map(|variant| variant.name.as_str()).collect();
    assert_eq!(names, ["Custom", "Low", "High"]);
    for variant in variants {
        assert_eq!(variant.strings.entries.len(), 1);
        assert_eq!(variant.strings.get("display_name").unwrap(), &variant.name);
        assert!(variant.flags.is_empty());
        assert!(variant.content.is_none());
    }
}

#[test]
fn an_exact_match_is_selected() {
    let mut control = quality();
    assert_eq!(select(&mut control, r#"{"video":{"bitrate":100}}"#), "High");
    assert_eq!(
        select(&mut control, r#"{"video":{"bitrate":30,"eyes":[{},{"scale":0.5}]}}"#),
        "Low"
    );
    assert_eq!(control.preset_json, json(r#"{"quality":{"variant":"Low"}}"#));
}

#[test]
fn a_partial_match_falls_back_to_the_option_without_modifiers() {
    let mut control = quality();
    assert_eq!(select(&mut control, r#"{"video":{"bitrate":30}}"#), "Custom");
    assert_eq!(select(&mut control, r#"{"video":{"bitrate":30,"eyes":[{}]}}"#), "Custom");
    assert_eq!(select(&mut control, r#"{"video":{"bitrate":30,"eyes":{"1":{}}}}"#), "Custom");
    assert_eq!(select(&mut control, r#"{"video":[100]}"#), "Custom");
    assert_eq!(select(&mut control, "null"), "Custom");
}

#[test]
fn without_a_fallback_nothing_is_selected() {
    let mut control = Control::new(schema("A", vec![option("A", &[("s.x", "1")])]));
    assert_eq!(select(&mut control, r#"{"x":1}"#), "A");
    assert_eq!(select(&mut control, r#"{"x":2}"#), "");
}

#[test]
fn the_comparison_decides() {
    let mut control = quality();
    let session = json(r#"{"video":{"bitrate":100.0}}"#);
    control.update_session_settings(&session, |a: &Value, b: &Value| a == b);
    assert_eq!(control.preset_json["quality"]["variant"], "Custom");
    control.update_session_settings(&session, |a: &Value, b: &Value| a.as_f64() == b.as_f64());
    assert_eq!(control.preset_json["quality"]["variant"], "High");
}

#[test]
fn a_match_without_a_name_counts_as_none() {
    let mut control = Control::new(schema(
        "",
        vec![option("", &[("s.x", "1")]), option("Plain", &[])],
    ));
    assert_eq!(select(&mut control, r#"{"x":1}"#), "Plain");
}

#[test]
fn the_first_of_several_matches_is_selected() {
    let mut control = Control::new(schema(
        "B",
        vec![option("B", &[("s.x", "1")]), option("A", &[("s.x", "1")])],
    ));
    assert_eq!(select(&mut control, r#"{"x":1}"#), "B");
}

#[test]
fn a_path_of_one_segment_is_the_whole_session() {
    let mut control = Control::new(schema("A", vec![option("A", &[("s", "7")])]));
    assert_eq!(select(&mut control, "7"), "A");
}

#[test]
fn a_selection_leaves_other_members_alone() {
    let mut control = quality();
    control.preset_json = json(r#"{"quality":{"variant":"Low","x":1},"y":2}"#);
    assert_eq!(select(&mut control, "{}"), "Custom");
    assert_eq!(control.preset_json, json(r#"{"quality":{"variant":"Custom","x":1},"y":2}"#));
    assert_eq!(select(&mut control, r#"{"video":{"bitrate":100}}"#), "High");
    assert_eq!(control.preset_json, json(r#"{"quality":{"variant":"High","x":1},"y":2}"#));
    control.preset_json = Value::Null;
    assert_eq!(select(&mut control, "{}"), "Custom");
    assert_eq!(control.preset_json, json(r#"{"quality":{"variant":"Custom"}}"#));
}

#[test]
fn matches_all_of_no_pairs() {
    assert!(Control::matches_all(&json("1"), &vec![], &|_: &Value, _: &Value| false));
}

#[test]
fn a_request_gives_the_assignments_of_its_option() {
    let control = quality();
    let changes = control.ui(request(r#""Low""#));
    assert_eq!(changes.len(), 2);
    assert_eq!(changes[0].value, 30);
    assert_eq!(changes[1].value, 0.5);
    assert_eq!(changes[1].path.len(), 5);
    assert!(matches!(&changes[1].path[0], PathSegment::Name(name) if name == "session_settings"));
    assert!(matches!(&changes[1].path[3], PathSegment::Index(1)));
    assert!(control.ui(request(r#""Custom""#)).is_empty());
    assert!(control.ui(None).is_empty());
}

#[test]
fn a_later_option_replaces_one_of_the_same_name() {
    let control = Control::new(schema(
        "A",
        vec![option("A", &[("s.x", "1")]), option("B", &[]), option("A", &[("s.x", "2")])],
    ));
    assert_eq!(control.modifiers.entries.len(), 2);
    let changes = control.ui(request(r#""A""#));
    assert_eq!(changes.len(), 1);
    assert_eq!(changes[0].value, 2);
}

#[test]
fn named_maps_keep_the_last_value_in_the_first_place() {
    let mut map = NamedMap::new();
    map.insert("a".to_string(), 1);
    map.insert("b".to_string(), 2);
    map.insert("a".to_string(), 3);
    assert_eq!(map.entries, [("a".to_string(), 3), ("b".to_string(), 2)]);
    assert_eq!(map.get("a"), Some(&3));
    assert_eq!(map.get("c"), None);
}
