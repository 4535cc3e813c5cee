use recipe_reader::{ReadState, Recipe, Target, TargetOptions, TargetType, Use};

#[test]
fn new_recipe_is_empty_and_ok() {
    let rec = Recipe::new();
    assert!(rec.ok);
    assert_eq!(rec.path, "");
    assert_eq!(rec.target_count, 0);
    assert!(rec.targets.is_empty());
}

#[test]
fn new_options_are_all_off() {
    let o = TargetOptions::new();
    assert!(!o.deps && !o.refs && !o.nolibc && !o.generate_c && !o.generate_ir);
    assert!(o.lib_use.is_empty() && o.export.is_empty() && o.config.is_empty() && o.warnings.is_empty());
}

#[test]
fn new_target_is_temporary() {
    let t = Target::new();
    assert_eq!(t.kind, TargetType::Temporary);
    assert_eq!(t.name, "");
    assert!(t.files.is_empty());
    assert_eq!(t.options, TargetOptions::new());
}

#[test]
fn default_target_type_is_temporary() {
    assert_eq!(TargetType::default(), TargetType::Temporary);
}

#[test]
fn target_type_words() {
    assert_eq!(TargetType::Executable.to_string(), "executable");
    assert_eq!(TargetType::SharedLib.to_string(), "shared");
    assert_eq!(TargetType::StaticLib.to_string(), "static");
}

#[test]
fn use_words() {
    assert_eq!(Use::Static.to_string(), "static");
    assert_eq!(Use::Dynamic.to_string(), "dynamic");
}

#[test]
fn add_target_appends_and_counts() {
    let mut rec = Recipe::new();
    let mut t = Target::new();
    t.name = "x".to_string();
    t.kind = TargetType::Executable;
    rec.add_target(t.clone());
    assert_eq!(rec.target_count, 1);
    assert_eq!(rec.targets, vec![t]);
}

#[test]
fn read_states_differ() {
    assert_ne!(ReadState::Start, ReadState::InsideTarget);
}

#[test]
fn finished_targets() {
    let mut t = Target::new();
    assert!(!t.is_finished());
    t.kind = TargetType::StaticLib;
    assert!(t.is_finished());
    t.files = vec!["a.c2".to_string(), "b.c2".to_string()];
    assert!(t.is_finished());
    t.files.push("a.c2".to_string());
    assert!(!t.is_finished());
    t.files.pop();
    t.options.lib_use = vec![("m".to_string(), Use::Static), ("m".to_string(), Use::Dynamic)];
    assert!(t.is_finished());
    t.options.lib_use.push(("m".to_string(), Use::Static));
    assert!(!t.is_finished());
}

#[test]
fn well_formed_recipes() {
    let mut rec = Recipe::new();
    assert!(rec.is_well_formed());
    assert_eq!(rec.read("executable a\nend\n"), Ok(()));
    assert!(rec.is_well_formed());
    rec.target_count = 5;
    assert!(!rec.is_well_formed());
    rec.target_count = 2;
    rec.targets.push(Target::new());
    assert!(!rec.is_well_formed());
}

#[test]
fn defaults_match_constructors() {
    assert_eq!(Target::default(), Target::new());
    assert_eq!(TargetOptions::default(), TargetOptions::new());
    let rec = Recipe::default();
    assert!(!rec.ok);
    assert!(rec.targets.is_empty());
    assert_eq!(rec.target_count, 0);
}
