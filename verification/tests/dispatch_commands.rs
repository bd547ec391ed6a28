use landsurvey::dispatch::{
    command_of, command_of_verb, first_arg, has_keyword, helmert_request, layer_stem, resect_request,
    resection_method, volume_operands, Command, ResectRefusal,
};
use landsurvey::ResectionMethod;

#[test]
fn routes_on_the_first_word_in_any_case() {
    assert_eq!(command_of("LS_HELLO"), Some(Command::Hello));
    assert_eq!(command_of("ls_pnezd C:/pts.csv"), Some(Command::Pnezd));
    assert_eq!(command_of("  Ls_Volume top bottom 2 draw"), Some(Command::Volume));
    assert_eq!(command_of("LS_IMPORTPLAN plan.json"), Some(Command::ImportPlan));
    assert_eq!(command_of("ls_inverse 0 0 100 100"), Some(Command::Inverse));
    assert_eq!(command_of("LS_SURFACE eg.xml"), Some(Command::Surface));
    assert_eq!(command_of("LS_LANDXML eg.xml"), Some(Command::LandXml));
    assert_eq!(command_of("landxmlimport eg.xml"), Some(Command::LandXml));
    assert_eq!(command_of("LS_DATUM EG 1190"), Some(Command::Datum));
    assert_eq!(command_of("LS_RTS 0 0 90 1"), Some(Command::Rts));
    assert_eq!(command_of("LS_HELMERT pairs.csv apply"), Some(Command::Helmert));
    assert_eq!(command_of("LS_RESECT shots.csv"), Some(Command::Resect));
    assert_eq!(command_of("ls_list"), Some(Command::List));
}

#[test]
fn other_commands_are_not_ours() {
    assert_eq!(command_of(""), None);
    assert_eq!(command_of("   "), None);
    assert_eq!(command_of("LINE 0,0 1,1"), None);
    assert_eq!(command_of("LS_HELLOX"), None);
    assert_eq!(command_of("xLS_HELLO"), None);
    assert_eq!(command_of_verb("ls_hello"), None);
    assert_eq!(command_of_verb("LS_HELLO"), Some(Command::Hello));
}

#[test]
fn first_argument_is_the_rest_trimmed() {
    assert_eq!(first_arg("LS_PNEZD  C:/My Points/a.csv  "), "C:/My Points/a.csv");
    assert_eq!(first_arg("LS_PNEZD"), "");
    assert_eq!(first_arg("LS_PNEZD   "), "");
    assert_eq!(first_arg("LS_PNEZD\tx"), "x");
}

#[test]
fn helmert_modes_are_trailing_keywords() {
    assert!(helmert_request("LS_HELMERT").is_none());
    assert!(helmert_request("LS_HELMERT   ").is_none());
    let q = helmert_request("LS_HELMERT my pairs.csv APPLY").unwrap();
    assert_eq!(q.path, "my pairs.csv");
    assert!(q.apply && !q.stages && !q.anim && !q.teach);
    let q = helmert_request("LS_HELMERT pairs.csv stages").unwrap();
    assert_eq!(q.path, "pairs.csv");
    assert!(!q.apply && q.stages && !q.anim && !q.teach);
    let q = helmert_request("LS_HELMERT pairs.csv Teach").unwrap();
    assert_eq!(q.path, "pairs.csv");
    assert!(!q.apply && !q.stages && q.anim && q.teach);
    let q = helmert_request("LS_HELMERT pairs.csv anim").unwrap();
    assert_eq!(q.path, "pairs.csv");
    assert!(!q.apply && !q.stages && q.anim && !q.teach);
    let q = helmert_request("LS_HELMERT pairs.csv").unwrap();
    assert_eq!(q.path, "pairs.csv");
    assert!(!q.apply && !q.stages && !q.anim && !q.teach);
    // A keyword must be separated by a space.
    let q = helmert_request("LS_HELMERT reapply").unwrap();
    assert_eq!(q.path, "reapply");
    assert!(!q.apply);
}

#[test]
fn resect_anim_is_a_trailing_keyword() {
    assert!(resect_request("LS_RESECT").is_none());
    let q = resect_request("LS_RESECT shots file.csv ANIM").unwrap();
    assert_eq!(q.path, "shots file.csv");
    assert!(q.anim);
    let q = resect_request("LS_RESECT shots.csv").unwrap();
    assert_eq!(q.path, "shots.csv");
    assert!(!q.anim);
}

#[test]
fn resection_method_choice() {
    assert_eq!(resection_method(0, 0), Err(ResectRefusal::TooFewShots));
    assert_eq!(resection_method(1, 1), Err(ResectRefusal::TooFewShots));
    assert_eq!(resection_method(2, 2), Ok(ResectionMethod::Combined));
    assert_eq!(resection_method(5, 2), Ok(ResectionMethod::Combined));
    assert_eq!(resection_method(3, 1), Ok(ResectionMethod::AngleOnly));
    assert_eq!(resection_method(3, 0), Ok(ResectionMethod::AngleOnly));
    assert_eq!(resection_method(4, 1), Err(ResectRefusal::NoSolvableSet));
    assert_eq!(resection_method(2, 0), Err(ResectRefusal::NoSolvableSet));
}

#[test]
fn volume_defaults_to_top_and_bottom() {
    assert_eq!(volume_operands(&vec![]), Some(("top".to_string(), "bottom".to_string())));
    assert_eq!(volume_operands(&vec!["a".to_string()]), None);
    assert_eq!(
        volume_operands(&vec!["a".to_string(), "b".to_string(), "c".to_string()]),
        Some(("a".to_string(), "b".to_string()))
    );
}

#[test]
fn layer_stem_is_the_upper_case_file_stem() {
    assert_eq!(layer_stem("/data/eg-top.csv"), "EG-TOP");
    assert_eq!(layer_stem("surface.v2.xml"), "SURFACE.V2");
    assert_eq!(layer_stem("straße.csv"), "STRASSE");
    assert_eq!(layer_stem(""), "SURFACE");
    assert_eq!(layer_stem("/"), "SURFACE");
}

#[test]
fn keywords_are_whole_words_in_any_case() {
    assert!(has_keyword("LS_INVERSE 0 0 100 100 ANIM", "anim"));
    assert!(has_keyword("LS_INVERSE anim 0 0 100 100", "anim"));
    assert!(!has_keyword("LS_INVERSE 0 0 100 100 animate", "anim"));
    assert!(!has_keyword("", "anim"));
}

#[test]
fn bare_file_names_keep_their_stem() {
    assert_eq!(layer_stem("top"), "TOP");
    assert_eq!(layer_stem("eg.csv"), "EG");
    assert_eq!(layer_stem("Road_Design-2.xml"), "ROAD_DESIGN-2");
}

#[test]
fn picked_file_paths_give_the_stem() {
    assert_eq!(layer_stem("C:/data/top.csv"), "TOP");
    assert_eq!(layer_stem("/home/me/surveys/eg"), "EG");
    assert_eq!(layer_stem("data/sub/Bottom.xml"), "BOTTOM");
}
