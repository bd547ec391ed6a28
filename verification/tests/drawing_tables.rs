use landsurvey::tables::{app_id_actions, layers_to_add, AppIdAction};

fn strings(v: &[&str]) -> Vec<String> {
    v.iter().map(|s| s.to_string()).collect()
}

#[test]
fn missing_layers_are_added_once_in_order() {
    let entity = strings(&["LS-PT-IP", "0", "", "LS-TIN-EG", "LS-PT-IP", "ls-tin-eg"]);
    let table = strings(&["0", "Defpoints"]);
    assert_eq!(layers_to_add(&entity, &table), vec!["LS-PT-IP", "LS-TIN-EG"]);
}

#[test]
fn table_lookup_ignores_case() {
    let entity = strings(&["defpoints", "straße"]);
    let table = strings(&["DEFPOINTS", "STRASSE"]);
    assert!(layers_to_add(&entity, &table).is_empty());
}

#[test]
fn app_ids_are_added_rehandled_or_kept() {
    assert_eq!(app_id_actions(&Vec::new()), [AppIdAction::Add; 3]);
    let table = vec![
        ("landsurvey_point".to_string(), true),
        ("LANDSURVEY_PLAN".to_string(), false),
        ("ACAD".to_string(), false),
    ];
    assert_eq!(
        app_id_actions(&table),
        [AppIdAction::SetHandle, AppIdAction::Keep, AppIdAction::Add]
    );
}
