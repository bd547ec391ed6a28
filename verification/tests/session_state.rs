use landsurvey::state::{same_ignoring_ascii_case, LandSurveyState};

#[test]
fn new_state_is_empty() {
    let st: LandSurveyState<u32> = LandSurveyState::new();
    assert_eq!(st.imported, 0);
    assert!(st.surfaces.is_empty());
    assert!(!st.suppress_labels);
    let d: LandSurveyState<u32> = LandSurveyState::default();
    assert!(d.surfaces.is_empty());
}

#[test]
fn get_after_put_ignores_ascii_case() {
    let mut st: LandSurveyState<u32> = LandSurveyState::new();
    st.put_surface("Top", 1);
    st.put_surface("BOTTOM", 2);
    assert_eq!(st.get_surface("top"), Some(&1));
    assert_eq!(st.get_surface("bottom"), Some(&2));
    assert_eq!(st.get_surface("middle"), None);
}

#[test]
fn put_replaces_and_keeps_the_first_name() {
    let mut st: LandSurveyState<u32> = LandSurveyState::new();
    st.put_surface("EG", 1);
    st.put_surface("eg", 9);
    assert_eq!(st.surfaces.len(), 1);
    assert_eq!(st.surface_names(), vec!["EG"]);
    assert_eq!(st.get_surface("Eg"), Some(&9));
}

#[test]
fn names_in_storing_order() {
    let mut st: LandSurveyState<u32> = LandSurveyState::new();
    st.put_surface("b", 1);
    st.put_surface("a", 2);
    st.put_surface("c", 3);
    assert_eq!(st.surface_names(), vec!["b", "a", "c"]);
}

#[test]
fn ascii_case_only() {
    assert!(same_ignoring_ascii_case("LS-Tin", "ls-tIN"));
    assert!(!same_ignoring_ascii_case("straße", "STRASSE"));
    assert!(!same_ignoring_ascii_case("é", "É"));
    assert!(!same_ignoring_ascii_case("ab", "abc"));
}
