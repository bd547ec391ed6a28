use landsurvey::dispatch::command_of;
use landsurvey::ribbon::{IconKind, LandSurveyModule, ModuleEvent, RibbonItem};

#[test]
fn tab_identity() {
    let m = LandSurveyModule;
    assert_eq!(m.id(), "landsurvey");
    assert_eq!(m.title(), "Land Survey");
}

#[test]
fn groups_and_tools() {
    let groups = LandSurveyModule.ribbon_groups();
    let titles: Vec<&str> = groups.iter().map(|g| g.title).collect();
    assert_eq!(titles, vec!["Points", "Plan", "COGO", "Transform", "Surface"]);
    let ids: Vec<Vec<&str>> = groups
        .iter()
        .map(|g| g.tools.iter().map(|t| match t { RibbonItem::LargeTool(d) => d.id }).collect())
        .collect();
    assert_eq!(
        ids,
        vec![
            vec!["LS_PNEZD", "LS_LIST"],
            vec!["LS_IMPORTPLAN"],
            vec!["LS_INVERSE"],
            vec!["LS_RTS", "LS_HELMERT"],
            vec!["LS_SURFACE", "LS_VOLUME", "LS_DATUM"],
        ]
    );
}

#[test]
fn surface_picker_accepts_points_and_landxml() {
    let groups = LandSurveyModule.ribbon_groups();
    let RibbonItem::LargeTool(tool) = &groups[4].tools[0];
    assert_eq!(tool.label, "Build Surface");
    let IconKind::Glyph(g) = &tool.icon;
    assert_eq!(*g, "\u{25B3}");
    match &tool.event {
        ModuleEvent::PluginFileDialog { command, title, filter_name, extensions } => {
            assert_eq!(command, "LS_SURFACE");
            assert_eq!(title, "Build surface from points or LandXML");
            assert_eq!(filter_name, "PNEZD or LandXML surface");
            assert_eq!(extensions, &vec!["csv", "txt", "xml", "landxml"]);
        }
        ModuleEvent::Command(_) => panic!("file dialog expected"),
    }
}

#[test]
fn every_tool_dispatches_a_known_command() {
    for g in LandSurveyModule.ribbon_groups() {
        for t in g.tools {
            let RibbonItem::LargeTool(d) = t;
            let cmd = match d.event {
                ModuleEvent::Command(c) => c,
                ModuleEvent::PluginFileDialog { command, .. } => format!("{command} some/path.csv"),
            };
            assert!(command_of(&cmd).is_some(), "{cmd}");
        }
    }
}
